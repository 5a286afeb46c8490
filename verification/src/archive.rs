//! Reading a CBZ (ZIP) archive into pages, in natural order, and writing a
//! stored ZIP archive, both with the `zip` crate.

use vstd::prelude::*;
use std::io::{Cursor, Read, Write};
use zip::{ZipArchive, ZipWriter};
use crate::book::{pages_view, Page, PageView};
use crate::natural::{
    law_natural_order_flip, law_natural_order_reflexive, law_natural_order_transitive, natural_order,
    natural_order_of, Order,
};
use crate::text::{
    after_last_slash, base_name, chars_end_with, chars_equal, chars_of, ends_with, lower_chars,
    lower_seq, string_of, utf8_len_at_most,
};
use vstd::utf8::encode_utf8;

verus! {

/// Declares `std::io::Cursor`, opaque, to Verus.
#[verifier::external_type_specification]
#[verifier::external_body]
#[verifier::reject_recursive_types(T)]
pub struct ExCursor<T>(Cursor<T>);

/// Declares `zip::ZipArchive`, opaque, to Verus.
#[verifier::external_type_specification]
#[verifier::external_body]
#[verifier::reject_recursive_types(R)]
pub struct ExZipArchive<R>(ZipArchive<R>);

/// A `zip::ZipWriter` writing into memory. Verus does not take the writer's
/// type (its `Write + Seek` bound), so it is held opaque here.
#[verifier::external_body]
pub struct ZipOut {
    writer: ZipWriter<Cursor<Vec<u8>>>,
}

/// One entry of a ZIP archive as the reader sees it: its name, whether
/// `ZipArchive::by_index` opens it, the bytes `read_to_end` gives (none when
/// opening or reading fails), and whether its compression method is
/// `Stored`.
pub type ZipEntryModel = (Seq<char>, bool, Option<Seq<u8>>, bool);

/// The entries `ZipArchive::new` finds in an in-memory archive, or none when
/// it refuses the bytes.
pub uninterp spec fn zip_parse(data: Seq<u8>) -> Option<Seq<ZipEntryModel>>;

/// The entries of an opened archive, in index order.
pub uninterp spec fn zip_entries(a: ZipArchive<Cursor<Vec<u8>>>) -> Seq<ZipEntryModel>;

/// `ZipArchive::new` over the bytes of an archive. The contract claims that
/// the archive's entries are `zip_parse(data)`, and that it fails exactly
/// when `zip_parse(data)` is none. The error text is not stated.
#[verifier::external_body]
fn open_archive(data: Vec<u8>) -> (r: Result<ZipArchive<Cursor<Vec<u8>>>, String>)
    ensures
        match r {
            Ok(a) => zip_parse(data@) == Some(zip_entries(a)),
            Err(_) => zip_parse(data@) is None,
        },
{
    match ZipArchive::new(Cursor::new(data)) {
        Ok(a) => Ok(a),
        Err(e) => Err(e.to_string()),
    }
}

/// `ZipArchive::len`: the number of entries.
#[verifier::external_body]
fn archive_len(a: &ZipArchive<Cursor<Vec<u8>>>) -> (r: usize)
    ensures
        r == zip_entries(*a).len(),
{
    a.len()
}

/// `ZipArchive::by_index` then `ZipFile::name`: the name of entry `i`, or
/// an error when the entry cannot be opened. The archive's entries are unchanged.
#[verifier::external_body]
fn entry_name(a: &mut ZipArchive<Cursor<Vec<u8>>>, i: usize) -> (r: Result<String, String>)
    requires
        i < zip_entries(*old(a)).len(),
    ensures
        zip_entries(*final(a)) == zip_entries(*old(a)),
        match r {
            Ok(n) => zip_entries(*old(a))[i as int].1 && n@ == zip_entries(*old(a))[i as int].0,
            Err(_) => !zip_entries(*old(a))[i as int].1,
        },
{
    match a.by_index(i) {
        Ok(f) => Ok(f.name().to_string()),
        Err(e) => Err(e.to_string()),
    }
}

/// `ZipArchive::by_index` then `Read::take(limit)` and `read_to_end`: the
/// decompressed bytes of entry `i`, read no further than `limit` bytes.
/// The contract claims: an error comes only when reading the whole entry fails
/// too; fewer than `limit` bytes are the whole entry (its end was reached, and
/// its checksum checked); an entry whose whole reading gives `limit` bytes or
/// more gives its first `limit`. The archive's entries are unchanged.
#[verifier::external_body]
fn entry_bytes_at_most(a: &mut ZipArchive<Cursor<Vec<u8>>>, i: usize, limit: u64) -> (r: Result<Vec<u8>, String>)
    requires
        i < zip_entries(*old(a)).len(),
    ensures
        zip_entries(*final(a)) == zip_entries(*old(a)),
        match r {
            Ok(b) => {
                let e = zip_entries(*old(a))[i as int];
                &&& e.1
                &&& b@.len() <= limit
                &&& b@.len() < limit ==> e.2 == Some(b@)
                &&& e.2 matches Some(d) ==> (d.len() < limit ==> d == b@) && (d.len() >= limit
                    ==> b@.len() == limit)
            },
            Err(_) => zip_entries(*old(a))[i as int].2 is None,
        },
{
    let f = match a.by_index(i) {
        Ok(f) => f,
        Err(e) => return Err(e.to_string()),
    };
    let mut buf = Vec::new();
    match f.take(limit).read_to_end(&mut buf) {
        Ok(_) => Ok(buf),
        Err(e) => Err(e.to_string()),
    }
}

/// The most bytes read from one archive entry: 512 MiB.
pub const MAX_ENTRY_BYTES: u64 = 536870912;

/// The most bytes read from one archive in all: 4 GiB.
pub const MAX_READ_BYTES: u64 = 4294967296;

/// The entry is read when an archive is read: it opens, it is no directory,
/// and reading it gives bytes.
pub open spec fn is_read(e: ZipEntryModel) -> bool {
    e.1 && !is_dir_name(e.0) && e.2 is Some
}

/// The number of bytes reading the entries `es` gives in all.
pub open spec fn read_total(es: Seq<ZipEntryModel>) -> nat
    decreases es.len(),
{
    if es.len() == 0 {
        0
    } else {
        let e = es.last();
        read_total(es.drop_last()) + if is_read(e) {
            e.2->0.len()
        } else {
            0
        }
    }
}

/// Reading the entries `es` stays within the limits against oversized
/// archives: at most `MAX_ENTRY_BYTES` from any entry, at most
/// `MAX_READ_BYTES` in all.
pub open spec fn fits_read_limits(es: Seq<ZipEntryModel>) -> bool {
    &&& read_total(es) <= MAX_READ_BYTES
    &&& forall|j: int| 0 <= j < es.len() && is_read(#[trigger] es[j]) ==> es[j].2->0.len() <= MAX_ENTRY_BYTES
}

/// Reading more entries reads no fewer bytes.
proof fn lemma_read_total_grows(es: Seq<ZipEntryModel>, k: int)
    requires
        0 <= k <= es.len(),
    ensures
        read_total(es.subrange(0, k)) <= read_total(es),
    decreases es.len() - k,
{
    if k < es.len() {
        assert(es.subrange(0, k + 1).drop_last() =~= es.subrange(0, k));
        lemma_read_total_grows(es, k + 1);
    } else {
        assert(es.subrange(0, k) =~= es);
    }
}

/// A ZIP directory entry: its name ends with `/` or `\`.
pub open spec fn is_dir_name(name: Seq<char>) -> bool {
    name.len() > 0 && (name.last() == '/' || name.last() == '\\')
}

/// What an archive entry is to the editor.
#[derive(Clone, Copy, Debug, PartialEq, Eq, Structural)]
pub enum EntryKind {
    /// The `ComicInfo.xml` metadata.
    Metadata,
    /// A page picture.
    Image,
    /// Anything else, left out.
    Other,
}

/// The picture suffixes a page name may end with (lower-cased).
pub open spec fn has_image_suffix(lower: Seq<char>) -> bool {
    ||| ends_with(lower, seq!['.', 'j', 'p', 'g'])
    ||| ends_with(lower, seq!['.', 'j', 'p', 'e', 'g'])
    ||| ends_with(lower, seq!['.', 'p', 'n', 'g'])
    ||| ends_with(lower, seq!['.', 'w', 'e', 'b', 'p'])
    ||| ends_with(lower, seq!['.', 'g', 'i', 'f'])
    ||| ends_with(lower, seq!['.', 'b', 'm', 'p'])
}

/// The metadata file name, `comicinfo.xml`, in lower case.
pub open spec fn comicinfo_lower() -> Seq<char> {
    seq!['c', 'o', 'm', 'i', 'c', 'i', 'n', 'f', 'o', '.', 'x', 'm', 'l']
}

/// The metadata entry: its file name (after the last `/`) is `ComicInfo.xml`,
/// ignoring ASCII case.
pub open spec fn is_comicinfo_name(name: Seq<char>) -> bool {
    lower_seq(after_last_slash(name)) == comicinfo_lower()
}

/// The kind of an entry, from its name ignoring ASCII case: `ComicInfo.xml`
/// is the metadata; `.jpg`, `.jpeg`, `.png`, `.webp`, `.gif`, `.bmp` are
/// pages; anything else (another `.xml` among them) is left out.
pub open spec fn entry_kind_spec(name: Seq<char>) -> EntryKind {
    let l = lower_seq(name);
    if is_comicinfo_name(name) {
        EntryKind::Metadata
    } else if has_image_suffix(l) {
        EntryKind::Image
    } else {
        EntryKind::Other
    }
}

/// Classifies an archive entry by its name.
pub fn entry_kind(name: &str) -> (r: EntryKind)
    ensures
        r == entry_kind_spec(name@),
{
    let chars = chars_of(name);
    let base = lower_chars(&base_name(&chars));
    let ci = vec!['c', 'o', 'm', 'i', 'c', 'i', 'n', 'f', 'o', '.', 'x', 'm', 'l'];
    assert(ci@ =~= comicinfo_lower());
    if chars_equal(&base, &ci) {
        return EntryKind::Metadata;
    }
    let l = lower_chars(&chars);
    let suffixes = vec![
        vec!['.', 'j', 'p', 'g'],
        vec!['.', 'j', 'p', 'e', 'g'],
        vec!['.', 'p', 'n', 'g'],
        vec!['.', 'w', 'e', 'b', 'p'],
        vec!['.', 'g', 'i', 'f'],
        vec!['.', 'b', 'm', 'p'],
    ];
    assert(suffixes@[0]@ =~= seq!['.', 'j', 'p', 'g']);
    assert(suffixes@[1]@ =~= seq!['.', 'j', 'p', 'e', 'g']);
    assert(suffixes@[2]@ =~= seq!['.', 'p', 'n', 'g']);
    assert(suffixes@[3]@ =~= seq!['.', 'w', 'e', 'b', 'p']);
    assert(suffixes@[4]@ =~= seq!['.', 'g', 'i', 'f']);
    assert(suffixes@[5]@ =~= seq!['.', 'b', 'm', 'p']);
    let mut i: usize = 0;
    while i < suffixes.len()
        invariant
            suffixes@.len() == 6,
            suffixes@[0]@ == seq!['.', 'j', 'p', 'g'],
            suffixes@[1]@ == seq!['.', 'j', 'p', 'e', 'g'],
            suffixes@[2]@ == seq!['.', 'p', 'n', 'g'],
            suffixes@[3]@ == seq!['.', 'w', 'e', 'b', 'p'],
            suffixes@[4]@ == seq!['.', 'g', 'i', 'f'],
            suffixes@[5]@ == seq!['.', 'b', 'm', 'p'],
            i <= 6,
            forall|k: int| 0 <= k < i ==> !ends_with(l@, suffixes@[k]@),
            !is_comicinfo_name(name@),
            l@ == lower_seq(name@),
        decreases 6 - i,
    {
        if chars_end_with(&l, &suffixes[i]) {
            return EntryKind::Image;
        }
        i = i + 1;
    }
    EntryKind::Other
}

/// What reading the first entries `es` gives: the pages (name, bytes) in
/// archive order and the last metadata seen, or an error as soon as an entry
/// cannot be opened, or a non-directory entry cannot be read. Directories and
/// other entries are skipped.
pub open spec fn scan_entries(es: Seq<ZipEntryModel>) -> Result<
    (Seq<(Seq<char>, Seq<u8>)>, Option<Seq<u8>>),
    (),
>
    decreases es.len(),
{
    if es.len() == 0 {
        Ok((Seq::empty(), None))
    } else {
        match scan_entries(es.drop_last()) {
            Err(()) => Err(()),
            Ok((ps, ci)) => {
                let e = es.last();
                if !e.1 {
                    Err(())
                } else if is_dir_name(e.0) {
                    Ok((ps, ci))
                } else {
                    match e.2 {
                        None => Err(()),
                        Some(b) => match entry_kind_spec(e.0) {
                            EntryKind::Metadata => Ok((ps, Some(b))),
                            EntryKind::Image => Ok((ps.push((e.0, b)), ci)),
                            EntryKind::Other => Ok((ps, ci)),
                        },
                    }
                }
            },
        }
    }
}

/// An error while reading the first entries stays an error when more follow.
proof fn lemma_scan_err_extends(es: Seq<ZipEntryModel>, k: int)
    requires
        0 <= k <= es.len(),
        scan_entries(es.subrange(0, k)) is Err,
    ensures
        scan_entries(es) is Err,
    decreases es.len() - k,
{
    if k < es.len() {
        assert(es.subrange(0, k + 1).drop_last() =~= es.subrange(0, k));
        lemma_scan_err_extends(es, k + 1);
    } else {
        assert(es.subrange(0, k) =~= es);
    }
}

/// Pages read from an archive: the given name and bytes, not failed, not
/// deleted, numbered 0.
pub open spec fn read_pages(ps: Seq<(Seq<char>, Seq<u8>)>) -> Seq<PageView> {
    ps.map_values(
        |p: (Seq<char>, Seq<u8>)|
            PageView { name: p.0, bytes: p.1, failed: false, delete: false, uid: 0 },
    )
}

/// Each page's name comes, in natural order, no later than that of any page
/// after it.
pub open spec fn sorted_by_name(s: Seq<PageView>) -> bool {
    forall|i: int, j: int|
        0 <= i < j < s.len() ==> #[trigger] natural_order(s[i].name, s[j].name) != Order::Greater
}

/// Inserting into a sorted list where the new name is not before its
/// predecessor and is before every name after it keeps it sorted.
#[verifier::spinoff_prover]
proof fn lemma_insert_sorted(s: Seq<PageView>, j: int, x: PageView)
    requires
        sorted_by_name(s),
        0 <= j <= s.len(),
        j > 0 ==> natural_order(x.name, s[j - 1].name) != Order::Less,
        forall|k: int| j <= k < s.len() ==> #[trigger] natural_order(x.name, s[k].name) == Order::Less,
    ensures
        sorted_by_name(s.insert(j, x)),
{
    let t = s.insert(j, x);
    if j > 0 {
        law_natural_order_flip(x.name, s[j - 1].name);
    }
    assert forall|p: int, q: int| 0 <= p < q < t.len() implies #[trigger] natural_order(
        t[p].name,
        t[q].name,
    ) != Order::Greater by {
        if q < j {
            assert(t[p] == s[p] && t[q] == s[q]);
        } else if q == j {
            assert(t[q] == x);
            assert(t[p] == s[p]);
            if p < j - 1 {
                assert(natural_order(s[p].name, s[j - 1].name) != Order::Greater);
                law_natural_order_transitive(s[p].name, s[j - 1].name, x.name);
            }
        } else if p == j {
            assert(t[p] == x && t[q] == s[q - 1]);
            assert(natural_order(x.name, s[q - 1].name) == Order::Less);
        } else if p < j {
            assert(t[p] == s[p] && t[q] == s[q - 1]);
        } else {
            assert(t[p] == s[p - 1] && t[q] == s[q - 1]);
        }
    }
}

/// The test "is named `nm`".
pub open spec fn has_name(nm: Seq<char>) -> spec_fn(PageView) -> bool {
    |p: PageView| p.name == nm
}

/// The pages of `s` named `nm`, in their order in `s`.
pub open spec fn named(s: Seq<PageView>, nm: Seq<char>) -> Seq<PageView> {
    s.filter(has_name(nm))
}

/// Taking `x` off the front of `rest` and inserting it at `j` in `out`, before
/// pages whose names all differ from its own, keeps the pages of each name in
/// their order.
proof fn lemma_insert_keeps_named(
    out: Seq<PageView>,
    rest: Seq<PageView>,
    j: int,
    x: PageView,
    nm: Seq<char>,
)
    requires
        0 <= j <= out.len(),
        forall|k: int| j <= k < out.len() ==> #[trigger] out[k].name != x.name,
    ensures
        named(out.insert(j, x), nm) + named(rest, nm) == named(out, nm) + named(seq![x] + rest, nm),
{
    let pred = has_name(nm);
    let a = out.take(j);
    let b = out.skip(j);
    assert(out =~= a + b);
    assert(out.insert(j, x) =~= a + (seq![x] + b));
    Seq::filter_distributes_over_add(a, b, pred);
    Seq::filter_distributes_over_add(a, seq![x] + b, pred);
    b.lemma_filter_prepend(x, pred);
    rest.lemma_filter_prepend(x, pred);
    if x.name == nm {
        assert forall|k: int| 0 <= k < b.len() implies !pred(#[trigger] b[k]) by {
            assert(b[k] == out[j + k]);
        }
        b.lemma_all_neg_filter_empty(pred);
        assert(b.filter(pred) =~= Seq::<PageView>::empty());
        assert(named(out.insert(j, x), nm) + named(rest, nm) =~= named(out, nm) + named(
            seq![x] + rest,
            nm,
        ));
    } else {
        assert(named(out.insert(j, x), nm) + named(rest, nm) =~= named(out, nm) + named(
            seq![x] + rest,
            nm,
        ));
    }
}

/// Sorts pages by name in natural order (`page2` before `page10`), keeping
/// pages with equal names in their order.
pub fn sort_pages(pages: Vec<Page>) -> (r: Vec<Page>)
    ensures
        pages_view(r@).to_multiset() == pages_view(pages@).to_multiset(),
        sorted_by_name(pages_view(r@)),
        forall|nm: Seq<char>| #[trigger] named(pages_view(r@), nm) == named(pages_view(pages@), nm),
        sorted_by_name(pages_view(pages@)) ==> pages_view(r@) == pages_view(pages@),
{
    broadcast use vstd::seq_lib::group_to_multiset_ensures;

    let ghost orig = pages_view(pages@);
    let mut src = pages;
    let mut out: Vec<Page> = Vec::new();
    assert(pages_view(out@) =~= Seq::empty());
    assert(pages_view(src@) =~= orig);
    while src.len() > 0
        invariant
            pages_view(out@).to_multiset().add(pages_view(src@).to_multiset()) == orig.to_multiset(),
            sorted_by_name(pages_view(out@)),
            forall|nm: Seq<char>| #[trigger] named(orig, nm) == named(pages_view(out@), nm) + named(
                pages_view(src@),
                nm,
            ),
            sorted_by_name(orig) ==> orig == pages_view(out@) + pages_view(src@),
        decreases src.len(),
    {
        let ghost src_before = pages_view(src@);
        let p = src.remove(0);
        assert(pages_view(src@) =~= src_before.remove(0));
        let key = chars_of(p.name.as_str());
        let mut j: usize = out.len();
        while j > 0 && natural_order_of(&key, &chars_of(out[j - 1].name.as_str())) == Order::Less
            invariant
                j <= out@.len(),
                key@ == p.name@,
                sorted_by_name(orig) ==> j == out@.len() && orig == pages_view(out@) + seq![p@]
                    + pages_view(src@),
                forall|k: int|
                    j <= k < out@.len() ==> #[trigger] natural_order(key@, pages_view(out@)[k].name)
                        == Order::Less,
            decreases j,
        {
            assert(pages_view(out@)[j - 1] == out@[j - 1]@);
            proof {
                if sorted_by_name(orig) {
                    let m = out@.len() - 1;
                    assert(orig[m] == pages_view(out@)[m]);
                    assert(orig[m + 1] == p@);
                    assert(natural_order(orig[m].name, orig[m + 1].name) != Order::Greater);
                    law_natural_order_flip(orig[m].name, p@.name);
                    assert(false);
                }
            }
            j = j - 1;
        }
        proof {
            if j > 0 {
                assert(pages_view(out@)[j - 1] == out@[j - 1]@);
            }
            lemma_insert_sorted(pages_view(out@), j as int, p@);
            law_natural_order_reflexive(p.name@);
            assert forall|k: int| j <= k < out@.len() implies #[trigger] pages_view(out@)[k].name
                != p@.name by {
                assert(natural_order(key@, pages_view(out@)[k].name) == Order::Less);
            }
            assert forall|nm: Seq<char>| #[trigger] named(orig, nm) == named(
                pages_view(out@).insert(j as int, p@),
                nm,
            ) + named(pages_view(src@), nm) by {
                lemma_insert_keeps_named(pages_view(out@), pages_view(src@), j as int, p@, nm);
                assert(src_before =~= seq![p@] + pages_view(src@));
            }
        }
        let ghost out_before = pages_view(out@);
        out.insert(j, p);
        assert(pages_view(out@) =~= out_before.insert(j as int, p@));
        proof {
            if sorted_by_name(orig) {
                assert(pages_view(out@) =~= out_before + seq![p@]);
                assert(orig =~= pages_view(out@) + pages_view(src@));
            }
        }
        assert(src_before =~= pages_view(src@).insert(0, p@));
        proof {
            vstd::seq_lib::to_multiset_insert(pages_view(src@), 0, p@);
            vstd::seq_lib::to_multiset_insert(out_before, j as int, p@);
        }
        assert(pages_view(src@).insert(0, p@).to_multiset() == pages_view(src@).to_multiset().insert(
            p@,
        ));
        assert(src_before.to_multiset() == pages_view(src@).to_multiset().insert(p@));
        assert(out_before.insert(j as int, p@).to_multiset() == out_before.to_multiset().insert(p@));
        assert(pages_view(out@).to_multiset() == out_before.to_multiset().insert(p@));
        assert(pages_view(out@).to_multiset().add(pages_view(src@).to_multiset())
            =~= out_before.to_multiset().add(src_before.to_multiset()));
    }
    assert(pages_view(src@) =~= Seq::empty());
    assert(pages_view(out@).to_multiset().add(pages_view(src@).to_multiset()) =~= pages_view(
        out@,
    ).to_multiset());
    assert forall|nm: Seq<char>| #[trigger] named(pages_view(out@), nm) == named(orig, nm) by {
        reveal(Seq::filter);
        assert(named(pages_view(src@), nm) =~= Seq::<PageView>::empty());
        assert(named(orig, nm) =~= named(pages_view(out@), nm) + named(pages_view(src@), nm));
    }
    out
}

/// How an entry's bytes are kept in an archive.
#[derive(Clone, Copy, Debug, PartialEq, Eq, Structural)]
pub enum Compression {
    /// As they are, uncompressed.
    Stored,
    /// Compressed with Deflate.
    Deflated,
}

/// The entries written so far into a `ZipOut`, in order: their names, the
/// bytes written into each, and whether each is stored uncompressed.
pub uninterp spec fn zip_out_entries(w: ZipOut) -> Seq<(Seq<char>, Seq<u8>, bool)>;

/// Every call made on the writer so far succeeded.
pub uninterp spec fn zip_out_sound(w: ZipOut) -> bool;

/// Written entries as an archive holding them: each opens and reads back its
/// bytes, stored or not as it was written.
pub open spec fn written_entries(es: Seq<(Seq<char>, Seq<u8>, bool)>) -> Seq<ZipEntryModel> {
    es.map_values(|e: (Seq<char>, Seq<u8>, bool)| (e.0, true, Some(e.1), e.2))
}

/// Entries as an archive holding them stored: each opens, reads back its
/// bytes, and is stored uncompressed.
pub open spec fn stored_entries(es: Seq<(Seq<char>, Seq<u8>)>) -> Seq<ZipEntryModel> {
    es.map_values(|e: (Seq<char>, Seq<u8>)| (e.0, true, Some(e.1), true))
}

/// `(name, bytes)` entries tagged with how they are kept.
pub open spec fn tagged(es: Seq<(Seq<char>, Seq<u8>)>, stored: bool) -> Seq<(Seq<char>, Seq<u8>, bool)> {
    es.map_values(|e: (Seq<char>, Seq<u8>)| (e.0, e.1, stored))
}

/// An entry of that name was written.
pub open spec fn written_name(es: Seq<(Seq<char>, Seq<u8>, bool)>, name: Seq<char>) -> bool {
    exists|j: int| 0 <= j < es.len() && #[trigger] es[j].0 == name
}

/// Entries the `zip` writer takes: their names are distinct and at most
/// 65535 bytes long in UTF-8, and each holds at most `u32::MAX` bytes.
pub open spec fn zip_fits(es: Seq<(Seq<char>, Seq<u8>)>) -> bool {
    &&& forall|i: int, j: int| 0 <= i < j < es.len() ==> #[trigger] es[i].0 != #[trigger] es[j].0
    &&& forall|i: int| 0 <= i < es.len() ==> encode_utf8((#[trigger] es[i]).0).len() <= 65535
    &&& forall|i: int| 0 <= i < es.len() ==> (#[trigger] es[i]).1.len() <= u32::MAX
}

/// `ZipWriter::new` over an empty in-memory buffer: no entry yet.
#[verifier::external_body]
fn zip_out_new() -> (r: ZipOut)
    ensures
        zip_out_entries(r) == Seq::<(Seq<char>, Seq<u8>, bool)>::empty(),
        zip_out_sound(r),
{
    ZipOut { writer: ZipWriter::new(Cursor::new(Vec::new())) }
}

/// `ZipWriter::start_file` with the given compression method and otherwise
/// default options (which stamp the current time, or a fixed date when the
/// clock cannot be read). On a writer where every call succeeded, it succeeds
/// exactly when no entry of that name was written (`zip` refuses a duplicate
/// name), and then the archive has one more entry, of that name, empty so
/// far. A name over 65535 bytes makes `zip` panic; it is left out.
#[verifier::external_body]
fn zip_out_start(w: &mut ZipOut, name: String, method: Compression) -> (r: Result<(), String>)
    requires
        encode_utf8(name@).len() <= 65535,
    ensures
        zip_out_sound(*old(w)) ==> (r is Ok <==> !written_name(zip_out_entries(*old(w)), name@)),
        zip_out_sound(*old(w)) && r is Ok ==> zip_out_sound(*final(w)) && zip_out_entries(*final(w))
            == zip_out_entries(*old(w)).push((name@, Seq::empty(), method == Compression::Stored)),
{
    let m = match method {
        Compression::Stored => zip::CompressionMethod::Stored,
        Compression::Deflated => zip::CompressionMethod::Deflated,
    };
    let opts = zip::write::SimpleFileOptions::default().compression_method(m);
    match w.writer.start_file(name, opts) {
        Ok(()) => Ok(()),
        Err(e) => Err(e.to_string()),
    }
}

/// `Write::write_all` into the entry being written. On a writer where every
/// call succeeded, it succeeds exactly when the entry stays within `u32::MAX`
/// bytes (`zip` refuses more without the large-file option), and then the
/// bytes are appended to the last entry.
#[verifier::external_body]
fn zip_out_write(w: &mut ZipOut, data: &[u8]) -> (r: Result<(), String>)
    requires
        zip_out_entries(*old(w)).len() > 0,
    ensures
        zip_out_sound(*old(w)) ==> (r is Ok <==> zip_out_entries(*old(w)).last().1.len() + data@.len()
            <= u32::MAX),
        zip_out_sound(*old(w)) && r is Ok ==> zip_out_sound(*final(w)) && zip_out_entries(*final(w))
            == ({
            let es = zip_out_entries(*old(w));
            es.update(es.len() - 1, (es.last().0, es.last().1 + data@, es.last().2))
        }),
{
    match w.writer.write_all(data) {
        Ok(()) => Ok(()),
        Err(e) => Err(e.to_string()),
    }
}

/// `ZipWriter::finish`, giving the archive bytes. On a writer where every call
/// succeeded it succeeds. The bytes hold the time the entries were started, so
/// they are not stated; what is stated is that `ZipArchive::new` reads them
/// back as the entries written, in order, each opening, reading back its
/// bytes, and stored or not as it was written.
#[verifier::external_body]
fn zip_out_finish(w: ZipOut) -> (r: Result<Vec<u8>, String>)
    ensures
        zip_out_sound(w) ==> r is Ok,
        zip_out_sound(w) ==> (r matches Ok(bytes) ==> zip_parse(bytes@) == Some(
            written_entries(zip_out_entries(w)),
        )),
{
    match w.writer.finish() {
        Ok(c) => Ok(c.into_inner()),
        Err(e) => Err(e.to_string()),
    }
}

/// One entry to write: its name and its bytes.
pub struct ZipEntry {
    pub name: String,
    pub data: Vec<u8>,
}

/// The `(name, bytes)` view of entries to write.
pub open spec fn entries_view(es: Seq<ZipEntry>) -> Seq<(Seq<char>, Seq<u8>)> {
    es.map_values(|e: ZipEntry| (e.name@, e.data@))
}

/// Writes the entries, in order, as a stored (uncompressed) ZIP archive in
/// memory. It succeeds exactly when the `zip` writer takes the entries
/// (`zip_fits`: distinct names of at most 65535 bytes, entries of at most
/// `u32::MAX` bytes); a name too long is refused here, the rest by the writer,
/// whose message is the error. The archive reads back as the entries given,
/// each stored.
pub fn write_stored_zip(entries: Vec<ZipEntry>) -> (r: Result<Vec<u8>, String>)
    ensures
        r is Ok <==> zip_fits(entries_view(entries@)),
        r matches Ok(bytes) ==> zip_parse(bytes@) == Some(stored_entries(entries_view(entries@))),
{
    let ghost all = entries_view(entries@);
    let mut w = zip_out_new();
    let mut rest = entries;
    let total = rest.len();
    let mut k: usize = 0;
    while rest.len() > 0
        invariant
            all == entries_view(entries@),
            k + rest@.len() == all.len(),
            all.len() == total,
            entries_view(rest@) == all.skip(k as int),
            zip_out_sound(w),
            zip_out_entries(w) == tagged(all.take(k as int), true),
            zip_fits(all.take(k as int)),
        decreases rest.len(),
    {
        let ghost pre = rest@;
        let e = rest.remove(0);
        let ghost ev = (e.name@, e.data@);
        assert(ev == all[k as int]) by {
            assert(entries_view(pre)[0] == ev);
            assert(all.skip(k as int)[0] == all[k as int]);
        }
        assert(rest@ =~= pre.subrange(1, pre.len() as int));
        assert(entries_view(rest@) =~= all.skip(k + 1)) by {
            assert forall|m: int| 0 <= m < rest@.len() implies entries_view(rest@)[m] == all.skip(
                k + 1,
            )[m] by {
                assert(entries_view(rest@)[m] == entries_view(pre)[m + 1]);
            }
        }
        let ghost before = zip_out_entries(w);
        if !utf8_len_at_most(e.name.as_str(), 65535) {
            assert(encode_utf8(all[k as int].0).len() > 65535);
            assert(!zip_fits(all));
            return Err(string_of(&vec!['n', 'a', 'm', 'e', ' ', 't', 'o', 'o', ' ', 'l', 'o', 'n', 'g']));
        }
        match zip_out_start(&mut w, e.name, Compression::Stored) {
            Ok(()) => {},
            Err(msg) => {
                proof {
                    let j = choose|j: int| 0 <= j < before.len() && #[trigger] before[j].0 == ev.0;
                    assert(before.len() == k);
                    assert(before[j].0 == all.take(k as int)[j].0);
                    assert(all.take(k as int)[j] == all[j]);
                    assert(all[j].0 == all[k as int].0 && j < k);
                    assert(!zip_fits(all));
                }
                return Err(msg);
            },
        }
        match zip_out_write(&mut w, e.data.as_slice()) {
            Ok(()) => {},
            Err(msg) => {
                assert(!zip_fits(all));
                return Err(msg);
            },
        }
        assert(zip_out_entries(w) =~= tagged(all.take(k + 1), true));
        assert(zip_fits(all.take(k + 1))) by {
            let t = all.take(k + 1);
            assert forall|i: int, j: int| 0 <= i < j < t.len() implies #[trigger] t[i].0
                != #[trigger] t[j].0 by {
                if j == k {
                    if t[i].0 == t[j].0 {
                        assert(before[i].0 == ev.0);
                    }
                } else {
                    assert(all.take(k as int)[i] == t[i] && all.take(k as int)[j] == t[j]);
                }
            }
            assert forall|i: int| 0 <= i < t.len() implies encode_utf8((#[trigger] t[i]).0).len()
                <= 65535 by {
                if i < k {
                    assert(all.take(k as int)[i] == t[i]);
                }
            }
            assert forall|i: int| 0 <= i < t.len() implies (#[trigger] t[i]).1.len() <= u32::MAX by {
                if i < k {
                    assert(all.take(k as int)[i] == t[i]);
                }
            }
        }
        k = k + 1;
    }
    assert(all.take(k as int) =~= all);
    assert(written_entries(tagged(all, true)) =~= stored_entries(all));
    zip_out_finish(w)
}

/// What reading the archive `data` gives when it succeeds: the metadata found
/// by the entry scan, and the pages it found (see `read_pages`) sorted by name
/// in natural order, pages of the same name in archive order; pages already
/// in order stay as they are.
pub open spec fn read_back(data: Seq<u8>, pages: Seq<PageView>, ci: Option<Seq<u8>>) -> bool {
    &&& zip_parse(data) is Some
    &&& scan_entries(zip_parse(data)->0) is Ok
    &&& ({
        let (ps, ci0) = scan_entries(zip_parse(data)->0)->Ok_0;
        &&& ci == ci0
        &&& pages.to_multiset() == read_pages(ps).to_multiset()
        &&& sorted_by_name(pages)
        &&& forall|nm: Seq<char>| #[trigger] named(pages, nm) == named(read_pages(ps), nm)
        &&& sorted_by_name(read_pages(ps)) ==> pages == read_pages(ps)
    })
}

/// Reads a CBZ archive from its bytes: the entries named like pictures become
/// pages (not failed, not deleted, numbered 0), sorted by name in natural
/// order, pages of the same name in archive order; the last entry named
/// `ComicInfo.xml` is the metadata. Fails exactly when the
/// archive cannot be opened, or an entry cannot be opened, or a non-directory
/// entry cannot be read, or reading would pass `MAX_ENTRY_BYTES` for an entry
/// or `MAX_READ_BYTES` in all; no entry is read further than these limits.
pub fn read_cbz(data: Vec<u8>) -> (r: Result<(Vec<Page>, Option<Vec<u8>>), String>)
    ensures
        r is Ok <==> (zip_parse(data@) matches Some(es) && scan_entries(es) is Ok
            && fits_read_limits(es)),
        r matches Ok((pages, ci)) ==> read_back(
            data@,
            pages_view(pages@),
            crate::comicinfo::bytes_opt_view(ci),
        ),
{
    let mut z = match open_archive(data) {
        Ok(z) => z,
        Err(e) => {
            return Err(e);
        },
    };
    let ghost es = zip_entries(z);
    let n = archive_len(&z);
    let mut pages: Vec<Page> = Vec::new();
    let mut ci: Option<Vec<u8>> = None;
    let mut i: usize = 0;
    let mut total: u64 = 0;
    assert(es.subrange(0, 0) =~= Seq::<ZipEntryModel>::empty());
    while i < n
        invariant
            n == es.len(),
            i <= n,
            zip_entries(z) == es,
            zip_parse(data@) == Some(es),
            total == read_total(es.subrange(0, i as int)),
            total <= MAX_READ_BYTES,
            forall|j: int| 0 <= j < i && is_read(#[trigger] es[j]) ==> es[j].2->0.len() <= MAX_ENTRY_BYTES,
            scan_entries(es.subrange(0, i as int)) matches Ok((ps, ci0)) && pages_view(pages@)
                == read_pages(ps) && crate::comicinfo::bytes_opt_view(ci) == ci0,
        decreases n - i,
    {
        assert(es.subrange(0, i + 1).drop_last() =~= es.subrange(0, i as int));
        assert(es.subrange(0, i + 1).last() == es[i as int]);
        let name = match entry_name(&mut z, i) {
            Ok(nm) => nm,
            Err(e) => {
                proof {
                    lemma_scan_err_extends(es, i + 1);
                }
                return Err(e);
            },
        };
        let nc = chars_of(name.as_str());
        let is_dir = nc.len() > 0 && (nc[nc.len() - 1] == '/' || nc[nc.len() - 1] == '\\');
        assert(is_dir == is_dir_name(es[i as int].0));
        let ghost prev = total;
        if !is_dir {
            let room: u64 = MAX_READ_BYTES - total;
            let cap: u64 = if room < MAX_ENTRY_BYTES {
                room
            } else {
                MAX_ENTRY_BYTES
            };
            let buf = match entry_bytes_at_most(&mut z, i, cap + 1) {
                Ok(b) => b,
                Err(e) => {
                    proof {
                        lemma_scan_err_extends(es, i + 1);
                    }
                    return Err(e);
                },
            };
            if buf.len() as u64 > cap {
                proof {
                    let e = es[i as int];
                    if e.2 is None {
                        lemma_scan_err_extends(es, i + 1);
                    } else {
                        let d = e.2->0;
                        assert(is_read(e));
                        if d.len() > MAX_ENTRY_BYTES {
                            assert(!fits_read_limits(es));
                        } else {
                            assert(es.subrange(0, i + 1).drop_last() =~= es.subrange(0, i as int));
                            assert(read_total(es.subrange(0, i + 1)) == total + d.len());
                            lemma_read_total_grows(es, i + 1);
                        }
                    }
                }
                return Err(string_of(&vec!['e', 'n', 't', 'r', 'y', ' ', 't', 'o', 'o', ' ', 'l', 'a', 'r', 'g', 'e']));
            }
            total = total + buf.len() as u64;
            match entry_kind(name.as_str()) {
                EntryKind::Metadata => {
                    ci = Some(buf);
                },
                EntryKind::Image => {
                    let ghost before = pages_view(pages@);
                    let page = Page { name, bytes: buf, failed: false, delete: false, uid: 0 };
                    let ghost pv = page@;
                    pages.push(page);
                    assert(pages_view(pages@) =~= before.push(pv));
                    proof {
                        let (ps, ci0) = scan_entries(es.subrange(0, i as int))->Ok_0;
                        assert(read_pages(ps.push((pv.name, pv.bytes))) =~= read_pages(ps).push(pv));
                    }
                },
                EntryKind::Other => {},
            }
        }
        assert(read_total(es.subrange(0, i + 1)) == if is_dir {
            prev as nat
        } else {
            total as nat
        });
        i = i + 1;
    }
    assert(es.subrange(0, n as int) =~= es);

    proof {
        broadcast use vstd::seq_lib::group_to_multiset_ensures;
    }
    let sorted = sort_pages(pages);
    Ok((sorted, ci))
}

} // verus!
