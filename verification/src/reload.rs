//! What a saved book gives when it is read again: every picture it saved, in
//! order, and its metadata with the page count of those pictures.

use vstd::prelude::*;
use crate::archive::{
    comicinfo_lower, entry_kind_spec, is_comicinfo_name, is_dir_name, read_back, read_pages,
    scan_entries, sorted_by_name, stored_entries, zip_parse, EntryKind, ZipEntryModel,
};
use crate::book::PageView;
use crate::book::BookView;
use crate::comicinfo::update_pagecount_spec;
use crate::natural::{is_digit, lemma_numbered_names_order, natural_order, Order};
use crate::paths::{extension_spec, file_name_spec, lemma_last_index_is, name_extension};
use crate::save::{
    cbz_plan, comicinfo_entry_name, content_entry_name, content_pages, cover_entry_name,
    image_count, saved_cover,
};
use crate::text::{
    after_last_slash, ascii_lower, ends_with, lemma_after_last_slash, lemma_after_last_slash_suffix,
    lower_seq, zero_padded,
};

verus! {

/// A dot followed by at least three lower-case ASCII letters.
pub open spec fn dotted_word(sfx: Seq<char>) -> bool {
    &&& sfx.len() >= 4
    &&& sfx[0] == '.'
    &&& forall|k: int| 1 <= k < sfx.len() ==> 97 <= (#[trigger] sfx[k] as u32) <= 122
}

/// Lower-casing distributes over concatenation.
proof fn lemma_lower_add(a: Seq<char>, b: Seq<char>)
    ensures
        lower_seq(a + b) == lower_seq(a) + lower_seq(b),
{
    assert(lower_seq(a + b) =~= lower_seq(a) + lower_seq(b));
}

/// A sequence ends with what was appended to it.
proof fn lemma_ends_with_add(a: Seq<char>, x: Seq<char>)
    ensures
        ends_with(a + x, x),
{
    assert((a + x).subrange(a.len() as int, (a + x).len() as int) =~= x);
}

/// Which characters lower-case to a dot or to a lower-case letter.
proof fn lemma_ascii_lower_of(c: char)
    ensures
        ascii_lower(c) == '.' ==> c == '.',
        97 <= (ascii_lower(c) as u32) <= 122 ==> c != '.' && c != '/' && c != '\\',
{
    vstd::utf8::char_u32_cast(c, c as u32);
}

/// A name whose lower-cased form ends with a dotted word `sfx`: it is no
/// directory name, and renumbered for saving its lower-cased form ends with
/// `sfx` again, or with `.jpg` when its `.` starts its file name.
proof fn lemma_renamed_keeps_suffix(n: Seq<char>, i: nat, sfx: Seq<char>)
    requires
        dotted_word(sfx),
        ends_with(lower_seq(n), sfx),
    ensures
        !is_dir_name(n),
        ends_with(lower_seq(content_entry_name(true, i, n)), sfx) || ends_with(
            lower_seq(content_entry_name(true, i, n)),
            seq!['.', 'j', 'p', 'g'],
        ),
{
    let len = n.len() as int;
    let ls = sfx.len() as int;
    let b = len - ls;
    let l = lower_seq(n);
    assert forall|j: int| 0 <= j < ls implies #[trigger] ascii_lower(n[b + j]) == sfx[j] by {
        assert(l.subrange(b, len)[j] == l[b + j]);
    }
    lemma_ascii_lower_of(n[b]);
    assert(n[b] == '.');
    assert forall|j: int| 1 <= j < ls implies #[trigger] n[b + j] != '.' && n[b + j] != '/' by {
        assert(ascii_lower(n[b + j]) == sfx[j]);
        lemma_ascii_lower_of(n[b + j]);
    }
    assert(ascii_lower(n[b + ls - 1]) == sfx[ls - 1]);
    lemma_ascii_lower_of(n[len - 1]);
    // the file name: the part after the last '/', which holds the whole suffix
    let seg = after_last_slash(n);
    lemma_after_last_slash_suffix(n);
    if seg.len() < ls {
        let k = len - seg.len() - 1;
        assert(n[k] == '/');
        assert(k == b || n[b + (k - b)] != '/');
    }
    assert(seg.len() >= ls);
    assert(seg != seq!['.']) by {
        if seg =~= seq!['.'] {
            assert(seg.len() == 1);
        }
    }
    assert(seg != seq!['.', '.']) by {
        if seg =~= seq!['.', '.'] {
            assert(seg.len() == 2);
        }
    }
    assert(file_name_spec(n) == Some(seg));
    let q = seg.len() - ls;
    assert forall|j: int| 0 <= j < ls implies #[trigger] seg[q + j] == n[b + j] by {
        assert(seg[q + j] == n.subrange(len - seg.len(), len)[q + j]);
    }
    assert(seg[q] == '.') by {
        assert(seg[q + 0] == n[b + 0]);
    }
    assert forall|k: int| q < k < seg.len() implies #[trigger] seg[k] != '.' by {
        assert(seg[q + (k - q)] == n[b + (k - q)]);
    }
    lemma_last_index_is(seg, '.', q);
    let m = content_entry_name(true, i, n);
    let head = seq!['p'] + zero_padded(i, 4);
    if q == 0 {
        assert(name_extension(seg) is None);
        assert(extension_spec(n) is None);
        assert(m == head + (seq!['.'] + seq!['j', 'p', 'g']));
        lemma_lower_add(head, seq!['.', 'j', 'p', 'g']);
        assert(seq!['.'] + seq!['j', 'p', 'g'] =~= seq!['.', 'j', 'p', 'g']);
        assert(lower_seq(seq!['.', 'j', 'p', 'g']) =~= seq!['.', 'j', 'p', 'g']);
        lemma_ends_with_add(lower_seq(head), seq!['.', 'j', 'p', 'g']);
    } else {
        let ext = seg.subrange(q + 1, seg.len() as int);
        assert(name_extension(seg) == Some(ext));
        assert(extension_spec(n) == Some(ext));
        let tail = seq!['.'] + ext;
        assert(m =~= head + tail);
        lemma_lower_add(head, tail);
        assert(lower_seq(tail) =~= sfx) by {
            assert forall|j: int| 1 <= j < ls implies lower_seq(tail)[j] == sfx[j] by {
                assert(tail[j] == seg[q + j]);
            }
        }
        lemma_ends_with_add(lower_seq(head), sfx);
    }
}

/// One of the suffixes `has_image_suffix` accepts.
pub open spec fn is_picture_suffix(sfx: Seq<char>) -> bool {
    ||| sfx == seq!['.', 'j', 'p', 'g']
    ||| sfx == seq!['.', 'j', 'p', 'e', 'g']
    ||| sfx == seq!['.', 'p', 'n', 'g']
    ||| sfx == seq!['.', 'w', 'e', 'b', 'p']
    ||| sfx == seq!['.', 'g', 'i', 'f']
    ||| sfx == seq!['.', 'b', 'm', 'p']
}

/// The picture suffixes are dotted words that do not end like `.xml`.
proof fn lemma_picture_suffix_facts(sfx: Seq<char>)
    requires
        is_picture_suffix(sfx),
    ensures
        dotted_word(sfx),
        sfx.last() != 'l',
{
    assert forall|k: int| 1 <= k < sfx.len() implies 97 <= (#[trigger] sfx[k] as u32) <= 122 by {
        if sfx == seq!['.', 'j', 'p', 'g'] {
            assert(k == 1 || k == 2 || k == 3);
        } else if sfx == seq!['.', 'j', 'p', 'e', 'g'] {
            assert(k == 1 || k == 2 || k == 3 || k == 4);
        } else if sfx == seq!['.', 'p', 'n', 'g'] {
            assert(k == 1 || k == 2 || k == 3);
        } else if sfx == seq!['.', 'w', 'e', 'b', 'p'] {
            assert(k == 1 || k == 2 || k == 3 || k == 4);
        } else if sfx == seq!['.', 'g', 'i', 'f'] {
            assert(k == 1 || k == 2 || k == 3);
        } else {
            assert(k == 1 || k == 2 || k == 3);
        }
    }
}

/// A sequence ends with the last element of its suffix.
proof fn lemma_ends_with_last(x: Seq<char>, s: Seq<char>)
    requires
        ends_with(x, s),
        s.len() > 0,
    ensures
        x.len() > 0,
        x.last() == s.last(),
{
    assert(x.subrange(x.len() - s.len(), x.len() as int)[s.len() - 1] == x.last());
}

/// A name whose lower-cased form ends with a picture suffix is a picture
/// name, and no directory name.
proof fn lemma_suffix_makes_picture(x: Seq<char>, sfx: Seq<char>)
    requires
        is_picture_suffix(sfx),
        ends_with(lower_seq(x), sfx),
    ensures
        entry_kind_spec(x) == EntryKind::Image,
        !is_dir_name(x),
{
    lemma_picture_suffix_facts(sfx);
    lemma_ends_with_last(lower_seq(x), sfx);
    if is_comicinfo_name(x) {
        // the file name ends `x`, and lower-cased it ends with `l`
        let base = after_last_slash(x);
        lemma_after_last_slash_suffix(x);
        assert(lower_seq(base).last() == comicinfo_lower()[12]);
        assert(base.last() == x.last());
    }
    assert(lower_seq(x).last() == ascii_lower(x.last()));
    assert(sfx.last() == sfx[sfx.len() - 1]);
    lemma_ascii_lower_of(x.last());
}

/// A picture name stays a picture name, and no directory name, under the
/// name a page is saved with.
proof fn lemma_saved_name_is_picture(n: Seq<char>, dirty: bool, i: nat)
    requires
        entry_kind_spec(n) == EntryKind::Image,
    ensures
        entry_kind_spec(content_entry_name(dirty, i, n)) == EntryKind::Image,
        !is_dir_name(content_entry_name(dirty, i, n)),
{
    let l = lower_seq(n);
    let sfx = if ends_with(l, seq!['.', 'j', 'p', 'g']) {
        seq!['.', 'j', 'p', 'g']
    } else if ends_with(l, seq!['.', 'j', 'p', 'e', 'g']) {
        seq!['.', 'j', 'p', 'e', 'g']
    } else if ends_with(l, seq!['.', 'p', 'n', 'g']) {
        seq!['.', 'p', 'n', 'g']
    } else if ends_with(l, seq!['.', 'w', 'e', 'b', 'p']) {
        seq!['.', 'w', 'e', 'b', 'p']
    } else if ends_with(l, seq!['.', 'g', 'i', 'f']) {
        seq!['.', 'g', 'i', 'f']
    } else {
        seq!['.', 'b', 'm', 'p']
    };
    assert(is_picture_suffix(sfx) && ends_with(l, sfx));
    lemma_suffix_makes_picture(n, sfx);
    if dirty {
        lemma_picture_suffix_facts(sfx);
        lemma_renamed_keeps_suffix(n, i, sfx);
        let m = content_entry_name(true, i, n);
        if ends_with(lower_seq(m), sfx) {
            lemma_suffix_makes_picture(m, sfx);
        } else {
            lemma_suffix_makes_picture(m, seq!['.', 'j', 'p', 'g']);
        }
    }
}

/// Reading picture entries after others adds them, in order, to the pages.
proof fn lemma_scan_pictures(
    pre: Seq<ZipEntryModel>,
    es: Seq<(Seq<char>, Seq<u8>)>,
    ps: Seq<(Seq<char>, Seq<u8>)>,
    ci: Option<Seq<u8>>,
)
    requires
        scan_entries(pre) == Ok::<_, ()>((ps, ci)),
        forall|k: int|
            0 <= k < es.len() ==> entry_kind_spec(#[trigger] es[k].0) == EntryKind::Image
                && !is_dir_name(es[k].0),
    ensures
        scan_entries(pre + stored_entries(es)) == Ok::<_, ()>((ps + es, ci)),
    decreases es.len(),
{
    if es.len() == 0 {
        assert(pre + stored_entries(es) =~= pre);
        assert(ps + es =~= ps);
    } else {
        let init = es.drop_last();
        assert forall|k: int| 0 <= k < init.len() implies entry_kind_spec(#[trigger] init[k].0)
            == EntryKind::Image && !is_dir_name(init[k].0) by {
            assert(init[k] == es[k]);
        }
        lemma_scan_pictures(pre, init, ps, ci);
        let whole = pre + stored_entries(es);
        assert(whole.drop_last() =~= pre + stored_entries(init));
        assert(whole.last() == (es.last().0, true, Some(es.last().1), true));
        assert(es.last() == es[es.len() - 1]);
        assert((ps + init).push(es.last()) =~= ps + es);
    }
}

/// The picture entries of a saved book, in order: the cover (when there is
/// one), then the content pages under their saved names.
pub open spec fn saved_pictures(b: BookView) -> Seq<(Seq<char>, Seq<u8>)> {
    let cov = match saved_cover(b) {
        Some(c) => seq![(cover_entry_name(), c)],
        None => Seq::empty(),
    };
    let content = content_pages(b.pages);
    cov + Seq::new(
        content.len(),
        |i: int| (content_entry_name(b.dirty_order, i as nat, content[i].name), content[i].bytes),
    )
}

/// A saved book reads back as what was saved: the entries of the archive
/// `build_cbz` writes give, when read, exactly the saved pictures (the cover,
/// then the content pages) in that order, and the metadata with its page count
/// set to the number of those pictures (`read_cbz` gives them when the
/// archive also stays within its read limits). This holds when every content
/// page has a picture name, as every page read from an archive has; a page
/// under another name would not be read back as a page.
#[verifier::spinoff_prover]
pub proof fn law_saved_book_reads_back(b: BookView)
    requires
        forall|i: int|
            0 <= i < content_pages(b.pages).len() ==> entry_kind_spec(
                #[trigger] content_pages(b.pages)[i].name,
            ) == EntryKind::Image,
    ensures
        scan_entries(stored_entries(cbz_plan(b))) == Ok::<_, ()>(
            (
                saved_pictures(b),
                match b.comicinfo {
                    Some(ci) => Some(update_pagecount_spec(ci, saved_pictures(b).len())),
                    None => None,
                },
            ),
        ),
        saved_pictures(b).len() == image_count(b),
{
    let pics = saved_pictures(b);
    let content = content_pages(b.pages);
    let meta = match b.comicinfo {
        Some(ci) => seq![(comicinfo_entry_name(), update_pagecount_spec(ci, image_count(b)))],
        None => Seq::<(Seq<char>, Seq<u8>)>::empty(),
    };
    assert(cbz_plan(b) =~= meta + pics);
    assert(stored_entries(meta + pics) =~= stored_entries(meta) + stored_entries(pics));
    // the metadata entry is read as the metadata
    let ci0 = match b.comicinfo {
        Some(ci) => Some(update_pagecount_spec(ci, image_count(b))),
        None => None,
    };
    assert(scan_entries(stored_entries(meta)) == Ok::<_, ()>((Seq::<(Seq<char>, Seq<u8>)>::empty(), ci0))) by {
        let name = comicinfo_entry_name();
        lemma_after_last_slash(name, 0);
        assert(name.subrange(0, name.len() as int) =~= name);
        assert(lower_seq(name) =~= comicinfo_lower());
        assert(entry_kind_spec(name) == EntryKind::Metadata);
        assert(name.last() == 'l');
        assert(scan_entries(Seq::<ZipEntryModel>::empty()) == Ok::<_, ()>(
            (Seq::<(Seq<char>, Seq<u8>)>::empty(), None::<Seq<u8>>),
        ));
        if b.comicinfo is Some {
            assert(stored_entries(meta).drop_last() =~= Seq::<ZipEntryModel>::empty());
            assert(stored_entries(meta).last() == (name, true, Some(ci0->0), true));
        } else {
            assert(stored_entries(meta) =~= Seq::<ZipEntryModel>::empty());
        }
    }
    // every picture entry is read as a page
    assert forall|k: int| 0 <= k < pics.len() implies entry_kind_spec(#[trigger] pics[k].0)
        == EntryKind::Image && !is_dir_name(pics[k].0) by {
        if saved_cover(b) is Some && k == 0 {
            let name = cover_entry_name();
            assert(lower_seq(name) =~= name);
            assert(name.subrange(9, 13) =~= seq!['.', 'j', 'p', 'g']);
            assert(is_picture_suffix(seq!['.', 'j', 'p', 'g']));
            lemma_suffix_makes_picture(name, seq!['.', 'j', 'p', 'g']);
        } else {
            let off: int = if saved_cover(b) is Some {
                1
            } else {
                0
            };
            let i = k - off;
            assert(pics[k] == (content_entry_name(b.dirty_order, i as nat, content[i].name), content[i].bytes));
            lemma_saved_name_is_picture(content[i].name, b.dirty_order, i as nat);
        }
    }
    lemma_scan_pictures(stored_entries(meta), pics, Seq::empty(), ci0);
    assert(Seq::<(Seq<char>, Seq<u8>)>::empty() + pics =~= pics);
}


/// The entry name of a content page once the order has changed, as the
/// letter `p`, the padded number, and the rest (a dot and the extension).
proof fn lemma_numbered_name_parts(i: nat, name: Seq<char>)
    ensures
        ({
            let rest = seq!['.'] + match extension_spec(name) {
                Some(e) => e,
                None => seq!['j', 'p', 'g'],
            };
            &&& content_entry_name(true, i, name) == seq!['p'] + zero_padded(i, 4) + rest
            &&& rest.len() > 0 && !is_digit(rest[0])
        }),
{
    let ext = match extension_spec(name) {
        Some(e) => e,
        None => seq!['j', 'p', 'g'],
    };
    let rest = seq!['.'] + ext;
    assert(seq!['p'] + zero_padded(i, 4) + seq!['.'] + ext =~= seq!['p'] + zero_padded(i, 4) + rest);
    assert(rest[0] == '.');
}

/// Once the page order has changed, the saved pictures come in strictly
/// increasing natural order of their names: the cover (`000_cover.jpg`)
/// first, then the pages numbered from `p0000`. Reading the archive back,
/// which sorts pages by name, therefore keeps the order they were saved in.
#[verifier::spinoff_prover]
pub proof fn law_saved_names_in_order(b: BookView)
    requires
        b.dirty_order,
    ensures
        forall|i: int, j: int|
            0 <= i < j < saved_pictures(b).len() ==> #[trigger] natural_order(
                saved_pictures(b)[i].0,
                saved_pictures(b)[j].0,
            ) == Order::Less,
{
    let pics = saved_pictures(b);
    let content = content_pages(b.pages);
    let off: int = if saved_cover(b) is Some {
        1
    } else {
        0
    };
    assert forall|i: int, j: int| 0 <= i < j < pics.len() implies #[trigger] natural_order(
        pics[i].0,
        pics[j].0,
    ) == Order::Less by {
        let jj = j - off;
        assert(pics[j].0 == content_entry_name(true, jj as nat, content[jj].name));
        lemma_numbered_name_parts(jj as nat, content[jj].name);
        if off == 1 && i == 0 {
            let a = cover_entry_name();
            let c = pics[j].0;
            assert(pics[0].0 == a);
            assert(a[0] == '0');
            assert(c[0] == 'p');
            assert(is_digit(a[0]) && !is_digit(c[0]));
            reveal_with_fuel(natural_order, 1);
        } else {
            let ii = i - off;
            assert(pics[i].0 == content_entry_name(true, ii as nat, content[ii].name));
            lemma_numbered_name_parts(ii as nat, content[ii].name);
            let ri = seq!['.'] + match extension_spec(content[ii].name) {
                Some(e) => e,
                None => seq!['j', 'p', 'g'],
            };
            let rj = seq!['.'] + match extension_spec(content[jj].name) {
                Some(e) => e,
                None => seq!['j', 'p', 'g'],
            };
            lemma_numbered_names_order('p', ii as nat, jj as nat, 4, ri, rj);
        }
    }
}


/// A saved book reads back exactly as it was saved: once the page order has
/// changed, whatever `read_cbz` gives for the bytes `build_cbz` wrote (their
/// entries are `stored_entries(cbz_plan(b))`) is the saved pictures, the
/// cover then the content pages, as pages in that very order, and the
/// metadata with its page count set to their number. (`read_cbz` succeeds on
/// these bytes exactly when they stay within its read limits.) As in
/// `law_saved_book_reads_back`, every content page has a picture name.
#[verifier::spinoff_prover]
pub proof fn law_saved_book_round_trip(
    b: BookView,
    data: Seq<u8>,
    pages: Seq<PageView>,
    ci: Option<Seq<u8>>,
)
    requires
        b.dirty_order,
        forall|i: int|
            0 <= i < content_pages(b.pages).len() ==> entry_kind_spec(
                #[trigger] content_pages(b.pages)[i].name,
            ) == EntryKind::Image,
        zip_parse(data) == Some(stored_entries(cbz_plan(b))),
        read_back(data, pages, ci),
    ensures
        pages == read_pages(saved_pictures(b)),
        ci == match b.comicinfo {
            Some(c) => Some(update_pagecount_spec(c, saved_pictures(b).len())),
            None => None,
        },
{
    law_saved_book_reads_back(b);
    law_saved_names_in_order(b);
    let rp = read_pages(saved_pictures(b));
    assert(sorted_by_name(rp)) by {
        assert forall|i: int, j: int| 0 <= i < j < rp.len() implies #[trigger] natural_order(
            rp[i].name,
            rp[j].name,
        ) != Order::Greater by {
            assert(rp[i].name == saved_pictures(b)[i].0);
            assert(rp[j].name == saved_pictures(b)[j].0);
            assert(natural_order(saved_pictures(b)[i].0, saved_pictures(b)[j].0) == Order::Less);
        }
    }
}

} // verus!
