//! What saving a book writes: the metadata with its page count, the cover,
//! then the kept pages, renumbered when their order changed.

use vstd::prelude::*;
use crate::archive::{entries_view, stored_entries, write_stored_zip, zip_fits, zip_parse, ZipEntry};
use crate::book::{pages_view, BookView, CbzBook, Page, PageView};
use crate::comicinfo::{bytes_opt_view, update_pagecount, update_pagecount_spec};
use crate::paths::{extension, extension_spec};
use crate::text::{chars_contain, chars_of, contains_seq, lower_chars, lower_seq, string_of, zero_padded, zero_padded_chars};

verus! {

/// `000_cover`
pub open spec fn cover_marker() -> Seq<char> {
    seq!['0', '0', '0', '_', 'c', 'o', 'v', 'e', 'r']
}

/// A page whose name (ignoring ASCII case) contains `000_cover` is a cover.
pub open spec fn is_cover_name(name: Seq<char>) -> bool {
    contains_seq(lower_seq(name), cover_marker())
}

/// The first kept cover page's bytes, if any.
pub open spec fn first_cover_page(pages: Seq<PageView>) -> Option<Seq<u8>>
    decreases pages.len(),
{
    if pages.len() == 0 {
        None
    } else if !pages[0].delete && is_cover_name(pages[0].name) {
        Some(pages[0].bytes)
    } else {
        first_cover_page(pages.drop_first())
    }
}

/// The cover saved: the new cropped cover, else the first kept cover page.
pub open spec fn saved_cover(b: BookView) -> Option<Seq<u8>> {
    match b.cover {
        Some(c) => Some(c),
        None => first_cover_page(b.pages),
    }
}

/// A page saved as content: kept, and not a cover page.
pub open spec fn is_content(p: PageView) -> bool {
    !p.delete && !is_cover_name(p.name)
}

/// The pages saved as content, in order.
pub open spec fn content_pages(pages: Seq<PageView>) -> Seq<PageView> {
    pages.filter(|p: PageView| is_content(p))
}

/// The number of pictures saved: content pages, plus the cover.
pub open spec fn image_count(b: BookView) -> nat {
    content_pages(b.pages).len() + if saved_cover(b) is Some {
        1nat
    } else {
        0nat
    }
}

/// `ComicInfo.xml`
pub open spec fn comicinfo_entry_name() -> Seq<char> {
    seq!['C', 'o', 'm', 'i', 'c', 'I', 'n', 'f', 'o', '.', 'x', 'm', 'l']
}

/// `000_cover.jpg`
pub open spec fn cover_entry_name() -> Seq<char> {
    cover_marker() + seq!['.', 'j', 'p', 'g']
}

/// The entry name of the `i`-th content page: its own name, or, once the order
/// changed, `p` and `i` on four digits, a dot and its extension (`jpg` when it
/// has none).
pub open spec fn content_entry_name(dirty: bool, i: nat, name: Seq<char>) -> Seq<char> {
    if dirty {
        seq!['p'] + zero_padded(i, 4) + seq!['.'] + match extension_spec(name) {
            Some(e) => e,
            None => seq!['j', 'p', 'g'],
        }
    } else {
        name
    }
}

/// The entries written when saving, in order: `ComicInfo.xml` with its page
/// count set to the number of pictures (when the book has metadata), then
/// `000_cover.jpg` (when there is a cover), then the content pages.
pub open spec fn cbz_plan(b: BookView) -> Seq<(Seq<char>, Seq<u8>)> {
    let meta = match b.comicinfo {
        Some(ci) => seq![(comicinfo_entry_name(), update_pagecount_spec(ci, image_count(b)))],
        None => Seq::empty(),
    };
    let cov = match saved_cover(b) {
        Some(c) => seq![(cover_entry_name(), c)],
        None => Seq::empty(),
    };
    let content = content_pages(b.pages);
    meta + cov + Seq::new(
        content.len(),
        |i: int| (content_entry_name(b.dirty_order, i as nat, content[i].name), content[i].bytes),
    )
}

/// Some page not marked for deletion holds exactly these bytes.
pub open spec fn held_by_kept_page(pages: Seq<PageView>, bytes: Seq<u8>) -> bool {
    exists|i: int| 0 <= i < pages.len() && !pages[i].delete && #[trigger] pages[i].bytes == bytes
}

/// The cover taken from the pages is the bytes of a kept page.
proof fn lemma_cover_page_is_kept(pages: Seq<PageView>)
    ensures
        first_cover_page(pages) matches Some(c) ==> exists|i: int|
            0 <= i < pages.len() && !pages[i].delete && #[trigger] pages[i].bytes == c,
    decreases pages.len(),
{
    if pages.len() > 0 && !(!pages[0].delete && is_cover_name(pages[0].name)) {
        lemma_cover_page_is_kept(pages.drop_first());
        if first_cover_page(pages) is Some {
            let c = first_cover_page(pages)->0;
            let i = choose|i: int|
                0 <= i < pages.drop_first().len() && !pages.drop_first()[i].delete
                    && #[trigger] pages.drop_first()[i].bytes == c;
            assert(pages[i + 1] == pages.drop_first()[i]);
        }
    }
}

/// The cover taken from the pages, when no cover was cropped, is the first
/// page, in book order, that is kept and named as a cover (its name holds
/// `000_cover`, in any case); with no such page there is none.
#[verifier::spinoff_prover]
pub proof fn law_cover_is_first_kept_cover_page(pages: Seq<PageView>)
    ensures
        first_cover_page(pages) is None <==> forall|i: int|
            0 <= i < pages.len() ==> !(!(#[trigger] pages[i]).delete && is_cover_name(pages[i].name)),
        first_cover_page(pages) matches Some(c) ==> exists|i: int|
            0 <= i < pages.len() && !(#[trigger] pages[i]).delete && is_cover_name(pages[i].name)
                && pages[i].bytes == c && forall|j: int|
                0 <= j < i ==> !(!(#[trigger] pages[j]).delete && is_cover_name(pages[j].name)),
    decreases pages.len(),
{
    if pages.len() > 0 {
        let t = pages.drop_first();
        law_cover_is_first_kept_cover_page(t);
        if !pages[0].delete && is_cover_name(pages[0].name) {
            assert(pages[0].bytes == first_cover_page(pages)->0);
        } else {
            assert forall|i: int| 0 < i < pages.len() implies pages[i] == t[i - 1] by {}
            if first_cover_page(pages) is Some {
                let c = first_cover_page(pages)->0;
                let i = choose|i: int|
                    0 <= i < t.len() && !(#[trigger] t[i]).delete && is_cover_name(t[i].name)
                        && t[i].bytes == c && forall|j: int|
                        0 <= j < i ==> !(!(#[trigger] t[j]).delete && is_cover_name(t[j].name));
                assert(pages[i + 1] == t[i]);
                assert forall|j: int| 0 <= j < i + 1 implies !(!(#[trigger] pages[j]).delete
                    && is_cover_name(pages[j].name)) by {
                    if j > 0 {
                        assert(pages[j] == t[j - 1]);
                    }
                }
            } else {
                assert forall|i: int| 0 <= i < pages.len() implies !(!(#[trigger] pages[i]).delete
                    && is_cover_name(pages[i].name)) by {
                    if i > 0 {
                        assert(pages[i] == t[i - 1]);
                    }
                }
            }
        }
    }
}

/// A page marked for deletion gives no bytes to the saved archive: every
/// saved entry other than the metadata (first, when the book has some) and a
/// cropped cover (next, when there is one) holds the bytes of a page that is
/// not marked for deletion.
#[verifier::spinoff_prover]
pub proof fn law_deleted_pages_not_saved(b: BookView)
    ensures
        forall|k: int|
            #![trigger cbz_plan(b)[k]]
            0 <= k < cbz_plan(b).len() && !(b.comicinfo is Some && k == 0) && !(b.cover is Some && k
                == if b.comicinfo is Some {
                1int
            } else {
                0int
            }) ==> held_by_kept_page(b.pages, cbz_plan(b)[k].1),
{
    let plan = cbz_plan(b);
    let meta: int = if b.comicinfo is Some {
        1
    } else {
        0
    };
    let cov: int = if saved_cover(b) is Some {
        1
    } else {
        0
    };
    let content = content_pages(b.pages);
    lemma_cover_page_is_kept(b.pages);
    assert(plan.len() == meta + cov + content.len());
    assert forall|k: int|
        #![trigger cbz_plan(b)[k]]
        0 <= k < cbz_plan(b).len() && !(b.comicinfo is Some && k == 0) && !(b.cover is Some && k
            == if b.comicinfo is Some {
            1int
        } else {
            0int
        }) implies held_by_kept_page(b.pages, cbz_plan(b)[k].1) by {
        if k < meta + cov {
            assert(k == meta);
            assert(b.cover is None);
            assert(plan[k].1 == first_cover_page(b.pages)->0);
            let i = choose|i: int|
                0 <= i < b.pages.len() && !b.pages[i].delete && #[trigger] b.pages[i].bytes
                    == first_cover_page(b.pages)->0;
            assert(b.pages[i].bytes =~= cbz_plan(b)[k].1);
        } else {
            let j = k - meta - cov;
            assert(plan[k].1 == content[j].bytes);
            b.pages.lemma_filter_pred(|p: PageView| is_content(p), j);
            assert(b.pages.filter(|p: PageView| is_content(p)).contains(content[j]));
            b.pages.lemma_filter_contains_rev(|p: PageView| is_content(p), content[j]);
            let i = choose|i: int| 0 <= i < b.pages.len() && b.pages[i] == content[j];
            assert(b.pages[i].bytes =~= cbz_plan(b)[k].1);
        }
    }
}

/// The page count written into the metadata is the number of pictures the
/// archive holds: every entry after the metadata is a picture.
pub proof fn law_pagecount_counts_pictures(b: BookView)
    ensures
        ({
            let plan = cbz_plan(b);
            let meta: nat = if b.comicinfo is Some {
                1
            } else {
                0
            };
            &&& plan.len() == meta + image_count(b)
            &&& b.comicinfo matches Some(ci) ==> plan[0] == (
                comicinfo_entry_name(),
                update_pagecount_spec(ci, (plan.len() - 1) as nat),
            )
        }),
{
}

/// Whether a page name marks a cover.
pub fn is_cover_page_name(name: &str) -> (r: bool)
    ensures
        r == is_cover_name(name@),
{
    let l = lower_chars(&chars_of(name));
    let marker = vec!['0', '0', '0', '_', 'c', 'o', 'v', 'e', 'r'];
    assert(marker@ =~= cover_marker());
    chars_contain(&l, &marker)
}

fn copy_bytes(v: &Vec<u8>) -> (r: Vec<u8>)
    ensures
        r@ == v@,
{
    let mut r: Vec<u8> = Vec::new();
    let mut i: usize = 0;
    while i < v.len()
        invariant
            i <= v.len(),
            r@ =~= v@.subrange(0, i as int),
        decreases v.len() - i,
    {
        r.push(v[i]);
        i = i + 1;
    }
    assert(v@.subrange(0, v.len() as int) =~= v@);
    r
}

/// The entry name of the `i`-th content page.
fn content_name(dirty: bool, i: usize, name: &String) -> (r: String)
    ensures
        r@ == content_entry_name(dirty, i as nat, name@),
{
    if !dirty {
        return string_of(&chars_of(name.as_str()));
    }
    let mut v: Vec<char> = vec!['p'];
    let digits = zero_padded_chars(i as u64, 4);
    let mut k: usize = 0;
    while k < digits.len()
        invariant
            k <= digits.len(),
            v@ =~= seq!['p'] + digits@.subrange(0, k as int),
        decreases digits.len() - k,
    {
        v.push(digits[k]);
        k = k + 1;
    }
    v.push('.');
    let ext = match extension(&chars_of(name.as_str())) {
        Some(e) => e,
        None => vec!['j', 'p', 'g'],
    };
    let ghost prefix = v@;
    let mut k: usize = 0;
    while k < ext.len()
        invariant
            k <= ext.len(),
            v@ =~= prefix + ext@.subrange(0, k as int),
        decreases ext.len() - k,
    {
        v.push(ext[k]);
        k = k + 1;
    }
    proof {
        assert(digits@.subrange(0, digits.len() as int) =~= digits@);
        assert(ext@.subrange(0, ext.len() as int) =~= ext@);
    }
    string_of(&v)
}

impl CbzBook {
    /// The entries that saving writes (see `cbz_plan`).
    pub fn cbz_entries(&self) -> (r: Vec<ZipEntry>)
        requires
            self@.pages.len() < usize::MAX,
        ensures
            entries_view(r@) == cbz_plan(self@),
    {
        let pages = self.pages();
        let ghost ps = self@.pages;
        // the cover: the new one, else the first kept cover page
        let mut found: Option<Vec<u8>> = None;
        let mut i: usize = 0;
        assert(ps.skip(0) =~= ps);
        while i < pages.len() && found.is_none()
            invariant
                pages_view(pages@) == ps,
                i <= ps.len(),
                found is None ==> first_cover_page(ps) == first_cover_page(ps.skip(i as int)),
                found matches Some(b) ==> first_cover_page(ps) == Some(b@),
            decreases pages.len() - i,
        {
            assert(ps[i as int] == pages@[i as int]@);
            assert(ps.skip(i as int).drop_first() =~= ps.skip(i + 1));
            if !pages[i].delete && is_cover_page_name(pages[i].name.as_str()) {
                found = Some(copy_bytes(&pages[i].bytes));
            }
            i = i + 1;
        }
        proof {
            if found is None {
                assert(ps.skip(i as int).len() == 0);
            }
        }
        let cover: Option<Vec<u8>> = match self.cover() {
            Some(c) => Some(copy_bytes(c)),
            None => found,
        };
        // the content pages
        let mut content: Vec<usize> = Vec::new();
        let mut j: usize = 0;
        while j < pages.len()
            invariant
                pages_view(pages@) == ps,
                j <= ps.len(),
                content@.len() <= j,
                content@.len() == ps.subrange(0, j as int).filter(|p: PageView| is_content(p)).len(),
                forall|k: int|
                    0 <= k < content@.len() ==> #[trigger] content@[k] < j && ps[content@[k] as int]
                        == ps.subrange(0, j as int).filter(|p: PageView| is_content(p))[k],
            decreases pages.len() - j,
        {
            proof {
                reveal_with_fuel(Seq::filter, 1);
                assert(ps.subrange(0, j + 1).drop_last() =~= ps.subrange(0, j as int));
                assert(ps[j as int] == pages@[j as int]@);
            }
            if !pages[j].delete && !is_cover_page_name(pages[j].name.as_str()) {
                content.push(j);
            }
            j = j + 1;
        }
        assert(ps.subrange(0, ps.len() as int) =~= ps);
        let ghost cp = content_pages(ps);
        let n_images: usize = content.len() + if cover.is_some() {
            1usize
        } else {
            0usize
        };
        assert(n_images == image_count(self@));
        let mut out: Vec<ZipEntry> = Vec::new();
        match self.comicinfo() {
            Some(ci) => {
                let patched = update_pagecount(ci.as_slice(), n_images);
                let name_chars = vec!['C', 'o', 'm', 'i', 'c', 'I', 'n', 'f', 'o', '.', 'x', 'm', 'l'];
                assert(name_chars@ =~= comicinfo_entry_name());
                out.push(ZipEntry { name: string_of(&name_chars), data: patched });
            },
            None => {},
        }
        match cover {
            Some(c) => {
                let name_chars = vec!['0', '0', '0', '_', 'c', 'o', 'v', 'e', 'r', '.', 'j', 'p', 'g'];
                assert(name_chars@ =~= cover_entry_name());
                out.push(ZipEntry { name: string_of(&name_chars), data: c });
            },
            None => {},
        }
        let ghost head = entries_view(out@);
        let dirty = self.dirty_order();
        let mut k: usize = 0;
        while k < content.len()
            invariant
                pages_view(pages@) == ps,
                cp == content_pages(ps),
                content@.len() == cp.len(),
                forall|m: int|
                    0 <= m < content@.len() ==> #[trigger] content@[m] < ps.len() && ps[content@[m] as int]
                        == cp[m],
                dirty == self@.dirty_order,
                k <= content@.len(),
                entries_view(out@) =~= head + Seq::new(
                    k as nat,
                    |m: int| (content_entry_name(dirty, m as nat, cp[m].name), cp[m].bytes),
                ),
            decreases content.len() - k,
        {
            let idx = content[k];
            assert(ps[idx as int] == pages@[idx as int]@);
            let p: &Page = &pages[idx];
            let name = content_name(dirty, k, &p.name);
            let data = copy_bytes(&p.bytes);
            let ghost ev = (name@, data@);
            assert(ev == (content_entry_name(dirty, k as nat, cp[k as int].name), cp[k as int].bytes));
            let ghost before = entries_view(out@);
            out.push(ZipEntry { name, data });
            assert(entries_view(out@) =~= before.push(ev));
            k = k + 1;
        }
        out
    }

    /// The bytes of the saved archive: the entries of `cbz_entries`, in
    /// order, written uncompressed (stored) by the `zip` crate. It succeeds
    /// exactly when the planned entries fit a ZIP archive (`zip_fits`:
    /// distinct names of at most 65535 bytes, entries of at most `u32::MAX`
    /// bytes); the error is then the writer's message. The archive reads back
    /// as the planned entries, each stored.
    pub fn build_cbz(&self) -> (r: Result<Vec<u8>, String>)
        requires
            self@.pages.len() < usize::MAX,
        ensures
            r is Ok <==> zip_fits(cbz_plan(self@)),
            r matches Ok(bytes) ==> zip_parse(bytes@) == Some(stored_entries(cbz_plan(self@))),
    {
        write_stored_zip(self.cbz_entries())
    }
}

} // verus!
