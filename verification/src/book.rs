//! The book being edited: its ordered pages, its metadata, its cover, and
//! the editing operations on them.

use vstd::prelude::*;
use crate::comicinfo::{bytes_opt_view, reads_right_to_left, right_to_left_spec};
use crate::text::{decimal, decimal_chars, string_of};
use crate::picture::{
    clamped_cut, concat_fits, concat_fits_exec, concat_h, crop_region, crop_start, cropped_size,
    decode_picture, decoded_size, is_cropped_region, is_joined, is_split, jpeg_encoded,
    jpeg_fits, jpeg_of, joined_height,
    matched_view, picture_rgb8, pixels_fit, split_at_cut, Picture, PictureView, RgbView,
};

verus! {

/// One page of the book.
pub struct Page {
    /// Its entry name in the archive.
    pub name: String,
    /// Its encoded picture.
    pub bytes: Vec<u8>,
    /// Its thumbnail could not be decoded.
    pub failed: bool,
    /// It is marked for deletion.
    pub delete: bool,
    /// A number that tells it apart from every other page of the book.
    pub uid: u64,
}

/// The abstract content of a page.
pub struct PageView {
    pub name: Seq<char>,
    pub bytes: Seq<u8>,
    pub failed: bool,
    pub delete: bool,
    pub uid: u64,
}

impl View for Page {
    type V = PageView;

    open spec fn view(&self) -> PageView {
        PageView {
            name: self.name@,
            bytes: self.bytes@,
            failed: self.failed,
            delete: self.delete,
            uid: self.uid,
        }
    }
}

/// The views of a list of pages.
pub open spec fn pages_view(pages: Seq<Page>) -> Seq<PageView> {
    pages.map_values(|p: Page| p@)
}

/// A fresh page as the editor creates it: not failed, not deleted.
pub open spec fn new_page_view(name: Seq<char>, bytes: Seq<u8>, uid: u64) -> PageView {
    PageView { name, bytes, failed: false, delete: false, uid }
}

/// The abstract content of a book.
pub struct BookView {
    pub comicinfo: Option<Seq<u8>>,
    pub pages: Seq<PageView>,
    pub cover: Option<Seq<u8>>,
    pub rtl: bool,
    pub next_uid: nat,
    pub dirty_order: bool,
}

impl BookView {
    /// Page numbers are distinct and all below the next number to hand out.
    pub open spec fn wf(self) -> bool {
        &&& forall|i: int, j: int|
            0 <= i < self.pages.len() && 0 <= j < self.pages.len() && i != j
                ==> #[trigger] self.pages[i].uid != #[trigger] self.pages[j].uid
        &&& forall|i: int| 0 <= i < self.pages.len() ==> #[trigger] self.pages[i].uid < self.next_uid
    }

    /// The same book with another page list, page-number counter and order flag.
    pub open spec fn with_pages(self, pages: Seq<PageView>, next_uid: nat, dirty_order: bool) -> BookView {
        BookView { pages, next_uid, dirty_order, ..self }
    }
}

/// A book being edited.
pub struct CbzBook {
    comicinfo: Option<Vec<u8>>,
    pages: Vec<Page>,
    cover: Option<Vec<u8>>,
    rtl: bool,
    next_uid: u64,
    dirty_order: bool,
}

impl View for CbzBook {
    type V = BookView;

    closed spec fn view(&self) -> BookView {
        BookView {
            comicinfo: bytes_opt_view(self.comicinfo),
            pages: pages_view(self.pages@),
            cover: bytes_opt_view(self.cover),
            rtl: self.rtl,
            next_uid: self.next_uid as nat,
            dirty_order: self.dirty_order,
        }
    }
}

/// `s` with the element at `i` moved to index `j`.
pub open spec fn moved<A>(s: Seq<A>, i: int, j: int) -> Seq<A> {
    s.remove(i).insert(j, s[i])
}

/// `s` with the elements at `i` and `i + 1` exchanged.
pub open spec fn swapped_next<A>(s: Seq<A>, i: int) -> Seq<A> {
    s.update(i, s[i + 1]).update(i + 1, s[i])
}

/// The pages of a freshly opened book: numbered `0, 1, ...` in order, with
/// names, bytes and flags as read.
pub open spec fn numbered(pages: Seq<PageView>) -> Seq<PageView> {
    Seq::new(pages.len(), |i: int| PageView { uid: i as u64, ..pages[i] })
}

/// The clamped insertion index of `at` in a list of `len` pages.
pub open spec fn clamp_index(at: nat, len: nat) -> nat {
    if at < len {
        at
    } else {
        len
    }
}

/// `s` with its `count` elements from index `at` replaced by `items`.
pub open spec fn spliced<A>(s: Seq<A>, at: int, count: int, items: Seq<A>) -> Seq<A> {
    s.subrange(0, at) + items + s.subrange(at + count, s.len() as int)
}

/// Fresh pages for the `(name, bytes)` pairs, numbered from `first_uid`.
pub open spec fn fresh_pages(files: Seq<(Seq<char>, Seq<u8>)>, first_uid: nat) -> Seq<PageView> {
    Seq::new(files.len(), |k: int| new_page_view(files[k].0, files[k].1, (first_uid + k) as u64))
}

impl CbzBook {
    /// An empty editor state: no book open.
    pub fn new() -> (b: CbzBook)
        ensures
            b@ == (BookView {
                comicinfo: None,
                pages: Seq::empty(),
                cover: None,
                rtl: false,
                next_uid: 0,
                dirty_order: false,
            }),
            b@.wf(),
    {
        let b = CbzBook {
            comicinfo: None,
            pages: Vec::new(),
            cover: None,
            rtl: false,
            next_uid: 0,
            dirty_order: false,
        };
        assert(pages_view(b.pages@) =~= Seq::empty());
        b
    }

    /// The state of a freshly opened book: its pages numbered in order, the
    /// next number after them, the reading direction taken from the metadata
    /// (right to left unless metadata exists without `RightToLeft`), no new
    /// cover, order as read.
    pub fn open(pages: Vec<Page>, comicinfo: Option<Vec<u8>>) -> (b: CbzBook)
        ensures
            b@ == (BookView {
                comicinfo: bytes_opt_view(comicinfo),
                pages: numbered(pages_view(pages@)),
                cover: None,
                rtl: right_to_left_spec(bytes_opt_view(comicinfo)),
                next_uid: pages@.len(),
                dirty_order: false,
            }),
            b@.wf(),
    {
        let mut pages = pages;
        let ghost orig = pages_view(pages@);
        let n = pages.len();
        let mut i: usize = 0;
        while i < n
            invariant
                n == pages.len(),
                orig.len() == n,
                i <= n,
                forall|k: int|
                    0 <= k < n ==> #[trigger] pages_view(pages@)[k] == if k < i {
                        PageView { uid: k as u64, ..orig[k] }
                    } else {
                        orig[k]
                    },
            decreases n - i,
        {
            let ghost prev = pages@;
            let mut p = pages.remove(i);
            p.uid = i as u64;
            pages.insert(i, p);
            assert(pages@ =~= prev.update(i as int, p));
            assert forall|k: int| 0 <= k < n implies #[trigger] pages_view(pages@)[k] == if k < i + 1 {
                PageView { uid: k as u64, ..orig[k] }
            } else {
                orig[k]
            } by {
                assert(pages_view(pages@)[k] == pages@[k]@);
                assert(pages_view(prev)[k] == prev[k]@);
            }
            i = i + 1;
        }
        let rtl = reads_right_to_left(&comicinfo);
        let b = CbzBook {
            comicinfo,
            pages,
            cover: None,
            rtl,
            next_uid: n as u64,
            dirty_order: false,
        };
        assert(pages_view(b.pages@) =~= numbered(orig));
        b
    }

    /// The pages, in reading order.
    pub fn pages(&self) -> (r: &Vec<Page>)
        ensures
            pages_view(r@) == self@.pages,
    {
        &self.pages
    }

    /// The kept `ComicInfo.xml`, if any.
    pub fn comicinfo(&self) -> (r: &Option<Vec<u8>>)
        ensures
            bytes_opt_view(*r) == self@.comicinfo,
    {
        &self.comicinfo
    }

    /// The new cover, if one was cropped.
    pub fn cover(&self) -> (r: &Option<Vec<u8>>)
        ensures
            bytes_opt_view(*r) == self@.cover,
    {
        &self.cover
    }

    /// Whether pages read right to left (manga).
    pub fn rtl(&self) -> (r: bool)
        ensures
            r == self@.rtl,
    {
        self.rtl
    }

    /// Whether the page order changed since the book was opened.
    pub fn dirty_order(&self) -> (r: bool)
        ensures
            r == self@.dirty_order,
    {
        self.dirty_order
    }

    /// The number the next created page will get.
    pub fn next_uid(&self) -> (r: u64)
        ensures
            r == self@.next_uid,
    {
        self.next_uid
    }

    /// Sets the reading direction.
    pub fn set_rtl(&mut self, rtl: bool)
        ensures
            final(self)@ == (BookView { rtl, ..old(self)@ }),
    {
        self.rtl = rtl;
    }

    /// Marks a page for deletion, or keeps it again; nothing for an index past
    /// the last page.
    pub fn toggle_delete(&mut self, i: usize)
        requires
            old(self)@.wf(),
        ensures
            final(self)@.wf(),
            i < old(self)@.pages.len() ==> final(self)@ == old(self)@.with_pages(
                old(self)@.pages.update(
                    i as int,
                    PageView { delete: !old(self)@.pages[i as int].delete, ..old(self)@.pages[i as int] },
                ),
                old(self)@.next_uid,
                old(self)@.dirty_order,
            ),
            i >= old(self)@.pages.len() ==> final(self)@ == old(self)@,
    {
        if i < self.pages.len() {
            let ghost before = pages_view(self.pages@);
            let mut p = self.pages.remove(i);
            p.delete = !p.delete;
            self.pages.insert(i, p);
            assert(pages_view(self.pages@) =~= before.update(
                i as int,
                PageView { delete: !before[i as int].delete, ..before[i as int] },
            ));
        }
    }

    /// Records that a page's thumbnail could not be decoded; nothing for an
    /// index past the last page.
    pub fn mark_failed(&mut self, i: usize)
        requires
            old(self)@.wf(),
        ensures
            final(self)@.wf(),
            i < old(self)@.pages.len() ==> final(self)@ == old(self)@.with_pages(
                old(self)@.pages.update(
                    i as int,
                    PageView { failed: true, ..old(self)@.pages[i as int] },
                ),
                old(self)@.next_uid,
                old(self)@.dirty_order,
            ),
            i >= old(self)@.pages.len() ==> final(self)@ == old(self)@,
    {
        if i < self.pages.len() {
            let ghost before = pages_view(self.pages@);
            let mut p = self.pages.remove(i);
            p.failed = true;
            self.pages.insert(i, p);
            assert(pages_view(self.pages@) =~= before.update(
                i as int,
                PageView { failed: true, ..before[i as int] },
            ));
        }
    }

    /// Moves page `i` one place earlier (exchanging it with the page before);
    /// the first page stays.
    pub fn move_left(&mut self, i: usize)
        requires
            old(self)@.wf(),
            i < old(self)@.pages.len(),
        ensures
            final(self)@.wf(),
            i > 0 ==> final(self)@ == old(self)@.with_pages(
                swapped_next(old(self)@.pages, i - 1),
                old(self)@.next_uid,
                true,
            ),
            i == 0 ==> final(self)@ == old(self)@,
    {
        if i > 0 {
            let ghost before = pages_view(self.pages@);
            let p = self.pages.remove(i);
            self.pages.insert(i - 1, p);
            self.dirty_order = true;
            assert(pages_view(self.pages@) =~= swapped_next(before, i - 1));
        }
    }

    /// Moves page `i` one place later (exchanging it with the page after);
    /// nothing for the last page or past it.
    pub fn move_right(&mut self, i: usize)
        requires
            old(self)@.wf(),
        ensures
            final(self)@.wf(),
            i + 1 < old(self)@.pages.len() ==> final(self)@ == old(self)@.with_pages(
                swapped_next(old(self)@.pages, i as int),
                old(self)@.next_uid,
                true,
            ),
            i + 1 >= old(self)@.pages.len() ==> final(self)@ == old(self)@,
    {
        if i < self.pages.len() && self.pages.len() - i > 1 {
            let ghost before = pages_view(self.pages@);
            let p = self.pages.remove(i);
            self.pages.insert(i + 1, p);
            self.dirty_order = true;
            assert(pages_view(self.pages@) =~= swapped_next(before, i as int));
        }
    }

    /// Moves page `i` to the front; nothing past the last page.
    pub fn move_start(&mut self, i: usize)
        requires
            old(self)@.wf(),
        ensures
            final(self)@.wf(),
            i < old(self)@.pages.len() ==> final(self)@ == old(self)@.with_pages(
                moved(old(self)@.pages, i as int, 0),
                old(self)@.next_uid,
                true,
            ),
            i >= old(self)@.pages.len() ==> final(self)@ == old(self)@,
    {
        if i < self.pages.len() {
            let ghost before = pages_view(self.pages@);
            let p = self.pages.remove(i);
            self.pages.insert(0, p);
            self.dirty_order = true;
            assert(pages_view(self.pages@) =~= moved(before, i as int, 0));
            proof {
                lemma_moved_keeps_uids(before, i as int, 0, old(self)@.next_uid);
            }
        }
    }

    /// Moves page `i` to the end; nothing past the last page.
    pub fn move_end(&mut self, i: usize)
        requires
            old(self)@.wf(),
        ensures
            final(self)@.wf(),
            i < old(self)@.pages.len() ==> final(self)@ == old(self)@.with_pages(
                moved(old(self)@.pages, i as int, old(self)@.pages.len() - 1),
                old(self)@.next_uid,
                true,
            ),
            i >= old(self)@.pages.len() ==> final(self)@ == old(self)@,
    {
        if i < self.pages.len() {
            let ghost before = pages_view(self.pages@);
            let p = self.pages.remove(i);
            self.pages.push(p);
            self.dirty_order = true;
            assert(pages_view(self.pages@) =~= moved(before, i as int, before.len() - 1));
            proof {
                lemma_moved_keeps_uids(before, i as int, before.len() - 1, old(self)@.next_uid);
            }
        }
    }
}

/// Moving a page keeps page numbers distinct and below the counter.
proof fn lemma_moved_keeps_uids(s: Seq<PageView>, i: int, j: int, next: nat)
    requires
        0 <= i < s.len(),
        0 <= j < s.len(),
        forall|a: int, b: int|
            0 <= a < s.len() && 0 <= b < s.len() && a != b ==> #[trigger] s[a].uid
                != #[trigger] s[b].uid,
        forall|a: int| 0 <= a < s.len() ==> #[trigger] s[a].uid < next,
    ensures
        ({
            let t = moved(s, i, j);
            &&& t.len() == s.len()
            &&& forall|a: int, b: int|
                0 <= a < t.len() && 0 <= b < t.len() && a != b ==> #[trigger] t[a].uid
                    != #[trigger] t[b].uid
            &&& forall|a: int| 0 <= a < t.len() ==> #[trigger] t[a].uid < next
        }),
{
    let t = moved(s, i, j);
    let r = s.remove(i);
    // position in `s` of the element at position `a` of `t`
    let src = |a: int|
        if a == j {
            i
        } else {
            let ra = if a < j {
                a
            } else {
                a - 1
            };
            if ra < i {
                ra
            } else {
                ra + 1
            }
        };
    assert forall|a: int| 0 <= a < t.len() implies t[a] == s[src(a)] && 0 <= src(a) < s.len() by {
        if a != j {
            let ra = if a < j {
                a
            } else {
                a - 1
            };
            assert(t[a] == r[ra]);
        }
    }
    assert forall|a: int, b: int|
        0 <= a < t.len() && 0 <= b < t.len() && a != b implies #[trigger] t[a].uid
            != #[trigger] t[b].uid by {
        assert(t[a] == s[src(a)]);
        assert(t[b] == s[src(b)]);
        assert(src(a) != src(b));
    }
    assert forall|a: int| 0 <= a < t.len() implies #[trigger] t[a].uid < next by {
        assert(t[a] == s[src(a)]);
    }
}

/// Where a page dragged from index `from` lands when dropped at insertion
/// point `to` (between pages: `0` before the first, the number of pages after
/// the last; clamped to the end).
pub open spec fn drop_target(from: nat, to: nat, len: nat) -> nat {
    let t = clamp_index(to, len);
    if t > from {
        (t - 1) as nat
    } else {
        t
    }
}

/// Page `i` has the same bytes as some other page of the book.
pub open spec fn has_copy(s: Seq<PageView>, i: int) -> bool {
    exists|k: int| 0 <= k < s.len() && k != i && #[trigger] s[k].bytes == s[i].bytes
}

/// The pages with every page whose bytes another page also holds marked for
/// deletion (all the copies, none kept).
pub open spec fn duplicates_marked(s: Seq<PageView>) -> Seq<PageView> {
    Seq::new(s.len(), |i: int| PageView { delete: s[i].delete || has_copy(s, i), ..s[i] })
}

/// How many of the first `n` pages have a copy elsewhere in the book and are
/// not marked for deletion yet.
pub open spec fn newly_marked(s: Seq<PageView>, n: int) -> nat
    decreases n,
{
    if n <= 0 {
        0
    } else {
        newly_marked(s, n - 1) + if has_copy(s, n - 1) && !s[n - 1].delete {
            1nat
        } else {
            0nat
        }
    }
}

/// Moving a page away and back to where it was gives back the same order.
pub proof fn law_move_back(s: Seq<PageView>, i: int, j: int)
    requires
        0 <= i < s.len(),
        0 <= j < s.len(),
    ensures
        moved(moved(s, i, j), j, i) == s,
{
    let t = moved(s, i, j);
    assert(t[j] == s[i]);
    assert(t.remove(j) =~= s.remove(i));
    assert(moved(t, j, i) =~= s);
}

/// Marking duplicates a second time changes nothing and marks no page.
pub proof fn law_mark_duplicates_twice(s: Seq<PageView>)
    ensures
        duplicates_marked(duplicates_marked(s)) == duplicates_marked(s),
        newly_marked(duplicates_marked(s), s.len() as int) == 0,
{
    let t = duplicates_marked(s);
    assert forall|m: int| 0 <= m < s.len() implies #[trigger] t[m].bytes == s[m].bytes by {}
    assert forall|i: int| 0 <= i < s.len() implies #[trigger] has_copy(t, i) == has_copy(s, i) by {
        lemma_copies_same_bytes(t, s, i);
    }
    assert(duplicates_marked(t) =~= t);
    lemma_none_newly_marked(s, s.len() as int);
}

/// Once duplicates are marked, none is left to mark among the first `n` pages.
proof fn lemma_none_newly_marked(s: Seq<PageView>, n: int)
    requires
        n <= s.len(),
        forall|i: int| 0 <= i < s.len() ==> #[trigger] has_copy(duplicates_marked(s), i) == has_copy(s, i),
    ensures
        newly_marked(duplicates_marked(s), n) == 0,
    decreases n,
{
    if n > 0 {
        lemma_none_newly_marked(s, n - 1);
        assert(has_copy(duplicates_marked(s), n - 1) == has_copy(s, n - 1));
    }
}

/// Whether another page holds the same bytes as page `i`.
fn copy_exists(pages: &Vec<Page>, i: usize) -> (r: bool)
    requires
        i < pages@.len(),
    ensures
        r == has_copy(pages_view(pages@), i as int),
{
    let ghost s = pages_view(pages@);
    let n = pages.len();
    let mut k: usize = 0;
    while k < n
        invariant
            i < pages@.len(),
            n == pages@.len(),
            s == pages_view(pages@),
            k <= n,
            forall|m: int| 0 <= m < k && m != i ==> #[trigger] s[m].bytes != s[i as int].bytes,
        decreases n - k,
    {
        assert(s[k as int] == pages@[k as int]@ && s[i as int] == pages@[i as int]@);
        if k != i && bytes_equal(&pages[k].bytes, &pages[i].bytes) {
            assert(s[k as int].bytes == s[i as int].bytes);
            return true;
        }
        k = k + 1;
    }
    false
}

/// Whether two byte buffers hold the same bytes.
fn bytes_equal(a: &Vec<u8>, b: &Vec<u8>) -> (r: bool)
    ensures
        r == (a@ == b@),
{
    if a.len() != b.len() {
        return false;
    }
    let mut i: usize = 0;
    while i < a.len()
        invariant
            a.len() == b.len(),
            i <= a.len(),
            forall|k: int| 0 <= k < i ==> a@[k] == b@[k],
        decreases a.len() - i,
    {
        if a[i] != b[i] {
            return false;
        }
        i = i + 1;
    }
    assert(a@ =~= b@);
    true
}

/// Whether a page has a copy depends only on the pages' bytes.
proof fn lemma_copies_same_bytes(s: Seq<PageView>, t: Seq<PageView>, i: int)
    requires
        s.len() == t.len(),
        0 <= i < s.len(),
        forall|m: int| 0 <= m < s.len() ==> #[trigger] s[m].bytes == t[m].bytes,
    ensures
        has_copy(s, i) == has_copy(t, i),
{
    if has_copy(s, i) {
        let k = choose|k: int| 0 <= k < s.len() && k != i && #[trigger] s[k].bytes == s[i].bytes;
        assert(t[k].bytes == t[i].bytes);
    }
    if has_copy(t, i) {
        let k = choose|k: int| 0 <= k < t.len() && k != i && #[trigger] t[k].bytes == t[i].bytes;
        assert(s[k].bytes == s[i].bytes);
    }
}

impl CbzBook {
    /// Moves page `from` to insertion point `to` (see `drop_target`), as when
    /// its thumbnail is dragged there; after every drop of a page of the book
    /// the order is marked as modified, also when the page lands where it
    /// already was (and stays there). Nothing happens when `from` is past the
    /// last page.
    pub fn move_page(&mut self, from: usize, to: usize)
        requires
            old(self)@.wf(),
        ensures
            final(self)@.wf(),
            ({
                let b = old(self)@;
                let dest = drop_target(from as nat, to as nat, b.pages.len());
                if from < b.pages.len() {
                    final(self)@ == b.with_pages(
                        if dest != from {
                            moved(b.pages, from as int, dest as int)
                        } else {
                            b.pages
                        },
                        b.next_uid,
                        true,
                    )
                } else {
                    final(self)@ == b
                }
            }),
    {
        let len = self.pages.len();
        if from >= len {
            return;
        }
        let t = if to < len {
            to
        } else {
            len
        };
        let dest = if t > from {
            t - 1
        } else {
            t
        };
        if dest == from {
            self.dirty_order = true;
            return;
        }
        let ghost before = pages_view(self.pages@);
        let p = self.pages.remove(from);
        self.pages.insert(dest, p);
        self.dirty_order = true;
        assert(pages_view(self.pages@) =~= moved(before, from as int, dest as int));
        proof {
            lemma_moved_keeps_uids(before, from as int, dest as int, old(self)@.next_uid);
        }
    }

    /// Marks for deletion every page whose bytes another page also holds: all
    /// the copies of identical pages are marked, none is kept. Returns how many
    /// pages this newly marks.
    pub fn mark_duplicates(&mut self) -> (count: usize)
        requires
            old(self)@.wf(),
        ensures
            final(self)@.wf(),
            final(self)@ == old(self)@.with_pages(
                duplicates_marked(old(self)@.pages),
                old(self)@.next_uid,
                old(self)@.dirty_order,
            ),
            count == newly_marked(old(self)@.pages, old(self)@.pages.len() as int),
    {
        let ghost orig = pages_view(self.pages@);
        let n = self.pages.len();
        let mut count: usize = 0;
        let mut i: usize = 0;
        while i < n
            invariant
                n == orig.len(),
                i <= n,
                self.pages@.len() == n,
                count == newly_marked(orig, i as int),
                count <= i,
                forall|k: int|
                    0 <= k < n ==> #[trigger] pages_view(self.pages@)[k] == if k < i {
                        duplicates_marked(orig)[k]
                    } else {
                        orig[k]
                    },
                self.comicinfo == old(self).comicinfo,
                self.cover == old(self).cover,
                self.rtl == old(self).rtl,
                self.next_uid == old(self).next_uid,
                self.dirty_order == old(self).dirty_order,
                orig == old(self)@.pages,
            decreases n - i,
        {
            let ghost cur = pages_view(self.pages@);
            assert forall|m: int| 0 <= m < n implies #[trigger] cur[m].bytes == orig[m].bytes by {
                assert(cur[m] == if m < i {
                    duplicates_marked(orig)[m]
                } else {
                    orig[m]
                });
            }
            proof {
                lemma_copies_same_bytes(cur, orig, i as int);
            }
            let rep = copy_exists(&self.pages, i);
            assert(cur[i as int] == orig[i as int]);
            assert(cur[i as int] == self.pages@[i as int]@);
            if rep && !self.pages[i].delete {
                let mut p = self.pages.remove(i);
                p.delete = true;
                self.pages.insert(i, p);
                assert(pages_view(self.pages@) =~= cur.update(
                    i as int,
                    PageView { delete: true, ..cur[i as int] },
                ));
                count = count + 1;
            }
            assert(duplicates_marked(orig)[i as int] == PageView {
                delete: orig[i as int].delete || has_copy(orig, i as int),
                ..orig[i as int]
            });
            i = i + 1;
        }
        proof {
            let fin = pages_view(self.pages@);
            assert(fin =~= duplicates_marked(orig));
        }
        count
    }
}

/// `prefix`, the decimal digits of `uid`, then `.jpg`.
pub open spec fn jpg_name(prefix: Seq<char>, uid: nat) -> Seq<char> {
    prefix + decimal(uid) + seq!['.', 'j', 'p', 'g']
}

/// `merged-`
pub open spec fn merged_prefix() -> Seq<char> {
    seq!['m', 'e', 'r', 'g', 'e', 'd', '-']
}

/// `split-`
pub open spec fn split_prefix() -> Seq<char> {
    seq!['s', 'p', 'l', 'i', 't', '-']
}

/// The name `{prefix}{uid}.jpg`.
fn jpg_name_string(prefix: Vec<char>, uid: u64) -> (r: String)
    ensures
        r@ == jpg_name(prefix@, uid as nat),
{
    let mut v = prefix;
    let d = decimal_chars(uid);
    let ghost start = v@;
    let mut i: usize = 0;
    while i < d.len()
        invariant
            i <= d.len(),
            v@ =~= start + d@.subrange(0, i as int),
        decreases d.len() - i,
    {
        v.push(d[i]);
        i = i + 1;
    }
    v.push('.');
    v.push('j');
    v.push('p');
    v.push('g');
    assert(v@ =~= jpg_name(start, uid as nat));
    string_of(&v)
}

/// The `(name, bytes)` views of files to insert.
pub open spec fn files_view(files: Seq<(String, Vec<u8>)>) -> Seq<(Seq<char>, Seq<u8>)> {
    files.map_values(|f: (String, Vec<u8>)| (f.0@, f.1@))
}

impl CbzBook {
    /// Inserts a picked picture as a new page at index `at` (clamped to the end
    /// of the book), numbered with the counter; the order becomes modified.
    pub fn insert_image(&mut self, at: usize, name: String, bytes: Vec<u8>)
        requires
            old(self)@.wf(),
            old(self)@.next_uid < u64::MAX,
        ensures
            final(self)@.wf(),
            final(self)@ == old(self)@.with_pages(
                spliced(
                    old(self)@.pages,
                    clamp_index(at as nat, old(self)@.pages.len()) as int,
                    0,
                    seq![new_page_view(name@, bytes@, old(self)@.next_uid as u64)],
                ),
                old(self)@.next_uid + 1,
                true,
            ),
    {
        let ghost before = pages_view(self.pages@);
        let pos = if at < self.pages.len() {
            at
        } else {
            self.pages.len()
        };
        let uid = self.next_uid;
        self.next_uid = self.next_uid + 1;
        let ghost nv = new_page_view(name@, bytes@, uid);
        self.pages.insert(pos, Page { name, bytes, failed: false, delete: false, uid });
        self.dirty_order = true;
        assert(pages_view(self.pages@) =~= spliced(before, pos as int, 0, seq![nv]));
        proof {
            lemma_spliced_keeps_uids(before, pos as int, 0, seq![nv], uid as nat, (uid + 1) as nat);
        }
    }

    /// Inserts dropped pictures as new pages, in order, from index `at`
    /// (clamped to the end of the book), numbered from the counter up; the
    /// order becomes modified when at least one was inserted. Returns how many
    /// were inserted.
    pub fn insert_images(&mut self, at: usize, files: Vec<(String, Vec<u8>)>) -> (count: usize)
        requires
            old(self)@.wf(),
            old(self)@.next_uid + files@.len() <= u64::MAX,
        ensures
            count == files@.len(),
            final(self)@.wf(),
            final(self)@ == old(self)@.with_pages(
                spliced(
                    old(self)@.pages,
                    clamp_index(at as nat, old(self)@.pages.len()) as int,
                    0,
                    fresh_pages(files_view(files@), old(self)@.next_uid),
                ),
                old(self)@.next_uid + files@.len(),
                old(self)@.dirty_order || files@.len() > 0,
            ),
    {
        let ghost before = pages_view(self.pages@);
        let ghost first = self.next_uid as nat;
        let ghost fv = files_view(files@);
        let pos = if at < self.pages.len() {
            at
        } else {
            self.pages.len()
        };
        let n = files.len();
        let mut files = files;
        let mut k: usize = 0;
        while k < n
            invariant
                n == fv.len(),
                k <= n,
                files@.len() == n - k,
                forall|j: int| 0 <= j < n - k ==> (#[trigger] files@[j].0@, files@[j].1@) == fv[j + k],
                pos <= before.len(),
                self.pages@.len() == before.len() + k,
                self.comicinfo == old(self).comicinfo,
                self.cover == old(self).cover,
                self.rtl == old(self).rtl,
                self.dirty_order == old(self).dirty_order,
                self.next_uid == first + k,
                first + n <= u64::MAX,
                pages_view(self.pages@) =~= spliced(
                    before,
                    pos as int,
                    0,
                    fresh_pages(fv.subrange(0, k as int), first),
                ),
            decreases n - k,
        {
            let (name, bytes) = files.remove(0);
            assert((name@, bytes@) == fv[k as int]);
            let uid = self.next_uid;
            self.next_uid = self.next_uid + 1;
            let ghost prev = pages_view(self.pages@);
            let len_now = self.pages.len();
            assert(pos + k <= len_now);
            let page = Page { name, bytes, failed: false, delete: false, uid };
            let ghost pv = page@;
            self.pages.insert(pos + k, page);
            assert(pages_view(self.pages@) =~= prev.insert(pos + k, pv));
            assert(fresh_pages(fv.subrange(0, k as int), first).len() == k);
            assert(fresh_pages(fv.subrange(0, k + 1), first) =~= fresh_pages(
                fv.subrange(0, k as int),
                first,
            ).push(new_page_view(fv[k as int].0, fv[k as int].1, uid)));
            assert(pages_view(self.pages@) =~= spliced(
                before,
                pos as int,
                0,
                fresh_pages(fv.subrange(0, k + 1), first),
            ));
            k = k + 1;
        }
        if n > 0 {
            self.dirty_order = true;
        }
        assert(fv.subrange(0, n as int) =~= fv);
        proof {
            lemma_spliced_keeps_uids(
                before,
                pos as int,
                0,
                fresh_pages(fv, first),
                first,
                (first + n) as nat,
            );
        }
        n
    }

    /// How many pages are kept (not marked for deletion).
    pub fn kept_count(&self) -> (r: usize)
        ensures
            r == self@.pages.filter(|p: PageView| !p.delete).len(),
    {
        let mut c: usize = 0;
        let mut i: usize = 0;
        let ghost all = pages_view(self.pages@);
        while i < self.pages.len()
            invariant
                i <= self.pages.len(),
                all == pages_view(self.pages@),
                c == all.subrange(0, i as int).filter(|p: PageView| !p.delete).len(),
                c <= i,
            decreases self.pages.len() - i,
        {
            proof {
                reveal_with_fuel(Seq::filter, 1);
                assert(all.subrange(0, i + 1).drop_last() =~= all.subrange(0, i as int));
            }
            if !self.pages[i].delete {
                c = c + 1;
            }
            i = i + 1;
        }
        assert(all.subrange(0, i as int) =~= all);
        c
    }
}

/// The page shown after moving `d` pages from `idx` in a book of `total`
/// pages: `idx + d` clamped to the pages, or `idx` itself when there are none.
pub open spec fn viewer_target(idx: int, total: int, d: int) -> int {
    if total == 0 {
        idx
    } else if idx + d < 0 {
        0
    } else if idx + d > total - 1 {
        total - 1
    } else {
        idx + d
    }
}

/// Moves the enlarged view by `d` pages, staying within the book.
pub fn viewer_go(idx: usize, total: usize, d: i32) -> (r: usize)
    requires
        idx <= i32::MAX,
        total <= i32::MAX,
        i32::MIN <= idx + d <= i32::MAX,
    ensures
        r == viewer_target(idx as int, total as int, d as int),
{
    if total == 0 {
        return idx;
    }
    let t: i32 = (total as i32) - 1;
    let n: i32 = (idx as i32) + d;
    let c: i32 = if n < 0 {
        0
    } else if n > t {
        t
    } else {
        n
    };
    c as usize
}

/// Indices of the entries of `needs` that are true, in order.
pub open spec fn needing(needs: Seq<bool>) -> Seq<int>
    decreases needs.len(),
{
    if needs.len() == 0 {
        Seq::empty()
    } else if needs.last() {
        needing(needs.drop_last()).push(needs.len() - 1)
    } else {
        needing(needs.drop_last())
    }
}

/// Picks the pages whose thumbnails to make now: the first `budget` pages that
/// need one, and whether more are left for later.
pub fn thumbnail_batch(needs: &Vec<bool>, budget: usize) -> (r: (Vec<usize>, bool))
    ensures
        r.0@.map_values(|k: usize| k as int) == batch(needs@, budget as nat),
        r.1 == (needing(needs@).len() > budget),
{
    let mut picked: Vec<usize> = Vec::new();
    let mut pending = false;
    let mut i: usize = 0;
    while i < needs.len()
        invariant
            i <= needs.len(),
            picked@.len() == if needing(needs@.subrange(0, i as int)).len() < budget {
                needing(needs@.subrange(0, i as int)).len() as int
            } else {
                budget as int
            },
            picked@.map_values(|k: usize| k as int) =~= needing(needs@.subrange(0, i as int)).take(
                picked@.len() as int,
            ),
            pending == (needing(needs@.subrange(0, i as int)).len() > budget),
        decreases needs.len() - i,
    {
        let ghost pre = needing(needs@.subrange(0, i as int));
        let ghost post = needing(needs@.subrange(0, i + 1));
        assert(needs@.subrange(0, i + 1).drop_last() =~= needs@.subrange(0, i as int));
        assert(needs@.subrange(0, i + 1).last() == needs@[i as int]);
        if needs[i] {
            assert(post == pre.push(i as int));
            if picked.len() < budget {
                let ghost old_picked = picked@;
                picked.push(i);
                assert(picked@.map_values(|k: usize| k as int) =~= old_picked.map_values(
                    |k: usize| k as int,
                ).push(i as int));
                assert(pre.take(pre.len() as int) =~= pre);
                assert(post.take(post.len() as int) =~= post);
            } else {
                pending = true;
                assert(post.take(budget as int) =~= pre.take(budget as int));
            }
        } else {
            assert(post == pre);
        }
        i = i + 1;
    }
    assert(needs@.subrange(0, needs.len() as int) =~= needs@);
    (picked, pending)
}

/// `needs` once the pages `picked` are settled (their thumbnail made, or
/// marked failed): each picked entry becomes false.
pub open spec fn settle(needs: Seq<bool>, picked: Seq<int>) -> Seq<bool> {
    Seq::new(needs.len(), |k: int| needs[k] && !picked.contains(k))
}

/// The pages `thumbnail_batch` picks: the first `budget` that need a
/// thumbnail.
pub open spec fn batch(needs: Seq<bool>, budget: nat) -> Seq<int> {
    let n = needing(needs);
    n.take(
        if n.len() < budget {
            n.len() as int
        } else {
            budget as int
        },
    )
}

/// `needs` after `calls` calls of `thumbnail_batch`, the pages of each batch
/// settled before the next call.
pub open spec fn after_calls(needs: Seq<bool>, budget: nat, calls: nat) -> Seq<bool>
    decreases calls,
{
    if calls == 0 {
        needs
    } else {
        after_calls(settle(needs, batch(needs, budget)), budget, (calls - 1) as nat)
    }
}

/// The indices `needing` lists lie within `needs`, and are the entries that
/// are true.
proof fn lemma_needing_bounds(s: Seq<bool>)
    ensures
        forall|j: int| 0 <= j < needing(s).len() ==> 0 <= #[trigger] needing(s)[j] < s.len(),
    decreases s.len(),
{
    if s.len() > 0 {
        lemma_needing_bounds(s.drop_last());
        let nd = needing(s.drop_last());
        if s.last() {
            assert forall|j: int| 0 <= j < needing(s).len() implies 0 <= #[trigger] needing(s)[j]
                < s.len() by {
                if j < nd.len() {
                    assert(needing(s)[j] == nd[j]);
                }
            }
        }
    }
}

/// Settling the first `m` pages that need a thumbnail leaves the others
/// waiting: `m` fewer, or none.
#[verifier::spinoff_prover]
proof fn lemma_settle_first(s: Seq<bool>, m: nat)
    ensures
        needing(settle(s, batch(s, m))).len() == if needing(s).len() <= m {
            0
        } else {
            needing(s).len() - m
        },
    decreases s.len(),
{
    let n = needing(s);
    let p = batch(s, m);
    let t = settle(s, p);
    if s.len() == 0 {
        assert(t =~= Seq::<bool>::empty());
    } else {
        let dl = s.drop_last();
        let nd = needing(dl);
        let pd = batch(dl, m);
        let c = nd.len();
        let last = s.len() - 1;
        lemma_needing_bounds(dl);
        lemma_settle_first(dl, m);
        let td = settle(dl, pd);
        assert(n == if s.last() {
            nd.push(last)
        } else {
            nd
        });
        assert(pd.len() <= p.len());
        assert forall|j: int| 0 <= j < pd.len() implies p[j] == pd[j] && pd[j] < last by {
            assert(pd[j] == nd[j]);
            assert(p[j] == n[j]);
        }
        // the entries before the last are settled as in `dl`
        assert(t.drop_last() =~= td) by {
            assert forall|k: int| 0 <= k < last implies p.contains(k) == pd.contains(k) by {
                if p.contains(k) {
                    let j = choose|j: int| 0 <= j < p.len() && p[j] == k;
                    if j < pd.len() {
                        assert(pd[j] == k);
                    } else {
                        assert(p[j] == n[j]);
                        assert(j >= c);
                        assert(n[j] == last);
                    }
                }
                if pd.contains(k) {
                    let j = choose|j: int| 0 <= j < pd.len() && pd[j] == k;
                    assert(p[j] == k);
                }
            }
        }
        // the last entry stays waiting exactly when `m` pages before it were
        if s.last() {
            if c < m {
                assert(p[c as int] == n[c as int]);
                assert(p.contains(last));
                assert(!t.last());
            } else {
                assert(p =~= pd);
                assert(!p.contains(last));
                assert(t.last());
            }
        } else {
            assert(!t.last());
        }
        assert(needing(t).len() == needing(t.drop_last()).len() + if t.last() {
            1int
        } else {
            0int
        });
    }
}

/// No page waits for its thumbnail forever: with batches of `budget` pages,
/// each settled before the next call, every page that needed one is settled
/// after `calls` calls as soon as `calls * budget` reaches their number (so
/// after `ceil(k / budget)` calls for `k` pages).
#[verifier::spinoff_prover]
pub proof fn law_thumbnails_all_settled(needs: Seq<bool>, budget: nat, calls: nat)
    requires
        budget > 0,
        calls * budget >= needing(needs).len(),
    ensures
        needing(after_calls(needs, budget, calls)).len() == 0,
    decreases calls,
{
    let k = needing(needs).len();
    if calls == 0 {
        assert(k == 0) by (nonlinear_arith)
            requires
                calls == 0,
                calls * budget >= k,
        ;
    } else {
        let m: nat = if k < budget {
            k
        } else {
            budget
        };
        lemma_settle_first(needs, budget);
        let next = settle(needs, batch(needs, budget));
        assert(needing(next).len() == k - m);
        assert((calls - 1) * budget >= k - m) by (nonlinear_arith)
            requires
                calls >= 1,
                calls * budget >= k,
                m == budget || (m == k && k < budget),
        ;
        law_thumbnails_all_settled(next, budget, (calls - 1) as nat);
    }
}

/// What merging a page with the next one did.
#[derive(Debug)]
pub enum MergeOutcome {
    /// There is no next page.
    NoNextPage,
    /// The page at this index could not be decoded; the message says why.
    DecodeFailed { page: usize, message: String },
    /// The joined picture would exceed the machine's size limits.
    TooLarge,
    /// The joined picture could not be written as JPEG (a side over 65535
    /// pixels); the message says why.
    EncodeFailed { message: String },
    /// The two pages were replaced by one double page.
    Merged,
}

/// The picture decoded from a page's bytes.
pub open spec fn decoded_view(bytes: Seq<u8>) -> PictureView {
    let size = decoded_size(bytes)->0;
    PictureView { width: size.0, height: size.1, origin: bytes, resized: None }
}

/// The width of the pictures `left` and `right` side by side, each brought
/// to their common height.
pub open spec fn joined_width(left: PictureView, right: PictureView) -> nat {
    let h = joined_height(left.height, right.height);
    (matched_view(left, h).width + matched_view(right, h).width) as nat
}

/// `bytes` is the JPEG (quality 92) of the pictures `left` and `right`,
/// brought to a common height and put side by side: for some pixels of the
/// two pictures at that height (see `pixels_fit`), their join.
pub open spec fn is_double_page(bytes: Seq<u8>, left: PictureView, right: PictureView) -> bool {
    let h = joined_height(left.height, right.height);
    exists|l: RgbView, r: RgbView, out: RgbView|
        pixels_fit(matched_view(left, h), l) && pixels_fit(matched_view(right, h), r) && is_joined(
            l,
            r,
            out,
        ) && out.height == h && bytes == jpeg_encoded(out.width as u32, out.height as u32, out.data, 92)
}

/// The left and right sides of two consecutive pages laid out as a double
/// page: the first page on the left, or on the right when reading right to left.
pub open spec fn sides<A>(first: A, second: A, rtl: bool) -> (A, A) {
    if rtl {
        (second, first)
    } else {
        (first, second)
    }
}

impl CbzBook {
    /// Merges page `i` with page `i + 1` into one double page (JPEG, quality
    /// 92) named `merged-{number}.jpg`, taking the next page number; the
    /// first-read page goes on the left, or on the right when reading right to
    /// left, both brought to the larger height. Nothing changes when there is
    /// no next page, a page cannot be decoded, the result would be too large,
    /// or it cannot be written as JPEG.
    pub fn merge_next(&mut self, i: usize) -> (r: MergeOutcome)
        requires
            old(self)@.wf(),
            old(self)@.next_uid < u64::MAX,
        ensures
            final(self)@.wf(),
            ({
                let b = old(self)@;
                let n = b.pages.len();
                match r {
                    MergeOutcome::NoNextPage => i + 1 >= n && final(self)@ == b,
                    MergeOutcome::DecodeFailed { page, .. } => i + 1 < n && final(self)@ == b && (
                    (page == i && decoded_size(b.pages[i as int].bytes) is None) || (page == i + 1
                        && decoded_size(b.pages[i as int].bytes) is Some && decoded_size(
                        b.pages[i + 1].bytes,
                    ) is None)),
                    MergeOutcome::TooLarge => i + 1 < n && final(self)@ == b && ({
                        let (l, r) = sides(
                            decoded_view(b.pages[i as int].bytes),
                            decoded_view(b.pages[i + 1].bytes),
                            b.rtl,
                        );
                        decoded_size(b.pages[i as int].bytes) is Some && decoded_size(
                            b.pages[i + 1].bytes,
                        ) is Some && !concat_fits(l.width, l.height, r.width, r.height)
                    }),
                    MergeOutcome::EncodeFailed { .. } => i + 1 < n && final(self)@ == b && ({
                        let (l, r) = sides(
                            decoded_view(b.pages[i as int].bytes),
                            decoded_view(b.pages[i + 1].bytes),
                            b.rtl,
                        );
                        &&& decoded_size(b.pages[i as int].bytes) is Some
                        &&& decoded_size(b.pages[i + 1].bytes) is Some
                        &&& concat_fits(l.width, l.height, r.width, r.height)
                        &&& !jpeg_fits(joined_width(l, r), joined_height(l.height, r.height) as nat)
                    }),
                    MergeOutcome::Merged => i + 1 < n && ({
                        let (l, r) = sides(
                            decoded_view(b.pages[i as int].bytes),
                            decoded_view(b.pages[i + 1].bytes),
                            b.rtl,
                        );
                        &&& decoded_size(b.pages[i as int].bytes) is Some
                        &&& decoded_size(b.pages[i + 1].bytes) is Some
                        &&& concat_fits(l.width, l.height, r.width, r.height)
                        &&& jpeg_fits(joined_width(l, r), joined_height(l.height, r.height) as nat)
                        &&& final(self)@ == b.with_pages(
                            spliced(
                                b.pages,
                                i as int,
                                2,
                                seq![
                                    new_page_view(
                                        jpg_name(merged_prefix(), b.next_uid),
                                        final(self)@.pages[i as int].bytes,
                                        b.next_uid as u64,
                                    ),
                                ],
                            ),
                            b.next_uid + 1,
                            true,
                        )
                        &&& is_double_page(final(self)@.pages[i as int].bytes, l, r)
                    }),
                }
            }),
    {
        let n = self.pages.len();
        if i >= n || n - i < 2 {
            return MergeOutcome::NoNextPage;
        }
        let ghost b = self@;
        assert(pages_view(self.pages@)[i as int] == self.pages@[i as int]@);
        assert(pages_view(self.pages@)[i + 1] == self.pages@[i + 1]@);
        let a = match decode_picture(self.pages[i].bytes.as_slice()) {
            Ok(x) => x,
            Err(e) => {
                return MergeOutcome::DecodeFailed { page: i, message: e };
            },
        };
        let bp = match decode_picture(self.pages[i + 1].bytes.as_slice()) {
            Ok(x) => x,
            Err(e) => {
                return MergeOutcome::DecodeFailed { page: i + 1, message: e };
            },
        };
        let (left, right) = if self.rtl {
            (bp, a)
        } else {
            (a, bp)
        };
        if !concat_fits_exec(left.width(), left.height(), right.width(), right.height()) {
            return MergeOutcome::TooLarge;
        }
        proof {
            assert(a@ == decoded_view(b.pages[i as int].bytes));
            assert(bp@ == decoded_view(b.pages[i + 1].bytes));
        }
        let merged = concat_h(left, right);
        let bytes = match jpeg_of(&merged, 92) {
            Ok(x) => x,
            Err(e) => {
                return MergeOutcome::EncodeFailed { message: e };
            },
        };
        let uid = self.next_uid;
        self.next_uid = self.next_uid + 1;
        let name = jpg_name_string(vec!['m', 'e', 'r', 'g', 'e', 'd', '-'], uid);
        proof {
            assert(seq!['m', 'e', 'r', 'g', 'e', 'd', '-'] =~= merged_prefix());
        }
        let ghost before = pages_view(self.pages@);
        let page = Page { name, bytes, failed: false, delete: false, uid };
        let ghost pv = page@;
        self.pages.remove(i + 1);
        self.pages.remove(i);
        self.pages.insert(i, page);
        self.dirty_order = true;
        assert(pages_view(self.pages@) =~= spliced(before, i as int, 2, seq![pv]));
        proof {
            lemma_spliced_keeps_uids(before, i as int, 2, seq![pv], uid as nat, (uid + 1) as nat);
            assert(pages_view(self.pages@)[i as int] == pv);
        }
        MergeOutcome::Merged
    }

    /// Cuts page `idx` in two at column `cut` (kept at least one column from
    /// either edge) of its decoded picture `img`: the two halves, in reading
    /// order (right half first when reading right to left), become two JPEG
    /// pages (quality 92) named `split-{number}.jpg` with the next two page
    /// numbers, in its place. The two numbers are used up even when `idx` is
    /// past the last page, which leaves the pages unchanged; returns whether
    /// the page was replaced. When a half cannot be written as JPEG (a side
    /// of 0 or over 65535 pixels) nothing changes and the encoder's message is
    /// returned.
    pub fn finish_split(&mut self, idx: usize, img: &Picture, cut: u32, rtl: bool) -> (r: Result<bool, String>)
        requires
            old(self)@.wf(),
            old(self)@.next_uid + 2 <= u64::MAX,
            img.w() >= 2,
            3 * img.w() * img.h() <= usize::MAX,
        ensures
            final(self)@.wf(),
            r is Err <==> !(jpeg_fits(clamped_cut(cut, img.w()) as nat, img.h() as nat) && jpeg_fits(
                (img.w() - clamped_cut(cut, img.w())) as nat,
                img.h() as nat,
            )),
            r is Err ==> final(self)@ == old(self)@,
            r matches Ok(replaced) ==> replaced == (idx < old(self)@.pages.len()),
            r is Ok ==> final(self)@.next_uid == old(self)@.next_uid + 2,
            r == Ok::<bool, String>(false) ==> final(self)@ == old(self)@.with_pages(
                old(self)@.pages,
                old(self)@.next_uid + 2,
                old(self)@.dirty_order,
            ),
            r == Ok::<bool, String>(true) ==> exists|src: RgbView, first: RgbView, second: RgbView|
                {
                    &&& pixels_fit(img@, src)
                    &&& is_split(src, clamped_cut(cut, img.w()) as nat, rtl, first, second)
                    &&& final(self)@ == old(self)@.with_pages(
                        spliced(
                            old(self)@.pages,
                            idx as int,
                            1,
                            seq![
                                new_page_view(
                                    jpg_name(split_prefix(), old(self)@.next_uid),
                                    jpeg_encoded(first.width as u32, first.height as u32, first.data, 92),
                                    old(self)@.next_uid as u64,
                                ),
                                new_page_view(
                                    jpg_name(split_prefix(), old(self)@.next_uid + 1),
                                    jpeg_encoded(second.width as u32, second.height as u32, second.data, 92),
                                    (old(self)@.next_uid + 1) as u64,
                                ),
                            ],
                        ),
                        old(self)@.next_uid + 2,
                        true,
                    )
                },
    {
        let rgb = picture_rgb8(img);
        let (first, second) = split_at_cut(&rgb, cut, rtl);
        proof {
            let c = clamped_cut(cut, img.w()) as nat;
            let w = img.w() as nat;
            assert(crop_start(w, 0) == 0 && crop_start(w, c) == c);
            assert(crop_start(img.h() as nat, 0) == 0);
            if rtl {
                assert(first@.width == w - c && second@.width == c);
            } else {
                assert(first@.width == c && second@.width == w - c);
            }
            assert(first@.height == img.h() && second@.height == img.h());
        }
        let fb = match jpeg_of(&first, 92) {
            Ok(x) => x,
            Err(e) => {
                return Err(e);
            },
        };
        let sb = match jpeg_of(&second, 92) {
            Ok(x) => x,
            Err(e) => {
                return Err(e);
            },
        };
        let u1 = self.next_uid;
        let u2 = self.next_uid + 1;
        self.next_uid = self.next_uid + 2;
        let n1 = jpg_name_string(vec!['s', 'p', 'l', 'i', 't', '-'], u1);
        let n2 = jpg_name_string(vec!['s', 'p', 'l', 'i', 't', '-'], u2);
        proof {
            assert(seq!['s', 'p', 'l', 'i', 't', '-'] =~= split_prefix());
        }
        let p1 = Page { name: n1, bytes: fb, failed: false, delete: false, uid: u1 };
        let p2 = Page { name: n2, bytes: sb, failed: false, delete: false, uid: u2 };
        let ghost v1 = p1@;
        let ghost v2 = p2@;
        if idx < self.pages.len() {
            let ghost before = pages_view(self.pages@);
            self.pages.remove(idx);
            self.pages.insert(idx, p2);
            self.pages.insert(idx, p1);
            self.dirty_order = true;
            assert(pages_view(self.pages@) =~= spliced(before, idx as int, 1, seq![v1, v2]));
            proof {
                lemma_spliced_keeps_uids(
                    before,
                    idx as int,
                    1,
                    seq![v1, v2],
                    u1 as nat,
                    (u1 + 2) as nat,
                );
            }
            Ok(true)
        } else {
            Ok(false)
        }
    }

    /// Makes the cover from the decoded picture `img` of a page: the whole
    /// picture, or the selected `[x, y, w, h]` rectangle (clipped), encoded as
    /// JPEG (quality 92). Without a selection nothing changes and nothing is
    /// returned; otherwise the cover picture is returned. When the part kept
    /// cannot be written as JPEG (a side of 0 or over 65535 pixels) nothing
    /// changes and the encoder's message is returned.
    pub fn finish_crop(&mut self, img: &Picture, sel: Option<[u32; 4]>, whole: bool) -> (r: Result<
        Option<crate::picture::Rgb8>,
        String,
    >)
        requires
            old(self)@.wf(),
            3 * img.w() * img.h() <= usize::MAX,
        ensures
            final(self)@.wf(),
            r is Err <==> ((whole || sel is Some) && !({
                let (cw, ch) = cropped_size(img.w() as nat, img.h() as nat, sel, whole);
                jpeg_fits(cw, ch)
            })),
            r is Err ==> final(self)@ == old(self)@,
            r matches Ok(None) <==> (!whole && sel is None),
            r matches Ok(None) ==> final(self)@ == old(self)@,
            r matches Ok(Some(out)) ==> {
                &&& exists|src: RgbView| pixels_fit(img@, src) && is_cropped_region(src, sel, whole, out@)
                &&& final(self)@ == (BookView {
                    cover: Some(jpeg_encoded(out@.width as u32, out@.height as u32, out@.data, 92)),
                    ..old(self)@
                })
            },
    {
        if !whole && sel.is_none() {
            return Ok(None);
        }
        let rgb = picture_rgb8(img);
        match crop_region(&rgb, sel, whole) {
            Some(region) => {
                assert((region@.width, region@.height) == cropped_size(
                    img.w() as nat,
                    img.h() as nat,
                    sel,
                    whole,
                ));
                let bytes = match jpeg_of(&region, 92) {
                    Ok(x) => x,
                    Err(e) => {
                        return Err(e);
                    },
                };
                let ghost before = self@;
                self.cover = Some(bytes);
                assert(self@ == (BookView { cover: Some(bytes@), ..before }));
                Ok(Some(region))
            },
            None => Ok(None),
        }
    }
}

/// Moving a page one place later and then back one place earlier gives back
/// the page order it started from.
pub proof fn law_move_right_then_left(s: Seq<PageView>, i: int)
    requires
        0 <= i,
        i + 1 < s.len(),
    ensures
        swapped_next(swapped_next(s, i), i) == s,
{
    assert(swapped_next(swapped_next(s, i), i) =~= s);
}

/// Marking a page for deletion twice leaves it as it was.
pub proof fn law_toggle_delete_twice(s: Seq<PageView>, i: int)
    requires
        0 <= i < s.len(),
    ensures
        ({
            let t = s.update(i, PageView { delete: !s[i].delete, ..s[i] });
            t.update(i, PageView { delete: !t[i].delete, ..t[i] }) == s
        }),
{
    let t = s.update(i, PageView { delete: !s[i].delete, ..s[i] });
    assert(t.update(i, PageView { delete: !t[i].delete, ..t[i] }) =~= s);
}

/// Paging through the enlarged view never leaves the book: with at least one
/// page, the shown page is always one of them.
pub proof fn law_viewer_stays_in_book(idx: int, total: int, d: int)
    requires
        total > 0,
    ensures
        0 <= viewer_target(idx, total, d) < total,
{
}

/// Paging through the enlarged view moves by `d` pages and stops at the ends:
/// from a page of the book, the page shown is `idx + d` when that is a page,
/// the last page when it is past the end, the first when it is before the
/// start; so moving forward never goes back, moving back never goes forward,
/// and not moving stays.
pub proof fn law_viewer_moves_by_d_and_stops_at_ends(idx: int, total: int, d: int)
    requires
        0 <= idx < total,
    ensures
        0 <= idx + d < total ==> viewer_target(idx, total, d) == idx + d,
        idx + d >= total ==> viewer_target(idx, total, d) == total - 1,
        idx + d < 0 ==> viewer_target(idx, total, d) == 0,
        d >= 0 ==> viewer_target(idx, total, d) >= idx,
        d <= 0 ==> viewer_target(idx, total, d) <= idx,
{
}

/// Replacing pages by fresh ones, numbered from the counter up, keeps page
/// numbers distinct and below the advanced counter.
proof fn lemma_spliced_keeps_uids(
    s: Seq<PageView>,
    at: int,
    count: int,
    items: Seq<PageView>,
    next: nat,
    next2: nat,
)
    requires
        0 <= at,
        0 <= count,
        at + count <= s.len(),
        forall|a: int, b: int|
            0 <= a < s.len() && 0 <= b < s.len() && a != b ==> #[trigger] s[a].uid
                != #[trigger] s[b].uid,
        forall|a: int| 0 <= a < s.len() ==> #[trigger] s[a].uid < next,
        forall|a: int, b: int|
            0 <= a < items.len() && 0 <= b < items.len() && a != b ==> #[trigger] items[a].uid
                != #[trigger] items[b].uid,
        forall|a: int| 0 <= a < items.len() ==> next <= #[trigger] items[a].uid < next2,
        next <= next2,
    ensures
        ({
            let t = spliced(s, at, count, items);
            &&& forall|a: int, b: int|
                0 <= a < t.len() && 0 <= b < t.len() && a != b ==> #[trigger] t[a].uid
                    != #[trigger] t[b].uid
            &&& forall|a: int| 0 <= a < t.len() ==> #[trigger] t[a].uid < next2
        }),
{
    let t = spliced(s, at, count, items);
    let il = items.len() as int;
    assert forall|a: int| 0 <= a < t.len() implies (if a < at {
        t[a] == s[a]
    } else if a < at + il {
        t[a] == items[a - at]
    } else {
        t[a] == s[a - il + count]
    }) by {}
    assert forall|a: int, b: int|
        0 <= a < t.len() && 0 <= b < t.len() && a != b implies #[trigger] t[a].uid
            != #[trigger] t[b].uid by {
        if a < at {
        } else if a < at + il {
        } else {
        }
        if b < at {
        } else if b < at + il {
        } else {
        }
    }
}

} // verus!
