//! The `ComicInfo.xml` metadata kept in an archive: its `<PageCount>` element
//! and its reading direction.

use vstd::prelude::*;
use vstd::utf8::valid_utf8;
use crate::text::{decimal, occurs_at};

verus! {

/// The bytes of `String::from_utf8_lossy(bytes)`: `bytes` with every invalid
/// UTF-8 sequence replaced by U+FFFD.
pub uninterp spec fn lossy_utf8(bytes: Seq<u8>) -> Seq<u8>;

/// The text the metadata decodes to: valid UTF-8 is kept as it is, anything
/// else goes through the lossy decoding.
pub open spec fn utf8_text(bytes: Seq<u8>) -> Seq<u8> {
    if valid_utf8(bytes) {
        bytes
    } else {
        lossy_utf8(bytes)
    }
}

/// `String::from_utf8_lossy`, as bytes. Its result is named `lossy_utf8`; of
/// it the contract states only what std documents: it is a string, so valid
/// UTF-8, and valid UTF-8 comes back unchanged.
#[verifier::external_body]
fn utf8_lossy(bytes: &[u8]) -> (r: Vec<u8>)
    ensures
        r@ == lossy_utf8(bytes@),
        valid_utf8(bytes@) ==> r@ == bytes@,
        valid_utf8(r@),
{
    String::from_utf8_lossy(bytes).into_owned().into_bytes()
}

/// `<PageCount>`
pub open spec fn open_tag() -> Seq<u8> {
    seq![60u8, 80u8, 97u8, 103u8, 101u8, 67u8, 111u8, 117u8, 110u8, 116u8, 62u8]
}

/// `</PageCount>`
pub open spec fn close_tag() -> Seq<u8> {
    seq![60u8, 47u8, 80u8, 97u8, 103u8, 101u8, 67u8, 111u8, 117u8, 110u8, 116u8, 62u8]
}

/// `RightToLeft`
pub open spec fn rtl_marker() -> Seq<u8> {
    seq![82u8, 105u8, 103u8, 104u8, 116u8, 84u8, 111u8, 76u8, 101u8, 102u8, 116u8]
}

/// The first index at or after `i` where `pat` occurs in `s`.
pub open spec fn first_from(s: Seq<u8>, pat: Seq<u8>, i: int) -> Option<int>
    decreases s.len() + 1 - i,
{
    if i < 0 || i > s.len() {
        None
    } else if occurs_at(s, pat, i) {
        Some(i)
    } else {
        first_from(s, pat, i + 1)
    }
}

/// The first index where `pat` occurs in `s` (`str::find`).
pub open spec fn find_spec(s: Seq<u8>, pat: Seq<u8>) -> Option<int> {
    first_from(s, pat, 0)
}

/// The ASCII bytes of the decimal digits of `n`.
pub open spec fn decimal_bytes(n: nat) -> Seq<u8> {
    decimal(n).map_values(|c: char| c as u8)
}

/// `text` with the content of its first `<PageCount>` element replaced by the
/// decimal digits of `n`: defined when `<PageCount>` occurs and the first
/// `</PageCount>` comes after the first `<PageCount>`.
pub open spec fn patched_text(text: Seq<u8>, n: nat) -> Option<Seq<u8>> {
    match (find_spec(text, open_tag()), find_spec(text, close_tag())) {
        (Some(a), Some(b)) => if b > a {
            Some(text.subrange(0, a + 11) + decimal_bytes(n) + text.subrange(b, text.len() as int))
        } else {
            None
        },
        _ => None,
    }
}

/// What the page-count update gives for `xml`: its bytes with the page count
/// patched when it has one to patch, else `xml` itself.
pub open spec fn update_pagecount_spec(xml: Seq<u8>, n: nat) -> Seq<u8> {
    match patched_text(xml, n) {
        Some(t) => t,
        None => xml,
    }
}

/// The byte sequence held by an optional buffer.
pub open spec fn bytes_opt_view(o: Option<Vec<u8>>) -> Option<Seq<u8>> {
    match o {
        Some(x) => Some(x@),
        None => None,
    }
}

/// Whether the metadata marks a right-to-left (manga) book: true without
/// metadata, else whether its text mentions `RightToLeft`.
pub open spec fn right_to_left_spec(comicinfo: Option<Seq<u8>>) -> bool {
    match comicinfo {
        None => true,
        Some(x) => mentions_rtl(utf8_text(x)),
    }
}

/// `RightToLeft` occurs in the text.
pub open spec fn mentions_rtl(text: Seq<u8>) -> bool {
    exists|i: int| occurs_at(text, rtl_marker(), i)
}

/// The reading direction comes from the bytes `RightToLeft` alone: a book
/// without metadata reads right to left, and one with metadata does exactly
/// when its text holds the eleven bytes `R i g h t T o L e f t` in a row
/// (for metadata in valid UTF-8, the text is the metadata itself).
pub proof fn law_direction_is_right_to_left_marker(x: Seq<u8>, text: Seq<u8>)
    ensures
        right_to_left_spec(None),
        mentions_rtl(text) <==> exists|i: int|
            0 <= i && i + 11 <= text.len() && #[trigger] text.subrange(i, i + 11) == seq![
                82u8,
                105u8,
                103u8,
                104u8,
                116u8,
                84u8,
                111u8,
                76u8,
                101u8,
                102u8,
                116u8,
            ],
        valid_utf8(x) ==> (right_to_left_spec(Some(x)) == mentions_rtl(x)),
{
    let lit = seq![82u8, 105u8, 103u8, 104u8, 116u8, 84u8, 111u8, 76u8, 101u8, 102u8, 116u8];
    assert(rtl_marker() =~= lit);
    if mentions_rtl(text) {
        let i = choose|i: int| occurs_at(text, rtl_marker(), i);
        assert(text.subrange(i, i + 11) == lit);
    }
    if exists|i: int| 0 <= i && i + 11 <= text.len() && #[trigger] text.subrange(i, i + 11) == lit {
        let i = choose|i: int| 0 <= i && i + 11 <= text.len() && #[trigger] text.subrange(i, i + 11) == lit;
        assert(occurs_at(text, rtl_marker(), i));
    }
}

proof fn lemma_first_from(s: Seq<u8>, pat: Seq<u8>, i: int)
    requires
        0 <= i,
    ensures
        match first_from(s, pat, i) {
            Some(k) => i <= k <= s.len() && occurs_at(s, pat, k) && forall|j: int|
                i <= j < k ==> !occurs_at(s, pat, j),
            None => forall|j: int| i <= j ==> !occurs_at(s, pat, j),
        },
    decreases s.len() + 1 - i,
{
    if i > s.len() {
    } else if occurs_at(s, pat, i) {
    } else {
        lemma_first_from(s, pat, i + 1);
    }
}

/// `find_spec` gives `k` when `pat` occurs at `k` and nowhere before.
proof fn lemma_find_is(s: Seq<u8>, pat: Seq<u8>, k: int)
    requires
        0 <= k <= s.len(),
        occurs_at(s, pat, k),
        forall|j: int| 0 <= j < k ==> !occurs_at(s, pat, j),
    ensures
        find_spec(s, pat) == Some(k),
{
    lemma_first_from_is(s, pat, 0, k);
}

proof fn lemma_first_from_is(s: Seq<u8>, pat: Seq<u8>, i: int, k: int)
    requires
        0 <= i <= k <= s.len(),
        occurs_at(s, pat, k),
        forall|j: int| i <= j < k ==> !occurs_at(s, pat, j),
    ensures
        first_from(s, pat, i) == Some(k),
    decreases k - i,
{
    if i < k {
        lemma_first_from_is(s, pat, i + 1, k);
    }
}

/// The decimal digits are ASCII digits.
proof fn lemma_decimal_bytes_are_digits(n: nat)
    ensures
        forall|i: int| 0 <= i < decimal_bytes(n).len() ==> 48 <= #[trigger] decimal_bytes(n)[i] <= 57,
    decreases n,
{
    if n >= 10 {
        lemma_decimal_bytes_are_digits(n / 10);
        assert forall|i: int| 0 <= i < decimal_bytes(n).len() implies 48 <= #[trigger] decimal_bytes(
            n,
        )[i] <= 57 by {
            if i < decimal_bytes(n / 10).len() {
                assert(decimal_bytes(n)[i] == decimal_bytes(n / 10)[i]);
            }
        }
    }
}

/// The first occurrence of a tag at `a` in `text` stays the first in `u` when
/// `u` agrees with `text` up to `a + len`.
proof fn lemma_prefix_keeps_first(text: Seq<u8>, u: Seq<u8>, pat: Seq<u8>, a: int)
    requires
        0 <= a,
        a + pat.len() <= text.len(),
        a + pat.len() <= u.len(),
        occurs_at(text, pat, a),
        forall|j: int| 0 <= j < a ==> !occurs_at(text, pat, j),
        forall|p: int| 0 <= p < a + pat.len() ==> #[trigger] u[p] == text[p],
    ensures
        find_spec(u, pat) == Some(a),
{
    assert(u.subrange(a, a + pat.len()) =~= text.subrange(a, a + pat.len()));
    assert forall|j: int| 0 <= j < a implies !occurs_at(u, pat, j) by {
        if occurs_at(u, pat, j) {
            assert(u.subrange(j, j + pat.len()) =~= text.subrange(j, j + pat.len()));
            assert(occurs_at(text, pat, j));
        }
    }
    lemma_find_is(u, pat, a);
}

/// In the patched text, no `</PageCount>` starts before the one that follows
/// the digits.
proof fn lemma_no_close_before(text: Seq<u8>, u: Seq<u8>, dn: Seq<u8>, a: int, b: int)
    requires
        0 <= a < b,
        b + 12 <= text.len(),
        a + 11 <= text.len(),
        text.subrange(a, a + 11) == open_tag(),
        forall|j: int| 0 <= j < b ==> !occurs_at(text, close_tag(), j),
        forall|i: int| 0 <= i < dn.len() ==> 48 <= #[trigger] dn[i] <= 57,
        u == text.subrange(0, a + 11) + dn + text.subrange(b, text.len() as int),
    ensures
        forall|j: int| 0 <= j < a + 11 + dn.len() ==> !occurs_at(u, close_tag(), j),
{
    let c = close_tag();
    let o = open_tag();
    assert forall|j: int| 0 <= j < a + 11 + dn.len() implies !occurs_at(u, c, j) by {
        if occurs_at(u, c, j) {
            assert(u.subrange(j, j + 12)[0] == u[j]);
            assert(u.subrange(j, j + 12)[1] == u[j + 1]);
            assert(u[j] == 60u8 && u[j + 1] == 47u8);
            if j + 12 <= a + 11 {
                assert(u.subrange(j, j + 12) =~= text.subrange(j, j + 12));
                assert(occurs_at(text, c, j));
            } else if j >= a + 11 {
                assert(u[j] == dn[j - a - 11]);
            } else {
                assert(u[j] == text[j]);
                assert(text.subrange(a, a + 11)[j - a] == text[j]);
                if j == a {
                    assert(u[j + 1] == text[a + 1]);
                    assert(text.subrange(a, a + 11)[1] == text[a + 1]);
                }
            }
        }
    }
}

/// Setting the page count twice keeps only the second count: patching text
/// that was already patched gives what patching the unpatched text gives.
pub proof fn law_patch_twice(text: Seq<u8>, n: nat, m: nat)
    requires
        patched_text(text, n) is Some,
    ensures
        patched_text(patched_text(text, n)->0, m) == patched_text(text, m),
{
    let o = open_tag();
    let c = close_tag();
    lemma_first_from(text, o, 0);
    lemma_first_from(text, c, 0);
    let a = find_spec(text, o)->0;
    let b = find_spec(text, c)->0;
    let dn = decimal_bytes(n);
    let u = patched_text(text, n)->0;
    let b2 = a + 11 + dn.len();
    lemma_decimal_bytes_are_digits(n);
    assert(forall|p: int| 0 <= p < a + 11 ==> #[trigger] u[p] == text[p]);
    lemma_prefix_keeps_first(text, u, o, a);
    lemma_no_close_before(text, u, dn, a, b);
    assert(u.subrange(b2, b2 + 12) =~= text.subrange(b, b + 12));
    lemma_find_is(u, c, b2);
    assert(u.subrange(0, a + 11) =~= text.subrange(0, a + 11));
    assert(u.subrange(b2, u.len() as int) =~= text.subrange(b, text.len() as int));
}

/// Updating the page count twice keeps only the second count:
/// `update_pagecount(update_pagecount(xml, n), m)` is `update_pagecount(xml, m)`,
/// for any metadata.
pub proof fn law_update_pagecount_twice(xml: Seq<u8>, n: nat, m: nat)
    ensures
        update_pagecount_spec(update_pagecount_spec(xml, n), m) == update_pagecount_spec(xml, m),
{
    let t = xml;
    match patched_text(t, n) {
        Some(u) => {
            law_patch_twice(t, n, m);
        },
        None => {
            assert(patched_text(t, m) is None);
        },
    }
}

/// Whether `pat` occurs in `s` at index `i`.
fn bytes_occur_at(s: &Vec<u8>, pat: &Vec<u8>, i: usize) -> (r: bool)
    ensures
        r == occurs_at(s@, pat@, i as int),
{
    if i > s.len() || pat.len() > s.len() - i {
        return false;
    }
    let mut k: usize = 0;
    while k < pat.len()
        invariant
            i + pat.len() <= s.len(),
            k <= pat.len(),
            forall|j: int| 0 <= j < k ==> s@[i + j] == pat@[j],
        decreases pat.len() - k,
    {
        if s[i + k] != pat[k] {
            assert(s@.subrange(i as int, i + pat.len())[k as int] != pat@[k as int]);
            return false;
        }
        k = k + 1;
    }
    assert(s@.subrange(i as int, i + pat.len()) =~= pat@);
    true
}

/// The first index where `pat` occurs in `s`.
pub fn find_bytes(s: &Vec<u8>, pat: &Vec<u8>) -> (r: Option<usize>)
    ensures
        match r {
            Some(i) => find_spec(s@, pat@) == Some(i as int),
            None => find_spec(s@, pat@) is None,
        },
{
    let mut i: usize = 0;
    loop
        invariant
            i <= s.len(),
            find_spec(s@, pat@) == first_from(s@, pat@, i as int),
        decreases s.len() - i,
    {
        if bytes_occur_at(s, pat, i) {
            return Some(i);
        }
        if i == s.len() {
            assert(first_from(s@, pat@, i + 1) is None);
            return None;
        }
        i = i + 1;
    }
}

fn open_tag_bytes() -> (r: Vec<u8>)
    ensures
        r@ == open_tag(),
{
    let r: Vec<u8> = vec![60u8, 80u8, 97u8, 103u8, 101u8, 67u8, 111u8, 117u8, 110u8, 116u8, 62u8];
    assert(r@ =~= open_tag());
    r
}

fn close_tag_bytes() -> (r: Vec<u8>)
    ensures
        r@ == close_tag(),
{
    let r: Vec<u8> = vec![60u8, 47u8, 80u8, 97u8, 103u8, 101u8, 67u8, 111u8, 117u8, 110u8, 116u8, 62u8];
    assert(r@ =~= close_tag());
    r
}

fn rtl_marker_bytes() -> (r: Vec<u8>)
    ensures
        r@ == rtl_marker(),
{
    let r: Vec<u8> = vec![82u8, 105u8, 103u8, 104u8, 116u8, 84u8, 111u8, 76u8, 101u8, 102u8, 116u8];
    assert(r@ =~= rtl_marker());
    r
}

/// The ASCII bytes of the decimal digits of `n`.
pub fn decimal_byte_vec(n: u64) -> (r: Vec<u8>)
    ensures
        r@ == decimal_bytes(n as nat),
{
    let d = crate::text::decimal_chars(n);
    let mut r: Vec<u8> = Vec::new();
    let mut i: usize = 0;
    while i < d.len()
        invariant
            i <= d.len(),
            r@ =~= d@.subrange(0, i as int).map_values(|c: char| c as u8),
        decreases d.len() - i,
    {
        r.push(d[i] as u8);
        i = i + 1;
        assert(d@.subrange(0, i as int).map_values(|c: char| c as u8) =~= d@.subrange(
            0,
            i - 1,
        ).map_values(|c: char| c as u8).push(d@[i - 1] as u8));
    }
    assert(d@.subrange(0, d.len() as int) =~= d@);
    r
}

/// Rewrites the page count in already-decoded metadata `text`; when `text` has
/// no page count to patch, gives back `fallback`.
pub fn patch_pagecount(text: &Vec<u8>, fallback: &[u8], n: usize) -> (r: Vec<u8>)
    ensures
        r@ == match patched_text(text@, n as nat) {
            Some(t) => t,
            None => fallback@,
        },
{
    let open = open_tag_bytes();
    let close = close_tag_bytes();
    match (find_bytes(text, &open), find_bytes(text, &close)) {
        (Some(a), Some(b)) => {
            if b > a {
                proof {
                    lemma_first_from(text@, open_tag(), 0);
                    lemma_first_from(text@, close_tag(), 0);
                    assert(open_tag().len() == 11);
                    assert(close_tag().len() == 12);
                }
                let end_open = a + 11;
                let mut out: Vec<u8> = Vec::new();
                let mut i: usize = 0;
                while i < end_open
                    invariant
                        end_open <= text.len(),
                        i <= end_open,
                        out@ =~= text@.subrange(0, i as int),
                    decreases end_open - i,
                {
                    out.push(text[i]);
                    i = i + 1;
                }
                let digits = decimal_byte_vec(n as u64);
                let mut j: usize = 0;
                while j < digits.len()
                    invariant
                        j <= digits.len(),
                        out@ =~= text@.subrange(0, end_open as int) + digits@.subrange(0, j as int),
                    decreases digits.len() - j,
                {
                    out.push(digits[j]);
                    j = j + 1;
                }
                let ghost mid = out@;
                let mut k: usize = b;
                while k < text.len()
                    invariant
                        b <= k <= text.len(),
                        out@ =~= mid + text@.subrange(b as int, k as int),
                    decreases text.len() - k,
                {
                    out.push(text[k]);
                    k = k + 1;
                }
                assert(digits@.subrange(0, digits.len() as int) =~= digits@);
                out
            } else {
                vstd::slice::slice_to_vec(fallback)
            }
        },
        _ => vstd::slice::slice_to_vec(fallback),
    }
}

/// Rewrites the `<PageCount>` element of `ComicInfo.xml` to `n`, byte for
/// byte: when the metadata holds a `<PageCount>` followed by a
/// `</PageCount>`, the bytes between them become the decimal digits of `n`
/// and every other byte is kept; otherwise the metadata is kept as it is.
pub fn update_pagecount(xml: &[u8], n: usize) -> (r: Vec<u8>)
    ensures
        r@ == update_pagecount_spec(xml@, n as nat),
{
    let text = vstd::slice::slice_to_vec(xml);
    patch_pagecount(&text, xml, n)
}

/// Whether decoded metadata text mentions `RightToLeft`.
pub fn text_says_right_to_left(text: &Vec<u8>) -> (r: bool)
    ensures
        r == mentions_rtl(text@),
{
    let marker = rtl_marker_bytes();
    let found = find_bytes(text, &marker);
    proof {
        lemma_first_from(text@, rtl_marker(), 0);
    }
    match found {
        Some(_) => true,
        None => {
            assert forall|i: int| !occurs_at(text@, rtl_marker(), i) by {
                if i >= 0 {
                }
            }
            false
        },
    }
}

/// The reading direction of a book: right to left (manga) unless its metadata
/// exists and does not mention `RightToLeft`.
pub fn reads_right_to_left(comicinfo: &Option<Vec<u8>>) -> (r: bool)
    ensures
        r == right_to_left_spec(bytes_opt_view(*comicinfo)),
{
    match comicinfo {
        None => {
            true
        },
        Some(x) => {
            let text = utf8_lossy(x.as_slice());
            text_says_right_to_left(&text)
        },
    }
}

} // verus!
