//! Character-level helpers: ASCII case folding, suffixes, decimal numbers,
//! and the short labels shown under each page.

use vstd::prelude::*;

verus! {

/// The ASCII lower-case form of a character; every other character is kept.
pub open spec fn ascii_lower(c: char) -> char {
    if 'A' <= c && c <= 'Z' {
        ((c as u32) + 32) as char
    } else {
        c
    }
}

/// Lower-cases every ASCII letter of a character sequence.
pub open spec fn lower_seq(s: Seq<char>) -> Seq<char> {
    s.map_values(|c: char| ascii_lower(c))
}

/// `suffix` ends `s`.
pub open spec fn ends_with(s: Seq<char>, suffix: Seq<char>) -> bool {
    suffix.len() <= s.len() && s.subrange(s.len() - suffix.len(), s.len() as int) == suffix
}

/// `pat` occurs in `s` starting at index `i`.
pub open spec fn occurs_at<A>(s: Seq<A>, pat: Seq<A>, i: int) -> bool {
    0 <= i && i + pat.len() <= s.len() && s.subrange(i, i + pat.len()) == pat
}

/// `pat` occurs somewhere in `s`.
pub open spec fn contains_seq<A>(s: Seq<A>, pat: Seq<A>) -> bool {
    exists|i: int| occurs_at(s, pat, i)
}

/// The character of a decimal digit.
pub open spec fn digit_char(d: nat) -> char
    recommends
        d < 10,
{
    (('0' as u32) + d) as char
}

/// The decimal digits of `n`, most significant first, without leading zeros.
pub open spec fn decimal(n: nat) -> Seq<char>
    decreases n,
{
    if n < 10 {
        seq![digit_char(n)]
    } else {
        decimal(n / 10).push(digit_char(n % 10))
    }
}

/// Two numbers with the same decimal digits are equal.
pub proof fn lemma_decimal_injective(a: nat, b: nat)
    requires
        decimal(a) == decimal(b),
    ensures
        a == b,
{
    crate::natural::lemma_decimal_digits(a);
    crate::natural::lemma_decimal_digits(b);
}

/// `decimal(n)` left-padded with `'0'` to at least `width` characters.
pub open spec fn zero_padded(n: nat, width: nat) -> Seq<char> {
    let d = decimal(n);
    if d.len() >= width {
        d
    } else {
        Seq::new((width - d.len()) as nat, |i: int| '0') + d
    }
}

/// The part of a name after its last `'/'` (the whole name when it has none).
pub open spec fn after_last_slash(s: Seq<char>) -> Seq<char>
    decreases s.len(),
{
    if s.len() == 0 {
        s
    } else if s.last() == '/' {
        Seq::empty()
    } else {
        after_last_slash(s.drop_last()).push(s.last())
    }
}

/// The label of a page: the name after its last `'/'`, and when that is longer
/// than 20 characters, an ellipsis followed by its last 19 characters.
pub open spec fn short_name_spec(name: Seq<char>) -> Seq<char> {
    let base = after_last_slash(name);
    if base.len() > 20 {
        seq!['…'] + base.subrange(base.len() - 19, base.len() as int)
    } else {
        base
    }
}

/// Appends one character to a string (`String::push`).
#[verifier::external_body]
pub(crate) fn push_char(s: &mut String, c: char)
    ensures
        final(s)@ == old(s)@.push(c),
{
    s.push(c)
}

/// Lower-cases one character (ASCII letters only).
pub fn lower_char(c: char) -> (r: char)
    ensures
        r == ascii_lower(c),
{
    if 'A' <= c && c <= 'Z' {
        let b: u8 = c as u8;
        ((b + 32) as char)
    } else {
        c
    }
}

/// The characters of a string, in order.
pub fn chars_of(s: &str) -> (v: Vec<char>)
    ensures
        v@ == s@,
{
    let n = s.unicode_len();
    let mut v: Vec<char> = Vec::new();
    let mut i: usize = 0;
    while i < n
        invariant
            n == s@.len(),
            i <= n,
            v@ == s@.subrange(0, i as int),
        decreases n - i,
    {
        v.push(s.get_char(i));
        i = i + 1;
    }
    v
}

/// A string made of the given characters.
pub fn string_of(v: &Vec<char>) -> (s: String)
    ensures
        s@ == v@,
{
    let mut s = String::new();
    let mut i: usize = 0;
    while i < v.len()
        invariant
            i <= v.len(),
            s@ == v@.subrange(0, i as int),
        decreases v.len() - i,
    {
        push_char(&mut s, v[i]);
        i = i + 1;
    }
    s
}

/// Whether two character sequences are equal.
pub fn chars_equal(a: &Vec<char>, b: &Vec<char>) -> (r: bool)
    ensures
        r == (a@ == b@),
{
    if a.len() != b.len() {
        return false;
    }
    let mut i: usize = 0;
    while i < a.len()
        invariant
            a.len() == b.len(),
            i <= a.len(),
            forall|k: int| 0 <= k < i ==> a@[k] == b@[k],
        decreases a.len() - i,
    {
        if a[i] != b[i] {
            return false;
        }
        i = i + 1;
    }
    assert(a@ =~= b@);
    true
}

/// The ASCII lower-case form of a character sequence.
pub fn lower_chars(s: &Vec<char>) -> (r: Vec<char>)
    ensures
        r@ == lower_seq(s@),
{
    let mut r: Vec<char> = Vec::new();
    let mut i: usize = 0;
    while i < s.len()
        invariant
            i <= s.len(),
            r@ =~= lower_seq(s@.subrange(0, i as int)),
        decreases s.len() - i,
    {
        r.push(lower_char(s[i]));
        i = i + 1;
        assert(lower_seq(s@.subrange(0, i as int)) =~= lower_seq(s@.subrange(0, i - 1)).push(
            ascii_lower(s@[i - 1]),
        ));
    }
    assert(s@.subrange(0, s.len() as int) =~= s@);
    r
}

/// Whether `suffix` ends `s`.
pub fn chars_end_with(s: &Vec<char>, suffix: &Vec<char>) -> (r: bool)
    ensures
        r == ends_with(s@, suffix@),
{
    if suffix.len() > s.len() {
        return false;
    }
    let off = s.len() - suffix.len();
    let mut i: usize = 0;
    while i < suffix.len()
        invariant
            off == s.len() - suffix.len(),
            i <= suffix.len(),
            forall|k: int| 0 <= k < i ==> s@[off + k] == suffix@[k],
        decreases suffix.len() - i,
    {
        if s[off + i] != suffix[i] {
            assert(s@.subrange(off as int, s.len() as int)[i as int] != suffix@[i as int]);
            return false;
        }
        i = i + 1;
    }
    assert(s@.subrange(off as int, s.len() as int) =~= suffix@);
    true
}

/// Whether `pat` occurs at index `i` of `s`.
pub fn chars_occur_at(s: &Vec<char>, pat: &Vec<char>, i: usize) -> (r: bool)
    ensures
        r == occurs_at(s@, pat@, i as int),
{
    if i > s.len() || pat.len() > s.len() - i {
        return false;
    }
    let mut k: usize = 0;
    while k < pat.len()
        invariant
            i + pat.len() <= s.len(),
            k <= pat.len(),
            forall|j: int| 0 <= j < k ==> s@[i + j] == pat@[j],
        decreases pat.len() - k,
    {
        if s[i + k] != pat[k] {
            assert(s@.subrange(i as int, i + pat.len())[k as int] != pat@[k as int]);
            return false;
        }
        k = k + 1;
    }
    assert(s@.subrange(i as int, i + pat.len()) =~= pat@);
    true
}

/// Whether `pat` occurs somewhere in `s`.
pub fn chars_contain(s: &Vec<char>, pat: &Vec<char>) -> (r: bool)
    ensures
        r == contains_seq(s@, pat@),
{
    let mut i: usize = 0;
    loop
        invariant
            i <= s.len(),
            forall|j: int| 0 <= j < i ==> !occurs_at(s@, pat@, j),
        ensures
            forall|j: int| 0 <= j <= s.len() ==> !occurs_at(s@, pat@, j),
        decreases s.len() - i,
    {
        if chars_occur_at(s, pat, i) {
            return true;
        }
        if i == s.len() {
            break;
        }
        i = i + 1;
    }
    assert forall|j: int| !occurs_at(s@, pat@, j) by {
        if 0 <= j <= s.len() {
        }
    }
    false
}

/// The decimal digits of `n`.
pub fn decimal_chars(n: u64) -> (r: Vec<char>)
    ensures
        r@ == decimal(n as nat),
    decreases n,
{
    if n < 10 {
        let c = (('0' as u8) + (n as u8)) as char;
        let mut r: Vec<char> = Vec::new();
        r.push(c);
        assert(r@ =~= seq![digit_char(n as nat)]);
        r
    } else {
        let mut r = decimal_chars(n / 10);
        let d = (n % 10) as u8;
        r.push((('0' as u8) + d) as char);
        r
    }
}

/// The decimal digits of `n`, left-padded with zeros to at least `width` characters.
pub fn zero_padded_chars(n: u64, width: usize) -> (r: Vec<char>)
    ensures
        r@ == zero_padded(n as nat, width as nat),
{
    let d = decimal_chars(n);
    if d.len() >= width {
        return d;
    }
    let pad = width - d.len();
    let mut r: Vec<char> = Vec::new();
    let mut i: usize = 0;
    while i < pad
        invariant
            i <= pad,
            r@ =~= Seq::new(i as nat, |k: int| '0'),
        decreases pad - i,
    {
        r.push('0');
        i = i + 1;
    }
    let mut j: usize = 0;
    while j < d.len()
        invariant
            j <= d.len(),
            r@ =~= Seq::new(pad as nat, |k: int| '0') + d@.subrange(0, j as int),
        decreases d.len() - j,
    {
        r.push(d[j]);
        j = j + 1;
    }
    assert(d@.subrange(0, d.len() as int) =~= d@);
    r
}

/// Whether `ext` is one of the picture extensions the editor accepts
/// (`jpg`, `jpeg`, `png`, `webp`, `gif`, `bmp`), compared exactly.
pub open spec fn image_ext_spec(ext: Seq<char>) -> bool {
    ||| ext == seq!['j', 'p', 'g']
    ||| ext == seq!['j', 'p', 'e', 'g']
    ||| ext == seq!['p', 'n', 'g']
    ||| ext == seq!['w', 'e', 'b', 'p']
    ||| ext == seq!['g', 'i', 'f']
    ||| ext == seq!['b', 'm', 'p']
}

/// The picture extensions, in the order the editor lists them.
pub fn image_extensions() -> (r: Vec<Vec<char>>)
    ensures
        r@.len() == 6,
        r@[0]@ == seq!['j', 'p', 'g'],
        r@[1]@ == seq!['j', 'p', 'e', 'g'],
        r@[2]@ == seq!['p', 'n', 'g'],
        r@[3]@ == seq!['w', 'e', 'b', 'p'],
        r@[4]@ == seq!['g', 'i', 'f'],
        r@[5]@ == seq!['b', 'm', 'p'],
{
    let r = vec![
        vec!['j', 'p', 'g'],
        vec!['j', 'p', 'e', 'g'],
        vec!['p', 'n', 'g'],
        vec!['w', 'e', 'b', 'p'],
        vec!['g', 'i', 'f'],
        vec!['b', 'm', 'p'],
    ];
    assert(r@[0]@ =~= seq!['j', 'p', 'g']);
    assert(r@[1]@ =~= seq!['j', 'p', 'e', 'g']);
    assert(r@[2]@ =~= seq!['p', 'n', 'g']);
    assert(r@[3]@ =~= seq!['w', 'e', 'b', 'p']);
    assert(r@[4]@ =~= seq!['g', 'i', 'f']);
    assert(r@[5]@ =~= seq!['b', 'm', 'p']);
    r
}

/// Whether an (already lower-cased) extension names a picture format the
/// editor inserts: `jpg`, `jpeg`, `png`, `webp`, `gif` or `bmp`.
pub fn is_image_ext(ext: &str) -> (r: bool)
    ensures
        r == image_ext_spec(ext@),
{
    let e = chars_of(ext);
    let exts = image_extensions();
    let mut i: usize = 0;
    while i < exts.len()
        invariant
            exts@.len() == 6,
            exts@[0]@ == seq!['j', 'p', 'g'],
            exts@[1]@ == seq!['j', 'p', 'e', 'g'],
            exts@[2]@ == seq!['p', 'n', 'g'],
            exts@[3]@ == seq!['w', 'e', 'b', 'p'],
            exts@[4]@ == seq!['g', 'i', 'f'],
            exts@[5]@ == seq!['b', 'm', 'p'],
            e@ == ext@,
            i <= 6,
            forall|k: int| 0 <= k < i ==> e@ != exts@[k]@,
        decreases 6 - i,
    {
        if chars_equal(&e, &exts[i]) {
            return true;
        }
        i = i + 1;
    }
    false
}

/// The label shown under a page: the name after its last `'/'`, shortened to
/// an ellipsis and its last 19 characters when longer than 20 characters.
pub fn short_name(name: &str) -> (r: String)
    ensures
        r@ == short_name_spec(name@),
{
    let s = chars_of(name);
    // start of the base name: one past the last '/'
    let mut start: usize = s.len();
    while start > 0 && s[start - 1] != '/'
        invariant
            start <= s.len(),
            forall|k: int| start <= k < s.len() ==> s@[k] != '/',
        decreases start,
    {
        start = start - 1;
    }
    proof {
        lemma_after_last_slash(s@, start as int);
    }
    let base_len = s.len() - start;
    let mut out = String::new();
    let from: usize = if base_len > 20 {
        push_char(&mut out, '…');
        s.len() - 19
    } else {
        start
    };
    let ghost prefix = out@;
    let mut i: usize = from;
    while i < s.len()
        invariant
            from <= i <= s.len(),
            out@ =~= prefix + s@.subrange(from as int, i as int),
        decreases s.len() - i,
    {
        push_char(&mut out, s[i]);
        i = i + 1;
    }
    proof {
        let base = after_last_slash(s@);
        if base_len > 20 {
            assert(base.subrange(base.len() - 19, base.len() as int) =~= s@.subrange(
                from as int,
                s.len() as int,
            ));
        } else {
            assert(base =~= s@.subrange(from as int, s.len() as int));
        }
    }
    out
}

/// The number of bytes the UTF-8 encoding of a character takes.
pub open spec fn utf8_width(u: u32) -> nat {
    if u <= 0x7F {
        1
    } else if u <= 0x7FF {
        2
    } else if u <= 0xFFFF && !(0xD800 <= u && u <= 0xDFFF) {
        3
    } else {
        4
    }
}

/// The length of the UTF-8 encoding of `s`, character by character.
proof fn lemma_utf8_len_step(s: Seq<char>)
    requires
        s.len() > 0,
    ensures
        vstd::utf8::encode_utf8(s).len() == utf8_width(s[0] as u32) + vstd::utf8::encode_utf8(
            s.drop_first(),
        ).len(),
{
}

/// Whether the UTF-8 encoding of `s` takes at most `limit` bytes.
pub fn utf8_len_at_most(s: &str, limit: usize) -> (r: bool)
    ensures
        r == (vstd::utf8::encode_utf8(s@).len() <= limit),
{
    let chars = chars_of(s);
    let n = chars.len();
    let mut total: usize = 0;
    let mut i: usize = 0;
    assert(chars@.skip(0) =~= chars@);
    while i < n
        invariant
            n == chars@.len(),
            chars@ == s@,
            i <= n,
            total <= limit,
            total + vstd::utf8::encode_utf8(chars@.skip(i as int)).len() == vstd::utf8::encode_utf8(
                chars@,
            ).len(),
        decreases n - i,
    {
        let u = chars[i] as u32;
        let w: usize = if u <= 0x7F {
            1
        } else if u <= 0x7FF {
            2
        } else if u <= 0xFFFF && !(0xD800 <= u && u <= 0xDFFF) {
            3
        } else {
            4
        };
        proof {
            lemma_utf8_len_step(chars@.skip(i as int));
            assert(chars@.skip(i as int).drop_first() =~= chars@.skip(i + 1));
        }
        if w > limit - total {
            return false;
        }
        total = total + w;
        i = i + 1;
    }
    true
}

/// The part of a name after its last `'/'` (see `after_last_slash`).
pub fn base_name(s: &Vec<char>) -> (r: Vec<char>)
    ensures
        r@ == after_last_slash(s@),
{
    let mut start: usize = s.len();
    while start > 0 && s[start - 1] != '/'
        invariant
            start <= s.len(),
            forall|k: int| start <= k < s.len() ==> s@[k] != '/',
        decreases start,
    {
        start = start - 1;
    }
    proof {
        lemma_after_last_slash(s@, start as int);
    }
    let mut r: Vec<char> = Vec::new();
    let mut i: usize = start;
    while i < s.len()
        invariant
            start <= i <= s.len(),
            r@ =~= s@.subrange(start as int, i as int),
        decreases s.len() - i,
    {
        r.push(s[i]);
        i = i + 1;
    }
    r
}

/// `after_last_slash(s)` is a suffix of `s` without `'/'`, preceded in `s` by
/// a `'/'` unless it is all of `s`.
pub proof fn lemma_after_last_slash_suffix(s: Seq<char>)
    ensures
        after_last_slash(s).len() <= s.len(),
        after_last_slash(s) == s.subrange(s.len() - after_last_slash(s).len(), s.len() as int),
        forall|k: int| 0 <= k < after_last_slash(s).len() ==> #[trigger] after_last_slash(s)[k] != '/',
        after_last_slash(s).len() < s.len() ==> s[s.len() - after_last_slash(s).len() - 1] == '/',
    decreases s.len(),
{
    if s.len() == 0 {
    } else if s.last() == '/' {
        assert(after_last_slash(s) =~= s.subrange(s.len() as int, s.len() as int));
    } else {
        let r = s.drop_last();
        lemma_after_last_slash_suffix(r);
        let a = after_last_slash(r);
        assert(after_last_slash(s) == a.push(s.last()));
        assert(a.push(s.last()) =~= s.subrange(s.len() - a.len() - 1, s.len() as int));
        assert forall|k: int| 0 <= k < a.len() + 1 implies #[trigger] a.push(s.last())[k] != '/' by {
            if k < a.len() {
                assert(a.push(s.last())[k] == a[k]);
            }
        }
        if a.len() < r.len() {
            assert(s[s.len() - a.len() - 2] == r[r.len() - a.len() - 1]);
        }
    }
}

/// `after_last_slash(s)` is the part of `s` after index `start - 1` when that
/// index holds the last `'/'` (or `start` is 0).
pub proof fn lemma_after_last_slash(s: Seq<char>, start: int)
    requires
        0 <= start <= s.len(),
        start == 0 || s[start - 1] == '/',
        forall|k: int| start <= k < s.len() ==> s[k] != '/',
    ensures
        after_last_slash(s) =~= s.subrange(start, s.len() as int),
    decreases s.len(),
{
    if s.len() == 0 {
    } else if start == s.len() {
    } else {
        lemma_after_last_slash(s.drop_last(), start);
        assert(s.drop_last().subrange(start, s.len() - 1).push(s.last()) =~= s.subrange(
            start,
            s.len() as int,
        ));
    }
}

} // verus!
