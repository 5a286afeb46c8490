//! Natural order of page names: runs of digits compare by their numeric value,
//! so that `page2` comes before `page10`.

use vstd::prelude::*;
use crate::text::{decimal, digit_char, zero_padded};

verus! {

/// The outcome of comparing two names.
#[derive(Clone, Copy, Debug, PartialEq, Eq, Structural)]
pub enum Order {
    Less,
    Equal,
    Greater,
}

/// The opposite outcome.
pub open spec fn flipped(o: Order) -> Order {
    match o {
        Order::Less => Order::Greater,
        Order::Equal => Order::Equal,
        Order::Greater => Order::Less,
    }
}

/// An ASCII decimal digit.
pub open spec fn is_digit(c: char) -> bool {
    48 <= (c as u32) && (c as u32) <= 57
}

/// The value of a digit character.
pub open spec fn digit_value(c: char) -> nat {
    (c as u32 - 48) as nat
}

/// Length of the run of digits that starts `s`.
pub open spec fn digit_run(s: Seq<char>) -> nat
    decreases s.len(),
{
    if s.len() > 0 && is_digit(s[0]) {
        1 + digit_run(s.drop_first())
    } else {
        0
    }
}

/// `10` to the power `n`.
pub open spec fn pow10(n: nat) -> nat
    decreases n,
{
    if n == 0 {
        1
    } else {
        10 * pow10((n - 1) as nat)
    }
}

/// The numeric value of a sequence of digits.
pub open spec fn digits_value(s: Seq<char>) -> nat
    decreases s.len(),
{
    if s.len() == 0 {
        0
    } else {
        digit_value(s[0]) * pow10((s.len() - 1) as nat) + digits_value(s.drop_first())
    }
}

/// Compares two numbers.
pub open spec fn compare_nat(x: nat, y: nat) -> Order {
    if x < y {
        Order::Less
    } else if x > y {
        Order::Greater
    } else {
        Order::Equal
    }
}

/// The leading run of digits lies within the sequence and holds only digits.
pub proof fn lemma_digit_run(s: Seq<char>)
    ensures
        digit_run(s) <= s.len(),
        forall|k: int| 0 <= k < digit_run(s) ==> is_digit(#[trigger] s[k]),
        digit_run(s) < s.len() ==> !is_digit(s[digit_run(s) as int]),
    decreases s.len(),
{
    if s.len() > 0 && is_digit(s[0]) {
        lemma_digit_run(s.drop_first());
        assert forall|k: int| 0 <= k < digit_run(s) implies is_digit(#[trigger] s[k]) by {
            if k > 0 {
                assert(s[k] == s.drop_first()[k - 1]);
            }
        }
    }
}

/// The natural order of two names. Where both continue with a digit, the two
/// runs of digits compare by numeric value, then (equal values) the shorter
/// run first, then the rest of the names; elsewhere characters compare by
/// code point; a name that is a prefix of the other comes first.
#[verifier::opaque]
pub open spec fn natural_order(a: Seq<char>, b: Seq<char>) -> Order
    decreases a.len() + b.len(),
{
    if a.len() == 0 && b.len() == 0 {
        Order::Equal
    } else if a.len() == 0 {
        Order::Less
    } else if b.len() == 0 {
        Order::Greater
    } else if is_digit(a[0]) && is_digit(b[0]) {
        let ra = digit_run(a);
        let rb = digit_run(b);
        proof {
            lemma_digit_run(a);
            lemma_digit_run(b);
            assert(ra >= 1 && rb >= 1) by {
                reveal_with_fuel(digit_run, 2);
            }
        }
        let c = compare_nat(digits_value(a.take(ra as int)), digits_value(b.take(rb as int)));
        if c != Order::Equal {
            c
        } else if ra != rb {
            compare_nat(ra, rb)
        } else {
            natural_order(a.skip(ra as int), b.skip(rb as int))
        }
    } else if (a[0] as u32) < (b[0] as u32) {
        Order::Less
    } else if (a[0] as u32) > (b[0] as u32) {
        Order::Greater
    } else {
        natural_order(a.drop_first(), b.drop_first())
    }
}

/// Comparing the other way round gives the opposite outcome.
pub proof fn law_natural_order_flip(a: Seq<char>, b: Seq<char>)
    ensures
        natural_order(b, a) == flipped(natural_order(a, b)),
    decreases a.len() + b.len(),
{
    reveal(natural_order);
    if a.len() == 0 || b.len() == 0 {
    } else if is_digit(a[0]) && is_digit(b[0]) {
        let ra = digit_run(a);
        let rb = digit_run(b);
        lemma_digit_run(a);
        lemma_digit_run(b);
        assert(ra >= 1 && rb >= 1) by {
            reveal_with_fuel(digit_run, 2);
        }
        law_natural_order_flip(a.skip(ra as int), b.skip(rb as int));
    } else if (a[0] as u32) < (b[0] as u32) {
    } else if (a[0] as u32) > (b[0] as u32) {
    } else {
        law_natural_order_flip(a.drop_first(), b.drop_first());
    }
}

/// Every name compares equal to itself.
pub proof fn law_natural_order_reflexive(a: Seq<char>)
    ensures
        natural_order(a, a) == Order::Equal,
    decreases a.len(),
{
    reveal(natural_order);
    if a.len() == 0 {
    } else if is_digit(a[0]) {
        let ra = digit_run(a);
        lemma_digit_run(a);
        assert(ra >= 1) by {
            reveal_with_fuel(digit_run, 2);
        }
        law_natural_order_reflexive(a.skip(ra as int));
    } else {
        law_natural_order_reflexive(a.drop_first());
    }
}

/// A name that starts with a digit begins a run of at least one digit.
proof fn lemma_run_starts(a: Seq<char>)
    requires
        a.len() > 0,
        is_digit(a[0]),
    ensures
        1 <= digit_run(a) <= a.len(),
{
    lemma_digit_run(a);
    reveal_with_fuel(digit_run, 2);
}

/// Natural order is transitive: a name not after a second one, which is not
/// after a third, is not after the third.
pub proof fn law_natural_order_transitive(a: Seq<char>, b: Seq<char>, c: Seq<char>)
    requires
        natural_order(a, b) != Order::Greater,
        natural_order(b, c) != Order::Greater,
    ensures
        natural_order(a, c) != Order::Greater,
    decreases a.len(),
{
    reveal(natural_order);
    if a.len() == 0 || b.len() == 0 || c.len() == 0 {
    } else if is_digit(a[0]) && is_digit(b[0]) && is_digit(c[0]) {
        lemma_run_starts(a);
        lemma_run_starts(b);
        lemma_run_starts(c);
        let ra = digit_run(a);
        let rb = digit_run(b);
        let rc = digit_run(c);
        let va = digits_value(a.take(ra as int));
        let vb = digits_value(b.take(rb as int));
        let vc = digits_value(c.take(rc as int));
        if va == vb && vb == vc && ra == rb && rb == rc {
            law_natural_order_transitive(a.skip(ra as int), b.skip(rb as int), c.skip(rc as int));
        }
    } else if !is_digit(a[0]) && !is_digit(b[0]) && !is_digit(c[0]) {
        if (a[0] as u32) == (b[0] as u32) && (b[0] as u32) == (c[0] as u32) {
            law_natural_order_transitive(a.drop_first(), b.drop_first(), c.drop_first());
        }
    } else {
        if is_digit(a[0]) && is_digit(b[0]) {
            lemma_run_starts(a);
            lemma_run_starts(b);
        }
        if is_digit(b[0]) && is_digit(c[0]) {
            lemma_run_starts(b);
            lemma_run_starts(c);
        }
        if is_digit(a[0]) && is_digit(c[0]) {
            lemma_run_starts(a);
            lemma_run_starts(c);
        }
    }
}

proof fn lemma_pow10_positive(n: nat)
    ensures
        pow10(n) >= 1,
    decreases n,
{
    if n > 0 {
        lemma_pow10_positive((n - 1) as nat);
    }
}

proof fn lemma_pow10_mono(m: nat, n: nat)
    requires
        m <= n,
    ensures
        pow10(m) <= pow10(n),
    decreases n,
{
    if m < n {
        lemma_pow10_mono(m, (n - 1) as nat);
        lemma_pow10_positive((n - 1) as nat);
    }
}

/// A sequence of `n` digits has a value below `10^n`.
proof fn lemma_value_bound(s: Seq<char>)
    requires
        forall|k: int| 0 <= k < s.len() ==> is_digit(#[trigger] s[k]),
    ensures
        digits_value(s) < pow10(s.len()),
    decreases s.len(),
{
    if s.len() > 0 {
        let p = pow10((s.len() - 1) as nat);
        assert forall|k: int| 0 <= k < s.drop_first().len() implies is_digit(
            #[trigger] s.drop_first()[k],
        ) by {
            assert(s.drop_first()[k] == s[k + 1]);
        }
        lemma_value_bound(s.drop_first());
        assert(is_digit(s[0]));
        let d = digit_value(s[0]);
        assert(d <= 9);
        assert(d * p + p <= 10 * p) by (nonlinear_arith)
            requires
                d <= 9,
        ;
    }
}

/// A sequence of digits that does not start with `0` has a value of at least
/// `10^(n-1)`.
proof fn lemma_value_lower(s: Seq<char>)
    requires
        s.len() > 0,
        (s[0] as u32) != 48,
        forall|k: int| 0 <= k < s.len() ==> is_digit(#[trigger] s[k]),
    ensures
        digits_value(s) >= pow10((s.len() - 1) as nat),
{
    let p = pow10((s.len() - 1) as nat);
    let d = digit_value(s[0]);
    assert(d >= 1);
    assert(d * p >= p) by (nonlinear_arith)
        requires
            d >= 1,
    ;
}

/// Leading zeros do not change the value.
proof fn lemma_value_skip_zeros(s: Seq<char>, k: int)
    requires
        0 <= k <= s.len(),
        forall|i: int| 0 <= i < k ==> (#[trigger] s[i] as u32) == 48,
    ensures
        digits_value(s) == digits_value(s.skip(k)),
    decreases k,
{
    if k > 0 {
        assert(digit_value(s[0]) == 0);
        let p = pow10((s.len() - 1) as nat);
        assert(digit_value(s[0]) * p == 0) by (nonlinear_arith)
            requires
                digit_value(s[0]) == 0,
        ;
        assert(s.drop_first().skip(k - 1) =~= s.skip(k));
        assert forall|i: int| 0 <= i < k - 1 implies (#[trigger] s.drop_first()[i] as u32) == 48 by {
            assert(s.drop_first()[i] == s[i + 1]);
        }
        lemma_value_skip_zeros(s.drop_first(), k - 1);
    } else {
        assert(s.skip(0) =~= s);
    }
}

/// Two digit sequences of the same length compare by value as they compare at
/// their first differing position.
proof fn lemma_value_lex(x: Seq<char>, y: Seq<char>, k: int)
    requires
        x.len() == y.len(),
        0 <= k <= x.len(),
        forall|i: int| 0 <= i < x.len() ==> is_digit(#[trigger] x[i]),
        forall|i: int| 0 <= i < y.len() ==> is_digit(#[trigger] y[i]),
        forall|i: int| 0 <= i < k ==> x[i] == y[i],
        k < x.len() ==> (x[k] as u32) != (y[k] as u32),
    ensures
        compare_nat(digits_value(x), digits_value(y)) == if k == x.len() {
            Order::Equal
        } else {
            compare_nat((x[k] as u32) as nat, (y[k] as u32) as nat)
        },
    decreases k,
{
    if k == x.len() {
        assert(x =~= y);
    } else if k > 0 {
        assert forall|i: int| 0 <= i < x.drop_first().len() implies is_digit(
            #[trigger] x.drop_first()[i],
        ) by {
            assert(x.drop_first()[i] == x[i + 1]);
        }
        assert forall|i: int| 0 <= i < y.drop_first().len() implies is_digit(
            #[trigger] y.drop_first()[i],
        ) by {
            assert(y.drop_first()[i] == y[i + 1]);
        }
        assert forall|i: int| 0 <= i < k - 1 implies x.drop_first()[i] == y.drop_first()[i] by {
            assert(x.drop_first()[i] == x[i + 1]);
            assert(y.drop_first()[i] == y[i + 1]);
        }
        assert(x.drop_first()[k - 1] == x[k]);
        assert(y.drop_first()[k - 1] == y[k]);
        lemma_value_lex(x.drop_first(), y.drop_first(), k - 1);
        assert(x[0] == y[0]);
    } else {
        let p = pow10((x.len() - 1) as nat);
        let dx = digit_value(x[0]);
        let dy = digit_value(y[0]);
        assert forall|i: int| 0 <= i < x.drop_first().len() implies is_digit(
            #[trigger] x.drop_first()[i],
        ) by {
            assert(x.drop_first()[i] == x[i + 1]);
        }
        assert forall|i: int| 0 <= i < y.drop_first().len() implies is_digit(
            #[trigger] y.drop_first()[i],
        ) by {
            assert(y.drop_first()[i] == y[i + 1]);
        }
        lemma_value_bound(x.drop_first());
        lemma_value_bound(y.drop_first());
        let rx = digits_value(x.drop_first());
        let ry = digits_value(y.drop_first());
        assert(is_digit(x[0]) && is_digit(y[0]));
        if dx < dy {
            assert(dx * p + rx < dy * p + ry) by (nonlinear_arith)
                requires
                    dx < dy,
                    rx < p,
                    ry >= 0,
            ;
        } else {
            assert(dy < dx);
            assert(dy * p + ry < dx * p + rx) by (nonlinear_arith)
                requires
                    dy < dx,
                    ry < p,
                    rx >= 0,
            ;
        }
    }
}

/// Two runs of digits of the same length and value are the same digits.
proof fn lemma_same_value_same_digits(x: Seq<char>, y: Seq<char>)
    requires
        x.len() == y.len(),
        forall|i: int| 0 <= i < x.len() ==> is_digit(#[trigger] x[i]),
        forall|i: int| 0 <= i < y.len() ==> is_digit(#[trigger] y[i]),
        digits_value(x) == digits_value(y),
    ensures
        x == y,
    decreases x.len(),
{
    if x.len() == 0 {
        assert(x =~= y);
    } else {
        let xs = x.drop_first();
        let ys = y.drop_first();
        assert forall|i: int| 0 <= i < xs.len() implies is_digit(#[trigger] xs[i]) by {
            assert(xs[i] == x[i + 1]);
        }
        assert forall|i: int| 0 <= i < ys.len() implies is_digit(#[trigger] ys[i]) by {
            assert(ys[i] == y[i + 1]);
        }
        lemma_value_bound(xs);
        lemma_value_bound(ys);
        let p = pow10((x.len() - 1) as nat);
        let dx = digit_value(x[0]);
        let dy = digit_value(y[0]);
        let rx = digits_value(xs);
        let ry = digits_value(ys);
        assert(is_digit(x[0]) && is_digit(y[0]));
        assert(dx == dy && rx == ry) by (nonlinear_arith)
            requires
                dx * p + rx == dy * p + ry,
                rx < p,
                ry < p,
        {
            if dx < dy {
                assert(dx * p + p <= dy * p);
            } else if dy < dx {
                assert(dy * p + p <= dx * p);
            }
        }
        lemma_same_value_same_digits(xs, ys);
        assert(x[0] == y[0]) by {
            vstd::utf8::char_u32_cast(x[0], x[0] as u32);
            vstd::utf8::char_u32_cast(y[0], y[0] as u32);
        }
        assert(x =~= y) by {
            assert forall|i: int| 0 < i < x.len() implies x[i] == y[i] by {
                assert(x[i] == xs[i - 1] && y[i] == ys[i - 1]);
            }
        }
    }
}

/// Two names compare equal only when they are the same name.
pub proof fn law_natural_order_equal_names(a: Seq<char>, b: Seq<char>)
    requires
        natural_order(a, b) == Order::Equal,
    ensures
        a == b,
    decreases a.len(),
{
    reveal(natural_order);
    if a.len() == 0 || b.len() == 0 {
        assert(a =~= b);
    } else if is_digit(a[0]) && is_digit(b[0]) {
        lemma_run_starts(a);
        lemma_run_starts(b);
        lemma_digit_run(a);
        lemma_digit_run(b);
        let r = digit_run(a);
        let ta = a.take(r as int);
        let tb = b.take(r as int);
        assert forall|i: int| 0 <= i < ta.len() implies is_digit(#[trigger] ta[i]) by {
            assert(ta[i] == a[i]);
        }
        assert forall|i: int| 0 <= i < tb.len() implies is_digit(#[trigger] tb[i]) by {
            assert(tb[i] == b[i]);
        }
        lemma_same_value_same_digits(ta, tb);
        law_natural_order_equal_names(a.skip(r as int), b.skip(r as int));
        assert(a =~= ta + a.skip(r as int));
        assert(b =~= tb + b.skip(r as int));
    } else {
        law_natural_order_equal_names(a.drop_first(), b.drop_first());
        assert(a[0] == b[0]) by {
            vstd::utf8::char_u32_cast(a[0], a[0] as u32);
            vstd::utf8::char_u32_cast(b[0], b[0] as u32);
        }
        assert(a =~= seq![a[0]] + a.drop_first());
        assert(b =~= seq![b[0]] + b.drop_first());
    }
}

/// Whether a character is an ASCII digit.
pub fn is_digit_char(c: char) -> (r: bool)
    ensures
        r == is_digit(c),
{
    let u = c as u32;
    48 <= u && u <= 57
}

/// End of the run of digits of `s` starting at `i`.
fn run_end(s: &Vec<char>, i: usize) -> (e: usize)
    requires
        i <= s.len(),
    ensures
        i <= e <= s.len(),
        e - i == digit_run(s@.skip(i as int)),
{
    let mut e = i;
    while e < s.len() && is_digit_char(s[e])
        invariant
            i <= e <= s.len(),
            digit_run(s@.skip(i as int)) == (e - i) + digit_run(s@.skip(e as int)),
        decreases s.len() - e,
    {
        assert(s@.skip(e as int).drop_first() =~= s@.skip(e + 1));
        e = e + 1;
    }
    e
}

/// Compares by value the digit runs `a[i..ea]` and `b[j..eb]`.
fn compare_runs(a: &Vec<char>, i: usize, ea: usize, b: &Vec<char>, j: usize, eb: usize) -> (r: Order)
    requires
        i <= ea <= a.len(),
        j <= eb <= b.len(),
        forall|k: int| i <= k < ea ==> is_digit(#[trigger] a@[k]),
        forall|k: int| j <= k < eb ==> is_digit(#[trigger] b@[k]),
    ensures
        r == compare_nat(
            digits_value(a@.subrange(i as int, ea as int)),
            digits_value(b@.subrange(j as int, eb as int)),
        ),
{
    let ghost sa = a@.subrange(i as int, ea as int);
    let ghost sb = b@.subrange(j as int, eb as int);
    let mut za = i;
    while za < ea && (a[za] as u32) == 48
        invariant
            i <= za <= ea,
            ea <= a.len(),
            forall|k: int| i <= k < za ==> (a@[k] as u32) == 48,
        decreases ea - za,
    {
        za = za + 1;
    }
    let mut zb = j;
    while zb < eb && (b[zb] as u32) == 48
        invariant
            j <= zb <= eb,
            eb <= b.len(),
            forall|k: int| j <= k < zb ==> (b@[k] as u32) == 48,
        decreases eb - zb,
    {
        zb = zb + 1;
    }
    let ghost ta = a@.subrange(za as int, ea as int);
    let ghost tb = b@.subrange(zb as int, eb as int);
    proof {
        assert forall|k: int| 0 <= k < za - i implies (#[trigger] sa[k] as u32) == 48 by {
            assert(sa[k] == a@[i + k]);
        }
        assert forall|k: int| 0 <= k < zb - j implies (#[trigger] sb[k] as u32) == 48 by {
            assert(sb[k] == b@[j + k]);
        }
        lemma_value_skip_zeros(sa, za - i);
        lemma_value_skip_zeros(sb, zb - j);
        assert(sa.skip(za - i) =~= ta);
        assert(sb.skip(zb - j) =~= tb);
        assert forall|k: int| 0 <= k < ta.len() implies is_digit(#[trigger] ta[k]) by {
            assert(ta[k] == a@[za + k]);
        }
        assert forall|k: int| 0 <= k < tb.len() implies is_digit(#[trigger] tb[k]) by {
            assert(tb[k] == b@[zb + k]);
        }
        lemma_value_bound(ta);
        lemma_value_bound(tb);
        if ta.len() > 0 {
            assert(ta[0] == a@[za as int]);
            lemma_value_lower(ta);
        }
        if tb.len() > 0 {
            assert(tb[0] == b@[zb as int]);
            lemma_value_lower(tb);
        }
    }
    let la = ea - za;
    let lb = eb - zb;
    if la < lb {
        proof {
            lemma_pow10_mono(la as nat, (lb - 1) as nat);
        }
        return Order::Less;
    }
    if la > lb {
        proof {
            lemma_pow10_mono(lb as nat, (la - 1) as nat);
        }
        return Order::Greater;
    }
    let mut k: usize = 0;
    while k < la
        invariant
            la == lb,
            za + la == ea,
            zb + lb == eb,
            ea <= a.len(),
            eb <= b.len(),
            k <= la,
            ta == a@.subrange(za as int, ea as int),
            tb == b@.subrange(zb as int, eb as int),
            forall|m: int| 0 <= m < ta.len() ==> is_digit(#[trigger] ta[m]),
            forall|m: int| 0 <= m < tb.len() ==> is_digit(#[trigger] tb[m]),
            digits_value(sa) == digits_value(ta),
            digits_value(sb) == digits_value(tb),
            sa == a@.subrange(i as int, ea as int),
            sb == b@.subrange(j as int, eb as int),
            forall|m: int| 0 <= m < k ==> ta[m] == tb[m],
        decreases la - k,
    {
        let ca = a[za + k];
        let cb = b[zb + k];
        assert(ta[k as int] == ca && tb[k as int] == cb);
        if (ca as u32) != (cb as u32) {
            proof {
                lemma_value_lex(ta, tb, k as int);
            }
            if (ca as u32) < (cb as u32) {
                return Order::Less;
            } else {
                return Order::Greater;
            }
        }
        assert(ca == cb) by {
            vstd::utf8::char_u32_cast(ca, ca as u32);
            vstd::utf8::char_u32_cast(cb, cb as u32);
        }
        k = k + 1;
    }
    proof {
        lemma_value_lex(ta, tb, la as int);
    }
    Order::Equal
}

/// The natural order of two names (see `natural_order`).
pub fn natural_order_of(a: &Vec<char>, b: &Vec<char>) -> (r: Order)
    ensures
        r == natural_order(a@, b@),
{
    let mut i: usize = 0;
    let mut j: usize = 0;
    assert(a@.skip(0) =~= a@);
    assert(b@.skip(0) =~= b@);
    loop
        invariant
            i <= a.len(),
            j <= b.len(),
            natural_order(a@, b@) == natural_order(a@.skip(i as int), b@.skip(j as int)),
        decreases a.len() - i + b.len() - j,
    {
        let ghost sa = a@.skip(i as int);
        let ghost sb = b@.skip(j as int);
        proof {
            reveal(natural_order);
        }
        if i == a.len() && j == b.len() {
            return Order::Equal;
        }
        if i == a.len() {
            return Order::Less;
        }
        if j == b.len() {
            return Order::Greater;
        }
        let ca = a[i];
        let cb = b[j];
        assert(sa[0] == ca && sb[0] == cb);
        if is_digit_char(ca) && is_digit_char(cb) {
            let ea = run_end(a, i);
            let eb = run_end(b, j);
            proof {
                lemma_digit_run(sa);
                lemma_digit_run(sb);
                reveal_with_fuel(digit_run, 2);
                assert(sa.take((ea - i) as int) =~= a@.subrange(i as int, ea as int));
                assert(sb.take((eb - j) as int) =~= b@.subrange(j as int, eb as int));
                assert(sa.skip((ea - i) as int) =~= a@.skip(ea as int));
                assert(sb.skip((eb - j) as int) =~= b@.skip(eb as int));
                assert forall|k: int| i <= k < ea implies is_digit(#[trigger] a@[k]) by {
                    assert(a@[k] == sa[k - i]);
                }
                assert forall|k: int| j <= k < eb implies is_digit(#[trigger] b@[k]) by {
                    assert(b@[k] == sb[k - j]);
                }
            }
            let c = compare_runs(a, i, ea, b, j, eb);
            if c != Order::Equal {
                return c;
            }
            let la = ea - i;
            let lb = eb - j;
            if la < lb {
                return Order::Less;
            }
            if la > lb {
                return Order::Greater;
            }
            i = ea;
            j = eb;
        } else if (ca as u32) < (cb as u32) {
            return Order::Less;
        } else if (ca as u32) > (cb as u32) {
            return Order::Greater;
        } else {
            assert(sa.drop_first() =~= a@.skip(i + 1));
            assert(sb.drop_first() =~= b@.skip(j + 1));
            i = i + 1;
            j = j + 1;
        }
    }
}


/// Appending a digit multiplies the value by ten and adds the digit.
#[verifier::spinoff_prover]
proof fn lemma_value_push(s: Seq<char>, c: char)
    ensures
        digits_value(s.push(c)) == digits_value(s) * 10 + digit_value(c),
    decreases s.len(),
{
    let t = s.push(c);
    if s.len() == 0 {
        assert(t.drop_first() =~= Seq::<char>::empty());
        assert(digits_value(t.drop_first()) == 0);
        assert(digits_value(s) == 0);
        assert(pow10(0) == 1);
        assert(t[0] == c);
        assert(digits_value(t) == digit_value(t[0]) * pow10(0) + digits_value(t.drop_first()));
    } else {
        assert(t.drop_first() =~= s.drop_first().push(c));
        lemma_value_push(s.drop_first(), c);
        let d = digit_value(s[0]);
        let p = pow10((s.len() - 1) as nat);
        let q = digits_value(s.drop_first());
        assert(pow10(s.len()) == 10 * p);
        assert(d * (10 * p) == (d * p) * 10) by (nonlinear_arith);
        assert(digits_value(s) == d * p + q);
        assert(t[0] == s[0]);
        assert(digits_value(t) == digit_value(t[0]) * pow10(s.len()) + digits_value(t.drop_first()));
        assert(digits_value(t.drop_first()) == q * 10 + digit_value(c));
        assert(digits_value(t) == (d * p + q) * 10 + digit_value(c)) by (nonlinear_arith)
            requires
                digits_value(t) == d * (10 * p) + (q * 10 + digit_value(c)),
        ;
    }
}

/// The decimal digits of `n` are digits, and their value is `n`.
#[verifier::spinoff_prover]
pub proof fn lemma_decimal_digits(n: nat)
    ensures
        forall|k: int| 0 <= k < decimal(n).len() ==> is_digit(#[trigger] decimal(n)[k]),
        digits_value(decimal(n)) == n,
        decimal(n).len() >= 1,
    decreases n,
{
    let r = n % 10;
    assert(r < 10);
    assert(digit_char(r) as u32 == 48 + r);
    assert(digit_value(digit_char(r)) == r);
    if n < 10 {
        assert(r == n);
        let d = decimal(n);
        assert(d[0] == digit_char(n));
        assert(digits_value(d) == digit_value(d[0]) * pow10(0) + digits_value(d.drop_first()));
        assert(d.drop_first() =~= Seq::<char>::empty());
        assert(digits_value(d.drop_first()) == 0);
        assert(pow10(0) == 1);
        assert(digit_value(d[0]) == n);
        assert(digit_value(d[0]) * pow10(0) == n) by (nonlinear_arith)
            requires
                digit_value(d[0]) == n,
                pow10(0) == 1,
        ;
        assert(digits_value(d) == n);
    } else {
        lemma_decimal_digits(n / 10);
        let d = decimal(n / 10);
        lemma_value_push(d, digit_char(r));
        assert(decimal(n) == d.push(digit_char(r)));
        assert(digits_value(d.push(digit_char(r))) == (n / 10) * 10 + r);
        vstd::arithmetic::div_mod::lemma_fundamental_div_mod(n as int, 10);
        assert((n / 10) * 10 == 10 * (n / 10)) by (nonlinear_arith);
        assert((n / 10) * 10 + r == n);
        assert(digits_value(decimal(n)) == n);
        assert forall|k: int| 0 <= k < decimal(n).len() implies is_digit(#[trigger] decimal(n)[k]) by {
            if k < d.len() {
                assert(decimal(n)[k] == d[k]);
            }
        }
    }
}

/// `n` padded with zeros is made of digits, and its value is `n`.
pub proof fn lemma_zero_padded_digits(n: nat, width: nat)
    ensures
        forall|k: int| 0 <= k < zero_padded(n, width).len() ==> is_digit(#[trigger] zero_padded(n, width)[k]),
        digits_value(zero_padded(n, width)) == n,
        zero_padded(n, width).len() >= 1,
{
    lemma_decimal_digits(n);
    let d = decimal(n);
    if d.len() < width {
        let z = zero_padded(n, width);
        let k = (width - d.len()) as int;
        assert(z.skip(k) =~= d);
        lemma_value_skip_zeros(z, k);
        assert forall|i: int| 0 <= i < z.len() implies is_digit(#[trigger] z[i]) by {
            if i >= k {
                assert(z[i] == d[i - k]);
            }
        }
    }
}

/// The run of digits that starts a run of digits followed by a non-digit is
/// that run.
proof fn lemma_run_before(s: Seq<char>, t: Seq<char>)
    requires
        forall|k: int| 0 <= k < s.len() ==> is_digit(#[trigger] s[k]),
        t.len() > 0,
        !is_digit(t[0]),
    ensures
        digit_run(s + t) == s.len(),
    decreases s.len(),
{
    if s.len() == 0 {
        assert(s + t =~= t);
    } else {
        assert((s + t).drop_first() =~= s.drop_first() + t);
        assert(is_digit((s + t)[0]));
        assert forall|k: int| 0 <= k < s.drop_first().len() implies is_digit(#[trigger] s.drop_first()[k]) by {
            assert(s.drop_first()[k] == s[k + 1]);
        }
        lemma_run_before(s.drop_first(), t);
    }
}

/// Names made of the same letter, a number padded with zeros, and a rest
/// starting with a non-digit come in the order of their numbers.
#[verifier::spinoff_prover]
pub proof fn lemma_numbered_names_order(c: char, i: nat, j: nat, width: nat, x: Seq<char>, y: Seq<char>)
    requires
        !is_digit(c),
        i < j,
        x.len() > 0 && !is_digit(x[0]),
        y.len() > 0 && !is_digit(y[0]),
    ensures
        natural_order(seq![c] + zero_padded(i, width) + x, seq![c] + zero_padded(j, width) + y)
            == Order::Less,
{
    let zi = zero_padded(i, width);
    let zj = zero_padded(j, width);
    lemma_zero_padded_digits(i, width);
    lemma_zero_padded_digits(j, width);
    let a = seq![c] + zi + x;
    let b = seq![c] + zj + y;
    let a1 = zi + x;
    let b1 = zj + y;
    assert(a.drop_first() =~= a1);
    assert(b.drop_first() =~= b1);
    lemma_run_before(zi, x);
    lemma_run_before(zj, y);
    assert(a1.take(zi.len() as int) =~= zi);
    assert(b1.take(zj.len() as int) =~= zj);
    assert(is_digit(a1[0]) && is_digit(b1[0])) by {
        assert(a1[0] == zi[0]);
        assert(b1[0] == zj[0]);
    }
    reveal_with_fuel(natural_order, 2);
    assert(natural_order(a1, b1) == Order::Less);
}

} // verus!
