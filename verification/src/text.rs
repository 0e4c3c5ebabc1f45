//! Text built from numbers.

use vstd::prelude::*;
use vstd::string::*;
use vstd::utf8::encode_utf8;

verus! {

/// The decimal digit `d`.
pub open spec fn digit(d: int) -> char {
    (0x30 + d) as char
}

/// The decimal form of `n`, without leading zeros.
pub open spec fn decimal(n: nat) -> Seq<char>
    decreases n,
{
    if n < 10 {
        seq![digit(n as int)]
    } else {
        decimal(n / 10).push(digit((n % 10) as int))
    }
}

/// The decimal form of `n`, with a minus sign in front of a negative number.
pub open spec fn signed_decimal(n: int) -> Seq<char> {
    if n < 0 {
        seq!['-'] + decimal((-n) as nat)
    } else {
        decimal(n as nat)
    }
}

/// The three decimal digits of `n`.
pub open spec fn three_digits(n: int) -> Seq<char> {
    seq![digit(n / 100 % 10), digit(n / 10 % 10), digit(n % 10)]
}

fn digit_text(d: u64) -> (s: &'static str)
    requires
        d < 10,
    ensures
        s@ == seq![digit(d as int)],
{
    proof {
        reveal_strlit("0");
        reveal_strlit("1");
        reveal_strlit("2");
        reveal_strlit("3");
        reveal_strlit("4");
        reveal_strlit("5");
        reveal_strlit("6");
        reveal_strlit("7");
        reveal_strlit("8");
        reveal_strlit("9");
    }
    let s: &'static str = match d {
        0 => "0",
        1 => "1",
        2 => "2",
        3 => "3",
        4 => "4",
        5 => "5",
        6 => "6",
        7 => "7",
        8 => "8",
        _ => "9",
    };
    assert(s@ =~= seq![digit(d as int)]);
    s
}

/// Different numbers have different decimal forms.
pub proof fn lemma_decimal_tells(a: nat, b: nat)
    requires
        decimal(a) == decimal(b),
    ensures
        a == b,
    decreases a,
{
    let x = decimal(a);
    let y = decimal(b);
    lemma_decimal_long(a);
    lemma_decimal_long(b);
    assert(x.last() == y.last());
    if a >= 10 {
        assert(x.drop_last() =~= decimal(a / 10));
        assert(y.drop_last() =~= decimal(b / 10));
        lemma_decimal_tells(a / 10, b / 10);
    }
}

proof fn lemma_decimal_long(n: nat)
    ensures
        decimal(n).len() >= 1,
        n >= 10 <==> decimal(n).len() >= 2,
        decimal(n).last() == digit((n % 10) as int),
    decreases n,
{
    if n >= 10 {
        lemma_decimal_long(n / 10);
    }
}

/// Append the decimal form of `n`.
pub fn append_decimal(out: &mut String, n: u64)
    ensures
        final(out)@ == old(out)@ + decimal(n as nat),
    decreases n,
{
    if n >= 10 {
        append_decimal(out, n / 10);
        out.append(digit_text(n % 10));
        assert(out@ =~= old(out)@ + decimal(n as nat));
    } else {
        out.append(digit_text(n));
    }
}

/// Append the decimal form of `n`.
pub fn append_signed(out: &mut String, n: i64)
    ensures
        final(out)@ == old(out)@ + signed_decimal(n as int),
{
    append_wide(out, n as i128);
}

/// Append the decimal form of `n`, whose magnitude has at most 64 bits.
pub fn append_wide(out: &mut String, n: i128)
    requires
        -0xFFFF_FFFF_FFFF_FFFF <= n <= 0xFFFF_FFFF_FFFF_FFFF,
    ensures
        final(out)@ == old(out)@ + signed_decimal(n as int),
{
    if n < 0 {
        proof {
            reveal_strlit("-");
        }
        out.append("-");
        assert(out@ =~= old(out)@ + seq!['-']);
        append_decimal(out, (-n) as u64);
        assert(out@ =~= old(out)@ + signed_decimal(n as int));
    } else {
        append_decimal(out, n as u64);
    }
}

/// Append the last three decimal digits of `n`, zeros included.
pub fn append_three_digits(out: &mut String, n: u64)
    ensures
        final(out)@ == old(out)@ + three_digits(n as int),
{
    out.append(digit_text(n / 100 % 10));
    out.append(digit_text(n / 10 % 10));
    out.append(digit_text(n % 10));
    assert(out@ =~= old(out)@ + three_digits(n as int));
}

/// Are the two texts the same?
pub fn same_text(a: &str, b: &str) -> (same: bool)
    ensures
        same == (a@ == b@),
{
    let x: &[u8] = a.as_bytes();
    let y: &[u8] = b.as_bytes();
    proof {
        vstd::utf8::encode_utf8_decode_utf8(a@);
        vstd::utf8::encode_utf8_decode_utf8(b@);
    }
    if x.len() != y.len() {
        return false;
    }
    let mut i: usize = 0;
    while i < x.len()
        invariant
            i <= x@.len() == y@.len(),
            x@ == encode_utf8(a@),
            y@ == encode_utf8(b@),
            forall|k: int| 0 <= k < i ==> x@[k] == y@[k],
        decreases x@.len() - i,
    {
        if x[i] != y[i] {
            return false;
        }
        i = i + 1;
    }
    assert(x@ =~= y@);
    true
}

/// Does `a` begin with `b`?
pub fn begins_with(a: &str, b: &str) -> (begins: bool)
    ensures
        begins == b@.is_prefix_of(a@),
{
    let n: usize = b.unicode_len();
    if a.unicode_len() < n {
        return false;
    }
    let mut i: usize = 0;
    while i < n
        invariant
            i <= n,
            n == b@.len() <= a@.len(),
            forall|k: int| 0 <= k < i ==> a@[k] == b@[k],
        decreases n - i,
    {
        if a.get_char(i) != b.get_char(i) {
            assert(a@.subrange(0, n as int)[i as int] != b@[i as int]);
            return false;
        }
        i = i + 1;
    }
    assert(a@.subrange(0, n as int) =~= b@);
    true
}

/// The last `width` decimal digits of `n`.
pub open spec fn padded(n: nat, width: nat) -> Seq<char>
    decreases width,
{
    if width == 0 {
        Seq::empty()
    } else {
        padded(n / 10, (width - 1) as nat).push(digit((n % 10) as int))
    }
}

/// The fraction `n` of `width` decimal places, without trailing zeros; nothing
/// for zero.
pub open spec fn fraction(n: nat, width: nat) -> Seq<char>
    decreases width,
{
    if n == 0 || width == 0 {
        Seq::empty()
    } else if n % 10 == 0 {
        fraction(n / 10, (width - 1) as nat)
    } else {
        "."@ + padded(n, width)
    }
}

/// A duration in nanoseconds, in the largest unit that fits into it.
pub open spec fn duration_text(ns: nat) -> Seq<char> {
    if ns >= 1_000_000_000 {
        decimal(ns / 1_000_000_000) + fraction(ns % 1_000_000_000, 9) + "s"@
    } else if ns >= 1_000_000 {
        decimal(ns / 1_000_000) + fraction(ns % 1_000_000, 6) + "ms"@
    } else if ns >= 1000 {
        decimal(ns / 1000) + fraction(ns % 1000, 3) + "µs"@
    } else {
        decimal(ns) + "ns"@
    }
}

fn append_padded(out: &mut String, n: u64, width: u64)
    ensures
        final(out)@ == old(out)@ + padded(n as nat, width as nat),
    decreases width,
{
    if width == 0 {
        assert(out@ =~= old(out)@ + Seq::<char>::empty());
    } else {
        append_padded(out, n / 10, width - 1);
        out.append(digit_text(n % 10));
        assert(out@ =~= old(out)@ + padded(n as nat, width as nat));
    }
}

fn append_fraction(out: &mut String, n: u64, width: u64)
    ensures
        final(out)@ == old(out)@ + fraction(n as nat, width as nat),
    decreases width,
{
    if n == 0 || width == 0 {
        assert(out@ =~= old(out)@ + Seq::<char>::empty());
    } else if n % 10 == 0 {
        append_fraction(out, n / 10, width - 1);
    } else {
        out.append(".");
        append_padded(out, n, width);
        assert(out@ =~= old(out)@ + ("."@ + padded(n as nat, width as nat)));
    }
}

/// Append a duration in nanoseconds, in the largest unit that fits into it.
pub fn append_duration(out: &mut String, ns: u64)
    ensures
        final(out)@ == old(out)@ + duration_text(ns as nat),
{
    if ns >= 1_000_000_000 {
        append_decimal(out, ns / 1_000_000_000);
        append_fraction(out, ns % 1_000_000_000, 9);
        out.append("s");
    } else if ns >= 1_000_000 {
        append_decimal(out, ns / 1_000_000);
        append_fraction(out, ns % 1_000_000, 6);
        out.append("ms");
    } else if ns >= 1000 {
        append_decimal(out, ns / 1000);
        append_fraction(out, ns % 1000, 3);
        out.append("µs");
    } else {
        append_decimal(out, ns);
        out.append("ns");
    }
    assert(out@ =~= old(out)@ + duration_text(ns as nat));
}

/// True if `a` comes before `b` in the order of characters.
pub open spec fn text_before(a: Seq<char>, b: Seq<char>) -> bool
    decreases b.len(),
{
    if b.len() == 0 {
        false
    } else if a.len() == 0 {
        true
    } else if a[0] != b[0] {
        (a[0] as int) < (b[0] as int)
    } else {
        text_before(a.drop_first(), b.drop_first())
    }
}

/// Of two texts one comes before the other, or they are the same.
pub proof fn lemma_one_is_before(a: Seq<char>, b: Seq<char>)
    ensures
        text_before(a, b) || text_before(b, a) || a == b,
        !(text_before(a, b) && text_before(b, a)),
        a == b ==> !text_before(a, b),
    decreases b.len(),
{
    if a.len() > 0 && b.len() > 0 && a[0] == b[0] {
        lemma_one_is_before(a.drop_first(), b.drop_first());
        if a.drop_first() == b.drop_first() {
            assert(a =~= seq![a[0]] + a.drop_first());
            assert(b =~= seq![b[0]] + b.drop_first());
        }
    } else if a.len() == 0 && b.len() == 0 {
        assert(a =~= b);
    } else if a.len() > 0 && b.len() > 0 {
        assert(a[0] as int != b[0] as int);
    } else if a.len() == 0 {
        assert(text_before(a, b));
    } else {
        assert(text_before(b, a));
    }
}

/// The order is transitive.
pub proof fn lemma_before_before(a: Seq<char>, b: Seq<char>, c: Seq<char>)
    requires
        text_before(a, b),
        text_before(b, c),
    ensures
        text_before(a, c),
    decreases c.len(),
{
    if a.len() > 0 && b.len() > 0 && c.len() > 0 && a[0] == b[0] && b[0] == c[0] {
        lemma_before_before(a.drop_first(), b.drop_first(), c.drop_first());
    }
}

/// Does `a` come before `b`?
pub fn comes_before(a: &str, b: &str) -> (before: bool)
    ensures
        before == text_before(a@, b@),
{
    let n: usize = a.unicode_len();
    let m: usize = b.unicode_len();
    let mut i: usize = 0;
    assert(a@.skip(0) =~= a@);
    assert(b@.skip(0) =~= b@);
    loop
        invariant
            n == a@.len(),
            m == b@.len(),
            i <= n,
            i <= m,
            text_before(a@, b@) == text_before(a@.skip(i as int), b@.skip(i as int)),
        decreases n - i,
    {
        if i == m {
            return false;
        }
        if i == n {
            return true;
        }
        let x: char = a.get_char(i);
        let y: char = b.get_char(i);
        if x != y {
            return (x as u32) < (y as u32);
        }
        assert(a@.skip(i as int).drop_first() =~= a@.skip(i + 1));
        assert(b@.skip(i as int).drop_first() =~= b@.skip(i + 1));
        i = i + 1;
    }
}

// ---------------------------------------------------------------------------
// Laws
// ---------------------------------------------------------------------------

/// The number that a row of decimal digits tells.
pub open spec fn number(s: Seq<char>) -> int
    decreases s.len(),
{
    if s.len() == 0 {
        0
    } else {
        10 * number(s.drop_last()) + (s.last() as int - 0x30)
    }
}

/// True of a row of decimal digits.
pub open spec fn all_digits(s: Seq<char>) -> bool {
    forall|i: int| 0 <= i < s.len() ==> 0x30 <= #[trigger] s[i] as int <= 0x39
}

/// So many tens, multiplied.
pub open spec fn power_of_ten(k: nat) -> int
    decreases k,
{
    if k == 0 {
        1
    } else {
        10 * power_of_ten((k - 1) as nat)
    }
}

proof fn lemma_digit_added(s: Seq<char>, d: int)
    requires
        all_digits(s),
        0 <= d < 10,
    ensures
        all_digits(s.push(digit(d))),
        number(s.push(digit(d))) == 10 * number(s) + d,
{
    let t = s.push(digit(d));
    assert(t.drop_last() =~= s);
    assert(digit(d) as int == 0x30 + d);
    assert forall|i: int| 0 <= i < t.len() implies 0x30 <= #[trigger] t[i] as int <= 0x39 by {
        if i < s.len() {
            assert(t[i] == s[i]);
        }
    }
}

/// The decimal form of a number is a row of digits that tells the number, without
/// a zero in front.
pub proof fn decimals_read_back(n: nat)
    ensures
        all_digits(decimal(n)),
        number(decimal(n)) == n,
        decimal(n).len() > 0,
        decimal(n)[0] == '0' ==> n == 0 && decimal(n).len() == 1,
    decreases n,
{
    if n >= 10 {
        decimals_read_back(n / 10);
        lemma_digit_added(decimal(n / 10), (n % 10) as int);
        assert(decimal(n)[0] == decimal(n / 10)[0]);
    } else {
        assert(Seq::<char>::empty().push(digit(n as int)) =~= decimal(n));
        lemma_digit_added(Seq::empty(), n as int);
        assert(digit(n as int) as int == 0x30 + n);
    }
}

/// The three digits of a number below a thousand tell it.
pub proof fn three_digits_read_back(n: int)
    requires
        0 <= n < 1000,
    ensures
        three_digits(n).len() == 3,
        all_digits(three_digits(n)),
        number(three_digits(n)) == n,
{
    let a = Seq::<char>::empty().push(digit(n / 100 % 10));
    let b = a.push(digit(n / 10 % 10));
    lemma_digit_added(Seq::empty(), n / 100 % 10);
    lemma_digit_added(a, n / 10 % 10);
    lemma_digit_added(b, n % 10);
    assert(b.push(digit(n % 10)) =~= three_digits(n));
    assert(n == 100 * (n / 100 % 10) + 10 * (n / 10 % 10) + n % 10);
}

proof fn lemma_padded(n: nat, width: nat)
    requires
        n < power_of_ten(width),
    ensures
        padded(n, width).len() == width,
        all_digits(padded(n, width)),
        number(padded(n, width)) == n,
    decreases width,
{
    if width > 0 {
        lemma_padded(n / 10, (width - 1) as nat);
        lemma_digit_added(padded(n / 10, (width - 1) as nat), (n % 10) as int);
    }
}

/// A fraction of so many decimal places is written as a point and the digits that
/// tell it, the last of which is not a zero; none is written for zero.
pub proof fn fractions_read_back(n: nat, width: nat)
    requires
        n < power_of_ten(width),
    ensures
        n == 0 ==> fraction(n, width).len() == 0,
        n > 0 ==> {
            let digits = fraction(n, width).skip(1);
            &&& 2 <= fraction(n, width).len() <= width + 1
            &&& fraction(n, width)[0] == '.'
            &&& all_digits(digits)
            &&& digits.last() != '0'
            &&& number(digits) * power_of_ten((width - digits.len()) as nat) == n
        },
    decreases width,
{
    if n > 0 {
        reveal_strlit(".");
        if n % 10 == 0 {
            let k = (width - 1) as nat;
            fractions_read_back(n / 10, k);
            let digits = fraction(n, width).skip(1);
            let m = number(digits);
            let p = power_of_ten((k - digits.len()) as nat);
            assert(power_of_ten((width - digits.len()) as nat) == 10 * p);
            assert(m * (10 * p) == 10 * (m * p)) by (nonlinear_arith);
        } else {
            lemma_padded(n, width);
            let digits = fraction(n, width).skip(1);
            assert(digits =~= padded(n, width));
            assert(digits.last() == digit((n % 10) as int));
            assert(digits.last() as int == 0x30 + n % 10);
            assert(power_of_ten(0) == 1);
        }
    }
}

/// True if `text` tells `ns` nanoseconds as a number of units and a fraction of
/// one, to so many decimal places.
pub open spec fn told_in(text: Seq<char>, ns: nat, places: nat, name: Seq<char>) -> bool {
    exists|count: nat, part: nat|
        text == #[trigger] decimal(count) + #[trigger] fraction(part, places) + name && count
            * power_of_ten(places) + part == ns && part < power_of_ten(places)
}

/// A duration is told in seconds, milliseconds, microseconds or nanoseconds: in
/// the largest unit of which there is one.
pub proof fn durations_read_back(ns: nat)
    ensures
        power_of_ten(9) == 1_000_000_000,
        ns >= 1_000_000_000 ==> told_in(duration_text(ns), ns, 9, "s"@),
        1_000_000 <= ns < 1_000_000_000 ==> told_in(duration_text(ns), ns, 6, "ms"@),
        1000 <= ns < 1_000_000 ==> told_in(duration_text(ns), ns, 3, "µs"@),
        ns < 1000 ==> told_in(duration_text(ns), ns, 0, "ns"@),
{
    reveal_with_fuel(power_of_ten, 10);
    assert(power_of_ten(3) == 1000);
    assert(power_of_ten(6) == 1_000_000);
    assert(power_of_ten(9) == 1_000_000_000);
    if ns >= 1_000_000_000 {
        lemma_told(ns, ns / 1_000_000_000, ns % 1_000_000_000, 9, "s"@);
    } else if ns >= 1_000_000 {
        lemma_told(ns, ns / 1_000_000, ns % 1_000_000, 6, "ms"@);
    } else if ns >= 1000 {
        lemma_told(ns, ns / 1000, ns % 1000, 3, "µs"@);
    } else {
        assert(decimal(ns) + "ns"@ =~= decimal(ns) + fraction(0, 0) + "ns"@);
        lemma_told(ns, ns, 0, 0, "ns"@);
    }
}

proof fn lemma_told(ns: nat, count: nat, part: nat, places: nat, name: Seq<char>)
    requires
        count * power_of_ten(places) + part == ns,
        part < power_of_ten(places),
    ensures
        told_in(decimal(count) + fraction(part, places) + name, ns, places, name),
{
}

} // verus!
