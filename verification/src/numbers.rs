//! Reading reals from decimal text.
//!
//! A numeral is an optional sign, digits, and optionally a point and more
//! digits, with at least one digit in all; an exponent may follow: `e` or
//! `E`, an optional sign, and digits. Its value is exact up to the ninth
//! digit after the point; further digits are dropped.

use vstd::prelude::*;
use crate::model::Triple;
use crate::scalar::{MAX_EXPONENT, MAX_WHOLE, PLACES, UNIT};

verus! {

/// A class of bytes.
#[derive(Clone, Copy, Debug, PartialEq, Eq, Structural)]
pub enum Class {
    /// `0` to `9`.
    Digit,
    /// Space, tab, line feed, carriage return.
    Space,
    /// Anything but a space.
    Word,
    /// A letter, a digit, `_`, `-`, `.` or `:`.
    Name,
}

/// Whether byte `b` belongs to class `c`.
pub open spec fn in_class(c: Class, b: u8) -> bool {
    match c {
        Class::Digit => 48 <= b <= 57,
        Class::Space => b == 32 || b == 9 || b == 10 || b == 13,
        Class::Word => !(b == 32 || b == 9 || b == 10 || b == 13),
        Class::Name => (48 <= b <= 57) || (65 <= b <= 90) || (97 <= b <= 122) || b == 95 || b == 45
            || b == 46 || b == 58,
    }
}

/// The end of the run of bytes of class `c` that starts at `from`: the
/// first place from `from` on that holds a byte of another class, or the
/// end of `s`.
pub open spec fn span_end(s: Seq<u8>, from: int, c: Class) -> int
    decreases s.len() - from,
{
    if from < 0 || from >= s.len() {
        from
    } else if !in_class(c, s[from]) {
        from
    } else {
        span_end(s, from + 1, c)
    }
}

/// The number that a string of digits denotes.
pub open spec fn digits_value(s: Seq<u8>) -> nat
    decreases s.len(),
{
    if s.len() == 0 {
        0
    } else {
        digits_value(s.drop_last()) * 10 + (s.last() - 48) as nat
    }
}

/// The number that the first `places` digits of `s` denote, with zeros
/// taking the place of digits that `s` does not have.
pub open spec fn scaled(s: Seq<u8>, places: nat) -> nat
    decreases places,
{
    if places == 0 {
        0
    } else {
        let digit: nat = if s.len() >= places {
            (s[places - 1] - 48) as nat
        } else {
            0
        };
        scaled(s, (places - 1) as nat) * 10 + digit
    }
}

/// Ten to the power `k`.
pub open spec fn power_of_ten(k: nat) -> nat
    decreases k,
{
    if k == 0 {
        1
    } else {
        power_of_ten((k - 1) as nat) * 10
    }
}

/// `n` times the digit zero.
pub open spec fn zero_digits(n: nat) -> Seq<u8> {
    Seq::new(n, |i: int| 48u8)
}

/// The digits before the point once the point of `digits`, which stands
/// after `point` of them, is moved there; `point` may lie before the first
/// digit or after the last.
pub open spec fn digits_before(digits: Seq<u8>, point: int) -> Seq<u8> {
    if point <= 0 {
        Seq::empty()
    } else if point >= digits.len() {
        digits + zero_digits((point - digits.len()) as nat)
    } else {
        digits.subrange(0, point)
    }
}

/// The digits after the point once it stands after `point` of `digits`.
pub open spec fn digits_behind(digits: Seq<u8>, point: int) -> Seq<u8> {
    if point <= 0 {
        zero_digits((-point) as nat) + digits
    } else if point >= digits.len() {
        Seq::empty()
    } else {
        digits.subrange(point, digits.len() as int)
    }
}

/// The real with the digits `whole` before the point and `part` behind
/// it, negated if `negative`; nothing if `whole` is above `MAX_WHOLE`.
pub open spec fn sized(whole: Seq<u8>, part: Seq<u8>, negative: bool) -> Option<i64> {
    if digits_value(whole) > MAX_WHOLE {
        None
    } else {
        let size = digits_value(whole) * UNIT + scaled(part, PLACES as nat);
        Some(
            if negative {
                (-size) as i64
            } else {
                size as i64
            },
        )
    }
}

/// The real that the numeral `s` denotes, if `s` is a numeral whose
/// exponent is at most `MAX_EXPONENT` either way and whose value has a
/// whole part of at most `MAX_WHOLE`.
pub open spec fn real_of(s: Seq<u8>) -> Option<i64> {
    let signed = s.len() > 0 && (s[0] == 45 || s[0] == 43);
    let negative = s.len() > 0 && s[0] == 45;
    let start: int = if signed {
        1
    } else {
        0
    };
    let whole_end = span_end(s, start, Class::Digit);
    let pointed = whole_end < s.len() && s[whole_end] == 46;
    let part_start = if pointed {
        whole_end + 1
    } else {
        whole_end
    };
    let part_end = span_end(s, part_start, Class::Digit);
    let raised = part_end < s.len() && (s[part_end] == 101 || s[part_end] == 69);
    let mark = part_end + 1;
    let power_signed = raised && mark < s.len() && (s[mark] == 45 || s[mark] == 43);
    let lowered = power_signed && s[mark] == 45;
    let power_start = if !raised {
        part_end
    } else if power_signed {
        mark + 1
    } else {
        mark
    };
    let power_end = span_end(s, power_start, Class::Digit);
    let power = digits_value(s.subrange(power_start, power_end));
    let digits = s.subrange(start, whole_end) + s.subrange(part_start, part_end);
    let point = if lowered {
        whole_end - start - power
    } else {
        whole_end - start + power
    };
    if power_end != s.len() || digits.len() == 0 || (raised && power_end == power_start) || power
        > MAX_EXPONENT {
        None
    } else {
        sized(digits_before(digits, point), digits_behind(digits, point), negative)
    }
}

/// Tells whether byte `b` belongs to class `c`.
pub fn belongs(c: Class, b: u8) -> (r: bool)
    ensures
        r == in_class(c, b),
{
    match c {
        Class::Digit => 48 <= b && b <= 57,
        Class::Space => b == 32 || b == 9 || b == 10 || b == 13,
        Class::Word => !(b == 32 || b == 9 || b == 10 || b == 13),
        Class::Name => (48 <= b && b <= 57) || (65 <= b && b <= 90) || (97 <= b && b <= 122) || b
            == 95 || b == 45 || b == 46 || b == 58,
    }
}

/// A run of class `c` ends between its start and the end of the text.
pub proof fn lemma_span_bounds(s: Seq<u8>, from: int, c: Class)
    requires
        0 <= from <= s.len(),
    ensures
        from <= span_end(s, from, c) <= s.len(),
        forall|i: int| from <= i < span_end(s, from, c) ==> in_class(c, #[trigger] s[i]),
        span_end(s, from, c) < s.len() ==> !in_class(c, s[span_end(s, from, c)]),
    decreases s.len() - from,
{
    if from < s.len() && in_class(c, s[from]) {
        lemma_span_bounds(s, from + 1, c);
    }
}

/// Finds the end of the run of bytes of class `c` that starts at `from`.
pub fn scan(s: &Vec<u8>, from: usize, c: Class) -> (r: usize)
    requires
        from <= s.len(),
    ensures
        r == span_end(s@, from as int, c),
        from <= r <= s.len(),
{
    let mut i: usize = from;
    while i < s.len() && belongs(c, s[i])
        invariant
            from <= i <= s.len(),
            span_end(s@, from as int, c) == span_end(s@, i as int, c),
        decreases s.len() - i,
    {
        i += 1;
    }
    i
}

/// Copies the bytes of `s` from `from` up to `to`.
pub fn copy_range(s: &Vec<u8>, from: usize, to: usize) -> (r: Vec<u8>)
    requires
        from <= to <= s.len(),
    ensures
        r@ == s@.subrange(from as int, to as int),
{
    let mut out: Vec<u8> = Vec::new();
    let mut i: usize = from;
    while i < to
        invariant
            from <= i <= to,
            to <= s.len(),
            out@ == s@.subrange(from as int, i as int),
        decreases to - i,
    {
        out.push(s[i]);
        proof {
            assert(out@ =~= s@.subrange(from as int, i as int + 1));
        }
        i += 1;
    }
    proof {
        assert(out@ =~= s@.subrange(from as int, to as int));
    }
    out
}

/// Reads the digits of `s` from `from` up to `to` as a number; numbers
/// above `MAX_WHOLE` are all given as `MAX_WHOLE + 1`.
pub fn read_whole(s: &Vec<u8>, from: usize, to: usize) -> (r: u64)
    requires
        from <= to <= s.len(),
        forall|i: int| from <= i < to ==> in_class(Class::Digit, #[trigger] s@[i]),
    ensures
        r <= MAX_WHOLE + 1,
        digits_value(s@.subrange(from as int, to as int)) <= MAX_WHOLE ==> r == digits_value(
            s@.subrange(from as int, to as int),
        ),
        digits_value(s@.subrange(from as int, to as int)) > MAX_WHOLE ==> r == MAX_WHOLE + 1,
{
    let mut acc: u64 = 0;
    let mut i: usize = from;
    proof {
        assert(s@.subrange(from as int, from as int) =~= Seq::<u8>::empty());
    }
    while i < to
        invariant
            from <= i <= to,
            to <= s.len(),
            forall|k: int| from <= k < to ==> in_class(Class::Digit, #[trigger] s@[k]),
            acc <= MAX_WHOLE + 1,
            digits_value(s@.subrange(from as int, i as int)) <= MAX_WHOLE ==> acc == digits_value(
                s@.subrange(from as int, i as int),
            ),
            digits_value(s@.subrange(from as int, i as int)) > MAX_WHOLE ==> acc == MAX_WHOLE + 1,
        decreases to - i,
    {
        let digit: u64 = (s[i] - 48) as u64;
        proof {
            let longer = s@.subrange(from as int, i as int + 1);
            assert(longer.drop_last() =~= s@.subrange(from as int, i as int));
            assert(longer.last() == s@[i as int]);
        }
        if acc > MAX_WHOLE {
            acc = MAX_WHOLE + 1;
        } else {
            let next: u64 = acc * 10 + digit;
            if next > MAX_WHOLE {
                acc = MAX_WHOLE + 1;
            } else {
                acc = next;
            }
        }
        i += 1;
    }
    acc
}

/// The first `places` digits denote a number below ten to the `places`.
pub proof fn lemma_scaled_bound(s: Seq<u8>, places: nat)
    requires
        forall|i: int| 0 <= i < s.len() ==> in_class(Class::Digit, #[trigger] s[i]),
    ensures
        scaled(s, places) < power_of_ten(places),
    decreases places,
{
    if places > 0 {
        lemma_scaled_bound(s, (places - 1) as nat);
    }
}

/// Reads the digits of `s` from `from` up to `to` as the part of a real
/// after the point, in billionths.
pub fn read_part(s: &Vec<u8>, from: usize, to: usize) -> (r: u64)
    requires
        from <= to <= s.len(),
        forall|i: int| from <= i < to ==> in_class(Class::Digit, #[trigger] s@[i]),
    ensures
        r == scaled(s@.subrange(from as int, to as int), PLACES as nat),
        r < UNIT,
{
    let ghost part = s@.subrange(from as int, to as int);
    let mut acc: u64 = 0;
    let mut p: usize = 0;
    proof {
        reveal_with_fuel(power_of_ten, 11);
        assert(power_of_ten(9) == 1_000_000_000);
    }
    while p < PLACES
        invariant
            p <= PLACES,
            from <= to <= s.len(),
            part == s@.subrange(from as int, to as int),
            forall|i: int| 0 <= i < part.len() ==> in_class(Class::Digit, #[trigger] part[i]),
            acc == scaled(part, p as nat),
            acc < power_of_ten(p as nat),
            power_of_ten(p as nat) <= power_of_ten(9),
            power_of_ten(9) == 1_000_000_000,
        decreases PLACES - p,
    {
        let digit: u64 = if p < to - from {
            proof {
                assert(part[p as int] == s@[from + p]);
                assert(in_class(Class::Digit, part[p as int]));
            }
            (s[from + p] - 48) as u64
        } else {
            0
        };
        proof {
            lemma_scaled_bound(part, (p + 1) as nat);
            lemma_power_grows((p + 1) as nat, 9);
        }
        acc = acc * 10 + digit;
        p += 1;
    }
    acc
}

/// Powers of ten grow with the exponent.
pub proof fn lemma_power_grows(a: nat, b: nat)
    requires
        a <= b,
    ensures
        power_of_ten(a) <= power_of_ten(b),
    decreases b,
{
    if a < b {
        lemma_power_grows(a, (b - 1) as nat);
    }
}

/// Joins two byte strings.
pub fn join(a: &Vec<u8>, b: &Vec<u8>) -> (r: Vec<u8>)
    ensures
        r@ == a@ + b@,
{
    let mut out: Vec<u8> = Vec::new();
    let mut i: usize = 0;
    while i < a.len()
        invariant
            i <= a.len(),
            out@ == a@.subrange(0, i as int),
        decreases a.len() - i,
    {
        out.push(a[i]);
        proof {
            assert(out@ =~= a@.subrange(0, i as int + 1));
        }
        i += 1;
    }
    let mut k: usize = 0;
    while k < b.len()
        invariant
            k <= b.len(),
            out@ == a@ + b@.subrange(0, k as int),
        decreases b.len() - k,
    {
        out.push(b[k]);
        proof {
            assert(out@ =~= a@ + b@.subrange(0, k as int + 1));
        }
        k += 1;
    }
    proof {
        assert(out@ =~= a@ + b@);
    }
    out
}

/// `n` times the digit zero.
pub fn zeros(n: usize) -> (r: Vec<u8>)
    ensures
        r@ == zero_digits(n as nat),
{
    let mut out: Vec<u8> = Vec::new();
    let mut i: usize = 0;
    while i < n
        invariant
            i <= n,
            out@ == zero_digits(i as nat),
        decreases n - i,
    {
        out.push(48);
        proof {
            assert(out@ =~= zero_digits((i + 1) as nat));
        }
        i += 1;
    }
    out
}

/// Whether every byte of `s` is a digit.
pub open spec fn all_digits(s: Seq<u8>) -> bool {
    forall|i: int| 0 <= i < s.len() ==> in_class(Class::Digit, #[trigger] s[i])
}

/// Moves the point of `digits`, which stands after `before` of them, by
/// `shift` places, to the left if `lowered` and else to the right, and
/// gives the digits before and behind it.
pub fn shifted(digits: &Vec<u8>, before: usize, shift: usize, lowered: bool) -> (r: (Vec<u8>, Vec<u8>))
    requires
        before <= digits.len(),
        shift <= MAX_EXPONENT,
        all_digits(digits@),
    ensures
        r.0@ == digits_before(
            digits@,
            if lowered {
                before - shift
            } else {
                before + shift
            },
        ),
        r.1@ == digits_behind(
            digits@,
            if lowered {
                before - shift
            } else {
                before + shift
            },
        ),
        all_digits(r.0@),
        all_digits(r.1@),
{
    let (whole, part) = if lowered {
        if shift >= before {
            (Vec::new(), join(&zeros(shift - before), digits))
        } else {
            (copy_range(digits, 0, before - shift), copy_range(digits, before - shift, digits.len()))
        }
    } else {
        if shift >= digits.len() - before {
            (join(digits, &zeros(shift - (digits.len() - before))), Vec::new())
        } else {
            (copy_range(digits, 0, before + shift), copy_range(digits, before + shift, digits.len()))
        }
    };
    proof {
        let point: int = if lowered {
            before - shift
        } else {
            before + shift
        };
        assert(whole@ =~= digits_before(digits@, point));
        assert(part@ =~= digits_behind(digits@, point));
    }
    (whole, part)
}

/// The real with the digits `whole` before the point and `part` behind it.
pub fn measure(whole: &Vec<u8>, part: &Vec<u8>, negative: bool) -> (r: Option<i64>)
    requires
        all_digits(whole@),
        all_digits(part@),
    ensures
        r == sized(whole@, part@, negative),
{
    proof {
        assert(whole@.subrange(0, whole@.len() as int) =~= whole@);
        assert(part@.subrange(0, part@.len() as int) =~= part@);
    }
    let high: u64 = read_whole(whole, 0, whole.len());
    if high > MAX_WHOLE {
        return None;
    }
    let low: u64 = read_part(part, 0, part.len());
    let size: u64 = high * 1_000_000_000 + low;
    if negative {
        let positive: i64 = size as i64;
        Some(-positive)
    } else {
        Some(size as i64)
    }
}

/// Reads a real from the numeral `s`.
#[verifier::rlimit(60)]
pub fn parse_real(s: &Vec<u8>) -> (r: Option<i64>)
    ensures
        r == real_of(s@),
{
    let signed: bool = s.len() > 0 && (s[0] == 45 || s[0] == 43);
    let negative: bool = s.len() > 0 && s[0] == 45;
    let start: usize = if signed {
        1
    } else {
        0
    };
    let whole_end: usize = scan(s, start, Class::Digit);
    let pointed: bool = whole_end < s.len() && s[whole_end] == 46;
    let part_start: usize = if pointed {
        whole_end + 1
    } else {
        whole_end
    };
    let part_end: usize = scan(s, part_start, Class::Digit);
    let raised: bool = part_end < s.len() && (s[part_end] == 101 || s[part_end] == 69);
    let power_signed: bool = raised && part_end + 1 < s.len() && (s[part_end + 1] == 45 || s[part_end
        + 1] == 43);
    let lowered: bool = power_signed && s[part_end + 1] == 45;
    let power_start: usize = if !raised {
        part_end
    } else if power_signed {
        part_end + 2
    } else {
        part_end + 1
    };
    let power_end: usize = scan(s, power_start, Class::Digit);
    proof {
        lemma_span_bounds(s@, start as int, Class::Digit);
        lemma_span_bounds(s@, part_start as int, Class::Digit);
        lemma_span_bounds(s@, power_start as int, Class::Digit);
    }
    let first = copy_range(s, start, whole_end);
    let second = copy_range(s, part_start, part_end);
    let digits = join(&first, &second);
    if power_end != s.len() || digits.len() == 0 || (raised && power_end == power_start) {
        return None;
    }
    let power: u64 = read_whole(s, power_start, power_end);
    if power > MAX_EXPONENT {
        return None;
    }
    let before: usize = whole_end - start;
    assert(all_digits(digits@));
    let (whole, part) = shifted(&digits, before, power as usize, lowered);
    measure(&whole, &part, negative)
}

/// The three reals that `s` holds, if it holds exactly three numerals
/// separated by spaces.
pub open spec fn triple_of(s: Seq<u8>) -> Option<Triple> {
    let a0 = span_end(s, 0, Class::Space);
    let e0 = span_end(s, a0, Class::Word);
    let a1 = span_end(s, e0, Class::Space);
    let e1 = span_end(s, a1, Class::Word);
    let a2 = span_end(s, e1, Class::Space);
    let e2 = span_end(s, a2, Class::Word);
    let tail = span_end(s, e2, Class::Space);
    match (real_of(s.subrange(a0, e0)), real_of(s.subrange(a1, e1)), real_of(s.subrange(a2, e2))) {
        (Some(x), Some(y), Some(z)) => if tail == s.len() {
            Some(Triple { x, y, z })
        } else {
            None
        },
        _ => None,
    }
}

/// Reads three reals separated by spaces.
pub fn parse_triple(s: &Vec<u8>) -> (r: Option<Triple>)
    ensures
        r == triple_of(s@),
{
    let a0: usize = scan(s, 0, Class::Space);
    let e0: usize = scan(s, a0, Class::Word);
    let a1: usize = scan(s, e0, Class::Space);
    let e1: usize = scan(s, a1, Class::Word);
    let a2: usize = scan(s, e1, Class::Space);
    let e2: usize = scan(s, a2, Class::Word);
    let tail: usize = scan(s, e2, Class::Space);
    let x = parse_real(&copy_range(s, a0, e0));
    let y = parse_real(&copy_range(s, a1, e1));
    let z = parse_real(&copy_range(s, a2, e2));
    match (x, y, z) {
        (Some(x), Some(y), Some(z)) => if tail == s.len() {
            Some(Triple { x, y, z })
        } else {
            None
        },
        _ => None,
    }
}

} // verus!
