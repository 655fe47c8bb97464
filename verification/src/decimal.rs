//! Decimal text for integers: the digits that the wire protocol and the
//! store use, and the parsers that read them back.
use vstd::prelude::*;

verus! {

/// The ASCII byte of the decimal digit `d`.
pub open spec fn digit_byte(d: int) -> u8 {
    (d + 48) as u8
}

/// Whether `b` is an ASCII decimal digit.
pub open spec fn is_digit(b: u8) -> bool {
    48 <= b <= 57
}

/// Whether every byte of `s` is an ASCII decimal digit.
pub open spec fn all_digits(s: Seq<u8>) -> bool {
    forall|i: int| 0 <= i < s.len() ==> is_digit(#[trigger] s[i])
}

/// Digits with no superfluous leading zero: the only way `nat_digits` writes a number.
pub open spec fn canonical_digits(s: Seq<u8>) -> bool {
    &&& s.len() >= 1
    &&& all_digits(s)
    &&& (s.len() == 1 || s[0] != 48)
}

/// The value of a string of decimal digits, most significant first.
pub open spec fn digits_value(s: Seq<u8>) -> nat
    decreases s.len(),
{
    if s.len() == 0 {
        0
    } else {
        digits_value(s.drop_last()) * 10 + (s.last() - 48) as nat
    }
}

/// The decimal digits of `n`, most significant first, without leading zeros.
pub open spec fn nat_digits(n: nat) -> Seq<u8>
    decreases n,
{
    if n < 10 {
        seq![digit_byte(n as int)]
    } else {
        nat_digits(n / 10).push(digit_byte((n % 10) as int))
    }
}

/// The decimal text of `n`: a minus sign for negative numbers, then the digits.
pub open spec fn decimal(n: int) -> Seq<u8> {
    if n < 0 {
        seq![45u8] + nat_digits((-n) as nat)
    } else {
        nat_digits(n as nat)
    }
}

/// The `i64` whose decimal text is exactly `line`, if there is one.
pub open spec fn decimal_i64_of(line: Seq<u8>) -> Option<i64> {
    if exists|n: i64| decimal(n as int) == line {
        Some(choose|n: i64| decimal(n as int) == line)
    } else {
        None
    }
}

/// What `str::parse::<u64>` gives for the text whose bytes are `s`: an optional
/// `+`, then at least one digit, with a value that fits.
pub open spec fn std_u64_of(s: Seq<u8>) -> Option<u64> {
    let d = if s.len() > 0 && s[0] == 43 { s.skip(1) } else { s };
    if d.len() > 0 && all_digits(d) && digits_value(d) <= u64::MAX {
        Some(digits_value(d) as u64)
    } else {
        None
    }
}

/// What `str::parse::<i64>` gives for the text whose bytes are `s`: an optional
/// `+` or `-`, then at least one digit, with a value that fits.
pub open spec fn std_i64_of(s: Seq<u8>) -> Option<i64> {
    let signed = s.len() > 0 && (s[0] == 43 || s[0] == 45);
    let negative = s.len() > 0 && s[0] == 45;
    let d = if signed { s.skip(1) } else { s };
    if d.len() > 0 && all_digits(d) {
        if negative {
            if digits_value(d) <= 0x8000_0000_0000_0000 {
                Some((-(digits_value(d) as int)) as i64)
            } else {
                None
            }
        } else if digits_value(d) <= i64::MAX {
            Some(digits_value(d) as i64)
        } else {
            None
        }
    } else {
        None
    }
}

proof fn lemma_div_mod_10(n: nat)
    ensures
        n == (n / 10) * 10 + n % 10,
        n % 10 < 10,
        n >= 10 ==> n / 10 >= 1,
        n >= 10 ==> n / 10 < n,
{
}

/// The digits of `n` are canonical, start with a zero only for zero, and read back as `n`.
pub proof fn lemma_nat_digits(n: nat)
    ensures
        canonical_digits(nat_digits(n)),
        (nat_digits(n)[0] == 48) == (n == 0),
        digits_value(nat_digits(n)) == n,
        nat_digits(n).len() >= 1,
    decreases n,
{
    lemma_div_mod_10(n);
    if n < 10 {
        let s = nat_digits(n);
        assert(s.drop_last() =~= Seq::<u8>::empty());
        assert(s.last() == digit_byte(n as int));
        assert(digit_byte(n as int) - 48 == n);
        assert(digits_value(s.drop_last()) == 0);
        assert(digits_value(s) == digits_value(s.drop_last()) * 10 + (s.last() - 48) as nat);
    } else {
        lemma_nat_digits(n / 10);
        let p = nat_digits(n / 10);
        let s = nat_digits(n);
        assert(s.drop_last() =~= p);
        assert(s[0] == p[0]);
        assert(s.last() == digit_byte((n % 10) as int));
        assert(digit_byte((n % 10) as int) - 48 == n % 10);
        assert(digits_value(s) == digits_value(p) * 10 + n % 10);
    }
}

/// Canonical digits are exactly the digits of their value.
pub proof fn lemma_canonical_digits(s: Seq<u8>)
    requires
        canonical_digits(s),
    ensures
        nat_digits(digits_value(s)) == s,
    decreases s.len(),
{
    if s.len() == 1 {
        assert(s.drop_last() =~= Seq::<u8>::empty());
        assert(digits_value(s.drop_last()) == 0);
        assert(is_digit(s[0]));
        assert(digits_value(s) == (s[0] - 48) as nat);
        assert(digit_byte(digits_value(s) as int) == s[0]);
        assert(nat_digits(digits_value(s)) =~= s);
    } else {
        let p = s.drop_last();
        assert(p[0] == s[0]);
        assert(canonical_digits(p));
        lemma_canonical_digits(p);
        lemma_nat_digits(digits_value(p));
        let v = digits_value(s);
        let d = (s.last() - 48) as nat;
        assert(v == digits_value(p) * 10 + d);
        assert(digits_value(p) >= 1);
        assert(v / 10 == digits_value(p) && v % 10 == d) by (nonlinear_arith)
            requires
                v == digits_value(p) * 10 + d,
                d < 10,
        ;
        assert(nat_digits(v) =~= s);
    }
}

/// The shape of `decimal(n)`: a sign byte exactly for negative numbers, then canonical digits.
pub proof fn lemma_decimal_shape(n: int)
    ensures
        decimal(n).len() >= 1,
        n < 0 ==> decimal(n)[0] == 45 && decimal(n).skip(1) == nat_digits((-n) as nat),
        n >= 0 ==> decimal(n) == nat_digits(n as nat),
        n >= 0 ==> decimal(n)[0] != 45,
        n < 0 ==> decimal(n).skip(1).len() >= 1,
{
    if n < 0 {
        lemma_nat_digits((-n) as nat);
        assert(decimal(n).skip(1) =~= nat_digits((-n) as nat));
    } else {
        lemma_nat_digits(n as nat);
    }
}

/// Two numbers with the same decimal text are equal.
pub proof fn lemma_decimal_injective(a: int, b: int)
    requires
        decimal(a) == decimal(b),
    ensures
        a == b,
{
    lemma_decimal_shape(a);
    lemma_decimal_shape(b);
    if a < 0 {
        lemma_nat_digits((-a) as nat);
        lemma_nat_digits((-b) as nat);
    } else {
        lemma_nat_digits(a as nat);
        lemma_nat_digits(b as nat);
    }
}

/// The decimal text of an `i64` reads back as that `i64`.
pub proof fn lemma_decimal_i64_roundtrip(n: i64)
    ensures
        decimal_i64_of(decimal(n as int)) == Some(n),
{
    let line = decimal(n as int);
    assert(exists|m: i64| decimal(m as int) == line);
    let m = choose|m: i64| decimal(m as int) == line;
    lemma_decimal_injective(m as int, n as int);
}

proof fn lemma_digits_value_prefix_le(s: Seq<u8>, i: int)
    requires
        0 <= i <= s.len(),
        all_digits(s),
    ensures
        digits_value(s.take(i)) <= digits_value(s),
    decreases s.len() - i,
{
    if i < s.len() {
        lemma_digits_value_prefix_le(s, i + 1);
        assert(s.take(i + 1).drop_last() =~= s.take(i));
        assert(is_digit(s[i]));
        assert(s.take(i + 1).last() == s[i]);
        assert(digits_value(s.take(i + 1)) == digits_value(s.take(i)) * 10 + (s[i] - 48) as nat);
    } else {
        assert(s.take(i) =~= s);
    }
}

/// Reads the digits `s[start..]` as a number, when they are all digits and the
/// number is at most `bound`.
fn digits_up_to(s: &[u8], start: usize, bound: u128) -> (r: Option<u128>)
    requires
        start <= s@.len(),
        bound <= u64::MAX as u128 + 1,
    ensures
        r == (if all_digits(s@.skip(start as int)) && digits_value(s@.skip(start as int)) <= bound {
            Some(digits_value(s@.skip(start as int)) as u128)
        } else {
            None
        }),
{
    let ghost d = s@.skip(start as int);
    let mut acc: u128 = 0;
    let mut i: usize = start;
    while i < s.len()
        invariant
            start <= i <= s@.len(),
            d == s@.skip(start as int),
            bound <= u64::MAX as u128 + 1,
            all_digits(d.take(i - start)),
            acc == digits_value(d.take(i - start)),
            acc <= bound,
        decreases s.len() - i,
    {
        let b = s[i];
        if b < 48 || b > 57 {
            assert(d[i - start] == b);
            return None;
        }
        assert(d.take(i + 1 - start).drop_last() =~= d.take(i - start));
        let next = acc * 10 + (b - 48) as u128;
        i = i + 1;
        if next > bound {
            proof {
                assert(all_digits(d.take(i - start)));
                if all_digits(d) {
                    lemma_digits_value_prefix_le(d, i - start);
                }
            }
            return None;
        }
        acc = next;
    }
    assert(d.take(i - start) =~= d);
    Some(acc)
}

/// Reads a protocol integer: exactly the decimal text of an `i64`, as `decimal` writes it.
pub fn parse_decimal_i64(line: &[u8]) -> (r: Option<i64>)
    ensures
        r == decimal_i64_of(line@),
{
    if line.len() == 0 {
        proof {
            if exists|n: i64| decimal(n as int) == line@ {
                let n = choose|n: i64| decimal(n as int) == line@;
                lemma_decimal_shape(n as int);
            }
        }
        return None;
    }
    let negative = line[0] == 45;
    let start: usize = if negative { 1 } else { 0 };
    let bound: u128 = if negative { 0x8000_0000_0000_0000 } else { 0x7fff_ffff_ffff_ffff };
    let ghost d = line@.skip(start as int);
    let value = digits_up_to(line, start, bound);
    let ok = match value {
        Some(v) => start < line.len() && (line.len() - start == 1 || line[start] != 48) && !(negative && v == 0),
        None => false,
    };
    if ok {
        let v = value.unwrap();
        let n: i64 = if negative { (0 - (v as i128)) as i64 } else { v as i64 };
        proof {
            assert(canonical_digits(d));
            lemma_canonical_digits(d);
            if negative {
                assert(line@ =~= seq![45u8] + d);
            } else {
                assert(line@ =~= d);
            }
            assert(decimal(n as int) == line@);
            lemma_decimal_i64_roundtrip(n);
        }
        Some(n)
    } else {
        proof {
            if exists|n: i64| decimal(n as int) == line@ {
                let n = choose|n: i64| decimal(n as int) == line@;
                lemma_decimal_shape(n as int);
                if n < 0 {
                    lemma_nat_digits((-n) as nat);
                    assert(d == nat_digits((-n) as nat));
                } else {
                    lemma_nat_digits(n as nat);
                    assert(d == nat_digits(n as nat));
                    assert(d =~= line@);
                }
                assert(false);
            }
        }
        None
    }
}

/// Reads an unsigned number the way `str::parse::<u64>` does: an optional `+`,
/// then decimal digits.
pub fn parse_u64(s: &[u8]) -> (r: Option<u64>)
    ensures
        r == std_u64_of(s@),
{
    let start: usize = if s.len() > 0 && s[0] == 43 { 1 } else { 0 };
    if start == s.len() {
        return None;
    }
    assert(start == 0 ==> s@.skip(0) =~= s@);
    match digits_up_to(s, start, 0xffff_ffff_ffff_ffff) {
        Some(v) => Some(v as u64),
        None => None,
    }
}

/// Reads a signed number the way `str::parse::<i64>` does: an optional `+` or
/// `-`, then decimal digits.
pub fn parse_i64(s: &[u8]) -> (r: Option<i64>)
    ensures
        r == std_i64_of(s@),
{
    let signed = s.len() > 0 && (s[0] == 43 || s[0] == 45);
    let negative = s.len() > 0 && s[0] == 45;
    let start: usize = if signed { 1 } else { 0 };
    if start == s.len() {
        return None;
    }
    let bound: u128 = if negative { 0x8000_0000_0000_0000 } else { 0x7fff_ffff_ffff_ffff };
    assert(start == 0 ==> s@.skip(0) =~= s@);
    match digits_up_to(s, start, bound) {
        Some(v) => {
            if negative {
                Some((0 - (v as i128)) as i64)
            } else {
                Some(v as i64)
            }
        },
        None => None,
    }
}

/// Formats `n` in decimal into a fresh byte vector, through `itoa::Buffer::format`.
#[verifier::external_body]
pub(crate) fn format_decimal(n: i128) -> (digits: Vec<u8>)
    ensures
        digits@ == decimal(n as int),
{
    itoa::Buffer::new().format(n).as_bytes().to_vec()
}

} // verus!
