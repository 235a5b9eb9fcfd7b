//! Decimal numbers as text: the digits of a number, and what `str::parse`
//! accepts for the integer types.
use vstd::prelude::*;

verus! {

/// A decimal digit, `0` to `9`.
pub open spec fn is_digit(b: u8) -> bool {
    48 <= b <= 57
}

/// The value of a sequence of decimal digits.
pub open spec fn digits_value(s: Seq<u8>) -> nat
    decreases s.len(),
{
    if s.len() == 0 {
        0
    } else {
        digits_value(s.drop_last()) * 10 + (s.last() - 48) as nat
    }
}

/// A number's text without its optional leading `+`.
pub open spec fn unsigned_digits(s: Seq<u8>) -> Seq<u8> {
    if s.len() > 0 && s[0] == 43 {
        s.drop_first()
    } else {
        s
    }
}

/// A sequence of digits is worth at least each of its prefixes.
pub proof fn lemma_digits_value_prefix(s: Seq<u8>, i: int)
    requires
        0 <= i <= s.len(),
    ensures
        digits_value(s) >= digits_value(s.take(i)),
    decreases s.len(),
{
    if i < s.len() {
        lemma_digits_value_prefix(s.drop_last(), i);
        assert(s.drop_last().take(i) =~= s.take(i));
    } else {
        assert(s.take(i) =~= s);
    }
}

/// The decimal digits of `n`, most significant first, without leading
/// zeros (`0` is one digit).
pub open spec fn decimal(n: nat) -> Seq<u8>
    decreases n,
{
    if n < 10 {
        seq![(48 + n) as u8]
    } else {
        decimal(n / 10) + seq![(48 + n % 10) as u8]
    }
}

/// Bounds on the number of digits of `n`.
pub proof fn lemma_decimal_len(n: nat)
    ensures
        decimal(n).len() >= 1,
        n < 10 ==> decimal(n).len() == 1,
        10 <= n < 100 ==> decimal(n).len() == 2,
        100 <= n < 1000 ==> decimal(n).len() == 3,
        n >= 1000 ==> decimal(n).len() >= 4,
    decreases n,
{
    if n >= 10 {
        lemma_decimal_len(n / 10);
    }
}

/// `10` to the power `k`.
pub open spec fn pow10(k: nat) -> nat
    decreases k,
{
    if k == 0 {
        1
    } else {
        10 * pow10((k - 1) as nat)
    }
}

proof fn lemma_decimal_below_pow10(n: nat, k: nat)
    requires
        k >= 1,
        n < pow10(k),
    ensures
        decimal(n).len() <= k,
    decreases k,
{
    if n >= 10 {
        if k == 1 {
            reveal_with_fuel(pow10, 2);
        } else {
            lemma_decimal_below_pow10(n / 10, (k - 1) as nat);
        }
    }
}

/// A 64-bit number has at most twenty decimal digits.
pub proof fn lemma_decimal_u64(n: u64)
    ensures
        decimal(n as nat).len() <= 20,
{
    assert(pow10(20) == 100000000000000000000nat) by {
        reveal_with_fuel(pow10, 21);
    }
    lemma_decimal_below_pow10(n as nat, 20);
}

/// The number of decimal digits of `n`.
pub fn digit_count(n: u64) -> (r: usize)
    ensures
        r == decimal(n as nat).len(),
{
    if n == 0 {
        return 1;
    }
    proof {
        lemma_decimal_u64(n);
    }
    let mut count: usize = 0;
    let mut m = n;
    while m > 0
        invariant
            m > 0 ==> count + decimal(m as nat).len() == decimal(n as nat).len(),
            m == 0 ==> count == decimal(n as nat).len(),
            count <= 20,
            m > 0 ==> count + decimal(m as nat).len() <= 20,
        decreases m,
    {
        proof {
            lemma_decimal_u64(n);
        }
        proof {
            lemma_decimal_len(m as nat);
            lemma_decimal_len((m / 10) as nat);
        }
        count += 1;
        m = m / 10;
    }
    count
}

/// Writes the decimal digits of `val` into `dst` at `pos`; returns their
/// count.
pub fn copy_decimal(dst: &mut [u8], pos: usize, val: u64) -> (n: usize)
    requires
        pos + decimal(val as nat).len() <= old(dst).len(),
    ensures
        n == decimal(val as nat).len(),
        final(dst)@ == old(dst)@.take(pos as int) + decimal(val as nat) + old(dst)@.skip(pos + n),
{
    let n = digit_count(val);
    let mut v = val;
    let mut q = pos + n;
    proof {
        lemma_decimal_len(val as nat);
        assert(dst@.subrange(q as int, (pos + n) as int) =~= Seq::<u8>::empty());
        assert(decimal(val as nat) =~= decimal(val as nat) + Seq::<u8>::empty());
    }
    loop
        invariant
            n == decimal(val as nat).len(),
            pos + n <= dst.len(),
            dst@.len() == old(dst)@.len(),
            q == pos + decimal(v as nat).len(),
            decimal(val as nat) == decimal(v as nat) + dst@.subrange(q as int, (pos + n) as int),
            dst@.take(q as int) == old(dst)@.take(q as int),
            dst@.skip((pos + n) as int) == old(dst)@.skip((pos + n) as int),
        decreases v,
    {
        proof {
            lemma_decimal_len(v as nat);
        }
        let ghost before = dst@;
        let d = (v % 10) as u8;
        dst[q - 1] = 48 + d;
        assert(dst@.subrange(q - 1, (pos + n) as int) =~= seq![(48 + d) as u8] + before.subrange(
            q as int,
            (pos + n) as int,
        ));
        assert(dst@.take(q - 1) =~= before.take(q - 1));
        assert(dst@.skip((pos + n) as int) =~= before.skip((pos + n) as int));
        if v < 10 {
            proof {
                assert(decimal(val as nat) =~= dst@.subrange(pos as int, (pos + n) as int));
                assert(dst@ =~= old(dst)@.take(pos as int) + decimal(val as nat) + old(dst)@.skip(
                    pos + n,
                ));
            }
            return n;
        }
        proof {
            assert(decimal(v as nat) == decimal((v / 10) as nat) + seq![(48 + v % 10) as u8]);
            assert(decimal(val as nat) =~= decimal((v / 10) as nat) + dst@.subrange(
                q - 1,
                (pos + n) as int,
            ));
            assert(old(dst)@.take(q - 1) =~= old(dst)@.take(q as int).take(q - 1));
            assert(before.take(q - 1) =~= before.take(q as int).take(q - 1));
        }
        v = v / 10;
        q = q - 1;
    }
}

/// Every byte is a decimal digit.
pub open spec fn all_digits(s: Seq<u8>) -> bool {
    forall|i: int| 0 <= i < s.len() ==> #[trigger] is_digit(s[i])
}

/// What `str::parse` accepts for an unsigned integer type, before the
/// range check: an optional `+`, then one or more decimal digits.
pub open spec fn unsigned_value(s: Seq<u8>) -> Option<nat> {
    let d = unsigned_digits(s);
    if d.len() > 0 && all_digits(d) {
        Some(digits_value(d))
    } else {
        None
    }
}

/// What `str::parse` accepts for a signed integer type, before the range
/// check: `-` and one or more digits, or what an unsigned type accepts.
pub open spec fn signed_value(s: Seq<u8>) -> Option<int> {
    if s.len() > 1 && s[0] == 45 {
        if all_digits(s.drop_first()) {
            Some(-(digits_value(s.drop_first()) as int))
        } else {
            None
        }
    } else {
        match unsigned_value(s) {
            Some(v) => Some(v as int),
            None => None,
        }
    }
}

/// The text of a signed number: `-` before the digits of a negative one.
pub open spec fn signed_decimal(v: int) -> Seq<u8> {
    if v < 0 {
        seq![45u8] + decimal((-v) as nat)
    } else {
        decimal(v as nat)
    }
}

/// The digits of a number are digits and are worth the number.
pub proof fn lemma_decimal_digits(n: nat)
    ensures
        decimal(n).len() >= 1,
        all_digits(decimal(n)),
        digits_value(decimal(n)) == n,
    decreases n,
{
    let d = decimal(n);
    if n >= 10 {
        lemma_decimal_digits(n / 10);
        assert(d.drop_last() =~= decimal(n / 10));
        assert(d.last() == (48 + n % 10) as u8);
        assert(digits_value(d) == digits_value(d.drop_last()) * 10 + (d.last() - 48) as nat);
        assert((n / 10) * 10 + n % 10 == n);
        assert forall|i: int| 0 <= i < d.len() implies #[trigger] is_digit(d[i]) by {
            if i < d.len() - 1 {
                assert(d[i] == decimal(n / 10)[i]);
            }
        }
    } else {
        assert(d.drop_last() =~= Seq::<u8>::empty());
        assert(digits_value(Seq::<u8>::empty()) == 0);
        assert(digits_value(d) == digits_value(d.drop_last()) * 10 + (d.last() - 48) as nat);
    }
}

/// Parsing the digits of a number as an unsigned integer gives it back.
pub proof fn lemma_unsigned_value_decimal(n: nat)
    ensures
        unsigned_value(decimal(n)) == Some(n),
{
    lemma_decimal_digits(n);
    assert(is_digit(decimal(n)[0]));
}

/// Parsing the text of a signed number as a signed integer gives it back.
pub proof fn lemma_signed_value_decimal(v: int)
    ensures
        signed_value(signed_decimal(v)) == Some(v),
{
    if v < 0 {
        let m = (-v) as nat;
        lemma_decimal_digits(m);
        let t = seq![45u8] + decimal(m);
        assert(t.drop_first() =~= decimal(m));
    } else {
        lemma_unsigned_value_decimal(v as nat);
        lemma_decimal_digits(v as nat);
        assert(is_digit(decimal(v as nat)[0]));
    }
}

/// Writes the text of `v` into `dst` at `pos` as `Display` writes it: `-`
/// before the digits of a negative number; returns its length.
pub fn copy_signed(dst: &mut [u8], pos: usize, v: i64) -> (n: usize)
    requires
        pos + signed_decimal(v as int).len() <= old(dst).len(),
    ensures
        n == signed_decimal(v as int).len(),
        final(dst)@ == old(dst)@.take(pos as int) + signed_decimal(v as int) + old(dst)@.skip(
            pos + n,
        ),
{
    if v < 0 {
        let m: u64 = if v == i64::MIN {
            0x8000_0000_0000_0000u64
        } else {
            (-v) as u64
        };
        assert(m as int == -(v as int));
        let ghost before = dst@;
        dst[pos] = 45u8;
        let k = copy_decimal(dst, pos + 1, m);
        proof {
            let t = signed_decimal(v as int);
            assert(t == seq![45u8] + decimal(m as nat));
            assert(before.update(pos as int, 45u8).take(pos + 1) =~= old(dst)@.take(pos as int)
                + seq![45u8]);
            assert(before.update(pos as int, 45u8).skip(pos + 1 + k) =~= old(dst)@.skip(pos + 1 + k));
            assert(dst@ =~= old(dst)@.take(pos as int) + t + old(dst)@.skip(pos + 1 + k));
        }
        k + 1
    } else {
        copy_decimal(dst, pos, v as u64)
    }
}

/// Reads one or more decimal digits worth at most `max`.
fn digits_at_most(d: &[u8], max: u64) -> (r: Option<u64>)
    ensures
        match r {
            Some(v) => d@.len() > 0 && all_digits(d@) && digits_value(d@) == v && v <= max,
            None => !(d@.len() > 0 && all_digits(d@) && digits_value(d@) <= max),
        },
{
    if d.len() == 0 {
        return None;
    }
    let mut v: u64 = 0;
    let mut i: usize = 0;
    assert(d@.take(0) =~= Seq::<u8>::empty());
    while i < d.len()
        invariant
            i <= d@.len(),
            v == digits_value(d@.take(i as int)),
            v <= max,
            forall|j: int| 0 <= j < i ==> #[trigger] is_digit(d@[j]),
        decreases d@.len() - i,
    {
        let c = d[i];
        if c < 48u8 || c > 57u8 {
            assert(!is_digit(d@[i as int]));
            return None;
        }
        let dig: u64 = (c - 48u8) as u64;
        assert(d@.take(i + 1).drop_last() =~= d@.take(i as int));
        assert(d@.take(i + 1).last() == c);
        assert(digits_value(d@.take(i + 1)) == v * 10 + dig);
        if dig > max || v > (max - dig) / 10 {
            proof {
                if dig <= max {
                    let q = (max - dig) / 10;
                    assert(v * 10 + dig > max) by (nonlinear_arith)
                        requires
                            v > q,
                            q == (max - dig) / 10,
                            dig <= max,
                    ;
                }
                lemma_digits_value_prefix(d@, i + 1);
            }
            return None;
        }
        proof {
            let q = (max - dig) / 10;
            assert(v * 10 + dig <= max) by (nonlinear_arith)
                requires
                    v <= q,
                    q == (max - dig) / 10,
                    dig <= max,
            ;
        }
        v = v * 10 + dig;
        i += 1;
    }
    assert(d@.take(i as int) =~= d@);
    Some(v)
}

/// Parses `text` as `str::parse` does for an unsigned integer type whose
/// largest value is `max`.
pub fn parse_unsigned(text: &[u8], max: u64) -> (r: Option<u64>)
    ensures
        match r {
            Some(v) => unsigned_value(text@) == Some(v as nat) && v <= max,
            None => !(unsigned_value(text@) matches Some(v) && v <= max),
        },
{
    let start: usize = if text.len() > 0 && text[0] == 43u8 {
        1
    } else {
        0
    };
    let d = &text[start..text.len()];
    assert(d@ =~= unsigned_digits(text@));
    digits_at_most(d, max)
}

/// Parses `text` as `str::parse` does for a signed integer type, keeping
/// values from `min` to `max`.
pub fn parse_signed(text: &[u8], min: i64, max: i64) -> (r: Option<i64>)
    ensures
        match r {
            Some(v) => signed_value(text@) == Some(v as int) && min <= v <= max,
            None => !(signed_value(text@) matches Some(v) && min <= v <= max),
        },
{
    if text.len() > 1 && text[0] == 45u8 {
        let d = &text[1..text.len()];
        assert(d@ =~= text@.drop_first());
        let m = match digits_at_most(d, 0x8000_0000_0000_0000u64) {
            Some(m) => m,
            None => return None,
        };
        let v: i64 = if m == 0x8000_0000_0000_0000u64 {
            i64::MIN
        } else {
            -(m as i64)
        };
        assert(v as int == -(m as int));
        if min <= v && v <= max {
            Some(v)
        } else {
            None
        }
    } else {
        let m = match parse_unsigned(text, 0x7fff_ffff_ffff_ffffu64) {
            Some(m) => m,
            None => return None,
        };
        let v = m as i64;
        if min <= v && v <= max {
            Some(v)
        } else {
            None
        }
    }
}

} // verus!
