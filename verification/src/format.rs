//! Decimal rendering and parsing of unsigned integers, as used by the
//! serial console output and the shell's argument parsing.
use vstd::prelude::*;
use vstd::string::StringSliceAdditionalSpecFns;

verus! {

/// `b` is an ASCII decimal digit.
pub open spec fn is_digit(b: u8) -> bool {
    48 <= b <= 57
}

/// Every byte of `s` is an ASCII decimal digit.
pub open spec fn all_digits(s: Seq<u8>) -> bool {
    forall|i: int| 0 <= i < s.len() ==> #[trigger] is_digit(s[i])
}

/// The decimal representation of `n`: most significant digit first, no
/// leading zeros, and zero written as the single digit `0`.
pub open spec fn decimal_spec(n: nat) -> Seq<u8>
    decreases n,
{
    if n < 10 {
        seq![(48 + n) as u8]
    } else {
        decimal_spec(n / 10).push((48 + n % 10) as u8)
    }
}

/// The number that a string of ASCII digits denotes.
pub open spec fn digits_value(s: Seq<u8>) -> nat
    decreases s.len(),
{
    if s.len() == 0 {
        0
    } else {
        digits_value(s.drop_last()) * 10 + (s.last() - 48) as nat
    }
}

/// What `str::parse::<u32>` gives on an ASCII string: an optional leading
/// `+`, then at least one digit and nothing else, with a value that fits.
pub open spec fn parse_u32_spec(s: Seq<u8>) -> Option<u32> {
    let d = if s.len() > 0 && s[0] == 43 {
        s.drop_first()
    } else {
        s
    };
    if d.len() > 0 && all_digits(d) && digits_value(d) <= u32::MAX {
        Some(digits_value(d) as u32)
    } else {
        None
    }
}

/// The decimal representation of `n` is a non-empty string of digits, with
/// no sign, whose value is `n`; it has one digit more than that of `n / 10`.
pub proof fn lemma_decimal_digits(n: nat)
    ensures
        decimal_spec(n).len() >= 1,
        all_digits(decimal_spec(n)),
        digits_value(decimal_spec(n)) == n,
        decimal_spec(n)[0] != 43,
        n < 10 ==> decimal_spec(n).len() == 1,
        n >= 10 ==> decimal_spec(n).len() == decimal_spec(n / 10).len() + 1,
    decreases n,
{
    if n >= 10 {
        lemma_decimal_digits(n / 10);
        let s = decimal_spec(n);
        assert(s.drop_last() =~= decimal_spec(n / 10));
        assert(s.last() == (48 + n % 10) as u8);
        assert((s.last() - 48) as nat == n % 10);
        assert((n / 10) * 10 + n % 10 == n);
        assert(digits_value(s) == digits_value(s.drop_last()) * 10 + (s.last() - 48) as nat);
        assert forall|i: int| 0 <= i < s.len() implies #[trigger] is_digit(s[i]) by {
            if i < s.len() - 1 {
                assert(s[i] == decimal_spec(n / 10)[i]);
            }
        }
    } else {
        let s = decimal_spec(n);
        assert(s.drop_last() =~= Seq::<u8>::empty());
        assert(s.last() == (48 + n) as u8);
        assert(digits_value(Seq::<u8>::empty()) == 0);
        assert(digits_value(s) == digits_value(s.drop_last()) * 10 + (s.last() - 48) as nat);
    }
}

/// `10^k`.
pub open spec fn pow10(k: nat) -> nat
    decreases k,
{
    if k == 0 {
        1
    } else {
        10 * pow10((k - 1) as nat)
    }
}

/// The decimal representation of a number below `10^k` has at most `k` digits.
pub proof fn lemma_decimal_len_bound(n: nat, k: nat)
    requires
        k >= 1,
        n < pow10(k),
    ensures
        decimal_spec(n).len() <= k,
    decreases k,
{
    lemma_decimal_digits(n);
    if n >= 10 {
        if k == 1 {
            assert(pow10(0) == 1);
        } else {
            let q = pow10((k - 1) as nat);
            assert(n / 10 < q);
            lemma_decimal_len_bound(n / 10, (k - 1) as nat);
        }
    }
}

/// A `u64` has at most 20 decimal digits.
pub proof fn lemma_decimal_len_u64(n: u64)
    ensures
        decimal_spec(n as nat).len() <= 20,
{
    reveal_with_fuel(pow10, 21);
    assert(pow10(20) == 100000000000000000000nat);
    lemma_decimal_len_bound(n as nat, 20);
}

/// A `u32` has at most 10 decimal digits.
pub proof fn lemma_decimal_len_u32(n: u32)
    ensures
        decimal_spec(n as nat).len() <= 10,
{
    reveal_with_fuel(pow10, 11);
    assert(pow10(10) == 10000000000nat);
    lemma_decimal_len_bound(n as nat, 10);
}

/// The decimal digits of `n`.
pub fn decimal(n: u64) -> (out: Vec<u8>)
    ensures
        out@ == decimal_spec(n as nat),
    decreases n,
{
    if n < 10 {
        let mut v: Vec<u8> = Vec::new();
        v.push(48u8 + (n as u8));
        v
    } else {
        let mut v = decimal(n / 10);
        v.push(48u8 + ((n % 10) as u8));
        v
    }
}

/// Appends the decimal digits of `n` to `out`.
pub fn push_decimal(out: &mut Vec<u8>, n: u64)
    ensures
        final(out)@ == old(out)@ + decimal_spec(n as nat),
{
    let d = decimal(n);
    push_bytes(out, &d);
}

/// Appends the bytes of `text` to `out`.
pub fn push_str(out: &mut Vec<u8>, text: &str)
    ensures
        final(out)@ == old(out)@ + text.spec_bytes(),
{
    push_bytes(out, text.as_bytes());
}

/// Appends every byte of `bytes` to `out`.
pub fn push_bytes(out: &mut Vec<u8>, bytes: &[u8])
    ensures
        final(out)@ == old(out)@ + bytes@,
{
    let mut i: usize = 0;
    while i < bytes.len()
        invariant
            i <= bytes.len(),
            out@ == old(out)@ + bytes@.take(i as int),
        decreases bytes.len() - i,
    {
        out.push(bytes[i]);
        i = i + 1;
        assert(out@ =~= old(out)@ + bytes@.take(i as int));
    }
    assert(bytes@.take(i as int) =~= bytes@);
}

/// Writes the decimal digits of `n` at the start of `out` and returns how
/// many bytes were written; the rest of `out` is left as it was.
pub fn format_u32(n: u32, out: &mut [u8]) -> (len: usize)
    requires
        decimal_spec(n as nat).len() <= old(out)@.len(),
    ensures
        len == decimal_spec(n as nat).len(),
        final(out)@.len() == old(out)@.len(),
        final(out)@.take(len as int) == decimal_spec(n as nat),
        final(out)@.skip(len as int) == old(out)@.skip(len as int),
{
    let d = decimal(n as u64);
    copy_prefix(&d, out);
    d.len()
}

/// Writes the decimal digits of `n` at the start of `out` and returns how
/// many bytes were written; the rest of `out` is left as it was.
pub fn format_u64(n: u64, out: &mut [u8]) -> (len: usize)
    requires
        decimal_spec(n as nat).len() <= old(out)@.len(),
    ensures
        len == decimal_spec(n as nat).len(),
        final(out)@.len() == old(out)@.len(),
        final(out)@.take(len as int) == decimal_spec(n as nat),
        final(out)@.skip(len as int) == old(out)@.skip(len as int),
{
    let d = decimal(n);
    copy_prefix(&d, out);
    d.len()
}

fn copy_prefix(src: &Vec<u8>, out: &mut [u8])
    requires
        src@.len() <= old(out)@.len(),
    ensures
        final(out)@.len() == old(out)@.len(),
        final(out)@.take(src@.len() as int) == src@,
        final(out)@.skip(src@.len() as int) == old(out)@.skip(src@.len() as int),
{
    let mut i: usize = 0;
    while i < src.len()
        invariant
            i <= src@.len() <= out@.len(),
            out@.len() == old(out)@.len(),
            forall|j: int| 0 <= j < i ==> out@[j] == src@[j],
            forall|j: int| i <= j < out@.len() ==> out@[j] == old(out)@[j],
        decreases src@.len() - i,
    {
        out[i] = src[i];
        i = i + 1;
    }
    assert(out@.take(src@.len() as int) =~= src@);
    assert(out@.skip(src@.len() as int) =~= old(out)@.skip(src@.len() as int));
}

proof fn lemma_digits_value_push(s: Seq<u8>, b: u8)
    ensures
        digits_value(s.push(b)) == digits_value(s) * 10 + (b - 48) as nat,
{
    assert(s.push(b).drop_last() =~= s);
}

/// Parses an unsigned 32-bit decimal number the way `str::parse::<u32>`
/// does on ASCII input: an optional `+`, then digits only; `None` on an
/// empty digit string, on any other byte, or on overflow.
pub fn parse_u32(s: &[u8]) -> (r: Option<u32>)
    ensures
        r == parse_u32_spec(s@),
{
    let start: usize = if s.len() > 0 && s[0] == 43u8 {
        1
    } else {
        0
    };
    let ghost d = if s@.len() > 0 && s@[0] == 43 {
        s@.drop_first()
    } else {
        s@
    };
    assert(d =~= s@.skip(start as int));
    if start == s.len() {
        return None;
    }
    let mut acc: u64 = 0;
    let mut i: usize = start;
    while i < s.len()
        invariant
            start <= i <= s@.len(),
            d == s@.skip(start as int),
            d == (if s@.len() > 0 && s@[0] == 43 {
                s@.drop_first()
            } else {
                s@
            }),
            d.len() > 0,
            all_digits(d.take(i - start)),
            acc as nat == digits_value(d.take(i - start)),
            acc <= u32::MAX,
        decreases s@.len() - i,
    {
        let b = s[i];
        if b < 48u8 || b > 57u8 {
            assert(d[i - start] == b);
            assert(!is_digit(d[i - start]));
            assert(!all_digits(d));
            assert(parse_u32_spec(s@) == None::<u32>);
            return None;
        }
        proof {
            assert(d.take(i - start + 1) =~= d.take(i - start).push(b));
            lemma_digits_value_push(d.take(i - start), b);
        }
        acc = acc * 10 + (b - 48u8) as u64;
        i = i + 1;
        if acc > 0xffff_ffffu64 {
            proof {
                lemma_digits_value_prefix(d, (i - start) as nat);
            }
            return None;
        }
    }
    assert(d.take(i - start) =~= d);
    Some(acc as u32)
}

/// Extending a digit string never decreases its value.
proof fn lemma_digits_value_prefix(s: Seq<u8>, k: nat)
    requires
        k <= s.len(),
        all_digits(s.take(k as int)),
    ensures
        all_digits(s) ==> digits_value(s) >= digits_value(s.take(k as int)),
    decreases s.len() - k,
{
    if k < s.len() && all_digits(s) {
        let t = s.take(k as int);
        let t1 = s.take(k + 1 as int);
        assert(t1.drop_last() =~= t);
        assert(is_digit(s[k as int]));
        assert(all_digits(t1));
        lemma_digits_value_prefix(s, k + 1);
    }
    if k == s.len() {
        assert(s.take(k as int) =~= s);
    }
}

/// Reading back what `decimal` writes gives the number again.
pub proof fn lemma_parse_decimal_roundtrip(n: u32)
    ensures
        parse_u32_spec(decimal_spec(n as nat)) == Some(n),
{
    lemma_decimal_digits(n as nat);
}

/// The lower-case hex digit for `d` (below 16).
pub open spec fn hex_char(d: u64) -> u8 {
    if d < 10 {
        (48 + d) as u8
    } else {
        (87 + d) as u8
    }
}

/// Hex digit `i` of `n` counted from the most significant of sixteen.
pub open spec fn hex_digit(n: u64, i: int) -> u64 {
    (n >> ((60 - 4 * i) as u64)) & 15
}

/// `n` written as `0x` and sixteen lower-case hex digits, most significant
/// first (the `{:#018x}` format).
pub open spec fn hex18_spec(n: u64) -> Seq<u8> {
    "0x".spec_bytes() + Seq::new(16, |i: int| hex_char(hex_digit(n, i)))
}

/// Appends `n` as `0x` and sixteen hex digits.
pub fn push_hex18(out: &mut Vec<u8>, n: u64)
    ensures
        final(out)@ == old(out)@ + hex18_spec(n),
{
    push_str(out, "0x");
    let ghost start = out@;
    let mut i: u64 = 0;
    while i < 16
        invariant
            i <= 16,
            start == old(out)@ + "0x".spec_bytes(),
            out@ == start + Seq::new(i as nat, |j: int| hex_char(hex_digit(n, j))),
        decreases 16 - i,
    {
        let shift: u64 = 60 - 4 * i;
        let d: u64 = (n >> shift) & 15;
        assert(d < 16) by (bit_vector)
            requires
                d == (n >> shift) & 15,
        ;
        let c: u8 = if d < 10 {
            48 + d as u8
        } else {
            87 + d as u8
        };
        out.push(c);
        proof {
            assert(hex_digit(n, i as int) == d);
            assert(out@ =~= start + Seq::new((i + 1) as nat, |j: int| hex_char(hex_digit(n, j))));
        }
        i = i + 1;
    }
    proof {
        assert(out@ =~= old(out)@ + hex18_spec(n));
    }
}

} // verus!
