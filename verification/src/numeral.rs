use vstd::prelude::*;

verus! {

pub open spec fn is_digit(b: u8) -> bool {
    48 <= b <= 57
}

pub open spec fn all_digits(s: Seq<u8>) -> bool {
    forall|i: int| 0 <= i < s.len() ==> is_digit(#[trigger] s[i])
}

/// The decimal digits of `n`, most significant first.
pub open spec fn dec_digits(n: nat) -> Seq<u8>
    decreases n,
{
    if n < 10 {
        seq![(48 + n) as u8]
    } else {
        dec_digits(n / 10).push((48 + n % 10) as u8)
    }
}

/// The value of a digit string, read most significant first.
pub open spec fn dec_val(s: Seq<u8>) -> nat
    decreases s.len(),
{
    if s.len() == 0 {
        0
    } else {
        dec_val(s.drop_last()) * 10 + (s.last() - 48) as nat
    }
}

/// A digit run is canonical when it is nonempty and has no superfluous
/// leading zero.
pub open spec fn canonical_digits(s: Seq<u8>) -> bool {
    &&& s.len() > 0
    &&& all_digits(s)
    &&& (s.len() > 1 ==> s[0] != 48)
}

pub proof fn lemma_dec_digits_correct(n: nat)
    ensures
        dec_val(dec_digits(n)) == n,
        canonical_digits(dec_digits(n)),
        1 <= dec_digits(n).len(),
        n > 0 ==> dec_digits(n)[0] != 48,
    decreases n,
{
    if n < 10 {
        let d1 = seq![(48 + n) as u8];
        assert(dec_digits(n) =~= d1);
        assert(d1.drop_last() =~= Seq::<u8>::empty());
        assert(dec_val(Seq::<u8>::empty()) == 0);
        assert(dec_val(d1) == 0 * 10 + (d1.last() - 48) as nat);
    } else {
        lemma_dec_digits_correct(n / 10);
        let d = dec_digits(n / 10);
        assert(d.push((48 + n % 10) as u8).drop_last() =~= d);
        assert(dec_val(dec_digits(n)) == dec_val(d) * 10 + n % 10);
        assert(n == (n / 10) * 10 + n % 10);
        let whole = d.push((48 + n % 10) as u8);
        assert(forall|i: int|
            0 <= i < whole.len() ==> is_digit(#[trigger] whole[i]) == if i < d.len() {
                is_digit(d[i])
            } else {
                is_digit((48 + n % 10) as u8)
            });
        assert(whole[0] == d[0]);
    }
}

/// Adding digits on the right can only increase the value, and each digit
/// multiplies the value of what stands before it by ten.
pub proof fn lemma_dec_val_bounds(s: Seq<u8>)
    requires
        all_digits(s),
    ensures
        dec_val(s) < pow10(s.len() as nat),
        s.len() > 0 && s[0] != 48 ==> dec_val(s) >= pow10((s.len() - 1) as nat),
    decreases s.len(),
{
    if s.len() > 0 {
        lemma_dec_val_bounds(s.drop_last());
        assert(s.drop_last().len() == s.len() - 1);
        if s.len() > 1 {
            assert(s.drop_last()[0] == s[0]);
        }
        assert(dec_val(s) == dec_val(s.drop_last()) * 10 + (s.last() - 48) as nat);
    }
}

pub open spec fn pow10(k: nat) -> nat
    decreases k,
{
    if k == 0 {
        1
    } else {
        10 * pow10((k - 1) as nat)
    }
}

/// Appends the decimal digits of `n` to `out`.
pub fn push_decimal(out: &mut Vec<u8>, n: u64)
    ensures
        final(out)@ == old(out)@ + dec_digits(n as nat),
    decreases n,
{
    if n < 10 {
        out.push((48 + n) as u8);
        proof {
            assert(final(out)@ =~= old(out)@ + dec_digits(n as nat));
        }
    } else {
        push_decimal(out, n / 10);
        out.push((48 + (n % 10)) as u8);
        proof {
            assert(final(out)@ =~= old(out)@ + dec_digits(n as nat));
        }
    }
}

/// The decimal digits of `n` as a fresh vector.
pub fn decimal_of(n: u64) -> (v: Vec<u8>)
    ensures
        v@ == dec_digits(n as nat),
{
    let mut v: Vec<u8> = Vec::new();
    push_decimal(&mut v, n);
    proof {
        assert(v@ =~= dec_digits(n as nat));
    }
    v
}

pub fn digit_byte(b: u8) -> (r: bool)
    ensures
        r == is_digit(b),
{
    48 <= b && b <= 57
}

/// End of the run of digits that starts at `i`.
pub open spec fn spec_scan_digits(s: Seq<u8>, i: int) -> int
    decreases s.len() - i,
{
    if 0 <= i < s.len() && is_digit(s[i]) {
        spec_scan_digits(s, i + 1)
    } else {
        i
    }
}

pub fn scan_digits(s: &[u8], i: usize) -> (r: usize)
    requires
        i <= s@.len(),
    ensures
        r == spec_scan_digits(s@, i as int),
        i <= r <= s@.len(),
    decreases s@.len() - i,
{
    if i < s.len() && digit_byte(s[i]) {
        scan_digits(s, i + 1)
    } else {
        i
    }
}

/// Everything before the stopping point is a digit, and the stopping
/// byte, if inside, is not.
pub proof fn lemma_scan_digits_properties(s: Seq<u8>, i: int)
    requires
        0 <= i <= s.len(),
    ensures
        i <= spec_scan_digits(s, i) <= s.len(),
        spec_scan_digits(s, i) < s.len() ==> !is_digit(s[spec_scan_digits(s, i)]),
        forall|k: int| i <= k < spec_scan_digits(s, i) ==> is_digit(#[trigger] s[k]),
    decreases s.len() - i,
{
    if i < s.len() && is_digit(s[i]) {
        lemma_scan_digits_properties(s, i + 1);
    }
}

/// A run of digits with a non-digit right after it is exactly what the
/// scan finds.
pub proof fn lemma_scan_digits_stops(s: Seq<u8>, i: int, j: int)
    requires
        0 <= i <= j <= s.len(),
        forall|k: int| i <= k < j ==> is_digit(#[trigger] s[k]),
        j < s.len() ==> !is_digit(s[j]),
    ensures
        spec_scan_digits(s, i) == j,
    decreases j - i,
{
    if i < j {
        lemma_scan_digits_stops(s, i + 1, j);
    }
}

/// The value a canonical digit run of reasonable length denotes.
pub open spec fn spec_parse_dec(b: Seq<u8>) -> Option<nat> {
    if canonical_digits(b) && b.len() <= 20 {
        Some(dec_val(b))
    } else {
        None
    }
}

pub proof fn lemma_pow10_20()
    ensures
        pow10(20) == 100000000000000000000,
{
    reveal_with_fuel(pow10, 21);
}

/// Parses a whole byte string as a canonical decimal number.
pub fn parse_decimal(b: &[u8]) -> (r: Option<u128>)
    ensures
        match r {
            Some(n) => spec_parse_dec(b@) == Some(n as nat),
            None => spec_parse_dec(b@) is None,
        },
{
    let len = b.len();
    if len == 0 || len > 20 {
        return None;
    }
    if len > 1 && b[0] == 48 {
        return None;
    }
    let mut val: u128 = 0;
    let mut k: usize = 0;
    while k < len
        invariant
            k <= len == b@.len() <= 20,
            forall|j: int| 0 <= j < k ==> is_digit(#[trigger] b@[j]),
            val == dec_val(b@.subrange(0, k as int)),
            val < pow10(k as nat),
        decreases len - k,
    {
        if !digit_byte(b[k]) {
            return None;
        }
        proof {
            lemma_pow10_20();
            assert(pow10(k as nat) <= pow10(20)) by {
                lemma_pow10_monotone(k as nat, 20);
            }
        }
        let d = b[k] - 48;
        let ghost old_val = val;
        val = val * 10 + (d as u128);
        k = k + 1;
        proof {
            assert(b@.subrange(0, k as int).drop_last() =~= b@.subrange(0, k - 1 as int));
            assert(val == dec_val(b@.subrange(0, k as int)));
        }
    }
    proof {
        assert(b@.subrange(0, len as int) =~= b@);
        assert(canonical_digits(b@));
    }
    Some(val)
}

pub proof fn lemma_pow10_monotone(a: nat, b: nat)
    requires
        a <= b,
    ensures
        pow10(a) <= pow10(b),
    decreases b,
{
    if a < b {
        lemma_pow10_monotone(a, (b - 1) as nat);
        assert(pow10(b) == 10 * pow10((b - 1) as nat));
    }
}

// ---------------------------------------------------------------------------
// Hexadecimal digits
// ---------------------------------------------------------------------------

/// A hexadecimal digit, either case.
pub open spec fn is_hex_digit(b: u8) -> bool {
    (48 <= b <= 57) || (97 <= b <= 102) || (65 <= b <= 70)
}

pub fn hex_digit_byte(b: u8) -> (r: bool)
    ensures
        r == is_hex_digit(b),
{
    (48 <= b && b <= 57) || (97 <= b && b <= 102) || (65 <= b && b <= 70)
}

/// The value of one hexadecimal digit.
pub open spec fn hex_digit_val(b: u8) -> nat {
    if 48 <= b <= 57 {
        (b - 48) as nat
    } else if 97 <= b <= 102 {
        (b - 87) as nat
    } else if 65 <= b <= 70 {
        (b - 55) as nat
    } else {
        0
    }
}

/// The value of a hexadecimal digit string, most significant first.
pub open spec fn hex_val(s: Seq<u8>) -> nat
    decreases s.len(),
{
    if s.len() == 0 {
        0
    } else {
        hex_val(s.drop_last()) * 16 + hex_digit_val(s.last())
    }
}

/// End of the run of hexadecimal digits that starts at `i`.
pub open spec fn spec_scan_hex(s: Seq<u8>, i: int) -> int
    decreases s.len() - i,
{
    if 0 <= i < s.len() && is_hex_digit(s[i]) {
        spec_scan_hex(s, i + 1)
    } else {
        i
    }
}

pub fn scan_hex(s: &[u8], i: usize) -> (r: usize)
    requires
        i <= s@.len(),
    ensures
        r == spec_scan_hex(s@, i as int),
        i <= r <= s@.len(),
    decreases s@.len() - i,
{
    if i < s.len() && hex_digit_byte(s[i]) {
        scan_hex(s, i + 1)
    } else {
        i
    }
}

/// Everything before the stopping point is a hexadecimal digit.
pub proof fn lemma_scan_hex_properties(s: Seq<u8>, i: int)
    requires
        0 <= i <= s.len(),
    ensures
        i <= spec_scan_hex(s, i) <= s.len(),
        forall|k: int| i <= k < spec_scan_hex(s, i) ==> is_hex_digit(#[trigger] s[k]),
    decreases s.len() - i,
{
    if i < s.len() && is_hex_digit(s[i]) {
        lemma_scan_hex_properties(s, i + 1);
    }
}

pub open spec fn pow16(k: nat) -> nat
    decreases k,
{
    if k == 0 {
        1
    } else {
        16 * pow16((k - 1) as nat)
    }
}

pub proof fn lemma_pow16_small()
    ensures
        pow16(7) == 0x10000000,
        pow16(8) == 0x100000000,
{
    reveal_with_fuel(pow16, 9);
}

pub proof fn lemma_pow16_monotone(a: nat, b: nat)
    requires
        a <= b,
    ensures
        pow16(a) <= pow16(b),
    decreases b,
{
    if a < b {
        lemma_pow16_monotone(a, (b - 1) as nat);
        assert(pow16(b) == 16 * pow16((b - 1) as nat));
    }
}

/// Each hexadecimal digit multiplies the range by sixteen.
pub proof fn lemma_hex_val_bound(s: Seq<u8>)
    ensures
        hex_val(s) < pow16(s.len() as nat),
    decreases s.len(),
{
    if s.len() > 0 {
        lemma_hex_val_bound(s.drop_last());
        assert(hex_val(s) == hex_val(s.drop_last()) * 16 + hex_digit_val(s.last()));
        assert(hex_digit_val(s.last()) <= 15);
    }
}

pub proof fn lemma_pow10_8()
    ensures
        pow10(8) == 100000000,
{
    reveal_with_fuel(pow10, 9);
}

/// The value of a short run of decimal digits; leading zeros are
/// allowed here.
pub fn short_dec_val(s: &[u8], a: usize, b: usize) -> (r: u32)
    requires
        a <= b <= s@.len(),
        b - a <= 8,
        forall|k: int| a <= k < b ==> is_digit(#[trigger] s@[k]),
    ensures
        r == dec_val(s@.subrange(a as int, b as int)),
{
    let mut val: u32 = 0;
    let mut k: usize = a;
    while k < b
        invariant
            a <= k <= b <= s@.len(),
            b - a <= 8,
            forall|j: int| a <= j < b ==> is_digit(#[trigger] s@[j]),
            val == dec_val(s@.subrange(a as int, k as int)),
            val < pow10((k - a) as nat),
        decreases b - k,
    {
        proof {
            lemma_pow10_8();
            lemma_pow10_monotone((k - a) as nat, 8);
        }
        val = val * 10 + ((s[k] - 48) as u32);
        k = k + 1;
        proof {
            assert(s@.subrange(a as int, k as int).drop_last() =~= s@.subrange(
                a as int,
                k - 1 as int,
            ));
        }
    }
    val
}

/// The value of a short run of hexadecimal digits; leading zeros are
/// allowed here.
pub fn short_hex_val(s: &[u8], a: usize, b: usize) -> (r: u32)
    requires
        a <= b <= s@.len(),
        b - a <= 8,
        forall|k: int| a <= k < b ==> is_hex_digit(#[trigger] s@[k]),
    ensures
        r == hex_val(s@.subrange(a as int, b as int)),
{
    let mut val: u32 = 0;
    let mut k: usize = a;
    while k < b
        invariant
            a <= k <= b <= s@.len(),
            b - a <= 8,
            forall|j: int| a <= j < b ==> is_hex_digit(#[trigger] s@[j]),
            val == hex_val(s@.subrange(a as int, k as int)),
            val < pow16((k - a) as nat),
        decreases b - k,
    {
        proof {
            lemma_pow16_small();
            lemma_pow16_monotone((k - a) as nat, 7);
        }
        let c = s[k];
        let d: u32 = if c <= 57 {
            (c - 48) as u32
        } else if c >= 97 {
            (c - 87) as u32
        } else {
            (c - 55) as u32
        };
        val = val * 16 + d;
        k = k + 1;
        proof {
            assert(s@.subrange(a as int, k as int).drop_last() =~= s@.subrange(
                a as int,
                k - 1 as int,
            ));
        }
    }
    val
}

} // verus!
