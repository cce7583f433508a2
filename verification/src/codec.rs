use vstd::prelude::*;
use crate::bytes::sub_vec;
use crate::numeral::{is_digit, dec_digits, spec_scan_digits,
    scan_digits, spec_parse_dec, parse_decimal, push_decimal, lemma_dec_digits_correct,
    lemma_dec_val_bounds, lemma_scan_digits_stops, lemma_pow10_20, lemma_pow10_monotone};

verus! {

// The persisted format is structured text built from one shape: a
// *blob* is the decimal length of a byte string, a colon, and the
// bytes. Tables and lists are sequences of blobs.

/// The encoding of one byte string.
pub open spec fn enc_blob(b: Seq<u8>) -> Seq<u8> {
    dec_digits(b.len()) + seq![58u8] + b
}

/// Reads one blob at `i`: the bytes it carries and the index after it.
pub open spec fn dec_blob(s: Seq<u8>, i: int) -> Option<(Seq<u8>, int)> {
    let j = spec_scan_digits(s, i);
    if !(0 <= i < j) {
        None
    } else if j >= s.len() || s[j] != 58 {
        None
    } else if j - i > 1 && s[i] == 48 {
        None
    } else {
        match spec_parse_dec(s.subrange(i, j)) {
            None => None,
            Some(n) => if j + 1 + n <= s.len() {
                Some((s.subrange(j + 1, j + 1 + n), j + 1 + n))
            } else {
                None
            },
        }
    }
}

/// A blob written at `i` reads back as what was written.
pub proof fn lemma_blob_round(s: Seq<u8>, i: int, b: Seq<u8>)
    requires
        0 <= i,
        i + enc_blob(b).len() <= s.len(),
        s.subrange(i, i + enc_blob(b).len()) == enc_blob(b),
        b.len() < 100000000000000000000,
    ensures
        dec_blob(s, i) == Some((b, i + enc_blob(b).len())),
{
    lemma_dec_digits_correct(b.len());
    let d = dec_digits(b.len());
    let dl = d.len() as int;
    let whole = enc_blob(b);
    assert forall|k: int| 0 <= k < whole.len() implies s[i + k] == whole[k] by {
        assert(s.subrange(i, i + whole.len())[k] == s[i + k]);
    }
    assert forall|k: int| i <= k < i + dl implies is_digit(#[trigger] s[k]) by {
        assert(whole[k - i] == d[k - i]);
    }
    assert(s[i + dl] == whole[dl]);
    assert(whole[dl] == 58);
    lemma_scan_digits_stops(s, i, i + dl);
    assert(s.subrange(i, i + dl) =~= d);
    assert(d.len() <= 20) by {
        if d.len() > 20 {
            lemma_dec_val_bounds(d);
            lemma_pow10_20();
            lemma_pow10_monotone(20, (d.len() - 1) as nat);
        }
    }
    assert(spec_parse_dec(s.subrange(i, i + dl)) == Some(b.len()));
    assert forall|k: int| 0 <= k < b.len() implies s[i + dl + 1 + k] == b[k] by {
        assert(s.subrange(i, i + whole.len())[dl + 1 + k] == s[i + (dl + 1 + k)]);
        assert(whole[dl + 1 + k] == b[k]);
    }
    assert(s.subrange(i + dl + 1, i + dl + 1 + b.len() as int) =~= b);
}

/// The encoding of a sequence of byte strings, one blob after another,
/// from position `i` of the sequence on.
pub open spec fn enc_blobs(items: Seq<Seq<u8>>, i: int) -> Seq<u8>
    decreases items.len() - i,
{
    if !(0 <= i < items.len()) {
        Seq::empty()
    } else {
        enc_blob(items[i]) + enc_blobs(items, i + 1)
    }
}

/// Reads `c` blobs starting at `i`.
pub open spec fn dec_blobs(s: Seq<u8>, i: int, c: nat) -> Option<(Seq<Seq<u8>>, int)>
    decreases c,
{
    if c == 0 {
        Some((Seq::empty(), i))
    } else {
        match dec_blob(s, i) {
            None => None,
            Some((b, j)) => match dec_blobs(s, j, (c - 1) as nat) {
                None => None,
                Some((rest, e)) => Some((seq![b] + rest, e)),
            },
        }
    }
}

/// Blobs written one after another read back as what was written.
pub proof fn lemma_blobs_round(s: Seq<u8>, i: int, items: Seq<Seq<u8>>, j: int)
    requires
        0 <= i,
        0 <= j <= items.len(),
        i + enc_blobs(items, j).len() <= s.len(),
        s.subrange(i, i + enc_blobs(items, j).len()) == enc_blobs(items, j),
        forall|k: int| 0 <= k < items.len() ==> (#[trigger] items[k]).len()
            < 100000000000000000000,
    ensures
        dec_blobs(s, i, (items.len() - j) as nat) == Some(
            (items.subrange(j, items.len() as int), i + enc_blobs(items, j).len()),
        ),
    decreases items.len() - j,
{
    if j == items.len() {
        assert(items.subrange(j, items.len() as int) =~= Seq::<Seq<u8>>::empty());
    } else {
        let head = enc_blob(items[j]);
        let rest = enc_blobs(items, j + 1);
        assert(enc_blobs(items, j) == head + rest);
        assert forall|k: int| 0 <= k < enc_blobs(items, j).len() implies s[i + k] == enc_blobs(
            items,
            j,
        )[k] by {
            assert(s.subrange(i, i + enc_blobs(items, j).len())[k] == s[i + k]);
        }
        assert forall|k: int| 0 <= k < head.len() implies s[i + k] == head[k] by {
            assert(s.subrange(i, i + enc_blobs(items, j).len())[k] == s[i + k]);
            assert(enc_blobs(items, j)[k] == head[k]);
        }
        assert(s.subrange(i, i + head.len()) =~= head);
        lemma_blob_round(s, i, items[j]);
        let m = i + head.len();
        assert forall|k: int| 0 <= k < rest.len() implies s[m + k] == rest[k] by {
            assert(s.subrange(i, i + enc_blobs(items, j).len())[head.len() + k] == s[i + (
            head.len() + k)]);
            assert(enc_blobs(items, j)[head.len() + k] == rest[k]);
            assert(i + (head.len() + k) == m + k);
        }
        assert(s.subrange(m, m + rest.len()) =~= rest);
        lemma_blobs_round(s, m, items, j + 1);
        assert(seq![items[j]] + items.subrange(j + 1, items.len() as int) =~= items.subrange(
            j,
            items.len() as int,
        ));
    }
}

/// The encoding of a list: the count as a blob of digits, then the
/// items as blobs.
pub open spec fn enc_list(items: Seq<Seq<u8>>) -> Seq<u8> {
    enc_blob(dec_digits(items.len())) + enc_blobs(items, 0)
}

/// Reads a whole byte string as a list; every byte must be consumed.
pub open spec fn dec_list(s: Seq<u8>) -> Option<Seq<Seq<u8>>> {
    match dec_blob(s, 0) {
        None => None,
        Some((cb, j)) => match spec_parse_dec(cb) {
            None => None,
            Some(c) => match dec_blobs(s, j, c) {
                None => None,
                Some((items, e)) => if e == s.len() {
                    Some(items)
                } else {
                    None
                },
            },
        },
    }
}

/// A list encodes to bytes that read back as exactly that list.
pub proof fn lemma_list_round(items: Seq<Seq<u8>>)
    requires
        items.len() < 100000000000000000000,
        forall|k: int| 0 <= k < items.len() ==> (#[trigger] items[k]).len()
            < 100000000000000000000,
    ensures
        dec_list(enc_list(items)) == Some(items),
{
    let s = enc_list(items);
    let cb = dec_digits(items.len());
    lemma_dec_digits_correct(items.len());
    assert(cb.len() <= 20) by {
        if cb.len() > 20 {
            lemma_dec_val_bounds(cb);
            lemma_pow10_20();
            lemma_pow10_monotone(20, (cb.len() - 1) as nat);
        }
    }
    assert(s.subrange(0, enc_blob(cb).len() as int) =~= enc_blob(cb));
    assert(cb.len() < 100000000000000000000) by {
        lemma_pow10_20();
    }
    lemma_blob_round(s, 0, cb);
    let j = enc_blob(cb).len() as int;
    assert(spec_parse_dec(cb) == Some(items.len()));
    assert(s.subrange(j, j + enc_blobs(items, 0).len()) =~= enc_blobs(items, 0));
    lemma_blobs_round(s, j, items, 0);
    assert(items.subrange(0, items.len() as int) =~= items);
}

// ---------------------------------------------------------------------------
// Executable encoders and decoders
// ---------------------------------------------------------------------------

/// Appends the blob of `b` to `out`.
pub fn push_blob(out: &mut Vec<u8>, b: &[u8])
    ensures
        final(out)@ == old(out)@ + enc_blob(b@),
{
    push_decimal(out, b.len() as u64);
    out.push(58);
    let mut k: usize = 0;
    let ghost mid = out@;
    while k < b.len()
        invariant
            k <= b@.len(),
            out@ == mid + b@.subrange(0, k as int),
        decreases b@.len() - k,
    {
        out.push(b[k]);
        proof {
            assert(out@ =~= mid + b@.subrange(0, k + 1 as int));
        }
        k = k + 1;
    }
    proof {
        assert(b@.subrange(0, b@.len() as int) =~= b@);
        assert(final(out)@ =~= old(out)@ + enc_blob(b@));
    }
}

/// Reads one blob at `i`.
pub fn read_blob(s: &[u8], i: usize) -> (r: Option<(Vec<u8>, usize)>)
    requires
        i <= s@.len(),
    ensures
        match r {
            Some((b, j)) => dec_blob(s@, i as int) == Some((b@, j as int)) && i < j <= s@.len(),
            None => dec_blob(s@, i as int) is None,
        },
{
    let j = scan_digits(s, i);
    if j == i {
        return None;
    }
    if j >= s.len() || s[j] != 58 {
        return None;
    }
    if j - i > 1 && s[i] == 48 {
        return None;
    }
    let digits = sub_vec(s, i, j);
    match parse_decimal(digits.as_slice()) {
        None => None,
        Some(n) => {
            let rem = (s.len() - j) - 1;
            if n > rem as u128 {
                return None;
            }
            let n = n as usize;
            let b = sub_vec(s, j + 1, j + 1 + n);
            Some((b, j + 1 + n))
        },
    }
}

/// Reads `c` blobs at `i`.
pub fn read_blobs(s: &[u8], i: usize, c: usize) -> (r: Option<(Vec<Vec<u8>>, usize)>)
    requires
        i <= s@.len(),
    ensures
        match r {
            Some((items, j)) => dec_blobs(s@, i as int, c as nat) == Some(
                (items.deep_view(), j as int),
            ) && i <= j <= s@.len(),
            None => dec_blobs(s@, i as int, c as nat) is None,
        },
    decreases c,
{
    if c == 0 {
        let items: Vec<Vec<u8>> = Vec::new();
        proof {
            assert(items.deep_view() =~= Seq::<Seq<u8>>::empty());
        }
        Some((items, i))
    } else {
        match read_blob(s, i) {
            None => None,
            Some((b, j)) => match read_blobs(s, j, c - 1) {
                None => None,
                Some((rest, e)) => {
                    let ghost b0 = b@;
                    let ghost prev = rest@;
                    let ghost rest0 = rest.deep_view();
                    let mut rest = rest;
                    rest.insert(0, b);
                    proof {
                        let dv = rest.deep_view();
                        assert(dv.len() == rest@.len());
                        assert forall|k: int| 0 <= k < rest@.len() implies dv[k] == (seq![b0]
                            + rest0)[k] by {
                            assert(dv[k] == rest@[k]@);
                            if k == 0 {
                                assert(rest@[0] == b);
                            } else {
                                assert(rest@[k] == prev[k - 1]);
                                assert(rest0[k - 1] == prev[k - 1]@);
                            }
                        }
                        assert(rest.deep_view() =~= seq![b0] + rest0);
                    }
                    Some((rest, e))
                },
            },
        }
    }
}

/// Appends the list encoding of `items` to `out`.
pub fn push_list(out: &mut Vec<u8>, items: &Vec<Vec<u8>>)
    ensures
        final(out)@ == old(out)@ + enc_list(items.deep_view()),
{
    let mut count: Vec<u8> = Vec::new();
    push_decimal(&mut count, items.len() as u64);
    push_blob(out, count.as_slice());
    let ghost mid = out@;
    let mut k: usize = 0;
    while k < items.len()
        invariant
            k <= items@.len(),
            items.deep_view().len() == items@.len(),
            out@ == mid + enc_blobs(items.deep_view(), 0).subrange(
                0,
                enc_blobs(items.deep_view(), 0).len() - enc_blobs(items.deep_view(), k as int).len(),
            ),
            enc_blobs(items.deep_view(), k as int).len() <= enc_blobs(items.deep_view(), 0).len(),
        decreases items@.len() - k,
    {
        proof {
            lemma_enc_blobs_split(items.deep_view(), 0, k as int);
            lemma_enc_blobs_split(items.deep_view(), 0, k + 1 as int);
        }
        push_blob(out, items[k].as_slice());
        proof {
            assert(enc_blobs(items.deep_view(), k as int) == enc_blob(items.deep_view()[k as int])
                + enc_blobs(items.deep_view(), k + 1 as int));
            assert(items.deep_view()[k as int] == items@[k as int]@);
            assert(out@ =~= mid + enc_blobs(items.deep_view(), 0).subrange(
                0,
                enc_blobs(items.deep_view(), 0).len() - enc_blobs(
                    items.deep_view(),
                    k + 1 as int,
                ).len(),
            ));
        }
        k = k + 1;
    }
    proof {
        assert(enc_blobs(items.deep_view(), items@.len() as int).len() == 0);
        assert(final(out)@ =~= old(out)@ + enc_list(items.deep_view()));
    }
}

/// The encoding from `j` on is a suffix of the encoding from `i` on.
pub proof fn lemma_enc_blobs_split(items: Seq<Seq<u8>>, i: int, j: int)
    requires
        0 <= i <= j <= items.len(),
    ensures
        enc_blobs(items, i).len() >= enc_blobs(items, j).len(),
        enc_blobs(items, i).subrange(
            enc_blobs(items, i).len() - enc_blobs(items, j).len(),
            enc_blobs(items, i).len() as int,
        ) == enc_blobs(items, j),
        enc_blobs(items, i) == enc_blobs(items, i).subrange(
            0,
            enc_blobs(items, i).len() - enc_blobs(items, j).len(),
        ) + enc_blobs(items, j),
    decreases j - i,
{
    if i < j {
        lemma_enc_blobs_split(items, i + 1, j);
        assert(enc_blobs(items, i) == enc_blob(items[i]) + enc_blobs(items, i + 1));
        assert(enc_blobs(items, i).subrange(
            enc_blobs(items, i).len() - enc_blobs(items, j).len(),
            enc_blobs(items, i).len() as int,
        ) =~= enc_blobs(items, i + 1).subrange(
            enc_blobs(items, i + 1).len() - enc_blobs(items, j).len(),
            enc_blobs(items, i + 1).len() as int,
        ));
        assert(enc_blobs(items, i) =~= enc_blobs(items, i).subrange(
            0,
            enc_blobs(items, i).len() - enc_blobs(items, j).len(),
        ) + enc_blobs(items, j));
    } else {
        assert(enc_blobs(items, i).subrange(0, 0) =~= Seq::<u8>::empty());
        assert(enc_blobs(items, i).subrange(
            enc_blobs(items, i).len() - enc_blobs(items, j).len(),
            enc_blobs(items, i).len() as int,
        ) =~= enc_blobs(items, j));
        assert(enc_blobs(items, i) =~= enc_blobs(items, i).subrange(
            0,
            enc_blobs(items, i).len() - enc_blobs(items, j).len(),
        ) + enc_blobs(items, j));
    }
}

/// Encodes a list of byte strings into one byte string.
pub fn encode_list(items: &Vec<Vec<u8>>) -> (r: Vec<u8>)
    ensures
        r@ == enc_list(items.deep_view()),
{
    let mut out: Vec<u8> = Vec::new();
    push_list(&mut out, items);
    proof {
        assert(out@ =~= enc_list(items.deep_view()));
    }
    out
}

/// Decodes one byte string as a whole list.
pub fn decode_list(s: &[u8]) -> (r: Option<Vec<Vec<u8>>>)
    ensures
        match r {
            Some(items) => dec_list(s@) == Some(items.deep_view()),
            None => dec_list(s@) is None,
        },
{
    match read_blob(s, 0) {
        None => None,
        Some((cb, j)) => match parse_decimal(cb.as_slice()) {
            None => None,
            Some(c) => {
                if c > s.len() as u128 {
                    // more items than bytes: some blob must run out of input
                    proof {
                        lemma_dec_blobs_min_len(s@, j as int, (c as nat));
                    }
                    return None;
                }
                let c = c as usize;
                match read_blobs(s, j, c) {
                    None => None,
                    Some((items, e)) => {
                        if e == s.len() {
                            Some(items)
                        } else {
                            None
                        }
                    },
                }
            },
        },
    }
}

/// Reading `c` blobs consumes at least `c` bytes past the start.
pub proof fn lemma_dec_blobs_min_len(s: Seq<u8>, i: int, c: nat)
    requires
        0 <= i <= s.len(),
    ensures
        dec_blobs(s, i, c) is Some ==> dec_blobs(s, i, c)->Some_0.1 >= i + c
            && dec_blobs(s, i, c)->Some_0.1 <= s.len(),
    decreases c,
{
    if c > 0 {
        match dec_blob(s, i) {
            None => {},
            Some((b, j)) => {
                lemma_dec_blobs_min_len(s, j, (c - 1) as nat);
            },
        }
    }
}

} // verus!
