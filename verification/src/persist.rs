use vstd::prelude::*;
use vstd::string::{StringExecFns, StrSliceExecFns, StringSliceAdditionalSpecFns};
use vstd::utf8::{valid_utf8, decode_utf8, encode_utf8_decode_utf8, encode_utf8_valid_utf8};
use crate::bytes::sub_vec;
use crate::cache::Storable;
use crate::codec::{dec_list, encode_list, decode_list, lemma_list_round};
use crate::numeral::{dec_digits, decimal_of, spec_parse_dec, parse_decimal,
    lemma_dec_digits_correct, lemma_pow10_20, lemma_pow10_monotone, lemma_dec_val_bounds};
use crate::record::{Paper, PaperM, Timestamp, strs_model, lemma_strs_model_index, opt_chars,
    paper_model};
use crate::wrappers::{string_bytes, bytes_to_string};

verus! {

broadcast use encode_utf8_decode_utf8, encode_utf8_valid_utf8;

impl View for Paper {
    type V = PaperM;

    open spec fn view(&self) -> PaperM {
        paper_model(*self)
    }
}

// ---------------------------------------------------------------------------
// Field encodings
// ---------------------------------------------------------------------------

/// A character string a byte field denotes: the field must be UTF-8.
pub open spec fn spec_str_field(b: Seq<u8>) -> Option<Seq<char>> {
    if valid_utf8(b) {
        Some(decode_utf8(b))
    } else {
        None
    }
}

/// Signed decimal text for a number of seconds.
pub open spec fn spec_enc_i64(v: i64) -> Seq<u8> {
    if v >= 0 {
        dec_digits(v as nat)
    } else {
        seq![45u8] + dec_digits((0 - v as int) as nat)
    }
}

pub open spec fn spec_parse_i64(b: Seq<u8>) -> Option<i64> {
    if b.len() > 0 && b[0] == 45 {
        match spec_parse_dec(b.subrange(1, b.len() as int)) {
            Some(n) => if 0 < n <= 0x8000000000000000 {
                Some((0 - n) as i64)
            } else {
                None
            },
            None => None,
        }
    } else {
        match spec_parse_dec(b) {
            Some(n) => if n <= 0x7fffffffffffffff {
                Some(n as i64)
            } else {
                None
            },
            None => None,
        }
    }
}

pub open spec fn spec_parse_u32(b: Seq<u8>) -> Option<u32> {
    match spec_parse_dec(b) {
        Some(n) => if n <= 0xffffffff {
            Some(n as u32)
        } else {
            None
        },
        None => None,
    }
}

/// An optional text field: `0` for nothing, `1` and the bytes for text.
pub open spec fn spec_enc_opt(o: Option<String>) -> Seq<u8> {
    match o {
        None => seq![48u8],
        Some(s) => seq![49u8] + string_bytes(s),
    }
}

pub open spec fn spec_opt_field(b: Seq<u8>) -> Option<Option<Seq<char>>> {
    if b.len() == 1 && b[0] == 48 {
        Some(None)
    } else if b.len() >= 1 && b[0] == 49 {
        match spec_str_field(b.subrange(1, b.len() as int)) {
            Some(t) => Some(Some(t)),
            None => None,
        }
    } else {
        None
    }
}

/// The character strings an item list denotes, all of them UTF-8.
pub open spec fn spec_strs(items: Seq<Seq<u8>>, i: int) -> Option<Seq<Seq<char>>>
    decreases items.len() - i,
{
    if !(0 <= i < items.len()) {
        Some(Seq::empty())
    } else {
        match spec_str_field(items[i]) {
            None => None,
            Some(t) => match spec_strs(items, i + 1) {
                None => None,
                Some(rest) => Some(seq![t] + rest),
            },
        }
    }
}

/// The string list a byte field denotes.
pub open spec fn spec_strlist(b: Seq<u8>) -> Option<Seq<Seq<char>>> {
    match dec_list(b) {
        None => None,
        Some(items) => spec_strs(items, 0),
    }
}

// ---------------------------------------------------------------------------
// Executable field codecs
// ---------------------------------------------------------------------------

fn enc_i64(v: i64) -> (r: Vec<u8>)
    ensures
        r@ == spec_enc_i64(v),
{
    if v >= 0 {
        decimal_of(v as u64)
    } else {
        let mut out: Vec<u8> = Vec::new();
        out.push(45);
        let m = (-(v + 1)) as u64;
        proof {
            assert((m + 1) as nat == (0 - v as int) as nat);
        }
        crate::numeral::push_decimal(&mut out, m + 1);
        proof {
            assert(out@ =~= spec_enc_i64(v));
        }
        out
    }
}

fn parse_i64(b: &[u8]) -> (r: Option<i64>)
    ensures
        r == spec_parse_i64(b@),
{
    if b.len() > 0 && b[0] == 45 {
        let digits = sub_vec(b, 1, b.len());
        match parse_decimal(digits.as_slice()) {
            Some(n) => {
                if 0 < n && n <= 0x8000000000000000u128 {
                    let m = (n - 1) as u64;
                    let v = -(m as i64) - 1;
                    proof {
                        assert(v as int == 0 - n as int);
                    }
                    Some(v)
                } else {
                    None
                }
            },
            None => None,
        }
    } else {
        match parse_decimal(b) {
            Some(n) => {
                if n <= 0x7fffffffffffffffu128 {
                    Some(n as i64)
                } else {
                    None
                }
            },
            None => None,
        }
    }
}

fn parse_u32(b: &[u8]) -> (r: Option<u32>)
    ensures
        r == spec_parse_u32(b@),
{
    match parse_decimal(b) {
        Some(n) => {
            if n <= 0xffffffffu128 {
                Some(n as u32)
            } else {
                None
            }
        },
        None => None,
    }
}

/// The decimal encoding of a non-negative number parses back to it.
proof fn lemma_i64_round(v: i64)
    ensures
        spec_parse_i64(spec_enc_i64(v)) == Some(v),
{
    if v >= 0 {
        lemma_dec_digits_correct(v as nat);
        let d = dec_digits(v as nat);
        assert(d.len() <= 20) by {
            if d.len() > 20 {
                lemma_dec_val_bounds(d);
                lemma_pow10_20();
                lemma_pow10_monotone(20, (d.len() - 1) as nat);
            }
        }
        assert(d[0] != 45);
    } else {
        let m = (0 - v as int) as nat;
        lemma_dec_digits_correct(m);
        let d = dec_digits(m);
        let whole = seq![45u8] + d;
        assert(whole[0] == 45);
        assert(whole.subrange(1, whole.len() as int) =~= d);
        assert(d.len() <= 20) by {
            if d.len() > 20 {
                lemma_dec_val_bounds(d);
                lemma_pow10_20();
                lemma_pow10_monotone(20, (d.len() - 1) as nat);
            }
        }
    }
}

proof fn lemma_u32_round(v: u32)
    ensures
        spec_parse_u32(dec_digits(v as nat)) == Some(v),
{
    lemma_dec_digits_correct(v as nat);
    let d = dec_digits(v as nat);
    assert(d.len() <= 20) by {
        if d.len() > 20 {
            lemma_dec_val_bounds(d);
            lemma_pow10_20();
            lemma_pow10_monotone(20, (d.len() - 1) as nat);
        }
    }
}

fn enc_opt(o: &Option<String>) -> (r: Vec<u8>)
    ensures
        r@ == spec_enc_opt(*o),
{
    match o {
        None => {
            let mut v: Vec<u8> = Vec::new();
            v.push(48);
            proof {
                assert(v@ =~= spec_enc_opt(None::<String>));
            }
            v
        },
        Some(s) => {
            let mut v: Vec<u8> = Vec::new();
            v.push(49);
            let mut b = s.as_str().as_bytes_vec();
            v.append(&mut b);
            proof {
                assert(v@ =~= seq![49u8] + string_bytes(*s));
            }
            v
        },
    }
}

fn dec_opt(b: &[u8]) -> (r: Option<Option<String>>)
    ensures
        match r {
            Some(o) => spec_opt_field(b@) == Some(opt_chars(o)),
            None => spec_opt_field(b@) is None,
        },
{
    if b.len() == 1 && b[0] == 48 {
        Some(None)
    } else if b.len() >= 1 && b[0] == 49 {
        match bytes_to_string(sub_vec(b, 1, b.len())) {
            Some(s) => Some(Some(s)),
            None => None,
        }
    } else {
        None
    }
}

fn enc_strs(v: &Vec<String>) -> (r: Vec<u8>)
    ensures
        spec_strlist(r@) == Some(strs_model(v@)),
{
    let mut items: Vec<Vec<u8>> = Vec::new();
    let mut i: usize = 0;
    while i < v.len()
        invariant
            i <= v@.len(),
            items.deep_view().len() == i,
            forall|j: int| 0 <= j < i ==> items.deep_view()[j] == string_bytes(#[trigger] v@[j]),
        decreases v@.len() - i,
    {
        let ghost before = items.deep_view();
        items.push(v[i].as_str().as_bytes_vec());
        proof {
            let after = items.deep_view();
            assert forall|j: int| 0 <= j < after.len() implies after[j] == before.push(
                string_bytes(v@[i as int]),
            )[j] by {
                assert(after[j] == items@[j]@);
                if j < before.len() {
                    assert(before[j] == items@[j]@);
                }
            }
            assert(after =~= before.push(string_bytes(v@[i as int])));
        }
        i = i + 1;
    }
    let out = encode_list(&items);
    proof {
        let dv = items.deep_view();
        assert forall|k: int| 0 <= k < dv.len() implies (#[trigger] dv[k]).len()
            < 100000000000000000000 by {
            assert(dv[k] == items@[k]@);
            vstd::std_specs::vec::axiom_spec_len(&items@[k]);
        }
        vstd::std_specs::vec::axiom_spec_len(&items);
        lemma_list_round(dv);
        lemma_strs_valid(dv, v@, 0);
        lemma_strs_model_index(v@);
        assert(strs_model(v@).subrange(0, v@.len() as int) =~= strs_model(v@));
    }
    out
}

/// Byte items that are the encodings of strings denote those strings.
proof fn lemma_strs_valid(items: Seq<Seq<u8>>, v: Seq<String>, i: int)
    requires
        items.len() == v.len(),
        0 <= i <= v.len(),
        forall|j: int| 0 <= j < v.len() ==> items[j] == string_bytes(#[trigger] v[j]),
    ensures
        spec_strs(items, i) == Some(strs_model(v).subrange(i, v.len() as int)),
    decreases v.len() - i,
{
    lemma_strs_model_index(v);
    if i < v.len() {
        lemma_strs_valid(items, v, i + 1);
        assert(items[i] == string_bytes(v[i]));
        vstd::utf8::encode_utf8_valid_utf8(v[i]@);
        assert(valid_utf8(items[i]));
        assert(decode_utf8(items[i]) == v[i]@);
        assert(seq![v[i]@] + strs_model(v).subrange(i + 1, v.len() as int) =~= strs_model(
            v,
        ).subrange(i, v.len() as int));
    } else {
        assert(strs_model(v).subrange(i, v.len() as int) =~= Seq::<Seq<char>>::empty());
    }
}

fn strs_from(items: &Vec<Vec<u8>>, i: usize) -> (r: Option<Vec<String>>)
    requires
        i <= items@.len(),
    ensures
        match r {
            Some(v) => spec_strs(items.deep_view(), i as int) == Some(strs_model(v@)),
            None => spec_strs(items.deep_view(), i as int) is None,
        },
    decreases items@.len() - i,
{
    proof {
        assert(items.deep_view().len() == items@.len());
        if i < items@.len() {
            assert(items.deep_view()[i as int] == items@[i as int]@);
        }
    }
    if i >= items.len() {
        let v: Vec<String> = Vec::new();
        proof {
            assert(strs_model(v@) =~= Seq::<Seq<char>>::empty());
        }
        Some(v)
    } else {
        match bytes_to_string(sub_vec(items[i].as_slice(), 0, items[i].len())) {
            None => {
                proof {
                    assert(items[i as int]@.subrange(0, items@[i as int]@.len() as int) =~= items@[
                        i as int
                    ]@);
                }
                None
            },
            Some(s) => match strs_from(items, i + 1) {
                None => None,
                Some(rest) => {
                    let ghost sv = s@;
                    let ghost rest0 = rest@;
                    let mut rest = rest;
                    rest.insert(0, s);
                    proof {
                        assert(items[i as int]@.subrange(0, items@[i as int]@.len() as int)
                            =~= items@[i as int]@);
                        assert(rest@.subrange(1, rest@.len() as int) =~= rest0);
                        assert(rest@[0]@ == sv);
                        assert(strs_model(rest@) == seq![sv] + strs_model(rest0));
                    }
                    Some(rest)
                },
            },
        }
    }
}

fn dec_strs(b: &[u8]) -> (r: Option<Vec<String>>)
    ensures
        match r {
            Some(v) => spec_strlist(b@) == Some(strs_model(v@)),
            None => spec_strlist(b@) is None,
        },
{
    match decode_list(b) {
        None => None,
        Some(items) => strs_from(&items, 0),
    }
}

// ---------------------------------------------------------------------------
// The record's own encoding
// ---------------------------------------------------------------------------

/// The record a byte string denotes: a list of exactly fourteen fields
/// in a fixed order.
pub open spec fn paper_of_bytes(s: Seq<u8>) -> Option<PaperM> {
    match dec_list(s) {
        None => None,
        Some(fs) => if fs.len() != 14 {
            None
        } else {
            match spec_str_field(fs[0]) {
                None => None,
                Some(arxiv_id) => match spec_str_field(fs[1]) {
                    None => None,
                    Some(title) => match spec_str_field(fs[2]) {
                        None => None,
                        Some(abstract_text) => match spec_str_field(fs[3]) {
                            None => None,
                            Some(pdf_url) => match spec_str_field(fs[4]) {
                                None => None,
                                Some(primary_category) => match spec_parse_i64(fs[5]) {
                                    None => None,
                                    Some(psec) => match spec_parse_u32(fs[6]) {
                                        None => None,
                                        Some(pnan) => match spec_parse_i64(fs[7]) {
                                            None => None,
                                            Some(usec) => match spec_parse_u32(fs[8]) {
                                                None => None,
                                                Some(unan) => match spec_strlist(fs[9]) {
                                                    None => None,
                                                    Some(authors) => match spec_strlist(fs[10]) {
                                                        None => None,
                                                        Some(categories) => match spec_opt_field(
                                                            fs[11],
                                                        ) {
                                                            None => None,
                                                            Some(comment) => match spec_opt_field(
                                                                fs[12],
                                                            ) {
                                                                None => None,
                                                                Some(
                                                                    journal_ref,
                                                                ) => match spec_opt_field(fs[13]) {
                                                                    None => None,
                                                                    Some(doi) => Some(
                                                                        PaperM {
                                                                            arxiv_id,
                                                                            title,
                                                                            authors,
                                                                            abstract_text,
                                                                            published: Timestamp {
                                                                                secs: psec,
                                                                                nanos: pnan,
                                                                            },
                                                                            updated: Timestamp {
                                                                                secs: usec,
                                                                                nanos: unan,
                                                                            },
                                                                            categories,
                                                                            pdf_url,
                                                                            comment,
                                                                            journal_ref,
                                                                            doi,
                                                                            primary_category,
                                                                        },
                                                                    ),
                                                                },
                                                            },
                                                        },
                                                    },
                                                },
                                            },
                                        },
                                    },
                                },
                            },
                        },
                    },
                },
            }
        },
    }
}

/// An optional field encodes to bytes that denote the same option.
proof fn lemma_opt_round(o: Option<String>)
    ensures
        spec_opt_field(spec_enc_opt(o)) == Some(opt_chars(o)),
{
    match o {
        None => {},
        Some(s) => {
            let b = seq![49u8] + string_bytes(s);
            assert(b.subrange(1, b.len() as int) =~= string_bytes(s));
            vstd::utf8::encode_utf8_valid_utf8(s@);
        },
    }
}

impl Storable for Paper {
    open spec fn of_bytes(s: Seq<u8>) -> Option<PaperM> {
        paper_of_bytes(s)
    }

    #[verifier::rlimit(100)]
    fn encode(&self) -> (r: Vec<u8>)
        ensures
            paper_of_bytes(r@) == Some(self@),
    {
        let mut fields: Vec<Vec<u8>> = Vec::new();
        fields.push(self.arxiv_id.as_str().as_bytes_vec());
        fields.push(self.title.as_str().as_bytes_vec());
        fields.push(self.abstract_text.as_str().as_bytes_vec());
        fields.push(self.pdf_url.as_str().as_bytes_vec());
        fields.push(self.primary_category.as_str().as_bytes_vec());
        fields.push(enc_i64(self.published.secs));
        fields.push(decimal_of(self.published.nanos as u64));
        fields.push(enc_i64(self.updated.secs));
        fields.push(decimal_of(self.updated.nanos as u64));
        fields.push(enc_strs(&self.authors));
        fields.push(enc_strs(&self.categories));
        fields.push(enc_opt(&self.comment));
        fields.push(enc_opt(&self.journal_ref));
        fields.push(enc_opt(&self.doi));
        let out = encode_list(&fields);
        proof {
            let dv = fields.deep_view();
            assert(dv.len() == 14);
            assert forall|k: int| 0 <= k < dv.len() implies (#[trigger] dv[k]).len()
                < 100000000000000000000 by {
                assert(dv[k] == fields@[k]@);
                vstd::std_specs::vec::axiom_spec_len(&fields@[k]);
            }
            vstd::std_specs::vec::axiom_spec_len(&fields);
            lemma_list_round(dv);
            assert(dv[0] == string_bytes(self.arxiv_id));
            assert(dv[1] == string_bytes(self.title));
            assert(dv[2] == string_bytes(self.abstract_text));
            assert(dv[3] == string_bytes(self.pdf_url));
            assert(dv[4] == string_bytes(self.primary_category));
            assert(dv[5] == spec_enc_i64(self.published.secs));
            assert(dv[6] == dec_digits(self.published.nanos as nat));
            assert(dv[7] == spec_enc_i64(self.updated.secs));
            assert(dv[8] == dec_digits(self.updated.nanos as nat));
            vstd::utf8::encode_utf8_valid_utf8(self.arxiv_id@);
            vstd::utf8::encode_utf8_valid_utf8(self.title@);
            vstd::utf8::encode_utf8_valid_utf8(self.abstract_text@);
            vstd::utf8::encode_utf8_valid_utf8(self.pdf_url@);
            vstd::utf8::encode_utf8_valid_utf8(self.primary_category@);
            lemma_i64_round(self.published.secs);
            lemma_u32_round(self.published.nanos);
            lemma_i64_round(self.updated.secs);
            lemma_u32_round(self.updated.nanos);
            lemma_opt_round(self.comment);
            lemma_opt_round(self.journal_ref);
            lemma_opt_round(self.doi);
            assert(dv[9] == fields@[9]@);
            assert(dv[10] == fields@[10]@);
            assert(dv[11] == fields@[11]@);
            assert(dv[12] == fields@[12]@);
            assert(dv[13] == fields@[13]@);
            assert(spec_str_field(dv[0]) == Some(self.arxiv_id@));
            assert(spec_str_field(dv[1]) == Some(self.title@));
            assert(spec_str_field(dv[2]) == Some(self.abstract_text@));
            assert(spec_str_field(dv[3]) == Some(self.pdf_url@));
            assert(spec_str_field(dv[4]) == Some(self.primary_category@));
            assert(spec_parse_i64(dv[5]) == Some(self.published.secs));
            assert(spec_parse_u32(dv[6]) == Some(self.published.nanos));
            assert(spec_parse_i64(dv[7]) == Some(self.updated.secs));
            assert(spec_parse_u32(dv[8]) == Some(self.updated.nanos));
            assert(spec_strlist(dv[9]) == Some(strs_model(self.authors@)));
            assert(spec_strlist(dv[10]) == Some(strs_model(self.categories@)));
            assert(spec_opt_field(dv[11]) == Some(opt_chars(self.comment)));
            assert(spec_opt_field(dv[12]) == Some(opt_chars(self.journal_ref)));
            assert(spec_opt_field(dv[13]) == Some(opt_chars(self.doi)));
            assert(paper_of_bytes(out@) is Some);
            assert(paper_of_bytes(out@)->Some_0 =~~= self@);
        }
        out
    }

    #[verifier::rlimit(100)]
    fn decode(s: &[u8]) -> (r: Option<Self>)
        ensures
            match r {
                Some(v) => paper_of_bytes(s@) == Some(v@),
                None => paper_of_bytes(s@) is None,
            },
    {
        let fields = match decode_list(s) {
            None => {
                return None;
            },
            Some(f) => f,
        };
        proof {
            assert(fields.deep_view().len() == fields@.len());
        }
        if fields.len() != 14 {
            return None;
        }
        proof {
            assert forall|k: int| 0 <= k < 14 implies fields.deep_view()[k] == (
            #[trigger] fields@[k])@ by {}
        }
        let arxiv_id = match bytes_to_string(sub_vec(fields[0].as_slice(), 0, fields[0].len())) {
            None => {
                proof {
                    assert(fields@[0]@.subrange(0, fields@[0]@.len() as int) =~= fields@[0]@);
                }
                return None;
            },
            Some(x) => {
                proof {
                    assert(fields@[0]@.subrange(0, fields@[0]@.len() as int) =~= fields@[0]@);
                }
                x
            },
        };
        let title = match bytes_to_string(sub_vec(fields[1].as_slice(), 0, fields[1].len())) {
            None => {
                proof {
                    assert(fields@[1]@.subrange(0, fields@[1]@.len() as int) =~= fields@[1]@);
                }
                return None;
            },
            Some(x) => {
                proof {
                    assert(fields@[1]@.subrange(0, fields@[1]@.len() as int) =~= fields@[1]@);
                }
                x
            },
        };
        let abstract_text = match bytes_to_string(
            sub_vec(fields[2].as_slice(), 0, fields[2].len()),
        ) {
            None => {
                proof {
                    assert(fields@[2]@.subrange(0, fields@[2]@.len() as int) =~= fields@[2]@);
                }
                return None;
            },
            Some(x) => {
                proof {
                    assert(fields@[2]@.subrange(0, fields@[2]@.len() as int) =~= fields@[2]@);
                }
                x
            },
        };
        let pdf_url = match bytes_to_string(sub_vec(fields[3].as_slice(), 0, fields[3].len())) {
            None => {
                proof {
                    assert(fields@[3]@.subrange(0, fields@[3]@.len() as int) =~= fields@[3]@);
                }
                return None;
            },
            Some(x) => {
                proof {
                    assert(fields@[3]@.subrange(0, fields@[3]@.len() as int) =~= fields@[3]@);
                }
                x
            },
        };
        let primary_category = match bytes_to_string(
            sub_vec(fields[4].as_slice(), 0, fields[4].len()),
        ) {
            None => {
                proof {
                    assert(fields@[4]@.subrange(0, fields@[4]@.len() as int) =~= fields@[4]@);
                }
                return None;
            },
            Some(x) => {
                proof {
                    assert(fields@[4]@.subrange(0, fields@[4]@.len() as int) =~= fields@[4]@);
                }
                x
            },
        };
        let psec = match parse_i64(fields[5].as_slice()) {
            None => {
                return None;
            },
            Some(x) => x,
        };
        let pnan = match parse_u32(fields[6].as_slice()) {
            None => {
                return None;
            },
            Some(x) => x,
        };
        let usec = match parse_i64(fields[7].as_slice()) {
            None => {
                return None;
            },
            Some(x) => x,
        };
        let unan = match parse_u32(fields[8].as_slice()) {
            None => {
                return None;
            },
            Some(x) => x,
        };
        let authors = match dec_strs(fields[9].as_slice()) {
            None => {
                return None;
            },
            Some(x) => x,
        };
        let categories = match dec_strs(fields[10].as_slice()) {
            None => {
                return None;
            },
            Some(x) => x,
        };
        let comment = match dec_opt(fields[11].as_slice()) {
            None => {
                return None;
            },
            Some(x) => x,
        };
        let journal_ref = match dec_opt(fields[12].as_slice()) {
            None => {
                return None;
            },
            Some(x) => x,
        };
        let doi = match dec_opt(fields[13].as_slice()) {
            None => {
                return None;
            },
            Some(x) => x,
        };
        let p = Paper {
            arxiv_id,
            title,
            authors,
            abstract_text,
            published: Timestamp { secs: psec, nanos: pnan },
            updated: Timestamp { secs: usec, nanos: unan },
            categories,
            pdf_url,
            comment,
            journal_ref,
            doi,
            primary_category,
        };
        proof {
            assert(paper_of_bytes(s@) is Some);
            assert(paper_of_bytes(s@)->Some_0 =~~= p@);
        }
        Some(p)
    }
}

} // verus!
