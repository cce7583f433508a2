use vstd::prelude::*;
use vstd::string::StringSliceAdditionalSpecFns;
use vstd::utf8::valid_utf8;

verus! {

/// The UTF-8 bytes of an owned string.
pub open spec fn string_bytes(s: String) -> Seq<u8> {
    vstd::utf8::encode_utf8(s@)
}

/// All bytes below 128 form a valid UTF-8 sequence.
pub proof fn lemma_ascii_valid_utf8(s: Seq<u8>)
    requires
        forall|i: int| 0 <= i < s.len() ==> s[i] < 128,
    ensures
        valid_utf8(s),
{
    assert(s.subrange(0, 0) =~= Seq::<u8>::empty());
    assert(valid_utf8(s.subrange(0, 0)));
    assert(vstd::utf8::partial_valid_utf8(s, 0));
    vstd::utf8::partial_valid_utf8_extend_ascii_block(s, 0, s.len() as int);
    assert(s.subrange(0, s.len() as int) =~= s);
}

/// Relies on String::from_utf8: it succeeds exactly on valid UTF-8 input
/// and keeps the bytes as they are.
#[verifier::external_body]
pub fn bytes_to_string(v: Vec<u8>) -> (r: Option<String>)
    ensures
        match r {
            Some(s) => string_bytes(s) == v@ && valid_utf8(v@),
            None => !valid_utf8(v@),
        },
{
    String::from_utf8(v).ok()
}

/// What chrono computes from an RFC 3339 timestamp: seconds since the
/// Unix epoch and the subsecond nanoseconds, or nothing when the text is
/// not a valid timestamp. The result depends on the text alone.
pub uninterp spec fn rfc3339_parse(s: Seq<char>) -> Option<(i64, u32)>;

/// Relies on chrono's DateTime::parse_from_rfc3339, timestamp and
/// timestamp_subsec_nanos.
#[verifier::external_body]
pub fn parse_rfc3339(s: &str) -> (r: Option<(i64, u32)>)
    ensures
        r == rfc3339_parse(s@),
{
    match chrono::DateTime::parse_from_rfc3339(s) {
        Ok(dt) => Some((dt.timestamp(), dt.timestamp_subsec_nanos())),
        Err(_) => None,
    }
}

/// A byte a URL may carry as it is: ASCII alphanumerics and `-`, `.`,
/// `_`, `~`.
pub open spec fn is_url_unreserved(b: u8) -> bool {
    (48 <= b <= 57) || (65 <= b <= 90) || (97 <= b <= 122) || b == 45 || b == 46 || b == 95 || b
        == 126
}

/// Upper-case hexadecimal digit for a value below sixteen.
pub open spec fn hex_digit(n: u8) -> u8 {
    if n < 10 {
        (48 + n) as u8
    } else {
        (55 + n) as u8
    }
}

/// Percent-encoding of a byte string: unreserved bytes stand as they
/// are, every other byte becomes `%` and two upper-case hex digits.
pub open spec fn spec_percent_encode(s: Seq<u8>) -> Seq<u8>
    decreases s.len(),
{
    if s.len() == 0 {
        Seq::empty()
    } else {
        (if is_url_unreserved(s[0]) {
            seq![s[0]]
        } else {
            seq![37u8, hex_digit(s[0] / 16), hex_digit(s[0] % 16)]
        }) + spec_percent_encode(s.drop_first())
    }
}

/// Everything percent-encoding emits is ASCII.
pub proof fn lemma_percent_encode_ascii(s: Seq<u8>)
    ensures
        forall|i: int|
            0 <= i < spec_percent_encode(s).len() ==> #[trigger] spec_percent_encode(s)[i] < 128,
    decreases s.len(),
{
    if s.len() > 0 {
        lemma_percent_encode_ascii(s.drop_first());
        let head: Seq<u8> = if is_url_unreserved(s[0]) {
            seq![s[0]]
        } else {
            seq![37u8, hex_digit(s[0] / 16), hex_digit(s[0] % 16)]
        };
        let rest = spec_percent_encode(s.drop_first());
        assert forall|i: int| 0 <= i < spec_percent_encode(s).len() implies #[trigger] spec_percent_encode(
            s,
        )[i] < 128 by {
            assert(spec_percent_encode(s) == head + rest);
            if i < head.len() {
                assert(spec_percent_encode(s)[i] == head[i]);
                assert(hex_digit(s[0] / 16) < 128);
                assert(hex_digit(s[0] % 16) < 128);
            } else {
                assert(spec_percent_encode(s)[i] == rest[i - head.len()]);
            }
        }
    }
}

/// Relies on urlencoding::encode_binary: it percent-encodes every byte
/// except ASCII alphanumerics and `-`, `_`, `.`, `~`, with upper-case
/// hex digits.
#[verifier::external_body]
pub fn percent_encode(s: &[u8]) -> (r: Vec<u8>)
    ensures
        r@ == spec_percent_encode(s@),
{
    urlencoding::encode_binary(s).into_owned().into_bytes()
}

} // verus!
