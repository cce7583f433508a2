use vstd::prelude::*;
use crate::bytes::{spec_skip_ws, spec_find, spec_find2, spec_find3, skip_ws, find_byte, find2,
    find3, sub_vec, range_eq, bytes_eq};
use crate::numeral::{spec_scan_digits, spec_scan_hex, scan_digits, scan_hex, dec_val, hex_val,
    short_dec_val, short_hex_val, lemma_scan_digits_properties, lemma_scan_hex_properties,
    lemma_dec_val_bounds, lemma_hex_val_bound, lemma_pow10_8, lemma_pow10_monotone,
    lemma_pow16_small, lemma_pow16_monotone};
use vstd::utf8::{is_scalar, encode_scalar};

verus! {

// An element tree for the slice of XML that Atom feeds use: tags with
// attributes, nested elements, text with the five predefined entity
// references and numeric character references, CDATA sections as
// literal text, and skipped processing instructions and comments.

pub struct XmlAttr {
    pub name: Vec<u8>,
    pub value: Vec<u8>,
}

pub struct XmlElem {
    pub name: Vec<u8>,
    pub attrs: Vec<XmlAttr>,
    pub children: Vec<XmlNode>,
}

pub enum XmlNode {
    Elem(XmlElem),
    Text(Vec<u8>),
}

/// The mathematical shape of an attribute.
#[verifier::ext_equal]
pub struct SAttr {
    pub name: Seq<u8>,
    pub value: Seq<u8>,
}

/// The mathematical shape of an element.
#[verifier::ext_equal]
pub struct SElem {
    pub name: Seq<u8>,
    pub attrs: Seq<SAttr>,
    pub children: Seq<SNode>,
}

#[verifier::ext_equal]
pub enum SNode {
    Elem(SElem),
    Text(Seq<u8>),
}

pub open spec fn attr_model(a: XmlAttr) -> SAttr {
    SAttr { name: a.name@, value: a.value@ }
}

pub open spec fn attrs_model(s: Seq<XmlAttr>) -> Seq<SAttr>
    decreases s,
{
    if s.len() == 0 {
        Seq::empty()
    } else {
        seq![attr_model(s[0])] + attrs_model(s.subrange(1, s.len() as int))
    }
}

pub open spec fn elem_model(e: XmlElem) -> SElem
    decreases e,
    via elem_model_decreases
{
    SElem {
        name: e.name@,
        attrs: attrs_model(e.attrs@),
        children: nodes_model(e.children@),
    }
}

#[via_fn]
proof fn elem_model_decreases(e: XmlElem) {
    broadcast use vstd::std_specs::vec::axiom_vec_decreases_to_view;

    assert(decreases_to!(e => e.children));
    assert(decreases_to!(e.children => e.children@));
}

pub open spec fn node_model(n: XmlNode) -> SNode
    decreases n,
{
    match n {
        XmlNode::Elem(e) => SNode::Elem(elem_model(e)),
        XmlNode::Text(t) => SNode::Text(t@),
    }
}

pub open spec fn nodes_model(s: Seq<XmlNode>) -> Seq<SNode>
    decreases s,
{
    if s.len() == 0 {
        Seq::empty()
    } else {
        seq![node_model(s[0])] + nodes_model(s.subrange(1, s.len() as int))
    }
}

// ---------------------------------------------------------------------------
// Grammar helpers
// ---------------------------------------------------------------------------

pub open spec fn is_name_start(b: u8) -> bool {
    (65 <= b <= 90) || (97 <= b <= 122) || b == 95 || b == 58
}

pub open spec fn is_name_byte(b: u8) -> bool {
    is_name_start(b) || (48 <= b <= 57) || b == 45 || b == 46
}

pub fn name_start_byte(b: u8) -> (r: bool)
    ensures
        r == is_name_start(b),
{
    (65 <= b && b <= 90) || (97 <= b && b <= 122) || b == 95 || b == 58
}

pub fn name_byte(b: u8) -> (r: bool)
    ensures
        r == is_name_byte(b),
{
    name_start_byte(b) || (48 <= b && b <= 57) || b == 45 || b == 46
}

/// End of the run of name bytes that starts at `i`.
pub open spec fn spec_scan_name(s: Seq<u8>, i: int) -> int
    decreases s.len() - i,
{
    if 0 <= i < s.len() && is_name_byte(s[i]) {
        spec_scan_name(s, i + 1)
    } else {
        i
    }
}

pub fn scan_name(s: &[u8], i: usize) -> (r: usize)
    requires
        i <= s@.len(),
    ensures
        r == spec_scan_name(s@, i as int),
        i <= r <= s@.len(),
    decreases s@.len() - i,
{
    if i < s.len() && name_byte(s[i]) {
        scan_name(s, i + 1)
    } else {
        i
    }
}

/// The next index to resume from: past `j`, and always strictly past `i`,
/// which keeps every recursion well-founded (the parser never actually
/// stands still, so the adjustment changes nothing on reachable paths).
pub open spec fn bump(i: int, j: int) -> int {
    if j <= i {
        i + 1
    } else {
        j
    }
}

/// `bump`, kept inside the input: the measure of every recursion stays
/// non-negative even where nothing is known yet about `j`.
pub open spec fn step(s: Seq<u8>, i: int, j: int) -> int {
    if bump(i, j) > s.len() {
        s.len() as int
    } else {
        bump(i, j)
    }
}

/// `<!--`, opening a comment.
pub open spec fn is_comment_start(s: Seq<u8>, i: int) -> bool {
    0 <= i && s.len() - i >= 4 && s[i] == 60 && s[i + 1] == 33 && s[i + 2] == 45 && s[i + 3] == 45
}

fn comment_start(s: &[u8], i: usize) -> (r: bool)
    requires
        i <= s@.len(),
    ensures
        r == is_comment_start(s@, i as int),
{
    s.len() - i >= 4 && s[i] == 60 && s[i + 1] == 33 && s[i + 2] == 45 && s[i + 3] == 45
}

/// `<![CDATA[`, opening a section of literal text.
pub open spec fn is_cdata_start(s: Seq<u8>, i: int) -> bool {
    0 <= i && s.len() - i >= 9 && s[i] == 60 && s[i + 1] == 33 && s[i + 2] == 91 && s[i + 3] == 67
        && s[i + 4] == 68 && s[i + 5] == 65 && s[i + 6] == 84 && s[i + 7] == 65 && s[i + 8] == 91
}

fn cdata_start(s: &[u8], i: usize) -> (r: bool)
    requires
        i <= s@.len(),
    ensures
        r == is_cdata_start(s@, i as int),
{
    s.len() - i >= 9 && s[i] == 60 && s[i + 1] == 33 && s[i + 2] == 91 && s[i + 3] == 67 && s[i
        + 4] == 68 && s[i + 5] == 65 && s[i + 6] == 84 && s[i + 7] == 65 && s[i + 8] == 91
}

// ---------------------------------------------------------------------------
// Entity references and text runs
// ---------------------------------------------------------------------------

/// The decoded bytes and the index past the entity reference that
/// starts at `i` (which must hold a `&`): one of the five predefined
/// references, or a decimal or hexadecimal character reference of a
/// Unicode scalar value (at most eight digits), whose UTF-8 encoding is
/// the result.
pub open spec fn spec_entity(s: Seq<u8>, i: int) -> Option<(Seq<u8>, int)> {
    if s.len() - i >= 5 && s[i + 1] == 97 && s[i + 2] == 109 && s[i + 3] == 112 && s[i + 4]
        == 59 {
        Some((seq![38u8], i + 5))
    } else if s.len() - i >= 4 && s[i + 1] == 108 && s[i + 2] == 116 && s[i + 3] == 59 {
        Some((seq![60u8], i + 4))
    } else if s.len() - i >= 4 && s[i + 1] == 103 && s[i + 2] == 116 && s[i + 3] == 59 {
        Some((seq![62u8], i + 4))
    } else if s.len() - i >= 6 && s[i + 1] == 113 && s[i + 2] == 117 && s[i + 3] == 111 && s[i + 4]
        == 116 && s[i + 5] == 59 {
        Some((seq![34u8], i + 6))
    } else if s.len() - i >= 6 && s[i + 1] == 97 && s[i + 2] == 112 && s[i + 3] == 111 && s[i + 4]
        == 115 && s[i + 5] == 59 {
        Some((seq![39u8], i + 6))
    } else if s.len() - i >= 4 && s[i + 1] == 35 && (s[i + 2] == 120 || s[i + 2] == 88) {
        let j = spec_scan_hex(s, i + 3);
        if i + 3 < j && j - (i + 3) <= 8 && j < s.len() && s[j] == 59 && is_scalar(
            hex_val(s.subrange(i + 3, j)) as u32,
        ) {
            Some((encode_scalar(hex_val(s.subrange(i + 3, j)) as u32), j + 1))
        } else {
            None
        }
    } else if s.len() - i >= 3 && s[i + 1] == 35 {
        let j = spec_scan_digits(s, i + 2);
        if i + 2 < j && j - (i + 2) <= 8 && j < s.len() && s[j] == 59 && is_scalar(
            dec_val(s.subrange(i + 2, j)) as u32,
        ) {
            Some((encode_scalar(dec_val(s.subrange(i + 2, j)) as u32), j + 1))
        } else {
            None
        }
    } else {
        None
    }
}

/// Appends the UTF-8 encoding of one Unicode scalar value, byte for
/// byte as the mathematical encoding lays it out.
fn push_scalar_utf8(out: &mut Vec<u8>, v: u32)
    requires
        is_scalar(v),
    ensures
        final(out)@ == old(out)@ + encode_scalar(v),
{
    if v <= 0x7F {
        out.push((v & 0x7F) as u8);
    } else if v <= 0x7FF {
        out.push(0xC0u8 | ((v >> 6) & 0x1F) as u8);
        out.push(0x80u8 | (v & 0x3F) as u8);
    } else if v <= 0xFFFF {
        out.push(0xE0u8 | ((v >> 12) & 0x0F) as u8);
        out.push(0x80u8 | ((v >> 6) & 0x3F) as u8);
        out.push(0x80u8 | (v & 0x3F) as u8);
    } else {
        out.push(0xF0u8 | ((v >> 18) & 0x7) as u8);
        out.push(0x80u8 | ((v >> 12) & 0x3F) as u8);
        out.push(0x80u8 | ((v >> 6) & 0x3F) as u8);
        out.push(0x80u8 | (v & 0x3F) as u8);
    }
    proof {
        assert(final(out)@ =~= old(out)@ + encode_scalar(v));
    }
}

fn scalar_value(v: u32) -> (r: bool)
    ensures
        r == is_scalar(v),
{
    v <= 0x10FFFF && !(0xD800 <= v && v <= 0xDFFF)
}

fn one_byte(b: u8) -> (v: Vec<u8>)
    ensures
        v@ == seq![b],
{
    let mut v: Vec<u8> = Vec::new();
    v.push(b);
    proof {
        assert(v@ =~= seq![b]);
    }
    v
}

fn entity(s: &[u8], i: usize) -> (r: Option<(Vec<u8>, usize)>)
    requires
        i < s@.len(),
    ensures
        match r {
            Some((b, j)) => spec_entity(s@, i as int) == Some((b@, j as int)) && i < j <= s@.len(),
            None => spec_entity(s@, i as int) is None,
        },
{
    if s.len() - i >= 5 && s[i + 1] == 97 && s[i + 2] == 109 && s[i + 3] == 112 && s[i + 4] == 59 {
        Some((one_byte(38), i + 5))
    } else if s.len() - i >= 4 && s[i + 1] == 108 && s[i + 2] == 116 && s[i + 3] == 59 {
        Some((one_byte(60), i + 4))
    } else if s.len() - i >= 4 && s[i + 1] == 103 && s[i + 2] == 116 && s[i + 3] == 59 {
        Some((one_byte(62), i + 4))
    } else if s.len() - i >= 6 && s[i + 1] == 113 && s[i + 2] == 117 && s[i + 3] == 111 && s[i + 4]
        == 116 && s[i + 5] == 59 {
        Some((one_byte(34), i + 6))
    } else if s.len() - i >= 6 && s[i + 1] == 97 && s[i + 2] == 112 && s[i + 3] == 111 && s[i + 4]
        == 115 && s[i + 5] == 59 {
        Some((one_byte(39), i + 6))
    } else if s.len() - i >= 4 && s[i + 1] == 35 && (s[i + 2] == 120 || s[i + 2] == 88) {
        let j = scan_hex(s, i + 3);
        if i + 3 < j && j - (i + 3) <= 8 && j < s.len() && s[j] == 59 {
            proof {
                lemma_scan_hex_properties(s@, i + 3 as int);
                lemma_hex_val_bound(s@.subrange(i + 3 as int, j as int));
                lemma_pow16_small();
                lemma_pow16_monotone((j - (i + 3)) as nat, 8);
            }
            let v = short_hex_val(s, i + 3, j);
            if scalar_value(v) {
                let mut bs: Vec<u8> = Vec::new();
                push_scalar_utf8(&mut bs, v);
                proof {
                    assert(bs@ =~= encode_scalar(hex_val(s@.subrange(i + 3 as int, j as int))
                        as u32));
                }
                Some((bs, j + 1))
            } else {
                None
            }
        } else {
            None
        }
    } else if s.len() - i >= 3 && s[i + 1] == 35 {
        let j = scan_digits(s, i + 2);
        if i + 2 < j && j - (i + 2) <= 8 && j < s.len() && s[j] == 59 {
            proof {
                lemma_scan_digits_properties(s@, i + 2 as int);
                lemma_dec_val_bounds(s@.subrange(i + 2 as int, j as int));
                lemma_pow10_8();
                lemma_pow10_monotone((j - (i + 2)) as nat, 8);
            }
            let v = short_dec_val(s, i + 2, j);
            if scalar_value(v) {
                let mut bs: Vec<u8> = Vec::new();
                push_scalar_utf8(&mut bs, v);
                proof {
                    assert(bs@ =~= encode_scalar(dec_val(s@.subrange(i + 2 as int, j as int))
                        as u32));
                }
                Some((bs, j + 1))
            } else {
                None
            }
        } else {
            None
        }
    } else {
        None
    }
}

/// Decodes a text run that starts at `i` and ends at the first `stop` byte
/// (or at the end of the input), resolving the predefined entity
/// references and numeric character references. `None` means a `&` that
/// does not open a valid reference.
pub open spec fn spec_unescape(s: Seq<u8>, i: int, stop: u8) -> Option<(Seq<u8>, int)>
    decreases s.len() - i,
{
    if !(0 <= i < s.len()) {
        Some((Seq::empty(), i))
    } else if s[i] == stop {
        Some((Seq::empty(), i))
    } else if s[i] == 38 {
        match spec_entity(s, i) {
            None => None,
            Some((b, j)) => match spec_unescape(s, j, stop) {
                None => None,
                Some((t, e)) => Some((b + t, e)),
            },
        }
    } else {
        match spec_unescape(s, i + 1, stop) {
            None => None,
            Some((t, e)) => Some((seq![s[i]] + t, e)),
        }
    }
}

fn unescape(s: &[u8], i: usize, stop: u8) -> (r: Option<(Vec<u8>, usize)>)
    requires
        i <= s@.len(),
    ensures
        match r {
            Some((v, j)) => spec_unescape(s@, i as int, stop) == Some((v@, j as int)) && i <= j
                <= s@.len(),
            None => spec_unescape(s@, i as int, stop) is None,
        },
    decreases s@.len() - i,
{
    if i >= s.len() {
        let v: Vec<u8> = Vec::new();
        proof {
            assert(spec_unescape(s@, i as int, stop) == Some((v@, i as int)));
        }
        Some((v, i))
    } else if s[i] == stop {
        let v: Vec<u8> = Vec::new();
        proof {
            assert(spec_unescape(s@, i as int, stop) == Some((v@, i as int)));
        }
        Some((v, i))
    } else if s[i] == 38 {
        match entity(s, i) {
            None => None,
            Some((b, j)) => match unescape(s, j, stop) {
                None => None,
                Some((t, e)) => {
                    let mut out = b;
                    let mut t = t;
                    out.append(&mut t);
                    Some((out, e))
                },
            },
        }
    } else {
        match unescape(s, i + 1, stop) {
            None => None,
            Some((t, e)) => {
                let b = s[i];
                let mut t = t;
                t.insert(0, b);
                proof {
                    assert(t@ =~= seq![b] + t@.subrange(1, t@.len() as int));
                }
                Some((t, e))
            },
        }
    }
}

// ---------------------------------------------------------------------------
// Attributes
// ---------------------------------------------------------------------------

/// The attribute list that starts at `i` (whitespace first), and the index
/// of the first byte after it, which is never whitespace.
pub open spec fn spec_parse_attrs(s: Seq<u8>, i: int) -> Option<(Seq<SAttr>, int)>
    decreases s.len() - i,
{
    let j = spec_skip_ws(s, i);
    if j < s.len() && is_name_start(s[j]) {
        let k = spec_scan_name(s, j);
        if k < s.len() && s[k] == 61 && k + 1 < s.len() && (s[k + 1] == 34 || s[k + 1] == 39) {
            let q = s[k + 1];
            match spec_unescape(s, k + 2, q) {
                None => None,
                Some((val, m)) => if m < s.len() {
                    match spec_parse_attrs(s, bump(i, m + 1)) {
                        None => None,
                        Some((rest, end)) => Some(
                            (seq![SAttr { name: s.subrange(j, k), value: val }] + rest, end),
                        ),
                    }
                } else {
                    None
                },
            }
        } else {
            None
        }
    } else {
        Some((Seq::empty(), j))
    }
}

fn parse_attrs(s: &[u8], i: usize) -> (r: Option<(Vec<XmlAttr>, usize)>)
    requires
        i <= s@.len(),
    ensures
        match r {
            Some((v, j)) => spec_parse_attrs(s@, i as int) == Some((attrs_model(v@), j as int))
                && i <= j <= s@.len(),
            None => spec_parse_attrs(s@, i as int) is None,
        },
    decreases s@.len() - i,
{
    let j = skip_ws(s, i);
    if j < s.len() && name_start_byte(s[j]) {
        let k = scan_name(s, j);
        if k < s.len() && s[k] == 61 && k + 1 < s.len() && (s[k + 1] == 34 || s[k + 1] == 39) {
            let q = s[k + 1];
            match unescape(s, k + 2, q) {
                None => None,
                Some((val, m)) => if m < s.len() {
                    let next = if m + 1 <= i {
                        i + 1
                    } else {
                        m + 1
                    };
                    proof {
                        assert(next == bump(i as int, m + 1 as int));
                    }
                    match parse_attrs(s, next) {
                        None => None,
                        Some((rest, end)) => {
                            let name = sub_vec(s, j, k);
                            let attr = XmlAttr { name, value: val };
                            let ghost rest0 = rest@;
                            let mut rest = rest;
                            rest.insert(0, attr);
                            proof {
                                assert(rest@[0] == attr);
                                assert(rest@.subrange(1, rest@.len() as int) =~= rest0);
                                assert(attrs_model(rest@) == seq![attr_model(attr)] + attrs_model(
                                    rest0,
                                ));
                                assert(attr_model(attr) =~= SAttr {
                                    name: s@.subrange(j as int, k as int),
                                    value: val@,
                                });
                            }
                            Some((rest, end))
                        },
                    }
                } else {
                    None
                },
            }
        } else {
            None
        }
    } else {
        let v: Vec<XmlAttr> = Vec::new();
        proof {
            assert(attrs_model(v@) =~= Seq::<SAttr>::empty());
        }
        Some((v, j))
    }
}

// ---------------------------------------------------------------------------
// Elements and mixed content
// ---------------------------------------------------------------------------

/// The element that starts at `i` (which must hold a `<`), and the index
/// past its closing tag.
pub open spec fn spec_parse_elem(s: Seq<u8>, i: int) -> Option<(SElem, int)>
    decreases s.len() - i, 0int,
{
    if !(0 <= i < s.len() && s[i] == 60) {
        None
    } else if i + 1 < s.len() && is_name_start(s[i + 1]) {
        let ne = spec_scan_name(s, i + 1);
        let name = s.subrange(i + 1, ne);
        match spec_parse_attrs(s, ne) {
            None => None,
            Some((attrs, p)) => {
                if p < s.len() && s[p] == 47 && p + 1 < s.len() && s[p + 1] == 62 {
                    Some((SElem { name, attrs, children: Seq::empty() }, p + 2))
                } else if p < s.len() && s[p] == 62 {
                    match spec_parse_content(s, bump(i, p + 1)) {
                        None => None,
                        Some((children, q)) => {
                            if q < s.len() && s[q] == 60 && q + 1 < s.len() && s[q + 1] == 47 {
                                let ce = spec_scan_name(s, q + 2);
                                if s.subrange(q + 2, ce) == name {
                                    let r = spec_skip_ws(s, ce);
                                    if r < s.len() && s[r] == 62 {
                                        Some((SElem { name, attrs, children }, r + 1))
                                    } else {
                                        None
                                    }
                                } else {
                                    None
                                }
                            } else {
                                None
                            }
                        },
                    }
                } else {
                    None
                }
            },
        }
    } else {
        None
    }
}

/// The children of an element, read from `i` up to (not including) the
/// `</` of its closing tag. Comments (to their `-->`) and processing
/// instructions (to their `?>`) are dropped; a CDATA section (to its
/// `]]>`) is a literal text node; any other `<!` declaration is skipped
/// to the next `>`. Reaching the end of the input here means an
/// unclosed element.
pub open spec fn spec_parse_content(s: Seq<u8>, i: int) -> Option<(Seq<SNode>, int)>
    decreases s.len() - i, 1int,
{
    if !(0 <= i < s.len()) {
        None
    } else if s[i] == 60 {
        if i + 1 < s.len() && s[i + 1] == 47 {
            Some((Seq::empty(), i))
        } else if is_comment_start(s, i) {
            let k = spec_find3(s, i + 4, 45, 45, 62);
            if k < s.len() {
                spec_parse_content(s, step(s, i, k + 3))
            } else {
                None
            }
        } else if is_cdata_start(s, i) {
            let k = spec_find3(s, i + 9, 93, 93, 62);
            if k < s.len() {
                match spec_parse_content(s, step(s, i, k + 3)) {
                    None => None,
                    Some((rest, q)) => Some((seq![SNode::Text(s.subrange(i + 9, k))] + rest, q)),
                }
            } else {
                None
            }
        } else if i + 1 < s.len() && s[i + 1] == 63 {
            let k = spec_find2(s, i + 2, 63, 62);
            if k < s.len() {
                spec_parse_content(s, step(s, i, k + 2))
            } else {
                None
            }
        } else if i + 1 < s.len() && s[i + 1] == 33 {
            let k = spec_find(s, i, 62);
            if k < s.len() {
                spec_parse_content(s, step(s, i, k + 1))
            } else {
                None
            }
        } else {
            match spec_parse_elem(s, i) {
                None => None,
                Some((e, j)) => match spec_parse_content(s, step(s, i, j)) {
                    None => None,
                    Some((rest, q)) => Some((seq![SNode::Elem(e)] + rest, q)),
                },
            }
        }
    } else {
        match spec_unescape(s, i, 60) {
            None => None,
            Some((t, j)) => match spec_parse_content(s, step(s, i, j)) {
                None => None,
                Some((rest, q)) => Some((seq![SNode::Text(t)] + rest, q)),
            },
        }
    }
}

fn parse_elem(s: &[u8], i: usize) -> (r: Option<(XmlElem, usize)>)
    requires
        i <= s@.len(),
    ensures
        match r {
            Some((e, j)) => spec_parse_elem(s@, i as int) == Some((elem_model(e), j as int)) && i
                < j <= s@.len(),
            None => spec_parse_elem(s@, i as int) is None,
        },
    decreases s@.len() - i, 0int,
{
    if !(i < s.len() && s[i] == 60) {
        None
    } else if i + 1 < s.len() && name_start_byte(s[i + 1]) {
        let ne = scan_name(s, i + 1);
        match parse_attrs(s, ne) {
            None => None,
            Some((attrs, p)) => {
                if p < s.len() && s[p] == 47 && p + 1 < s.len() && s[p + 1] == 62 {
                    let name = sub_vec(s, i + 1, ne);
                    let e = XmlElem { name, attrs, children: Vec::new() };
                    proof {
                        assert(elem_model(e) =~= SElem {
                            name: s@.subrange(i + 1 as int, ne as int),
                            attrs: attrs_model(e.attrs@),
                            children: Seq::empty(),
                        });
                    }
                    Some((e, p + 2))
                } else if p < s.len() && s[p] == 62 {
                    let next = if p + 1 <= i {
                        i + 1
                    } else {
                        p + 1
                    };
                    proof {
                        assert(next == bump(i as int, p + 1 as int));
                    }
                    match parse_content(s, next) {
                        None => None,
                        Some((children, q)) => {
                            if q < s.len() && s[q] == 60 && q + 1 < s.len() && s[q + 1] == 47 {
                                let ce = scan_name(s, q + 2);
                                if range_eq(s, q + 2, ce, i + 1, ne) {
                                    let r = skip_ws(s, ce);
                                    if r < s.len() && s[r] == 62 {
                                        let name = sub_vec(s, i + 1, ne);
                                        let e = XmlElem { name, attrs, children };
                                        proof {
                                            assert(elem_model(e) =~= SElem {
                                                name: s@.subrange(i + 1 as int, ne as int),
                                                attrs: attrs_model(e.attrs@),
                                                children: nodes_model(e.children@),
                                            });
                                        }
                                        Some((e, r + 1))
                                    } else {
                                        None
                                    }
                                } else {
                                    None
                                }
                            } else {
                                None
                            }
                        },
                    }
                } else {
                    None
                }
            },
        }
    } else {
        None
    }
}

fn parse_content(s: &[u8], i: usize) -> (r: Option<(Vec<XmlNode>, usize)>)
    requires
        i <= s@.len(),
    ensures
        match r {
            Some((v, j)) => spec_parse_content(s@, i as int) == Some((nodes_model(v@), j as int))
                && i <= j <= s@.len(),
            None => spec_parse_content(s@, i as int) is None,
        },
    decreases s@.len() - i, 1int,
{
    if !(i < s.len()) {
        None
    } else if s[i] == 60 {
        if i + 1 < s.len() && s[i + 1] == 47 {
            let v: Vec<XmlNode> = Vec::new();
            proof {
                assert(nodes_model(v@) =~= Seq::<SNode>::empty());
            }
            Some((v, i))
        } else if comment_start(s, i) {
            let k = find3(s, i + 4, 45, 45, 62);
            if k < s.len() {
                let raw = k + 3;
                let next = if raw <= i {
                    i + 1
                } else {
                    raw
                };
                let next = if next > s.len() {
                    s.len()
                } else {
                    next
                };
                proof {
                    assert(next == step(s@, i as int, k + 3 as int));
                }
                parse_content(s, next)
            } else {
                None
            }
        } else if cdata_start(s, i) {
            let k = find3(s, i + 9, 93, 93, 62);
            if k < s.len() {
                let raw = k + 3;
                let next = if raw <= i {
                    i + 1
                } else {
                    raw
                };
                let next = if next > s.len() {
                    s.len()
                } else {
                    next
                };
                proof {
                    assert(next == step(s@, i as int, k + 3 as int));
                }
                match parse_content(s, next) {
                    None => None,
                    Some((rest, q)) => {
                        let t = sub_vec(s, i + 9, k);
                        let ghost tview = t@;
                        let ghost rest0 = rest@;
                        let mut rest = rest;
                        rest.insert(0, XmlNode::Text(t));
                        proof {
                            assert(rest@[0] is Text && rest@[0]->Text_0@ == tview);
                            assert(rest@.subrange(1, rest@.len() as int) =~= rest0);
                            assert(nodes_model(rest@) == seq![node_model(rest@[0])] + nodes_model(
                                rest0,
                            ));
                            assert(node_model(rest@[0]) == SNode::Text(tview));
                        }
                        Some((rest, q))
                    },
                }
            } else {
                None
            }
        } else if i + 1 < s.len() && s[i + 1] == 63 {
            let k = find2(s, i + 2, 63, 62);
            if k < s.len() {
                let raw = k + 2;
                let next = if raw <= i {
                    i + 1
                } else {
                    raw
                };
                let next = if next > s.len() {
                    s.len()
                } else {
                    next
                };
                proof {
                    assert(next == step(s@, i as int, k + 2 as int));
                }
                parse_content(s, next)
            } else {
                None
            }
        } else if i + 1 < s.len() && s[i + 1] == 33 {
            let k = find_byte(s, i, 62);
            if k < s.len() {
                let raw = k + 1;
                let next = if raw <= i {
                    i + 1
                } else {
                    raw
                };
                let next = if next > s.len() {
                    s.len()
                } else {
                    next
                };
                proof {
                    assert(next == step(s@, i as int, k + 1 as int));
                }
                parse_content(s, next)
            } else {
                None
            }
        } else {
            match parse_elem(s, i) {
                None => None,
                Some((e, j)) => {
                    let next = if j <= i {
                        i + 1
                    } else {
                        j
                    };
                    proof {
                        assert(next == bump(i as int, j as int));
                    }
                    match parse_content(s, next) {
                        None => None,
                        Some((rest, q)) => {
                            let ghost rest0 = rest@;
                            let mut rest = rest;
                            rest.insert(0, XmlNode::Elem(e));
                            proof {
                                assert(rest@[0] == XmlNode::Elem(e));
                                assert(rest@.subrange(1, rest@.len() as int) =~= rest0);
                                assert(nodes_model(rest@) == seq![node_model(XmlNode::Elem(e))]
                                    + nodes_model(rest0));
                            }
                            Some((rest, q))
                        },
                    }
                },
            }
        }
    } else {
        match unescape(s, i, 60) {
            None => None,
            Some((t, j)) => {
                let next = if j <= i {
                    i + 1
                } else {
                    j
                };
                proof {
                    assert(next == bump(i as int, j as int));
                }
                match parse_content(s, next) {
                    None => None,
                    Some((rest, q)) => {
                        let ghost tview = t@;
                        let ghost rest0 = rest@;
                        let mut rest = rest;
                        rest.insert(0, XmlNode::Text(t));
                        proof {
                            assert(rest@[0] is Text && rest@[0]->Text_0@ == tview);
                            assert(rest@.subrange(1, rest@.len() as int) =~= rest0);
                            assert(nodes_model(rest@) == seq![node_model(rest@[0])] + nodes_model(
                                rest0,
                            ));
                            assert(node_model(rest@[0]) == SNode::Text(tview));
                        }
                        Some((rest, q))
                    },
                }
            },
        }
    }
}

// ---------------------------------------------------------------------------
// Documents
// ---------------------------------------------------------------------------

/// Skips whitespace, XML declarations, processing instructions and
/// comments that stand outside the root element; an unterminated one
/// runs to the end of the input.
pub open spec fn spec_skip_misc(s: Seq<u8>, i: int) -> int
    decreases s.len() - i,
{
    let j = spec_skip_ws(s, i);
    if is_comment_start(s, j) {
        let k = spec_find3(s, j + 4, 45, 45, 62);
        if k < s.len() {
            spec_skip_misc(s, step(s, i, k + 3))
        } else {
            s.len() as int
        }
    } else if j < s.len() && s[j] == 60 && j + 1 < s.len() && s[j + 1] == 63 {
        let k = spec_find2(s, j + 2, 63, 62);
        if k < s.len() {
            spec_skip_misc(s, step(s, i, k + 2))
        } else {
            s.len() as int
        }
    } else if j < s.len() && s[j] == 60 && j + 1 < s.len() && s[j + 1] == 33 {
        let k = spec_find(s, j, 62);
        if k < s.len() {
            spec_skip_misc(s, step(s, i, k + 1))
        } else {
            s.len() as int
        }
    } else {
        j
    }
}

fn skip_misc(s: &[u8], i: usize) -> (r: usize)
    requires
        i <= s@.len(),
    ensures
        r == spec_skip_misc(s@, i as int),
        r <= s@.len(),
    decreases s@.len() - i,
{
    let j = skip_ws(s, i);
    if comment_start(s, j) {
        proof {
            vstd::slice::axiom_spec_len(s);
            assert(j + 4 <= s@.len());
        }
        let k = find3(s, j + 4, 45, 45, 62);
        if k < s.len() {
            let raw = k + 3;
            let next = if raw <= i {
                i + 1
            } else {
                raw
            };
            let next = if next > s.len() {
                s.len()
            } else {
                next
            };
            proof {
                assert(next == step(s@, i as int, k + 3 as int));
            }
            skip_misc(s, next)
        } else {
            s.len()
        }
    } else if j < s.len() && s[j] == 60 && j + 1 < s.len() && s[j + 1] == 63 {
        let k = find2(s, j + 2, 63, 62);
        if k < s.len() {
            let raw = k + 2;
            let next = if raw <= i {
                i + 1
            } else {
                raw
            };
            let next = if next > s.len() {
                s.len()
            } else {
                next
            };
            proof {
                assert(next == step(s@, i as int, k + 2 as int));
            }
            skip_misc(s, next)
        } else {
            s.len()
        }
    } else if j < s.len() && s[j] == 60 && j + 1 < s.len() && s[j + 1] == 33 {
        let k = find_byte(s, j, 62);
        if k < s.len() {
            let raw = k + 1;
            let next = if raw <= i {
                i + 1
            } else {
                raw
            };
            let next = if next > s.len() {
                s.len()
            } else {
                next
            };
            proof {
                assert(next == step(s@, i as int, k + 1 as int));
            }
            skip_misc(s, next)
        } else {
            s.len()
        }
    } else {
        j
    }
}

/// The root element of a whole document: leading and trailing
/// whitespace, declarations and comments are allowed around it, and
/// nothing else.
pub open spec fn spec_parse_document(s: Seq<u8>) -> Option<SElem> {
    let a = spec_skip_misc(s, 0);
    match spec_parse_elem(s, a) {
        None => None,
        Some((e, j)) => if spec_skip_misc(s, j) == s.len() {
            Some(e)
        } else {
            None
        },
    }
}

/// Parses a whole document into its root element.
pub fn parse_document(s: &[u8]) -> (r: Option<XmlElem>)
    ensures
        match r {
            Some(e) => spec_parse_document(s@) == Some(elem_model(e)),
            None => spec_parse_document(s@) is None,
        },
{
    let a = skip_misc(s, 0);
    match parse_elem(s, a) {
        None => None,
        Some((e, j)) => if skip_misc(s, j) == s.len() {
            Some(e)
        } else {
            None
        },
    }
}

// ---------------------------------------------------------------------------
// Navigation
// ---------------------------------------------------------------------------

pub proof fn lemma_nodes_model_index(s: Seq<XmlNode>)
    ensures
        nodes_model(s).len() == s.len(),
        forall|i: int| 0 <= i < s.len() ==> nodes_model(s)[i] == node_model(#[trigger] s[i]),
    decreases s,
{
    if s.len() > 0 {
        let tail = s.subrange(1, s.len() as int);
        lemma_nodes_model_index(tail);
        assert forall|i: int| 0 <= i < s.len() implies nodes_model(s)[i] == node_model(
            #[trigger] s[i],
        ) by {
            if i == 0 {
                assert(nodes_model(s)[0] == node_model(s[0]));
            } else {
                assert(nodes_model(s)[i] == nodes_model(tail)[i - 1]);
                assert(tail[i - 1] == s[i]);
            }
        }
    }
}

pub proof fn lemma_attrs_model_index(s: Seq<XmlAttr>)
    ensures
        attrs_model(s).len() == s.len(),
        forall|i: int| 0 <= i < s.len() ==> attrs_model(s)[i] == attr_model(#[trigger] s[i]),
    decreases s,
{
    if s.len() > 0 {
        let tail = s.subrange(1, s.len() as int);
        lemma_attrs_model_index(tail);
        assert forall|i: int| 0 <= i < s.len() implies attrs_model(s)[i] == attr_model(
            #[trigger] s[i],
        ) by {
            if i == 0 {
                assert(attrs_model(s)[0] == attr_model(s[0]));
            } else {
                assert(attrs_model(s)[i] == attrs_model(tail)[i - 1]);
                assert(tail[i - 1] == s[i]);
            }
        }
    }
}

/// The first child element named `name`, looking from position `i` on.
pub open spec fn spec_find_child(cs: Seq<SNode>, name: Seq<u8>, i: int) -> Option<SElem>
    decreases cs.len() - i,
{
    if !(0 <= i < cs.len()) {
        None
    } else {
        match cs[i] {
            SNode::Elem(e) => if e.name == name {
                Some(e)
            } else {
                spec_find_child(cs, name, i + 1)
            },
            SNode::Text(_) => spec_find_child(cs, name, i + 1),
        }
    }
}

pub fn find_child_from<'a>(e: &'a XmlElem, name: &[u8], i: usize) -> (r: Option<&'a XmlElem>)
    requires
        i <= e.children@.len(),
    ensures
        match r {
            Some(c) => spec_find_child(nodes_model(e.children@), name@, i as int) == Some(
                elem_model(*c),
            ),
            None => spec_find_child(nodes_model(e.children@), name@, i as int) is None,
        },
    decreases e.children@.len() - i,
{
    proof {
        lemma_nodes_model_index(e.children@);
    }
    if i >= e.children.len() {
        None
    } else {
        match &e.children[i] {
            XmlNode::Elem(c) => {
                if bytes_eq(c.name.as_slice(), name) {
                    Some(c)
                } else {
                    find_child_from(e, name, i + 1)
                }
            },
            XmlNode::Text(_) => find_child_from(e, name, i + 1),
        }
    }
}

pub fn find_child<'a>(e: &'a XmlElem, name: &[u8]) -> (r: Option<&'a XmlElem>)
    ensures
        match r {
            Some(c) => spec_find_child(nodes_model(e.children@), name@, 0) == Some(elem_model(*c)),
            None => spec_find_child(nodes_model(e.children@), name@, 0) is None,
        },
{
    find_child_from(e, name, 0)
}

/// The value of the first attribute named `name`, looking from `i` on.
pub open spec fn spec_attr(attrs: Seq<SAttr>, name: Seq<u8>, i: int) -> Option<Seq<u8>>
    decreases attrs.len() - i,
{
    if !(0 <= i < attrs.len()) {
        None
    } else if attrs[i].name == name {
        Some(attrs[i].value)
    } else {
        spec_attr(attrs, name, i + 1)
    }
}

pub fn attr_from<'a>(e: &'a XmlElem, name: &[u8], i: usize) -> (r: Option<&'a Vec<u8>>)
    requires
        i <= e.attrs@.len(),
    ensures
        match r {
            Some(v) => spec_attr(attrs_model(e.attrs@), name@, i as int) == Some(v@),
            None => spec_attr(attrs_model(e.attrs@), name@, i as int) is None,
        },
    decreases e.attrs@.len() - i,
{
    proof {
        lemma_attrs_model_index(e.attrs@);
    }
    if i >= e.attrs.len() {
        None
    } else {
        let a = &e.attrs[i];
        if bytes_eq(a.name.as_slice(), name) {
            Some(&a.value)
        } else {
            attr_from(e, name, i + 1)
        }
    }
}

pub fn attr_of<'a>(e: &'a XmlElem, name: &[u8]) -> (r: Option<&'a Vec<u8>>)
    ensures
        match r {
            Some(v) => spec_attr(attrs_model(e.attrs@), name@, 0) == Some(v@),
            None => spec_attr(attrs_model(e.attrs@), name@, 0) is None,
        },
{
    attr_from(e, name, 0)
}

/// The concatenated text children from position `i` on; nested elements
/// contribute nothing.
pub open spec fn spec_texts(cs: Seq<SNode>, i: int) -> Seq<u8>
    decreases cs.len() - i,
{
    if !(0 <= i < cs.len()) {
        Seq::empty()
    } else {
        (match cs[i] {
            SNode::Text(t) => t,
            SNode::Elem(_) => Seq::empty(),
        }) + spec_texts(cs, i + 1)
    }
}

pub fn text_from(e: &XmlElem, i: usize) -> (v: Vec<u8>)
    requires
        i <= e.children@.len(),
    ensures
        v@ == spec_texts(nodes_model(e.children@), i as int),
    decreases e.children@.len() - i,
{
    proof {
        lemma_nodes_model_index(e.children@);
    }
    if i >= e.children.len() {
        let v: Vec<u8> = Vec::new();
        proof {
            assert(v@ =~= spec_texts(nodes_model(e.children@), i as int));
        }
        v
    } else {
        let mut rest = text_from(e, i + 1);
        match &e.children[i] {
            XmlNode::Text(t) => {
                let mut h = vstd::slice::slice_to_vec(t.as_slice());
                h.append(&mut rest);
                proof {
                    assert(h@ =~= spec_texts(nodes_model(e.children@), i as int));
                }
                h
            },
            XmlNode::Elem(_) => {
                proof {
                    assert(rest@ =~= spec_texts(nodes_model(e.children@), i as int));
                }
                rest
            },
        }
    }
}

/// The text content of the first child element named `name`.
pub open spec fn spec_child_text(e: SElem, name: Seq<u8>) -> Option<Seq<u8>> {
    match spec_find_child(e.children, name, 0) {
        None => None,
        Some(c) => Some(spec_texts(c.children, 0)),
    }
}

pub fn child_text(e: &XmlElem, name: &[u8]) -> (r: Option<Vec<u8>>)
    ensures
        match r {
            Some(v) => spec_child_text(elem_model(*e), name@) == Some(v@),
            None => spec_child_text(elem_model(*e), name@) is None,
        },
{
    match find_child(e, name) {
        None => None,
        Some(c) => Some(text_from(c, 0)),
    }
}

} // verus!
