use vstd::prelude::*;
use vstd::string::{StringExecFns, StrSliceExecFns, StringSliceAdditionalSpecFns};
use vstd::utf8::{decode_utf8, encode_utf8_decode_utf8};
use crate::errors::ParseError;
use crate::feed::{Entry, EntryM, LinkM, TagM, Author, Tag, Link, entry_model, entries_model,
    links_model, tags_model, authors_model, spec_parse_feed, parse_feed};
use crate::wrappers::{string_bytes, bytes_to_string, parse_rfc3339, rfc3339_parse};

verus! {

broadcast use encode_utf8_decode_utf8;

/// A point in time: seconds since the Unix epoch and subsecond
/// nanoseconds, as an RFC 3339 timestamp denotes it.
#[derive(Debug, Clone, Copy, PartialEq, Eq, Structural)]
pub struct Timestamp {
    pub secs: i64,
    pub nanos: u32,
}

/// The canonical record for one paper.
#[derive(Debug, PartialEq, Eq)]
pub struct Paper {
    pub arxiv_id: String,
    pub title: String,
    pub authors: Vec<String>,
    pub abstract_text: String,
    pub published: Timestamp,
    pub updated: Timestamp,
    pub categories: Vec<String>,
    pub pdf_url: String,
    pub comment: Option<String>,
    pub journal_ref: Option<String>,
    pub doi: Option<String>,
    pub primary_category: String,
}

/// The mathematical shape of a record, over character strings.
#[verifier::ext_equal]
pub struct PaperM {
    pub arxiv_id: Seq<char>,
    pub title: Seq<char>,
    pub authors: Seq<Seq<char>>,
    pub abstract_text: Seq<char>,
    pub published: Timestamp,
    pub updated: Timestamp,
    pub categories: Seq<Seq<char>>,
    pub pdf_url: Seq<char>,
    pub comment: Option<Seq<char>>,
    pub journal_ref: Option<Seq<char>>,
    pub doi: Option<Seq<char>>,
    pub primary_category: Seq<char>,
}

pub open spec fn strs_model(v: Seq<String>) -> Seq<Seq<char>>
    decreases v,
{
    if v.len() == 0 {
        Seq::empty()
    } else {
        seq![v[0]@] + strs_model(v.subrange(1, v.len() as int))
    }
}

pub proof fn lemma_strs_model_index(v: Seq<String>)
    ensures
        strs_model(v).len() == v.len(),
        forall|i: int| 0 <= i < v.len() ==> strs_model(v)[i] == (#[trigger] v[i])@,
    decreases v,
{
    if v.len() > 0 {
        let tail = v.subrange(1, v.len() as int);
        lemma_strs_model_index(tail);
        assert forall|i: int| 0 <= i < v.len() implies strs_model(v)[i] == (#[trigger] v[i])@ by {
            if i > 0 {
                assert(strs_model(v)[i] == strs_model(tail)[i - 1]);
                assert(tail[i - 1] == v[i]);
            }
        }
    }
}

pub open spec fn opt_chars(o: Option<String>) -> Option<Seq<char>> {
    match o {
        None => None,
        Some(s) => Some(s@),
    }
}

pub open spec fn paper_model(p: Paper) -> PaperM {
    PaperM {
        arxiv_id: p.arxiv_id@,
        title: p.title@,
        authors: strs_model(p.authors@),
        abstract_text: p.abstract_text@,
        published: p.published,
        updated: p.updated,
        categories: strs_model(p.categories@),
        pdf_url: p.pdf_url@,
        comment: opt_chars(p.comment),
        journal_ref: opt_chars(p.journal_ref),
        doi: opt_chars(p.doi),
        primary_category: p.primary_category@,
    }
}

pub open spec fn papers_model(v: Seq<Paper>) -> Seq<PaperM>
    decreases v,
{
    if v.len() == 0 {
        Seq::empty()
    } else {
        seq![paper_model(v[0])] + papers_model(v.subrange(1, v.len() as int))
    }
}

// ---------------------------------------------------------------------------
// Identifier extraction
// ---------------------------------------------------------------------------

/// Start of the last path segment: the index just past the last `/`, or
/// zero when there is none, scanning down from `i`.
pub open spec fn tail_start(s: Seq<char>, i: int) -> int
    decreases i,
{
    if 0 < i <= s.len() {
        if s[i - 1] == '/' {
            i
        } else {
            tail_start(s, i - 1)
        }
    } else {
        0
    }
}

/// Index past every leading `abs/` of the suffix that starts at `a`.
pub open spec fn strip_abs(s: Seq<char>, a: int) -> int
    decreases s.len() - a,
{
    if 0 <= a && a + 4 <= s.len() && s[a] == 'a' && s[a + 1] == 'b' && s[a + 2] == 's' && s[a + 3]
        == '/' {
        strip_abs(s, a + 4)
    } else {
        a
    }
}

/// The canonical identifier inside a resource URL: the last path
/// segment, with any leading `abs/` stripped.
pub open spec fn spec_extract_id(s: Seq<char>) -> Seq<char> {
    s.subrange(strip_abs(s, tail_start(s, s.len() as int)), s.len() as int)
}

fn tail_start_exec(url: &str, i: usize) -> (r: usize)
    requires
        i <= url@.len(),
    ensures
        r == tail_start(url@, i as int),
        r <= url@.len(),
    decreases i,
{
    if 0 < i {
        if url.get_char(i - 1) == '/' {
            i
        } else {
            tail_start_exec(url, i - 1)
        }
    } else {
        0
    }
}

fn strip_abs_exec(url: &str, n: usize, a: usize) -> (r: usize)
    requires
        a <= n == url@.len(),
    ensures
        r == strip_abs(url@, a as int),
        a <= r <= url@.len(),
    decreases n - a,
{
    if n - a >= 4 && url.get_char(a) == 'a' && url.get_char(a + 1) == 'b' && url.get_char(a + 2)
        == 's' && url.get_char(a + 3) == '/' {
        strip_abs_exec(url, n, a + 4)
    } else {
        a
    }
}

/// Extracts the canonical identifier from a resource URL.
pub fn extract_arxiv_id(url: &str) -> (r: String)
    ensures
        r@ == spec_extract_id(url@),
{
    let n = url.unicode_len();
    let t = tail_start_exec(url, n);
    let a = strip_abs_exec(url, n, t);
    let sub = url.substring_char(a, n);
    String::from_str(sub)
}

// ---------------------------------------------------------------------------
// Whitespace trimming
// ---------------------------------------------------------------------------

/// The Unicode white-space characters, the set `str::trim` strips.
pub open spec fn is_ws_char(c: char) -> bool {
    (c as u32 == 0x09) || (c as u32 == 0x0A) || (c as u32 == 0x0B) || (c as u32 == 0x0C) || (
    c as u32 == 0x0D) || (c as u32 == 0x20) || (c as u32 == 0x85) || (c as u32 == 0xA0) || (
    c as u32 == 0x1680) || (0x2000 <= c as u32 && c as u32 <= 0x200A) || (c as u32 == 0x2028) || (
    c as u32 == 0x2029) || (c as u32 == 0x202F) || (c as u32 == 0x205F) || (c as u32 == 0x3000)
}

pub open spec fn skip_ws_chars(s: Seq<char>, i: int) -> int
    decreases s.len() - i,
{
    if 0 <= i < s.len() && is_ws_char(s[i]) {
        skip_ws_chars(s, i + 1)
    } else {
        i
    }
}

pub open spec fn trim_end_chars(s: Seq<char>, i: int) -> int
    decreases i,
{
    if 0 < i <= s.len() && is_ws_char(s[i - 1]) {
        trim_end_chars(s, i - 1)
    } else {
        i
    }
}

/// `s` without leading and trailing ASCII whitespace.
pub open spec fn spec_trim_chars(s: Seq<char>) -> Seq<char> {
    let a = skip_ws_chars(s, 0);
    let b = trim_end_chars(s, s.len() as int);
    if b <= a {
        Seq::empty()
    } else {
        s.subrange(a, b)
    }
}

fn ws_char(c: char) -> (r: bool)
    ensures
        r == is_ws_char(c),
{
    let u = c as u32;
    u == 0x09 || u == 0x0A || u == 0x0B || u == 0x0C || u == 0x0D || u == 0x20 || u == 0x85 || u
        == 0xA0 || u == 0x1680 || (0x2000 <= u && u <= 0x200A) || u == 0x2028 || u == 0x2029 || u
        == 0x202F || u == 0x205F || u == 0x3000
}

fn skip_ws_chars_exec(s: &str, i: usize) -> (r: usize)
    requires
        i <= s@.len(),
    ensures
        r == skip_ws_chars(s@, i as int),
        i <= r <= s@.len(),
    decreases s@.len() - i,
{
    if i < s.unicode_len() && ws_char(s.get_char(i)) {
        skip_ws_chars_exec(s, i + 1)
    } else {
        i
    }
}

fn trim_end_chars_exec(s: &str, i: usize) -> (r: usize)
    requires
        i <= s@.len(),
    ensures
        r == trim_end_chars(s@, i as int),
        r <= i,
    decreases i,
{
    if 0 < i && ws_char(s.get_char(i - 1)) {
        trim_end_chars_exec(s, i - 1)
    } else {
        i
    }
}

/// A fresh string holding `s` without leading and trailing whitespace.
pub fn trim_string(s: &str) -> (r: String)
    ensures
        r@ == spec_trim_chars(s@),
{
    let n = s.unicode_len();
    let a = skip_ws_chars_exec(s, 0);
    let b = trim_end_chars_exec(s, n);
    if b <= a {
        let r = String::new();
        proof {
            assert(r@ =~= spec_trim_chars(s@));
        }
        r
    } else {
        String::from_str(s.substring_char(a, b))
    }
}

// ---------------------------------------------------------------------------
// Normalization
// ---------------------------------------------------------------------------

pub open spec fn decode_all(v: Seq<Seq<u8>>) -> Seq<Seq<char>>
    decreases v,
{
    if v.len() == 0 {
        Seq::empty()
    } else {
        seq![decode_utf8(v[0])] + decode_all(v.subrange(1, v.len() as int))
    }
}

pub proof fn lemma_decode_all_index(v: Seq<Seq<u8>>)
    ensures
        decode_all(v).len() == v.len(),
        forall|i: int| 0 <= i < v.len() ==> decode_all(v)[i] == decode_utf8(#[trigger] v[i]),
    decreases v,
{
    if v.len() > 0 {
        let tail = v.subrange(1, v.len() as int);
        lemma_decode_all_index(tail);
        assert forall|i: int| 0 <= i < v.len() implies decode_all(v)[i] == decode_utf8(
            #[trigger] v[i],
        ) by {
            if i > 0 {
                assert(decode_all(v)[i] == decode_all(tail)[i - 1]);
                assert(tail[i - 1] == v[i]);
            }
        }
    }
}

/// The decoded `term` of each tag, in order.
pub open spec fn terms_decoded(v: Seq<TagM>) -> Seq<Seq<char>>
    decreases v,
{
    if v.len() == 0 {
        Seq::empty()
    } else {
        seq![decode_utf8(v[0].term)] + terms_decoded(v.subrange(1, v.len() as int))
    }
}

pub proof fn lemma_terms_decoded_index(v: Seq<TagM>)
    ensures
        terms_decoded(v).len() == v.len(),
        forall|i: int| 0 <= i < v.len() ==> terms_decoded(v)[i] == decode_utf8(
            (#[trigger] v[i]).term,
        ),
    decreases v,
{
    if v.len() > 0 {
        let tail = v.subrange(1, v.len() as int);
        lemma_terms_decoded_index(tail);
        assert forall|i: int| 0 <= i < v.len() implies terms_decoded(v)[i] == decode_utf8(
            (#[trigger] v[i]).term,
        ) by {
            if i > 0 {
                assert(terms_decoded(v)[i] == terms_decoded(tail)[i - 1]);
                assert(tail[i - 1] == v[i]);
            }
        }
    }
}

pub open spec fn opt_decode(o: Option<Seq<u8>>) -> Option<Seq<char>> {
    match o {
        None => None,
        Some(b) => Some(decode_utf8(b)),
    }
}

/// The `href` of the first link whose declared type is
/// `application/pdf`, looking from `i` on.
pub open spec fn find_pdf(ls: Seq<LinkM>, i: int) -> Option<Seq<char>>
    decreases ls.len() - i,
{
    if !(0 <= i < ls.len()) {
        None
    } else if ls[i].mime_type == Some("application/pdf".spec_bytes()) {
        Some(decode_utf8(ls[i].href))
    } else {
        find_pdf(ls, i + 1)
    }
}

/// The fallback document URL for a record without a typed link.
pub open spec fn pdf_fallback(id: Seq<char>) -> Seq<char> {
    "https://arxiv.org/pdf/"@ + id + ".pdf"@
}

/// One record from one entry: the identifier is extracted and must be
/// non-empty; title and abstract are trimmed; both timestamps must
/// parse; the primary category must be present; the document URL is the
/// first `application/pdf` link, or the fallback URL.
pub open spec fn paper_of(en: EntryM) -> Result<PaperM, ParseError> {
    let idc = spec_extract_id(decode_utf8(en.id));
    if idc.len() == 0 {
        Err(ParseError::MissingId)
    } else {
        match rfc3339_parse(decode_utf8(en.published)) {
            None => Err(ParseError::BadTimestamp),
            Some(p) => match rfc3339_parse(decode_utf8(en.updated)) {
                None => Err(ParseError::BadTimestamp),
                Some(u) => match en.primary_category {
                    None => Err(ParseError::MissingField),
                    Some(pc) => Ok(
                        PaperM {
                            arxiv_id: idc,
                            title: spec_trim_chars(decode_utf8(en.title)),
                            authors: decode_all(en.authors),
                            abstract_text: spec_trim_chars(decode_utf8(en.summary)),
                            published: Timestamp { secs: p.0, nanos: p.1 },
                            updated: Timestamp { secs: u.0, nanos: u.1 },
                            categories: terms_decoded(en.tags),
                            pdf_url: match find_pdf(en.links, 0) {
                                Some(h) => h,
                                None => pdf_fallback(idc),
                            },
                            comment: opt_decode(en.comment),
                            journal_ref: opt_decode(en.journal_ref),
                            doi: opt_decode(en.doi),
                            primary_category: decode_utf8(pc),
                        },
                    ),
                },
            },
        }
    }
}

fn author_names(v: &Vec<Author>) -> (r: Vec<String>)
    ensures
        strs_model(r@) == decode_all(authors_model(v@)),
{
    proof {
        crate::feed::lemma_authors_model_index(v@);
        lemma_decode_all_index(authors_model(v@));
    }
    let mut out: Vec<String> = Vec::new();
    let mut i: usize = 0;
    while i < v.len()
        invariant
            i <= v@.len(),
            out@.len() == i,
            forall|j: int| 0 <= j < i ==> out@[j]@ == (#[trigger] v@[j]).name@,
        decreases v@.len() - i,
    {
        out.push(v[i].name.clone());
        i = i + 1;
    }
    proof {
        lemma_strs_model_index(out@);
        let am = authors_model(v@);
        assert forall|j: int| 0 <= j < v@.len() implies strs_model(out@)[j] == decode_all(am)[j] by {
            assert(strs_model(out@)[j] == out@[j]@);
            assert(out@[j]@ == v@[j].name@);
            assert(decode_all(am)[j] == decode_utf8(am[j]));
            assert(am[j] == string_bytes(v@[j].name));
            assert(decode_utf8(string_bytes(v@[j].name)) == v@[j].name@);
        }
        assert(strs_model(out@) =~= decode_all(am));
    }
    out
}

fn tag_terms(v: &Vec<Tag>) -> (r: Vec<String>)
    ensures
        strs_model(r@) == terms_decoded(tags_model(v@)),
{
    proof {
        crate::feed::lemma_tags_model_index(v@);
        lemma_terms_decoded_index(tags_model(v@));
    }
    let mut out: Vec<String> = Vec::new();
    let mut i: usize = 0;
    while i < v.len()
        invariant
            i <= v@.len(),
            out@.len() == i,
            forall|j: int| 0 <= j < i ==> out@[j]@ == (#[trigger] v@[j]).term@,
        decreases v@.len() - i,
    {
        out.push(v[i].term.clone());
        i = i + 1;
    }
    proof {
        lemma_strs_model_index(out@);
        let tm = tags_model(v@);
        assert forall|j: int|
            0 <= j < v@.len() implies strs_model(out@)[j] == terms_decoded(tm)[j] by {
            assert(strs_model(out@)[j] == out@[j]@);
            assert(out@[j]@ == v@[j].term@);
            assert(terms_decoded(tm)[j] == decode_utf8(tm[j].term));
            assert(tm[j] == crate::feed::tag_model(v@[j]));
            assert(decode_utf8(string_bytes(v@[j].term)) == v@[j].term@);
        }
        assert(strs_model(out@) =~= terms_decoded(tm));
    }
    out
}

fn pdf_link(v: &Vec<Link>, i: usize) -> (r: Option<String>)
    requires
        i <= v@.len(),
    ensures
        match r {
            Some(s) => find_pdf(links_model(v@), i as int) == Some(s@),
            None => find_pdf(links_model(v@), i as int) is None,
        },
    decreases v@.len() - i,
{
    proof {
        crate::feed::lemma_links_model_index(v@);
    }
    if i >= v.len() {
        None
    } else {
        let l = &v[i];
        match &l.mime_type {
            Some(mt) => {
                if crate::bytes::bytes_eq(mt.as_str().as_bytes(), "application/pdf".as_bytes()) {
                    Some(l.href.clone())
                } else {
                    pdf_link(v, i + 1)
                }
            },
            None => pdf_link(v, i + 1),
        }
    }
}

fn build_paper(en: &Entry) -> (r: Result<Paper, ParseError>)
    ensures
        match r {
            Ok(p) => paper_of(entry_model(*en)) == Ok::<PaperM, ParseError>(paper_model(p)),
            Err(er) => paper_of(entry_model(*en)) == Err::<PaperM, ParseError>(er),
        },
{
    let arxiv_id = extract_arxiv_id(en.id.as_str());
    if arxiv_id.as_str().unicode_len() == 0 {
        return Err(ParseError::MissingId);
    }
    let published = match parse_rfc3339(en.published.as_str()) {
        Some(p) => Timestamp { secs: p.0, nanos: p.1 },
        None => {
            return Err(ParseError::BadTimestamp);
        },
    };
    let updated = match parse_rfc3339(en.updated.as_str()) {
        Some(u) => Timestamp { secs: u.0, nanos: u.1 },
        None => {
            return Err(ParseError::BadTimestamp);
        },
    };
    let primary_category = match &en.primary_category {
        Some(s) => s.clone(),
        None => {
            return Err(ParseError::MissingField);
        },
    };
    let title = trim_string(en.title.as_str());
    let abstract_text = trim_string(en.summary.as_str());
    let authors = author_names(&en.author);
    let categories = tag_terms(&en.tags);
    let pdf_url = match pdf_link(&en.link, 0) {
        Some(h) => h,
        None => {
            let u = String::from_str("https://arxiv.org/pdf/");
            let u = u.concat(arxiv_id.as_str());
            let u = u.concat(".pdf");
            proof {
                assert(u@ =~= pdf_fallback(arxiv_id@));
            }
            u
        },
    };
    let comment = match &en.comment {
        Some(s) => Some(s.clone()),
        None => None,
    };
    let journal_ref = match &en.journal_ref {
        Some(s) => Some(s.clone()),
        None => None,
    };
    let doi = match &en.doi {
        Some(s) => Some(s.clone()),
        None => None,
    };
    let p = Paper {
        arxiv_id,
        title,
        authors,
        abstract_text,
        published,
        updated,
        categories,
        pdf_url,
        comment,
        journal_ref,
        doi,
        primary_category,
    };
    proof {
        assert(paper_of(entry_model(*en)) is Ok);
        assert(paper_model(p) =~~= paper_of(entry_model(*en))->Ok_0);
    }
    Ok(p)
}

/// The records of a list of entries, in order; the first failing entry
/// fails the whole batch.
pub open spec fn papers_of(es: Seq<EntryM>, i: int) -> Result<Seq<PaperM>, ParseError>
    decreases es.len() - i,
{
    if !(0 <= i < es.len()) {
        Ok(Seq::empty())
    } else {
        match paper_of(es[i]) {
            Err(e) => Err(e),
            Ok(p) => match papers_of(es, i + 1) {
                Err(e) => Err(e),
                Ok(rest) => Ok(seq![p] + rest),
            },
        }
    }
}

/// What `parse_arxiv_response` returns on any input.
pub open spec fn spec_parse_papers(xml: Seq<u8>) -> Result<Seq<PaperM>, ParseError> {
    match spec_parse_feed(xml) {
        Err(e) => Err(e),
        Ok(f) => papers_of(f.entries, 0),
    }
}

fn papers_from(v: &Vec<Entry>, i: usize) -> (r: Result<Vec<Paper>, ParseError>)
    requires
        i <= v@.len(),
    ensures
        match r {
            Ok(ps) => papers_of(entries_model(v@), i as int) == Ok::<Seq<PaperM>, ParseError>(
                papers_model(ps@),
            ),
            Err(er) => papers_of(entries_model(v@), i as int) == Err::<Seq<PaperM>, ParseError>(
                er,
            ),
        },
    decreases v@.len() - i,
{
    proof {
        crate::feed::lemma_entries_model_index(v@);
    }
    if i >= v.len() {
        let ps: Vec<Paper> = Vec::new();
        proof {
            assert(papers_model(ps@) =~= Seq::<PaperM>::empty());
        }
        Ok(ps)
    } else {
        match build_paper(&v[i]) {
            Err(er) => Err(er),
            Ok(p) => match papers_from(v, i + 1) {
                Err(er) => Err(er),
                Ok(rest) => {
                    let ghost pm = paper_model(p);
                    let ghost rest0 = rest@;
                    let mut rest = rest;
                    rest.insert(0, p);
                    proof {
                        assert(rest@.subrange(1, rest@.len() as int) =~= rest0);
                        assert(paper_model(rest@[0]) == pm);
                        assert(papers_model(rest@) == seq![pm] + papers_model(rest0));
                    }
                    Ok(rest)
                },
            },
        }
    }
}

/// Decodes raw feed bytes into normalized records, in entry order. The
/// whole batch fails on the first entry that cannot be normalized: no
/// entry is ever dropped silently.
pub fn parse_arxiv_response(xml: &[u8]) -> (r: Result<Vec<Paper>, ParseError>)
    ensures
        match r {
            Ok(ps) => spec_parse_papers(xml@) == Ok::<Seq<PaperM>, ParseError>(papers_model(ps@)),
            Err(er) => spec_parse_papers(xml@) == Err::<Seq<PaperM>, ParseError>(er),
        },
{
    match parse_feed(xml) {
        Err(er) => Err(er),
        Ok(f) => papers_from(&f.entry, 0),
    }
}

// ---------------------------------------------------------------------------
// Laws
// ---------------------------------------------------------------------------

/// Law: when a batch of entries normalizes, it yields exactly one record
/// per entry, in entry order, and every record has a non-empty
/// identifier.
pub proof fn lemma_papers_of_entries(es: Seq<EntryM>, i: int)
    requires
        0 <= i <= es.len(),
        papers_of(es, i) is Ok,
    ensures
        papers_of(es, i)->Ok_0.len() == es.len() - i,
        forall|j: int|
            0 <= j < es.len() - i ==> paper_of(es[i + j]) == Ok::<PaperM, ParseError>(
                #[trigger] papers_of(es, i)->Ok_0[j],
            ),
        forall|j: int|
            0 <= j < es.len() - i ==> (#[trigger] papers_of(es, i)->Ok_0[j]).arxiv_id.len() > 0,
    decreases es.len() - i,
{
    if i < es.len() {
        lemma_papers_of_entries(es, i + 1);
        let head = paper_of(es[i])->Ok_0;
        let rest = papers_of(es, i + 1)->Ok_0;
        assert(papers_of(es, i)->Ok_0 == seq![head] + rest);
        assert forall|j: int| 0 <= j < es.len() - i implies paper_of(es[i + j]) == Ok::<
            PaperM,
            ParseError,
        >(#[trigger] papers_of(es, i)->Ok_0[j]) by {
            if j == 0 {
                assert(papers_of(es, i)->Ok_0[0] == head);
            } else {
                assert(papers_of(es, i)->Ok_0[j] == rest[j - 1]);
            }
        }
        assert forall|j: int|
            0 <= j < es.len() - i implies (#[trigger] papers_of(es, i)->Ok_0[j]).arxiv_id.len()
            > 0 by {
            assert(paper_of(es[i + j]) == Ok::<PaperM, ParseError>(papers_of(es, i)->Ok_0[j]));
        }
    }
}

/// Law: a feed that parses produces exactly as many records as it has
/// entries, in input order, each with a non-empty identifier.
pub proof fn lemma_parse_preserves_entries(xml: Seq<u8>)
    requires
        spec_parse_papers(xml) is Ok,
    ensures
        spec_parse_feed(xml) is Ok,
        spec_parse_papers(xml)->Ok_0.len() == spec_parse_feed(xml)->Ok_0.entries.len(),
        forall|j: int|
            0 <= j < spec_parse_feed(xml)->Ok_0.entries.len() ==> paper_of(
                spec_parse_feed(xml)->Ok_0.entries[j],
            ) == Ok::<PaperM, ParseError>(#[trigger] spec_parse_papers(xml)->Ok_0[j]),
        forall|j: int|
            0 <= j < spec_parse_papers(xml)->Ok_0.len() ==> (#[trigger] spec_parse_papers(
                xml,
            )->Ok_0[j]).arxiv_id.len() > 0,
{
    lemma_papers_of_entries(spec_parse_feed(xml)->Ok_0.entries, 0);
}

// ---------------------------------------------------------------------------
// Derived accessors
// ---------------------------------------------------------------------------

/// The strings joined with a comma and a space between each pair.
pub open spec fn spec_join(v: Seq<Seq<char>>, i: int) -> Seq<char>
    decreases v.len() - i,
{
    if !(0 <= i < v.len()) {
        Seq::empty()
    } else if i + 1 == v.len() {
        v[i]
    } else {
        v[i] + ", "@ + spec_join(v, i + 1)
    }
}

fn join_from(v: &Vec<String>, i: usize) -> (r: String)
    requires
        i <= v@.len(),
    ensures
        r@ == spec_join(strs_model(v@), i as int),
    decreases v@.len() - i,
{
    proof {
        lemma_strs_model_index(v@);
    }
    if i >= v.len() {
        let r = String::new();
        proof {
            assert(r@ =~= spec_join(strs_model(v@), i as int));
        }
        r
    } else if i + 1 == v.len() {
        v[i].clone()
    } else {
        let mut s = v[i].clone();
        s.append(", ");
        let rest = join_from(v, i + 1);
        let r = s.concat(rest.as_str());
        proof {
            assert(r@ =~= spec_join(strs_model(v@), i as int));
        }
        r
    }
}

/// The truncated abstract: unchanged when it fits, else its first
/// `max_len` bytes and an ASCII ellipsis (three full-stop bytes).
pub open spec fn spec_preview(b: Seq<u8>, max_len: int) -> Seq<u8> {
    if b.len() <= max_len {
        b
    } else {
        b.subrange(0, max_len) + seq![46u8, 46u8, 46u8]
    }
}

impl Paper {
    /// The author names joined with commas.
    pub fn authors_string(&self) -> (r: String)
        ensures
            r@ == spec_join(strs_model(self.authors@), 0),
    {
        join_from(&self.authors, 0)
    }

    /// The category tags joined with commas.
    pub fn categories_string(&self) -> (r: String)
        ensures
            r@ == spec_join(strs_model(self.categories@), 0),
    {
        join_from(&self.categories, 0)
    }

    /// The abstract cut to at most `max_len` bytes, with an ellipsis
    /// when something was cut. A cut below the byte length must fall on
    /// a character boundary: off a boundary no byte prefix of whole
    /// characters exists, and callers must not ask for one.
    pub fn abstract_preview(&self, max_len: usize) -> (r: String)
        requires
            string_bytes(self.abstract_text).len() <= max_len || vstd::utf8::is_char_boundary(
                string_bytes(self.abstract_text),
                max_len as int,
            ),
        ensures
            string_bytes(r) == spec_preview(string_bytes(self.abstract_text), max_len as int),
    {
        let a = self.abstract_text.as_str();
        let bytes = a.as_bytes();
        if bytes.len() <= max_len {
            self.abstract_text.clone()
        } else {
            let mut out = crate::bytes::sub_vec(bytes, 0, max_len);
            out.push(46);
            out.push(46);
            out.push(46);
            proof {
                let whole = string_bytes(self.abstract_text);
                let head = whole.subrange(0, max_len as int);
                let dots = seq![46u8, 46u8, 46u8];
                vstd::utf8::encode_utf8_valid_utf8(self.abstract_text@);
                vstd::utf8::valid_utf8_split(whole, max_len as int);
                crate::wrappers::lemma_ascii_valid_utf8(dots);
                vstd::utf8::valid_utf8_concat(head, dots);
                assert(out@ =~= head + dots);
                assert(vstd::utf8::valid_utf8(out@));
            }
            match bytes_to_string(out) {
                Some(s) => s,
                None => {
                    proof {
                        assert(false);
                    }
                    String::new()
                },
            }
        }
    }

    /// The text handed to the embedding collaborator: title, a space,
    /// and the abstract.
    pub fn text_for_embedding(&self) -> (r: String)
        ensures
            r@ == self.title@ + " "@ + self.abstract_text@,
    {
        let mut s = self.title.clone();
        s.append(" ");
        let r = s.concat(self.abstract_text.as_str());
        proof {
            assert(r@ =~= self.title@ + " "@ + self.abstract_text@);
        }
        r
    }
}

/// The classification categories the client offers shortcuts for.
#[derive(Debug, Clone, Copy, PartialEq, Eq, Structural)]
pub enum Category {
    ArtificialIntelligence,
    MachineLearning,
    ComputationAndLanguage,
    ComputerVision,
    Other,
}

pub open spec fn spec_category_str(c: Category) -> Seq<char> {
    match c {
        Category::ArtificialIntelligence => "cs.AI"@,
        Category::MachineLearning => "cs.LG"@,
        Category::ComputationAndLanguage => "cs.CL"@,
        Category::ComputerVision => "cs.CV"@,
        Category::Other => ""@,
    }
}

impl Category {
    /// The request parameter value for this category.
    pub fn as_str(&self) -> (r: &str)
        ensures
            r@ == spec_category_str(*self),
    {
        match self {
            Category::ArtificialIntelligence => "cs.AI",
            Category::MachineLearning => "cs.LG",
            Category::ComputationAndLanguage => "cs.CL",
            Category::ComputerVision => "cs.CV",
            Category::Other => "",
        }
    }
}

// ---------------------------------------------------------------------------
// Cloning
// ---------------------------------------------------------------------------

fn clone_strings(v: &Vec<String>) -> (r: Vec<String>)
    ensures
        r@ == v@,
{
    let mut out: Vec<String> = Vec::new();
    let mut i: usize = 0;
    while i < v.len()
        invariant
            i <= v@.len(),
            out@ == v@.subrange(0, i as int),
        decreases v@.len() - i,
    {
        out.push(v[i].clone());
        proof {
            assert(out@ =~= v@.subrange(0, i + 1 as int));
        }
        i = i + 1;
    }
    proof {
        assert(out@ =~= v@);
    }
    out
}

fn clone_opt(o: &Option<String>) -> (r: Option<String>)
    ensures
        r == *o,
{
    match o {
        None => None,
        Some(s) => Some(s.clone()),
    }
}

impl Clone for Paper {
    /// The copy carries the same record.
    fn clone(&self) -> (r: Self)
        ensures
            paper_model(r) == paper_model(*self),
            r.published == self.published,
            r.updated == self.updated,
    {
        let r = Paper {
            arxiv_id: self.arxiv_id.clone(),
            title: self.title.clone(),
            authors: clone_strings(&self.authors),
            abstract_text: self.abstract_text.clone(),
            published: self.published,
            updated: self.updated,
            categories: clone_strings(&self.categories),
            pdf_url: self.pdf_url.clone(),
            comment: clone_opt(&self.comment),
            journal_ref: clone_opt(&self.journal_ref),
            doi: clone_opt(&self.doi),
            primary_category: self.primary_category.clone(),
        };
        proof {
            assert(paper_model(r) =~~= paper_model(*self));
        }
        r
    }
}

/// No link in the list is typed `application/pdf`, so none is found.
pub proof fn lemma_find_pdf_none(ls: Seq<LinkM>, i: int)
    requires
        forall|j: int|
            0 <= j < ls.len() ==> (#[trigger] ls[j]).mime_type != Some(
                "application/pdf".spec_bytes(),
            ),
    ensures
        find_pdf(ls, i) is None,
    decreases ls.len() - i,
{
    if 0 <= i < ls.len() {
        lemma_find_pdf_none(ls, i + 1);
    }
}

/// Law: an entry whose links carry no `application/pdf` type gets the
/// fallback document URL built from its identifier.
pub proof fn lemma_pdf_fallback(en: EntryM)
    requires
        forall|j: int|
            0 <= j < en.links.len() ==> (#[trigger] en.links[j]).mime_type != Some(
                "application/pdf".spec_bytes(),
            ),
        paper_of(en) is Ok,
    ensures
        paper_of(en)->Ok_0.pdf_url == pdf_fallback(paper_of(en)->Ok_0.arxiv_id),
{
    lemma_find_pdf_none(en.links, 0);
}

/// Law: a malformed `published` timestamp fails the entry with the
/// timestamp error; nothing is ever coerced to a default time.
pub proof fn lemma_bad_timestamp(en: EntryM)
    requires
        spec_extract_id(decode_utf8(en.id)).len() > 0,
        rfc3339_parse(decode_utf8(en.published)) is None,
    ensures
        paper_of(en) == Err::<PaperM, ParseError>(ParseError::BadTimestamp),
{
}

/// Law: the batch fails with the first failing entry's error; no entry
/// is skipped silently.
pub proof fn lemma_batch_fails_on_entry(es: Seq<EntryM>, i: int, k: int)
    requires
        0 <= i <= k < es.len(),
        forall|j: int| i <= j < k ==> paper_of(#[trigger] es[j]) is Ok,
        paper_of(es[k]) is Err,
    ensures
        papers_of(es, i) == Err::<Seq<PaperM>, ParseError>(paper_of(es[k])->Err_0),
    decreases k - i,
{
    if i < k {
        lemma_batch_fails_on_entry(es, i + 1, k);
    }
}

} // verus!
