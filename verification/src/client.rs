use vstd::prelude::*;
use vstd::string::{StringExecFns, StringSliceAdditionalSpecFns};
use vstd::utf8::{decode_utf8, encode_utf8_decode_utf8, encode_utf8_valid_utf8};
use crate::errors::{ApiError, ParseError};
use crate::numeral::{dec_digits, decimal_of, is_digit, lemma_dec_digits_correct};
use crate::record::{Paper, PaperM, papers_model, spec_parse_papers, parse_arxiv_response,
    Category, spec_category_str};
use crate::wrappers::{string_bytes, bytes_to_string, percent_encode, spec_percent_encode,
    lemma_percent_encode_ascii, lemma_ascii_valid_utf8};

verus! {

broadcast use encode_utf8_decode_utf8;

/// The query text as it stands in a URL.
pub open spec fn url_encoded(q: Seq<char>) -> Seq<char> {
    decode_utf8(spec_percent_encode(vstd::utf8::encode_utf8(q)))
}

/// A number as decimal characters.
pub open spec fn dec_chars(n: nat) -> Seq<char> {
    decode_utf8(dec_digits(n))
}

/// The result limit a request carries: what the caller asked for, or
/// the configured default when the caller asked for nothing. A
/// caller-supplied limit is always forwarded as it is.
pub open spec fn spec_limit(req: Option<u32>, dflt: u32) -> u32 {
    match req {
        Some(l) => l,
        None => dflt,
    }
}

pub open spec fn spec_search_url(q: Seq<char>, limit: u32) -> Seq<char> {
    "http://export.arxiv.org/api/query?search_query="@ + url_encoded(q) + "&max_results="@
        + dec_chars(limit as nat)
}

/// The one-shot search URL: the query against every field, with an
/// explicit start offset and result limit.
pub open spec fn spec_all_search_url(q: Seq<char>, start: u32, limit: u32) -> Seq<char> {
    "http://export.arxiv.org/api/query?search_query=all:"@ + url_encoded(q) + "&start="@
        + dec_chars(start as nat) + "&max_results="@ + dec_chars(limit as nat)
}

pub open spec fn spec_id_url(id: Seq<char>) -> Seq<char> {
    "http://export.arxiv.org/api/query?id_list="@ + id
}

pub open spec fn spec_latest_url(cat: Category, limit: u32) -> Seq<char> {
    "http://export.arxiv.org/api/query?search_query=cat:"@ + spec_category_str(cat)
        + "&sortBy=submittedDate&sortOrder=descending&max_results="@ + dec_chars(limit as nat)
}

fn url_encode_string(q: &str) -> (r: String)
    ensures
        r@ == url_encoded(q@),
{
    let pe = percent_encode(q.as_bytes());
    proof {
        lemma_percent_encode_ascii(q.spec_bytes());
        lemma_ascii_valid_utf8(pe@);
    }
    match bytes_to_string(pe) {
        Some(s) => {
            proof {
                assert(decode_utf8(string_bytes(s)) == s@);
            }
            s
        },
        None => {
            proof {
                assert(false);
            }
            String::new()
        },
    }
}

fn u32_string(n: u32) -> (r: String)
    ensures
        r@ == dec_chars(n as nat),
{
    let d = decimal_of(n as u64);
    proof {
        lemma_dec_digits_correct(n as nat);
        assert forall|i: int| 0 <= i < d@.len() implies d@[i] < 128 by {
            assert(is_digit(d@[i]));
        }
        lemma_ascii_valid_utf8(d@);
    }
    match bytes_to_string(d) {
        Some(s) => {
            proof {
                assert(decode_utf8(string_bytes(s)) == s@);
            }
            s
        },
        None => {
            proof {
                assert(false);
            }
            String::new()
        },
    }
}

/// Builds the one-shot search URL: the query is matched against every
/// field, and the start offset and limit are spelled out.
pub fn all_search_url(query: &str, start: u32, max_results: u32) -> (u: String)
    ensures
        u@ == spec_all_search_url(query@, start, max_results),
{
    let mut u = String::from_str("http://export.arxiv.org/api/query?search_query=all:");
    let enc = url_encode_string(query);
    u.append(enc.as_str());
    u.append("&start=");
    let ss = u32_string(start);
    u.append(ss.as_str());
    u.append("&max_results=");
    let ls = u32_string(max_results);
    u.append(ls.as_str());
    proof {
        assert(u@ =~= spec_all_search_url(query@, start, max_results));
    }
    u
}

/// The request-building and result-handling half of the query client;
/// the hosting application performs the fetch and the sleep between
/// requests.
pub struct ArxivClient {
    pub rate_limit_delay_ms: u64,
    pub max_results: u32,
}

impl ArxivClient {
    pub fn new(rate_limit_delay_ms: u64, max_results: u32) -> (c: Self)
        ensures
            c.rate_limit_delay_ms == rate_limit_delay_ms,
            c.max_results == max_results,
    {
        ArxivClient { rate_limit_delay_ms, max_results }
    }

    fn effective_limit(&self, req: Option<u32>) -> (l: u32)
        ensures
            l == spec_limit(req, self.max_results),
    {
        match req {
            Some(l) => l,
            None => self.max_results,
        }
    }

    /// The free-text search URL; the query passes through
    /// percent-encoded and otherwise untouched.
    pub fn search_url(&self, query: &str, max_results: Option<u32>) -> (u: String)
        ensures
            u@ == spec_search_url(query@, spec_limit(max_results, self.max_results)),
    {
        let l = self.effective_limit(max_results);
        let mut u = String::from_str("http://export.arxiv.org/api/query?search_query=");
        let enc = url_encode_string(query);
        u.append(enc.as_str());
        u.append("&max_results=");
        let ls = u32_string(l);
        u.append(ls.as_str());
        proof {
            assert(u@ =~= spec_search_url(query@, spec_limit(max_results, self.max_results)));
        }
        u
    }

    /// The single-record lookup URL.
    pub fn get_by_id_url(&self, arxiv_id: &str) -> (u: String)
        ensures
            u@ == spec_id_url(arxiv_id@),
    {
        let mut u = String::from_str("http://export.arxiv.org/api/query?id_list=");
        u.append(arxiv_id);
        proof {
            assert(u@ =~= spec_id_url(arxiv_id@));
        }
        u
    }

    /// The newest-first listing URL for one category; the ordering is
    /// requested from the upstream source, not computed here.
    pub fn get_latest_url(&self, category: Category, max_results: Option<u32>) -> (u: String)
        ensures
            u@ == spec_latest_url(category, spec_limit(max_results, self.max_results)),
    {
        let l = self.effective_limit(max_results);
        let mut u = String::from_str("http://export.arxiv.org/api/query?search_query=cat:");
        u.append(category.as_str());
        u.append("&sortBy=submittedDate&sortOrder=descending&max_results=");
        let ls = u32_string(l);
        u.append(ls.as_str());
        proof {
            assert(u@ =~= spec_latest_url(category, spec_limit(max_results, self.max_results)));
        }
        u
    }

    /// The document URL for one identifier.
    pub fn pdf_url(&self, arxiv_id: &str) -> (u: String)
        ensures
            u@ == "https://arxiv.org/pdf/"@ + arxiv_id@ + ".pdf"@,
    {
        let mut u = String::from_str("https://arxiv.org/pdf/");
        u.append(arxiv_id);
        u.append(".pdf");
        proof {
            assert(u@ =~= "https://arxiv.org/pdf/"@ + arxiv_id@ + ".pdf"@);
        }
        u
    }
}

// ---------------------------------------------------------------------------
// Response handling
// ---------------------------------------------------------------------------

/// What a fetched response yields: a non-2xx status is a network
/// failure carrying the status, anything else is decided by the parse.
pub open spec fn spec_handle(status: u16, xml: Seq<u8>) -> Result<Seq<PaperM>, ApiError> {
    if !(200 <= status < 300) {
        Err(ApiError::NetworkError(status))
    } else {
        match spec_parse_papers(xml) {
            Err(e) => Err(ApiError::ParseFailed(e)),
            Ok(ps) => Ok(ps),
        }
    }
}

/// Turns a fetched response into records. An empty record list is a
/// valid outcome here: only the single-record lookup turns it into a
/// failure.
pub fn handle_response(status: u16, body: &[u8]) -> (r: Result<Vec<Paper>, ApiError>)
    ensures
        match r {
            Ok(ps) => spec_handle(status, body@) == Ok::<Seq<PaperM>, ApiError>(papers_model(ps@)),
            Err(e) => spec_handle(status, body@) == Err::<Seq<PaperM>, ApiError>(e),
        },
{
    if !(200 <= status && status < 300) {
        Err(ApiError::NetworkError(status))
    } else {
        match parse_arxiv_response(body) {
            Err(e) => Err(ApiError::ParseFailed(e)),
            Ok(ps) => Ok(ps),
        }
    }
}

/// The sole record of a single-record lookup: zero entries are a
/// not-found failure, never an empty success.
pub fn first_or_not_found(papers: Vec<Paper>) -> (r: Result<Paper, ApiError>)
    ensures
        match r {
            Ok(p) => papers@.len() > 0 && p == papers@[0],
            Err(e) => e == ApiError::NotFoundError && papers@.len() == 0,
        },
{
    if papers.len() == 0 {
        Err(ApiError::NotFoundError)
    } else {
        let mut papers = papers;
        let p = papers.remove(0);
        Ok(p)
    }
}

/// Law: over a well-formed feed with zero entries, a search succeeds
/// with an empty sequence, while a lookup of a single record fails with
/// the not-found error.
pub proof fn lemma_empty_feed_outcomes(status: u16, xml: Seq<u8>)
    requires
        200 <= status < 300,
        spec_parse_papers(xml) == Ok::<Seq<PaperM>, ParseError>(Seq::<PaperM>::empty()),
    ensures
        spec_handle(status, xml) == Ok::<Seq<PaperM>, ApiError>(Seq::<PaperM>::empty()),
        spec_handle(status, xml)->Ok_0.len() == 0,
{
}

// ---------------------------------------------------------------------------
// The rate-limit gate
// ---------------------------------------------------------------------------

/// The single owner of the time of the last completed request. The
/// hosting application asks it how long to sleep before the next
/// request and reports each completion; every client call shares one
/// gate.
pub struct RateGate {
    pub delay_ms: u64,
    pub last_done_ms: Option<u64>,
}

/// How long a caller must still wait at `now` before issuing a request.
pub open spec fn spec_wait(g: RateGate, now: u64) -> u64 {
    match g.last_done_ms {
        None => 0,
        Some(t) => if now >= t {
            if now - t >= g.delay_ms {
                0
            } else {
                (g.delay_ms - (now - t)) as u64
            }
        } else {
            g.delay_ms
        },
    }
}

impl RateGate {
    pub fn new(delay_ms: u64) -> (g: Self)
        ensures
            g.delay_ms == delay_ms,
            g.last_done_ms is None,
    {
        RateGate { delay_ms, last_done_ms: None }
    }

    pub fn wait_needed(&self, now_ms: u64) -> (w: u64)
        ensures
            w == spec_wait(*self, now_ms),
    {
        match self.last_done_ms {
            None => 0,
            Some(t) => {
                if now_ms >= t {
                    let elapsed = now_ms - t;
                    if elapsed >= self.delay_ms {
                        0
                    } else {
                        self.delay_ms - elapsed
                    }
                } else {
                    self.delay_ms
                }
            },
        }
    }

    /// A request completed at `done_ms`; the next one is measured from
    /// here.
    pub fn record_completion(&mut self, done_ms: u64)
        ensures
            final(self).delay_ms == old(self).delay_ms,
            final(self).last_done_ms == Some(done_ms),
    {
        self.last_done_ms = Some(done_ms);
    }
}

/// Law: waiting out `wait_needed` puts the next request at least the
/// configured delay after the last completed one.
pub proof fn lemma_rate_gate_spacing(g: RateGate, now: u64, t: u64)
    requires
        g.last_done_ms == Some(t),
        now >= t,
    ensures
        now + spec_wait(g, now) >= t + g.delay_ms,
{
}

} // verus!
