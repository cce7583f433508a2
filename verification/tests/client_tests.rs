use arxiv_tui::client::{ArxivClient, RateGate, first_or_not_found, handle_response};
use arxiv_tui::errors::{ApiError, ParseError};
use arxiv_tui::record::Category;

const EMPTY_FEED: &str = "<?xml version=\"1.0\"?><feed>\
    <title>t</title><id>i</id><updated>2017-06-13T00:00:00Z</updated>\
    </feed>";

#[test]
fn search_url_encodes_query_and_uses_default_limit() {
    let client = ArxivClient::new(3000, 10);
    assert_eq!(
        client.search_url("machine learning", None),
        "http://export.arxiv.org/api/query?search_query=machine%20learning&max_results=10"
    );
}

#[test]
fn search_url_forwards_caller_limit() {
    let client = ArxivClient::new(3000, 10);
    assert_eq!(
        client.search_url("cat:cs.AI", Some(100)),
        "http://export.arxiv.org/api/query?search_query=cat%3Acs.AI&max_results=100"
    );
}

#[test]
fn id_and_latest_urls() {
    let client = ArxivClient::new(3000, 10);
    assert_eq!(
        client.get_by_id_url("1706.03762"),
        "http://export.arxiv.org/api/query?id_list=1706.03762"
    );
    assert_eq!(
        client.get_latest_url(Category::ArtificialIntelligence, None),
        "http://export.arxiv.org/api/query?search_query=cat:cs.AI\
         &sortBy=submittedDate&sortOrder=descending&max_results=10"
    );
    assert_eq!(
        client.pdf_url("1706.03762"),
        "https://arxiv.org/pdf/1706.03762.pdf"
    );
}

#[test]
fn non_2xx_status_is_a_network_error() {
    assert_eq!(
        handle_response(404, EMPTY_FEED.as_bytes()),
        Err(ApiError::NetworkError(404))
    );
    assert_eq!(
        handle_response(500, b"irrelevant"),
        Err(ApiError::NetworkError(500))
    );
}

#[test]
fn undecodable_body_is_a_parse_failure() {
    assert_eq!(
        handle_response(200, b"not xml"),
        Err(ApiError::ParseFailed(ParseError::Malformed))
    );
}

#[test]
fn empty_feed_is_ok_for_search_but_not_found_for_lookup() {
    let papers = handle_response(200, EMPTY_FEED.as_bytes()).expect("search should succeed");
    assert!(papers.is_empty());
    assert_eq!(
        first_or_not_found(papers).unwrap_err(),
        ApiError::NotFoundError
    );
}

#[test]
fn rate_gate_spaces_consecutive_calls() {
    let mut gate = RateGate::new(3000);
    assert_eq!(gate.wait_needed(500), 0);
    gate.record_completion(1000);
    assert_eq!(gate.wait_needed(1000), 3000);
    assert_eq!(gate.wait_needed(2500), 1500);
    assert_eq!(gate.wait_needed(4000), 0);
    assert_eq!(gate.wait_needed(900), 3000);
    assert!(2500 + gate.wait_needed(2500) >= 1000 + 3000);
}
