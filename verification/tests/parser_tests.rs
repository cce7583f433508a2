use arxiv_tui::errors::ParseError;
use arxiv_tui::record::{extract_arxiv_id, parse_arxiv_response};

fn feed_with_entries(entries: &str) -> String {
    format!(
        "<?xml version=\"1.0\" encoding=\"UTF-8\"?>\n\
         <feed xmlns=\"http://www.w3.org/2005/Atom\">\n\
           <title>ArXiv Query Results</title>\n\
           <id>http://arxiv.org/api/abc</id>\n\
           <updated>2017-06-13T00:00:00Z</updated>\n\
           <link href=\"http://arxiv.org/api/query\" rel=\"self\"/>\n\
           {}\n\
         </feed>",
        entries
    )
}

fn full_entry() -> &'static str {
    "<entry>\n\
       <id>http://arxiv.org/abs/1706.03762v1</id>\n\
       <updated>2017-06-13T00:00:00Z</updated>\n\
       <published>2017-06-12T17:57:34Z</published>\n\
       <title>  Attention Is All You Need\n  </title>\n\
       <summary>\n    The dominant sequence transduction models are complex.\n  </summary>\n\
       <author><name>Ashish Vaswani</name></author>\n\
       <author><name>Noam Shazeer</name></author>\n\
       <arxiv:comment>15 pages</arxiv:comment>\n\
       <link href=\"http://arxiv.org/abs/1706.03762v1\" rel=\"alternate\" type=\"text/html\"/>\n\
       <link title=\"pdf\" href=\"http://arxiv.org/pdf/1706.03762v1\" rel=\"related\" type=\"application/pdf\"/>\n\
       <arxiv:primary_category term=\"cs.CL\" scheme=\"http://arxiv.org/schemas/atom\"/>\n\
       <category term=\"cs.CL\" scheme=\"http://arxiv.org/schemas/atom\"/>\n\
       <category term=\"cs.LG\" scheme=\"http://arxiv.org/schemas/atom\"/>\n\
     </entry>"
}

#[test]
fn parse_full_entry_fields() {
    let xml = feed_with_entries(full_entry());
    let papers = parse_arxiv_response(xml.as_bytes()).expect("feed should parse");
    assert_eq!(papers.len(), 1);
    let p = &papers[0];
    assert_eq!(p.arxiv_id, "1706.03762v1");
    assert_eq!(p.title, "Attention Is All You Need");
    assert_eq!(
        p.abstract_text,
        "The dominant sequence transduction models are complex."
    );
    assert_eq!(p.authors, vec!["Ashish Vaswani", "Noam Shazeer"]);
    assert_eq!(p.categories, vec!["cs.CL", "cs.LG"]);
    assert_eq!(p.primary_category, "cs.CL");
    assert_eq!(p.published.secs, 1497290254);
    assert_eq!(p.published.nanos, 0);
    assert_eq!(p.updated.secs, 1497312000);
    assert_eq!(p.pdf_url, "http://arxiv.org/pdf/1706.03762v1");
    assert_eq!(p.comment.as_deref(), Some("15 pages"));
    assert_eq!(p.journal_ref, None);
    assert_eq!(p.doi, None);
}

#[test]
fn parse_preserves_entry_count_and_order() {
    let e1 = full_entry();
    let e2 = "<entry>\
        <id>http://arxiv.org/abs/2001.00001v2</id>\
        <updated>2017-06-13T00:00:00Z</updated>\
        <published>2017-06-12T17:57:34Z</published>\
        <title>Second</title><summary>s</summary>\
        <arxiv:primary_category term=\"cs.AI\"/>\
        </entry>";
    let xml = feed_with_entries(&format!("{}\n{}", e1, e2));
    let papers = parse_arxiv_response(xml.as_bytes()).expect("feed should parse");
    assert_eq!(papers.len(), 2);
    assert_eq!(papers[0].arxiv_id, "1706.03762v1");
    assert_eq!(papers[1].arxiv_id, "2001.00001v2");
    assert!(!papers[0].arxiv_id.is_empty());
    assert!(!papers[1].arxiv_id.is_empty());
}

#[test]
fn extract_id_takes_last_segment() {
    assert_eq!(extract_arxiv_id("http://host/abs/1706.03762v1"), "1706.03762v1");
}

#[test]
fn extract_id_without_slashes() {
    assert_eq!(extract_arxiv_id("abs/xyz"), "xyz");
    assert_eq!(extract_arxiv_id("plain"), "plain");
    assert_eq!(extract_arxiv_id("trailing/"), "");
}

#[test]
fn entry_without_authors_is_not_an_error() {
    let entry = "<entry>\
        <id>http://arxiv.org/abs/2001.00001v1</id>\
        <updated>2017-06-13T00:00:00Z</updated>\
        <published>2017-06-12T17:57:34Z</published>\
        <title>No Authors</title><summary>s</summary>\
        <arxiv:primary_category term=\"cs.AI\"/>\
        </entry>";
    let xml = feed_with_entries(entry);
    let papers = parse_arxiv_response(xml.as_bytes()).expect("feed should parse");
    assert_eq!(papers.len(), 1);
    assert!(papers[0].authors.is_empty());
}

#[test]
fn missing_pdf_link_gets_fallback_url() {
    let entry = "<entry>\
        <id>http://arxiv.org/abs/2001.00001v1</id>\
        <updated>2017-06-13T00:00:00Z</updated>\
        <published>2017-06-12T17:57:34Z</published>\
        <title>t</title><summary>s</summary>\
        <link href=\"http://arxiv.org/abs/2001.00001v1\" rel=\"alternate\" type=\"text/html\"/>\
        <arxiv:primary_category term=\"cs.AI\"/>\
        </entry>";
    let xml = feed_with_entries(entry);
    let papers = parse_arxiv_response(xml.as_bytes()).expect("feed should parse");
    assert_eq!(papers[0].pdf_url, "https://arxiv.org/pdf/2001.00001v1.pdf");
}

#[test]
fn malformed_published_fails_the_batch() {
    let entry = "<entry>\
        <id>http://arxiv.org/abs/2001.00001v1</id>\
        <updated>2017-06-13T00:00:00Z</updated>\
        <published>yesterday</published>\
        <title>t</title><summary>s</summary>\
        <arxiv:primary_category term=\"cs.AI\"/>\
        </entry>";
    let xml = feed_with_entries(entry);
    assert_eq!(
        parse_arxiv_response(xml.as_bytes()),
        Err(ParseError::BadTimestamp)
    );
}

#[test]
fn structural_garbage_is_malformed() {
    assert_eq!(
        parse_arxiv_response(b"this is not xml at all"),
        Err(ParseError::Malformed)
    );
    assert_eq!(
        parse_arxiv_response(b"<feed><entry></feed>"),
        Err(ParseError::Malformed)
    );
    assert_eq!(
        parse_arxiv_response(b"<notafeed></notafeed>"),
        Err(ParseError::Malformed)
    );
}

#[test]
fn entities_are_decoded_in_text() {
    let entry = "<entry>\
        <id>http://arxiv.org/abs/2001.00001v1</id>\
        <updated>2017-06-13T00:00:00Z</updated>\
        <published>2017-06-12T17:57:34Z</published>\
        <title>P &amp; NP &lt;draft&gt;</title><summary>a &quot;b&quot; &apos;c&apos;</summary>\
        <arxiv:primary_category term=\"cs.AI\"/>\
        </entry>";
    let xml = feed_with_entries(entry);
    let papers = parse_arxiv_response(xml.as_bytes()).expect("feed should parse");
    assert_eq!(papers[0].title, "P & NP <draft>");
    assert_eq!(papers[0].abstract_text, "a \"b\" 'c'");
}

#[test]
fn unicode_whitespace_is_trimmed() {
    let entry = "<entry>\
        <id>http://arxiv.org/abs/2001.00001v1</id>\
        <updated>2017-06-13T00:00:00Z</updated>\
        <published>2017-06-12T17:57:34Z</published>\
        <title>\u{a0}\u{2003}Wide Margins\u{a0}</title><summary> s </summary>\
        <arxiv:primary_category term=\"cs.AI\"/>\
        </entry>";
    let xml = feed_with_entries(entry);
    let papers = parse_arxiv_response(xml.as_bytes()).expect("feed should parse");
    assert_eq!(papers[0].title, "Wide Margins");
    assert_eq!(papers[0].abstract_text, "s");
}

#[test]
fn comments_and_processing_instructions_are_skipped() {
    let entry = "<entry>\
        <!-- a comment with > inside and <brackets> -->\
        <id>http://arxiv.org/abs/2001.00001v1</id>\
        <?style keep > this?>\
        <updated>2017-06-13T00:00:00Z</updated>\
        <published>2017-06-12T17:57:34Z</published>\
        <title>t</title><summary>s</summary>\
        <arxiv:primary_category term=\"cs.AI\"/>\
        </entry>";
    let xml = feed_with_entries(entry);
    let papers = parse_arxiv_response(xml.as_bytes()).expect("feed should parse");
    assert_eq!(papers.len(), 1);
    assert_eq!(papers[0].title, "t");
}

#[test]
fn cdata_sections_are_literal_text() {
    let entry = "<entry>\
        <id>http://arxiv.org/abs/2001.00001v1</id>\
        <updated>2017-06-13T00:00:00Z</updated>\
        <published>2017-06-12T17:57:34Z</published>\
        <title><![CDATA[a < b & c > d]]></title><summary>pre <![CDATA[&raw;]]> post</summary>\
        <arxiv:primary_category term=\"cs.AI\"/>\
        </entry>";
    let xml = feed_with_entries(entry);
    let papers = parse_arxiv_response(xml.as_bytes()).expect("feed should parse");
    assert_eq!(papers[0].title, "a < b & c > d");
    assert_eq!(papers[0].abstract_text, "pre &raw; post");
}

#[test]
fn numeric_character_references_are_decoded() {
    let entry = "<entry>\
        <id>http://arxiv.org/abs/2001.00001v1</id>\
        <updated>2017-06-13T00:00:00Z</updated>\
        <published>2017-06-12T17:57:34Z</published>\
        <title>caf&#233; &#x2192; &#0065;</title><summary>&#x1F600;</summary>\
        <arxiv:primary_category term=\"cs.AI\"/>\
        </entry>";
    let xml = feed_with_entries(entry);
    let papers = parse_arxiv_response(xml.as_bytes()).expect("feed should parse");
    assert_eq!(papers[0].title, "caf\u{e9} \u{2192} A");
    assert_eq!(papers[0].abstract_text, "\u{1f600}");
}

#[test]
fn invalid_character_references_are_malformed() {
    for bad in ["&#xD800;", "&#1114112;", "&#;", "&#x;", "&unknown;", "& loose"] {
        let entry = format!(
            "<entry>\
            <id>http://arxiv.org/abs/2001.00001v1</id>\
            <updated>2017-06-13T00:00:00Z</updated>\
            <published>2017-06-12T17:57:34Z</published>\
            <title>{}</title><summary>s</summary>\
            <arxiv:primary_category term=\"cs.AI\"/>\
            </entry>",
            bad
        );
        let xml = feed_with_entries(&entry);
        assert_eq!(
            parse_arxiv_response(xml.as_bytes()),
            Err(ParseError::Malformed),
            "{} should be malformed",
            bad
        );
    }
}

#[test]
fn unterminated_comment_is_malformed() {
    let xml = feed_with_entries("<!-- never closed >");
    assert_eq!(
        parse_arxiv_response(xml.as_bytes()),
        Err(ParseError::Malformed)
    );
}

#[test]
fn empty_feed_parses_to_no_records() {
    let xml = feed_with_entries("");
    let papers = parse_arxiv_response(xml.as_bytes()).expect("feed should parse");
    assert!(papers.is_empty());
}

#[test]
fn missing_primary_category_is_reported() {
    let entry = "<entry>\
        <id>http://arxiv.org/abs/2001.00001v1</id>\
        <updated>2017-06-13T00:00:00Z</updated>\
        <published>2017-06-12T17:57:34Z</published>\
        <title>t</title><summary>s</summary>\
        </entry>";
    let xml = feed_with_entries(entry);
    assert_eq!(
        parse_arxiv_response(xml.as_bytes()),
        Err(ParseError::MissingField)
    );
}
