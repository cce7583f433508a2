use arxiv_tui::config::{EmbeddingsConfig, expand_tilde};
use arxiv_tui::embeddings::EmbeddingGenerator;
use arxiv_tui::record::{Category, Paper, Timestamp};
use arxiv_tui::state::{AppState, AppView};
use arxiv_tui::ui::Ui;

fn paper_with(authors: Vec<&str>, abstract_text: &str) -> Paper {
    Paper {
        arxiv_id: String::from("id"),
        title: String::from("Title"),
        authors: authors.into_iter().map(String::from).collect(),
        abstract_text: String::from(abstract_text),
        published: Timestamp { secs: 0, nanos: 0 },
        updated: Timestamp { secs: 0, nanos: 0 },
        categories: vec![String::from("cs.AI"), String::from("cs.LG")],
        pdf_url: String::from("u"),
        comment: None,
        journal_ref: None,
        doi: None,
        primary_category: String::from("cs.AI"),
    }
}

#[test]
fn joined_strings_use_comma_separators() {
    let p = paper_with(vec!["A", "B", "C"], "abc");
    assert_eq!(p.authors_string(), "A, B, C");
    assert_eq!(p.categories_string(), "cs.AI, cs.LG");
    let single = paper_with(vec!["Solo"], "abc");
    assert_eq!(single.authors_string(), "Solo");
    let none = paper_with(vec![], "abc");
    assert_eq!(none.authors_string(), "");
}

#[test]
fn abstract_preview_truncates_with_ellipsis() {
    let p = paper_with(vec![], "0123456789");
    assert_eq!(p.abstract_preview(20), "0123456789");
    assert_eq!(p.abstract_preview(10), "0123456789");
    assert_eq!(p.abstract_preview(4), "0123...");
    assert_eq!(p.abstract_preview(0), "...");
}

#[test]
fn abstract_preview_counts_bytes() {
    // "h\u{e9}llo" is six bytes: the accented letter takes two.
    let p = paper_with(vec![], "h\u{e9}llo");
    assert_eq!(p.abstract_preview(3), "h\u{e9}...");
    assert_eq!(p.abstract_preview(6), "h\u{e9}llo");
    assert_eq!(p.abstract_preview(5), "h\u{e9}ll...");
}

#[test]
fn text_for_embedding_joins_title_and_abstract() {
    let p = paper_with(vec![], "body");
    assert_eq!(p.text_for_embedding(), "Title body");
}

#[test]
fn category_request_values() {
    assert_eq!(Category::ArtificialIntelligence.as_str(), "cs.AI");
    assert_eq!(Category::MachineLearning.as_str(), "cs.LG");
    assert_eq!(Category::ComputationAndLanguage.as_str(), "cs.CL");
    assert_eq!(Category::ComputerVision.as_str(), "cs.CV");
    assert_eq!(Category::Other.as_str(), "");
}

#[test]
fn search_urls_with_all_prefix_and_start() {
    assert_eq!(
        arxiv_tui::client::all_search_url("deep learning", 0, 10),
        "http://export.arxiv.org/api/query?search_query=all:deep%20learning&start=0&max_results=10"
    );
}

#[test]
fn tilde_expansion() {
    assert_eq!(expand_tilde("~/notes", Some("/home/u")), "/home/u/notes");
    assert_eq!(expand_tilde("/var/data", Some("/home/u")), "/var/data");
    assert_eq!(expand_tilde("~/notes", None), "~/notes");
    assert_eq!(expand_tilde("~", Some("/home/u")), "~");
}

#[test]
fn state_selection_wraps_both_ways() {
    let mut s = AppState::new();
    assert_eq!(s.current_view, AppView::Search);
    s.switch_view(AppView::Browse);
    assert_eq!(s.current_view, AppView::Browse);

    s.select_next();
    assert!(s.selected_paper.is_none());
    assert_eq!(s.selected_index, 0);

    s.search_results = vec![
        paper_with(vec!["a"], "1"),
        paper_with(vec!["b"], "2"),
        paper_with(vec!["c"], "3"),
    ];
    s.select_next();
    assert_eq!(s.selected_index, 1);
    s.select_next();
    assert_eq!(s.selected_index, 2);
    s.select_next();
    assert_eq!(s.selected_index, 0);
    s.select_previous();
    assert_eq!(s.selected_index, 2);
    assert_eq!(s.selected_paper.as_ref().map(|p| p.abstract_text.as_str()), Some("3"));
}

#[test]
fn embedding_generator_keeps_configuration() {
    let cfg = EmbeddingsConfig {
        model_path: String::from("model.onnx"),
        batch_size: 16,
        device: String::from("cpu"),
        dimension: 384,
    };
    let g = EmbeddingGenerator::new(&cfg);
    assert_eq!(g.dimension, 384);
    assert_eq!(g.batch_size, 16);
}

#[test]
fn ui_handle_is_constructed() {
    let u = Ui::new();
    assert!(u.initialized);
}
