use vstd::prelude::*;
use vstd::string::{StringExecFns, StrSliceExecFns};

verus! {

/// Settings of the query client.
#[derive(Debug, Clone, PartialEq, Eq)]
pub struct ArxivConfig {
    pub rate_limit_delay_ms: u64,
    pub max_results: u32,
    pub default_categories: Vec<String>,
}

/// Where the downstream database listens.
#[derive(Debug, Clone, PartialEq, Eq)]
pub struct HelixDbConfig {
    pub endpoint: String,
    pub port: u16,
    pub api_key: String,
}

/// Settings of the embedding collaborator.
#[derive(Debug, Clone, PartialEq, Eq)]
pub struct EmbeddingsConfig {
    pub model_path: String,
    pub batch_size: usize,
    pub device: String,
    pub dimension: usize,
}

/// Settings of the terminal interface.
#[derive(Debug, Clone, PartialEq, Eq)]
pub struct UiConfig {
    pub theme: String,
    pub keybindings: String,
    pub papers_per_page: usize,
    pub show_line_numbers: bool,
    pub tick_rate_ms: u64,
}

/// Where caches and downloads live.
#[derive(Debug, Clone, PartialEq, Eq)]
pub struct StorageConfig {
    pub cache_dir: String,
    pub download_dir: String,
    pub max_cache_size_mb: u64,
}

/// Where and how much to log.
#[derive(Debug, Clone, PartialEq, Eq)]
pub struct LoggingConfig {
    pub level: String,
    pub log_to_file: bool,
    pub log_file: String,
}

pub open spec fn opt_str_view(o: Option<&str>) -> Option<Seq<char>> {
    match o {
        None => None,
        Some(s) => Some(s@),
    }
}

/// A leading `~/` replaced by the home directory, when one is known.
pub open spec fn spec_expand_tilde(path: Seq<char>, home: Option<Seq<char>>) -> Seq<char> {
    if path.len() >= 2 && path[0] == '~' && path[1] == '/' && home is Some {
        home->0 + "/"@ + path.subrange(2, path.len() as int)
    } else {
        path
    }
}

/// Expands a leading `~/` against the given home directory.
pub fn expand_tilde(path: &str, home: Option<&str>) -> (r: String)
    ensures
        r@ == spec_expand_tilde(path@, opt_str_view(home)),
{
    let n = path.unicode_len();
    if n >= 2 && path.get_char(0) == '~' && path.get_char(1) == '/' {
        match home {
            Some(h) => {
                let mut s = String::from_str(h);
                s.append("/");
                let rest = path.substring_char(2, n);
                s.append(rest);
                proof {
                    assert(s@ =~= spec_expand_tilde(path@, opt_str_view(home)));
                }
                s
            },
            None => String::from_str(path),
        }
    } else {
        String::from_str(path)
    }
}

} // verus!
