//! A verified engine that turns a flat batch of files into a filtered,
//! annotated directory tree and a paste-ready markdown document: gitignore
//! and metadata filtering, path normalization, tree building, bottom-up
//! size and token aggregation, pruning, deterministic display ordering,
//! and markdown assembly.

pub mod aggregate;
pub mod chars;
pub mod filter;
pub mod gitignore;
pub mod markdown;
pub mod node;
pub mod order;
pub mod paths;
pub mod process;
pub mod strutil;
pub mod text;
pub mod tokenizer;
pub mod treebuild;

pub use crate::aggregate::aggregate;
pub use crate::aggregate::recalculate_counts;
pub use crate::aggregate::ProcessingOptions;
pub use crate::filter::filter_files;
pub use crate::filter::filter_files_with_matcher;
pub use crate::filter::FileMetadata;
pub use crate::filter::FilterError;
pub use crate::filter::FilterOptions;
pub use crate::filter::FilterResult;
pub use crate::gitignore::IgnoreMatcher;
pub use crate::markdown::detect_language;
pub use crate::markdown::merge_files_to_markdown;
pub use crate::markdown::MarkdownOptions;
pub use crate::node::FileNode;
pub use crate::order::order;
pub use crate::paths::extract_file_name;
pub use crate::paths::normalize_path;
pub use crate::process::process_files;
pub use crate::process::FileInput;
pub use crate::process::ProcessError;
pub use crate::process::ProcessingResult;
pub use crate::text::is_likely_text;
pub use crate::text::looks_binary;
pub use crate::tokenizer::Tokenizer;
