//! A pluggable, hierarchical content-scanning framework.
//!
//! The caller supplies anything that implements [`Content`]; the
//! [`Scanner`] identifies its type, runs the analyzers registered for
//! it, asks the extractors for inner content and scans that in turn,
//! up to a configurable depth. The outcome is a [`ScanResult`]: a tree
//! of scanned objects, their variables and the findings recorded on
//! them.

pub mod arena;
pub mod builder;
pub mod content;
pub mod content_path;
pub mod context;
pub mod derive_dependencies;
pub mod extraction_pool;
pub mod extractor_list;
pub mod filter;
pub mod identifier_set;
pub mod implementations;
pub mod interfaces;
pub mod matcher;
pub mod plugin_list;
pub mod plugin_runs;
pub mod scanner;
pub mod sorting;
pub mod utils;
pub mod varmaps;

pub use arena::{ArenaIndex, BufferArena};
pub use builder::{BuildError, ScannerBuilder};
pub use content::{Content, ContentType};
pub use content_path::ContentPath;
pub use context::{
    Context, ExtractRequestBuilder, ExtractionContext, FindigsIterator, Finding, ScanContentHandle,
    ScanResult,
};
pub use extraction_pool::{ExtractionHandle, ExtractionPool};
pub use extractor_list::ExtractorList;
pub use filter::{Filter, FilterBuilder, PathPredicate, Precedence, ReadyFilterBuilder};
pub use identifier_set::IdentifierSet;
pub use implementations::buffer_content::BufferContent;
pub use implementations::folder_content::FolderContent;
pub use implementations::zip_extractor::ZipExtractor;
pub use implementations::zip_identifier::ZipIdentifier;
pub use interfaces::{
    ContentAnalyzer, ContentExtractor, ContentIdentifier, Dependencies, Entry, ExtractionSession,
    FindingMetadata, IdentifyMethod, NextAction, NoMetadata, ScanObserver, StopCondition,
};
pub use matcher::fast_magic::FastMagicMatcher;
pub use matcher::one::OneMatcher;
pub use matcher::packed_linear_list::{PackedKey, PackedLinearList};
pub use matcher::trie::{Trie, TrieBuilder};
pub use matcher::{Matcher, MatcherBuilder};
pub use plugin_list::{AnalyzerList, PluginsList};
pub use scanner::Scanner;
pub use utils::{get_extension, get_file_name};
