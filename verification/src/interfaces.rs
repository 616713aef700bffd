use vstd::prelude::*;
use crate::content::{Content, ContentType};
use crate::content_path::ContentPath;
use crate::context::{plugin_step, Context, ExtractionContext};

verus! {

/// What an analyzer tells the scanner to do next.
#[derive(Debug, Clone, Copy, PartialEq, Eq, Structural)]
pub enum NextAction {
    /// Continue with the next analyzer for this object, then extractors.
    Continue,
    /// Stop processing the current object; siblings and later content are
    /// still scanned.
    Skip,
    /// Abort the entire scan.
    Exit,
}

/// Metadata for the next item an [`ExtractionSession`] is about to
/// extract, used to apply the filter before the item is materialised.
pub struct Entry {
    /// Path of the entry (a filesystem path, or a synthetic address such
    /// as the name inside an archive).
    pub path: ContentPath,
    /// Size of the entry in bytes, when known.
    pub size: u64,
    /// When `true`, the scanner does not test this entry against the
    /// filter (for containers such as subfolders).
    pub skip_from_filtering: bool,
}

impl Default for Entry {
    fn default() -> (r: Self)
        ensures
            r.path.printable() == Seq::<char>::empty(),
            r.path.lossless(),
            r.size == 0,
            !r.skip_from_filtering,
    {
        Entry { path: ContentPath::empty(), size: 0, skip_from_filtering: false }
    }
}

/// Extra data attached to a finding.
pub trait FindingMetadata: Copy {}

/// The default finding metadata: none.
#[derive(Copy, Clone, Debug)]
pub struct NoMetadata;

impl FindingMetadata for NoMetadata {}

/// Name and required analyzers of a plugin.
///
/// `name` identifies the analyzer to others; `dependencies` lists the
/// names of analyzers that must run before it, which
/// [`ScannerBuilder::build`](crate::ScannerBuilder::build) checks are
/// registered with a strictly smaller priority.
pub trait Dependencies {
    /// Unique name of this analyzer.
    fn name(&self) -> &'static str;

    /// Names of the analyzers this one requires.
    fn dependencies(&self) -> &'static [&'static str];
}

/// A plugin that inspects a piece of content and records information into
/// the [`Context`].
pub trait ContentAnalyzer<T: ContentType, M: FindingMetadata>: Dependencies {
    /// Analyzes `content` and reports through `context`; the returned
    /// [`NextAction`] controls whether further analyzers and extractors
    /// run for this object.
    ///
    /// Plugins reach the context only through its public methods, each of
    /// which is a [`plugin_step`]; so is any sequence of them.
    fn analyze(&mut self, content: &mut Box<dyn Content<T>>, context: &mut Context<T, M>) -> (r: NextAction)
        requires
            old(context).wf(),
        ensures
            plugin_step(*old(context), *final(context));
}

/// Receives notifications as a scan runs: when it begins and ends, when a
/// content is filtered out, scanned or extracted, and when a finding is
/// recorded. Every method does nothing unless overridden.
pub trait ScanObserver<T: ContentType, M: FindingMetadata> {
    /// A scan of the content at `root` begins.
    fn on_begin(&mut self, root: &str) {
    }

    /// The content at `path` is scanned, identified as `ty`.
    fn on_scan_object(&mut self, path: &str, ty: Option<T>) {
    }

    /// The filter rejected the content or entry at `path`.
    fn on_filtered(&mut self, path: &str) {
    }

    /// A finding was recorded on the object at `path` (whether or not
    /// findings are kept for the result).
    fn on_finding(&mut self, path: &str, finding: &str, source: Option<&str>, metadata: Option<&M>) {
    }

    /// `entry` is about to be extracted from the content at `parent`.
    fn on_extraction(&mut self, parent: &str, entry: &Entry) {
    }

    /// The scan has ended.
    fn on_end(&mut self) {
    }
}

/// Decides, at the start of every content object, whether the scan stops
/// early.
pub trait StopCondition {
    /// `true` stops the scan: no further object is scanned, and the result
    /// holds what was gathered so far.
    fn should_stop(&mut self) -> bool;
}

/// A plugin that turns a container into a stream of child contents.
pub trait ContentExtractor<T: ContentType> {
    /// Opens an extraction session on `content` for the region that
    /// `extract_context` names; `None` skips this extractor.
    fn create_session(
        &mut self,
        content: &mut Box<dyn Content<T>>,
        extract_context: &ExtractionContext,
    ) -> Option<Box<dyn ExtractionSession<T>>>;
}

/// A live extraction of children from one parent content, which the
/// scanner hands to each step.
pub trait ExtractionSession<T: ContentType> {
    /// Advances to the next child and returns its [`Entry`]; `None` ends
    /// the stream.
    fn advance(&mut self, content: &mut Box<dyn Content<T>>) -> Option<&Entry>;

    /// Materialises the child announced by the last `advance`; `None`
    /// skips this entry.
    fn extract(&mut self, content: &mut Box<dyn Content<T>>) -> Option<Box<dyn Content<T>>>;
}

/// Declarative pre-filter through which the scanner narrows down the
/// candidate types of a content. Magic patterns must be at most 16 bytes.
pub enum IdentifyMethod {
    /// The first bytes are exactly this sequence.
    Magic(&'static [u8]),
    /// The first bytes are one of these sequences.
    MultipleMagic(&'static [&'static [u8]]),
    /// The file extension is this string (ASCII case-insensitive, without
    /// the dot).
    Extension(&'static str),
    /// The file extension is one of these strings.
    Extensions(&'static [&'static str]),
    /// The file name is this string (ASCII case-insensitive).
    Name(&'static str),
    /// The file name is one of these strings.
    Names(&'static [&'static str]),
}

/// A plugin that classifies content into a [`ContentType`].
pub trait ContentIdentifier<T: ContentType> {
    /// The fast pre-filter, if any; `None` leaves the decision to
    /// [`validate`](Self::validate) alone.
    fn identify_method(&self) -> Option<IdentifyMethod>;

    /// Confirms that `content` is of the type this identifier is
    /// registered for.
    fn validate(&self, content: &mut Box<dyn Content<T>>) -> bool;
}

} // verus!
