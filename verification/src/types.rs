//! The data the reconstruction passes read and rewrite: decoder actions,
//! block roles, assembled blocks and the provenance of each block's source
//! lines.
use vstd::prelude::*;

verus! {

/// Opening sentinel of an encoded note callout (`START digits END`).
pub const CALLOUT_START: char = '\u{E000}';

/// Closing sentinel of an encoded note callout.
pub const CALLOUT_END: char = '\u{E001}';

/// Largest note number the reconstruction accepts as a callout or note head.
pub const LM2_MAX_NOTE_MARKER: u16 = 999;

/// What the line decoder decided for one source line.
#[derive(Clone, Copy, Debug, PartialEq, Eq, Structural)]
pub enum Lm2Action {
    HideNoise,
    Keep,
    Marginalia,
}

/// Reading role of an assembled block (and of each of its source lines).
#[derive(Clone, Copy, Debug, PartialEq, Eq, Structural)]
pub enum LiquidBlockRole {
    Title,
    AuthorInfo,
    Abstract,
    Lead,
    Heading,
    Subheading,
    Paragraph,
    Quote,
    ListItem,
    Marginalia,
    Footnote,
    Table,
    Caption,
    Contents,
    Header,
    Footer,
    Metadata,
    SectionBreak,
    Noise,
}

/// One assembled block of the reading view.
#[derive(Clone, Debug)]
pub struct LiquidBlock {
    pub role: LiquidBlockRole,
    pub text: String,
    pub label: Option<String>,
}

/// Provenance of one source line inside an assembled block.
#[derive(Clone, Debug)]
pub struct LiquidSourceLineRef {
    pub id: Option<String>,
    pub page_index: usize,
    pub line_index: usize,
    pub text: String,
    pub role: LiquidBlockRole,
    pub note_markers: Vec<u16>,
}

/// The source lines of the block at `block_index`.
#[derive(Clone, Debug)]
pub struct LiquidBlockSourceLines {
    pub block_index: usize,
    pub lines: Vec<LiquidSourceLineRef>,
}

/// How a page-level note sequence located a body callout.
#[derive(Clone, Copy, Debug, PartialEq, Eq, Structural)]
pub enum PageSequenceMatchKind {
    Existing,
    SplitExisting,
    ExactAscii,
    OcrDigits,
    PartialExisting,
    PartialDigit,
    Placeholder,
    InferredQuoteBoundary,
}

impl PageSequenceMatchKind {
    /// Every match but an already encoded sentinel rewrites the text.
    pub fn replaces_text(self) -> (r: bool)
        ensures r == (self != PageSequenceMatchKind::Existing),
    {
        self != PageSequenceMatchKind::Existing
    }

    /// The match kinds that a single-note page may accept.
    pub fn singleton_safe(self) -> (r: bool)
        ensures
            r == (self == PageSequenceMatchKind::Existing
                || self == PageSequenceMatchKind::SplitExisting
                || self == PageSequenceMatchKind::ExactAscii
                || self == PageSequenceMatchKind::OcrDigits),
    {
        matches!(
            self,
            PageSequenceMatchKind::Existing | PageSequenceMatchKind::SplitExisting
                | PageSequenceMatchKind::ExactAscii | PageSequenceMatchKind::OcrDigits
        )
    }
}

/// A whitespace-separated ASCII body callout found in a line
/// (`start..end` in characters).
#[derive(Clone, Copy, Debug)]
pub struct Lm2AsciiCalloutCandidate {
    pub start: usize,
    pub end: usize,
    pub marker: u16,
    pub leading: bool,
}

/// What the reconstruction reads of one extracted source line: where it
/// is, its text, and the layout facts measured on its page.
#[derive(Clone, Debug)]
pub struct Lm2SourceLine {
    pub id: String,
    pub page_index: usize,
    pub line_index: usize,
    pub text: String,
    /// The role the layout analysis suggests for the line.
    pub role_hint: Option<LiquidBlockRole>,
    /// The layout segment holding the line (`0` for none) and its shape
    /// (`body`, `mixed`, `footnote`, `heading`, ...).
    pub segment_block_id: usize,
    /// The line's position within its layout segment.
    pub segment_block_line_index: usize,
    pub segment_block_shape: String,
    pub segment_block_footnote_like: bool,
    pub segment_block_table_like: bool,
    pub segment_block_furniture_like: bool,
    pub segment_block_toc_like: bool,
    pub in_footnote_zone: bool,
    pub below_footnote_divider: bool,
    pub doc_footnote_state: bool,
    pub doc_footnote_continuation: bool,
    pub in_ruled_cell: bool,
    pub ruled_row_membership_exact: bool,
    pub page_table_column_like: bool,
    pub page_object_overlaps_image_bbox: bool,
    pub page_object_hide_candidate: bool,
    pub page_object_ruled_row_membership: bool,
    pub bold: bool,
    pub centered: bool,
    pub margin_centered: bool,
    /// The font is at most nine tenths of the document's body size.
    pub small_note_font: bool,
}

} // verus!
