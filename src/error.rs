use vstd::prelude::*;

verus! {

/// Every way in which reading a book can fail. All of them are fatal for the
/// input file at hand.
#[derive(Debug, Clone, Copy, PartialEq, Eq, Structural)]
pub enum Error {
    /// The archive ends inside a header or a member's data.
    Truncated,
    /// A header signature is neither a local file header nor the central directory.
    CorruptArchive,
    /// A member could not be inflated, or inflates past its declared size.
    Inflate,
    /// A file name or a member's content is not UTF-8.
    NotUtf8,
    /// A control document lacks a required element or attribute.
    Unschematic,
    /// A tag name runs to the end of the input.
    TagNameUnterminated,
    /// A tag, or a quoted attribute inside it, runs to the end of the input.
    TagUnterminated,
    /// A tag is marked both as closing and as self-closing.
    MixedClosingMarks,
    /// The input ends while elements other than the root are still open.
    UnexpectedEof,
    /// A closing tag does not close the innermost open element.
    ClosingMismatch,
    /// A tag handed to `step_out` is not open in the cursor.
    NotOpen,
    /// Markup that the formatter has no rule for.
    UnknownFormatting,
    /// A role name or role number outside the known set.
    InvalidRole,
    /// The table of contents is empty.
    NoChapters,
    /// A table-of-contents entry points to no spine document.
    UnknownHref,
    /// Table-of-contents entries run backwards in the spine.
    ChapterOrder,
    /// Two consecutive chapters' roles go backwards in the narrative order.
    RoleOrder,
    /// A book title carries more than one publisher label.
    MultipleLabels,
    /// An omnibus title does not state its volume count.
    VolumeCount,
    /// `content.opf` or `toc.ncx` is missing from the archive.
    MissingControlFile,
    /// A spine entry names no manifest item, or an item that the archive lacks.
    MissingMember,
}

} // verus!
