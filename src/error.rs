use vstd::prelude::*;

verus! {

/// The structural faults that stop a chunk sequence from forming a document.
#[derive(Debug, Clone, Copy, PartialEq, Eq, Structural)]
pub enum DocumentFault {
    /// The first chunk is not a header (or there is no chunk at all).
    MissingHeader,
    /// A header appears after the first chunk.
    DuplicateHeader,
    /// A second palette appears.
    DuplicatePalette,
    /// A terminator appears before the last chunk.
    MisplacedTerminator,
    /// The last chunk is not a terminator.
    MissingTerminator,
    /// The header asks for indexed colour and no palette was given.
    MissingPalette,
}

/// Every way a decode can fail; the first violation in pipeline order wins.
#[derive(Debug, Clone, Copy, PartialEq, Eq, Structural)]
pub enum DecodeError {
    /// A length field, a tag, a payload or a checksum runs past the buffer.
    TruncatedStream,
    /// A chunk's payload does not fit its type, or its tag is not four letters.
    MalformedChunk,
    /// The chunks do not form a document.
    InvalidDocument(DocumentFault),
    /// The decompressor rejected the compressed stream.
    Decompression,
    /// The decompressed bytes do not match the rows the header implies.
    MalformedStream,
    /// A scanline starts with a filter selector other than None (0) or Sub (1).
    UnsupportedFilter,
    /// An indexed sample names a palette entry that does not exist.
    PaletteIndexOutOfRange,
    /// The header asks for a bit depth or colour mode this decoder does not handle.
    UnsupportedFormat,
}

/// An error that names the chunk type a file lacks.
#[derive(Debug)]
pub struct InvalidPngFileError {
    pub lacking_chunk_type: String,
}

impl InvalidPngFileError {
    pub fn new(lacking_chunk_type: String) -> (r: Self)
        ensures
            r.lacking_chunk_type@ == lacking_chunk_type@,
    {
        Self { lacking_chunk_type }
    }
}

} // verus!
