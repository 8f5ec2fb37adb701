use vstd::prelude::*;

verus! {

/// Declares `std::io::Error`, which the filesystem layer reports and the
/// library carries through unchanged.
#[verifier::external_type_specification]
#[verifier::external_body]
pub struct ExIoError(std::io::Error);

/// Typed failures of the library, propagated by value.
#[derive(Debug)]
pub enum BlindMarkError {
    Archive(String),
    UnsupportedArchive(String),
    ImageProcessing(String),
    UnsupportedImage(String),
    EmbeddingFailed(String),
    ExtractionFailed(String),
    ExcelError(String),
    Io(std::io::Error),
    CorruptedArchive(String),
    InvalidConfig(String),
}

/// The rendering of an error: a heading for its kind, then its text.
pub open spec fn message_of(e: BlindMarkError) -> Seq<char> {
    match e {
        BlindMarkError::Io(_) => "IO error"@,
        BlindMarkError::Archive(m) => "Archive error: "@ + m@,
        BlindMarkError::UnsupportedArchive(m) => "Unsupported archive format: "@ + m@,
        BlindMarkError::ImageProcessing(m) => "Image processing error: "@ + m@,
        BlindMarkError::UnsupportedImage(m) => "Unsupported image format: "@ + m@,
        BlindMarkError::EmbeddingFailed(m) => "Watermark embedding failed: "@ + m@,
        BlindMarkError::ExtractionFailed(m) => "Watermark extraction failed: "@ + m@,
        BlindMarkError::ExcelError(m) => "Excel reading error: "@ + m@,
        BlindMarkError::CorruptedArchive(m) => "Corrupted archive: "@ + m@,
        BlindMarkError::InvalidConfig(m) => "Invalid configuration: "@ + m@,
    }
}

impl BlindMarkError {
    /// A flat, human-readable rendering of the error.
    pub fn message(&self) -> (r: String)
        ensures
            r@ == message_of(*self),
    {
        match self {
            BlindMarkError::Io(_) => String::from_str("IO error"),
            BlindMarkError::Archive(m) => prefixed("Archive error: ", m),
            BlindMarkError::UnsupportedArchive(m) => prefixed("Unsupported archive format: ", m),
            BlindMarkError::ImageProcessing(m) => prefixed("Image processing error: ", m),
            BlindMarkError::UnsupportedImage(m) => prefixed("Unsupported image format: ", m),
            BlindMarkError::EmbeddingFailed(m) => prefixed("Watermark embedding failed: ", m),
            BlindMarkError::ExtractionFailed(m) => prefixed("Watermark extraction failed: ", m),
            BlindMarkError::ExcelError(m) => prefixed("Excel reading error: ", m),
            BlindMarkError::CorruptedArchive(m) => prefixed("Corrupted archive: ", m),
            BlindMarkError::InvalidConfig(m) => prefixed("Invalid configuration: ", m),
        }
    }
}

fn prefixed(head: &str, m: &String) -> (r: String)
    ensures
        r@ == head@ + m@,
{
    let mut s = String::from_str(head);
    s.append(m.as_str());
    s
}

} // verus!
