//! Records exchanged with the surrounding application: watermark sources,
//! processing states, scan findings and progress events.
use vstd::prelude::*;

verus! {

/// Declares `std::path::PathBuf`, carried through unchanged.
#[verifier::external_type_specification]
#[verifier::external_body]
pub struct ExPathBuf(std::path::PathBuf);

/// Where the watermark texts come from.
pub enum WatermarkSource {
    /// One text for every output.
    SingleText { content: String },
    /// Column A of the first worksheet of a spreadsheet, one text per row.
    ExcelFile { path: String },
}

/// Processing state of one file.
pub enum ProcessingStatus {
    Waiting,
    Extracting,
    Processing,
    Repackaging,
    Complete,
    Error(String),
}

/// An image found in an extracted archive.
pub struct ImageFile {
    /// Path relative to the archive root.
    pub relative_path: String,
    /// Where the file lies on disk.
    pub temp_path: std::path::PathBuf,
}

impl ImageFile {
    pub fn new(relative_path: String, temp_path: std::path::PathBuf) -> (r: Self)
        ensures
            r.relative_path == relative_path,
            r.temp_path == temp_path,
    {
        ImageFile { relative_path, temp_path }
    }
}

/// A watermark found in a JSON-family file of an archive.
pub struct WatermarkFinding {
    pub file: String,
    pub value: String,
    pub mode: String,
    pub decrypted: bool,
}

/// A raw-text watermark found in an image of an archive.
pub struct ImageWatermarkFinding {
    pub file: String,
    pub text: String,
}

/// The findings of one scan of an archive.
pub struct CombinedScanResult {
    pub json_findings: Vec<WatermarkFinding>,
    pub image_findings: Vec<ImageWatermarkFinding>,
    pub scanned_png_count: usize,
}

/// A phase change of a long-running operation.
pub struct StatusEvent {
    pub status: String,
    pub message: String,
}

/// How many files of each kind a scan found.
pub struct ScanSummaryEvent {
    pub json_count: usize,
    pub vaj_count: usize,
    pub vmi_count: usize,
    pub image_count: usize,
}

/// One step through the text files of a batch.
pub struct DetailProgressEvent {
    pub batch_current: usize,
    pub batch_total: usize,
    pub file_type: String,
    pub type_current: usize,
    pub type_total: usize,
    pub filename: String,
}

} // verus!
