use blindmark::archive::{
    is_already_compressed, sanitize_path_component, watermarked_file_name, ArchiveHandler,
    ArchiveKind, ArchiveProcessor, SevenZHandler, ZipHandler,
};
use blindmark::error::BlindMarkError;
use blindmark::scanner::FileScanner;
use std::cell::RefCell;
use std::path::Path;

struct Recorder {
    calls: RefCell<Vec<(ArchiveKind, String, String)>>,
}

impl ArchiveHandler for Recorder {
    fn extract(&self, kind: ArchiveKind, a: &str, d: &str) -> Result<(), BlindMarkError> {
        self.calls.borrow_mut().push((kind, a.to_string(), d.to_string()));
        Ok(())
    }
    fn create(&self, kind: ArchiveKind, s: &str, o: &str) -> Result<(), BlindMarkError> {
        self.calls.borrow_mut().push((kind, s.to_string(), o.to_string()));
        Ok(())
    }
}

#[test]
fn test_supports() {
    let handler = SevenZHandler::new();
    assert!(handler.supports("archive.7z"));
    assert!(handler.supports("ARCHIVE.7Z"));
    assert!(!handler.supports("archive.zip"));
    assert!(!handler.supports("archive.rar"));
    assert!(!handler.supports("noextension"));
}

#[test]
fn zip_handler_test_supports() {
    let handler = ZipHandler::new();
    assert!(handler.supports("archive.zip"));
    assert!(handler.supports("ARCHIVE.ZIP"));
    assert!(handler.supports("package.var"));
    assert!(handler.supports("Package.VAR"));
    assert!(!handler.supports("archive.7z"));
    assert!(!handler.supports("archive.rar"));
    assert!(!handler.supports("noextension"));
}

#[test]
fn test_generate_output_name() {
    let output = ArchiveProcessor::generate_output_name("/path/to/archive.zip");
    assert_eq!(Path::new(&output), Path::new("/path/to/archive_watermarked.zip"));

    let output2 = ArchiveProcessor::generate_output_name("data.7z");
    assert_eq!(Path::new(&output2), Path::new("data_watermarked.7z"));

    let output3 = ArchiveProcessor::generate_output_name("noext");
    assert_eq!(Path::new(&output3), Path::new("noext_watermarked"));
}

#[test]
fn mod_test_is_supported() {
    let processor = ArchiveProcessor::new();
    assert!(processor.is_supported("test.zip"));
    assert!(processor.is_supported("test.7z"));
    assert!(processor.is_supported("TEST.ZIP"));
    assert!(!processor.is_supported("test.rar"));
    assert!(!processor.is_supported("test.tar.gz"));
}

#[test]
fn mod_test_supported_extensions() {
    let extensions = ArchiveProcessor::supported_extensions();
    assert!(extensions.contains(&"zip"));
    assert!(extensions.contains(&"7z"));
}

#[test]
fn test_get_handler() {
    let processor = ArchiveProcessor::new();
    assert!(processor.get_handler("test.zip").is_ok());
    assert!(processor.get_handler("test.7z").is_ok());
    assert!(processor.get_handler("test.rar").is_err());
    assert!(processor.get_handler("test.tar.gz").is_err());
}

#[test]
fn test_unsupported_format() {
    let processor = ArchiveProcessor::new();
    let io = Recorder { calls: RefCell::new(Vec::new()) };
    let result = processor.extract("archive.rar", "/tmp/dest", |k| io.extract(k, "archive.rar", "/tmp/dest"));
    assert!(result.is_err());
    if let Err(BlindMarkError::UnsupportedArchive(msg)) = result {
        assert!(msg.contains("rar"));
    } else {
        panic!("Expected UnsupportedArchive error");
    }
    assert!(io.calls.borrow().is_empty());
}

#[test]
fn extract_and_create_dispatch_by_extension() {
    let processor = ArchiveProcessor::new();
    let io = Recorder { calls: RefCell::new(Vec::new()) };
    assert_eq!(processor.extract("a.VAR", "out", |k| io.extract(k, "a.VAR", "out")).unwrap(), "out");
    assert_eq!(processor.create("b.7z", |k| io.create(k, "src", "b.7z")).unwrap(), "b.7z");
    let calls = io.calls.borrow();
    assert_eq!(calls[0].0, ArchiveKind::Zip);
    assert_eq!(calls[1].0, ArchiveKind::SevenZ);
    assert_eq!(processor.get_handler("x.zip").unwrap(), ArchiveKind::Zip);
}

#[test]
fn scanner_test_is_supported() {
    let scanner = FileScanner::new();
    assert!(scanner.is_supported("image.png"));
    assert!(scanner.is_supported("photo.jpg"));
    assert!(scanner.is_supported("pic.JPEG"));
    assert!(!scanner.is_supported("document.pdf"));
    assert!(!scanner.is_supported("file.txt"));
    assert!(!scanner.is_supported("no_extension"));
}

#[test]
fn scanner_test_supported_extensions() {
    let scanner = FileScanner::new();
    let extensions = scanner.supported_extensions();
    assert_eq!(extensions.len(), 3);
    assert!(extensions.contains(&"png"));
    assert!(extensions.contains(&"jpg"));
    assert!(extensions.contains(&"jpeg"));
}

#[test]
fn custom_scanner_extensions() {
    let scanner = FileScanner::with_extensions(vec!["gif", "webp"]);
    assert!(scanner.is_supported("a/b/image.GIF"));
    assert!(scanner.is_supported("image.webp"));
    assert!(!scanner.is_supported("image.png"));
}

#[test]
fn sanitize_folder_names() {
    assert_eq!(sanitize_path_component("a/b\\c:d*e?f\"g<h>i|j"), "a_b_c_d_e_f_g_h_i_j");
    assert_eq!(sanitize_path_component("  ..name"), "name");
    // only leading dots and whitespace are trimmed
    assert_eq!(sanitize_path_component(" .name. "), "name. ");
    assert_eq!(sanitize_path_component(" . "), "watermark");
    assert_eq!(sanitize_path_component(""), "watermark");
    assert_eq!(sanitize_path_component("alpha"), "alpha");
    let long = "x".repeat(150);
    assert_eq!(sanitize_path_component(&long), "x".repeat(100));
    assert_eq!(sanitize_path_component("购买者:张三"), "购买者_张三");
}

#[test]
fn compressed_media_is_stored() {
    assert!(is_already_compressed("a/b/photo.PNG"));
    assert!(is_already_compressed("song.flac"));
    assert!(is_already_compressed("pkg.var"));
    assert!(!is_already_compressed("meta.json"));
    // a name without a dot is its own extension
    assert!(is_already_compressed("png"));
    assert!(!is_already_compressed("archive.tar.gz"));
}

#[test]
fn watermarked_names() {
    assert_eq!(watermarked_file_name("a", "zip"), "a_watermarked.zip");
    assert_eq!(watermarked_file_name("a", ""), "a_watermarked");
}

struct Failing;

impl ArchiveHandler for Failing {
    fn extract(&self, _: ArchiveKind, _: &str, _: &str) -> Result<(), BlindMarkError> {
        Err(BlindMarkError::CorruptedArchive("bad".to_string()))
    }
    fn create(&self, _: ArchiveKind, _: &str, _: &str) -> Result<(), BlindMarkError> {
        Err(BlindMarkError::Archive("full".to_string()))
    }
}

#[test]
fn handler_errors_pass_through() {
    let processor = ArchiveProcessor::new();
    let r = processor.extract("x.zip", "d", |k| Failing.extract(k, "x.zip", "d"));
    assert!(matches!(r, Err(BlindMarkError::CorruptedArchive(m)) if m == "bad"));
    let r = processor.create("x.7z", |k| Failing.create(k, "s", "x.7z"));
    assert!(matches!(r, Err(BlindMarkError::Archive(m)) if m == "full"));
    match processor.create("x.tar", |k| Failing.create(k, "s", "x.tar")) {
        Err(BlindMarkError::UnsupportedArchive(m)) => assert_eq!(m, "Unsupported archive format: .tar"),
        _ => panic!("unsupported expected"),
    }
    match processor.get_handler("noext") {
        Err(BlindMarkError::UnsupportedArchive(m)) => assert_eq!(m, "Unsupported archive format: .unknown"),
        _ => panic!("unsupported expected"),
    }
}
