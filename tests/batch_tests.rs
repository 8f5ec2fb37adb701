use blindmark::batch::{
    assign_watermarks, batch_label, collect_sheet_column, effective_watermark_key, is_jpeg_path,
    is_other_file, is_png_name, output_archive_path, select_images_by_name,
};
use blindmark::error::BlindMarkError;
use blindmark::models::{ImageFile, ImageWatermarkFinding};
use blindmark::batch::sort_image_findings;
use blindmark::text::decimal;
use blindmark::codec::block_capacity;
use std::path::{Path, PathBuf};

#[test]
fn more_images_than_watermarks_reuse_the_last() {
    assert_eq!(assign_watermarks(4, 2).unwrap(), vec![0, 1, 1, 1]);
    assert_eq!(assign_watermarks(2, 3).unwrap(), vec![0, 1]);
    assert!(matches!(assign_watermarks(2, 0), Err(BlindMarkError::InvalidConfig(_))));
}

#[test]
fn jpeg_is_copied_png_is_scanned() {
    assert!(is_jpeg_path("a/img1.jpg"));
    assert!(is_jpeg_path("IMG.JPEG"));
    assert!(!is_jpeg_path("img1.png"));
    assert!(is_png_name("dir/IMG.PNG"));
    assert!(!is_png_name("img.jpg"));
    assert!(!is_png_name("png"));
}

fn cells(v: &[Option<&str>]) -> Vec<Option<String>> {
    v.iter().map(|c| c.map(|s| s.to_string())).collect()
}

#[test]
fn sheet_column_skips_header_and_stops_at_empty() {
    let col = cells(&[Some("Watermark"), Some("alpha"), Some("beta"), Some("  "), Some("gamma")]);
    assert_eq!(collect_sheet_column(&col).unwrap(), vec!["alpha", "beta"]);
    let col = cells(&[Some("Watermark"), Some("alpha"), None, Some("gamma")]);
    assert_eq!(collect_sheet_column(&col).unwrap(), vec!["alpha"]);
    let col = cells(&[Some("Watermark"), Some("")]);
    assert!(matches!(collect_sheet_column(&col), Err(BlindMarkError::ExcelError(_))));
    assert!(collect_sheet_column(&Vec::new()).is_err());
}

#[test]
fn watermark_key_defaults() {
    assert_eq!(effective_watermark_key(None), "_watermark");
    assert_eq!(effective_watermark_key(Some("  ")), "_watermark");
    assert_eq!(effective_watermark_key(Some("buyer")), "buyer");
}

#[test]
fn labels_are_cut_at_24_characters() {
    assert_eq!(batch_label("short"), "short");
    let long = "一二三四五六七八九十一二三四五六七八九十一二三四五";
    assert_eq!(batch_label(long), "一二三四五六七八九十一二三四五六七八九十一二三四…");
}

#[test]
fn selection_filters_images() {
    let imgs = || {
        vec![
            ImageFile::new("a.png".to_string(), PathBuf::from("/a.png")),
            ImageFile::new("b.png".to_string(), PathBuf::from("/b.png")),
        ]
    };
    assert_eq!(select_images_by_name(imgs(), &Vec::new()).len(), 2);
    let picked = select_images_by_name(imgs(), &vec!["b.png".to_string()]);
    assert_eq!(picked.len(), 1);
    assert_eq!(picked[0].relative_path, "b.png");
}

#[test]
fn outputs_go_to_a_folder_per_watermark() {
    let p = output_archive_path("/out", "alpha", "pkg.var");
    assert_eq!(Path::new(&p), Path::new("/out/alpha/pkg.var"));
    let p = output_archive_path("/out", "a/b", "pkg.zip");
    assert_eq!(Path::new(&p), Path::new("/out/a_b/pkg.zip"));
}

#[test]
fn other_files_are_those_not_processed() {
    let processed = vec!["meta.json".to_string(), "img/a.png".to_string()];
    assert!(!is_other_file("meta.json", &processed));
    assert!(is_other_file("readme.txt", &processed));
}

#[test]
fn image_findings_sorted_by_file() {
    let f = |file: &str, text: &str| ImageWatermarkFinding { file: file.to_string(), text: text.to_string() };
    let sorted = sort_image_findings(vec![f("b.png", "1"), f("a.png", "2"), f("b.png", "3"), f("a/c.png", "4")]);
    let got: Vec<(&str, &str)> = sorted.iter().map(|x| (x.file.as_str(), x.text.as_str())).collect();
    assert_eq!(got, vec![("a.png", "2"), ("a/c.png", "4"), ("b.png", "1"), ("b.png", "3")]);
}

#[test]
fn decimal_numbers_in_messages() {
    assert_eq!(decimal(0), "0");
    assert_eq!(decimal(1234567), "1234567");
    match block_capacity(12, 724, 544) {
        Err(BlindMarkError::ExtractionFailed(msg)) => {
            assert!(msg.contains("543") && msg.contains("544"), "{}", msg);
        }
        _ => panic!("capacity error expected"),
    }
}
