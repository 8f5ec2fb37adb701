use blindmark::models::ImageFile;
use blindmark::scanner::{path_le, FileScanner};
use std::path::PathBuf;

fn listing(paths: &[&str]) -> Vec<ImageFile> {
    paths.iter().map(|p| ImageFile::new(p.to_string(), PathBuf::from("/tmp/x").join(p))).collect()
}

fn structure() -> Vec<ImageFile> {
    listing(&[
        "readme.txt",
        "images/photos/vacation.jpg",
        "image2.jpg",
        "images/screenshots/screen.PNG",
        "data.json",
        "image1.png",
        "documents/report.pdf",
        "image3.JPEG",
        "images/photo.png",
    ])
}

#[test]
fn scan_finds_all_images_sorted() {
    let scanner = FileScanner::new();
    let images = scanner.scan(structure());
    let paths: Vec<&str> = images.iter().map(|f| f.relative_path.as_str()).collect();
    assert_eq!(
        paths,
        vec![
            "image1.png",
            "image2.jpg",
            "image3.JPEG",
            "images/photo.png",
            "images/photos/vacation.jpg",
            "images/screenshots/screen.PNG",
        ]
    );
    assert_eq!(images[0].temp_path, PathBuf::from("/tmp/x/image1.png"));
    assert_eq!(scanner.count_images(structure()), 6);
}

#[test]
fn scan_with_custom_extensions() {
    let scanner = FileScanner::with_extensions(vec!["gif", "webp"]);
    let images = scanner.scan(listing(&["image.gif", "image.webp", "image.png"]));
    assert_eq!(images.len(), 2);
    assert!(scanner.scan(Vec::new()).is_empty());
}

#[test]
fn scan_text_files_by_extension() {
    let scanner = FileScanner::new();
    let found = listing(&["b/meta.json", "a.JSON", "scene.vaj", "look.vmi", "x.json.bak"]);
    let json: Vec<String> = scanner.scan_json_files(found).into_iter().map(|f| f.relative_path).collect();
    assert_eq!(json, vec!["a.JSON", "b/meta.json"]);
    let vaj = scanner.scan_vaj_files(listing(&["scene.vaj", "look.vmi"]));
    assert_eq!(vaj.len(), 1);
    let vmi = scanner.scan_vmi_files(listing(&["scene.vaj", "look.vmi"]));
    assert_eq!(vmi[0].relative_path, "look.vmi");
}

#[test]
fn scan_grouped_by_directory() {
    let scanner = FileScanner::new();
    let groups = scanner.scan_grouped(structure());
    assert!(groups.len() > 1);
    let root = groups.iter().find(|(d, _)| d.is_empty()).unwrap();
    assert_eq!(root.1.len(), 3);
    let images = groups.iter().find(|(d, _)| d == "images").unwrap();
    assert_eq!(images.1.len(), 1);
    let total: usize = groups.iter().map(|(_, v)| v.len()).sum();
    assert_eq!(total, 6);
}

#[test]
fn path_order_is_by_code_point() {
    assert!(path_le("a", "b"));
    assert!(path_le("a", "a"));
    assert!(path_le("a", "ab"));
    assert!(!path_le("b", "a"));
    assert!(path_le("Z", "a"));
    assert!(path_le("images/a", "images2"));
}
