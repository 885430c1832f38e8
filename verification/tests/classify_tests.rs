use wfns_manager::classify::{classify, extension_of, EntryKind};

#[test]
fn classifies_directories_as_subfolders() {
    assert_eq!(classify("anything", true), EntryKind::Subfolder);
    assert_eq!(classify("photos.jpg", true), EntryKind::Subfolder);
}

#[test]
fn classifies_images_by_extension() {
    assert_eq!(classify("a.jpg", false), EntryKind::Image);
    assert_eq!(classify("b.jpeg", false), EntryKind::Image);
    assert_eq!(classify("c.png", false), EntryKind::Image);
    assert_eq!(classify("d.gif", false), EntryKind::Image);
    assert_eq!(classify("e.webp", false), EntryKind::Image);
    assert_eq!(classify("f.svg", false), EntryKind::Image);
    assert_eq!(classify("g.heic", false), EntryKind::Image);
}

#[test]
fn classifies_videos_by_extension() {
    assert_eq!(classify("a.mp4", false), EntryKind::Video);
    assert_eq!(classify("b.webm", false), EntryKind::Video);
    assert_eq!(classify("c.mkv", false), EntryKind::Video);
    assert_eq!(classify("d.mov", false), EntryKind::Video);
    assert_eq!(classify("e.flv", false), EntryKind::Video);
}

#[test]
fn ignores_unknown_or_missing_extensions() {
    assert_eq!(classify("notes.txt", false), EntryKind::Ignored);
    assert_eq!(classify("noextension", false), EntryKind::Ignored);
    assert_eq!(classify(".bashrc", false), EntryKind::Ignored);
    assert_eq!(classify("trailing.", false), EntryKind::Ignored);
}

#[test]
fn extension_match_is_case_sensitive() {
    assert_eq!(classify("photo.JPG", false), EntryKind::Ignored);
    assert_eq!(classify("clip.MP4", false), EntryKind::Ignored);
}

#[test]
fn extension_is_taken_after_the_last_dot() {
    assert_eq!(extension_of("archive.tar.gz"), Some("gz".to_string()));
    assert_eq!(extension_of("photo.album.jpg"), Some("jpg".to_string()));
    assert_eq!(extension_of("noextension"), None);
    assert_eq!(extension_of(".bashrc"), None);
    assert_eq!(extension_of("trailing."), Some(String::new()));
}
