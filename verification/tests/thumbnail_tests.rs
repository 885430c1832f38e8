use wfns_manager::thumbnail::{select_thumbnail, video_thumb_filename, video_thumb_path};

fn names(list: &[&str]) -> Vec<String> {
    let mut v: Vec<String> = Vec::new();
    for s in list {
        v.push(s.to_string());
    }
    v
}

#[test]
fn canonical_name_wins_over_lexicographic_fallback() {
    let r = select_thumbnail(&names(&["002.png", "01.jpg", "003.jpg"]));
    assert_eq!(r, Some("01.jpg".to_string()));
}

#[test]
fn falls_back_to_lexicographically_smallest_image() {
    let r = select_thumbnail(&names(&["b.png", "a.png"]));
    assert_eq!(r, Some("a.png".to_string()));
}

#[test]
fn canonical_variants_are_recognized() {
    let r = select_thumbnail(&names(&["zz.gif", "0001_1.webp", "aa.png"]));
    assert_eq!(r, Some("0001_1.webp".to_string()));
    let r2 = select_thumbnail(&names(&["cover.png", "1.png"]));
    assert_eq!(r2, Some("1.png".to_string()));
}

#[test]
fn canonical_stem_needs_image_suffix() {
    let r = select_thumbnail(&names(&["01.txt", "b.png"]));
    assert_eq!(r, Some("b.png".to_string()));
}

#[test]
fn fallback_skips_non_image_names() {
    let r = select_thumbnail(&names(&["a.txt", "b.png"]));
    assert_eq!(r, Some("b.png".to_string()));
}

#[test]
fn no_image_means_no_thumbnail() {
    assert_eq!(select_thumbnail(&names(&["readme.txt", "noext"])), None);
    assert_eq!(select_thumbnail(&Vec::new()), None);
}

#[test]
fn video_thumb_name_derives_from_basename_stem() {
    assert_eq!(video_thumb_filename("/films/My.Video.mp4"), "My_thumb.jpg".to_string());
    assert_eq!(video_thumb_filename("clip.mp4"), "clip_thumb.jpg".to_string());
}

#[test]
fn video_thumb_path_is_deterministic() {
    let a = video_thumb_path("/cache/app", "/films/clip one.mp4");
    let b = video_thumb_path("/cache/app", "/films/clip one.mp4");
    assert_eq!(a, b);
    assert_eq!(a, "/cache/app/clip one_thumb.jpg".to_string());
}
