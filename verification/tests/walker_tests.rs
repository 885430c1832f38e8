use nanorand::WyRand;
use wfns_manager::catalog::{AppFolderManager, Media, RawChild, SubFolder};
use wfns_manager::classify::MediaType;
use wfns_manager::prefs::AppMode;

fn child(name: &str, is_dir: bool) -> RawChild {
    RawChild { name: name.to_string(), is_dir, files: Vec::new() }
}

fn child_with_files(name: &str, files: &[&str]) -> RawChild {
    let mut fs: Vec<String> = Vec::new();
    for f in files {
        fs.push(f.to_string());
    }
    RawChild { name: name.to_string(), is_dir: true, files: fs }
}

#[test]
fn empty_root_gives_empty_pools_and_default_mode() {
    let mut rng = WyRand::new_seed(7);
    let (m, rec) = AppFolderManager::set_folder("/root".to_string(), Vec::new(), &mut rng);
    assert_eq!(rec, AppMode::SubFolders);
    assert_eq!(m.mode, AppMode::SubFolders);
    assert!(m.subfolders.is_empty());
    assert!(m.images.is_empty());
    assert!(m.videos.is_empty());
}

#[test]
fn scan_partitions_children_into_disjoint_pools() {
    let children = vec![
        child("beta", true),
        child("alpha", true),
        child("pic.jpg", false),
        child("art.png", false),
        child("movie.mp4", false),
        child("notes.txt", false),
        child("noextension", false),
    ];
    let mut rng = WyRand::new_seed(3);
    let (m, rec) = AppFolderManager::set_folder("/root".to_string(), children, &mut rng);
    assert_eq!(rec, AppMode::SubFolders);

    let mut sub_names: Vec<String> = m.subfolders.iter().map(|s| s.name.clone()).collect();
    sub_names.sort();
    assert_eq!(sub_names, vec!["alpha".to_string(), "beta".to_string()]);

    let mut img_paths: Vec<String> = m.images.iter().map(|i| i.filepath.clone()).collect();
    img_paths.sort();
    assert_eq!(img_paths, vec!["/root/art.png".to_string(), "/root/pic.jpg".to_string()]);

    let vid_paths: Vec<String> = m.videos.iter().map(|v| v.filepath.clone()).collect();
    assert_eq!(vid_paths, vec!["/root/movie.mp4".to_string()]);

    assert_eq!(m.subfolders.len() + m.images.len() + m.videos.len(), 5);
}

#[test]
fn images_only_root_recommends_images() {
    let children = vec![child("a.jpg", false), child("b.png", false)];
    let mut rng = WyRand::new_seed(1);
    let (m, rec) = AppFolderManager::set_folder("/r".to_string(), children, &mut rng);
    assert_eq!(rec, AppMode::Images);
    assert_eq!(m.mode, AppMode::Images);
}

#[test]
fn videos_only_root_recommends_videos() {
    let children = vec![child("a.mp4", false), child("notes.txt", false)];
    let mut rng = WyRand::new_seed(1);
    let (m, rec) = AppFolderManager::set_folder("/r".to_string(), children, &mut rng);
    assert_eq!(rec, AppMode::Videos);
}

#[test]
fn next_drains_the_pool_after_exactly_pool_len_draws() {
    let children = vec![
        child("a", true),
        child("b", true),
        child("c", true),
        child("d", true),
        child("e", true),
    ];
    let mut rng = WyRand::new_seed(42);
    let (mut m, _) = AppFolderManager::set_folder("/r".to_string(), children, &mut rng);
    let mut seen: Vec<usize> = Vec::new();
    for _ in 0..5 {
        assert!(m.next(AppMode::SubFolders, &mut rng).is_ok());
        seen.push(m.curr.unwrap());
    }
    assert!(m.next(AppMode::SubFolders, &mut rng).is_err());
    seen.sort();
    assert_eq!(seen, vec![0, 1, 2, 3, 4]);
}

#[test]
fn reset_restores_a_drained_pool_for_another_cycle() {
    let children = vec![child("a", true), child("b", true)];
    let mut rng = WyRand::new_seed(5);
    let (mut m, _) = AppFolderManager::set_folder("/r".to_string(), children, &mut rng);
    for _ in 0..3 {
        assert!(m.next(AppMode::SubFolders, &mut rng).is_ok());
        assert!(m.next(AppMode::SubFolders, &mut rng).is_ok());
        assert!(m.next(AppMode::SubFolders, &mut rng).is_err());
        m.reset_curr_index();
    }
}

#[test]
fn prev_returns_the_entry_shown_before() {
    let children = vec![child("a", true), child("b", true)];
    let mut rng = WyRand::new_seed(11);
    let (mut m, _) = AppFolderManager::set_folder("/r".to_string(), children, &mut rng);
    assert!(m.next(AppMode::SubFolders, &mut rng).is_ok());
    let first = m.curr.unwrap();
    assert!(m.next(AppMode::SubFolders, &mut rng).is_ok());
    let second = m.curr.unwrap();
    assert_ne!(first, second);

    assert!(m.prev(AppMode::SubFolders, &mut rng).is_ok());
    assert_eq!(m.curr, Some(first));

    // With the history drained, stepping back draws afresh instead of
    // failing; the only unseen entry is the one just returned to the pool.
    assert!(m.prev(AppMode::SubFolders, &mut rng).is_ok());
    assert_eq!(m.curr, Some(second));
}

#[test]
fn prev_on_a_fresh_walker_draws_like_next() {
    let children = vec![child("only", true)];
    let mut rng = WyRand::new_seed(2);
    let (mut m, _) = AppFolderManager::set_folder("/r".to_string(), children, &mut rng);
    assert!(m.prev(AppMode::SubFolders, &mut rng).is_ok());
    assert_eq!(m.curr, Some(0));
}

#[test]
fn prev_fails_only_when_nothing_was_or_can_be_shown() {
    let mut rng = WyRand::new_seed(2);
    let (mut m, _) = AppFolderManager::set_folder("/r".to_string(), Vec::new(), &mut rng);
    assert!(m.prev(AppMode::SubFolders, &mut rng).is_err());
    assert!(m.next(AppMode::SubFolders, &mut rng).is_err());
}

#[test]
fn switching_mode_reinitializes_the_walker() {
    let children = vec![child("a", true), child("b", true), child("pic.jpg", false)];
    let mut rng = WyRand::new_seed(9);
    let (mut m, rec) = AppFolderManager::set_folder("/r".to_string(), children, &mut rng);
    assert_eq!(rec, AppMode::SubFolders);
    assert!(m.next(AppMode::SubFolders, &mut rng).is_ok());
    assert!(m.next(AppMode::Images, &mut rng).is_ok());
    assert_eq!(m.mode, AppMode::Images);
    assert_eq!(m.curr, Some(0));
    assert!(m.next(AppMode::Images, &mut rng).is_err());
}

#[test]
fn remaining_and_history_stay_disjoint_through_a_walk() {
    let children = vec![
        child("a", true),
        child("b", true),
        child("c", true),
        child("d", true),
    ];
    let mut rng = WyRand::new_seed(33);
    let (mut m, _) = AppFolderManager::set_folder("/r".to_string(), children, &mut rng);
    for step in 0..10 {
        let moved = if step % 3 == 2 {
            m.prev(AppMode::SubFolders, &mut rng).is_ok()
        } else {
            m.next(AppMode::SubFolders, &mut rng).is_ok()
        };
        if !moved {
            m.reset_curr_index();
            continue;
        }
        for r in &m.remaining {
            assert!(!m.history.contains(r), "index {} in remaining and history", r);
            assert_ne!(m.curr, Some(*r), "index {} in remaining while on display", r);
        }
        if let Some(c) = m.curr {
            assert!(!m.history.contains(&c), "index {} in history while on display", c);
        }
        assert_eq!(
            m.remaining.len() + m.history.len() + if m.curr.is_some() { 1 } else { 0 },
            4
        );
    }
}

#[test]
fn scanned_subfolders_resolve_thumbnails_from_their_files() {
    let children = vec![
        child_with_files("withcanon", &["zz.png", "01.jpg"]),
        child_with_files("plain", &["b.png", "a.png"]),
        child_with_files("bare", &["readme.txt"]),
    ];
    let mut rng = WyRand::new_seed(21);
    let (m, _) = AppFolderManager::set_folder("/r".to_string(), children, &mut rng);
    for s in &m.subfolders {
        match s.name.as_str() {
            "withcanon" => assert_eq!(s.thumbnail, Some("01.jpg".to_string())),
            "plain" => assert_eq!(s.thumbnail, Some("a.png".to_string())),
            "bare" => assert_eq!(s.thumbnail, None),
            other => panic!("unexpected subfolder {}", other),
        }
    }
    assert_eq!(m.subfolders.len(), 3);
}

#[test]
fn subfolder_new_records_name_root_and_thumbnail() {
    let files = vec!["b.png".to_string(), "a.png".to_string()];
    let s = SubFolder::new("album", "/media/root", &files);
    assert_eq!(s.name, "album".to_string());
    assert_eq!(s.thumbnail, Some("a.png".to_string()));
    assert_eq!(s.get_path(), "/media/root/album".to_string());
}

#[test]
fn media_new_strips_the_display_name_at_the_first_dot() {
    let m = Media::new("photo.album.jpg", "/r", MediaType::Image);
    assert_eq!(m.name, "photo".to_string());
    assert_eq!(m.filepath, "/r/photo.album.jpg".to_string());
    assert_eq!(m.media_type, MediaType::Image);
}
