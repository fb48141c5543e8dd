use video_mapper::path::PathBuf;
use video_mapper::scanner::{is_skipped_dir, is_video_file, scan_videos, WalkEntry};
use walkdir::WalkDir;

fn file(path: &str) -> WalkEntry {
    WalkEntry { path: PathBuf::from(path), name: Vec::new(), is_dir: false, is_file: true }
}

fn dir(path: &str, name: &str) -> WalkEntry {
    WalkEntry { path: PathBuf::from(path), name: name.as_bytes().to_vec(), is_dir: true, is_file: false }
}

fn walked(entry: &walkdir::DirEntry) -> WalkEntry {
    WalkEntry {
        path: PathBuf::from_bytes(entry.path().as_os_str().as_encoded_bytes().to_vec()),
        name: entry.file_name().as_encoded_bytes().to_vec(),
        is_dir: entry.file_type().is_dir(),
        is_file: entry.file_type().is_file(),
    }
}

#[test]
fn test_scan_videos_extension_filter_and_dedup() {
    let videos = scan_videos(vec![
        dir("/base", "base"),
        file("/base/movie.MP4"),
        file("/base/clip.mkv"),
        dir("/base/sub", "sub"),
        file("/base/sub/video.webm"),
        file("/base/notes.txt"),
        file("/base/sub/image.jpg"),
        file("/base/clip.mkv"),
    ], None);
    assert_eq!(videos.len(), 3);
    assert!(videos.contains(&PathBuf::from("/base/movie.MP4")));
    assert!(videos.contains(&PathBuf::from("/base/clip.mkv")));
    assert!(videos.contains(&PathBuf::from("/base/sub/video.webm")));
}

#[test]
fn test_scan_videos_handles_missing_root() {
    let entries: Vec<WalkEntry> = WalkDir::new("/nonexistent/path/for/test")
        .follow_links(false)
        .into_iter()
        .filter_map(|e| e.ok())
        .map(|e| walked(&e))
        .collect();
    let videos = scan_videos(entries, None);
    assert!(videos.is_empty());
}

#[test]
fn only_regular_files_are_videos() {
    let link = WalkEntry { path: PathBuf::from("/v/a.mp4"), name: Vec::new(), is_dir: false, is_file: false };
    assert!(scan_videos(vec![link, dir("/v/b.mp4", "b.mp4")], None).is_empty());
}

#[test]
fn video_extensions() {
    for name in ["a.mp4", "a.MKV", "a.Avi", "a.mov", "a.flv", "a.ts", "a.M2TS", "a.rmvb", "a.webm", "a.wmv", "a.m4v",
        "a.mpg", "a.mPeG", "x.tar.mp4"]
    {
        assert!(is_video_file(&PathBuf::from(name)), "{name}");
    }
    for name in ["mp4", ".mp4", "a.mp", "a.mp44", "a.mp4.txt", "a.", "a.mp4/..", ""] {
        assert!(!is_video_file(&PathBuf::from(name)), "{name}");
    }
    assert!(!is_video_file(&PathBuf::from_bytes(vec![0x61, 0x2e, 0x6d, 0x70, 0xff])));
    assert!(is_video_file(&PathBuf::from_bytes(vec![0xff, 0x2e, 0x74, 0x73])));
}

#[test]
fn lost_and_found_is_skipped_as_a_directory_only() {
    assert!(is_skipped_dir(&dir("/a/b/lost+found", "lost+found")));
    assert!(!is_skipped_dir(&dir("/a/lost", "lost")));
    let plain = WalkEntry {
        path: PathBuf::from("/a/lost+found"),
        name: b"lost+found".to_vec(),
        is_dir: false,
        is_file: true,
    };
    assert!(!is_skipped_dir(&plain));
}

#[test]
fn overlapping_walks() {
    let once = scan_videos(vec![file("/v/b.ts"), file("/v/a.ts")], None);
    let twice = scan_videos(vec![file("/v/b.ts"), file("/v/a.ts"), file("/v//a.ts"), file("/v/b.ts")], None);
    assert_eq!(once.len(), 2);
    assert_eq!(twice.len(), 2);
    for i in 0..2 {
        assert_eq!(once.get(i).as_bytes(), twice.get(i).as_bytes());
    }
    assert_eq!(once.get(0).to_str(), Some("/v/a.ts"));
}

#[test]
fn collected_paths_are_absolute() {
    let entries = || vec![file("./a.ts"), file("sub/b.ts"), file("/cwd/a.ts"), file("/x.ts")];
    let cwd = PathBuf::from("/cwd");
    let videos = scan_videos(entries(), Some(&cwd));
    assert_eq!(videos.len(), 3);
    for i in 0..3 {
        assert!(videos.get(i).is_absolute());
    }
    assert!(videos.contains(&PathBuf::from("/cwd/a.ts")));
    assert!(videos.contains(&PathBuf::from("/cwd/sub/b.ts")));
    assert!(videos.contains(&PathBuf::from("/x.ts")));
    assert_eq!(scan_videos(entries(), None).len(), 2);
    assert_eq!(scan_videos(entries(), Some(&PathBuf::from("cwd"))).len(), 2);
}
