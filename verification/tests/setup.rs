use video_mapper::config::{all_paths, deserialize_path_list, Config, EmptyPathList, ListItem, PathList};
use video_mapper::db::{get_all_paths, upsert_row, Orientation};
use video_mapper::ffprobe::{ProbeError, VideoInfo};
use video_mapper::path::PathBuf;
use video_mapper::path_set::PathSet;
use video_mapper::pipeline::{
    all_roots_accessible, expand_tilde, probe_concurrency, process_video, uncached_videos, TildeError,
};

fn spelled(paths: &[PathBuf]) -> Vec<String> {
    paths.iter().map(|p| p.to_str().unwrap().to_string()).collect()
}

fn expanded(path: &str, home: Option<&str>) -> Result<String, TildeError> {
    let home = home.map(PathBuf::from);
    expand_tilde(&PathBuf::from(path), home.as_ref()).map(|p| p.to_str().unwrap().to_string())
}

#[test]
fn path_lists() {
    let one = deserialize_path_list(PathList::One("/视".to_string())).unwrap();
    assert_eq!(spelled(&one), vec!["/视"]);
    let many = deserialize_path_list(PathList::Many(vec!["/b".to_string(), "".to_string(), "/a".to_string()])).unwrap();
    assert_eq!(spelled(&many), vec!["/b", "", "/a"]);
    assert_eq!(deserialize_path_list(PathList::Many(vec![])).unwrap_err(), EmptyPathList);
}

#[test]
fn paths_of_all_playlists() {
    let item = |paths: &[&str]| ListItem {
        paths: paths.iter().map(|p| PathBuf::from(p)).collect(),
        m3u: PathBuf::from("/o"),
        orientation: None,
    };
    let config = |list: Vec<ListItem>| Config { head: String::new(), replace: String::new(), list };
    let configs = vec![config(vec![item(&["/c", "/a"]), item(&["/b"])]), config(vec![]), config(vec![item(&["/a"])])];
    assert_eq!(spelled(&all_paths(&configs)), vec!["/c", "/a", "/b", "/a"]);
}

#[test]
fn tilde_expansion() {
    assert_eq!(expanded("~", Some("/home/u")), Ok("/home/u".to_string()));
    assert_eq!(expanded("~/", Some("/home/u/")), Ok("/home/u/".to_string()));
    assert_eq!(expanded("~/.config/playlist.json", Some("/home/u")), Ok("/home/u/.config/playlist.json".to_string()));
    assert_eq!(expanded("~//x", Some("/")), Ok("/x".to_string()));
    assert_eq!(expanded("~user/x", Some("/home/u")), Ok("~user/x".to_string()));
    assert_eq!(expanded("/a/~", None), Ok("/a/~".to_string()));
    assert_eq!(expanded("~/x", None), Err(TildeError::NoHome));
}

#[test]
fn path_that_is_not_utf8_is_not_expanded() {
    let home = PathBuf::from("/home/u");
    let bad = PathBuf::from_bytes(vec![0x7e, 0x2f, 0xff]);
    assert_eq!(expand_tilde(&bad, Some(&home)), Err(TildeError::NotUtf8));
}

#[test]
fn concurrency() {
    assert_eq!(probe_concurrency(3, Some(8)), 3);
    assert_eq!(probe_concurrency(0, Some(8)), 8);
    assert_eq!(probe_concurrency(0, None), 1);
}

#[test]
fn cached_videos_are_not_probed() {
    let mut videos = PathSet::new();
    let mut cached = PathSet::new();
    for p in ["/v/c.mp4", "/v/a.mp4", "/v/b.mp4"] {
        videos.insert(PathBuf::from(p));
    }
    cached.insert(PathBuf::from("/v//b.mp4"));
    cached.insert(PathBuf::from("/v/gone.mp4"));
    assert_eq!(spelled(&uncached_videos(&videos, &cached)), vec!["/v/a.mp4", "/v/c.mp4"]);
}

#[test]
fn probed_videos_are_recorded() {
    let path = PathBuf::from("/v/a.mp4");
    let info = VideoInfo { width: 720, height: 1280, orientation: Orientation::Vertical };
    let record = process_video(&path, Ok(info)).unwrap();
    assert_eq!(record.path.to_str(), Some("/v/a.mp4"));
    assert_eq!((record.width, record.height), (720, 1280));
    assert_eq!(record.orientation, Orientation::Vertical);
    assert!(process_video(&path, Err(ProbeError::NoStream)).is_none());
}

#[test]
fn cleanup_needs_all_roots() {
    assert!(all_roots_accessible(&vec![]));
    assert!(all_roots_accessible(&vec![true, true]));
    assert!(!all_roots_accessible(&vec![true, false]));
}

#[test]
fn stored_videos_are_not_probed_again() {
    let mut videos = PathSet::new();
    videos.insert(PathBuf::from("/v/a.mp4"));
    let before = get_all_paths(&Vec::new());
    assert_eq!(spelled(&uncached_videos(&videos, &before)), vec!["/v/a.mp4"]);
    let info = VideoInfo { width: 2, height: 1, orientation: Orientation::Horizontal };
    let record = process_video(&PathBuf::from("/v/a.mp4"), Ok(info)).unwrap();
    let after = get_all_paths(&vec![upsert_row(&record).unwrap().path]);
    assert!(uncached_videos(&videos, &after).is_empty());
}
