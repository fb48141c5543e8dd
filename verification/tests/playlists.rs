use video_mapper::config::{Config, ListItem};
use video_mapper::db::{Orientation, OrientationMap};
use video_mapper::m3u::{generate_playlists, generate_single_playlist, render_playlist, PlaylistContext};
use video_mapper::path::PathBuf;
use video_mapper::path_set::PathSet;
use video_mapper::url::{base_url, build_remote_url, encoding_set, is_url_safe_byte, UrlError};

fn set(paths: &[&str]) -> PathSet {
    let mut set = PathSet::new();
    for p in paths {
        set.insert(PathBuf::from(p));
    }
    set
}

fn item(paths: &[&str], orientation: Option<Orientation>) -> ListItem {
    ListItem {
        paths: paths.iter().map(|p| PathBuf::from(p)).collect(),
        m3u: PathBuf::from("/out/list.m3u"),
        orientation,
    }
}

fn url(base: &str, replace: &str, video: &str) -> Result<String, UrlError> {
    build_remote_url(base, &PathBuf::from(replace), &PathBuf::from(video), encoding_set())
}

fn sorted_urls(content: &str) -> Vec<String> {
    let mut lines = content.lines();
    assert_eq!(lines.next(), Some("#EXTM3U"));
    let mut urls = Vec::new();
    while let Some(line) = lines.next() {
        assert_eq!(line, "#EXTINF:-1,");
        urls.push(lines.next().unwrap().to_string());
    }
    urls.sort();
    urls
}

#[test]
fn safe_bytes() {
    for b in 0..=255u8 {
        let expected = b.is_ascii_alphanumeric() || b"-_.~/".contains(&b);
        assert_eq!(is_url_safe_byte(b), expected);
    }
}

#[test]
fn urls_are_encoded() {
    assert_eq!(url("http://h", "/media", "/media/a/b-c_d.e~f.mp4").unwrap(), "http://h/a/b-c_d.e~f.mp4");
    assert_eq!(url("http://h/dav", "/media", "/media/a b%.mp4").unwrap(), "http://h/dav/a%20b%25.mp4");
    assert_eq!(url("h", "/", "/视.mp4").unwrap(), "h/%E8%A7%86.mp4");
    assert_eq!(url("h", "", "/a/b.mp4").unwrap(), "h//a/b.mp4");
    assert_eq!(url("h", "/a", "/a//b///c+d.mp4/").unwrap(), "h/b///c%2Bd.mp4");
}

#[test]
fn encoding_round_trips() {
    for text in ["plain/a.mp4", "空 格/%41.mp4", "q?x=1&y#z", "\u{7f}\u{1}"] {
        let video = format!("/r/{text}");
        let encoded = url("", "/r", &video).unwrap();
        let decoded = percent_encoding::percent_decode_str(&encoded[1..]).decode_utf8().unwrap().to_string();
        assert_eq!(decoded, text);
    }
}

#[test]
fn url_errors() {
    assert_eq!(url("h", "/media", "/mediax/a.mp4"), Err(UrlError::OutsidePrefix));
    let video = PathBuf::from_bytes(vec![0x2f, 0x61, 0x2f, 0xff]);
    assert_eq!(build_remote_url("h", &PathBuf::from("/a"), &video, encoding_set()), Err(UrlError::NotUtf8));
    let below = PathBuf::from_bytes(vec![0x2f, 0xff, 0x2f, 0x61]);
    let replace = PathBuf::from_bytes(vec![0x2f, 0xff]);
    assert_eq!(build_remote_url("h", &replace, &below, encoding_set()), Ok("h/a".to_string()));
}

#[test]
fn trailing_slashes_of_the_base_url() {
    assert_eq!(base_url("http://h//"), "http://h");
    assert_eq!(base_url("http://h/a"), "http://h/a");
    assert_eq!(base_url("//"), "");
    assert_eq!(base_url(""), "");
    assert_eq!(base_url("头/"), "头");
}

#[test]
fn rendered_playlist() {
    assert_eq!(render_playlist(&vec![], 8), "#EXTM3U\n");
    let urls = vec!["http://a".to_string(), "http://b".to_string()];
    let expected = "#EXTM3U\n#EXTINF:-1,\nhttp://a\n#EXTINF:-1,\nhttp://b\n";
    assert_eq!(render_playlist(&urls, 0), expected);
    assert_eq!(render_playlist(&urls, usize::MAX), expected);
}

#[test]
fn collected_urls_and_capacity() {
    let videos = set(&["/m/a/1.mp4", "/m/b/2.mp4", "/m/a/视.mp4", "/n/a/3.mp4"]);
    let map = OrientationMap::new();
    let replace = PathBuf::from("/m");
    let ctx = PlaylistContext {
        video_paths: &videos,
        orientation_map: &map,
        replace_path: &replace,
        base_url: "http://视",
        encoding_set: encoding_set(),
    };
    let (urls, capacity) = ctx.collect_urls(&item(&["/m/a", "/n"], None));
    assert_eq!(urls, vec!["http://视/a/1.mp4", "http://视/a/%E8%A7%86.mp4"]);
    assert_eq!(capacity, render_playlist(&urls, capacity).len());
    assert_eq!(ctx.collect_urls(&item(&["/m"], Some(Orientation::Vertical))).0, Vec::<String>::new());
    assert_eq!(ctx.collect_urls(&item(&["/x"], None)).1, "#EXTM3U\n".len());
    let skipped = ctx.skipped_videos(&item(&["/m/a", "/n"], None));
    assert_eq!(skipped.len(), 1);
    assert_eq!(skipped[0].path.to_str(), Some("/n/a/3.mp4"));
    assert_eq!(skipped[0].error, UrlError::OutsidePrefix);
    assert!(ctx.skipped_videos(&item(&["/m"], None)).is_empty());
    assert!(ctx.skipped_videos(&item(&["/n"], Some(Orientation::Vertical))).is_empty());
}

#[test]
fn playlists_of_a_configuration() {
    let videos = set(&["/m/a/h.mp4", "/m/a/v.mp4", "/m/a/u.mp4", "/m/b/w x.mp4"]);
    let mut map = OrientationMap::new();
    map.insert(PathBuf::from("/m/a/h.mp4"), Orientation::Horizontal);
    map.insert(PathBuf::from("/m/a/v.mp4"), Orientation::Vertical);
    let mut list = vec![
        item(&["/m/a"], None),
        item(&["/m/a"], Some(Orientation::Horizontal)),
        item(&["/m/a", "/m/b"], Some(Orientation::Vertical)),
        item(&["/m"], None),
    ];
    list[3].m3u = PathBuf::from("/out/all.m3u");
    let config = Config { head: "http://h/d//".to_string(), replace: "/m/".to_string(), list };
    let playlists = generate_playlists(&config, &videos, &map).unwrap();
    let urls: Vec<Vec<String>> = playlists.iter().map(|p| sorted_urls(&p.content)).collect();
    assert_eq!(urls[0], vec!["http://h/d/a/h.mp4", "http://h/d/a/u.mp4", "http://h/d/a/v.mp4"]);
    assert_eq!(urls[1], vec!["http://h/d/a/h.mp4"]);
    assert_eq!(urls[2], vec!["http://h/d/a/v.mp4"]);
    assert_eq!(
        urls[3],
        vec!["http://h/d/a/h.mp4", "http://h/d/a/u.mp4", "http://h/d/a/v.mp4", "http://h/d/b/w%20x.mp4"]
    );
    assert_eq!(playlists[3].m3u.to_str(), Some("/out/all.m3u"));
    assert_eq!(playlists.len(), 4);
}

#[test]
fn urls_are_shuffled() {
    let names: Vec<String> = (0..200).map(|i| format!("/m/{i}.mp4")).collect();
    let texts: Vec<&str> = names.iter().map(|n| n.as_str()).collect();
    let videos = set(&texts);
    let config =
        Config { head: "h".to_string(), replace: "/m".to_string(), list: vec![item(&["/m"], None), item(&["/m"], None)] };
    let playlists = generate_playlists(&config, &videos, &OrientationMap::new()).unwrap();
    assert_ne!(playlists[0].content, playlists[1].content);
    assert_eq!(sorted_urls(&playlists[0].content), sorted_urls(&playlists[1].content));
    assert_eq!(playlists[0].content.len(), playlists[1].content.len());
}

#[test]
fn orientations_partition_a_playlist() {
    let videos = set(&["/m/1.mp4", "/m/2.mp4", "/m/3.mp4"]);
    let mut map = OrientationMap::new();
    map.insert(PathBuf::from("/m/1.mp4"), Orientation::Horizontal);
    map.insert(PathBuf::from("/m/2.mp4"), Orientation::Vertical);
    map.insert(PathBuf::from("/m/3.mp4"), Orientation::Horizontal);
    let list = vec![
        item(&["/m"], None),
        item(&["/m"], Some(Orientation::Horizontal)),
        item(&["/m"], Some(Orientation::Vertical)),
    ];
    let config = Config { head: "h".to_string(), replace: "/m".to_string(), list };
    let playlists = generate_playlists(&config, &videos, &map).unwrap();
    let mut parts = sorted_urls(&playlists[1].content);
    parts.extend(sorted_urls(&playlists[2].content));
    parts.sort();
    assert_eq!(sorted_urls(&playlists[0].content), parts);
}

#[test]
fn video_without_url_fails_its_playlist() {
    let mut videos = set(&["/m/a/1.mp4", "/n/2.mp4"]);
    videos.insert(PathBuf::from_bytes(b"/m/b/\xff.mp4".to_vec()));
    let mut list = vec![item(&["/m/a"], None), item(&["/m/b", "/n"], None), item(&["/m/a"], None)];
    list[1].m3u = PathBuf::from("/out/bad.m3u");
    let config = Config { head: "h".to_string(), replace: "/m".to_string(), list };
    let failed = generate_playlists(&config, &videos, &OrientationMap::new()).unwrap_err();
    assert_eq!(failed.done.len(), 1);
    assert_eq!(sorted_urls(&failed.done[0].content), vec!["h/a/1.mp4"]);
    assert_eq!(failed.m3u.to_str(), Some("/out/bad.m3u"));
    assert_eq!(failed.error, UrlError::OutsidePrefix);
    let errors: Vec<UrlError> = failed.skipped.iter().map(|s| s.error).collect();
    assert_eq!(errors, vec![UrlError::OutsidePrefix, UrlError::NotUtf8]);
    assert_eq!(failed.skipped[0].path.to_str(), Some("/n/2.mp4"));
}

#[test]
fn single_playlist_succeeds_or_fails() {
    let videos = set(&["/m/1.mp4", "/n/2.mp4"]);
    let map = OrientationMap::new();
    let replace = PathBuf::from("/m");
    let ctx = PlaylistContext {
        video_paths: &videos,
        orientation_map: &map,
        replace_path: &replace,
        base_url: "h",
        encoding_set: encoding_set(),
    };
    let mut rng = rand::rng();
    let good = generate_single_playlist(&item(&["/m"], None), &ctx, &mut rng);
    assert_eq!(good, Ok("#EXTM3U\n#EXTINF:-1,\nh/1.mp4\n".to_string()));
    let bad = generate_single_playlist(&item(&["/"], None), &ctx, &mut rng);
    assert_eq!(bad, Err(UrlError::OutsidePrefix));
    let filtered = generate_single_playlist(&item(&["/"], Some(Orientation::Vertical)), &ctx, &mut rng);
    assert_eq!(filtered, Ok("#EXTM3U\n".to_string()));
}

#[test]
fn directories_written_with_parent_steps() {
    let videos = set(&["/BBB/1.mp4", "/AAA/2.mp4", "/BBB/../C/3.mp4"]);
    let config = Config {
        head: "h".to_string(),
        replace: "/x/../BBB".to_string(),
        list: vec![item(&["/AAA/../BBB/sub/.."], None)],
    };
    let mut only = set(&["/BBB/1.mp4", "/AAA/2.mp4"]);
    let playlists = generate_playlists(&config, &only, &OrientationMap::new()).unwrap();
    assert_eq!(sorted_urls(&playlists[0].content), vec!["h/1.mp4"]);
    only.insert(PathBuf::from("/AAA/../BBB/sub/../4.mp4"));
    assert!(generate_playlists(&config, &only, &OrientationMap::new()).is_err());
    let plain = Config { head: "h".to_string(), replace: "/".to_string(), list: vec![item(&["/BBB/../C"], None)] };
    let playlists = generate_playlists(&plain, &videos, &OrientationMap::new()).unwrap();
    assert_eq!(sorted_urls(&playlists[0].content), vec!["h/BBB/../C/3.mp4"]);
}

#[test]
fn prefix_counts_as_it_is_written() {
    let config = Config {
        head: "http://h".to_string(),
        replace: "/A/../B".to_string(),
        list: vec![item(&["/A/../B"], None)],
    };
    let written = generate_playlists(&config, &set(&["/A/../B/x.mp4"]), &OrientationMap::new()).unwrap();
    assert_eq!(sorted_urls(&written[0].content), vec!["http://h/x.mp4"]);
    let resolved = generate_playlists(&config, &set(&["/B/x.mp4"]), &OrientationMap::new()).unwrap();
    assert_eq!(sorted_urls(&resolved[0].content), vec!["http://h/x.mp4"]);
    let both = set(&["/A/../B/x.mp4", "/B/y.mp4"]);
    let failed = generate_playlists(&config, &both, &OrientationMap::new()).unwrap_err();
    assert_eq!(failed.error, UrlError::OutsidePrefix);
    assert_eq!(failed.skipped.len(), 1);
    assert_eq!(failed.skipped[0].path.to_str(), Some("/B/y.mp4"));
}
