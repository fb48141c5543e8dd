use std::path::Path;
use video_mapper::order::{compare_bytes, compare_lists, Relation};
use video_mapper::path::{same_bytes, split_components, PathBuf};
use video_mapper::path_set::PathSet;
use video_mapper::text::{same_text, utf8_text};

const SAMPLES: [&str; 36] = [
    "", "/", "//", "///", ".", "./", "..", "/..", "/.", "/./", "a", "a/", "a/.", "a//", "./a", "././a", "/a", "//a",
    "/a/b", "/a//b/", "/a/./b", "/a/../b", "a/b/c", "a/b//c/./", ".a", ".a.b", "a.mp4", "/x/a.MP4", "/x/a.", "/x/.mp4",
    "/x/a.tar.gz", "/x/a.mp4/.", "/x/a.mp4/..", "~", "~/x/y", "/x/~",
];

fn std_bytes(p: &Path) -> Vec<u8> {
    p.as_os_str().as_encoded_bytes().to_vec()
}

#[test]
fn components_agree_with_std() {
    for s in SAMPLES {
        let own: Vec<Vec<u8>> = split_components(s.as_bytes()).iter().map(|c| c.to_vec()).collect();
        let std: Vec<Vec<u8>> =
            Path::new(s).components().map(|c| c.as_os_str().as_encoded_bytes().to_vec()).collect();
        assert_eq!(own, std, "{s:?}");
    }
}

#[test]
fn equality_and_prefixes_agree_with_std() {
    for a in SAMPLES {
        for b in SAMPLES {
            let (pa, pb) = (PathBuf::from(a), PathBuf::from(b));
            assert_eq!(pa == pb, Path::new(a) == Path::new(b), "{a:?} {b:?}");
            assert_eq!(pa.starts_with(&pb), Path::new(a).starts_with(b), "{a:?} {b:?}");
            let own = pa.strip_prefix(&pb).map(|p| p.as_bytes().to_vec());
            let std = Path::new(a).strip_prefix(b).ok().map(std_bytes);
            assert_eq!(own, std, "{a:?} {b:?}");
        }
    }
}

#[test]
fn join_and_extension_agree_with_std() {
    for a in SAMPLES {
        let pa = PathBuf::from(a);
        assert_eq!(pa.is_absolute(), Path::new(a).is_absolute());
        assert_eq!(pa.is_empty(), a.is_empty());
        let own = pa.extension().map(|e| e.to_vec());
        let std = Path::new(a).extension().map(|e| e.as_encoded_bytes().to_vec());
        assert_eq!(own, std, "{a:?}");
        for b in SAMPLES {
            let joined = pa.join(&PathBuf::from(b));
            assert_eq!(joined.as_bytes().to_vec(), std_bytes(&Path::new(a).join(b)), "{a:?} {b:?}");
        }
    }
}

#[test]
fn relative_path_joined_again_is_the_path() {
    let path = PathBuf::from("/media//films/./a/b.mp4");
    let base = PathBuf::from("/media/films");
    let rest = path.strip_prefix(&base).unwrap();
    assert_eq!(rest.as_bytes().to_vec(), b"a/b.mp4".to_vec());
    assert!(base.join(&rest) == path);
}

#[test]
fn text_of_a_path() {
    assert_eq!(PathBuf::from("/视频/a").to_str(), Some("/视频/a"));
    assert_eq!(PathBuf::from_bytes(vec![0x2f, 0xff]).to_str(), None);
    assert_eq!(utf8_text(&[0xe8, 0xa7, 0x86]), Some("视"));
    assert_eq!(utf8_text(&[0xe8, 0xa7]), None);
    assert!(same_text("视", "视"));
    assert!(!same_text("a", "b"));
    assert!(same_bytes(b"ab", b"ab"));
    assert!(!same_bytes(b"ab", b"abc"));
}

#[test]
fn order_is_lexicographic() {
    assert_eq!(compare_bytes(b"a", b"ab"), Relation::Before);
    assert_eq!(compare_bytes(b"b", b"ab"), Relation::After);
    assert_eq!(compare_bytes(b"", b""), Relation::Same);
    let a: Vec<&[u8]> = vec![b"a", b"z"];
    let b: Vec<&[u8]> = vec![b"b"];
    assert_eq!(compare_lists(&a, &b), Relation::Before);
    assert_eq!(compare_lists(&b, &a), Relation::After);
    assert_eq!(compare_lists(&a, &a), Relation::Same);
}

#[test]
fn set_keeps_first_spelling_and_order() {
    let mut set = PathSet::new();
    assert!(set.is_empty());
    assert!(set.insert(PathBuf::from("/b//x")));
    assert!(set.insert(PathBuf::from("/a/x")));
    assert!(set.insert(PathBuf::from("/z")));
    assert!(!set.insert(PathBuf::from("/b/x/")));
    assert_eq!(set.len(), 3);
    assert!(set.contains(&PathBuf::from("/b/./x")));
    assert!(!set.contains(&PathBuf::from("/b")));
    let spelled: Vec<Vec<u8>> = (0..set.len()).map(|i| set.get(i).as_bytes().to_vec()).collect();
    assert_eq!(spelled, vec![b"/z".to_vec(), b"/a/x".to_vec(), b"/b//x".to_vec()]);
}
