use video_mapper::path::PathBuf;
use video_mapper::scanner::{deduplicate_roots, deduplicate_roots_from, normalize_root, resolved_directory, skipped_roots, RootError};

fn spelled(paths: &[PathBuf]) -> Vec<String> {
    paths.iter().map(|p| p.to_str().unwrap().to_string()).collect()
}

fn paths(texts: &[&str]) -> Vec<PathBuf> {
    texts.iter().map(|t| PathBuf::from(t)).collect()
}

#[test]
fn test_deduplicate_roots_simple() {
    let paths = vec![PathBuf::from("/AAA/BBB"), PathBuf::from("/AAA"), PathBuf::from("/CCC")];
    let roots = deduplicate_roots(paths);
    assert_eq!(roots, vec![PathBuf::from("/AAA"), PathBuf::from("/CCC")]);
}

#[test]
fn test_deduplicate_roots_redundant_slashes() {
    let paths = vec![PathBuf::from("/AAA/"), PathBuf::from("/AAA//BBB/")];
    let roots = deduplicate_roots(paths);
    assert_eq!(roots, vec![PathBuf::from("/AAA")]);
}

#[test]
fn test_deduplicate_roots_relative_paths() {
    let paths = vec![PathBuf::from("./AAA"), PathBuf::from("./AAA/BBB")];
    let roots = deduplicate_roots(paths);
    assert_eq!(roots.len(), 1);
    assert!(std::path::Path::new(roots[0].to_str().unwrap()).ends_with("AAA"));
}

#[test]
fn relative_roots_are_seen_from_the_working_directory() {
    let here = std::path::absolute(".").unwrap();
    let roots = deduplicate_roots(paths(&["AAA"]));
    assert_eq!(spelled(&roots), vec![here.join("AAA").to_str().unwrap().to_string()]);
}

#[test]
fn roots_are_sorted_and_spelled_plainly() {
    let roots = deduplicate_roots_from(
        paths(&["/b/c/d/", "/z//", "/b/c", "/a/./x", "/z", "/b/cc", "/a/y/../x/w"]),
        None,
    );
    assert_eq!(spelled(&roots), vec!["/z", "/a/x", "/b/c", "/b/cc"]);
}

#[test]
fn root_directory_covers_everything() {
    let roots = deduplicate_roots_from(paths(&["/a", "/..", "x"]), Some(&PathBuf::from("/home/u")));
    assert_eq!(spelled(&roots), vec!["/"]);
}

#[test]
fn paths_that_cannot_be_normalised_are_left_out() {
    assert_eq!(spelled(&deduplicate_roots_from(paths(&["", "x", "/a"]), None)), vec!["/a"]);
    let home = PathBuf::from("/home/u");
    assert_eq!(
        spelled(&deduplicate_roots_from(paths(&["", "x", "../v"]), Some(&home))),
        vec!["/home/v", "/home/u/x"]
    );
}

#[test]
fn roots_of_roots_are_the_roots() {
    let once = deduplicate_roots_from(paths(&["/q/../a/b", "/a", "/c/d/", "/c"]), None);
    let again = deduplicate_roots_from(once.clone(), Some(&PathBuf::from("/elsewhere")));
    assert_eq!(spelled(&once), vec!["/a", "/c"]);
    assert_eq!(spelled(&once), spelled(&again));
}

#[test]
fn order_and_repetition_of_roots_do_not_matter() {
    let a = deduplicate_roots_from(paths(&["/x/y", "/a", "/x"]), None);
    let b = deduplicate_roots_from(paths(&["/x//", "/x/y", "/a/", "/a/."]), None);
    assert_eq!(spelled(&a), spelled(&b));
}

#[test]
fn normalisation_errors() {
    assert_eq!(normalize_root(&PathBuf::from(""), None), Err(RootError::EmptyPath));
    assert_eq!(normalize_root(&PathBuf::from("a"), None), Err(RootError::NoWorkingDirectory));
    let root = normalize_root(&PathBuf::from("/a/../../b/./c/"), None).unwrap();
    assert_eq!(root.to_str(), Some("/b/c"));
}

#[test]
fn roots_that_are_skipped() {
    let all = paths(&["/a", "", "b", "/c/../d", ""]);
    let skipped = skipped_roots(&all, None);
    let errors: Vec<(&str, RootError)> = skipped.iter().map(|s| (s.path.to_str().unwrap(), s.error)).collect();
    assert_eq!(
        errors,
        vec![("", RootError::EmptyPath), ("b", RootError::NoWorkingDirectory), ("", RootError::EmptyPath)]
    );
    assert_eq!(skipped_roots(&all, Some(&PathBuf::from("/w"))).len(), 2);
    assert_eq!(deduplicate_roots_from(all, None).len() + skipped.len(), 5);
}

#[test]
fn directories_as_a_scan_spells_them() {
    for (written, spelled) in [("/a/../b/", "/b"), ("/..", "/"), ("/a//b/", "/a//b/"), ("a/../b", "a/../b"), ("", "")] {
        assert_eq!(resolved_directory(&PathBuf::from(written)).to_str(), Some(spelled));
    }
}
