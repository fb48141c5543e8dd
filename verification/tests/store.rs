use video_mapper::db::{
    delete_missing, get_all_orientations, get_all_paths, row_record, upsert_row, Deletion, DeletionStep, Orientation,
    OrientationMap, OrientationRow, PathNotUtf8, VideoRecord, VideoRow,
};
use video_mapper::path::PathBuf;
use video_mapper::path_set::PathSet;

fn orientation_row(path: &str, orientation: &str) -> OrientationRow {
    OrientationRow { path: path.to_string(), orientation: orientation.to_string() }
}

fn set(paths: &[&str]) -> PathSet {
    let mut set = PathSet::new();
    for p in paths {
        set.insert(PathBuf::from(p));
    }
    set
}

fn texts(paths: &[&str]) -> Vec<String> {
    paths.iter().map(|p| p.to_string()).collect()
}

/// Runs a deletion on `table` and returns the number that is committed.
fn run(mut deletion: Deletion, table: &mut Vec<String>, sizes: &mut Vec<usize>) -> usize {
    loop {
        match deletion.next_step() {
            DeletionStep::Delete(paths) => {
                let before = table.len();
                table.retain(|t| !paths.contains(t));
                sizes.push(paths.len());
                deletion.batch_deleted((before - table.len()) as u64);
            }
            DeletionStep::Commit(n) => return n,
        }
    }
}

fn record(path: &str, width: i64, height: i64, orientation: Orientation) -> VideoRecord {
    VideoRecord { path: PathBuf::from(path), width, height, orientation }
}

#[test]
fn test_upsert_and_get() {
    let record = record("/test/video.mp4", 1920, 1080, Orientation::Horizontal);
    let row = upsert_row(&record).unwrap();
    assert_eq!(row.path, "/test/video.mp4");
    assert_eq!(row.width, 1920);
    assert_eq!(row.height, 1080);
    assert_eq!(row.orientation, "Horizontal");
    let fetched = row_record(row).unwrap();
    assert_eq!(fetched, record);
}

#[test]
fn path_that_is_not_utf8_is_not_stored() {
    let record = VideoRecord {
        path: PathBuf::from_bytes(vec![0x2f, 0xfe]),
        width: 1,
        height: 1,
        orientation: Orientation::Vertical,
    };
    assert_eq!(upsert_row(&record).unwrap_err(), PathNotUtf8);
}

#[test]
fn orientation_texts() {
    assert_eq!(Orientation::Horizontal.as_str(), "Horizontal");
    assert_eq!(Orientation::Vertical.as_str(), "Vertical");
    assert_eq!(Orientation::from_str("Horizontal").unwrap(), Orientation::Horizontal);
    assert_eq!(Orientation::from_str("Vertical").unwrap(), Orientation::Vertical);
    assert_eq!(Orientation::from_str("vertical").unwrap_err().text, "vertical");
    let row = VideoRow { path: "/a".to_string(), width: 1, height: 1, orientation: "up".to_string() };
    assert_eq!(row_record(row).unwrap_err().text, "up");
}

#[test]
fn test_delete_missing() {
    let record1 = record("/test/keep.mp4", 1280, 720, Orientation::Horizontal);
    let record2 = record("/test/remove.mp4", 720, 1280, Orientation::Vertical);
    let mut table = vec![upsert_row(&record1).unwrap().path, upsert_row(&record2).unwrap().path];

    let mut current = PathSet::new();
    current.insert(PathBuf::from("/test/keep.mp4"));
    let deletion = delete_missing(&table, &current).unwrap().unwrap();
    let mut sizes = Vec::new();
    let deleted = run(deletion, &mut table, &mut sizes);
    assert_eq!(deleted, 1);
    assert_eq!(sizes, vec![1]);
    assert!(table.contains(&"/test/keep.mp4".to_string()));
    assert!(!table.contains(&"/test/remove.mp4".to_string()));
}

#[test]
fn nothing_to_delete() {
    assert!(delete_missing(&texts(&["/a//b"]), &set(&["/a/b", "/c"])).unwrap().is_none());
    assert!(delete_missing(&Vec::new(), &set(&[])).unwrap().is_none());
}

#[test]
fn deletion_is_sent_in_batches() {
    let mut table: Vec<String> = (0..1203).map(|i| format!("/v/{i}.mp4")).collect();
    let deletion = delete_missing(&table, &set(&["/v/7.mp4", "/v/800.mp4", "/w"])).unwrap().unwrap();
    let mut sizes = Vec::new();
    assert_eq!(run(deletion, &mut table, &mut sizes), 1201);
    assert_eq!(table, texts(&["/v/7.mp4", "/v/800.mp4"]));
    assert_eq!(sizes, vec![500, 500, 201]);
}

#[test]
fn exact_batches() {
    let mut table: Vec<String> = (0..500).map(|i| format!("/v/{i}.mp4")).collect();
    let deletion = delete_missing(&table, &set(&[])).unwrap().unwrap();
    let mut sizes = Vec::new();
    assert_eq!(run(deletion, &mut table, &mut sizes), 500);
    assert_eq!(sizes, vec![500]);
}

#[test]
fn deleted_rows_do_not_overflow() {
    let mut deletion = delete_missing(&texts(&["/a"]), &set(&[])).unwrap().unwrap();
    deletion.batch_deleted(u64::MAX);
    deletion.batch_deleted(3);
    assert!(matches!(deletion.next_step(), DeletionStep::Commit(usize::MAX)));
}

#[test]
fn test_get_all_orientations() {
    let record1 = record("/test/h.mp4", 1920, 1080, Orientation::Horizontal);
    let record2 = record("/test/v.mp4", 1080, 1920, Orientation::Vertical);
    let mut rows = Vec::new();
    for record in [record1, record2] {
        let row = upsert_row(&record).unwrap();
        rows.push(orientation_row(&row.path, &row.orientation));
    }

    let map = get_all_orientations(&rows).unwrap();
    assert_eq!(map.len(), 2);
    assert_eq!(map.get(&PathBuf::from("/test/h.mp4")), Some(Orientation::Horizontal));
    assert_eq!(map.get(&PathBuf::from("/test/v.mp4")), Some(Orientation::Vertical));
    assert_eq!(map.get(&PathBuf::from("/test")), None);
}

#[test]
fn later_orientation_counts_and_invalid_is_reported() {
    let map = get_all_orientations(&vec![
        orientation_row("/b", "Horizontal"),
        orientation_row("/a", "Horizontal"),
        orientation_row("//b/", "Vertical"),
    ])
    .unwrap();
    assert_eq!(map.len(), 2);
    assert_eq!(map.get(&PathBuf::from("/b")), Some(Orientation::Vertical));
    let error = get_all_orientations(&vec![
        orientation_row("/a", "Horizontal"),
        orientation_row("/b", "first"),
        orientation_row("/c", "second"),
    ])
    .unwrap_err();
    assert_eq!(error.text, "first");
}

#[test]
fn orientation_map_inserts() {
    let mut map = OrientationMap::new();
    map.insert(PathBuf::from("/x/y"), Orientation::Vertical);
    map.insert(PathBuf::from("/x"), Orientation::Horizontal);
    map.insert(PathBuf::from("/x/y"), Orientation::Horizontal);
    assert_eq!(map.len(), 2);
    assert_eq!(map.get(&PathBuf::from("/x/y")), Some(Orientation::Horizontal));
}

#[test]
fn all_paths_as_a_set() {
    let set = get_all_paths(&texts(&["/b", "/a", "/b/"]));
    assert_eq!(set.len(), 2);
    assert!(set.contains(&PathBuf::from("/a/")));
    assert!(set.contains(&PathBuf::from("/b")));
    let spellings = get_all_paths(&texts(&["/x//y", "/x/y"]));
    assert_eq!(spellings.get(0).to_str(), Some("/x//y"));
}

#[test]
fn current_path_that_is_not_utf8_stops_the_deletion() {
    let mut current = set(&["/v/a.mp4"]);
    current.insert(PathBuf::from_bytes(b"/v/\xff.mp4".to_vec()));
    assert_eq!(delete_missing(&texts(&["/v/gone.mp4"]), &current).unwrap_err(), PathNotUtf8);
    assert_eq!(delete_missing(&Vec::new(), &current).unwrap_err(), PathNotUtf8);
}
