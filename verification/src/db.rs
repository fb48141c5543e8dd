//! Video records, their form in the database, and the removal of outdated ones.

use crate::path;
use crate::path::PathBuf;
use crate::path_set;
use crate::path_set::{search, PathSet};
use crate::text;
use crate::text::same_text;
use vstd::prelude::*;
use vstd::utf8::*;

verus! {

broadcast use vstd::seq_lib::group_seq_properties;

/// Orientation of a video.
#[derive(Debug, Clone, Copy, PartialEq, Eq, Structural)]
pub enum Orientation {
    /// At least as wide as high.
    Horizontal,
    /// Higher than wide.
    Vertical,
}

/// A text that is no orientation.
#[derive(Debug)]
pub struct InvalidOrientation {
    pub text: String,
}

/// The text that stands for an orientation in the database.
pub open spec fn orientation_text(orientation: Orientation) -> Seq<char> {
    match orientation {
        Orientation::Horizontal => "Horizontal"@,
        Orientation::Vertical => "Vertical"@,
    }
}

/// The orientation that a text stands for.
pub open spec fn parsed_orientation(t: Seq<char>) -> Option<Orientation> {
    if t == orientation_text(Orientation::Horizontal) {
        Some(Orientation::Horizontal)
    } else if t == orientation_text(Orientation::Vertical) {
        Some(Orientation::Vertical)
    } else {
        None
    }
}

/// The text of an orientation is read back as that orientation, and a text that is read as an
/// orientation is the text of it.
pub proof fn orientation_round_trip(orientation: Orientation, t: Seq<char>)
    ensures
        parsed_orientation(orientation_text(orientation)) == Some(orientation),
        parsed_orientation(t) == Some(orientation) ==> t == orientation_text(orientation),
{
    reveal_strlit("Horizontal");
    reveal_strlit("Vertical");
    assert("Horizontal"@.len() != "Vertical"@.len());
}

impl Orientation {
    /// The text that stands for the orientation in the database.
    pub fn as_str(self) -> (r: &'static str)
        ensures
            r@ == orientation_text(self),
    {
        match self {
            Orientation::Horizontal => "Horizontal",
            Orientation::Vertical => "Vertical",
        }
    }

    /// The orientation that a text of the database stands for.
    pub fn from_str(s: &str) -> (r: Result<Orientation, InvalidOrientation>)
        ensures
            r is Ok <==> parsed_orientation(s@) is Some,
            r matches Ok(orientation) ==> parsed_orientation(s@) == Some(orientation),
            r matches Err(e) ==> e.text@ == s@,
    {
        if same_text(s, "Horizontal") {
            Ok(Orientation::Horizontal)
        } else if same_text(s, "Vertical") {
            Ok(Orientation::Vertical)
        } else {
            Err(InvalidOrientation { text: s.to_owned() })
        }
    }
}

/// What is known about a video.
#[derive(Debug, Clone, PartialEq)]
pub struct VideoRecord {
    /// Absolute path of the video file.
    pub path: PathBuf,
    /// Width in pixels.
    pub width: i64,
    /// Height in pixels.
    pub height: i64,
    /// Orientation of the video.
    pub orientation: Orientation,
}

/// A row of the database table of videos.
#[derive(Debug)]
pub struct VideoRow {
    pub path: String,
    pub width: i64,
    pub height: i64,
    pub orientation: String,
}

/// A path that the database cannot hold, because it is not UTF-8.
#[derive(Debug, Clone, Copy, PartialEq, Eq, Structural)]
pub struct PathNotUtf8;

/// `row` is what is stored for `record`.
pub open spec fn is_row_of(row: VideoRow, record: VideoRecord) -> bool {
    &&& text::utf8_chars(record.path@) == Some(row.path@)
    &&& row.width == record.width
    &&& row.height == record.height
    &&& row.orientation@ == orientation_text(record.orientation)
}

/// `record` is what `row` says.
pub open spec fn is_record_of(record: VideoRecord, row: VideoRow) -> bool {
    &&& record.path@ == encode_utf8(row.path@)
    &&& record.width == row.width
    &&& record.height == row.height
    &&& parsed_orientation(row.orientation@) == Some(record.orientation)
}

/// A record read from the row that was stored for a record is that record.
pub proof fn stored_record_round_trip(record: VideoRecord, row: VideoRow, back: VideoRecord)
    requires
        is_row_of(row, record),
        is_record_of(back, row),
    ensures
        back.path@ == record.path@,
        back.width == record.width,
        back.height == record.height,
        back.orientation == record.orientation,
{
    decode_utf8_encode_utf8(record.path@);
    orientation_round_trip(record.orientation, row.orientation@);
}

/// A row that was stored for a record can be read.
pub proof fn stored_row_is_readable(record: VideoRecord, row: VideoRow)
    requires
        is_row_of(row, record),
    ensures
        is_record_of(record, row),
{
    decode_utf8_encode_utf8(record.path@);
    orientation_round_trip(record.orientation, row.orientation@);
}

/// The row to insert or update for a record.
pub fn upsert_row(record: &VideoRecord) -> (r: Result<VideoRow, PathNotUtf8>)
    ensures
        r is Ok <==> text::utf8_chars(record.path@) is Some,
        r matches Ok(row) ==> is_row_of(row, *record),
{
    match record.path.to_str() {
        Some(t) => Ok(
            VideoRow {
                path: t.to_owned(),
                width: record.width,
                height: record.height,
                orientation: record.orientation.as_str().to_owned(),
            },
        ),
        None => Err(PathNotUtf8),
    }
}

/// The record that a row holds.
pub fn row_record(row: VideoRow) -> (r: Result<VideoRecord, InvalidOrientation>)
    ensures
        r is Ok <==> parsed_orientation(row.orientation@) is Some,
        r matches Ok(record) ==> is_record_of(record, row),
        r matches Err(e) ==> e.text@ == row.orientation@,
{
    match Orientation::from_str(row.orientation.as_str()) {
        Ok(orientation) => Ok(
            VideoRecord {
                path: PathBuf::from(row.path.as_str()),
                width: row.width,
                height: row.height,
                orientation,
            },
        ),
        Err(e) => Err(e),
    }
}

/// The paths stored in the database, as a set.
pub fn get_all_paths(rows: &Vec<String>) -> (r: PathSet)
    ensures
        r.wf(),
        path_set::is_set_of(r@, path::spelled_paths(text::text_views(rows@))),
{
    let ghost all = path::spelled_paths(text::text_views(rows@));
    let mut set = PathSet::new();
    let mut i: usize = 0;
    assert(path_set::path_keys(set@) =~= path_set::path_keys(all.take(0)));
    while i < rows.len()
        invariant
            i <= rows.len(),
            all == path::spelled_paths(text::text_views(rows@)),
            set.wf(),
            path_set::is_set_of(set@, all.take(i as int)),
        decreases rows.len() - i,
    {
        let ghost before = set@;
        let p = PathBuf::from(rows[i].as_str());
        let ghost value = p@;
        set.insert(p);
        proof {
            path_set::set_of_insert(before, set@, all.take(i as int), value);
            assert(all.take(i + 1) =~= all.take(i as int).push(value));
        }
        i = i + 1;
    }
    assert(all.take(i as int) =~= all);
    set
}

/// The orientations of videos by path.
#[derive(Debug)]
pub struct OrientationMap {
    paths: Vec<PathBuf>,
    orientations: Vec<Orientation>,
}

/// Position of `key` among the component lists of `paths`.
pub open spec fn key_index(paths: Seq<Seq<u8>>, key: Seq<Seq<u8>>) -> int {
    choose|i: int| 0 <= i < paths.len() && path::components(#[trigger] paths[i]) == key
}

impl View for OrientationMap {
    type V = Map<Seq<Seq<u8>>, Orientation>;

    /// The orientations by the components of the path.
    closed spec fn view(&self) -> Map<Seq<Seq<u8>>, Orientation> {
        let paths = path::path_views(self.paths@);
        Map::new(
            |key: Seq<Seq<u8>>| path_set::path_keys(paths).contains(key),
            |key: Seq<Seq<u8>>| self.orientations@[key_index(paths, key)],
        )
    }
}

/// What a map of orientations says of a path.
pub open spec fn known_orientation(
    map: Map<Seq<Seq<u8>>, Orientation>,
    p: Seq<u8>,
) -> Option<Orientation> {
    if map.dom().contains(path::components(p)) {
        Some(map[path::components(p)])
    } else {
        None
    }
}

impl OrientationMap {
    /// The paths are sorted and distinct, and each has one orientation.
    pub closed spec fn wf(&self) -> bool {
        &&& path_set::sorted_paths(path::path_views(self.paths@))
        &&& self.paths.len() == self.orientations.len()
    }

    /// The map without any path.
    pub fn new() -> (r: OrientationMap)
        ensures
            r.wf(),
            r@ == Map::<Seq<Seq<u8>>, Orientation>::empty(),
    {
        let r = OrientationMap { paths: Vec::new(), orientations: Vec::new() };
        assert(r@ =~= Map::empty());
        r
    }

    /// Number of paths in the map.
    pub fn len(&self) -> (r: usize)
        requires
            self.wf(),
        ensures
            r == self@.dom().len(),
            self@.dom().finite(),
    {
        proof {
            lemma_path_keys_len(path::path_views(self.paths@));
            assert(self@.dom() =~= path_set::path_keys(path::path_views(self.paths@)));
        }
        self.paths.len()
    }

    /// The orientation of the video at a path, if the map has it.
    pub fn get(&self, p: &PathBuf) -> (r: Option<Orientation>)
        requires
            self.wf(),
        ensures
            r == known_orientation(self@, p@),
    {
        let (found, i) = search(&self.paths, p);
        if found {
            proof {
                let paths = path::path_views(self.paths@);
                let k = key_index(paths, path::components(p@));
                assert(paths[i as int] == self.paths@[i as int]@);
                path_set::sorted_paths_distinct(paths, i as int, k);
            }
            Some(self.orientations[i])
        } else {
            None
        }
    }

    /// Sets the orientation of the video at a path.
    pub fn insert(&mut self, p: PathBuf, orientation: Orientation)
        requires
            old(self).wf(),
        ensures
            final(self).wf(),
            final(self)@ == old(self)@.insert(path::components(p@), orientation),
    {
        let ghost paths = path::path_views(self.paths@);
        let ghost old_orientations = self.orientations@;
        let ghost value = p@;
        let ghost key = path::components(value);
        let (found, i) = search(&self.paths, &p);
        if found {
            self.orientations.set(i, orientation);
            proof {
                assert(paths[i as int] == self.paths@[i as int]@);
                assert forall|k: Seq<Seq<u8>>| #[trigger]
                    path_set::path_keys(paths).contains(k) implies self.orientations@[key_index(
                    paths,
                    k,
                )] == (if k == key {
                    orientation
                } else {
                    old_orientations[key_index(paths, k)]
                }) by {
                    if k == key {
                        path_set::sorted_paths_distinct(paths, i as int, key_index(paths, k));
                    }
                }
                assert(self@ =~= old(self)@.insert(key, orientation));
            }
        } else {
            proof {
                path_set::sorted_paths_insert(paths, i as int, value);
            }
            self.paths.insert(i, p);
            self.orientations.insert(i, orientation);
            proof {
                let now = path::path_views(self.paths@);
                assert(now =~= paths.insert(i as int, value));
                assert forall|k: Seq<Seq<u8>>| #[trigger]
                    path_set::path_keys(now).contains(k) implies self.orientations@[key_index(
                    now,
                    k,
                )] == (if k == key {
                    orientation
                } else {
                    old_orientations[key_index(paths, k)]
                }) by {
                    let at = key_index(now, k);
                    if k == key {
                        assert(now[i as int] == value);
                        path_set::sorted_paths_distinct(now, i as int, at);
                    } else {
                        let was = key_index(paths, k);
                        assert(path_set::path_keys(paths).contains(k));
                        let moved = if was < i { was } else { was + 1 };
                        assert(now[moved] == paths[was]);
                        path_set::sorted_paths_distinct(now, moved, at);
                    }
                }
                assert(self@ =~= old(self)@.insert(key, orientation));
            }
        }
    }
}

proof fn lemma_path_keys_len(s: Seq<Seq<u8>>)
    requires
        path_set::sorted_paths(s),
    ensures
        path_set::path_keys(s).finite(),
        path_set::path_keys(s).len() == s.len(),
    decreases s.len(),
{
    if s.len() == 0 {
        assert(path_set::path_keys(s) =~= Set::empty());
    } else {
        let init = s.drop_last();
        let key = path::components(s.last());
        assert forall|i: int, j: int| 0 <= i < j < init.len() implies path_set::path_before(
            path::components(#[trigger] init[i]),
            path::components(#[trigger] init[j]),
        ) by {
            assert(init[i] == s[i] && init[j] == s[j]);
        }
        lemma_path_keys_len(init);
        assert(!path_set::path_keys(init).contains(key)) by {
            if path_set::path_keys(init).contains(key) {
                let i = key_index(init, key);
                assert(init[i] == s[i]);
                path_set::sorted_paths_distinct(s, i, s.len() - 1);
            }
        }
        assert forall|k: Seq<Seq<u8>>| path_set::path_keys(s).contains(k) == path_set::path_keys(
            init,
        ).insert(key).contains(k) by {
            if path_set::path_keys(s).contains(k) {
                let i = key_index(s, k);
                if i < init.len() {
                    assert(init[i] == s[i]);
                }
            }
            if path_set::path_keys(init).contains(k) {
                let i = key_index(init, k);
                assert(init[i] == s[i]);
            }
        }
        assert(path_set::path_keys(s) =~= path_set::path_keys(init).insert(key));
    }
}

/// A row with a path and an orientation.
#[derive(Debug)]
pub struct OrientationRow {
    pub path: String,
    pub orientation: String,
}

/// Every row has a valid orientation.
pub open spec fn rows_valid(rows: Seq<OrientationRow>) -> bool {
    forall|i: int|
        0 <= i < rows.len() ==> parsed_orientation((#[trigger] rows[i]).orientation@) is Some
}

/// The orientations that the rows give by path; of two rows with the same path the later counts.
pub open spec fn rows_map(rows: Seq<OrientationRow>) -> Map<Seq<Seq<u8>>, Orientation>
    decreases rows.len(),
{
    if rows.len() == 0 {
        Map::empty()
    } else {
        rows_map(rows.drop_last()).insert(
            path::components(encode_utf8(rows.last().path@)),
            parsed_orientation(rows.last().orientation@)->Some_0,
        )
    }
}

/// The orientations of all stored videos by path.
pub fn get_all_orientations(rows: &Vec<OrientationRow>) -> (r: Result<
    OrientationMap,
    InvalidOrientation,
>)
    ensures
        r is Ok <==> rows_valid(rows@),
        r matches Ok(map) ==> map.wf() && map@ == rows_map(rows@),
        r matches Err(e) ==> exists|i: int|
            0 <= i < rows.len() && e.text@ == (#[trigger] rows@[i]).orientation@
                && parsed_orientation(rows@[i].orientation@) is None && rows_valid(rows@.take(i)),
{
    let mut map = OrientationMap::new();
    let mut i: usize = 0;
    while i < rows.len()
        invariant
            i <= rows.len(),
            map.wf(),
            map@ == rows_map(rows@.take(i as int)),
            rows_valid(rows@.take(i as int)),
        decreases rows.len() - i,
    {
        proof {
            assert(rows@.take(i + 1).drop_last() =~= rows@.take(i as int));
            assert(rows@.take(i + 1).last() == rows@[i as int]);
        }
        match Orientation::from_str(rows[i].orientation.as_str()) {
            Ok(orientation) => {
                map.insert(PathBuf::from(rows[i].path.as_str()), orientation);
                proof {
                    assert forall|k: int| 0 <= k < i + 1 implies parsed_orientation(
                        (#[trigger] rows@.take(i + 1)[k]).orientation@,
                    ) is Some by {
                        if k < i {
                            assert(rows@.take(i + 1)[k] == rows@.take(i as int)[k]);
                        }
                    }
                }
            },
            Err(e) => {
                assert(parsed_orientation(rows@[i as int].orientation@) is None);
                return Err(e);
            },
        }
        i = i + 1;
    }
    assert(rows@.take(i as int) =~= rows@);
    Ok(map)
}

/// Largest number of rows that one statement deletes.
pub const DELETE_CHUNK_SIZE: usize = 500;

/// The stored paths that are not in `current`, in the order in which they are stored.
pub open spec fn stale_texts(stored: Seq<Seq<char>>, current: Seq<Seq<u8>>) -> Seq<Seq<char>> {
    stored.filter(|t: Seq<char>| !path_set::has_path(current, encode_utf8(t)))
}

/// Deleting the stale paths leaves the stored paths that are in `current`, and only these.
pub proof fn deletion_leaves_current(stored: Seq<Seq<char>>, current: Seq<Seq<u8>>)
    ensures
        stored.filter(|t: Seq<char>| !stale_texts(stored, current).contains(t)) == stored.filter(
            |t: Seq<char>| path_set::has_path(current, encode_utf8(t)),
        ),
{
    let stale = |t: Seq<char>| !path_set::has_path(current, encode_utf8(t));
    let stays = |t: Seq<char>| !stale_texts(stored, current).contains(t);
    let wanted = |t: Seq<char>| path_set::has_path(current, encode_utf8(t));
    assert forall|t: Seq<char>| stored.contains(t) implies stays(t) == wanted(t) by {
        let i = choose|i: int| 0 <= i < stored.len() && stored[i] == t;
        if stale(t) {
            stored.lemma_filter_contains(stale, i);
        } else if stored.filter(stale).contains(t) {
            let k = choose|k: int|
                0 <= k < stored.filter(stale).len() && stored.filter(stale)[k] == t;
            stored.lemma_filter_pred(stale, k);
        }
    }
    lemma_filter_agrees(stored, stays, wanted);
}

proof fn lemma_filter_agrees(
    s: Seq<Seq<char>>,
    p: spec_fn(Seq<char>) -> bool,
    q: spec_fn(Seq<char>) -> bool,
)
    requires
        forall|t: Seq<char>| s.contains(t) ==> p(t) == q(t),
    ensures
        s.filter(p) == s.filter(q),
    decreases s.len(),
{
    reveal_with_fuel(Seq::filter, 1);
    if s.len() > 0 {
        let init = s.drop_last();
        assert forall|t: Seq<char>| init.contains(t) implies p(t) == q(t) by {
            let i = choose|i: int| 0 <= i < init.len() && init[i] == t;
            assert(s[i] == t);
            assert(s.contains(t));
        }
        lemma_filter_agrees(init, p, q);
        assert(s.contains(s.last()));
    }
}

/// Where the statement that starts at path `sent` stops.
pub open spec fn batch_end(sent: nat, count: nat) -> nat {
    if sent + DELETE_CHUNK_SIZE < count {
        sent + DELETE_CHUNK_SIZE as nat
    } else {
        count
    }
}

/// The paths that each statement deletes, from path `sent` on.
pub open spec fn batches(stale: Seq<Seq<char>>, sent: nat) -> Seq<Seq<Seq<char>>>
    decreases stale.len() - sent,
{
    if sent >= stale.len() {
        Seq::empty()
    } else {
        let end = batch_end(sent, stale.len());
        seq![stale.subrange(sent as int, end as int)] + batches(stale, end)
    }
}

/// The statements together delete every stale path once, in order, and each deletes at least one
/// and at most `DELETE_CHUNK_SIZE`.
pub proof fn batches_cover_stale(stale: Seq<Seq<char>>, sent: nat)
    requires
        sent <= stale.len(),
    ensures
        batches(stale, sent).flatten() == stale.skip(sent as int),
        forall|i: int|
            0 <= i < batches(stale, sent).len() ==> 1 <= (#[trigger] batches(stale, sent)[i]).len()
                <= DELETE_CHUNK_SIZE,
    decreases stale.len() - sent,
{
    let all = batches(stale, sent);
    if sent < stale.len() {
        let end = batch_end(sent, stale.len());
        let first = stale.subrange(sent as int, end as int);
        let rest = batches(stale, end);
        batches_cover_stale(stale, end);
        assert(all.first() == first);
        assert(all.drop_first() =~= rest);
        assert(all.flatten() =~= first + rest.flatten());
        assert(stale.skip(sent as int) =~= first + stale.skip(end as int));
        assert forall|i: int| 0 <= i < all.len() implies 1 <= (#[trigger] all[i]).len()
            <= DELETE_CHUNK_SIZE by {
            if i > 0 {
                assert(all[i] == rest[i - 1]);
            }
        }
    } else {
        assert(all.flatten() =~= stale.skip(sent as int));
    }
}

/// The removal of outdated rows within one transaction.
#[derive(Debug)]
pub struct Deletion {
    stale: Vec<String>,
    sent: usize,
    deleted: u64,
}

/// State of a removal: the outdated paths, how many of them statements were sent for, and how
/// many rows these deleted.
pub struct DeletionView {
    pub stale: Seq<Seq<char>>,
    pub sent: nat,
    pub deleted: nat,
}

impl View for Deletion {
    type V = DeletionView;

    closed spec fn view(&self) -> DeletionView {
        DeletionView {
            stale: text::text_views(self.stale@),
            sent: self.sent as nat,
            deleted: self.deleted as nat,
        }
    }
}

/// What to do next in a removal.
#[derive(Debug)]
pub enum DeletionStep {
    /// Delete the rows with these paths.
    Delete(Vec<String>),
    /// Commit the transaction; this many rows were deleted.
    Commit(usize),
}

/// Plans the removal of the stored paths that are not in `current`. There is nothing to do where
/// all of them are. A current path that is not UTF-8 is an error: the database cannot hold it.
pub fn delete_missing(stored: &Vec<String>, current: &PathSet) -> (r: Result<
    Option<Deletion>,
    PathNotUtf8,
>)
    requires
        current.wf(),
    ensures
        r is Err <==> exists|i: int|
            0 <= i < current@.len() && !valid_utf8(#[trigger] current@[i]),
        r matches Ok(plan) ==> (plan is None <==> stale_texts(
            text::text_views(stored@),
            current@,
        ).len() == 0),
        r matches Ok(Some(deletion)) ==> deletion.wf() && deletion@ == (DeletionView {
            stale: stale_texts(text::text_views(stored@), current@),
            sent: 0,
            deleted: 0,
        }),
{
    let mut n: usize = 0;
    while n < current.len()
        invariant
            n <= current@.len(),
            forall|i: int| 0 <= i < n ==> valid_utf8(#[trigger] current@[i]),
        decreases current@.len() - n,
    {
        if current.get(n).to_str().is_none() {
            assert(!valid_utf8(current@[n as int]));
            return Err(PathNotUtf8);
        }
        n = n + 1;
    }
    let ghost all = text::text_views(stored@);
    let ghost is_stale = |t: Seq<char>| !path_set::has_path(current@, encode_utf8(t));
    let mut stale: Vec<String> = Vec::new();
    let mut i: usize = 0;
    proof {
        reveal(Seq::filter);
        assert(text::text_views(stale@) =~= all.take(0).filter(is_stale));
    }
    while i < stored.len()
        invariant
            i <= stored.len(),
            current.wf(),
            all == text::text_views(stored@),
            is_stale == (|t: Seq<char>| !path_set::has_path(current@, encode_utf8(t))),
            text::text_views(stale@) == all.take(i as int).filter(is_stale),
        decreases stored.len() - i,
    {
        let ghost before = stale@;
        proof {
            reveal(Seq::filter);
            assert(all.take(i + 1).drop_last() =~= all.take(i as int));
            assert(all.take(i + 1).last() == stored@[i as int]@);
        }
        if !current.contains(&PathBuf::from(stored[i].as_str())) {
            stale.push(stored[i].clone());
            assert(text::text_views(stale@) =~= text::text_views(before).push(
                stored@[i as int]@,
            ));
        }
        i = i + 1;
    }
    assert(all.take(i as int) =~= all);
    assert(text::text_views(stale@) == stale_texts(all, current@));
    if stale.len() == 0 {
        Ok(None)
    } else {
        Ok(Some(Deletion { stale, sent: 0, deleted: 0 }))
    }
}

impl Deletion {
    /// No more statements were sent than there are outdated paths.
    pub open spec fn wf(&self) -> bool {
        self@.sent <= self@.stale.len()
    }

    /// The next statement, or the commit once statements were sent for all outdated paths.
    pub fn next_step(&self) -> (r: DeletionStep)
        requires
            self.wf(),
        ensures
            r is Delete <==> self@.sent < self@.stale.len(),
            r matches DeletionStep::Delete(paths) ==> text::text_views(paths@) == batches(
                self@.stale,
                self@.sent,
            )[0],
            r matches DeletionStep::Commit(count) ==> count == (if self@.deleted <= usize::MAX {
                self@.deleted
            } else {
                usize::MAX as nat
            }),
    {
        if self.sent < self.stale.len() {
            let left = self.stale.len() - self.sent;
            let size = if left < DELETE_CHUNK_SIZE {
                left
            } else {
                DELETE_CHUNK_SIZE
            };
            let mut paths: Vec<String> = Vec::new();
            let mut i: usize = 0;
            while i < size
                invariant
                    i <= size,
                    size <= self.stale.len() - self.sent,
                    self.sent <= self.stale.len(),
                    paths.len() == i,
                    forall|k: int| 0 <= k < i ==> paths@[k]@ == #[trigger] self.stale@[self.sent
                        + k]@,
                decreases size - i,
            {
                paths.push(self.stale[self.sent + i].clone());
                i = i + 1;
            }
            proof {
                let end = batch_end(self@.sent, self@.stale.len());
                assert forall|k: int| 0 <= k < size implies text::text_views(paths@)[k]
                    == self@.stale.subrange(self@.sent as int, end as int)[k] by {
                    assert(self.stale@[self.sent + k]@ == paths@[k]@);
                }
                assert(text::text_views(paths@) =~= self@.stale.subrange(
                    self@.sent as int,
                    end as int,
                ));
            }
            DeletionStep::Delete(paths)
        } else if self.deleted <= usize::MAX as u64 {
            DeletionStep::Commit(self.deleted as usize)
        } else {
            DeletionStep::Commit(usize::MAX)
        }
    }

    /// Takes note that the next statement was sent and deleted `rows` rows.
    pub fn batch_deleted(&mut self, rows: u64)
        requires
            old(self).wf(),
        ensures
            final(self).wf(),
            final(self)@ == (DeletionView {
                stale: old(self)@.stale,
                sent: batch_end(old(self)@.sent, old(self)@.stale.len()),
                deleted: if old(self)@.deleted + rows <= u64::MAX {
                    (old(self)@.deleted + rows) as nat
                } else {
                    u64::MAX as nat
                },
            }),
    {
        if self.stale.len() - self.sent > DELETE_CHUNK_SIZE {
            self.sent = self.sent + DELETE_CHUNK_SIZE;
        } else {
            self.sent = self.stale.len();
        }
        self.deleted = self.deleted.saturating_add(rows);
    }
}

/// The texts of the two orientations, and that there is no other.
pub proof fn texts_of_orientations(t: Seq<char>)
    ensures
        parsed_orientation("Horizontal"@) == Some(Orientation::Horizontal),
        parsed_orientation("Vertical"@) == Some(Orientation::Vertical),
        t != "Horizontal"@ && t != "Vertical"@ ==> parsed_orientation(t) is None,
        orientation_text(Orientation::Horizontal) == "Horizontal"@,
        orientation_text(Orientation::Vertical) == "Vertical"@,
{
    orientation_round_trip(Orientation::Horizontal, t);
    orientation_round_trip(Orientation::Vertical, t);
}

/// A row holds the path, the size and the orientation of its record, each in its own column.
pub proof fn columns_of_row(row: VideoRow, record: VideoRecord)
    ensures
        is_row_of(row, record) <==> {
            &&& encode_utf8(row.path@) == record.path@
            &&& row.width == record.width
            &&& row.height == record.height
            &&& (record.orientation == Orientation::Horizontal ==> row.orientation@
                == "Horizontal"@)
            &&& (record.orientation == Orientation::Vertical ==> row.orientation@ == "Vertical"@)
        },
        is_record_of(record, row) <==> is_row_of(row, record),
{
    text::text_of_encoding(record.path@, row.path@);
    texts_of_orientations(row.orientation@);
    orientation_round_trip(record.orientation, row.orientation@);
}

/// What is said of a path is what was said last of a path with the same components.
pub proof fn said_of_equal_paths(
    map: Map<Seq<Seq<u8>>, Orientation>,
    p: Seq<u8>,
    orientation: Orientation,
    q: Seq<u8>,
)
    ensures
        path::components(p) == path::components(q) ==> known_orientation(
            map.insert(path::components(p), orientation),
            q,
        ) == Some(orientation),
        path::components(p) != path::components(q) ==> known_orientation(
            map.insert(path::components(p), orientation),
            q,
        ) == known_orientation(map, q),
        known_orientation(Map::<Seq<Seq<u8>>, Orientation>::empty(), q) is None,
{
}

/// The last row with a path gives the orientation of that path.
pub proof fn last_row_counts(rows: Seq<OrientationRow>, i: int, orientation: Orientation)
    requires
        0 <= i < rows.len(),
        parsed_orientation(rows[i].orientation@) == Some(orientation),
        forall|j: int|
            i < j < rows.len() ==> path::components(encode_utf8((#[trigger] rows[j]).path@))
                != path::components(encode_utf8(rows[i].path@)),
    ensures
        known_orientation(rows_map(rows), encode_utf8(rows[i].path@)) == Some(orientation),
    decreases rows.len(),
{
    let init = rows.drop_last();
    if i < init.len() {
        assert(init[i] == rows[i]);
        assert forall|j: int| i < j < init.len() implies path::components(
            encode_utf8((#[trigger] init[j]).path@),
        ) != path::components(encode_utf8(init[i].path@)) by {
            assert(init[j] == rows[j]);
        }
        last_row_counts(init, i, orientation);
        assert(rows[rows.len() - 1] == rows.last());
    }
}

/// A path without a row has no orientation.
pub proof fn path_without_row(rows: Seq<OrientationRow>, p: Seq<u8>)
    requires
        forall|j: int|
            0 <= j < rows.len() ==> path::components(encode_utf8((#[trigger] rows[j]).path@))
                != path::components(p),
    ensures
        known_orientation(rows_map(rows), p) is None,
    decreases rows.len(),
{
    if rows.len() > 0 {
        let init = rows.drop_last();
        assert forall|j: int| 0 <= j < init.len() implies path::components(
            encode_utf8((#[trigger] init[j]).path@),
        ) != path::components(p) by {
            assert(init[j] == rows[j]);
        }
        path_without_row(init, p);
        assert(rows[rows.len() - 1] == rows.last());
    }
}

/// Rows are valid exactly if each has the text of an orientation.
pub proof fn valid_rows(rows: Seq<OrientationRow>)
    ensures
        rows_valid(rows) <==> forall|i: int|
            0 <= i < rows.len() ==> (#[trigger] rows[i]).orientation@ == "Horizontal"@
                || rows[i].orientation@ == "Vertical"@,
{
    assert forall|i: int| 0 <= i < rows.len() implies (parsed_orientation(
        (#[trigger] rows[i]).orientation@,
    ) is Some <==> rows[i].orientation@ == "Horizontal"@ || rows[i].orientation@
        == "Vertical"@) by {
        texts_of_orientations(rows[i].orientation@);
    }
}

/// A stored path is outdated exactly if no current path has the same components.
pub proof fn outdated_paths(stored: Seq<Seq<char>>, current: Seq<Seq<u8>>, t: Seq<char>)
    ensures
        stale_texts(stored, current).contains(t) <==> stored.contains(t) && forall|i: int|
            0 <= i < current.len() ==> path::components(#[trigger] current[i]) != path::components(
                encode_utf8(t),
            ),
{
    let stale = |t: Seq<char>| !path_set::has_path(current, encode_utf8(t));
    path_set::held_paths(current, encode_utf8(t));
    if stored.contains(t) && stale(t) {
        let i = choose|i: int| 0 <= i < stored.len() && stored[i] == t;
        stored.lemma_filter_contains(stale, i);
    }
    if stored.filter(stale).contains(t) {
        let k = choose|k: int| 0 <= k < stored.filter(stale).len() && stored.filter(stale)[k] == t;
        stored.lemma_filter_pred(stale, k);
        stored.lemma_filter_contains_rev(stale, t);
    }
}

/// Each statement deletes 500 paths, but for the last one, which deletes what is left.
pub proof fn batches_are_full(stale: Seq<Seq<char>>, sent: nat)
    requires
        sent < stale.len(),
    ensures
        batches(stale, sent).len() > 0,
        stale.len() - sent > 500 ==> batch_end(sent, stale.len()) == sent + 500,
        stale.len() - sent <= 500 ==> batch_end(sent, stale.len()) == stale.len(),
        batches(stale, sent)[0] == stale.subrange(
            sent as int,
            batch_end(sent, stale.len()) as int,
        ),
        batches(stale, sent).skip(1) == batches(stale, batch_end(sent, stale.len())),
{
    let end = batch_end(sent, stale.len());
    assert(batches(stale, sent).skip(1) =~= batches(stale, end));
}

/// A record that is stored and read again is the record.
pub proof fn stored_and_read(
    record: &VideoRecord,
    stored: Result<VideoRow, PathNotUtf8>,
    row: VideoRow,
    r: Result<VideoRecord, InvalidOrientation>,
)
    requires
        call_ensures(upsert_row, (record,), stored),
        stored == Ok::<VideoRow, PathNotUtf8>(row),
        call_ensures(row_record, (row,), r),
    ensures
        r matches Ok(back) && back.path@ == record.path@ && back.width == record.width
            && back.height == record.height && back.orientation == record.orientation,
        row.width == record.width,
        row.height == record.height,
        encode_utf8(row.path@) == record.path@,
{
    stored_row_is_readable(*record, row);
    columns_of_row(row, *record);
    orientation_round_trip(record.orientation, row.orientation@);
}

/// The first statement of a removal deletes the first outdated paths, at least one and at most 500,
/// none of which is current.
pub proof fn first_deletion_step(
    stored: &Vec<String>,
    current: &PathSet,
    plan: Result<Option<Deletion>, PathNotUtf8>,
    deletion: &Deletion,
    step: DeletionStep,
    k: int,
    i: int,
)
    requires
        call_ensures(delete_missing, (stored, current), plan),
        plan == Ok::<Option<Deletion>, PathNotUtf8>(Some(*deletion)),
        call_ensures(Deletion::next_step, (deletion,), step),
    ensures
        step matches DeletionStep::Delete(paths) && {
            &&& 1 <= paths@.len() <= 500
            &&& 0 <= k < paths@.len() && 0 <= i < current@.len() ==> path::components(current@[i])
                != path::components(encode_utf8(paths@[k]@))
            &&& 0 <= k < paths@.len() ==> text::text_views(stored@).contains(paths@[k]@)
        },
{
    let stale = stale_texts(text::text_views(stored@), current@);
    batches_are_full(stale, 0);
    batches_cover_stale(stale, 0);
    let paths = step->Delete_0;
    assert(text::text_views(paths@).len() == paths@.len());
    if 0 <= k < paths@.len() {
        let t = paths@[k]@;
        assert(text::text_views(paths@)[k] == t);
        assert(batches(stale, 0)[0][k] == stale[k]);
        assert(stale.contains(t));
        outdated_paths(text::text_views(stored@), current@, t);
    }
}

/// After each statement the next one starts where it stopped, and what it deleted is added up.
pub proof fn next_deletion_step(before: Deletion, after: Deletion, step: DeletionStep)
    requires
        before@.sent < before@.stale.len(),
        after@.stale == before@.stale,
        after@.sent == batch_end(before@.sent, before@.stale.len()),
        call_ensures(Deletion::next_step, (&after,), step),
        after.wf(),
    ensures
        step is Commit <==> before@.stale.len() - before@.sent <= 500,
        step matches DeletionStep::Commit(n) ==> (after@.deleted <= usize::MAX ==> n
            == after@.deleted),
        step matches DeletionStep::Delete(paths) ==> text::text_views(paths@)
            == before@.stale.subrange(
            (before@.sent + 500) as int,
            batch_end(before@.sent + 500, before@.stale.len()) as int,
        ),
{
    batches_are_full(before@.stale, before@.sent);
    if after@.sent < after@.stale.len() {
        batches_are_full(after@.stale, after@.sent);
    }
}

/// A stored path is among all paths.
pub proof fn stored_path_is_found(rows: &Vec<String>, r: PathSet, i: int)
    requires
        call_ensures(get_all_paths, (rows,), r),
        0 <= i < rows@.len(),
    ensures
        exists|k: int|
            0 <= k < r@.len() && path::components(#[trigger] r@[k]) == path::components(
                encode_utf8(rows@[i]@),
            ),
        r@.len() <= rows@.len(),
{
    let all = path::spelled_paths(text::text_views(rows@));
    assert(all[i] == encode_utf8(rows@[i]@));
    assert(path_set::path_keys(all).contains(path::components(all[i])));
    assert(path_set::path_keys(r@).contains(path::components(all[i])));
    lemma_path_keys_len(r@);
    lemma_path_keys_bound(all);
}

proof fn lemma_path_keys_bound(s: Seq<Seq<u8>>)
    ensures
        path_set::path_keys(s).finite(),
        path_set::path_keys(s).len() <= s.len(),
    decreases s.len(),
{
    if s.len() == 0 {
        assert(path_set::path_keys(s) =~= Set::empty());
    } else {
        let init = s.drop_last();
        let key = path::components(s.last());
        lemma_path_keys_bound(init);
        assert forall|k: Seq<Seq<u8>>| path_set::path_keys(s).contains(k) == path_set::path_keys(
            init,
        ).insert(key).contains(k) by {
            if path_set::path_keys(s).contains(k) {
                let i = key_index(s, k);
                if i < init.len() {
                    assert(init[i] == s[i]);
                }
            }
            if path_set::path_keys(init).contains(k) {
                let i = key_index(init, k);
                assert(init[i] == s[i]);
            }
            assert(s[s.len() - 1] == s.last());
        }
        assert(path_set::path_keys(s) =~= path_set::path_keys(init).insert(key));
    }
}

/// The orientation of a stored video is that of the last row with its path.
pub proof fn stored_orientation_is_found(
    rows: &Vec<OrientationRow>,
    r: Result<OrientationMap, InvalidOrientation>,
    map: &OrientationMap,
    i: int,
    p: &PathBuf,
    found: Option<Orientation>,
)
    requires
        call_ensures(get_all_orientations, (rows,), r),
        r == Ok::<OrientationMap, InvalidOrientation>(*map),
        0 <= i < rows@.len(),
        forall|j: int|
            i < j < rows@.len() ==> path::components(encode_utf8((#[trigger] rows@[j]).path@))
                != path::components(encode_utf8(rows@[i].path@)),
        path::components(p@) == path::components(encode_utf8(rows@[i].path@)),
        call_ensures(OrientationMap::get, (map, p), found),
    ensures
        found == Some(Orientation::Horizontal) <==> rows@[i].orientation@ == "Horizontal"@,
        found == Some(Orientation::Vertical) <==> rows@[i].orientation@ == "Vertical"@,
{
    texts_of_orientations(rows@[i].orientation@);
    orientation_round_trip(Orientation::Horizontal, rows@[i].orientation@);
    orientation_round_trip(Orientation::Vertical, rows@[i].orientation@);
    let o = parsed_orientation(rows@[i].orientation@)->Some_0;
    last_row_counts(rows@, i, o);
}

} // verus!
