//! Decisions between the steps of a run.

use crate::db;
use crate::db::{VideoRecord, VideoRow};
use crate::ffprobe::{ProbeError, VideoInfo};
use crate::m3u;
use crate::path;
use crate::path::PathBuf;
use crate::path_laws;
use crate::path_set;
use crate::path_set::PathSet;
use crate::scanner;
use vstd::prelude::*;
use vstd::utf8::*;

verus! {

broadcast use vstd::seq_lib::group_seq_properties;

/// Why a path cannot be expanded.
#[derive(Debug, Clone, Copy, PartialEq, Eq, Structural)]
pub enum TildeError {
    /// The path is not UTF-8.
    NotUtf8,
    /// The path starts with `~` and the home directory is not known.
    NoHome,
}

/// The path `~`.
pub open spec fn tilde() -> Seq<u8> {
    seq![0x7eu8]
}

/// `p` with a first component `~` replaced by the home directory.
pub open spec fn expanded(p: Seq<u8>, home: Option<Seq<u8>>) -> Result<Seq<u8>, TildeError> {
    if !valid_utf8(p) {
        Err(TildeError::NotUtf8)
    } else {
        match path::path_strip_prefix(p, tilde()) {
            None => Ok(p),
            Some(rest) => match home {
                None => Err(TildeError::NoHome),
                Some(dir) => if rest.len() == 0 {
                    Ok(dir)
                } else {
                    Ok(path::path_join(dir, rest))
                },
            },
        }
    }
}

/// The components of an expanded path are those of the home directory, followed by those of the
/// path after `~`.
pub proof fn expanded_components(p: Seq<u8>, home: Seq<u8>)
    requires
        valid_utf8(p),
        path::path_starts_with(p, tilde()),
        home.len() > 0,
    ensures
        expanded(p, Some(home)) matches Ok(r) && path::components(r) == path::components(home)
            + path::components(p).skip(1),
{
    let rest = path::path_strip_prefix(p, tilde())->Some_0;
    path_laws::strip_prefix_components(p, tilde());
    assert(!tilde().contains(path::SEPARATOR));
    path_laws::body_components_of_segment(tilde());
    path::lemma_segment_len(tilde());
    assert(tilde()[0] != path::SEPARATOR);
    assert(path::segment_len(tilde()) == 1) by {
        path::lemma_segment_len_at(tilde(), 1);
    }
    assert(path::first_segment(tilde()) =~= tilde());
    assert(tilde()[0] != path::current_dir()[0]);
    assert(path::components(tilde()) =~= seq![tilde()]);
    assert(path::components(p).skip(1) =~= path::components(rest));
    if rest.len() == 0 {
        assert(path::body_components(rest) =~= Seq::empty());
        assert(path::components(home) + path::components(p).skip(1) =~= path::components(home));
    } else {
        path_laws::join_components(home, rest);
    }
}

/// Replaces a first component `~` of a path by the home directory.
pub fn expand_tilde(p: &PathBuf, home: Option<&PathBuf>) -> (r: Result<PathBuf, TildeError>)
    ensures
        r matches Ok(q) ==> expanded(p@, scanner::directory_view(home)) == Ok::<
            Seq<u8>,
            TildeError,
        >(q@),
        r matches Err(e) ==> expanded(p@, scanner::directory_view(home)) == Err::<
            Seq<u8>,
            TildeError,
        >(e),
{
    if p.to_str().is_none() {
        return Err(TildeError::NotUtf8);
    }
    let mut prefix: Vec<u8> = Vec::new();
    prefix.push(0x7e);
    assert(prefix@ =~= tilde());
    let rest = match p.strip_prefix(&PathBuf::from_bytes(prefix)) {
        Some(rest) => rest,
        None => {
            return Ok(p.clone());
        },
    };
    match home {
        None => Err(TildeError::NoHome),
        Some(dir) => if rest.is_empty() {
            Ok(dir.clone())
        } else {
            Ok(dir.join(&rest))
        },
    }
}

/// Number of videos to probe at once: as many as asked for; if that is none, as many as the
/// machine can run in parallel, or one if that is not known.
pub fn probe_concurrency(threads: usize, available: Option<usize>) -> (r: usize)
    ensures
        threads > 0 ==> r == threads,
        threads == 0 ==> r == (match available {
            Some(n) => n,
            None => 1,
        }),
{
    if threads != 0 {
        return threads;
    }
    match available {
        Some(n) => n,
        None => 1,
    }
}

/// The videos to probe: those that are not among the cached paths.
pub fn uncached_videos(videos: &PathSet, cached: &PathSet) -> (r: Vec<PathBuf>)
    requires
        cached.wf(),
    ensures
        path::path_views(r@) == videos@.filter(|p: Seq<u8>| !path_set::has_path(cached@, p)),
{
    let ghost is_new = |p: Seq<u8>| !path_set::has_path(cached@, p);
    let mut out: Vec<PathBuf> = Vec::new();
    let mut i: usize = 0;
    proof {
        reveal(Seq::filter);
        assert(path::path_views(out@) =~= videos@.take(0).filter(is_new));
    }
    while i < videos.len()
        invariant
            i <= videos@.len(),
            cached.wf(),
            is_new == (|p: Seq<u8>| !path_set::has_path(cached@, p)),
            path::path_views(out@) == videos@.take(i as int).filter(is_new),
        decreases videos@.len() - i,
    {
        let video = videos.get(i);
        let ghost before = out@;
        proof {
            reveal(Seq::filter);
            assert(videos@.take(i + 1).drop_last() =~= videos@.take(i as int));
            assert(videos@.take(i + 1).last() == video@);
        }
        if !cached.contains(video) {
            out.push(video.clone());
            assert(path::path_views(out@) =~= path::path_views(before).push(video@));
        }
        i = i + 1;
    }
    assert(videos@.take(i as int) =~= videos@);
    out
}

/// A video whose row is stored is not probed again.
pub proof fn stored_video_is_not_probed(
    videos: Seq<Seq<u8>>,
    cached: Seq<Seq<u8>>,
    stored: Seq<Seq<char>>,
    record: VideoRecord,
    row: VideoRow,
)
    requires
        path_set::is_set_of(cached, path::spelled_paths(stored)),
        db::is_row_of(row, record),
        stored.contains(row.path@),
    ensures
        !videos.filter(|p: Seq<u8>| !path_set::has_path(cached, p)).contains(record.path@),
{
    let is_new = |p: Seq<u8>| !path_set::has_path(cached, p);
    db::stored_row_is_readable(record, row);
    let i = choose|i: int| 0 <= i < stored.len() && stored[i] == row.path@;
    assert(path::spelled_paths(stored)[i] == record.path@);
    assert(path_set::has_path(cached, record.path@));
    let probed = videos.filter(is_new);
    if probed.contains(record.path@) {
        let k = choose|k: int| 0 <= k < probed.len() && probed[k] == record.path@;
        videos.lemma_filter_pred(is_new, k);
    }
}

/// The record to store for a probed video. A video that could not be probed is passed over.
pub fn process_video(p: &PathBuf, probed: Result<VideoInfo, ProbeError>) -> (r: Option<VideoRecord>)
    ensures
        r is Some <==> probed is Ok,
        r matches Some(record) ==> record.path@ == p@ && record.width == probed->Ok_0.width
            && record.height == probed->Ok_0.height && record.orientation
            == probed->Ok_0.orientation,
{
    match probed {
        Ok(info) => Some(
            VideoRecord {
                path: p.clone(),
                width: info.width,
                height: info.height,
                orientation: info.orientation,
            },
        ),
        Err(_) => None,
    }
}

/// Whether all root directories could be read. Only then may rows of videos that were not found
/// be removed: a root that cannot be read hides its videos.
pub fn all_roots_accessible(readable: &Vec<bool>) -> (r: bool)
    ensures
        r == (forall|i: int| 0 <= i < readable.len() ==> #[trigger] readable@[i]),
        r == !readable@.contains(false),
{
    let mut i: usize = 0;
    while i < readable.len()
        invariant
            i <= readable.len(),
            forall|k: int| 0 <= k < i ==> #[trigger] readable@[k],
        decreases readable.len() - i,
    {
        if !readable[i] {
            assert(readable@[i as int] == false);
            return false;
        }
        i = i + 1;
    }
    true
}

proof fn lemma_tilde_components()
    ensures
        path::components(tilde()) == seq![seq![0x7eu8]],
{
    path_laws::leading_component(tilde());
    path_laws::segment_is_one_component(tilde());
    assert(tilde()[0] != 0x2e);
}

/// The path `~` alone is the home directory, and what follows `~/` is joined onto it as it is
/// written. Without a home directory both are errors.
pub proof fn tilde_is_home(home: Seq<u8>, r: Seq<u8>)
    requires
        path_laws::is_trimmed(r),
        valid_utf8(r),
    ensures
        expanded(seq![0x7eu8], Some(home)) == Ok::<Seq<u8>, TildeError>(home),
        expanded(seq![0x7eu8, 0x2fu8] + r, Some(home)) == Ok::<Seq<u8>, TildeError>(
            path::path_join(home, r),
        ),
        expanded(seq![0x7eu8], None) == Err::<Seq<u8>, TildeError>(TildeError::NoHome),
        expanded(seq![0x7eu8, 0x2fu8] + r, None) == Err::<Seq<u8>, TildeError>(TildeError::NoHome),
{
    assert(valid_utf8(seq![0x7eu8]) && valid_utf8(seq![0x7eu8, 0x2fu8] + r)) by {
        let one = seq!['~'];
        let two = seq!['~', '/'];
        let t = decode_utf8(r);
        is_ascii_chars_encode_utf8(one);
        is_ascii_chars_encode_utf8(two);
        decode_utf8_encode_utf8(r);
        m3u::encode_utf8_concat(two, t);
        encode_utf8_valid_utf8(one);
        encode_utf8_valid_utf8(two + t);
        assert(encode_utf8(one) =~= seq![0x7eu8]);
        assert(encode_utf8(two) =~= seq![0x7eu8, 0x2fu8]);
    }
    path_laws::strip_prefix_of_equal(seq![0x7eu8], tilde());
    path_laws::join_then_strip_prefix(tilde(), r);
    assert(tilde()[0] != 0x2f);
    assert(path::path_join(tilde(), r) =~= seq![0x7eu8, 0x2fu8] + r);
}

/// A path whose first component is not exactly `~` stays as it is, and one that is not UTF-8 is an
/// error, whatever the home directory is.
pub proof fn other_paths_are_not_expanded(p: Seq<u8>, home: Option<Seq<u8>>)
    ensures
        valid_utf8(p) && (path::components(p).len() == 0 || path::components(p)[0] != seq![0x7eu8])
            ==> expanded(p, home) == Ok::<Seq<u8>, TildeError>(p),
        !valid_utf8(p) <==> expanded(p, home) == Err::<Seq<u8>, TildeError>(TildeError::NotUtf8),
        valid_utf8(p) && path::components(p).len() > 0 && path::components(p)[0] == seq![0x7eu8] ==> (
        home is None <==> expanded(p, home) == Err::<Seq<u8>, TildeError>(TildeError::NoHome)),
{
    lemma_tilde_components();
    path_laws::starts_with_whole_components(p, tilde());
    assert(path::components(tilde())[0] == seq![0x7eu8]);
    if path::components(p).len() > 0 {
        assert(path::path_starts_with(p, tilde()) <==> path::components(p)[0] == seq![0x7eu8]);
    }
}

/// The number of videos to probe at once is what was asked for; where nothing was, it is what the
/// machine offers, and never nothing unless the machine says so.
pub proof fn concurrency_that_is_used(threads: usize, available: Option<usize>, r: usize)
    requires
        call_ensures(probe_concurrency, (threads, available), r),
    ensures
        threads != 0 ==> r == threads,
        threads == 0 ==> (available matches Some(n) ==> r == n),
        threads == 0 && available is None ==> r == 1,
{
}

/// The videos to probe are those of the scan without an equal cached path, none is missing, and
/// none is probed for nothing.
pub proof fn videos_to_probe(videos: &PathSet, cached: &PathSet, r: Vec<PathBuf>, p: Seq<u8>)
    requires
        call_ensures(uncached_videos, (videos, cached), r),
    ensures
        path::path_views(r@).contains(p) <==> videos@.contains(p) && forall|i: int|
            0 <= i < cached@.len() ==> path::components(#[trigger] cached@[i]) != path::components(
                p,
            ),
        r@.len() <= videos@.len(),
{
    let is_new = |p: Seq<u8>| !path_set::has_path(cached@, p);
    let probed = videos@.filter(is_new);
    path_set::held_paths(cached@, p);
    videos@.lemma_filter_len(is_new);
    if videos@.contains(p) && is_new(p) {
        let i = choose|i: int| 0 <= i < videos@.len() && videos@[i] == p;
        videos@.lemma_filter_contains(is_new, i);
    }
    if probed.contains(p) {
        let k = choose|k: int| 0 <= k < probed.len() && probed[k] == p;
        videos@.lemma_filter_pred(is_new, k);
        videos@.lemma_filter_contains_rev(is_new, p);
    }
}

/// A probed video is recorded at its own path with the size and orientation that were probed; a
/// video that could not be probed is not recorded.
pub proof fn recorded_video(
    p: &PathBuf,
    probed: Result<VideoInfo, ProbeError>,
    r: Option<VideoRecord>,
)
    requires
        call_ensures(process_video, (p, probed), r),
    ensures
        probed is Err ==> r is None,
        probed matches Ok(info) ==> (r matches Some(record) && record.path@ == p@ && record.width
            == info.width && record.height == info.height && record.orientation
            == info.orientation),
{
}

/// One root directory that cannot be read is enough to forbid the removal of rows, and nothing
/// else forbids it.
pub proof fn unreadable_root_forbids_removal(readable: &Vec<bool>, r: bool)
    requires
        call_ensures(all_roots_accessible, (readable,), r),
    ensures
        !r <==> readable@.contains(false),
{
}

/// Expanding `~` keeps what follows it below the home directory, and leaves other paths alone.
pub proof fn expanded_path(p: &PathBuf, home: &PathBuf, r: Result<PathBuf, TildeError>)
    requires
        call_ensures(expand_tilde, (p, Some(home)), r),
        valid_utf8(p@),
        home@.len() > 0,
    ensures
        r matches Ok(q) && {
            let parts = path::components(p@);
            &&& parts.len() > 0 && parts[0] == seq![0x7eu8] ==> path::components(q@)
                == path::components(home@) + parts.skip(1)
            &&& parts.len() == 0 || parts[0] != seq![0x7eu8] ==> q@ == p@
        },
{
    other_paths_are_not_expanded(p@, Some(home@));
    lemma_tilde_components();
    path_laws::starts_with_whole_components(p@, tilde());
    assert(path::components(tilde())[0] == seq![0x7eu8]);
    if path::components(p@).len() > 0 && path::components(p@)[0] == seq![0x7eu8] {
        assert(path::path_starts_with(p@, tilde()));
        expanded_components(p@, home@);
    }
}

} // verus!
