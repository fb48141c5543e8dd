//! Root directories to scan and the choice of video files among what a scan finds.

use crate::order;
use crate::path;
use crate::path::{same_bytes, split_components, PathBuf, DOT, SEPARATOR};
use crate::path_laws;
use crate::path_set;
use crate::path_set::PathSet;
use crate::roots;
use vstd::prelude::*;
use vstd::slice::slice_to_vec;
use vstd::utf8::*;

verus! {

/// Extensions of video files, in lower case and without the dot.
pub const VIDEO_EXTENSIONS: [&'static str; 13] = [
    "mp4",
    "mkv",
    "avi",
    "mov",
    "flv",
    "ts",
    "m2ts",
    "rmvb",
    "webm",
    "wmv",
    "m4v",
    "mpg",
    "mpeg",
];

/// Names of directories that are not entered.
///
/// `lost+found` is created by the file system at a mount point, is as a rule not readable and
/// never holds videos.
pub const SKIPPED_DIR_NAMES: [&'static str; 1] = ["lost+found"];

/// The lower case of an ASCII letter; any other byte unchanged.
pub open spec fn ascii_lower(b: u8) -> u8 {
    if 0x41 <= b <= 0x5a {
        (b + 0x20) as u8
    } else {
        b
    }
}

/// `a` and `b` differ at most in the case of ASCII letters.
pub open spec fn same_ignoring_case(a: Seq<u8>, b: Seq<u8>) -> bool {
    &&& a.len() == b.len()
    &&& forall|i: int| 0 <= i < a.len() ==> ascii_lower(#[trigger] a[i]) == ascii_lower(b[i])
}

/// `e` is, but for its case, one of the extensions of video files.
pub open spec fn is_video_extension(e: Seq<u8>) -> bool {
    exists|k: int|
        0 <= k < VIDEO_EXTENSIONS@.len() && same_ignoring_case(
            e,
            encode_utf8(#[trigger] VIDEO_EXTENSIONS@[k]@),
        )
}

/// `p` has the extension of a video file.
pub open spec fn is_video_path(p: Seq<u8>) -> bool {
    match path::path_extension(p) {
        Some(e) => is_video_extension(e),
        None => false,
    }
}

fn lower(b: u8) -> (r: u8)
    ensures
        r == ascii_lower(b),
{
    if 0x41 <= b && b <= 0x5a {
        b + 0x20
    } else {
        b
    }
}

fn equal_ignoring_case(a: &[u8], b: &[u8]) -> (r: bool)
    ensures
        r == same_ignoring_case(a@, b@),
{
    if a.len() != b.len() {
        return false;
    }
    let mut i: usize = 0;
    while i < a.len()
        invariant
            i <= a.len() == b.len(),
            forall|k: int| 0 <= k < i ==> ascii_lower(#[trigger] a@[k]) == ascii_lower(b@[k]),
        decreases a.len() - i,
    {
        if lower(a[i]) != lower(b[i]) {
            return false;
        }
        i = i + 1;
    }
    true
}

/// Whether the path has the extension of a video file, in upper or lower case.
pub fn is_video_file(p: &PathBuf) -> (r: bool)
    ensures
        r == is_video_path(p@),
{
    let extension = match p.extension() {
        Some(e) => e,
        None => {
            return false;
        },
    };
    let mut k: usize = 0;
    while k < VIDEO_EXTENSIONS.len()
        invariant
            k <= VIDEO_EXTENSIONS@.len(),
            path::path_extension(p@) == Some(extension@),
            forall|j: int|
                0 <= j < k ==> !same_ignoring_case(
                    extension@,
                    encode_utf8(#[trigger] VIDEO_EXTENSIONS@[j]@),
                ),
        decreases VIDEO_EXTENSIONS@.len() - k,
    {
        if equal_ignoring_case(extension, VIDEO_EXTENSIONS[k].as_bytes()) {
            return true;
        }
        k = k + 1;
    }
    false
}

/// One entry that a directory walk found.
#[derive(Debug)]
pub struct WalkEntry {
    /// Path of the entry: that of the walk's root joined with the names below it.
    pub path: PathBuf,
    /// Name of the entry itself.
    pub name: Vec<u8>,
    /// The entry is a directory.
    pub is_dir: bool,
    /// The entry is a regular file, not a symbolic link.
    pub is_file: bool,
}

/// The walk does not enter this entry.
pub open spec fn skips(entry: WalkEntry) -> bool {
    entry.is_dir && exists|k: int|
        0 <= k < SKIPPED_DIR_NAMES@.len() && entry.name@ == encode_utf8(
            #[trigger] SKIPPED_DIR_NAMES@[k]@,
        )
}

/// Whether the entry is a directory that the walk does not enter. A file of the same name is
/// not skipped.
pub fn is_skipped_dir(entry: &WalkEntry) -> (r: bool)
    ensures
        r == skips(*entry),
{
    if !entry.is_dir {
        return false;
    }
    let mut k: usize = 0;
    while k < SKIPPED_DIR_NAMES.len()
        invariant
            entry.is_dir,
            k <= SKIPPED_DIR_NAMES@.len(),
            forall|j: int|
                0 <= j < k ==> entry.name@ != encode_utf8(#[trigger] SKIPPED_DIR_NAMES@[j]@),
        decreases SKIPPED_DIR_NAMES@.len() - k,
    {
        if same_bytes(entry.name.as_slice(), SKIPPED_DIR_NAMES[k].as_bytes()) {
            return true;
        }
        k = k + 1;
    }
    false
}

/// The entry is a regular file with the extension of a video.
pub open spec fn is_video_entry(entry: WalkEntry) -> bool {
    entry.is_file && is_video_path(entry.path@)
}

/// The path `p` as an absolute path, seen from the directory `cwd`. There is none for a relative
/// path where `cwd` is not known or not absolute itself.
pub open spec fn absolute_path(p: Seq<u8>, cwd: Option<Seq<u8>>) -> Option<Seq<u8>> {
    if path::is_absolute(p) {
        Some(p)
    } else {
        match cwd {
            Some(dir) => if path::is_absolute(dir) {
                Some(path::path_join(dir, p))
            } else {
                None
            },
            None => None,
        }
    }
}

/// The absolute path of the video that the entry is, if it is one.
pub open spec fn entry_video(entry: WalkEntry, cwd: Option<Seq<u8>>) -> Option<Seq<u8>> {
    if is_video_entry(entry) {
        absolute_path(entry.path@, cwd)
    } else {
        None
    }
}

/// The absolute paths of the videos among `entries`, in order.
pub open spec fn video_paths(entries: Seq<WalkEntry>, cwd: Option<Seq<u8>>) -> Seq<Seq<u8>>
    decreases entries.len(),
{
    if entries.len() == 0 {
        Seq::empty()
    } else {
        let init = video_paths(entries.drop_last(), cwd);
        match entry_video(entries.last(), cwd) {
            Some(video) => init.push(video),
            None => init,
        }
    }
}

/// Makes a path absolute, seen from the directory `cwd`.
fn make_absolute(p: &PathBuf, cwd: Option<&PathBuf>) -> (r: Option<PathBuf>)
    ensures
        r is Some <==> absolute_path(p@, directory_view(cwd)) is Some,
        r matches Some(q) ==> absolute_path(p@, directory_view(cwd)) == Some(q@),
{
    if p.is_absolute() {
        return Some(p.clone());
    }
    match cwd {
        Some(dir) => if dir.is_absolute() {
            Some(dir.join(p))
        } else {
            None
        },
        None => None,
    }
}

/// Collects the videos among the entries that the walks of all roots found, by their absolute
/// paths; relative paths are seen from the directory `cwd`. A path that several walks found is
/// collected once.
pub fn scan_videos(entries: Vec<WalkEntry>, cwd: Option<&PathBuf>) -> (videos: PathSet)
    ensures
        videos.wf(),
        path_set::is_set_of(videos@, video_paths(entries@, directory_view(cwd))),
        forall|i: int| 0 <= i < videos@.len() ==> path::is_absolute(#[trigger] videos@[i]),
{
    let ghost dir = directory_view(cwd);
    let mut videos = PathSet::new();
    let mut j: usize = 0;
    assert(path_set::path_keys(videos@) =~= path_set::path_keys(
        video_paths(entries@.take(0), dir),
    ));
    while j < entries.len()
        invariant
            j <= entries.len(),
            dir == directory_view(cwd),
            videos.wf(),
            path_set::is_set_of(videos@, video_paths(entries@.take(j as int), dir)),
        decreases entries.len() - j,
    {
        proof {
            assert(entries@.take(j + 1).drop_last() =~= entries@.take(j as int));
            assert(entries@.take(j + 1).last() == entries@[j as int]);
        }
        if entries[j].is_file && is_video_file(&entries[j].path) {
            match make_absolute(&entries[j].path, cwd) {
                Some(p) => {
                    let ghost before = videos@;
                    let ghost value = p@;
                    videos.insert(p);
                    proof {
                        path_set::set_of_insert(
                            before,
                            videos@,
                            video_paths(entries@.take(j as int), dir),
                            value,
                        );
                    }
                },
                None => {},
            }
        }
        j = j + 1;
    }
    proof {
        assert(entries@.take(j as int) =~= entries@);
        lemma_video_paths_absolute(entries@, dir);
        assert forall|i: int| 0 <= i < videos@.len() implies path::is_absolute(
            #[trigger] videos@[i],
        ) by {
            assert(path_set::is_first_spelling(video_paths(entries@, dir), videos@[i]));
        }
    }
    videos
}

proof fn lemma_video_paths_absolute(entries: Seq<WalkEntry>, cwd: Option<Seq<u8>>)
    ensures
        forall|i: int|
            0 <= i < video_paths(entries, cwd).len() ==> path::is_absolute(
                #[trigger] video_paths(entries, cwd)[i],
            ),
    decreases entries.len(),
{
    if entries.len() > 0 {
        let init = video_paths(entries.drop_last(), cwd);
        lemma_video_paths_absolute(entries.drop_last(), cwd);
        assert forall|i: int| 0 <= i < video_paths(entries, cwd).len() implies path::is_absolute(
            #[trigger] video_paths(entries, cwd)[i],
        ) by {
            if i < init.len() {
                assert(video_paths(entries, cwd)[i] == init[i]);
            }
        }
    }
}

/// Some entry is a video at the path `p`.
pub open spec fn has_video_entry(
    entries: Seq<WalkEntry>,
    cwd: Option<Seq<u8>>,
    p: Seq<u8>,
) -> bool {
    exists|j: int|
        0 <= j < entries.len() && (entry_video(#[trigger] entries[j], cwd) matches Some(video)
            && path::components(video) == path::components(p))
}

/// A path is collected exactly if some entry at that path is a regular file with the extension of
/// a video.
pub proof fn scanned_videos(
    entries: Seq<WalkEntry>,
    cwd: Option<Seq<u8>>,
    videos: Seq<Seq<u8>>,
    p: Seq<u8>,
)
    requires
        path_set::is_set_of(videos, video_paths(entries, cwd)),
    ensures
        path_set::has_path(videos, p) <==> has_video_entry(entries, cwd, p),
{
    lemma_video_paths(entries, cwd, p);
}

proof fn lemma_video_paths(entries: Seq<WalkEntry>, cwd: Option<Seq<u8>>, p: Seq<u8>)
    ensures
        path_set::has_path(video_paths(entries, cwd), p) <==> has_video_entry(entries, cwd, p),
    decreases entries.len(),
{
    if entries.len() > 0 {
        let init = entries.drop_last();
        let last = entries.last();
        let less = video_paths(init, cwd);
        let more = video_paths(entries, cwd);
        lemma_video_paths(init, cwd, p);
        if has_video_entry(init, cwd, p) {
            let j = choose|j: int|
                0 <= j < init.len() && (entry_video(#[trigger] init[j], cwd) matches Some(video)
                    && path::components(video) == path::components(p));
            assert(entries[j] == init[j]);
            let i = choose|i: int|
                0 <= i < less.len() && path::components(#[trigger] less[i]) == path::components(p);
            assert(more[i] == less[i]);
        } else {
            if path_set::has_path(more, p) {
                let i = choose|i: int|
                    0 <= i < more.len() && path::components(#[trigger] more[i])
                        == path::components(p);
                if i < less.len() {
                    assert(less[i] == more[i]);
                }
                assert(entries[entries.len() - 1] == last);
            }
            if has_video_entry(entries, cwd, p) {
                let j = choose|j: int|
                    0 <= j < entries.len() && (entry_video(#[trigger] entries[j], cwd) matches Some(
                        video,
                    ) && path::components(video) == path::components(p));
                if j < init.len() {
                    assert(init[j] == entries[j]);
                }
                assert(Some(more[less.len() as int]) == entry_video(last, cwd));
            }
        }
    }
}

/// Walks of overlapping roots: entries whose videos were collected already change nothing.
pub proof fn overlapping_walks_add_nothing(
    entries: Seq<WalkEntry>,
    again: Seq<WalkEntry>,
    cwd: Option<Seq<u8>>,
    videos: Seq<Seq<u8>>,
)
    requires
        path_set::is_set_of(videos, video_paths(entries, cwd)),
        forall|j: int|
            0 <= j < again.len() ==> (entry_video(#[trigger] again[j], cwd) matches Some(video)
                ==> has_video_entry(entries, cwd, video)),
    ensures
        path_set::is_set_of(videos, video_paths(entries + again, cwd)),
    decreases again.len(),
{
    if again.len() == 0 {
        assert(entries + again =~= entries);
    } else {
        let init = again.drop_last();
        let last = again.last();
        assert forall|j: int| 0 <= j < init.len() implies (entry_video(
            #[trigger] init[j],
            cwd,
        ) matches Some(video) ==> has_video_entry(entries, cwd, video)) by {
            assert(init[j] == again[j]);
        }
        overlapping_walks_add_nothing(entries, init, cwd, videos);
        let all = entries + again;
        assert(all.drop_last() =~= entries + init);
        assert(all.last() == last);
        if let Some(video) = entry_video(last, cwd) {
            assert(again[again.len() - 1] == last);
            scanned_videos(entries, cwd, videos, video);
            path_set::set_of_repeated(videos, video_paths(entries + init, cwd), seq![video]);
            assert(video_paths(all, cwd) =~= video_paths(entries + init, cwd) + seq![video]);
        }
    }
}

/// Why a root path cannot be normalised.
#[derive(Debug, Clone, Copy, PartialEq, Eq, Structural)]
pub enum RootError {
    /// The path is empty.
    EmptyPath,
    /// The path is relative and the working directory is not known.
    NoWorkingDirectory,
}

/// The bytes of a directory, if it is known.
pub open spec fn directory_view(cwd: Option<&PathBuf>) -> Option<Seq<u8>> {
    match cwd {
        Some(dir) => Some(dir@),
        None => None,
    }
}

/// Applies the components `parts` to the directory that `names` leads to.
fn resolve_components<'a>(names: &mut Vec<&'a [u8]>, parts: Vec<&'a [u8]>, done: Ghost<Seq<Seq<u8>>>)
    requires
        order::slice_views(old(names)@) == roots::resolve(done@),
    ensures
        order::slice_views(final(names)@) == roots::resolve(done@ + order::slice_views(parts@)),
{
    let ghost all = order::slice_views(parts@);
    let mut i: usize = 0;
    assert(done@ + all.take(0) =~= done@);
    while i < parts.len()
        invariant
            i <= parts.len(),
            all == order::slice_views(parts@),
            order::slice_views(names@) == roots::resolve(done@ + all.take(i as int)),
        decreases parts.len() - i,
    {
        let part = parts[i];
        let ghost before = names@;
        let ghost now = done@ + all.take(i + 1);
        proof {
            assert(now.drop_last() =~= done@ + all.take(i as int));
            assert(now.last() == part@);
        }
        let is_root = part.len() == 1 && part[0] == SEPARATOR;
        let is_current = part.len() == 1 && part[0] == DOT;
        let is_parent = part.len() == 2 && part[0] == DOT && part[1] == DOT;
        assert(is_root == (part@ =~= path::root_dir()));
        assert(is_current == (part@ =~= path::current_dir()));
        assert(is_parent == (part@ =~= path::parent_dir()));
        if is_parent {
            names.pop();
            proof {
                if before.len() > 0 {
                    assert(order::slice_views(names@) =~= order::slice_views(before).drop_last());
                } else {
                    assert(order::slice_views(names@) =~= order::slice_views(before));
                }
            }
        } else if !is_root && !is_current {
            names.push(part);
            assert(order::slice_views(names@) =~= order::slice_views(before).push(part@));
        }
        i = i + 1;
    }
    assert(all.take(i as int) =~= all);
}

/// The absolute path made of `names`.
fn spell_root(names: &Vec<&[u8]>) -> (r: PathBuf)
    ensures
        r@ == roots::root_path(order::slice_views(names@)),
{
    let ghost all = order::slice_views(names@);
    let mut bytes: Vec<u8> = Vec::new();
    if names.len() == 0 {
        bytes.push(SEPARATOR);
        assert(bytes@ =~= roots::root_path(all));
        return PathBuf::from_bytes(bytes);
    }
    let mut i: usize = 0;
    assert(bytes@ =~= roots::spelled_names(all.take(0)));
    while i < names.len()
        invariant
            i <= names.len(),
            all == order::slice_views(names@),
            bytes@ == roots::spelled_names(all.take(i as int)),
        decreases names.len() - i,
    {
        proof {
            assert(all.take(i + 1).drop_last() =~= all.take(i as int));
            assert(all.take(i + 1).last() == names@[i as int]@);
        }
        bytes.push(SEPARATOR);
        let mut name: Vec<u8> = slice_to_vec(names[i]);
        bytes.append(&mut name);
        assert(bytes@ =~= roots::spelled_names(all.take(i + 1)));
        i = i + 1;
    }
    assert(all.take(i as int) =~= all);
    PathBuf::from_bytes(bytes)
}

/// Makes a path absolute, seen from the directory `cwd`, and removes `.`, `..` and trailing or
/// repeated separators from it. The file system is not consulted.
pub fn normalize_root(p: &PathBuf, cwd: Option<&PathBuf>) -> (r: Result<PathBuf, RootError>)
    ensures
        r == Err::<PathBuf, RootError>(RootError::EmptyPath) <==> p@.len() == 0,
        r == Err::<PathBuf, RootError>(RootError::NoWorkingDirectory) <==> p@.len() > 0
            && !path::is_absolute(p@) && cwd is None,
        r is Ok <==> roots::normalized(p@, directory_view(cwd)) is Some,
        r matches Ok(root) ==> roots::normalized(p@, directory_view(cwd)) matches Some(names)
            && root@ == roots::root_path(names) && path::components(root@) == roots::rooted(names),
{
    if p.is_empty() {
        return Err(RootError::EmptyPath);
    }
    let ghost nothing = Seq::<Seq<u8>>::empty();
    let mut names: Vec<&[u8]> = Vec::new();
    assert(order::slice_views(names@) =~= nothing);
    proof {
        roots::normalized_names(p@, directory_view(cwd));
    }
    if p.is_absolute() {
        resolve_components(&mut names, split_components(p.as_bytes()), Ghost(nothing));
        assert(nothing + path::components(p@) =~= path::components(p@));
    } else {
        let dir = match cwd {
            Some(dir) => dir,
            None => {
                return Err(RootError::NoWorkingDirectory);
            },
        };
        resolve_components(&mut names, split_components(dir.as_bytes()), Ghost(nothing));
        assert(nothing + path::components(dir@) =~= path::components(dir@));
        resolve_components(
            &mut names,
            split_components(p.as_bytes()),
            Ghost(path::components(dir@)),
        );
    }
    proof {
        roots::root_path_components(order::slice_views(names@));
    }
    Ok(spell_root(&names))
}

/// Why `p` cannot be normalised, seen from the directory `cwd`, if it cannot.
pub open spec fn root_error(p: Seq<u8>, cwd: Option<Seq<u8>>) -> Option<RootError> {
    if p.len() == 0 {
        Some(RootError::EmptyPath)
    } else if !path::is_absolute(p) && cwd is None {
        Some(RootError::NoWorkingDirectory)
    } else {
        None
    }
}

/// A path is either normalised or has an error.
pub proof fn root_error_or_normalized(p: Seq<u8>, cwd: Option<Seq<u8>>)
    ensures
        root_error(p, cwd) is None <==> roots::normalized(p, cwd) is Some,
{
}

/// A path that is left out of the root directories.
#[derive(Debug)]
pub struct SkippedRoot {
    /// The path as it is written.
    pub path: PathBuf,
    /// Why it cannot be normalised.
    pub error: RootError,
}

/// The paths and errors of skipped roots.
pub open spec fn skipped_root_views(skipped: Seq<SkippedRoot>) -> Seq<(Seq<u8>, RootError)> {
    skipped.map_values(|s: SkippedRoot| (s.path@, s.error))
}

/// The paths that cannot be normalised, each with its error, in order.
pub open spec fn root_errors(
    paths: Seq<Seq<u8>>,
    cwd: Option<Seq<u8>>,
) -> Seq<(Seq<u8>, RootError)>
    decreases paths.len(),
{
    if paths.len() == 0 {
        Seq::empty()
    } else {
        let init = root_errors(paths.drop_last(), cwd);
        match root_error(paths.last(), cwd) {
            Some(e) => init.push((paths.last(), e)),
            None => init,
        }
    }
}

/// The paths that `deduplicate_roots_from` leaves out because they cannot be normalised, in
/// order, each with the error that `normalize_root` gives for it.
pub fn skipped_roots(paths: &Vec<PathBuf>, cwd: Option<&PathBuf>) -> (r: Vec<SkippedRoot>)
    ensures
        skipped_root_views(r@) == root_errors(path::path_views(paths@), directory_view(cwd)),
{
    let ghost all = path::path_views(paths@);
    let ghost dir = directory_view(cwd);
    let mut out: Vec<SkippedRoot> = Vec::new();
    let mut i: usize = 0;
    assert(skipped_root_views(out@) =~= root_errors(all.take(0), dir));
    while i < paths.len()
        invariant
            i <= paths.len(),
            all == path::path_views(paths@),
            dir == directory_view(cwd),
            skipped_root_views(out@) == root_errors(all.take(i as int), dir),
        decreases paths.len() - i,
    {
        proof {
            assert(all.take(i + 1).drop_last() =~= all.take(i as int));
            assert(all.take(i + 1).last() == paths@[i as int]@);
        }
        match normalize_root(&paths[i], cwd) {
            Ok(_) => {},
            Err(error) => {
                let ghost before = out@;
                out.push(SkippedRoot { path: paths[i].clone(), error });
                assert(skipped_root_views(out@) =~= skipped_root_views(before).push(
                    (paths@[i as int]@, error),
                ));
            },
        }
        i = i + 1;
    }
    assert(all.take(i as int) =~= all);
    out
}

/// The directory as a scan spells it, where it is absolute and written with `..`; otherwise as it
/// is written.
pub fn resolved_directory(d: &PathBuf) -> (r: PathBuf)
    ensures
        r@ == roots::resolved_directory(d@),
{
    let parts = split_components(d.as_bytes());
    let ghost all = path::components(d@);
    let mut i: usize = 0;
    while i < parts.len()
        invariant
            i <= parts.len(),
            all == path::components(d@),
            all == order::slice_views(parts@),
            forall|k: int| 0 <= k < i ==> all[k] != path::parent_dir(),
        decreases parts.len() - i,
    {
        let part = parts[i];
        let is_parent = part.len() == 2 && part[0] == DOT && part[1] == DOT;
        assert(is_parent == (part@ =~= path::parent_dir()));
        assert(all[i as int] == part@);
        if is_parent {
            assert(all.contains(path::parent_dir()));
            if d.is_absolute() {
                match normalize_root(d, None) {
                    Ok(root) => {
                        return root;
                    },
                    Err(_) => {},
                }
            }
            return d.clone();
        }
        i = i + 1;
    }
    d.clone()
}

/// The root directories to scan for `paths`, seen from the directory `cwd`: each path is
/// normalised, and a path that equals another one or lies below it is left out. Paths that
/// cannot be normalised are left out too.
pub fn deduplicate_roots_from(paths: Vec<PathBuf>, cwd: Option<&PathBuf>) -> (r: Vec<PathBuf>)
    ensures
        roots::is_root_list(
            path::path_views(r@),
            roots::input_roots(path::path_views(paths@), directory_view(cwd)),
        ),
{
    let ghost all = path::path_views(paths@);
    let ghost dir = directory_view(cwd);
    let mut normalized = PathSet::new();
    let mut i: usize = 0;
    proof {
        assert(path_set::path_keys(normalized@) =~= roots::input_roots(all.take(0), dir));
    }
    while i < paths.len()
        invariant
            i <= paths.len(),
            all == path::path_views(paths@),
            dir == directory_view(cwd),
            normalized.wf(),
            path_set::path_keys(normalized@) == roots::input_roots(all.take(i as int), dir),
            forall|k: int|
                0 <= k < normalized@.len() ==> #[trigger] normalized@[k] == roots::root_path(
                    path::components(normalized@[k]).skip(1),
                ),
        decreases paths.len() - i,
    {
        let ghost before = normalized@;
        assert(all[i as int] == paths@[i as int]@);
        proof {
            roots::input_roots_push(all, i as int, dir);
        }
        match normalize_root(&paths[i], cwd) {
            Ok(root) => {
                let ghost value = root@;
                assert(path::components(value).skip(1) =~= roots::normalized(
                    all[i as int],
                    dir,
                )->Some_0);
                let added = normalized.insert(root);
                proof {
                    if added {
                        let at = choose|at: int|
                            0 <= at <= before.len() && normalized@ == #[trigger] before.insert(
                                at,
                                value,
                            );
                        assert forall|k: int|
                            0 <= k < normalized@.len() implies #[trigger] normalized@[k]
                            == roots::root_path(path::components(normalized@[k]).skip(1)) by {
                            if k < at {
                                assert(normalized@[k] == before[k]);
                            } else if k > at {
                                assert(normalized@[k] == before[k - 1]);
                            }
                        }
                    }
                }
            },
            Err(_) => {},
        }
        i = i + 1;
    }
    assert(all.take(i as int) =~= all);
    keep_outermost(&normalized)
}

/// The paths of the set that do not lie below another one of it.
fn keep_outermost(set: &PathSet) -> (r: Vec<PathBuf>)
    requires
        set.wf(),
        forall|k: int|
            0 <= k < set@.len() ==> #[trigger] set@[k] == roots::root_path(
                path::components(set@[k]).skip(1),
            ),
    ensures
        roots::is_root_list(path::path_views(r@), path_set::path_keys(set@)),
{
    let mut kept: Vec<PathBuf> = Vec::new();
    let mut i: usize = 0;
    assert(path::path_views(kept@) =~= Seq::empty());
    while i < set.len()
        invariant
            i <= set@.len(),
            set.wf(),
            forall|k: int|
                0 <= k < set@.len() ==> #[trigger] set@[k] == roots::root_path(
                    path::components(set@[k]).skip(1),
                ),
            roots::is_root_list(
                path::path_views(kept@),
                path_set::path_keys(set@.take(i as int)),
            ),
        decreases set@.len() - i,
    {
        let candidate = set.get(i);
        let mut covered = false;
        let mut j: usize = 0;
        while j < kept.len()
            invariant
                j <= kept.len(),
                covered == exists|k: int|
                    0 <= k < j && path::components(
                        #[trigger] path::path_views(kept@)[k],
                    ).is_prefix_of(path::components(candidate@)),
            decreases kept.len() - j,
        {
            assert(path::path_views(kept@)[j as int] == kept@[j as int]@);
            if candidate.starts_with(&kept[j]) {
                covered = true;
            }
            j = j + 1;
        }
        proof {
            roots::root_list_step(path::path_views(kept@), set@, i as int);
        }
        if !covered {
            let ghost before = kept@;
            kept.push(candidate.clone());
            assert(path::path_views(kept@) =~= path::path_views(before).push(candidate@));
        }
        i = i + 1;
    }
    assert(set@.take(i as int) =~= set@);
    kept
}

/// Calls `std::path::absolute` on `.`, which gives the path of the working directory, absolute
/// as every path that function returns; `None` if the working directory is not known. Which
/// directory it is depends on the process.
#[verifier::external_body]
fn working_directory() -> (r: Option<Vec<u8>>)
    ensures
        r matches Some(bytes) ==> path::is_absolute(bytes@),
{
    match std::path::absolute(".") {
        Ok(dir) => Some(dir.into_os_string().into_encoded_bytes()),
        Err(_) => None,
    }
}

/// The root directories to scan for `paths`, seen from the working directory of the process.
pub fn deduplicate_roots(paths: Vec<PathBuf>) -> (r: Vec<PathBuf>)
    ensures
        exists|cwd: Option<Seq<u8>>|
            (cwd matches Some(dir) ==> path::is_absolute(dir)) && roots::is_root_list(
                path::path_views(r@),
                #[trigger] roots::input_roots(path::path_views(paths@), cwd),
            ),
{
    match working_directory() {
        Some(bytes) => {
            let dir = PathBuf::from_bytes(bytes);
            deduplicate_roots_from(paths, Some(&dir))
        },
        None => deduplicate_roots_from(paths, None),
    }
}

/// Case folding turns each upper case ASCII letter into its lower case letter and leaves every
/// other byte as it is.
pub proof fn folding_of_letters(b: u8)
    ensures
        'A' <= b as char <= 'Z' ==> ascii_lower(b) == b + ('a' as u8 - 'A' as u8),
        !('A' <= b as char <= 'Z') ==> ascii_lower(b) == b,
        same_ignoring_case(seq![b], seq![ascii_lower(b)]),
{
    if 0x41 <= b <= 0x5a {
        assert(!(0x41 <= b + 0x20 <= 0x5a));
    }
}

/// The extensions of video files.
pub proof fn listed_extensions()
    ensures
        VIDEO_EXTENSIONS@.len() == 13,
        VIDEO_EXTENSIONS@[0]@ == "mp4"@,
        VIDEO_EXTENSIONS@[1]@ == "mkv"@,
        VIDEO_EXTENSIONS@[2]@ == "avi"@,
        VIDEO_EXTENSIONS@[3]@ == "mov"@,
        VIDEO_EXTENSIONS@[4]@ == "flv"@,
        VIDEO_EXTENSIONS@[5]@ == "ts"@,
        VIDEO_EXTENSIONS@[6]@ == "m2ts"@,
        VIDEO_EXTENSIONS@[7]@ == "rmvb"@,
        VIDEO_EXTENSIONS@[8]@ == "webm"@,
        VIDEO_EXTENSIONS@[9]@ == "wmv"@,
        VIDEO_EXTENSIONS@[10]@ == "m4v"@,
        VIDEO_EXTENSIONS@[11]@ == "mpg"@,
        VIDEO_EXTENSIONS@[12]@ == "mpeg"@,
{
}

/// The extensions of video files are made of lower case letters and digits.
proof fn lemma_extension_characters(k: int)
    requires
        0 <= k < 13,
    ensures
        VIDEO_EXTENSIONS@.len() == 13,
        forall|i: int|
            0 <= i < VIDEO_EXTENSIONS@[k]@.len() ==> ('a' <= #[trigger] VIDEO_EXTENSIONS@[k]@[i]
                <= 'z') || ('0' <= VIDEO_EXTENSIONS@[k]@[i] <= '9'),
        encode_utf8(VIDEO_EXTENSIONS@[k]@).len() == VIDEO_EXTENSIONS@[k]@.len(),
        forall|i: int|
            0 <= i < VIDEO_EXTENSIONS@[k]@.len() ==> #[trigger] encode_utf8(
                VIDEO_EXTENSIONS@[k]@,
            )[i] == VIDEO_EXTENSIONS@[k]@[i] as u8,
{
    listed_extensions();
    reveal_strlit("mp4");
    reveal_strlit("mkv");
    reveal_strlit("avi");
    reveal_strlit("mov");
    reveal_strlit("flv");
    reveal_strlit("ts");
    reveal_strlit("m2ts");
    reveal_strlit("rmvb");
    reveal_strlit("webm");
    reveal_strlit("wmv");
    reveal_strlit("m4v");
    reveal_strlit("mpg");
    reveal_strlit("mpeg");
    let t = VIDEO_EXTENSIONS@[k]@;
    assert(forall|i: int|
        0 <= i < t.len() ==> ('a' <= #[trigger] t[i] <= 'z') || ('0' <= t[i] <= '9'));
    assert(is_ascii_chars(t));
    is_ascii_chars_encode_utf8(t);
}

/// A file is a video if its extension is one of those of videos, each letter in upper or lower
/// case.
pub proof fn every_spelling_is_video(dir: Seq<u8>, stem: Seq<u8>, ext: Seq<u8>, k: int)
    requires
        stem.len() > 0,
        forall|i: int| 0 <= i < stem.len() ==> stem[i] != 0x2f,
        0 <= k < 13,
        ext.len() == VIDEO_EXTENSIONS@[k]@.len(),
        forall|i: int|
            0 <= i < ext.len() ==> #[trigger] ext[i] as char == VIDEO_EXTENSIONS@[k]@[i] || ('A'
                <= ext[i] as char <= 'Z' && (ext[i] + 0x20) as char == VIDEO_EXTENSIONS@[k]@[i]),
    ensures
        is_video_path(path::path_join(dir, stem + seq![0x2eu8] + ext)),
{
    lemma_extension_characters(k);
    let t = VIDEO_EXTENSIONS@[k]@;
    assert forall|i: int| 0 <= i < ext.len() implies ext[i] != 0x2f && ext[i] != 0x2e
        && ascii_lower(#[trigger] ext[i]) == ascii_lower(encode_utf8(t)[i]) by {
        assert(('a' <= t[i] <= 'z') || ('0' <= t[i] <= '9'));
        assert(encode_utf8(t)[i] == t[i] as u8);
    }
    assert(ext.len() > 0) by {
        lemma_extension_not_empty(k);
    }
    path_laws::extension_follows_last_dot(dir, stem, ext);
    assert(same_ignoring_case(ext, encode_utf8(VIDEO_EXTENSIONS@[k]@)));
    assert(is_video_extension(ext));
}

proof fn lemma_extension_not_empty(k: int)
    requires
        0 <= k < 13,
    ensures
        VIDEO_EXTENSIONS@[k]@.len() > 0,
{
    listed_extensions();
    reveal_strlit("mp4");
    reveal_strlit("mkv");
    reveal_strlit("avi");
    reveal_strlit("mov");
    reveal_strlit("flv");
    reveal_strlit("ts");
    reveal_strlit("m2ts");
    reveal_strlit("rmvb");
    reveal_strlit("webm");
    reveal_strlit("wmv");
    reveal_strlit("m4v");
    reveal_strlit("mpg");
    reveal_strlit("mpeg");
}

/// A file is a video only if it has an extension that is, letter by letter and but for case, one
/// of those of videos.
pub proof fn video_has_listed_extension(p: Seq<u8>)
    ensures
        is_video_path(p) ==> (path::path_extension(p) matches Some(ext) && exists|k: int|
            0 <= k < 13 && ext.len() == (#[trigger] VIDEO_EXTENSIONS@[k])@.len() && (forall|i: int|
                0 <= i < ext.len() ==> #[trigger] ext[i] as char == VIDEO_EXTENSIONS@[k]@[i] || ('A'
                    <= ext[i] as char <= 'Z' && (ext[i] + 0x20) as char
                    == VIDEO_EXTENSIONS@[k]@[i]))),
{
    if is_video_path(p) {
        let ext = path::path_extension(p)->Some_0;
        listed_extensions();
        let k = choose|k: int|
            0 <= k < VIDEO_EXTENSIONS@.len() && same_ignoring_case(
                ext,
                encode_utf8(#[trigger] VIDEO_EXTENSIONS@[k]@),
            );
        lemma_extension_characters(k);
        let t = VIDEO_EXTENSIONS@[k]@;
        assert forall|i: int| 0 <= i < ext.len() implies #[trigger] ext[i] as char == t[i] || ('A'
            <= ext[i] as char <= 'Z' && (ext[i] + 0x20) as char == t[i]) by {
            assert(('a' <= t[i] <= 'z') || ('0' <= t[i] <= '9'));
            assert(encode_utf8(t)[i] == t[i] as u8);
            assert(ascii_lower(ext[i]) == ascii_lower(encode_utf8(t)[i]));
        }
        assert(ext.len() == VIDEO_EXTENSIONS@[k]@.len());
    }
}

/// The only directories that are not entered are those with the name `lost+found`.
pub proof fn lost_and_found_is_skipped(entry: WalkEntry)
    ensures
        skips(entry) <==> entry.is_dir && entry.name@ == encode_utf8("lost+found"@),
{
    assert(SKIPPED_DIR_NAMES@.len() == 1);
    assert(SKIPPED_DIR_NAMES@[0]@ == "lost+found"@);
}

/// Seen from a directory, an absolute path stays, and a relative one is joined onto the directory.
pub proof fn absolute_paths(p: Seq<u8>, dir: Seq<u8>)
    ensures
        p.len() > 0 && p[0] == 0x2f ==> absolute_path(p, Some(dir)) == Some(p) && absolute_path(
            p,
            None,
        ) == Some(p),
        (p.len() == 0 || p[0] != 0x2f) && dir.len() > 0 && dir[0] == 0x2f ==> absolute_path(
            p,
            Some(dir),
        ) == Some(path::path_join(dir, p)),
        (p.len() == 0 || p[0] != 0x2f) ==> absolute_path(p, None) is None,
{
}

/// A regular file with the extension of a video is collected: at its path if that is absolute, and
/// otherwise at the path joined onto the working directory.
pub proof fn video_files_are_collected(
    entries: Seq<WalkEntry>,
    cwd: Option<Seq<u8>>,
    videos: Seq<Seq<u8>>,
    j: int,
)
    requires
        path_set::is_set_of(videos, video_paths(entries, cwd)),
        0 <= j < entries.len(),
        entries[j].is_file,
        is_video_path(entries[j].path@),
    ensures
        path::is_absolute(entries[j].path@) ==> exists|i: int|
            0 <= i < videos.len() && path::components(#[trigger] videos[i]) == path::components(
                entries[j].path@,
            ),
        !path::is_absolute(entries[j].path@) ==> (cwd matches Some(dir) ==> (path::is_absolute(dir)
            ==> exists|i: int|
            0 <= i < videos.len() && path::components(#[trigger] videos[i]) == path::components(
                path::path_join(dir, entries[j].path@),
            ))),
{
    if let Some(video) = entry_video(entries[j], cwd) {
        assert(has_video_entry(entries, cwd, video));
        scanned_videos(entries, cwd, videos, video);
        path_set::held_paths(videos, video);
    }
}

/// Whatever is collected is a regular file with the extension of a video, at its path or, where
/// that is relative, at the path joined onto the working directory.
pub proof fn collected_paths_are_video_files(
    entries: Seq<WalkEntry>,
    cwd: Option<Seq<u8>>,
    videos: Seq<Seq<u8>>,
    i: int,
)
    requires
        path_set::is_set_of(videos, video_paths(entries, cwd)),
        0 <= i < videos.len(),
    ensures
        exists|j: int|
            0 <= j < entries.len() && (#[trigger] entries[j]).is_file && is_video_path(
                entries[j].path@,
            ) && (videos[i] == entries[j].path@ || (!path::is_absolute(entries[j].path@) && (
            cwd matches Some(dir) && videos[i] == path::path_join(dir, entries[j].path@)))),
{
    let all = video_paths(entries, cwd);
    assert(path_set::is_first_spelling(all, videos[i]));
    let k = choose|k: int| #[trigger] path_set::is_first_at(all, k) && all[k] == videos[i];
    lemma_video_path_origin(entries, cwd, k);
}

proof fn lemma_video_path_origin(entries: Seq<WalkEntry>, cwd: Option<Seq<u8>>, k: int)
    requires
        0 <= k < video_paths(entries, cwd).len(),
    ensures
        exists|j: int|
            0 <= j < entries.len() && entry_video(#[trigger] entries[j], cwd) == Some(
                video_paths(entries, cwd)[k],
            ),
    decreases entries.len(),
{
    if entries.len() > 0 {
        let init = entries.drop_last();
        let less = video_paths(init, cwd);
        if k < less.len() {
            lemma_video_path_origin(init, cwd, k);
            let j = choose|j: int|
                0 <= j < init.len() && entry_video(#[trigger] init[j], cwd) == Some(less[k]);
            assert(entries[j] == init[j]);
        } else {
            assert(entries[entries.len() - 1] == entries.last());
        }
    }
}

/// Paths are refused because they are empty, or relative where the working directory is not known,
/// and each refused path is reported once, in order.
pub proof fn refused_roots(paths: Seq<Seq<u8>>, p: Seq<u8>, cwd: Option<Seq<u8>>)
    ensures
        root_error(p, cwd) == Some(RootError::EmptyPath) <==> p.len() == 0,
        root_error(p, cwd) == Some(RootError::NoWorkingDirectory) <==> p.len() > 0 && p[0] != 0x2f
            && cwd is None,
        root_errors(Seq::<Seq<u8>>::empty(), cwd).len() == 0,
        root_error(p, cwd) is None ==> root_errors(paths.push(p), cwd) == root_errors(paths, cwd),
        root_error(p, cwd) matches Some(e) ==> root_errors(paths.push(p), cwd) == root_errors(
            paths,
            cwd,
        ).push((p, e)),
{
    assert(paths.push(p).drop_last() =~= paths);
}

/// A file is taken for a video whatever the case of the letters of its extension.
pub proof fn recognised_video(p: &PathBuf, dir: Seq<u8>, stem: Seq<u8>, ext: Seq<u8>, k: int, r: bool)
    requires
        call_ensures(is_video_file, (p,), r),
        p@ == path::path_join(dir, stem + seq![0x2eu8] + ext),
        stem.len() > 0,
        forall|i: int| 0 <= i < stem.len() ==> stem[i] != 0x2f,
        0 <= k < 13,
        ext.len() == VIDEO_EXTENSIONS@[k]@.len(),
        forall|i: int|
            0 <= i < ext.len() ==> #[trigger] ext[i] as char == VIDEO_EXTENSIONS@[k]@[i] || ('A'
                <= ext[i] as char <= 'Z' && (ext[i] + 0x20) as char == VIDEO_EXTENSIONS@[k]@[i]),
    ensures
        r,
{
    every_spelling_is_video(dir, stem, ext, k);
}

/// A scan holds every regular file with the extension of a video at an absolute path, and the paths
/// that it holds are absolute, in ascending order and different from each other.
pub proof fn scan_result(
    entries: Vec<WalkEntry>,
    cwd: Option<&PathBuf>,
    videos: PathSet,
    j: int,
    a: int,
    b: int,
)
    requires
        call_ensures(scan_videos, (entries, cwd), videos),
        0 <= j < entries@.len(),
        entries@[j].is_file,
        is_video_path(entries@[j].path@),
        path::is_absolute(entries@[j].path@),
        0 <= a < b < videos@.len(),
    ensures
        exists|i: int|
            0 <= i < videos@.len() && path::components(#[trigger] videos@[i]) == path::components(
                entries@[j].path@,
            ),
        path::is_absolute(videos@[a]),
        path_set::path_before(path::components(videos@[a]), path::components(videos@[b])),
        path::components(videos@[a]) != path::components(videos@[b]),
{
    video_files_are_collected(entries@, directory_view(cwd), videos@, j);
    path_set::path_before_irreflexive(path::components(videos@[a]));
}

/// A relative path is normalised to the same root as the path joined onto the working directory.
pub proof fn relative_root(
    p: &PathBuf,
    joined: &PathBuf,
    cwd: &PathBuf,
    r: Result<PathBuf, RootError>,
    s: Result<PathBuf, RootError>,
)
    requires
        p@.len() > 0,
        !path::is_absolute(p@),
        path::is_absolute(cwd@),
        joined@ == path::path_join(cwd@, p@),
        call_ensures(normalize_root, (p, Some(cwd)), r),
        call_ensures(normalize_root, (joined, None), s),
    ensures
        r matches Ok(x) && (s matches Ok(y) && x@ == y@ && path::is_absolute(x@)),
{
    roots::relative_path_is_seen_from_directory(p@, cwd@, None);
    roots::normalized_names(p@, Some(cwd@));
    roots::root_path_components(roots::normalized(p@, Some(cwd@))->Some_0);
}

/// Of two calls on paths that are normalised to the same directories, in any order and with any
/// repetition, both give the same roots.
pub proof fn roots_of_same_inputs(
    a: Vec<PathBuf>,
    b: Vec<PathBuf>,
    cwd: Option<&PathBuf>,
    ra: Vec<PathBuf>,
    rb: Vec<PathBuf>,
)
    requires
        call_ensures(deduplicate_roots_from, (a, cwd), ra),
        call_ensures(deduplicate_roots_from, (b, cwd), rb),
        roots::input_roots(path::path_views(a@), directory_view(cwd)) == roots::input_roots(
            path::path_views(b@),
            directory_view(cwd),
        ),
    ensures
        path::path_views(ra@) == path::path_views(rb@),
{
    roots::root_list_unique(
        path::path_views(ra@),
        path::path_views(rb@),
        roots::input_roots(path::path_views(a@), directory_view(cwd)),
    );
}

/// Skipped roots are seen as the path and the error of each, and a directory that is known as its
/// bytes.
pub proof fn skipped_roots_are_pointwise(skipped: Seq<SkippedRoot>, dir: &PathBuf)
    ensures
        skipped_root_views(skipped).len() == skipped.len(),
        forall|i: int|
            0 <= i < skipped.len() ==> #[trigger] skipped_root_views(skipped)[i] == (
                skipped[i].path@,
                skipped[i].error,
            ),
        directory_view(Some(dir)) == Some(dir@),
        directory_view(None) is None,
{
}

} // verus!
