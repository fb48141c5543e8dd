//! m3u playlists.

use crate::config::{Config, ListItem};
use crate::db;
use crate::db::{Orientation, OrientationMap};
use crate::path;
use crate::path::PathBuf;
use crate::path_laws;
use crate::path_set::PathSet;
use crate::roots;
use crate::scanner::resolved_directory;
use crate::text;
use crate::url;
use crate::url::{base_url, build_remote_url, encoding_set, UrlError};
use percent_encoding::AsciiSet;
use rand::rngs::ThreadRng;
use vstd::prelude::*;
use vstd::string::*;
use vstd::utf8::*;

verus! {

/// The first line of a playlist.
pub open spec fn header() -> Seq<char> {
    "#EXTM3U\n"@
}

/// The line before each URL of a playlist.
pub open spec fn entry_prefix() -> Seq<char> {
    "#EXTINF:-1,\n"@
}

/// The end of the line of a URL.
pub open spec fn line_end() -> Seq<char> {
    "\n"@
}

/// The content of a playlist of `urls`, in this order.
pub open spec fn playlist_text(urls: Seq<Seq<char>>) -> Seq<char>
    decreases urls.len(),
{
    if urls.len() == 0 {
        header()
    } else {
        playlist_text(urls.drop_last()) + entry_prefix() + urls.last() + line_end()
    }
}

/// Number of bytes of a playlist of `urls`.
pub open spec fn playlist_size(urls: Seq<Seq<char>>) -> nat
    decreases urls.len(),
{
    if urls.len() == 0 {
        encode_utf8(header()).len()
    } else {
        playlist_size(urls.drop_last()) + encode_utf8(entry_prefix()).len() + encode_utf8(
            urls.last(),
        ).len() + encode_utf8(line_end()).len()
    }
}

/// Encoding two texts one after the other is encoding them together.
pub proof fn encode_utf8_concat(a: Seq<char>, b: Seq<char>)
    ensures
        encode_utf8(a + b) == encode_utf8(a) + encode_utf8(b),
    decreases a.len(),
{
    if a.len() == 0 {
        assert(a + b =~= b);
        assert(encode_utf8(a) + encode_utf8(b) =~= encode_utf8(b));
    } else {
        encode_utf8_concat(a.drop_first(), b);
        assert((a + b).drop_first() =~= a.drop_first() + b);
        assert(encode_utf8(a + b) =~= encode_utf8(a) + encode_utf8(b));
    }
}

/// The size of a playlist is exactly the number of bytes of its content.
pub proof fn playlist_size_is_exact(urls: Seq<Seq<char>>)
    ensures
        encode_utf8(playlist_text(urls)).len() == playlist_size(urls),
    decreases urls.len(),
{
    if urls.len() > 0 {
        let init = playlist_text(urls.drop_last());
        playlist_size_is_exact(urls.drop_last());
        encode_utf8_concat(init, entry_prefix());
        encode_utf8_concat(init + entry_prefix(), urls.last());
        encode_utf8_concat(init + entry_prefix() + urls.last(), line_end());
    }
}

/// What playlists are made from.
pub struct Source {
    /// The videos.
    pub videos: Seq<Seq<u8>>,
    /// The orientations of videos by the components of their paths.
    pub orientations: Map<Seq<Seq<u8>>, Orientation>,
    /// The directory that the base URL stands for.
    pub replace: Seq<u8>,
    /// The URL below which the videos are reached, without a slash at its end.
    pub base_url: Seq<char>,
}

/// The video lies in one of the directories.
pub open spec fn in_directories(directories: Seq<Seq<u8>>, video: Seq<u8>) -> bool {
    exists|i: int| 0 <= i < directories.len() && roots::lies_in(#[trigger] directories[i], video)
}

/// The video has the orientation that the playlist is restricted to, if it is restricted. A video
/// whose orientation is not known has none.
pub open spec fn passes_filter(
    source: Source,
    orientation: Option<Orientation>,
    video: Seq<u8>,
) -> bool {
    orientation matches Some(wanted) ==> db::known_orientation(source.orientations, video) == Some(
        wanted,
    )
}

/// The URL under which a playlist of `directories` lists the video, if it does.
pub open spec fn listed_url(
    source: Source,
    directories: Seq<Seq<u8>>,
    orientation: Option<Orientation>,
    video: Seq<u8>,
) -> Option<Seq<char>> {
    if in_directories(directories, video) && passes_filter(source, orientation, video) {
        match url::remote_url(source.base_url, source.replace, video) {
            Ok(u) => Some(u),
            Err(_) => None,
        }
    } else {
        None
    }
}

/// The URLs of the videos that a playlist of `directories` lists, in the order of `videos`.
pub open spec fn listed_urls(
    source: Source,
    directories: Seq<Seq<u8>>,
    orientation: Option<Orientation>,
    videos: Seq<Seq<u8>>,
) -> Seq<Seq<char>>
    decreases videos.len(),
{
    if videos.len() == 0 {
        Seq::empty()
    } else {
        let init = listed_urls(source, directories, orientation, videos.drop_last());
        match listed_url(source, directories, orientation, videos.last()) {
            Some(u) => init.push(u),
            None => init,
        }
    }
}

/// The URLs of the playlist `item`, in the order of the videos.
pub open spec fn item_urls(source: Source, item: ListItem) -> Seq<Seq<char>> {
    listed_urls(source, path::path_views(item.paths@), item.orientation, source.videos)
}

/// Why a playlist of `directories` cannot list a video that belongs into it, if it cannot.
pub open spec fn listing_error(
    source: Source,
    directories: Seq<Seq<u8>>,
    orientation: Option<Orientation>,
    video: Seq<u8>,
) -> Option<UrlError> {
    if in_directories(directories, video) && passes_filter(source, orientation, video) {
        match url::remote_url(source.base_url, source.replace, video) {
            Ok(_) => None,
            Err(e) => Some(e),
        }
    } else {
        None
    }
}

/// The videos that belong into a playlist of `directories` and that it cannot list, each with its
/// error, in the order of `videos`.
pub open spec fn listing_errors(
    source: Source,
    directories: Seq<Seq<u8>>,
    orientation: Option<Orientation>,
    videos: Seq<Seq<u8>>,
) -> Seq<(Seq<u8>, UrlError)>
    decreases videos.len(),
{
    if videos.len() == 0 {
        Seq::empty()
    } else {
        let init = listing_errors(source, directories, orientation, videos.drop_last());
        match listing_error(source, directories, orientation, videos.last()) {
            Some(e) => init.push((videos.last(), e)),
            None => init,
        }
    }
}

/// The videos that the playlist `item` cannot list, each with its error.
pub open spec fn item_errors(source: Source, item: ListItem) -> Seq<(Seq<u8>, UrlError)> {
    listing_errors(source, path::path_views(item.paths@), item.orientation, source.videos)
}

/// A playlist has errors exactly if some video that belongs into it has no remote URL.
pub proof fn listing_errors_exist(
    source: Source,
    directories: Seq<Seq<u8>>,
    orientation: Option<Orientation>,
    videos: Seq<Seq<u8>>,
)
    ensures
        listing_errors(source, directories, orientation, videos).len() > 0 <==> exists|i: int|
            0 <= i < videos.len() && in_directories(directories, #[trigger] videos[i])
                && passes_filter(source, orientation, videos[i]) && url::remote_url(
                source.base_url,
                source.replace,
                videos[i],
            ) is Err,
    decreases videos.len(),
{
    if videos.len() > 0 {
        let init = videos.drop_last();
        listing_errors_exist(source, directories, orientation, init);
        if listing_errors(source, directories, orientation, init).len() > 0 {
            let i = choose|i: int|
                0 <= i < init.len() && in_directories(directories, #[trigger] init[i])
                    && passes_filter(source, orientation, init[i]) && url::remote_url(
                    source.base_url,
                    source.replace,
                    init[i],
                ) is Err;
            assert(videos[i] == init[i]);
        } else {
            assert forall|i: int|
                0 <= i < videos.len() && in_directories(directories, #[trigger] videos[i])
                    && passes_filter(source, orientation, videos[i]) && url::remote_url(
                    source.base_url,
                    source.replace,
                    videos[i],
                ) is Err implies i == videos.len() - 1 by {
                if i < init.len() {
                    assert(init[i] == videos[i]);
                }
            }
            if listing_error(source, directories, orientation, videos.last()) is Some {
                assert(videos[videos.len() - 1] == videos.last());
            }
        }
    }
}

/// Every video that belongs into a playlist is either listed or has an error, and no other one.
pub proof fn videos_are_listed_or_have_errors(
    source: Source,
    directories: Seq<Seq<u8>>,
    orientation: Option<Orientation>,
    videos: Seq<Seq<u8>>,
)
    ensures
        listed_urls(source, directories, orientation, videos).len() + listing_errors(
            source,
            directories,
            orientation,
            videos,
        ).len() == videos.filter(
            |v: Seq<u8>| in_directories(directories, v) && passes_filter(source, orientation, v),
        ).len(),
    decreases videos.len(),
{
    reveal(Seq::filter);
    if videos.len() > 0 {
        videos_are_listed_or_have_errors(source, directories, orientation, videos.drop_last());
    }
}

/// `content` lists each URL of the playlist `item` once for each video, in some order.
pub open spec fn is_playlist_of(content: Seq<char>, source: Source, item: ListItem) -> bool {
    exists|urls: Seq<Seq<char>>|
        urls.to_multiset() == item_urls(source, item).to_multiset() && content
            == #[trigger] playlist_text(urls)
}

/// What all playlists of a configuration share.
pub struct PlaylistContext<'a> {
    /// The videos.
    pub video_paths: &'a PathSet,
    /// The orientations of the videos.
    pub orientation_map: &'a OrientationMap,
    /// The directory that the base URL stands for.
    pub replace_path: &'a PathBuf,
    /// The URL below which the videos are reached, without a slash at its end.
    pub base_url: &'a str,
    /// The bytes to encode in URLs.
    pub encoding_set: &'static AsciiSet,
}

impl<'a> View for PlaylistContext<'a> {
    type V = Source;

    open spec fn view(&self) -> Source {
        Source {
            videos: self.video_paths@,
            orientations: self.orientation_map@,
            replace: self.replace_path@,
            base_url: self.base_url@,
        }
    }
}

/// The smaller of `n` and the largest `usize`.
pub open spec fn capped(n: nat) -> nat {
    if n <= usize::MAX {
        n
    } else {
        usize::MAX as nat
    }
}

impl<'a> PlaylistContext<'a> {
    /// The parts are well formed.
    pub open spec fn wf(&self) -> bool {
        &&& self.video_paths.wf()
        &&& self.orientation_map.wf()
        &&& url::ascii_set_bytes(*self.encoding_set) == url::needs_encoding()
    }

    /// Whether the playlist `item` lists the video as far as its directories and its orientation
    /// decide.
    fn accepts(&self, item: &ListItem, video: &PathBuf) -> (r: bool)
        requires
            self.wf(),
        ensures
            r == (in_directories(path::path_views(item.paths@), video@) && passes_filter(
                self@,
                item.orientation,
                video@,
            )),
    {
        let mut inside = false;
        let mut i: usize = 0;
        while i < item.paths.len()
            invariant
                i <= item.paths.len(),
                inside == exists|k: int|
                    0 <= k < i && roots::lies_in(
                        #[trigger] path::path_views(item.paths@)[k],
                        video@,
                    ),
            decreases item.paths.len() - i,
        {
            assert(path::path_views(item.paths@)[i as int] == item.paths@[i as int]@);
            if video.starts_with(&item.paths[i]) || video.starts_with(
                &resolved_directory(&item.paths[i]),
            ) {
                inside = true;
            }
            i = i + 1;
        }
        if !inside {
            return false;
        }
        match item.orientation {
            Some(wanted) => match self.orientation_map.get(video) {
                Some(known) => known == wanted,
                None => false,
            },
            None => true,
        }
    }

    /// The URLs of the playlist `item`, in the order of the videos, and the number of bytes of
    /// the playlist, as far as it fits. Videos without a remote URL are left out.
    pub fn collect_urls(&self, item: &ListItem) -> (r: (Vec<String>, usize))
        requires
            self.wf(),
        ensures
            text::text_views(r.0@) == item_urls(self@, *item),
            r.1 == capped(playlist_size(item_urls(self@, *item))),
    {
        let ghost directories = path::path_views(item.paths@);
        let mut urls: Vec<String> = Vec::new();
        let mut capacity: usize = "#EXTM3U\n".as_bytes().len();
        let mut i: usize = 0;
        assert(text::text_views(urls@) =~= Seq::empty());
        assert(self@.videos.take(0) =~= Seq::empty());
        while i < self.video_paths.len()
            invariant
                i <= self@.videos.len(),
                self.wf(),
                directories == path::path_views(item.paths@),
                text::text_views(urls@) == listed_urls(
                    self@,
                    directories,
                    item.orientation,
                    self@.videos.take(i as int),
                ),
                capacity == capped(playlist_size(text::text_views(urls@))),
            decreases self@.videos.len() - i,
        {
            let video = self.video_paths.get(i);
            proof {
                assert(self@.videos.take(i + 1).drop_last() =~= self@.videos.take(i as int));
                assert(self@.videos.take(i + 1).last() == video@);
            }
            if self.accepts(item, video) {
                match build_remote_url(
                    self.base_url,
                    self.replace_path,
                    video,
                    self.encoding_set,
                ) {
                    Ok(url) => {
                        let ghost before = text::text_views(urls@);
                        let prefix: usize = "#EXTINF:-1,\n".as_bytes().len();
                        let size: usize = url.as_str().as_bytes().len();
                        let end: usize = "\n".as_bytes().len();
                        capacity = capacity.saturating_add(prefix).saturating_add(
                            size,
                        ).saturating_add(end);
                        let ghost value = url@;
                        urls.push(url);
                        proof {
                            assert(text::text_views(urls@) =~= before.push(value));
                            assert(before.push(value).drop_last() =~= before);
                        }
                    },
                    Err(_) => {},
                }
            }
            i = i + 1;
        }
        assert(self@.videos.take(i as int) =~= self@.videos);
        (urls, capacity)
    }

    /// The videos that belong into the playlist `item` and that `collect_urls` leaves out, in the
    /// order of the videos, each with the error that `build_remote_url` gives for it.
    pub fn skipped_videos(&self, item: &ListItem) -> (r: Vec<SkippedVideo>)
        requires
            self.wf(),
        ensures
            skipped_video_views(r@) == item_errors(self@, *item),
    {
        let ghost directories = path::path_views(item.paths@);
        let mut out: Vec<SkippedVideo> = Vec::new();
        let mut i: usize = 0;
        assert(skipped_video_views(out@) =~= Seq::empty());
        assert(self@.videos.take(0) =~= Seq::empty());
        while i < self.video_paths.len()
            invariant
                i <= self@.videos.len(),
                self.wf(),
                directories == path::path_views(item.paths@),
                skipped_video_views(out@) == listing_errors(
                    self@,
                    directories,
                    item.orientation,
                    self@.videos.take(i as int),
                ),
            decreases self@.videos.len() - i,
        {
            let video = self.video_paths.get(i);
            proof {
                assert(self@.videos.take(i + 1).drop_last() =~= self@.videos.take(i as int));
                assert(self@.videos.take(i + 1).last() == video@);
            }
            if self.accepts(item, video) {
                match build_remote_url(
                    self.base_url,
                    self.replace_path,
                    video,
                    self.encoding_set,
                ) {
                    Ok(_) => {},
                    Err(error) => {
                        let ghost before = out@;
                        out.push(SkippedVideo { path: video.clone(), error });
                        assert(skipped_video_views(out@) =~= skipped_video_views(before).push(
                            (video@, error),
                        ));
                    },
                }
            }
            i = i + 1;
        }
        assert(self@.videos.take(i as int) =~= self@.videos);
        out
    }
}

/// A video that a playlist cannot list.
#[derive(Debug)]
pub struct SkippedVideo {
    /// Path of the video.
    pub path: PathBuf,
    /// Why it has no remote URL.
    pub error: UrlError,
}

/// The paths and errors of skipped videos.
pub open spec fn skipped_video_views(skipped: Seq<SkippedVideo>) -> Seq<(Seq<u8>, UrlError)> {
    skipped.map_values(|s: SkippedVideo| (s.path@, s.error))
}

/// `std::string::String::with_capacity` returns an empty string. A capacity beyond what an
/// allocation can have makes it panic.
pub assume_specification[ String::with_capacity ](capacity: usize) -> (r: String)
    requires
        capacity <= isize::MAX,
    ensures
        r@ == Seq::<char>::empty(),
;

/// The content of a playlist of `urls`. Memory for `capacity` bytes is allocated beforehand, if
/// an allocation can be that large.
pub fn render_playlist(urls: &Vec<String>, capacity: usize) -> (r: String)
    ensures
        r@ == playlist_text(text::text_views(urls@)),
{
    let ghost all = text::text_views(urls@);
    let mut content = if capacity <= isize::MAX as usize {
        String::with_capacity(capacity)
    } else {
        String::new()
    };
    content.append("#EXTM3U\n");
    let mut i: usize = 0;
    assert(content@ =~= playlist_text(all.take(0)));
    while i < urls.len()
        invariant
            i <= urls.len(),
            all == text::text_views(urls@),
            content@ == playlist_text(all.take(i as int)),
        decreases urls.len() - i,
    {
        proof {
            assert(all.take(i + 1).drop_last() =~= all.take(i as int));
            assert(all.take(i + 1).last() == urls@[i as int]@);
        }
        content.append("#EXTINF:-1,\n");
        content.append(urls[i].as_str());
        content.append("\n");
        i = i + 1;
    }
    assert(all.take(i as int) =~= all);
    content
}

/// The random number generator of the crate `rand` that belongs to a thread.
#[verifier::external_type_specification]
#[verifier::external_body]
pub struct ExThreadRng(rand::rngs::ThreadRng);

/// Calls `rand::rng`, which gives the random number generator of the thread. Nothing is stated
/// of the numbers that it will yield.
#[verifier::external_body]
fn thread_rng() -> (r: ThreadRng) {
    rand::rng()
}

/// Calls `rand::seq::SliceRandom::shuffle`, which puts the elements into a random order: they are
/// the same elements as before. Nothing is stated of the order.
#[verifier::external_body]
fn shuffle(urls: &mut Vec<String>, rng: &mut ThreadRng)
    ensures
        final(urls)@.to_multiset() == old(urls)@.to_multiset(),
{
    rand::seq::SliceRandom::shuffle(urls.as_mut_slice(), rng)
}

/// Strings in another order have their characters in another order.
proof fn lemma_text_multiset(a: Seq<String>, b: Seq<String>)
    requires
        a.to_multiset() == b.to_multiset(),
    ensures
        text::text_views(a).to_multiset() == text::text_views(b).to_multiset(),
    decreases a.len(),
{
    broadcast use {vstd::seq_lib::group_to_multiset_ensures, vstd::multiset::group_multiset_axioms};

    if a.len() == 0 {
        assert(b.len() == b.to_multiset().len());
        assert(text::text_views(a) =~= text::text_views(b));
    } else {
        let x = a.last();
        assert(a.contains(x));
        assert(b.to_multiset().contains(x));
        assert(b.contains(x));
        let k = choose|k: int| 0 <= k < b.len() && b[k] == x;
        let a1 = a.drop_last();
        let b1 = b.remove(k);
        assert(a =~= a1.push(x));
        assert(a1.to_multiset().insert(x) == a.to_multiset());
        assert(a1.to_multiset() =~= a.to_multiset().remove(x));
        assert(b1.to_multiset() =~= b.to_multiset().remove(x));
        lemma_text_multiset(a1, b1);
        let ta = text::text_views(a);
        let tb = text::text_views(b);
        assert(ta =~= text::text_views(a1).push(x@));
        assert(tb.remove(k) =~= text::text_views(b1));
        assert(tb[k] == x@);
        assert(tb.contains(x@));
        assert(ta.to_multiset() == text::text_views(a1).to_multiset().insert(x@));
        assert(tb.remove(k).to_multiset() =~= tb.to_multiset().remove(x@));
        assert(tb.to_multiset().contains(x@));
        assert(tb.to_multiset() =~= text::text_views(b1).to_multiset().insert(x@));
    }
}

/// The content of the playlist `item`, its URLs in random order. A video that belongs into it and
/// has no remote URL is an error; the first of them counts.
pub fn generate_single_playlist(
    item: &ListItem,
    ctx: &PlaylistContext,
    rng: &mut ThreadRng,
) -> (r: Result<String, UrlError>)
    requires
        ctx.wf(),
    ensures
        r is Err <==> exists|i: int|
            0 <= i < ctx@.videos.len() && in_directories(
                path::path_views(item.paths@),
                #[trigger] ctx@.videos[i],
            ) && passes_filter(ctx@, item.orientation, ctx@.videos[i]) && url::remote_url(
                ctx@.base_url,
                ctx@.replace,
                ctx@.videos[i],
            ) is Err,
        r is Err <==> item_errors(ctx@, *item).len() > 0,
        r matches Ok(content) ==> is_playlist_of(content@, ctx@, *item),
        r matches Err(e) ==> e == item_errors(ctx@, *item)[0].1,
{
    proof {
        listing_errors_exist(
            ctx@,
            path::path_views(item.paths@),
            item.orientation,
            ctx@.videos,
        );
    }
    let skipped = ctx.skipped_videos(item);
    if skipped.len() > 0 {
        assert(skipped_video_views(skipped@)[0].1 == skipped@[0].error);
        return Err(skipped[0].error);
    }
    let (mut urls, capacity) = ctx.collect_urls(item);
    let ghost before = urls@;
    shuffle(&mut urls, rng);
    proof {
        lemma_text_multiset(urls@, before);
    }
    Ok(render_playlist(&urls, capacity))
}

/// A playlist file to write.
#[derive(Debug)]
pub struct Playlist {
    /// Path of the file.
    pub m3u: PathBuf,
    /// Content of the file.
    pub content: String,
}

/// The path prefix `replace` as it is written where some video starts with it; otherwise as a scan
/// spells it.
pub open spec fn used_prefix(replace: Seq<u8>, videos: Seq<Seq<u8>>) -> Seq<u8> {
    if exists|i: int|
        0 <= i < videos.len() && path::path_starts_with(#[trigger] videos[i], replace) {
        replace
    } else {
        roots::resolved_directory(replace)
    }
}

/// A video that starts with the path prefix as it is written has the remote URL below that prefix.
pub proof fn written_prefix_counts(
    base_url: Seq<char>,
    replace: Seq<u8>,
    videos: Seq<Seq<u8>>,
    i: int,
)
    requires
        0 <= i < videos.len(),
        path::path_starts_with(videos[i], replace),
    ensures
        url::remote_url(base_url, used_prefix(replace, videos), videos[i]) == url::remote_url(
            base_url,
            replace,
            videos[i],
        ),
{
}

/// Picks the spelling of the path prefix that is removed from the paths of videos.
fn pick_prefix(replace: PathBuf, video_paths: &PathSet) -> (r: PathBuf)
    ensures
        r@ == used_prefix(replace@, video_paths@),
{
    let mut i: usize = 0;
    while i < video_paths.len()
        invariant
            i <= video_paths@.len(),
            forall|k: int|
                0 <= k < i ==> !path::path_starts_with(#[trigger] video_paths@[k], replace@),
        decreases video_paths@.len() - i,
    {
        if video_paths.get(i).starts_with(&replace) {
            assert(path::path_starts_with(video_paths@[i as int], replace@));
            return replace;
        }
        i = i + 1;
    }
    resolved_directory(&replace)
}

/// What the playlists of `config` are made from.
pub open spec fn config_source(
    config: Config,
    videos: Seq<Seq<u8>>,
    orientations: Map<Seq<Seq<u8>>, Orientation>,
) -> Source {
    Source {
        videos,
        orientations,
        replace: used_prefix(encode_utf8(config.replace@), videos),
        base_url: url::without_trailing_slashes(config.head@),
    }
}

/// `playlists` are the playlist files of the first items of `list`.
pub open spec fn are_first_playlists(
    playlists: Seq<Playlist>,
    source: Source,
    list: Seq<ListItem>,
) -> bool {
    &&& playlists.len() <= list.len()
    &&& forall|i: int|
        0 <= i < playlists.len() ==> (#[trigger] playlists[i]).m3u@ == list[i].m3u@
            && is_playlist_of(playlists[i].content@, source, list[i])
}

/// A playlist that cannot be made.
#[derive(Debug)]
pub struct FailedPlaylist {
    /// The playlist files before it, in order. They are to be written all the same.
    pub done: Vec<Playlist>,
    /// Path of the file that it was meant for.
    pub m3u: PathBuf,
    /// Why it cannot be made.
    pub error: UrlError,
    /// The videos that it cannot list.
    pub skipped: Vec<SkippedVideo>,
}

/// The playlist files of a configuration, in the order of its list, or the first of its items
/// that cannot be made into one.
pub fn generate_playlists(
    config: &Config,
    video_paths: &PathSet,
    orientation_map: &OrientationMap,
) -> (r: Result<Vec<Playlist>, FailedPlaylist>)
    requires
        video_paths.wf(),
        orientation_map.wf(),
    ensures
        r is Ok <==> forall|i: int|
            0 <= i < config.list.len() ==> item_errors(
                config_source(*config, video_paths@, orientation_map@),
                #[trigger] config.list@[i],
            ).len() == 0,
        r matches Ok(playlists) ==> playlists.len() == config.list.len() && are_first_playlists(
            playlists@,
            config_source(*config, video_paths@, orientation_map@),
            config.list@,
        ),
        r matches Err(failed) ==> {
            let source = config_source(*config, video_paths@, orientation_map@);
            let n = failed.done.len() as int;
            &&& n < config.list.len()
            &&& are_first_playlists(failed.done@, source, config.list@)
            &&& forall|i: int|
                0 <= i < n ==> item_errors(source, #[trigger] config.list@[i]).len() == 0
            &&& failed.m3u@ == config.list@[n].m3u@
            &&& skipped_video_views(failed.skipped@) == item_errors(source, config.list@[n])
            &&& failed.skipped.len() > 0
            &&& failed.error == failed.skipped@[0].error
        },
{
    let mut rng = thread_rng();
    let replace_path = pick_prefix(PathBuf::from(config.replace.as_str()), video_paths);
    let ctx = PlaylistContext {
        video_paths,
        orientation_map,
        replace_path: &replace_path,
        base_url: base_url(config.head.as_str()),
        encoding_set: encoding_set(),
    };
    let mut out: Vec<Playlist> = Vec::new();
    let mut i: usize = 0;
    while i < config.list.len()
        invariant
            i <= config.list.len(),
            out.len() == i,
            ctx.wf(),
            ctx@ == config_source(*config, video_paths@, orientation_map@),
            are_first_playlists(out@, ctx@, config.list@),
            forall|k: int|
                0 <= k < i ==> item_errors(ctx@, #[trigger] config.list@[k]).len() == 0,
        decreases config.list.len() - i,
    {
        let item = &config.list[i];
        match generate_single_playlist(item, &ctx, &mut rng) {
            Ok(content) => {
                out.push(Playlist { m3u: item.m3u.clone(), content });
            },
            Err(error) => {
                let skipped = ctx.skipped_videos(item);
                assert(skipped_video_views(skipped@)[0].1 == skipped@[0].error);
                return Err(FailedPlaylist { done: out, m3u: item.m3u.clone(), error, skipped });
            },
        }
        i = i + 1;
    }
    Ok(out)
}

/// Of videos whose orientation is known, those of a playlist are those of the horizontal one and
/// those of the vertical one.
pub proof fn orientations_partition_playlist(
    source: Source,
    directories: Seq<Seq<u8>>,
    videos: Seq<Seq<u8>>,
)
    requires
        forall|i: int|
            0 <= i < videos.len() ==> db::known_orientation(
                source.orientations,
                #[trigger] videos[i],
            ) is Some,
    ensures
        listed_urls(source, directories, None, videos).to_multiset() == listed_urls(
            source,
            directories,
            Some(Orientation::Horizontal),
            videos,
        ).to_multiset().add(
            listed_urls(source, directories, Some(Orientation::Vertical), videos).to_multiset(),
        ),
    decreases videos.len(),
{
    broadcast use {vstd::seq_lib::group_to_multiset_ensures, vstd::multiset::group_multiset_axioms};

    let h = Some(Orientation::Horizontal);
    let v = Some(Orientation::Vertical);
    let all = listed_urls(source, directories, None, videos);
    let hs = listed_urls(source, directories, h, videos);
    let vs = listed_urls(source, directories, v, videos);
    if videos.len() == 0 {
        assert(all.to_multiset() =~= hs.to_multiset().add(vs.to_multiset()));
    } else {
        let init = videos.drop_last();
        assert forall|i: int| 0 <= i < init.len() implies db::known_orientation(
            source.orientations,
            #[trigger] init[i],
        ) is Some by {
            assert(init[i] == videos[i]);
        }
        orientations_partition_playlist(source, directories, init);
        assert(db::known_orientation(source.orientations, videos.last()) is Some);
        assert(all.to_multiset() =~= hs.to_multiset().add(vs.to_multiset()));
    }
}

/// The size of a playlist does not depend on the order of its URLs.
pub proof fn playlist_size_of_permutation(a: Seq<Seq<char>>, b: Seq<Seq<char>>)
    requires
        a.to_multiset() == b.to_multiset(),
    ensures
        playlist_size(a) == playlist_size(b),
    decreases a.len(),
{
    broadcast use {vstd::seq_lib::group_to_multiset_ensures, vstd::multiset::group_multiset_axioms};

    assert(a.len() == b.len()) by {
        assert(a.len() == a.to_multiset().len());
        assert(b.len() == b.to_multiset().len());
    }
    if a.len() > 0 {
        let x = a.last();
        assert(a.contains(x));
        assert(b.to_multiset().count(x) > 0);
        assert(b.contains(x));
        let k = choose|k: int| 0 <= k < b.len() && b[k] == x;
        let a1 = a.drop_last();
        assert(a =~= a1.push(x));
        assert(a1.to_multiset() =~= a.to_multiset().remove(x));
        assert(b.remove(k).to_multiset() =~= b.to_multiset().remove(x));
        playlist_size_of_permutation(a1, b.remove(k));
        lemma_playlist_size_remove(b, k);
    }
}

proof fn lemma_playlist_size_remove(urls: Seq<Seq<char>>, k: int)
    requires
        0 <= k < urls.len(),
    ensures
        playlist_size(urls) == playlist_size(urls.remove(k)) + encode_utf8(entry_prefix()).len()
            + encode_utf8(urls[k]).len() + encode_utf8(line_end()).len(),
    decreases urls.len(),
{
    if k == urls.len() - 1 {
        assert(urls.remove(k) =~= urls.drop_last());
    } else {
        lemma_playlist_size_remove(urls.drop_last(), k);
        assert(urls.remove(k).drop_last() =~= urls.drop_last().remove(k));
        assert(urls.remove(k).last() == urls.last());
    }
}

/// A playlist has exactly the size that was computed before its URLs were put in random order.
pub proof fn shuffled_playlist_size(content: Seq<char>, source: Source, item: ListItem)
    requires
        is_playlist_of(content, source, item),
    ensures
        encode_utf8(content).len() == playlist_size(item_urls(source, item)),
{
    let urls = choose|urls: Seq<Seq<char>>|
        urls.to_multiset() == item_urls(source, item).to_multiset() && content
            == #[trigger] playlist_text(urls);
    playlist_size_is_exact(urls);
    playlist_size_of_permutation(urls, item_urls(source, item));
}

/// A playlist without URLs is its first line; one more URL adds the line before it and its own.
pub proof fn lines_of_playlist(urls: Seq<Seq<char>>, u: Seq<char>)
    ensures
        playlist_text(Seq::<Seq<char>>::empty()) == "#EXTM3U\n"@,
        playlist_text(urls.push(u)) == playlist_text(urls) + "#EXTINF:-1,\n"@ + u + "\n"@,
{
    assert(urls.push(u).drop_last() =~= urls);
}

proof fn lemma_playlist_holds_entry(urls: Seq<Seq<char>>, k: int) -> (at: (int, int))
    requires
        0 <= k < urls.len(),
    ensures
        0 <= at.0 <= at.1 <= playlist_text(urls).len(),
        playlist_text(urls).subrange(at.0, at.1) == "#EXTINF:-1,\n"@ + urls[k] + "\n"@,
    decreases urls.len(),
{
    let init = playlist_text(urls.drop_last());
    let all = playlist_text(urls);
    if k == urls.len() - 1 {
        let at = (init.len() as int, all.len() as int);
        assert(all.subrange(at.0, at.1) =~= "#EXTINF:-1,\n"@ + urls[k] + "\n"@);
        at
    } else {
        let at = lemma_playlist_holds_entry(urls.drop_last(), k);
        assert(all.subrange(at.0, at.1) =~= init.subrange(at.0, at.1));
        at
    }
}

proof fn lemma_playlist_header(urls: Seq<Seq<char>>)
    ensures
        "#EXTM3U\n"@.is_prefix_of(playlist_text(urls)),
    decreases urls.len(),
{
    let h = "#EXTM3U\n"@;
    if urls.len() > 0 {
        lemma_playlist_header(urls.drop_last());
        let init = playlist_text(urls.drop_last());
        assert(h =~= playlist_text(urls).subrange(0, h.len() as int)) by {
            assert(h =~= init.subrange(0, h.len() as int));
        }
    } else {
        assert(h =~= playlist_text(urls).subrange(0, h.len() as int));
    }
}

/// A playlist starts with its first line and holds an entry for each of its URLs.
pub proof fn playlist_holds_entries(content: Seq<char>, source: Source, item: ListItem, k: int)
    requires
        is_playlist_of(content, source, item),
        0 <= k < item_urls(source, item).len(),
    ensures
        "#EXTM3U\n"@.is_prefix_of(content),
        exists|i: int, j: int|
            0 <= i <= j <= content.len() && #[trigger] content.subrange(i, j) == "#EXTINF:-1,\n"@
                + item_urls(source, item)[k] + "\n"@,
{
    broadcast use vstd::seq_lib::group_to_multiset_ensures;

    let wanted = item_urls(source, item);
    let urls = choose|urls: Seq<Seq<char>>|
        urls.to_multiset() == wanted.to_multiset() && content == #[trigger] playlist_text(urls);
    lemma_playlist_header(urls);
    assert(wanted.contains(wanted[k]));
    assert(wanted.to_multiset().count(wanted[k]) > 0);
    assert(urls.contains(wanted[k]));
    let m = choose|m: int| 0 <= m < urls.len() && urls[m] == wanted[k];
    let at = lemma_playlist_holds_entry(urls, m);
    assert(content.subrange(at.0, at.1) == "#EXTINF:-1,\n"@ + wanted[k] + "\n"@);
}

/// A video belongs into a playlist if the components of one of its directories, as it is written
/// or with `..` resolved, are its own first components, and if it has the orientation that the
/// playlist is restricted to. Then its URL is listed, or the error reported that it has instead.
pub proof fn videos_of_playlist(
    source: Source,
    directories: Seq<Seq<u8>>,
    orientation: Option<Orientation>,
    video: Seq<u8>,
)
    ensures
        in_directories(directories, video) ==> exists|i: int|
            0 <= i < directories.len() && (path::components(
                #[trigger] directories[i],
            ).is_prefix_of(path::components(video)) || (path::is_absolute(directories[i])
                && roots::rooted(roots::resolve(path::components(directories[i]))).is_prefix_of(
                path::components(video),
            ))),
        forall|i: int|
            0 <= i < directories.len() && path::components(#[trigger] directories[i]).is_prefix_of(
                path::components(video),
            ) ==> in_directories(directories, video),
        orientation is None ==> passes_filter(source, orientation, video),
        orientation matches Some(wanted) ==> (passes_filter(source, orientation, video) <==> (
        source.orientations.dom().contains(path::components(video))
            && source.orientations[path::components(video)] == wanted)),
        listed_url(source, directories, orientation, video) is Some || listing_error(
            source,
            directories,
            orientation,
            video,
        ) is Some <==> in_directories(directories, video) && passes_filter(
            source,
            orientation,
            video,
        ),
        listed_url(source, directories, orientation, video) matches Some(u) ==> url::remote_url(
            source.base_url,
            source.replace,
            video,
        ) == Ok::<Seq<char>, UrlError>(u),
        listing_error(source, directories, orientation, video) matches Some(e) ==> url::remote_url(
            source.base_url,
            source.replace,
            video,
        ) == Err::<Seq<char>, UrlError>(e),
{
    if in_directories(directories, video) {
        let i = choose|i: int|
            0 <= i < directories.len() && roots::lies_in(#[trigger] directories[i], video);
        roots::lies_in_whole_components(directories[i], video);
    }
    assert forall|i: int|
        0 <= i < directories.len() && path::components(#[trigger] directories[i]).is_prefix_of(
            path::components(video),
        ) implies in_directories(directories, video) by {
        roots::lies_in_whole_components(directories[i], video);
    }
}

/// What is below a directory next to the only directory of a playlist is not listed by it, however
/// much the two names have in common.
pub proof fn sibling_directory_is_not_listed(
    source: Source,
    parent: Seq<Seq<u8>>,
    a: Seq<u8>,
    b: Seq<u8>,
    orientation: Option<Orientation>,
    video: Seq<u8>,
)
    requires
        roots::are_names(parent),
        path::is_name(a),
        path::is_name(b),
        a != b,
        path::path_starts_with(video, roots::root_path(parent.push(b))),
    ensures
        listed_url(source, seq![roots::root_path(parent.push(a))], orientation, video) is None,
        listing_error(source, seq![roots::root_path(parent.push(a))], orientation, video) is None,
{
    roots::siblings_are_apart(parent, a, b, video);
}

/// Videos are listed, or reported, one after the other, independently of each other.
pub proof fn videos_are_listed_in_order(
    source: Source,
    directories: Seq<Seq<u8>>,
    orientation: Option<Orientation>,
    videos: Seq<Seq<u8>>,
    video: Seq<u8>,
)
    ensures
        listed_urls(source, directories, orientation, Seq::<Seq<u8>>::empty()).len() == 0,
        listing_errors(source, directories, orientation, Seq::<Seq<u8>>::empty()).len() == 0,
        listed_urls(source, directories, orientation, videos.push(video)) == listed_urls(
            source,
            directories,
            orientation,
            videos,
        ) + (match listed_url(source, directories, orientation, video) {
            Some(u) => seq![u],
            None => Seq::<Seq<char>>::empty(),
        }),
        listing_errors(source, directories, orientation, videos.push(video)) == listing_errors(
            source,
            directories,
            orientation,
            videos,
        ) + (match listing_error(source, directories, orientation, video) {
            Some(e) => seq![(video, e)],
            None => Seq::<(Seq<u8>, UrlError)>::empty(),
        }),
{
    assert(videos.push(video).drop_last() =~= videos);
    assert(listed_urls(source, directories, orientation, videos.push(video)) =~= listed_urls(
        source,
        directories,
        orientation,
        videos,
    ) + (match listed_url(source, directories, orientation, video) {
        Some(u) => seq![u],
        None => Seq::<Seq<char>>::empty(),
    }));
    assert(listing_errors(source, directories, orientation, videos.push(video)) =~= listing_errors(
        source,
        directories,
        orientation,
        videos,
    ) + (match listing_error(source, directories, orientation, video) {
        Some(e) => seq![(video, e)],
        None => Seq::<(Seq<u8>, UrlError)>::empty(),
    }));
}

/// The playlists of a configuration are made from all videos and orientations, the head without
/// the slashes at its end, and the path prefix: as it is written where some video starts with it,
/// otherwise the same directory with `..` resolved. All items share them.
pub proof fn source_of_configuration(
    config: Config,
    videos: Seq<Seq<u8>>,
    orientations: Map<Seq<Seq<u8>>, Orientation>,
    item: ListItem,
)
    ensures
        ({
            let source = config_source(config, videos, orientations);
            let head = config.head@;
            let base = source.base_url;
            let written = encode_utf8(config.replace@);
            &&& source.videos == videos
            &&& source.orientations == orientations
            &&& base.is_prefix_of(head)
            &&& base.len() == 0 || base[base.len() - 1] != '/'
            &&& forall|i: int| base.len() <= i < head.len() ==> head[i] == '/'
            &&& (exists|i: int|
                0 <= i < videos.len() && path::components(written).is_prefix_of(
                    path::components(#[trigger] videos[i]),
                )) ==> source.replace == written
            &&& !(written.len() > 0 && written[0] == 0x2f) ==> source.replace == written
            &&& written.len() > 0 && written[0] == 0x2f && (forall|i: int|
                0 <= i < videos.len() ==> !path::components(written).is_prefix_of(
                    path::components(#[trigger] videos[i]),
                )) ==> path::components(source.replace) == roots::rooted(
                roots::resolve(path::components(written)),
            )
            &&& item_urls(source, item) == listed_urls(
                source,
                path::path_views(item.paths@),
                item.orientation,
                videos,
            )
            &&& item_errors(source, item) == listing_errors(
                source,
                path::path_views(item.paths@),
                item.orientation,
                videos,
            )
        }),
{
    url::no_trailing_slashes_left(config.head@);
    let written = encode_utf8(config.replace@);
    roots::resolved_directory_components(written);
    if exists|i: int|
        0 <= i < videos.len() && path::components(written).is_prefix_of(
            path::components(#[trigger] videos[i]),
        ) {
        let i = choose|i: int|
            0 <= i < videos.len() && path::components(written).is_prefix_of(
                path::components(#[trigger] videos[i]),
            );
        assert(path::path_starts_with(videos[i], written));
    }
}

/// Below the path prefix of a configuration, a video at a path of names has the head, a slash and
/// the encoding of that path as its URL.
pub proof fn url_below_prefix(config: Config, videos: Seq<Seq<u8>>, r: Seq<u8>)
    requires
        path_laws::is_trimmed(r),
        valid_utf8(r),
        videos.contains(path::path_join(encode_utf8(config.replace@), r)),
    ensures
        url::remote_url(
            url::without_trailing_slashes(config.head@),
            used_prefix(encode_utf8(config.replace@), videos),
            path::path_join(encode_utf8(config.replace@), r),
        ) == Ok::<Seq<char>, UrlError>(
            url::without_trailing_slashes(config.head@) + seq!['/'] + url::percent_encoded(
                r,
                url::needs_encoding(),
            ),
        ),
{
    let written = encode_utf8(config.replace@);
    let video = path::path_join(written, r);
    let i = choose|i: int| 0 <= i < videos.len() && videos[i] == video;
    path_laws::join_then_strip_prefix(written, r);
    assert(path::path_starts_with(videos[i], written));
    url::remote_url_of_joined(url::without_trailing_slashes(config.head@), written, r);
}

/// A written playlist of one more URL is the playlist before it, followed by the entry of that URL.
pub proof fn rendered_entry(
    urls: &Vec<String>,
    more: &Vec<String>,
    u: String,
    c: usize,
    d: usize,
    x: String,
    y: String,
)
    requires
        more@ == urls@.push(u),
        call_ensures(render_playlist, (urls, c), x),
        call_ensures(render_playlist, (more, d), y),
    ensures
        "#EXTM3U\n"@.is_prefix_of(x@),
        y@ == x@ + "#EXTINF:-1,\n"@ + u@ + "\n"@,
{
    lines_of_playlist(text::text_views(urls@), u@);
    lemma_playlist_header(text::text_views(urls@));
    assert(text::text_views(more@) =~= text::text_views(urls@).push(u@));
}

proof fn lemma_listed_url_is_held(
    source: Source,
    directories: Seq<Seq<u8>>,
    orientation: Option<Orientation>,
    videos: Seq<Seq<u8>>,
    k: int,
) -> (at: int)
    requires
        0 <= k < videos.len(),
        listed_url(source, directories, orientation, videos[k]) is Some,
    ensures
        0 <= at < listed_urls(source, directories, orientation, videos).len(),
        Some(listed_urls(source, directories, orientation, videos)[at]) == listed_url(
            source,
            directories,
            orientation,
            videos[k],
        ),
    decreases videos.len(),
{
    let init = videos.drop_last();
    if k < init.len() {
        lemma_listed_url_is_held(source, directories, orientation, init, k)
    } else {
        listed_urls(source, directories, orientation, init).len() as int
    }
}

/// Each playlist goes to the file of its item and holds an entry for every video that lies in one
/// of its directories and has its orientation. The URL in it is the head without slashes at its
/// end, a slash and the encoding of what was joined onto the path prefix.
pub proof fn generated_playlist_holds_video(
    config: &Config,
    video_paths: &PathSet,
    orientation_map: &OrientationMap,
    r: Result<Vec<Playlist>, FailedPlaylist>,
    playlists: Vec<Playlist>,
    i: int,
    d: int,
    k: int,
    rest: Seq<u8>,
)
    requires
        call_ensures(generate_playlists, (config, video_paths, orientation_map), r),
        r == Ok::<Vec<Playlist>, FailedPlaylist>(playlists),
        0 <= i < config.list@.len(),
        0 <= d < config.list@[i].paths@.len(),
        0 <= k < video_paths@.len(),
        path::components(config.list@[i].paths@[d]@).is_prefix_of(
            path::components(video_paths@[k]),
        ),
        config.list@[i].orientation matches Some(wanted) ==> orientation_map@.dom().contains(
            path::components(video_paths@[k]),
        ) && orientation_map@[path::components(video_paths@[k])] == wanted,
        path_laws::is_trimmed(rest),
        valid_utf8(rest),
        video_paths@[k] == path::path_join(encode_utf8(config.replace@), rest),
    ensures
        playlists@.len() == config.list@.len(),
        playlists@[i].m3u@ == config.list@[i].m3u@,
        exists|a: int, b: int|
            0 <= a <= b <= playlists@[i].content@.len() && #[trigger] playlists@[i].content@.subrange(
                a,
                b,
            ) == "#EXTINF:-1,\n"@ + (url::without_trailing_slashes(config.head@) + seq!['/']
                + url::percent_encoded(rest, url::needs_encoding())) + "\n"@,
{
    let source = config_source(*config, video_paths@, orientation_map@);
    let item = config.list@[i];
    let directories = path::path_views(item.paths@);
    assert(directories[d] == item.paths@[d]@);
    videos_of_playlist(source, directories, item.orientation, video_paths@[k]);
    assert(video_paths@.contains(video_paths@[k]));
    url_below_prefix(*config, video_paths@, rest);
    let at = lemma_listed_url_is_held(source, directories, item.orientation, video_paths@, k);
    assert(playlists@[i].m3u@ == item.m3u@);
    playlist_holds_entries(playlists@[i].content@, source, item, at);
}

/// A number that fits is not changed by capping it, and any other one becomes the largest that
/// fits.
pub proof fn capped_numbers(n: nat)
    ensures
        n <= usize::MAX ==> capped(n) == n,
        n > usize::MAX ==> capped(n) == usize::MAX,
{
}

/// The first playlists of a list are one for each of its first items, at the file of that item.
pub proof fn playlists_of_first_items(
    playlists: Seq<Playlist>,
    source: Source,
    list: Seq<ListItem>,
    i: int,
)
    requires
        are_first_playlists(playlists, source, list),
        0 <= i < playlists.len(),
    ensures
        playlists.len() <= list.len(),
        playlists[i].m3u@ == list[i].m3u@,
        exists|urls: Seq<Seq<char>>|
            urls.to_multiset() == item_urls(source, list[i]).to_multiset() && playlists[i].content@
                == #[trigger] playlist_text(urls),
{
    assert(playlists[i].m3u@ == list[i].m3u@);
}

/// Skipped videos are seen as the path and the error of each.
pub proof fn skipped_videos_are_pointwise(skipped: Seq<SkippedVideo>)
    ensures
        skipped_video_views(skipped).len() == skipped.len(),
        forall|i: int|
            0 <= i < skipped.len() ==> #[trigger] skipped_video_views(skipped)[i] == (
                skipped[i].path@,
                skipped[i].error,
            ),
{
}

} // verus!
