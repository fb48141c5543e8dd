//! The configuration: which directories go into which playlist.

use crate::db::Orientation;
use crate::path;
use crate::path::PathBuf;
use crate::text;
use vstd::prelude::*;
use vstd::utf8::*;

verus! {

/// One playlist: the directories whose videos it lists, and where it is written.
#[derive(Debug, Clone)]
pub struct ListItem {
    /// The directories; there is at least one.
    pub paths: Vec<PathBuf>,
    /// Path of the playlist file.
    pub m3u: PathBuf,
    /// Restricts the playlist to videos of this orientation.
    pub orientation: Option<Orientation>,
}

/// Playlists whose videos are reached below the same URL.
#[derive(Debug, Clone)]
pub struct Config {
    /// URL below which the videos are reached.
    pub head: String,
    /// Path prefix that the URL stands for.
    pub replace: String,
    /// The playlists.
    pub list: Vec<ListItem>,
}

/// The two forms in which the directories of a playlist may be written.
#[derive(Debug)]
pub enum PathList {
    /// A single path.
    One(String),
    /// An array of paths.
    Many(Vec<String>),
}

/// A list of directories without any element.
#[derive(Debug, Clone, Copy, PartialEq, Eq, Structural)]
pub struct EmptyPathList;

/// The paths that are written in a list of directories.
pub open spec fn written_paths(list: PathList) -> Seq<Seq<char>> {
    match list {
        PathList::One(t) => seq![t@],
        PathList::Many(ts) => text::text_views(ts@),
    }
}

/// The directories of a playlist: one, or all elements of an array, which must not be empty.
pub fn deserialize_path_list(list: PathList) -> (r: Result<Vec<PathBuf>, EmptyPathList>)
    ensures
        r is Err <==> written_paths(list).len() == 0,
        r matches Ok(paths) ==> paths.len() > 0,
        r matches Ok(paths) ==> path::path_views(paths@) == path::spelled_paths(written_paths(list)),
{
    let ghost expected = path::spelled_paths(written_paths(list));
    let mut out: Vec<PathBuf> = Vec::new();
    match list {
        PathList::One(t) => {
            out.push(PathBuf::from(t.as_str()));
            assert(path::path_views(out@) =~= expected);
        },
        PathList::Many(ts) => {
            let mut i: usize = 0;
            while i < ts.len()
                invariant
                    i <= ts.len(),
                    out.len() == i,
                    forall|k: int| 0 <= k < i ==> out@[k]@ == encode_utf8(#[trigger] ts@[k]@),
                decreases ts.len() - i,
            {
                out.push(PathBuf::from(ts[i].as_str()));
                i = i + 1;
            }
            if out.len() == 0 {
                return Err(EmptyPathList);
            }
            proof {
                assert forall|k: int| 0 <= k < out.len() implies path::path_views(out@)[k]
                    == expected[k] by {
                    assert(out@[k]@ == encode_utf8(ts@[k]@));
                }
            }
            assert(path::path_views(out@) =~= expected);
        },
    }
    Ok(out)
}

/// The directories of the playlists of one configuration, in order.
pub open spec fn list_paths(list: Seq<ListItem>) -> Seq<Seq<u8>>
    decreases list.len(),
{
    if list.len() == 0 {
        Seq::empty()
    } else {
        list_paths(list.drop_last()) + path::path_views(list.last().paths@)
    }
}

/// The directories of the playlists of all configurations, in order.
pub open spec fn config_paths(configs: Seq<Config>) -> Seq<Seq<u8>>
    decreases configs.len(),
{
    if configs.len() == 0 {
        Seq::empty()
    } else {
        config_paths(configs.drop_last()) + list_paths(configs.last().list@)
    }
}

/// Appends copies of `paths` to `out`.
fn append_paths(out: &mut Vec<PathBuf>, paths: &Vec<PathBuf>)
    ensures
        path::path_views(final(out)@) == path::path_views(old(out)@) + path::path_views(paths@),
{
    let mut i: usize = 0;
    assert(path::path_views(out@) + path::path_views(paths@).take(0) =~= path::path_views(out@));
    while i < paths.len()
        invariant
            i <= paths.len(),
            path::path_views(out@) == path::path_views(old(out)@) + path::path_views(
                paths@,
            ).take(i as int),
        decreases paths.len() - i,
    {
        let ghost before = out@;
        out.push(paths[i].clone());
        proof {
            let all = path::path_views(paths@);
            assert(all.take(i + 1) =~= all.take(i as int).push(paths@[i as int]@));
            assert(path::path_views(out@) =~= path::path_views(before).push(paths@[i as int]@));
            assert(path::path_views(out@) =~= path::path_views(old(out)@) + all.take(i + 1));
        }
        i = i + 1;
    }
    assert(path::path_views(paths@).take(i as int) =~= path::path_views(paths@));
}

/// The directories of all playlists, in the order in which they are written.
pub fn all_paths(configs: &Vec<Config>) -> (r: Vec<PathBuf>)
    ensures
        path::path_views(r@) == config_paths(configs@),
{
    let mut out: Vec<PathBuf> = Vec::new();
    let mut i: usize = 0;
    assert(path::path_views(out@) =~= Seq::empty());
    while i < configs.len()
        invariant
            i <= configs.len(),
            path::path_views(out@) == config_paths(configs@.take(i as int)),
        decreases configs.len() - i,
    {
        let list = &configs[i].list;
        let ghost start = path::path_views(out@);
        let mut j: usize = 0;
        assert(start + list_paths(list@.take(0)) =~= start);
        while j < list.len()
            invariant
                j <= list.len(),
                path::path_views(out@) == start + list_paths(list@.take(j as int)),
            decreases list.len() - j,
        {
            append_paths(&mut out, &list[j].paths);
            proof {
                assert(list@.take(j + 1).drop_last() =~= list@.take(j as int));
                assert(list@.take(j + 1).last() == list@[j as int]);
                assert(path::path_views(out@) =~= start + list_paths(list@.take(j + 1)));
            }
            j = j + 1;
        }
        proof {
            assert(list@.take(j as int) =~= list@);
            assert(configs@.take(i + 1).drop_last() =~= configs@.take(i as int));
            assert(configs@.take(i + 1).last() == configs@[i as int]);
        }
        i = i + 1;
    }
    assert(configs@.take(i as int) =~= configs@);
    out
}

/// A single path is a list of it; an array is a list of its elements.
pub proof fn written_paths_in_order(one: String, many: Vec<String>)
    ensures
        written_paths(PathList::One(one)) == seq![one@],
        written_paths(PathList::Many(many)).len() == many@.len(),
        forall|i: int|
            0 <= i < many@.len() ==> #[trigger] written_paths(PathList::Many(many))[i]
                == many@[i]@,
{
}

/// The directories of a playlist follow those of the playlists before it.
pub proof fn item_paths_follow(list: Seq<ListItem>, item: ListItem)
    ensures
        list_paths(Seq::<ListItem>::empty()).len() == 0,
        list_paths(list.push(item)).len() == list_paths(list).len() + item.paths@.len(),
        list_paths(list.push(item)).take(list_paths(list).len() as int) == list_paths(list),
        forall|k: int|
            0 <= k < item.paths@.len() ==> list_paths(list.push(item))[list_paths(list).len() + k]
                == (#[trigger] item.paths@[k])@,
{
    assert(list.push(item).drop_last() =~= list);
    assert(list_paths(list.push(item)).take(list_paths(list).len() as int) =~= list_paths(list));
    assert forall|k: int| 0 <= k < item.paths@.len() implies list_paths(
        list.push(item),
    )[list_paths(list).len() + k] == (#[trigger] item.paths@[k])@ by {
        assert(path::path_views(item.paths@)[k] == item.paths@[k]@);
    }
}

/// The directories of a configuration follow those of the configurations before it.
pub proof fn config_paths_follow(configs: Seq<Config>, config: Config)
    ensures
        config_paths(Seq::<Config>::empty()).len() == 0,
        config_paths(configs.push(config)) == config_paths(configs) + list_paths(config.list@),
{
    assert(configs.push(config).drop_last() =~= configs);
}

/// An array of paths is read as these paths in order, and refused exactly if it is empty.
pub proof fn read_path_list(many: Vec<String>, r: Result<Vec<PathBuf>, EmptyPathList>, i: int)
    requires
        call_ensures(deserialize_path_list, (PathList::Many(many),), r),
    ensures
        r is Err <==> many@.len() == 0,
        r matches Ok(paths) ==> paths@.len() == many@.len() && (0 <= i < many@.len()
            ==> paths@[i]@ == encode_utf8(many@[i]@)),
{
    if let Ok(paths) = r {
        assert(path::path_views(paths@).len() == paths@.len());
        if 0 <= i < many@.len() {
            assert(path::path_views(paths@)[i] == paths@[i]@);
        }
    }
}

/// A single path is read as a list of that path.
pub proof fn read_single_path(one: String, r: Result<Vec<PathBuf>, EmptyPathList>)
    requires
        call_ensures(deserialize_path_list, (PathList::One(one),), r),
    ensures
        r matches Ok(paths) && paths@.len() == 1 && paths@[0]@ == encode_utf8(one@),
{
    if let Ok(paths) = r {
        assert(path::path_views(paths@).len() == paths@.len());
        assert(path::path_views(paths@)[0] == paths@[0]@);
    }
}

proof fn lemma_list_paths_hold(list: Seq<ListItem>, j: int, k: int)
    requires
        0 <= j < list.len(),
        0 <= k < list[j].paths@.len(),
    ensures
        list_paths(list).contains(list[j].paths@[k]@),
    decreases list.len(),
{
    let init = list.drop_last();
    let less = list_paths(init);
    let last = path::path_views(list.last().paths@);
    if j < init.len() {
        lemma_list_paths_hold(init, j, k);
        let i = choose|i: int| 0 <= i < less.len() && less[i] == list[j].paths@[k]@;
        assert(list_paths(list)[i] == less[i]);
    } else {
        assert(last[k] == list[j].paths@[k]@);
        assert(list_paths(list)[less.len() + k] == last[k]);
    }
}

proof fn lemma_config_paths_hold(configs: Seq<Config>, i: int, j: int, k: int)
    requires
        0 <= i < configs.len(),
        0 <= j < configs[i].list@.len(),
        0 <= k < configs[i].list@[j].paths@.len(),
    ensures
        config_paths(configs).contains(configs[i].list@[j].paths@[k]@),
    decreases configs.len(),
{
    let p = configs[i].list@[j].paths@[k]@;
    let init = configs.drop_last();
    let less = config_paths(init);
    if i < init.len() {
        lemma_config_paths_hold(init, i, j, k);
        let m = choose|m: int| 0 <= m < less.len() && less[m] == p;
        assert(config_paths(configs)[m] == less[m]);
    } else {
        let last = list_paths(configs.last().list@);
        lemma_list_paths_hold(configs.last().list@, j, k);
        let m = choose|m: int| 0 <= m < last.len() && last[m] == p;
        assert(config_paths(configs)[less.len() + m] == last[m]);
    }
}

/// Every directory of every playlist of every configuration is among all paths.
pub proof fn every_directory_is_collected(
    configs: &Vec<Config>,
    r: Vec<PathBuf>,
    i: int,
    j: int,
    k: int,
)
    requires
        call_ensures(all_paths, (configs,), r),
        0 <= i < configs@.len(),
        0 <= j < configs@[i].list@.len(),
        0 <= k < configs@[i].list@[j].paths@.len(),
    ensures
        path::path_views(r@).contains(configs@[i].list@[j].paths@[k]@),
{
    lemma_config_paths_hold(configs@, i, j, k);
}

} // verus!
