//! Sets of paths, kept as sorted vectors.
//!
//! Paths stand in the order of their number of components, and among those with as many, in the
//! lexicographic order of the components. A parent directory thus comes before what it holds.

use crate::order;
use crate::order::{compare_lists, Relation};
use crate::path;
use crate::path::{split_components, PathBuf};
use vstd::prelude::*;

verus! {

/// The component list `a` comes strictly before `b`.
pub open spec fn path_before(a: Seq<Seq<u8>>, b: Seq<Seq<u8>>) -> bool {
    a.len() < b.len() || (a.len() == b.len() && order::list_before(a, b))
}

/// The paths of `s` stand in strictly ascending order, so no two of them are equal.
pub open spec fn sorted_paths(s: Seq<Seq<u8>>) -> bool {
    forall|i: int, j: int|
        0 <= i < j < s.len() ==> path_before(
            path::components(#[trigger] s[i]),
            path::components(#[trigger] s[j]),
        )
}

/// The component lists of the paths of `s`.
pub open spec fn path_keys(s: Seq<Seq<u8>>) -> Set<Seq<Seq<u8>>> {
    Set::new(
        |key: Seq<Seq<u8>>| exists|i: int| 0 <= i < s.len() && path::components(#[trigger] s[i]) == key,
    )
}

/// `s` holds a path equal to `p`.
pub open spec fn has_path(s: Seq<Seq<u8>>, p: Seq<u8>) -> bool {
    path_keys(s).contains(path::components(p))
}

/// No list comes before itself.
pub proof fn path_before_irreflexive(a: Seq<Seq<u8>>)
    ensures
        !path_before(a, a),
{
    order::list_before_irreflexive(a);
}

/// Of two different lists one comes before the other.
pub proof fn path_before_total(a: Seq<Seq<u8>>, b: Seq<Seq<u8>>)
    ensures
        path_before(a, b) || a == b || path_before(b, a),
{
    order::list_before_total(a, b);
}

/// The order of paths is transitive.
pub proof fn path_before_transitive(a: Seq<Seq<u8>>, b: Seq<Seq<u8>>, c: Seq<Seq<u8>>)
    requires
        path_before(a, b),
        path_before(b, c),
    ensures
        path_before(a, c),
{
    if a.len() == b.len() && b.len() == c.len() {
        order::list_before_transitive(a, b, c);
    }
}

/// A sorted sequence has its own paths at no two places.
pub proof fn sorted_paths_distinct(s: Seq<Seq<u8>>, i: int, j: int)
    requires
        sorted_paths(s),
        0 <= i < s.len(),
        0 <= j < s.len(),
        path::components(s[i]) == path::components(s[j]),
    ensures
        i == j,
{
    path_before_irreflexive(path::components(s[i]));
}

/// Two sorted sequences with the same keys have the same keys at the same places.
pub proof fn sorted_paths_unique(a: Seq<Seq<u8>>, b: Seq<Seq<u8>>)
    requires
        sorted_paths(a),
        sorted_paths(b),
        path_keys(a) == path_keys(b),
    ensures
        a.len() == b.len(),
        forall|i: int|
            0 <= i < a.len() ==> path::components(#[trigger] a[i]) == path::components(b[i]),
    decreases a.len(),
{
    if a.len() == 0 {
        if b.len() > 0 {
            assert(path_keys(b).contains(path::components(b[0])));
            assert(path_keys(a).contains(path::components(b[0])));
        }
    } else {
        let x = a.last();
        assert(path_keys(a).contains(path::components(x)));
        let j = choose|j: int| 0 <= j < b.len() && path::components(#[trigger] b[j]) == path::components(x);
        let y = b.last();
        assert(path_keys(b).contains(path::components(y)));
        let i = choose|i: int| 0 <= i < a.len() && path::components(#[trigger] a[i]) == path::components(y);
        assert(path::components(x) == path::components(y)) by {
            if path::components(x) != path::components(y) {
                assert(j != b.len() - 1 && i != a.len() - 1);
                path_before_transitive(
                    path::components(x),
                    path::components(y),
                    path::components(x),
                );
                path_before_irreflexive(path::components(x));
            }
        }
        let a1 = a.drop_last();
        let b1 = b.drop_last();
        assert forall|k: Seq<Seq<u8>>| path_keys(a1).contains(k) == path_keys(b1).contains(k) by {
            if path_keys(a1).contains(k) {
                let i = choose|i: int| 0 <= i < a1.len() && path::components(#[trigger] a1[i]) == k;
                assert(a[i] == a1[i]);
                assert(path_keys(a).contains(k));
                let j = choose|j: int| 0 <= j < b.len() && path::components(#[trigger] b[j]) == k;
                if j == b.len() - 1 {
                    sorted_paths_distinct(a, i, a.len() - 1);
                }
                assert(b1[j] == b[j]);
            }
            if path_keys(b1).contains(k) {
                let j = choose|j: int| 0 <= j < b1.len() && path::components(#[trigger] b1[j]) == k;
                assert(b[j] == b1[j]);
                assert(path_keys(b).contains(k));
                let i = choose|i: int| 0 <= i < a.len() && path::components(#[trigger] a[i]) == k;
                if i == a.len() - 1 {
                    sorted_paths_distinct(b, j, b.len() - 1);
                }
                assert(a1[i] == a[i]);
            }
        }
        assert(path_keys(a1) =~= path_keys(b1));
        sorted_paths_unique(a1, b1);
        assert forall|i: int| 0 <= i < a.len() implies path::components(#[trigger] a[i])
            == path::components(b[i]) by {
            if i < a.len() - 1 {
                assert(a1[i] == a[i]);
                assert(b1[i] == b[i]);
            }
        }
    }
}

/// Inserting a path between smaller and greater ones keeps the order and adds its key.
pub(crate) proof fn sorted_paths_insert(s: Seq<Seq<u8>>, k: int, p: Seq<u8>)
    requires
        sorted_paths(s),
        0 <= k <= s.len(),
        forall|i: int|
            0 <= i < k ==> path_before(path::components(#[trigger] s[i]), path::components(p)),
        forall|i: int|
            k <= i < s.len() ==> path_before(path::components(p), path::components(#[trigger] s[i])),
    ensures
        sorted_paths(s.insert(k, p)),
        path_keys(s.insert(k, p)) == path_keys(s).insert(path::components(p)),
{
    let t = s.insert(k, p);
    assert forall|i: int, j: int| 0 <= i < j < t.len() implies path_before(
        path::components(#[trigger] t[i]),
        path::components(#[trigger] t[j]),
    ) by {
        let si = if i < k { i } else { i - 1 };
        let sj = if j < k { j } else { j - 1 };
        if i != k {
            assert(t[i] == s[si]);
        }
        if j != k {
            assert(t[j] == s[sj]);
        }
    }
    assert forall|key: Seq<Seq<u8>>|
        path_keys(t).contains(key) == path_keys(s).insert(path::components(p)).contains(key) by {
        if path_keys(t).contains(key) {
            let i = choose|i: int| 0 <= i < t.len() && path::components(#[trigger] t[i]) == key;
            if i < k {
                assert(t[i] == s[i]);
            } else if i > k {
                assert(t[i] == s[i - 1]);
            }
        }
        if path_keys(s).contains(key) {
            let i = choose|i: int| 0 <= i < s.len() && path::components(#[trigger] s[i]) == key;
            if i < k {
                assert(t[i] == s[i]);
            } else {
                assert(t[i + 1] == s[i]);
            }
        }
        if key == path::components(p) {
            assert(t[k] == p);
        }
    }
    assert(path_keys(t) =~= path_keys(s).insert(path::components(p)));
}

/// Path `j` is the first of `paths` that equals it.
pub open spec fn is_first_at(paths: Seq<Seq<u8>>, j: int) -> bool {
    &&& 0 <= j < paths.len()
    &&& forall|k: int|
        0 <= k < j ==> path::components(#[trigger] paths[k]) != path::components(paths[j])
}

/// `p` is spelled as the first of `paths` that equals it.
pub open spec fn is_first_spelling(paths: Seq<Seq<u8>>, p: Seq<u8>) -> bool {
    exists|j: int| #[trigger] is_first_at(paths, j) && paths[j] == p
}

/// `set` holds `paths`, in ascending order, each spelled as where it occurs first.
pub open spec fn is_set_of(set: Seq<Seq<u8>>, paths: Seq<Seq<u8>>) -> bool {
    &&& sorted_paths(set)
    &&& path_keys(set) == path_keys(paths)
    &&& forall|i: int| 0 <= i < set.len() ==> is_first_spelling(paths, #[trigger] set[i])
}

/// The paths determine the set of them.
pub proof fn set_of_unique(a: Seq<Seq<u8>>, b: Seq<Seq<u8>>, paths: Seq<Seq<u8>>)
    requires
        is_set_of(a, paths),
        is_set_of(b, paths),
    ensures
        a == b,
{
    sorted_paths_unique(a, b);
    assert forall|i: int| 0 <= i < a.len() implies a[i] == b[i] by {
        assert(is_first_spelling(paths, a[i]));
        assert(is_first_spelling(paths, b[i]));
        let j = choose|j: int| #[trigger] is_first_at(paths, j) && paths[j] == a[i];
        let k = choose|k: int| #[trigger] is_first_at(paths, k) && paths[k] == b[i];
        assert(path::components(a[i]) == path::components(b[i]));
        if j < k {
            assert(path::components(paths[j]) != path::components(paths[k]));
        } else if k < j {
            assert(path::components(paths[k]) != path::components(paths[j]));
        }
    }
    assert(a =~= b);
}

proof fn lemma_first_spelling_extends(paths: Seq<Seq<u8>>, more: Seq<Seq<u8>>, p: Seq<u8>)
    requires
        is_first_spelling(paths, p),
    ensures
        is_first_spelling(paths + more, p),
{
    let all = paths + more;
    let j = choose|j: int| #[trigger] is_first_at(paths, j) && paths[j] == p;
    assert forall|k: int| 0 <= k < j implies path::components(#[trigger] all[k])
        != path::components(all[j]) by {
        assert(all[k] == paths[k]);
    }
    assert(is_first_at(all, j) && all[j] == p);
}

/// Paths that are in the set already add nothing to it.
pub proof fn set_of_repeated(set: Seq<Seq<u8>>, paths: Seq<Seq<u8>>, again: Seq<Seq<u8>>)
    requires
        is_set_of(set, paths),
        forall|i: int| 0 <= i < again.len() ==> has_path(set, #[trigger] again[i]),
    ensures
        is_set_of(set, paths + again),
{
    let all = paths + again;
    assert forall|key: Seq<Seq<u8>>| path_keys(all).contains(key) == path_keys(paths).contains(
        key,
    ) by {
        if path_keys(all).contains(key) {
            let i = choose|i: int| 0 <= i < all.len() && path::components(#[trigger] all[i]) == key;
            if i < paths.len() {
                assert(all[i] == paths[i]);
            } else {
                assert(all[i] == again[i - paths.len()]);
                assert(has_path(set, again[i - paths.len()]));
            }
        }
        if path_keys(paths).contains(key) {
            let i = choose|i: int|
                0 <= i < paths.len() && path::components(#[trigger] paths[i]) == key;
            assert(all[i] == paths[i]);
        }
    }
    assert(path_keys(all) =~= path_keys(paths));
    assert forall|i: int| 0 <= i < set.len() implies is_first_spelling(all, #[trigger] set[i]) by {
        lemma_first_spelling_extends(paths, again, set[i]);
    }
}

/// Inserting one more path gives the set of one more path.
pub(crate) proof fn set_of_insert(
    before: Seq<Seq<u8>>,
    after: Seq<Seq<u8>>,
    paths: Seq<Seq<u8>>,
    p: Seq<u8>,
)
    requires
        is_set_of(before, paths),
        sorted_paths(after),
        has_path(before, p) ==> after == before,
        !has_path(before, p) ==> exists|k: int|
            0 <= k <= before.len() && after == #[trigger] before.insert(k, p),
        path_keys(after) == path_keys(before).insert(path::components(p)),
    ensures
        is_set_of(after, paths.push(p)),
{
    let all = paths.push(p);
    let n = paths.len() as int;
    assert(all =~= paths + seq![p]);
    if has_path(before, p) {
        set_of_repeated(before, paths, seq![p]);
    } else {
        let k = choose|k: int| 0 <= k <= before.len() && after == #[trigger] before.insert(k, p);
        assert forall|i: int| 0 <= i < after.len() implies is_first_spelling(
            all,
            #[trigger] after[i],
        ) by {
            if i == k {
                assert forall|m: int| 0 <= m < n implies path::components(#[trigger] all[m])
                    != path::components(all[n]) by {
                    assert(all[m] == paths[m]);
                    assert(path_keys(paths).contains(path::components(paths[m])));
                }
                assert(is_first_at(all, n) && all[n] == p);
            } else {
                let was = if i < k { i } else { i - 1 };
                assert(after[i] == before[was]);
                lemma_first_spelling_extends(paths, seq![p], before[was]);
            }
        }
        assert forall|key: Seq<Seq<u8>>| path_keys(all).contains(key) == path_keys(paths).insert(
            path::components(p),
        ).contains(key) by {
            if path_keys(all).contains(key) {
                let i = choose|i: int|
                    0 <= i < all.len() && path::components(#[trigger] all[i]) == key;
                if i < n {
                    assert(all[i] == paths[i]);
                }
            }
            if path_keys(paths).contains(key) {
                let i = choose|i: int| 0 <= i < n && path::components(#[trigger] paths[i]) == key;
                assert(all[i] == paths[i]);
            }
            assert(all[n] == p);
        }
        assert(path_keys(after) =~= path_keys(all));
    }
}

/// Compares two component lists in the order of paths.
fn compare_component_lists(a: &Vec<&[u8]>, b: &Vec<&[u8]>) -> (r: Relation)
    ensures
        r == Relation::Before <==> path_before(order::slice_views(a@), order::slice_views(b@)),
        r == Relation::Same <==> order::slice_views(a@) == order::slice_views(b@),
        r == Relation::After <==> path_before(order::slice_views(b@), order::slice_views(a@)),
{
    proof {
        path_before_irreflexive(order::slice_views(a@));
    }
    if a.len() < b.len() {
        Relation::Before
    } else if b.len() < a.len() {
        Relation::After
    } else {
        compare_lists(a, b)
    }
}

/// Looks for a path equal to `key` in a sorted vector: whether it is there, and where it is or
/// would have to be inserted.
pub(crate) fn search(paths: &Vec<PathBuf>, key: &PathBuf) -> (r: (bool, usize))
    requires
        sorted_paths(path::path_views(paths@)),
    ensures
        r.1 <= paths.len(),
        r.0 == has_path(path::path_views(paths@), key@),
        r.0 ==> r.1 < paths.len() && path::components(paths@[r.1 as int]@) == path::components(key@),
        !r.0 ==> forall|i: int|
            0 <= i < r.1 ==> path_before(
                path::components(#[trigger] path::path_views(paths@)[i]),
                path::components(key@),
            ),
        !r.0 ==> forall|i: int|
            r.1 <= i < paths.len() ==> path_before(
                path::components(key@),
                path::components(#[trigger] path::path_views(paths@)[i]),
            ),
{
    let ghost s = path::path_views(paths@);
    let key_parts = split_components(key.as_bytes());
    let mut low: usize = 0;
    let mut high: usize = paths.len();
    while low < high
        invariant
            s == path::path_views(paths@),
            sorted_paths(s),
            order::slice_views(key_parts@) == path::components(key@),
            low <= high <= paths.len(),
            forall|i: int|
                0 <= i < low ==> path_before(path::components(#[trigger] s[i]), path::components(key@)),
            forall|i: int|
                high <= i < paths.len() ==> path_before(
                    path::components(key@),
                    path::components(#[trigger] s[i]),
                ),
        decreases high - low,
    {
        let mid = low + (high - low) / 2;
        let mid_parts = split_components(paths[mid].as_bytes());
        assert(s[mid as int] == paths@[mid as int]@);
        match compare_component_lists(&mid_parts, &key_parts) {
            Relation::Same => {
                return (true, mid);
            },
            Relation::Before => {
                proof {
                    assert forall|i: int| 0 <= i < mid + 1 implies path_before(
                        path::components(#[trigger] s[i]),
                        path::components(key@),
                    ) by {
                        if i < mid {
                            path_before_transitive(
                                path::components(s[i]),
                                path::components(s[mid as int]),
                                path::components(key@),
                            );
                        }
                    }
                }
                low = mid + 1;
            },
            Relation::After => {
                proof {
                    assert forall|i: int| mid <= i < paths.len() implies path_before(
                        path::components(key@),
                        path::components(#[trigger] s[i]),
                    ) by {
                        if i > mid {
                            path_before_transitive(
                                path::components(key@),
                                path::components(s[mid as int]),
                                path::components(s[i]),
                            );
                        }
                    }
                }
                high = mid;
            },
        }
    }
    proof {
        path_before_irreflexive(path::components(key@));
    }
    (false, low)
}

/// A set of paths.
#[derive(Debug)]
pub struct PathSet {
    paths: Vec<PathBuf>,
}

impl View for PathSet {
    type V = Seq<Seq<u8>>;

    /// The paths in ascending order.
    closed spec fn view(&self) -> Seq<Seq<u8>> {
        path::path_views(self.paths@)
    }
}

impl PathSet {
    /// The paths are sorted and distinct.
    pub open spec fn wf(&self) -> bool {
        sorted_paths(self@)
    }

    /// The set without any path.
    pub fn new() -> (r: PathSet)
        ensures
            r.wf(),
            r@ == Seq::<Seq<u8>>::empty(),
    {
        let r = PathSet { paths: Vec::new() };
        assert(r@ =~= Seq::empty());
        r
    }

    /// Number of paths in the set.
    pub fn len(&self) -> (r: usize)
        ensures
            r == self@.len(),
    {
        self.paths.len()
    }

    /// Whether the set has no path.
    pub fn is_empty(&self) -> (r: bool)
        ensures
            r == (self@.len() == 0),
    {
        self.paths.len() == 0
    }

    /// The path at position `i` of the ascending order.
    pub fn get(&self, i: usize) -> (r: &PathBuf)
        requires
            i < self@.len(),
        ensures
            r@ == self@[i as int],
    {
        &self.paths[i]
    }

    /// Whether the set holds a path equal to `p`.
    pub fn contains(&self, p: &PathBuf) -> (r: bool)
        requires
            self.wf(),
        ensures
            r == has_path(self@, p@),
    {
        search(&self.paths, p).0
    }

    /// Adds a path unless an equal one is there already; returns whether it was added.
    pub fn insert(&mut self, p: PathBuf) -> (added: bool)
        requires
            old(self).wf(),
        ensures
            final(self).wf(),
            added == !has_path(old(self)@, p@),
            !added ==> final(self)@ == old(self)@,
            added ==> exists|k: int|
                0 <= k <= old(self)@.len() && final(self)@ == #[trigger] old(self)@.insert(k, p@),
            path_keys(final(self)@) == path_keys(old(self)@).insert(path::components(p@)),
    {
        let (found, k) = search(&self.paths, &p);
        if found {
            assert(path_keys(old(self)@).insert(path::components(p@)) =~= path_keys(old(self)@));
            return false;
        }
        proof {
            sorted_paths_insert(self@, k as int, p@);
        }
        let ghost value = p@;
        self.paths.insert(k, p);
        assert(self@ =~= old(self)@.insert(k as int, value));
        true
    }
}

/// A list holds a path exactly if one of its paths has the same components.
pub proof fn held_paths(s: Seq<Seq<u8>>, p: Seq<u8>)
    ensures
        has_path(s, p) <==> exists|i: int|
            0 <= i < s.len() && path::components(#[trigger] s[i]) == path::components(p),
{
}

/// Fewer components come first; among as many the lexicographic order decides.
pub proof fn fewer_components_come_first(a: Seq<Seq<u8>>, b: Seq<Seq<u8>>)
    ensures
        a.len() < b.len() ==> path_before(a, b) && !path_before(b, a),
        a.len() == b.len() ==> (path_before(a, b) <==> order::list_before(a, b)),
{
}

/// A sorted list ascends from each place to every later one.
pub proof fn sorted_paths_ascend(s: Seq<Seq<u8>>)
    ensures
        sorted_paths(s) <==> forall|i: int, j: int|
            0 <= i < j < s.len() ==> path::components(#[trigger] s[i]).len() < path::components(
                #[trigger] s[j],
            ).len() || (path::components(s[i]).len() == path::components(s[j]).len()
                && order::list_before(path::components(s[i]), path::components(s[j]))),
{
}

/// The set of some paths holds nothing but these, every one of them, none twice, and a path that
/// equals no earlier one as it is spelled.
pub proof fn members_of_set(set: Seq<Seq<u8>>, paths: Seq<Seq<u8>>, i: int, j: int)
    requires
        is_set_of(set, paths),
        0 <= i < set.len(),
        0 <= j < paths.len(),
    ensures
        paths.contains(set[i]),
        exists|k: int|
            0 <= k < set.len() && path::components(#[trigger] set[k]) == path::components(paths[j]),
        forall|k: int|
            0 <= k < set.len() && k != i ==> path::components(#[trigger] set[k])
                != path::components(set[i]),
        (forall|k: int|
            0 <= k < j ==> path::components(#[trigger] paths[k]) != path::components(paths[j]))
            ==> set.contains(paths[j]),
{
    assert(is_first_spelling(paths, set[i]));
    assert(path_keys(paths).contains(path::components(paths[j])));
    assert(path_keys(set).contains(path::components(paths[j])));
    assert forall|k: int| 0 <= k < set.len() && k != i implies path::components(#[trigger] set[k])
        != path::components(set[i]) by {
        if path::components(set[k]) == path::components(set[i]) {
            sorted_paths_distinct(set, k, i);
        }
    }
    if forall|k: int|
        0 <= k < j ==> path::components(#[trigger] paths[k]) != path::components(paths[j]) {
        let k = choose|k: int|
            0 <= k < set.len() && path::components(#[trigger] set[k]) == path::components(paths[j]);
        assert(is_first_spelling(paths, set[k]));
        let m = choose|m: int| #[trigger] is_first_at(paths, m) && paths[m] == set[k];
        if m < j {
            assert(path::components(paths[m]) != path::components(paths[j]));
        } else if j < m {
            assert(path::components(paths[j]) != path::components(paths[m]));
        }
        assert(set[k] == paths[j]);
    }
}

} // verus!
