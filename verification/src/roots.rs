//! What it means to normalise root directories and to remove redundant ones.

use crate::path;
use crate::path_laws;
use crate::path_set;
use vstd::prelude::*;

verus! {

broadcast use vstd::seq_lib::group_seq_properties;

/// One component applied to the directory that `names` leads to from the root directory: `..`
/// leads to the parent, and the root directory is its own parent.
pub open spec fn resolve_step(names: Seq<Seq<u8>>, component: Seq<u8>) -> Seq<Seq<u8>> {
    if component == path::root_dir() || component == path::current_dir() {
        names
    } else if component == path::parent_dir() {
        if names.len() > 0 {
            names.drop_last()
        } else {
            names
        }
    } else {
        names.push(component)
    }
}

/// The names that lead from the root directory to where `components` lead.
pub open spec fn resolve(components: Seq<Seq<u8>>) -> Seq<Seq<u8>>
    decreases components.len(),
{
    if components.len() == 0 {
        Seq::empty()
    } else {
        resolve_step(resolve(components.drop_last()), components.last())
    }
}

/// The components of the absolute path that `names` make up.
pub open spec fn rooted(names: Seq<Seq<u8>>) -> Seq<Seq<u8>> {
    seq![path::root_dir()] + names
}

/// Every name preceded by a separator.
pub open spec fn spelled_names(names: Seq<Seq<u8>>) -> Seq<u8>
    decreases names.len(),
{
    if names.len() == 0 {
        Seq::empty()
    } else {
        spelled_names(names.drop_last()) + seq![path::SEPARATOR] + names.last()
    }
}

/// The absolute path that `names` make up, without redundant separators.
pub open spec fn root_path(names: Seq<Seq<u8>>) -> Seq<u8> {
    if names.len() == 0 {
        seq![path::SEPARATOR]
    } else {
        spelled_names(names)
    }
}

/// The names that lead from the root directory to `p`, seen from the directory `cwd`. There are
/// none for the empty path, nor for a relative path where `cwd` is not known.
pub open spec fn normalized(p: Seq<u8>, cwd: Option<Seq<u8>>) -> Option<Seq<Seq<u8>>> {
    if p.len() == 0 {
        None
    } else if path::is_absolute(p) {
        Some(resolve(path::components(p)))
    } else {
        match cwd {
            Some(dir) => Some(resolve(path::components(dir) + path::components(p))),
            None => None,
        }
    }
}

/// The absolute directory `d` as a scan spells it, where it is written with `..`; any other
/// directory as it is written.
pub open spec fn resolved_directory(d: Seq<u8>) -> Seq<u8> {
    if path::is_absolute(d) && path::components(d).contains(path::parent_dir()) {
        root_path(resolve(path::components(d)))
    } else {
        d
    }
}

/// The path `p` lies in the directory `d`, as it is written or as a scan spells it.
pub open spec fn lies_in(d: Seq<u8>, p: Seq<u8>) -> bool {
    path::path_starts_with(p, d) || path::path_starts_with(p, resolved_directory(d))
}

/// What is found below the root that an absolute directory is normalised to starts with the
/// directory as a scan spells it, and lies in the directory, however it is written.
pub proof fn found_paths_lie_in_directory(d: Seq<u8>, cwd: Option<Seq<u8>>, p: Seq<u8>)
    requires
        path::is_absolute(d),
        normalized(d, cwd) matches Some(names) && rooted(names).is_prefix_of(path::components(p)),
    ensures
        path::path_starts_with(p, resolved_directory(d)),
        lies_in(d, p),
{
    normalized_names(d, cwd);
    let names = resolve(path::components(d));
    root_path_components(names);
    if !path::components(d).contains(path::parent_dir()) {
        let body = path::body_components(d);
        path_laws::body_components_are_segments(d);
        assert(path::components(d) =~= rooted(body));
        assert forall|i: int| 0 <= i < body.len() implies path::is_name(#[trigger] body[i]) by {
            assert(path::components(d)[i + 1] == body[i]);
            assert(path::components(d).contains(body[i]));
        }
        lemma_resolve_rooted(body);
    }
}

/// `key` is what one of `paths` is normalised to.
pub open spec fn is_input_root(
    paths: Seq<Seq<u8>>,
    cwd: Option<Seq<u8>>,
    key: Seq<Seq<u8>>,
) -> bool {
    exists|i: int|
        0 <= i < paths.len() && (normalized(#[trigger] paths[i], cwd) matches Some(names)
            && rooted(names) == key)
}

/// The component lists of the paths that can be normalised.
pub open spec fn input_roots(paths: Seq<Seq<u8>>, cwd: Option<Seq<u8>>) -> Set<Seq<Seq<u8>>> {
    Set::new(|key: Seq<Seq<u8>>| is_input_root(paths, cwd, key))
}

/// Some directory of `roots` is the directory `key` or holds it.
pub open spec fn is_covered(roots: Seq<Seq<u8>>, key: Seq<Seq<u8>>) -> bool {
    exists|i: int| 0 <= i < roots.len() && path::components(#[trigger] roots[i]).is_prefix_of(key)
}

/// `roots` are the outermost of the directories `inputs`, in ascending order and spelled without
/// redundant separators.
pub open spec fn is_root_list(roots: Seq<Seq<u8>>, inputs: Set<Seq<Seq<u8>>>) -> bool {
    &&& path_set::sorted_paths(roots)
    &&& forall|i: int|
        0 <= i < roots.len() ==> inputs.contains(path::components(#[trigger] roots[i]))
    &&& forall|i: int|
        0 <= i < roots.len() ==> #[trigger] roots[i] == root_path(
            path::components(roots[i]).skip(1),
        )
    &&& forall|key: Seq<Seq<u8>>| #[trigger] inputs.contains(key) ==> is_covered(roots, key)
    &&& forall|i: int, j: int|
        0 <= i < roots.len() && 0 <= j < roots.len() && i != j ==> !path::components(
            #[trigger] roots[i],
        ).is_prefix_of(path::components(#[trigger] roots[j]))
}

/// All of `names` can be names of files or directories.
pub open spec fn are_names(names: Seq<Seq<u8>>) -> bool {
    forall|i: int| 0 <= i < names.len() ==> path::is_name(#[trigger] names[i])
}

/// A component is the root directory, the current directory, or a segment that counts.
pub open spec fn is_component(c: Seq<u8>) -> bool {
    c == path::root_dir() || c == path::current_dir() || (!path::is_noise(c) && !c.contains(
        path::SEPARATOR,
    ))
}

/// The components of a path are components.
pub(crate) proof fn lemma_components(s: Seq<u8>)
    ensures
        forall|i: int|
            0 <= i < path::components(s).len() ==> is_component(
                #[trigger] path::components(s)[i],
            ),
{
    path_laws::body_components_are_segments(s);
    let head = path::head_components(s);
    assert forall|i: int| 0 <= i < path::components(s).len() implies is_component(
        #[trigger] path::components(s)[i],
    ) by {
        if i >= head.len() {
            assert(path::components(s)[i] == path::body_components(s)[i - head.len()]);
        }
    }
}

/// Resolving components leads to names.
pub proof fn resolve_names(components: Seq<Seq<u8>>)
    requires
        forall|i: int| 0 <= i < components.len() ==> is_component(#[trigger] components[i]),
    ensures
        are_names(resolve(components)),
    decreases components.len(),
{
    if components.len() > 0 {
        let init = components.drop_last();
        assert forall|i: int| 0 <= i < init.len() implies is_component(#[trigger] init[i]) by {
            assert(init[i] == components[i]);
        }
        resolve_names(init);
        assert(is_component(components.last()));
    }
}

/// What a path is normalised to are names.
pub proof fn normalized_names(p: Seq<u8>, cwd: Option<Seq<u8>>)
    ensures
        normalized(p, cwd) matches Some(names) ==> are_names(names),
{
    lemma_components(p);
    resolve_names(path::components(p));
    if let Some(dir) = cwd {
        lemma_components(dir);
        let all = path::components(dir) + path::components(p);
        assert forall|i: int| 0 <= i < all.len() implies is_component(#[trigger] all[i]) by {
            if i < path::components(dir).len() {
                assert(all[i] == path::components(dir)[i]);
            } else {
                assert(all[i] == path::components(p)[i - path::components(dir).len()]);
            }
        }
        resolve_names(all);
    }
}

proof fn lemma_spelled_names(names: Seq<Seq<u8>>)
    requires
        are_names(names),
    ensures
        path::body_components(spelled_names(names)) == names,
        names.len() > 0 ==> path::is_absolute(spelled_names(names)),
    decreases names.len(),
{
    if names.len() > 0 {
        let init = names.drop_last();
        let last = names.last();
        assert(are_names(init)) by {
            assert forall|i: int| 0 <= i < init.len() implies path::is_name(#[trigger] init[i]) by {
                assert(init[i] == names[i]);
            }
        }
        lemma_spelled_names(init);
        assert(path::is_name(last));
        path_laws::body_components_split(spelled_names(init), last);
        path_laws::body_components_of_segment(last);
        assert(path::body_components(spelled_names(names)) =~= names);
        if init.len() == 0 {
            assert(spelled_names(names)[0] == path::SEPARATOR);
        } else {
            assert(spelled_names(names)[0] == spelled_names(init)[0]);
        }
    } else {
        assert(path::body_components(spelled_names(names)) =~= names);
    }
}

/// The path spelled from names has exactly these names below the root directory.
pub proof fn root_path_components(names: Seq<Seq<u8>>)
    requires
        are_names(names),
    ensures
        path::is_absolute(root_path(names)),
        path::components(root_path(names)) == rooted(names),
{
    if names.len() == 0 {
        let empty = Seq::<u8>::empty();
        path_laws::body_components_split(empty, empty);
        assert(root_path(names) =~= empty + seq![path::SEPARATOR] + empty);
        assert(path::components(root_path(names)) =~= rooted(names));
    } else {
        lemma_spelled_names(names);
    }
}

proof fn lemma_resolve_rooted(names: Seq<Seq<u8>>)
    requires
        are_names(names),
    ensures
        resolve(rooted(names)) == names,
    decreases names.len(),
{
    let all = rooted(names);
    if names.len() == 0 {
        reveal_with_fuel(resolve, 2);
        assert(all.drop_last() =~= Seq::empty());
        assert(all.last() == path::root_dir());
        assert(resolve(all) =~= names);
    } else {
        let init = names.drop_last();
        assert(are_names(init)) by {
            assert forall|i: int| 0 <= i < init.len() implies path::is_name(#[trigger] init[i]) by {
                assert(init[i] == names[i]);
            }
        }
        lemma_resolve_rooted(init);
        assert(all.drop_last() =~= rooted(init));
        assert(path::is_name(names.last()));
        assert(names.last() != path::root_dir()) by {
            assert(path::root_dir().contains(path::root_dir()[0]));
        }
        assert(resolve(all) =~= names);
    }
}

/// Normalising a normalised path again, seen from any directory, changes nothing.
pub proof fn normalize_idempotent(p: Seq<u8>, cwd: Option<Seq<u8>>, other: Option<Seq<u8>>)
    ensures
        normalized(p, cwd) matches Some(names) ==> normalized(root_path(names), other) == Some(
            names,
        ),
{
    normalized_names(p, cwd);
    if let Some(names) = normalized(p, cwd) {
        root_path_components(names);
        lemma_resolve_rooted(names);
    }
}

/// There is only one list of outermost directories: it depends neither on the order nor on the
/// spelling nor on repetitions of the inputs.
pub proof fn root_list_unique(a: Seq<Seq<u8>>, b: Seq<Seq<u8>>, inputs: Set<Seq<Seq<u8>>>)
    requires
        is_root_list(a, inputs),
        is_root_list(b, inputs),
    ensures
        a == b,
{
    lemma_root_keys_subset(a, b, inputs);
    lemma_root_keys_subset(b, a, inputs);
    assert(path_set::path_keys(a) =~= path_set::path_keys(b));
    path_set::sorted_paths_unique(a, b);
    assert(a =~= b);
}

proof fn lemma_root_keys_subset(a: Seq<Seq<u8>>, b: Seq<Seq<u8>>, inputs: Set<Seq<Seq<u8>>>)
    requires
        is_root_list(a, inputs),
        is_root_list(b, inputs),
    ensures
        forall|key: Seq<Seq<u8>>|
            #[trigger] path_set::path_keys(a).contains(key) ==> path_set::path_keys(b).contains(
                key,
            ),
{
    assert forall|key: Seq<Seq<u8>>| #[trigger] path_set::path_keys(a).contains(key) implies
        path_set::path_keys(b).contains(key) by {
        let i = choose|i: int| 0 <= i < a.len() && path::components(#[trigger] a[i]) == key;
        assert(inputs.contains(key));
        assert(is_covered(b, key));
        let j = choose|j: int|
            0 <= j < b.len() && path::components(#[trigger] b[j]).is_prefix_of(key);
        let bk = path::components(b[j]);
        assert(inputs.contains(bk));
        assert(is_covered(a, bk));
        let k = choose|k: int|
            0 <= k < a.len() && path::components(#[trigger] a[k]).is_prefix_of(bk);
        let ak = path::components(a[k]);
        assert(ak.is_prefix_of(key)) by {
            assert(ak =~= key.subrange(0, ak.len() as int));
        }
        assert(k == i);
        assert(bk =~= key);
    }
}

/// The outermost directories of a list of outermost directories, seen from any directory, are
/// that list.
pub proof fn root_list_idempotent(
    roots: Seq<Seq<u8>>,
    paths: Seq<Seq<u8>>,
    cwd: Option<Seq<u8>>,
    other: Option<Seq<u8>>,
)
    requires
        is_root_list(roots, input_roots(paths, cwd)),
    ensures
        is_root_list(roots, input_roots(roots, other)),
{
    let inputs = input_roots(paths, cwd);
    input_roots_are_rooted(paths, cwd);
    let again = input_roots(roots, other);
    assert forall|i: int| 0 <= i < roots.len() implies #[trigger] normalized(roots[i], other)
        == Some(path::components(roots[i]).skip(1)) by {
        let key = path::components(roots[i]);
        assert(inputs.contains(key));
        root_path_components(key.skip(1));
        lemma_resolve_rooted(key.skip(1));
    }
    assert forall|i: int| 0 <= i < roots.len() implies again.contains(
        path::components(#[trigger] roots[i]),
    ) by {
        assert(inputs.contains(path::components(roots[i])));
        assert(normalized(roots[i], other) == Some(path::components(roots[i]).skip(1)));
    }
    assert forall|key: Seq<Seq<u8>>| #[trigger] again.contains(key) implies is_covered(
        roots,
        key,
    ) by {
        let i = choose|i: int|
            0 <= i < roots.len() && (normalized(#[trigger] roots[i], other) matches Some(names)
                && rooted(names) == key);
        assert(normalized(roots[i], other) == Some(path::components(roots[i]).skip(1)));
        assert(inputs.contains(path::components(roots[i])));
        assert(path::components(roots[i]) =~= key.subrange(0, key.len() as int));
    }
}

/// What paths are normalised to are absolute paths made of names.
pub proof fn input_roots_are_rooted(paths: Seq<Seq<u8>>, cwd: Option<Seq<u8>>)
    ensures
        forall|key: Seq<Seq<u8>>|
            #[trigger] input_roots(paths, cwd).contains(key) ==> key.len() > 0 && key == rooted(
                key.skip(1),
            ) && are_names(key.skip(1)),
{
    assert forall|key: Seq<Seq<u8>>| #[trigger] input_roots(paths, cwd).contains(key) implies
        key.len() > 0 && key == rooted(key.skip(1)) && are_names(key.skip(1)) by {
        let i = choose|i: int|
            0 <= i < paths.len() && (normalized(#[trigger] paths[i], cwd) matches Some(names)
                && rooted(names) == key);
        normalized_names(paths[i], cwd);
        let names = normalized(paths[i], cwd)->Some_0;
        assert(key.skip(1) =~= names);
    }
}

/// One more path adds what it is normalised to.
pub(crate) proof fn input_roots_push(paths: Seq<Seq<u8>>, i: int, cwd: Option<Seq<u8>>)
    requires
        0 <= i < paths.len(),
    ensures
        input_roots(paths.take(i + 1), cwd) == match normalized(paths[i], cwd) {
            Some(names) => input_roots(paths.take(i), cwd).insert(rooted(names)),
            None => input_roots(paths.take(i), cwd),
        },
{
    let less = paths.take(i);
    let more = paths.take(i + 1);
    let expected = match normalized(paths[i], cwd) {
        Some(names) => input_roots(less, cwd).insert(rooted(names)),
        None => input_roots(less, cwd),
    };
    assert forall|key: Seq<Seq<u8>>| input_roots(more, cwd).contains(key) == expected.contains(
        key,
    ) by {
        if input_roots(more, cwd).contains(key) {
            let k = choose|k: int|
                0 <= k < more.len() && (normalized(#[trigger] more[k], cwd) matches Some(names)
                    && rooted(names) == key);
            if k < i {
                assert(less[k] == more[k]);
                assert(is_input_root(less, cwd, key));
            }
        }
        if is_input_root(less, cwd, key) {
            let k = choose|k: int|
                0 <= k < less.len() && (normalized(#[trigger] less[k], cwd) matches Some(names)
                    && rooted(names) == key);
            assert(more[k] == less[k]);
            assert(is_input_root(more, cwd, key));
        }
        if expected.contains(key) && !is_input_root(less, cwd, key) {
            assert(more[i] == paths[i]);
            assert(is_input_root(more, cwd, key));
        }
    }
    assert(input_roots(more, cwd) =~= expected);
}

/// The outermost of some more paths: the next path in ascending order counts unless it is
/// covered.
pub(crate) proof fn root_list_step(kept: Seq<Seq<u8>>, all: Seq<Seq<u8>>, i: int)
    requires
        path_set::sorted_paths(all),
        0 <= i < all.len(),
        all[i] == root_path(path::components(all[i]).skip(1)),
        is_root_list(kept, path_set::path_keys(all.take(i))),
    ensures
        is_covered(kept, path::components(all[i])) ==> is_root_list(
            kept,
            path_set::path_keys(all.take(i + 1)),
        ),
        !is_covered(kept, path::components(all[i])) ==> is_root_list(
            kept.push(all[i]),
            path_set::path_keys(all.take(i + 1)),
        ),
{
    let less = path_set::path_keys(all.take(i));
    let more = path_set::path_keys(all.take(i + 1));
    let key = path::components(all[i]);
    assert forall|k: Seq<Seq<u8>>| #[trigger] more.contains(k) == (less.contains(k) || k == key) by {
        if more.contains(k) {
            let j = choose|j: int|
                0 <= j < all.take(i + 1).len() && path::components(#[trigger] all.take(i + 1)[j])
                    == k;
            if j < i {
                assert(all.take(i)[j] == all.take(i + 1)[j]);
            }
        }
        if less.contains(k) {
            let j = choose|j: int|
                0 <= j < all.take(i).len() && path::components(#[trigger] all.take(i)[j]) == k;
            assert(all.take(i + 1)[j] == all.take(i)[j]);
        }
        if k == key {
            assert(all.take(i + 1)[i] == all[i]);
        }
    }
    if !is_covered(kept, key) {
        let next = kept.push(all[i]);
        let n = kept.len() as int;
        assert forall|j: int| 0 <= j < n implies path_set::path_before(
            path::components(#[trigger] kept[j]),
            key,
        ) by {
            let k = path::components(kept[j]);
            assert(less.contains(k));
            let m = choose|m: int|
                0 <= m < all.take(i).len() && path::components(#[trigger] all.take(i)[m]) == k;
            assert(all.take(i)[m] == all[m]);
        }
        assert forall|a: int, b: int| 0 <= a < b < next.len() implies path_set::path_before(
            path::components(#[trigger] next[a]),
            path::components(#[trigger] next[b]),
        ) by {
            assert(next[a] == kept[a]);
            if b < n {
                assert(next[b] == kept[b]);
            }
        }
        assert forall|j: int| 0 <= j < next.len() implies more.contains(
            path::components(#[trigger] next[j]),
        ) by {
            if j < n {
                assert(next[j] == kept[j]);
            }
        }
        assert forall|j: int| 0 <= j < next.len() implies #[trigger] next[j] == root_path(
            path::components(next[j]).skip(1),
        ) by {
            if j < n {
                assert(next[j] == kept[j]);
            }
        }
        assert forall|k: Seq<Seq<u8>>| #[trigger] more.contains(k) implies is_covered(next, k) by {
            if less.contains(k) {
                let j = choose|j: int|
                    0 <= j < kept.len() && path::components(#[trigger] kept[j]).is_prefix_of(k);
                assert(next[j] == kept[j]);
            } else {
                assert(next[n] == all[i]);
                assert(key =~= key.subrange(0, key.len() as int));
            }
        }
        assert forall|a: int, b: int|
            0 <= a < next.len() && 0 <= b < next.len() && a != b implies !path::components(
            #[trigger] next[a],
        ).is_prefix_of(path::components(#[trigger] next[b])) by {
            if a < n {
                assert(next[a] == kept[a]);
            }
            if b < n {
                assert(next[b] == kept[b]);
            }
            if a == n && key.is_prefix_of(path::components(next[b])) {
                assert(path_set::path_before(path::components(kept[b]), key));
                assert(path::components(kept[b]) =~= key);
                path_set::path_before_irreflexive(key);
            }
        }
    }
}

/// A path lies in a directory only if the components of the directory, as it is written or with
/// `..` resolved, are its own first components.
pub proof fn lies_in_whole_components(d: Seq<u8>, p: Seq<u8>)
    ensures
        lies_in(d, p) ==> path::components(d).is_prefix_of(path::components(p)) || (
        path::is_absolute(d) && rooted(resolve(path::components(d))).is_prefix_of(
            path::components(p),
        )),
        path::components(d).is_prefix_of(path::components(p)) ==> lies_in(d, p),
{
    resolved_directory_components(d);
}

/// A resolved directory is the directory that the path is normalised to; a relative one stays as
/// it is written.
pub proof fn resolved_directory_components(d: Seq<u8>)
    ensures
        path::is_absolute(d) ==> path::components(resolved_directory(d)) == rooted(
            resolve(path::components(d)),
        ),
        !path::is_absolute(d) ==> resolved_directory(d) == d,
{
    if path::is_absolute(d) {
        normalized_names(d, None);
        root_path_components(resolve(path::components(d)));
        if !path::components(d).contains(path::parent_dir()) {
            let body = path::body_components(d);
            path_laws::body_components_are_segments(d);
            assert(path::components(d) =~= rooted(body));
            assert forall|i: int| 0 <= i < body.len() implies path::is_name(#[trigger] body[i]) by {
                assert(path::components(d)[i + 1] == body[i]);
                assert(path::components(d).contains(body[i]));
            }
            lemma_resolve_rooted(body);
        }
    }
}

/// What lies below one directory does not lie in another one of the same parent, however much
/// their names have in common.
pub proof fn siblings_are_apart(parent: Seq<Seq<u8>>, a: Seq<u8>, b: Seq<u8>, p: Seq<u8>)
    requires
        are_names(parent),
        path::is_name(a),
        path::is_name(b),
        a != b,
        path::path_starts_with(p, root_path(parent.push(b))),
    ensures
        !lies_in(root_path(parent.push(a)), p),
{
    let na = parent.push(a);
    let nb = parent.push(b);
    let n = parent.len() as int;
    assert(are_names(na)) by {
        assert forall|i: int| 0 <= i < na.len() implies path::is_name(#[trigger] na[i]) by {
            if i < n {
                assert(na[i] == parent[i]);
            }
        }
    }
    assert(are_names(nb)) by {
        assert forall|i: int| 0 <= i < nb.len() implies path::is_name(#[trigger] nb[i]) by {
            if i < n {
                assert(nb[i] == parent[i]);
            }
        }
    }
    root_path_components(na);
    root_path_components(nb);
    lemma_resolve_rooted(na);
    let d = root_path(na);
    lies_in_whole_components(d, p);
    path_laws::starts_with_whole_components(p, root_path(nb));
    path_laws::starts_with_whole_components(p, d);
    assert(rooted(nb)[n + 1] == b);
    assert(path::components(p)[n + 1] == b);
    if lies_in(d, p) {
        assert(path::components(d).is_prefix_of(path::components(p)));
        assert(rooted(na)[n + 1] == a);
        assert(path::components(p)[n + 1] == a);
    }
}

proof fn lemma_resolve_skips_current(a: Seq<Seq<u8>>, b: Seq<Seq<u8>>)
    ensures
        resolve(a + seq![path::current_dir()] + b) == resolve(a + b),
    decreases b.len(),
{
    let x = a + seq![path::current_dir()] + b;
    if b.len() == 0 {
        assert(x.drop_last() =~= a);
        assert(a + b =~= a);
        assert(x.last() == path::current_dir());
    } else {
        assert(x.drop_last() =~= a + seq![path::current_dir()] + b.drop_last());
        assert((a + b).drop_last() =~= a + b.drop_last());
        assert(x.last() == (a + b).last());
        lemma_resolve_skips_current(a, b.drop_last());
    }
}

/// A relative path is normalised as the absolute path that joining it onto the working directory
/// gives.
pub proof fn relative_path_is_seen_from_directory(
    p: Seq<u8>,
    dir: Seq<u8>,
    other: Option<Seq<u8>>,
)
    requires
        p.len() > 0,
        p[0] != 0x2f,
        dir.len() > 0,
        dir[0] == 0x2f,
    ensures
        normalized(p, Some(dir)) is Some,
        normalized(p, Some(dir)) == normalized(path::path_join(dir, p), other),
{
    let joined = path::path_join(dir, p);
    path_laws::join_components(dir, p);
    assert(joined[0] == dir[0]);
    let head = path::head_components(p);
    let a = path::components(dir);
    let body = path::body_components(p);
    if head.len() > 0 {
        assert(head =~= seq![path::current_dir()]);
        assert(a + path::components(p) =~= a + seq![path::current_dir()] + body);
        lemma_resolve_skips_current(a, body);
    } else {
        assert(a + path::components(p) =~= a + body);
    }
}

proof fn lemma_resolve_names_append(a: Seq<Seq<u8>>, names: Seq<Seq<u8>>)
    requires
        are_names(names),
    ensures
        resolve(a + names) == resolve(a) + names,
    decreases names.len(),
{
    if names.len() == 0 {
        assert(a + names =~= a);
        assert(resolve(a) + names =~= resolve(a));
    } else {
        let init = names.drop_last();
        assert(are_names(init)) by {
            assert forall|i: int| 0 <= i < init.len() implies path::is_name(#[trigger] init[i]) by {
                assert(init[i] == names[i]);
            }
        }
        lemma_resolve_names_append(a, init);
        assert((a + names).drop_last() =~= a + init);
        assert(path::is_name(names.last()));
        assert(names.last() != path::root_dir()) by {
            assert(path::root_dir().contains(path::root_dir()[0]));
        }
        assert(resolve(a + names) =~= resolve(a) + names);
    }
}

/// A relative path made of names, below a leading `.` or not, is normalised to the names of the
/// working directory followed by its own.
pub proof fn relative_names_are_appended(p: Seq<u8>, dir: Seq<u8>)
    requires
        p.len() > 0,
        p[0] != 0x2f,
        dir.len() > 0,
        dir[0] == 0x2f,
        are_names(path::body_components(p)),
    ensures
        normalized(dir, None) is Some,
        normalized(p, Some(dir)) == Some(normalized(dir, None)->Some_0 + path::body_components(p)),
{
    relative_path_is_seen_from_directory(p, dir, None);
    path_laws::join_components(dir, p);
    lemma_resolve_names_append(path::components(dir), path::body_components(p));
}

/// From an absolute path, a name leads one directory down, `.` nowhere, and `..` to the parent, of
/// which the root directory has none. The root directory is normalised to no names.
pub proof fn steps_of_absolute_path(p: Seq<u8>, name: Seq<u8>, cwd: Option<Seq<u8>>)
    requires
        p.len() > 0,
        p[0] == 0x2f,
        path::is_name(name),
    ensures
        normalized(p, cwd) matches Some(names) && {
            &&& normalized(path::path_join(p, name), cwd) == Some(names.push(name))
            &&& normalized(path::path_join(p, seq![0x2eu8]), cwd) == Some(names)
            &&& normalized(path::path_join(p, seq![0x2eu8, 0x2eu8]), cwd) == Some(
                names.take(if names.len() > 0 {
                    names.len() - 1
                } else {
                    0
                }),
            )
        },
        normalized(seq![0x2fu8], cwd) == Some(Seq::<Seq<u8>>::empty()),
        forall|q: Seq<u8>|
            q.len() > 0 && q[0] == 0x2f && path::components(q) == path::components(p)
                ==> #[trigger] normalized(q, cwd) == normalized(p, cwd),
{
    let a = path::components(p);
    let names = resolve(a);
    let dot = seq![0x2eu8];
    let up = seq![0x2eu8, 0x2eu8];
    path_laws::names_are_plain(name);
    path_laws::segment_is_one_component(name);
    path_laws::segment_is_one_component(dot);
    path_laws::segment_is_one_component(up);
    assert(up != dot) by {
        assert(up.len() != dot.len());
    }
    path_laws::join_components(p, name);
    path_laws::join_components(p, dot);
    path_laws::join_components(p, up);
    assert(path::path_join(p, name)[0] == p[0]);
    assert(path::path_join(p, dot)[0] == p[0]);
    assert(path::path_join(p, up)[0] == p[0]);
    assert(name != path::root_dir()) by {
        assert(path::root_dir()[0] == 0x2f);
    }
    assert((a + seq![name]).drop_last() =~= a);
    assert((a + seq![name]).last() == name);
    assert(a + path::body_components(dot) =~= a);
    assert((a + seq![up]).drop_last() =~= a);
    assert((a + seq![up]).last() == up);
    assert(up != path::root_dir() && up != path::current_dir()) by {
        assert(up.len() == 2 && path::root_dir().len() == 1 && path::current_dir().len() == 1);
    }
    assert(up =~= path::parent_dir());
    if names.len() > 0 {
        assert(names.take(names.len() - 1) =~= names.drop_last());
    } else {
        assert(names.take(0) =~= names);
    }
    let none = Seq::<Seq<u8>>::empty();
    root_path_components(none);
    lemma_resolve_rooted(none);
    assert(root_path(none) =~= seq![0x2fu8]);
}

/// A path is normalised unless it is empty, or relative where the working directory is not known.
pub proof fn what_can_be_normalized(p: Seq<u8>, cwd: Option<Seq<u8>>)
    ensures
        normalized(p, cwd) is Some <==> p.len() > 0 && (p[0] == 0x2f || cwd is Some),
{
}

/// The spelling of the root directory is `/`, and that of one more name is that name joined on.
pub proof fn root_path_is_joined(names: Seq<Seq<u8>>, name: Seq<u8>)
    requires
        are_names(names),
        path::is_name(name),
    ensures
        root_path(Seq::<Seq<u8>>::empty()) == seq![0x2fu8],
        root_path(names.push(name)) == path::path_join(root_path(names), name),
{
    path_laws::names_are_plain(name);
    let more = names.push(name);
    assert(more.drop_last() =~= names);
    if names.len() == 0 {
        assert(spelled_names(names) =~= Seq::empty());
        assert(root_path(more) =~= path::path_join(root_path(names), name));
    } else {
        let last = names.last();
        assert(path::is_name(last));
        path_laws::names_are_plain(last);
        assert(root_path(names).last() == last.last());
        assert(last[last.len() - 1] != 0x2f);
        assert(root_path(more) =~= path::path_join(root_path(names), name));
    }
}

/// Every path that can be normalised is one of the roots or lies below one; every root comes from
/// such a path; and no root lies below another one.
pub proof fn roots_cover_inputs(
    roots: Seq<Seq<u8>>,
    paths: Seq<Seq<u8>>,
    cwd: Option<Seq<u8>>,
    i: int,
    k: int,
)
    requires
        is_root_list(roots, input_roots(paths, cwd)),
        0 <= i < paths.len(),
        0 <= k < roots.len(),
    ensures
        normalized(paths[i], cwd) matches Some(names) ==> exists|r: int|
            0 <= r < roots.len() && path::components(#[trigger] roots[r]).is_prefix_of(
                seq![seq![0x2fu8]] + names,
            ),
        exists|j: int|
            0 <= j < paths.len() && (normalized(#[trigger] paths[j], cwd) matches Some(names)
                && roots[k] == root_path(names) && path::components(roots[k]) == seq![seq![0x2fu8]]
                + names),
        forall|r: int|
            0 <= r < roots.len() && r != k ==> !path::components(
                #[trigger] roots[r],
            ).is_prefix_of(path::components(roots[k])),
{
    let inputs = input_roots(paths, cwd);
    if let Some(names) = normalized(paths[i], cwd) {
        assert(is_input_root(paths, cwd, rooted(names)));
        assert(inputs.contains(rooted(names)));
        assert(is_covered(roots, rooted(names)));
    }
    let key = path::components(roots[k]);
    assert(inputs.contains(key));
    let j = choose|j: int|
        0 <= j < paths.len() && (normalized(#[trigger] paths[j], cwd) matches Some(names)
            && rooted(names) == key);
    let names = normalized(paths[j], cwd)->Some_0;
    assert(key.skip(1) =~= names);
}

} // verus!
