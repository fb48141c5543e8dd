//! Laws of path components.

use crate::path;
use vstd::prelude::*;

verus! {

broadcast use vstd::seq_lib::group_seq_properties;

proof fn lemma_first_segment_split(a: Seq<u8>, b: Seq<u8>)
    ensures
        path::segment_len(a + seq![path::SEPARATOR] + b) == path::segment_len(a),
        path::first_segment(a + seq![path::SEPARATOR] + b) == path::first_segment(a),
{
    let s = a + seq![path::SEPARATOR] + b;
    path::lemma_segment_len(a);
    path::lemma_segment_len_at(s, path::segment_len(a) as int);
    assert(path::first_segment(s) =~= path::first_segment(a));
}

/// The components of two byte strings with a separator between them are those of the one
/// followed by those of the other.
pub proof fn body_components_split(a: Seq<u8>, b: Seq<u8>)
    ensures
        path::body_components(a + seq![path::SEPARATOR] + b) == path::body_components(a)
            + path::body_components(b),
    decreases a.len(),
{
    let s = a + seq![path::SEPARATOR] + b;
    path::lemma_segment_len(a);
    lemma_first_segment_split(a, b);
    let n = path::segment_len(a) as int;
    if n < a.len() {
        assert(path::after_segment(s) =~= path::after_segment(a) + seq![path::SEPARATOR] + b);
        body_components_split(path::after_segment(a), b);
        assert(path::body_components(s) =~= path::body_components(a) + path::body_components(b));
    } else {
        assert(path::after_segment(s) =~= b);
        assert(path::first_segment(a) =~= a);
        if a.len() > 0 {
            assert(path::after_segment(a) =~= Seq::empty());
            assert(path::body_components(path::after_segment(a)) =~= Seq::empty());
            assert(path::body_components(a) =~= path::segment_components(a));
        }
        assert(path::body_components(s) =~= path::body_components(a) + path::body_components(b));
    }
}

/// A byte string without separators is one segment.
pub proof fn body_components_of_segment(segment: Seq<u8>)
    requires
        !segment.contains(path::SEPARATOR),
    ensures
        path::body_components(segment) == path::segment_components(segment),
{
    path::lemma_segment_len(segment);
    let n = path::segment_len(segment) as int;
    if n < segment.len() {
        assert(segment.contains(segment[n]));
    }
    assert(path::first_segment(segment) =~= segment);
    assert(path::after_segment(segment) =~= Seq::empty());
    assert(path::body_components(Seq::<u8>::empty()) =~= Seq::empty());
    assert(path::body_components(segment) =~= path::segment_components(segment));
}

/// Every component after a leading one is a segment without separators that is neither empty
/// nor `.`.
pub proof fn body_components_are_segments(s: Seq<u8>)
    ensures
        forall|i: int|
            0 <= i < path::body_components(s).len() ==> {
                &&& !path::is_noise(#[trigger] path::body_components(s)[i])
                &&& !path::body_components(s)[i].contains(path::SEPARATOR)
            },
    decreases s.len(),
{
    if s.len() > 0 {
        path::lemma_segment_len(s);
        body_components_are_segments(path::after_segment(s));
        let head = path::segment_components(path::first_segment(s));
        let tail = path::body_components(path::after_segment(s));
        assert forall|i: int| 0 <= i < path::body_components(s).len() implies {
            &&& !path::is_noise(#[trigger] path::body_components(s)[i])
            &&& !path::body_components(s)[i].contains(path::SEPARATOR)
        } by {
            if i >= head.len() {
                assert(path::body_components(s)[i] == tail[i - head.len()]);
            }
        }
    }
}

proof fn lemma_last_segment(s: Seq<u8>)
    ensures
        path::last_segment_len(s) <= s.len(),
        !path::last_segment(s).contains(path::SEPARATOR),
        path::last_segment_len(s) < s.len() ==> s == path::before_last_segment(s)
            + seq![path::SEPARATOR] + path::last_segment(s),
        path::last_segment_len(s) == s.len() ==> s == path::last_segment(s),
    decreases s.len(),
{
    if s.len() > 0 && s.last() != path::SEPARATOR {
        let t = s.drop_last();
        lemma_last_segment(t);
        let n = path::last_segment_len(s) as int;
        assert(path::last_segment(s) =~= path::last_segment(t).push(s.last()));
        assert forall|i: int| 0 <= i < n implies path::last_segment(s)[i] != path::SEPARATOR by {
            if i < n - 1 {
                assert(path::last_segment(t).contains(path::last_segment(t)[i]));
            }
        }
        if n < s.len() {
            assert(path::before_last_segment(s) =~= path::before_last_segment(t));
        }
    }
    if path::last_segment_len(s) < s.len() {
        assert(s =~= path::before_last_segment(s) + seq![path::SEPARATOR] + path::last_segment(s));
    } else {
        assert(s =~= path::last_segment(s));
    }
}

proof fn lemma_bytes_after(s: Seq<u8>, n: nat)
    requires
        n <= path::body_components(s).len(),
    ensures
        path::body_components(path::bytes_after(s, n)) == path::body_components(s).skip(n as int),
    decreases s.len(),
{
    if n == 0 || s.len() == 0 {
        assert(path::body_components(s).skip(n as int) =~= path::body_components(s));
    } else {
        let rest = path::body_components(path::after_segment(s));
        if path::is_noise(path::first_segment(s)) {
            assert(path::body_components(s) =~= rest);
            lemma_bytes_after(path::after_segment(s), n);
        } else {
            assert(path::body_components(s) =~= seq![path::first_segment(s)] + rest);
            lemma_bytes_after(path::after_segment(s), (n - 1) as nat);
            assert(path::body_components(s).skip(n as int) =~= rest.skip(n - 1));
        }
    }
}

proof fn lemma_trim_start(s: Seq<u8>)
    ensures
        path::body_components(path::trim_start(s)) == path::body_components(s),
        path::trim_start(s).len() > 0 ==> !path::is_noise(
            path::first_segment(path::trim_start(s)),
        ),
    decreases s.len(),
{
    if s.len() > 0 && path::is_noise(path::first_segment(s)) {
        lemma_trim_start(path::after_segment(s));
        assert(path::body_components(s) =~= path::body_components(path::after_segment(s)));
    }
}

proof fn lemma_trim_end(s: Seq<u8>)
    ensures
        path::body_components(path::trim_end(s)) == path::body_components(s),
        path::trim_end(s).len() <= s.len(),
        path::trim_end(s) == s.take(path::trim_end(s).len() as int),
        s.len() > 0 && !path::is_noise(path::first_segment(s)) ==> path::trim_end(s).len() > 0
            && path::first_segment(path::trim_end(s)) == path::first_segment(s),
    decreases s.len(),
{
    if s.len() > 0 && path::is_noise(path::last_segment(s)) {
        lemma_last_segment(s);
        let t = path::before_last_segment(s);
        lemma_trim_end(t);
        body_components_of_segment(path::last_segment(s));
        if path::last_segment_len(s) < s.len() {
            body_components_split(t, path::last_segment(s));
            lemma_first_segment_split(t, path::last_segment(s));
            assert(path::body_components(s) =~= path::body_components(t));
            assert(path::trim_end(t) =~= s.take(path::trim_end(t).len() as int));
            if !path::is_noise(path::first_segment(s)) {
                path::lemma_segment_len(t);
                assert(t.len() > 0) by {
                    if t.len() == 0 {
                        assert(path::first_segment(t).len() == 0);
                    }
                }
            }
        } else {
            assert(path::body_components(s) =~= Seq::empty());
            assert(path::trim_end(t) =~= s.take(0));
            path::lemma_segment_len(s);
            if path::segment_len(s) < s.len() {
                assert(s.contains(s[path::segment_len(s) as int]));
            }
            assert(path::first_segment(s) =~= s);
        }
    } else {
        assert(s =~= s.take(s.len() as int));
    }
}

proof fn lemma_head_empty(s: Seq<u8>)
    requires
        s.len() > 0 ==> !path::is_noise(path::first_segment(s)),
    ensures
        path::head_components(s) == Seq::<Seq<u8>>::empty(),
{
    path::lemma_segment_len(s);
    if s.len() == 0 {
        assert(path::first_segment(s).len() == 0);
    }
}

proof fn lemma_body_after_head(s: Seq<u8>)
    ensures
        path::head_components(s).len() <= s.len(),
        path::body_components(s.skip(path::head_components(s).len() as int))
            == path::body_components(s),
{
    let h = path::head_components(s).len() as int;
    path::lemma_segment_len(s);
    if h == 0 {
        assert(s.skip(0) =~= s);
    } else if path::is_absolute(s) {
        let empty = Seq::<u8>::empty();
        body_components_split(empty, s.skip(1));
        assert(empty + seq![path::SEPARATOR] + s.skip(1) =~= s);
        assert(path::body_components(s) =~= path::body_components(s.skip(1)));
    } else {
        assert(path::first_segment(s).len() == 1);
        let dot = path::current_dir();
        assert(s[0] == path::first_segment(s)[0]);
        assert(s[0] == path::DOT);
        assert(!dot.contains(path::SEPARATOR));
        body_components_of_segment(dot);
        if s.len() == 1 {
            assert(s =~= dot);
            assert(s.skip(1) =~= Seq::empty());
            assert(path::body_components(s.skip(1)) =~= Seq::empty());
        } else {
            let empty = Seq::<u8>::empty();
            assert(s =~= dot + seq![path::SEPARATOR] + s.skip(2));
            assert(s.skip(1) =~= empty + seq![path::SEPARATOR] + s.skip(2));
            body_components_split(dot, s.skip(2));
            body_components_split(empty, s.skip(2));
            assert(path::body_components(s) =~= path::body_components(s.skip(1)));
        }
    }
}

/// Extending a path that is not empty by a relative path appends the components of the latter,
/// without its leading `.`.
pub proof fn join_components(base: Seq<u8>, rest: Seq<u8>)
    requires
        base.len() > 0,
        !path::is_absolute(rest),
    ensures
        path::components(path::path_join(base, rest)) == path::components(base)
            + path::body_components(rest),
{
    let joined = path::path_join(base, rest);
    if base.last() == path::SEPARATOR {
        let a = base.drop_last();
        let empty = Seq::<u8>::empty();
        assert(joined =~= a + seq![path::SEPARATOR] + rest);
        assert(base =~= a + seq![path::SEPARATOR] + empty);
        body_components_split(a, rest);
        body_components_split(a, empty);
        lemma_first_segment_split(a, rest);
        lemma_first_segment_split(a, empty);
        assert(path::body_components(joined) =~= path::body_components(base)
            + path::body_components(rest));
        assert(joined[0] == base[0]);
    } else {
        assert(joined =~= base + seq![path::SEPARATOR] + rest);
        body_components_split(base, rest);
        lemma_first_segment_split(base, rest);
        assert(joined[0] == base[0]);
    }
    assert(path::components(joined) =~= path::components(base) + path::body_components(rest));
}

proof fn lemma_path_after_none(s: Seq<u8>)
    ensures
        path::components(path::path_after(s, 0)) == path::components(s),
{
    let h = path::head_components(s).len() as int;
    let t = path::trim_end(s.skip(h));
    let r = path::path_after(s, 0);
    lemma_body_after_head(s);
    lemma_trim_end(s.skip(h));
    path::lemma_segment_len(s);
    if h == 0 {
        assert(s.skip(0) =~= s);
        assert(r =~= t);
        if s.len() > 0 {
            assert(!path::is_noise(path::first_segment(s))) by {
                if path::first_segment(s).len() == 0 {
                    assert(path::is_absolute(s));
                }
            }
        } else {
            assert(t =~= s);
        }
        lemma_head_empty(r);
        lemma_head_empty(s);
    } else if path::is_absolute(s) {
        let empty = Seq::<u8>::empty();
        body_components_split(empty, t);
        assert(r =~= empty + seq![path::SEPARATOR] + t);
        assert(path::body_components(r) =~= path::body_components(s));
    } else {
        let dot = path::current_dir();
        assert(path::first_segment(s).len() == 1);
        assert(s[0] == path::first_segment(s)[0]);
        assert(s.take(1) =~= dot);
        assert(!dot.contains(path::SEPARATOR));
        body_components_of_segment(dot);
        if t.len() == 0 {
            assert(r =~= dot);
            path::lemma_segment_len_at(dot, 1);
            assert(path::first_segment(dot) =~= dot);
            assert(path::body_components(t) =~= Seq::empty());
        } else {
            let empty = Seq::<u8>::empty();
            assert(t[0] == s[1]);
            assert(t =~= empty + seq![path::SEPARATOR] + t.skip(1));
            assert(r =~= dot + seq![path::SEPARATOR] + t.skip(1));
            body_components_split(dot, t.skip(1));
            body_components_split(empty, t.skip(1));
            lemma_first_segment_split(dot, t.skip(1));
            path::lemma_segment_len_at(dot, 1);
            assert(path::first_segment(dot) =~= dot);
            assert(path::body_components(r) =~= path::body_components(s));
        }
    }
    assert(path::components(r) =~= path::components(s));
}

/// A path relative to `base` has the components of the path that follow those of `base`. Unless
/// `base` is empty, it starts neither with `/` nor with `.`.
pub proof fn strip_prefix_components(s: Seq<u8>, base: Seq<u8>)
    requires
        path::path_starts_with(s, base),
    ensures
        path::path_strip_prefix(s, base) matches Some(rest) && path::components(base)
            + path::components(rest) == path::components(s) && (path::components(base).len() > 0
            ==> path::components(rest) == path::body_components(rest) && !path::is_absolute(rest)),
{
    let n = path::components(base).len();
    let rest = path::path_after(s, n);
    if n == 0 {
        lemma_path_after_none(s);
        assert(path::components(base) + path::components(rest) =~= path::components(s));
    } else {
        let h = path::head_components(s).len();
        lemma_body_after_head(s);
        let after = path::bytes_after(s.skip(h as int), (n - h) as nat);
        lemma_bytes_after(s.skip(h as int), (n - h) as nat);
        lemma_trim_start(after);
        lemma_trim_end(path::trim_start(after));
        if path::trim_start(after).len() == 0 {
            assert(rest.len() == 0);
        }
        lemma_head_empty(rest);
        path::lemma_segment_len(rest);
        assert(path::components(rest) =~= path::body_components(rest));
        assert(path::components(s).skip(n as int) =~= path::body_components(s).skip(n - h));
        assert(path::components(base) + path::components(rest) =~= path::components(s));
    }
}

/// A path relative to `base`, joined onto `base`, is the path again.
pub proof fn strip_prefix_then_join(s: Seq<u8>, base: Seq<u8>)
    requires
        path::path_starts_with(s, base),
    ensures
        path::path_strip_prefix(s, base) matches Some(rest) && path::components(
            path::path_join(base, rest),
        ) == path::components(s),
{
    let rest = path::path_after(s, path::components(base).len());
    strip_prefix_components(s, base);
    if base.len() == 0 {
        assert(path::path_join(base, rest) =~= rest);
        path::lemma_segment_len(base);
        assert(path::first_segment(base).len() == 0);
        assert(path::components(base) =~= Seq::empty());
        assert(path::components(base) + path::components(rest) =~= path::components(rest));
    } else {
        assert(path::components(base).len() > 0) by {
            path::lemma_segment_len(base);
            if path::head_components(base).len() == 0 {
                assert(!path::is_noise(path::first_segment(base)));
            }
        }
        join_components(base, rest);
    }
}

/// The byte `/` separates: what stands before it and what stands after it contribute their
/// components independently of each other.
pub proof fn slash_separates(a: Seq<u8>, b: Seq<u8>)
    ensures
        path::body_components(a + seq![0x2fu8] + b) == path::body_components(a)
            + path::body_components(b),
{
    body_components_split(a, b);
}

/// Bytes without `/` are one component as they are, unless there are none or only a dot.
pub proof fn segment_is_one_component(segment: Seq<u8>)
    requires
        forall|i: int| 0 <= i < segment.len() ==> segment[i] != 0x2f,
    ensures
        segment.len() == 0 || segment == seq![0x2eu8] ==> path::body_components(segment).len() == 0,
        segment.len() > 0 && segment != seq![0x2eu8] ==> path::body_components(segment) == seq![
            segment,
        ],
{
    body_components_of_segment(segment);
}

/// A leading `/` and a leading `.` segment are components of their own; nothing else stands before
/// the segments.
pub proof fn leading_component(s: Seq<u8>)
    ensures
        s.len() > 0 && s[0] == 0x2f ==> path::components(s) == seq![seq![0x2fu8]]
            + path::body_components(s),
        s.len() > 0 && s[0] == 0x2e && (s.len() == 1 || s[1] == 0x2f) ==> path::components(s)
            == seq![seq![0x2eu8]] + path::body_components(s),
        s.len() == 0 || (s[0] != 0x2f && s[0] != 0x2e) || (s[0] == 0x2e && s.len() > 1 && s[1]
            != 0x2f) ==> path::components(s) == path::body_components(s),
{
    path::lemma_segment_len(s);
    if s.len() > 0 && s[0] == 0x2e && (s.len() == 1 || s[1] == 0x2f) {
        path::lemma_segment_len_at(s, 1);
        assert(path::first_segment(s) =~= path::current_dir());
    } else if s.len() == 0 || s[0] != 0x2f {
        assert(path::first_segment(s) != path::current_dir()) by {
            if path::first_segment(s) == path::current_dir() {
                assert(path::first_segment(s).len() == 1);
                assert(path::first_segment(s)[0] == s[0]);
            }
        }
        assert(path::components(s) =~= path::body_components(s));
    }
}

/// A path starts with another one exactly if the components of that one are its own first
/// components, each of them whole.
pub proof fn starts_with_whole_components(p: Seq<u8>, base: Seq<u8>)
    ensures
        path::path_starts_with(p, base) <==> {
            &&& path::components(base).len() <= path::components(p).len()
            &&& forall|i: int|
                0 <= i < path::components(base).len() ==> #[trigger] path::components(p)[i]
                    == path::components(base)[i]
        },
{
    let x = path::components(p);
    let y = path::components(base);
    if y.len() <= x.len() {
        let t = x.subrange(0, y.len() as int);
        if forall|i: int| 0 <= i < y.len() ==> #[trigger] x[i] == y[i] {
            assert(y =~= t);
        }
        if y.is_prefix_of(x) {
            assert forall|i: int| 0 <= i < y.len() implies #[trigger] x[i] == y[i] by {
                assert(t[i] == x[i]);
            }
        }
    }
}

/// A file or directory name is not empty, holds no `/` and is neither `.` nor `..`.
pub proof fn names_are_plain(name: Seq<u8>)
    ensures
        path::is_name(name) <==> name.len() > 0 && name != seq![0x2eu8] && name != seq![
            0x2eu8,
            0x2eu8,
        ] && forall|i: int| 0 <= i < name.len() ==> #[trigger] name[i] != 0x2f,
{
    if !name.contains(path::SEPARATOR) {
        assert forall|i: int| 0 <= i < name.len() implies #[trigger] name[i] != 0x2f by {
            assert(name.contains(name[i]));
        }
    }
}

/// A joined path is the second path if that is absolute; otherwise it is made of the bytes of the
/// first and those of the second, with `/` between them unless the first is empty or ends with it.
pub proof fn joined_bytes(base: Seq<u8>, rest: Seq<u8>)
    ensures
        rest.len() > 0 && rest[0] == 0x2f ==> path::path_join(base, rest) == rest,
        rest.len() == 0 || rest[0] != 0x2f ==> {
            let joined = path::path_join(base, rest);
            let gap: int = if base.len() == 0 || base[base.len() - 1] == 0x2f {
                0
            } else {
                1
            };
            &&& joined.len() == base.len() + gap + rest.len()
            &&& joined.take(base.len() as int) == base
            &&& joined.skip(base.len() + gap) == rest
            &&& gap == 1 ==> joined[base.len() as int] == 0x2f
        },
{
    let joined = path::path_join(base, rest);
    if rest.len() == 0 || rest[0] != 0x2f {
        let gap: int = if base.len() == 0 || base[base.len() - 1] == 0x2f {
            0
        } else {
            1
        };
        assert(joined.take(base.len() as int) =~= base);
        assert(joined.skip(base.len() + gap) =~= rest);
    }
}

proof fn lemma_trimmed(r: Seq<u8>)
    requires
        is_trimmed(r),
    ensures
        path::trim_start(r) == r,
        path::trim_end(r) == r,
        path::head_components(r).len() == 0,
{
    path::lemma_segment_len(r);
    lemma_last_segment(r);
    if path::is_noise(path::first_segment(r)) {
        assert(path::first_segment(r).len() == 1);
        assert(path::first_segment(r)[0] == r[0]);
    }
    if path::is_noise(path::last_segment(r)) {
        let t = path::last_segment(r);
        let n = path::last_segment_len(r) as int;
        if t.len() == 0 {
            assert(r.last() == path::SEPARATOR);
        } else {
            assert(t.len() == 1);
            assert(t[0] == r.last());
            if n < r.len() {
                let a = path::before_last_segment(r);
                assert((a + seq![path::SEPARATOR] + t)[r.len() - 2] == path::SEPARATOR);
            }
        }
    }
    lemma_head_empty(r);
}

/// A path that is not empty, and neither starts nor ends with `/` or with a `.` segment.
pub open spec fn is_trimmed(r: Seq<u8>) -> bool {
    &&& r.len() > 0
    &&& r[0] != 0x2f
    &&& r[r.len() - 1] != 0x2f
    &&& r[0] == 0x2e ==> r.len() > 1 && r[1] != 0x2f
    &&& r[r.len() - 1] == 0x2e ==> r.len() > 1 && r[r.len() - 2] != 0x2f
}

proof fn lemma_bytes_after_split(a: Seq<u8>, r: Seq<u8>)
    requires
        path::trim_start(r) == r,
    ensures
        path::trim_start(
            path::bytes_after(a + seq![path::SEPARATOR] + r, path::body_components(a).len()),
        ) == r,
    decreases a.len(),
{
    let s = a + seq![path::SEPARATOR] + r;
    let n = path::body_components(a).len();
    path::lemma_segment_len(a);
    lemma_first_segment_split(a, r);
    if a.len() == 0 {
        assert(path::first_segment(s).len() == 0);
        assert(path::after_segment(s) =~= r);
    } else if path::segment_len(a) < a.len() {
        let b = path::after_segment(a);
        assert(path::after_segment(s) =~= b + seq![path::SEPARATOR] + r);
        lemma_bytes_after_split(b, r);
        if path::is_noise(path::first_segment(a)) {
            assert(path::body_components(a) =~= path::body_components(b));
        }
    } else {
        assert(path::first_segment(a) =~= a);
        body_components_of_segment(a);
        assert(path::after_segment(s) =~= r);
        if !path::is_noise(a) {
            assert(n == 1);
            assert(path::bytes_after(r, 0) == r);
        }
    }
}

proof fn lemma_not_empty_has_components(base: Seq<u8>)
    requires
        base.len() > 0,
    ensures
        path::components(base).len() > 0,
{
    path::lemma_segment_len(base);
    if path::head_components(base).len() == 0 {
        assert(!path::is_noise(path::first_segment(base)));
        assert(path::body_components(base).len() > 0);
    }
}

/// What follows the components of `base` in a path joined onto it.
proof fn lemma_after_base(base: Seq<u8>, r: Seq<u8>, h: nat)
    requires
        base.len() > 0,
        is_trimmed(r),
        path::trim_start(r) == r,
        h <= base.len(),
        h <= 1,
    ensures
        path::trim_start(
            path::bytes_after(
                path::path_join(base, r).skip(h as int),
                path::body_components(base.skip(h as int)).len(),
            ),
        ) == r,
{
    let s = path::path_join(base, r);
    let tail = base.skip(h as int);
    if base.last() == path::SEPARATOR {
        if base.len() == h {
            assert(s.skip(h as int) =~= r);
            assert(tail.len() == 0);
            assert(path::body_components(tail).len() == 0);
        } else {
            let a = base.drop_last().skip(h as int);
            let empty = Seq::<u8>::empty();
            assert(tail =~= a + seq![path::SEPARATOR] + empty);
            assert(s.skip(h as int) =~= a + seq![path::SEPARATOR] + r);
            body_components_split(a, empty);
            assert(path::body_components(empty).len() == 0);
            lemma_bytes_after_split(a, r);
        }
    } else {
        assert(s.skip(h as int) =~= tail + seq![path::SEPARATOR] + r);
        lemma_bytes_after_split(tail, r);
    }
}

/// What was joined onto a path comes back, byte for byte, when that path is removed again.
pub proof fn join_then_strip_prefix(base: Seq<u8>, r: Seq<u8>)
    requires
        is_trimmed(r),
    ensures
        path::path_strip_prefix(path::path_join(base, r), base) == Some(r),
{
    let s = path::path_join(base, r);
    let n = path::components(base).len();
    if base.len() == 0 {
        assert(path::path_strip_prefix(s, base) == Some(r)) by {
            lemma_trimmed(r);
            path::lemma_segment_len(base);
            assert(path::first_segment(base).len() == 0);
            assert(path::components(base) =~= Seq::empty());
            assert(s =~= r);
            assert(s.skip(0) =~= s);
            assert(path::components(base) =~= path::components(s).subrange(0, 0));
            assert(path::path_after(s, 0) =~= r);
        }
    } else {
        let h = path::head_components(base).len();
        assert(path::path_starts_with(s, base)) by {
            join_components(base, r);
            assert(path::components(base) =~= path::components(s).subrange(0, n as int));
        }
        assert(n > 0) by {
            lemma_not_empty_has_components(base);
        }
        assert(path::head_components(s).len() == h) by {
            lemma_join_head(base, r);
        }
        assert(h <= base.len() && path::body_components(base.skip(h as int)).len() == n - h) by {
            lemma_body_after_head(base);
        }
        assert(path::trim_start(path::bytes_after(s.skip(h as int), (n - h) as nat)) == r) by {
            lemma_trimmed(r);
            lemma_after_base(base, r, h);
        }
        assert(path::trim_end(r) == r) by {
            lemma_trimmed(r);
        }
    }
}

proof fn lemma_join_head(base: Seq<u8>, r: Seq<u8>)
    requires
        base.len() > 0,
        !path::is_absolute(r),
    ensures
        path::head_components(path::path_join(base, r)) == path::head_components(base),
{
    let s = path::path_join(base, r);
    assert(s[0] == base[0]);
    if base.last() == path::SEPARATOR {
        let a = base.drop_last();
        let empty = Seq::<u8>::empty();
        assert(s =~= a + seq![path::SEPARATOR] + r);
        assert(base =~= a + seq![path::SEPARATOR] + empty);
        lemma_first_segment_split(a, r);
        lemma_first_segment_split(a, empty);
    } else {
        assert(s =~= base + seq![path::SEPARATOR] + r);
        lemma_first_segment_split(base, r);
    }
}

/// A path relative to an equal path is empty.
pub proof fn strip_prefix_of_equal(s: Seq<u8>, base: Seq<u8>)
    requires
        path::components(s) == path::components(base),
    ensures
        path::path_strip_prefix(s, base) == Some(Seq::<u8>::empty()),
{
    let n = path::components(base).len();
    assert(path::components(base) =~= path::components(s).subrange(0, n as int));
    strip_prefix_components(s, base);
    let rest = path::path_strip_prefix(s, base)->Some_0;
    assert(path::components(rest) =~= Seq::empty());
    path::lemma_segment_len(rest);
    if rest.len() > 0 {
        assert(path::head_components(rest).len() == 0);
        assert(!path::is_noise(path::first_segment(rest)));
        assert(path::body_components(rest).len() > 0);
    }
    assert(rest =~= Seq::<u8>::empty());
}

proof fn lemma_last_dot(stem: Seq<u8>, ext: Seq<u8>)
    requires
        forall|i: int| 0 <= i < ext.len() ==> ext[i] != 0x2e,
    ensures
        path::last_dot(stem + seq![0x2eu8] + ext) == stem.len(),
    decreases ext.len(),
{
    let s = stem + seq![0x2eu8] + ext;
    if ext.len() > 0 {
        assert(s.last() == ext.last());
        assert(s.drop_last() =~= stem + seq![0x2eu8] + ext.drop_last());
        lemma_last_dot(stem, ext.drop_last());
    }
}

proof fn lemma_no_dot(s: Seq<u8>)
    requires
        forall|i: int| 0 <= i < s.len() ==> s[i] != 0x2e,
    ensures
        path::last_dot(s) == -1,
    decreases s.len(),
{
    if s.len() > 0 {
        lemma_no_dot(s.drop_last());
    }
}

/// The last component of a path that a name was joined onto is that name.
pub proof fn last_component_of_joined(dir: Seq<u8>, name: Seq<u8>)
    requires
        name.len() > 0,
        name != seq![0x2eu8],
        forall|i: int| 0 <= i < name.len() ==> name[i] != 0x2f,
    ensures
        path::components(path::path_join(dir, name)).len() > 0,
        path::components(path::path_join(dir, name)).last() == name,
{
    segment_is_one_component(name);
    if dir.len() == 0 {
        assert(path::path_join(dir, name) =~= name);
        leading_component(name);
        assert(name.len() == 1 ==> name[0] != 0x2e) by {
            if name.len() == 1 && name[0] == 0x2e {
                assert(name =~= seq![0x2eu8]);
            }
        }
    } else {
        join_components(dir, name);
    }
}

/// The extension of a file is what follows the last dot of its name, where something stands before
/// that dot.
pub proof fn extension_follows_last_dot(dir: Seq<u8>, stem: Seq<u8>, ext: Seq<u8>)
    requires
        stem.len() > 0,
        forall|i: int| 0 <= i < stem.len() ==> stem[i] != 0x2f,
        forall|i: int| 0 <= i < ext.len() ==> ext[i] != 0x2f && ext[i] != 0x2e,
        stem == seq![0x2eu8] ==> ext.len() > 0,
    ensures
        path::path_extension(path::path_join(dir, stem + seq![0x2eu8] + ext)) == Some(ext),
{
    let name = stem + seq![0x2eu8] + ext;
    assert(name.len() >= 2);
    assert(name != seq![0x2eu8, 0x2eu8]) by {
        if name == seq![0x2eu8, 0x2eu8] {
            assert(stem.len() == 1 && ext.len() == 0);
            assert(name[0] == stem[0]);
            assert(stem =~= seq![0x2eu8]);
        }
    }
    assert(name != seq![0x2eu8]) by {
        assert(name.len() != seq![0x2eu8].len());
    }
    last_component_of_joined(dir, name);
    names_are_plain(name);
    lemma_last_dot(stem, ext);
    assert(name.skip(stem.len() as int + 1) =~= ext);
}

/// A file whose name has no dot but at its start has no extension, nor has a path that ends in
/// `..`.
pub proof fn no_extension_without_dot(dir: Seq<u8>, name: Seq<u8>)
    requires
        name.len() > 0,
        name != seq![0x2eu8],
        forall|i: int| 0 <= i < name.len() ==> name[i] != 0x2f,
        (forall|i: int| 1 <= i < name.len() ==> name[i] != 0x2e) || name == seq![0x2eu8, 0x2eu8],
    ensures
        path::path_extension(path::path_join(dir, name)) is None,
{
    last_component_of_joined(dir, name);
    names_are_plain(name);
    if name != seq![0x2eu8, 0x2eu8] {
        if name[0] == 0x2e {
            let rest = name.skip(1);
            assert(name =~= Seq::<u8>::empty() + seq![0x2eu8] + rest);
            lemma_last_dot(Seq::empty(), rest);
        } else {
            lemma_no_dot(name);
        }
    }
}

/// Paths with the same last component have the same extension; the root directory has none.
pub proof fn extension_is_of_last_component(a: Seq<u8>, b: Seq<u8>)
    ensures
        path::components(a).len() > 0 && path::components(b).len() > 0 && path::components(a).last()
            == path::components(b).last() ==> path::path_extension(a) == path::path_extension(b),
        path::components(a).len() == 0 || path::components(a).last() == seq![0x2fu8]
            ==> path::path_extension(a) is None,
{
    names_are_plain(seq![0x2fu8]);
    assert(seq![0x2fu8][0] == 0x2f);
}

/// The bytes of a list of paths are those of each path, and the paths spelled by texts are the
/// encodings of each text.
pub proof fn views_are_pointwise(paths: Seq<path::PathBuf>, texts: Seq<Seq<char>>)
    ensures
        path::path_views(paths).len() == paths.len(),
        forall|i: int| 0 <= i < paths.len() ==> #[trigger] path::path_views(paths)[i] == paths[i]@,
        path::spelled_paths(texts).len() == texts.len(),
        forall|i: int|
            0 <= i < texts.len() ==> #[trigger] path::spelled_paths(texts)[i]
                == vstd::utf8::encode_utf8(texts[i]),
{
}

proof fn lemma_trim_end_last(s: Seq<u8>)
    ensures
        path::trim_end(s).len() > 0 ==> !path::is_noise(path::last_segment(path::trim_end(s))),
    decreases s.len(),
{
    if s.len() > 0 && path::is_noise(path::last_segment(s)) {
        lemma_last_segment(s);
        lemma_trim_end_last(path::before_last_segment(s));
    }
}

proof fn lemma_bytes_after_is_tail(s: Seq<u8>, n: nat) -> (at: int)
    ensures
        0 <= at <= s.len(),
        path::bytes_after(s, n) == s.skip(at),
    decreases s.len(),
{
    path::lemma_segment_len(s);
    if n == 0 || s.len() == 0 {
        assert(s.skip(0) =~= s);
        0
    } else {
        let t = path::after_segment(s);
        let m = if path::is_noise(path::first_segment(s)) {
            n
        } else {
            (n - 1) as nat
        };
        let sub = lemma_bytes_after_is_tail(t, m);
        let at = s.len() - t.len() + sub;
        assert(t.skip(sub) =~= s.skip(at));
        at
    }
}

proof fn lemma_trim_start_is_tail(s: Seq<u8>) -> (at: int)
    ensures
        0 <= at <= s.len(),
        path::trim_start(s) == s.skip(at),
    decreases s.len(),
{
    path::lemma_segment_len(s);
    if s.len() > 0 && path::is_noise(path::first_segment(s)) {
        let t = path::after_segment(s);
        let sub = lemma_trim_start_is_tail(t);
        let at = s.len() - t.len() + sub;
        assert(t.skip(sub) =~= s.skip(at));
        at
    } else {
        assert(s.skip(0) =~= s);
        0
    }
}

proof fn lemma_trimmed_part(tail: Seq<u8>, n: nat) -> (at: (int, int))
    ensures
        0 <= at.0 <= at.1 <= tail.len(),
        path::trim_end(path::trim_start(path::bytes_after(tail, n))) == tail.subrange(at.0, at.1),
{
    let after = path::bytes_after(tail, n);
    let x = path::trim_start(after);
    let rest = path::trim_end(x);
    let a = lemma_bytes_after_is_tail(tail, n);
    let b = lemma_trim_start_is_tail(after);
    assert(rest.len() <= x.len() && rest == x.take(rest.len() as int)) by {
        lemma_trim_end(x);
    }
    assert(rest =~= tail.subrange(a + b, a + b + rest.len()));
    (a + b, a + b + rest.len())
}

proof fn lemma_trimmed_both(after: Seq<u8>)
    ensures
        path::trim_end(path::trim_start(after)).len() > 0 ==> is_trimmed(
            path::trim_end(path::trim_start(after)),
        ),
{
    let x = path::trim_start(after);
    let rest = path::trim_end(x);
    if rest.len() > 0 {
        assert(x.len() > 0 && !path::is_noise(path::first_segment(x))) by {
            lemma_trim_start(after);
            lemma_trim_end(x);
        }
        assert(path::first_segment(rest) == path::first_segment(x)) by {
            lemma_trim_end(x);
        }
        lemma_trim_end_last(x);
        lemma_not_noise_ends(rest);
    }
}

/// A path relative to a path that is not empty is a part of the bytes of the path, and neither
/// starts nor ends with `/` or with a `.` segment.
pub proof fn stripped_path_is_trimmed_part(s: Seq<u8>, base: Seq<u8>)
    requires
        path::path_starts_with(s, base),
        base.len() > 0,
    ensures
        path::path_strip_prefix(s, base) matches Some(rest) && (rest.len() == 0 || is_trimmed(rest))
            && exists|i: int, j: int| 0 <= i <= j <= s.len() && rest == #[trigger] s.subrange(i, j),
{
    let n = path::components(base).len();
    let h = path::head_components(s).len();
    let tail = s.skip(h as int);
    let m = (n - h) as nat;
    let rest = path::trim_end(path::trim_start(path::bytes_after(tail, m)));
    assert(n > 0) by {
        lemma_not_empty_has_components(base);
    }
    assert(h <= s.len()) by {
        lemma_body_after_head(s);
    }
    assert(path::path_strip_prefix(s, base) == Some(rest));
    lemma_trimmed_both(path::bytes_after(tail, m));
    let at = lemma_trimmed_part(tail, m);
    assert(rest =~= s.subrange(h + at.0, h + at.1));
}

proof fn lemma_not_noise_ends(r: Seq<u8>)
    requires
        r.len() > 0,
        !path::is_noise(path::first_segment(r)),
        !path::is_noise(path::last_segment(r)),
    ensures
        is_trimmed(r),
{
    path::lemma_segment_len(r);
    lemma_last_segment(r);
    if r[0] == 0x2e && (r.len() == 1 || r[1] == 0x2f) {
        path::lemma_segment_len_at(r, 1);
        assert(path::first_segment(r) =~= path::current_dir());
    }
    let n = r.len() as int;
    if r[n - 1] == 0x2e && (n == 1 || r[n - 2] == 0x2f) {
        let t = r.drop_last();
        assert(path::last_segment_len(t) == 0);
        assert(path::last_segment_len(r) == 1);
        assert(path::last_segment(r) =~= path::current_dir());
    }
    if r[n - 1] == 0x2f {
        assert(path::last_segment_len(r) == 0);
        assert(path::last_segment(r).len() == 0);
    }
}

/// Two paths are equal exactly if they have the same components.
pub proof fn equal_paths(a: path::PathBuf, b: path::PathBuf)
    ensures
        vstd::std_specs::cmp::PartialEqSpec::eq_spec(&a, &b) <==> path::components(a@)
            == path::components(b@),
{
}

} // verus!
