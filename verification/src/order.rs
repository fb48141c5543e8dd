//! Lexicographic order on byte strings and on lists of byte strings.

use vstd::prelude::*;

verus! {

/// How a first value stands to a second one in a total order.
#[derive(Clone, Copy, Debug, PartialEq, Eq, Structural)]
pub enum Relation {
    Before,
    Same,
    After,
}

/// `a` comes strictly before `b` in the lexicographic order of bytes.
pub open spec fn bytes_before(a: Seq<u8>, b: Seq<u8>) -> bool
    decreases a.len(),
{
    if b.len() == 0 {
        false
    } else if a.len() == 0 {
        true
    } else if a[0] != b[0] {
        a[0] < b[0]
    } else {
        bytes_before(a.skip(1), b.skip(1))
    }
}

/// `a` comes strictly before `b` in the lexicographic order of lists of byte strings.
pub open spec fn list_before(a: Seq<Seq<u8>>, b: Seq<Seq<u8>>) -> bool
    decreases a.len(),
{
    if b.len() == 0 {
        false
    } else if a.len() == 0 {
        true
    } else if a[0] != b[0] {
        bytes_before(a[0], b[0])
    } else {
        list_before(a.skip(1), b.skip(1))
    }
}

/// The byte slices of `s` as byte strings.
pub open spec fn slice_views(s: Seq<&[u8]>) -> Seq<Seq<u8>> {
    s.map_values(|x: &[u8]| x@)
}

/// No byte string comes before itself.
pub proof fn bytes_before_irreflexive(a: Seq<u8>)
    ensures
        !bytes_before(a, a),
    decreases a.len(),
{
    if a.len() > 0 {
        bytes_before_irreflexive(a.skip(1));
    }
}

/// Of two different byte strings one comes before the other.
pub proof fn bytes_before_total(a: Seq<u8>, b: Seq<u8>)
    ensures
        bytes_before(a, b) || a == b || bytes_before(b, a),
    decreases a.len(),
{
    if a.len() > 0 && b.len() > 0 && a[0] == b[0] {
        bytes_before_total(a.skip(1), b.skip(1));
        if a.skip(1) == b.skip(1) {
            assert(a =~= seq![a[0]] + a.skip(1));
            assert(b =~= seq![b[0]] + b.skip(1));
        }
    } else if a.len() == 0 && b.len() == 0 {
        assert(a =~= b);
    }
}

/// The order of byte strings is transitive.
pub proof fn bytes_before_transitive(a: Seq<u8>, b: Seq<u8>, c: Seq<u8>)
    requires
        bytes_before(a, b),
        bytes_before(b, c),
    ensures
        bytes_before(a, c),
    decreases a.len(),
{
    if a.len() > 0 && a[0] == b[0] && b[0] == c[0] {
        bytes_before_transitive(a.skip(1), b.skip(1), c.skip(1));
    }
}

/// No list comes before itself.
pub proof fn list_before_irreflexive(a: Seq<Seq<u8>>)
    ensures
        !list_before(a, a),
    decreases a.len(),
{
    if a.len() > 0 {
        list_before_irreflexive(a.skip(1));
    }
}

/// Of two different lists one comes before the other.
pub proof fn list_before_total(a: Seq<Seq<u8>>, b: Seq<Seq<u8>>)
    ensures
        list_before(a, b) || a == b || list_before(b, a),
    decreases a.len(),
{
    if a.len() > 0 && b.len() > 0 {
        if a[0] == b[0] {
            list_before_total(a.skip(1), b.skip(1));
            if a.skip(1) == b.skip(1) {
                assert(a =~= seq![a[0]] + a.skip(1));
                assert(b =~= seq![b[0]] + b.skip(1));
            }
        } else {
            bytes_before_total(a[0], b[0]);
        }
    } else if a.len() == 0 && b.len() == 0 {
        assert(a =~= b);
    }
}

/// The order of lists is transitive.
pub proof fn list_before_transitive(a: Seq<Seq<u8>>, b: Seq<Seq<u8>>, c: Seq<Seq<u8>>)
    requires
        list_before(a, b),
        list_before(b, c),
    ensures
        list_before(a, c),
    decreases a.len(),
{
    if a.len() > 0 {
        if a[0] == b[0] && b[0] == c[0] {
            list_before_transitive(a.skip(1), b.skip(1), c.skip(1));
        } else if a[0] != b[0] && b[0] != c[0] {
            bytes_before_transitive(a[0], b[0], c[0]);
            bytes_before_irreflexive(a[0]);
        }
    }
}

/// Compares two byte slices.
pub fn compare_bytes(a: &[u8], b: &[u8]) -> (r: Relation)
    ensures
        r == Relation::Before <==> bytes_before(a@, b@),
        r == Relation::Same <==> a@ == b@,
        r == Relation::After <==> bytes_before(b@, a@),
{
    let mut i: usize = 0;
    proof {
        bytes_before_irreflexive(a@);
        assert(a@.skip(0) =~= a@);
        assert(b@.skip(0) =~= b@);
    }
    while i < a.len() && i < b.len()
        invariant
            i <= a.len(),
            i <= b.len(),
            forall|k: int| 0 <= k < i ==> a@[k] == b@[k],
            bytes_before(a@, b@) == bytes_before(a@.skip(i as int), b@.skip(i as int)),
            bytes_before(b@, a@) == bytes_before(b@.skip(i as int), a@.skip(i as int)),
        decreases a.len() - i,
    {
        if a[i] < b[i] {
            return Relation::Before;
        }
        if b[i] < a[i] {
            return Relation::After;
        }
        proof {
            assert(a@.skip(i as int).skip(1) =~= a@.skip(i + 1));
            assert(b@.skip(i as int).skip(1) =~= b@.skip(i + 1));
        }
        i = i + 1;
    }
    if i < b.len() {
        Relation::Before
    } else if i < a.len() {
        Relation::After
    } else {
        assert(a@ =~= b@);
        Relation::Same
    }
}

/// Compares two lists of byte slices.
pub fn compare_lists(a: &Vec<&[u8]>, b: &Vec<&[u8]>) -> (r: Relation)
    ensures
        r == Relation::Before <==> list_before(slice_views(a@), slice_views(b@)),
        r == Relation::Same <==> slice_views(a@) == slice_views(b@),
        r == Relation::After <==> list_before(slice_views(b@), slice_views(a@)),
{
    let ghost x = slice_views(a@);
    let ghost y = slice_views(b@);
    let mut i: usize = 0;
    proof {
        list_before_irreflexive(x);
        assert(x.skip(0) =~= x);
        assert(y.skip(0) =~= y);
    }
    while i < a.len() && i < b.len()
        invariant
            x == slice_views(a@),
            y == slice_views(b@),
            i <= a.len(),
            i <= b.len(),
            forall|k: int| 0 <= k < i ==> x[k] == y[k],
            list_before(x, y) == list_before(x.skip(i as int), y.skip(i as int)),
            list_before(y, x) == list_before(y.skip(i as int), x.skip(i as int)),
        decreases a.len() - i,
    {
        proof {
            assert(x.skip(i as int)[0] == a@[i as int]@);
            assert(y.skip(i as int)[0] == b@[i as int]@);
            bytes_before_irreflexive(a@[i as int]@);
        }
        match compare_bytes(a[i], b[i]) {
            Relation::Before => {
                return Relation::Before;
            },
            Relation::After => {
                return Relation::After;
            },
            Relation::Same => {},
        }
        proof {
            assert(x.skip(i as int).skip(1) =~= x.skip(i + 1));
            assert(y.skip(i as int).skip(1) =~= y.skip(i + 1));
        }
        i = i + 1;
    }
    if i < b.len() {
        Relation::Before
    } else if i < a.len() {
        Relation::After
    } else {
        assert(x =~= y);
        Relation::Same
    }
}

/// The first byte in which two byte strings differ decides; where the one is the start of the
/// other, the shorter comes first.
pub proof fn first_difference_decides(common: Seq<u8>, x: u8, a: Seq<u8>, y: u8, b: Seq<u8>)
    requires
        x < y,
    ensures
        bytes_before(common + seq![x] + a, common + seq![y] + b),
        bytes_before(common, common + seq![x] + a),
    decreases common.len(),
{
    let p = common + seq![x] + a;
    let q = common + seq![y] + b;
    if common.len() > 0 {
        let rest = common.skip(1);
        first_difference_decides(rest, x, a, y, b);
        assert(p.skip(1) =~= rest + seq![x] + a);
        assert(q.skip(1) =~= rest + seq![y] + b);
        assert(p[0] == common[0] && q[0] == common[0]);
    } else {
        assert(p[0] == x && q[0] == y);
    }
}

/// The first element in which two lists differ decides; where the one is the start of the other,
/// the shorter comes first.
pub proof fn first_different_element_decides(
    common: Seq<Seq<u8>>,
    x: Seq<u8>,
    a: Seq<Seq<u8>>,
    y: Seq<u8>,
    b: Seq<Seq<u8>>,
)
    requires
        bytes_before(x, y),
    ensures
        list_before(common + seq![x] + a, common + seq![y] + b),
        list_before(common, common + seq![x] + a),
    decreases common.len(),
{
    let p = common + seq![x] + a;
    let q = common + seq![y] + b;
    if common.len() > 0 {
        let rest = common.skip(1);
        first_different_element_decides(rest, x, a, y, b);
        assert(p.skip(1) =~= rest + seq![x] + a);
        assert(q.skip(1) =~= rest + seq![y] + b);
        assert(p[0] == common[0] && q[0] == common[0]);
    } else {
        assert(p[0] == x && q[0] == y);
        bytes_before_irreflexive(x);
    }
}

/// The byte strings of slices are those of each slice.
pub proof fn slice_views_are_pointwise(s: Seq<&[u8]>)
    ensures
        slice_views(s).len() == s.len(),
        forall|i: int| 0 <= i < s.len() ==> #[trigger] slice_views(s)[i] == s[i]@,
{
}

} // verus!
