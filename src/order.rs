//! The order of relative paths: lexicographic over path components, each
//! component compared byte by byte.

use vstd::prelude::*;
use vstd::relations::*;

verus! {

/// Byte-wise lexicographic order on file name components.
pub open spec fn bytes_le(a: Seq<u8>, b: Seq<u8>) -> bool
    decreases a.len(),
{
    if a.len() == 0 {
        true
    } else if b.len() == 0 {
        false
    } else if a[0] != b[0] {
        a[0] < b[0]
    } else {
        bytes_le(a.drop_first(), b.drop_first())
    }
}

/// Lexicographic order on paths, given as sequences of components.
pub open spec fn path_le(a: Seq<Seq<u8>>, b: Seq<Seq<u8>>) -> bool
    decreases a.len(),
{
    if a.len() == 0 {
        true
    } else if b.len() == 0 {
        false
    } else if a[0] != b[0] {
        bytes_le(a[0], b[0])
    } else {
        path_le(a.drop_first(), b.drop_first())
    }
}

/// `path_le` as a relation value, for use with `sorted_by` and `sort_by`.
pub open spec fn path_order() -> spec_fn(Seq<Seq<u8>>, Seq<Seq<u8>>) -> bool {
    |a: Seq<Seq<u8>>, b: Seq<Seq<u8>>| path_le(a, b)
}

proof fn lemma_bytes_le_reflexive(a: Seq<u8>)
    ensures
        bytes_le(a, a),
    decreases a.len(),
{
    if a.len() > 0 {
        lemma_bytes_le_reflexive(a.drop_first());
    }
}

proof fn lemma_bytes_le_antisymmetric(a: Seq<u8>, b: Seq<u8>)
    requires
        bytes_le(a, b),
        bytes_le(b, a),
    ensures
        a == b,
    decreases a.len(),
{
    if a.len() > 0 && b.len() > 0 {
        lemma_bytes_le_antisymmetric(a.drop_first(), b.drop_first());
        assert(a =~= seq![a[0]] + a.drop_first());
        assert(b =~= seq![b[0]] + b.drop_first());
    }
}

proof fn lemma_bytes_le_transitive(a: Seq<u8>, b: Seq<u8>, c: Seq<u8>)
    requires
        bytes_le(a, b),
        bytes_le(b, c),
    ensures
        bytes_le(a, c),
    decreases a.len(),
{
    if a.len() > 0 && b.len() > 0 && c.len() > 0 {
        if a[0] == b[0] && b[0] == c[0] {
            lemma_bytes_le_transitive(a.drop_first(), b.drop_first(), c.drop_first());
        }
    }
}

proof fn lemma_bytes_le_total(a: Seq<u8>, b: Seq<u8>)
    ensures
        bytes_le(a, b) || bytes_le(b, a),
    decreases a.len(),
{
    if a.len() > 0 && b.len() > 0 {
        lemma_bytes_le_total(a.drop_first(), b.drop_first());
    }
}

proof fn lemma_path_le_reflexive(a: Seq<Seq<u8>>)
    ensures
        path_le(a, a),
    decreases a.len(),
{
    if a.len() > 0 {
        lemma_path_le_reflexive(a.drop_first());
    }
}

proof fn lemma_path_le_antisymmetric(a: Seq<Seq<u8>>, b: Seq<Seq<u8>>)
    requires
        path_le(a, b),
        path_le(b, a),
    ensures
        a == b,
    decreases a.len(),
{
    if a.len() > 0 && b.len() > 0 {
        if a[0] != b[0] {
            lemma_bytes_le_antisymmetric(a[0], b[0]);
        } else {
            lemma_path_le_antisymmetric(a.drop_first(), b.drop_first());
            assert(a =~= seq![a[0]] + a.drop_first());
            assert(b =~= seq![b[0]] + b.drop_first());
        }
    }
}

proof fn lemma_path_le_transitive(a: Seq<Seq<u8>>, b: Seq<Seq<u8>>, c: Seq<Seq<u8>>)
    requires
        path_le(a, b),
        path_le(b, c),
    ensures
        path_le(a, c),
    decreases a.len(),
{
    if a.len() > 0 && b.len() > 0 && c.len() > 0 {
        if a[0] == b[0] && b[0] == c[0] {
            lemma_path_le_transitive(a.drop_first(), b.drop_first(), c.drop_first());
        } else if a[0] != b[0] && b[0] != c[0] {
            lemma_bytes_le_transitive(a[0], b[0], c[0]);
            if a[0] == c[0] {
                lemma_bytes_le_antisymmetric(a[0], b[0]);
            }
        }
    }
}

proof fn lemma_path_le_total(a: Seq<Seq<u8>>, b: Seq<Seq<u8>>)
    ensures
        path_le(a, b) || path_le(b, a),
    decreases a.len(),
{
    if a.len() > 0 && b.len() > 0 {
        if a[0] != b[0] {
            lemma_bytes_le_total(a[0], b[0]);
        } else {
            lemma_path_le_total(a.drop_first(), b.drop_first());
        }
    }
}

/// The path order is a total order.
pub proof fn lemma_path_order_total()
    ensures
        total_ordering(path_order()),
{
    assert forall|x: Seq<Seq<u8>>| #[trigger] path_order()(x, x) by {
        lemma_path_le_reflexive(x);
    }
    assert forall|x: Seq<Seq<u8>>, y: Seq<Seq<u8>>|
        #[trigger] path_order()(x, y) && #[trigger] path_order()(y, x) implies x == y by {
        lemma_path_le_antisymmetric(x, y);
    }
    assert forall|x: Seq<Seq<u8>>, y: Seq<Seq<u8>>, z: Seq<Seq<u8>>|
        #[trigger] path_order()(x, y) && #[trigger] path_order()(y, z) implies path_order()(
        x,
        z,
    ) by {
        lemma_path_le_transitive(x, y, z);
    }
    assert forall|x: Seq<Seq<u8>>, y: Seq<Seq<u8>>|
        #[trigger] path_order()(x, y) || #[trigger] path_order()(y, x) by {
        lemma_path_le_total(x, y);
    }
}

/// Two sequences that are sorted by a total order and hold the same
/// elements, counted with multiplicity, are equal.
pub proof fn lemma_sorted_permutations_equal(a: Seq<Seq<Seq<u8>>>, b: Seq<Seq<Seq<u8>>>)
    requires
        sorted_by(a, path_order()),
        sorted_by(b, path_order()),
        a.to_multiset() == b.to_multiset(),
    ensures
        a == b,
    decreases a.len(),
{
    broadcast use vstd::seq_lib::group_to_multiset_ensures;

    lemma_path_order_total();
    if a.len() == 0 {
        assert(b.to_multiset().len() == 0);
        assert(b =~= a);
    } else {
        assert(a.to_multiset().len() == a.len());
        assert(b.to_multiset().len() == b.len());
        assert(a.contains(a[0]));
        assert(b.contains(b[0]));
        assert(a.to_multiset().count(a[0]) > 0);
        assert(b.to_multiset().count(b[0]) > 0);
        assert(b.contains(a[0]));
        assert(a.contains(b[0]));
        let i = choose|i: int| 0 <= i < b.len() && b[i] == a[0];
        let j = choose|j: int| 0 <= j < a.len() && a[j] == b[0];
        assert(path_order()(b[0], b[i]));
        assert(path_order()(a[0], a[j]));
        lemma_path_le_antisymmetric(a[0], b[0]);
        let ra = a.drop_first();
        let rb = b.drop_first();
        assert(ra =~= a.remove(0));
        assert(rb =~= b.remove(0));
        assert(ra.to_multiset() =~= a.to_multiset().remove(a[0]));
        assert(rb.to_multiset() =~= b.to_multiset().remove(b[0]));
        assert(sorted_by(ra, path_order())) by {
            assert forall|x: int, y: int| 0 <= x < y < ra.len() implies #[trigger] path_order()(
                ra[x],
                ra[y],
            ) by {
                assert(ra[x] == a[x + 1] && ra[y] == a[y + 1]);
            }
        }
        assert(sorted_by(rb, path_order())) by {
            assert forall|x: int, y: int| 0 <= x < y < rb.len() implies #[trigger] path_order()(
                rb[x],
                rb[y],
            ) by {
                assert(rb[x] == b[x + 1] && rb[y] == b[y + 1]);
            }
        }
        lemma_sorted_permutations_equal(ra, rb);
        assert(a =~= seq![a[0]] + ra);
        assert(b =~= seq![b[0]] + rb);
    }
}

/// Compares two file name components byte by byte.
pub fn component_le(a: &Vec<u8>, b: &Vec<u8>) -> (r: bool)
    ensures
        r == bytes_le(a@, b@),
{
    let mut i: usize = 0;
    assert(a@.skip(0) =~= a@ && b@.skip(0) =~= b@);
    while i < a.len() && i < b.len()
        invariant
            i <= a.len(),
            i <= b.len(),
            bytes_le(a@, b@) == bytes_le(a@.skip(i as int), b@.skip(i as int)),
        decreases a.len() - i,
    {
        if a[i] != b[i] {
            return a[i] < b[i];
        }
        assert(a@.skip(i as int).drop_first() =~= a@.skip(i + 1));
        assert(b@.skip(i as int).drop_first() =~= b@.skip(i + 1));
        i = i + 1;
    }
    i == a.len()
}

/// Compares two relative paths component by component.
pub fn path_less_eq(a: &Vec<Vec<u8>>, b: &Vec<Vec<u8>>) -> (r: bool)
    ensures
        r == path_le(a.deep_view(), b.deep_view()),
{
    let ghost da = a.deep_view();
    let ghost db = b.deep_view();
    let mut i: usize = 0;
    assert(da.skip(0) =~= da && db.skip(0) =~= db);
    while i < a.len() && i < b.len()
        invariant
            i <= a.len(),
            i <= b.len(),
            da == a.deep_view(),
            db == b.deep_view(),
            path_le(da, db) == path_le(da.skip(i as int), db.skip(i as int)),
        decreases a.len() - i,
    {
        let same_component = component_le(&a[i], &b[i]) && component_le(&b[i], &a[i]);
        proof {
            if same_component {
                lemma_bytes_le_antisymmetric(a[i as int]@, b[i as int]@);
            } else {
                lemma_bytes_le_reflexive(a[i as int]@);
            }
            assert(da[i as int] == a[i as int]@);
            assert(db[i as int] == b[i as int]@);
            assert(da.skip(i as int)[0] == da[i as int]);
            assert(db.skip(i as int)[0] == db[i as int]);
        }
        if !same_component {
            return component_le(&a[i], &b[i]);
        }
        assert(da.skip(i as int).drop_first() =~= da.skip(i + 1));
        assert(db.skip(i as int).drop_first() =~= db.skip(i + 1));
        i = i + 1;
    }
    i == a.len()
}

/// Inserts `x` into `v`, kept sorted by the path order, after every element
/// not greater than `x`.
pub fn insert_sorted(v: &mut Vec<Vec<Vec<u8>>>, x: Vec<Vec<u8>>)
    requires
        sorted_by(old(v).deep_view(), path_order()),
    ensures
        sorted_by(final(v).deep_view(), path_order()),
        final(v).deep_view().to_multiset() == old(v).deep_view().to_multiset().insert(
            x.deep_view(),
        ),
{
    proof {
        lemma_path_order_total();
    }
    let ghost s = v.deep_view();
    let ghost dx = x.deep_view();
    let mut lo: usize = 0;
    let mut hi: usize = v.len();
    while lo < hi
        invariant
            0 <= lo <= hi <= v.len(),
            s == v.deep_view(),
            dx == x.deep_view(),
            sorted_by(s, path_order()),
            total_ordering(path_order()),
            forall|i: int| 0 <= i < lo ==> path_le(#[trigger] s[i], dx),
            forall|i: int| hi <= i < s.len() ==> !path_le(#[trigger] s[i], dx),
        decreases hi - lo,
    {
        let mid: usize = lo + (hi - lo) / 2;
        let below = path_less_eq(&v[mid], &x);
        proof {
            assert(s[mid as int] == v[mid as int].deep_view());
            if below {
                assert forall|i: int| 0 <= i <= mid implies path_le(#[trigger] s[i], dx) by {
                    if i < mid {
                        assert(path_order()(s[i], s[mid as int]));
                        lemma_path_le_transitive(s[i], s[mid as int], dx);
                    }
                }
            } else {
                assert forall|i: int| mid <= i < s.len() implies !path_le(#[trigger] s[i], dx) by {
                    if mid < i && path_le(s[i], dx) {
                        assert(path_order()(s[mid as int], s[i]));
                        lemma_path_le_transitive(s[mid as int], s[i], dx);
                    }
                }
            }
        }
        if below {
            lo = mid + 1;
        } else {
            hi = mid;
        }
    }
    v.insert(lo, x);
    proof {
        let t = v.deep_view();
        assert(t =~= s.insert(lo as int, dx));
        vstd::seq_lib::to_multiset_insert(s, lo as int, dx);
        assert forall|i: int, j: int| 0 <= i < j < t.len() implies #[trigger] path_order()(
            t[i],
            t[j],
        ) by {
            if j < lo {
                assert(t[i] == s[i] && t[j] == s[j]);
            } else if j == lo {
                assert(t[i] == s[i]);
            } else if i == lo {
                assert(t[j] == s[j - 1]);
                lemma_path_le_total(s[j - 1], dx);
            } else if i < lo {
                assert(t[i] == s[i] && t[j] == s[j - 1]);
                lemma_path_le_total(s[j - 1], dx);
                lemma_path_le_transitive(s[i], dx, s[j - 1]);
            } else {
                assert(t[i] == s[i - 1] && t[j] == s[j - 1]);
            }
        }
    }
}

} // verus!
