//! Ordering of sprite files by path. Paths compare component by component,
//! each component as a string, and a path sorts before the paths it is a
//! prefix of; this is how `std::path::Path` orders paths that share a root.

use vstd::prelude::*;
use crate::names::{
    chars_lt, lemma_chars_lt_asymmetric, lemma_chars_lt_irreflexive, lemma_chars_lt_total,
    lemma_chars_lt_transitive, str_less,
};
use crate::order::{as_ints, is_index_perm, names_of};

verus! {

/// Path `a` (its components) sorts strictly before path `b`.
pub open spec fn parts_lt(a: Seq<Seq<char>>, b: Seq<Seq<char>>) -> bool
    decreases a.len(),
{
    if a.len() == 0 {
        b.len() > 0
    } else if b.len() == 0 {
        false
    } else if a[0] != b[0] {
        chars_lt(a[0], b[0])
    } else {
        parts_lt(a.drop_first(), b.drop_first())
    }
}

/// No path sorts before itself.
pub proof fn lemma_parts_lt_irreflexive(a: Seq<Seq<char>>)
    ensures
        !parts_lt(a, a),
    decreases a.len(),
{
    if a.len() > 0 {
        lemma_parts_lt_irreflexive(a.drop_first());
    }
}

/// Two paths never sort before each other.
pub proof fn lemma_parts_lt_asymmetric(a: Seq<Seq<char>>, b: Seq<Seq<char>>)
    ensures
        !(parts_lt(a, b) && parts_lt(b, a)),
    decreases a.len(),
{
    if a.len() > 0 && b.len() > 0 {
        if a[0] == b[0] {
            lemma_parts_lt_asymmetric(a.drop_first(), b.drop_first());
        } else {
            lemma_chars_lt_asymmetric(a[0], b[0]);
        }
    }
}

/// Of two different paths, one sorts before the other.
pub proof fn lemma_parts_lt_total(a: Seq<Seq<char>>, b: Seq<Seq<char>>)
    ensures
        a != b ==> parts_lt(a, b) || parts_lt(b, a),
    decreases a.len(),
{
    if a.len() > 0 && b.len() > 0 {
        if a[0] == b[0] {
            lemma_parts_lt_total(a.drop_first(), b.drop_first());
            if a.drop_first() == b.drop_first() {
                assert(a =~= seq![a[0]] + a.drop_first());
                assert(b =~= seq![b[0]] + b.drop_first());
            }
        } else {
            lemma_chars_lt_total(a[0], b[0]);
        }
    } else if a.len() == 0 && b.len() == 0 {
        assert(a =~= b);
    }
}

/// The order of paths is transitive.
pub proof fn lemma_parts_lt_transitive(a: Seq<Seq<char>>, b: Seq<Seq<char>>, c: Seq<Seq<char>>)
    requires
        parts_lt(a, b),
        parts_lt(b, c),
    ensures
        parts_lt(a, c),
    decreases a.len(),
{
    if a.len() > 0 && b.len() > 0 && c.len() > 0 {
        if a[0] == b[0] && b[0] == c[0] {
            lemma_parts_lt_transitive(a.drop_first(), b.drop_first(), c.drop_first());
        } else if a[0] != b[0] && b[0] != c[0] {
            lemma_chars_lt_transitive(a[0], b[0], c[0]);
            if a[0] == c[0] {
                lemma_chars_lt_asymmetric(a[0], b[0]);
            }
        }
    }
}

/// Whether path `a` sorts strictly before path `b`.
pub fn parts_less(a: &Vec<String>, b: &Vec<String>) -> (r: bool)
    ensures
        r == parts_lt(names_of(a@), names_of(b@)),
{
    let ghost pa = names_of(a@);
    let ghost pb = names_of(b@);
    let mut i: usize = 0;
    assert(pa.skip(0) =~= pa);
    assert(pb.skip(0) =~= pb);
    while i < a.len() && i < b.len()
        invariant
            pa == names_of(a@),
            pb == names_of(b@),
            i <= a@.len(),
            i <= b@.len(),
            parts_lt(pa, pb) == parts_lt(pa.skip(i as int), pb.skip(i as int)),
        decreases a@.len() - i,
    {
        assert(pa.skip(i as int)[0] == a@[i as int]@);
        assert(pb.skip(i as int)[0] == b@[i as int]@);
        if a[i] != b[i] {
            return str_less(a[i].as_str(), b[i].as_str());
        }
        assert(pa.skip(i as int).drop_first() =~= pa.skip(i + 1));
        assert(pb.skip(i as int).drop_first() =~= pb.skip(i + 1));
        i = i + 1;
    }
    i == a.len() && i < b.len()
}

/// The component lists of a sequence of paths.
pub open spec fn paths_view(paths: Seq<Vec<String>>) -> Seq<Seq<Seq<char>>> {
    Seq::new(paths.len(), |i: int| names_of(paths[i]@))
}

/// Position `i` comes strictly before position `j`: the smaller path first,
/// equal paths in their given order.
pub open spec fn path_before(paths: Seq<Seq<Seq<char>>>, i: int, j: int) -> bool {
    ||| parts_lt(paths[i], paths[j])
    ||| paths[i] == paths[j] && i < j
}

/// Of two different positions, one comes before the other, and never both.
proof fn lemma_path_before_total(paths: Seq<Seq<Seq<char>>>, i: int, j: int)
    ensures
        i != j ==> path_before(paths, i, j) || path_before(paths, j, i),
        !(path_before(paths, i, j) && path_before(paths, j, i)),
{
    lemma_parts_lt_total(paths[i], paths[j]);
    lemma_parts_lt_asymmetric(paths[i], paths[j]);
    lemma_parts_lt_irreflexive(paths[i]);
}

/// `path_before` is transitive.
proof fn lemma_path_before_transitive(paths: Seq<Seq<Seq<char>>>, i: int, j: int, k: int)
    requires
        path_before(paths, i, j),
        path_before(paths, j, k),
    ensures
        path_before(paths, i, k),
{
    if parts_lt(paths[i], paths[j]) && parts_lt(paths[j], paths[k]) {
        lemma_parts_lt_transitive(paths[i], paths[j], paths[k]);
    }
}

/// Whether position `j` comes before position `i`.
fn comes_before(paths: &Vec<Vec<String>>, j: usize, i: usize) -> (r: bool)
    requires
        j < paths@.len(),
        i < paths@.len(),
    ensures
        r == path_before(paths_view(paths@), j as int, i as int),
{
    let ghost pv = paths_view(paths@);
    assert(pv[j as int] == names_of(paths@[j as int]@));
    assert(pv[i as int] == names_of(paths@[i as int]@));
    if parts_less(&paths[j], &paths[i]) {
        return true;
    }
    if parts_less(&paths[i], &paths[j]) {
        proof {
            lemma_parts_lt_asymmetric(pv[i as int], pv[j as int]);
            lemma_parts_lt_irreflexive(pv[i as int]);
        }
        return false;
    }
    proof {
        lemma_parts_lt_total(pv[j as int], pv[i as int]);
    }
    j < i
}

/// The positions `0..paths.len()` with the paths in ascending order, equal
/// paths keeping their order: what a stable sort of the paths gives.
pub fn path_order(paths: &Vec<Vec<String>>) -> (r: Vec<usize>)
    ensures
        is_index_perm(as_ints(r@), paths@.len() as int),
        forall|a: int, b: int|
            0 <= a < b < r@.len() ==> path_before(
                paths_view(paths@),
                #[trigger] r@[a] as int,
                #[trigger] r@[b] as int,
            ),
{
    let n = paths.len();
    let ghost pv = paths_view(paths@);
    let mut r: Vec<usize> = Vec::new();
    for i in 0..n
        invariant
            n == paths@.len(),
            pv == paths_view(paths@),
            r@.len() == i,
            forall|k: int| 0 <= k < i ==> #[trigger] r@[k] < i,
            forall|a: int, b: int| 0 <= a < b < i ==> r@[a] != r@[b],
            forall|a: int, b: int|
                0 <= a < b < i ==> path_before(pv, #[trigger] r@[a] as int, #[trigger] r@[b] as int),
    {
        let mut p: usize = 0;
        while p < r.len() && comes_before(paths, r[p], i)
            invariant
                p <= r@.len(),
                r@.len() == i,
                i < n,
                n == paths@.len(),
                pv == paths_view(paths@),
                forall|k: int| 0 <= k < i ==> #[trigger] r@[k] < i,
                forall|q: int| 0 <= q < p ==> path_before(pv, #[trigger] r@[q] as int, i as int),
            decreases r@.len() - p,
        {
            p = p + 1;
        }
        let ghost old_r = r@;
        proof {
            if p < old_r.len() {
                lemma_path_before_total(pv, old_r[p as int] as int, i as int);
            }
        }
        r.insert(p, i);
        proof {
            assert(r@ =~= old_r.take(p as int).push(i) + old_r.skip(p as int));
            assert forall|a: int, b: int| 0 <= a < b < i + 1 implies path_before(
                pv,
                #[trigger] r@[a] as int,
                #[trigger] r@[b] as int,
            ) by {
                if b < p {
                    assert(r@[a] == old_r[a] && r@[b] == old_r[b]);
                } else if b == p {
                    assert(r@[a] == old_r[a]);
                } else if a == p {
                    assert(r@[b] == old_r[b - 1]);
                    if b - 1 > p {
                        assert(path_before(pv, old_r[p as int] as int, old_r[b - 1] as int));
                        lemma_path_before_transitive(
                            pv,
                            i as int,
                            old_r[p as int] as int,
                            old_r[b - 1] as int,
                        );
                    }
                } else if a < p {
                    assert(r@[a] == old_r[a] && r@[b] == old_r[b - 1]);
                } else {
                    assert(r@[a] == old_r[a - 1] && r@[b] == old_r[b - 1]);
                }
            }
            assert forall|a: int, b: int| 0 <= a < b < i + 1 implies r@[a] != r@[b] by {
                if a < p && b < p {
                    assert(r@[a] == old_r[a] && r@[b] == old_r[b]);
                } else if a < p && b > p {
                    assert(r@[a] == old_r[a] && r@[b] == old_r[b - 1]);
                } else if a > p {
                    assert(r@[a] == old_r[a - 1] && r@[b] == old_r[b - 1]);
                } else if a == p {
                    assert(r@[b] == old_r[b - 1]);
                } else {
                    assert(r@[a] == old_r[a]);
                }
            }
            assert forall|k: int| 0 <= k < i + 1 implies #[trigger] r@[k] < i + 1 by {
                if k < p {
                    assert(r@[k] == old_r[k]);
                } else if k > p {
                    assert(r@[k] == old_r[k - 1]);
                }
            }
        }
    }
    proof {
        let ri = as_ints(r@);
        assert forall|a: int, b: int| 0 <= a < b < n implies ri[a] != ri[b] by {
            assert(r@[a] != r@[b]);
        }
        assert forall|k: int| 0 <= k < n implies 0 <= #[trigger] ri[k] < n by {
            assert(r@[k] < n);
        }
    }
    r
}

} // verus!
