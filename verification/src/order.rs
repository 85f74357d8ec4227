//! Stable orderings of sprites and frames.
//!
//! Both orders the packer uses sort positions `0..n` by a primary number
//! (larger first), then by name, then by position: this is what a stable sort
//! by (number, name) yields. Since the position breaks every tie, the order is
//! strict and total, and exactly one arrangement of `0..n` is sorted by it.

use vstd::prelude::*;
use crate::names::{
    chars_lt, lemma_chars_lt_asymmetric, lemma_chars_lt_irreflexive, lemma_chars_lt_total,
    lemma_chars_lt_transitive, str_less,
};

verus! {

/// Position `i` comes strictly before position `j`: larger primary number
/// first, then the smaller name, then the smaller position.
pub open spec fn rank_lt(primary: Seq<u32>, names: Seq<Seq<char>>, i: int, j: int) -> bool {
    ||| primary[i] > primary[j]
    ||| primary[i] == primary[j] && chars_lt(names[i], names[j])
    ||| primary[i] == primary[j] && names[i] == names[j] && i < j
}

/// `p` lists every position `0..n` exactly once.
pub open spec fn is_index_perm(p: Seq<int>, n: int) -> bool {
    &&& p.len() == n
    &&& forall|k: int| 0 <= k < n ==> 0 <= #[trigger] p[k] < n
    &&& forall|a: int, b: int| 0 <= a < b < n ==> p[a] != p[b]
}

/// `p` lists the positions of `names` in rank order.
pub open spec fn is_ranked(p: Seq<int>, primary: Seq<u32>, names: Seq<Seq<char>>) -> bool {
    &&& is_index_perm(p, names.len() as int)
    &&& forall|a: int, b: int|
        0 <= a < b < p.len() ==> rank_lt(primary, names, #[trigger] p[a], #[trigger] p[b])
}

/// The positions `0..names.len()` in rank order (the one arrangement that
/// `is_ranked` admits).
pub open spec fn ranked_order(primary: Seq<u32>, names: Seq<Seq<char>>) -> Seq<int> {
    choose|p: Seq<int>| is_ranked(p, primary, names)
}

/// The views of a sequence of strings.
pub open spec fn names_of(v: Seq<String>) -> Seq<Seq<char>> {
    Seq::new(v.len(), |i: int| v[i]@)
}

/// A sequence of indices, as integers.
pub open spec fn as_ints(v: Seq<usize>) -> Seq<int> {
    Seq::new(v.len(), |i: int| v[i] as int)
}

/// No position ranks before itself, and two never rank before each other.
pub proof fn lemma_rank_asymmetric(primary: Seq<u32>, names: Seq<Seq<char>>, i: int, j: int)
    ensures
        !(rank_lt(primary, names, i, j) && rank_lt(primary, names, j, i)),
{
    lemma_chars_lt_asymmetric(names[i], names[j]);
    lemma_chars_lt_irreflexive(names[i]);
}

/// Two different positions are ordered one way or the other.
pub proof fn lemma_rank_total(primary: Seq<u32>, names: Seq<Seq<char>>, i: int, j: int)
    requires
        i != j,
    ensures
        rank_lt(primary, names, i, j) || rank_lt(primary, names, j, i),
{
    lemma_chars_lt_total(names[i], names[j]);
}

/// The rank order is transitive.
pub proof fn lemma_rank_transitive(
    primary: Seq<u32>,
    names: Seq<Seq<char>>,
    i: int,
    j: int,
    k: int,
)
    requires
        rank_lt(primary, names, i, j),
        rank_lt(primary, names, j, k),
    ensures
        rank_lt(primary, names, i, k),
{
    if primary[i] == primary[j] && primary[j] == primary[k] {
        if chars_lt(names[i], names[j]) && chars_lt(names[j], names[k]) {
            lemma_chars_lt_transitive(names[i], names[j], names[k]);
        }
    }
}

/// Two duplicate-free sequences holding the same elements, both sorted by the
/// rank order, are equal.
proof fn lemma_sorted_same_elements_equal(
    s: Seq<int>,
    t: Seq<int>,
    primary: Seq<u32>,
    names: Seq<Seq<char>>,
)
    requires
        forall|a: int, b: int| 0 <= a < b < s.len() ==> s[a] != s[b],
        forall|a: int, b: int| 0 <= a < b < t.len() ==> t[a] != t[b],
        forall|e: int| s.contains(e) <==> t.contains(e),
        forall|a: int, b: int|
            0 <= a < b < s.len() ==> rank_lt(primary, names, #[trigger] s[a], #[trigger] s[b]),
        forall|a: int, b: int|
            0 <= a < b < t.len() ==> rank_lt(primary, names, #[trigger] t[a], #[trigger] t[b]),
    ensures
        s == t,
    decreases s.len(),
{
    if s.len() == 0 {
        if t.len() > 0 {
            assert(t.contains(t[0]));
        }
        assert(s =~= t);
    } else {
        assert(s.contains(s[0]));
        assert(t.contains(s[0]));
        let j = choose|j: int| 0 <= j < t.len() && t[j] == s[0];
        assert(t.contains(t[0]));
        let i = choose|i: int| 0 <= i < s.len() && s[i] == t[0];
        if j > 0 {
            assert(rank_lt(primary, names, t[0], t[j]));
            if i > 0 {
                assert(rank_lt(primary, names, s[0], s[i]));
                lemma_rank_asymmetric(primary, names, s[0], s[i]);
            }
            assert(false);
        }
        let s1 = s.drop_first();
        let t1 = t.drop_first();
        assert forall|e: int| s1.contains(e) <==> t1.contains(e) by {
            if s1.contains(e) {
                let a = choose|a: int| 0 <= a < s1.len() && s1[a] == e;
                assert(s[a + 1] == e);
                assert(s.contains(e));
                let b = choose|b: int| 0 <= b < t.len() && t[b] == e;
                assert(b != 0);
                assert(t1[b - 1] == e);
            }
            if t1.contains(e) {
                let a = choose|a: int| 0 <= a < t1.len() && t1[a] == e;
                assert(t[a + 1] == e);
                assert(t.contains(e));
                let b = choose|b: int| 0 <= b < s.len() && s[b] == e;
                assert(b != 0);
                assert(s1[b - 1] == e);
            }
        }
        assert forall|a: int, b: int| 0 <= a < b < s1.len() implies rank_lt(
            primary,
            names,
            #[trigger] s1[a],
            #[trigger] s1[b],
        ) by {
            assert(rank_lt(primary, names, s[a + 1], s[b + 1]));
        }
        assert forall|a: int, b: int| 0 <= a < b < t1.len() implies rank_lt(
            primary,
            names,
            #[trigger] t1[a],
            #[trigger] t1[b],
        ) by {
            assert(rank_lt(primary, names, t[a + 1], t[b + 1]));
        }
        assert forall|a: int, b: int| 0 <= a < b < s1.len() implies s1[a] != s1[b] by {
            assert(s[a + 1] != s[b + 1]);
        }
        assert forall|a: int, b: int| 0 <= a < b < t1.len() implies t1[a] != t1[b] by {
            assert(t[a + 1] != t[b + 1]);
        }
        lemma_sorted_same_elements_equal(s1, t1, primary, names);
        assert(s =~= seq![s[0]] + s1);
        assert(t =~= seq![t[0]] + t1);
    }
}

/// Only one arrangement of the positions is sorted by rank: any ranked
/// sequence is `ranked_order`.
pub proof fn lemma_ranked_unique(p: Seq<int>, primary: Seq<u32>, names: Seq<Seq<char>>)
    requires
        is_ranked(p, primary, names),
    ensures
        p == ranked_order(primary, names),
{
    let q = ranked_order(primary, names);
    assert(is_ranked(q, primary, names));
    let n = names.len() as int;
    assert forall|e: int| p.contains(e) <==> q.contains(e) by {
        if p.contains(e) || q.contains(e) {
            assert(0 <= e < n) by {
                if p.contains(e) {
                    let a = choose|a: int| 0 <= a < p.len() && p[a] == e;
                    assert(0 <= p[a] < n);
                } else {
                    let a = choose|a: int| 0 <= a < q.len() && q[a] == e;
                    assert(0 <= q[a] < n);
                }
            }
            lemma_perm_contains_all(p, n, e);
            lemma_perm_contains_all(q, n, e);
        }
    }
    lemma_sorted_same_elements_equal(p, q, primary, names);
}

/// A duplicate-free sequence of `n` positions below `n` holds each of them
/// (pigeonhole).
pub proof fn lemma_perm_contains_all(p: Seq<int>, n: int, e: int)
    requires
        is_index_perm(p, n),
        0 <= e < n,
    ensures
        p.contains(e),
{
    if !p.contains(e) {
        let f = |k: int| p[k];
        let full = Set::new(|v: int| 0 <= v < n);
        let img = full.remove(e);
        assert(full =~= vstd::set_lib::set_int_range(0, n));
        vstd::set_lib::lemma_int_range(0, n);
        assert(img.len() == n - 1);
        let mapped = full.map(f);
        assert(mapped.subset_of(img)) by {
            assert forall|v: int| mapped.contains(v) implies img.contains(v) by {
                let k = choose|k: int| full.contains(k) && f(k) == v;
                assert(p[k] != e);
            }
        }
        assert(vstd::relations::injective_on(f, full)) by {
            assert forall|a: int, b: int| full.contains(a) && full.contains(b) && #[trigger] f(a)
                == #[trigger] f(b) implies a == b by {
                if a < b {
                    assert(p[a] != p[b]);
                } else if b < a {
                    assert(p[b] != p[a]);
                }
            }
        }
        vstd::set_lib::lemma_map_size(full, mapped, f);
        vstd::set_lib::lemma_len_subset(mapped, img);
        assert(false);
    }
}

/// The first place in the sorted `p0` (from `i` on) before which `x` ranks.
proof fn lemma_insert_pos(
    p0: Seq<int>,
    x: int,
    primary: Seq<u32>,
    names: Seq<Seq<char>>,
    i: int,
) -> (pos: int)
    requires
        0 <= i <= p0.len(),
        forall|q: int| 0 <= q < i ==> rank_lt(primary, names, #[trigger] p0[q], x),
    ensures
        i <= pos <= p0.len(),
        forall|q: int| 0 <= q < pos ==> rank_lt(primary, names, #[trigger] p0[q], x),
        pos < p0.len() ==> !rank_lt(primary, names, p0[pos], x),
    decreases p0.len() - i,
{
    if i < p0.len() && rank_lt(primary, names, p0[i], x) {
        lemma_insert_pos(p0, x, primary, names, i + 1)
    } else {
        i
    }
}

/// The first `n` positions can be put in rank order.
proof fn lemma_ranked_prefix_exists(primary: Seq<u32>, names: Seq<Seq<char>>, n: nat) -> (p: Seq<int>)
    requires
        n <= names.len(),
    ensures
        is_index_perm(p, n as int),
        forall|a: int, b: int|
            0 <= a < b < p.len() ==> rank_lt(primary, names, #[trigger] p[a], #[trigger] p[b]),
    decreases n,
{
    if n == 0 {
        Seq::empty()
    } else {
        let p0 = lemma_ranked_prefix_exists(primary, names, (n - 1) as nat);
        let x = n - 1;
        let pos = lemma_insert_pos(p0, x, primary, names, 0);
        if pos < p0.len() {
            lemma_rank_total(primary, names, p0[pos], x);
        }
        let p = p0.insert(pos, x);
        assert forall|a: int, b: int| 0 <= a < b < p.len() implies rank_lt(
            primary,
            names,
            #[trigger] p[a],
            #[trigger] p[b],
        ) by {
            if b < pos {
                assert(p[a] == p0[a] && p[b] == p0[b]);
            } else if b == pos {
                assert(p[a] == p0[a]);
            } else if a == pos {
                assert(p[b] == p0[b - 1]);
                if b - 1 > pos {
                    lemma_rank_transitive(primary, names, x, p0[pos], p0[b - 1]);
                }
            } else if a < pos {
                assert(p[a] == p0[a] && p[b] == p0[b - 1]);
            } else {
                assert(p[a] == p0[a - 1] && p[b] == p0[b - 1]);
            }
        }
        assert forall|a: int, b: int| 0 <= a < b < n implies p[a] != p[b] by {
            if a < pos && b < pos {
                assert(p[a] == p0[a] && p[b] == p0[b]);
            } else if a < pos && b > pos {
                assert(p[a] == p0[a] && p[b] == p0[b - 1]);
            } else if a > pos {
                assert(p[a] == p0[a - 1] && p[b] == p0[b - 1]);
            } else if a == pos {
                assert(p[b] == p0[b - 1]);
            } else {
                assert(p[a] == p0[a]);
            }
        }
        assert forall|k: int| 0 <= k < n implies 0 <= #[trigger] p[k] < n by {
            if k < pos {
                assert(p[k] == p0[k]);
            } else if k > pos {
                assert(p[k] == p0[k - 1]);
            }
        }
        p
    }
}

/// `ranked_order` does list the positions in rank order.
pub proof fn lemma_ranked_order_ranked(primary: Seq<u32>, names: Seq<Seq<char>>)
    ensures
        is_ranked(ranked_order(primary, names), primary, names),
{
    let p = lemma_ranked_prefix_exists(primary, names, names.len());
    lemma_ranked_unique(p, primary, names);
}

/// Whether position `i` ranks before position `j`.
fn rank_less(primary: &Vec<u32>, names: &Vec<String>, i: usize, j: usize) -> (r: bool)
    requires
        i < primary.len(),
        j < primary.len(),
        primary.len() == names.len(),
    ensures
        r == rank_lt(primary@, names_of(names@), i as int, j as int),
{
    let pi = primary[i];
    let pj = primary[j];
    if pi != pj {
        pi > pj
    } else if str_less(names[i].as_str(), names[j].as_str()) {
        true
    } else {
        names[i] == names[j] && i < j
    }
}

/// The positions `0..names.len()` sorted by larger `primary` first, then by
/// name, then by position: what a stable sort by (primary descending, name)
/// gives.
pub fn ranked_indices(primary: &Vec<u32>, names: &Vec<String>) -> (r: Vec<usize>)
    requires
        primary.len() == names.len(),
    ensures
        is_ranked(as_ints(r@), primary@, names_of(names@)),
        as_ints(r@) == ranked_order(primary@, names_of(names@)),
{
    let n = names.len();
    let ghost nm = names_of(names@);
    let mut r: Vec<usize> = Vec::new();
    for i in 0..n
        invariant
            n == names.len(),
            primary.len() == names.len(),
            nm == names_of(names@),
            r@.len() == i,
            forall|k: int| 0 <= k < i ==> #[trigger] r@[k] < i,
            forall|a: int, b: int| 0 <= a < b < i ==> r@[a] != r@[b],
            forall|a: int, b: int|
                0 <= a < b < i ==> rank_lt(primary@, nm, #[trigger] r@[a] as int, #[trigger] r@[b] as int),
    {
        let mut p: usize = 0;
        while p < r.len() && rank_less(primary, names, r[p], i)
            invariant
                p <= r@.len(),
                r@.len() == i,
                i < n,
                n == names.len(),
                primary.len() == names.len(),
                nm == names_of(names@),
                forall|k: int| 0 <= k < i ==> #[trigger] r@[k] < i,
                forall|q: int| 0 <= q < p ==> rank_lt(primary@, nm, #[trigger] r@[q] as int, i as int),
            decreases r@.len() - p,
        {
            p = p + 1;
        }
        let ghost old_r = r@;
        proof {
            if p < old_r.len() {
                assert(!rank_lt(primary@, nm, old_r[p as int] as int, i as int));
                lemma_rank_total(primary@, nm, old_r[p as int] as int, i as int);
            }
        }
        r.insert(p, i);
        proof {
            assert(r@ =~= old_r.take(p as int).push(i) + old_r.skip(p as int));
            assert forall|a: int, b: int| 0 <= a < b < i + 1 implies rank_lt(
                primary@,
                nm,
                #[trigger] r@[a] as int,
                #[trigger] r@[b] as int,
            ) by {
                if b < p {
                    assert(r@[a] == old_r[a] && r@[b] == old_r[b]);
                } else if b == p {
                    assert(r@[a] == old_r[a]);
                } else if a == p {
                    assert(r@[b] == old_r[b - 1]);
                    if b - 1 > p {
                        assert(rank_lt(primary@, nm, old_r[p as int] as int, old_r[b - 1] as int));
                        lemma_rank_transitive(
                            primary@,
                            nm,
                            i as int,
                            old_r[p as int] as int,
                            old_r[b - 1] as int,
                        );
                    }
                } else if a < p {
                    assert(r@[a] == old_r[a] && r@[b] == old_r[b - 1]);
                } else {
                    assert(r@[a] == old_r[a - 1] && r@[b] == old_r[b - 1]);
                }
            }
            assert forall|a: int, b: int| 0 <= a < b < i + 1 implies r@[a] != r@[b] by {
                if a < p && b < p {
                    assert(r@[a] == old_r[a] && r@[b] == old_r[b]);
                } else if a < p && b > p {
                    assert(r@[a] == old_r[a] && r@[b] == old_r[b - 1]);
                } else if a > p {
                    assert(r@[a] == old_r[a - 1] && r@[b] == old_r[b - 1]);
                } else if a == p {
                    assert(r@[b] == old_r[b - 1]);
                } else {
                    assert(r@[a] == old_r[a]);
                }
            }
            assert forall|k: int| 0 <= k < i + 1 implies #[trigger] r@[k] < i + 1 by {
                if k < p {
                    assert(r@[k] == old_r[k]);
                } else if k > p {
                    assert(r@[k] == old_r[k - 1]);
                }
            }
        }
    }
    proof {
        let ri = as_ints(r@);
        assert forall|a: int, b: int| 0 <= a < b < ri.len() implies rank_lt(
            primary@,
            names_of(names@),
            #[trigger] ri[a],
            #[trigger] ri[b],
        ) by {
            assert(rank_lt(primary@, nm, r@[a] as int, r@[b] as int));
        }
        assert forall|a: int, b: int| 0 <= a < b < n implies ri[a] != ri[b] by {
            assert(r@[a] != r@[b]);
        }
        assert forall|k: int| 0 <= k < n implies 0 <= #[trigger] ri[k] < n by {
            assert(r@[k] < n);
        }
        lemma_ranked_unique(ri, primary@, names_of(names@));
    }
    r
}

} // verus!
