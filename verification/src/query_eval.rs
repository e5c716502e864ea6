//! The query evaluator: cursors that stream candidate chunk ids in
//! strictly ascending order. `Or` and `And` drain the same min-heap of
//! child cursors, one taking the union, the other the intersection.

use vstd::prelude::*;
use crate::codec::DecodeError;
use crate::int_always_ascending::{ascending_valid, next_val};
use crate::int_variable::{two_to_64, vint_ok, vint_size, vint_value, lemma_vint_size_bounds};

verus! {

broadcast use vstd::std_specs::vec::group_vec_axioms;

/// Cursor over one decoded chunk list.
pub struct Leaf<'a> {
    /// The value most recently produced.
    pub current: Option<u64>,
    /// The decoder the values come from.
    pub iter: crate::int_always_ascending::Iter<'a>,
}

/// Cursor over every chunk id up to a bound, inclusive.
pub struct MatchAll {
    /// One past the value most recently produced.
    pub prev: u64,
    /// The last value to produce, inclusive.
    pub max: u64,
}

/// A min-heap of child cursors, keyed by their current values.
pub struct Heap<'a> {
    /// The child cursors, heap-ordered once built.
    pub children: Vec<QueryEval<'a>>,
    /// Whether the first advance has built the heap.
    pub heapified: bool,
}

/// Union of child cursors, duplicates dropped.
pub struct Or<'a> {
    /// The child cursors.
    pub children: Heap<'a>,
}

/// Intersection of child cursors.
pub struct And<'a> {
    /// The child cursors.
    pub children: Heap<'a>,
    /// How many children an emitted value must come from.
    pub required_count: usize,
    /// The value most recently emitted.
    pub prev: Option<u64>,
}

/// A query evaluator cursor.
pub enum QueryEval<'a> {
    /// Match all chunks.
    MatchAll(MatchAll),
    /// Match no chunks.
    MatchNone,
    /// Match chunks from one decoded chunk list.
    Leaf(Leaf<'a>),
    /// Match the union of many queries.
    Or(Or<'a>),
    /// Match the intersection of many queries.
    And(And<'a>),
}

/// The value a cursor stands on, if it has been advanced onto one.
pub open spec fn qe_cur(q: QueryEval) -> Option<u64>
    decreases q, 1int,
{
    match q {
        QueryEval::MatchAll(m) => if m.prev == 0 {
            None
        } else {
            Some((m.prev - 1) as u64)
        },
        QueryEval::MatchNone => None,
        QueryEval::Leaf(l) => l.current,
        QueryEval::Or(o) => heap_cur(o.children),
        QueryEval::And(a) => heap_cur(a.children),
    }
}

/// The heap's root value: what `Or` and `And` read as current.
pub open spec fn heap_cur(h: Heap) -> Option<u64>
    decreases h, 0int,
{
    if h.heapified && h.children@.len() > 0 {
        qe_cur(h.children@[0])
    } else {
        None
    }
}

/// The root value, unwrapped.
pub open spec fn cur_u(q: QueryEval) -> int {
    qe_cur(q).unwrap() as int
}

/// Upper bound on the values a cursor can still produce, used as the
/// termination measure.
pub open spec fn qe_size(q: QueryEval) -> nat
    decreases q, 1int,
{
    match q {
        QueryEval::MatchAll(m) => if m.prev > m.max {
            0
        } else {
            (m.max - m.prev + 1) as nat
        },
        QueryEval::MatchNone => 0,
        QueryEval::Leaf(l) => l.iter.remaining().len(),
        QueryEval::Or(o) => heap_size(o.children),
        QueryEval::And(a) => heap_size(a.children),
    }
}

/// Termination measure of a heap: children's budgets, plus one per child,
/// plus one until the first advance builds the heap.
pub open spec fn heap_size(h: Heap) -> nat
    decreases h, 0int,
{
    (sum_sizes(h.children, h.children@.len() as int) + h.children@.len() + if h.heapified {
        0nat
    } else {
        1nat
    }) as nat
}

/// Total budget of the first `k` children.
pub open spec fn sum_sizes(v: Vec<QueryEval>, k: int) -> nat
    decreases v, k via sum_sizes_dec
{
    if k <= 0 || k > v@.len() {
        0
    } else {
        (sum_sizes(v, k - 1) + qe_size(v@[k - 1])) as nat
    }
}

/// The min-heap ordering over the children's current values.
pub open spec fn heap_prop(v: Vec<QueryEval>) -> bool {
    forall|i: int| 1 <= i < v@.len() ==> cur_u(#[trigger] v@[(i - 1) / 2]) <= cur_u(v@[i])
}

#[via_fn]
proof fn sum_sizes_dec(v: Vec<QueryEval>, k: int) {
    lemma_vec_elem_decreases(v, k);
}

/// The built-in ordering steps from a vector to any of its elements.
proof fn lemma_vec_elem_decreases(v: Vec<QueryEval>, k: int) {
    if k > 0 && k <= v@.len() {
        assert(decreases_to!(v => v@));
        assert(decreases_to!(v@ => v@[k - 1]));
    }
}

/// All of the first `k` children are well formed.
pub open spec fn all_wf(v: Vec<QueryEval>, k: int) -> bool
    decreases v, k via all_wf_dec
{
    if k <= 0 || k > v@.len() {
        true
    } else {
        all_wf(v, k - 1) && qe_wf(v@[k - 1])
    }
}

#[via_fn]
proof fn all_wf_dec(v: Vec<QueryEval>, k: int) {
    lemma_vec_elem_decreases(v, k);
}

/// All of the first `k` children stand on a value.
pub open spec fn all_cur_some(v: Vec<QueryEval>, k: int) -> bool
    decreases v, k via all_cur_some_dec
{
    if k <= 0 || k > v@.len() {
        true
    } else {
        all_cur_some(v, k - 1) && qe_cur(v@[k - 1]) is Some
    }
}

#[via_fn]
proof fn all_cur_some_dec(v: Vec<QueryEval>, k: int) {
    lemma_vec_elem_decreases(v, k);
}

/// A cursor's internal invariant.
pub open spec fn qe_wf(q: QueryEval) -> bool
    decreases q, 1int,
{
    match q {
        QueryEval::MatchAll(m) => m.max < 0xffff_ffff_ffff_ffff && m.prev <= m.max as int + 1,
        QueryEval::MatchNone => true,
        QueryEval::Leaf(l) => l.iter.wf() && ascending_valid(
            l.iter.remaining(),
            l.iter.prev_of(),
        ) && l.current == l.iter.prev_of(),
        QueryEval::Or(o) => heap_wf(o.children),
        QueryEval::And(a) => {
            &&& heap_wf(a.children)
            &&& (a.children.heapified && a.children.children@.len() > 0 ==> a.prev is Some)
            &&& (a.children.heapified && a.children.children@.len() > 0 && a.prev is Some
                ==> cur_u(a.children.children@[0]) <= a.prev.unwrap() as int)
        },
    }
}

/// The heap's internal invariant.
pub open spec fn heap_wf(h: Heap) -> bool
    decreases h, 0int,
{
    &&& all_wf(h.children, h.children@.len() as int)
    &&& (h.heapified ==> all_cur_some(h.children, h.children@.len() as int) && heap_prop(
        h.children,
    ))
}

/// `all_wf` and `all_cur_some`, element by element.
pub proof fn lemma_all_index(v: Vec<QueryEval>, k: int)
    requires
        k <= v@.len(),
    ensures
        all_wf(v, k) ==> forall|i: int| 0 <= i < k ==> qe_wf(#[trigger] v@[i]),
        all_cur_some(v, k) ==> forall|i: int| 0 <= i < k ==> qe_cur(#[trigger] v@[i]) is Some,
        (forall|i: int| 0 <= i < k ==> qe_wf(#[trigger] v@[i])) ==> all_wf(v, k),
        (forall|i: int| 0 <= i < k ==> qe_cur(#[trigger] v@[i]) is Some) ==> all_cur_some(v, k),
    decreases k,
{
    if k > 0 {
        lemma_all_index(v, k - 1);
    }
}

/// `all_wf` and `all_cur_some` carry over to a vector with the same
/// elements below `k`.
pub proof fn lemma_all_congruence(v: Vec<QueryEval>, w: Vec<QueryEval>, k: int)
    requires
        forall|i: int| 0 <= i < k ==> v@[i] == w@[i],
        k <= v@.len(),
        k <= w@.len(),
    ensures
        all_wf(v, k) == all_wf(w, k),
        all_cur_some(v, k) == all_cur_some(w, k),
        sum_sizes(v, k) == sum_sizes(w, k),
    decreases k,
{
    if k > 0 {
        lemma_all_congruence(v, w, k - 1);
    }
}

/// One child's budget is part of the total.
pub proof fn lemma_sum_sizes_le(v: Vec<QueryEval>, i: int, k: int)
    requires
        0 <= i < k,
        k <= v@.len(),
    ensures
        qe_size(v@[i]) <= sum_sizes(v, k),
    decreases k,
{
    if i < k - 1 {
        lemma_sum_sizes_le(v, i, k - 1);
    }
}

/// Updating one child shifts the total by the difference.
pub proof fn lemma_sum_sizes_update(v: Vec<QueryEval>, w: Vec<QueryEval>, i: int, k: int)
    requires
        0 <= i < w@.len(),
        w@ == v@.update(i, w@[i]),
        v@.len() == w@.len(),
    ensures
        i < k <= v@.len() ==> sum_sizes(w, k) + qe_size(v@[i]) == sum_sizes(v, k) + qe_size(
            w@[i],
        ),
        k <= i ==> sum_sizes(w, k) == sum_sizes(v, k),
    decreases k,
{
    if k > 0 {
        lemma_sum_sizes_update(v, w, i, k - 1);
    }
}

/// The root of a heap-ordered vector is at most every element.
pub proof fn lemma_root_min(v: Vec<QueryEval>, i: int)
    requires
        heap_prop(v),
        0 <= i < v@.len(),
    ensures
        cur_u(v@[0]) <= cur_u(v@[i]),
    decreases i,
{
    if i > 0 {
        lemma_root_min(v, (i - 1) / 2);
    }
}

/// Whether `i` lies in the subtree rooted at `root` of the implicit binary
/// heap.
pub open spec fn in_subtree(root: int, i: int) -> bool
    decreases (if i >= 0 { i } else { 0 }),
{
    if root < 0 {
        false
    } else if i <= root {
        i == root
    } else {
        in_subtree(root, (i - 1) / 2)
    }
}

/// Subtree membership steps through the parent.
pub proof fn lemma_subtree_parent(root: int, i: int)
    requires
        0 <= root,
        in_subtree(root, i),
        i != root,
    ensures
        i > root,
        in_subtree(root, (i - 1) / 2),
{
    if i < root {
        assert(!in_subtree(root, i));
    } else if i == root {
    }
}

/// A child's subtree is inside its parent's.
pub proof fn lemma_subtree_child(root: int, c: int, i: int)
    requires
        0 <= root,
        c == 2 * root + 1 || c == 2 * root + 2,
        in_subtree(c, i),
    ensures
        in_subtree(root, i),
    decreases (if i >= 0 { i } else { 0 }),
{
    if i == c {
        assert(in_subtree(root, root));
        assert((c - 1) / 2 == root);
        assert(in_subtree(root, c));
    } else {
        assert(i > c);
        lemma_subtree_child(root, c, (i - 1) / 2);
        assert(i > root);
        assert(in_subtree(root, i) == in_subtree(root, (i - 1) / 2));
    }
}

/// Within the subtree at `root`, the heap ordering makes the root least.
proof fn lemma_subtree_min(v: Vec<QueryEval>, root: int, i: int)
    requires
        0 <= root < v@.len(),
        in_subtree(root, i),
        0 <= i < v@.len(),
        forall|j: int|
            1 <= j < v@.len() && (j - 1) / 2 >= root ==> cur_u(#[trigger] v@[(j - 1) / 2])
                <= cur_u(v@[j]),
    ensures
        cur_u(v@[root]) <= cur_u(v@[i]),
    decreases (if i >= 0 { i } else { 0 }),
{
    if i != root {
        lemma_subtree_parent(root, i);
        lemma_subtree_min(v, root, (i - 1) / 2);
        assert(cur_u(v@[(i - 1) / 2]) <= cur_u(v@[i]));
    }
}

/// Swaps two elements of the children vector.
fn swap_elems(v: &mut Vec<QueryEval>, i: usize, j: usize)
    requires
        i < old(v)@.len(),
        j < old(v)@.len(),
    ensures
        final(v)@ == old(v)@.update(i as int, old(v)@[j as int]).update(
            j as int,
            old(v)@[i as int],
        ),
{
    let ghost orig = v@;
    if i == j {
        proof {
            assert(v@ =~= orig.update(i as int, orig[j as int]).update(j as int, orig[i as int]));
        }
        return ;
    }
    let mut tmp = QueryEval::MatchNone;
    core::mem::swap(&mut tmp, &mut v[i]);
    core::mem::swap(&mut tmp, &mut v[j]);
    core::mem::swap(&mut tmp, &mut v[i]);
    proof {
        assert(v@ =~= orig.update(i as int, orig[j as int]).update(j as int, orig[i as int]));
    }
}

impl<'a> QueryEval<'a> {
    /// The value the cursor stands on.
    pub fn current(&self) -> (r: u64)
        requires
            qe_cur(*self) is Some,
        ensures
            r == qe_cur(*self).unwrap(),
        decreases *self,
    {
        match self {
            QueryEval::MatchAll(m) => m.prev - 1,
            QueryEval::MatchNone => {
                proof {
                    assert(false);
                }
                0
            },
            QueryEval::Leaf(l) => match l.current {
                Some(v) => v,
                None => {
                    proof {
                        assert(false);
                    }
                    0
                },
            },
            QueryEval::Or(o) => o.children.children[0].current(),
            QueryEval::And(a) => a.children.children[0].current(),
        }
    }
}

/// Restores the heap ordering below `idx`, assuming it already holds for
/// every parent past `idx`.
#[verifier::rlimit(100)]
#[verifier::spinoff_prover]
fn push_down(v: &mut Vec<QueryEval<'_>>, idx: usize)
    requires
        idx < old(v)@.len(),
        all_wf(*old(v), old(v)@.len() as int),
        all_cur_some(*old(v), old(v)@.len() as int),
        forall|i: int|
            1 <= i < old(v)@.len() && (i - 1) / 2 > idx ==> cur_u(
                #[trigger] old(v)@[(i - 1) / 2],
            ) <= cur_u(old(v)@[i]),
    ensures
        final(v)@.len() == old(v)@.len(),
        all_wf(*final(v), final(v)@.len() as int),
        all_cur_some(*final(v), final(v)@.len() as int),
        forall|i: int|
            1 <= i < final(v)@.len() && (i - 1) / 2 >= idx ==> cur_u(
                #[trigger] final(v)@[(i - 1) / 2],
            ) <= cur_u(final(v)@[i]),
        forall|p: int|
            0 <= p < final(v)@.len() && !in_subtree(idx as int, p) ==> final(v)@[p] == old(
                v,
            )@[p],
        forall|j: int|
            0 <= j < final(v)@.len() && in_subtree(idx as int, j) ==> exists|k: int|
                0 <= k < old(v)@.len() && in_subtree(idx as int, k) && final(v)@[j] == old(
                    v,
                )@[k],
        sum_sizes(*final(v), final(v)@.len() as int) == sum_sizes(*old(v), old(v)@.len() as int),
    decreases old(v)@.len() - idx,
{
    let ghost orig = *v;
    let len = v.len();
    proof {
        lemma_all_index(*v, len as int);
    }
    let li128 = 2 * (idx as u128) + 1;
    let ri128 = 2 * (idx as u128) + 2;
    let mut m = idx;
    if li128 < len as u128 {
        let li = (2 * idx + 1) as usize;
        if v[li].current() < v[m].current() {
            m = li;
        }
    }
    if ri128 < len as u128 {
        let ri = 2 * idx + 2;
        if v[ri].current() < v[m].current() {
            m = ri;
        }
    }
    if m != idx {
        proof {
            assert(in_subtree(idx as int, m as int)) by {
                assert((m as int - 1) / 2 == idx as int);
                assert(in_subtree(idx as int, idx as int));
            }
        }
        swap_elems(v, idx, m);
        let ghost w = *v;
        proof {
            lemma_all_congruence_update(orig, w, idx as int, m as int);
            assert forall|i: int|
                1 <= i < w@.len() && (i - 1) / 2 > m implies cur_u(#[trigger] w@[(i - 1) / 2])
                <= cur_u(w@[i]) by {
                assert((i - 1) / 2 > idx as int);
                assert(w@[(i - 1) / 2] == orig@[(i - 1) / 2]);
                assert(w@[i] == orig@[i]);
            }
        }
        push_down(v, m);
        proof {
            let fin = *v;
            let il = idx as int;
            let ml = m as int;
            // the chosen child held the least of the three compared values
            assert(cur_u(orig@[ml]) <= cur_u(orig@[il]));
            // elements of w inside the subtree of m are at least orig[m]
            assert forall|j: int|
                0 <= j < w@.len() && in_subtree(ml, j) implies cur_u(orig@[ml]) <= cur_u(
                #[trigger] w@[j]) by {
                if j == ml {
                    assert(w@[ml] == orig@[il]);
                } else {
                    assert(w@[j] == orig@[j]);
                    lemma_subtree_min_shifted(orig, il, ml, j);
                }
            }
            // the new root of the subtree of m keeps that bound
            assert(cur_u(fin@[ml]) >= cur_u(orig@[ml])) by {
                assert(in_subtree(ml, ml));
                assert(exists|k: int|
                    0 <= k < w@.len() && in_subtree(ml, k) && fin@[ml] == w@[k]);
                let k = choose|k: int|
                    0 <= k < w@.len() && in_subtree(ml, k) && fin@[ml] == w@[k];
                assert(cur_u(orig@[ml]) <= cur_u(w@[k]));
            }
            assert(!in_subtree(ml, il));
            assert(fin@[il] == w@[il] && w@[il] == orig@[ml]);
            // ordering for every parent at or past idx
            assert forall|i: int|
                1 <= i < fin@.len() && (i - 1) / 2 >= il implies cur_u(
                #[trigger] fin@[(i - 1) / 2]) <= cur_u(fin@[i]) by {
                let p = (i - 1) / 2;
                if p == il {
                    if i == ml {
                    } else {
                        assert(!in_subtree(ml, i)) by {
                            if in_subtree(ml, i) {
                                lemma_subtree_parent(ml, i);
                            }
                        }
                        assert(fin@[i] == w@[i] && w@[i] == orig@[i]);
                        assert(cur_u(orig@[ml]) <= cur_u(orig@[i]));
                    }
                } else if in_subtree(ml, i) {
                    assert(in_subtree(ml, p)) by {
                        lemma_subtree_parent(ml, i);
                    }
                } else {
                    assert(!in_subtree(ml, p)) by {
                        if in_subtree(ml, p) {
                            lemma_subtree_child_pair(ml, p, i);
                        }
                    }
                    assert(fin@[i] == w@[i] && fin@[p] == w@[p]);
                    assert(w@[i] == orig@[i] && w@[p] == orig@[p]);
                    assert(p > il);
                }
            }
            // frame and provenance against the pre-swap state
            assert forall|p: int|
                0 <= p < fin@.len() && !in_subtree(il, p) implies fin@[p] == orig@[p] by {
                assert(!in_subtree(ml, p)) by {
                    if in_subtree(ml, p) {
                        lemma_subtree_child(il, ml, p);
                    }
                }
                assert(fin@[p] == w@[p]);
                assert(p != il && p != ml) by {
                    if p == ml {
                        lemma_subtree_child(il, ml, ml);
                    }
                }
            }
            assert forall|j: int|
                0 <= j < fin@.len() && in_subtree(il, j) implies exists|k: int|
                0 <= k < orig@.len() && in_subtree(il, k) && fin@[j] == orig@[k] by {
                if in_subtree(ml, j) {
                    let k = choose|k: int|
                        0 <= k < w@.len() && in_subtree(ml, k) && fin@[j] == w@[k];
                    lemma_subtree_child(il, ml, k);
                    if k == ml {
                        assert(fin@[j] == orig@[il]);
                        assert(in_subtree(il, il));
                    } else {
                        assert(fin@[j] == orig@[k]);
                    }
                } else if j == il {
                    assert(fin@[il] == orig@[ml]);
                    assert(in_subtree(il, ml));
                } else {
                    assert(fin@[j] == w@[j] && w@[j] == orig@[j]);
                }
            }
        }
    }
}

/// A non-root member of a subtree pulls its parent in with it.
proof fn lemma_subtree_child_pair(root: int, p: int, i: int)
    requires
        0 <= root,
        1 <= i,
        p == (i - 1) / 2,
        in_subtree(root, i),
        i != root,
    ensures
        in_subtree(root, p),
{
    lemma_subtree_parent(root, i);
}

/// After swapping two positions, well-formedness, presence of current
/// values and the total budget carry over.
proof fn lemma_all_congruence_update(orig: Vec<QueryEval>, w: Vec<QueryEval>, i: int, j: int)
    requires
        0 <= i < orig@.len(),
        0 <= j < orig@.len(),
        w@ == orig@.update(i, orig@[j]).update(j, orig@[i]),
        all_wf(orig, orig@.len() as int),
        all_cur_some(orig, orig@.len() as int),
    ensures
        w@.len() == orig@.len(),
        all_wf(w, w@.len() as int),
        all_cur_some(w, w@.len() as int),
        sum_sizes(w, w@.len() as int) == sum_sizes(orig, orig@.len() as int),
    decreases 0int,
{
    let n = orig@.len() as int;
    lemma_all_index(orig, n);
    lemma_all_index(w, n);
    assert(forall|p: int| 0 <= p < n && p != i && p != j ==> w@[p] == orig@[p]);
    assert(w@[j] == orig@[i]);
    assert(i != j ==> w@[i] == orig@[j]);
    assert forall|p: int| 0 <= p < n implies qe_wf(#[trigger] w@[p]) && qe_cur(w@[p]) is Some by {
        if p == j {
        } else if p == i {
        }
    }
    lemma_sum_swap_total(orig, w, i, j);
}

/// Sum bookkeeping for a swap, through the two single-position updates.
proof fn lemma_sum_swap_total(orig: Vec<QueryEval>, w: Vec<QueryEval>, i: int, j: int)
    requires
        0 <= i < orig@.len(),
        0 <= j < orig@.len(),
        w@ == orig@.update(i, orig@[j]).update(j, orig@[i]),
    ensures
        sum_sizes(w, w@.len() as int) == sum_sizes(orig, orig@.len() as int),
{
    let n = orig@.len() as int;
    lemma_sum_swap(orig, w, i, j, n);
}

/// Summing over a swapped vector gives the same total.
proof fn lemma_sum_swap(orig: Vec<QueryEval>, w: Vec<QueryEval>, i: int, j: int, k: int)
    requires
        0 <= i < orig@.len(),
        0 <= j < orig@.len(),
        w@ == orig@.update(i, orig@[j]).update(j, orig@[i]),
    ensures
        k <= orig@.len() ==> ({
            let both_in = i < k && j < k;
            let none_in = k <= i && k <= j;
            &&& both_in ==> sum_sizes(w, k) == sum_sizes(orig, k)
            &&& none_in ==> sum_sizes(w, k) == sum_sizes(orig, k)
            &&& (i < k && k <= j) ==> sum_sizes(w, k) + qe_size(orig@[i]) == sum_sizes(orig, k)
                + qe_size(orig@[j])
            &&& (j < k && k <= i) ==> sum_sizes(w, k) + qe_size(orig@[j]) == sum_sizes(orig, k)
                + qe_size(orig@[i])
        }),
    decreases k,
{
    if k > 0 {
        lemma_sum_swap(orig, w, i, j, k - 1);
        if k <= orig@.len() {
            if k - 1 == i && i == j {
                assert(w@[k - 1] == orig@[k - 1]);
            } else if k - 1 == i {
                assert(w@[k - 1] == orig@[j]);
            } else if k - 1 == j {
                assert(w@[k - 1] == orig@[i]);
            } else {
                assert(w@[k - 1] == orig@[k - 1]);
            }
        }
    }
}

/// The heap ordering past `idx` bounds a subtree's members by the value
/// that stood at the subtree's root before the root was swapped away.
proof fn lemma_subtree_min_shifted(orig: Vec<QueryEval>, il: int, ml: int, j: int)
    requires
        0 <= il < orig@.len(),
        0 <= ml < orig@.len(),
        (ml - 1) / 2 == il,
        in_subtree(ml, j),
        0 <= j < orig@.len(),
        j != ml,
        forall|i: int|
            1 <= i < orig@.len() && (i - 1) / 2 > il ==> cur_u(#[trigger] orig@[(i - 1) / 2])
                <= cur_u(orig@[i]),
    ensures
        cur_u(orig@[ml]) <= cur_u(orig@[j]),
    decreases (if j >= 0 { j } else { 0 }),
{
    lemma_subtree_parent(ml, j);
    let p = (j - 1) / 2;
    assert(p >= ml > il);
    if p == ml {
        assert(cur_u(orig@[p]) <= cur_u(orig@[j]));
    } else {
        lemma_subtree_min_shifted(orig, il, ml, p);
        assert(cur_u(orig@[p]) <= cur_u(orig@[j]));
    }
}
/// Every position is in the root's subtree.
proof fn lemma_subtree_root_all(j: int)
    requires
        0 <= j,
    ensures
        in_subtree(0, j),
    decreases j,
{
    if j > 0 {
        lemma_subtree_root_all((j - 1) / 2);
    }
}

/// Removing position `i` by a swap with the last element takes its budget
/// out of the total.
proof fn lemma_sum_remove(orig: Vec<QueryEval>, w: Vec<QueryEval>, i: int, k: int)
    requires
        0 <= i < orig@.len(),
        w@ == orig@.update(i, orig@.last()).drop_last(),
    ensures
        k <= orig@.len() - 1 ==> ({
            &&& (i < k ==> sum_sizes(w, k) + qe_size(orig@[i]) == sum_sizes(orig, k) + qe_size(
                orig@[orig@.len() - 1],
            ))
            &&& (k <= i ==> sum_sizes(w, k) == sum_sizes(orig, k))
        }),
    decreases k,
{
    if k > 0 {
        lemma_sum_remove(orig, w, i, k - 1);
        if k <= orig@.len() - 1 {
            if k - 1 == i {
                assert(w@[k - 1] == orig@[orig@.len() - 1]);
            } else {
                assert(w@[k - 1] == orig@[k - 1]);
            }
        }
    }
}

impl<'a> Heap<'a> {
    /// A fresh heap over the given child cursors; built on first advance.
    pub fn new(children: Vec<QueryEval<'a>>) -> (r: Heap<'a>)
        requires
            forall|i: int| 0 <= i < children@.len() ==> qe_wf(#[trigger] children@[i]),
        ensures
            heap_wf(r),
            !r.heapified,
            r.children@ == children@,
    {
        proof {
            lemma_all_index(children, children@.len() as int);
        }
        Heap { children, heapified: false }
    }

    /// Number of children still in the heap.
    pub fn len(&self) -> (r: usize)
        ensures
            r == self.children@.len(),
    {
        self.children.len()
    }

    /// Whether the first advance has built the heap.
    pub fn heapified(&self) -> (r: bool)
        ensures
            r == self.heapified,
    {
        self.heapified
    }

    /// The least current value among the children.
    pub fn current(&self) -> (r: u64)
        requires
            heap_cur(*self) is Some,
        ensures
            r == heap_cur(*self).unwrap(),
    {
        self.children[0].current()
    }

    /// Advance the top. The first call advances every child once and
    /// builds the heap.
    #[verifier::rlimit(100)]
    #[verifier::spinoff_prover]
    #[verifier::loop_isolation(false)]
    pub fn advance(&mut self) -> (r: Result<bool, DecodeError>)
        requires
            heap_wf(*old(self)),
        ensures
            heap_wf(*final(self)),
            r is Ok,
            final(self).heapified,
            r == Result::<bool, DecodeError>::Ok(true) ==> final(self).children@.len() > 0
                && heap_cur(*final(self)) is Some && heap_size(*final(self)) < heap_size(
                *old(self),
            ) && (old(self).heapified && old(self).children@.len() > 0 ==> heap_cur(
                *final(self),
            ).unwrap() >= heap_cur(*old(self)).unwrap()),
            r == Result::<bool, DecodeError>::Ok(false) ==> final(self).children@.len() == 0
                && heap_size(*final(self)) <= heap_size(*old(self)),
        decreases heap_size(*old(self)), 1int,
    {
        let ghost entry = *old(self);
        if !self.heapified {
            self.heapified = true;
            let mut c: usize = 0;
            while c < self.children.len()
                invariant
                    heap_size(entry) == sum_sizes(entry.children, entry.children@.len() as int)
                        + entry.children@.len() + 1,
                    c <= self.children@.len(),
                    all_wf(self.children, self.children@.len() as int),
                    forall|i: int| 0 <= i < c ==> qe_cur(#[trigger] self.children@[i]) is Some,
                    sum_sizes(self.children, self.children@.len() as int)
                        + self.children@.len() < heap_size(entry) + (if c == 0 {
                        1int
                    } else {
                        0int
                    }),
                    self.heapified,
                decreases self.children@.len() - c,
            {
                let ghost pre = self.children;
                let ghost n = pre@.len() as int;
                proof {
                    lemma_all_index(pre, n);
                    lemma_sum_sizes_le(pre, c as int, n);
                    assert(qe_size(pre@[c as int]) < heap_size(entry));
                }
                let res = self.children[c].advance();
                let ghost post = self.children;
                proof {
                    assert(post@ == pre@.update(c as int, post@[c as int]));
                    lemma_sum_sizes_update(pre, post, c as int, n);
                    lemma_all_index(post, n);
                }
                match res {
                    Err(e) => {
                        proof {
                            assert(false);
                        }
                        return Err(e);
                    },
                    Ok(true) => {
                        c = c + 1;
                    },
                    Ok(false) => {
                        let ghost before = self.children;
                        let _ = self.children.swap_remove(c);
                        proof {
                            let after = self.children;
                            lemma_sum_remove(before, after, c as int, n - 1);
                            assert(sum_sizes(before, n) == sum_sizes(before, n - 1) + qe_size(
                                before@[n - 1],
                            ));
                            lemma_all_index(before, n);
                            lemma_all_index(after, n - 1);
                            assert forall|i: int|
                                0 <= i < after@.len() implies qe_wf(#[trigger] after@[i]) by {
                                if i == c as int {
                                } else {
                                    assert(after@[i] == before@[i]);
                                }
                            }
                            assert forall|i: int|
                                0 <= i < c implies qe_cur(#[trigger] after@[i]) is Some by {
                                assert(after@[i] == before@[i]);
                            }
                        }
                    },
                }
            }
            // Floyd's bottom-up construction over the surviving children.
            proof {
                lemma_all_index(self.children, self.children@.len() as int);
            }
            if self.children.len() >= 2 {
                let mut p: usize = self.children.len() / 2;
                while p > 0
                    invariant
                        self.heapified,
                        p <= self.children@.len() / 2,
                        self.children@.len() >= 2,
                        all_wf(self.children, self.children@.len() as int),
                        all_cur_some(self.children, self.children@.len() as int),
                        sum_sizes(self.children, self.children@.len() as int)
                            + self.children@.len() < heap_size(entry),
                        forall|i: int|
                            1 <= i < self.children@.len() && (i - 1) / 2 >= p ==> cur_u(
                                #[trigger] self.children@[(i - 1) / 2],
                            ) <= cur_u(self.children@[i]),
                    decreases p,
                {
                    p = p - 1;
                    push_down(&mut self.children, p);
                }
            }
            proof {
                assert(heap_prop(self.children));
            }
            if self.children.len() > 0 {
                proof {
                    lemma_all_index(self.children, self.children@.len() as int);
                }
                return Ok(true);
            } else {
                return Ok(false);
            }
        }
        if self.children.len() == 0 {
            return Ok(false);
        }
        let ghost pre = self.children;
        let ghost n = pre@.len() as int;
        proof {
            lemma_all_index(pre, n);
            lemma_sum_sizes_le(pre, 0, n);
            assert(heap_size(*old(self)) == sum_sizes(pre, n) + n);
            assert(qe_size(pre@[0]) < heap_size(*old(self)));
        }
        let res = self.children[0].advance();
        let ghost post = self.children;
        proof {
            assert(post@ == pre@.update(0, post@[0]));
            lemma_sum_sizes_update(pre, post, 0, n);
        }
        match res {
            Err(e) => {
                proof {
                    assert(false);
                }
                Err(e)
            },
            Ok(true) => {
                proof {
                    lemma_all_index(post, n);
                    assert forall|i: int| 0 <= i < n implies qe_wf(#[trigger] post@[i]) && qe_cur(
                        post@[i],
                    ) is Some by {
                        if i > 0 {
                            assert(post@[i] == pre@[i]);
                        }
                    }
                    lemma_all_index(post, n);
                    assert(all_wf(post, n) && all_cur_some(post, n));
                    assert forall|i: int|
                        1 <= i < post@.len() && (i - 1) / 2 > 0 implies cur_u(
                        #[trigger] post@[(i - 1) / 2]) <= cur_u(post@[i]) by {
                        assert(post@[(i - 1) / 2] == pre@[(i - 1) / 2]);
                        assert(post@[i] == pre@[i]);
                    }
                }
                push_down(&mut self.children, 0);
                proof {
                    let fin = self.children;
                    assert(heap_prop(fin));
                    assert(in_subtree(0, 0));
                    let k = choose|k: int| 0 <= k < post@.len() && in_subtree(0, k) && fin@[0]
                        == post@[k];
                    assert(cur_u(fin@[0]) >= cur_u(pre@[0])) by {
                        if k == 0 {
                        } else {
                            assert(post@[k] == pre@[k]);
                            lemma_root_min(pre, k);
                        }
                    }
                }
                Ok(true)
            },
            Ok(false) => {
                let ghost before = self.children;
                let _ = self.children.swap_remove(0);
                proof {
                    let after = self.children;
                    lemma_sum_remove(before, after, 0, n - 1);
                    assert(sum_sizes(before, n) == sum_sizes(before, n - 1) + qe_size(
                        before@[n - 1],
                    ));
                }
                if self.children.len() == 0 {
                    return Ok(false);
                }
                proof {
                    let after = self.children;
                    let m = after@.len() as int;
                    lemma_all_index(before, n);
                    assert forall|i: int| 0 <= i < m implies qe_wf(#[trigger] after@[i]) && qe_cur(
                        after@[i],
                    ) is Some by {
                        if i == 0 {
                            assert(after@[0] == before@[n - 1]);
                            assert(before@[n - 1] == pre@[n - 1]);
                        } else {
                            assert(after@[i] == before@[i]);
                            assert(before@[i] == pre@[i]);
                        }
                    }
                    lemma_all_index(after, m);
                    assert forall|i: int|
                        1 <= i < m && (i - 1) / 2 > 0 implies cur_u(
                        #[trigger] after@[(i - 1) / 2]) <= cur_u(after@[i]) by {
                        assert(after@[(i - 1) / 2] == pre@[(i - 1) / 2]);
                        assert(after@[i] == pre@[i]);
                    }
                }
                push_down(&mut self.children, 0);
                proof {
                    let ghost mid = before@.update(0, before@.last()).drop_last();
                    let fin = self.children;
                    assert(in_subtree(0, 0));
                    let k = choose|k: int| 0 <= k < mid.len() && in_subtree(0, k) && fin@[0]
                        == mid[k];
                    assert(cur_u(fin@[0]) >= cur_u(pre@[0])) by {
                        if k == 0 {
                            assert(mid[0] == pre@[n - 1]);
                            lemma_root_min(pre, n - 1);
                        } else {
                            assert(mid[k] == pre@[k]);
                            lemma_root_min(pre, k);
                        }
                    }
                }
                Ok(true)
            },
        }
    }
}
impl MatchAll {
    /// A cursor over `0..=max`.
    pub fn new(max: u64) -> (r: MatchAll)
        requires
            max < 0xffff_ffff_ffff_ffff,
        ensures
            r.prev == 0 && r.max == max,
    {
        MatchAll { prev: 0, max }
    }

    /// Steps to the next chunk id, if one is left.
    pub fn advance(&mut self) -> (r: Result<bool, DecodeError>)
        requires
            old(self).max < 0xffff_ffff_ffff_ffff,
            old(self).prev <= old(self).max as int + 1,
        ensures
            r is Ok,
            final(self).max == old(self).max,
            final(self).prev <= final(self).max as int + 1,
            r == Result::<bool, DecodeError>::Ok(true) ==> final(self).prev == old(self).prev + 1,
            r == Result::<bool, DecodeError>::Ok(false) <==> old(self).prev > old(self).max,
            r == Result::<bool, DecodeError>::Ok(false) ==> *final(self) == *old(self),
    {
        if self.prev > self.max {
            Ok(false)
        } else {
            self.prev = self.prev + 1;
            Ok(true)
        }
    }

    /// The chunk id the cursor stands on.
    pub fn current(&self) -> (r: u64)
        requires
            self.prev > 0,
        ensures
            r == self.prev - 1,
    {
        self.prev - 1
    }
}

impl<'a> Leaf<'a> {
    /// A cursor over a decoded chunk list; boxed straight into the enum,
    /// as every cursor constructor is.
    pub fn new(iter: crate::int_always_ascending::Iter<'a>) -> (r: QueryEval<'a>)
        requires
            iter.wf(),
            iter.prev_of() is None,
            ascending_valid(iter.remaining(), iter.prev_of()),
        ensures
            qe_wf(r),
            qe_cur(r) is None,
            r is Leaf && r->Leaf_0.current is None && r->Leaf_0.iter == iter,
    {
        QueryEval::Leaf(Leaf { current: None, iter })
    }

    /// Steps to the next chunk id of the list, if one is left.
    pub fn advance(&mut self) -> (r: Result<bool, DecodeError>)
        requires
            qe_wf(QueryEval::Leaf(*old(self))),
        ensures
            qe_wf(QueryEval::Leaf(*final(self))),
            r is Ok,
            r == Result::<bool, DecodeError>::Ok(true) ==> final(self).current is Some
                && qe_size(QueryEval::Leaf(*final(self))) < qe_size(QueryEval::Leaf(*old(self)))
                && (old(self).current is Some ==> final(self).current.unwrap() > old(self).current.unwrap()),
            (r == Result::<bool, DecodeError>::Ok(false) <==> old(self).iter.remaining().len()
                == 0),
            r == Result::<bool, DecodeError>::Ok(false) ==> *final(self) == *old(self),
            r == Result::<bool, DecodeError>::Ok(true) ==> ({
                let ids = crate::int_always_ascending::ascending_ids(
                    old(self).iter.remaining(),
                    old(self).iter.prev_of(),
                );
                &&& ids.len() > 0
                &&& final(self).current == Some(ids[0])
                &&& crate::int_always_ascending::ascending_ids(
                    final(self).iter.remaining(),
                    final(self).iter.prev_of(),
                ) == ids.skip(1)
            }),
    {
        let ghost s = self.iter.remaining();
        let ghost p = self.iter.prev_of();
        proof {
            if s.len() > 0 {
                lemma_vint_size_bounds(s);
            }
        }
        match self.iter.next() {
            None => Ok(false),
            Some(Err(e)) => {
                proof {
                    assert(false);
                }
                Err(e)
            },
            Some(Ok(v)) => {
                proof {
                    crate::int_variable::lemma_vint_value_nonneg(s);
                    let raw = vint_value(s) % two_to_64();
                    assert(raw == vint_value(s));
                    assert(next_val(p, raw) < two_to_64());
                    assert(v == next_val(p, raw));
                    let ids = crate::int_always_ascending::ascending_ids(s, p);
                    assert(ids == seq![v] + crate::int_always_ascending::ascending_ids(
                        s.skip(vint_size(s)),
                        Some(v),
                    ));
                    assert((seq![v] + crate::int_always_ascending::ascending_ids(
                        s.skip(vint_size(s)),
                        Some(v),
                    )).skip(1) =~= crate::int_always_ascending::ascending_ids(
                        s.skip(vint_size(s)),
                        Some(v),
                    ));
                }
                self.current = Some(v);
                Ok(true)
            },
        }
    }

    /// The chunk id the cursor stands on.
    pub fn current(&self) -> (r: u64)
        requires
            self.current is Some,
        ensures
            r == self.current.unwrap(),
    {
        match self.current {
            Some(v) => v,
            None => {
                proof {
                    assert(false);
                }
                0
            },
        }
    }
}

impl<'a> QueryEval<'a> {
    /// Match all chunks up to `max`, inclusive.
    pub fn new_match_all(max: u64) -> (r: QueryEval<'a>)
        requires
            max < 0xffff_ffff_ffff_ffff,
        ensures
            qe_wf(r),
            qe_cur(r) is None,
            r is MatchAll && r->MatchAll_0.prev == 0 && r->MatchAll_0.max == max,
    {
        QueryEval::MatchAll(MatchAll::new(max))
    }

    /// Match the chunks of one decoded chunk list.
    pub fn new_leaf(iter: crate::int_always_ascending::Iter<'a>) -> (r: QueryEval<'a>)
        requires
            iter.wf(),
            iter.prev_of() is None,
            ascending_valid(iter.remaining(), iter.prev_of()),
        ensures
            qe_wf(r),
            qe_cur(r) is None,
            r is Leaf && r->Leaf_0.current is None && r->Leaf_0.iter == iter,
    {
        Leaf::new(iter)
    }

    /// Match the union of many queries.
    pub fn new_or(children: Vec<QueryEval<'a>>) -> (r: QueryEval<'a>)
        requires
            forall|i: int| 0 <= i < children@.len() ==> qe_wf(#[trigger] children@[i]),
        ensures
            qe_wf(r),
            qe_cur(r) is None,
            r is Or && !r->Or_0.children.heapified && r->Or_0.children.children@ == children@,
    {
        Or::new(children)
    }

    /// Match the intersection of many queries.
    pub fn new_and(children: Vec<QueryEval<'a>>) -> (r: QueryEval<'a>)
        requires
            forall|i: int| 0 <= i < children@.len() ==> qe_wf(#[trigger] children@[i]),
        ensures
            qe_wf(r),
            qe_cur(r) is None,
            r is And && !r->And_0.children.heapified && r->And_0.children.children@ == children@
                && r->And_0.required_count == children@.len() && r->And_0.prev is None,
    {
        And::new(children)
    }

    /// Steps to the next candidate chunk id. Candidates come strictly
    /// ascending, and the stream ends after finitely many steps.
    pub fn advance(&mut self) -> (r: Result<bool, DecodeError>)
        requires
            qe_wf(*old(self)),
        ensures
            qe_wf(*final(self)),
            r is Ok,
            r == Result::<bool, DecodeError>::Ok(true) ==> qe_cur(*final(self)) is Some
                && qe_size(*final(self)) < qe_size(*old(self)) && (qe_cur(*old(self)) is Some
                ==> qe_cur(*final(self)).unwrap() > qe_cur(*old(self)).unwrap()),
            r == Result::<bool, DecodeError>::Ok(false) ==> qe_size(*final(self)) <= qe_size(
                *old(self),
            ),
            (*old(self)) is MatchNone ==> r == Result::<bool, DecodeError>::Ok(false) && *final(self) == *old(self),
            (*old(self)) is MatchAll ==> ({
                &&& (*final(self)) is MatchAll
                &&& (*final(self))->MatchAll_0.max == (*old(self))->MatchAll_0.max
                &&& (r == Result::<bool, DecodeError>::Ok(false) <==> (*old(self))->MatchAll_0.prev > (*old(self))->MatchAll_0.max)
                &&& (r == Result::<bool, DecodeError>::Ok(true) ==> (*final(self))->MatchAll_0.prev
                    == (*old(self))->MatchAll_0.prev + 1)
            }),
            (*old(self)) is Leaf ==> ({
                let ids = crate::int_always_ascending::ascending_ids(
                    (*old(self))->Leaf_0.iter.remaining(),
                    (*old(self))->Leaf_0.iter.prev_of(),
                );
                &&& (*final(self)) is Leaf
                &&& (r == Result::<bool, DecodeError>::Ok(false) <==> (*old(self))->Leaf_0.iter.remaining().len() == 0)
                &&& (r == Result::<bool, DecodeError>::Ok(true) ==> ids.len() > 0 && (*final(self))->Leaf_0.current == Some(ids[0])
                    && crate::int_always_ascending::ascending_ids(
                    (*final(self))->Leaf_0.iter.remaining(),
                    (*final(self))->Leaf_0.iter.prev_of(),
                ) == ids.skip(1))
            }),
            (*old(self)) is Or ==> (*final(self)) is Or && (r == Result::<bool, DecodeError>::Ok(false)
                ==> (*final(self))->Or_0.children.children@.len() == 0),
            (*old(self)) is And ==> (*final(self)) is And && (r == Result::<bool, DecodeError>::Ok(false) ==> (*final(self))->And_0.children.children@.len() == 0 || (*final(self))->And_0.required_count != (*final(self))->And_0.children.children@.len()),
        decreases qe_size(*old(self)), 3int,
    {
        match self {
            QueryEval::MatchAll(m) => m.advance(),
            QueryEval::MatchNone => Ok(false),
            QueryEval::Leaf(l) => l.advance(),
            QueryEval::Or(o) => o.advance(),
            QueryEval::And(a) => a.advance(),
        }
    }
}

impl<'a> Or<'a> {
    /// The union of the given cursors, boxed into the enum.
    pub fn new(children: Vec<QueryEval<'a>>) -> (r: QueryEval<'a>)
        requires
            forall|i: int| 0 <= i < children@.len() ==> qe_wf(#[trigger] children@[i]),
        ensures
            qe_wf(r),
            qe_cur(r) is None,
            r is Or && !r->Or_0.children.heapified && r->Or_0.children.children@ == children@,
    {
        QueryEval::Or(Or { children: Heap::new(children) })
    }

    /// Steps to the next distinct chunk id any child holds.
    #[verifier::loop_isolation(false)]
    #[verifier::spinoff_prover]
    pub fn advance(&mut self) -> (r: Result<bool, DecodeError>)
        requires
            heap_wf(old(self).children),
        ensures
            heap_wf(final(self).children),
            r is Ok,
            r == Result::<bool, DecodeError>::Ok(true) ==> heap_cur(final(self).children)
                is Some && heap_size(final(self).children) < heap_size(old(self).children) && (
            heap_cur(old(self).children) is Some ==> heap_cur(final(self).children).unwrap()
                > heap_cur(old(self).children).unwrap()),
            r == Result::<bool, DecodeError>::Ok(false) ==> heap_size(final(self).children)
                <= heap_size(old(self).children),
            r == Result::<bool, DecodeError>::Ok(false) ==> final(self).children.heapified
                && final(self).children.children@.len() == 0,
        decreases heap_size(old(self).children), 2int,
    {
        let ghost entry = old(self).children;
        if !self.children.heapified() {
            return self.children.advance();
        }
        if self.children.len() == 0 {
            return Ok(false);
        }
        proof {
            lemma_all_index(entry.children, entry.children@.len() as int);
            assert(heap_cur(entry) is Some);
        }
        let ghost root0 = heap_cur(entry).unwrap();
        loop
            invariant
                heap_wf(self.children),
                self.children.heapified,
                self.children.children@.len() > 0,
                heap_size(self.children) <= heap_size(entry),
                heap_cur(self.children) is Some,
                heap_cur(self.children).unwrap() >= root0,
                heap_cur(entry) is Some,
                heap_cur(entry).unwrap() == root0,
            decreases heap_size(self.children),
        {
            proof {
                lemma_all_index(self.children.children, self.children.children@.len() as int);
            }
            let prev = self.children.current();
            let advanced = match self.children.advance() {
                Ok(b) => b,
                Err(e) => {
                    proof {
                        assert(false);
                    }
                    return Err(e);
                },
            };
            if !advanced {
                return Ok(false);
            }
            if self.children.current() != prev {
                return Ok(true);
            }
        }
    }

    /// The chunk id the cursor stands on.
    pub fn current(&self) -> (r: u64)
        requires
            heap_cur(self.children) is Some,
        ensures
            r == heap_cur(self.children).unwrap(),
    {
        self.children.current()
    }
}

impl<'a> And<'a> {
    /// The intersection of the given cursors, boxed into the enum.
    pub fn new(children: Vec<QueryEval<'a>>) -> (r: QueryEval<'a>)
        requires
            forall|i: int| 0 <= i < children@.len() ==> qe_wf(#[trigger] children@[i]),
        ensures
            qe_wf(r),
            qe_cur(r) is None,
            r is And && !r->And_0.children.heapified && r->And_0.children.children@ == children@
                && r->And_0.required_count == children@.len() && r->And_0.prev is None,
    {
        let required_count = children.len();
        QueryEval::And(And { children: Heap::new(children), required_count, prev: None })
    }

    /// Steps to the next chunk id every child holds.
    #[verifier::loop_isolation(false)]
    #[verifier::spinoff_prover]
    #[verifier::rlimit(100)]
    pub fn advance(&mut self) -> (r: Result<bool, DecodeError>)
        requires
            qe_wf(QueryEval::And(*old(self))),
        ensures
            qe_wf(QueryEval::And(*final(self))),
            r is Ok,
            r == Result::<bool, DecodeError>::Ok(true) ==> heap_cur(final(self).children)
                is Some && heap_size(final(self).children) < heap_size(old(self).children) && (
            heap_cur(old(self).children) is Some ==> heap_cur(final(self).children).unwrap()
                > heap_cur(old(self).children).unwrap()),
            r == Result::<bool, DecodeError>::Ok(false) ==> heap_size(final(self).children)
                <= heap_size(old(self).children),
            r == Result::<bool, DecodeError>::Ok(false) ==> final(self).children.children@.len()
                == 0 || final(self).required_count != final(self).children.children@.len(),
        decreases heap_size(old(self).children), 2int,
    {
        let ghost entry = *old(self);
        if self.required_count != self.children.len() {
            return Ok(false);
        }
        if self.required_count == 0 {
            let advanced0 = match self.children.advance() {
                Ok(b) => b,
                Err(e) => {
                    proof {
                        assert(false);
                    }
                    return Err(e);
                },
            };
            return Ok(false);
        }
        proof {
            if entry.children.heapified && entry.children.children@.len() > 0 {
                lemma_all_index(entry.children.children, entry.children.children@.len() as int);
            }
        }
        let advanced = match self.children.advance() {
            Ok(b) => b,
            Err(e) => {
                proof {
                    assert(false);
                }
                return Err(e);
            },
        };
        if !advanced {
            return Ok(false);
        }
        proof {
            lemma_all_index(self.children.children, self.children.children@.len() as int);
        }
        let mut candidate = self.children.current();
        let mut remaining = self.required_count - 1;
        loop
            invariant
                heap_wf(self.children),
                self.children.heapified,
                self.children.children@.len() > 0,
                heap_size(self.children) < heap_size(entry.children),
                heap_cur(self.children) is Some,
                candidate == heap_cur(self.children).unwrap(),
                heap_cur(entry.children) is Some ==> candidate >= heap_cur(
                    entry.children,
                ).unwrap(),
                self.required_count == entry.required_count,
                self.prev == entry.prev,
                entry.children.heapified && entry.children.children@.len() > 0 ==> entry.prev
                    is Some && heap_cur(entry.children) is Some && heap_cur(
                    entry.children,
                ).unwrap() <= entry.prev.unwrap(),
            decreases heap_size(self.children), (if remaining > 0 {
                1int
            } else {
                0int
            }), remaining,
        {
            proof {
                lemma_all_index(self.children.children, self.children.children@.len() as int);
            }
            if remaining == 0 {
                let emit = match self.prev {
                    None => true,
                    Some(p) => candidate > p,
                };
                if emit {
                    self.prev = Some(candidate);
                    return Ok(true);
                }
            }
            let advanced2 = match self.children.advance() {
                Ok(b) => b,
                Err(e) => {
                    proof {
                        assert(false);
                    }
                    return Err(e);
                },
            };
            if !advanced2 {
                return Ok(false);
            }
            let c = self.children.current();
            if remaining == 0 || c > candidate {
                candidate = c;
                remaining = self.required_count - 1;
            } else {
                remaining = remaining - 1;
            }
        }
    }

    /// The chunk id the cursor stands on.
    pub fn current(&self) -> (r: u64)
        requires
            heap_cur(self.children) is Some,
        ensures
            r == heap_cur(self.children).unwrap(),
    {
        self.children.current()
    }
}
} // verus!
