//! The query tree a regex is lowered to: an AND/OR expression over
//! trigrams, with absorbing `MatchAll` / `MatchNone` leaves. The smart
//! constructors keep trees canonical: children sorted under a total order,
//! duplicates and identity elements dropped, absorbing elements collapsed.

use vstd::prelude::*;
use vstd::string::StringSliceAdditionalSpecFns;

verus! {

/// Marker for the payload a trigram leaf carries: nothing before the
/// rewrite, a resolved chunk list after it.
pub trait Meta: Sized {
}

impl Meta for () {
}

/// A canonical boolean query over trigrams.
#[derive(Debug, PartialEq, Eq)]
pub enum Query<M: Meta> {
    /// Matches every chunk.
    MatchAll,
    /// Matches no chunk.
    MatchNone,
    /// Matches the chunks that hold the trigram.
    Trigram([u8; 3], M),
    /// Matches the union of its children.
    Or(Vec<Query<M>>),
    /// Matches the intersection of its children.
    And(Vec<Query<M>>),
}

/// Position of a query's kind in the total order:
/// `MatchAll < MatchNone < Trigram < Or < And`.
pub open spec fn qrank<M: Meta>(q: Query<M>) -> int {
    match q {
        Query::MatchAll => 0,
        Query::MatchNone => 1,
        Query::Trigram(_, _) => 2,
        Query::Or(_) => 3,
        Query::And(_) => 4,
    }
}

/// Lexicographic order on trigram bytes.
pub open spec fn trigram_lt(s: [u8; 3], t: [u8; 3]) -> bool {
    ||| s[0] < t[0]
    ||| (s[0] == t[0] && s[1] < t[1])
    ||| (s[0] == t[0] && s[1] == t[1] && s[2] < t[2])
}

/// Queries equal under the total order; the trigram payload is not
/// compared.
pub open spec fn qeq<M: Meta>(a: Query<M>, b: Query<M>) -> bool
    decreases a,
{
    match a {
        Query::MatchAll => b is MatchAll,
        Query::MatchNone => b is MatchNone,
        Query::Trigram(s, _) => match b {
            Query::Trigram(t, _) => s@ == t@,
            _ => false,
        },
        Query::Or(x) => match b {
            Query::Or(y) => x@.len() == y@.len() && (forall|i: int|
                0 <= i < x@.len() ==> qeq(#[trigger] x@[i], y@[i])),
            _ => false,
        },
        Query::And(x) => match b {
            Query::And(y) => x@.len() == y@.len() && (forall|i: int|
                0 <= i < x@.len() ==> qeq(#[trigger] x@[i], y@[i])),
            _ => false,
        },
    }
}

/// The first `k` children of each side are pairwise equal.
pub open spec fn qeq_prefix<M: Meta>(xs: Seq<Query<M>>, ys: Seq<Query<M>>, k: int) -> bool {
    forall|i: int| 0 <= i < k ==> qeq(#[trigger] xs[i], ys[i])
}

/// Strict total order on queries: by kind, then by trigram bytes or
/// lexicographically by children.
pub open spec fn qlt<M: Meta>(a: Query<M>, b: Query<M>) -> bool
    decreases a,
{
    if qrank(a) != qrank(b) {
        qrank(a) < qrank(b)
    } else {
        match a {
            Query::Trigram(s, _) => match b {
                Query::Trigram(t, _) => trigram_lt(s, t),
                _ => false,
            },
            Query::Or(x) => match b {
                Query::Or(y) => exists|k: int|
                    0 <= k <= x@.len() && k <= y@.len() && #[trigger] qeq_prefix(x@, y@, k) && ((k
                        == x@.len() && k < y@.len()) || (k < x@.len() && k < y@.len() && qlt(
                        x@[k],
                        y@[k],
                    ))),
                _ => false,
            },
            Query::And(x) => match b {
                Query::And(y) => exists|k: int|
                    0 <= k <= x@.len() && k <= y@.len() && #[trigger] qeq_prefix(x@, y@, k) && ((k
                        == x@.len() && k < y@.len()) || (k < x@.len() && k < y@.len() && qlt(
                        x@[k],
                        y@[k],
                    ))),
                _ => false,
            },
            _ => false,
        }
    }
}

/// Children sorted strictly ascending under the total order.
pub open spec fn sorted_q<M: Meta>(cs: Seq<Query<M>>) -> bool {
    forall|i: int, j: int| 0 <= i < j < cs.len() ==> qlt(cs[i], cs[j])
}

/// A child the constructors keep: neither identity nor absorbing element.
pub open spec fn keeps<M: Meta>(q: Query<M>) -> bool {
    !(q is MatchAll) && !(q is MatchNone)
}

/// Below `n` pairwise-compared positions, either all pairs are equal or
/// there is a first unequal pair.
proof fn lemma_split<M: Meta>(xs: Seq<Query<M>>, ys: Seq<Query<M>>, n: int)
    requires
        0 <= n <= xs.len(),
        n <= ys.len(),
    ensures
        qeq_prefix(xs, ys, n) || exists|k: int|
            0 <= k < n && #[trigger] qeq_prefix(xs, ys, k) && !qeq(xs[k], ys[k]),
    decreases n,
{
    if n > 0 {
        lemma_split(xs, ys, n - 1);
        if qeq_prefix(xs, ys, n - 1) {
            if qeq(xs[n - 1], ys[n - 1]) {
                assert(qeq_prefix(xs, ys, n));
            } else {
                assert(qeq_prefix(xs, ys, n - 1) && !qeq(xs[n - 1], ys[n - 1]));
            }
        }
    }
}

/// Equality under the order is transitive.
pub proof fn lemma_qeq_trans<M: Meta>(a: Query<M>, b: Query<M>, c: Query<M>)
    requires
        qeq(a, b),
        qeq(b, c),
    ensures
        qeq(a, c),
    decreases a,
{
    match a {
        Query::Or(x) => match b {
            Query::Or(y) => match c {
                Query::Or(z) => {
                    assert forall|i: int| 0 <= i < x@.len() implies qeq(
                        #[trigger] x@[i],
                        z@[i],
                    ) by {
                        lemma_qeq_trans(x@[i], y@[i], z@[i]);
                    }
                },
                _ => {},
            },
            _ => {},
        },
        Query::And(x) => match b {
            Query::And(y) => match c {
                Query::And(z) => {
                    assert forall|i: int| 0 <= i < x@.len() implies qeq(
                        #[trigger] x@[i],
                        z@[i],
                    ) by {
                        lemma_qeq_trans(x@[i], y@[i], z@[i]);
                    }
                },
                _ => {},
            },
            _ => {},
        },
        _ => {},
    }
}

/// The order is a strict total order up to equality: exactly one of
/// `a < b`, `a == b`, `b < a` holds, and equality is symmetric.
pub proof fn lemma_order_props<M: Meta>(a: Query<M>, b: Query<M>)
    ensures
        qlt(a, b) ==> !qeq(a, b) && !qlt(b, a),
        qeq(a, b) <==> qeq(b, a),
        qeq(a, b) ==> !qlt(a, b) && !qlt(b, a),
        qlt(a, b) || qeq(a, b) || qlt(b, a),
    decreases a, 2int,
{
    if qrank(a) != qrank(b) {
        return ;
    }
    match a {
        Query::Or(x) => match b {
            Query::Or(y) => {
                lemma_order_props_children(a, b, x@, y@);
            },
            _ => {},
        },
        Query::And(x) => match b {
            Query::And(y) => {
                lemma_order_props_children(a, b, x@, y@);
            },
            _ => {},
        },
        Query::Trigram(s, _) => match b {
            Query::Trigram(t, _) => {
                if !trigram_lt(s, t) && !trigram_lt(t, s) {
                    assert(s@ =~= t@);
                }
            },
            _ => {},
        },
        _ => {},
    }
}

/// The order's properties for two child lists; `a` and `b` are the nodes
/// that carry them, only there so the recursion has something smaller to
/// stand on.
proof fn lemma_order_props_children<M: Meta>(
    a: Query<M>,
    b: Query<M>,
    xs: Seq<Query<M>>,
    ys: Seq<Query<M>>,
)
    requires
        (a is Or && b is Or && a->Or_0@ == xs && b->Or_0@ == ys) || (a is And && b is And
            && a->And_0@ == xs && b->And_0@ == ys),
    ensures
        qlt(a, b) ==> !qeq(a, b) && !qlt(b, a),
        qeq(a, b) <==> qeq(b, a),
        qeq(a, b) ==> !qlt(a, b) && !qlt(b, a),
        qlt(a, b) || qeq(a, b) || qlt(b, a),
    decreases a, 1int,
{
    let m: int = if xs.len() <= ys.len() {
        xs.len() as int
    } else {
        ys.len() as int
    };
    assert forall|i: int| 0 <= i < m implies ((qlt(#[trigger] xs[i], ys[i]) ==> !qeq(xs[i], ys[i])
        && !qlt(ys[i], xs[i])) && (qeq(xs[i], ys[i]) <==> qeq(ys[i], xs[i])) && (qeq(xs[i], ys[i])
        ==> !qlt(xs[i], ys[i]) && !qlt(ys[i], xs[i])) && (qlt(xs[i], ys[i]) || qeq(xs[i], ys[i])
        || qlt(ys[i], xs[i]))) by {
        lemma_order_props(xs[i], ys[i]);
    }
    lemma_split(xs, ys, m);
    if qeq_prefix(xs, ys, m) {
        assert(qeq_prefix(ys, xs, m));
        if xs.len() == ys.len() {
            assert(qeq(a, b));
            assert(qeq(b, a));
            assert(!qlt(a, b)) by {
                if qlt(a, b) {
                    let k = choose|k: int|
                        0 <= k <= xs.len() && k <= ys.len() && #[trigger] qeq_prefix(xs, ys, k)
                            && ((k == xs.len() && k < ys.len()) || (k < xs.len() && k < ys.len()
                            && qlt(xs[k], ys[k])));
                    assert(false);
                }
            }
            assert(!qlt(b, a)) by {
                if qlt(b, a) {
                    let k = choose|k: int|
                        0 <= k <= ys.len() && k <= xs.len() && #[trigger] qeq_prefix(ys, xs, k)
                            && ((k == ys.len() && k < xs.len()) || (k < ys.len() && k < xs.len()
                            && qlt(ys[k], xs[k])));
                    assert(false);
                }
            }
        } else if xs.len() < ys.len() {
            assert(qlt(a, b)) by {
                assert(qeq_prefix(xs, ys, xs.len() as int));
            }
            assert(!qeq(a, b));
            assert(!qeq(b, a));
            assert(!qlt(b, a)) by {
                if qlt(b, a) {
                    let k = choose|k: int|
                        0 <= k <= ys.len() && k <= xs.len() && #[trigger] qeq_prefix(ys, xs, k)
                            && ((k == ys.len() && k < xs.len()) || (k < ys.len() && k < xs.len()
                            && qlt(ys[k], xs[k])));
                    assert(false);
                }
            }
        } else {
            assert(qlt(b, a)) by {
                assert(qeq_prefix(ys, xs, ys.len() as int));
            }
            assert(!qeq(a, b));
            assert(!qeq(b, a));
            assert(!qlt(a, b)) by {
                if qlt(a, b) {
                    let k = choose|k: int|
                        0 <= k <= xs.len() && k <= ys.len() && #[trigger] qeq_prefix(xs, ys, k)
                            && ((k == xs.len() && k < ys.len()) || (k < xs.len() && k < ys.len()
                            && qlt(xs[k], ys[k])));
                    assert(false);
                }
            }
        }
    } else {
        let k0 = choose|k: int|
            0 <= k < m && #[trigger] qeq_prefix(xs, ys, k) && !qeq(xs[k], ys[k]);
        assert(qeq_prefix(ys, xs, k0));
        assert(!qeq(ys[k0], xs[k0]));
        assert(!qeq(a, b)) by {
            if qeq(a, b) {
                assert(qeq(xs[k0], ys[k0]));
            }
        }
        assert(!qeq(b, a)) by {
            if qeq(b, a) {
                assert(qeq(ys[k0], xs[k0]));
            }
        }
        if qlt(xs[k0], ys[k0]) {
            assert(qlt(a, b));
            assert(!qlt(b, a)) by {
                if qlt(b, a) {
                    let k = choose|k: int|
                        0 <= k <= ys.len() && k <= xs.len() && #[trigger] qeq_prefix(ys, xs, k)
                            && ((k == ys.len() && k < xs.len()) || (k < ys.len() && k < xs.len()
                            && qlt(ys[k], xs[k])));
                    if k < k0 {
                        assert(qeq(xs[k], ys[k]));
                        assert(false);
                    } else if k == k0 {
                        assert(false);
                    } else {
                        assert(qeq(ys[k0], xs[k0]));
                        assert(false);
                    }
                }
            }
        } else {
            assert(qlt(ys[k0], xs[k0]));
            assert(qlt(b, a));
            assert(!qlt(a, b)) by {
                if qlt(a, b) {
                    let k = choose|k: int|
                        0 <= k <= xs.len() && k <= ys.len() && #[trigger] qeq_prefix(xs, ys, k)
                            && ((k == xs.len() && k < ys.len()) || (k < xs.len() && k < ys.len()
                            && qlt(xs[k], ys[k])));
                    if k < k0 {
                        assert(qeq(xs[k], ys[k]));
                        assert(false);
                    } else if k == k0 {
                        assert(false);
                    } else {
                        assert(qeq(xs[k0], ys[k0]));
                        assert(false);
                    }
                }
            }
        }
    }
}

/// The order is transitive, taking equal elements as interchangeable: if
/// `a` is at or below `b`, and `b` at or below `c`, and at least one step
/// is strict, then `a` is strictly below `c`.
pub proof fn lemma_order_trans<M: Meta>(a: Query<M>, b: Query<M>, c: Query<M>)
    requires
        qlt(a, b) || qeq(a, b),
        qlt(b, c) || qeq(b, c),
        !(qeq(a, b) && qeq(b, c)),
    ensures
        qlt(a, c),
    decreases a, 2int,
{
    if qrank(a) < qrank(b) || qrank(b) < qrank(c) {
        assert(qrank(a) <= qrank(b) && qrank(b) <= qrank(c));
        return ;
    }
    assert(qrank(a) == qrank(b) && qrank(b) == qrank(c));
    match a {
        Query::MatchAll => {
            assert(false);
        },
        Query::MatchNone => {
            assert(false);
        },
        Query::Trigram(s, _) => {},
        Query::Or(x) => match b {
            Query::Or(y) => match c {
                Query::Or(z) => {
                    lemma_order_trans_children(a, b, c, x@, y@, z@);
                },
                _ => {},
            },
            _ => {},
        },
        Query::And(x) => match b {
            Query::And(y) => match c {
                Query::And(z) => {
                    lemma_order_trans_children(a, b, c, x@, y@, z@);
                },
                _ => {},
            },
            _ => {},
        },
    }
}

/// Transitivity for the child lists; the nodes are along so the recursion
/// has something smaller to stand on.
proof fn lemma_order_trans_children<M: Meta>(
    a: Query<M>,
    b: Query<M>,
    c: Query<M>,
    xs: Seq<Query<M>>,
    ys: Seq<Query<M>>,
    zs: Seq<Query<M>>,
)
    requires
        (a is Or && b is Or && c is Or && a->Or_0@ == xs && b->Or_0@ == ys && c->Or_0@ == zs) || (
        a is And && b is And && c is And && a->And_0@ == xs && b->And_0@ == ys && c->And_0@ == zs),
        qlt(a, b) || qeq(a, b),
        qlt(b, c) || qeq(b, c),
        !(qeq(a, b) && qeq(b, c)),
    ensures
        qlt(a, c),
    decreases a, 1int,
{
    let m: int = vstd::math::min(
        vstd::math::min(xs.len() as int, ys.len() as int),
        zs.len() as int,
    );
    assert forall|i: int| 0 <= i < m implies (((qlt(#[trigger] xs[i], ys[i]) || qeq(xs[i], ys[i]))
        && (qlt(ys[i], zs[i]) || qeq(ys[i], zs[i])) && !(qeq(xs[i], ys[i]) && qeq(ys[i], zs[i]))
        ==> qlt(xs[i], zs[i])) && (qeq(xs[i], ys[i]) && qeq(ys[i], zs[i]) ==> qeq(xs[i], zs[i]))
        && (qlt(xs[i], ys[i]) ==> !qeq(xs[i], ys[i])) && (qlt(ys[i], zs[i]) ==> !qeq(
        ys[i],
        zs[i],
    ))) by {
        if (qlt(xs[i], ys[i]) || qeq(xs[i], ys[i])) && (qlt(ys[i], zs[i]) || qeq(ys[i], zs[i]))
            && !(qeq(xs[i], ys[i]) && qeq(ys[i], zs[i])) {
            lemma_order_trans(xs[i], ys[i], zs[i]);
        }
        if qeq(xs[i], ys[i]) && qeq(ys[i], zs[i]) {
            lemma_qeq_trans(xs[i], ys[i], zs[i]);
        }
        lemma_order_props(xs[i], ys[i]);
        lemma_order_props(ys[i], zs[i]);
    }
    if qeq(a, b) {
        // first step equal, second strict
        assert(qlt(b, c));
        let k2 = choose|k: int|
            0 <= k <= ys.len() && k <= zs.len() && #[trigger] qeq_prefix(ys, zs, k) && ((k
                == ys.len() && k < zs.len()) || (k < ys.len() && k < zs.len() && qlt(
                ys[k],
                zs[k],
            )));
        assert(xs.len() == ys.len());
        assert(qeq_prefix(xs, zs, k2));
        if k2 == ys.len() {
            assert(k2 == xs.len() && k2 < zs.len());
        } else {
            assert(qeq(xs[k2], ys[k2]) && qlt(ys[k2], zs[k2]));
            assert(qlt(xs[k2], zs[k2]));
        }
        assert(qlt(a, c));
    } else if qeq(b, c) {
        let k1 = choose|k: int|
            0 <= k <= xs.len() && k <= ys.len() && #[trigger] qeq_prefix(xs, ys, k) && ((k
                == xs.len() && k < ys.len()) || (k < xs.len() && k < ys.len() && qlt(
                xs[k],
                ys[k],
            )));
        assert(ys.len() == zs.len());
        assert(qeq_prefix(xs, zs, k1));
        if k1 == xs.len() {
            assert(k1 < zs.len());
        } else {
            assert(qlt(xs[k1], ys[k1]) && qeq(ys[k1], zs[k1]));
            assert(qlt(xs[k1], zs[k1]));
        }
        assert(qlt(a, c));
    } else {
        let k1 = choose|k: int|
            0 <= k <= xs.len() && k <= ys.len() && #[trigger] qeq_prefix(xs, ys, k) && ((k
                == xs.len() && k < ys.len()) || (k < xs.len() && k < ys.len() && qlt(
                xs[k],
                ys[k],
            )));
        let k2 = choose|k: int|
            0 <= k <= ys.len() && k <= zs.len() && #[trigger] qeq_prefix(ys, zs, k) && ((k
                == ys.len() && k < zs.len()) || (k < ys.len() && k < zs.len() && qlt(
                ys[k],
                zs[k],
            )));
        if k1 < k2 {
            assert(qeq_prefix(xs, zs, k1));
            if k1 == xs.len() {
                assert(k1 < k2 <= zs.len());
            } else {
                assert(qlt(xs[k1], ys[k1]) && qeq(ys[k1], zs[k1]));
                assert(qlt(xs[k1], zs[k1]));
            }
        } else if k2 < k1 {
            assert(qeq_prefix(xs, zs, k2));
            assert(qeq(xs[k2], ys[k2]) && qlt(ys[k2], zs[k2]));
            assert(qlt(xs[k2], zs[k2]));
        } else {
            assert(qeq_prefix(xs, zs, k1));
            if k1 == xs.len() {
                assert(k1 == k2);
                assert(k1 < zs.len());
            } else {
                assert(k1 < ys.len());
                assert(qlt(xs[k1], ys[k1]));
                assert(qlt(ys[k1], zs[k1]));
                assert(qlt(xs[k1], zs[k1]));
            }
        }
        assert(qlt(a, c));
    }
}
/// The position of a query's kind in the total order, at run time.
fn rank_of<M: Meta>(q: &Query<M>) -> (r: u8)
    ensures
        r == qrank(*q),
{
    match q {
        Query::MatchAll => 0,
        Query::MatchNone => 1,
        Query::Trigram(_, _) => 2,
        Query::Or(_) => 3,
        Query::And(_) => 4,
    }
}

/// Three-way comparison under the total order: below zero for `a` first,
/// zero for equal, above zero for `b` first.
fn cmp_query<M: Meta>(a: &Query<M>, b: &Query<M>) -> (r: i8)
    ensures
        (r == -1i8 <==> qlt(*a, *b)),
        (r == 0i8 <==> qeq(*a, *b)),
        (r == 1i8 <==> qlt(*b, *a)),
        r == -1i8 || r == 0i8 || r == 1i8,
    decreases *a,
{
    proof {
        lemma_order_props(*a, *b);
    }
    let ra = rank_of(a);
    let rb = rank_of(b);
    if ra < rb {
        return -1;
    }
    if ra > rb {
        return 1;
    }
    match (a, b) {
        (Query::Trigram(s, _), Query::Trigram(t, _)) => {
            if s[0] != t[0] {
                if s[0] < t[0] {
                    -1
                } else {
                    1
                }
            } else if s[1] != t[1] {
                if s[1] < t[1] {
                    -1
                } else {
                    1
                }
            } else if s[2] != t[2] {
                if s[2] < t[2] {
                    -1
                } else {
                    1
                }
            } else {
                proof {
                    assert(s@ =~= t@);
                }
                0
            }
        },
        (Query::Or(x), Query::Or(y)) => cmp_children(x, y),
        (Query::And(x), Query::And(y)) => cmp_children(x, y),
        _ => {
            0
        },
    }
}

/// Three-way lexicographic comparison of two child lists.
fn cmp_children<M: Meta>(x: &Vec<Query<M>>, y: &Vec<Query<M>>) -> (r: i8)
    ensures
        ({
            let lex_xy = exists|k: int|
                0 <= k <= x@.len() && k <= y@.len() && #[trigger] qeq_prefix(x@, y@, k) && ((k
                    == x@.len() && k < y@.len()) || (k < x@.len() && k < y@.len() && qlt(
                    x@[k],
                    y@[k],
                )));
            let lex_yx = exists|k: int|
                0 <= k <= y@.len() && k <= x@.len() && #[trigger] qeq_prefix(y@, x@, k) && ((k
                    == y@.len() && k < x@.len()) || (k < y@.len() && k < x@.len() && qlt(
                    y@[k],
                    x@[k],
                )));
            let ptw = x@.len() == y@.len() && (forall|i: int|
                0 <= i < x@.len() ==> qeq(#[trigger] x@[i], y@[i]));
            &&& (r == -1i8 <==> lex_xy)
            &&& (r == 0i8 <==> ptw)
            &&& (r == 1i8 <==> lex_yx)
            &&& (r == -1i8 || r == 0i8 || r == 1i8)
        }),
    decreases x@,
{
    let xl = x.len();
    let yl = y.len();
    let m = if xl < yl {
        xl
    } else {
        yl
    };
    let mut i: usize = 0;
    while i < m
        invariant
            i <= m,
            m <= x@.len(),
            m <= y@.len(),
            m == if x@.len() < y@.len() {
                x@.len()
            } else {
                y@.len()
            },
            qeq_prefix(x@, y@, i as int),
            qeq_prefix(y@, x@, i as int),
        decreases m - i,
    {
        let c = cmp_query(&x[i], &y[i]);
        proof {
            lemma_order_props(x@[i as int], y@[i as int]);
        }
        if c == -1 {
            proof {
                assert(qeq_prefix(x@, y@, i as int) && qlt(x@[i as int], y@[i as int]));
                lemma_cmp_children_negatives(x@, y@, i as int);
            }
            return -1;
        }
        if c == 1 {
            proof {
                assert(qeq_prefix(y@, x@, i as int) && qlt(y@[i as int], x@[i as int]));
                lemma_cmp_children_negatives(y@, x@, i as int);
            }
            return 1;
        }
        proof {
            assert(qeq_prefix(x@, y@, i as int + 1));
            assert(qeq_prefix(y@, x@, i as int + 1));
        }
        i = i + 1;
    }
    if xl == yl {
        proof {
            lemma_cmp_children_equal(x@, y@);
        }
        0
    } else if xl < yl {
        proof {
            lemma_cmp_children_shorter(x@, y@);
        }
        -1
    } else {
        proof {
            lemma_cmp_children_shorter(y@, x@);
        }
        1
    }
}

/// A strict difference at a first unequal position rules out the reverse
/// lexicographic order and pointwise equality.
proof fn lemma_cmp_children_negatives<M: Meta>(xs: Seq<Query<M>>, ys: Seq<Query<M>>, k0: int)
    requires
        0 <= k0 < xs.len(),
        k0 < ys.len(),
        qeq_prefix(xs, ys, k0),
        qlt(xs[k0], ys[k0]),
    ensures
        exists|k: int|
            0 <= k <= xs.len() && k <= ys.len() && #[trigger] qeq_prefix(xs, ys, k) && ((k
                == xs.len() && k < ys.len()) || (k < xs.len() && k < ys.len() && qlt(
                xs[k],
                ys[k],
            ))),
        !(exists|k: int|
            0 <= k <= ys.len() && k <= xs.len() && #[trigger] qeq_prefix(ys, xs, k) && ((k
                == ys.len() && k < xs.len()) || (k < ys.len() && k < xs.len() && qlt(
                ys[k],
                xs[k],
            )))),
        !(xs.len() == ys.len() && (forall|i: int|
            0 <= i < xs.len() ==> qeq(#[trigger] xs[i], ys[i]))),
        !(ys.len() == xs.len() && (forall|i: int|
            0 <= i < ys.len() ==> qeq(#[trigger] ys[i], xs[i]))),
{
    assert forall|i: int| 0 <= i <= k0 implies !qlt(#[trigger] ys[i], xs[i]) && (i < k0 ==> qeq(
        ys[i],
        xs[i],
    )) by {
        lemma_order_props(xs[i], ys[i]);
    }
    lemma_order_props(xs[k0], ys[k0]);
    if exists|k: int|
        0 <= k <= ys.len() && k <= xs.len() && #[trigger] qeq_prefix(ys, xs, k) && ((k == ys.len()
            && k < xs.len()) || (k < ys.len() && k < xs.len() && qlt(ys[k], xs[k]))) {
        let k = choose|k: int|
            0 <= k <= ys.len() && k <= xs.len() && #[trigger] qeq_prefix(ys, xs, k) && ((k
                == ys.len() && k < xs.len()) || (k < ys.len() && k < xs.len() && qlt(
                ys[k],
                xs[k],
            )));
        if k <= k0 {
            assert(k < ys.len());
            assert(qlt(ys[k], xs[k]));
            if k < k0 {
                assert(qeq(xs[k], ys[k]));
                lemma_order_props(xs[k], ys[k]);
                lemma_order_props(ys[k], xs[k]);
                assert(false);
            } else {
                assert(false);
            }
        } else {
            assert(qeq(ys[k0], xs[k0]));
            lemma_order_props(ys[k0], xs[k0]);
            assert(false);
        }
    }
    if xs.len() == ys.len() && (forall|i: int| 0 <= i < xs.len() ==> qeq(#[trigger] xs[i], ys[i])) {
        assert(qeq(xs[k0], ys[k0]));
        assert(false);
    }
    if ys.len() == xs.len() && (forall|i: int| 0 <= i < ys.len() ==> qeq(#[trigger] ys[i], xs[i])) {
        assert(qeq(ys[k0], xs[k0]));
        lemma_order_props(ys[k0], xs[k0]);
        assert(false);
    }
}

/// Pointwise-equal lists of one length are equal, not ordered.
proof fn lemma_cmp_children_equal<M: Meta>(xs: Seq<Query<M>>, ys: Seq<Query<M>>)
    requires
        xs.len() == ys.len(),
        qeq_prefix(xs, ys, xs.len() as int),
        qeq_prefix(ys, xs, xs.len() as int),
    ensures
        xs.len() == ys.len() && (forall|i: int| 0 <= i < xs.len() ==> qeq(#[trigger] xs[i], ys[i])),
        !(exists|k: int|
            0 <= k <= xs.len() && k <= ys.len() && #[trigger] qeq_prefix(xs, ys, k) && ((k
                == xs.len() && k < ys.len()) || (k < xs.len() && k < ys.len() && qlt(
                xs[k],
                ys[k],
            )))),
        !(exists|k: int|
            0 <= k <= ys.len() && k <= xs.len() && #[trigger] qeq_prefix(ys, xs, k) && ((k
                == ys.len() && k < xs.len()) || (k < ys.len() && k < xs.len() && qlt(
                ys[k],
                xs[k],
            )))),
{
    if exists|k: int|
        0 <= k <= xs.len() && k <= ys.len() && #[trigger] qeq_prefix(xs, ys, k) && ((k == xs.len()
            && k < ys.len()) || (k < xs.len() && k < ys.len() && qlt(xs[k], ys[k]))) {
        let k = choose|k: int|
            0 <= k <= xs.len() && k <= ys.len() && #[trigger] qeq_prefix(xs, ys, k) && ((k
                == xs.len() && k < ys.len()) || (k < xs.len() && k < ys.len() && qlt(
                xs[k],
                ys[k],
            )));
        assert(qeq(xs[k], ys[k]));
        lemma_order_props(xs[k], ys[k]);
        assert(false);
    }
    if exists|k: int|
        0 <= k <= ys.len() && k <= xs.len() && #[trigger] qeq_prefix(ys, xs, k) && ((k == ys.len()
            && k < xs.len()) || (k < ys.len() && k < xs.len() && qlt(ys[k], xs[k]))) {
        let k = choose|k: int|
            0 <= k <= ys.len() && k <= xs.len() && #[trigger] qeq_prefix(ys, xs, k) && ((k
                == ys.len() && k < xs.len()) || (k < ys.len() && k < xs.len() && qlt(
                ys[k],
                xs[k],
            )));
        assert(qeq(ys[k], xs[k]));
        lemma_order_props(ys[k], xs[k]);
        assert(false);
    }
}

/// The shorter list, a prefix of the longer, comes first and only first.
proof fn lemma_cmp_children_shorter<M: Meta>(xs: Seq<Query<M>>, ys: Seq<Query<M>>)
    requires
        xs.len() < ys.len(),
        qeq_prefix(xs, ys, xs.len() as int),
        qeq_prefix(ys, xs, xs.len() as int),
    ensures
        exists|k: int|
            0 <= k <= xs.len() && k <= ys.len() && #[trigger] qeq_prefix(xs, ys, k) && ((k
                == xs.len() && k < ys.len()) || (k < xs.len() && k < ys.len() && qlt(
                xs[k],
                ys[k],
            ))),
        !(exists|k: int|
            0 <= k <= ys.len() && k <= xs.len() && #[trigger] qeq_prefix(ys, xs, k) && ((k
                == ys.len() && k < xs.len()) || (k < ys.len() && k < xs.len() && qlt(
                ys[k],
                xs[k],
            )))),
        !(xs.len() == ys.len()),
{
    assert(qeq_prefix(xs, ys, xs.len() as int) && xs.len() <= ys.len());
    if exists|k: int|
        0 <= k <= ys.len() && k <= xs.len() && #[trigger] qeq_prefix(ys, xs, k) && ((k == ys.len()
            && k < xs.len()) || (k < ys.len() && k < xs.len() && qlt(ys[k], xs[k]))) {
        let k = choose|k: int|
            0 <= k <= ys.len() && k <= xs.len() && #[trigger] qeq_prefix(ys, xs, k) && ((k
                == ys.len() && k < xs.len()) || (k < ys.len() && k < xs.len() && qlt(
                ys[k],
                xs[k],
            )));
        assert(k < xs.len());
        assert(qlt(ys[k], xs[k]));
        assert(qeq(ys[k], xs[k]));
        lemma_order_props(ys[k], xs[k]);
        assert(false);
    }
}
/// All the children a constructor keeps fall into one class of the order.
pub open spec fn one_kept_class<M: Meta>(children: Seq<Query<M>>) -> bool {
    forall|i: int, j: int|
        0 <= i < children.len() && 0 <= j < children.len() && keeps(children[i]) && keeps(
            children[j],
        ) ==> qeq(#[trigger] children[i], #[trigger] children[j])
}

/// Everything `Query::or` promises of its result: a `MatchAll` child
/// absorbs, only `MatchNone` children give `MatchNone`, and otherwise the
/// survivors come back as the single distinct child or as a sorted,
/// deduplicated `Or` drawn from the input.
pub open spec fn or_post<M: Meta>(children: Seq<Query<M>>, r: Query<M>) -> bool {
    &&& ((exists|i: int| 0 <= i < children.len() && (#[trigger] children[i]) is MatchAll)
        <==> r is MatchAll)
    &&& (!(r is MatchAll) ==> ((r is MatchNone) <==> (forall|i: int|
        0 <= i < children.len() ==> !keeps(#[trigger] children[i]))))
    &&& ((!(r is MatchAll) && !(r is MatchNone)) ==> ({
        &&& one_kept_class(children) ==> ({
            &&& children.contains(r)
            &&& keeps(r)
            &&& forall|i: int|
                0 <= i < children.len() && keeps(#[trigger] children[i]) ==> qeq(
                    children[i],
                    r,
                )
        })
        &&& !one_kept_class(children) ==> ({
            &&& r is Or
            &&& r->Or_0@.len() >= 2
            &&& sorted_q(r->Or_0@)
            &&& forall|j: int|
                0 <= j < r->Or_0@.len() ==> children.contains(#[trigger] r->Or_0@[j]) && keeps(
                    r->Or_0@[j],
                )
            &&& forall|i: int|
                0 <= i < children.len() && keeps(#[trigger] children[i]) ==> exists|j: int|
                    0 <= j < r->Or_0@.len() && qeq(#[trigger] r->Or_0@[j], children[i])
        })
    }))
}

/// Everything `Query::and` promises of its result, the mirror image:
/// `MatchNone` absorbs, only `MatchAll` children give `MatchAll`.
pub open spec fn and_post<M: Meta>(children: Seq<Query<M>>, r: Query<M>) -> bool {
    &&& ((exists|i: int| 0 <= i < children.len() && (#[trigger] children[i]) is MatchNone)
        <==> r is MatchNone)
    &&& (!(r is MatchNone) ==> ((r is MatchAll) <==> (forall|i: int|
        0 <= i < children.len() ==> !keeps(#[trigger] children[i]))))
    &&& ((!(r is MatchAll) && !(r is MatchNone)) ==> ({
        &&& one_kept_class(children) ==> ({
            &&& children.contains(r)
            &&& keeps(r)
            &&& forall|i: int|
                0 <= i < children.len() && keeps(#[trigger] children[i]) ==> qeq(
                    children[i],
                    r,
                )
        })
        &&& !one_kept_class(children) ==> ({
            &&& r is And
            &&& r->And_0@.len() >= 2
            &&& sorted_q(r->And_0@)
            &&& forall|j: int|
                0 <= j < r->And_0@.len() ==> children.contains(#[trigger] r->And_0@[j]) && keeps(
                    r->And_0@[j],
                )
            &&& forall|i: int|
                0 <= i < children.len() && keeps(#[trigger] children[i]) ==> exists|j: int|
                    0 <= j < r->And_0@.len() && qeq(#[trigger] r->And_0@[j], children[i])
        })
    }))
}

/// `Query::or`'s ensures clauses, bundled into the named predicate.
pub proof fn lemma_or_post_intro<M: Meta>(children: Seq<Query<M>>, r: Query<M>)
    requires
        (exists|i: int| 0 <= i < children.len() && (#[trigger] children[i]) is MatchAll)
            <==> r is MatchAll,
        !(r is MatchAll) ==> ((r is MatchNone) <==> (forall|i: int|
            0 <= i < children.len() ==> !keeps(#[trigger] children[i]))),
        (!(r is MatchAll) && !(r is MatchNone)) ==> ({
            &&& one_kept_class(children) ==> ({
                &&& children.contains(r)
                &&& keeps(r)
                &&& forall|i: int|
                    0 <= i < children.len() && keeps(#[trigger] children[i]) ==> qeq(
                        children[i],
                        r,
                    )
            })
            &&& !one_kept_class(children) ==> ({
                &&& r is Or
                &&& r->Or_0@.len() >= 2
                &&& sorted_q(r->Or_0@)
                &&& forall|j: int|
                    0 <= j < r->Or_0@.len() ==> children.contains(#[trigger] r->Or_0@[j])
                        && keeps(r->Or_0@[j])
                &&& forall|i: int|
                    0 <= i < children.len() && keeps(#[trigger] children[i]) ==> exists|j: int|
                        0 <= j < r->Or_0@.len() && qeq(#[trigger] r->Or_0@[j], children[i])
            })
        }),
    ensures
        or_post(children, r),
{
}

/// `Query::and`'s ensures clauses, bundled into the named predicate.
pub proof fn lemma_and_post_intro<M: Meta>(children: Seq<Query<M>>, r: Query<M>)
    requires
        (exists|i: int| 0 <= i < children.len() && (#[trigger] children[i]) is MatchNone)
            <==> r is MatchNone,
        !(r is MatchNone) ==> ((r is MatchAll) <==> (forall|i: int|
            0 <= i < children.len() ==> !keeps(#[trigger] children[i]))),
        (!(r is MatchAll) && !(r is MatchNone)) ==> ({
            &&& one_kept_class(children) ==> ({
                &&& children.contains(r)
                &&& keeps(r)
                &&& forall|i: int|
                    0 <= i < children.len() && keeps(#[trigger] children[i]) ==> qeq(
                        children[i],
                        r,
                    )
            })
            &&& !one_kept_class(children) ==> ({
                &&& r is And
                &&& r->And_0@.len() >= 2
                &&& sorted_q(r->And_0@)
                &&& forall|j: int|
                    0 <= j < r->And_0@.len() ==> children.contains(#[trigger] r->And_0@[j])
                        && keeps(r->And_0@[j])
                &&& forall|i: int|
                    0 <= i < children.len() && keeps(#[trigger] children[i]) ==> exists|j: int|
                        0 <= j < r->And_0@.len() && qeq(#[trigger] r->And_0@[j], children[i])
            })
        }),
    ensures
        and_post(children, r),
{
}

/// Inserts `q` into a sorted, duplicate-free list; a value already present
/// under the order is dropped.
fn sorted_insert<M: Meta>(cs: &mut Vec<Query<M>>, q: Query<M>)
    requires
        sorted_q(old(cs)@),
    ensures
        sorted_q(final(cs)@),
        (exists|j: int| 0 <= j < old(cs)@.len() && qeq(#[trigger] old(cs)@[j], q)) ==> final(cs)@ == old(cs)@,
        !(exists|j: int| 0 <= j < old(cs)@.len() && qeq(#[trigger] old(cs)@[j], q)) ==> ({
            &&& final(cs)@.len() == old(cs)@.len() + 1
            &&& exists|j: int| 0 <= j < final(cs)@.len() && #[trigger] final(cs)@[j] == q
            &&& forall|j: int|
                0 <= j < final(cs)@.len() ==> #[trigger] final(cs)@[j] == q || old(cs)@.contains(
                    final(cs)@[j],
                )
            &&& forall|j: int| 0 <= j < old(cs)@.len() ==> final(cs)@.contains(#[trigger] old(cs)@[j])
        }),
{
    let ghost orig = cs@;
    let mut idx: usize = 0;
    let mut above = false;
    while idx < cs.len() && !above
        invariant
            sorted_q(cs@),
            cs@ == orig,
            idx <= cs@.len(),
            forall|j: int| 0 <= j < idx ==> qlt(#[trigger] cs@[j], q) && !qeq(cs@[j], q),
            above ==> idx < cs@.len() && qlt(q, cs@[idx as int]),
        decreases cs@.len() - idx, (if above { 0int } else { 1int }),
    {
        let c = cmp_query(&cs[idx], &q);
        if c == 0 {
            return ;
        }
        if c == 1 {
            above = true;
        } else {
            proof {
                lemma_order_props(cs@[idx as int], q);
            }
            idx = idx + 1;
        }
    }
    proof {
        assert forall|j: int| idx <= j < cs@.len() implies qlt(q, #[trigger] cs@[j]) && !qeq(
            cs@[j],
            q,
        ) by {
            assert(above && idx < cs@.len());
            if j > idx {
                lemma_order_props(q, cs@[idx as int]);
                lemma_order_trans(q, cs@[idx as int], cs@[j]);
            }
            lemma_order_props(q, cs@[j]);
        }
    }
    cs.insert(idx, q);
    proof {
        assert(cs@ == orig.insert(idx as int, q));
        assert forall|i: int, j: int| 0 <= i < j < cs@.len() implies qlt(
            #[trigger] cs@[i],
            #[trigger] cs@[j],
        ) by {
            if i < idx && j < idx {
            } else if i < idx && j == idx {
                assert(cs@[i] == orig[i] && cs@[j] == q);
            } else if i < idx && j > idx {
                assert(cs@[i] == orig[i] && cs@[j] == orig[j - 1]);
            } else if i == idx {
                assert(cs@[i] == q && cs@[j] == orig[j - 1]);
            } else {
                assert(cs@[i] == orig[i - 1] && cs@[j] == orig[j - 1]);
            }
        }
        assert(cs@[idx as int] == q);
        assert forall|j: int| 0 <= j < orig.len() implies cs@.contains(#[trigger] orig[j]) by {
            if j < idx {
                assert(cs@[j] == orig[j]);
            } else {
                assert(cs@[j + 1] == orig[j]);
            }
        }
        assert forall|j: int|
            0 <= j < cs@.len() implies #[trigger] cs@[j] == q || orig.contains(cs@[j]) by {
            if j < idx {
                assert(cs@[j] == orig[j]);
            } else if j > idx {
                assert(cs@[j] == orig[j - 1]);
            }
        }
    }
}

impl<M: Meta> Query<M> {
    /// The union of `children`, in canonical form: a `MatchAll` child
    /// absorbs everything, `MatchNone` children are dropped, the rest are
    /// sorted and deduplicated; none, one or many survivors give
    /// `MatchNone`, the survivor, or an `Or`.
    #[verifier::loop_isolation(false)]
    #[verifier::rlimit(100)]
    #[verifier::spinoff_prover]
    pub fn or(children: Vec<Query<M>>) -> (r: Query<M>)
        ensures
            (exists|i: int| 0 <= i < children@.len() && (#[trigger] children@[i]) is MatchAll)
                <==> r is MatchAll,
            !(r is MatchAll) ==> ((r is MatchNone) <==> (forall|i: int|
                0 <= i < children@.len() ==> !keeps(#[trigger] children@[i]))),
            (!(r is MatchAll) && !(r is MatchNone)) ==> ({
                &&& one_kept_class(children@) ==> ({
                    &&& children@.contains(r)
                    &&& keeps(r)
                    &&& forall|i: int|
                        0 <= i < children@.len() && keeps(#[trigger] children@[i]) ==> qeq(
                            children@[i],
                            r,
                        )
                })
                &&& !one_kept_class(children@) ==> ({
                    &&& r is Or
                    &&& r->Or_0@.len() >= 2
                    &&& sorted_q(r->Or_0@)
                    &&& forall|j: int|
                        0 <= j < r->Or_0@.len() ==> children@.contains(#[trigger] r->Or_0@[j])
                            && keeps(r->Or_0@[j])
                    &&& forall|i: int|
                        0 <= i < children@.len() && keeps(#[trigger] children@[i]) ==> exists|
                            j: int,
                        | 0 <= j < r->Or_0@.len() && qeq(#[trigger] r->Or_0@[j], children@[i])
                })
            }),
    {
        let ghost orig = children@;
        let mut rest = children;
        let mut collected: Vec<Query<M>> = Vec::new();
        assert(rest@ =~= orig.skip(0));
        while rest.len() > 0
            invariant
                rest@ == orig.skip(orig.len() - rest@.len()),
                rest@.len() <= orig.len(),
                sorted_q(collected@),
                forall|i: int|
                    0 <= i < orig.len() - rest@.len() ==> !((#[trigger] orig[i]) is MatchAll),
                forall|j: int|
                    0 <= j < collected@.len() ==> orig.contains(#[trigger] collected@[j]) && keeps(
                        collected@[j],
                    ),
                forall|i: int|
                    0 <= i < orig.len() - rest@.len() && keeps(#[trigger] orig[i]) ==> exists|
                        j: int,
                    | 0 <= j < collected@.len() && qeq(#[trigger] collected@[j], orig[i]),
            decreases rest@.len(),
        {
            let ghost k = orig.len() - rest@.len();
            let q = rest.remove(0);
            proof {
                assert(q == orig[k as int]);
                assert(rest@ =~= orig.skip(k as int + 1));
            }
            match q {
                Query::MatchAll => {
                    proof {
                        assert(0 <= k < orig.len());
                        assert((#[trigger] orig[k as int]) is MatchAll);
                        assert(exists|i: int|
                            0 <= i < orig.len() && (#[trigger] orig[i]) is MatchAll);
                    }
                    return Query::MatchAll;
                },
                Query::MatchNone => {
                    proof {
                        assert forall|i: int|
                            0 <= i < k + 1 && keeps(#[trigger] orig[i]) implies exists|j: int|
                            0 <= j < collected@.len() && qeq(#[trigger] collected@[j], orig[i]) by {
                        }
                    }
                },
                q => {
                    let ghost before = collected@;
                    sorted_insert(&mut collected, q);
                    proof {
                        lemma_or_insert_cover(before, collected@, orig, k as int, q);
                    }
                },
            }
        }
        let ghost k = orig.len() as int;
        assert(orig.len() - rest@.len() == k);
        if collected.len() == 0 {
            assert forall|i: int|
                0 <= i < orig.len() implies !keeps(#[trigger] orig[i]) by {
                if keeps(orig[i]) {
                    let j = choose|j: int|
                        0 <= j < collected@.len() && qeq(#[trigger] collected@[j], orig[i]);
                    assert(false);
                }
            }
            return Query::MatchNone;
        }
        if collected.len() == 1 {
            let r = match collected.pop() {
                Some(x) => x,
                None => {
                    proof {
                        assert(false);
                    }
                    Query::MatchNone
                },
            };
            proof {
                assert(r == collected@.push(r)[0]);
                assert forall|i: int|
                    0 <= i < orig.len() && keeps(#[trigger] orig[i]) implies qeq(orig[i], r) by {
                    let j = choose|j: int|
                        0 <= j < collected@.push(r).len() && qeq(
                            #[trigger] collected@.push(r)[j],
                            orig[i],
                        );
                    lemma_order_props(r, orig[i]);
                }
                assert forall|i: int, j: int|
                    0 <= i < orig.len() && 0 <= j < orig.len() && keeps(orig[i]) && keeps(
                        orig[j],
                    ) implies qeq(#[trigger] orig[i], #[trigger] orig[j]) by {
                    lemma_order_props(orig[j], r);
                    lemma_qeq_trans(orig[i], r, orig[j]);
                }
            }
            return r;
        }
        proof {
            assert(!(exists|i: int|
                0 <= i < orig.len() && (#[trigger] orig[i]) is MatchAll));
            assert(keeps(collected@[0]));
            assert(!one_kept_class(orig)) by {
                assert(orig.contains(collected@[0]));
                assert(orig.contains(collected@[1]));
                let i0 = choose|i: int| 0 <= i < orig.len() && orig[i] == collected@[0];
                let i1 = choose|i: int| 0 <= i < orig.len() && orig[i] == collected@[1];
                assert(qlt(collected@[0], collected@[1]));
                lemma_order_props(collected@[0], collected@[1]);
                assert(!qeq(orig[i0], orig[i1]));
            }
        }
        Query::Or(collected)
    }

    /// The intersection of `children`, in canonical form: a `MatchNone`
    /// child absorbs everything, `MatchAll` children are dropped, the rest
    /// are sorted and deduplicated; none, one or many survivors give
    /// `MatchAll`, the survivor, or an `And`.
    #[verifier::loop_isolation(false)]
    #[verifier::rlimit(100)]
    #[verifier::spinoff_prover]
    pub fn and(children: Vec<Query<M>>) -> (r: Query<M>)
        ensures
            (exists|i: int| 0 <= i < children@.len() && (#[trigger] children@[i]) is MatchNone)
                <==> r is MatchNone,
            !(r is MatchNone) ==> ((r is MatchAll) <==> (forall|i: int|
                0 <= i < children@.len() ==> !keeps(#[trigger] children@[i]))),
            (!(r is MatchAll) && !(r is MatchNone)) ==> ({
                &&& one_kept_class(children@) ==> ({
                    &&& children@.contains(r)
                    &&& keeps(r)
                    &&& forall|i: int|
                        0 <= i < children@.len() && keeps(#[trigger] children@[i]) ==> qeq(
                            children@[i],
                            r,
                        )
                })
                &&& !one_kept_class(children@) ==> ({
                    &&& r is And
                    &&& r->And_0@.len() >= 2
                    &&& sorted_q(r->And_0@)
                    &&& forall|j: int|
                        0 <= j < r->And_0@.len() ==> children@.contains(#[trigger] r->And_0@[j])
                            && keeps(r->And_0@[j])
                    &&& forall|i: int|
                        0 <= i < children@.len() && keeps(#[trigger] children@[i]) ==> exists|
                            j: int,
                        | 0 <= j < r->And_0@.len() && qeq(#[trigger] r->And_0@[j], children@[i])
                })
            }),
    {
        let ghost orig = children@;
        let mut rest = children;
        let mut collected: Vec<Query<M>> = Vec::new();
        assert(rest@ =~= orig.skip(0));
        while rest.len() > 0
            invariant
                rest@ == orig.skip(orig.len() - rest@.len()),
                rest@.len() <= orig.len(),
                sorted_q(collected@),
                forall|i: int|
                    0 <= i < orig.len() - rest@.len() ==> !((#[trigger] orig[i]) is MatchNone),
                forall|j: int|
                    0 <= j < collected@.len() ==> orig.contains(#[trigger] collected@[j]) && keeps(
                        collected@[j],
                    ),
                forall|i: int|
                    0 <= i < orig.len() - rest@.len() && keeps(#[trigger] orig[i]) ==> exists|
                        j: int,
                    | 0 <= j < collected@.len() && qeq(#[trigger] collected@[j], orig[i]),
            decreases rest@.len(),
        {
            let ghost k = orig.len() - rest@.len();
            let q = rest.remove(0);
            proof {
                assert(q == orig[k as int]);
                assert(rest@ =~= orig.skip(k as int + 1));
            }
            match q {
                Query::MatchNone => {
                    proof {
                        assert(0 <= k < orig.len());
                        assert((#[trigger] orig[k as int]) is MatchNone);
                        assert(exists|i: int|
                            0 <= i < orig.len() && (#[trigger] orig[i]) is MatchNone);
                    }
                    return Query::MatchNone;
                },
                Query::MatchAll => {
                    proof {
                        assert forall|i: int|
                            0 <= i < k + 1 && keeps(#[trigger] orig[i]) implies exists|j: int|
                            0 <= j < collected@.len() && qeq(#[trigger] collected@[j], orig[i]) by {
                        }
                    }
                },
                q => {
                    let ghost before = collected@;
                    sorted_insert(&mut collected, q);
                    proof {
                        lemma_or_insert_cover(before, collected@, orig, k as int, q);
                    }
                },
            }
        }
        let ghost k = orig.len() as int;
        assert(orig.len() - rest@.len() == k);
        if collected.len() == 0 {
            assert forall|i: int|
                0 <= i < orig.len() implies !keeps(#[trigger] orig[i]) by {
                if keeps(orig[i]) {
                    let j = choose|j: int|
                        0 <= j < collected@.len() && qeq(#[trigger] collected@[j], orig[i]);
                    assert(false);
                }
            }
            return Query::MatchAll;
        }
        if collected.len() == 1 {
            let r = match collected.pop() {
                Some(x) => x,
                None => {
                    proof {
                        assert(false);
                    }
                    Query::MatchAll
                },
            };
            proof {
                assert(r == collected@.push(r)[0]);
                assert forall|i: int|
                    0 <= i < orig.len() && keeps(#[trigger] orig[i]) implies qeq(orig[i], r) by {
                    let j = choose|j: int|
                        0 <= j < collected@.push(r).len() && qeq(
                            #[trigger] collected@.push(r)[j],
                            orig[i],
                        );
                    lemma_order_props(r, orig[i]);
                }
                assert forall|i: int, j: int|
                    0 <= i < orig.len() && 0 <= j < orig.len() && keeps(orig[i]) && keeps(
                        orig[j],
                    ) implies qeq(#[trigger] orig[i], #[trigger] orig[j]) by {
                    lemma_order_props(orig[j], r);
                    lemma_qeq_trans(orig[i], r, orig[j]);
                }
            }
            return r;
        }
        proof {
            assert(!(exists|i: int|
                0 <= i < orig.len() && (#[trigger] orig[i]) is MatchNone));
            assert(keeps(collected@[0]));
            assert(!one_kept_class(orig)) by {
                assert(orig.contains(collected@[0]));
                assert(orig.contains(collected@[1]));
                let i0 = choose|i: int| 0 <= i < orig.len() && orig[i] == collected@[0];
                let i1 = choose|i: int| 0 <= i < orig.len() && orig[i] == collected@[1];
                assert(qlt(collected@[0], collected@[1]));
                lemma_order_props(collected@[0], collected@[1]);
                assert(!qeq(orig[i0], orig[i1]));
            }
        }
        Query::And(collected)
    }
}

/// After inserting the kept child at `k`, every kept child at or below `k`
/// still has a representative.
proof fn lemma_or_insert_cover<M: Meta>(
    before: Seq<Query<M>>,
    after: Seq<Query<M>>,
    orig: Seq<Query<M>>,
    k: int,
    q: Query<M>,
)
    requires
        0 <= k < orig.len(),
        q == orig[k],
        keeps(q),
        forall|j: int|
            0 <= j < before.len() ==> orig.contains(#[trigger] before[j]) && keeps(before[j]),
        forall|i: int|
            0 <= i < k && keeps(#[trigger] orig[i]) ==> exists|j: int|
                0 <= j < before.len() && qeq(#[trigger] before[j], orig[i]),
        (exists|j: int| 0 <= j < before.len() && qeq(#[trigger] before[j], q)) ==> after == before,
        !(exists|j: int| 0 <= j < before.len() && qeq(#[trigger] before[j], q)) ==> ({
            &&& after.len() == before.len() + 1
            &&& exists|j: int| 0 <= j < after.len() && #[trigger] after[j] == q
            &&& forall|j: int|
                0 <= j < after.len() ==> #[trigger] after[j] == q || before.contains(after[j])
            &&& forall|j: int| 0 <= j < before.len() ==> after.contains(#[trigger] before[j])
        }),
    ensures
        forall|j: int|
            0 <= j < after.len() ==> orig.contains(#[trigger] after[j]) && keeps(after[j]),
        forall|i: int|
            0 <= i < k + 1 && keeps(#[trigger] orig[i]) ==> exists|j: int|
                0 <= j < after.len() && qeq(#[trigger] after[j], orig[i]),
{
    if exists|j: int| 0 <= j < before.len() && qeq(#[trigger] before[j], q) {
        assert forall|i: int|
            0 <= i < k + 1 && keeps(#[trigger] orig[i]) implies exists|j: int|
            0 <= j < after.len() && qeq(#[trigger] after[j], orig[i]) by {
            if i == k {
                let j = choose|j: int| 0 <= j < before.len() && qeq(#[trigger] before[j], q);
                assert(qeq(after[j], orig[i]));
            }
        }
    } else {
        assert(orig.contains(q)) by {
            assert(orig[k] == q);
        }
        assert forall|j: int|
            0 <= j < after.len() implies orig.contains(#[trigger] after[j]) && keeps(
            after[j],
        ) by {
            if after[j] == q {
            } else {
                assert(before.contains(after[j]));
                let i = choose|i: int| 0 <= i < before.len() && before[i] == after[j];
            }
        }
        assert forall|i: int|
            0 <= i < k + 1 && keeps(#[trigger] orig[i]) implies exists|j: int|
            0 <= j < after.len() && qeq(#[trigger] after[j], orig[i]) by {
            if i == k {
                let j = choose|j: int| 0 <= j < after.len() && #[trigger] after[j] == q;
                lemma_order_props(after[j], orig[i]);
                assert(qeq(after[j], orig[i]));
            } else {
                let j0 = choose|j: int|
                    0 <= j < before.len() && qeq(#[trigger] before[j], orig[i]);
                assert(after.contains(before[j0]));
                let j1 = choose|j: int| 0 <= j < after.len() && after[j] == before[j0];
                assert(qeq(after[j1], orig[i]));
            }
        }
    }
}

impl Query<()> {
    /// The trigram query for a three-byte pattern.
    pub fn str(s: &str) -> (r: Query<()>)
        requires
            s.spec_bytes().len() == 3,
        ensures
            r is Trigram && r->Trigram_0@ == s.spec_bytes(),
    {
        let b = s.as_bytes();
        let t = [b[0], b[1], b[2]];
        proof {
            assert(t@ =~= s.spec_bytes());
        }
        Query::Trigram(t, ())
    }

    /// An `Or` built directly from three-byte patterns, in the order
    /// given; no canonicalisation.
    pub fn or_str(children: Vec<&str>) -> (r: Query<()>)
        requires
            forall|i: int|
                0 <= i < children@.len() ==> (#[trigger] children@[i]).spec_bytes().len() == 3,
        ensures
            r is Or,
            r->Or_0@.len() == children@.len(),
            forall|i: int|
                0 <= i < children@.len() ==> (#[trigger] r->Or_0@[i]) is Trigram
                    && r->Or_0@[i]->Trigram_0@ == children@[i].spec_bytes(),
    {
        Query::Or(strs_to_trigrams(children))
    }

    /// An `And` built directly from three-byte patterns, in the order
    /// given; no canonicalisation.
    pub fn and_str(children: Vec<&str>) -> (r: Query<()>)
        requires
            forall|i: int|
                0 <= i < children@.len() ==> (#[trigger] children@[i]).spec_bytes().len() == 3,
        ensures
            r is And,
            r->And_0@.len() == children@.len(),
            forall|i: int|
                0 <= i < children@.len() ==> (#[trigger] r->And_0@[i]) is Trigram
                    && r->And_0@[i]->Trigram_0@ == children@[i].spec_bytes(),
    {
        Query::And(strs_to_trigrams(children))
    }
}

/// Maps three-byte patterns to trigram queries.
fn strs_to_trigrams(children: Vec<&str>) -> (r: Vec<Query<()>>)
    requires
        forall|i: int|
            0 <= i < children@.len() ==> (#[trigger] children@[i]).spec_bytes().len() == 3,
    ensures
        r@.len() == children@.len(),
        forall|i: int|
            0 <= i < children@.len() ==> (#[trigger] r@[i]) is Trigram && r@[i]->Trigram_0@
                == children@[i].spec_bytes(),
{
    let mut out: Vec<Query<()>> = Vec::new();
    let mut i: usize = 0;
    while i < children.len()
        invariant
            i <= children@.len(),
            out@.len() == i,
            forall|j: int|
                0 <= j < children@.len() ==> (#[trigger] children@[j]).spec_bytes().len() == 3,
            forall|j: int|
                0 <= j < i ==> (#[trigger] out@[j]) is Trigram && out@[j]->Trigram_0@
                    == children@[j].spec_bytes(),
        decreases children@.len() - i,
    {
        out.push(Query::str(children[i]));
        i = i + 1;
    }
    out
}

} // verus!
