//! Binds the query tree to a database: the rewrite resolves every trigram
//! leaf to its chunk list, and the evaluation turns the resolved tree into
//! a streaming cursor.

use vstd::prelude::*;
use crate::chunk_list::ChunkListRef;
use crate::database::DatabaseRef;
use crate::int_always_ascending::ascending_valid;
use crate::query::Query;
use crate::query_eval::{qe_cur, qe_wf, QueryEval};

verus! {

broadcast use vstd::std_specs::vec::group_vec_axioms;

/// The payload a resolved trigram leaf carries: its chunk list.
pub struct Meta<'d>(pub ChunkListRef<'d>);

impl<'d> crate::query::Meta for Meta<'d> {

}

/// Every trigram leaf of a resolved query carries a chunk list that
/// decodes to completion.
pub open spec fn resolved_valid<'d>(q: Query<Meta<'d>>) -> bool
    decreases q,
{
    match q {
        Query::Trigram(_, m) => ascending_valid(m.0.bytes_of(), None),
        Query::Or(cs) => forall|i: int|
            0 <= i < cs@.len() ==> resolved_valid(#[trigger] cs@[i]),
        Query::And(cs) => forall|i: int|
            0 <= i < cs@.len() ==> resolved_valid(#[trigger] cs@[i]),
        _ => true,
    }
}

/// How a rewritten tree relates to its source: leaves resolve exactly as
/// the database says, and every `Or`/`And` is the canonical constructor's
/// result over pointwise-rewritten children.
pub open spec fn rewrite_rel<'d>(db: DatabaseRef<'d>, q: Query<()>, r: Query<Meta<'d>>) -> bool
    decreases q,
{
    match q {
        Query::MatchAll => r is MatchAll,
        Query::MatchNone => r is MatchNone,
        Query::Trigram(t, _) => {
            let e = db.trigram_entry(t[0], t[1], t[2]);
            if e is Some {
                r is Trigram && r->Trigram_0 == t && r->Trigram_1.0.bytes_of()
                    == db.inventory_of().list_at(e.unwrap())
            } else {
                r is MatchNone
            }
        },
        Query::Or(subs) => exists|out: Seq<Query<Meta<'d>>>|
            {
                &&& #[trigger] out.len() == subs@.len()
                &&& (forall|i: int|
                    0 <= i < subs@.len() ==> rewrite_rel(db, #[trigger] subs@[i], out[i]))
                &&& crate::query::or_post(out, r)
            },
        Query::And(subs) => exists|out: Seq<Query<Meta<'d>>>|
            {
                &&& #[trigger] out.len() == subs@.len()
                &&& (forall|i: int|
                    0 <= i < subs@.len() ==> rewrite_rel(db, #[trigger] subs@[i], out[i]))
                &&& crate::query::and_post(out, r)
            },
    }
}

/// Resolves every trigram leaf of `q` against the database: a trigram the
/// database knows keeps its chunk list, an absent one becomes `MatchNone`,
/// and the tree re-canonicalises bottom up.
#[verifier::loop_isolation(false)]
#[verifier::rlimit(100)]
#[verifier::spinoff_prover]
pub fn rewrite<'d>(db: &DatabaseRef<'d>, q: Query<()>) -> (r: Query<Meta<'d>>)
    requires
        db.wf(),
    ensures
        resolved_valid(r),
        rewrite_rel(*db, q, r),
        q is MatchAll ==> r is MatchAll,
        q is MatchNone ==> r is MatchNone,
        q is Trigram ==> ({
            let e = db.trigram_entry(
                q->Trigram_0[0],
                q->Trigram_0[1],
                q->Trigram_0[2],
            );
            &&& e is Some ==> r is Trigram && r->Trigram_0 == q->Trigram_0
                && r->Trigram_1.0.bytes_of() == db.inventory_of().list_at(e.unwrap())
            &&& e is None ==> r is MatchNone
        }),
    decreases q, 1int,
{
    match q {
        Query::MatchAll => Query::MatchAll,
        Query::MatchNone => Query::MatchNone,
        Query::Trigram(t, _) => rewrite_leaf(db, t),
        Query::Or(subs) => {
            let ghost osubs = subs@;
            let out = rewrite_children(db, subs);
            let r = Query::or(out);
            proof {
                lemma_constructed_valid(r, out@);
                crate::query::lemma_or_post_intro(out@, r);
                assert(out@.len() == osubs.len() && (forall|i: int|
                    0 <= i < osubs.len() ==> rewrite_rel(*db, #[trigger] osubs[i], out@[i]))
                    && crate::query::or_post(out@, r));
            }
            r
        },
        Query::And(subs) => {
            let ghost osubs = subs@;
            let out = rewrite_children(db, subs);
            let r = Query::and(out);
            proof {
                lemma_constructed_valid(r, out@);
                crate::query::lemma_and_post_intro(out@, r);
                assert(out@.len() == osubs.len() && (forall|i: int|
                    0 <= i < osubs.len() ==> rewrite_rel(*db, #[trigger] osubs[i], out@[i]))
                    && crate::query::and_post(out@, r));
            }
            r
        },
    }
}

/// Resolves one trigram leaf against the database.
fn rewrite_leaf<'d>(db: &DatabaseRef<'d>, t: [u8; 3]) -> (r: Query<Meta<'d>>)
    requires
        db.wf(),
    ensures
        resolved_valid(r),
        ({
            let e = db.trigram_entry(t[0], t[1], t[2]);
            &&& e is Some ==> r is Trigram && r->Trigram_0 == t && r->Trigram_1.0.bytes_of()
                == db.inventory_of().list_at(e.unwrap())
            &&& e is None ==> r is MatchNone
        }),
{
    match db.chunks_containing(&t) {
        Some(chunks) => {
            proof {
                let e = db.trigram_entry(t[0], t[1], t[2]);
                assert(crate::int_always_ascending::ascending_valid(
                    db.inventory_of().list_at(e.unwrap()),
                    None::<u64>,
                ));
            }
            Query::Trigram(t, Meta(chunks))
        },
        None => Query::MatchNone,
    }
}

/// Resolves each child in turn.
#[verifier::loop_isolation(false)]
fn rewrite_children<'d>(db: &DatabaseRef<'d>, subs: Vec<Query<()>>) -> (out: Vec<
    Query<Meta<'d>>,
>)
    requires
        db.wf(),
    ensures
        out@.len() == subs@.len(),
        forall|i: int| 0 <= i < out@.len() ==> resolved_valid(#[trigger] out@[i]),
        forall|i: int| 0 <= i < subs@.len() ==> rewrite_rel(*db, #[trigger] subs@[i], out@[i]),
    decreases subs, 0int,
{
    let ghost osubs = subs@;
    let mut rest = subs;
    let mut out: Vec<Query<Meta<'d>>> = Vec::new();
    while rest.len() > 0
        invariant
            rest@ == osubs.skip(osubs.len() - rest@.len()),
            rest@.len() <= osubs.len(),
            out@.len() == osubs.len() - rest@.len(),
            forall|i: int| 0 <= i < out@.len() ==> resolved_valid(#[trigger] out@[i]),
            forall|i: int|
                0 <= i < out@.len() ==> rewrite_rel(*db, #[trigger] osubs[i], out@[i]),
        decreases rest@.len(),
    {
        let ghost k = osubs.len() - rest@.len();
        let s = rest.remove(0);
        proof {
            assert(s == osubs[k as int]);
            assert(rest@ =~= osubs.skip(k as int + 1));
        }
        out.push(rewrite(db, s));
    }
    out
}

/// A query assembled by the constructors from resolved children is itself
/// resolved.
proof fn lemma_constructed_valid<'d>(r: Query<Meta<'d>>, children: Seq<Query<Meta<'d>>>)
    requires
        forall|i: int| 0 <= i < children.len() ==> resolved_valid(#[trigger] children[i]),
        ({
            ||| r is MatchAll
            ||| r is MatchNone
            ||| children.contains(r)
            ||| (r is Or && forall|j: int|
                0 <= j < r->Or_0@.len() ==> children.contains(#[trigger] r->Or_0@[j]))
            ||| (r is And && forall|j: int|
                0 <= j < r->And_0@.len() ==> children.contains(#[trigger] r->And_0@[j]))
        }),
    ensures
        resolved_valid(r),
{
    if r is MatchAll || r is MatchNone {
    } else if children.contains(r) {
        let i = choose|i: int| 0 <= i < children.len() && children[i] == r;
    } else {
        match r {
            Query::Or(cs) => {
                assert forall|j: int|
                    0 <= j < cs@.len() implies resolved_valid(#[trigger] cs@[j]) by {
                    assert(children.contains(cs@[j]));
                    let i = choose|i: int| 0 <= i < children.len() && children[i] == cs@[j];
                }
            },
            Query::And(cs) => {
                assert forall|j: int|
                    0 <= j < cs@.len() implies resolved_valid(#[trigger] cs@[j]) by {
                    assert(children.contains(cs@[j]));
                    let i = choose|i: int| 0 <= i < children.len() && children[i] == cs@[j];
                }
            },
            _ => {},
        }
    }
}

/// How a built cursor relates to the resolved query it came from: every
/// node becomes the cursor of its own kind, fresh, carrying the same
/// payload, with children built pointwise.
pub open spec fn eval_rel<'d>(max_chunk: u64, q: Query<Meta<'d>>, r: QueryEval<'d>) -> bool
    decreases q,
{
    match q {
        Query::MatchAll => r is MatchAll && r->MatchAll_0.prev == 0 && r->MatchAll_0.max
            == max_chunk,
        Query::MatchNone => r is MatchNone,
        Query::Trigram(_, m) => {
            &&& r is Leaf
            &&& r->Leaf_0.current is None
            &&& r->Leaf_0.iter.wf()
            &&& r->Leaf_0.iter.prev_of() is None
            &&& r->Leaf_0.iter.remaining() == m.0.bytes_of()
        },
        Query::Or(subs) => {
            &&& r is Or
            &&& !r->Or_0.children.heapified
            &&& r->Or_0.children.children@.len() == subs@.len()
            &&& forall|i: int|
                0 <= i < subs@.len() ==> eval_rel(
                    max_chunk,
                    #[trigger] subs@[i],
                    r->Or_0.children.children@[i],
                )
        },
        Query::And(subs) => {
            &&& r is And
            &&& !r->And_0.children.heapified
            &&& r->And_0.children.children@.len() == subs@.len()
            &&& r->And_0.required_count == subs@.len()
            &&& r->And_0.prev is None
            &&& forall|i: int|
                0 <= i < subs@.len() ==> eval_rel(
                    max_chunk,
                    #[trigger] subs@[i],
                    r->And_0.children.children@[i],
                )
        },
    }
}

/// Turns a resolved query into a cursor over candidate chunk ids up to
/// `max_chunk`, inclusive.
#[verifier::loop_isolation(false)]
#[verifier::rlimit(100)]
#[verifier::spinoff_prover]
pub fn eval<'d>(max_chunk: u64, q: Query<Meta<'d>>) -> (r: QueryEval<'d>)
    requires
        max_chunk < 0xffff_ffff_ffff_ffff,
        resolved_valid(q),
    ensures
        qe_wf(r),
        qe_cur(r) is None,
        eval_rel(max_chunk, q, r),
    decreases q, 1int,
{
    match q {
        Query::MatchAll => QueryEval::new_match_all(max_chunk),
        Query::MatchNone => QueryEval::MatchNone,
        Query::Trigram(_, list) => QueryEval::new_leaf(list.0.into_iter()),
        Query::Or(subs) => {
            let ghost osubs = subs@;
            let out = eval_children(max_chunk, subs);
            let r = QueryEval::new_or(out);
            r
        },
        Query::And(subs) => {
            let ghost osubs = subs@;
            let out = eval_children(max_chunk, subs);
            let r = QueryEval::new_and(out);
            r
        },
    }
}

/// Evaluates each resolved child in turn.
#[verifier::loop_isolation(false)]
fn eval_children<'d>(max_chunk: u64, subs: Vec<Query<Meta<'d>>>) -> (out: Vec<QueryEval<'d>>)
    requires
        max_chunk < 0xffff_ffff_ffff_ffff,
        forall|i: int| 0 <= i < subs@.len() ==> resolved_valid(#[trigger] subs@[i]),
    ensures
        out@.len() == subs@.len(),
        forall|i: int| 0 <= i < out@.len() ==> qe_wf(#[trigger] out@[i]),
        forall|i: int|
            0 <= i < subs@.len() ==> eval_rel(max_chunk, #[trigger] subs@[i], out@[i]),
    decreases subs, 0int,
{
    let ghost osubs = subs@;
    let mut rest = subs;
    let mut out: Vec<QueryEval<'d>> = Vec::new();
    while rest.len() > 0
        invariant
            rest@ == osubs.skip(osubs.len() - rest@.len()),
            rest@.len() <= osubs.len(),
            out@.len() == osubs.len() - rest@.len(),
            forall|i: int| 0 <= i < out@.len() ==> qe_wf(#[trigger] out@[i]),
            forall|i: int|
                0 <= i < out@.len() ==> eval_rel(max_chunk, #[trigger] osubs[i], out@[i]),
        decreases rest@.len(),
    {
        let ghost k = osubs.len() - rest@.len();
        let s = rest.remove(0);
        proof {
            assert(s == osubs[k as int]);
            assert(rest@ =~= osubs.skip(k as int + 1));
        }
        out.push(eval(max_chunk, s));
    }
    out
}

} // verus!
