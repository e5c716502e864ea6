//! Lowers a parsed regex into a trigram query: a literal contributes the
//! conjunction of its three-byte windows, concatenation takes the AND of
//! its parts, alternation the OR; whatever cannot be narrowed is a sound
//! over-approximation.

use vstd::prelude::*;
use crate::query::Query;

verus! {

broadcast use vstd::std_specs::vec::group_vec_axioms;

/// The regex shapes the lowering reads. Anything it does not understand
/// arrives as `Class` or `Look` and lowers to `MatchAll`.
pub enum Ast {
    /// The empty regex.
    Empty,
    /// A byte-literal run.
    Literal(Vec<u8>),
    /// A character class; never narrowed to trigrams.
    Class,
    /// A look-around assertion; unsupported, matches everything.
    Look,
    /// `min`, `max` and the repeated part.
    Repetition(u32, Option<u32>, Box<Ast>),
    /// A capture group.
    Capture(Box<Ast>),
    /// A concatenation of parts.
    Concat(Vec<Ast>),
    /// An alternation of branches.
    Alternation(Vec<Ast>),
}

/// The three-byte windows of a literal, as trigram queries: one for every
/// position, in order.
pub open spec fn is_windows(lit: Seq<u8>, cs: Seq<Query<()>>) -> bool {
    &&& cs.len() == lit.len() - 2
    &&& forall|k: int|
        0 <= k < cs.len() ==> (#[trigger] cs[k]) is Trigram && cs[k]->Trigram_0@ == lit.subrange(
            k,
            k + 3,
        )
}

/// How the lowering relates a regex shape to its query: literals lower to
/// the canonical conjunction of their windows, concatenations to the
/// conjunction and alternations to the disjunction of their pointwise
/// lowered parts, and everything else to its absorbing constant.
pub open spec fn lower_rel(ast: Ast, r: Query<()>) -> bool
    decreases ast,
{
    match ast {
        Ast::Empty => r is MatchAll,
        Ast::Class => r is MatchAll,
        Ast::Look => r is MatchAll,
        Ast::Literal(lit) => if lit@.len() < 3 {
            r is MatchAll
        } else {
            exists|cs: Seq<Query<()>>|
                #[trigger] is_windows(lit@, cs) && crate::query::and_post(cs, r)
        },
        Ast::Repetition(min, max, sub) => if max == Some(0u32) {
            r is MatchNone
        } else if min == 0 {
            r is MatchAll
        } else {
            lower_rel(*sub, r)
        },
        Ast::Capture(sub) => lower_rel(*sub, r),
        Ast::Concat(subs) => exists|qs: Seq<Query<()>>|
            {
                &&& #[trigger] qs.len() == subs@.len()
                &&& (forall|i: int|
                    0 <= i < subs@.len() ==> lower_rel(#[trigger] subs@[i], qs[i]))
                &&& crate::query::and_post(qs, r)
            },
        Ast::Alternation(subs) => exists|qs: Seq<Query<()>>|
            {
                &&& #[trigger] qs.len() == subs@.len()
                &&& (forall|i: int|
                    0 <= i < subs@.len() ==> lower_rel(#[trigger] subs@[i], qs[i]))
                &&& crate::query::or_post(qs, r)
            },
    }
}

/// The query whose candidate chunks cover every possible match of the
/// regex.
#[verifier::loop_isolation(false)]
pub fn trigrams(regex: &Ast) -> (r: Query<()>)
    ensures
        regex is Empty ==> r is MatchAll,
        regex is Class ==> r is MatchAll,
        regex is Look ==> r is MatchAll,
        (regex is Literal && regex->Literal_0@.len() < 3) ==> r is MatchAll,
        (regex is Literal && regex->Literal_0@.len() >= 3) ==> (r is Trigram || r is And),
        (regex is Repetition && regex->Repetition_1 == Some(0u32)) ==> r is MatchNone,
        (regex is Repetition && regex->Repetition_1 != Some(0u32) && regex->Repetition_0 == 0)
            ==> r is MatchAll,
        lower_rel(*regex, r),
    decreases *regex,
{
    match regex {
        Ast::Empty => Query::MatchAll,
        Ast::Literal(lit) => from_literal(lit),
        Ast::Class => Query::MatchAll,
        Ast::Look => Query::MatchAll,
        Ast::Repetition(min, max, sub) => {
            let zero_max = match max {
                Some(m) => *m == 0,
                None => false,
            };
            if zero_max {
                Query::MatchNone
            } else if *min == 0 {
                Query::MatchAll
            } else {
                trigrams(&**sub)
            }
        },
        Ast::Capture(sub) => trigrams(&**sub),
        Ast::Concat(subs) => {
            let mut children: Vec<Query<()>> = Vec::new();
            let mut i: usize = 0;
            while i < subs.len()
                invariant
                    i <= subs@.len(),
                    children@.len() == i,
                    forall|j: int|
                        0 <= j < i ==> lower_rel(#[trigger] subs@[j], children@[j]),
                decreases subs@.len() - i,
            {
                children.push(trigrams(&subs[i]));
                i = i + 1;
            }
            let r = Query::and(children);
            proof {
                crate::query::lemma_and_post_intro(children@, r);
                assert(children@.len() == subs@.len() && (forall|j: int|
                    0 <= j < subs@.len() ==> lower_rel(#[trigger] subs@[j], children@[j]))
                    && crate::query::and_post(children@, r));
            }
            r
        },
        Ast::Alternation(subs) => {
            let mut children: Vec<Query<()>> = Vec::new();
            let mut i: usize = 0;
            while i < subs.len()
                invariant
                    i <= subs@.len(),
                    children@.len() == i,
                    forall|j: int|
                        0 <= j < i ==> lower_rel(#[trigger] subs@[j], children@[j]),
                decreases subs@.len() - i,
            {
                children.push(trigrams(&subs[i]));
                i = i + 1;
            }
            let r = Query::or(children);
            proof {
                crate::query::lemma_or_post_intro(children@, r);
                assert(children@.len() == subs@.len() && (forall|j: int|
                    0 <= j < subs@.len() ==> lower_rel(#[trigger] subs@[j], children@[j]))
                    && crate::query::or_post(children@, r));
            }
            r
        },
    }
}

/// The conjunction of a literal's three-byte windows; too short a literal
/// narrows nothing.
#[verifier::loop_isolation(false)]
fn from_literal(lit: &Vec<u8>) -> (r: Query<()>)
    ensures
        lit@.len() < 3 ==> r is MatchAll,
        lit@.len() >= 3 ==> (r is Trigram || r is And),
        lit@.len() >= 3 ==> exists|cs: Seq<Query<()>>|
            #[trigger] is_windows(lit@, cs) && crate::query::and_post(cs, r),
{
    if lit.len() < 3 {
        return Query::MatchAll;
    }
    let mut children: Vec<Query<()>> = Vec::new();
    let end = lit.len() - 2;
    let mut f: usize = 0;
    while f < end
        invariant
            end == lit@.len() - 2,
            3 <= lit@.len(),
            f <= end,
            children@.len() == f,
            forall|j: int| 0 <= j < f ==> (#[trigger] children@[j]) is Trigram,
            forall|j: int|
                0 <= j < f ==> (#[trigger] children@[j])->Trigram_0@ == lit@.subrange(j, j + 3),
        decreases end - f,
    {
        let t = [lit[f], lit[f + 1], lit[f + 2]];
        proof {
            assert(t@ =~= lit@.subrange(f as int, f as int + 3));
        }
        children.push(Query::Trigram(t, ()));
        f = f + 1;
    }
    let r = Query::and(children);
    proof {
        assert(is_windows(lit@, children@));
        crate::query::lemma_and_post_intro(children@, r);
    }
    proof {
        assert(crate::query::keeps(children@[0]));
        assert(!(exists|i: int|
            0 <= i < children@.len() && (#[trigger] children@[i]) is MatchNone));
        assert(!(r is MatchNone));
        assert(!(r is MatchAll));
        if crate::query::one_kept_class(children@) {
            assert(children@.contains(r));
            let i = choose|i: int| 0 <= i < children@.len() && children@[i] == r;
            assert(r is Trigram);
        } else {
            assert(r is And);
        }
    }
    r
}

} // verus!
