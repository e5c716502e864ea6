use grop::build_protocol::{backoff, plan_step, BuildStep, MAX_SLEEPS};
use grop::chunk_list::ChunkListRef;
use grop::database::{DatabaseBuilder, DatabaseRef};
use grop::database_queries::{eval, rewrite, Meta};
use grop::query::Query;
use grop::trigrams_from_regex::{trigrams, Ast};

fn tri(s: &str) -> Query<()> {
    Query::str(s)
}

#[test]
fn or_absorbs_match_all() {
    let q = Query::or(vec![tri("abc"), Query::MatchAll]);
    assert_eq!(q, Query::MatchAll);
}

#[test]
fn and_absorbs_match_none() {
    let q = Query::and(vec![tri("abc"), Query::MatchNone]);
    assert_eq!(q, Query::MatchNone);
}

#[test]
fn or_drops_match_none() {
    let q = Query::or(vec![tri("abc"), Query::MatchNone]);
    assert_eq!(q, tri("abc"));
}

#[test]
fn and_drops_match_all() {
    let q = Query::and(vec![tri("abc"), Query::MatchAll]);
    assert_eq!(q, tri("abc"));
}

#[test]
fn children_sorted_and_deduplicated() {
    let q = Query::and(vec![tri("def"), tri("abc"), tri("def")]);
    assert_eq!(q, Query::and_str(vec!["abc", "def"]));
    let q = Query::or(vec![tri("zzz"), tri("aaa"), tri("zzz"), tri("mmm")]);
    assert_eq!(q, Query::or_str(vec!["aaa", "mmm", "zzz"]));
}

#[test]
fn empty_children_collapse_to_identity() {
    assert_eq!(Query::<()>::or(vec![]), Query::MatchNone);
    assert_eq!(Query::<()>::and(vec![]), Query::MatchAll);
    assert_eq!(Query::or(vec![Query::<()>::MatchNone]), Query::MatchNone);
    assert_eq!(Query::and(vec![Query::<()>::MatchAll]), Query::MatchAll);
}

fn lit(s: &str) -> Ast {
    Ast::Literal(s.as_bytes().to_vec())
}

#[test]
fn trigrams_examples() {
    assert_eq!(trigrams(&Ast::Empty), Query::MatchAll);
    assert_eq!(trigrams(&lit("a")), Query::MatchAll);
    assert_eq!(trigrams(&lit("asd")), tri("asd"));
    assert_eq!(trigrams(&lit("asdf")), Query::and_str(vec!["asd", "sdf"]));
    assert_eq!(trigrams(&Ast::Class), Query::MatchAll);
    assert_eq!(
        trigrams(&Ast::Alternation(vec![lit("asd"), lit("def")])),
        Query::or_str(vec!["asd", "def"])
    );
    // an empty branch absorbs the alternation
    assert_eq!(
        trigrams(&Ast::Alternation(vec![lit("asd"), Ast::Empty])),
        Query::MatchAll
    );
    assert_eq!(
        trigrams(&Ast::Concat(vec![
            Ast::Capture(Box::new(lit("asd"))),
            Ast::Capture(Box::new(lit("asd"))),
        ])),
        tri("asd")
    );
    // a repetition that may be empty narrows nothing
    assert_eq!(
        trigrams(&Ast::Repetition(0, None, Box::new(lit("asd")))),
        Query::MatchAll
    );
    assert_eq!(
        trigrams(&Ast::Repetition(1, Some(10), Box::new(lit("asd")))),
        tri("asd")
    );
    assert_eq!(
        trigrams(&Ast::Repetition(1, Some(0), Box::new(lit("asd")))),
        Query::MatchNone
    );
}

fn small_db_bytes() -> Vec<u8> {
    // two chunks of two lines each, then one of a single line
    let lines: Vec<Vec<u8>> = vec![
        b"tomato soup\n".to_vec(),
        b"cold potato\n".to_vec(),
        b"a defter hand\n".to_vec(),
        b"tomorrow\n".to_vec(),
        b"nothing here\n".to_vec(),
    ];
    let builder = DatabaseBuilder::from_lines(&lines, 2, u32::MAX);
    let mut bytes = vec![];
    builder.write(&mut bytes);
    bytes
}

fn drain(q: &mut grop::query_eval::QueryEval<'_>) -> Vec<u64> {
    let mut out = vec![];
    while q.advance().unwrap() {
        out.push(q.current());
    }
    out
}

fn candidates(pattern_query: Query<()>, bytes: &[u8]) -> Option<Vec<u64>> {
    let db = DatabaseRef::from(bytes).unwrap();
    let resolved: Query<Meta<'_>> = rewrite(&db, pattern_query);
    match &resolved {
        Query::MatchAll => return None,
        _ => {}
    }
    let mut cursor = eval(db.chunk_count() as u64 - 1, resolved);
    Some(drain(&mut cursor))
}

#[test]
fn rewrite_present_literal() {
    let bytes = small_db_bytes();
    assert_eq!(candidates(tri("tom"), &bytes), Some(vec![0, 1]));
}

#[test]
fn rewrite_alternation() {
    let bytes = small_db_bytes();
    let q = Query::or_str(vec!["def", "tom"]);
    assert_eq!(candidates(q, &bytes), Some(vec![0, 1]));
    let q = Query::or_str(vec!["pot", "her"]);
    assert_eq!(candidates(q, &bytes), Some(vec![0, 2]));
}

#[test]
fn rewrite_absent_trigram() {
    let bytes = small_db_bytes();
    assert_eq!(candidates(tri("asd"), &bytes), Some(vec![]));
    let db = DatabaseRef::from(&bytes).unwrap();
    let resolved = rewrite(&db, tri("asd"));
    assert!(matches!(resolved, Query::MatchNone));
}

#[test]
fn rewrite_conjunction() {
    let bytes = small_db_bytes();
    let q = Query::and_str(vec!["tom", "oma"]);
    assert_eq!(candidates(q, &bytes), Some(vec![0]));
    let q = Query::and_str(vec!["tom", "asd"]);
    let db = DatabaseRef::from(&bytes).unwrap();
    let resolved = rewrite(&db, q);
    assert!(matches!(resolved, Query::MatchNone));
}

#[test]
fn rewrite_match_all_passes_through() {
    let bytes = small_db_bytes();
    assert_eq!(candidates(Query::MatchAll, &bytes), None);
}

#[test]
fn protocol_steps() {
    assert!(matches!(plan_step(false, true), BuildStep::Wait));
    assert!(matches!(plan_step(true, true), BuildStep::Wait));
    assert!(matches!(plan_step(true, false), BuildStep::OpenExisting));
    assert!(matches!(plan_step(false, false), BuildStep::TryLock));
}

#[test]
fn protocol_backoff_budget() {
    let mut sleeps: u32 = 0;
    for _ in 0..=MAX_SLEEPS {
        assert!(backoff(&mut sleeps).is_ok());
    }
    assert_eq!(sleeps, MAX_SLEEPS + 1);
    assert!(backoff(&mut sleeps).is_err());
    assert_eq!(sleeps, MAX_SLEEPS + 1);
}
