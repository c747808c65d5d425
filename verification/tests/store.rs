use brainwiki::data::{LookupError, LookupOutcome, MatchType, State};
use brainwiki::page::Page;
use brainwiki::PageId;

fn page(tags: &[&str]) -> Page {
    Page {
        html: "".into(),
        tags: tags.iter().map(|t| t.to_string()).collect(),
        title: "".into(),
        md: "".into(),
    }
}

#[test]
fn data_simple() {
    let mut state = State::new();

    assert!(state.find_best_match(vec![], false).is_none());

    let _p1 = state.insert(
        Page {
            html: "".into(),
            tags: vec!["a".into(), "b".into()],
            title: "".into(),
            md: "".into(),
        },
        "/p1.md",
    );

    let _p2 = state.insert(
        Page {
            html: "".into(),
            tags: vec!["a".into(), "c".into()],
            title: "".into(),
            md: "".into(),
        },
        "/p2.md",
    );

    let empty: Vec<String> = vec![];
    let m = state.find_best_match(empty.clone(), false);
    assert!(m.is_many());
    assert_eq!(m.matching_tags, empty);
    assert_eq!(m.unmatched_tags, empty);

    let tags = vec!["x".to_string()];
    let m = state.find_best_match(tags.clone(), false);
    assert!(m.is_many());
    assert_eq!(m.matching_tags, empty);
    assert_eq!(m.unmatched_tags, tags);

    let tags = vec!["a".to_string()];
    let m = state.find_best_match(tags.clone(), false);
    assert!(m.is_many());
    assert_eq!(m.matching_tags, tags);
    assert_eq!(m.unmatched_tags, empty);

    let tags = vec!["a".to_string(), "x".into()];
    let m = state.find_best_match(tags.clone(), false);
    assert!(m.is_many());
    assert_eq!(m.matching_tags, vec!["a".to_string()]);
    assert_eq!(m.unmatched_tags, vec!["x".to_string()]);

    let tags = vec!["a".to_string(), "b".into()];
    let m = state.find_best_match(tags.clone(), false);
    assert!(m.is_one());
    assert_eq!(m.matching_tags, vec!["a".to_string(), "b".into()]);
    assert_eq!(m.unmatched_tags, empty);

    let tags = vec!["a".to_string(), "b".into()];
    let m = state.find_best_match(tags.clone(), false);
    assert!(m.is_one());
    assert_eq!(m.matching_tags, vec!["a".to_string(), "b".into()]);
    assert_eq!(m.unmatched_tags, empty);

    let tags = vec!["a".to_string(), "x".into(), "b".into()];
    let m = state.find_best_match(tags.clone(), false);
    assert!(m.is_one());
    assert_eq!(m.matching_tags, vec!["a".to_string(), "b".into()]);
    assert_eq!(m.unmatched_tags, vec!["x".to_string()]);
}

#[test]
fn scenarios_name_the_single_match() {
    let mut state = State::new();
    let a = state.insert(page(&["a", "b"]), "/d/a.md");
    let _b = state.insert(page(&["a", "c"]), "/d/b.md");

    let m = state.find_best_match(vec!["a".into(), "b".into()], false);
    assert_eq!(m.type_, MatchType::One(a));

    let m = state.find_best_match(vec!["a".into(), "x".into(), "b".into()], false);
    assert_eq!(m.type_, MatchType::One(a));
    assert_eq!(m.matching_tags, vec!["a".to_string(), "b".into()]);
    assert_eq!(m.unmatched_tags, vec!["x".to_string()]);
}

#[test]
fn narrowing_facets_count_remaining_tags() {
    let mut state = State::new();
    let _a = state.insert(page(&["a", "b"]), "/d/a.md");
    let _b = state.insert(page(&["a", "c"]), "/d/b.md");

    let m = state.find_best_match(vec!["a".into()], false);
    assert!(m.is_many());
    // both pages carry "a", which the query used; "b" and "c" each
    // narrow to one page
    assert_eq!(m.narrowing_tags, vec![("b".to_string(), 1), ("c".to_string(), 1)]);

    let m = state.find_best_match(vec![], false);
    assert_eq!(
        m.narrowing_tags,
        vec![("a".to_string(), 2), ("b".to_string(), 1), ("c".to_string(), 1)]
    );
}

#[test]
fn prefer_exact_resolves_ambiguity() {
    let mut state = State::new();
    let a = state.insert(page(&["a"]), "/d/a.md");
    let _b = state.insert(page(&["a", "c"]), "/d/b.md");

    // both pages match "a"; the first whose whole tag set lies in the
    // query wins when exact matches are preferred
    let m = state.find_best_match(vec!["a".into()], true);
    assert_eq!(m.type_, MatchType::One(a));

    let m = state.find_best_match(vec!["a".into()], false);
    assert!(m.is_many());
}

#[test]
fn lookup_outcomes() {
    let mut state = State::new();
    let a = state.insert(page(&["a"]), "/d/a.md");
    let _b = state.insert(page(&["a", "c"]), "/d/b.md");

    assert_eq!(state.lookup(vec!["a".into()]), Ok(a));
    // an unknown tag is rejected, so the query falls back to the
    // whole store and is ambiguous
    assert_eq!(state.lookup(vec!["q".into()]), Err(LookupError::Ambiguous));
    assert_eq!(State::new().lookup(vec!["q".into()]), Err(LookupError::NotFound));

    let mut ambiguous = State::new();
    let _x = ambiguous.insert(page(&["a", "b"]), "/d/x.md");
    let _y = ambiguous.insert(page(&["a", "c"]), "/d/y.md");
    assert_eq!(ambiguous.lookup(vec!["a".into()]), Err(LookupError::Ambiguous));
}

#[test]
fn lookup_exact_is_strict() {
    let mut state = State::new();
    let a = state.insert(page(&["a", "b"]), "/d/a.md");
    let _b = state.insert(page(&["a", "c"]), "/d/b.md");

    // unknown tag aborts instead of being tolerated
    assert_eq!(state.lookup_exact(vec!["a".into(), "x".into()]), LookupOutcome::NoMatch);
    // empty intersection aborts
    assert_eq!(state.lookup_exact(vec!["b".into(), "c".into()]), LookupOutcome::NoMatch);
    assert_eq!(state.lookup_exact(vec!["a".into(), "b".into()]), LookupOutcome::One(a));
    assert_eq!(state.lookup_exact(vec!["a".into()]), LookupOutcome::Many);
    // the empty query matches the whole store
    assert_eq!(state.lookup_exact(vec![]), LookupOutcome::Many);
    assert_eq!(State::new().lookup_exact(vec![]), LookupOutcome::NoMatch);
}

#[test]
fn remove_leaves_no_trace() {
    let mut state = State::new();
    let a = state.insert(page(&["a", "b"]), "/d/a.md");
    let b = state.insert(page(&["a", "c"]), "/d/b.md");

    state.remove(a);

    // no tag previously on the removed page maps to it any more
    let m = state.find_best_match(vec!["a".into()], false);
    assert_eq!(m.type_, MatchType::One(b));
    let m = state.find_best_match(vec!["b".into()], false);
    // the "b" bucket is now empty, so the tag is rejected
    assert_eq!(m.unmatched_tags, vec!["b".to_string()]);
    assert_eq!(m.type_, MatchType::One(b));
    // the path is free again
    assert!(state.id_at("/d/a.md").is_none());
    assert_eq!(state.id_at("/d/b.md"), Some(b));
}

#[test]
fn replace_at_path_swaps_identity() {
    let mut state = State::new();
    let a = state.insert(page(&["a", "b"]), "/d/a.md");
    let _b = state.insert(page(&["a", "c"]), "/d/b.md");

    assert!(state.apply_create(page(&["d"]), "/d/a.md"));

    // same number of documents: replaced, not duplicated
    let m = state.find_best_match(vec![], false);
    match m.type_ {
        MatchType::Many(ids) => assert_eq!(ids.len(), 2),
        other => panic!("{:?}", other),
    }
    // the old identity is gone and a fresh one lives at the path
    let now = state.id_at("/d/a.md").unwrap();
    assert_ne!(now, a);
    let m = state.find_best_match(vec!["d".into()], false);
    assert_eq!(m.type_, MatchType::One(now));
}

#[test]
fn rename_moves_the_record() {
    let mut state = State::new();
    let _a = state.insert(page(&["a"]), "/d/a.md");

    assert!(state.apply_rename("/d/a.md", "/d/c.md", page(&["a"])));
    assert!(state.id_at("/d/a.md").is_none());
    assert!(state.id_at("/d/c.md").is_some());

    state.apply_remove("/d/c.md");
    assert!(state.id_at("/d/c.md").is_none());
    // removing an unindexed path is a no-op
    state.apply_remove("/d/c.md");
}

#[test]
fn over_wide_results_are_capped_and_stable() {
    let mut state = State::new();
    let mut first = Vec::new();
    for i in 0..1005u32 {
        let id = state.insert(page(&["a"]), &format!("/d/p{}.md", i));
        if first.len() < 1000 {
            first.push(id);
        }
    }
    let m1 = state.find_best_match(vec!["a".into()], false);
    let m2 = state.find_best_match(vec!["a".into()], false);
    match (&m1.type_, &m2.type_) {
        (MatchType::Many(v1), MatchType::Many(v2)) => {
            assert_eq!(v1.len(), 1000);
            assert_eq!(v1, v2);
            // ascending identity order: the first thousand inserted
            assert_eq!(v1, &first);
        }
        other => panic!("{:?}", other),
    }
    assert_eq!(m1, m2);
}

#[test]
fn identities_are_not_reused() {
    let mut state = State::new();
    let a = state.insert(page(&["a"]), "/d/a.md");
    state.remove(a);
    let b = state.insert(page(&["a"]), "/d/a.md");
    assert_ne!(a, b);
    assert_eq!(a, PageId::new(0));
    assert_eq!(b, PageId::new(1));
}

#[test]
fn precise_url_repeats_used_tags() {
    let mut state = State::new();
    let _a = state.insert(page(&["a", "b"]), "/d/a.md");
    let _b = state.insert(page(&["a", "c"]), "/d/b.md");

    let m = state.find_best_match(vec!["a".into(), "x".into()], false);
    assert!(m.has_unmatched_tags());
    assert_eq!(m.to_precise_url(false), "/a/");
    assert_eq!(m.to_precise_url(true), "/a");
}

#[test]
fn read_accessors_expose_page_and_path() {
    let mut state = State::new();
    let a = state.insert(page(&["a", "b"]), "/d/a.md");
    assert_eq!(state.page(a).unwrap().tags, vec!["a".to_string(), "b".into()]);
    assert_eq!(state.path_of(a).unwrap(), "/d/a.md");
    assert!(state.page(PageId::new(7)).is_none());
    assert!(state.path_of(PageId::new(7)).is_none());
}
