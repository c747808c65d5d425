use brainwiki::data::State;
use brainwiki::page::Page;
use brainwiki::web::{GetOutcome, PutError};

fn page(tags: &[&str]) -> Page {
    Page {
        html: "".into(),
        tags: tags.iter().map(|t| t.to_string()).collect(),
        title: "".into(),
        md: "".into(),
    }
}

#[test]
fn get_decisions() {
    let mut state = State::new();
    let a = state.insert(page(&["a", "b"]), "/d/a.md");
    let b = state.insert(page(&["a", "c"]), "/d/b.md");

    // fully addressed unique match: show it
    match state.route_get("/a/b") {
        GetOutcome::ShowPage(id) => assert_eq!(id, a),
        other => panic!("{:?}", discriminant_name(&other)),
    }

    // a rejected tag redirects to the precise query
    match state.route_get("/a/x") {
        GetOutcome::RedirectToPrecise(url) => assert_eq!(url, "/a"),
        other => panic!("{:?}", discriminant_name(&other)),
    }

    // trailing slash: no exact preference, several matches
    match state.route_get("/a/") {
        GetOutcome::ShowIndex(ids) => assert_eq!(ids, vec![a, b]),
        other => panic!("{:?}", discriminant_name(&other)),
    }

    // unique but under-specified: redirect to the canonical URL
    match state.route_get("/b") {
        GetOutcome::RedirectToFull(id, url) => {
            assert_eq!(id, a);
            assert_eq!(url, "/a/b");
        }
        other => panic!("{:?}", discriminant_name(&other)),
    }

    // empty store, empty query: nothing
    match State::new().route_get("/") {
        GetOutcome::NotFound => {}
        other => panic!("{:?}", discriminant_name(&other)),
    }
}

#[test]
fn create_and_replace_checks() {
    let mut state = State::new();
    let a = state.insert(page(&["a", "b"]), "/d/a.md");
    let _b = state.insert(page(&["a", "c"]), "/d/b.md");

    // an exact duplicate may not be created, a new tag set may
    assert!(!state.check_new_page(vec!["a".into(), "b".into()]));
    assert!(state.check_new_page(vec!["a".into(), "d".into()]));

    // replacing the page at /a/b with another page's exact tag set
    assert_eq!(
        state.check_replace(
            vec!["a".into(), "b".into()],
            vec!["a".into(), "c".into()]
        ),
        Err(PutError::Conflict)
    );
    // keeping its own tag set, or taking a fresh one, is fine
    assert_eq!(
        state.check_replace(
            vec!["a".into(), "b".into()],
            vec!["a".into(), "b".into()]
        ),
        Ok(a)
    );
    assert_eq!(
        state.check_replace(vec!["a".into(), "b".into()], vec!["d".into()]),
        Ok(a)
    );
    // an ambiguous or unresolvable target is refused
    assert_eq!(
        state.check_replace(vec!["a".into()], vec!["d".into()]),
        Err(PutError::Ambiguous)
    );
    assert_eq!(
        State::new().check_replace(vec![], vec!["d".into()]),
        Err(PutError::NotFound)
    );
}

fn discriminant_name(o: &GetOutcome) -> &'static str {
    match o {
        GetOutcome::RedirectToPrecise(_) => "RedirectToPrecise",
        GetOutcome::RedirectToFull(_, _) => "RedirectToFull",
        GetOutcome::ShowPage(_) => "ShowPage",
        GetOutcome::ShowIndex(_) => "ShowIndex",
        GetOutcome::NotFound => "NotFound",
    }
}
