use brainwiki::page::Page;
use brainwiki::settings::Site;
use brainwiki::sync::SyncState;
use brainwiki::debounce::{ChangeKind, Debouncer};
use brainwiki::text::{has_md_extension, probe_paths, url_to_tags};

fn page(tags: &[&str], title: &str) -> Page {
    Page {
        html: "".into(),
        tags: tags.iter().map(|t| t.to_string()).collect(),
        title: title.into(),
        md: "".into(),
    }
}

#[test]
fn shared_store_applies_notifications() {
    let shared = SyncState::new();

    assert!(shared.handle_create("/d/a.md", page(&["a", "b"], "A")));
    assert!(shared.handle_create("/d/b.md", page(&["a", "c"], "B")));

    let h = shared.read();
    let m = h.borrow().find_best_match(vec!["a".into(), "b".into()], false);
    assert!(m.is_one());
    h.release_read();

    // a second create at the same path replaces the record
    assert!(shared.handle_create("/d/a.md", page(&["d"], "A2")));
    let h = shared.read();
    assert!(h.borrow().find_best_match(vec!["d".into()], false).is_one());
    h.release_read();

    assert!(shared.handle_rename("/d/a.md", "/d/c.md", page(&["d"], "A2")));
    let h = shared.read();
    assert!(h.borrow().id_at("/d/a.md").is_none());
    assert!(h.borrow().id_at("/d/c.md").is_some());
    h.release_read();

    shared.handle_remove("/d/c.md");
    let h = shared.read();
    assert!(h.borrow().id_at("/d/c.md").is_none());
    h.release_read();
}

#[test]
fn write_guard_hands_the_store_out_and_back() {
    let shared = SyncState::new();
    let (mut s, h) = shared.write();
    s.insert(page(&["a"], "A"), "/d/a.md");
    h.release_write(s);

    let h = shared.read();
    assert!(h.borrow().find_best_match(vec!["a".into()], false).is_one());
    h.release_read();
}

#[test]
fn urls_to_tags() {
    assert_eq!(url_to_tags("/a/b"), (vec!["a".to_string(), "b".into()], true));
    assert_eq!(url_to_tags("/a/b/"), (vec!["a".to_string(), "b".into()], false));
    assert_eq!(url_to_tags("/"), (vec![], false));
    assert_eq!(url_to_tags(""), (vec![], true));
}

#[test]
fn suggested_filenames_collapse_runs() {
    let p = page(&[], "My idea, about BrainWiki!");
    assert_eq!(p.suggested_filename(), "my_idea_about_brainwiki_");
    let p = page(&[], "  Spaced  ");
    assert_eq!(p.suggested_filename(), "spaced_");
    let p = page(&[], "");
    assert_eq!(p.suggested_filename(), "");
}

#[test]
fn page_urls_join_tags() {
    let p = page(&["idea", "brainwiki"], "t");
    assert_eq!(p.url(), "/idea/brainwiki");
    assert_eq!(p.to_full_url(true), "/idea/brainwiki");
    assert_eq!(p.to_full_url(false), "/idea/brainwiki/");
}

#[test]
fn storage_names() {
    assert!(has_md_extension("/d/a.md"));
    assert!(!has_md_extension("/d/a.tmp"));
    assert!(!has_md_extension("md"));
    assert_eq!(
        probe_paths("/data", "note", 0),
        ("/data/note.md".to_string(), "/data/note.tmp".to_string())
    );
    assert_eq!(
        probe_paths("/data", "note", 2),
        ("/data/note__.md".to_string(), "/data/note__.tmp".to_string())
    );
}

#[test]
fn site_defaults_and_config_path() {
    let site = Site::new(vec![1u8; 32]);
    assert_eq!(site.short_name, "BrainWiki");
    assert!(site.hashed_password.is_none());
    assert_eq!(Site::dir_to_file("/data"), "/data/config.toml");

    let mut site = site;
    site.set_hashed_password("h".into());
    assert_eq!(site.hashed_password.as_deref(), Some("h"));
}

#[test]
fn debouncer_coalesces_bursts() {
    let mut d = Debouncer::new(10);
    d.observe("/d/a.md", ChangeKind::Sync, 0);
    // a second event within the window pushes the deadline out
    d.observe("/d/a.md", ChangeKind::Sync, 5);
    d.observe("/d/b.md", ChangeKind::Removed, 6);

    assert_eq!(d.due(12), vec![]);
    assert_eq!(d.due(15), vec![("/d/a.md".to_string(), ChangeKind::Sync)]);
    assert_eq!(d.due(16), vec![("/d/b.md".to_string(), ChangeKind::Removed)]);

    // within one window the last event for a path wins
    d.observe("/d/c.md", ChangeKind::Sync, 20);
    d.observe("/d/c.md", ChangeKind::Removed, 21);
    assert_eq!(d.due(40), vec![("/d/c.md".to_string(), ChangeKind::Removed)]);
}
