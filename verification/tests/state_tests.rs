use res_search::state::ResApp;
use res_search::walk::RawEntry;

fn rec(file_name: &str, parent: &str, depth: usize, is_dir: bool) -> RawEntry {
    RawEntry {
        file_name: file_name.to_string(),
        parent: parent.to_string(),
        depth,
        is_dir,
    }
}

/// The traversal of a root holding `docs/readme.txt`, `docs/sub/readme.md`
/// and `bin/tool`, walked three levels deep.
fn sample_records() -> Vec<RawEntry> {
    vec![
        rec("root", "", 0, true),
        rec("bin", "root", 1, true),
        rec("docs", "root", 1, true),
        rec("tool", "root/bin", 2, false),
        rec("readme.txt", "root/docs", 2, false),
        rec("sub", "root/docs", 2, true),
        rec("readme.md", "root/docs/sub", 3, false),
    ]
}

fn session_on_sample() -> ResApp {
    let mut app = ResApp::new("definitely/not/an/existing/root".to_string(), 3);
    assert_eq!(app.keys.len(), 0);
    app.update_from_records("root".to_string(), 3, &sample_records());
    app
}

#[test]
fn scenario_index_and_visible_entries() {
    let mut app = session_on_sample();
    assert_eq!(app.keys, vec!["readme".to_string(), "tool".to_string()]);

    // empty pattern: all entries, flattened in key order
    let all = app.visible_entries();
    assert_eq!(all.len(), 3);
    assert_eq!(all[0].name, "readme");
    assert_eq!(all[0].extension, "txt");
    assert_eq!(all[0].path, "root/docs");
    assert_eq!(all[1].name, "readme");
    assert_eq!(all[1].extension, "md");
    assert_eq!(all[1].path, "root/docs/sub");
    assert_eq!(all[2].name, "tool");
    assert_eq!(all[2].extension, "");
    assert_eq!(all[2].path, "root/bin");

    // an anchored pattern leaves exactly the one key it names
    app.filter_by_name("^tool$");
    let only_tool = app.visible_entries();
    assert_eq!(only_tool.len(), 1);
    assert_eq!(only_tool[0].name, "tool");
    assert_eq!(only_tool[0].path, "root/bin");
}

#[test]
fn empty_pattern_clears_the_filtered_keys() {
    let mut app = session_on_sample();
    app.filter_by_name("readme");
    assert_eq!(app.filtered_keys, vec!["readme".to_string()]);
    app.filter_by_name("");
    assert_eq!(app.filtered_keys, Vec::<String>::new());
    // yet every entry stays visible: an empty pattern means "no filter"
    assert_eq!(app.visible_entries().len(), 3);
}

#[test]
fn reconfigure_to_shallower_depth_drops_only_the_deep_entry() {
    let mut app = session_on_sample();

    // what the walk reports with the bound lowered to two levels
    let shallow: Vec<RawEntry> = sample_records()
        .into_iter()
        .filter(|r| r.depth <= 2)
        .collect();
    app.update_from_records("root".to_string(), 2, &shallow);

    assert_eq!(app.keys, vec!["readme".to_string(), "tool".to_string()]);
    let all = app.visible_entries();
    assert_eq!(all.len(), 2);
    assert_eq!(all[0].name, "readme");
    assert_eq!(all[0].extension, "txt");
    assert_eq!(all[0].path, "root/docs");
    assert_eq!(all[1].name, "tool");
}

#[test]
fn update_reapplies_a_standing_pattern() {
    let mut app = session_on_sample();
    app.filter_by_name("readme");
    assert_eq!(app.filtered_keys, vec!["readme".to_string()]);

    // a new traversal without any readme leaves the pattern standing but
    // nothing matching it
    let records = vec![rec("tool", "root/bin", 2, false)];
    app.update_from_records("root".to_string(), 3, &records);
    assert_eq!(app.search_string, "readme");
    assert_eq!(app.filtered_keys, Vec::<String>::new());
    assert_eq!(app.visible_entries().len(), 0);

    // clearing the pattern shows the new index again
    app.filter_by_name("");
    assert_eq!(app.visible_entries().len(), 1);
}

#[test]
fn invalid_pattern_shows_nothing_but_does_not_raise() {
    let mut app = session_on_sample();
    app.filter_by_name("(unclosed");
    assert_eq!(app.filtered_keys, Vec::<String>::new());
    assert_eq!(app.visible_entries().len(), 0);
}

#[test]
fn session_on_a_real_root_starts_unfiltered() {
    let app = ResApp::new(".".to_string(), 1);
    assert_eq!(app.search_string, "");
    assert_eq!(app.filtered_keys, Vec::<String>::new());
    // whatever the walk found, the keys come out strictly sorted
    for w in app.keys.windows(2) {
        assert!(w[0] < w[1]);
    }
}
