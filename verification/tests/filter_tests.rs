use res_search::filtering::filter_keys;

fn keys(names: &[&str]) -> Vec<String> {
    names.iter().map(|s| s.to_string()).collect()
}

#[test]
fn filter_is_case_insensitive() {
    let ks = keys(&["Report", "report2"]);
    let out = filter_keys(&ks, "report");
    assert_eq!(out, keys(&["Report", "report2"]));
}

#[test]
fn filter_matches_anywhere_in_the_key() {
    let ks = keys(&["notes", "footnote", "plain"]);
    let out = filter_keys(&ks, "note");
    assert_eq!(out, keys(&["notes", "footnote"]));
}

#[test]
fn filter_dot_star_keeps_every_key() {
    let ks = keys(&["a", "B", "c.d", ""]);
    let out = filter_keys(&ks, ".*");
    assert_eq!(out, ks);
}

#[test]
fn filter_invalid_pattern_keeps_nothing() {
    let ks = keys(&["a", "b"]);
    let out = filter_keys(&ks, "(unclosed");
    assert_eq!(out, Vec::<String>::new());
}

#[test]
fn filter_is_idempotent_on_a_stable_key_set() {
    let ks = keys(&["alpha", "Beta", "alps", "gamma"]);
    let once = filter_keys(&ks, "al");
    let twice = filter_keys(&once, "al");
    assert_eq!(once, keys(&["alpha", "alps"]));
    assert_eq!(twice, once);
}

#[test]
fn filter_anchored_pattern() {
    let ks = keys(&["tool", "tooling", "retool"]);
    let out = filter_keys(&ks, "^tool$");
    assert_eq!(out, keys(&["tool"]));
}

#[test]
fn filter_preserves_key_order() {
    let ks = keys(&["b1", "a1", "b2", "a2"]);
    let out = filter_keys(&ks, "[ab]");
    assert_eq!(out, ks);
}
