use res_search::index::{build_index_from_records, generate_entries_map, index_keys, IndexGroup};
use res_search::strings::{split_name, str_eq, str_lt};
use res_search::walk::RawEntry;

fn rec(file_name: &str, parent: &str, depth: usize, is_dir: bool) -> RawEntry {
    RawEntry {
        file_name: file_name.to_string(),
        parent: parent.to_string(),
        depth,
        is_dir,
    }
}

fn keys_of(idx: &Vec<IndexGroup>) -> Vec<String> {
    index_keys(idx)
}

#[test]
fn split_name_plain() {
    let (stem, ext) = split_name("readme.txt");
    assert_eq!(stem, "readme");
    assert_eq!(ext, "txt");
}

#[test]
fn split_name_no_extension() {
    let (stem, ext) = split_name("tool");
    assert_eq!(stem, "tool");
    assert_eq!(ext, "");
}

#[test]
fn split_name_double_extension() {
    let (stem, ext) = split_name("archive.tar.gz");
    assert_eq!(stem, "archive.tar");
    assert_eq!(ext, "gz");
}

#[test]
fn split_name_leading_dot() {
    let (stem, ext) = split_name(".hidden");
    assert_eq!(stem, "");
    assert_eq!(ext, "hidden");
}

#[test]
fn split_name_trailing_dot() {
    let (stem, ext) = split_name("trail.");
    assert_eq!(stem, "trail");
    assert_eq!(ext, "");
}

#[test]
fn full_path_reconstruction() {
    let records = vec![
        rec("readme.txt", "root/docs", 2, false),
        rec("tool", "root/bin", 2, false),
    ];
    let idx = build_index_from_records(&records);
    assert_eq!(idx[0].entries[0].full_path(), "root/docs/readme.txt");
    assert_eq!(idx[1].entries[0].full_path(), "root/bin/tool");
}

#[test]
fn string_order_helpers() {
    assert!(str_lt("alpha", "beta"));
    assert!(!str_lt("beta", "alpha"));
    assert!(str_lt("alp", "alpha"));
    assert!(!str_lt("alpha", "alpha"));
    assert!(str_eq("same", "same"));
    assert!(!str_eq("same", "Same"));
}

#[test]
fn index_groups_by_stem() {
    let records = vec![
        rec("readme.txt", "root/docs", 2, false),
        rec("tool", "root/bin", 2, false),
        rec("readme.md", "root/docs/sub", 3, false),
    ];
    let idx = build_index_from_records(&records);
    let keys = keys_of(&idx);
    assert_eq!(keys, vec!["readme".to_string(), "tool".to_string()]);
    let readme = &idx[0];
    assert_eq!(readme.entries.len(), 2);
    assert_eq!(readme.entries[0].name, "readme");
    assert_eq!(readme.entries[0].extension, "txt");
    assert_eq!(readme.entries[0].path, "root/docs");
    assert_eq!(readme.entries[1].extension, "md");
    assert_eq!(readme.entries[1].path, "root/docs/sub");
    let tool = &idx[1];
    assert_eq!(tool.entries.len(), 1);
    assert_eq!(tool.entries[0].extension, "");
    assert_eq!(tool.entries[0].path, "root/bin");
}

#[test]
fn index_skips_directories() {
    let records = vec![
        rec("docs", "root", 1, true),
        rec("fake.txt", "root", 1, true),
        rec("real.txt", "root/docs", 2, false),
    ];
    let idx = build_index_from_records(&records);
    let keys = keys_of(&idx);
    assert_eq!(keys, vec!["real".to_string()]);
}

#[test]
fn index_keys_come_out_sorted() {
    let records = vec![
        rec("zeta.txt", "r", 1, false),
        rec("alpha.txt", "r", 1, false),
        rec("Mid.txt", "r", 1, false),
    ];
    let idx = build_index_from_records(&records);
    let keys = keys_of(&idx);
    assert_eq!(
        keys,
        vec!["Mid".to_string(), "alpha".to_string(), "zeta".to_string()]
    );
}

#[test]
fn hidden_file_groups_under_empty_stem() {
    let records = vec![
        rec(".hidden", "root", 1, false),
        rec("a.txt", "root", 1, false),
    ];
    let idx = build_index_from_records(&records);
    assert_eq!(keys_of(&idx), vec!["".to_string(), "a".to_string()]);
    assert_eq!(idx[0].entries[0].name, "");
    assert_eq!(idx[0].entries[0].extension, "hidden");
}

#[test]
fn index_keeps_entries_at_depth_bound() {
    // a record at depth equal to the walk's bound is indexed like any other
    let records = vec![rec("deep.txt", "r/a/b", 3, false)];
    let idx = build_index_from_records(&records);
    assert_eq!(keys_of(&idx), vec!["deep".to_string()]);
    assert_eq!(idx[0].entries[0].path, "r/a/b");
}

#[test]
fn walk_of_missing_root_yields_empty_index() {
    let idx = generate_entries_map("definitely/not/an/existing/root", 3);
    assert_eq!(idx.len(), 0);
}
