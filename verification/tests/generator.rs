use hierarchical_mod::entry::{Entry, RawEntry};
use hierarchical_mod::generate;
use hierarchical_mod::sanitize::{
    handle_mod_name_with_dash, handle_mod_name_with_digit_prefix, sanitize, strip_rs_suffix,
};
use hierarchical_mod::scan::{qualifies, scan_entries, str_lex_lt, ScanError};

fn file(name: &str) -> RawEntry {
    RawEntry::File { name: name.to_string() }
}

fn dir(name: &str, entries: Vec<RawEntry>) -> RawEntry {
    RawEntry::Dir { name: name.to_string(), entries }
}

fn special(name: &str) -> RawEntry {
    RawEntry::Special { name: name.to_string() }
}

#[test]
fn dash_replacement() {
    assert_eq!(handle_mod_name_with_dash("a-b-c".to_string()), "a_b_c");
    assert_eq!(handle_mod_name_with_dash("plain".to_string()), "plain");
    assert_eq!(handle_mod_name_with_dash("".to_string()), "");
}

#[test]
fn digit_prefix_guard() {
    assert_eq!(handle_mod_name_with_digit_prefix("9lives".to_string()), "_9lives");
    assert_eq!(handle_mod_name_with_digit_prefix("lives9".to_string()), "lives9");
    assert_eq!(handle_mod_name_with_digit_prefix("".to_string()), "");
}

#[test]
fn suffix_stripping() {
    assert_eq!(strip_rs_suffix("foo.rs".to_string()), "foo");
    assert_eq!(strip_rs_suffix("foo.txt".to_string()), "foo.txt");
    assert_eq!(strip_rs_suffix("foo".to_string()), "foo");
    assert_eq!(strip_rs_suffix(".rs".to_string()), "");
}

#[test]
fn sanitize_file_names() {
    assert_eq!(sanitize("foo-bar.rs".to_string(), true), "foo_bar");
    assert_eq!(sanitize("1abc.rs".to_string(), true), "_1abc");
}

#[test]
fn sanitize_directory_names() {
    assert_eq!(sanitize("abc".to_string(), false), "abc");
    assert_eq!(sanitize("1abc".to_string(), false), "_1abc");
}

#[test]
fn sanitize_order_is_dash_then_digit_then_suffix() {
    // The digit guard looks at the name before the suffix is removed,
    // and after dashes are replaced.
    assert_eq!(sanitize("1-2.rs".to_string(), true), "_1_2");
    // A directory keeps its dots: no suffix stripping.
    assert_eq!(sanitize("v1.2".to_string(), false), "v1.2");
}

#[test]
fn qualifying_names() {
    assert!(qualifies(&"a.rs".to_string()));
    assert!(qualifies(&"some-mod.rs".to_string()));
    assert!(!qualifies(&"mod.rs".to_string()));
    assert!(!qualifies(&"lib.rs".to_string()));
    assert!(!qualifies(&"main.rs".to_string()));
    assert!(!qualifies(&"notes.txt".to_string()));
    assert!(!qualifies(&".rs".to_string()));
    assert!(!qualifies(&"a.RS".to_string()));
}

#[test]
fn lexicographic_name_order() {
    assert!(str_lex_lt("abc", "abd"));
    assert!(str_lex_lt("ab", "abc"));
    assert!(!str_lex_lt("abc", "abc"));
    assert!(!str_lex_lt("b", "abc"));
}

#[test]
fn example_tree() {
    let root = vec![
        file("a.rs"),
        file("1b.rs"),
        file("mod.rs"),
        file("lib.rs"),
        dir("sub", vec![file("c.rs")]),
        dir("empty", vec![]),
    ];
    let text = generate(&root).unwrap();
    assert_eq!(
        text,
        "namespace sub [sub] {\nunit c [c.rs];\n}\nunit a [a.rs];\nunit _1b [1b.rs];\n"
    );
}

#[test]
fn excluded_names_never_appear() {
    let root = vec![
        file("mod.rs"),
        file("lib.rs"),
        file("main.rs"),
        file("readme.md"),
        dir("inner", vec![file("mod.rs"), file("keep.rs"), file("data.json")]),
    ];
    let text = generate(&root).unwrap();
    assert_eq!(text, "namespace inner [inner] {\nunit keep [keep.rs];\n}\n");
    assert!(!text.contains("mod.rs"));
    assert!(!text.contains("lib"));
    assert!(!text.contains("main"));
    assert!(!text.contains("readme"));
    assert!(!text.contains("data"));
}

#[test]
fn empty_branches_are_pruned_recursively() {
    let root = vec![
        dir("top", vec![dir("mid", vec![dir("leafless", vec![file("mod.rs")])])]),
        file("keep.rs"),
    ];
    let text = generate(&root).unwrap();
    assert_eq!(text, "unit keep [keep.rs];\n");
}

#[test]
fn directory_with_content_below_empty_sibling_levels() {
    let root = vec![dir("top", vec![dir("deadwood", vec![]), dir("alive", vec![file("x.rs")])])];
    let text = generate(&root).unwrap();
    assert_eq!(
        text,
        "namespace top [top] {\nnamespace alive [alive] {\nunit x [x.rs];\n}\n}\n"
    );
}

#[test]
fn subdirectories_are_sorted_files_keep_listing_order() {
    let root = vec![
        file("zeta.rs"),
        dir("beta", vec![file("b.rs")]),
        file("alpha.rs"),
        dir("acme", vec![file("a.rs")]),
    ];
    let text = generate(&root).unwrap();
    assert_eq!(
        text,
        "namespace acme [acme] {\nunit a [a.rs];\n}\n\
         namespace beta [beta] {\nunit b [b.rs];\n}\n\
         unit zeta [zeta.rs];\nunit alpha [alpha.rs];\n"
    );
}

#[test]
fn digit_directory_is_guarded() {
    let root = vec![dir("1x", vec![file("2y.rs")])];
    let text = generate(&root).unwrap();
    assert_eq!(text, "namespace _1x [1x] {\nunit _2y [2y.rs];\n}\n");
}

#[test]
fn sanitization_does_not_detect_collisions() {
    let root = vec![file("a-b.rs"), file("a_b.rs")];
    let text = generate(&root).unwrap();
    assert_eq!(text, "unit a_b [a-b.rs];\nunit a_b [a_b.rs];\n");
}

#[test]
fn special_entry_at_top_level_is_fatal() {
    let root = vec![file("good.rs"), special("dangling-link")];
    match generate(&root) {
        Err(ScanError::UnsupportedEntry { name }) => assert_eq!(name, "dangling-link"),
        _ => panic!("a special entry must abort the generation"),
    }
}

#[test]
fn special_entry_at_depth_is_fatal_with_no_partial_output() {
    let root = vec![
        file("good.rs"),
        dir("nested", vec![dir("deeper", vec![special("socket0")]), file("fine.rs")]),
    ];
    match generate(&root) {
        Err(ScanError::UnsupportedEntry { name }) => assert_eq!(name, "socket0"),
        _ => panic!("a special entry at any depth must abort the generation"),
    }
}

#[test]
fn first_special_in_listing_order_is_reported() {
    let root = vec![dir("d", vec![special("inner-first")]), special("outer-second")];
    match generate(&root) {
        Err(ScanError::UnsupportedEntry { name }) => assert_eq!(name, "inner-first"),
        _ => panic!("expected the scan to fail"),
    }
}

#[test]
fn two_passes_produce_identical_output() {
    let root = vec![
        file("z-1.rs"),
        dir("sub", vec![file("9.rs"), dir("down", vec![file("deep.rs")])]),
        file("a.rs"),
    ];
    let first = generate(&root).unwrap();
    let second = generate(&root).unwrap();
    assert_eq!(first, second);
}

#[test]
fn scan_keeps_original_names() {
    let root = vec![dir("s-d", vec![file("f-1.rs")])];
    let scanned = scan_entries(&root).unwrap();
    assert_eq!(scanned.len(), 1);
    match &scanned[0] {
        Entry::Dir { name, children } => {
            assert_eq!(name, "s-d");
            assert_eq!(children.len(), 1);
            match &children[0] {
                Entry::File { name } => assert_eq!(name, "f-1.rs"),
                _ => panic!("expected a file entry"),
            }
        },
        _ => panic!("expected a directory entry"),
    }
}

#[test]
fn directory_listing_order_does_not_matter() {
    let one = vec![
        dir("beta", vec![file("b.rs")]),
        file("f.rs"),
        dir("acme", vec![file("a.rs")]),
    ];
    let two = vec![
        dir("acme", vec![file("a.rs")]),
        dir("beta", vec![file("b.rs")]),
        file("f.rs"),
    ];
    assert_eq!(generate(&one).unwrap(), generate(&two).unwrap());
}

#[test]
fn later_duplicate_directory_replaces_earlier() {
    // A real directory listing never repeats a name; if one does, the
    // directories behave as a mapping keyed by name, and the later entry
    // wins.
    let root = vec![
        dir("d", vec![file("one.rs")]),
        dir("d", vec![file("two.rs")]),
    ];
    let text = generate(&root).unwrap();
    assert_eq!(text, "namespace d [d] {\nunit two [two.rs];\n}\n");
}

#[test]
fn scan_of_empty_listing_is_empty() {
    let root: Vec<RawEntry> = vec![];
    let text = generate(&root).unwrap();
    assert_eq!(text, "");
}
