use qcl::{load_snippet_configs, load_snippet_object, load_snippets, split_records, ResolveError, Snippet};

fn snip(name: &str, command: &str) -> Snippet {
    Snippet::new(name.to_string(), command.to_string(), None)
}

#[test]
fn later_source_overwrites_in_place() {
    let first = vec![snip("a", "cmd1"), snip("b", "cmd2")];
    let second = vec![snip("a", "cmd3")];
    let merged = load_snippet_configs(vec![first, second]);
    assert_eq!(merged.len(), 2);
    assert_eq!(merged[0].name, "a");
    assert_eq!(merged[0].command, "cmd3");
    assert_eq!(merged[1].name, "b");
    assert_eq!(merged[1].command, "cmd2");
}

#[test]
fn new_names_append_in_first_seen_order() {
    let first = vec![snip("a", "1")];
    let second = vec![snip("c", "3"), snip("b", "2")];
    let merged = load_snippet_configs(vec![first, second]);
    let names: Vec<&str> = merged.iter().map(|s| s.name.as_str()).collect();
    assert_eq!(names, vec!["a", "c", "b"]);
}

#[test]
fn duplicate_within_one_source_keeps_last() {
    let only = vec![snip("a", "old"), snip("a", "new")];
    let merged = load_snippet_configs(vec![only]);
    assert_eq!(merged.len(), 1);
    assert_eq!(merged[0].command, "new");
}

#[test]
fn empty_sources_merge_to_nothing() {
    let merged = load_snippet_configs(vec![Vec::new(), Vec::new()]);
    assert_eq!(merged.len(), 0);
}

#[test]
fn projection_keeps_names_and_commands() {
    let configs = vec![snip("a", "1"), snip("b", "2")];
    let pairs = load_snippets(&configs);
    assert_eq!(pairs, vec![("a".to_string(), "1".to_string()), ("b".to_string(), "2".to_string())]);
}

#[test]
fn picks_snippet_by_name() {
    let configs = vec![snip("a", "1"), snip("b", "2")];
    let s = load_snippet_object(configs, "b").unwrap();
    assert_eq!(s.command, "2");
}

#[test]
fn missing_snippet_is_an_error() {
    let configs = vec![snip("a", "1")];
    assert_eq!(load_snippet_object(configs, "zzz"), Err(ResolveError::SnippetNotFound));
}

#[test]
fn splits_lines_and_fields() {
    let rows = split_records("a b\tc\nd\n");
    assert_eq!(rows, vec![vec!["a".to_string(), "b".to_string(), "c".to_string()], vec![
        "d".to_string(),
    ]]);
}

#[test]
fn blank_line_is_an_empty_row() {
    let rows = split_records("a\n\nb");
    assert_eq!(rows.len(), 3);
    assert_eq!(rows[1].len(), 0);
}

#[test]
fn empty_output_has_no_rows() {
    assert_eq!(split_records("").len(), 0);
}

#[test]
fn carriage_return_is_whitespace() {
    let rows = split_records("a b\r\nc\r\n");
    assert_eq!(rows, vec![vec!["a".to_string(), "b".to_string()], vec!["c".to_string()]]);
}
