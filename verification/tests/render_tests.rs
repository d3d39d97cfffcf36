use qcl::render_command;
use qcl::VarMap;

#[test]
fn substitutes_bound_name() {
    let mut vars = VarMap::new();
    vars.set("a".to_string(), "x".to_string());
    assert_eq!(render_command("echo [[a]]", &vars), "echo x");
}

#[test]
fn matches_token_by_name_whatever_attributes() {
    let mut vars = VarMap::new();
    vars.set("a".to_string(), "x".to_string());
    assert_eq!(render_command("echo [[a=def order:3]]", &vars), "echo x");
}

#[test]
fn leaves_unbound_token() {
    let mut vars = VarMap::new();
    vars.set("a".to_string(), "x".to_string());
    assert_eq!(render_command("echo [[b]]", &vars), "echo [[b]]");
}

#[test]
fn no_tokens_unchanged() {
    let vars = VarMap::new();
    assert_eq!(render_command("ls -la", &vars), "ls -la");
}

#[test]
fn two_tokens_same_name_get_one_value() {
    let mut vars = VarMap::new();
    vars.set("n".to_string(), "v".to_string());
    assert_eq!(render_command("[[n=1]] and [[n=2]]", &vars), "v and v");
}

#[test]
fn values_are_opaque_no_second_pass() {
    let mut vars = VarMap::new();
    vars.set("a".to_string(), "[[b]]".to_string());
    vars.set("b".to_string(), "z".to_string());
    assert_eq!(render_command("x [[a]] y", &vars), "x [[b]] y");
}

#[test]
fn quoted_from_token_still_matched_by_name() {
    let mut vars = VarMap::new();
    vars.set("host".to_string(), "web1".to_string());
    assert_eq!(render_command("ssh [[host from:\"cat hosts.txt\"]]", &vars), "ssh web1");
}

#[test]
fn unterminated_open_is_literal() {
    let mut vars = VarMap::new();
    vars.set("a".to_string(), "x".to_string());
    assert_eq!(render_command("echo [[a", &vars), "echo [[a");
}

#[test]
fn varmap_set_overwrites() {
    let mut vars = VarMap::new();
    vars.set("a".to_string(), "1".to_string());
    vars.set("a".to_string(), "2".to_string());
    assert_eq!(vars.get("a"), Some(&"2".to_string()));
    assert_eq!(vars.get("b"), None);
    assert!(vars.contains_key("a"));
    assert!(!vars.contains_key("b"));
}
