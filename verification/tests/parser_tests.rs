use qcl::parse_placeholders;

#[test]
fn bare_name() {
    let phs = parse_placeholders("echo [[name]]");
    assert_eq!(phs.len(), 1);
    assert_eq!(phs[0].name, "name");
    assert_eq!(phs[0].default, None);
    assert_eq!(phs[0].from, None);
    assert_eq!(phs[0].select, None);
    assert_eq!(phs[0].order, None);
}

#[test]
fn name_with_default() {
    let phs = parse_placeholders("echo Hello, [[user=world]]!");
    assert_eq!(phs.len(), 1);
    assert_eq!(phs[0].name, "user");
    assert_eq!(phs[0].default, Some("world".to_string()));
}

#[test]
fn default_splits_on_first_equals() {
    let phs = parse_placeholders("[[k=a=b]]");
    assert_eq!(phs[0].name, "k");
    assert_eq!(phs[0].default, Some("a=b".to_string()));
}

#[test]
fn from_select_order() {
    let phs = parse_placeholders("[[host from:\"hosts\" select:1 order:2]]");
    assert_eq!(phs.len(), 1);
    assert_eq!(phs[0].name, "host");
    assert_eq!(phs[0].from, Some("hosts".to_string()));
    assert_eq!(phs[0].select, Some(1));
    assert_eq!(phs[0].order, Some(2));
}

#[test]
fn from_without_quotes() {
    let phs = parse_placeholders("[[x from:ls]]");
    assert_eq!(phs[0].from, Some("ls".to_string()));
}

#[test]
fn non_numeric_select_is_discarded() {
    let phs = parse_placeholders("[[x select:abc]]");
    assert_eq!(phs[0].name, "x");
    assert_eq!(phs[0].select, None);
}

#[test]
fn non_numeric_order_is_discarded() {
    let phs = parse_placeholders("[[x order:1x]]");
    assert_eq!(phs[0].order, None);
}

#[test]
fn select_with_plus_sign() {
    let phs = parse_placeholders("[[x select:+3]]");
    assert_eq!(phs[0].select, Some(3));
}

#[test]
fn empty_token_keeps_empty_name() {
    let phs = parse_placeholders("run [[]] now");
    assert_eq!(phs.len(), 1);
    assert_eq!(phs[0].name, "");
}

#[test]
fn blank_token_keeps_empty_name() {
    let phs = parse_placeholders("run [[ ]] now");
    assert_eq!(phs.len(), 1);
    assert_eq!(phs[0].name, "");
}

#[test]
fn unterminated_token_is_no_token() {
    let phs = parse_placeholders("echo [[x");
    assert_eq!(phs.len(), 0);
}

#[test]
fn no_tokens() {
    let phs = parse_placeholders("ls -la");
    assert_eq!(phs.len(), 0);
}

#[test]
fn tokens_left_to_right() {
    let phs = parse_placeholders("[[a]] mid [[b=2]]");
    assert_eq!(phs.len(), 2);
    assert_eq!(phs[0].name, "a");
    assert_eq!(phs[1].name, "b");
    assert_eq!(phs[1].default, Some("2".to_string()));
}

#[test]
fn later_pair_with_equals_does_not_rename() {
    let phs = parse_placeholders("[[x a=b]]");
    assert_eq!(phs[0].name, "x");
    assert_eq!(phs[0].default, None);
}

#[test]
fn first_name_wins() {
    let phs = parse_placeholders("[[x y]]");
    assert_eq!(phs[0].name, "x");
}

#[test]
fn single_bracket_stays_in_content() {
    let phs = parse_placeholders("[[a]b]]");
    assert_eq!(phs.len(), 1);
    assert_eq!(phs[0].name, "a]b");
}

#[test]
fn overflowing_select_is_discarded() {
    let phs = parse_placeholders("[[x select:99999999999999999999999999]]");
    assert_eq!(phs[0].select, None);
}

#[test]
fn plus_sign_alone_is_discarded() {
    let phs = parse_placeholders("[[x select:+]]");
    assert_eq!(phs[0].select, None);
}

#[test]
fn empty_select_is_discarded() {
    let phs = parse_placeholders("[[x select: order:1]]");
    assert_eq!(phs[0].select, None);
    assert_eq!(phs[0].order, Some(1));
}

#[test]
fn from_quoted_command_keeps_spaces() {
    let phs = parse_placeholders("[[host from:\"cat hosts.txt\" select:1]]");
    assert_eq!(phs[0].name, "host");
    assert_eq!(phs[0].from, Some("cat hosts.txt".to_string()));
    assert_eq!(phs[0].select, Some(1));
}

#[test]
fn from_quoted_after_default() {
    let phs = parse_placeholders("[[region=eu from:\"aws regions\" order:1]]");
    assert_eq!(phs[0].name, "region");
    assert_eq!(phs[0].default, Some("eu".to_string()));
    assert_eq!(phs[0].from, Some("aws regions".to_string()));
    assert_eq!(phs[0].order, Some(1));
}

#[test]
fn from_with_unbalanced_quote_runs_to_token_end() {
    let phs = parse_placeholders("[[x from:\"a b]]");
    assert_eq!(phs[0].name, "x");
    assert_eq!(phs[0].from, Some("a b".to_string()));
}

#[test]
fn from_of_only_quotes_is_empty() {
    let phs = parse_placeholders("[[x from:\"\"]]");
    assert_eq!(phs[0].from, Some("".to_string()));
}

#[test]
fn attributes_after_name() {
    let phs = parse_placeholders("[[region=eu from:\"regions\" order:1]]");
    assert_eq!(phs[0].name, "region");
    assert_eq!(phs[0].default, Some("eu".to_string()));
    assert_eq!(phs[0].from, Some("regions".to_string()));
    assert_eq!(phs[0].order, Some(1));
}
