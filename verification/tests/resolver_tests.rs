use qcl::{
    resolution_order, resolve_placeholders, run_qcl, LookupExecutor, Placeholder, ResolveError,
    Snippet, ValueProvider,
};

/// A deterministic provider: hands out scripted answers in order, or echoes
/// the offered default, and counts its calls.
struct ScriptedProvider {
    inputs: Vec<String>,
    selects: Vec<usize>,
    echo_default: bool,
    input_calls: usize,
    select_calls: usize,
}

impl ScriptedProvider {
    fn echoing() -> ScriptedProvider {
        ScriptedProvider {
            inputs: Vec::new(),
            selects: Vec::new(),
            echo_default: true,
            input_calls: 0,
            select_calls: 0,
        }
    }

    fn scripted(inputs: Vec<&str>, selects: Vec<usize>) -> ScriptedProvider {
        ScriptedProvider {
            inputs: inputs.into_iter().map(|s| s.to_string()).collect(),
            selects,
            echo_default: false,
            input_calls: 0,
            select_calls: 0,
        }
    }
}

impl ValueProvider for ScriptedProvider {
    fn prompt_input(
        &mut self,
        _var_name: &str,
        _prompt: &str,
        default: Option<String>,
    ) -> Result<String, ResolveError> {
        self.input_calls += 1;
        if self.echo_default {
            return Ok(default.unwrap_or_default());
        }
        if self.inputs.is_empty() {
            return Err(ResolveError::InputAborted);
        }
        Ok(self.inputs.remove(0))
    }

    fn prompt_select(
        &mut self,
        _var_name: &str,
        _prompt: &str,
        records: Vec<Vec<String>>,
        _default_index: Option<usize>,
    ) -> Result<usize, ResolveError> {
        self.select_calls += 1;
        if self.selects.is_empty() {
            return Err(ResolveError::SelectionAborted);
        }
        let i = self.selects.remove(0);
        if i < records.len() {
            Ok(i)
        } else {
            Err(ResolveError::SelectionAborted)
        }
    }
}

/// A deterministic lookup: hands out scripted command outputs in order and
/// counts its calls.
struct ScriptedLookup {
    outputs: Vec<Result<String, Option<i32>>>,
    calls: usize,
    seen: Vec<String>,
}

impl ScriptedLookup {
    fn none() -> ScriptedLookup {
        ScriptedLookup { outputs: Vec::new(), calls: 0, seen: Vec::new() }
    }

    fn with(outputs: Vec<Result<&str, Option<i32>>>) -> ScriptedLookup {
        ScriptedLookup {
            outputs: outputs.into_iter().map(|r| r.map(|s| s.to_string())).collect(),
            calls: 0,
            seen: Vec::new(),
        }
    }
}

impl LookupExecutor for ScriptedLookup {
    fn run_lookup(&mut self, command: &str) -> Result<String, Option<i32>> {
        self.calls += 1;
        self.seen.push(command.to_string());
        if self.outputs.is_empty() {
            return Err(None);
        }
        self.outputs.remove(0)
    }
}

fn snippet(name: &str, command: &str) -> Snippet {
    Snippet::new(name.to_string(), command.to_string(), None)
}

#[test]
fn no_tokens_returns_template_unchanged() {
    let s = snippet("list", "ls -la");
    let mut p = ScriptedProvider::echoing();
    let mut l = ScriptedLookup::none();
    let r = resolve_placeholders(&s, &mut p, &mut l).unwrap();
    assert_eq!(r, "ls -la");
    assert_eq!(p.input_calls, 0);
    assert_eq!(p.select_calls, 0);
    assert_eq!(l.calls, 0);
}

#[test]
fn default_resolves_without_lookup() {
    let s = snippet("hello", "echo Hello, [[name=world]]!");
    let mut p = ScriptedProvider::echoing();
    let mut l = ScriptedLookup::none();
    let r = resolve_placeholders(&s, &mut p, &mut l).unwrap();
    assert_eq!(r, "echo Hello, world!");
    assert_eq!(l.calls, 0);
    assert_eq!(p.input_calls, 1);
    assert_eq!(p.select_calls, 0);
}

#[test]
fn same_name_resolved_once_replaces_both() {
    let s = snippet("pair", "[[x=1]] [[x=2]]");
    let mut p = ScriptedProvider::echoing();
    let mut l = ScriptedLookup::none();
    let r = resolve_placeholders(&s, &mut p, &mut l).unwrap();
    assert_eq!(r, "1 1");
    assert_eq!(p.input_calls, 1);
    assert_eq!(l.calls, 0);
}

#[test]
fn same_name_from_lookup_invoked_once() {
    let s = snippet("pair", "[[x from:\"opts\"]] [[x from:\"opts\"]]");
    let mut p = ScriptedProvider::scripted(vec![], vec![0]);
    let mut l = ScriptedLookup::with(vec![Ok("v1\nv2")]);
    let r = resolve_placeholders(&s, &mut p, &mut l).unwrap();
    assert_eq!(r, "v1 v1");
    assert_eq!(l.calls, 1);
    assert_eq!(p.select_calls, 1);
}

#[test]
fn function_seeds_variables_and_skips_them() {
    let f = qcl::Function {
        from: "rows".to_string(),
        select: vec![("a".to_string(), 0), ("b".to_string(), 1)],
    };
    let s = Snippet::new("combo".to_string(), "[[a]] [[b]]".to_string(), Some(f));
    let mut p = ScriptedProvider::scripted(vec![], vec![0]);
    let mut l = ScriptedLookup::with(vec![Ok("x y z")]);
    let r = resolve_placeholders(&s, &mut p, &mut l).unwrap();
    assert_eq!(r, "x y");
    assert_eq!(p.input_calls, 0);
    assert_eq!(p.select_calls, 1);
    assert_eq!(l.calls, 1);
}

#[test]
fn ordering_explicit_then_template_order() {
    let phs = vec![
        Placeholder {
            name: "B".to_string(),
            default: None,
            from: None,
            select: None,
            order: Some(2),
        },
        Placeholder {
            name: "A".to_string(),
            default: None,
            from: None,
            select: None,
            order: Some(1),
        },
        Placeholder { name: "C".to_string(), default: None, from: None, select: None, order: None },
    ];
    let order = resolution_order(&phs);
    assert_eq!(order, vec![1, 0, 2]);
    let names: Vec<&str> = order.iter().map(|&i| phs[i].name.as_str()).collect();
    assert_eq!(names, vec!["A", "B", "C"]);
}

#[test]
fn ordering_ties_keep_template_order() {
    let phs = vec![
        Placeholder {
            name: "B".to_string(),
            default: None,
            from: None,
            select: None,
            order: Some(1),
        },
        Placeholder {
            name: "A".to_string(),
            default: None,
            from: None,
            select: None,
            order: Some(1),
        },
    ];
    assert_eq!(resolution_order(&phs), vec![0, 1]);
}

#[test]
fn failing_command_aborts_with_its_exit_code() {
    let s = snippet("bad", "run [[x from:\"false\"]]");
    let mut p = ScriptedProvider::scripted(vec![], vec![0]);
    let mut l = ScriptedLookup::with(vec![Err(Some(1))]);
    let r = resolve_placeholders(&s, &mut p, &mut l);
    assert_eq!(
        r,
        Err(ResolveError::CommandExecutionFailed {
            command: "false".to_string(),
            exit_code: Some(1),
        })
    );
    assert_eq!(p.select_calls, 0);
}

#[test]
fn resolution_is_deterministic_given_identical_answers() {
    let s = snippet("combo", "[[a from:\"lst\" select:1]] [[b=fallback]] [[a]]");
    let mut p1 = ScriptedProvider::scripted(vec!["typed"], vec![1]);
    let mut l1 = ScriptedLookup::with(vec![Ok("p q\nr s")]);
    let r1 = resolve_placeholders(&s, &mut p1, &mut l1).unwrap();
    let mut p2 = ScriptedProvider::scripted(vec!["typed"], vec![1]);
    let mut l2 = ScriptedLookup::with(vec![Ok("p q\nr s")]);
    let r2 = resolve_placeholders(&s, &mut p2, &mut l2).unwrap();
    assert_eq!(r1, r2);
    assert_eq!(r1, "s typed s");
}

#[test]
fn lookup_row_field_is_taken_at_select_column() {
    let s = snippet("pick", "get [[host from:\"hosts\" select:1]]");
    let mut p = ScriptedProvider::scripted(vec![], vec![1]);
    let mut l = ScriptedLookup::with(vec![Ok("web1 10.0.0.1\nweb2 10.0.0.2")]);
    let r = resolve_placeholders(&s, &mut p, &mut l).unwrap();
    assert_eq!(r, "get 10.0.0.2");
}

#[test]
fn lookup_without_select_takes_first_column() {
    let s = snippet("pick", "get [[host from:\"hosts\"]]");
    let mut p = ScriptedProvider::scripted(vec![], vec![0]);
    let mut l = ScriptedLookup::with(vec![Ok("web1 10.0.0.1")]);
    let r = resolve_placeholders(&s, &mut p, &mut l).unwrap();
    assert_eq!(r, "get web1");
}

#[test]
fn empty_lookup_output_is_an_error() {
    let s = snippet("pick", "get [[host from:\"hosts\"]]");
    let mut p = ScriptedProvider::scripted(vec![], vec![0]);
    let mut l = ScriptedLookup::with(vec![Ok("")]);
    let r = resolve_placeholders(&s, &mut p, &mut l);
    assert_eq!(r, Err(ResolveError::NoLookupResults { command: "hosts".to_string() }));
}

#[test]
fn column_out_of_bounds_on_short_row() {
    let s = snippet("pick", "get [[host from:\"hosts\" select:5]]");
    let mut p = ScriptedProvider::scripted(vec![], vec![0]);
    let mut l = ScriptedLookup::with(vec![Ok("a b")]);
    let r = resolve_placeholders(&s, &mut p, &mut l);
    assert_eq!(
        r,
        Err(ResolveError::ColumnOutOfBounds { column: 5, variable: "host".to_string() })
    );
}

#[test]
fn function_with_empty_output_is_an_error() {
    let f = qcl::Function { from: "rows".to_string(), select: vec![("a".to_string(), 0)] };
    let s = Snippet::new("combo".to_string(), "[[a]]".to_string(), Some(f));
    let mut p = ScriptedProvider::scripted(vec![], vec![0]);
    let mut l = ScriptedLookup::with(vec![Ok("")]);
    let r = resolve_placeholders(&s, &mut p, &mut l);
    assert_eq!(r, Err(ResolveError::NoFunctionResults));
}

#[test]
fn function_column_out_of_bounds() {
    let f = qcl::Function { from: "rows".to_string(), select: vec![("a".to_string(), 3)] };
    let s = Snippet::new("combo".to_string(), "[[a]]".to_string(), Some(f));
    let mut p = ScriptedProvider::scripted(vec![], vec![0]);
    let mut l = ScriptedLookup::with(vec![Ok("x y")]);
    let r = resolve_placeholders(&s, &mut p, &mut l);
    assert_eq!(
        r,
        Err(ResolveError::ColumnOutOfBounds { column: 3, variable: "a".to_string() })
    );
}

#[test]
fn nameless_token_fails_resolution() {
    let s = snippet("odd", "run [[ ]]");
    let mut p = ScriptedProvider::echoing();
    let mut l = ScriptedLookup::none();
    let r = resolve_placeholders(&s, &mut p, &mut l);
    assert_eq!(r, Err(ResolveError::MalformedPlaceholder));
}

#[test]
fn aborted_input_propagates() {
    let s = snippet("ask", "say [[word]]");
    let mut p = ScriptedProvider::scripted(vec![], vec![]);
    let mut l = ScriptedLookup::none();
    let r = resolve_placeholders(&s, &mut p, &mut l);
    assert_eq!(r, Err(ResolveError::InputAborted));
}

#[test]
fn aborted_selection_propagates() {
    let s = snippet("pick", "get [[h from:\"hosts\"]]");
    let mut p = ScriptedProvider::scripted(vec![], vec![]);
    let mut l = ScriptedLookup::with(vec![Ok("a")]);
    let r = resolve_placeholders(&s, &mut p, &mut l);
    assert_eq!(r, Err(ResolveError::SelectionAborted));
}

#[test]
fn explicit_order_resolves_before_template_order() {
    // the second token resolves first and caches the name for the first
    let s = snippet("ord", "[[x=a]] [[x=b order:1]]");
    let mut p = ScriptedProvider::echoing();
    let mut l = ScriptedLookup::none();
    let r = resolve_placeholders(&s, &mut p, &mut l).unwrap();
    assert_eq!(r, "b b");
    assert_eq!(p.input_calls, 1);
}

#[test]
fn quoted_from_command_reaches_the_executor_whole() {
    let s = snippet("pick", "get [[host from:\"cat hosts.txt\" select:1]]");
    let mut p = ScriptedProvider::scripted(vec![], vec![0]);
    let mut l = ScriptedLookup::with(vec![Ok("web1 10.0.0.1")]);
    let r = resolve_placeholders(&s, &mut p, &mut l).unwrap();
    assert_eq!(r, "get 10.0.0.1");
    assert_eq!(l.seen, vec!["cat hosts.txt".to_string()]);
}

#[test]
fn run_qcl_selects_a_snippet_then_resolves() {
    let snippets = vec![snippet("one", "echo one"), snippet("two", "echo [[w=2]]")];
    let p = ScriptedProvider::scripted(vec![], vec![1]);
    let l = ScriptedLookup::none();
    let r = run_qcl(&snippets, p, l);
    // the prompt for w is scripted to echo nothing: the provider has no
    // inputs and does not echo defaults, so entry is aborted
    assert_eq!(r, Err(ResolveError::InputAborted));

    let mut p2 = ScriptedProvider::scripted(vec!["2"], vec![1]);
    p2.echo_default = false;
    let l2 = ScriptedLookup::none();
    let r2 = run_qcl(&snippets, p2, l2);
    assert_eq!(r2, Ok("echo 2".to_string()));
}

#[test]
fn run_qcl_with_no_snippets_is_an_error() {
    let snippets: Vec<Snippet> = Vec::new();
    let p = ScriptedProvider::echoing();
    let l = ScriptedLookup::none();
    assert_eq!(run_qcl(&snippets, p, l), Err(ResolveError::NoSnippets));
}
