//! The template renderer: one left-to-right pass that replaces every
//! `[[...]]` token whose parsed name is bound in the variable mapping by the
//! bound value, and leaves every other character — and every token whose name
//! is unbound — exactly as it stands.
//!
//! A token is matched by its parsed name alone, whatever defaults or other
//! attributes it carries; values are opaque, so one pass suffices.

use vstd::prelude::*;
use vstd::string::StrSliceExecFns;
use vstd::string::StringExecFns;
use crate::parser::{
    close_of, is_token_start, lemma_find_close, next_token, parse_placeholder, spec_parse_content,
    token_free,
};
use crate::vars::VarMap;

verus! {

/// The parsed name of the token that starts at `i`.
pub open spec fn token_name(t: Seq<char>, i: int) -> Seq<char> {
    spec_parse_content(t.subrange(i + 2, close_of(t, i))).name
}

/// What rendering `t` from position `i` under the mapping `m` yields.
pub open spec fn render_from(t: Seq<char>, m: Map<Seq<char>, Seq<char>>, i: int) -> Seq<char>
    decreases t.len() - i,
    via render_from_dec
{
    if i < 0 || i >= t.len() {
        Seq::empty()
    } else if is_token_start(t, i) {
        (if m.dom().contains(token_name(t, i)) {
            m[token_name(t, i)]
        } else {
            t.subrange(i, close_of(t, i) + 2)
        }) + render_from(t, m, close_of(t, i) + 2)
    } else {
        seq![t[i]] + render_from(t, m, i + 1)
    }
}

#[via_fn]
proof fn render_from_dec(t: Seq<char>, m: Map<Seq<char>, Seq<char>>, i: int) {
    if 0 <= i && i < t.len() && is_token_start(t, i) {
        lemma_find_close(t, i + 2);
    }
}

/// What rendering a whole template yields.
pub open spec fn render_spec(t: Seq<char>, m: Map<Seq<char>, Seq<char>>) -> Seq<char> {
    render_from(t, m, 0)
}

/// A token-free stretch of the template is copied unchanged.
pub proof fn lemma_render_run(t: Seq<char>, m: Map<Seq<char>, Seq<char>>, i: int, k: int)
    requires
        0 <= i <= k <= t.len(),
        forall|p: int| i <= p < k ==> !is_token_start(t, p),
    ensures
        render_from(t, m, i) == t.subrange(i, k) + render_from(t, m, k),
    decreases k - i,
{
    if i == k {
        assert(t.subrange(i, k) =~= Seq::empty());
        assert(t.subrange(i, k) + render_from(t, m, k) =~= render_from(t, m, k));
    } else {
        assert(!is_token_start(t, i));
        lemma_render_run(t, m, i + 1, k);
        assert(seq![t[i]] + t.subrange(i + 1, k) =~= t.subrange(i, k));
        assert(seq![t[i]] + (t.subrange(i + 1, k) + render_from(t, m, k)) =~= (seq![t[i]]
            + t.subrange(i + 1, k)) + render_from(t, m, k));
    }
}

/// A template with no complete placeholder token renders to itself, whatever
/// the mapping holds: resolution and rendering leave it unchanged.
pub proof fn lemma_render_token_free(t: Seq<char>, m: Map<Seq<char>, Seq<char>>)
    requires
        token_free(t),
    ensures
        render_spec(t, m) == t,
{
    lemma_render_run(t, m, 0, t.len() as int);
    assert(t.subrange(0, t.len() as int) =~= t);
    assert(t.subrange(0, t.len() as int) + render_from(t, m, t.len() as int) =~= t);
}

/// A token whose name the mapping binds renders to the bound value: the
/// token is consumed whole, its default and other attributes notwithstanding.
pub proof fn lemma_render_at_token(t: Seq<char>, m: Map<Seq<char>, Seq<char>>, i: int)
    requires
        is_token_start(t, i),
        m.dom().contains(token_name(t, i)),
    ensures
        render_from(t, m, i) == m[token_name(t, i)] + render_from(t, m, close_of(t, i) + 2),
{
    lemma_find_close(t, i + 2);
}

/// A template holding exactly one token, with name `n`: rendering under any
/// mapping that binds `n` to `d` yields the prefix, then `d`, then the
/// suffix. In particular, a placeholder resolved to its default renders to
/// that default.
pub proof fn lemma_render_single_token(
    t: Seq<char>,
    m: Map<Seq<char>, Seq<char>>,
    i: int,
    n: Seq<char>,
    d: Seq<char>,
)
    requires
        is_token_start(t, i),
        token_name(t, i) == n,
        m.dom().contains(n),
        m[n] == d,
        forall|p: int| 0 <= p < i ==> !is_token_start(t, p),
        forall|p: int| close_of(t, i) + 2 <= p ==> !is_token_start(t, p),
    ensures
        render_spec(t, m) == t.subrange(0, i) + d + t.subrange(close_of(t, i) + 2, t.len() as int),
{
    lemma_find_close(t, i + 2);
    let e = close_of(t, i) + 2;
    lemma_render_run(t, m, 0, i);
    lemma_render_at_token(t, m, i);
    lemma_render_run(t, m, e, t.len() as int);
    assert(render_from(t, m, t.len() as int) =~= Seq::empty());
    assert(t.subrange(e, t.len() as int) + Seq::empty() =~= t.subrange(e, t.len() as int));
    assert(t.subrange(0, i) + (d + t.subrange(e, t.len() as int)) =~= t.subrange(0, i) + d
        + t.subrange(e, t.len() as int));
}

/// Two tokens sharing one name `n`: both render to the single bound value,
/// identically, whatever their defaults or order attributes.
pub proof fn lemma_render_two_tokens_same_name(
    t: Seq<char>,
    m: Map<Seq<char>, Seq<char>>,
    i1: int,
    i2: int,
    n: Seq<char>,
    d: Seq<char>,
)
    requires
        is_token_start(t, i1),
        is_token_start(t, i2),
        close_of(t, i1) + 2 <= i2,
        token_name(t, i1) == n,
        token_name(t, i2) == n,
        m.dom().contains(n),
        m[n] == d,
        forall|p: int| 0 <= p < i1 ==> !is_token_start(t, p),
        forall|p: int| close_of(t, i1) + 2 <= p < i2 ==> !is_token_start(t, p),
        forall|p: int| close_of(t, i2) + 2 <= p ==> !is_token_start(t, p),
    ensures
        render_spec(t, m) == t.subrange(0, i1) + d + t.subrange(close_of(t, i1) + 2, i2) + d
            + t.subrange(close_of(t, i2) + 2, t.len() as int),
{
    lemma_find_close(t, i1 + 2);
    lemma_find_close(t, i2 + 2);
    let e1 = close_of(t, i1) + 2;
    let e2 = close_of(t, i2) + 2;
    lemma_render_run(t, m, 0, i1);
    lemma_render_at_token(t, m, i1);
    lemma_render_run(t, m, e1, i2);
    lemma_render_at_token(t, m, i2);
    lemma_render_run(t, m, e2, t.len() as int);
    assert(render_from(t, m, t.len() as int) =~= Seq::empty());
    assert(t.subrange(e2, t.len() as int) + Seq::empty() =~= t.subrange(e2, t.len() as int));
    assert(t.subrange(0, i1) + (d + (t.subrange(e1, i2) + (d + t.subrange(e2, t.len() as int))))
        =~= t.subrange(0, i1) + d + t.subrange(e1, i2) + d + t.subrange(e2, t.len() as int));
}

/// Renders a template under the resolved variables: every token whose parsed
/// name is bound is replaced by the bound value, anything else is copied.
pub fn render_command(template: &str, vars: &VarMap) -> (r: String)
    requires
        vars.wf(),
    ensures
        r@ == render_spec(template@, vars@),
{
    let n: usize = template.unicode_len();
    let mut out: String = String::new();
    let mut i: usize = 0;
    loop
        invariant_except_break
            vars.wf(),
            n == template@.len(),
            i <= n,
            render_spec(template@, vars@) == out@ + render_from(template@, vars@, i as int),
        ensures
            out@ == render_spec(template@, vars@),
        decreases n - i,
    {
        match next_token(template, i) {
            Some((st, cl)) => {
                proof {
                    lemma_find_close(template@, st as int + 2);
                    lemma_render_run(template@, vars@, i as int, st as int);
                }
                let lit = template.substring_char(i, st);
                out.append(lit);
                let content = template.substring_char(st + 2, cl);
                let ph = parse_placeholder(content);
                proof {
                    assert(ph@.name == token_name(template@, st as int));
                }
                match vars.get(ph.name.as_str()) {
                    Some(v) => {
                        proof {
                            lemma_render_at_token(template@, vars@, st as int);
                            assert(out@ + v@ + render_from(template@, vars@, cl as int + 2) =~= out@
                                + (v@ + render_from(template@, vars@, cl as int + 2)));
                        }
                        out.append(v.as_str());
                    },
                    None => {
                        let tok = template.substring_char(st, cl + 2);
                        proof {
                            assert(out@ + tok@ + render_from(template@, vars@, cl as int + 2)
                                =~= out@ + (tok@ + render_from(template@, vars@, cl as int + 2)));
                        }
                        out.append(tok);
                    },
                }
                i = cl + 2;
            },
            None => {
                proof {
                    lemma_render_run(template@, vars@, i as int, n as int);
                    assert(render_from(template@, vars@, n as int) =~= Seq::empty());
                    assert(template@.subrange(i as int, n as int) + Seq::<char>::empty()
                        =~= template@.subrange(i as int, n as int));
                }
                let rest = template.substring_char(i, n);
                out.append(rest);
                break ;
            },
        }
    }
    out
}

} // verus!
