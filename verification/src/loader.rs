//! Merging snippet configurations and picking snippets out of them.
//!
//! Several configuration sources are merged into one list: a later source's
//! snippet overwrites an earlier one with the same name, in place, while the
//! order of first appearance is kept. Reading and parsing the sources is the
//! host's concern; the logic here starts from the parsed lists.

use vstd::prelude::*;
use vstd::pervasive::VecAdditionalExecFns;
use crate::errors::ResolveError;
use crate::model::Snippet;
use crate::text::str_eq;

verus! {

/// One snippet folded into the merged list: it replaces the entry with its
/// name, or is appended when its name is new.
pub open spec fn merge_step(acc: Seq<Snippet>, s: Snippet) -> Seq<Snippet> {
    if exists|i: int| 0 <= i < acc.len() && (#[trigger] acc[i]).name@ == s.name@ {
        acc.update(choose|i: int| 0 <= i < acc.len() && (#[trigger] acc[i]).name@ == s.name@, s)
    } else {
        acc.push(s)
    }
}

/// The rest of the snippets folded into the accumulated list.
pub open spec fn merge_from(acc: Seq<Snippet>, rest: Seq<Snippet>) -> Seq<Snippet>
    decreases rest.len(),
{
    if rest.len() == 0 {
        acc
    } else {
        merge_from(merge_step(acc, rest[0]), rest.drop_first())
    }
}

/// The merge of a concatenated snippet list: last writer wins by name, the
/// order of first appearance is kept.
pub open spec fn merge_spec(all: Seq<Snippet>) -> Seq<Snippet> {
    merge_from(Seq::empty(), all)
}

/// Snippet names of `acc`, each at most once.
pub open spec fn unique_names(acc: Seq<Snippet>) -> bool {
    forall|a: int, b: int| 0 <= a < b < acc.len() ==> acc[a].name@ != acc[b].name@
}

/// Merges the snippet lists of several configuration sources, in source
/// order: a later snippet overwrites the one with its name, in place, and a
/// new name is appended. Every name occurs once in the result.
pub fn load_snippet_configs(file_snippets: Vec<Vec<Snippet>>) -> (r: Vec<Snippet>)
    ensures
        r@ == merge_spec(file_snippets@.map_values(|v: Vec<Snippet>| v@).flatten()),
        unique_names(r@),
{
    let ghost all = file_snippets@.map_values(|v: Vec<Snippet>| v@).flatten();
    let mut flat: Vec<Snippet> = Vec::new();
    let mut files = file_snippets;
    while files.len() > 0
        invariant
            flat@ + files@.map_values(|v: Vec<Snippet>| v@).flatten() == all,
        decreases files@.len(),
    {
        let ghost files_pre = files@;
        let mut f = files.remove(0);
        proof {
            let fs_pre = files_pre.map_values(|v: Vec<Snippet>| v@);
            assert(files@.map_values(|v: Vec<Snippet>| v@) =~= fs_pre.drop_first());
            assert(fs_pre[0] == f@);
            assert(fs_pre.flatten() == fs_pre.first().add(fs_pre.drop_first().flatten()));
            assert(flat@ + f@ + files@.map_values(|v: Vec<Snippet>| v@).flatten() =~= flat@
                + fs_pre.flatten());
        }
        while f.len() > 0
            invariant
                flat@ + f@ + files@.map_values(|v: Vec<Snippet>| v@).flatten() == all,
            decreases f@.len(),
        {
            let ghost f_pre = f@;
            let s = f.remove(0);
            proof {
                assert(f_pre =~= seq![s] + f@);
                assert(flat@.push(s) + f@ =~= flat@ + f_pre);
                assert((flat@ + f_pre) + files@.map_values(|v: Vec<Snippet>| v@).flatten()
                    =~= flat@ + f_pre + files@.map_values(|v: Vec<Snippet>| v@).flatten());
                assert((flat@.push(s) + f@) + files@.map_values(|v: Vec<Snippet>| v@).flatten()
                    =~= flat@.push(s) + f@ + files@.map_values(|v: Vec<Snippet>| v@).flatten());
            }
            flat.push(s);
        }
        proof {
            assert(flat@ + f@ =~= flat@);
        }
    }
    proof {
        assert(flat@ + files@.map_values(|v: Vec<Snippet>| v@).flatten() =~= flat@);
    }
    let mut out: Vec<Snippet> = Vec::new();
    while flat.len() > 0
        invariant
            merge_spec(all) == merge_from(out@, flat@),
            unique_names(out@),
        decreases flat@.len(),
    {
        let s = flat.remove(0);
        let mut found: Option<usize> = None;
        let mut i: usize = 0;
        while i < out.len() && found.is_none()
            invariant
                i <= out@.len(),
                (found matches Some(fi) ==> i == fi + 1 && fi < out@.len() && out@[
                    fi as int
                ].name@ == s.name@),
                found is None ==> forall|q: int|
                    0 <= q < i ==> (#[trigger] out@[q]).name@ != s.name@,
            decreases out@.len() - i,
        {
            if str_eq(out[i].name.as_str(), s.name.as_str()) {
                found = Some(i);
            }
            i = i + 1;
        }
        match found {
            Some(fi) => {
                proof {
                    let c = choose|q: int| 0 <= q < out@.len() && (#[trigger] out@[q]).name@ == s.name@;
                    assert(out@[fi as int].name@ == s.name@);
                    if c != fi as int {
                        assert(out@[c].name@ != out@[fi as int].name@);
                        assert(false);
                    }
                    assert(merge_step(out@, s) == out@.update(fi as int, s));
                }
                out.set(fi, s);
            },
            None => {
                proof {
                    assert(!(exists|q: int|
                        0 <= q < out@.len() && (#[trigger] out@[q]).name@ == s.name@));
                    assert(merge_step(out@, s) == out@.push(s));
                }
                out.push(s);
            },
        }
    }
    proof {
        assert(merge_from(out@, flat@) == out@);
    }
    out
}

/// Projects each snippet to its `(name, command)` pair, for display.
pub fn load_snippets(configs: &Vec<Snippet>) -> (r: Vec<(String, String)>)
    ensures
        r@.len() == configs@.len(),
        forall|i: int|
            0 <= i < configs@.len() ==> (#[trigger] r@[i]).0@ == configs@[i].name@ && r@[i].1@
                == configs@[i].command@,
{
    let mut r: Vec<(String, String)> = Vec::new();
    let mut i: usize = 0;
    while i < configs.len()
        invariant
            i <= configs@.len(),
            r@.len() == i,
            forall|q: int|
                0 <= q < i ==> (#[trigger] r@[q]).0@ == configs@[q].name@ && r@[q].1@
                    == configs@[q].command@,
        decreases configs@.len() - i,
    {
        r.push((configs[i].name.clone(), configs[i].command.clone()));
        i = i + 1;
    }
    r
}

/// Picks the first snippet with the given name out of a merged list.
pub fn load_snippet_object(snippets: Vec<Snippet>, name: &str) -> (r: Result<
    Snippet,
    ResolveError,
>)
    ensures
        (r matches Ok(s) ==> exists|i: int|
            0 <= i < snippets@.len() && (#[trigger] snippets@[i]) == s && s.name@ == name@ && (
            forall|j: int| 0 <= j < i ==> snippets@[j].name@ != name@)),
        r is Err ==> r == Err::<Snippet, ResolveError>(ResolveError::SnippetNotFound) && (forall|
            i: int,
        | 0 <= i < snippets@.len() ==> (#[trigger] snippets@[i]).name@ != name@),
{
    let mut found: Option<usize> = None;
    let mut i: usize = 0;
    while i < snippets.len() && found.is_none()
        invariant
            i <= snippets@.len(),
            (found matches Some(fi) ==> fi < snippets@.len() && snippets@[fi as int].name@
                == name@ && (forall|j: int|
                0 <= j < fi ==> (#[trigger] snippets@[j]).name@ != name@)),
            found is None ==> forall|j: int|
                0 <= j < i ==> (#[trigger] snippets@[j]).name@ != name@,
        decreases
                snippets@.len() - i + (if found is None {
                    1int
                } else {
                    0int
                }),
    {
        if str_eq(snippets[i].name.as_str(), name) {
            found = Some(i);
        } else {
            i = i + 1;
        }
    }
    match found {
        Some(fi) => {
            let mut rest = snippets;
            let s = rest.remove(fi);
            Ok(s)
        },
        None => Err(ResolveError::SnippetNotFound),
    }
}

} // verus!
