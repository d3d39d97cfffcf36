//! The placeholder grammar: scanning a template for `[[...]]` tokens and
//! parsing a token's content into a [`Placeholder`].
//!
//! A token starts at `[[` and runs to the first following `]]`; an unmatched
//! `[[` opens no token. The token content is split on whitespace into parts —
//! except that a part beginning `from:"` runs through its closing quote, so a
//! quoted lookup command keeps its spaces — read left to right with
//! first-match-wins semantics:
//! - a part containing `=`, while no name is set, becomes `name=default`
//!   (split at the first `=`);
//! - a part prefixed `from:` sets the lookup command, with surrounding double
//!   quotes stripped;
//! - a part prefixed `select:` or `order:` parses the rest as a non-negative
//!   integer; a value that does not parse leaves the field unset;
//! - any other part, while no name is set, becomes the name.

use vstd::prelude::*;
use vstd::string::StrSliceExecFns;
use crate::model::{Placeholder, PlaceholderView};
use crate::text::{
    first_eq, is_space, is_space_char, parse_usize, spec_parse_usize, starts_with, str_eq,
    str_has_prefix, word_end,
};

verus! {

/// Position of the first `]]` pair at or after `i`.
pub open spec fn find_close(t: Seq<char>, i: int) -> Option<int>
    decreases t.len() - i,
{
    if i < 0 || i + 1 >= t.len() {
        None
    } else if t[i] == ']' && t[i + 1] == ']' {
        Some(i)
    } else {
        find_close(t, i + 1)
    }
}

pub proof fn lemma_find_close(t: Seq<char>, i: int)
    requires
        0 <= i,
    ensures
        match find_close(t, i) {
            Some(j) => i <= j && j + 1 < t.len() && t[j] == ']' && t[j + 1] == ']' && (forall|
                k: int,
            |
                i <= k < j ==> !((#[trigger] t[k]) == ']' && t[k + 1] == ']')),
            None => forall|k: int|
                i <= k && k + 1 < t.len() ==> !((#[trigger] t[k]) == ']' && t[k + 1] == ']'),
        },
    decreases t.len() - i,
{
    if i + 1 >= t.len() {
    } else if t[i] == ']' && t[i + 1] == ']' {
    } else {
        lemma_find_close(t, i + 1);
    }
}

pub proof fn lemma_find_close_none_later(t: Seq<char>, i: int, j: int)
    requires
        0 <= i <= j,
        find_close(t, i) is None,
    ensures
        find_close(t, j) is None,
{
    lemma_find_close(t, i);
    lemma_find_close(t, j);
    match find_close(t, j) {
        Some(k) => {
            assert(!(t[k] == ']' && t[k + 1] == ']'));
            assert(false);
        },
        None => {},
    }
}

/// Whether a complete token `[[ ... ]]` begins at position `i`.
pub open spec fn is_token_start(t: Seq<char>, i: int) -> bool {
    &&& 0 <= i && i + 1 < t.len()
    &&& t[i] == '[' && t[i + 1] == '['
    &&& find_close(t, i + 2) is Some
}

/// A template with no complete placeholder token.
pub open spec fn token_free(t: Seq<char>) -> bool {
    forall|i: int| !is_token_start(t, i)
}

/// The closing position of the token that starts at `i`.
pub open spec fn close_of(t: Seq<char>, i: int) -> int {
    match find_close(t, i + 2) {
        Some(j) => j,
        None => i + 2,
    }
}

// --- token content ---

pub open spec fn from_prefix() -> Seq<char> {
    seq!['f', 'r', 'o', 'm', ':']
}

pub open spec fn select_prefix() -> Seq<char> {
    seq!['s', 'e', 'l', 'e', 'c', 't', ':']
}

pub open spec fn order_prefix() -> Seq<char> {
    seq!['o', 'r', 'd', 'e', 'r', ':']
}

/// First position at or after `i` that holds no double quote.
pub open spec fn first_nonquote(p: Seq<char>, i: int) -> int
    decreases p.len() - i,
{
    if i < 0 || i >= p.len() {
        i
    } else if p[i] == '"' {
        first_nonquote(p, i + 1)
    } else {
        i
    }
}

/// Position after the last character at a position below `j` that holds no
/// double quote.
pub open spec fn end_nonquote(p: Seq<char>, j: int) -> int
    decreases j,
{
    if j <= 0 {
        0
    } else if p[j - 1] == '"' {
        end_nonquote(p, j - 1)
    } else {
        j
    }
}

/// `p` with all leading and trailing double quotes removed.
pub open spec fn trim_quotes(p: Seq<char>) -> Seq<char> {
    if first_nonquote(p, 0) >= end_nonquote(p, p.len() as int) {
        Seq::empty()
    } else {
        p.subrange(first_nonquote(p, 0), end_nonquote(p, p.len() as int))
    }
}

/// Position of the first double quote at or after `i`, if any.
pub open spec fn first_quote(p: Seq<char>, i: int) -> Option<int>
    decreases p.len() - i,
{
    if i < 0 || i >= p.len() {
        None
    } else if p[i] == '"' {
        Some(i)
    } else {
        first_quote(p, i + 1)
    }
}

pub proof fn lemma_first_quote(p: Seq<char>, i: int)
    requires
        0 <= i,
    ensures
        match first_quote(p, i) {
            Some(j) => i <= j < p.len() && p[j] == '"',
            None => forall|k: int| i <= k < p.len() ==> (#[trigger] p[k]) != '"',
        },
    decreases p.len() - i,
{
    if 0 <= i && i < p.len() && p[i] != '"' {
        lemma_first_quote(p, i + 1);
    }
}

/// Whether a quoted lookup part begins at `i`: `from:` followed at once by a
/// double quote.
pub open spec fn quoted_from_at(s: Seq<char>, i: int) -> bool {
    0 <= i && i + 5 < s.len() && s.subrange(i, i + 5) == from_prefix() && s[i + 5] == '"'
}

/// Where the part that starts at `i` ends: a quoted `from:"..."` part runs
/// through its closing quote, whitespace included — the one pair of balanced
/// quotes the grammar admits — and any other part runs to the next
/// whitespace.
pub open spec fn part_end(s: Seq<char>, i: int) -> int {
    if quoted_from_at(s, i) {
        match first_quote(s, i + 6) {
            Some(q) => q + 1,
            None => s.len() as int,
        }
    } else {
        word_end(s, i)
    }
}

/// The parts of a token's content, scanning from position `i`: whitespace
/// separated, except that a `from:"..."` part keeps its quoted span whole.
pub open spec fn split_parts_from(s: Seq<char>, i: int) -> Seq<Seq<char>>
    decreases s.len() - i,
    via split_parts_from_dec
{
    if i < 0 || i >= s.len() {
        Seq::empty()
    } else if is_space(s[i]) {
        split_parts_from(s, i + 1)
    } else {
        seq![s.subrange(i, part_end(s, i))] + split_parts_from(s, part_end(s, i))
    }
}

#[via_fn]
proof fn split_parts_from_dec(s: Seq<char>, i: int) {
    if 0 <= i && i < s.len() && !is_space(s[i]) {
        lemma_part_end(s, i);
    }
}

pub proof fn lemma_part_end(s: Seq<char>, i: int)
    requires
        0 <= i < s.len(),
        !is_space(s[i]),
    ensures
        i + 1 <= part_end(s, i) <= s.len(),
{
    if quoted_from_at(s, i) {
        lemma_first_quote(s, i + 6);
    } else {
        crate::text::lemma_word_end(s, i);
        assert(word_end(s, i) == word_end(s, i + 1));
        crate::text::lemma_word_end(s, i + 1);
    }
}

/// The parts of a token's content.
pub open spec fn split_parts(s: Seq<char>) -> Seq<Seq<char>> {
    split_parts_from(s, 0)
}

/// Splits a token's content into parts, keeping a quoted `from:"..."` span
/// whole.
pub fn split_parts_str(s: &str) -> (r: Vec<String>)
    ensures
        r@.map_values(|w: String| w@) == split_parts(s@),
{
    let n: usize = s.unicode_len();
    let mut out: Vec<String> = Vec::new();
    let mut i: usize = 0;
    while i < n
        invariant
            n == s@.len(),
            i <= n,
            split_parts(s@) == out@.map_values(|w: String| w@) + split_parts_from(s@, i as int),
        decreases n - i,
    {
        if is_space_char(s.get_char(i)) {
            i = i + 1;
        } else {
            let quoted = n - i > 5 && str_eq(s.substring_char(i, i + 5), "from:") && s.get_char(
                i + 5,
            ) == '"';
            proof {
                reveal_strlit("from:");
                assert("from:"@ =~= from_prefix());
                assert(quoted == quoted_from_at(s@, i as int));
            }
            let j: usize;
            if quoted {
                let mut q: usize = i + 6;
                while q < n && s.get_char(q) != '"'
                    invariant
                        n == s@.len(),
                        i + 6 <= q <= n,
                        first_quote(s@, i as int + 6) == first_quote(s@, q as int),
                    decreases n - q,
                {
                    q = q + 1;
                }
                if q < n {
                    j = q + 1;
                } else {
                    j = n;
                }
                assert(part_end(s@, i as int) == j as int);
            } else {
                let mut k: usize = i + 1;
                while k < n && !is_space_char(s.get_char(k))
                    invariant
                        n == s@.len(),
                        i < k <= n,
                        word_end(s@, i as int) == word_end(s@, k as int),
                    decreases n - k,
                {
                    k = k + 1;
                }
                assert(word_end(s@, k as int) == k as int);
                j = k;
            }
            let w: String = s.substring_char(i, j).to_owned();
            proof {
                let ghost old_parts = out@.map_values(|x: String| x@);
                assert(out@.push(w).map_values(|x: String| x@) =~= old_parts.push(w@));
                assert(seq![s@.subrange(i as int, j as int)] + split_parts_from(s@, j as int)
                    == split_parts_from(s@, i as int));
                assert(old_parts.push(w@) + split_parts_from(s@, j as int) =~= old_parts + (seq![
                    w@,
                ] + split_parts_from(s@, j as int)));
            }
            out.push(w);
            i = j;
        }
    }
    out
}

/// A placeholder with nothing set yet.
pub open spec fn empty_placeholder() -> PlaceholderView {
    PlaceholderView { name: Seq::empty(), default: None, from: None, select: None, order: None }
}

/// Position of the first `=` in `part`, or `-1`.
pub open spec fn eq_pos(part: Seq<char>) -> int {
    match first_eq(part, 0) {
        Some(k) => k,
        None => -1,
    }
}

/// Reads one whitespace-separated part of a token's content into the
/// placeholder state, first match wins.
pub open spec fn apply_part(st: PlaceholderView, part: Seq<char>) -> PlaceholderView {
    if st.name.len() == 0 && first_eq(part, 0) is Some {
        PlaceholderView {
            name: part.subrange(0, eq_pos(part)),
            default: Some(part.subrange(eq_pos(part) + 1, part.len() as int)),
            from: st.from,
            select: st.select,
            order: st.order,
        }
    } else if starts_with(part, from_prefix()) {
        PlaceholderView {
            name: st.name,
            default: st.default,
            from: Some(trim_quotes(part.subrange(5, part.len() as int))),
            select: st.select,
            order: st.order,
        }
    } else if starts_with(part, select_prefix()) {
        PlaceholderView {
            name: st.name,
            default: st.default,
            from: st.from,
            select: spec_parse_usize(part.subrange(7, part.len() as int)),
            order: st.order,
        }
    } else if starts_with(part, order_prefix()) {
        PlaceholderView {
            name: st.name,
            default: st.default,
            from: st.from,
            select: st.select,
            order: spec_parse_usize(part.subrange(6, part.len() as int)),
        }
    } else if st.name.len() == 0 {
        PlaceholderView {
            name: part,
            default: st.default,
            from: st.from,
            select: st.select,
            order: st.order,
        }
    } else {
        st
    }
}

/// Folds [`apply_part`] over a sequence of parts.
pub open spec fn parse_parts(parts: Seq<Seq<char>>, st: PlaceholderView) -> PlaceholderView
    decreases parts.len(),
{
    if parts.len() == 0 {
        st
    } else {
        parse_parts(parts.drop_first(), apply_part(st, parts[0]))
    }
}

/// What parsing a token's content yields.
pub open spec fn spec_parse_content(content: Seq<char>) -> PlaceholderView {
    parse_parts(split_parts(content), empty_placeholder())
}

/// The placeholders of the tokens of `t`, scanning from position `i`.
pub open spec fn spec_placeholders_from(t: Seq<char>, i: int) -> Seq<PlaceholderView>
    decreases t.len() - i,
    via spec_placeholders_from_dec
{
    if i < 0 || i >= t.len() {
        Seq::empty()
    } else if is_token_start(t, i) {
        seq![spec_parse_content(t.subrange(i + 2, close_of(t, i)))] + spec_placeholders_from(
            t,
            close_of(t, i) + 2,
        )
    } else {
        spec_placeholders_from(t, i + 1)
    }
}

#[via_fn]
proof fn spec_placeholders_from_dec(t: Seq<char>, i: int) {
    if 0 <= i && i < t.len() && is_token_start(t, i) {
        lemma_find_close(t, i + 2);
    }
}

/// Scanning over a token-free stretch finds the same placeholders.
pub proof fn lemma_placeholders_skip(t: Seq<char>, i: int, k: int)
    requires
        0 <= i <= k <= t.len(),
        forall|p: int| i <= p < k ==> !is_token_start(t, p),
    ensures
        spec_placeholders_from(t, i) == spec_placeholders_from(t, k),
    decreases k - i,
{
    if i < k {
        assert(!is_token_start(t, i));
        lemma_placeholders_skip(t, i + 1, k);
    }
}

// --- executable scanning ---

/// Finds the first `]]` pair at or after `k`.
pub fn find_close_str(t: &str, k: usize) -> (r: Option<usize>)
    ensures
        (r matches Some(j) ==> find_close(t@, k as int) == Some(j as int)),
        r is None ==> find_close(t@, k as int) is None,
{
    let n: usize = t.unicode_len();
    if n == 0 {
        return None;
    }
    let mut j: usize = k;
    while j < n - 1
        invariant
            n == t@.len(),
            n >= 1,
            k <= j,
            find_close(t@, k as int) == find_close(t@, j as int),
        decreases n - j,
    {
        if t.get_char(j) == ']' && t.get_char(j + 1) == ']' {
            return Some(j);
        }
        j = j + 1;
    }
    None
}

/// Finds the next complete token at or after `i`: its start and its closing
/// position.
pub fn next_token(t: &str, i: usize) -> (r: Option<(usize, usize)>)
    ensures
        (r matches Some(sc) ==> {
            &&& i <= sc.0 && is_token_start(t@, sc.0 as int)
            &&& find_close(t@, sc.0 as int + 2) == Some(sc.1 as int)
            &&& forall|p: int| i <= p < sc.0 ==> !is_token_start(t@, p)
        }),
        r is None ==> forall|p: int| i <= p ==> !is_token_start(t@, p),
{
    let n: usize = t.unicode_len();
    let mut j: usize = i;
    while j < n
        invariant
            n == t@.len(),
            i <= j,
            forall|p: int| i <= p < j ==> !is_token_start(t@, p),
        decreases n - j,
    {
        if t.get_char(j) == '[' && j + 1 < n && t.get_char(j + 1) == '[' {
            match find_close_str(t, j + 2) {
                Some(c) => {
                    return Some((j, c));
                },
                None => {
                    proof {
                        assert forall|p: int| i <= p implies !is_token_start(t@, p) by {
                            if p >= j && is_token_start(t@, p) {
                                lemma_find_close_none_later(t@, j as int + 2, p + 2);
                            }
                        }
                    }
                    return None;
                },
            }
        }
        assert(!is_token_start(t@, j as int));
        j = j + 1;
    }
    assert forall|p: int| i <= p implies !is_token_start(t@, p) by {
        if p + 1 < t@.len() {
            assert(!is_token_start(t@, p));
        }
    }
    None
}

/// Strips all leading and trailing double quotes.
fn trim_quotes_str(s: &str) -> (r: String)
    ensures
        r@ == trim_quotes(s@),
{
    let n: usize = s.unicode_len();
    let mut a: usize = 0;
    while a < n && s.get_char(a) == '"'
        invariant
            n == s@.len(),
            a <= n,
            first_nonquote(s@, 0) == first_nonquote(s@, a as int),
        decreases n - a,
    {
        a = a + 1;
    }
    let mut b: usize = n;
    while b > 0 && s.get_char(b - 1) == '"'
        invariant
            n == s@.len(),
            b <= n,
            end_nonquote(s@, n as int) == end_nonquote(s@, b as int),
        decreases b,
    {
        b = b - 1;
    }
    if a >= b {
        String::new()
    } else {
        s.substring_char(a, b).to_owned()
    }
}

/// Finds the first `=` in `s`.
fn find_eq_str(s: &str) -> (r: Option<usize>)
    ensures
        (r matches Some(j) ==> first_eq(s@, 0) == Some(j as int)),
        r is None ==> first_eq(s@, 0) is None,
{
    let n: usize = s.unicode_len();
    let mut j: usize = 0;
    while j < n
        invariant
            n == s@.len(),
            j <= n,
            first_eq(s@, 0) == first_eq(s@, j as int),
        decreases n - j,
    {
        if s.get_char(j) == '=' {
            return Some(j);
        }
        j = j + 1;
    }
    None
}

/// Parses one token's content into a [`Placeholder`].
pub fn parse_placeholder(content: &str) -> (p: Placeholder)
    ensures
        p@ == spec_parse_content(content@),
{
    let parts: Vec<String> = split_parts_str(content);
    let ghost parts_seq = split_parts(content@);
    let mut name: String = String::new();
    let mut default: Option<String> = None;
    let mut from: Option<String> = None;
    let mut select: Option<usize> = None;
    let mut order: Option<usize> = None;
    let mut k: usize = 0;
    proof {
        assert(parts_seq.skip(0) =~= parts_seq);
        assert((PlaceholderView {
            name: name@,
            default: crate::model::opt_view(default),
            from: crate::model::opt_view(from),
            select: select,
            order: order,
        }) == empty_placeholder());
    }
    while k < parts.len()
        invariant
            parts@.map_values(|w: String| w@) == parts_seq,
            k <= parts@.len(),
            spec_parse_content(content@) == parse_parts(
                parts_seq.skip(k as int),
                (PlaceholderView {
                    name: name@,
                    default: crate::model::opt_view(default),
                    from: crate::model::opt_view(from),
                    select: select,
                    order: order,
                }),
            ),
        decreases parts@.len() - k,
    {
        let ghost st = PlaceholderView {
            name: name@,
            default: crate::model::opt_view(default),
            from: crate::model::opt_view(from),
            select: select,
            order: order,
        };
        let part: &String = &parts[k];
        proof {
            assert(parts_seq[k as int] == part@);
            assert(parts_seq.skip(k as int).drop_first() =~= parts_seq.skip(k as int + 1));
            assert(parts_seq.skip(k as int)[0] == parts_seq[k as int]);
        }
        let np: usize = part.as_str().unicode_len();
        let eq = find_eq_str(part.as_str());
        let name_is_empty = name.as_str().unicode_len() == 0;
        proof {
            reveal_strlit("from:");
            reveal_strlit("select:");
            reveal_strlit("order:");
            assert("from:"@ =~= from_prefix());
            assert("select:"@ =~= select_prefix());
            assert("order:"@ =~= order_prefix());
            crate::text::lemma_first_eq(part@, 0);
        }
        if name_is_empty && eq.is_some() {
            let e = eq.unwrap();
            name = part.as_str().substring_char(0, e).to_owned();
            default = Some(part.as_str().substring_char(e + 1, np).to_owned());
        } else if str_has_prefix(part.as_str(), "from:") {
            from = Some(trim_quotes_str(part.as_str().substring_char(5, np)));
        } else if str_has_prefix(part.as_str(), "select:") {
            select = parse_usize(part.as_str().substring_char(7, np));
        } else if str_has_prefix(part.as_str(), "order:") {
            order = parse_usize(part.as_str().substring_char(6, np));
        } else if name_is_empty {
            name = part.clone();
        }
        proof {
            assert(PlaceholderView {
                name: name@,
                default: crate::model::opt_view(default),
                from: crate::model::opt_view(from),
                select: select,
                order: order,
            } == apply_part(st, parts_seq[k as int]));
        }
        k = k + 1;
    }
    proof {
        assert(parts_seq.skip(parts_seq.len() as int) =~= Seq::<Seq<char>>::empty());
    }
    Placeholder { name, default, from, select, order }
}

/// Scans a template and parses every complete `[[...]]` token, left to right.
pub fn parse_placeholders(command: &str) -> (r: Vec<Placeholder>)
    ensures
        r@.map_values(|p: Placeholder| p@) == spec_placeholders_from(command@, 0),
{
    let n: usize = command.unicode_len();
    let mut out: Vec<Placeholder> = Vec::new();
    let mut i: usize = 0;
    loop
        invariant_except_break
            n == command@.len(),
            i <= n,
            spec_placeholders_from(command@, 0) == out@.map_values(|p: Placeholder| p@)
                + spec_placeholders_from(command@, i as int),
        ensures
            out@.map_values(|p: Placeholder| p@) == spec_placeholders_from(command@, 0),
        decreases n - i,
    {
        match next_token(command, i) {
            Some((st, cl)) => {
                proof {
                    lemma_find_close(command@, st as int + 2);
                    lemma_placeholders_skip(command@, i as int, st as int);
                }
                let content = command.substring_char(st + 2, cl);
                let ph = parse_placeholder(content);
                proof {
                    let ghost f = |p: Placeholder| p@;
                    assert(out@.push(ph).map_values(f) =~= out@.map_values(f).push(ph@));
                    assert(spec_placeholders_from(command@, st as int) == seq![
                        spec_parse_content(command@.subrange(st as int + 2, cl as int)),
                    ] + spec_placeholders_from(command@, cl as int + 2));
                    assert(out@.map_values(f).push(ph@) + spec_placeholders_from(
                        command@,
                        cl as int + 2,
                    ) =~= out@.map_values(f) + (seq![ph@] + spec_placeholders_from(
                        command@,
                        cl as int + 2,
                    )));
                }
                out.push(ph);
                i = cl + 2;
            },
            None => {
                proof {
                    lemma_placeholders_skip(command@, i as int, n as int);
                    assert(out@.map_values(|p: Placeholder| p@) + spec_placeholders_from(
                        command@,
                        n as int,
                    ) =~= out@.map_values(|p: Placeholder| p@));
                }
                break ;
            },
        }
    }
    out
}

} // verus!
