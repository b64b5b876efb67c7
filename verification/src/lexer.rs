//! The configuration grammar.  A configuration is a sequence of items,
//! each surrounded by optional white space:
//!
//! - a dependency tree `name[@processor]: dep + dep + ...;`, where a
//!   dependency written `!dep` is optional;
//! - a function definition `-- name does body;`, where a body is an
//!   identifier or `$ name body`.
//!
//! An identifier is text in double or single quotes, or a run of characters
//! other than `:+ ;@$\'"`, where a backslash before one of those characters
//! keeps it in the run.

use vstd::prelude::*;

use crate::types::{
    Arg, ArgModel, Concept, ConceptModel, Expr, Function, FunctionModel, Package, PackageModel,
    concept_views,
};
use crate::text::{char_in, lemma_views_push, to_chars, views};

verus! {

// ------------------------------ specs ------------------------------ //

/// The white space skipped around items: space, tab, carriage return, line feed.
pub open spec fn is_multispace(c: char) -> bool {
    c == ' ' || c == '\t' || c == '\r' || c == '\n'
}

/// The position after the white space that starts at `i`.
pub open spec fn skip_space(s: Seq<char>, i: int) -> int
    decreases s.len() - i,
{
    if 0 <= i < s.len() && is_multispace(s[i]) {
        skip_space(s, i + 1)
    } else {
        i
    }
}

/// Where a run of `special`-free characters and escapes, scanned from `i`
/// and begun at `start`, ends: at the end of the text, or before a special
/// character other than a backslash; `None` when the run would be empty
/// before such a character, or a backslash is last or escapes a character
/// that is not special.
pub open spec fn escaped_end(s: Seq<char>, start: int, i: int, special: Seq<char>) -> Option<int>
    decreases s.len() - i,
{
    if i >= s.len() {
        Some(s.len() as int)
    } else if !special.contains(s[i]) {
        escaped_end(s, start, i + 1, special)
    } else if s[i] == '\\' {
        if i + 1 >= s.len() {
            None
        } else if special.contains(s[i + 1]) {
            escaped_end(s, start, i + 2, special)
        } else {
            None
        }
    } else if i == start {
        None
    } else {
        Some(i)
    }
}

/// The end of the escaped run that starts at `i`.
pub open spec fn parse_str_spec(s: Seq<char>, i: int, special: Seq<char>) -> Option<int> {
    escaped_end(s, i, i, special)
}

/// The characters that end an unquoted identifier.
pub open spec fn special_characters() -> Seq<char> {
    seq![':', '+', ' ', ';', '@', '$', '\\', '\'', '"']
}

/// Text between two `q` at `j`: the position after the closing quote, and
/// where the text starts and ends.
pub open spec fn quoted_spec(s: Seq<char>, j: int, q: char) -> Option<(int, int, int)> {
    if 0 <= j < s.len() && s[j] == q {
        match parse_str_spec(s, j + 1, seq![q]) {
            Some(e) => if e < s.len() && s[e] == q {
                Some((e + 1, j + 1, e))
            } else {
                None
            },
            None => None,
        }
    } else {
        None
    }
}

/// An identifier at `i`, white space around it included: the position after
/// it, and where its text starts and ends.
pub open spec fn identifier_spec(s: Seq<char>, i: int) -> Option<(int, int, int)> {
    let j = skip_space(s, i);
    let core = match quoted_spec(s, j, '"') {
        Some(r) => Some(r),
        None => match quoted_spec(s, j, '\'') {
            Some(r) => Some(r),
            None => match parse_str_spec(s, j, special_characters()) {
                Some(e) => Some((e, j, e)),
                None => None,
            },
        },
    };
    match core {
        Some((a, st, en)) => Some((skip_space(s, a), st, en)),
        None => None,
    }
}

/// A dependency at `p`: an identifier, after a `!` when the dependency is
/// optional: the position after it, where its name starts and ends, and
/// whether it is optional.  The `!` is not part of the name.
pub open spec fn dependency_item_spec(s: Seq<char>, p: int) -> Option<(int, int, int, bool)> {
    let j = skip_space(s, p);
    if 0 <= j < s.len() && s[j] == '!' {
        match identifier_spec(s, j + 1) {
            Some((a, st, en)) => Some((a, st, en, true)),
            None => None,
        }
    } else {
        match identifier_spec(s, j) {
            Some((a, st, en)) => Some((a, st, en, false)),
            None => None,
        }
    }
}

/// `opt` with `name` added when `optional`.
pub open spec fn push_if(opt: Seq<Seq<char>>, optional: bool, name: Seq<char>) -> Seq<Seq<char>> {
    if optional {
        opt.push(name)
    } else {
        opt
    }
}

/// The dependencies that follow `p` each behind a `+`, their names added to
/// `deps` and the optional ones also to `opt`; stops before a `+` that no
/// dependency follows.
pub open spec fn dependency_tail(s: Seq<char>, p: int, deps: Seq<Seq<char>>, opt: Seq<Seq<char>>) -> (int, Seq<Seq<char>>, Seq<Seq<char>>)
    decreases s.len() - p,
{
    if 0 <= p < s.len() && s[p] == '+' {
        match dependency_item_spec(s, p + 1) {
            Some((q, st, en, o)) => {
                proof {
                    lemma_dependency_item_bounds(s, p + 1);
                }
                dependency_tail(s, q, deps.push(s.subrange(st, en)), push_if(opt, o, s.subrange(st, en)))
            },
            None => (p, deps, opt),
        }
    } else {
        (p, deps, opt)
    }
}

/// One or more dependencies separated by `+`: where they end, their names,
/// and the names of the optional ones.
pub open spec fn dependency_list_spec(s: Seq<char>, i: int) -> Option<(int, Seq<Seq<char>>, Seq<Seq<char>>)> {
    match dependency_item_spec(s, i) {
        Some((p, st, en, o)) => Some(
            dependency_tail(s, p, seq![s.subrange(st, en)], push_if(Seq::empty(), o, s.subrange(st, en))),
        ),
        None => None,
    }
}

/// An optional `@processor` at `a`.
pub open spec fn processor_spec(s: Seq<char>, a: int) -> (int, Option<Seq<char>>) {
    if 0 <= a < s.len() && s[a] == '@' {
        match identifier_spec(s, a + 1) {
            Some((b, st, en)) => (b, Some(s.subrange(st, en))),
            None => (a, None),
        }
    } else {
        (a, None)
    }
}

/// A dependency tree `name[@processor]: dep + ...;` at `i`, where a
/// dependency written `!dep` is optional.
pub open spec fn dependency_tree_spec(s: Seq<char>, i: int) -> Option<(int, PackageModel)> {
    let j = skip_space(s, i);
    match identifier_spec(s, j) {
        None => None,
        Some((a, ns, ne)) => {
            let (b, processor) = processor_spec(s, a);
            if 0 <= b < s.len() && s[b] == ':' {
                match dependency_list_spec(s, b + 1) {
                    None => None,
                    Some((c, deps, opt)) => if 0 <= c < s.len() && s[c] == ';' {
                        Some(
                            (
                                skip_space(s, c + 1),
                                PackageModel { name: s.subrange(ns, ne), dependency: deps, optional: opt, processor },
                            ),
                        )
                    } else {
                        None
                    },
                }
            } else {
                None
            }
        },
    }
}

/// A function body at `i`: `$ name body`, or an identifier.
pub open spec fn expression_spec(s: Seq<char>, i: int) -> Option<(int, ArgModel)>
    decreases s.len() - i,
{
    let j = skip_space(s, i);
    let call = if 0 <= j < s.len() && s[j] == '$' {
        match identifier_spec(s, j + 1) {
            Some((a, ns, ne)) => {
                proof {
                    lemma_skip_space_bounds(s, i);
                    lemma_identifier_bounds(s, j + 1);
                }
                let name = s.subrange(ns, ne);
                match expression_spec(s, a) {
                    Some((b, arg)) => Some((b, ArgModel::Call(name, Box::new(arg)))),
                    None => match identifier_spec(s, a) {
                        Some((b, ts, te)) => Some(
                            (b, ArgModel::Call(name, Box::new(ArgModel::Text(s.subrange(ts, te))))),
                        ),
                        None => None,
                    },
                }
            },
            None => None,
        }
    } else {
        None
    };
    match call {
        Some((b, v)) => Some((skip_space(s, b), v)),
        None => match identifier_spec(s, j) {
            Some((a, ts, te)) => Some((skip_space(s, a), ArgModel::Text(s.subrange(ts, te)))),
            None => None,
        },
    }
}

/// `s` holds `t` at `a`.
pub open spec fn tag_at(s: Seq<char>, a: int, t: Seq<char>) -> bool {
    0 <= a && a + t.len() <= s.len() && s.subrange(a, a + t.len()) == t
}

/// A function definition `-- name does body;` at `i`.
pub open spec fn function_definition_spec(s: Seq<char>, i: int) -> Option<(int, FunctionModel)> {
    let j = skip_space(s, i);
    if tag_at(s, j, seq!['-', '-']) {
        match identifier_spec(s, skip_space(s, j + 2)) {
            None => None,
            Some((a, ns, ne)) => if tag_at(s, a, seq!['d', 'o', 'e', 's']) {
                match expression_spec(s, a + 4) {
                    None => None,
                    Some((b, arg)) => {
                        let c = skip_space(s, b);
                        if 0 <= c < s.len() && s[c] == ';' {
                            Some((skip_space(s, c + 1), FunctionModel { name: s.subrange(ns, ne), args: arg }))
                        } else {
                            None
                        }
                    },
                }
            } else {
                None
            },
        }
    } else {
        None
    }
}

/// The items from `p` on, added to `acc`: each a function definition, or
/// else a dependency tree; stops where neither comes (at once for a
/// position outside the text).
pub open spec fn concepts_tail(s: Seq<char>, p: int, acc: Seq<ConceptModel>) -> (int, Seq<ConceptModel>)
    decreases s.len() - p,
{
    if p < 0 || p > s.len() {
        (p, acc)
    } else {
        match function_definition_spec(s, p) {
            Some((q, f)) => {
                proof {
                    lemma_function_definition_bounds(s, p);
                }
                concepts_tail(s, q, acc.push(ConceptModel::Function(f)))
            },
            None => match dependency_tree_spec(s, p) {
                Some((q, pk)) => {
                    proof {
                        lemma_dependency_tree_bounds(s, p);
                    }
                    concepts_tail(s, q, acc.push(ConceptModel::Package(pk)))
                },
                None => (p, acc),
            },
        }
    }
}

/// A whole configuration: where the items end, white space after them
/// included, and the items.
pub open spec fn parser_prime_spec(s: Seq<char>) -> (int, Seq<ConceptModel>) {
    let (p, cs) = concepts_tail(s, skip_space(s, 0), Seq::empty());
    (skip_space(s, p), cs)
}

// ----------------------------- bounds ------------------------------ //

pub proof fn lemma_skip_space_bounds(s: Seq<char>, i: int)
    requires
        0 <= i <= s.len(),
    ensures
        i <= skip_space(s, i) <= s.len(),
        skip_space(s, skip_space(s, i)) == skip_space(s, i),
    decreases s.len() - i,
{
    if i < s.len() && is_multispace(s[i]) {
        lemma_skip_space_bounds(s, i + 1);
    }
}

pub proof fn lemma_escaped_bounds(s: Seq<char>, start: int, i: int, special: Seq<char>)
    requires
        0 <= start <= i <= s.len(),
    ensures
        escaped_end(s, start, i, special) matches Some(e) ==> i <= e <= s.len(),
    decreases s.len() - i,
{
    if i < s.len() {
        if !special.contains(s[i]) {
            lemma_escaped_bounds(s, start, i + 1, special);
        } else if s[i] == '\\' && i + 1 < s.len() && special.contains(s[i + 1]) {
            lemma_escaped_bounds(s, start, i + 2, special);
        }
    }
}

pub proof fn lemma_identifier_bounds(s: Seq<char>, i: int)
    requires
        0 <= i <= s.len(),
    ensures
        identifier_spec(s, i) matches Some((a, st, en)) ==> i <= st <= en <= a <= s.len(),
{
    let j = skip_space(s, i);
    lemma_skip_space_bounds(s, i);
    if j < s.len() {
        lemma_escaped_bounds(s, j + 1, j + 1, seq!['"']);
        lemma_escaped_bounds(s, j + 1, j + 1, seq!['\'']);
    }
    lemma_escaped_bounds(s, j, j, special_characters());
    match identifier_spec(s, i) {
        Some((a, st, en)) => {
            let a0 = if quoted_spec(s, j, '"') is Some {
                (quoted_spec(s, j, '"')->0).0
            } else if quoted_spec(s, j, '\'') is Some {
                (quoted_spec(s, j, '\'')->0).0
            } else {
                parse_str_spec(s, j, special_characters())->0
            };
            lemma_skip_space_bounds(s, a0);
        },
        None => {},
    }
}

pub proof fn lemma_dependency_item_bounds(s: Seq<char>, p: int)
    requires
        0 <= p <= s.len(),
    ensures
        dependency_item_spec(s, p) matches Some((a, st, en, _)) ==> p <= st <= en <= a <= s.len(),
{
    let j = skip_space(s, p);
    lemma_skip_space_bounds(s, p);
    lemma_identifier_bounds(s, j);
    if 0 <= j < s.len() && s[j] == '!' {
        lemma_identifier_bounds(s, j + 1);
    }
}

pub proof fn lemma_dependency_tail_bounds(s: Seq<char>, p: int, deps: Seq<Seq<char>>, opt: Seq<Seq<char>>)
    requires
        0 <= p <= s.len(),
    ensures
        p <= dependency_tail(s, p, deps, opt).0 <= s.len(),
    decreases s.len() - p,
{
    if 0 <= p < s.len() && s[p] == '+' {
        lemma_dependency_item_bounds(s, p + 1);
        match dependency_item_spec(s, p + 1) {
            Some((q, st, en, o)) => {
                lemma_dependency_tail_bounds(s, q, deps.push(s.subrange(st, en)), push_if(opt, o, s.subrange(st, en)));
            },
            None => {},
        }
    }
}

pub proof fn lemma_dependency_tree_bounds(s: Seq<char>, i: int)
    requires
        0 <= i <= s.len(),
    ensures
        dependency_tree_spec(s, i) matches Some((e, _)) ==> i < e <= s.len(),
{
    let j = skip_space(s, i);
    lemma_skip_space_bounds(s, i);
    lemma_identifier_bounds(s, j);
    match identifier_spec(s, j) {
        Some((a, ns, ne)) => {
            if 0 <= a < s.len() && s[a] == '@' {
                lemma_identifier_bounds(s, a + 1);
            }
            let (b, processor) = processor_spec(s, a);
            if 0 <= b < s.len() && s[b] == ':' {
                lemma_dependency_item_bounds(s, b + 1);
                match dependency_item_spec(s, b + 1) {
                    Some((p, st, en, o)) => {
                        let first = s.subrange(st, en);
                        lemma_dependency_tail_bounds(s, p, seq![first], push_if(Seq::empty(), o, first));
                        let c = dependency_tail(s, p, seq![first], push_if(Seq::empty(), o, first)).0;
                        if 0 <= c < s.len() && s[c] == ';' {
                            lemma_skip_space_bounds(s, c + 1);
                        }
                    },
                    None => {},
                }
            }
        },
        None => {},
    }
}

pub proof fn lemma_expression_bounds(s: Seq<char>, i: int)
    requires
        0 <= i <= s.len(),
    ensures
        expression_spec(s, i) matches Some((e, _)) ==> i <= e <= s.len(),
    decreases s.len() - i,
{
    let j = skip_space(s, i);
    lemma_skip_space_bounds(s, i);
    lemma_identifier_bounds(s, j);
    if 0 <= j < s.len() && s[j] == '$' {
        lemma_identifier_bounds(s, j + 1);
        match identifier_spec(s, j + 1) {
            Some((a, ns, ne)) => {
                lemma_expression_bounds(s, a);
                lemma_identifier_bounds(s, a);
                match expression_spec(s, a) {
                    Some((b, arg)) => {
                        lemma_skip_space_bounds(s, b);
                    },
                    None => match identifier_spec(s, a) {
                        Some((b, ts, te)) => {
                            lemma_skip_space_bounds(s, b);
                        },
                        None => {},
                    },
                }
            },
            None => {},
        }
    }
    match identifier_spec(s, j) {
        Some((a, ts, te)) => {
            lemma_skip_space_bounds(s, a);
        },
        None => {},
    }
}

pub proof fn lemma_function_definition_bounds(s: Seq<char>, i: int)
    requires
        0 <= i <= s.len(),
    ensures
        function_definition_spec(s, i) matches Some((e, _)) ==> i < e <= s.len(),
{
    let j = skip_space(s, i);
    lemma_skip_space_bounds(s, i);
    if tag_at(s, j, seq!['-', '-']) {
        let k = skip_space(s, j + 2);
        lemma_skip_space_bounds(s, j + 2);
        lemma_identifier_bounds(s, k);
        match identifier_spec(s, k) {
            Some((a, ns, ne)) => {
                if tag_at(s, a, seq!['d', 'o', 'e', 's']) {
                    lemma_expression_bounds(s, a + 4);
                    match expression_spec(s, a + 4) {
                        Some((b, arg)) => {
                            lemma_skip_space_bounds(s, b);
                            let c = skip_space(s, b);
                            if 0 <= c < s.len() && s[c] == ';' {
                                lemma_skip_space_bounds(s, c + 1);
                            }
                        },
                        None => {},
                    }
                }
            },
            None => {},
        }
    }
}

pub proof fn lemma_concepts_tail_bounds(s: Seq<char>, p: int, acc: Seq<ConceptModel>)
    requires
        0 <= p <= s.len(),
    ensures
        p <= concepts_tail(s, p, acc).0 <= s.len(),
    decreases s.len() - p,
{
    lemma_function_definition_bounds(s, p);
    lemma_dependency_tree_bounds(s, p);
    match function_definition_spec(s, p) {
        Some((q, f)) => {
            lemma_concepts_tail_bounds(s, q, acc.push(ConceptModel::Function(f)));
        },
        None => match dependency_tree_spec(s, p) {
            Some((q, pk)) => {
                lemma_concepts_tail_bounds(s, q, acc.push(ConceptModel::Package(pk)));
            },
            None => {},
        },
    }
}



// ------------------------------- laws ------------------------------- //

/// Reading dependencies does not depend on how many were read before: the
/// same ones are read, ending at the same place, and added after those
/// already there.
pub proof fn law_dependency_tail_accumulates(s: Seq<char>, p: int, deps: Seq<Seq<char>>, opt: Seq<Seq<char>>)
    requires
        0 <= p <= s.len(),
    ensures
        dependency_tail(s, p, deps, opt) == (
            dependency_tail(s, p, Seq::empty(), Seq::empty()).0,
            deps + dependency_tail(s, p, Seq::empty(), Seq::empty()).1,
            opt + dependency_tail(s, p, Seq::empty(), Seq::empty()).2,
        ),
    decreases s.len() - p,
{
    let e = Seq::<Seq<char>>::empty();
    if 0 <= p < s.len() && s[p] == '+' {
        lemma_dependency_item_bounds(s, p + 1);
        match dependency_item_spec(s, p + 1) {
            Some((q, st, en, o)) => {
                let x = s.subrange(st, en);
                law_dependency_tail_accumulates(s, q, deps.push(x), push_if(opt, o, x));
                law_dependency_tail_accumulates(s, q, seq![x], push_if(e, o, x));
                law_dependency_tail_accumulates(s, q, e, e);
                let t = dependency_tail(s, q, e, e);
                assert(deps.push(x) + t.1 =~= deps + (seq![x] + t.1));
                assert(push_if(opt, o, x) + t.2 =~= opt + (push_if(e, o, x) + t.2));
                assert(e + t.1 =~= t.1);
                assert(e + t.2 =~= t.2);
            },
            None => {
                assert(deps + e =~= deps);
                assert(opt + e =~= opt);
            },
        }
    } else {
        assert(deps + e =~= deps);
        assert(opt + e =~= opt);
    }
}

/// Reading dependencies stops only where no further `+ dependency` follows.
pub proof fn law_dependency_tail_reads_all(s: Seq<char>, p: int, deps: Seq<Seq<char>>, opt: Seq<Seq<char>>)
    requires
        0 <= p <= s.len(),
    ensures
        ({
            let end = dependency_tail(s, p, deps, opt).0;
            !(0 <= end < s.len() && s[end] == '+' && dependency_item_spec(s, end + 1) is Some)
        }),
    decreases s.len() - p,
{
    if 0 <= p < s.len() && s[p] == '+' {
        lemma_dependency_item_bounds(s, p + 1);
        match dependency_item_spec(s, p + 1) {
            Some((q, st, en, o)) => {
                law_dependency_tail_reads_all(s, q, deps.push(s.subrange(st, en)), push_if(opt, o, s.subrange(st, en)));
            },
            None => {},
        }
    }
}

// --------------------------- executable ---------------------------- //

/// Why input was not recognized; each variant names the parser that failed.
#[derive(Debug, PartialEq, Eq, Structural)]
pub enum ParseError {
    /// An escaped run (`parse_str`) did not match.
    Escaped,
    /// No identifier.
    Identifier,
    /// No dependency tree.
    DependencyTree,
    /// No function definition.
    FunctionDefinition,
    /// No function body.
    FunctionBody,
}

/// `r` is the position `s` describes.
pub open spec fn same_pos(r: Option<usize>, s: Option<int>) -> bool {
    match s {
        Some(e) => r matches Some(e2) && e2 == e,
        None => r is None,
    }
}

/// `r` holds the positions `s` describes.
pub open spec fn same_span(r: Option<(usize, usize, usize)>, s: Option<(int, int, int)>) -> bool {
    match s {
        Some((a, st, en)) => r matches Some((a2, st2, en2)) && a2 == a && st2 == st && en2 == en,
        None => r is None,
    }
}

fn is_multispace_char(c: char) -> (r: bool)
    ensures
        r == is_multispace(c),
{
    c == ' ' || c == '\t' || c == '\r' || c == '\n'
}

/// The position after the white space at `i`.
pub fn skip_multispace(text: &Vec<char>, i: usize) -> (r: usize)
    requires
        i <= text@.len(),
    ensures
        r == skip_space(text@, i as int),
{
    let mut j = i;
    while j < text.len() && is_multispace_char(text[j])
        invariant
            i <= j <= text@.len(),
            skip_space(text@, j as int) == skip_space(text@, i as int),
        decreases text.len() - j,
    {
        j = j + 1;
    }
    j
}

/// The end of the escaped run at `i`.
fn escaped_at(text: &Vec<char>, i: usize, special: &Vec<char>) -> (r: Option<usize>)
    requires
        i <= text@.len(),
    ensures
        same_pos(r, parse_str_spec(text@, i as int, special@)),
{
    let ghost s = text@;
    let mut j = i;
    while j < text.len()
        invariant
            i <= j <= text@.len(),
            s == text@,
            escaped_end(s, i as int, j as int, special@) == escaped_end(s, i as int, i as int, special@),
        decreases text.len() - j,
    {
        let c = text[j];
        if !char_in(c, special) {
            j = j + 1;
        } else if c == '\\' {
            if j + 1 >= text.len() {
                return None;
            } else if char_in(text[j + 1], special) {
                j = j + 2;
            } else {
                return None;
            }
        } else if j == i {
            return None;
        } else {
            return Some(j);
        }
    }
    Some(j)
}

fn one_char(c: char) -> (v: Vec<char>)
    ensures
        v@ == seq![c],
{
    let mut v: Vec<char> = Vec::new();
    v.push(c);
    proof {
        assert(v@ =~= seq![c]);
    }
    v
}

/// The characters that end an unquoted identifier.
fn special_chars() -> (v: Vec<char>)
    ensures
        v@ == special_characters(),
{
    let mut v: Vec<char> = Vec::new();
    v.push(':');
    v.push('+');
    v.push(' ');
    v.push(';');
    v.push('@');
    v.push('$');
    v.push('\\');
    v.push('\'');
    v.push('"');
    proof {
        assert(v@ =~= special_characters());
    }
    v
}

fn quoted_at(text: &Vec<char>, j: usize, q: char) -> (r: Option<(usize, usize, usize)>)
    requires
        j <= text@.len(),
    ensures
        same_span(r, quoted_spec(text@, j as int, q)),
{
    if j < text.len() && text[j] == q {
        let sp = one_char(q);
        proof {
            lemma_escaped_bounds(text@, j + 1, j + 1, seq![q]);
        }
        match escaped_at(text, j + 1, &sp) {
            Some(e) => {
                if e < text.len() && text[e] == q {
                    Some((e + 1, j + 1, e))
                } else {
                    None
                }
            },
            None => None,
        }
    } else {
        None
    }
}

/// An identifier at `i`: the position after it and its trailing white
/// space, and where its text starts and ends.
fn identifier_at(text: &Vec<char>, i: usize) -> (r: Option<(usize, usize, usize)>)
    requires
        i <= text@.len(),
    ensures
        same_span(r, identifier_spec(text@, i as int)),
{
    let ghost s = text@;
    let j = skip_multispace(text, i);
    proof {
        lemma_skip_space_bounds(s, i as int);
        lemma_escaped_bounds(s, j as int, j as int, special_characters());
        lemma_identifier_bounds(s, i as int);
    }
    let ghost spec_core = match quoted_spec(s, j as int, '"') {
        Some(r) => Some(r),
        None => match quoted_spec(s, j as int, '\'') {
            Some(r) => Some(r),
            None => match parse_str_spec(s, j as int, special_characters()) {
                Some(e) => Some((e, j as int, e)),
                None => None,
            },
        },
    };
    let core = match quoted_at(text, j, '"') {
        Some(r) => Some(r),
        None => match quoted_at(text, j, '\'') {
            Some(r) => Some(r),
            None => {
                let sp = special_chars();
                match escaped_at(text, j, &sp) {
                    Some(e) => Some((e, j, e)),
                    None => None,
                }
            },
        },
    };
    proof {
        if j < s.len() {
            lemma_escaped_bounds(s, j + 1, j + 1, seq!['"']);
            lemma_escaped_bounds(s, j + 1, j + 1, seq!['\'']);
        }
        assert(same_span(core, spec_core));
        assert(identifier_spec(s, i as int) == match spec_core {
            Some((a, st, en)) => Some((skip_space(s, a), st, en)),
            None => None,
        });
    }
    match core {
        Some((a, st, en)) => {
            proof {
                assert(spec_core == Some((a as int, st as int, en as int)));
                if quoted_spec(s, j as int, '"') is Some {
                    assert(a <= text@.len());
                } else if quoted_spec(s, j as int, '\'') is Some {
                    assert(a <= text@.len());
                } else {
                    assert(parse_str_spec(s, j as int, special_characters()) == Some(a as int));
                    assert(a <= text@.len());
                }
            }
            Some((skip_multispace(text, a), st, en))
        },
        None => None,
    }
}

/// Whether `text` holds `t` at `a`.
fn has_tag(text: &Vec<char>, a: usize, t: &Vec<char>) -> (r: bool)
    requires
        a <= text@.len(),
    ensures
        r == tag_at(text@, a as int, t@),
{
    if t.len() > text.len() - a {
        return false;
    }
    let mut k: usize = 0;
    while k < t.len()
        invariant
            a + t@.len() <= text@.len(),
            text@.len() == text.len(),
            0 <= k <= t@.len(),
            forall|m: int| 0 <= m < k ==> text@[a + m] == t@[m],
        decreases t.len() - k,
    {
        if text[a + k] != t[k] {
            proof {
                assert(text@.subrange(a as int, a + t@.len())[k as int] != t@[k as int]);
            }
            return false;
        }
        k = k + 1;
    }
    proof {
        assert(text@.subrange(a as int, a + t@.len()) =~= t@);
    }
    true
}

/// A dependency at `p`: the position after it, where its name starts and
/// ends, and whether it is optional.
fn dependency_item_at(text: &Vec<char>, p: usize) -> (r: Option<(usize, usize, usize, bool)>)
    requires
        p <= text@.len(),
    ensures
        match dependency_item_spec(text@, p as int) {
            Some((a, st, en, o)) => r matches Some((a2, st2, en2, o2)) && a2 == a && st2 == st && en2 == en
                && o2 == o,
            None => r is None,
        },
{
    let j = skip_multispace(text, p);
    proof {
        lemma_skip_space_bounds(text@, p as int);
    }
    if j < text.len() && text[j] == '!' {
        match identifier_at(text, j + 1) {
            Some((a, st, en)) => Some((a, st, en, true)),
            None => None,
        }
    } else {
        match identifier_at(text, j) {
            Some((a, st, en)) => Some((a, st, en, false)),
            None => None,
        }
    }
}

/// The dependencies after `start` each behind a `+`, added to `first_deps`
/// and, when optional, to `first_opt`.
fn dependency_tail_at<'a>(
    input: &'a str,
    text: &Vec<char>,
    start: usize,
    first_deps: Vec<&'a str>,
    first_opt: Vec<&'a str>,
) -> (r: (usize, Vec<&'a str>, Vec<&'a str>))
    requires
        text@ == input@,
        start <= text@.len(),
    ensures
        r.0 == dependency_tail(text@, start as int, views(first_deps@), views(first_opt@)).0,
        views(r.1@) == dependency_tail(text@, start as int, views(first_deps@), views(first_opt@)).1,
        views(r.2@) == dependency_tail(text@, start as int, views(first_deps@), views(first_opt@)).2,
{
    let ghost s = text@;
    let ghost target = dependency_tail(s, start as int, views(first_deps@), views(first_opt@));
    let mut p = start;
    let mut deps = first_deps;
    let mut opt = first_opt;
    while p < text.len() && text[p] == '+'
        invariant
            text@ == input@,
            s == text@,
            p <= text@.len(),
            target == dependency_tail(text@, start as int, views(first_deps@), views(first_opt@)),
            dependency_tail(s, p as int, views(deps@), views(opt@)) == target,
        decreases text.len() - p,
    {
        proof {
            lemma_dependency_item_bounds(s, p + 1);
        }
        match dependency_item_at(text, p + 1) {
            Some((q, st, en, optional)) => {
                let name = input.substring_char(st, en);
                let ghost before = deps@;
                let ghost before_opt = opt@;
                deps.push(name);
                if optional {
                    opt.push(name);
                    proof {
                        lemma_views_push(before_opt, name);
                    }
                }
                proof {
                    lemma_views_push(before, name);
                }
                p = q;
            },
            None => {
                return (p, deps, opt);
            },
        }
    }
    (p, deps, opt)
}

/// A dependency tree at `i`.
fn dependency_tree_at<'a>(input: &'a str, text: &Vec<char>, i: usize) -> (r: Option<(usize, Package<'a>)>)
    requires
        text@ == input@,
        i <= text@.len(),
    ensures
        match dependency_tree_spec(text@, i as int) {
            Some((e, m)) => r matches Some((e2, p)) && e2 == e && p@ == m,
            None => r is None,
        },
{
    let ghost s = text@;
    let j = skip_multispace(text, i);
    proof {
        lemma_skip_space_bounds(s, i as int);
        lemma_identifier_bounds(s, j as int);
    }
    let (a, ns, ne) = match identifier_at(text, j) {
        Some(t) => t,
        None => {
            return None;
        },
    };
    let name = input.substring_char(ns, ne);
    let mut b = a;
    let mut processor: Option<&'a str> = None;
    if a < text.len() && text[a] == '@' {
        proof {
            lemma_identifier_bounds(s, a + 1);
        }
        match identifier_at(text, a + 1) {
            Some((b2, ps, pe)) => {
                b = b2;
                processor = Some(input.substring_char(ps, pe));
            },
            None => {},
        }
    }
    proof {
        let (b0, pr0) = processor_spec(s, a as int);
        assert(b0 == b);
        assert(crate::types::option_view(processor) == pr0);
    }
    if !(b < text.len() && text[b] == ':') {
        return None;
    }
    proof {
        lemma_dependency_item_bounds(s, b + 1);
    }
    let (p, st, en, optional) = match dependency_item_at(text, b + 1) {
        Some(t) => t,
        None => {
            return None;
        },
    };
    let first = input.substring_char(st, en);
    let mut deps: Vec<&'a str> = Vec::new();
    deps.push(first);
    let mut opt: Vec<&'a str> = Vec::new();
    if optional {
        opt.push(first);
    }
    let ghost f = s.subrange(st as int, en as int);
    proof {
        assert(views(deps@) =~= seq![f]);
        assert(views(opt@) =~= push_if(Seq::empty(), optional, f));
    }
    let (c, dependency, optional_deps) = dependency_tail_at(input, text, p, deps, opt);
    proof {
        lemma_dependency_tail_bounds(s, p as int, seq![f], push_if(Seq::empty(), optional, f));
    }
    if c < text.len() && text[c] == ';' {
        let e = skip_multispace(text, c + 1);
        let package = Package { name, dependency, optional: optional_deps, processor };
        Some((e, package))
    } else {
        None
    }
}

/// A function body at `i`.
fn expression_at<'a>(input: &'a str, text: &Vec<char>, i: usize) -> (r: Option<(usize, Arg<'a>)>)
    requires
        text@ == input@,
        i <= text@.len(),
    ensures
        match expression_spec(text@, i as int) {
            Some((e, m)) => r matches Some((e2, arg)) && e2 == e && arg@ == m,
            None => r is None,
        },
    decreases text@.len() - i,
{
    let ghost s = text@;
    let j = skip_multispace(text, i);
    proof {
        lemma_skip_space_bounds(s, i as int);
        lemma_identifier_bounds(s, j as int);
    }
    if j < text.len() && text[j] == '$' {
        proof {
            lemma_identifier_bounds(s, j + 1);
        }
        match identifier_at(text, j + 1) {
            Some((a, ns, ne)) => {
                let name = input.substring_char(ns, ne);
                proof {
                    lemma_identifier_bounds(s, a as int);
                    lemma_expression_bounds(s, a as int);
                }
                let ghost arg_spec = match expression_spec(s, a as int) {
                    Some(x) => Some(x),
                    None => match identifier_spec(s, a as int) {
                        Some((b1, ts, te)) => Some((b1, ArgModel::Text(s.subrange(ts, te)))),
                        None => None,
                    },
                };
                let inner = match expression_at(input, text, a) {
                    Some(t) => Some(t),
                    None => match identifier_at(text, a) {
                        Some((b, ts, te)) => {
                            let v = input.substring_char(ts, te);
                            proof {
                                assert(Arg::String(v)@ == ArgModel::Text(s.subrange(ts as int, te as int)));
                            }
                            Some((b, Arg::String(v)))
                        },
                        None => None,
                    },
                };
                proof {
                    assert(inner matches Some((b, arg)) ==> arg_spec == Some((b as int, arg@)));
                    assert(inner is None ==> arg_spec is None);
                }
                match inner {
                    Some((b, arg)) => {
                        proof {
                            match expression_spec(s, a as int) {
                                Some((b1, _)) => {
                                    lemma_skip_space_bounds(s, b1);
                                },
                                None => {},
                            }
                        }
                        let e = skip_multispace(text, b);
                        let call = Expr::boxed_from_tuple((name, arg));
                        let result = Arg::Expr(call);
                        proof {
                            assert(result@ == ArgModel::Call(name@, Box::new(arg@)));
                        }
                        return Some((e, result));
                    },
                    None => {},
                }
            },
            None => {},
        }
    }
    match identifier_at(text, j) {
        Some((a, ts, te)) => {
            let value = input.substring_char(ts, te);
            Some((skip_multispace(text, a), Arg::String(value)))
        },
        None => None,
    }
}

/// A function definition at `i`.
fn function_definition_at<'a>(input: &'a str, text: &Vec<char>, i: usize) -> (r: Option<(usize, Function<'a>)>)
    requires
        text@ == input@,
        i <= text@.len(),
    ensures
        match function_definition_spec(text@, i as int) {
            Some((e, m)) => r matches Some((e2, f)) && e2 == e && f@ == m,
            None => r is None,
        },
{
    let ghost s = text@;
    let j = skip_multispace(text, i);
    proof {
        lemma_skip_space_bounds(s, i as int);
    }
    let mut dashes: Vec<char> = Vec::new();
    dashes.push('-');
    dashes.push('-');
    proof {
        assert(dashes@ =~= seq!['-', '-']);
    }
    if !has_tag(text, j, &dashes) {
        return None;
    }
    let n = text.len();
    proof {
        assert(seq!['-', '-'].len() == 2);
        assert(j + 2 <= n);
    }
    let k = skip_multispace(text, j + 2);
    proof {
        lemma_skip_space_bounds(s, j + 2);
        lemma_identifier_bounds(s, k as int);
    }
    let (a, ns, ne) = match identifier_at(text, k) {
        Some(t) => t,
        None => {
            return None;
        },
    };
    let mut does: Vec<char> = Vec::new();
    does.push('d');
    does.push('o');
    does.push('e');
    does.push('s');
    proof {
        assert(does@ =~= seq!['d', 'o', 'e', 's']);
    }
    if !has_tag(text, a, &does) {
        return None;
    }
    proof {
        assert(seq!['d', 'o', 'e', 's'].len() == 4);
        assert(a + 4 <= n);
    }
    proof {
        lemma_expression_bounds(s, a + 4);
    }
    let (b, arg) = match expression_at(input, text, a + 4) {
        Some(t) => t,
        None => {
            return None;
        },
    };
    let c = skip_multispace(text, b);
    proof {
        lemma_skip_space_bounds(s, b as int);
    }
    if c < text.len() && text[c] == ';' {
        let name = input.substring_char(ns, ne);
        let e = skip_multispace(text, c + 1);
        Some((e, Function::from_tuple((name, arg))))
    } else {
        None
    }
}

// ----------------------------- public ------------------------------ //

/// The escaped run at the start of `input`, over the given special
/// characters: the rest of the input and the run.
pub fn parse_str<'a>(input: &'a str, special: &str) -> (r: Result<(&'a str, &'a str), ParseError>)
    ensures
        match parse_str_spec(input@, 0, special@) {
            Some(e) => r matches Ok((rest, out)) && rest@ == input@.subrange(e, input@.len() as int)
                && out@ == input@.subrange(0, e),
            None => r == Err::<(&'a str, &'a str), ParseError>(ParseError::Escaped),
        },
{
    let text = to_chars(input);
    let sp = to_chars(special);
    proof {
        lemma_escaped_bounds(text@, 0, 0, sp@);
    }
    match escaped_at(&text, 0, &sp) {
        Some(e) => Ok((input.substring_char(e, text.len()), input.substring_char(0, e))),
        None => Err(ParseError::Escaped),
    }
}

/// An identifier at the start of `input`: the rest of the input and the
/// identifier's text.
pub fn parse_identifier<'a>(input: &'a str) -> (r: Result<(&'a str, &'a str), ParseError>)
    ensures
        match identifier_spec(input@, 0) {
            Some((a, st, en)) => r matches Ok((rest, out)) && rest@ == input@.subrange(a, input@.len() as int)
                && out@ == input@.subrange(st, en),
            None => r == Err::<(&'a str, &'a str), ParseError>(ParseError::Identifier),
        },
{
    let text = to_chars(input);
    proof {
        lemma_identifier_bounds(text@, 0);
    }
    match identifier_at(&text, 0) {
        Some((a, st, en)) => Ok((input.substring_char(a, text.len()), input.substring_char(st, en))),
        None => Err(ParseError::Identifier),
    }
}

/// A dependency tree at the start of `input`: the rest of the input and the package.
pub fn parse_dependency_tree<'a>(input: &'a str) -> (r: Result<(&'a str, Package<'a>), ParseError>)
    ensures
        match dependency_tree_spec(input@, 0) {
            Some((e, m)) => r matches Ok((rest, p)) && rest@ == input@.subrange(e, input@.len() as int)
                && p@ == m,
            None => r is Err && r->Err_0 == ParseError::DependencyTree,
        },
{
    let text = to_chars(input);
    proof {
        lemma_dependency_tree_bounds(text@, 0);
    }
    match dependency_tree_at(input, &text, 0) {
        Some((e, p)) => Ok((input.substring_char(e, text.len()), p)),
        None => Err(ParseError::DependencyTree),
    }
}

/// A function body at the start of `input`: the rest of the input and the body.
pub fn parse_function_expression<'a>(input: &'a str) -> (r: Result<(&'a str, Arg<'a>), ParseError>)
    ensures
        match expression_spec(input@, 0) {
            Some((e, m)) => r matches Ok((rest, arg)) && rest@ == input@.subrange(e, input@.len() as int)
                && arg@ == m,
            None => r is Err && r->Err_0 == ParseError::FunctionBody,
        },
{
    let text = to_chars(input);
    proof {
        lemma_expression_bounds(text@, 0);
    }
    match expression_at(input, &text, 0) {
        Some((e, arg)) => Ok((input.substring_char(e, text.len()), arg)),
        None => Err(ParseError::FunctionBody),
    }
}

/// A function definition at the start of `input`: the rest of the input and the function.
pub fn parse_function_definition<'a>(input: &'a str) -> (r: Result<(&'a str, Function<'a>), ParseError>)
    ensures
        match function_definition_spec(input@, 0) {
            Some((e, m)) => r matches Ok((rest, f)) && rest@ == input@.subrange(e, input@.len() as int)
                && f@ == m,
            None => r is Err && r->Err_0 == ParseError::FunctionDefinition,
        },
{
    let text = to_chars(input);
    proof {
        lemma_function_definition_bounds(text@, 0);
    }
    match function_definition_at(input, &text, 0) {
        Some((e, f)) => Ok((input.substring_char(e, text.len()), f)),
        None => Err(ParseError::FunctionDefinition),
    }
}

/// A whole configuration: the input after the last item recognized (and
/// the white space after it), and the items in order.  Each item is a
/// function definition or, failing that, a dependency tree; reading stops
/// at the first place where neither comes.
pub fn parser_prime<'a>(input: &'a str) -> (r: (&'a str, Vec<Concept<'a>>))
    ensures
        r.0@ == input@.subrange(parser_prime_spec(input@).0, input@.len() as int),
        concept_views(r.1@) == parser_prime_spec(input@).1,
{
    let text = to_chars(input);
    let ghost s = text@;
    let mut p = skip_multispace(&text, 0);
    proof {
        lemma_skip_space_bounds(s, 0);
    }
    let mut items: Vec<Concept<'a>> = Vec::new();
    let ghost target = concepts_tail(s, p as int, Seq::empty());
    proof {
        assert(concept_views(items@) =~= Seq::<ConceptModel>::empty());
    }
    loop
        invariant
            s == text@,
            text@ == input@,
            p <= text@.len(),
            concepts_tail(s, p as int, concept_views(items@)) == target,
        ensures
            p <= text@.len(),
            target == (p as int, concept_views(items@)),
        decreases text@.len() - p,
    {
        proof {
            lemma_function_definition_bounds(s, p as int);
            lemma_dependency_tree_bounds(s, p as int);
        }
        match function_definition_at(input, &text, p) {
            Some((q, f)) => {
                let ghost before = items@;
                items.push(Concept::from(f));
                proof {
                    assert(concept_views(items@) =~= concept_views(before).push(ConceptModel::Function(f@)));
                }
                p = q;
            },
            None => match dependency_tree_at(input, &text, p) {
                Some((q, pk)) => {
                    let ghost before = items@;
                    items.push(Concept::from(pk));
                    proof {
                        assert(concept_views(items@) =~= concept_views(before).push(ConceptModel::Package(pk@)));
                    }
                    p = q;
                },
                None => {
                    break;
                },
            },
        }
    }
    proof {
        lemma_concepts_tail_bounds(s, skip_space(s, 0), Seq::empty());
        lemma_skip_space_bounds(s, p as int);
    }
    let e = skip_multispace(&text, p);
    (input.substring_char(e, text.len()), items)
}

} // verus!
