//! The condition expression language: grammar, syntax tree and evaluation.
//!
//! A condition is one base term followed by `and`/`or` suffix terms, folded
//! strictly left to right (no operator precedence).  Terms are parenthesized
//! groups, `!` negations, `==`/`!=` comparisons of string operands, the
//! `exists(...)` and `HasTrailingSlash(...)` predicates, and quoted or bare
//! string literals.  A bare string used as a truth value is true iff it is
//! non-empty.
//!
//! `exists(...)` asks about the filesystem, which the library never touches:
//! the caller supplies the answers as a map from path to existence; a path
//! with no supplied answer counts as absent.

use vstd::prelude::*;

use crate::paths::{has_trailing_slash, spec_has_trailing_slash};
use crate::table::BoolMap;
use crate::text::{is_space, space, str_eq};

verus! {

broadcast use vstd::std_specs::vec::group_vec_axioms;
// ---------------------------------------------------------------------------
// Syntax trees
// ---------------------------------------------------------------------------
/// The specification-level syntax tree of a condition expression.
pub enum TermV {
    /// A quoted or bare string literal.
    Str(Seq<char>),
    /// A base term followed by `And`/`Or` suffix terms, in source order.
    Exprs(Seq<TermV>),
    /// `exists(path)`.
    Exists(Seq<char>),
    /// `HasTrailingSlash(s)`.
    FinalSlash(Seq<char>),
    /// `a == b`.
    Eq(Seq<char>, Seq<char>),
    /// `a != b`.
    Ne(Seq<char>, Seq<char>),
    /// `!term`.
    Not(Box<TermV>),
    /// An `and term` suffix.
    And(Box<TermV>),
    /// An `or term` suffix.
    Or(Box<TermV>),
}

/// The executable syntax tree, one variant per node kind of the grammar.
pub enum Term {
    Str(String),
    Exprs(Vec<Term>),
    Exists(String),
    FinalSlash(String),
    Eq(String, String),
    Ne(String, String),
    Not(Box<Term>),
    And(Box<Term>),
    Or(Box<Term>),
}

/// The abstraction of an executable tree.
pub open spec fn term_view(t: Term) -> TermV
    decreases t, 0int,
{
    match t {
        Term::Str(s) => TermV::Str(s@),
        Term::Exprs(v) => TermV::Exprs(terms_view(v@, 0)),
        Term::Exists(s) => TermV::Exists(s@),
        Term::FinalSlash(s) => TermV::FinalSlash(s@),
        Term::Eq(a, b) => TermV::Eq(a@, b@),
        Term::Ne(a, b) => TermV::Ne(a@, b@),
        Term::Not(t2) => TermV::Not(Box::new(term_view(*t2))),
        Term::And(t2) => TermV::And(Box::new(term_view(*t2))),
        Term::Or(t2) => TermV::Or(Box::new(term_view(*t2))),
    }
}

/// The abstractions of the trees `s[i..]`.
pub open spec fn terms_view(s: Seq<Term>, i: int) -> Seq<TermV>
    decreases s, s.len() - i,
{
    if i < 0 || i >= s.len() {
        Seq::empty()
    } else {
        seq![term_view(s[i])] + terms_view(s, i + 1)
    }
}

impl View for Term {
    type V = TermV;

    open spec fn view(&self) -> TermV {
        term_view(*self)
    }
}

/// The number of nodes in a tree; a strictly positive measure used only to
/// show that evaluation terminates.
pub open spec fn term_size(t: Term) -> nat
    decreases t, 0int,
{
    match t {
        Term::Exprs(v) => 1 + terms_size(v@, 0),
        Term::Not(t2) => 1 + term_size(*t2),
        Term::And(t2) => 1 + term_size(*t2),
        Term::Or(t2) => 1 + term_size(*t2),
        _ => 1,
    }
}

/// The number of nodes in the trees `s[i..]`.
pub open spec fn terms_size(s: Seq<Term>, i: int) -> nat
    decreases s, s.len() - i,
{
    if i < 0 || i >= s.len() {
        0
    } else {
        term_size(s[i]) + terms_size(s, i + 1)
    }
}

/// Each tree in a sequence counts no more than the whole sequence.
proof fn lemma_terms_size_ge(s: Seq<Term>, i: int, j: int)
    requires
        0 <= i <= j < s.len(),
    ensures
        terms_size(s, i) >= term_size(s[j]),
    decreases j - i,
{
    if i < j {
        lemma_terms_size_ge(s, i + 1, j);
    }
}

/// The condition string does not match the grammar.
#[derive(Debug, Clone, PartialEq, Eq)]
pub struct ParseError;

// ---------------------------------------------------------------------------
// Lexical helpers
// ---------------------------------------------------------------------------
/// The keyword `and`.
pub open spec fn kw_and() -> Seq<char> {
    seq!['a', 'n', 'd']
}

/// The keyword `or`.
pub open spec fn kw_or() -> Seq<char> {
    seq!['o', 'r']
}

/// The keyword `exists`.
pub open spec fn kw_exists() -> Seq<char> {
    seq!['e', 'x', 'i', 's', 't', 's']
}

/// The keyword `HasTrailingSlash`.
pub open spec fn kw_final_slash() -> Seq<char> {
    seq!['H', 'a', 's', 'T', 'r', 'a', 'i', 'l', 'i', 'n', 'g', 'S', 'l', 'a', 's', 'h']
}

/// The token `==`.
pub open spec fn kw_eq() -> Seq<char> {
    seq!['=', '=']
}

/// The token `!=`.
pub open spec fn kw_ne() -> Seq<char> {
    seq!['!', '=']
}

/// A character that may stand in a bare (unquoted) string.
pub open spec fn is_bare_char(c: char) -> bool {
    !is_space(c) && c != '\'' && c != '(' && c != ')' && c != '!' && c != '='
}

/// Executable test for `is_bare_char`.
#[verifier::when_used_as_spec(is_bare_char)]
pub fn bare_char(c: char) -> (r: bool)
    ensures
        r == is_bare_char(c),
{
    !space(c) && c != '\'' && c != '(' && c != ')' && c != '!' && c != '='
}

/// `s` without its leading whitespace.
pub open spec fn spec_skip_ws(s: Seq<char>) -> Seq<char>
    decreases s.len(),
{
    if s.len() > 0 && is_space(s[0]) {
        spec_skip_ws(s.drop_first())
    } else {
        s
    }
}

/// `p` is a prefix of `s`.
pub open spec fn has_prefix(s: Seq<char>, p: Seq<char>) -> bool {
    p.len() <= s.len() && s.subrange(0, p.len() as int) == p
}

/// The length of the maximal prefix of bare-string characters.
pub open spec fn bare_len(s: Seq<char>) -> int
    decreases s.len(),
{
    if s.len() > 0 && is_bare_char(s[0]) {
        1 + bare_len(s.drop_first())
    } else {
        0
    }
}

/// The length of the maximal prefix without a single quote.
pub open spec fn non_quote_len(s: Seq<char>) -> int
    decreases s.len(),
{
    if s.len() > 0 && s[0] != '\'' {
        1 + non_quote_len(s.drop_first())
    } else {
        0
    }
}

// ---------------------------------------------------------------------------
// The grammar, as one deterministic recursive descent
// ---------------------------------------------------------------------------
/// A string token at the head of `s` (no leading whitespace): a quoted
/// string - its content is everything up to the next quote - or a maximal
/// non-empty run of bare characters.
pub open spec fn spec_parse_string_tok(s: Seq<char>) -> Option<(Seq<char>, Seq<char>)> {
    if s.len() > 0 && s[0] == '\'' {
        let k = non_quote_len(s.drop_first());
        if 1 + k < s.len() {
            Some((s.subrange(1, 1 + k), s.skip(2 + k)))
        } else {
            None
        }
    } else {
        let k = bare_len(s);
        if k > 0 {
            Some((s.subrange(0, k), s.skip(k)))
        } else {
            None
        }
    }
}

/// A predicate call `kw ( string )` at the head of `s` (no leading
/// whitespace); the parsed string operand and the rest.
pub open spec fn spec_parse_call(s: Seq<char>, kw: Seq<char>) -> Option<(Seq<char>, Seq<char>)> {
    if has_prefix(s, kw) {
        let a = spec_skip_ws(s.skip(kw.len() as int));
        if a.len() > 0 && a[0] == '(' {
            match spec_parse_string_tok(spec_skip_ws(a.drop_first())) {
                Some((op, r)) => {
                    let rw = spec_skip_ws(r);
                    if rw.len() > 0 && rw[0] == ')' {
                        Some((op, rw.drop_first()))
                    } else {
                        None
                    }
                },
                None => None,
            }
        } else {
            None
        }
    } else {
        None
    }
}

/// One term: a parenthesized group, a negation, a predicate call, a
/// comparison, or a string literal.  Ordered choice: the first form that
/// matches wins.
pub open spec fn spec_parse_term(s: Seq<char>, fuel: nat) -> Option<(TermV, Seq<char>)>
    decreases fuel, 0int,
{
    let w = spec_skip_ws(s);
    if w.len() == 0 {
        None
    } else if w[0] == '(' {
        if fuel > 0 {
            match spec_parse_exprs(w.drop_first(), (fuel - 1) as nat) {
                Some((inner, r)) => {
                    let rw = spec_skip_ws(r);
                    if rw.len() > 0 && rw[0] == ')' {
                        Some((inner, rw.drop_first()))
                    } else {
                        None
                    }
                },
                None => None,
            }
        } else {
            None
        }
    } else if w[0] == '!' {
        if fuel > 0 {
            match spec_parse_term(w.drop_first(), (fuel - 1) as nat) {
                Some((t, r)) => Some((TermV::Not(Box::new(t)), r)),
                None => None,
            }
        } else {
            None
        }
    } else {
        match spec_parse_call(w, kw_exists()) {
            Some((op, r)) => Some((TermV::Exists(op), r)),
            None => match spec_parse_call(w, kw_final_slash()) {
                Some((op, r)) => Some((TermV::FinalSlash(op), r)),
                None => match spec_parse_string_tok(w) {
                    None => None,
                    Some((s1, r1)) => {
                        let r1w = spec_skip_ws(r1);
                        if has_prefix(r1w, kw_eq()) {
                            match spec_parse_string_tok(spec_skip_ws(r1w.skip(2))) {
                                Some((s2, r2)) => Some((TermV::Eq(s1, s2), r2)),
                                None => None,
                            }
                        } else if has_prefix(r1w, kw_ne()) {
                            match spec_parse_string_tok(spec_skip_ws(r1w.skip(2))) {
                                Some((s2, r2)) => Some((TermV::Ne(s1, s2), r2)),
                                None => None,
                            }
                        } else {
                            Some((TermV::Str(s1), r1))
                        }
                    },
                },
            },
        }
    }
}

/// The `and term` / `or term` suffixes that follow a base term, in source
/// order, each wrapped in its operator.
pub open spec fn spec_parse_suffixes(s: Seq<char>, fuel: nat) -> Option<(Seq<TermV>, Seq<char>)>
    decreases fuel, 1int,
{
    let w = spec_skip_ws(s);
    if has_prefix(w, kw_and()) {
        match spec_parse_term(w.skip(3), fuel) {
            Some((t, r)) => if fuel > 0 {
                match spec_parse_suffixes(r, (fuel - 1) as nat) {
                    Some((items, rest)) => Some(
                        (seq![TermV::And(Box::new(t))] + items, rest),
                    ),
                    None => None,
                }
            } else {
                None
            },
            None => None,
        }
    } else if has_prefix(w, kw_or()) {
        match spec_parse_term(w.skip(2), fuel) {
            Some((t, r)) => if fuel > 0 {
                match spec_parse_suffixes(r, (fuel - 1) as nat) {
                    Some((items, rest)) => Some((seq![TermV::Or(Box::new(t))] + items, rest)),
                    None => None,
                }
            } else {
                None
            },
            None => None,
        }
    } else {
        Some((Seq::<TermV>::empty(), s))
    }
}

/// A whole expression: a base term and its suffixes, as an `Exprs` node.
pub open spec fn spec_parse_exprs(s: Seq<char>, fuel: nat) -> Option<(TermV, Seq<char>)>
    decreases fuel, 2int,
{
    match spec_parse_term(s, fuel) {
        Some((t, r)) => match spec_parse_suffixes(r, fuel) {
            Some((items, rest)) => Some((TermV::Exprs(seq![t] + items), rest)),
            None => None,
        },
        None => None,
    }
}

/// The parse of a whole condition string: its expression tree, or `None`
/// when the grammar rejects the string.
pub open spec fn spec_parse_condition(s: Seq<char>) -> Option<TermV> {
    match spec_parse_exprs(s, s.len()) {
        Some((t, r)) => if spec_skip_ws(r).len() == 0 {
            Some(t)
        } else {
            None
        },
        None => None,
    }
}

// ---------------------------------------------------------------------------
// The executable parser
// ---------------------------------------------------------------------------
proof fn lemma_skip_plus(s: Seq<char>, i: int, j: int)
    requires
        0 <= i,
        0 <= j,
        i + j <= s.len(),
    ensures
        s.skip(i).skip(j) == s.skip(i + j),
{
    assert(s.skip(i).skip(j) =~= s.skip(i + j));
}

/// Advances past leading whitespace.
fn skip_ws_at(s: &str, pos: usize) -> (r: usize)
    requires
        pos <= s@.len(),
    ensures
        pos <= r <= s@.len(),
        s@.skip(r as int) == spec_skip_ws(s@.skip(pos as int)),
{
    let n = s.unicode_len();
    let mut p = pos;
    while p < n && space(s.get_char(p))
        invariant
            pos <= p <= n,
            n == s@.len(),
            spec_skip_ws(s@.skip(pos as int)) == spec_skip_ws(s@.skip(p as int)),
        decreases n - p,
    {
        proof {
            assert(s@.skip(p as int).drop_first() =~= s@.skip(p as int + 1));
        }
        p += 1;
    }
    p
}

/// Tests whether the keyword `kw` stands at `pos`.
fn match_prefix(s: &str, pos: usize, kw: &str) -> (r: bool)
    requires
        pos <= s@.len(),
    ensures
        r == has_prefix(s@.skip(pos as int), kw@),
{
    let n = s.unicode_len();
    let m = kw.unicode_len();
    if m > n - pos {
        return false;
    }
    for i in 0..m
        invariant
            pos + m <= n,
            n == s@.len(),
            m == kw@.len(),
            forall|j: int| 0 <= j < i ==> s@[pos + j] == kw@[j],
    {
        if s.get_char(pos + i) != kw.get_char(i) {
            proof {
                assert(s@.skip(pos as int).subrange(0, m as int)[i as int] == s@[pos + i as int]);
            }
            return false;
        }
    }
    proof {
        assert(s@.skip(pos as int).subrange(0, m as int) =~= kw@);
    }
    true
}

proof fn lemma_non_quote_region(s: Seq<char>, p: int, j: int)
    requires
        0 <= p <= j <= s.len(),
        forall|q: int| p <= q < j ==> s[q] != '\'',
        j == s.len() || s[j] == '\'',
    ensures
        non_quote_len(s.skip(p)) == j - p,
    decreases j - p,
{
    if p < j {
        assert(s.skip(p).drop_first() =~= s.skip(p + 1));
        lemma_non_quote_region(s, p + 1, j);
    }
}

proof fn lemma_bare_region(s: Seq<char>, p: int, j: int)
    requires
        0 <= p <= j <= s.len(),
        forall|q: int| p <= q < j ==> is_bare_char(s[q]),
        j == s.len() || !is_bare_char(s[j]),
    ensures
        bare_len(s.skip(p)) == j - p,
    decreases j - p,
{
    if p < j {
        assert(s.skip(p).drop_first() =~= s.skip(p + 1));
        lemma_bare_region(s, p + 1, j);
    }
}

/// A string token at `pos` (caller has skipped whitespace).
fn parse_string_tok_at(s: &str, pos: usize) -> (r: Option<(String, usize)>)
    requires
        pos <= s@.len(),
    ensures
        ({
            let sp = s@.skip(pos as int);
            match r {
                Some(t) => pos <= t.1 <= s@.len() && spec_parse_string_tok(sp) == Some(
                    (t.0@, s@.skip(t.1 as int)),
                ),
                None => spec_parse_string_tok(sp) is None,
            }
        }),
{
    let n = s.unicode_len();
    let ghost sp = s@.skip(pos as int);
    if pos < n && s.get_char(pos) == '\'' {
        let mut j = pos + 1;
        while j < n && s.get_char(j) != '\''
            invariant
                pos + 1 <= j <= n,
                n == s@.len(),
                forall|q: int| pos + 1 <= q < j ==> s@[q] != '\'',
            decreases n - j,
        {
            j += 1;
        }
        proof {
            lemma_non_quote_region(s@, pos as int + 1, j as int);
            assert(sp.drop_first() =~= s@.skip(pos as int + 1));
        }
        if j == n {
            return None;
        }
        let content = s.substring_char(pos + 1, j).to_owned();
        proof {
            assert(sp.subrange(1, (j - pos) as int) =~= s@.subrange(pos as int + 1, j as int));
            assert(sp.skip((j + 1 - pos) as int) =~= s@.skip(j as int + 1));
        }
        Some((content, j + 1))
    } else {
        let mut j = pos;
        while j < n && bare_char(s.get_char(j))
            invariant
                pos <= j <= n,
                n == s@.len(),
                forall|q: int| pos <= q < j ==> is_bare_char(s@[q]),
            decreases n - j,
        {
            j += 1;
        }
        proof {
            lemma_bare_region(s@, pos as int, j as int);
        }
        if j == pos {
            return None;
        }
        let content = s.substring_char(pos, j).to_owned();
        proof {
            assert(sp.subrange(0, (j - pos) as int) =~= s@.subrange(pos as int, j as int));
            assert(sp.skip((j - pos) as int) =~= s@.skip(j as int));
        }
        Some((content, j))
    }
}

/// A predicate call `kw ( string )` at `pos` (caller has skipped
/// whitespace).
fn parse_call_at(s: &str, pos: usize, kw: &str) -> (r: Option<(String, usize)>)
    requires
        pos <= s@.len(),
    ensures
        ({
            let sp = s@.skip(pos as int);
            match r {
                Some(t) => pos <= t.1 <= s@.len() && spec_parse_call(sp, kw@) == Some(
                    (t.0@, s@.skip(t.1 as int)),
                ),
                None => spec_parse_call(sp, kw@) is None,
            }
        }),
{
    if !match_prefix(s, pos, kw) {
        return None;
    }
    let n = s.unicode_len();
    let m = kw.unicode_len();
    let a = skip_ws_at(s, pos + m);
    proof {
        lemma_skip_plus(s@, pos as int, m as int);
    }
    if !(a < n && s.get_char(a) == '(') {
        return None;
    }
    let b = skip_ws_at(s, a + 1);
    proof {
        assert(s@.skip(a as int).drop_first() =~= s@.skip(a as int + 1));
    }
    match parse_string_tok_at(s, b) {
        Some((op, r1)) => {
            let rw = skip_ws_at(s, r1);
            if rw < n && s.get_char(rw) == ')' {
                proof {
                    assert(s@.skip(rw as int).drop_first() =~= s@.skip(rw as int + 1));
                }
                Some((op, rw + 1))
            } else {
                None
            }
        },
        None => None,
    }
}

/// One term at `pos`.
fn parse_term_at(s: &str, pos: usize, fuel: usize) -> (r: Option<(Term, usize)>)
    requires
        pos <= s@.len(),
    ensures
        ({
            let sp = s@.skip(pos as int);
            match r {
                Some(t) => pos <= t.1 <= s@.len() && spec_parse_term(sp, fuel as nat) == Some(
                    (t.0@, s@.skip(t.1 as int)),
                ),
                None => spec_parse_term(sp, fuel as nat) is None,
            }
        }),
    decreases fuel, 0int,
{
    let n = s.unicode_len();
    let w = skip_ws_at(s, pos);
    if w == n {
        return None;
    }
    let c = s.get_char(w);
    if c == '(' {
        if fuel == 0 {
            return None;
        }
        proof {
            assert(s@.skip(w as int).drop_first() =~= s@.skip(w as int + 1));
        }
        match parse_exprs_at(s, w + 1, fuel - 1) {
            Some((inner, r1)) => {
                let rw = skip_ws_at(s, r1);
                if rw < n && s.get_char(rw) == ')' {
                    proof {
                        assert(s@.skip(rw as int).drop_first() =~= s@.skip(rw as int + 1));
                    }
                    Some((inner, rw + 1))
                } else {
                    None
                }
            },
            None => None,
        }
    } else if c == '!' {
        if fuel == 0 {
            return None;
        }
        proof {
            assert(s@.skip(w as int).drop_first() =~= s@.skip(w as int + 1));
        }
        match parse_term_at(s, w + 1, fuel - 1) {
            Some((t, r1)) => Some((Term::Not(Box::new(t)), r1)),
            None => None,
        }
    } else {
        proof {
            reveal_strlit("exists");
            reveal_strlit("HasTrailingSlash");
            assert("exists"@ =~= kw_exists());
            assert("HasTrailingSlash"@ =~= kw_final_slash());
        }
        match parse_call_at(s, w, "exists") {
            Some((op, r1)) => Some((Term::Exists(op), r1)),
            None => match parse_call_at(s, w, "HasTrailingSlash") {
                Some((op, r1)) => Some((Term::FinalSlash(op), r1)),
                None => match parse_string_tok_at(s, w) {
                    None => None,
                    Some((s1, r1)) => {
                        let r1w = skip_ws_at(s, r1);
                        proof {
                            reveal_strlit("==");
                            reveal_strlit("!=");
                            assert("=="@ =~= kw_eq());
                            assert("!="@ =~= kw_ne());
                        }
                        if match_prefix(s, r1w, "==") {
                            proof {
                                lemma_skip_plus(s@, r1w as int, 2);
                            }
                            let b2 = skip_ws_at(s, r1w + 2);
                            match parse_string_tok_at(s, b2) {
                                Some((s2, r2)) => Some((Term::Eq(s1, s2), r2)),
                                None => None,
                            }
                        } else if match_prefix(s, r1w, "!=") {
                            proof {
                                lemma_skip_plus(s@, r1w as int, 2);
                            }
                            let b2 = skip_ws_at(s, r1w + 2);
                            match parse_string_tok_at(s, b2) {
                                Some((s2, r2)) => Some((Term::Ne(s1, s2), r2)),
                                None => None,
                            }
                        } else {
                            Some((Term::Str(s1), r1))
                        }
                    },
                },
            },
        }
    }
}

/// The `and`/`or` suffixes at `pos`.
fn parse_suffixes_at(s: &str, pos: usize, fuel: usize) -> (r: Option<(Vec<Term>, usize)>)
    requires
        pos <= s@.len(),
    ensures
        ({
            let sp = s@.skip(pos as int);
            match r {
                Some(t) => pos <= t.1 <= s@.len() && spec_parse_suffixes(sp, fuel as nat) == Some(
                    (terms_view(t.0@, 0), s@.skip(t.1 as int)),
                ),
                None => spec_parse_suffixes(sp, fuel as nat) is None,
            }
        }),
    decreases fuel, 1int,
{
    let n = s.unicode_len();
    let w = skip_ws_at(s, pos);
    proof {
        reveal_strlit("and");
        reveal_strlit("or");
        assert("and"@ =~= kw_and());
        assert("or"@ =~= kw_or());
    }
    if match_prefix(s, w, "and") {
        proof {
            assert(w + 3 <= n);
            lemma_skip_plus(s@, w as int, 3);
        }
        match parse_term_at(s, w + 3, fuel) {
            Some((t, r1)) => {
                if fuel == 0 {
                    return None;
                }
                match parse_suffixes_at(s, r1, fuel - 1) {
                    Some((items, r2)) => {
                        let ghost iv = terms_view(items@, 0);
                        let ghost tv = t@;
                        let ghost pre = items@;
                        let mut items = items;
                        items.insert(0, Term::And(Box::new(t)));
                        proof {
                            assert(items@.drop_first() =~= pre);
                            lemma_terms_view(items@, 0);
                            lemma_terms_view(pre, 0);
                            assert(terms_view(items@, 0) =~= seq![
                                TermV::And(Box::new(tv)),
                            ] + iv);
                        }
                        Some((items, r2))
                    },
                    None => None,
                }
            },
            None => None,
        }
    } else if match_prefix(s, w, "or") {
        proof {
            assert(w + 2 <= n);
            lemma_skip_plus(s@, w as int, 2);
        }
        match parse_term_at(s, w + 2, fuel) {
            Some((t, r1)) => {
                if fuel == 0 {
                    return None;
                }
                match parse_suffixes_at(s, r1, fuel - 1) {
                    Some((items, r2)) => {
                        let ghost iv = terms_view(items@, 0);
                        let ghost tv = t@;
                        let ghost pre = items@;
                        let mut items = items;
                        items.insert(0, Term::Or(Box::new(t)));
                        proof {
                            assert(items@.drop_first() =~= pre);
                            lemma_terms_view(items@, 0);
                            lemma_terms_view(pre, 0);
                            assert(terms_view(items@, 0) =~= seq![
                                TermV::Or(Box::new(tv)),
                            ] + iv);
                        }
                        Some((items, r2))
                    },
                    None => None,
                }
            },
            None => None,
        }
    } else {
        Some((Vec::new(), pos))
    }
}

/// A whole expression - a base term and its suffixes - at `pos`.
fn parse_exprs_at(s: &str, pos: usize, fuel: usize) -> (r: Option<(Term, usize)>)
    requires
        pos <= s@.len(),
    ensures
        ({
            let sp = s@.skip(pos as int);
            match r {
                Some(t) => pos <= t.1 <= s@.len() && spec_parse_exprs(sp, fuel as nat) == Some(
                    (t.0@, s@.skip(t.1 as int)),
                ),
                None => spec_parse_exprs(sp, fuel as nat) is None,
            }
        }),
    decreases fuel, 2int,
{
    match parse_term_at(s, pos, fuel) {
        Some((t, r1)) => match parse_suffixes_at(s, r1, fuel) {
            Some((items, r2)) => {
                let ghost iv = terms_view(items@, 0);
                let ghost tv = t@;
                let ghost pre = items@;
                let mut v = items;
                v.insert(0, t);
                proof {
                    assert(v@.drop_first() =~= pre);
                    lemma_terms_view(v@, 0);
                    lemma_terms_view(pre, 0);
                    assert(terms_view(v@, 0) =~= seq![tv] + iv);
                }
                Some((Term::Exprs(v), r2))
            },
            None => None,
        },
        None => None,
    }
}

/// Parser for the condition grammar.
pub struct ConditionParser;

impl ConditionParser {
    /// Parses a whole condition string into its tree; `Err` when the
    /// grammar rejects the string.
    pub fn parse(s: &str) -> (r: Result<Term, ParseError>)
        ensures
            match r {
                Ok(t) => spec_parse_condition(s@) == Some(t@),
                Err(_) => spec_parse_condition(s@) is None,
            },
    {
        let n = s.unicode_len();
        proof {
            assert(s@.skip(0) =~= s@);
        }
        match parse_exprs_at(s, 0, n) {
            Some((t, r1)) => {
                let rw = skip_ws_at(s, r1);
                if rw == n {
                    Ok(t)
                } else {
                    Err(ParseError)
                }
            },
            None => Err(ParseError),
        }
    }
}

/// Parses and evaluates a condition string under the supplied filesystem
/// answers; `Err` exactly when the grammar rejects the string.
pub fn eval_condition(s: &str, fs: &BoolMap) -> (r: Result<bool, ParseError>)
    ensures
        match spec_evaluate(s@, fs@) {
            Some(b) => r == Ok::<bool, ParseError>(b),
            None => r == Err::<bool, ParseError>(ParseError),
        },
{
    match ConditionParser::parse(s) {
        Ok(t) => Ok(eval_term_exec(&t, fs)),
        Err(e) => Err(e),
    }
}

/// The paths a condition asks `exists(...)` about, in source order; `Err`
/// exactly when the grammar rejects the string.
pub fn condition_paths(s: &str) -> (r: Result<Vec<String>, ParseError>)
    ensures
        match r {
            Ok(v) => spec_parse_condition(s@) is Some && v.deep_view() == exists_paths(
                spec_parse_condition(s@).unwrap(),
            ),
            Err(_) => spec_parse_condition(s@) is None,
        },
{
    match ConditionParser::parse(s) {
        Ok(t) => {
            let mut out: Vec<String> = Vec::new();
            collect_exists_paths(&t, &mut out);
            proof {
                assert(out.deep_view() =~= exists_paths(t@));
            }
            Ok(out)
        },
        Err(e) => Err(e),
    }
}

// ---------------------------------------------------------------------------
// Evaluation
// ---------------------------------------------------------------------------
/// The value of a tree, given the filesystem answers `fs`.  A string is true
/// iff non-empty; a suffix list folds strictly left to right; a path with no
/// answer in `fs` counts as absent.
pub open spec fn eval_term(t: TermV, fs: Map<Seq<char>, bool>) -> bool
    decreases t, 0int,
{
    match t {
        TermV::Str(s) => s.len() > 0,
        TermV::Exprs(items) => if items.len() == 0 {
            false
        } else {
            eval_fold(items, 1, eval_term(items[0], fs), fs)
        },
        TermV::Exists(p) => fs.contains_key(p) && fs[p],
        TermV::FinalSlash(s) => spec_has_trailing_slash(s),
        TermV::Eq(a, b) => a == b,
        TermV::Ne(a, b) => a != b,
        TermV::Not(t2) => !eval_term(*t2, fs),
        TermV::And(t2) => eval_term(*t2, fs),
        TermV::Or(t2) => eval_term(*t2, fs),
    }
}

/// The left-to-right fold of the suffixes `items[i..]` onto the running
/// value `acc`: an `And` suffix conjoins, an `Or` suffix disjoins, strictly
/// in source order.
pub open spec fn eval_fold(items: Seq<TermV>, i: int, acc: bool, fs: Map<Seq<char>, bool>) -> bool
    decreases items, items.len() - i,
{
    if i < 0 || i >= items.len() {
        acc
    } else {
        let b = match items[i] {
            TermV::And(r) => acc && eval_term(*r, fs),
            TermV::Or(r) => acc || eval_term(*r, fs),
            _ => acc,
        };
        eval_fold(items, i + 1, b, fs)
    }
}

/// The paths a tree asks `exists(...)` about, in source order.
pub open spec fn exists_paths(t: TermV) -> Seq<Seq<char>>
    decreases t, 0int,
{
    match t {
        TermV::Exists(p) => seq![p],
        TermV::Exprs(items) => exists_paths_fold(items, 0),
        TermV::Not(t2) => exists_paths(*t2),
        TermV::And(t2) => exists_paths(*t2),
        TermV::Or(t2) => exists_paths(*t2),
        _ => Seq::empty(),
    }
}

/// The paths asked about by the trees `items[i..]`, in source order.
pub open spec fn exists_paths_fold(items: Seq<TermV>, i: int) -> Seq<Seq<char>>
    decreases items, items.len() - i,
{
    if i < 0 || i >= items.len() {
        Seq::empty()
    } else {
        exists_paths(items[i]) + exists_paths_fold(items, i + 1)
    }
}

/// The value of a whole condition string: `None` when the grammar rejects
/// it, otherwise the value of its tree.
pub open spec fn spec_evaluate(s: Seq<char>, fs: Map<Seq<char>, bool>) -> Option<bool> {
    match spec_parse_condition(s) {
        Some(t) => Some(eval_term(t, fs)),
        None => None,
    }
}

// ---------------------------------------------------------------------------
// Laws of evaluation
// ---------------------------------------------------------------------------
/// Negation: a `!` node evaluates to the logical negation of its operand,
/// under any filesystem answers.
pub proof fn lemma_eval_not(t: TermV, fs: Map<Seq<char>, bool>)
    ensures
        eval_term(TermV::Not(Box::new(t)), fs) == !eval_term(t, fs),
{
}

/// Sequential fold, not precedence: `A and B or C` evaluates as
/// `(A and B) or C`, and `A or B and C` as `(A or B) and C` - strictly in
/// source order, never re-grouped.
pub proof fn lemma_sequential_fold(a: TermV, b: TermV, c: TermV, fs: Map<Seq<char>, bool>)
    ensures
        eval_term(TermV::Exprs(seq![a, TermV::And(Box::new(b)), TermV::Or(Box::new(c))]), fs) == (
        (eval_term(a, fs) && eval_term(b, fs)) || eval_term(c, fs)),
        eval_term(TermV::Exprs(seq![a, TermV::Or(Box::new(b)), TermV::And(Box::new(c))]), fs) == (
        (eval_term(a, fs) || eval_term(b, fs)) && eval_term(c, fs)),
{
    let ea = eval_term(a, fs);
    let eb = eval_term(b, fs);
    let ec = eval_term(c, fs);
    let s1 = seq![a, TermV::And(Box::new(b)), TermV::Or(Box::new(c))];
    assert(s1.len() == 3 && s1[0] == a && s1[1] == TermV::And(Box::new(b)) && s1[2] == TermV::Or(
        Box::new(c),
    ));
    assert(eval_fold(s1, 2, ea && eb, fs) == eval_fold(s1, 3, (ea && eb) || ec, fs));
    assert(eval_fold(s1, 1, ea, fs) == eval_fold(s1, 2, ea && eb, fs));
    assert(eval_fold(s1, 3, (ea && eb) || ec, fs) == ((ea && eb) || ec));
    assert(eval_term(TermV::Exprs(s1), fs) == eval_fold(s1, 1, ea, fs));
    let s2 = seq![a, TermV::Or(Box::new(b)), TermV::And(Box::new(c))];
    assert(s2.len() == 3 && s2[0] == a && s2[1] == TermV::Or(Box::new(b)) && s2[2] == TermV::And(
        Box::new(c),
    ));
    assert(eval_fold(s2, 2, ea || eb, fs) == eval_fold(s2, 3, (ea || eb) && ec, fs));
    assert(eval_fold(s2, 1, ea, fs) == eval_fold(s2, 2, ea || eb, fs));
    assert(eval_fold(s2, 3, (ea || eb) && ec, fs) == ((ea || eb) && ec));
    assert(eval_term(TermV::Exprs(s2), fs) == eval_fold(s2, 1, ea, fs));
}

// ---------------------------------------------------------------------------
// The negation law, part 1: parsing is insensitive to one more unit of fuel
// ---------------------------------------------------------------------------
proof fn lemma_mono_term(s: Seq<char>, f: nat)
    ensures
        spec_parse_term(s, f) is Some ==> spec_parse_term(s, f + 1) == spec_parse_term(s, f),
    decreases f, 0int,
{
    if spec_parse_term(s, f) is Some {
        let w = spec_skip_ws(s);
        if w[0] == '(' {
            lemma_mono_exprs(w.drop_first(), (f - 1) as nat);
        } else if w[0] == '!' {
            lemma_mono_term(w.drop_first(), (f - 1) as nat);
        }
    }
}

proof fn lemma_mono_suffixes(s: Seq<char>, f: nat)
    ensures
        spec_parse_suffixes(s, f) is Some ==> spec_parse_suffixes(s, f + 1)
            == spec_parse_suffixes(s, f),
    decreases f, 1int,
{
    if spec_parse_suffixes(s, f) is Some {
        let w = spec_skip_ws(s);
        if has_prefix(w, kw_and()) {
            lemma_mono_term(w.skip(3), f);
            if spec_parse_term(w.skip(3), f) is Some {
                let r = spec_parse_term(w.skip(3), f).unwrap().1;
                lemma_mono_suffixes(r, (f - 1) as nat);
            }
        } else if has_prefix(w, kw_or()) {
            lemma_mono_term(w.skip(2), f);
            if spec_parse_term(w.skip(2), f) is Some {
                let r = spec_parse_term(w.skip(2), f).unwrap().1;
                lemma_mono_suffixes(r, (f - 1) as nat);
            }
        }
    }
}

proof fn lemma_mono_exprs(s: Seq<char>, f: nat)
    ensures
        spec_parse_exprs(s, f) is Some ==> spec_parse_exprs(s, f + 1) == spec_parse_exprs(s, f),
    decreases f, 2int,
{
    if spec_parse_exprs(s, f) is Some {
        lemma_mono_term(s, f);
        let r = spec_parse_term(s, f).unwrap().1;
        lemma_mono_suffixes(r, f);
    }
}

// ---------------------------------------------------------------------------
// The negation law, part 2: a closing parenthesis after a parsed string
// ---------------------------------------------------------------------------
/// One closing parenthesis, the character `!(X)` appends after `X`.
pub open spec fn closer() -> Seq<char> {
    seq![')']
}

/// A rest on the success path: nothing left, or a group about to close.
pub open spec fn good_rest(r: Seq<char>) -> bool {
    spec_skip_ws(r).len() == 0 || spec_skip_ws(r)[0] == ')'
}

proof fn lemma_skip_ws_ext(s: Seq<char>)
    ensures
        spec_skip_ws(s + closer()) == if spec_skip_ws(s).len() > 0 {
            spec_skip_ws(s) + closer()
        } else {
            closer()
        },
    decreases s.len(),
{
    if s.len() > 0 && is_space(s[0]) {
        assert((s + closer()).drop_first() =~= s.drop_first() + closer());
        lemma_skip_ws_ext(s.drop_first());
    } else if s.len() == 0 {
        assert(s + closer() =~= closer());
    } else {
        assert((s + closer())[0] == s[0]);
    }
}

proof fn lemma_prefix_ext(s: Seq<char>, p: Seq<char>)
    requires
        forall|i: int| 0 <= i < p.len() ==> p[i] != ')',
    ensures
        has_prefix(s + closer(), p) == has_prefix(s, p),
{
    if p.len() <= s.len() {
        assert((s + closer()).subrange(0, p.len() as int) =~= s.subrange(0, p.len() as int));
    } else if p.len() == s.len() + 1 {
        if has_prefix(s + closer(), p) {
            assert((s + closer()).subrange(0, p.len() as int)[s.len() as int] == ')');
        }
    }
}

proof fn lemma_bare_len_ext(s: Seq<char>)
    ensures
        bare_len(s + closer()) == bare_len(s),
    decreases s.len(),
{
    if s.len() > 0 && is_bare_char(s[0]) {
        assert((s + closer())[0] == s[0]);
        assert((s + closer()).drop_first() =~= s.drop_first() + closer());
        lemma_bare_len_ext(s.drop_first());
    } else if s.len() == 0 {
        assert(s + closer() =~= closer());
        assert(!is_bare_char(')'));
    } else {
        assert((s + closer())[0] == s[0]);
    }
}

proof fn lemma_nql_ext(s: Seq<char>)
    ensures
        0 <= non_quote_len(s) <= s.len(),
        non_quote_len(s + closer()) == if non_quote_len(s) == s.len() {
            s.len() as int + 1
        } else {
            non_quote_len(s)
        },
    decreases s.len(),
{
    if s.len() > 0 && s[0] != '\'' {
        assert((s + closer())[0] == s[0]);
        assert((s + closer()).drop_first() =~= s.drop_first() + closer());
        lemma_nql_ext(s.drop_first());
    } else if s.len() == 0 {
        assert(s + closer() =~= closer());
        assert(closer()[0] == ')');
        assert(closer().drop_first() =~= Seq::<char>::empty());
        assert(non_quote_len(Seq::<char>::empty()) == 0);
    } else {
        assert((s + closer())[0] == s[0]);
    }
}

proof fn lemma_tok_ext(s: Seq<char>)
    ensures
        spec_parse_string_tok(s + closer()) == match spec_parse_string_tok(s) {
            Some((v, r)) => Some((v, r + closer())),
            None => None,
        },
{
    let e = s + closer();
    if s.len() > 0 && s[0] == '\'' {
        assert(e[0] == '\'');
        assert(e.drop_first() =~= s.drop_first() + closer());
        lemma_nql_ext(s.drop_first());
        let k = non_quote_len(s.drop_first());
        if 1 + k < s.len() {
            assert(non_quote_len(e.drop_first()) == k);
            assert(e.subrange(1, 1 + k) =~= s.subrange(1, 1 + k));
            assert(e.skip(2 + k) =~= s.skip(2 + k) + closer());
        } else {
            assert(k == s.len() - 1);
            assert(non_quote_len(e.drop_first()) == s.len());
        }
    } else {
        if s.len() > 0 {
            assert(e[0] == s[0]);
        } else {
            assert(e =~= closer());
        }
        lemma_bare_len_ext(s);
        let k = bare_len(s);
        if k > 0 {
            lemma_bare_bounds(s);
            assert(e.subrange(0, k) =~= s.subrange(0, k));
            assert(e.skip(k) =~= s.skip(k) + closer());
        }
    }
}

/// The bare-prefix length is within bounds.
proof fn lemma_bare_bounds(s: Seq<char>)
    ensures
        0 <= bare_len(s) <= s.len(),
    decreases s.len(),
{
    if s.len() > 0 && is_bare_char(s[0]) {
        lemma_bare_bounds(s.drop_first());
    }
}

/// A predicate call that failed only because the input ended before its
/// closing parenthesis; the one failure one more `)` would repair.
spec fn call_stuck(s: Seq<char>, kw: Seq<char>) -> bool {
    &&& has_prefix(s, kw)
    &&& {
        let a = spec_skip_ws(s.skip(kw.len() as int));
        &&& a.len() > 0
        &&& a[0] == '('
        &&& {
            match spec_parse_string_tok(spec_skip_ws(a.drop_first())) {
                Some((op, r)) => spec_skip_ws(r).len() == 0,
                None => false,
            }
        }
    }
}

proof fn lemma_call_ext(s: Seq<char>, kw: Seq<char>)
    requires
        !call_stuck(s, kw),
        forall|i: int| 0 <= i < kw.len() ==> kw[i] != ')',
    ensures
        spec_parse_call(s + closer(), kw) == match spec_parse_call(s, kw) {
            Some((v, r)) => Some((v, r + closer())),
            None => None,
        },
{
    let e = s + closer();
    lemma_prefix_ext(s, kw);
    if has_prefix(s, kw) {
        assert(kw.len() <= s.len());
        assert(e.skip(kw.len() as int) =~= s.skip(kw.len() as int) + closer());
        lemma_skip_ws_ext(s.skip(kw.len() as int));
        let a = spec_skip_ws(s.skip(kw.len() as int));
        if a.len() == 0 {
            assert(spec_skip_ws(e.skip(kw.len() as int)) == closer());
            assert(closer()[0] == ')');
        } else if a[0] != '(' {
            assert((a + closer())[0] == a[0]);
        } else {
            let ae = a + closer();
            assert(ae[0] == '(');
            assert(ae.drop_first() =~= a.drop_first() + closer());
            lemma_skip_ws_ext(a.drop_first());
            let b = spec_skip_ws(a.drop_first());
            if b.len() == 0 {
                assert(spec_skip_ws(ae.drop_first()) == closer());
                assert(closer()[0] == ')' && closer()[0] != '\'');
                assert(!is_bare_char(')'));
                assert(bare_len(closer()) == 0);
                assert(spec_parse_string_tok(closer()) is None);
                assert(spec_parse_string_tok(b) is None) by {
                    assert(bare_len(b) == 0);
                }
            } else {
                assert(spec_skip_ws(ae.drop_first()) == b + closer());
                lemma_tok_ext(b);
                match spec_parse_string_tok(b) {
                    None => {},
                    Some((op, r)) => {
                        lemma_skip_ws_ext(r);
                        let rw = spec_skip_ws(r);
                        if rw.len() == 0 {
                            assert(call_stuck(s, kw));
                        } else {
                            assert((rw + closer())[0] == rw[0]);
                            if rw[0] == ')' {
                                assert((rw + closer()).drop_first() =~= rw.drop_first()
                                    + closer());
                            }
                        }
                    },
                }
            }
        }
    }
}

/// When a predicate call is stuck at a missing final parenthesis, the term
/// falls back to a bare string - the keyword - and its rest then begins,
/// after whitespace, with `(`.
proof fn lemma_stuck_term_shape(s: Seq<char>, f: nat, kw: Seq<char>)
    requires
        kw == kw_exists() || kw == kw_final_slash(),
        ({
            let w = spec_skip_ws(s);
            w.len() > 0 && w[0] != '(' && w[0] != '!' && call_stuck(w, kw)
        }),
    ensures
        spec_parse_term(s, f) is Some,
        spec_skip_ws(spec_parse_term(s, f).unwrap().1).len() > 0,
        spec_skip_ws(spec_parse_term(s, f).unwrap().1)[0] == '(',
{
    let w = spec_skip_ws(s);
    let kwl = kw.len() as int;
    assert(has_prefix(w, kw));
    assert forall|q: int| 0 <= q < kwl implies w[q] == kw[q] by {
        assert(w.subrange(0, kwl)[q] == w[q]);
    }
    if kw == kw_exists() {
        assert forall|q: int| 0 <= q < kwl implies is_bare_char(kw[q]) by {}
    } else {
        assert forall|q: int| 0 <= q < kwl implies is_bare_char(kw[q]) by {}
    }
    let a = spec_skip_ws(w.skip(kwl));
    assert(a.len() > 0 && a[0] == '(');
    assert(w.len() > kwl) by {
        if w.len() == kwl {
            assert(w.skip(kwl) =~= Seq::<char>::empty());
        }
    }
    assert(!is_bare_char(w[kwl])) by {
        if !is_space(w[kwl]) {
            assert(w.skip(kwl)[0] == w[kwl]);
            assert(spec_skip_ws(w.skip(kwl)) == w.skip(kwl));
            assert(w[kwl] == '(');
        }
    }
    lemma_bare_region(w, 0, kwl);
    assert(w.skip(0) =~= w);
    assert(bare_len(w) == kwl);
    assert(w[0] == kw[0]);
    assert(w[0] != '\'');
    assert(spec_parse_string_tok(w) == Some((w.subrange(0, kwl), w.skip(kwl))));
    // both predicate calls fail
    assert(kw_exists()[0] == 'e' && kw_final_slash()[0] == 'H');
    if kw == kw_exists() {
        assert(spec_parse_call(w, kw_exists()) is None);
        assert(!has_prefix(w, kw_final_slash())) by {
            if has_prefix(w, kw_final_slash()) {
                assert(w.subrange(0, 16)[0] == 'H');
            }
        }
        assert(spec_parse_call(w, kw_final_slash()) is None);
    } else {
        assert(!has_prefix(w, kw_exists())) by {
            if has_prefix(w, kw_exists()) {
                assert(w.subrange(0, 6)[0] == 'e');
            }
        }
        assert(spec_parse_call(w, kw_exists()) is None);
        assert(spec_parse_call(w, kw_final_slash()) is None);
    }
    // no comparison operator follows: the rest begins with `(`
    assert(!has_prefix(a, kw_eq())) by {
        if has_prefix(a, kw_eq()) {
            assert(a.subrange(0, 2)[0] == '=');
        }
    }
    assert(!has_prefix(a, kw_ne())) by {
        if has_prefix(a, kw_ne()) {
            assert(a.subrange(0, 2)[0] == '!');
        }
    }
    assert(spec_parse_term(s, f) == Some(
        (TermV::Str(w.subrange(0, kwl)), w.skip(kwl)),
    ));
}

proof fn lemma_ext_term(s: Seq<char>, f: nat)
    requires
        spec_parse_term(s, f) is Some,
        ({
            let r = spec_parse_term(s, f).unwrap().1;
            spec_skip_ws(r).len() == 0 || spec_skip_ws(r)[0] != '('
        }),
    ensures
        spec_parse_term(s + closer(), f) == Some(
            (spec_parse_term(s, f).unwrap().0, spec_parse_term(s, f).unwrap().1 + closer()),
        ),
    decreases f, 0int,
{
    let e = s + closer();
    lemma_skip_ws_ext(s);
    let w = spec_skip_ws(s);
    assert(w.len() > 0);
    let we = spec_skip_ws(e);
    assert(we == w + closer());
    assert(we[0] == w[0]);
    if w[0] == '(' {
        assert(f > 0);
        let inner = spec_parse_exprs(w.drop_first(), (f - 1) as nat);
        assert(inner is Some);
        let ri = inner.unwrap().1;
        let rw = spec_skip_ws(ri);
        assert(rw.len() > 0 && rw[0] == ')');
        lemma_ext_exprs(w.drop_first(), (f - 1) as nat);
        assert(we.drop_first() =~= w.drop_first() + closer());
        lemma_skip_ws_ext(ri);
        assert(spec_skip_ws(ri + closer()) == rw + closer());
        assert((rw + closer())[0] == ')');
        assert((rw + closer()).drop_first() =~= rw.drop_first() + closer());
    } else if w[0] == '!' {
        assert(f > 0);
        lemma_ext_term(w.drop_first(), (f - 1) as nat);
        assert(we.drop_first() =~= w.drop_first() + closer());
    } else {
        assert(kw_exists().len() == 6 && kw_final_slash().len() == 16);
        assert forall|i: int| 0 <= i < kw_exists().len() implies kw_exists()[i] != ')' by {}
        assert forall|i: int|
            0 <= i < kw_final_slash().len() implies kw_final_slash()[i] != ')' by {}
        assert(!call_stuck(w, kw_exists())) by {
            if call_stuck(w, kw_exists()) {
                lemma_stuck_term_shape(s, f, kw_exists());
            }
        }
        assert(!call_stuck(w, kw_final_slash())) by {
            if call_stuck(w, kw_final_slash()) {
                lemma_stuck_term_shape(s, f, kw_final_slash());
            }
        }
        lemma_call_ext(w, kw_exists());
        lemma_call_ext(w, kw_final_slash());
        if spec_parse_call(w, kw_exists()) is Some {
        } else if spec_parse_call(w, kw_final_slash()) is Some {
        } else {
            lemma_tok_ext(w);
            match spec_parse_string_tok(w) {
                None => {},
                Some((s1, r1)) => {
                    lemma_skip_ws_ext(r1);
                    let r1w = spec_skip_ws(r1);
                    assert(kw_eq().len() == 2 && kw_ne().len() == 2);
                    assert forall|i: int| 0 <= i < kw_eq().len() implies kw_eq()[i] != ')' by {}
                    assert forall|i: int| 0 <= i < kw_ne().len() implies kw_ne()[i] != ')' by {}
                    if r1w.len() == 0 {
                        assert(spec_skip_ws(r1 + closer()) == closer());
                        assert(closer().len() == 1);
                        assert(!has_prefix(closer(), kw_eq()));
                        assert(!has_prefix(closer(), kw_ne()));
                    } else {
                        assert(spec_skip_ws(r1 + closer()) == r1w + closer());
                        lemma_prefix_ext(r1w, kw_eq());
                        lemma_prefix_ext(r1w, kw_ne());
                        if has_prefix(r1w, kw_eq()) || has_prefix(r1w, kw_ne()) {
                            let skip2 = r1w.skip(2);
                            assert((r1w + closer()).skip(2) =~= skip2 + closer());
                            lemma_skip_ws_ext(skip2);
                            let b2 = spec_skip_ws(skip2);
                            if b2.len() == 0 {
                                // the second operand is missing: the plain
                                // parse fails, contradicting the premise
                                assert(spec_parse_string_tok(b2) is None) by {
                                    assert(bare_len(b2) == 0);
                                }
                            } else {
                                assert(spec_skip_ws(skip2 + closer()) == b2 + closer());
                                lemma_tok_ext(b2);
                            }
                        }
                    }
                },
            }
        }
    }
}

proof fn lemma_ext_suffixes(s: Seq<char>, f: nat)
    requires
        spec_parse_suffixes(s, f) is Some,
        good_rest(spec_parse_suffixes(s, f).unwrap().1),
    ensures
        spec_parse_suffixes(s + closer(), f) == Some(
            (
                spec_parse_suffixes(s, f).unwrap().0,
                spec_parse_suffixes(s, f).unwrap().1 + closer(),
            ),
        ),
    decreases f, 1int,
{
    let e = s + closer();
    lemma_skip_ws_ext(s);
    let w = spec_skip_ws(s);
    assert(kw_and().len() == 3 && kw_or().len() == 2);
    assert forall|i: int| 0 <= i < kw_and().len() implies kw_and()[i] != ')' by {}
    assert forall|i: int| 0 <= i < kw_or().len() implies kw_or()[i] != ')' by {}
    if w.len() == 0 {
        assert(spec_skip_ws(e) == closer());
        assert(closer()[0] == ')');
        assert(!has_prefix(closer(), kw_and()));
        assert(!has_prefix(closer(), kw_or()));
        assert(!has_prefix(w, kw_and()) && !has_prefix(w, kw_or()));
    } else {
        assert(spec_skip_ws(e) == w + closer());
        lemma_prefix_ext(w, kw_and());
        lemma_prefix_ext(w, kw_or());
        if has_prefix(w, kw_and()) {
            assert((w + closer()).skip(3) =~= w.skip(3) + closer());
            let inner = spec_parse_term(w.skip(3), f);
            assert(inner is Some && f > 0);
            let r0 = inner.unwrap().1;
            lemma_suffix_head(r0, (f - 1) as nat, spec_parse_suffixes(s, f).unwrap().1);
            lemma_ext_term(w.skip(3), f);
            lemma_ext_suffixes(r0, (f - 1) as nat);
        } else if has_prefix(w, kw_or()) {
            assert((w + closer()).skip(2) =~= w.skip(2) + closer());
            let inner = spec_parse_term(w.skip(2), f);
            assert(inner is Some && f > 0);
            let r0 = inner.unwrap().1;
            lemma_suffix_head(r0, (f - 1) as nat, spec_parse_suffixes(s, f).unwrap().1);
            lemma_ext_term(w.skip(2), f);
            lemma_ext_suffixes(r0, (f - 1) as nat);
        }
    }
}

/// A term rest that a successful suffix walk follows never begins, after
/// whitespace, with `(`.
proof fn lemma_suffix_head(r0: Seq<char>, f: nat, r: Seq<char>)
    requires
        spec_parse_suffixes(r0, f) is Some,
        spec_parse_suffixes(r0, f).unwrap().1 == r,
        good_rest(r),
    ensures
        spec_skip_ws(r0).len() == 0 || spec_skip_ws(r0)[0] != '(',
{
    let w = spec_skip_ws(r0);
    if w.len() > 0 && w[0] == '(' {
        assert(!has_prefix(w, kw_and())) by {
            if has_prefix(w, kw_and()) {
                assert(w.subrange(0, 3)[0] == 'a');
            }
        }
        assert(!has_prefix(w, kw_or())) by {
            if has_prefix(w, kw_or()) {
                assert(w.subrange(0, 2)[0] == 'o');
            }
        }
        assert(r == r0);
        assert(spec_skip_ws(r)[0] == '(');
    }
}

proof fn lemma_ext_exprs(s: Seq<char>, f: nat)
    requires
        spec_parse_exprs(s, f) is Some,
        good_rest(spec_parse_exprs(s, f).unwrap().1),
    ensures
        spec_parse_exprs(s + closer(), f) == Some(
            (spec_parse_exprs(s, f).unwrap().0, spec_parse_exprs(s, f).unwrap().1 + closer()),
        ),
    decreases f, 2int,
{
    let t0 = spec_parse_term(s, f);
    assert(t0 is Some);
    let r0 = t0.unwrap().1;
    assert(spec_parse_suffixes(r0, f) is Some);
    lemma_suffix_head(r0, f, spec_parse_exprs(s, f).unwrap().1);
    lemma_ext_term(s, f);
    lemma_ext_suffixes(r0, f);
}

/// The condition string `!(X)`, for a given condition `X`.
pub open spec fn not_str(x: Seq<char>) -> Seq<char> {
    seq!['!', '('] + x + seq![')']
}

/// Negation at the string level: for any syntactically valid condition
/// `X`, the string `!(X)` is a valid condition too, and evaluates to the
/// exact logical negation of `X`, under any filesystem answers.
pub proof fn lemma_eval_negation(x: Seq<char>, fs: Map<Seq<char>, bool>)
    requires
        spec_parse_condition(x) is Some,
    ensures
        spec_evaluate(not_str(x), fs) == Some(!eval_term(spec_parse_condition(x).unwrap(), fs)),
{
    let lx = x.len();
    let ex = spec_parse_exprs(x, lx);
    assert(ex is Some);
    let t = ex.unwrap().0;
    let r = ex.unwrap().1;
    assert(spec_skip_ws(r).len() == 0);
    assert(spec_parse_condition(x) == Some(t));
    lemma_mono_exprs(x, lx);
    assert(spec_parse_exprs(x, lx + 1) == ex);
    lemma_ext_exprs(x, lx + 1);
    assert(spec_parse_exprs(x + closer(), lx + 1) == Some((t, r + closer())));
    let s2 = not_str(x);
    let l2 = s2.len();
    assert(l2 == lx + 3);
    assert(s2[0] == '!');
    assert(spec_skip_ws(s2) == s2);
    let s3 = s2.drop_first();
    assert(s3 =~= seq!['('] + x + closer());
    assert(s3[0] == '(');
    assert(spec_skip_ws(s3) == s3);
    let s4 = s3.drop_first();
    assert(s4 =~= x + closer());
    assert(spec_parse_exprs(s4, (l2 - 2) as nat) == Some((t, r + closer())));
    lemma_skip_ws_ext(r);
    assert(spec_skip_ws(r + closer()) == closer());
    assert(closer()[0] == ')');
    assert(closer().drop_first() =~= Seq::<char>::empty());
    assert(spec_parse_term(s3, (l2 - 1) as nat) == Some((t, Seq::<char>::empty())));
    let nt = TermV::Not(Box::new(t));
    assert(spec_parse_term(s2, l2) == Some((nt, Seq::<char>::empty())));
    assert(spec_skip_ws(Seq::<char>::empty()).len() == 0);
    assert(!has_prefix(Seq::<char>::empty(), kw_and()));
    assert(!has_prefix(Seq::<char>::empty(), kw_or()));
    assert(spec_parse_suffixes(Seq::<char>::empty(), l2) == Some(
        (Seq::<TermV>::empty(), Seq::<char>::empty()),
    ));
    assert(seq![nt] + Seq::<TermV>::empty() =~= seq![nt]);
    assert(spec_parse_exprs(s2, l2) == Some(
        (TermV::Exprs(seq![nt]), Seq::<char>::empty()),
    ));
    assert(spec_parse_condition(s2) == Some(TermV::Exprs(seq![nt])));
    let items = seq![nt];
    assert(items.len() == 1 && items[0] == nt);
    assert(eval_term(TermV::Exprs(items), fs) == eval_fold(items, 1, eval_term(nt, fs), fs));
    assert(eval_fold(items, 1, eval_term(nt, fs), fs) == eval_term(nt, fs));
    assert(eval_term(nt, fs) == !eval_term(t, fs));
}

/// The condition string `'a' == 'b'`, for the given operand contents.
pub open spec fn quoted_eq_str(a: Seq<char>, b: Seq<char>) -> Seq<char> {
    seq!['\''] + a + seq!['\'', ' ', '=', '=', ' ', '\''] + b + seq!['\'']
}

/// The condition string `'a' != 'b'`, for the given operand contents.
pub open spec fn quoted_ne_str(a: Seq<char>, b: Seq<char>) -> Seq<char> {
    seq!['\''] + a + seq!['\'', ' ', '!', '=', ' ', '\''] + b + seq!['\'']
}

/// A quoted string token at the head of the input parses to its content.
proof fn lemma_parse_quoted_tok(s: Seq<char>, a: Seq<char>, rest: Seq<char>)
    requires
        s == seq!['\''] + a + seq!['\''] + rest,
        forall|i: int| 0 <= i < a.len() ==> a[i] != '\'',
    ensures
        spec_parse_string_tok(s) == Some((a, rest)),
{
    assert(s.len() == a.len() + 2 + rest.len());
    assert(s[0] == '\'');
    assert forall|q: int| 1 <= q < 1 + a.len() implies s[q] != '\'' by {
        assert(s[q] == a[q - 1]);
    }
    assert(s[1 + a.len() as int] == '\'');
    lemma_non_quote_region(s, 1, 1 + a.len() as int);
    assert(s.drop_first() =~= s.skip(1));
    assert(non_quote_len(s.drop_first()) == a.len());
    assert(s.subrange(1, 1 + a.len() as int) =~= a);
    assert(s.skip(2 + a.len() as int) =~= rest);
}

/// The parse of a whole `'a' == 'b'` or `'a' != 'b'` condition string.
proof fn lemma_parse_quoted_cmp(a: Seq<char>, b: Seq<char>, eq_op: bool)
    requires
        forall|i: int| 0 <= i < a.len() ==> a[i] != '\'',
        forall|i: int| 0 <= i < b.len() ==> b[i] != '\'',
    ensures
        eq_op ==> spec_parse_condition(quoted_eq_str(a, b)) == Some(
            TermV::Exprs(seq![TermV::Eq(a, b)]),
        ),
        !eq_op ==> spec_parse_condition(quoted_ne_str(a, b)) == Some(
            TermV::Exprs(seq![TermV::Ne(a, b)]),
        ),
{
    let s = if eq_op {
        quoted_eq_str(a, b)
    } else {
        quoted_ne_str(a, b)
    };
    let mid: char = if eq_op {
        '='
    } else {
        '!'
    };
    let fuel = s.len();
    let qa_rest = seq![' ', mid, '=', ' ', '\''] + b + seq!['\''];
    assert(s =~= seq!['\''] + a + seq!['\''] + qa_rest);
    // leading whitespace: none
    assert(s[0] == '\'');
    assert(spec_skip_ws(s) == s);
    let w = s;
    assert(w[0] != '(' && w[0] != '!');
    // the keyword alternatives fail on the opening quote
    assert(!has_prefix(w, kw_exists())) by {
        if has_prefix(w, kw_exists()) {
            assert(w.subrange(0, 6)[0] == kw_exists()[0]);
        }
    }
    assert(!has_prefix(w, kw_final_slash())) by {
        if has_prefix(w, kw_final_slash()) {
            assert(w.subrange(0, 16)[0] == kw_final_slash()[0]);
        }
    }
    assert(spec_parse_call(w, kw_exists()) is None);
    assert(spec_parse_call(w, kw_final_slash()) is None);
    // the first operand
    lemma_parse_quoted_tok(s, a, qa_rest);
    // whitespace, then the operator
    assert(qa_rest[0] == ' ');
    let r1w0 = seq![mid, '=', ' ', '\''] + b + seq!['\''];
    assert(qa_rest.drop_first() =~= r1w0);
    assert(r1w0[0] == mid);
    assert(spec_skip_ws(r1w0) == r1w0);
    assert(spec_skip_ws(qa_rest) == r1w0);
    if eq_op {
        assert(r1w0.subrange(0, 2) =~= kw_eq());
        assert(has_prefix(r1w0, kw_eq()));
    } else {
        assert(!has_prefix(r1w0, kw_eq())) by {
            if has_prefix(r1w0, kw_eq()) {
                assert(r1w0.subrange(0, 2)[0] == kw_eq()[0]);
            }
        }
        assert(r1w0.subrange(0, 2) =~= kw_ne());
        assert(has_prefix(r1w0, kw_ne()));
    }
    // whitespace, then the second operand
    let after_op = seq![' ', '\''] + b + seq!['\''];
    assert(r1w0.skip(2) =~= after_op);
    assert(after_op[0] == ' ');
    let qb = seq!['\''] + b + seq!['\''];
    assert(after_op.drop_first() =~= qb);
    assert(qb[0] == '\'');
    assert(spec_skip_ws(qb) == qb);
    assert(spec_skip_ws(after_op) == qb);
    assert(qb =~= seq!['\''] + b + seq!['\''] + Seq::<char>::empty());
    lemma_parse_quoted_tok(qb, b, Seq::<char>::empty());
    // the term is the comparison, with nothing left
    let t = if eq_op {
        TermV::Eq(a, b)
    } else {
        TermV::Ne(a, b)
    };
    assert(spec_parse_term(s, fuel) == Some((t, Seq::<char>::empty())));
    // no suffixes
    assert(spec_skip_ws(Seq::<char>::empty()) == Seq::<char>::empty());
    assert(!has_prefix(Seq::<char>::empty(), kw_and()));
    assert(!has_prefix(Seq::<char>::empty(), kw_or()));
    assert(spec_parse_suffixes(Seq::<char>::empty(), fuel) == Some(
        (Seq::<TermV>::empty(), Seq::<char>::empty()),
    ));
    assert(seq![t] + Seq::<TermV>::empty() =~= seq![t]);
    assert(spec_parse_exprs(s, fuel) == Some((TermV::Exprs(seq![t]), Seq::<char>::empty())));
}

/// String comparison in the condition language: for any operand contents
/// without a quote character, `'a' == 'b'` is a valid condition and is true
/// exactly when `a` and `b` are equal, character for character; `'a' != 'b'`
/// is its exact negation.
pub proof fn lemma_eval_quoted_eq(a: Seq<char>, b: Seq<char>, fs: Map<Seq<char>, bool>)
    requires
        forall|i: int| 0 <= i < a.len() ==> a[i] != '\'',
        forall|i: int| 0 <= i < b.len() ==> b[i] != '\'',
    ensures
        spec_evaluate(quoted_eq_str(a, b), fs) == Some(a == b),
        spec_evaluate(quoted_ne_str(a, b), fs) == Some(a != b),
{
    lemma_parse_quoted_cmp(a, b, true);
    lemma_parse_quoted_cmp(a, b, false);
    let items1 = seq![TermV::Eq(a, b)];
    assert(items1.len() == 1 && items1[0] == TermV::Eq(a, b));
    assert(eval_term(TermV::Eq(a, b), fs) == (a == b));
    assert(eval_term(TermV::Exprs(items1), fs) == eval_fold(items1, 1, a == b, fs));
    assert(eval_fold(items1, 1, a == b, fs) == (a == b));
    let items2 = seq![TermV::Ne(a, b)];
    assert(items2.len() == 1 && items2[0] == TermV::Ne(a, b));
    assert(eval_term(TermV::Ne(a, b), fs) == (a != b));
    assert(eval_term(TermV::Exprs(items2), fs) == eval_fold(items2, 1, a != b, fs));
    assert(eval_fold(items2, 1, a != b, fs) == (a != b));
}

/// The view of `terms_view(s, i)` element by element.
pub proof fn lemma_terms_view(s: Seq<Term>, i: int)
    requires
        0 <= i <= s.len(),
    ensures
        terms_view(s, i).len() == s.len() - i,
        forall|j: int| 0 <= j < s.len() - i ==> terms_view(s, i)[j] == term_view(s[i + j]),
    decreases s.len() - i,
{
    if i < s.len() {
        lemma_terms_view(s, i + 1);
    }
}

/// Evaluates a tree under the supplied filesystem answers.
pub fn eval_term_exec(t: &Term, fs: &BoolMap) -> (r: bool)
    ensures
        r == eval_term(t@, fs@),
    decreases term_size(*t),
{
    match t {
        Term::Str(s) => s.unicode_len() != 0,
        Term::Exprs(v) => {
            proof {
                lemma_terms_view(v@, 0);
            }
            let ghost items = terms_view(v@, 0);
            let n = v.len();
            if n == 0 {
                false
            } else {
                proof {
                    lemma_terms_size_ge(v@, 0, 0);
                }
                let mut b = eval_term_exec(&v[0], fs);
                let ghost target = eval_fold(items, 1, b, fs@);
                for i in 1..n
                    invariant
                        n == v.len(),
                        term_size(*t) == 1 + terms_size(v@, 0),
                        items == terms_view(v@, 0),
                        items.len() == n,
                        forall|j: int| 0 <= j < n ==> items[j] == term_view(v@[j]),
                        1 <= i <= n,
                        eval_fold(items, i as int, b, fs@) == target,
                    decreases n - i,
                {
                    proof {
                        lemma_terms_size_ge(v@, 0, i as int);
                    }
                    b = match &v[i] {
                        Term::And(r) => b && eval_term_exec(r, fs),
                        Term::Or(r) => b || eval_term_exec(r, fs),
                        _ => b,
                    };
                }
                b
            }
        },
        Term::Exists(p) => match fs.get(p.as_str()) {
            Some(b) => b,
            None => false,
        },
        Term::FinalSlash(s) => has_trailing_slash(s.as_str()),
        Term::Eq(a, b) => str_eq(a.as_str(), b.as_str()),
        Term::Ne(a, b) => !str_eq(a.as_str(), b.as_str()),
        Term::Not(t2) => !eval_term_exec(t2, fs),
        Term::And(t2) => eval_term_exec(t2, fs),
        Term::Or(t2) => eval_term_exec(t2, fs),
    }
}

/// Appends to `out` the paths the tree asks `exists(...)` about, in source
/// order.
pub fn collect_exists_paths(t: &Term, out: &mut Vec<String>)
    ensures
        final(out).deep_view() == old(out).deep_view() + exists_paths(t@),
    decreases term_size(*t),
{
    match t {
        Term::Exists(p) => {
            out.push(p.clone());
            proof {
                assert(out.deep_view() =~= old(out).deep_view() + exists_paths(t@));
            }
        },
        Term::Exprs(v) => {
            proof {
                lemma_terms_view(v@, 0);
            }
            let ghost items = terms_view(v@, 0);
            let ghost out0 = out.deep_view();
            let n = v.len();
            for i in 0..n
                invariant
                    n == v.len(),
                    term_size(*t) == 1 + terms_size(v@, 0),
                    items == terms_view(v@, 0),
                    items.len() == n,
                    forall|j: int| 0 <= j < n ==> items[j] == term_view(v@[j]),
                    out.deep_view() + exists_paths_fold(items, i as int) == out0
                        + exists_paths_fold(items, 0),
                decreases n - i,
            {
                let ghost before = out.deep_view();
                proof {
                    lemma_terms_size_ge(v@, 0, i as int);
                }
                collect_exists_paths(&v[i], out);
                proof {
                    assert(out.deep_view() + exists_paths_fold(items, i as int + 1) =~= before
                        + exists_paths_fold(items, i as int));
                }
            }
            proof {
                assert(out.deep_view() =~= out0 + exists_paths_fold(items, 0));
            }
        },
        Term::Not(t2) => collect_exists_paths(t2, out),
        Term::And(t2) => collect_exists_paths(t2, out),
        Term::Or(t2) => collect_exists_paths(t2, out),
        _ => {
            proof {
                assert(out.deep_view() =~= old(out).deep_view() + exists_paths(t@));
            }
        },
    }
}

} // verus!
