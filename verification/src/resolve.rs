//! Macro resolution: replaces each `$(Name)` reference in a string by the
//! property's current value, falling back to the environment snapshot, and
//! to the empty string - with a diagnostic - when neither knows the name.
//!
//! When a replacement value itself contains a `$(...)` pattern, that value
//! (and only it) is resolved again.  A depth bound guards the recursion: a
//! self-referential property ends resolution with a failure instead of
//! recursing without bound.

use vstd::prelude::*;

use crate::table::StringMap;

verus! {

// ---------------------------------------------------------------------------
// Diagnostics
// ---------------------------------------------------------------------------
/// An informational diagnostic; never a failure.
#[derive(Debug, Clone, PartialEq, Eq)]
pub enum Diag {
    /// A property was overwritten: the key, the value replaced, and the raw
    /// text of the new entry.
    Overwrite { key: String, previous: String, text: String },
    /// A macro reference could not be resolved and became empty.
    Unresolved { name: String },
}

/// The specification-level form of a diagnostic.
pub enum DiagV {
    Overwrite { key: Seq<char>, previous: Seq<char>, text: Seq<char> },
    Unresolved { name: Seq<char> },
}

impl View for Diag {
    type V = DiagV;

    open spec fn view(&self) -> DiagV {
        match self {
            Diag::Overwrite { key, previous, text } => DiagV::Overwrite {
                key: key@,
                previous: previous@,
                text: text@,
            },
            Diag::Unresolved { name } => DiagV::Unresolved { name: name@ },
        }
    }
}

/// The views of a sequence of diagnostics.
pub open spec fn diags_view(s: Seq<Diag>) -> Seq<DiagV> {
    s.map_values(|d: Diag| d@)
}

/// Appending a diagnostic appends its view.
pub proof fn lemma_diags_view_push(s: Seq<Diag>, d: Diag)
    ensures
        diags_view(s.push(d)) == diags_view(s).push(d@),
{
    assert(diags_view(s.push(d)) =~= diags_view(s).push(d@));
}

// ---------------------------------------------------------------------------
// The macro pattern
// ---------------------------------------------------------------------------
/// A character of a macro name: a letter, a digit or an underscore.
pub open spec fn is_ident_char(c: char) -> bool {
    ('a' <= c && c <= 'z') || ('A' <= c && c <= 'Z') || ('0' <= c && c <= '9') || c == '_'
}

/// Executable test for `is_ident_char`.
#[verifier::when_used_as_spec(is_ident_char)]
pub fn ident_char(c: char) -> (r: bool)
    ensures
        r == is_ident_char(c),
{
    ('a' <= c && c <= 'z') || ('A' <= c && c <= 'Z') || ('0' <= c && c <= '9') || c == '_'
}

/// The length of the maximal prefix of macro-name characters.
pub open spec fn ident_len(s: Seq<char>) -> nat
    decreases s.len(),
{
    if s.len() > 0 && is_ident_char(s[0]) {
        1 + ident_len(s.drop_first())
    } else {
        0
    }
}

/// A `$(Name)` reference stands at index `i` of `s`: `$`, `(`, the maximal
/// run of name characters, then `)`.
pub open spec fn macro_at(s: Seq<char>, i: int) -> bool {
    &&& 0 <= i
    &&& i + 2 <= s.len()
    &&& s[i] == '$'
    &&& s[i + 1] == '('
    &&& i + 2 + ident_len(s.skip(i + 2)) < s.len()
    &&& s[i + 2 + ident_len(s.skip(i + 2))] == ')'
}

/// The name inside the reference at `i`.
pub open spec fn macro_name(s: Seq<char>, i: int) -> Seq<char> {
    s.subrange(i + 2, i + 2 + ident_len(s.skip(i + 2)))
}

/// The index just past the reference at `i`.
pub open spec fn macro_end(s: Seq<char>, i: int) -> int {
    i + 3 + ident_len(s.skip(i + 2))
}

/// The first index at or after `i` where a reference stands.
pub open spec fn find_from(s: Seq<char>, i: int) -> Option<int>
    decreases s.len() - i,
{
    if i + 2 > s.len() {
        None
    } else if macro_at(s, i) {
        Some(i)
    } else {
        find_from(s, i + 1)
    }
}

/// What a found index satisfies.
pub proof fn lemma_find_from(s: Seq<char>, i: int)
    ensures
        match find_from(s, i) {
            Some(j) => i <= j && macro_at(s, j) && j + 3 <= macro_end(s, j) <= s.len() && forall|
                q: int,
            | i <= q < j ==> !macro_at(s, q),
            None => forall|q: int| i <= q ==> !macro_at(s, q),
        },
    decreases s.len() - i,
{
    if i + 2 > s.len() {
        assert forall|q: int| i <= q implies !macro_at(s, q) by {
            if macro_at(s, q) {
                assert(q + 2 <= s.len());
            }
        }
    } else if !macro_at(s, i) {
        lemma_find_from(s, i + 1);
    }
}

// ---------------------------------------------------------------------------
// Resolution
// ---------------------------------------------------------------------------
/// The resolution of `s[i..]`: `None` when the depth bound is exceeded,
/// otherwise the resolved text and the diagnostics in order of emission.
pub open spec fn spec_resolve_from(
    s: Seq<char>,
    i: int,
    table: Map<Seq<char>, Seq<char>>,
    env: Map<Seq<char>, Seq<char>>,
    fuel: nat,
) -> Option<(Seq<char>, Seq<DiagV>)>
    decreases fuel, s.len() - i,
    via spec_resolve_from_dec
{
    match find_from(s, i) {
        None => Some((s.subrange(i, s.len() as int), Seq::empty())),
        Some(j) => {
            let name = macro_name(s, j);
            let head = s.subrange(i, j);
            let (val, d1): (Seq<char>, Seq<DiagV>) = if table.contains_key(name) {
                (table[name], Seq::empty())
            } else if env.contains_key(name) {
                (env[name], Seq::empty())
            } else {
                (Seq::empty(), seq![DiagV::Unresolved { name }])
            };
            let val2 = if find_from(val, 0) is Some {
                if fuel > 0 {
                    spec_resolve_from(val, 0, table, env, (fuel - 1) as nat)
                } else {
                    None
                }
            } else {
                Some((val, Seq::<DiagV>::empty()))
            };
            match val2 {
                None => None,
                Some(p2) => match spec_resolve_from(s, macro_end(s, j), table, env, fuel) {
                    None => None,
                    Some(p3) => Some((head + p2.0 + p3.0, d1 + p2.1 + p3.1)),
                },
            }
        },
    }
}

#[via_fn]
proof fn spec_resolve_from_dec(
    s: Seq<char>,
    i: int,
    table: Map<Seq<char>, Seq<char>>,
    env: Map<Seq<char>, Seq<char>>,
    fuel: nat,
) {
    lemma_find_from(s, i);
}

/// The resolution of a whole string.
pub open spec fn spec_resolve(
    s: Seq<char>,
    table: Map<Seq<char>, Seq<char>>,
    env: Map<Seq<char>, Seq<char>>,
    fuel: nat,
) -> Option<(Seq<char>, Seq<DiagV>)> {
    spec_resolve_from(s, 0, table, env, fuel)
}

/// Resolving a string with no `$(...)` pattern returns it unchanged with no
/// diagnostics; resolving the result again does the same.  Resolution is
/// idempotent on pattern-free strings.
pub proof fn lemma_resolve_idempotent_no_pattern(
    s: Seq<char>,
    table: Map<Seq<char>, Seq<char>>,
    env: Map<Seq<char>, Seq<char>>,
    fuel: nat,
)
    requires
        find_from(s, 0) is None,
    ensures
        spec_resolve(s, table, env, fuel) == Some((s, Seq::<DiagV>::empty())),
        spec_resolve(spec_resolve(s, table, env, fuel).unwrap().0, table, env, fuel)
            == spec_resolve(s, table, env, fuel),
{
    assert(s.subrange(0, s.len() as int) =~= s);
}

// ---------------------------------------------------------------------------
// The executable scanner and resolver
// ---------------------------------------------------------------------------
proof fn lemma_ident_region(s: Seq<char>, p: int, j: int)
    requires
        0 <= p <= j <= s.len(),
        forall|q: int| p <= q < j ==> is_ident_char(s[q]),
        j == s.len() || !is_ident_char(s[j]),
    ensures
        ident_len(s.skip(p)) == j - p,
    decreases j - p,
{
    if p < j {
        assert(s.skip(p).drop_first() =~= s.skip(p + 1));
        lemma_ident_region(s, p + 1, j);
    }
}

/// Finds the first `$(Name)` reference at or after `pos`: its start and the
/// index just past its closing parenthesis.
fn find_macro_from(s: &str, pos: usize) -> (r: Option<(usize, usize)>)
    requires
        pos <= s@.len(),
    ensures
        match r {
            Some(p) => {
                &&& pos <= p.0
                &&& p.0 + 3 <= p.1 <= s@.len()
                &&& find_from(s@, pos as int) == Some(p.0 as int)
                &&& macro_end(s@, p.0 as int) == p.1
            },
            None => find_from(s@, pos as int) is None,
        },
{
    let n = s.unicode_len();
    let mut j = pos;
    loop
        invariant
            pos <= j,
            j <= n,
            n == s@.len(),
            find_from(s@, pos as int) == find_from(s@, j as int),
        decreases n - j,
    {
        if n - j < 2 {
            return None;
        }
        if s.get_char(j) == '$' && s.get_char(j + 1) == '(' {
            let mut m = j + 2;
            while m < n && ident_char(s.get_char(m))
                invariant
                    j + 2 <= m <= n,
                    n == s@.len(),
                    forall|q: int| j + 2 <= q < m ==> is_ident_char(s@[q]),
                decreases n - m,
            {
                m += 1;
            }
            proof {
                lemma_ident_region(s@, j as int + 2, m as int);
            }
            if m < n && s.get_char(m) == ')' {
                proof {
                    assert(macro_at(s@, j as int));
                }
                return Some((j, m + 1));
            }
            proof {
                assert(!macro_at(s@, j as int));
            }
        }
        j += 1;
    }
}

/// Replaces every `$(Name)` reference in `s`, appending a diagnostic for
/// each name that neither the table nor the environment resolves; `None`
/// when nested replacement values exceed the depth bound `fuel`.
#[verifier::rlimit(60)]
pub fn resolve_variables(
    s: &str,
    table: &StringMap,
    env: &StringMap,
    fuel: usize,
    diags: &mut Vec<Diag>,
) -> (r: Option<String>)
    ensures
        match spec_resolve(s@, table@, env@, fuel as nat) {
            Some(p) => {
                &&& r is Some
                &&& r.unwrap()@ == p.0
                &&& diags_view(final(diags)@) == diags_view(old(diags)@) + p.1
            },
            None => r is None,
        },
    decreases fuel,
{
    let ghost gt = table@;
    let ghost ge = env@;
    let n = s.unicode_len();
    let mut out = String::new();
    let ghost d0 = diags@;
    let ghost mut dacc: Seq<DiagV> = Seq::empty();
    let mut pos: usize = 0;
    let ghost target = spec_resolve(s@, gt, ge, fuel as nat);
    proof {
        if spec_resolve_from(s@, 0, gt, ge, fuel as nat) is Some {
            let rr = spec_resolve_from(s@, 0, gt, ge, fuel as nat).unwrap();
            assert(out@ + rr.0 =~= rr.0);
            assert(dacc + rr.1 =~= rr.1);
        }
        assert(diags_view(diags@) =~= diags_view(d0) + dacc);
    }
    loop
        invariant
            pos <= n,
            n == s@.len(),
            table@ == gt,
            env@ == ge,
            d0 == old(diags)@,
            target == spec_resolve(s@, gt, ge, fuel as nat),
            diags_view(diags@) == diags_view(d0) + dacc,
            match spec_resolve_from(s@, pos as int, gt, ge, fuel as nat) {
                Some(rr) => target == Some((out@ + rr.0, dacc + rr.1)),
                None => target is None,
            },
        decreases n - pos,
    {
        match find_macro_from(s, pos) {
            None => {
                proof {
                    let rr = spec_resolve_from(s@, pos as int, gt, ge, fuel as nat);
                    assert(rr == Some(
                        (s@.subrange(pos as int, n as int), Seq::<DiagV>::empty()),
                    ));
                    assert(dacc + Seq::<DiagV>::empty() =~= dacc);
                    assert(target == Some(
                        (out@ + s@.subrange(pos as int, n as int), dacc),
                    ));
                }
                out.append(s.substring_char(pos, n));
                proof {
                    assert(target.unwrap().0 == out@);
                    assert(target.unwrap().1 == dacc);
                }
                return Some(out);
            },
            Some((mstart, mend)) => {
                let ghost j = mstart as int;
                proof {
                    lemma_find_from(s@, pos as int);
                }
                out.append(s.substring_char(pos, mstart));
                let name = s.substring_char(mstart + 2, mend - 1);
                proof {
                    assert(name@ =~= macro_name(s@, j));
                }
                let mut val: String = String::new();
                let ghost mut d1: Seq<DiagV> = Seq::empty();
                match table.get(name) {
                    Some(v) => {
                        val = v.clone();
                    },
                    None => match env.get(name) {
                        Some(v) => {
                            val = v.clone();
                        },
                        None => {
                            let d = Diag::Unresolved { name: name.to_owned() };
                            proof {
                                d1 = seq![DiagV::Unresolved { name: name@ }];
                                lemma_diags_view_push(diags@, d);
                            }
                            diags.push(d);
                            proof {
                                dacc = dacc + d1;
                                assert(diags_view(diags@) =~= diags_view(d0) + dacc);
                            }
                        },
                    },
                }
                let nested = find_macro_from(val.as_str(), 0);
                let mut val2: String = val;
                let ghost mut d2: Seq<DiagV> = Seq::empty();
                if nested.is_some() {
                    if fuel == 0 {
                        return None;
                    }
                    let ghost dpre = diags@;
                    match resolve_variables(val2.as_str(), table, env, fuel - 1, diags) {
                        Some(v2) => {
                            proof {
                                d2 = spec_resolve(val2@, gt, ge, (fuel - 1) as nat).unwrap().1;
                                dacc = dacc + d2;
                            }
                            val2 = v2;
                        },
                        None => {
                            return None;
                        },
                    }
                }
                out.append(val2.as_str());
                pos = mend;
            },
        }
    }
}

} // verus!
