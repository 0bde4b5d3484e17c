//! Preparing a grammar: each rule's pattern is read into its pieces.

use vstd::prelude::*;
use crate::grammar::{Part, parts_view, Rule, RuleV, RuleType, Grammar, rulesets_view};
use crate::text::{trim, is_single, trim_bounds, string_of};
use crate::token::{token_scan, token_at};
use crate::tokenable::Tokenable;

verus! {

/// Index of the first `}` in `r` at or after `i`, or the length of `r`.
pub open spec fn close_brace_from(r: Seq<char>, i: int) -> int
    decreases r.len() - i,
{
    if i < 0 || i >= r.len() {
        r.len() as int
    } else if r[i] == '}' {
        i
    } else {
        close_brace_from(r, i + 1)
    }
}

/// The closing brace searched from `i` lies at `i` or later, within the rule or at its end.
pub proof fn lemma_close_brace_bounds(r: Seq<char>, i: int)
    requires
        0 <= i <= r.len(),
    ensures
        i <= close_brace_from(r, i) <= r.len(),
        close_brace_from(r, i) < r.len() ==> r[close_brace_from(r, i)] == '}',
    decreases r.len() - i,
{
    if i < r.len() && r[i] != '}' {
        lemma_close_brace_bounds(r, i + 1);
    }
}

/// The pieces of the pattern `r` from index `at` on, after `acc`.
///
/// A token that is not an opening brace (or is an escaped one) is a literal
/// piece, except a lone backslash before a brace; an opening brace starts a
/// placeholder whose text runs up to the next closing brace. A placeholder
/// that is never closed is dropped.
pub open spec fn pieces_from(r: Seq<char>, pat: Seq<char>, at: int, acc: Seq<(bool, Seq<char>)>) -> Seq<
    (bool, Seq<char>),
>
    decreases r.len() - at,
{
    if at < 0 || at >= r.len() {
        acc
    } else {
        let end = token_scan(r, pat, at).0;
        let token = token_scan(r, pat, at).1;
        let piece = trim(r.subrange(at, end));
        if end <= at || end > r.len() {
            acc
        } else if !is_single(piece, '{') || (at > 0 && r[at - 1] == '\\') {
            if is_single(piece, '\\') && end < r.len() && (r[end] == '{' || r[end] == '}') {
                pieces_from(r, pat, end, acc)
            } else {
                pieces_from(r, pat, end, acc.push((true, token)))
            }
        } else {
            let close = close_brace_from(r, end);
            if end <= close < r.len() {
                pieces_from(r, pat, close + 1, acc.push((false, r.subrange(end, close))))
            } else {
                acc
            }
        }
    }
}

/// The pieces of the pattern `r`.
pub open spec fn pieces(r: Seq<char>, pat: Seq<char>) -> Seq<(bool, Seq<char>)> {
    pieces_from(r, pat, 0, seq![])
}

/// Reads the pattern `r` into its pieces.
pub fn rule_pieces(r: &[char], tokenable: &Tokenable) -> (v: Vec<Part>)
    ensures
        parts_view(v@) == pieces(r@, tokenable@),
{
    let n = r.len();
    let mut v: Vec<Part> = Vec::new();
    let mut at: usize = 0;
    assert(parts_view(v@) =~= Seq::<(bool, Seq<char>)>::empty());
    while at < n
        invariant
            n == r@.len(),
            at <= n,
            pieces_from(r@, tokenable@, at as int, parts_view(v@)) == pieces(r@, tokenable@),
        decreases n - at,
    {
        let ck = at;
        let (end, token) = token_at(r, ck, tokenable);
        at = end;
        let (x, y) = trim_bounds(r, ck, end);
        let piece_is_open = y > x && y - x == 1 && r[x] == '{';
        let piece_is_backslash = y > x && y - x == 1 && r[x] == '\\';
        assert(is_single(trim(r@.subrange(ck as int, end as int)), '{') == piece_is_open) by {
            assert(r@.subrange(x as int, y as int).len() == y - x);
            if y > x && y - x == 1 {
                assert(r@.subrange(x as int, y as int)[0] == r@[x as int]);
            }
        };
        assert(is_single(trim(r@.subrange(ck as int, end as int)), '\\') == piece_is_backslash) by {
            assert(r@.subrange(x as int, y as int).len() == y - x);
            if y > x && y - x == 1 {
                assert(r@.subrange(x as int, y as int)[0] == r@[x as int]);
            }
        };
        if !piece_is_open || (ck > 0 && r[ck - 1] == '\\') {
            if piece_is_backslash && end < n && (r[end] == '{' || r[end] == '}') {
            } else {
                let ghost before = parts_view(v@);
                v.push(Part { literal: true, text: string_of(token.as_slice()) });
                assert(parts_view(v@) =~= before.push((true, token@)));
            }
        } else {
            proof {
                lemma_close_brace_bounds(r@, end as int);
            }
            let start = at;
            while at < n && r[at] != '}'
                invariant
                    n == r@.len(),
                    start <= at <= n,
                    close_brace_from(r@, at as int) == close_brace_from(r@, start as int),
                decreases n - at,
            {
                at = at + 1;
            }
            if at < n {
                let ghost before = parts_view(v@);
                let text = vstd::slice::slice_to_vec(vstd::slice::slice_subrange(r, start, at));
                v.push(Part { literal: false, text: string_of(text.as_slice()) });
                assert(parts_view(v@) =~= before.push((false, r@.subrange(start as int, at as int))));
                at = at + 1;
            }
        }
    }
    v
}

} // verus!

verus! {

/// The rule `rv` with its pattern read into pieces.
pub open spec fn prepared(rv: RuleV, pat: Seq<char>) -> RuleV {
    RuleV { tokens: Some(pieces(rv.rule.unwrap(), pat)), ..rv }
}

/// Prepares the rules of one rule set in order; stops at the first rule
/// without a pattern and returns its index.
fn prepare_rules(rules: &mut Vec<Rule>, tokenable: &Tokenable) -> (r: Option<usize>)
    ensures
        final(rules)@.len() == old(rules)@.len(),
        match r {
            None => forall|k: int|
                0 <= k < old(rules)@.len() ==> (#[trigger] old(rules)@[k]@).rule is Some
                    && final(rules)@[k]@ == prepared(old(rules)@[k]@, tokenable@),
            Some(k0) => {
                &&& k0 < old(rules)@.len()
                &&& old(rules)@[k0 as int]@.rule is None
                &&& forall|k: int|
                    0 <= k < k0 ==> (#[trigger] old(rules)@[k]@).rule is Some
                        && final(rules)@[k]@ == prepared(old(rules)@[k]@, tokenable@)
                &&& forall|k: int| k0 <= k < old(rules)@.len() ==> #[trigger] final(rules)@[k] == old(rules)@[k]
            },
        },
{
    let mut k: usize = 0;
    while k < rules.len()
        invariant
            k <= rules@.len(),
            rules@.len() == old(rules)@.len(),
            forall|j: int|
                0 <= j < k ==> (#[trigger] old(rules)@[j]@).rule is Some
                    && rules@[j]@ == prepared(old(rules)@[j]@, tokenable@),
            forall|j: int| k <= j < rules@.len() ==> #[trigger] rules@[j] == old(rules)@[j],
        decreases rules@.len() - k,
    {
        let text = match &rules[k].rule {
            Some(t) => crate::text::chars_of(t.as_str()),
            None => {
                return Some(k);
            },
        };
        let parts = rule_pieces(text.as_slice(), tokenable);
        rules[k].tokens = Some(parts);
        k = k + 1;
    }
    None
}

} // verus!

verus! {

/// Whether `(r, k)` comes before `(r0, k0)`.
pub open spec fn before2(r: int, k: int, r0: int, k0: int) -> bool {
    r < r0 || (r == r0 && k < k0)
}

/// Whether `(t, r, k)` comes before `(t0, r0, k0)`.
pub open spec fn before3(t: int, r: int, k: int, t0: int, r0: int, k0: int) -> bool {
    t < t0 || (t == t0 && before2(r, k, r0, k0))
}

/// Prepares the rule sets in order; stops at the first rule without a
/// pattern and returns its place.
fn prepare_rulesets(rulesets: &mut Vec<Vec<Rule>>, tokenable: &Tokenable) -> (res: Option<(usize, usize)>)
    ensures
        ({
            let rv = rulesets_view(old(rulesets)@);
            let fv = rulesets_view(final(rulesets)@);
            &&& fv.len() == rv.len()
            &&& forall|r: int| 0 <= r < rv.len() ==> (#[trigger] fv[r]).len() == rv[r].len()
            &&& match res {
                None => forall|r: int, k: int|
                    0 <= r < rv.len() && 0 <= k < rv[r].len() ==> (#[trigger] rv[r][k]).rule is Some
                        && fv[r][k] == prepared(rv[r][k], tokenable@),
                Some((r0, k0)) => {
                    &&& r0 < rv.len() && k0 < rv[r0 as int].len()
                    &&& rv[r0 as int][k0 as int].rule is None
                    &&& forall|r: int, k: int|
                        0 <= r < rv.len() && 0 <= k < rv[r].len() ==> if before2(r, k, r0 as int, k0 as int) {
                            (#[trigger] rv[r][k]).rule is Some && fv[r][k] == prepared(rv[r][k], tokenable@)
                        } else {
                            fv[r][k] == rv[r][k]
                        }
                },
            }
        }),
{
    let ghost rv = rulesets_view(old(rulesets)@);
    let mut r: usize = 0;
    while r < rulesets.len()
        invariant
            r <= rulesets@.len(),
            rv == rulesets_view(old(rulesets)@),
            rulesets@.len() == rv.len(),
            forall|i: int| 0 <= i < rv.len() ==> (#[trigger] rulesets_view(rulesets@)[i]).len() == rv[i].len(),
            forall|i: int, k: int|
                0 <= i < r && 0 <= k < rv[i].len() ==> (#[trigger] rv[i][k]).rule is Some
                    && rulesets_view(rulesets@)[i][k] == prepared(rv[i][k], tokenable@),
            forall|i: int| r <= i < rv.len() ==> #[trigger] rulesets@[i] == old(rulesets)@[i],
        decreases rulesets@.len() - r,
    {
        let ghost before = rulesets@;
        let res = prepare_rules(&mut rulesets[r], tokenable);
        assert forall|i: int| 0 <= i < rulesets@.len() && i != r implies #[trigger] rulesets@[i] == before[i] by {}
        assert forall|i: int| 0 <= i < rv.len() implies (#[trigger] rulesets_view(rulesets@)[i]).len() == rv[i].len() by {
            if i != r {
                assert(rulesets@[i] == before[i]);
                assert(rulesets_view(rulesets@)[i].len() == rulesets@[i]@.len());
                assert(rulesets_view(before)[i].len() == before[i]@.len());
            } else {
                assert(rulesets@[r as int]@.len() == before[r as int]@.len());
                assert(before[r as int] == old(rulesets)@[r as int]);
                assert(rulesets_view(rulesets@)[i].len() == rulesets@[r as int]@.len());
                assert(rv[i] == rulesets_view(old(rulesets)@)[i]);
                assert(rv[i].len() == old(rulesets)@[r as int]@.len());
            }
        }
        assert forall|k: int| 0 <= k < rulesets@[r as int]@.len() implies #[trigger] rulesets_view(rulesets@)[r as int][k] == rulesets@[r as int]@[k]@ by {}
        assert forall|k: int| 0 <= k < old(rulesets)@[r as int]@.len() implies #[trigger] rv[r as int][k] == old(rulesets)@[r as int]@[k]@ by {}
        match res {
            None => {
                r = r + 1;
            },
            Some(k0) => {
                let ghost fv = rulesets_view(rulesets@);
                assert forall|i: int, k: int|
                    0 <= i < rv.len() && 0 <= k < rv[i].len() implies if before2(i, k, r as int, k0 as int) {
                        (#[trigger] rv[i][k]).rule is Some && fv[i][k] == prepared(rv[i][k], tokenable@)
                    } else {
                        fv[i][k] == rv[i][k]
                    } by {
                    if i > r {
                        assert(rulesets@[i] == old(rulesets)@[i]);
                    }
                }
                return Some((r, k0));
            },
        }
    }
    None
}

/// Prepares the types in order; stops at the first rule without a pattern
/// and returns its place.
fn prepare_types(types: &mut Vec<RuleType>, tokenable: &Tokenable) -> (res: Option<(usize, usize, usize)>)
    ensures
        ({
            let gv = Seq::new(old(types)@.len(), |i: int| old(types)@[i]@);
            let fv = Seq::new(final(types)@.len(), |i: int| final(types)@[i]@);
            prepare_outcome(gv, fv, tokenable@, res)
        }),
{
    let ghost gv = Seq::new(old(types)@.len(), |i: int| old(types)@[i]@);
    let mut t: usize = 0;
    while t < types.len()
        invariant
            t <= types@.len(),
            gv == Seq::new(old(types)@.len(), |i: int| old(types)@[i]@),
            types@.len() == gv.len(),
            forall|i: int| 0 <= i < gv.len() ==> same_type_shape(#[trigger] types@[i]@, gv[i]),
            forall|i: int, r: int, k: int|
                0 <= i < t && 0 <= r < gv[i].1.len() && 0 <= k < gv[i].1[r].len() ==> (
                #[trigger] gv[i].1[r][k]).rule is Some
                    && types@[i]@.1[r][k] == prepared(gv[i].1[r][k], tokenable@),
            forall|i: int| t <= i < gv.len() ==> #[trigger] types@[i] == old(types)@[i],
        decreases types@.len() - t,
    {
        let ghost before = types@;
        let res = prepare_rulesets(&mut types[t].rulesets, tokenable);
        assert forall|i: int| 0 <= i < types@.len() && i != t implies #[trigger] types@[i] == before[i] by {}
        assert(types@[t as int]@.0 == gv[t as int].0);
        match res {
            None => {
                t = t + 1;
            },
            Some((r0, k0)) => {
                let ghost fv = Seq::new(types@.len(), |i: int| types@[i]@);
                assert forall|i: int, r: int, k: int|
                    0 <= i < gv.len() && 0 <= r < gv[i].1.len() && 0 <= k < gv[i].1[r].len() implies if before3(i, r, k, t as int, r0 as int, k0 as int) {
                        (#[trigger] gv[i].1[r][k]).rule is Some && fv[i].1[r][k] == prepared(gv[i].1[r][k], tokenable@)
                    } else {
                        fv[i].1[r][k] == gv[i].1[r][k]
                    } by {
                    if i > t {
                        assert(types@[i] == old(types)@[i]);
                    }
                }
                return Some((t, r0, k0));
            },
        }
    }
    None
}

/// Whether two types have the same name and the same number of rule sets
/// and rules.
pub open spec fn same_type_shape(a: (Seq<char>, Seq<Seq<RuleV>>), b: (Seq<char>, Seq<Seq<RuleV>>)) -> bool {
    &&& a.0 == b.0
    &&& a.1.len() == b.1.len()
    &&& forall|r: int| 0 <= r < a.1.len() ==> (#[trigger] a.1[r]).len() == b.1[r].len()
}

/// What preparing the grammar `g` gives `f`, given where it stopped.
pub open spec fn prepare_outcome(
    g: Seq<(Seq<char>, Seq<Seq<RuleV>>)>,
    f: Seq<(Seq<char>, Seq<Seq<RuleV>>)>,
    pat: Seq<char>,
    stop: Option<(usize, usize, usize)>,
) -> bool {
    &&& f.len() == g.len()
    &&& forall|t: int| 0 <= t < g.len() ==> same_type_shape(#[trigger] f[t], g[t])
    &&& match stop {
        None => forall|t: int, r: int, k: int|
            0 <= t < g.len() && 0 <= r < g[t].1.len() && 0 <= k < g[t].1[r].len() ==> (
            #[trigger] g[t].1[r][k]).rule is Some && f[t].1[r][k] == prepared(g[t].1[r][k], pat),
        Some((t0, r0, k0)) => {
            &&& t0 < g.len() && r0 < g[t0 as int].1.len() && k0 < g[t0 as int].1[r0 as int].len()
            &&& g[t0 as int].1[r0 as int][k0 as int].rule is None
            &&& forall|t: int, r: int, k: int|
                0 <= t < g.len() && 0 <= r < g[t].1.len() && 0 <= k < g[t].1[r].len() ==> if before3(
                    t,
                    r,
                    k,
                    t0 as int,
                    r0 as int,
                    k0 as int,
                ) {
                    (#[trigger] g[t].1[r][k]).rule is Some && f[t].1[r][k] == prepared(g[t].1[r][k], pat)
                } else {
                    f[t].1[r][k] == g[t].1[r][k]
                }
        },
    }
}

} // verus!

verus! {

/// Prepares every rule of the grammar, in order: its pattern is read into
/// its pieces. Fails with "No rule field." at the first rule without a
/// pattern; the rules before it are prepared and the others unchanged.
pub fn find_template(rules: &mut Grammar, tokenable: &Tokenable) -> (r: Result<(), &'static str>)
    ensures
        match r {
            Ok(()) => prepare_outcome(old(rules)@, final(rules)@, tokenable@, None),
            Err(e) => e@ == "No rule field."@ && exists|t0: usize, r0: usize, k0: usize|
                prepare_outcome(old(rules)@, final(rules)@, tokenable@, Some((t0, r0, k0))),
        },
{
    match prepare_types(&mut rules.types, tokenable) {
        None => Ok(()),
        Some(stop) => {
            assert(prepare_outcome(old(rules)@, rules@, tokenable@, Some(stop)));
            Err("No rule field.")
        },
    }
}

} // verus!

verus! {

/// Whether every rule of every type of `g` carries its pieces.
pub open spec fn all_prepared(g: Seq<(Seq<char>, Seq<Seq<RuleV>>)>) -> bool {
    forall|t: int, r: int, k: int|
        0 <= t < g.len() && 0 <= r < g[t].1.len() && 0 <= k < g[t].1[r].len() ==> (
        #[trigger] g[t].1[r][k]).tokens is Some
}

/// Once preparing a grammar succeeds, every rule of every type carries its
/// pieces, so no reading of a phrase finds a rule without them.
pub proof fn law_prepared_grammar_carries_pieces(
    g: Seq<(Seq<char>, Seq<Seq<RuleV>>)>,
    f: Seq<(Seq<char>, Seq<Seq<RuleV>>)>,
    pat: Seq<char>,
    ty: Seq<char>,
)
    requires
        prepare_outcome(g, f, pat, None),
    ensures
        all_prepared(f),
        crate::phrase::prepared_sets(crate::grammar::rulesets_of(f, ty)),
{
    assert forall|t: int, r: int, k: int|
        0 <= t < f.len() && 0 <= r < f[t].1.len() && 0 <= k < f[t].1[r].len() implies (
        #[trigger] f[t].1[r][k]).tokens is Some by {
        assert(same_type_shape(f[t], g[t]));
        assert(f[t].1[r][k] == prepared(g[t].1[r][k], pat));
    }
    crate::grammar::lemma_type_index_bounds(f, ty, 0);
    let i = crate::grammar::type_index_from(f, ty, 0);
    if i < f.len() {
        assert forall|r: int, k: int| 0 <= r < f[i].1.len() && 0 <= k < f[i].1[r].len() implies (
            #[trigger] f[i].1[r][k]).tokens is Some by {}
    }
}

/// Whether no placeholder piece of `ps` holds a closing brace.
pub open spec fn placeholders_unbraced(ps: Seq<(bool, Seq<char>)>) -> bool {
    forall|i: int, c: int| 0 <= i < ps.len() && !ps[i].0 && 0 <= c < ps[i].1.len() ==> #[trigger] ps[i].1[c] != '}'
}

/// No character before the closing brace searched from `i` is one.
pub proof fn lemma_close_brace_first(r: Seq<char>, i: int, c: int)
    requires
        0 <= i <= c < close_brace_from(r, i),
        c < r.len(),
    ensures
        r[c] != '}',
    decreases c - i,
{
    if r[i] != '}' && i < c {
        lemma_close_brace_first(r, i + 1, c);
    }
}

/// Reading pieces adds no placeholder that holds a closing brace.
pub proof fn lemma_pieces_unbraced(r: Seq<char>, pat: Seq<char>, at: int, acc: Seq<(bool, Seq<char>)>)
    requires
        placeholders_unbraced(acc),
    ensures
        placeholders_unbraced(pieces_from(r, pat, at, acc)),
    decreases r.len() - at,
{
    if 0 <= at < r.len() {
        let end = token_scan(r, pat, at).0;
        let token = token_scan(r, pat, at).1;
        let piece = trim(r.subrange(at, end));
        if at < end <= r.len() {
            if !is_single(piece, '{') || (at > 0 && r[at - 1] == '\\') {
                if is_single(piece, '\\') && end < r.len() && (r[end] == '{' || r[end] == '}') {
                    lemma_pieces_unbraced(r, pat, end, acc);
                } else {
                    let acc2 = acc.push((true, token));
                    assert forall|i: int, c: int| 0 <= i < acc2.len() && !acc2[i].0 && 0 <= c < acc2[i].1.len() implies #[trigger] acc2[i].1[c] != '}' by {
                        assert(acc2[i] == acc[i]);
                    }
                    lemma_pieces_unbraced(r, pat, end, acc2);
                }
            } else {
                let close = close_brace_from(r, end);
                if end <= close < r.len() {
                    let text = r.subrange(end, close);
                    let acc2 = acc.push((false, text));
                    assert forall|i: int, c: int| 0 <= i < acc2.len() && !acc2[i].0 && 0 <= c < acc2[i].1.len() implies #[trigger] acc2[i].1[c] != '}' by {
                        if i < acc.len() {
                            assert(acc2[i] == acc[i]);
                        } else {
                            lemma_close_brace_first(r, end, end + c);
                        }
                    }
                    lemma_pieces_unbraced(r, pat, close + 1, acc2);
                }
            }
        }
    }
}

/// Once preparing a grammar succeeds, every rule carries its pieces, each a
/// literal or a placeholder, and no placeholder's text holds a closing brace
/// (the braces around it are left out).
pub proof fn law_placeholders_leave_out_braces(
    g: Seq<(Seq<char>, Seq<Seq<RuleV>>)>,
    f: Seq<(Seq<char>, Seq<Seq<RuleV>>)>,
    pat: Seq<char>,
    t: int,
    r: int,
    k: int,
)
    requires
        prepare_outcome(g, f, pat, None),
        0 <= t < f.len(),
        0 <= r < f[t].1.len(),
        0 <= k < f[t].1[r].len(),
    ensures
        f[t].1[r][k].tokens is Some,
        placeholders_unbraced(f[t].1[r][k].tokens.unwrap()),
{
    assert(same_type_shape(f[t], g[t]));
    assert(f[t].1[r][k] == prepared(g[t].1[r][k], pat));
    lemma_pieces_unbraced(g[t].1[r][k].rule.unwrap(), pat, 0, seq![]);
}

/// Preparing a prepared grammar again changes nothing.
pub proof fn law_prepare_twice(
    g: Seq<(Seq<char>, Seq<Seq<RuleV>>)>,
    f: Seq<(Seq<char>, Seq<Seq<RuleV>>)>,
    h: Seq<(Seq<char>, Seq<Seq<RuleV>>)>,
    pat: Seq<char>,
)
    requires
        prepare_outcome(g, f, pat, None),
        prepare_outcome(f, h, pat, None),
    ensures
        h.len() == f.len(),
        forall|t: int| 0 <= t < f.len() ==> same_type_shape(#[trigger] h[t], f[t]),
        forall|t: int, r: int, k: int|
            0 <= t < f.len() && 0 <= r < f[t].1.len() && 0 <= k < f[t].1[r].len() ==> #[trigger] h[t].1[r][k]
                == f[t].1[r][k],
{
    assert forall|t: int, r: int, k: int|
        0 <= t < f.len() && 0 <= r < f[t].1.len() && 0 <= k < f[t].1[r].len() implies #[trigger] h[t].1[r][k]
        == f[t].1[r][k] by {
        assert(same_type_shape(f[t], g[t]));
        let x = g[t].1[r][k];
        assert(f[t].1[r][k] == prepared(x, pat));
        assert(h[t].1[r][k] == prepared(f[t].1[r][k], pat));
    }
}

/// The text a piece stands for in its pattern: a literal as it is, a
/// placeholder between braces.
pub open spec fn piece_text(p: (bool, Seq<char>)) -> Seq<char> {
    if p.0 {
        p.1
    } else {
        seq!['{'] + p.1 + seq!['}']
    }
}

/// The pieces written back one after the other.
pub open spec fn rebuild(ps: Seq<(bool, Seq<char>)>) -> Seq<char>
    decreases ps.len(),
{
    if ps.len() == 0 {
        seq![]
    } else {
        rebuild(ps.drop_last()) + piece_text(ps.last())
    }
}

/// Whether the pattern `r` has no space and no backslash, and each of its
/// opening braces is closed by a later closing brace.
pub open spec fn plain_pattern(r: Seq<char>) -> bool {
    &&& forall|m: int| 0 <= m < r.len() ==> #[trigger] r[m] != ' ' && r[m] != '\\'
    &&& forall|m: int| 0 <= m < r.len() && #[trigger] r[m] == '{' ==> close_brace_from(r, m + 1) < r.len()
}

/// Whether the tokenable pattern matches no text of two characters or more
/// that holds an opening brace.
pub open spec fn braces_stand_alone(pat: Seq<char>) -> bool {
    forall|x: Seq<char>| x.len() >= 2 && x.contains('{') ==> !#[trigger] crate::tokenable::regex_is_match(pat, x)
}

/// In a text without spaces and backslashes, what reading forwards keeps is
/// the text itself.
proof fn lemma_kept_plain(s: Seq<char>, i: int, e: int)
    requires
        forall|m: int| 0 <= m < s.len() ==> #[trigger] s[m] != ' ' && s[m] != '\\',
        0 <= i <= e <= s.len(),
    ensures
        crate::token::kept_from(s, i, e) == s.subrange(i, e),
    decreases e - i,
{
    if i < e {
        lemma_kept_plain(s, i + 1, e);
        assert(s.subrange(i, e) =~= seq![s[i]] + s.subrange(i + 1, e));
    } else {
        assert(s.subrange(i, e) =~= Seq::<char>::empty());
    }
}

/// Writing back the pieces read from `at` on after `acc` gives what `acc`
/// gives followed by the pattern from `at` on.
proof fn lemma_rebuild_from(r: Seq<char>, pat: Seq<char>, at: int, acc: Seq<(bool, Seq<char>)>)
    requires
        plain_pattern(r),
        braces_stand_alone(pat),
        0 <= at <= r.len(),
    ensures
        rebuild(pieces_from(r, pat, at, acc)) == rebuild(acc) + r.subrange(at, r.len() as int),
    decreases r.len() - at,
{
    if at == r.len() {
        assert(rebuild(acc) + r.subrange(at, r.len() as int) =~= rebuild(acc));
    } else {
        let (end, token) = token_scan(r, pat, at);
        crate::token::law_token_text_is_its_span(r, pat, at);
        crate::token::lemma_scan_forward_stop(r, pat, at + 1, crate::token::first_checking(r, at));
        lemma_kept_plain(r, at + 1, end);
        assert(r[at] != ' ' && r[at] != '\\');
        assert(crate::token::first_checking(r, at) == seq![r[at]]);
        assert(token =~= r.subrange(at, end));
        let piece = trim(r.subrange(at, end));
        if !is_single(piece, '{') {
            assert(!is_single(piece, '\\')) by {
                if is_single(piece, '\\') {
                    lemma_trim_char(r.subrange(at, end));
                }
            }
            lemma_rebuild_from(r, pat, end, acc.push((true, token)));
            assert(acc.push((true, token)).drop_last() =~= acc);
            assert(r.subrange(at, r.len() as int) =~= r.subrange(at, end) + r.subrange(end, r.len() as int));
        } else {
            lemma_trim_char(r.subrange(at, end));
            if token.len() >= 2 {
                assert(token.contains('{'));
                assert(crate::tokenable::regex_is_match(pat, token));
            }
            assert(end == at + 1);
            assert(r[at] == '{');
            let close = close_brace_from(r, end);
            lemma_close_brace_bounds(r, end);
            let ph = (false, r.subrange(end, close));
            lemma_rebuild_from(r, pat, close + 1, acc.push(ph));
            assert(acc.push(ph).drop_last() =~= acc);
            assert(r.subrange(at, r.len() as int) =~= seq!['{'] + r.subrange(end, close) + seq!['}'] + r.subrange(
                close + 1,
                r.len() as int,
            ));
        }
    }
}

/// The characters of `trim(x)` are characters of `x`: where it is one
/// character, that character stands in `x`.
proof fn lemma_trim_char(x: Seq<char>)
    ensures
        trim(x).len() == 1 ==> x.contains(trim(x)[0]),
{
    crate::text::lemma_skip_ws(x, 0);
    let a = crate::text::skip_ws_from(x, 0);
    crate::text::lemma_back_ws(x, a, x.len() as int);
    if trim(x).len() == 1 {
        assert(trim(x)[0] == x[a]);
    }
}

/// A pattern without spaces and backslashes whose braces are closed, read
/// with a tokenable pattern that never joins a brace to other characters,
/// is written back exactly by its pieces: the literals as they are, the
/// placeholders between braces.
pub proof fn law_pieces_rebuild_the_pattern(r: Seq<char>, pat: Seq<char>)
    requires
        plain_pattern(r),
        braces_stand_alone(pat),
    ensures
        rebuild(pieces(r, pat)) == r,
{
    lemma_rebuild_from(r, pat, 0, seq![]);
    assert(r.subrange(0, r.len() as int) =~= r);
    assert(rebuild(Seq::<(bool, Seq<char>)>::empty()) + r =~= r);
}

/// The text a piece stands for in its pattern, escapes written back: the
/// literal `{` as `\{`, another literal as it is, a placeholder between
/// braces.
pub open spec fn piece_text_escaped(p: (bool, Seq<char>)) -> Seq<char> {
    if p.0 {
        if p.1 == seq!['{'] {
            seq!['\\', '{']
        } else {
            p.1
        }
    } else {
        seq!['{'] + p.1 + seq!['}']
    }
}

/// The pieces written back one after the other, escapes included.
pub open spec fn rebuild_escaped(ps: Seq<(bool, Seq<char>)>) -> Seq<char>
    decreases ps.len(),
{
    if ps.len() == 0 {
        seq![]
    } else {
        rebuild_escaped(ps.drop_last()) + piece_text_escaped(ps.last())
    }
}

/// Whether the pattern `r` has no white space, each backslash escapes an
/// opening brace right after it, no opening brace is followed by a
/// backslash, and each opening brace that is not escaped is closed by a
/// later closing brace.
pub open spec fn escaped_pattern(r: Seq<char>) -> bool {
    &&& forall|m: int| 0 <= m < r.len() ==> !crate::text::is_ws(#[trigger] r[m])
    &&& forall|m: int| 0 <= m < r.len() && #[trigger] r[m] == '\\' ==> m + 1 < r.len() && r[m + 1] == '{'
    &&& forall|m: int| 0 <= m < r.len() && #[trigger] r[m] == '{' ==> !(m + 1 < r.len() && r[m + 1] == '\\')
    &&& forall|m: int|
        0 <= m < r.len() && #[trigger] r[m] == '{' && !(m > 0 && r[m - 1] == '\\') ==> close_brace_from(r, m + 1)
            < r.len()
}

/// Where the text not yet written back starts when reading goes on at
/// `at`: at the escaping backslash just before it, if there is one.
pub open spec fn resume_at(r: Seq<char>, at: int) -> int {
    if at > 0 && r[at - 1] == '\\' {
        at - 1
    } else {
        at
    }
}

/// A text without white space is its own trimmed text.
proof fn lemma_trim_plain(x: Seq<char>)
    requires
        x.len() > 0,
        forall|m: int| 0 <= m < x.len() ==> !crate::text::is_ws(#[trigger] x[m]),
    ensures
        trim(x) == x,
{
    assert(crate::text::skip_ws_from(x, 0) == 0);
    assert(crate::text::back_ws_from(x, 0, x.len() as int) == x.len());
    assert(x.subrange(0, x.len() as int) =~= x);
}

/// Reading forwards from `i` in an escaped pattern, after a start without
/// an opening brace: the token ends before any opening brace, and its text
/// is what was read from `i` on, less an escaping backslash at its end.
proof fn lemma_scan_escaped(s: Seq<char>, pat: Seq<char>, i: int, checking: Seq<char>)
    requires
        escaped_pattern(s),
        braces_stand_alone(pat),
        0 <= i <= s.len(),
        checking.len() >= 1,
        !checking.contains('{'),
    ensures
        ({
            let (e, t) = crate::token::scan_forward(s, pat, i, checking);
            &&& i <= e <= s.len()
            &&& forall|m: int| i <= m < e ==> #[trigger] s[m] != '{'
            &&& t == checking + s.subrange(i, if e > i && s[e - 1] == '\\' { e - 1 } else { e })
        }),
    decreases s.len() - i,
{
    if i == s.len() {
        assert(checking + s.subrange(i, i) =~= checking);
    } else {
        let c = s[i];
        assert(c != ' ');
        if c == '\\' {
            assert(s[i + 1] == '{');
            assert(!crate::token::kept(s, i));
            assert(crate::token::kept(s, i + 1));
            let x = checking.push('{');
            assert(x[x.len() - 1] == '{');
            assert(x.contains('{'));
            assert(!crate::tokenable::regex_is_match(pat, x));
            assert(s[i + 1] != ' ');
            assert(crate::token::scan_forward(s, pat, i + 1, checking) == (i + 1, checking));
            assert(checking + s.subrange(i, i) =~= checking);
        } else if c == '{' {
            let x = checking.push('{');
            assert(x[x.len() - 1] == '{');
            assert(x.contains('{'));
            assert(!crate::tokenable::regex_is_match(pat, x));
            assert(checking + s.subrange(i, i) =~= checking);
        } else {
            assert(crate::token::kept(s, i));
            let x = checking.push(c);
            if !crate::tokenable::regex_is_match(pat, x) {
                assert(checking + s.subrange(i, i) =~= checking);
            } else {
                assert(!x.contains('{')) by {
                    if x.contains('{') {
                        let m = choose|m: int| 0 <= m < x.len() && x[m] == '{';
                        if m < checking.len() {
                            assert(checking[m] == x[m]);
                        }
                    }
                }
                lemma_scan_escaped(s, pat, i + 1, x);
                let (e, t) = crate::token::scan_forward(s, pat, i + 1, x);
                let cut = if e > i + 1 && s[e - 1] == '\\' { e - 1 } else { e };
                assert(cut == (if e > i && s[e - 1] == '\\' { e - 1 } else { e }));
                assert(x + s.subrange(i + 1, cut) =~= checking + s.subrange(i, cut));
            }
        }
    }
}

/// Whether reading from `at` after `acc` reads on from `n` after `acc2`,
/// having written back, escapes included, what lies between.
pub open spec fn escaped_step(
    r: Seq<char>,
    pat: Seq<char>,
    at: int,
    acc: Seq<(bool, Seq<char>)>,
    n: int,
    acc2: Seq<(bool, Seq<char>)>,
) -> bool {
    &&& pieces_from(r, pat, at, acc) == pieces_from(r, pat, n, acc2)
    &&& at < n <= r.len()
    &&& rebuild_escaped(acc2) + r.subrange(resume_at(r, n), r.len() as int) == rebuild_escaped(acc) + r.subrange(
        resume_at(r, at),
        r.len() as int,
    )
}

/// One step at a backslash: it is skipped, or read with the brace after it
/// as the literal `{`.
proof fn lemma_step_backslash(r: Seq<char>, pat: Seq<char>, at: int, acc: Seq<(bool, Seq<char>)>) -> (res: (
    int,
    Seq<(bool, Seq<char>)>,
))
    requires
        escaped_pattern(r),
        braces_stand_alone(pat),
        0 <= at < r.len(),
        r[at] == '\\',
    ensures
        escaped_step(r, pat, at, acc, res.0, res.1),
{
    let (end, token) = token_scan(r, pat, at);
    assert(r[at + 1] == '{');
    assert(r[at] != ' ');
    assert(!crate::token::kept(r, at));
    assert(crate::token::first_checking(r, at) == Seq::<char>::empty());
    assert(crate::token::kept(r, at + 1));
    assert(r[at + 1] != ' ');
    assert(Seq::<char>::empty().push('{') =~= seq!['{']);
    if at > 0 && r[at - 1] == '\\' {
        assert(r[at] == '{');
    }
    assert(resume_at(r, at) == at);
    if !crate::tokenable::regex_is_match(pat, seq!['{']) {
        assert(crate::token::scan_forward(r, pat, at + 1, Seq::<char>::empty()) == (at + 1, Seq::<char>::empty()));
        assert(r.subrange(at, at + 1) =~= seq!['\\']);
        lemma_trim_plain(r.subrange(at, at + 1));
        assert(resume_at(r, at + 1) == at);
        assert(pieces_from(r, pat, at, acc) == pieces_from(r, pat, at + 1, acc));
        assert(rebuild_escaped(acc) + r.subrange(resume_at(r, at + 1), r.len() as int) == rebuild_escaped(acc)
            + r.subrange(resume_at(r, at), r.len() as int));
        assert(at < at + 1 <= r.len());
        assert(escaped_step(r, pat, at, acc, at + 1, acc));
        (at + 1, acc)
    } else {
        if at + 2 < r.len() {
            assert(r[at + 2] != '\\');
            assert(crate::token::kept(r, at + 2));
            assert(r[at + 2] != ' ');
            let x = seq!['{'].push(r[at + 2]);
            assert(x[0] == '{');
            assert(x.contains('{'));
            assert(!crate::tokenable::regex_is_match(pat, x));
        }
        assert(crate::token::scan_forward(r, pat, at + 2, seq!['{']) == (at + 2, seq!['{']));
        assert(end == at + 2 && token == seq!['{']);
        let span = r.subrange(at, at + 2);
        assert(span =~= seq!['\\', '{']);
        lemma_trim_plain(span);
        let acc2 = acc.push((true, token));
        assert(acc2.drop_last() =~= acc);
        assert(resume_at(r, at + 2) == at + 2);
        assert(r.subrange(at, r.len() as int) =~= seq!['\\', '{'] + r.subrange(at + 2, r.len() as int));
        assert(pieces_from(r, pat, at, acc) == pieces_from(r, pat, at + 2, acc2));
        assert(rebuild_escaped(acc2) == rebuild_escaped(acc) + seq!['\\', '{']);
        assert(rebuild_escaped(acc2) == rebuild_escaped(acc) + piece_text_escaped(acc2.last()));
        assert(rebuild_escaped(acc2) + r.subrange(resume_at(r, at + 2), r.len() as int) =~= rebuild_escaped(acc) + r.subrange(
            resume_at(r, at),
            r.len() as int,
        ));
        assert(pieces_from(r, pat, at, acc) == pieces_from(r, pat, at + 2, acc2));
        (at + 2, acc2)
    }
}

/// One step at an opening brace: an escaped one is the literal `{`, another
/// opens a placeholder up to the next closing brace.
proof fn lemma_step_brace(r: Seq<char>, pat: Seq<char>, at: int, acc: Seq<(bool, Seq<char>)>) -> (res: (
    int,
    Seq<(bool, Seq<char>)>,
))
    requires
        escaped_pattern(r),
        braces_stand_alone(pat),
        0 <= at < r.len(),
        r[at] == '{',
    ensures
        escaped_step(r, pat, at, acc, res.0, res.1),
{
    let (end, token) = token_scan(r, pat, at);
    assert(r[at] != ' ');
    assert(crate::token::kept(r, at));
    assert(crate::token::first_checking(r, at) == seq!['{']);
    if at + 1 < r.len() {
        assert(r[at + 1] != '\\');
        assert(crate::token::kept(r, at + 1));
        assert(r[at + 1] != ' ');
        let x = seq!['{'].push(r[at + 1]);
        assert(x[0] == '{');
        assert(x.contains('{'));
        assert(!crate::tokenable::regex_is_match(pat, x));
    }
    assert(crate::token::scan_forward(r, pat, at + 1, seq!['{']) == (at + 1, seq!['{']));
    assert(end == at + 1 && token == seq!['{']);
    let span = r.subrange(at, at + 1);
    assert(span =~= seq!['{']);
    lemma_trim_plain(span);
    if at > 0 && r[at - 1] == '\\' {
        let acc2 = acc.push((true, token));
        assert(acc2.drop_last() =~= acc);
        assert(resume_at(r, at + 1) == at + 1);
        assert(r.subrange(at - 1, r.len() as int) =~= seq!['\\', '{'] + r.subrange(at + 1, r.len() as int));
        assert(rebuild_escaped(acc2) == rebuild_escaped(acc) + piece_text_escaped(acc2.last()));
        assert(rebuild_escaped(acc2) + r.subrange(resume_at(r, at + 1), r.len() as int) =~= rebuild_escaped(acc) + r.subrange(
            resume_at(r, at),
            r.len() as int,
        ));
        assert(pieces_from(r, pat, at, acc) == pieces_from(r, pat, at + 1, acc2));
        (at + 1, acc2)
    } else {
        let close = close_brace_from(r, at + 1);
        lemma_close_brace_bounds(r, at + 1);
        let ph = (false, r.subrange(at + 1, close));
        let acc2 = acc.push(ph);
        assert(acc2.drop_last() =~= acc);
        assert(resume_at(r, close + 1) == close + 1);
        assert(r.subrange(at, r.len() as int) =~= seq!['{'] + r.subrange(at + 1, close) + seq!['}'] + r.subrange(
            close + 1,
            r.len() as int,
        ));
        assert(rebuild_escaped(acc2) == rebuild_escaped(acc) + piece_text_escaped(acc2.last()));
        assert(rebuild_escaped(acc2) + r.subrange(resume_at(r, close + 1), r.len() as int) =~= rebuild_escaped(acc) + r.subrange(
            resume_at(r, at),
            r.len() as int,
        ));
        assert(pieces_from(r, pat, at, acc) == pieces_from(r, pat, close + 1, acc2));
        (close + 1, acc2)
    }
}

/// One step at another character: a literal token, less an escaping
/// backslash at its end.
proof fn lemma_step_other(r: Seq<char>, pat: Seq<char>, at: int, acc: Seq<(bool, Seq<char>)>) -> (res: (
    int,
    Seq<(bool, Seq<char>)>,
))
    requires
        escaped_pattern(r),
        braces_stand_alone(pat),
        0 <= at < r.len(),
        r[at] != '{',
        r[at] != '\\',
    ensures
        escaped_step(r, pat, at, acc, res.0, res.1),
{
    let (end, token) = token_scan(r, pat, at);
    let c = r[at];
    assert(c != ' ');
    assert(crate::token::kept(r, at));
    assert(crate::token::first_checking(r, at) == seq![c]);
    assert(!seq![c].contains('{')) by {
        if seq![c].contains('{') {
            assert(seq![c][0] == c);
        }
    }
    lemma_scan_escaped(r, pat, at + 1, seq![c]);
    assert(end >= at + 1);
    let cut = if end > at + 1 && r[end - 1] == '\\' { end - 1 } else { end };
    assert(token =~= r.subrange(at, cut));
    let span = r.subrange(at, end);
    assert forall|m: int| 0 <= m < span.len() implies !crate::text::is_ws(#[trigger] span[m]) by {
        assert(span[m] == r[at + m]);
    }
    lemma_trim_plain(span);
    assert(span[0] == c);
    assert(token[0] == c);
    if at > 0 && r[at - 1] == '\\' {
        assert(r[at] == '{');
    }
    assert(resume_at(r, at) == at);
    assert(cut == resume_at(r, end));
    let acc2 = acc.push((true, token));
    assert(acc2.drop_last() =~= acc);
    assert(r.subrange(at, r.len() as int) =~= r.subrange(at, cut) + r.subrange(cut, r.len() as int));
    assert(rebuild_escaped(acc2) == rebuild_escaped(acc) + piece_text_escaped(acc2.last()));
    assert(rebuild_escaped(acc2) + r.subrange(resume_at(r, end), r.len() as int) =~= rebuild_escaped(acc) + r.subrange(
        resume_at(r, at),
        r.len() as int,
    ));
    assert(pieces_from(r, pat, at, acc) == pieces_from(r, pat, end, acc2));
    (end, acc2)
}

/// Writing back, escapes included, the pieces of an escaped pattern read
/// from `at` on after `acc` gives what `acc` gives followed by the pattern
/// from where it was left.
proof fn lemma_rebuild_escaped_from(r: Seq<char>, pat: Seq<char>, at: int, acc: Seq<(bool, Seq<char>)>)
    requires
        escaped_pattern(r),
        braces_stand_alone(pat),
        0 <= at <= r.len(),
    ensures
        rebuild_escaped(pieces_from(r, pat, at, acc)) == rebuild_escaped(acc) + r.subrange(
            resume_at(r, at),
            r.len() as int,
        ),
    decreases r.len() - at,
{
    if at == r.len() {
        if at > 0 && r[at - 1] == '\\' {
            assert(r[at - 1] == '\\');
            assert(false);
        }
        assert(rebuild_escaped(acc) + r.subrange(at, r.len() as int) =~= rebuild_escaped(acc));
    } else {
        let res = if r[at] == '\\' {
            lemma_step_backslash(r, pat, at, acc)
        } else if r[at] == '{' {
            lemma_step_brace(r, pat, at, acc)
        } else {
            lemma_step_other(r, pat, at, acc)
        };
        lemma_rebuild_escaped_from(r, pat, res.0, res.1);
    }
}

/// An escaped opening brace in a pattern is a literal `{`, never the start
/// of a placeholder: a pattern without white space whose backslashes each
/// escape an opening brace (none of which follows an opening brace), and
/// whose other opening braces are closed, read with a tokenable pattern
/// that never joins a brace to other characters, is written back exactly by
/// its pieces with the literal `{` as `\{` and each placeholder between
/// braces.
pub proof fn law_escaped_braces_are_literals(r: Seq<char>, pat: Seq<char>)
    requires
        escaped_pattern(r),
        braces_stand_alone(pat),
    ensures
        rebuild_escaped(pieces(r, pat)) == r,
{
    lemma_rebuild_escaped_from(r, pat, 0, seq![]);
    assert(r.subrange(0, r.len() as int) =~= r);
    assert(rebuild_escaped(Seq::<(bool, Seq<char>)>::empty()) + r =~= r);
}

} // verus!
