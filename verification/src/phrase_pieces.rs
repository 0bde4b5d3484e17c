//! The placeholders of a phrase read by `first_phrase` are those of the rule
//! it was read by: each key and type of its tree is the name and type of a
//! placeholder piece of that rule.

use vstd::prelude::*;
use crate::grammar::{RuleV, rulesets_of};
use crate::text::{trim, placeholder_name, placeholder_type};
use crate::token::token_scan;
use crate::tree::{TreeV, ExprV, insert_key};
use crate::phrase::{
    Brackets, BracketOutcome, CandV, CapV, PhraseError, brackets, cand_ok, cand_step, cands_step, undropped,
    finished, read_tokens, read_args, choose_from, first_phrase_spec, pieces_of, prepared_sets, cands_from,
    set_end, ident_type, lemma_cand_step_keeps_rule,
};

verus! {

/// Whether `parts` has a placeholder piece named `k` of type `tt`.
pub open spec fn has_placeholder(parts: Seq<(bool, Seq<char>)>, k: Seq<char>, tt: Seq<char>) -> bool {
    exists|p: int|
        0 <= p < parts.len() && !(#[trigger] parts[p]).0 && placeholder_name(parts[p].1) == k && placeholder_type(
            parts[p].1,
        ) == tt
}

/// Whether each placeholder read so far is a placeholder piece of `parts`.
pub open spec fn caps_named(parts: Seq<(bool, Seq<char>)>, caps: Seq<CapV>) -> bool {
    forall|i: int| 0 <= i < caps.len() ==> has_placeholder(parts, (#[trigger] caps[i]).0, caps[i].1.0)
}

/// Whether each key and type of `args` is a placeholder piece of `parts`.
pub open spec fn args_named(parts: Seq<(bool, Seq<char>)>, args: Seq<(Seq<char>, (ExprV, Seq<char>))>) -> bool {
    forall|i: int| 0 <= i < args.len() ==> has_placeholder(parts, (#[trigger] args[i]).0, args[i].1.1)
}

/// Whether each candidate names a rule of `rs` and has read only
/// placeholders of that rule.
pub open spec fn cands_named(rs: Seq<Seq<RuleV>>, v: Seq<CandV>) -> bool {
    forall|i: int| 0 <= i < v.len() ==> cand_ok(rs, #[trigger] v[i]) && caps_named(pieces_of(rs, v[i]), v[i].caps)
}

/// Each entry of `insert_key(a, k, v)` is `(k, v)` or an entry of `a`.
pub proof fn lemma_insert_key_entries<V>(a: Seq<(Seq<char>, V)>, k: Seq<char>, v: V, i: int)
    requires
        0 <= i < insert_key(a, k, v).len(),
    ensures
        insert_key(a, k, v)[i] == (k, v) || exists|j: int| 0 <= j < a.len() && #[trigger] a[j] == insert_key(a, k, v)[i],
    decreases a.len(),
{
    let r = insert_key(a, k, v);
    if a.len() == 0 {
    } else if a[0].0 == k {
        if i > 0 {
            assert(a[i] == r[i]);
        }
    } else if crate::text::chars_lt(k, a[0].0) {
        if i > 0 {
            assert(a[i - 1] == r[i]);
        }
    } else {
        if i == 0 {
            assert(a[0] == r[0]);
        } else {
            let t = a.drop_first();
            assert(r[i] == insert_key(t, k, v)[i - 1]);
            lemma_insert_key_entries(t, k, v, i - 1);
            if insert_key(t, k, v)[i - 1] != (k, v) {
                let j = choose|j: int| 0 <= j < t.len() && #[trigger] t[j] == insert_key(t, k, v)[i - 1];
                assert(a[j + 1] == t[j]);
            }
        }
    }
}

/// Setting a placeholder read from a placeholder piece keeps all of them so.
pub proof fn lemma_insert_cap_named(parts: Seq<(bool, Seq<char>)>, caps: Seq<CapV>, k: Seq<char>, v: (Seq<char>, (int, int)))
    requires
        caps_named(parts, caps),
        has_placeholder(parts, k, v.0),
    ensures
        caps_named(parts, insert_key(caps, k, v)),
{
    let r = insert_key(caps, k, v);
    assert forall|i: int| 0 <= i < r.len() implies has_placeholder(parts, (#[trigger] r[i]).0, r[i].1.0) by {
        lemma_insert_key_entries(caps, k, v, i);
    }
}

/// Setting an argument named after a placeholder piece keeps all of them so.
pub proof fn lemma_insert_arg_named(
    parts: Seq<(bool, Seq<char>)>,
    args: Seq<(Seq<char>, (ExprV, Seq<char>))>,
    k: Seq<char>,
    v: (ExprV, Seq<char>),
)
    requires
        args_named(parts, args),
        has_placeholder(parts, k, v.1),
    ensures
        args_named(parts, insert_key(args, k, v)),
{
    let r = insert_key(args, k, v);
    assert forall|i: int| 0 <= i < r.len() implies has_placeholder(parts, (#[trigger] r[i]).0, r[i].1.1) by {
        lemma_insert_key_entries(args, k, v, i);
    }
}

/// Ending the span of a placeholder keeps the names and types.
pub proof fn lemma_set_end_named(parts: Seq<(bool, Seq<char>)>, caps: Seq<CapV>, name: Seq<char>, e: int)
    requires
        caps_named(parts, caps),
    ensures
        caps_named(parts, set_end(caps, name, e)),
    decreases caps.len(),
{
    let r = set_end(caps, name, e);
    if caps.len() > 0 && caps[0].0 != name {
        let t = caps.drop_first();
        assert forall|i: int| 0 <= i < t.len() implies has_placeholder(parts, (#[trigger] t[i]).0, t[i].1.0) by {
            assert(t[i] == caps[i + 1]);
        }
        lemma_set_end_named(parts, t, name, e);
        assert forall|i: int| 0 <= i < r.len() implies has_placeholder(parts, (#[trigger] r[i]).0, r[i].1.0) by {
            if i > 0 {
                assert(r[i] == set_end(t, name, e)[i - 1]);
            } else {
                assert(r[0] == caps[0]);
            }
        }
    } else if caps.len() > 0 {
        assert forall|i: int| 0 <= i < r.len() implies has_placeholder(parts, (#[trigger] r[i]).0, r[i].1.0) by {
            assert(r[i].0 == caps[i].0 && r[i].1.0 == caps[i].1.0);
        }
    }
}

/// A candidate that reads a token keeps its rule and reads only its
/// placeholders.
pub proof fn lemma_cand_step_named(
    s: Seq<char>,
    g: Seq<(Seq<char>, Seq<Seq<RuleV>>)>,
    rs: Seq<Seq<RuleV>>,
    pat: Seq<char>,
    ty: Seq<char>,
    d: nat,
    ck: int,
    ci: int,
    token: Seq<char>,
    cck: int,
    stack: Seq<char>,
    c: CandV,
)
    requires
        cand_ok(rs, c),
        caps_named(pieces_of(rs, c), c.caps),
    ensures
        cand_step(s, g, rs, pat, ty, d, ck, ci, token, cck, stack, c) matches Some((c2, _)) ==> cand_ok(rs, c2)
            && caps_named(pieces_of(rs, c2), c2.caps),
{
    lemma_cand_step_keeps_rule(s, g, rs, pat, ty, d, ck, ci, token, cck, stack, c);
    let parts = pieces_of(rs, c);
    if c.next <= ck && 0 <= c.at < parts.len() && !parts[c.at].0 {
        let text = parts[c.at].1;
        let name = placeholder_name(text);
        let et = placeholder_type(text);
        assert(has_placeholder(parts, name, et)) by {
            assert(!parts[c.at].0);
        }
        lemma_set_end_named(parts, c.caps, name, ck);
        lemma_set_end_named(parts, c.caps, name, ci);
        lemma_insert_cap_named(parts, c.caps, name, (et, (cck, ck)));
        lemma_insert_cap_named(parts, c.caps, name, (et, (ck, ci)));
        match first_phrase_spec(s.subrange(ck, s.len() as int), g, pat, et, true, d) {
            Ok((n, _)) => {
                lemma_insert_cap_named(parts, c.caps, name, (et, (ck, ck + n)));
            },
            Err(_) => {},
        }
    }
}

/// Candidates that read a token keep their rules and read only their
/// placeholders.
pub proof fn lemma_cands_step_named(
    s: Seq<char>,
    g: Seq<(Seq<char>, Seq<Seq<RuleV>>)>,
    rs: Seq<Seq<RuleV>>,
    pat: Seq<char>,
    ty: Seq<char>,
    d: nat,
    ck: int,
    ci: int,
    token: Seq<char>,
    cck: int,
    stack: Seq<char>,
    cands: Seq<CandV>,
    i: int,
    done: Seq<CandV>,
    drops: Seq<int>,
)
    requires
        cands_named(rs, cands),
        cands_named(rs, done),
    ensures
        cands_step(s, g, rs, pat, ty, d, ck, ci, token, cck, stack, cands, i, done, drops) matches Some((v, _))
            ==> cands_named(rs, v),
    decreases cands.len() - i,
{
    if 0 <= i < cands.len() {
        assert(cand_ok(rs, cands[i]) && caps_named(pieces_of(rs, cands[i]), cands[i].caps));
        lemma_cand_step_named(s, g, rs, pat, ty, d, ck, ci, token, cck, stack, cands[i]);
        match cand_step(s, g, rs, pat, ty, d, ck, ci, token, cck, stack, cands[i]) {
            Some((c, drop)) => {
                let done2 = done.push(c);
                assert forall|k: int| 0 <= k < done2.len() implies cand_ok(rs, #[trigger] done2[k]) && caps_named(
                    pieces_of(rs, done2[k]),
                    done2[k].caps,
                ) by {
                    if k < done.len() {
                        assert(done2[k] == done[k]);
                    }
                }
                lemma_cands_step_named(
                    s,
                    g,
                    rs,
                    pat,
                    ty,
                    d,
                    ck,
                    ci,
                    token,
                    cck,
                    stack,
                    cands,
                    i + 1,
                    done2,
                    if drop {
                        drops.push(cands[i].id)
                    } else {
                        drops
                    },
                );
            },
            None => {},
        }
    }
}

/// The candidates kept still read only their placeholders.
pub proof fn lemma_undropped_named(rs: Seq<Seq<RuleV>>, cands: Seq<CandV>, drops: Seq<int>)
    requires
        cands_named(rs, cands),
    ensures
        cands_named(rs, undropped(cands, drops)),
    decreases cands.len(),
{
    if cands.len() > 0 {
        let f = cands.drop_last();
        assert forall|i: int| 0 <= i < f.len() implies cand_ok(rs, #[trigger] f[i]) && caps_named(
            pieces_of(rs, f[i]),
            f[i].caps,
        ) by {
            assert(f[i] == cands[i]);
        }
        lemma_undropped_named(rs, f, drops);
        assert(cand_ok(rs, cands[cands.len() - 1]));
        let rest = undropped(f, drops);
        let r = rest.push(cands.last());
        assert forall|i: int| 0 <= i < r.len() implies cand_ok(rs, #[trigger] r[i]) && caps_named(
            pieces_of(rs, r[i]),
            r[i].caps,
        ) by {
            if i < rest.len() {
                assert(r[i] == rest[i]);
            }
        }
    }
}

/// The finished candidates read only their placeholders.
pub proof fn lemma_finished_named(rs: Seq<Seq<RuleV>>, cands: Seq<CandV>)
    requires
        cands_named(rs, cands),
    ensures
        cands_named(rs, finished(rs, cands)),
    decreases cands.len(),
{
    if cands.len() > 0 {
        let f = cands.drop_last();
        assert forall|i: int| 0 <= i < f.len() implies cand_ok(rs, #[trigger] f[i]) && caps_named(
            pieces_of(rs, f[i]),
            f[i].caps,
        ) by {
            assert(f[i] == cands[i]);
        }
        lemma_finished_named(rs, f);
        assert(cand_ok(rs, cands[cands.len() - 1]));
        let rest = finished(rs, f);
        let r = rest.push(cands.last());
        assert forall|i: int| 0 <= i < r.len() implies cand_ok(rs, #[trigger] r[i]) && caps_named(
            pieces_of(rs, r[i]),
            r[i].caps,
        ) by {
            if i < rest.len() {
                assert(r[i] == rest[i]);
            }
        }
    }
}

/// Reading tokens keeps candidates reading only their placeholders.
pub proof fn lemma_read_tokens_named(
    s: Seq<char>,
    g: Seq<(Seq<char>, Seq<Seq<RuleV>>)>,
    rs: Seq<Seq<RuleV>>,
    pat: Seq<char>,
    ty: Seq<char>,
    d: nat,
    code_idx: int,
    cck: int,
    br: Brackets,
    cands: Seq<CandV>,
)
    requires
        cands_named(rs, cands),
    ensures
        read_tokens(s, g, rs, pat, ty, d, code_idx, cck, br, cands) matches Ok(v) ==> cands_named(rs, v),
    decreases s.len() - code_idx,
{
    if 0 <= code_idx < s.len() {
        let ck = code_idx;
        let ci = token_scan(s, pat, ck).0;
        let token = trim(token_scan(s, pat, ck).1);
        if ck < ci <= s.len() {
            lemma_cands_step_named(s, g, rs, pat, ty, d, ck, ci, token, cck, br.stack, cands, 0, seq![], seq![]);
            match cands_step(s, g, rs, pat, ty, d, ck, ci, token, cck, br.stack, cands, 0, seq![], seq![]) {
                Some((stepped, drops)) => {
                    lemma_undropped_named(rs, stepped, drops);
                    let (br2, out) = brackets(token, 0, br);
                    if out is Go {
                        lemma_read_tokens_named(s, g, rs, pat, ty, d, ci, ck, br2, undropped(stepped, drops));
                    }
                },
                None => {},
            }
        }
    }
}

/// The arguments read from the placeholders of a candidate are named after
/// placeholder pieces of its rule.
pub proof fn lemma_read_args_named(
    s: Seq<char>,
    g: Seq<(Seq<char>, Seq<Seq<RuleV>>)>,
    pat: Seq<char>,
    notree: bool,
    d: nat,
    code: CandV,
    parts: Seq<(bool, Seq<char>)>,
    j: int,
    end: int,
    skip: bool,
    args: Seq<(Seq<char>, (ExprV, Seq<char>))>,
)
    requires
        caps_named(parts, code.caps),
        args_named(parts, args),
    ensures
        read_args(s, g, pat, notree, d, code, j, end, skip, args) matches Some((_, _, a)) ==> args_named(parts, a),
    decreases code.caps.len() - j,
{
    if 0 <= j < code.caps.len() {
        let k = code.caps[j].0;
        let tt = code.caps[j].1.0;
        let a = code.caps[j].1.1.0;
        let b = code.caps[j].1.1.1;
        assert(has_placeholder(parts, k, tt));
        if k == code.current && code.extending && code.fresh {
            let rest = s.subrange(a, s.len() as int);
            if tt == ident_type() {
                let end2 = a + crate::token::token_end(rest, pat, 0);
                let v = (ExprV::Ident(s.subrange(a, end2)), ident_type());
                lemma_insert_arg_named(parts, args, k, v);
                lemma_read_args_named(s, g, pat, notree, d, code, parts, j + 1, end2, skip, insert_key(args, k, v));
            } else {
                match first_phrase_spec(rest, g, pat, tt, notree, d) {
                    Ok((n, t)) => {
                        lemma_insert_arg_named(parts, args, k, (ExprV::Exp(t), tt));
                        lemma_read_args_named(
                            s,
                            g,
                            pat,
                            notree,
                            d,
                            code,
                            parts,
                            j + 1,
                            a + n,
                            skip,
                            if !notree {
                                insert_key(args, k, (ExprV::Exp(t), tt))
                            } else {
                                args
                            },
                        );
                    },
                    Err(PhraseError::Fault) => {},
                    Err(_) => lemma_read_args_named(s, g, pat, notree, d, code, parts, j + 1, end, true, args),
                }
            }
        } else if k == code.last_name || !notree {
            let sub = s.subrange(a, b);
            if tt == ident_type() {
                lemma_insert_arg_named(parts, args, k, (ExprV::Ident(sub), ident_type()));
                lemma_read_args_named(
                    s,
                    g,
                    pat,
                    notree,
                    d,
                    code,
                    parts,
                    j + 1,
                    end,
                    skip || crate::token::token_end(sub, pat, 0) != sub.len(),
                    if !notree {
                        insert_key(args, k, (ExprV::Ident(sub), ident_type()))
                    } else {
                        args
                    },
                );
            } else {
                match first_phrase_spec(sub, g, pat, tt, notree, d) {
                    Ok((n, t)) => {
                        lemma_insert_arg_named(parts, args, k, (ExprV::Exp(t), tt));
                        lemma_read_args_named(
                            s,
                            g,
                            pat,
                            notree,
                            d,
                            code,
                            parts,
                            j + 1,
                            end,
                            skip || n != sub.len(),
                            if !notree {
                                insert_key(args, k, (ExprV::Exp(t), tt))
                            } else {
                                args
                            },
                        );
                    },
                    Err(PhraseError::Fault) => {},
                    Err(_) => lemma_read_args_named(s, g, pat, notree, d, code, parts, j + 1, end, true, args),
                }
            }
        } else {
            lemma_read_args_named(s, g, pat, notree, d, code, parts, j + 1, end, skip, args);
        }
    }
}

/// Whether `t` is the tree of a finished candidate among `done`: it is
/// named as the candidate's rule, and its arguments are named after that
/// rule's placeholder pieces.
pub open spec fn tree_of_some(rs: Seq<Seq<RuleV>>, done: Seq<CandV>, t: TreeV) -> bool {
    exists|j: int|
        0 <= j < done.len() && cand_ok(rs, #[trigger] done[j]) && rs[done[j].group][done[j].index].name == Some(t.rule)
            && args_named(pieces_of(rs, done[j]), t.args)
}

/// The tree chosen is the one chosen from, or that of a finished candidate.
pub proof fn lemma_choose_from_named(
    s: Seq<char>,
    g: Seq<(Seq<char>, Seq<Seq<RuleV>>)>,
    rs: Seq<Seq<RuleV>>,
    pat: Seq<char>,
    notree: bool,
    d: nat,
    done: Seq<CandV>,
    i: int,
    best_end: int,
    best: CandV,
    best_tree: TreeV,
    first: TreeV,
)
    requires
        cands_named(rs, done),
        0 <= i,
        best_tree == first || tree_of_some(rs, done, best_tree),
    ensures
        choose_from(s, g, rs, pat, notree, d, done, i, best_end, best, best_tree) matches Some((_, t)) ==> t == first
            || tree_of_some(rs, done, t),
    decreases done.len() - i,
{
    if i < done.len() {
        let code = done[i];
        assert(cand_ok(rs, code) && caps_named(pieces_of(rs, code), code.caps));
        match rs[code.group][code.index].name {
            None => {},
            Some(name) => {
                lemma_read_args_named(s, g, pat, notree, d, code, pieces_of(rs, code), 0, code.next, false, seq![]);
                match read_args(s, g, pat, notree, d, code, 0, code.next, false, seq![]) {
                    None => {},
                    Some((end, skip, args)) => {
                        let tree = TreeV { rule: name, args };
                        assert(tree_of_some(rs, done, tree)) by {
                            assert(rs[done[i].group][done[i].index].name == Some(tree.rule));
                        }
                        if !skip && (end > best_end || (end == best_end && code.last_len <= best.last_len
                            && best.group == code.group)) {
                            lemma_choose_from_named(
                                s,
                                g,
                                rs,
                                pat,
                                notree,
                                d,
                                done,
                                i + 1,
                                end,
                                if !notree {
                                    code
                                } else {
                                    best
                                },
                                if !notree {
                                    tree
                                } else {
                                    best_tree
                                },
                                first,
                            );
                        } else {
                            lemma_choose_from_named(s, g, rs, pat, notree, d, done, i + 1, best_end, best, best_tree, first);
                        }
                    },
                }
            },
        }
    }
}

/// A phrase read by `first_phrase` with a named rule was read by a rule of
/// its type of that name, and every key and type of its tree is the name
/// and type of a placeholder piece of that rule.
pub proof fn law_phrase_placeholders_are_the_rules(
    s: Seq<char>,
    g: Seq<(Seq<char>, Seq<Seq<RuleV>>)>,
    pat: Seq<char>,
    ty: Seq<char>,
    notree: bool,
    depth: nat,
)
    ensures
        first_phrase_spec(s, g, pat, ty, notree, depth) matches Ok((_, t)) ==> (t.rule.len() > 0 ==> exists|j: int, k: int|
            0 <= j < rulesets_of(g, ty).len() && 0 <= k < rulesets_of(g, ty)[j].len() && (#[trigger] rulesets_of(
                g,
                ty,
            )[j][k]).name == Some(t.rule) && args_named(rulesets_of(g, ty)[j][k].tokens.unwrap(), t.args)),
{
    let rs = rulesets_of(g, ty);
    if depth > 0 && prepared_sets(rs) {
        let e = (depth - 1) as nat;
        let br = Brackets { in_string: false, escaped: false, stack: seq![] };
        let c0 = cands_from(rs, 0, 0, 0);
        crate::phrase::lemma_cands_from_ok(rs, 0, 0, 0);
        assert forall|i: int| 0 <= i < c0.len() implies cand_ok(rs, #[trigger] c0[i]) && caps_named(
            pieces_of(rs, c0[i]),
            c0[i].caps,
        ) by {
            lemma_cands_from_fresh(rs, 0, 0, 0, i);
        }
        lemma_read_tokens_named(s, g, rs, pat, ty, e, 0, 0, br, c0);
        match read_tokens(s, g, rs, pat, ty, e, 0, 0, br, c0) {
            Ok(cands) => {
                lemma_finished_named(rs, cands);
                let done = finished(rs, cands);
                if done.len() > 0 {
                    let t0 = TreeV { rule: seq![], args: seq![] };
                    lemma_choose_from_named(s, g, rs, pat, notree, e, done, 0, 0, done[0], t0, t0);
                    match choose_from(s, g, rs, pat, notree, e, done, 0, 0, done[0], t0) {
                        Some((_, t)) => {
                            if t.rule.len() > 0 {
                                assert(t != t0);
                                let j = choose|j: int|
                                    0 <= j < done.len() && cand_ok(rs, #[trigger] done[j]) && rs[done[j].group][done[j].index].name
                                        == Some(t.rule) && args_named(pieces_of(rs, done[j]), t.args);
                                assert(rs[done[j].group][done[j].index].name == Some(t.rule));
                            }
                        },
                        None => {},
                    }
                }
            },
            Err(_) => {},
        }
    }
}

/// The candidates built for the rules have read no placeholder yet.
pub proof fn lemma_cands_from_fresh(rs: Seq<Seq<RuleV>>, j: int, k: int, id: int, i: int)
    requires
        0 <= i < cands_from(rs, j, k, id).len(),
    ensures
        cands_from(rs, j, k, id)[i].caps == Seq::<CapV>::empty(),
    decreases rs.len() - j, (if 0 <= j < rs.len() { rs[j].len() - k } else { 0 }),
{
    if 0 <= j < rs.len() && 0 <= k {
        if k >= rs[j].len() {
            lemma_cands_from_fresh(rs, j + 1, 0, id, i);
        } else if i > 0 {
            lemma_cands_from_fresh(rs, j, k + 1, id + 1, i - 1);
        }
    }
}

} // verus!
