//! Which rule a phrase is read by: of the rules that read furthest, one of
//! the earliest rule set that has such a rule.

use vstd::prelude::*;
use crate::grammar::{RuleV, rulesets_of};
use crate::text::trim;
use crate::token::token_scan;
use crate::tree::TreeV;
use crate::phrase::{
    Brackets, BracketOutcome, CandV, brackets, cand_step, cands_step, undropped, finished, read_tokens, read_args,
    choose_from, first_phrase_spec, prepared_sets, cands_from, reached_end, lemma_cand_step_keeps_rule,
};

verus! {

/// Whether the candidates of `v` come in the order of their rule sets.
pub open spec fn groups_sorted(v: Seq<CandV>) -> bool {
    forall|a: int, b: int| 0 <= a <= b < v.len() ==> (#[trigger] v[a]).group <= (#[trigger] v[b]).group
}

/// The tree that the finished candidate `code` gives for its phrase.
pub open spec fn cand_tree(
    s: Seq<char>,
    g: Seq<(Seq<char>, Seq<Seq<RuleV>>)>,
    rs: Seq<Seq<RuleV>>,
    pat: Seq<char>,
    d: nat,
    code: CandV,
) -> TreeV {
    TreeV {
        rule: rs[code.group][code.index].name.unwrap(),
        args: read_args(s, g, pat, false, d, code, 0, code.next, false, seq![]).unwrap().2,
    }
}

/// The candidates built for `rs[j][k..]`, `rs[j + 1..]` come in the order
/// of their rule sets, from `j` on.
pub proof fn lemma_cands_from_sorted(rs: Seq<Seq<RuleV>>, j: int, k: int, id: int)
    requires
        0 <= j,
    ensures
        groups_sorted(cands_from(rs, j, k, id)),
        forall|i: int| 0 <= i < cands_from(rs, j, k, id).len() ==> j <= (#[trigger] cands_from(rs, j, k, id)[i]).group,
    decreases rs.len() - j, (if 0 <= j < rs.len() { rs[j].len() - k } else { 0 }),
{
    if 0 <= j < rs.len() && 0 <= k {
        if k >= rs[j].len() {
            lemma_cands_from_sorted(rs, j + 1, 0, id);
            let v = cands_from(rs, j, k, id);
            assert forall|i: int| 0 <= i < v.len() implies j <= (#[trigger] v[i]).group by {
                assert(v[i] == cands_from(rs, j + 1, 0, id)[i]);
            }
        } else {
            lemma_cands_from_sorted(rs, j, k + 1, id + 1);
            let v = cands_from(rs, j, k, id);
            let w = cands_from(rs, j, k + 1, id + 1);
            assert forall|i: int| 0 <= i < v.len() implies j <= (#[trigger] v[i]).group by {
                if i > 0 {
                    assert(v[i] == w[i - 1]);
                }
            }
            assert forall|a: int, b: int| 0 <= a <= b < v.len() implies (#[trigger] v[a]).group <= (
            #[trigger] v[b]).group by {
                if a > 0 {
                    assert(v[a] == w[a - 1] && v[b] == w[b - 1]);
                } else {
                    assert(j <= v[b].group);
                }
            }
        }
    }
}

/// Reading a token keeps each candidate in its rule set and in its place.
pub proof fn lemma_cands_step_groups(
    s: Seq<char>,
    g: Seq<(Seq<char>, Seq<Seq<RuleV>>)>,
    rs: Seq<Seq<RuleV>>,
    pat: Seq<char>,
    ty: Seq<char>,
    d: nat,
    ck: int,
    ci: int,
    token: Seq<char>,
    cck: int,
    stack: Seq<char>,
    cands: Seq<CandV>,
    i: int,
    done: Seq<CandV>,
    drops: Seq<int>,
)
    requires
        0 <= i <= cands.len(),
        done.len() == i,
        forall|k: int| 0 <= k < i ==> (#[trigger] done[k]).group == cands[k].group,
    ensures
        cands_step(s, g, rs, pat, ty, d, ck, ci, token, cck, stack, cands, i, done, drops) matches Some((v, _)) ==> v.len()
            == cands.len() && forall|k: int| 0 <= k < v.len() ==> (#[trigger] v[k]).group == cands[k].group,
    decreases cands.len() - i,
{
    if i < cands.len() {
        lemma_cand_step_keeps_rule(s, g, rs, pat, ty, d, ck, ci, token, cck, stack, cands[i]);
        match cand_step(s, g, rs, pat, ty, d, ck, ci, token, cck, stack, cands[i]) {
            Some((c, drop)) => {
                let done2 = done.push(c);
                assert forall|k: int| 0 <= k < i + 1 implies (#[trigger] done2[k]).group == cands[k].group by {
                    if k < i {
                        assert(done2[k] == done[k]);
                    }
                }
                lemma_cands_step_groups(
                    s,
                    g,
                    rs,
                    pat,
                    ty,
                    d,
                    ck,
                    ci,
                    token,
                    cck,
                    stack,
                    cands,
                    i + 1,
                    done2,
                    if drop {
                        drops.push(cands[i].id)
                    } else {
                        drops
                    },
                );
            },
            None => {},
        }
    }
}

/// The candidates kept are candidates of `cands`, in their order.
pub proof fn lemma_undropped_sorted(cands: Seq<CandV>, drops: Seq<int>)
    requires
        groups_sorted(cands),
    ensures
        groups_sorted(undropped(cands, drops)),
        forall|i: int| #![trigger undropped(cands, drops)[i]] 0 <= i < undropped(cands, drops).len() ==> exists|k: int| 0 <= k < cands.len() && #[trigger] cands[k] == undropped(cands, drops)[i],
    decreases cands.len(),
{
    if cands.len() > 0 {
        let f = cands.drop_last();
        assert forall|a: int, b: int| 0 <= a <= b < f.len() implies (#[trigger] f[a]).group <= (#[trigger] f[b]).group by {
            assert(f[a] == cands[a] && f[b] == cands[b]);
        }
        lemma_undropped_sorted(f, drops);
        let rest = undropped(f, drops);
        assert forall|i: int| #![trigger undropped(cands, drops)[i]] 0 <= i < undropped(cands, drops).len() implies exists|k: int| 0 <= k < cands.len() && #[trigger] cands[k] == undropped(cands, drops)[i] by {
            if i < rest.len() {
                let k = choose|k: int| 0 <= k < f.len() && #[trigger] f[k] == rest[i];
                assert(cands[k] == f[k]);
                assert(undropped(cands, drops)[i] == rest[i]);
            } else {
                assert(cands[cands.len() - 1] == cands.last());
            }
        }
        if !drops.contains(cands.last().id) {
            let r = rest.push(cands.last());
            assert forall|a: int, b: int| 0 <= a <= b < r.len() implies (#[trigger] r[a]).group <= (#[trigger] r[b]).group by {
                if b < rest.len() {
                    assert(r[a] == rest[a] && r[b] == rest[b]);
                } else if a < rest.len() {
                    let k = choose|k: int| 0 <= k < f.len() && #[trigger] f[k] == rest[a];
                    assert(cands[k] == f[k]);
                    assert(cands[cands.len() - 1] == cands.last());
                    assert(r[a] == rest[a]);
                }
            }
        }
    }
}

/// The finished candidates are candidates of `cands`, in their order.
pub proof fn lemma_finished_sorted(rs: Seq<Seq<RuleV>>, cands: Seq<CandV>)
    requires
        groups_sorted(cands),
    ensures
        groups_sorted(finished(rs, cands)),
        forall|i: int| #![trigger finished(rs, cands)[i]] 0 <= i < finished(rs, cands).len() ==> exists|k: int| 0 <= k < cands.len() && #[trigger] cands[k] == finished(rs, cands)[i],
    decreases cands.len(),
{
    if cands.len() > 0 {
        let f = cands.drop_last();
        assert forall|a: int, b: int| 0 <= a <= b < f.len() implies (#[trigger] f[a]).group <= (#[trigger] f[b]).group by {
            assert(f[a] == cands[a] && f[b] == cands[b]);
        }
        lemma_finished_sorted(rs, f);
        let rest = finished(rs, f);
        assert forall|i: int| #![trigger finished(rs, cands)[i]] 0 <= i < finished(rs, cands).len() implies exists|k: int| 0 <= k < cands.len() && #[trigger] cands[k] == finished(rs, cands)[i] by {
            if i < rest.len() {
                let k = choose|k: int| 0 <= k < f.len() && #[trigger] f[k] == rest[i];
                assert(cands[k] == f[k]);
                assert(finished(rs, cands)[i] == rest[i]);
            } else {
                assert(cands[cands.len() - 1] == cands.last());
            }
        }
        let r = rest.push(cands.last());
        if finished(rs, cands) == r {
            assert forall|a: int, b: int| 0 <= a <= b < r.len() implies (#[trigger] r[a]).group <= (#[trigger] r[b]).group by {
                if b < rest.len() {
                    assert(r[a] == rest[a] && r[b] == rest[b]);
                } else if a < rest.len() {
                    let k = choose|k: int| 0 <= k < f.len() && #[trigger] f[k] == rest[a];
                    assert(cands[k] == f[k]);
                    assert(cands[cands.len() - 1] == cands.last());
                    assert(r[a] == rest[a]);
                }
            }
        }
    }
}

/// Reading tokens keeps the candidates in the order of their rule sets.
pub proof fn lemma_read_tokens_sorted(
    s: Seq<char>,
    g: Seq<(Seq<char>, Seq<Seq<RuleV>>)>,
    rs: Seq<Seq<RuleV>>,
    pat: Seq<char>,
    ty: Seq<char>,
    d: nat,
    code_idx: int,
    cck: int,
    br: Brackets,
    cands: Seq<CandV>,
)
    requires
        groups_sorted(cands),
    ensures
        read_tokens(s, g, rs, pat, ty, d, code_idx, cck, br, cands) matches Ok(v) ==> groups_sorted(v),
    decreases s.len() - code_idx,
{
    if 0 <= code_idx < s.len() {
        let ck = code_idx;
        let ci = token_scan(s, pat, ck).0;
        let token = trim(token_scan(s, pat, ck).1);
        if ck < ci <= s.len() {
            lemma_cands_step_groups(s, g, rs, pat, ty, d, ck, ci, token, cck, br.stack, cands, 0, seq![], seq![]);
            match cands_step(s, g, rs, pat, ty, d, ck, ci, token, cck, br.stack, cands, 0, seq![], seq![]) {
                Some((stepped, drops)) => {
                    assert forall|a: int, b: int| 0 <= a <= b < stepped.len() implies (#[trigger] stepped[a]).group <= (
                    #[trigger] stepped[b]).group by {
                        assert(cands[a].group <= cands[b].group);
                    }
                    lemma_undropped_sorted(stepped, drops);
                    let (br2, out) = brackets(token, 0, br);
                    if out is Go {
                        lemma_read_tokens_sorted(s, g, rs, pat, ty, d, ci, ck, br2, undropped(stepped, drops));
                    }
                },
                None => {},
            }
        }
    }
}

/// Choosing from `i` on, with best end `be` so far from a candidate no
/// later in rule-set order than those left: the tree chosen is the one
/// held, or that of a candidate `j` reaching the end chosen, whose rule set
/// comes first among those of the candidates left that reach it, and is
/// that of the candidate held where the end did not grow.
pub proof fn lemma_choose_from_first_set(
    s: Seq<char>,
    g: Seq<(Seq<char>, Seq<Seq<RuleV>>)>,
    rs: Seq<Seq<RuleV>>,
    pat: Seq<char>,
    d: nat,
    done: Seq<CandV>,
    i: int,
    be: int,
    b: CandV,
    bt: TreeV,
)
    requires
        groups_sorted(done),
        0 <= i,
        forall|k: int| i <= k < done.len() ==> b.group <= (#[trigger] done[k]).group,
    ensures
        choose_from(s, g, rs, pat, false, d, done, i, be, b, bt) matches Some((n, t)) ==> be <= n && ((t == bt && n
            == be) || exists|j: int|
            i <= j < done.len() && #[trigger] reached_end(s, g, pat, false, d, done[j]) == Some(n) && t == cand_tree(
                s,
                g,
                rs,
                pat,
                d,
                done[j],
            ) && (n > be || done[j].group == b.group) && forall|k: int|
                i <= k < done.len() && #[trigger] reached_end(s, g, pat, false, d, done[k]) == Some(n) ==> done[j].group
                    <= done[k].group),
    decreases done.len() - i,
{
    if i < done.len() {
        let code = done[i];
        match rs[code.group][code.index].name {
            None => {},
            Some(name) => {
                match read_args(s, g, pat, false, d, code, 0, code.next, false, seq![]) {
                    None => {},
                    Some((end, skip, args)) => {
                        let tree = TreeV { rule: name, args };
                        assert(tree == cand_tree(s, g, rs, pat, d, code));
                        assert(reached_end(s, g, pat, false, d, done[i]) == (if !skip {
                            Some(end)
                        } else {
                            None::<int>
                        }));
                        if !skip && (end > be || (end == be && code.last_len <= b.last_len && b.group == code.group)) {
                            assert forall|k: int| i + 1 <= k < done.len() implies code.group <= (#[trigger] done[k]).group by {
                                assert(done[i].group <= done[k].group);
                            }
                            lemma_choose_from_first_set(s, g, rs, pat, d, done, i + 1, end, code, tree);
                            match choose_from(s, g, rs, pat, false, d, done, i + 1, end, code, tree) {
                                Some((n, t)) => {
                                    if t == tree && n == end {
                                        assert forall|k: int|
                                            i <= k < done.len() && #[trigger] reached_end(s, g, pat, false, d, done[k])
                                                == Some(n) implies done[i].group <= done[k].group by {
                                            assert(done[i].group <= done[k].group);
                                        }
                                        assert(reached_end(s, g, pat, false, d, done[i]) == Some(n));
                                    } else {
                                        let j = choose|j: int|
                                            i + 1 <= j < done.len() && #[trigger] reached_end(s, g, pat, false, d, done[j])
                                                == Some(n) && t == cand_tree(s, g, rs, pat, d, done[j]) && (n > end
                                                || done[j].group == code.group) && forall|k: int|
                                                i + 1 <= k < done.len() && #[trigger] reached_end(
                                                    s,
                                                    g,
                                                    pat,
                                                    false,
                                                    d,
                                                    done[k],
                                                ) == Some(n) ==> done[j].group <= done[k].group;
                                        assert forall|k: int|
                                            i <= k < done.len() && #[trigger] reached_end(s, g, pat, false, d, done[k])
                                                == Some(n) implies done[j].group <= done[k].group by {
                                            if k == i {
                                                assert(done[j].group == code.group);
                                            }
                                        }
                                        assert(reached_end(s, g, pat, false, d, done[j]) == Some(n));
                                    }
                                },
                                None => {},
                            }
                        } else {
                            lemma_choose_from_first_set(s, g, rs, pat, d, done, i + 1, be, b, bt);
                            match choose_from(s, g, rs, pat, false, d, done, i + 1, be, b, bt) {
                                Some((n, t)) => {
                                    if !(t == bt && n == be) {
                                        let j = choose|j: int|
                                            i + 1 <= j < done.len() && #[trigger] reached_end(s, g, pat, false, d, done[j])
                                                == Some(n) && t == cand_tree(s, g, rs, pat, d, done[j]) && (n > be
                                                || done[j].group == b.group) && forall|k: int|
                                                i + 1 <= k < done.len() && #[trigger] reached_end(
                                                    s,
                                                    g,
                                                    pat,
                                                    false,
                                                    d,
                                                    done[k],
                                                ) == Some(n) ==> done[j].group <= done[k].group;
                                        assert forall|k: int|
                                            i <= k < done.len() && #[trigger] reached_end(s, g, pat, false, d, done[k])
                                                == Some(n) implies done[j].group <= done[k].group by {
                                            if k == i {
                                                assert(done[j].group == b.group);
                                                assert(b.group <= done[i].group);
                                            }
                                        }
                                        assert(reached_end(s, g, pat, false, d, done[j]) == Some(n));
                                    }
                                },
                                None => {},
                            }
                        }
                    },
                }
            },
        }
    }
}

/// Of the rules of the type that read the phrase as far as the one it is
/// read by, none is of an earlier rule set: a tree named by a rule is that
/// of a finished candidate that reaches the length read and whose rule set
/// comes first among those of all the finished candidates that reach it.
pub proof fn law_ties_go_to_the_earliest_rule_set(
    s: Seq<char>,
    g: Seq<(Seq<char>, Seq<Seq<RuleV>>)>,
    pat: Seq<char>,
    ty: Seq<char>,
    depth: nat,
)
    ensures
        first_phrase_spec(s, g, pat, ty, false, depth) matches Ok((n, t)) ==> (t.rule.len() > 0 ==> {
            let rs = rulesets_of(g, ty);
            let d = (depth - 1) as nat;
            let cands = read_tokens(
                s,
                g,
                rs,
                pat,
                ty,
                d,
                0,
                0,
                Brackets { in_string: false, escaped: false, stack: seq![] },
                cands_from(rs, 0, 0, 0),
            )->Ok_0;
            let done = finished(rs, cands);
            exists|j: int|
                0 <= j < done.len() && #[trigger] reached_end(s, g, pat, false, d, done[j]) == Some(n) && t == cand_tree(
                    s,
                    g,
                    rs,
                    pat,
                    d,
                    done[j],
                ) && forall|k: int|
                    0 <= k < done.len() && #[trigger] reached_end(s, g, pat, false, d, done[k]) == Some(n)
                        ==> done[j].group <= done[k].group
        }),
{
    let rs = rulesets_of(g, ty);
    if depth > 0 && prepared_sets(rs) {
        let d = (depth - 1) as nat;
        let br = Brackets { in_string: false, escaped: false, stack: seq![] };
        lemma_cands_from_sorted(rs, 0, 0, 0);
        lemma_read_tokens_sorted(s, g, rs, pat, ty, d, 0, 0, br, cands_from(rs, 0, 0, 0));
        match read_tokens(s, g, rs, pat, ty, d, 0, 0, br, cands_from(rs, 0, 0, 0)) {
            Ok(cands) => {
                lemma_finished_sorted(rs, cands);
                let done = finished(rs, cands);
                if done.len() > 0 {
                    let t0 = TreeV { rule: seq![], args: seq![] };
                    assert forall|k: int| 0 <= k < done.len() implies done[0].group <= (#[trigger] done[k]).group by {}
                    lemma_choose_from_first_set(s, g, rs, pat, d, done, 0, 0, done[0], t0);
                }
            },
            Err(_) => {},
        }
    }
}

} // verus!
