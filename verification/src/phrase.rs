//! Reading the first phrase of a text by the rules of a prepared grammar.
//!
//! All rules of the phrase type start out as candidates. The text is read
//! token by token; each candidate follows its pieces, reading placeholders
//! of other types as phrases of their own, and drops out when a literal
//! does not match. Of the candidates that reach their last piece, the one
//! that reads furthest is chosen.

use vstd::prelude::*;
use crate::grammar::{Grammar, Rule, RuleV, rulesets_of, rulesets_view, type_index_from};
use crate::text::{trim, is_single, placeholder_name, placeholder_type, chars_lt};
use crate::token::{token_scan, token_end, token_at};
use crate::tree::{TreeV, ExprV, insert_key};

verus! {

/// Why no phrase was read.
#[derive(PartialEq, Eq, Clone, Copy, Debug)]
pub enum PhraseError {
    /// No rule of the type reads the text.
    NoMatch,
    /// A closing parenthesis or brace does not match the open one.
    Unbalanced,
    /// Reading fails at run time: a rule of the type has no pieces, a rule
    /// that reads the phrase has no name, or phrases nest so deep that
    /// reading would never end.
    Fault,
}

/// The state of the parentheses and braces seen so far.
pub struct Brackets {
    pub in_string: bool,
    pub escaped: bool,
    pub stack: Seq<char>,
}

/// The outcome of reading the brackets of a token.
pub enum BracketOutcome {
    /// Reading goes on.
    Go,
    /// A closing bracket without an open one: the phrase ends here.
    Out,
    /// A closing bracket that does not match the open one.
    Mismatch,
}

/// Reads the brackets of `tok` from index `i`: quotes start and end strings
/// (a backslash in a string escapes the next quote), and outside strings
/// `(`/`{` open and `)`/`}` close.
pub open spec fn brackets(tok: Seq<char>, i: int, st: Brackets) -> (Brackets, BracketOutcome)
    decreases tok.len() - i,
{
    if i < 0 || i >= tok.len() {
        (st, BracketOutcome::Go)
    } else {
        let c = tok[i];
        if c == '\\' {
            brackets(tok, i + 1, Brackets { escaped: st.in_string && !st.escaped, ..st })
        } else if c == '"' {
            brackets(
                tok,
                i + 1,
                Brackets {
                    in_string: if !st.escaped {
                        !st.in_string
                    } else {
                        st.in_string
                    },
                    escaped: false,
                    ..st
                },
            )
        } else if c == '(' || c == '{' {
            if !st.in_string {
                brackets(tok, i + 1, Brackets { stack: st.stack.push(c), ..st })
            } else {
                brackets(tok, i + 1, st)
            }
        } else if c == ')' || c == '}' {
            if st.in_string {
                brackets(tok, i + 1, st)
            } else if st.stack.len() == 0 {
                (st, BracketOutcome::Out)
            } else if st.stack.last() == (if c == ')' {
                '('
            } else {
                '{'
            }) {
                brackets(tok, i + 1, Brackets { stack: st.stack.drop_last(), ..st })
            } else {
                (st, BracketOutcome::Mismatch)
            }
        } else {
            brackets(tok, i + 1, Brackets { escaped: false, ..st })
        }
    }
}

/// What a placeholder captured: its name, and its type with the span of
/// text it covers.
pub type CapV = (Seq<char>, (Seq<char>, (int, int)));

/// A candidate rule while a phrase is read.
pub struct CandV {
    /// Its number, in the order of the rules.
    pub id: int,
    /// Its rule set.
    pub group: int,
    /// Its place in its rule set.
    pub index: int,
    /// Whether the last placeholder is still being extended.
    pub extending: bool,
    /// The placeholders read so far, in the order of their names.
    pub caps: Seq<CapV>,
    /// The next piece of the rule to read.
    pub at: int,
    /// Whether no piece has been read yet.
    pub fresh: bool,
    /// Where in the text the candidate reads next.
    pub next: int,
    /// The name of the placeholder read last.
    pub current: Seq<char>,
    /// The length of the text of the last placeholder closed by a literal.
    pub last_len: int,
    /// The name of that placeholder.
    pub last_name: Seq<char>,
}

/// The pieces of the rule of candidate `c`.
pub open spec fn pieces_of(rs: Seq<Seq<RuleV>>, c: CandV) -> Seq<(bool, Seq<char>)> {
    rs[c.group][c.index].tokens.unwrap()
}

/// The candidates for the rules `rs[j][k..]`, `rs[j + 1..]`, numbered from `id`.
pub open spec fn cands_from(rs: Seq<Seq<RuleV>>, j: int, k: int, id: int) -> Seq<CandV>
    decreases rs.len() - j, (if 0 <= j < rs.len() { rs[j].len() - k } else { 0 }),
{
    if j < 0 || j >= rs.len() || k < 0 {
        seq![]
    } else if k >= rs[j].len() {
        cands_from(rs, j + 1, 0, id)
    } else {
        seq![fresh_cand(id, j, k)] + cands_from(rs, j, k + 1, id + 1)
    }
}

/// A candidate that has read nothing yet.
pub open spec fn fresh_cand(id: int, j: int, k: int) -> CandV {
    CandV {
        id,
        group: j,
        index: k,
        extending: false,
        caps: seq![],
        at: 0,
        fresh: true,
        next: 0,
        current: seq![],
        last_len: 9999,
        last_name: seq![],
    }
}

/// `caps` with the span of the first placeholder named `name` ending at `e`.
pub open spec fn set_end(caps: Seq<CapV>, name: Seq<char>, e: int) -> Seq<CapV>
    decreases caps.len(),
{
    if caps.len() == 0 {
        caps
    } else if caps[0].0 == name {
        caps.update(0, (name, (caps[0].1.0, (caps[0].1.1.0, e))))
    } else {
        seq![caps[0]] + set_end(caps.drop_first(), name, e)
    }
}

/// The span of the placeholder named `name`.
pub open spec fn span_of(caps: Seq<CapV>, name: Seq<char>) -> (int, int)
    decreases caps.len(),
{
    if caps.len() == 0 {
        (0, 0)
    } else if caps[0].0 == name {
        caps[0].1.1
    } else {
        span_of(caps.drop_first(), name)
    }
}

/// Whether every span of `caps` lies within a text of length `len` and
/// starts no later than `next`.
pub open spec fn caps_ok(caps: Seq<CapV>, next: int, len: int) -> bool {
    forall|i: int|
        0 <= i < caps.len() ==> 0 <= (#[trigger] caps[i]).1.1.0 <= caps[i].1.1.1 <= len
            && caps[i].1.1.0 <= next
}

/// Setting a placeholder to a span within bounds keeps all spans within bounds.
pub proof fn lemma_insert_key_ok(caps: Seq<CapV>, k: Seq<char>, v: (Seq<char>, (int, int)), next: int, len: int)
    requires
        caps_ok(caps, next, len),
        0 <= v.1.0 <= v.1.1 <= len,
        v.1.0 <= next,
    ensures
        caps_ok(insert_key(caps, k, v), next, len),
    decreases caps.len(),
{
    if caps.len() > 0 && caps[0].0 != k && !chars_lt(k, caps[0].0) {
        let t = caps.drop_first();
        assert forall|i: int| 0 <= i < t.len() implies 0 <= (#[trigger] t[i]).1.1.0 <= t[i].1.1.1 <= len
            && t[i].1.1.0 <= next by {
            assert(t[i] == caps[i + 1]);
        }
        lemma_insert_key_ok(t, k, v, next, len);
        let r = insert_key(caps, k, v);
        assert forall|i: int| 0 <= i < r.len() implies 0 <= (#[trigger] r[i]).1.1.0 <= r[i].1.1.1 <= len
            && r[i].1.1.0 <= next by {
            if i > 0 {
                assert(r[i] == insert_key(t, k, v)[i - 1]);
            }
        }
    } else if caps.len() > 0 && caps[0].0 != k {
        let r = insert_key(caps, k, v);
        assert forall|i: int| 0 <= i < r.len() implies 0 <= (#[trigger] r[i]).1.1.0 <= r[i].1.1.1 <= len
            && r[i].1.1.0 <= next by {
            if i > 0 {
                assert(r[i] == caps[i - 1]);
            }
        }
    }
}

/// Ending a span at a position no earlier than `next` keeps all spans within bounds.
pub proof fn lemma_set_end_ok(caps: Seq<CapV>, name: Seq<char>, e: int, next: int, len: int)
    requires
        caps_ok(caps, next, len),
        next <= e <= len,
    ensures
        caps_ok(set_end(caps, name, e), next, len),
    decreases caps.len(),
{
    if caps.len() > 0 && caps[0].0 != name {
        let t = caps.drop_first();
        assert forall|i: int| 0 <= i < t.len() implies 0 <= (#[trigger] t[i]).1.1.0 <= t[i].1.1.1 <= len
            && t[i].1.1.0 <= next by {
            assert(t[i] == caps[i + 1]);
        }
        lemma_set_end_ok(t, name, e, next, len);
        let r = set_end(caps, name, e);
        assert forall|i: int| 0 <= i < r.len() implies 0 <= (#[trigger] r[i]).1.1.0 <= r[i].1.1.1 <= len
            && r[i].1.1.0 <= next by {
            if i > 0 {
                assert(r[i] == set_end(t, name, e)[i - 1]);
            }
        }
    }
}

/// The span found for a name is within bounds and does not end before it starts.
pub proof fn lemma_span_ok(caps: Seq<CapV>, name: Seq<char>, next: int, len: int)
    requires
        caps_ok(caps, next, len),
        0 <= len,
    ensures
        0 <= span_of(caps, name).0 <= span_of(caps, name).1 <= len,
    decreases caps.len(),
{
    if caps.len() > 0 && caps[0].0 != name {
        let t = caps.drop_first();
        assert forall|i: int| 0 <= i < t.len() implies 0 <= (#[trigger] t[i]).1.1.0 <= t[i].1.1.1 <= len
            && t[i].1.1.0 <= next by {
            assert(t[i] == caps[i + 1]);
        }
        lemma_span_ok(t, name, next, len);
    }
}

/// Whether a literal may close a placeholder at the current nesting.
pub open spec fn may_close(stack: Seq<char>, expected: Seq<char>) -> bool {
    stack.len() == 0 || (stack.len() == 1 && (is_single(expected, ')') || is_single(expected, '}')))
}

/// One candidate reads the token `token` found at `ck` (ending at `ci`);
/// gives the candidate after it and whether it drops out.
pub open spec fn cand_step(
    s: Seq<char>,
    g: Seq<(Seq<char>, Seq<Seq<RuleV>>)>,
    rs: Seq<Seq<RuleV>>,
    pat: Seq<char>,
    ty: Seq<char>,
    d: nat,
    ck: int,
    ci: int,
    token: Seq<char>,
    cck: int,
    stack: Seq<char>,
    c: CandV,
) -> Option<(CandV, bool)>
    decreases d, 1int, 0int,
{
    let parts = pieces_of(rs, c);
    if !(c.next <= ck) || c.at < 0 || c.at >= parts.len() {
        Some((c, false))
    } else if parts[c.at].0 {
        Some(
            (
                CandV { at: c.at + 1, next: ci, extending: false, fresh: false, ..c },
                parts[c.at].1 != token,
            ),
        )
    } else {
        let text = parts[c.at].1;
        let name = placeholder_name(text);
        let et = placeholder_type(text);
        let closes = c.at + 1 < parts.len() && parts[c.at + 1].0 && c.fresh && parts[c.at + 1].1
            == token && may_close(stack, parts[c.at + 1].1);
        if closes {
            let caps1 = if c.extending {
                set_end(c.caps, name, ck)
            } else {
                insert_key(c.caps, name, (et, (cck, ck)))
            };
            let span = span_of(caps1, name);
            let ll = span.1 - span.0;
            Some(
                (
                    CandV {
                        caps: caps1,
                        extending: false,
                        at: c.at + 2,
                        fresh: false,
                        last_len: ll,
                        last_name: name,
                        next: ci,
                        ..c
                    },
                    et == ident_type() && ll == 0,
                ),
            )
        } else {
            let c2 = CandV { current: name, next: ci, ..c };
            if et == ident_type() {
                Some(
                    (
                        CandV {
                            at: c2.at + 1,
                            caps: insert_key(c2.caps, name, (et, (ck, ci))),
                            fresh: false,
                            extending: false,
                            ..c2
                        },
                        false,
                    ),
                )
            } else if c2.fresh && et == ty {
                if c2.extending {
                    Some((CandV { caps: set_end(c2.caps, name, ci), ..c2 }, false))
                } else {
                    Some(
                        (
                            CandV {
                                caps: insert_key(c2.caps, name, (et, (ck, ci))),
                                extending: true,
                                ..c2
                            },
                            false,
                        ),
                    )
                }
            } else {
                match first_phrase_spec(s.subrange(ck, s.len() as int), g, pat, et, true, d) {
                    Ok((n, _)) => Some(
                        (
                            CandV {
                                next: ck + n,
                                caps: insert_key(c2.caps, name, (et, (ck, ck + n))),
                                at: c2.at + 1,
                                fresh: false,
                                extending: true,
                                ..c2
                            },
                            false,
                        ),
                    ),
                    Err(PhraseError::Fault) => None,
                    Err(_) => Some((CandV { fresh: false, ..c2 }, true)),
                }
            }
        }
    }
}

/// All candidates from `i` on read the token; `done` holds those before
/// `i` and `drops` the numbers of those that drop out.
pub open spec fn cands_step(
    s: Seq<char>,
    g: Seq<(Seq<char>, Seq<Seq<RuleV>>)>,
    rs: Seq<Seq<RuleV>>,
    pat: Seq<char>,
    ty: Seq<char>,
    d: nat,
    ck: int,
    ci: int,
    token: Seq<char>,
    cck: int,
    stack: Seq<char>,
    cands: Seq<CandV>,
    i: int,
    done: Seq<CandV>,
    drops: Seq<int>,
) -> Option<(Seq<CandV>, Seq<int>)>
    decreases d, 2int, cands.len() - i,
{
    if i < 0 || i >= cands.len() {
        Some((done, drops))
    } else {
        match cand_step(s, g, rs, pat, ty, d, ck, ci, token, cck, stack, cands[i]) {
            None => None,
            Some((c, drop)) => cands_step(
                s,
                g,
                rs,
                pat,
                ty,
                d,
                ck,
                ci,
                token,
                cck,
                stack,
                cands,
                i + 1,
                done.push(c),
                if drop {
                    drops.push(cands[i].id)
                } else {
                    drops
                },
            ),
        }
    }
}

/// The candidates whose numbers are not in `drops`.
pub open spec fn undropped(cands: Seq<CandV>, drops: Seq<int>) -> Seq<CandV>
    decreases cands.len(),
{
    if cands.len() == 0 {
        seq![]
    } else {
        let rest = undropped(cands.drop_last(), drops);
        if drops.contains(cands.last().id) {
            rest
        } else {
            rest.push(cands.last())
        }
    }
}

/// Reads the text token by token from `code_idx`; gives the candidates left
/// when the text or the phrase ends.
pub open spec fn read_tokens(
    s: Seq<char>,
    g: Seq<(Seq<char>, Seq<Seq<RuleV>>)>,
    rs: Seq<Seq<RuleV>>,
    pat: Seq<char>,
    ty: Seq<char>,
    d: nat,
    code_idx: int,
    cck: int,
    br: Brackets,
    cands: Seq<CandV>,
) -> Result<Seq<CandV>, PhraseError>
    decreases d, 3int, s.len() - code_idx,
{
    if code_idx < 0 || code_idx >= s.len() {
        Ok(cands)
    } else {
        let ck = code_idx;
        let ci = token_scan(s, pat, ck).0;
        let token = trim(token_scan(s, pat, ck).1);
        if ci <= ck || ci > s.len() {
            Ok(cands)
        } else {
            match cands_step(s, g, rs, pat, ty, d, ck, ci, token, cck, br.stack, cands, 0, seq![], seq![]) {
                None => Err(PhraseError::Fault),
                Some((stepped, drops)) => {
                    let (br2, out) = brackets(token, 0, br);
                    match out {
                        BracketOutcome::Mismatch => Err(PhraseError::Unbalanced),
                        BracketOutcome::Out => Ok(undropped(stepped, drops)),
                        BracketOutcome::Go => read_tokens(
                            s,
                            g,
                            rs,
                            pat,
                            ty,
                            d,
                            ci,
                            ck,
                            br2,
                            undropped(stepped, drops),
                        ),
                    }
                },
            }
        }
    }
}

/// The text "ident", the type of names.
pub open spec fn ident_type() -> Seq<char> {
    seq!['i', 'd', 'e', 'n', 't']
}

/// Reads the placeholders of a finished candidate from `caps[j]` on: where
/// its phrase ends, whether it is given up, and the arguments of its tree.
pub open spec fn read_args(
    s: Seq<char>,
    g: Seq<(Seq<char>, Seq<Seq<RuleV>>)>,
    pat: Seq<char>,
    notree: bool,
    d: nat,
    code: CandV,
    j: int,
    end: int,
    skip: bool,
    args: Seq<(Seq<char>, (ExprV, Seq<char>))>,
) -> Option<(int, bool, Seq<(Seq<char>, (ExprV, Seq<char>))>)>
    decreases d, 1int, code.caps.len() - j,
{
    if j < 0 || j >= code.caps.len() {
        Some((end, skip, args))
    } else {
        let k = code.caps[j].0;
        let tt = code.caps[j].1.0;
        let a = code.caps[j].1.1.0;
        let b = code.caps[j].1.1.1;
        if k == code.current && code.extending && code.fresh {
            let rest = s.subrange(a, s.len() as int);
            if tt == ident_type() {
                let end2 = a + token_end(rest, pat, 0);
                read_args(
                    s,
                    g,
                    pat,
                    notree,
                    d,
                    code,
                    j + 1,
                    end2,
                    skip,
                    insert_key(args, k, (ExprV::Ident(s.subrange(a, end2)), ident_type())),
                )
            } else {
                match first_phrase_spec(rest, g, pat, tt, notree, d) {
                    Ok((n, t)) => read_args(
                        s,
                        g,
                        pat,
                        notree,
                        d,
                        code,
                        j + 1,
                        a + n,
                        skip,
                        if !notree {
                            insert_key(args, k, (ExprV::Exp(t), tt))
                        } else {
                            args
                        },
                    ),
                    Err(PhraseError::Fault) => None,
                    Err(_) => read_args(s, g, pat, notree, d, code, j + 1, end, true, args),
                }
            }
        } else if k == code.last_name || !notree {
            let sub = s.subrange(a, b);
            if tt == ident_type() {
                read_args(
                    s,
                    g,
                    pat,
                    notree,
                    d,
                    code,
                    j + 1,
                    end,
                    skip || token_end(sub, pat, 0) != sub.len(),
                    if !notree {
                        insert_key(args, k, (ExprV::Ident(sub), ident_type()))
                    } else {
                        args
                    },
                )
            } else {
                match first_phrase_spec(sub, g, pat, tt, notree, d) {
                    Ok((n, t)) => read_args(
                        s,
                        g,
                        pat,
                        notree,
                        d,
                        code,
                        j + 1,
                        end,
                        skip || n != sub.len(),
                        if !notree {
                            insert_key(args, k, (ExprV::Exp(t), tt))
                        } else {
                            args
                        },
                    ),
                    Err(PhraseError::Fault) => None,
                    Err(_) => read_args(s, g, pat, notree, d, code, j + 1, end, true, args),
                }
            }
        } else {
            read_args(s, g, pat, notree, d, code, j + 1, end, skip, args)
        }
    }
}

/// Chooses among the finished candidates from `i` on: the one read
/// furthest; at equal length a later one of the same rule set whose last
/// closed placeholder is no longer.
pub open spec fn choose_from(
    s: Seq<char>,
    g: Seq<(Seq<char>, Seq<Seq<RuleV>>)>,
    rs: Seq<Seq<RuleV>>,
    pat: Seq<char>,
    notree: bool,
    d: nat,
    done: Seq<CandV>,
    i: int,
    best_end: int,
    best: CandV,
    best_tree: TreeV,
) -> Option<(int, TreeV)>
    decreases d, 2int, done.len() - i,
{
    if i < 0 || i >= done.len() {
        Some((best_end, best_tree))
    } else {
        let code = done[i];
        match rs[code.group][code.index].name {
            None => None,
            Some(name) => match read_args(s, g, pat, notree, d, code, 0, code.next, false, seq![]) {
                None => None,
                Some((end, skip, args)) => {
                    let tree = TreeV { rule: name, args };
                    if !skip && (end > best_end || (end == best_end && code.last_len <= best.last_len
                        && best.group == code.group)) {
                        choose_from(
                            s,
                            g,
                            rs,
                            pat,
                            notree,
                            d,
                            done,
                            i + 1,
                            end,
                            if !notree {
                                code
                            } else {
                                best
                            },
                            if !notree {
                                tree
                            } else {
                                best_tree
                            },
                        )
                    } else {
                        choose_from(s, g, rs, pat, notree, d, done, i + 1, best_end, best, best_tree)
                    }
                },
            },
        }
    }
}

/// The candidates that read all pieces of their rule.
pub open spec fn finished(rs: Seq<Seq<RuleV>>, cands: Seq<CandV>) -> Seq<CandV>
    decreases cands.len(),
{
    if cands.len() == 0 {
        seq![]
    } else {
        let rest = finished(rs, cands.drop_last());
        if cands.last().at == pieces_of(rs, cands.last()).len() {
            rest.push(cands.last())
        } else {
            rest
        }
    }
}

/// Whether every rule of `rs` carries its pieces.
pub open spec fn prepared_sets(rs: Seq<Seq<RuleV>>) -> bool {
    forall|r: int, k: int| 0 <= r < rs.len() && 0 <= k < rs[r].len() ==> (#[trigger] rs[r][k]).tokens is Some
}

/// The first phrase of type `ty` in `s`: how much of `s` it covers, and its
/// tree (an empty tree where `notree` holds). Phrases inside it nest at most
/// `depth` deep.
pub open spec fn first_phrase_spec(
    s: Seq<char>,
    g: Seq<(Seq<char>, Seq<Seq<RuleV>>)>,
    pat: Seq<char>,
    ty: Seq<char>,
    notree: bool,
    depth: nat,
) -> Result<(int, TreeV), PhraseError>
    decreases depth, 0int, 0int,
{
    let rs = rulesets_of(g, ty);
    if depth == 0 || !prepared_sets(rs) {
        Err(PhraseError::Fault)
    } else {
        let d = (depth - 1) as nat;
        match read_tokens(
            s,
            g,
            rs,
            pat,
            ty,
            d,
            0,
            0,
            Brackets { in_string: false, escaped: false, stack: seq![] },
            cands_from(rs, 0, 0, 0),
        ) {
            Err(e) => Err(e),
            Ok(cands) => {
                let done = finished(rs, cands);
                if done.len() == 0 {
                    Err(PhraseError::NoMatch)
                } else {
                    match choose_from(
                        s,
                        g,
                        rs,
                        pat,
                        notree,
                        d,
                        done,
                        0,
                        0,
                        done[0],
                        TreeV { rule: seq![], args: seq![] },
                    ) {
                        None => Err(PhraseError::Fault),
                        Some(r) => Ok(r),
                    }
                }
            },
        }
    }
}

} // verus!

verus! {

/// Deeper nesting changes nothing for one candidate that reads without a
/// fault.
pub proof fn lemma_cand_step_deeper(
    s: Seq<char>,
    g: Seq<(Seq<char>, Seq<Seq<RuleV>>)>,
    rs: Seq<Seq<RuleV>>,
    pat: Seq<char>,
    ty: Seq<char>,
    d1: nat,
    d2: nat,
    ck: int,
    ci: int,
    token: Seq<char>,
    cck: int,
    stack: Seq<char>,
    c: CandV,
)
    requires
        d1 <= d2,
        cand_step(s, g, rs, pat, ty, d1, ck, ci, token, cck, stack, c) is Some,
    ensures
        cand_step(s, g, rs, pat, ty, d2, ck, ci, token, cck, stack, c) == cand_step(
            s,
            g,
            rs,
            pat,
            ty,
            d1,
            ck,
            ci,
            token,
            cck,
            stack,
            c,
        ),
    decreases d1, 1int, 0int,
{
    let parts = pieces_of(rs, c);
    if c.next <= ck && 0 <= c.at < parts.len() && !parts[c.at].0 {
        let et = placeholder_type(parts[c.at].1);
        let closes = c.at + 1 < parts.len() && parts[c.at + 1].0 && c.fresh && parts[c.at + 1].1
            == token && may_close(stack, parts[c.at + 1].1);
        if !closes && et != ident_type() && !(c.fresh && et == ty) {
            lemma_first_phrase_deeper(s.subrange(ck, s.len() as int), g, pat, et, true, d1, d2);
        }
    }
}

/// Deeper nesting changes nothing for candidates that read without a fault.
pub proof fn lemma_cands_step_deeper(
    s: Seq<char>,
    g: Seq<(Seq<char>, Seq<Seq<RuleV>>)>,
    rs: Seq<Seq<RuleV>>,
    pat: Seq<char>,
    ty: Seq<char>,
    d1: nat,
    d2: nat,
    ck: int,
    ci: int,
    token: Seq<char>,
    cck: int,
    stack: Seq<char>,
    cands: Seq<CandV>,
    i: int,
    done: Seq<CandV>,
    drops: Seq<int>,
)
    requires
        d1 <= d2,
        cands_step(s, g, rs, pat, ty, d1, ck, ci, token, cck, stack, cands, i, done, drops) is Some,
    ensures
        cands_step(s, g, rs, pat, ty, d2, ck, ci, token, cck, stack, cands, i, done, drops) == cands_step(
            s,
            g,
            rs,
            pat,
            ty,
            d1,
            ck,
            ci,
            token,
            cck,
            stack,
            cands,
            i,
            done,
            drops,
        ),
    decreases d1, 2int, cands.len() - i,
{
    if 0 <= i < cands.len() {
        lemma_cand_step_deeper(s, g, rs, pat, ty, d1, d2, ck, ci, token, cck, stack, cands[i]);
        match cand_step(s, g, rs, pat, ty, d1, ck, ci, token, cck, stack, cands[i]) {
            Some((c, drop)) => {
                lemma_cands_step_deeper(
                    s,
                    g,
                    rs,
                    pat,
                    ty,
                    d1,
                    d2,
                    ck,
                    ci,
                    token,
                    cck,
                    stack,
                    cands,
                    i + 1,
                    done.push(c),
                    if drop {
                        drops.push(cands[i].id)
                    } else {
                        drops
                    },
                );
            },
            None => {},
        }
    }
}

/// Deeper nesting changes nothing for reading tokens without a fault.
pub proof fn lemma_read_tokens_deeper(
    s: Seq<char>,
    g: Seq<(Seq<char>, Seq<Seq<RuleV>>)>,
    rs: Seq<Seq<RuleV>>,
    pat: Seq<char>,
    ty: Seq<char>,
    d1: nat,
    d2: nat,
    code_idx: int,
    cck: int,
    br: Brackets,
    cands: Seq<CandV>,
)
    requires
        d1 <= d2,
        !(read_tokens(s, g, rs, pat, ty, d1, code_idx, cck, br, cands) matches Err(PhraseError::Fault)),
    ensures
        read_tokens(s, g, rs, pat, ty, d2, code_idx, cck, br, cands) == read_tokens(
            s,
            g,
            rs,
            pat,
            ty,
            d1,
            code_idx,
            cck,
            br,
            cands,
        ),
    decreases d1, 3int, s.len() - code_idx,
{
    if 0 <= code_idx < s.len() {
        let ck = code_idx;
        let ci = token_scan(s, pat, ck).0;
        let token = trim(token_scan(s, pat, ck).1);
        if ck < ci <= s.len() {
            lemma_cands_step_deeper(s, g, rs, pat, ty, d1, d2, ck, ci, token, cck, br.stack, cands, 0, seq![], seq![]);
            match cands_step(s, g, rs, pat, ty, d1, ck, ci, token, cck, br.stack, cands, 0, seq![], seq![]) {
                Some((stepped, drops)) => {
                    let (br2, out) = brackets(token, 0, br);
                    if out is Go {
                        lemma_read_tokens_deeper(s, g, rs, pat, ty, d1, d2, ci, ck, br2, undropped(stepped, drops));
                    }
                },
                None => {},
            }
        }
    }
}

/// Deeper nesting changes nothing for reading placeholders without a fault.
pub proof fn lemma_read_args_deeper(
    s: Seq<char>,
    g: Seq<(Seq<char>, Seq<Seq<RuleV>>)>,
    pat: Seq<char>,
    notree: bool,
    d1: nat,
    d2: nat,
    code: CandV,
    j: int,
    end: int,
    skip: bool,
    args: Seq<(Seq<char>, (ExprV, Seq<char>))>,
)
    requires
        d1 <= d2,
        read_args(s, g, pat, notree, d1, code, j, end, skip, args) is Some,
    ensures
        read_args(s, g, pat, notree, d2, code, j, end, skip, args) == read_args(
            s,
            g,
            pat,
            notree,
            d1,
            code,
            j,
            end,
            skip,
            args,
        ),
    decreases d1, 1int, code.caps.len() - j,
{
    if 0 <= j < code.caps.len() {
        let k = code.caps[j].0;
        let tt = code.caps[j].1.0;
        let a = code.caps[j].1.1.0;
        let b = code.caps[j].1.1.1;
        if k == code.current && code.extending && code.fresh {
            let rest = s.subrange(a, s.len() as int);
            if tt == ident_type() {
                let end2 = a + token_end(rest, pat, 0);
                lemma_read_args_deeper(
                    s,
                    g,
                    pat,
                    notree,
                    d1,
                    d2,
                    code,
                    j + 1,
                    end2,
                    skip,
                    insert_key(args, k, (ExprV::Ident(s.subrange(a, end2)), ident_type())),
                );
            } else {
                lemma_first_phrase_deeper(rest, g, pat, tt, notree, d1, d2);
                match first_phrase_spec(rest, g, pat, tt, notree, d1) {
                    Ok((n, t)) => lemma_read_args_deeper(
                        s,
                        g,
                        pat,
                        notree,
                        d1,
                        d2,
                        code,
                        j + 1,
                        a + n,
                        skip,
                        if !notree {
                            insert_key(args, k, (ExprV::Exp(t), tt))
                        } else {
                            args
                        },
                    ),
                    Err(PhraseError::Fault) => {},
                    Err(_) => lemma_read_args_deeper(s, g, pat, notree, d1, d2, code, j + 1, end, true, args),
                }
            }
        } else if k == code.last_name || !notree {
            let sub = s.subrange(a, b);
            if tt == ident_type() {
                lemma_read_args_deeper(
                    s,
                    g,
                    pat,
                    notree,
                    d1,
                    d2,
                    code,
                    j + 1,
                    end,
                    skip || token_end(sub, pat, 0) != sub.len(),
                    if !notree {
                        insert_key(args, k, (ExprV::Ident(sub), ident_type()))
                    } else {
                        args
                    },
                );
            } else {
                lemma_first_phrase_deeper(sub, g, pat, tt, notree, d1, d2);
                match first_phrase_spec(sub, g, pat, tt, notree, d1) {
                    Ok((n, t)) => lemma_read_args_deeper(
                        s,
                        g,
                        pat,
                        notree,
                        d1,
                        d2,
                        code,
                        j + 1,
                        end,
                        skip || n != sub.len(),
                        if !notree {
                            insert_key(args, k, (ExprV::Exp(t), tt))
                        } else {
                            args
                        },
                    ),
                    Err(PhraseError::Fault) => {},
                    Err(_) => lemma_read_args_deeper(s, g, pat, notree, d1, d2, code, j + 1, end, true, args),
                }
            }
        } else {
            lemma_read_args_deeper(s, g, pat, notree, d1, d2, code, j + 1, end, skip, args);
        }
    }
}

/// Deeper nesting changes nothing for choosing among finished candidates
/// without a fault.
pub proof fn lemma_choose_from_deeper(
    s: Seq<char>,
    g: Seq<(Seq<char>, Seq<Seq<RuleV>>)>,
    rs: Seq<Seq<RuleV>>,
    pat: Seq<char>,
    notree: bool,
    d1: nat,
    d2: nat,
    done: Seq<CandV>,
    i: int,
    best_end: int,
    best: CandV,
    best_tree: TreeV,
)
    requires
        d1 <= d2,
        choose_from(s, g, rs, pat, notree, d1, done, i, best_end, best, best_tree) is Some,
    ensures
        choose_from(s, g, rs, pat, notree, d2, done, i, best_end, best, best_tree) == choose_from(
            s,
            g,
            rs,
            pat,
            notree,
            d1,
            done,
            i,
            best_end,
            best,
            best_tree,
        ),
    decreases d1, 2int, done.len() - i,
{
    if 0 <= i < done.len() {
        let code = done[i];
        match rs[code.group][code.index].name {
            None => {},
            Some(name) => {
                lemma_read_args_deeper(s, g, pat, notree, d1, d2, code, 0, code.next, false, seq![]);
                match read_args(s, g, pat, notree, d1, code, 0, code.next, false, seq![]) {
                    None => {},
                    Some((end, skip, args)) => {
                        let tree = TreeV { rule: name, args };
                        if !skip && (end > best_end || (end == best_end && code.last_len <= best.last_len
                            && best.group == code.group)) {
                            lemma_choose_from_deeper(
                                s,
                                g,
                                rs,
                                pat,
                                notree,
                                d1,
                                d2,
                                done,
                                i + 1,
                                end,
                                if !notree {
                                    code
                                } else {
                                    best
                                },
                                if !notree {
                                    tree
                                } else {
                                    best_tree
                                },
                            );
                        } else {
                            lemma_choose_from_deeper(s, g, rs, pat, notree, d1, d2, done, i + 1, best_end, best, best_tree);
                        }
                    },
                }
            },
        }
    }
}

/// Deeper nesting changes nothing for a reading without a fault.
pub proof fn lemma_first_phrase_deeper(
    s: Seq<char>,
    g: Seq<(Seq<char>, Seq<Seq<RuleV>>)>,
    pat: Seq<char>,
    ty: Seq<char>,
    notree: bool,
    d1: nat,
    d2: nat,
)
    requires
        d1 <= d2,
        !(first_phrase_spec(s, g, pat, ty, notree, d1) matches Err(PhraseError::Fault)),
    ensures
        first_phrase_spec(s, g, pat, ty, notree, d2) == first_phrase_spec(s, g, pat, ty, notree, d1),
    decreases d1, 0int, 0int,
{
    let rs = rulesets_of(g, ty);
    if d1 > 0 && prepared_sets(rs) {
        let e1 = (d1 - 1) as nat;
        let e2 = (d2 - 1) as nat;
        let br = Brackets { in_string: false, escaped: false, stack: seq![] };
        lemma_read_tokens_deeper(s, g, rs, pat, ty, e1, e2, 0, 0, br, cands_from(rs, 0, 0, 0));
        match read_tokens(s, g, rs, pat, ty, e1, 0, 0, br, cands_from(rs, 0, 0, 0)) {
            Ok(cands) => {
                let done = finished(rs, cands);
                if done.len() > 0 {
                    lemma_choose_from_deeper(
                        s,
                        g,
                        rs,
                        pat,
                        notree,
                        e1,
                        e2,
                        done,
                        0,
                        0,
                        done[0],
                        TreeV { rule: seq![], args: seq![] },
                    );
                }
            },
            Err(_) => {},
        }
    }
}

/// Whether every candidate of `v` names a rule of `rs`.
pub open spec fn all_cand_ok(rs: Seq<Seq<RuleV>>, v: Seq<CandV>) -> bool {
    forall|i: int| 0 <= i < v.len() ==> cand_ok(rs, #[trigger] v[i])
}

/// Whether a placeholder of a tree read by `first_phrase` is well formed: a
/// name is of type `ident`; a phrase is of another type, and its rule is a
/// rule of that type.
pub open spec fn phrase_arg_good(
    g: Seq<(Seq<char>, Seq<Seq<RuleV>>)>,
    a: (Seq<char>, (ExprV, Seq<char>)),
) -> bool {
    match a.1.0 {
        ExprV::Ident(_) => a.1.1 == ident_type(),
        ExprV::Exp(sub) => a.1.1 != ident_type() && names_a_rule(rulesets_of(g, a.1.1), sub.rule),
    }
}

/// Whether every placeholder of `args` is well formed.
pub open spec fn phrase_args_good(
    g: Seq<(Seq<char>, Seq<Seq<RuleV>>)>,
    args: Seq<(Seq<char>, (ExprV, Seq<char>))>,
) -> bool {
    forall|i: int| 0 <= i < args.len() ==> #[trigger] phrase_arg_good(g, args[i])
}

/// Whether `t` is a well-formed tree of type `ty`: its rule is a rule of
/// the type, its placeholders are well formed, and it is empty where no
/// tree is asked for.
pub open spec fn phrase_tree_good(
    g: Seq<(Seq<char>, Seq<Seq<RuleV>>)>,
    ty: Seq<char>,
    t: TreeV,
    notree: bool,
) -> bool {
    names_a_rule(rulesets_of(g, ty), t.rule) && phrase_args_good(g, t.args) && (notree ==> t == empty_tree())
}

/// The candidates built for the rules of `rs` name rules of `rs`.
pub proof fn lemma_cands_from_ok(rs: Seq<Seq<RuleV>>, j: int, k: int, id: int)
    ensures
        all_cand_ok(rs, cands_from(rs, j, k, id)),
    decreases rs.len() - j, (if 0 <= j < rs.len() { rs[j].len() - k } else { 0 }),
{
    if 0 <= j < rs.len() && 0 <= k {
        if k >= rs[j].len() {
            lemma_cands_from_ok(rs, j + 1, 0, id);
        } else {
            lemma_cands_from_ok(rs, j, k + 1, id + 1);
            let v = cands_from(rs, j, k, id);
            let w = cands_from(rs, j, k + 1, id + 1);
            assert forall|i: int| 0 <= i < v.len() implies cand_ok(rs, #[trigger] v[i]) by {
                if i > 0 {
                    assert(v[i] == w[i - 1]);
                }
            }
        }
    }
}

/// A candidate keeps its rule when it reads a token.
pub proof fn lemma_cand_step_keeps_rule(
    s: Seq<char>,
    g: Seq<(Seq<char>, Seq<Seq<RuleV>>)>,
    rs: Seq<Seq<RuleV>>,
    pat: Seq<char>,
    ty: Seq<char>,
    d: nat,
    ck: int,
    ci: int,
    token: Seq<char>,
    cck: int,
    stack: Seq<char>,
    c: CandV,
)
    ensures
        cand_step(s, g, rs, pat, ty, d, ck, ci, token, cck, stack, c) matches Some((c2, _)) ==> c2.group == c.group
            && c2.index == c.index,
{
}

/// Candidates keep naming rules of `rs` when they read a token.
pub proof fn lemma_cands_step_ok(
    s: Seq<char>,
    g: Seq<(Seq<char>, Seq<Seq<RuleV>>)>,
    rs: Seq<Seq<RuleV>>,
    pat: Seq<char>,
    ty: Seq<char>,
    d: nat,
    ck: int,
    ci: int,
    token: Seq<char>,
    cck: int,
    stack: Seq<char>,
    cands: Seq<CandV>,
    i: int,
    done: Seq<CandV>,
    drops: Seq<int>,
)
    requires
        all_cand_ok(rs, cands),
        all_cand_ok(rs, done),
    ensures
        cands_step(s, g, rs, pat, ty, d, ck, ci, token, cck, stack, cands, i, done, drops) matches Some((v, _))
            ==> all_cand_ok(rs, v),
    decreases cands.len() - i,
{
    if 0 <= i < cands.len() {
        lemma_cand_step_keeps_rule(s, g, rs, pat, ty, d, ck, ci, token, cck, stack, cands[i]);
        match cand_step(s, g, rs, pat, ty, d, ck, ci, token, cck, stack, cands[i]) {
            Some((c, drop)) => {
                assert(cand_ok(rs, cands[i]));
                let done2 = done.push(c);
                assert forall|k: int| 0 <= k < done2.len() implies cand_ok(rs, #[trigger] done2[k]) by {
                    if k < done.len() {
                        assert(done2[k] == done[k]);
                    }
                }
                lemma_cands_step_ok(
                    s,
                    g,
                    rs,
                    pat,
                    ty,
                    d,
                    ck,
                    ci,
                    token,
                    cck,
                    stack,
                    cands,
                    i + 1,
                    done2,
                    if drop {
                        drops.push(cands[i].id)
                    } else {
                        drops
                    },
                );
            },
            None => {},
        }
    }
}

/// The candidates kept name rules of `rs`.
pub proof fn lemma_undropped_ok(rs: Seq<Seq<RuleV>>, cands: Seq<CandV>, drops: Seq<int>)
    requires
        all_cand_ok(rs, cands),
    ensures
        all_cand_ok(rs, undropped(cands, drops)),
    decreases cands.len(),
{
    if cands.len() > 0 {
        let f = cands.drop_last();
        assert forall|i: int| 0 <= i < f.len() implies cand_ok(rs, #[trigger] f[i]) by {
            assert(f[i] == cands[i]);
        }
        lemma_undropped_ok(rs, f, drops);
        assert(cand_ok(rs, cands[cands.len() - 1]));
        let rest = undropped(f, drops);
        let r = rest.push(cands.last());
        assert forall|i: int| 0 <= i < r.len() implies cand_ok(rs, #[trigger] r[i]) by {
            if i < rest.len() {
                assert(r[i] == rest[i]);
            }
        }
    }
}

/// The finished candidates name rules of `rs`.
pub proof fn lemma_finished_ok(rs: Seq<Seq<RuleV>>, cands: Seq<CandV>)
    requires
        all_cand_ok(rs, cands),
    ensures
        all_cand_ok(rs, finished(rs, cands)),
    decreases cands.len(),
{
    if cands.len() > 0 {
        let f = cands.drop_last();
        assert forall|i: int| 0 <= i < f.len() implies cand_ok(rs, #[trigger] f[i]) by {
            assert(f[i] == cands[i]);
        }
        lemma_finished_ok(rs, f);
        assert(cand_ok(rs, cands[cands.len() - 1]));
        let rest = finished(rs, f);
        let r = rest.push(cands.last());
        assert forall|i: int| 0 <= i < r.len() implies cand_ok(rs, #[trigger] r[i]) by {
            if i < rest.len() {
                assert(r[i] == rest[i]);
            }
        }
    }
}

/// Reading tokens keeps candidates naming rules of `rs`.
pub proof fn lemma_read_tokens_ok(
    s: Seq<char>,
    g: Seq<(Seq<char>, Seq<Seq<RuleV>>)>,
    rs: Seq<Seq<RuleV>>,
    pat: Seq<char>,
    ty: Seq<char>,
    d: nat,
    code_idx: int,
    cck: int,
    br: Brackets,
    cands: Seq<CandV>,
)
    requires
        all_cand_ok(rs, cands),
    ensures
        read_tokens(s, g, rs, pat, ty, d, code_idx, cck, br, cands) matches Ok(v) ==> all_cand_ok(rs, v),
    decreases s.len() - code_idx,
{
    if 0 <= code_idx < s.len() {
        let ck = code_idx;
        let ci = token_scan(s, pat, ck).0;
        let token = trim(token_scan(s, pat, ck).1);
        if ck < ci <= s.len() {
            lemma_cands_step_ok(s, g, rs, pat, ty, d, ck, ci, token, cck, br.stack, cands, 0, seq![], seq![]);
            match cands_step(s, g, rs, pat, ty, d, ck, ci, token, cck, br.stack, cands, 0, seq![], seq![]) {
                Some((stepped, drops)) => {
                    lemma_undropped_ok(rs, stepped, drops);
                    let (br2, out) = brackets(token, 0, br);
                    if out is Go {
                        lemma_read_tokens_ok(s, g, rs, pat, ty, d, ci, ck, br2, undropped(stepped, drops));
                    }
                },
                None => {},
            }
        }
    }
}

/// Setting a well-formed placeholder keeps every placeholder well formed.
pub proof fn lemma_insert_phrase_good(
    g: Seq<(Seq<char>, Seq<Seq<RuleV>>)>,
    args: Seq<(Seq<char>, (ExprV, Seq<char>))>,
    k: Seq<char>,
    v: (ExprV, Seq<char>),
)
    requires
        phrase_args_good(g, args),
        phrase_arg_good(g, (k, v)),
    ensures
        phrase_args_good(g, insert_key(args, k, v)),
    decreases args.len(),
{
    let r = insert_key(args, k, v);
    if args.len() > 0 && args[0].0 != k && !chars_lt(k, args[0].0) {
        let t = args.drop_first();
        assert forall|i: int| 0 <= i < t.len() implies #[trigger] phrase_arg_good(g, t[i]) by {
            assert(t[i] == args[i + 1]);
        }
        lemma_insert_phrase_good(g, t, k, v);
        assert forall|i: int| 0 <= i < r.len() implies #[trigger] phrase_arg_good(g, r[i]) by {
            if i > 0 {
                assert(r[i] == insert_key(t, k, v)[i - 1]);
            }
        }
    } else if args.len() > 0 && args[0].0 != k {
        assert forall|i: int| 0 <= i < r.len() implies #[trigger] phrase_arg_good(g, r[i]) by {
            if i > 0 {
                assert(r[i] == args[i - 1]);
            }
        }
    } else if args.len() > 0 {
        assert forall|i: int| 0 <= i < r.len() implies #[trigger] phrase_arg_good(g, r[i]) by {
            if i > 0 {
                assert(r[i] == args[i]);
            }
        }
    }
}

/// Reading the placeholders of a finished candidate gives well-formed ones.
pub proof fn lemma_read_args_good(
    s: Seq<char>,
    g: Seq<(Seq<char>, Seq<Seq<RuleV>>)>,
    pat: Seq<char>,
    notree: bool,
    d: nat,
    code: CandV,
    j: int,
    end: int,
    skip: bool,
    args: Seq<(Seq<char>, (ExprV, Seq<char>))>,
)
    requires
        phrase_args_good(g, args),
    ensures
        read_args(s, g, pat, notree, d, code, j, end, skip, args) matches Some((_, _, a)) ==> phrase_args_good(g, a),
    decreases d, 1int, code.caps.len() - j,
{
    if 0 <= j < code.caps.len() {
        let k = code.caps[j].0;
        let tt = code.caps[j].1.0;
        let a = code.caps[j].1.1.0;
        let b = code.caps[j].1.1.1;
        if k == code.current && code.extending && code.fresh {
            let rest = s.subrange(a, s.len() as int);
            if tt == ident_type() {
                let end2 = a + token_end(rest, pat, 0);
                let v = (ExprV::Ident(s.subrange(a, end2)), ident_type());
                lemma_insert_phrase_good(g, args, k, v);
                lemma_read_args_good(s, g, pat, notree, d, code, j + 1, end2, skip, insert_key(args, k, v));
            } else {
                lemma_first_phrase_good(rest, g, pat, tt, notree, d);
                match first_phrase_spec(rest, g, pat, tt, notree, d) {
                    Ok((n, t)) => {
                        if !notree {
                            lemma_insert_phrase_good(g, args, k, (ExprV::Exp(t), tt));
                        }
                        lemma_read_args_good(
                            s,
                            g,
                            pat,
                            notree,
                            d,
                            code,
                            j + 1,
                            a + n,
                            skip,
                            if !notree {
                                insert_key(args, k, (ExprV::Exp(t), tt))
                            } else {
                                args
                            },
                        );
                    },
                    Err(PhraseError::Fault) => {},
                    Err(_) => lemma_read_args_good(s, g, pat, notree, d, code, j + 1, end, true, args),
                }
            }
        } else if k == code.last_name || !notree {
            let sub = s.subrange(a, b);
            if tt == ident_type() {
                if !notree {
                    lemma_insert_phrase_good(g, args, k, (ExprV::Ident(sub), ident_type()));
                }
                lemma_read_args_good(
                    s,
                    g,
                    pat,
                    notree,
                    d,
                    code,
                    j + 1,
                    end,
                    skip || token_end(sub, pat, 0) != sub.len(),
                    if !notree {
                        insert_key(args, k, (ExprV::Ident(sub), ident_type()))
                    } else {
                        args
                    },
                );
            } else {
                lemma_first_phrase_good(sub, g, pat, tt, notree, d);
                match first_phrase_spec(sub, g, pat, tt, notree, d) {
                    Ok((n, t)) => {
                        if !notree {
                            lemma_insert_phrase_good(g, args, k, (ExprV::Exp(t), tt));
                        }
                        lemma_read_args_good(
                            s,
                            g,
                            pat,
                            notree,
                            d,
                            code,
                            j + 1,
                            end,
                            skip || n != sub.len(),
                            if !notree {
                                insert_key(args, k, (ExprV::Exp(t), tt))
                            } else {
                                args
                            },
                        );
                    },
                    Err(PhraseError::Fault) => {},
                    Err(_) => lemma_read_args_good(s, g, pat, notree, d, code, j + 1, end, true, args),
                }
            }
        } else {
            lemma_read_args_good(s, g, pat, notree, d, code, j + 1, end, skip, args);
        }
    }
}

/// Choosing among finished candidates gives a well-formed tree.
pub proof fn lemma_choose_from_good(
    s: Seq<char>,
    g: Seq<(Seq<char>, Seq<Seq<RuleV>>)>,
    rs: Seq<Seq<RuleV>>,
    pat: Seq<char>,
    notree: bool,
    d: nat,
    done: Seq<CandV>,
    i: int,
    best_end: int,
    best: CandV,
    best_tree: TreeV,
)
    requires
        all_cand_ok(rs, done),
        names_a_rule(rs, best_tree.rule),
        phrase_args_good(g, best_tree.args),
        notree ==> best_tree == empty_tree(),
    ensures
        choose_from(s, g, rs, pat, notree, d, done, i, best_end, best, best_tree) matches Some((_, t)) ==> names_a_rule(
            rs,
            t.rule,
        ) && phrase_args_good(g, t.args) && (notree ==> t == empty_tree()),
    decreases d, 2int, done.len() - i,
{
    if 0 <= i < done.len() {
        let code = done[i];
        assert(cand_ok(rs, code));
        match rs[code.group][code.index].name {
            None => {},
            Some(name) => {
                lemma_read_args_good(s, g, pat, notree, d, code, 0, code.next, false, seq![]);
                match read_args(s, g, pat, notree, d, code, 0, code.next, false, seq![]) {
                    None => {},
                    Some((end, skip, args)) => {
                        let tree = TreeV { rule: name, args };
                        assert(names_a_rule(rs, name)) by {
                            assert(rs[code.group][code.index].name == Some(name));
                        }
                        if !skip && (end > best_end || (end == best_end && code.last_len <= best.last_len
                            && best.group == code.group)) {
                            lemma_choose_from_good(
                                s,
                                g,
                                rs,
                                pat,
                                notree,
                                d,
                                done,
                                i + 1,
                                end,
                                if !notree {
                                    code
                                } else {
                                    best
                                },
                                if !notree {
                                    tree
                                } else {
                                    best_tree
                                },
                            );
                        } else {
                            lemma_choose_from_good(s, g, rs, pat, notree, d, done, i + 1, best_end, best, best_tree);
                        }
                    },
                }
            },
        }
    }
}

/// A phrase read by `first_phrase_spec` gives a well-formed tree.
pub proof fn lemma_first_phrase_good(
    s: Seq<char>,
    g: Seq<(Seq<char>, Seq<Seq<RuleV>>)>,
    pat: Seq<char>,
    ty: Seq<char>,
    notree: bool,
    d: nat,
)
    ensures
        first_phrase_spec(s, g, pat, ty, notree, d) matches Ok((_, t)) ==> phrase_tree_good(g, ty, t, notree),
    decreases d, 0int, 0int,
{
    let rs = rulesets_of(g, ty);
    if d > 0 && prepared_sets(rs) {
        let e = (d - 1) as nat;
        let br = Brackets { in_string: false, escaped: false, stack: seq![] };
        lemma_cands_from_ok(rs, 0, 0, 0);
        lemma_read_tokens_ok(s, g, rs, pat, ty, e, 0, 0, br, cands_from(rs, 0, 0, 0));
        match read_tokens(s, g, rs, pat, ty, e, 0, 0, br, cands_from(rs, 0, 0, 0)) {
            Ok(cands) => {
                lemma_finished_ok(rs, cands);
                let done = finished(rs, cands);
                if done.len() > 0 {
                    let t0 = TreeV { rule: seq![], args: seq![] };
                    assert(t0 == empty_tree());
                    lemma_choose_from_good(s, g, rs, pat, notree, e, done, 0, 0, done[0], t0);
                }
            },
            Err(_) => {},
        }
    }
}

/// The tree of a phrase read by `first_phrase` names a rule of the type (or
/// nothing, where no tree is asked for, and then it is empty); each of its
/// placeholders is a name of type `ident`, or a phrase of another type whose
/// rule is a rule of that type.
pub proof fn law_phrase_trees_are_well_formed(
    s: Seq<char>,
    g: Seq<(Seq<char>, Seq<Seq<RuleV>>)>,
    pat: Seq<char>,
    ty: Seq<char>,
    notree: bool,
    d: nat,
)
    ensures
        first_phrase_spec(s, g, pat, ty, notree, d) matches Ok((_, t)) ==> phrase_tree_good(g, ty, t, notree),
{
    lemma_first_phrase_good(s, g, pat, ty, notree, d);
}

/// Where the phrase of the finished candidate `code` ends, where its
/// placeholders read back to their texts (`None` where one does not, or
/// reading faults).
pub open spec fn reached_end(
    s: Seq<char>,
    g: Seq<(Seq<char>, Seq<Seq<RuleV>>)>,
    pat: Seq<char>,
    notree: bool,
    d: nat,
    code: CandV,
) -> Option<int> {
    match read_args(s, g, pat, notree, d, code, 0, code.next, false, seq![]) {
        Some((e, false, _)) => Some(e),
        _ => None,
    }
}

/// Choosing from `i` on gives at least `best_end`, at least every end
/// reached by a later candidate, and either `best_end` or one of those.
pub proof fn lemma_choose_from_greatest(
    s: Seq<char>,
    g: Seq<(Seq<char>, Seq<Seq<RuleV>>)>,
    rs: Seq<Seq<RuleV>>,
    pat: Seq<char>,
    notree: bool,
    d: nat,
    done: Seq<CandV>,
    i: int,
    best_end: int,
    best: CandV,
    best_tree: TreeV,
)
    requires
        0 <= i,
    ensures
        choose_from(s, g, rs, pat, notree, d, done, i, best_end, best, best_tree) matches Some((n, _)) ==> {
            &&& best_end <= n
            &&& forall|j: int| i <= j < done.len() ==> (#[trigger] reached_end(s, g, pat, notree, d, done[j])
                matches Some(e) ==> e <= n)
            &&& (n == best_end || exists|j: int| i <= j < done.len() && #[trigger] reached_end(s, g, pat, notree, d, done[j]) == Some(n))
        },
    decreases done.len() - i,
{
    if i < done.len() {
        let code = done[i];
        match rs[code.group][code.index].name {
            None => {},
            Some(name) => {
                match read_args(s, g, pat, notree, d, code, 0, code.next, false, seq![]) {
                    None => {},
                    Some((end, skip, args)) => {
                        let tree = TreeV { rule: name, args };
                        let take = !skip && (end > best_end || (end == best_end && code.last_len <= best.last_len
                            && best.group == code.group));
                        let nb = if take { end } else { best_end };
                        let ncode = if take && !notree { code } else { best };
                        let ntree = if take && !notree { tree } else { best_tree };
                        assert(choose_from(s, g, rs, pat, notree, d, done, i, best_end, best, best_tree) == choose_from(
                            s,
                            g,
                            rs,
                            pat,
                            notree,
                            d,
                            done,
                            i + 1,
                            nb,
                            ncode,
                            ntree,
                        ));
                        lemma_choose_from_greatest(s, g, rs, pat, notree, d, done, i + 1, nb, ncode, ntree);
                        match choose_from(s, g, rs, pat, notree, d, done, i + 1, nb, ncode, ntree) {
                            Some((n, _)) => {
                                assert(reached_end(s, g, pat, notree, d, done[i]) == (if !skip {
                                    Some(end)
                                } else {
                                    None::<int>
                                }));
                                if take && n == nb {
                                    assert(reached_end(s, g, pat, notree, d, done[i]) == Some(n));
                                }
                            },
                            None => {},
                        }
                    },
                }
            },
        }
    }
}

/// The length of the phrase read is the greatest end reached by a rule of
/// the type that reads all its pieces and whose placeholders read back to
/// their texts (0 where none does).
pub proof fn law_phrase_is_the_longest(
    s: Seq<char>,
    g: Seq<(Seq<char>, Seq<Seq<RuleV>>)>,
    pat: Seq<char>,
    ty: Seq<char>,
    notree: bool,
    depth: nat,
)
    ensures
        first_phrase_spec(s, g, pat, ty, notree, depth) matches Ok((n, _)) ==> {
            let rs = rulesets_of(g, ty);
            let d = (depth - 1) as nat;
            let cands = read_tokens(
                s,
                g,
                rs,
                pat,
                ty,
                d,
                0,
                0,
                Brackets { in_string: false, escaped: false, stack: seq![] },
                cands_from(rs, 0, 0, 0),
            )->Ok_0;
            let done = finished(rs, cands);
            &&& forall|j: int| 0 <= j < done.len() ==> (#[trigger] reached_end(s, g, pat, notree, d, done[j])
                matches Some(e) ==> e <= n)
            &&& (n == 0 || exists|j: int| 0 <= j < done.len() && #[trigger] reached_end(s, g, pat, notree, d, done[j]) == Some(n))
        },
{
    let rs = rulesets_of(g, ty);
    if depth > 0 && prepared_sets(rs) {
        let d = (depth - 1) as nat;
        let br = Brackets { in_string: false, escaped: false, stack: seq![] };
        match read_tokens(s, g, rs, pat, ty, d, 0, 0, br, cands_from(rs, 0, 0, 0)) {
            Ok(cands) => {
                let done = finished(rs, cands);
                if done.len() > 0 {
                    lemma_choose_from_greatest(
                        s,
                        g,
                        rs,
                        pat,
                        notree,
                        d,
                        done,
                        0,
                        0,
                        done[0],
                        TreeV { rule: seq![], args: seq![] },
                    );
                }
            },
            Err(_) => {},
        }
    }
}

/// Whether every candidate of `v` reads within a text of length `len`, its
/// spans too.
pub open spec fn cands_fit(v: Seq<CandV>, len: int) -> bool {
    forall|i: int| 0 <= i < v.len() ==> (#[trigger] v[i]).next <= len && caps_ok(v[i].caps, v[i].next, len)
}

/// Spans that start no later than `n` start no later than any `m >= n`.
pub proof fn lemma_caps_ok_later(caps: Seq<CapV>, n: int, m: int, len: int)
    requires
        caps_ok(caps, n, len),
        n <= m,
    ensures
        caps_ok(caps, m, len),
{
}

/// The candidates built for the rules read nothing yet.
pub proof fn lemma_cands_from_fit(rs: Seq<Seq<RuleV>>, j: int, k: int, id: int, len: int)
    requires
        0 <= len,
    ensures
        cands_fit(cands_from(rs, j, k, id), len),
    decreases rs.len() - j, (if 0 <= j < rs.len() { rs[j].len() - k } else { 0 }),
{
    if 0 <= j < rs.len() && 0 <= k {
        if k >= rs[j].len() {
            lemma_cands_from_fit(rs, j + 1, 0, id, len);
        } else {
            lemma_cands_from_fit(rs, j, k + 1, id + 1, len);
            let v = cands_from(rs, j, k, id);
            let w = cands_from(rs, j, k + 1, id + 1);
            assert forall|i: int| 0 <= i < v.len() implies (#[trigger] v[i]).next <= len && caps_ok(
                v[i].caps,
                v[i].next,
                len,
            ) by {
                if i > 0 {
                    assert(v[i] == w[i - 1]);
                }
            }
        }
    }
}

/// One candidate keeps reading within the text.
pub proof fn lemma_cand_step_fit(
    s: Seq<char>,
    g: Seq<(Seq<char>, Seq<Seq<RuleV>>)>,
    rs: Seq<Seq<RuleV>>,
    pat: Seq<char>,
    ty: Seq<char>,
    d: nat,
    ck: int,
    ci: int,
    token: Seq<char>,
    cck: int,
    stack: Seq<char>,
    c: CandV,
)
    requires
        c.next <= s.len(),
        caps_ok(c.caps, c.next, s.len() as int),
        0 <= cck <= ck < ci <= s.len(),
    ensures
        cand_step(s, g, rs, pat, ty, d, ck, ci, token, cck, stack, c) matches Some((c2, _)) ==> c2.next <= s.len()
            && caps_ok(c2.caps, c2.next, s.len() as int),
    decreases d, 1int, 0int,
{
    let len = s.len() as int;
    let parts = pieces_of(rs, c);
    if c.next <= ck && 0 <= c.at < parts.len() {
        lemma_caps_ok_later(c.caps, c.next, ci, len);
        if !parts[c.at].0 {
            let text = parts[c.at].1;
            let name = placeholder_name(text);
            let et = placeholder_type(text);
            let closes = c.at + 1 < parts.len() && parts[c.at + 1].0 && c.fresh && parts[c.at + 1].1 == token
                && may_close(stack, parts[c.at + 1].1);
            if closes {
                if c.extending {
                    lemma_set_end_ok(c.caps, name, ck, c.next, len);
                    lemma_caps_ok_later(set_end(c.caps, name, ck), c.next, ci, len);
                } else {
                    lemma_insert_key_ok(c.caps, name, (et, (cck, ck)), ci, len);
                }
            } else if et == ident_type() {
                lemma_insert_key_ok(c.caps, name, (et, (ck, ci)), ci, len);
            } else if c.fresh && et == ty {
                if c.extending {
                    lemma_set_end_ok(c.caps, name, ci, c.next, len);
                    lemma_caps_ok_later(set_end(c.caps, name, ci), c.next, ci, len);
                } else {
                    lemma_insert_key_ok(c.caps, name, (et, (ck, ci)), ci, len);
                }
            } else {
                let rest = s.subrange(ck, len);
                lemma_first_phrase_fits(rest, g, pat, et, true, d);
                match first_phrase_spec(rest, g, pat, et, true, d) {
                    Ok((n, _)) => {
                        lemma_caps_ok_later(c.caps, c.next, ck + n, len);
                        lemma_insert_key_ok(c.caps, name, (et, (ck, ck + n)), ck + n, len);
                    },
                    Err(_) => {},
                }
            }
        }
    }
}

/// Candidates keep reading within the text.
pub proof fn lemma_cands_step_fit(
    s: Seq<char>,
    g: Seq<(Seq<char>, Seq<Seq<RuleV>>)>,
    rs: Seq<Seq<RuleV>>,
    pat: Seq<char>,
    ty: Seq<char>,
    d: nat,
    ck: int,
    ci: int,
    token: Seq<char>,
    cck: int,
    stack: Seq<char>,
    cands: Seq<CandV>,
    i: int,
    done: Seq<CandV>,
    drops: Seq<int>,
)
    requires
        cands_fit(cands, s.len() as int),
        cands_fit(done, s.len() as int),
        0 <= cck <= ck < ci <= s.len(),
    ensures
        cands_step(s, g, rs, pat, ty, d, ck, ci, token, cck, stack, cands, i, done, drops) matches Some((v, _))
            ==> cands_fit(v, s.len() as int),
    decreases d, 2int, cands.len() - i,
{
    if 0 <= i < cands.len() {
        lemma_cand_step_fit(s, g, rs, pat, ty, d, ck, ci, token, cck, stack, cands[i]);
        match cand_step(s, g, rs, pat, ty, d, ck, ci, token, cck, stack, cands[i]) {
            Some((c, drop)) => {
                let done2 = done.push(c);
                assert forall|k: int| 0 <= k < done2.len() implies (#[trigger] done2[k]).next <= s.len() && caps_ok(
                    done2[k].caps,
                    done2[k].next,
                    s.len() as int,
                ) by {
                    if k < done.len() {
                        assert(done2[k] == done[k]);
                    }
                }
                lemma_cands_step_fit(
                    s,
                    g,
                    rs,
                    pat,
                    ty,
                    d,
                    ck,
                    ci,
                    token,
                    cck,
                    stack,
                    cands,
                    i + 1,
                    done2,
                    if drop {
                        drops.push(cands[i].id)
                    } else {
                        drops
                    },
                );
            },
            None => {},
        }
    }
}

/// The candidates kept read within the text.
pub proof fn lemma_undropped_fit(cands: Seq<CandV>, drops: Seq<int>, len: int)
    requires
        cands_fit(cands, len),
    ensures
        cands_fit(undropped(cands, drops), len),
    decreases cands.len(),
{
    if cands.len() > 0 {
        let f = cands.drop_last();
        assert forall|i: int| 0 <= i < f.len() implies (#[trigger] f[i]).next <= len && caps_ok(f[i].caps, f[i].next, len) by {
            assert(f[i] == cands[i]);
        }
        lemma_undropped_fit(f, drops, len);
        let rest = undropped(f, drops);
        let r = rest.push(cands.last());
        assert(cands.last() == cands[cands.len() - 1]);
        assert forall|i: int| 0 <= i < r.len() implies (#[trigger] r[i]).next <= len && caps_ok(r[i].caps, r[i].next, len) by {
            if i < rest.len() {
                assert(r[i] == rest[i]);
            }
        }
    }
}

/// The finished candidates read within the text.
pub proof fn lemma_finished_fit(rs: Seq<Seq<RuleV>>, cands: Seq<CandV>, len: int)
    requires
        cands_fit(cands, len),
    ensures
        cands_fit(finished(rs, cands), len),
    decreases cands.len(),
{
    if cands.len() > 0 {
        let f = cands.drop_last();
        assert forall|i: int| 0 <= i < f.len() implies (#[trigger] f[i]).next <= len && caps_ok(f[i].caps, f[i].next, len) by {
            assert(f[i] == cands[i]);
        }
        lemma_finished_fit(rs, f, len);
        let rest = finished(rs, f);
        let r = rest.push(cands.last());
        assert(cands.last() == cands[cands.len() - 1]);
        assert forall|i: int| 0 <= i < r.len() implies (#[trigger] r[i]).next <= len && caps_ok(r[i].caps, r[i].next, len) by {
            if i < rest.len() {
                assert(r[i] == rest[i]);
            }
        }
    }
}

/// Reading tokens keeps candidates within the text.
pub proof fn lemma_read_tokens_fit(
    s: Seq<char>,
    g: Seq<(Seq<char>, Seq<Seq<RuleV>>)>,
    rs: Seq<Seq<RuleV>>,
    pat: Seq<char>,
    ty: Seq<char>,
    d: nat,
    code_idx: int,
    cck: int,
    br: Brackets,
    cands: Seq<CandV>,
)
    requires
        cands_fit(cands, s.len() as int),
        0 <= cck <= code_idx,
    ensures
        read_tokens(s, g, rs, pat, ty, d, code_idx, cck, br, cands) matches Ok(v) ==> cands_fit(v, s.len() as int),
    decreases d, 3int, s.len() - code_idx,
{
    if 0 <= code_idx < s.len() {
        let ck = code_idx;
        let ci = token_scan(s, pat, ck).0;
        let token = trim(token_scan(s, pat, ck).1);
        if ck < ci <= s.len() {
            lemma_cands_step_fit(s, g, rs, pat, ty, d, ck, ci, token, cck, br.stack, cands, 0, seq![], seq![]);
            match cands_step(s, g, rs, pat, ty, d, ck, ci, token, cck, br.stack, cands, 0, seq![], seq![]) {
                Some((stepped, drops)) => {
                    lemma_undropped_fit(stepped, drops, s.len() as int);
                    let (br2, out) = brackets(token, 0, br);
                    if out is Go {
                        lemma_read_tokens_fit(s, g, rs, pat, ty, d, ci, ck, br2, undropped(stepped, drops));
                    }
                },
                None => {},
            }
        }
    }
}

/// Where a token starts at 0, it ends within the text.
pub proof fn lemma_token_end_fits(t: Seq<char>, pat: Seq<char>)
    ensures
        0 <= token_end(t, pat, 0) <= t.len(),
{
    if t.len() > 0 {
        crate::token::lemma_scan_forward_bounds(t, pat, 1, crate::token::first_checking(t, 0));
    }
}

/// Reading placeholders ends within the text.
pub proof fn lemma_read_args_fit(
    s: Seq<char>,
    g: Seq<(Seq<char>, Seq<Seq<RuleV>>)>,
    pat: Seq<char>,
    notree: bool,
    d: nat,
    code: CandV,
    j: int,
    end: int,
    skip: bool,
    args: Seq<(Seq<char>, (ExprV, Seq<char>))>,
)
    requires
        caps_ok(code.caps, code.next, s.len() as int),
        end <= s.len(),
    ensures
        read_args(s, g, pat, notree, d, code, j, end, skip, args) matches Some((e, _, _)) ==> e <= s.len(),
    decreases d, 1int, code.caps.len() - j,
{
    if 0 <= j < code.caps.len() {
        let k = code.caps[j].0;
        let tt = code.caps[j].1.0;
        let a = code.caps[j].1.1.0;
        let b = code.caps[j].1.1.1;
        assert(0 <= a <= b <= s.len());
        if k == code.current && code.extending && code.fresh {
            let rest = s.subrange(a, s.len() as int);
            if tt == ident_type() {
                lemma_token_end_fits(rest, pat);
                let end2 = a + token_end(rest, pat, 0);
                lemma_read_args_fit(
                    s,
                    g,
                    pat,
                    notree,
                    d,
                    code,
                    j + 1,
                    end2,
                    skip,
                    insert_key(args, k, (ExprV::Ident(s.subrange(a, end2)), ident_type())),
                );
            } else {
                lemma_first_phrase_fits(rest, g, pat, tt, notree, d);
                match first_phrase_spec(rest, g, pat, tt, notree, d) {
                    Ok((n, t)) => lemma_read_args_fit(
                        s,
                        g,
                        pat,
                        notree,
                        d,
                        code,
                        j + 1,
                        a + n,
                        skip,
                        if !notree {
                            insert_key(args, k, (ExprV::Exp(t), tt))
                        } else {
                            args
                        },
                    ),
                    Err(PhraseError::Fault) => {},
                    Err(_) => lemma_read_args_fit(s, g, pat, notree, d, code, j + 1, end, true, args),
                }
            }
        } else if k == code.last_name || !notree {
            let sub = s.subrange(a, b);
            if tt == ident_type() {
                lemma_read_args_fit(
                    s,
                    g,
                    pat,
                    notree,
                    d,
                    code,
                    j + 1,
                    end,
                    skip || token_end(sub, pat, 0) != sub.len(),
                    if !notree {
                        insert_key(args, k, (ExprV::Ident(sub), ident_type()))
                    } else {
                        args
                    },
                );
            } else {
                match first_phrase_spec(sub, g, pat, tt, notree, d) {
                    Ok((n, t)) => lemma_read_args_fit(
                        s,
                        g,
                        pat,
                        notree,
                        d,
                        code,
                        j + 1,
                        end,
                        skip || n != sub.len(),
                        if !notree {
                            insert_key(args, k, (ExprV::Exp(t), tt))
                        } else {
                            args
                        },
                    ),
                    Err(PhraseError::Fault) => {},
                    Err(_) => lemma_read_args_fit(s, g, pat, notree, d, code, j + 1, end, true, args),
                }
            }
        } else {
            lemma_read_args_fit(s, g, pat, notree, d, code, j + 1, end, skip, args);
        }
    }
}

/// Choosing among finished candidates gives an end within the text.
pub proof fn lemma_choose_from_fit(
    s: Seq<char>,
    g: Seq<(Seq<char>, Seq<Seq<RuleV>>)>,
    rs: Seq<Seq<RuleV>>,
    pat: Seq<char>,
    notree: bool,
    d: nat,
    done: Seq<CandV>,
    i: int,
    best_end: int,
    best: CandV,
    best_tree: TreeV,
)
    requires
        cands_fit(done, s.len() as int),
        best_end <= s.len(),
    ensures
        choose_from(s, g, rs, pat, notree, d, done, i, best_end, best, best_tree) matches Some((n, _)) ==> n <= s.len(),
    decreases d, 2int, done.len() - i,
{
    if 0 <= i < done.len() {
        let code = done[i];
        match rs[code.group][code.index].name {
            None => {},
            Some(name) => {
                lemma_read_args_fit(s, g, pat, notree, d, code, 0, code.next, false, seq![]);
                match read_args(s, g, pat, notree, d, code, 0, code.next, false, seq![]) {
                    None => {},
                    Some((end, skip, args)) => {
                        let tree = TreeV { rule: name, args };
                        if !skip && (end > best_end || (end == best_end && code.last_len <= best.last_len
                            && best.group == code.group)) {
                            lemma_choose_from_fit(
                                s,
                                g,
                                rs,
                                pat,
                                notree,
                                d,
                                done,
                                i + 1,
                                end,
                                if !notree {
                                    code
                                } else {
                                    best
                                },
                                if !notree {
                                    tree
                                } else {
                                    best_tree
                                },
                            );
                        } else {
                            lemma_choose_from_fit(s, g, rs, pat, notree, d, done, i + 1, best_end, best, best_tree);
                        }
                    },
                }
            },
        }
    }
}

/// A phrase read by `first_phrase_spec` fits in its text.
pub proof fn lemma_first_phrase_fits(
    s: Seq<char>,
    g: Seq<(Seq<char>, Seq<Seq<RuleV>>)>,
    pat: Seq<char>,
    ty: Seq<char>,
    notree: bool,
    d: nat,
)
    ensures
        first_phrase_spec(s, g, pat, ty, notree, d) matches Ok((n, _)) ==> 0 <= n <= s.len(),
    decreases d, 0int, 0int,
{
    let rs = rulesets_of(g, ty);
    if d > 0 && prepared_sets(rs) {
        let e = (d - 1) as nat;
        let len = s.len() as int;
        let br = Brackets { in_string: false, escaped: false, stack: seq![] };
        lemma_cands_from_fit(rs, 0, 0, 0, len);
        lemma_read_tokens_fit(s, g, rs, pat, ty, e, 0, 0, br, cands_from(rs, 0, 0, 0));
        match read_tokens(s, g, rs, pat, ty, e, 0, 0, br, cands_from(rs, 0, 0, 0)) {
            Ok(cands) => {
                lemma_finished_fit(rs, cands, len);
                let done = finished(rs, cands);
                if done.len() > 0 {
                    lemma_choose_from_fit(s, g, rs, pat, notree, e, done, 0, 0, done[0], TreeV { rule: seq![], args: seq![] });
                    lemma_choose_from_nonneg(s, g, rs, pat, notree, e, done, 0, 0, done[0], TreeV { rule: seq![], args: seq![] });
                }
            },
            Err(_) => {},
        }
    }
}

/// Choosing never goes below the end chosen so far.
pub proof fn lemma_choose_from_nonneg(
    s: Seq<char>,
    g: Seq<(Seq<char>, Seq<Seq<RuleV>>)>,
    rs: Seq<Seq<RuleV>>,
    pat: Seq<char>,
    notree: bool,
    d: nat,
    done: Seq<CandV>,
    i: int,
    best_end: int,
    best: CandV,
    best_tree: TreeV,
)
    requires
        0 <= i,
    ensures
        choose_from(s, g, rs, pat, notree, d, done, i, best_end, best, best_tree) matches Some((n, _)) ==> best_end <= n,
{
    lemma_choose_from_greatest(s, g, rs, pat, notree, d, done, i, best_end, best, best_tree);
}

/// The phrase read never runs past its text, for every text, grammar,
/// type and depth.
pub proof fn law_phrase_fits(
    s: Seq<char>,
    g: Seq<(Seq<char>, Seq<Seq<RuleV>>)>,
    pat: Seq<char>,
    ty: Seq<char>,
    notree: bool,
    depth: nat,
)
    ensures
        first_phrase_spec(s, g, pat, ty, notree, depth) matches Ok((n, _)) ==> 0 <= n <= s.len(),
{
    lemma_first_phrase_fits(s, g, pat, ty, notree, depth);
}

/// A reading that does not fault within some nesting depth gives the same
/// outcome with any greater depth: the depth only cuts off readings that
/// nest too deep, and never changes the outcome of one that ends.
pub proof fn law_depth_only_cuts_off(
    s: Seq<char>,
    g: Seq<(Seq<char>, Seq<Seq<RuleV>>)>,
    pat: Seq<char>,
    ty: Seq<char>,
    notree: bool,
    d1: nat,
    d2: nat,
)
    requires
        d1 <= d2,
        !(first_phrase_spec(s, g, pat, ty, notree, d1) matches Err(PhraseError::Fault)),
    ensures
        first_phrase_spec(s, g, pat, ty, notree, d2) == first_phrase_spec(s, g, pat, ty, notree, d1),
{
    lemma_first_phrase_deeper(s, g, pat, ty, notree, d1, d2);
}

} // verus!

verus! {

/// A captured placeholder: name, and type with span.
pub type Cap = (Vec<char>, (Vec<char>, (usize, usize)));

pub open spec fn cap_view(c: Cap) -> CapV {
    (c.0@, (c.1.0@, (c.1.1.0 as int, c.1.1.1 as int)))
}

pub open spec fn caps_view(v: Seq<Cap>) -> Seq<CapV> {
    Seq::new(v.len(), |i: int| cap_view(v[i]))
}

/// A candidate rule while a phrase is read.
pub struct Cand {
    pub id: usize,
    pub group: usize,
    pub index: usize,
    pub extending: bool,
    pub caps: Vec<Cap>,
    pub at: usize,
    pub fresh: bool,
    pub next: usize,
    pub current: Vec<char>,
    pub last_len: usize,
    pub last_name: Vec<char>,
}

impl View for Cand {
    type V = CandV;

    open spec fn view(&self) -> CandV {
        CandV {
            id: self.id as int,
            group: self.group as int,
            index: self.index as int,
            extending: self.extending,
            caps: caps_view(self.caps@),
            at: self.at as int,
            fresh: self.fresh,
            next: self.next as int,
            current: self.current@,
            last_len: self.last_len as int,
            last_name: self.last_name@,
        }
    }
}

/// Sets the placeholder `k` to `v`, keeping the names in order.
fn caps_insert(caps: &mut Vec<Cap>, k: Vec<char>, v: (Vec<char>, (usize, usize)))
    ensures
        caps_view(final(caps)@) == insert_key(caps_view(old(caps)@), k@, cap_view((k, v)).1),
{
    let ghost s = caps_view(old(caps)@);
    let ghost val = cap_view((k, v)).1;
    let mut i: usize = 0;
    while i < caps.len() && !crate::text::chars_eq(caps[i].0.as_slice(), k.as_slice())
        && !crate::text::slice_lt(k.as_slice(), caps[i].0.as_slice())
        invariant
            i <= caps@.len(),
            caps@ == old(caps)@,
            s == caps_view(caps@),
            forall|j: int| 0 <= j < i ==> (#[trigger] s[j]).0 != k@ && !crate::text::chars_lt(k@, s[j].0),
        decreases caps@.len() - i,
    {
        i = i + 1;
    }
    proof {
        crate::tree::lemma_insert_key_skip(s, k@, val, i as int);
    }
    let ghost rest = s.skip(i as int);
    if i < caps.len() && crate::text::chars_eq(caps[i].0.as_slice(), k.as_slice()) {
        assert(rest[0].0 == k@);
        let _ = caps.remove(i);
        caps.insert(i, (k, v));
        assert(caps_view(caps@) =~= s.take(i as int) + rest.update(0, (k@, val)));
    } else {
        if i < caps.len() {
            assert(crate::text::chars_lt(k@, rest[0].0));
        } else {
            assert(rest.len() == 0);
        }
        caps.insert(i, (k, v));
        assert(caps_view(caps@) =~= s.take(i as int) + (seq![(k@, val)] + rest));
    }
}

/// Setting or finding the span of `name` passes over the placeholders before its first occurrence.
pub proof fn lemma_set_end_skip(s: Seq<CapV>, name: Seq<char>, e: int, i: int)
    requires
        0 <= i <= s.len(),
        forall|j: int| 0 <= j < i ==> (#[trigger] s[j]).0 != name,
    ensures
        set_end(s, name, e) == s.take(i) + set_end(s.skip(i), name, e),
        span_of(s, name) == span_of(s.skip(i), name),
    decreases i,
{
    if i == 0 {
        assert(s.skip(0) =~= s);
        assert(s.take(0) + set_end(s, name, e) =~= set_end(s, name, e));
    } else {
        let t = s.drop_first();
        assert forall|j: int| 0 <= j < i - 1 implies (#[trigger] t[j]).0 != name by {
            assert(t[j] == s[j + 1]);
        }
        lemma_set_end_skip(t, name, e, i - 1);
        assert(t.skip(i - 1) =~= s.skip(i));
        assert(s.take(i) =~= seq![s[0]] + t.take(i - 1));
        assert(seq![s[0]] + (t.take(i - 1) + set_end(s.skip(i), name, e)) =~= s.take(i) + set_end(
            s.skip(i),
            name,
            e,
        ));
    }
}

/// Index of the first placeholder named `name`, or the number of placeholders.
fn caps_find(caps: &Vec<Cap>, name: &[char]) -> (i: usize)
    ensures
        i <= caps@.len(),
        forall|j: int| 0 <= j < i ==> (#[trigger] caps_view(caps@)[j]).0 != name@,
        i < caps@.len() ==> caps_view(caps@)[i as int].0 == name@,
{
    let mut i: usize = 0;
    while i < caps.len() && !crate::text::chars_eq(caps[i].0.as_slice(), name)
        invariant
            i <= caps@.len(),
            forall|j: int| 0 <= j < i ==> (#[trigger] caps_view(caps@)[j]).0 != name@,
        decreases caps@.len() - i,
    {
        i = i + 1;
    }
    i
}

/// Ends the span of the placeholder `name` at `e`.
fn caps_set_end(caps: &mut Vec<Cap>, name: &[char], e: usize)
    ensures
        caps_view(final(caps)@) == set_end(caps_view(old(caps)@), name@, e as int),
{
    let ghost s = caps_view(old(caps)@);
    let i = caps_find(caps, name);
    proof {
        lemma_set_end_skip(s, name@, e as int, i as int);
    }
    if i < caps.len() {
        let (k, (t, (a, _))) = caps.remove(i);
        caps.insert(i, (k, (t, (a, e))));
        assert(caps_view(caps@) =~= s.take(i as int) + s.skip(i as int).update(
            0,
            (name@, (s[i as int].1.0, (s[i as int].1.1.0, e as int))),
        ));
    } else {
        assert(s.skip(i as int).len() == 0);
        assert(caps_view(caps@) =~= s.take(i as int) + s.skip(i as int));
    }
}

/// The span of the placeholder `name`.
fn caps_span(caps: &Vec<Cap>, name: &[char]) -> (r: (usize, usize))
    ensures
        (r.0 as int, r.1 as int) == span_of(caps_view(caps@), name@),
{
    let ghost s = caps_view(caps@);
    let i = caps_find(caps, name);
    proof {
        lemma_set_end_skip(s, name@, 0, i as int);
    }
    if i < caps.len() {
        caps[i].1.1
    } else {
        (0, 0)
    }
}

} // verus!

verus! {

/// The tree with no rule name and no placeholders.
pub open spec fn empty_tree() -> TreeV {
    TreeV { rule: seq![], args: seq![] }
}

/// Whether `name` is empty or the name of a rule of `rs`.
pub open spec fn names_a_rule(rs: Seq<Seq<RuleV>>, name: Seq<char>) -> bool {
    name.len() == 0 || exists|j: int, k: int|
        0 <= j < rs.len() && 0 <= k < rs[j].len() && #[trigger] rs[j][k].name == Some(name)
}

/// Whether candidate `c` names a rule of `rs`.
pub open spec fn cand_ok(rs: Seq<Seq<RuleV>>, c: CandV) -> bool {
    0 <= c.group < rs.len() && 0 <= c.index < rs[c.group].len()
}

pub open spec fn result_view(r: Result<(usize, crate::tree::SyntaxTree), PhraseError>) -> Result<
    (int, TreeV),
    PhraseError,
> {
    match r {
        Ok((n, t)) => Ok((n as int, t@)),
        Err(e) => Err(e),
    }
}

/// One candidate reads the token `token` at `ck..ci`; answers whether it
/// drops out (`None`: reading faults).
fn step_cand(
    c: &mut Cand,
    s: &[char],
    g: &Grammar,
    rs: &Vec<Vec<Rule>>,
    tokenable: &crate::tokenable::Tokenable,
    ty: &[char],
    d: usize,
    ck: usize,
    ci: usize,
    token: &[char],
    cck: usize,
    stack: &[char],
) -> (drop: Option<bool>)
    requires
        prepared_sets(rulesets_view(rs@)),
        cand_ok(rulesets_view(rs@), old(c)@),
        old(c).next <= s@.len(),
        caps_ok(old(c)@.caps, old(c)@.next, s@.len() as int),
        cck <= ck < ci <= s@.len(),
    ensures
        match drop {
            Some(b) => cand_step(
                s@,
                g@,
                rulesets_view(rs@),
                tokenable@,
                ty@,
                d as nat,
                ck as int,
                ci as int,
                token@,
                cck as int,
                stack@,
                old(c)@,
            ) == Some((final(c)@, b)),
            None => cand_step(
                s@,
                g@,
                rulesets_view(rs@),
                tokenable@,
                ty@,
                d as nat,
                ck as int,
                ci as int,
                token@,
                cck as int,
                stack@,
                old(c)@,
            ) is None,
        },
        drop is Some ==> final(c).group == old(c).group && final(c).index == old(c).index
            && final(c).next <= s@.len() && caps_ok(final(c)@.caps, final(c)@.next, s@.len() as int),
    decreases d, 1int,
{
    let ghost rsv = rulesets_view(rs@);
    let ghost len = s@.len() as int;
    let ghost caps0 = c@.caps;
    let ghost next0 = c@.next;
    assert(rsv[c.group as int][c.index as int] == rs@[c.group as int]@[c.index as int]@);
    let rule = &rs[c.group][c.index];
    let parts = match &rule.tokens {
        Some(p) => p,
        None => {
            assert(false);
            return None;
        },
    };
    let ghost pv = crate::grammar::parts_view(parts@);
    assert(pv == pieces_of(rsv, c@));
    if !(c.next <= ck) || c.at >= parts.len() {
        return Some(false);
    }
    let at = c.at;
    assert(pv[at as int] == parts@[at as int]@);
    let text = crate::text::chars_of(parts[at].text.as_str());
    if parts[at].literal {
        c.at = at + 1;
        c.next = ci;
        c.extending = false;
        c.fresh = false;
        return Some(!crate::text::chars_eq(text.as_slice(), token));
    }
    let (name, et) = crate::text::split_placeholder(text.as_slice());
    let mut closes = false;
    if at + 1 < parts.len() && parts[at + 1].literal && c.fresh {
        assert(pv[at + 1] == parts@[at + 1]@);
        let expected = crate::text::chars_of(parts[at + 1].text.as_str());
        if crate::text::chars_eq(expected.as_slice(), token) {
            let ex = expected.as_slice();
            let single_close = ex.len() == 1 && (ex[0] == ')' || ex[0] == '}');
            closes = stack.len() == 0 || (stack.len() == 1 && single_close);
        }
    }
    if closes {
        if c.extending {
            caps_set_end(&mut c.caps, name.as_slice(), ck);
            proof {
                lemma_set_end_ok(caps0, name@, ck as int, next0, len);
            }
        } else {
            caps_insert(&mut c.caps, name.clone(), (et.clone(), (cck, ck)));
            proof {
                lemma_insert_key_ok(caps0, name@, (et@, (cck as int, ck as int)), ci as int, len);
            }
        }
        proof {
            lemma_span_ok(caps_view(c.caps@), name@, ci as int, len);
        }
        let (a, b) = caps_span(&c.caps, name.as_slice());
        let ll = b - a;
        c.extending = false;
        c.at = at + 2;
        c.fresh = false;
        c.last_len = ll;
        c.last_name = name;
        c.next = ci;
        return Some(crate::text::is_ident(et.as_slice()) && ll == 0);
    }
    c.current = name.clone();
    c.next = ci;
    if crate::text::is_ident(et.as_slice()) {
        c.at = at + 1;
        proof {
            lemma_insert_key_ok(caps0, name@, (et@, (ck as int, ci as int)), ci as int, len);
        }
        caps_insert(&mut c.caps, name, (et, (ck, ci)));
        c.fresh = false;
        c.extending = false;
        return Some(false);
    }
    if c.fresh && crate::text::chars_eq(et.as_slice(), ty) {
        if c.extending {
            proof {
                lemma_set_end_ok(caps0, name@, ci as int, next0, len);
            }
            caps_set_end(&mut c.caps, name.as_slice(), ci);
        } else {
            proof {
                lemma_insert_key_ok(caps0, name@, (et@, (ck as int, ci as int)), ci as int, len);
            }
            caps_insert(&mut c.caps, name, (et, (ck, ci)));
            c.extending = true;
        }
        return Some(false);
    }
    let rest = vstd::slice::slice_subrange(s, ck, s.len());
    match phrase_rec(rest, g, tokenable, et.as_slice(), true, d) {
        Ok((n, _)) => {
            c.next = ck + n;
            proof {
                lemma_insert_key_ok(caps0, name@, (et@, (ck as int, ck + n)), ck + n, len);
            }
            caps_insert(&mut c.caps, name, (et, (ck, ck + n)));
            c.at = at + 1;
            c.fresh = false;
            c.extending = true;
            Some(false)
        },
        Err(PhraseError::Fault) => None,
        Err(_) => {
            c.fresh = false;
            Some(true)
        },
    }
}

pub open spec fn cands_view(v: Seq<Cand>) -> Seq<CandV> {
    Seq::new(v.len(), |i: int| v[i]@)
}

/// Whether every candidate names a rule of `rs` and reads within `len`.
pub open spec fn all_ok(rs: Seq<Seq<RuleV>>, v: Seq<Cand>, len: int) -> bool {
    forall|i: int|
        0 <= i < v.len() ==> cand_ok(rs, (#[trigger] v[i])@) && v[i].next <= len && caps_ok(
            v[i]@.caps,
            v[i]@.next,
            len,
        )
}

/// One step of building the candidates of the rule sets.
pub proof fn lemma_cands_from_unfold(rs: Seq<Seq<RuleV>>, j: int, k: int, id: int)
    requires
        0 <= j < rs.len(),
        0 <= k,
    ensures
        k < rs[j].len() ==> cands_from(rs, j, k, id) == seq![fresh_cand(id, j, k)] + cands_from(rs, j, k + 1, id + 1),
        k >= rs[j].len() ==> cands_from(rs, j, k, id) == cands_from(rs, j + 1, 0, id),
{
}

/// The candidates for all rules of `rs`, numbered in order.
fn init_cands(rs: &Vec<Vec<Rule>>) -> (v: Vec<Cand>)
    ensures
        cands_view(v@) == cands_from(rulesets_view(rs@), 0, 0, 0),
        all_ok(rulesets_view(rs@), v@, 0),
{
    let ghost rsv = rulesets_view(rs@);
    let mut v: Vec<Cand> = Vec::new();
    let mut id: usize = 0;
    let mut j: usize = 0;
    assert(cands_view(v@) =~= Seq::<CandV>::empty());
    while j < rs.len()
        invariant
            j <= rs@.len(),
            rsv == rulesets_view(rs@),
            id == v@.len(),
            cands_view(v@) + cands_from(rsv, j as int, 0, id as int) == cands_from(rsv, 0, 0, 0),
            all_ok(rsv, v@, 0),
        decreases rs@.len() - j,
    {
        let mut k: usize = 0;
        while k < rs[j].len()
            invariant
                j < rs@.len(),
                k <= rs@[j as int]@.len(),
                rsv == rulesets_view(rs@),
                id == v@.len(),
                cands_view(v@) + cands_from(rsv, j as int, k as int, id as int) == cands_from(rsv, 0, 0, 0),
                all_ok(rsv, v@, 0),
            decreases rs@[j as int]@.len() - k,
        {
            proof {
                lemma_cands_from_unfold(rsv, j as int, k as int, id as int);
            }
            let ghost before = cands_view(v@);
            v.push(
                Cand {
                    id,
                    group: j,
                    index: k,
                    extending: false,
                    caps: Vec::new(),
                    at: 0,
                    fresh: true,
                    next: 0,
                    current: Vec::new(),
                    last_len: 9999,
                    last_name: Vec::new(),
                },
            );
            assert(caps_view(v@[id as int].caps@) =~= Seq::<CapV>::empty());
            assert(v@[id as int].current@ =~= Seq::<char>::empty());
            assert(v@[id as int].last_name@ =~= Seq::<char>::empty());
            assert(v@[id as int]@ =~= fresh_cand(id as int, j as int, k as int));
            assert(cands_view(v@) =~= before.push(fresh_cand(id as int, j as int, k as int)));
            assert(cands_view(v@) + cands_from(rsv, j as int, k + 1, id + 1) =~= before + (seq![
                fresh_cand(id as int, j as int, k as int),
            ] + cands_from(rsv, j as int, k + 1, id + 1)));
            k = k + 1;
            id = v.len();
        }
        proof {
            lemma_cands_from_unfold(rsv, j as int, k as int, id as int);
        }
        j = j + 1;
    }
    assert(cands_from(rsv, j as int, 0, id as int) =~= Seq::<CandV>::empty());
    assert(cands_view(v@) + Seq::<CandV>::empty() =~= cands_view(v@));
    v
}

/// Whether the number `id` is in `drops`.
fn has_id(drops: &Vec<usize>, id: usize) -> (r: bool)
    ensures
        r == drops@.map_values(|x: usize| x as int).contains(id as int),
{
    let ghost dv = drops@.map_values(|x: usize| x as int);
    let mut i: usize = 0;
    while i < drops.len()
        invariant
            i <= drops@.len(),
            dv == drops@.map_values(|x: usize| x as int),
            forall|j: int| 0 <= j < i ==> dv[j] != id as int,
        decreases drops@.len() - i,
    {
        if drops[i] == id {
            assert(dv[i as int] == id as int);
            return true;
        }
        i = i + 1;
    }
    false
}

/// The candidates whose numbers are not in `drops`.
fn keep_undropped(cands: Vec<Cand>, drops: &Vec<usize>, Ghost(rs): Ghost<Seq<Seq<RuleV>>>, Ghost(len): Ghost<int>) -> (v: Vec<Cand>)
    requires
        all_ok(rs, cands@, len),
    ensures
        cands_view(v@) == undropped(cands_view(cands@), drops@.map_values(|x: usize| x as int)),
        all_ok(rs, v@, len),
{
    let ghost dv = drops@.map_values(|x: usize| x as int);
    let ghost orig = cands_view(cands@);
    let mut rest = cands;
    let mut v: Vec<Cand> = Vec::new();
    let ghost mut i: int = 0;
    assert(orig.take(0) =~= Seq::<CandV>::empty());
    assert(cands_view(v@) =~= Seq::<CandV>::empty());
    while rest.len() > 0
        invariant
            0 <= i,
            i + rest@.len() == orig.len(),
            cands_view(rest@) == orig.skip(i as int),
            cands_view(v@) == undropped(orig.take(i as int), dv),
            all_ok(rs, rest@, len),
            all_ok(rs, v@, len),
            dv == drops@.map_values(|x: usize| x as int),
        decreases rest@.len(),
    {
        let ghost r0 = rest@;
        let c = rest.remove(0);
        assert(c@ == orig[i as int]) by {
            assert(cands_view(r0)[0] == orig.skip(i as int)[0]);
        }
        assert(orig.take(i + 1).drop_last() =~= orig.take(i as int));
        assert(orig.take(i + 1).last() == orig[i as int]);
        assert(cands_view(rest@) =~= orig.skip(i + 1)) by {
            assert forall|k: int| 0 <= k < rest@.len() implies #[trigger] cands_view(rest@)[k] == orig.skip(i + 1)[k] by {
                assert(rest@[k] == r0[k + 1]);
                assert(cands_view(r0)[k + 1] == orig.skip(i as int)[k + 1]);
            }
        }
        assert(all_ok(rs, rest@, len)) by {
            assert forall|k: int| 0 <= k < rest@.len() implies #[trigger] rest@[k] == r0[k + 1] by {}
        }
        let ghost before = cands_view(v@);
        if !has_id(drops, c.id) {
            v.push(c);
            assert(cands_view(v@) =~= before.push(orig[i as int]));
        }
        proof {
            i = i + 1;
        }
    }
    assert(orig.take(i as int) =~= orig);
    v
}

/// The candidates that read all pieces of their rule.
fn keep_finished(cands: Vec<Cand>, rs: &Vec<Vec<Rule>>, Ghost(len): Ghost<int>) -> (v: Vec<Cand>)
    requires
        prepared_sets(rulesets_view(rs@)),
        all_ok(rulesets_view(rs@), cands@, len),
    ensures
        cands_view(v@) == finished(rulesets_view(rs@), cands_view(cands@)),
        all_ok(rulesets_view(rs@), v@, len),
{
    let ghost rsv = rulesets_view(rs@);
    let ghost orig = cands_view(cands@);
    let mut rest = cands;
    let mut v: Vec<Cand> = Vec::new();
    let ghost mut i: int = 0;
    assert(orig.take(0) =~= Seq::<CandV>::empty());
    assert(cands_view(v@) =~= Seq::<CandV>::empty());
    while rest.len() > 0
        invariant
            0 <= i,
            i + rest@.len() == orig.len(),
            rsv == rulesets_view(rs@),
            prepared_sets(rsv),
            cands_view(rest@) == orig.skip(i as int),
            cands_view(v@) == finished(rsv, orig.take(i as int)),
            all_ok(rsv, rest@, len),
            all_ok(rsv, v@, len),
        decreases rest@.len(),
    {
        let ghost r0 = rest@;
        let c = rest.remove(0);
        assert(c@ == orig[i as int]) by {
            assert(cands_view(r0)[0] == orig.skip(i as int)[0]);
        }
        assert(orig.take(i + 1).drop_last() =~= orig.take(i as int));
        assert(orig.take(i + 1).last() == orig[i as int]);
        assert(cands_view(rest@) =~= orig.skip(i + 1)) by {
            assert forall|k: int| 0 <= k < rest@.len() implies #[trigger] cands_view(rest@)[k] == orig.skip(i + 1)[k] by {
                assert(rest@[k] == r0[k + 1]);
                assert(cands_view(r0)[k + 1] == orig.skip(i as int)[k + 1]);
            }
        }
        assert(all_ok(rsv, rest@, len)) by {
            assert forall|k: int| 0 <= k < rest@.len() implies #[trigger] rest@[k] == r0[k + 1] by {}
        }
        assert(cand_ok(rsv, c@));
        assert(rsv[c.group as int][c.index as int] == rs@[c.group as int]@[c.index as int]@);
        let n = match &rs[c.group][c.index].tokens {
            Some(p) => p.len(),
            None => {
                assert(false);
                0
            },
        };
        let ghost before = cands_view(v@);
        if c.at == n {
            v.push(c);
            assert(cands_view(v@) =~= before.push(orig[i as int]));
        }
        proof {
            i = i + 1;
        }
    }
    assert(orig.take(i as int) =~= orig);
    v
}

/// Reads the brackets of `tok` into the state given.
pub(crate) fn read_brackets(tok: &[char], in_string: &mut bool, escaped: &mut bool, stack: &mut Vec<char>) -> (out: BracketOutcome)
    ensures
        (Brackets { in_string: *final(in_string), escaped: *final(escaped), stack: final(stack)@ }, out)
            == brackets(tok@, 0, Brackets { in_string: *old(in_string), escaped: *old(escaped), stack: old(stack)@ }),
{
    let mut i: usize = 0;
    while i < tok.len()
        invariant
            i <= tok@.len(),
            brackets(tok@, i as int, Brackets { in_string: *in_string, escaped: *escaped, stack: stack@ })
                == brackets(tok@, 0, Brackets { in_string: *old(in_string), escaped: *old(escaped), stack: old(stack)@ }),
        decreases tok@.len() - i,
    {
        let c = tok[i];
        if c == '\\' {
            *escaped = *in_string && !*escaped;
        } else if c == '"' {
            if !*escaped {
                *in_string = !*in_string;
            }
            *escaped = false;
        } else if c == '(' || c == '{' {
            if !*in_string {
                stack.push(c);
            }
        } else if c == ')' || c == '}' {
            if !*in_string {
                if stack.len() == 0 {
                    return BracketOutcome::Out;
                }
                let open = if c == ')' {
                    '('
                } else {
                    '{'
                };
                if stack[stack.len() - 1] == open {
                    stack.pop();
                } else {
                    return BracketOutcome::Mismatch;
                }
            }
        } else {
            *escaped = false;
        }
        i = i + 1;
    }
    BracketOutcome::Go
}

/// All candidates read the token `token` at `ck..ci`; gives the numbers of
/// those that drop out.
fn step_all(
    cands: &mut Vec<Cand>,
    s: &[char],
    g: &Grammar,
    rs: &Vec<Vec<Rule>>,
    tokenable: &crate::tokenable::Tokenable,
    ty: &[char],
    d: usize,
    ck: usize,
    ci: usize,
    token: &[char],
    cck: usize,
    stack: &[char],
) -> (drops: Option<Vec<usize>>)
    requires
        prepared_sets(rulesets_view(rs@)),
        all_ok(rulesets_view(rs@), old(cands)@, s@.len() as int),
        cck <= ck < ci <= s@.len(),
    ensures
        match drops {
            Some(dr) => cands_step(
                s@,
                g@,
                rulesets_view(rs@),
                tokenable@,
                ty@,
                d as nat,
                ck as int,
                ci as int,
                token@,
                cck as int,
                stack@,
                cands_view(old(cands)@),
                0,
                seq![],
                seq![],
            ) == Some((cands_view(final(cands)@), dr@.map_values(|x: usize| x as int))),
            None => cands_step(
                s@,
                g@,
                rulesets_view(rs@),
                tokenable@,
                ty@,
                d as nat,
                ck as int,
                ci as int,
                token@,
                cck as int,
                stack@,
                cands_view(old(cands)@),
                0,
                seq![],
                seq![],
            ) is None,
        },
        drops is Some ==> all_ok(rulesets_view(rs@), final(cands)@, s@.len() as int),
    decreases d, 2int,
{
    let ghost rsv = rulesets_view(rs@);
    let ghost orig = cands_view(cands@);
    let ghost whole = cands_step(s@, g@, rsv, tokenable@, ty@, d as nat, ck as int, ci as int, token@, cck as int, stack@, orig, 0, seq![], seq![]);
    let mut drops: Vec<usize> = Vec::new();
    let mut i: usize = 0;
    assert(cands_view(cands@).take(0) =~= Seq::<CandV>::empty());
    assert(drops@.map_values(|x: usize| x as int) =~= Seq::<int>::empty());
    while i < cands.len()
        invariant
            i <= cands@.len(),
            cands@.len() == orig.len(),
            orig == cands_view(old(cands)@),
            rsv == rulesets_view(rs@),
            prepared_sets(rsv),
            cck <= ck < ci <= s@.len(),
            all_ok(rsv, cands@, s@.len() as int),
            forall|k: int| i <= k < orig.len() ==> #[trigger] cands_view(cands@)[k] == orig[k],
            whole == cands_step(s@, g@, rsv, tokenable@, ty@, d as nat, ck as int, ci as int, token@, cck as int, stack@, orig, 0, seq![], seq![]),
            cands_step(
                s@,
                g@,
                rsv,
                tokenable@,
                ty@,
                d as nat,
                ck as int,
                ci as int,
                token@,
                cck as int,
                stack@,
                orig,
                i as int,
                cands_view(cands@).take(i as int),
                drops@.map_values(|x: usize| x as int),
            ) == whole,
        decreases cands@.len() - i,
    {
        let ghost before = cands@;
        let ghost dv = drops@.map_values(|x: usize| x as int);
        assert(cands_view(cands@)[i as int] == orig[i as int]);
        let id = cands[i].id;
        let drop = match step_cand(&mut cands[i], s, g, rs, tokenable, ty, d, ck, ci, token, cck, stack) {
            Some(b) => b,
            None => {
                return None;
            },
        };
        assert forall|k: int| 0 <= k < cands@.len() && k != i implies #[trigger] cands@[k] == before[k] by {}
        assert forall|k: int| i + 1 <= k < orig.len() implies #[trigger] cands_view(cands@)[k] == orig[k] by {
            assert(cands@[k] == before[k]);
            assert(cands_view(before)[k] == orig[k]);
        }
        assert(cands_view(cands@).take(i + 1) =~= cands_view(before).take(i as int).push(cands@[i as int]@));
        if drop {
            drops.push(id);
            assert(drops@.map_values(|x: usize| x as int) =~= dv.push(orig[i as int].id));
        }
        assert(all_ok(rsv, cands@, s@.len() as int)) by {
            assert forall|k: int| 0 <= k < cands@.len() implies cand_ok(rsv, (#[trigger] cands@[k])@) && cands@[k].next <= s@.len()
                && caps_ok(cands@[k]@.caps, cands@[k]@.next, s@.len() as int) by {
                if k != i {
                    assert(cands@[k] == before[k]);
                }
            }
        }
        i = i + 1;
    }
    assert(cands_view(cands@).take(i as int) =~= cands_view(cands@));
    Some(drops)
}

/// Reads the text token by token; gives the candidates left when the text
/// or the phrase ends.
fn read_all(
    s: &[char],
    g: &Grammar,
    rs: &Vec<Vec<Rule>>,
    tokenable: &crate::tokenable::Tokenable,
    ty: &[char],
    d: usize,
    init: Vec<Cand>,
) -> (r: Result<Vec<Cand>, PhraseError>)
    requires
        prepared_sets(rulesets_view(rs@)),
        all_ok(rulesets_view(rs@), init@, s@.len() as int),
    ensures
        match r {
            Ok(v) => Ok::<Seq<CandV>, PhraseError>(cands_view(v@)) == read_tokens(
                s@,
                g@,
                rulesets_view(rs@),
                tokenable@,
                ty@,
                d as nat,
                0,
                0,
                Brackets { in_string: false, escaped: false, stack: seq![] },
                cands_view(init@),
            ) && all_ok(rulesets_view(rs@), v@, s@.len() as int),
            Err(e) => Err::<Seq<CandV>, PhraseError>(e) == read_tokens(
                s@,
                g@,
                rulesets_view(rs@),
                tokenable@,
                ty@,
                d as nat,
                0,
                0,
                Brackets { in_string: false, escaped: false, stack: seq![] },
                cands_view(init@),
            ),
        },
    decreases d, 3int,
{
    let ghost rsv = rulesets_view(rs@);
    let ghost whole = read_tokens(
        s@,
        g@,
        rsv,
        tokenable@,
        ty@,
        d as nat,
        0,
        0,
        Brackets { in_string: false, escaped: false, stack: seq![] },
        cands_view(init@),
    );
    let mut cands = init;
    let mut code_idx: usize = 0;
    let mut cck: usize = 0;
    let mut in_string = false;
    let mut escaped = false;
    let mut stack: Vec<char> = Vec::new();
    assert(stack@ =~= Seq::<char>::empty());
    while code_idx < s.len()
        invariant
            cck <= code_idx <= s@.len(),
            rsv == rulesets_view(rs@),
            prepared_sets(rsv),
            all_ok(rsv, cands@, s@.len() as int),
            whole == read_tokens(
                s@,
                g@,
                rsv,
                tokenable@,
                ty@,
                d as nat,
                0,
                0,
                Brackets { in_string: false, escaped: false, stack: seq![] },
                cands_view(init@),
            ),
            whole == read_tokens(
                s@,
                g@,
                rsv,
                tokenable@,
                ty@,
                d as nat,
                code_idx as int,
                cck as int,
                Brackets { in_string, escaped, stack: stack@ },
                cands_view(cands@),
            ),
        decreases s@.len() - code_idx,
    {
        let ck = code_idx;
        let (ci, raw) = token_at(s, ck, tokenable);
        let (x, y) = crate::text::trim_bounds(raw.as_slice(), 0, raw.len());
        assert(raw@.subrange(0, raw@.len() as int) =~= raw@);
        let token = vstd::slice::slice_to_vec(vstd::slice::slice_subrange(raw.as_slice(), x, y));
        let drops = match step_all(&mut cands, s, g, rs, tokenable, ty, d, ck, ci, token.as_slice(), cck, stack.as_slice()) {
            Some(dr) => dr,
            None => {
                return Err(PhraseError::Fault);
            },
        };
        let out = read_brackets(token.as_slice(), &mut in_string, &mut escaped, &mut stack);

        match out {
            BracketOutcome::Mismatch => {
                return Err(PhraseError::Unbalanced);
            },
            BracketOutcome::Out => {
                return Ok(keep_undropped(cands, &drops, Ghost(rsv), Ghost(s@.len() as int)));
            },
            BracketOutcome::Go => {
                cands = keep_undropped(cands, &drops, Ghost(rsv), Ghost(s@.len() as int));
                cck = ck;
                code_idx = ci;
            },
        }
    }
    Ok(cands)
}

/// The text "ident".
fn ident_string() -> (r: String)
    ensures
        r@ == ident_type(),
{
    let mut r = String::new();
    crate::text::push_char(&mut r, 'i');
    crate::text::push_char(&mut r, 'd');
    crate::text::push_char(&mut r, 'e');
    crate::text::push_char(&mut r, 'n');
    crate::text::push_char(&mut r, 't');
    assert(r@ =~= ident_type());
    r
}

/// Where the token at the start of `t` ends (0 for an empty text).
pub(crate) fn token_end_exec(t: &[char], tokenable: &crate::tokenable::Tokenable) -> (r: usize)
    ensures
        r == token_end(t@, tokenable@, 0),
        r <= t@.len(),
{
    if t.len() == 0 {
        0
    } else {
        token_at(t, 0, tokenable).0
    }
}

/// Reads the placeholders of the finished candidate `code`: where its
/// phrase ends, whether it is given up, and a tree of its arguments.
fn collect_args(
    s: &[char],
    g: &Grammar,
    tokenable: &crate::tokenable::Tokenable,
    notree: bool,
    d: usize,
    code: &Cand,
) -> (r: Option<(usize, bool, crate::tree::SyntaxTree)>)
    requires
        code.next <= s@.len(),
        caps_ok(code@.caps, code@.next, s@.len() as int),
    ensures
        match r {
            Some((e, sk, tr)) => read_args(s@, g@, tokenable@, notree, d as nat, code@, 0, code.next as int, false, seq![])
                == Some((e as int, sk, tr@.args)) && tr@.rule == Seq::<char>::empty() && e <= s@.len(),
            None => read_args(s@, g@, tokenable@, notree, d as nat, code@, 0, code.next as int, false, seq![]) is None,
        },
    decreases d, 1int,
{
    let ghost whole = read_args(s@, g@, tokenable@, notree, d as nat, code@, 0, code.next as int, false, seq![]);
    let mut tree = crate::tree::SyntaxTree::new(String::new());
    let mut end = code.next;
    let mut skip = false;
    let mut j: usize = 0;
    let n = s.len();
    while j < code.caps.len()
        invariant
            j <= code.caps@.len(),
            n == s@.len(),
            end <= n,
            caps_ok(code@.caps, code@.next, n as int),
            tree@.rule == Seq::<char>::empty(),
            whole == read_args(s@, g@, tokenable@, notree, d as nat, code@, 0, code.next as int, false, seq![]),
            whole == read_args(s@, g@, tokenable@, notree, d as nat, code@, j as int, end as int, skip, tree@.args),
        decreases code.caps@.len() - j,
    {
        let cap = &code.caps[j];
        assert(caps_view(code.caps@)[j as int] == cap_view(*cap));
        let k = &cap.0;
        let tt = &cap.1.0;
        let a = cap.1.1.0;
        let b = cap.1.1.1;
        if crate::text::chars_eq(k.as_slice(), code.current.as_slice()) && code.extending && code.fresh {
            let rest = vstd::slice::slice_subrange(s, a, n);
            if crate::text::is_ident(tt.as_slice()) {
                let end2 = a + token_end_exec(rest, tokenable);
                let text = crate::text::string_of(vstd::slice::slice_subrange(s, a, end2));
                tree.insert_arg(crate::text::string_of(k.as_slice()), crate::tree::Expression::Ident(text), ident_string());
                end = end2;
            } else {
                match phrase_rec(rest, g, tokenable, tt.as_slice(), notree, d) {
                    Ok((m, t)) => {
                        end = a + m;
                        if !notree {
                            tree.insert_arg(crate::text::string_of(k.as_slice()), crate::tree::Expression::Exp(t), crate::text::string_of(tt.as_slice()));
                        }
                    },
                    Err(PhraseError::Fault) => {
                        return None;
                    },
                    Err(_) => {
                        skip = true;
                    },
                }
            }
        } else if crate::text::chars_eq(k.as_slice(), code.last_name.as_slice()) || !notree {
            let sub = vstd::slice::slice_subrange(s, a, b);
            if crate::text::is_ident(tt.as_slice()) {
                if token_end_exec(sub, tokenable) != sub.len() {
                    skip = true;
                }
                if !notree {
                    tree.insert_arg(
                        crate::text::string_of(k.as_slice()),
                        crate::tree::Expression::Ident(crate::text::string_of(sub)),
                        ident_string(),
                    );
                }
            } else {
                match phrase_rec(sub, g, tokenable, tt.as_slice(), notree, d) {
                    Ok((m, t)) => {
                        if m != sub.len() {
                            skip = true;
                        }
                        if !notree {
                            tree.insert_arg(crate::text::string_of(k.as_slice()), crate::tree::Expression::Exp(t), crate::text::string_of(tt.as_slice()));
                        }
                    },
                    Err(PhraseError::Fault) => {
                        return None;
                    },
                    Err(_) => {
                        skip = true;
                    },
                }
            }
        }
        j = j + 1;
    }
    Some((end, skip, tree))
}

/// Chooses among the finished candidates `done` the phrase to read.
fn choose_best(
    s: &[char],
    g: &Grammar,
    rs: &Vec<Vec<Rule>>,
    tokenable: &crate::tokenable::Tokenable,
    notree: bool,
    d: usize,
    done: &Vec<Cand>,
) -> (r: Option<(usize, crate::tree::SyntaxTree)>)
    requires
        done@.len() > 0,
        prepared_sets(rulesets_view(rs@)),
        all_ok(rulesets_view(rs@), done@, s@.len() as int),
    ensures
        match r {
            Some((n, t)) => choose_from(
                s@,
                g@,
                rulesets_view(rs@),
                tokenable@,
                notree,
                d as nat,
                cands_view(done@),
                0,
                0,
                done@[0]@,
                TreeV { rule: seq![], args: seq![] },
            ) == Some((n as int, t@)) && n <= s@.len() && (notree ==> t@ == empty_tree()) && names_a_rule(
                rulesets_view(rs@),
                t@.rule,
            ),
            None => choose_from(
                s@,
                g@,
                rulesets_view(rs@),
                tokenable@,
                notree,
                d as nat,
                cands_view(done@),
                0,
                0,
                done@[0]@,
                TreeV { rule: seq![], args: seq![] },
            ) is None,
        },
    decreases d, 2int,
{
    let ghost rsv = rulesets_view(rs@);
    let ghost dv = cands_view(done@);
    let ghost whole = choose_from(s@, g@, rsv, tokenable@, notree, d as nat, dv, 0, 0, done@[0]@, TreeV { rule: seq![], args: seq![] });
    let mut best_end: usize = 0;
    let mut best: usize = 0;
    let mut best_tree = crate::tree::SyntaxTree::new(String::new());
    assert(best_tree@ =~= TreeV { rule: seq![], args: seq![] });
    let mut i: usize = 0;
    while i < done.len()
        invariant
            i <= done@.len(),
            best < done@.len(),
            best_end <= s@.len(),
            rsv == rulesets_view(rs@),
            dv == cands_view(done@),
            prepared_sets(rsv),
            all_ok(rsv, done@, s@.len() as int),
            whole == choose_from(s@, g@, rsv, tokenable@, notree, d as nat, dv, 0, 0, done@[0]@, TreeV { rule: seq![], args: seq![] }),
            whole == choose_from(s@, g@, rsv, tokenable@, notree, d as nat, dv, i as int, best_end as int, done@[best as int]@, best_tree@),
            notree ==> best_tree@ == empty_tree(),
            names_a_rule(rsv, best_tree@.rule),
        decreases done@.len() - i,
    {
        let code = &done[i];
        assert(dv[i as int] == code@);
        assert(cand_ok(rsv, code@) && code.next <= s@.len());
        assert(rsv[code.group as int][code.index as int] == rs@[code.group as int]@[code.index as int]@);
        let name = match &rs[code.group][code.index].name {
            Some(nm) => nm.clone(),
            None => {
                return None;
            },
        };
        let (end, skip, mut tree) = match collect_args(s, g, tokenable, notree, d, code) {
            Some(x) => x,
            None => {
                return None;
            },
        };
        tree.rule = name;
        assert(names_a_rule(rsv, tree@.rule)) by {
            assert(rsv[code.group as int][code.index as int].name == Some(tree@.rule));
        };
        if !skip && (end > best_end || (end == best_end && code.last_len <= done[best].last_len && done[best].group == code.group)) {
            best_end = end;
            if !notree {
                best = i;
                best_tree = tree;
            }
        }
        i = i + 1;
    }
    Some((best_end, best_tree))
}

/// Whether every rule of `rs` carries its pieces.
fn sets_prepared(rs: &Vec<Vec<Rule>>) -> (b: bool)
    ensures
        b == prepared_sets(rulesets_view(rs@)),
{
    let ghost rsv = rulesets_view(rs@);
    let mut r: usize = 0;
    while r < rs.len()
        invariant
            r <= rs@.len(),
            rsv == rulesets_view(rs@),
            forall|i: int, k: int| 0 <= i < r && 0 <= k < rsv[i].len() ==> (#[trigger] rsv[i][k]).tokens is Some,
        decreases rs@.len() - r,
    {
        let mut k: usize = 0;
        while k < rs[r].len()
            invariant
                r < rs@.len(),
                k <= rs@[r as int]@.len(),
                rsv == rulesets_view(rs@),
                forall|i: int, k2: int| 0 <= i < r && 0 <= k2 < rsv[i].len() ==> (#[trigger] rsv[i][k2]).tokens is Some,
                forall|k2: int| 0 <= k2 < k ==> (#[trigger] rsv[r as int][k2]).tokens is Some,
            decreases rs@[r as int]@.len() - k,
        {
            assert(rsv[r as int][k as int] == rs@[r as int]@[k as int]@);
            if rs[r][k].tokens.is_none() {
                return false;
            }
            k = k + 1;
        }
        r = r + 1;
    }
    true
}

/// The first phrase of type `ty` in `s`, with phrases nested at most
/// `depth` deep.
fn phrase_rec(
    s: &[char],
    g: &Grammar,
    tokenable: &crate::tokenable::Tokenable,
    ty: &[char],
    notree: bool,
    depth: usize,
) -> (r: Result<(usize, crate::tree::SyntaxTree), PhraseError>)
    ensures
        result_view(r) == first_phrase_spec(s@, g@, tokenable@, ty@, notree, depth as nat),
        r matches Ok((n, t)) ==> n <= s@.len() && names_a_rule(rulesets_of(g@, ty@), t@.rule)
            && (notree ==> t@ == empty_tree()),
    decreases depth, 0int,
{
    proof {
        crate::grammar::lemma_type_index_bounds(g@, ty@, 0);
    }
    let ti = g.type_index(ty);
    let empty: Vec<Vec<Rule>> = Vec::new();
    let rs: &Vec<Vec<Rule>> = if ti < g.types.len() {
        &g.types[ti].rulesets
    } else {
        &empty
    };
    assert(rulesets_view(rs@) =~= rulesets_of(g@, ty@));
    let ghost rsv = rulesets_view(rs@);
    if depth == 0 || !sets_prepared(rs) {
        return Err(PhraseError::Fault);
    }
    let d = depth - 1;
    let cands = init_cands(rs);
    assert(all_ok(rsv, cands@, s@.len() as int));
    match read_all(s, g, rs, tokenable, ty, d, cands) {
        Err(e) => Err(e),
        Ok(left) => {
            let done = keep_finished(left, rs, Ghost(s@.len() as int));
            if done.len() == 0 {
                return Err(PhraseError::NoMatch);
            }
            match choose_best(s, g, rs, tokenable, notree, d, &done) {
                Some((n, t)) => Ok((n, t)),
                None => Err(PhraseError::Fault),
            }
        },
    }
}

} // verus!

verus! {

/// What each reason for no phrase says.
pub open spec fn error_text(e: PhraseError) -> Seq<char> {
    match e {
        PhraseError::NoMatch => "No rule matches!"@,
        PhraseError::Unbalanced => "Parentheses do not match."@,
        PhraseError::Fault => "Reading faults."@,
    }
}

/// The message for `e`.
pub fn error_message(e: PhraseError) -> (m: &'static str)
    ensures
        m@ == error_text(e),
{
    match e {
        PhraseError::NoMatch => "No rule matches!",
        PhraseError::Unbalanced => "Parentheses do not match.",
        PhraseError::Fault => "Reading faults.",
    }
}

/// How deep phrases may nest when a text of length `len` is read by a
/// grammar of `types` types: `(len + 1) * 2 * types + 2`, at most
/// `usize::MAX`. Each call nested inside another reads a part of its text;
/// a chain of nested calls longer than this bound repeats a call with the
/// same text, type and tree flag, and would repeat it without end.
pub open spec fn depth_bound(len: nat, types: nat) -> nat {
    let b = (len + 1) * 2 * types + 2;
    if b > usize::MAX {
        usize::MAX as nat
    } else {
        b as nat
    }
}

pub(crate) fn depth_for(len: usize, types: usize) -> (r: usize)
    ensures
        r as nat == depth_bound(len as nat, types as nat),
{
    if types == 0 {
        assert((len + 1) * 2 * types == 0) by (nonlinear_arith)
            requires
                types == 0,
        ;
        return 2;
    }
    let b: Option<usize> = match len.checked_add(1) {
        Some(x) => match x.checked_mul(2) {
            Some(y) => match y.checked_mul(types) {
                Some(z) => z.checked_add(2),
                None => None,
            },
            None => None,
        },
        None => None,
    };
    let ghost exact: int = (len + 1) * 2 * types + 2;
    assert(exact >= 2) by (nonlinear_arith)
        requires
            exact == (len + 1) * 2 * types + 2,
            types >= 0,
    ;
    match b {
        Some(v) => v,
        None => {
            assert(exact > usize::MAX) by (nonlinear_arith)
                requires
                    exact == (len + 1) * 2 * types + 2,
                    types >= 1,
                    len + 1 > usize::MAX || (len + 1) * 2 > usize::MAX || (len + 1) * 2 * types > usize::MAX
                        || (len + 1) * 2 * types + 2 > usize::MAX,
                    types >= 0,
            ;
            usize::MAX
        },
    }
}

/// Reads the first phrase of type `token_type` in `s` by the prepared
/// grammar `rules`, with phrases nested at most `depth_bound` deep: how many
/// characters of `s` it covers and its syntax tree (an empty tree where
/// `notree` holds), or why there is none. It tests whether reading faults
/// and, where it does not, reads by `first_phrase`.
pub fn try_first_phrase(
    s: &str,
    rules: &Grammar,
    tokenable: &crate::tokenable::Tokenable,
    token_type: &str,
    notree: bool,
) -> (r: Result<(usize, crate::tree::SyntaxTree), PhraseError>)
    ensures
        result_view(r) == first_phrase_spec(
            s@,
            rules@,
            tokenable@,
            token_type@,
            notree,
            depth_bound(s@.len(), rules@.len()),
        ),
        r matches Ok((n, t)) ==> n <= s@.len() && names_a_rule(rulesets_of(rules@, token_type@), t@.rule)
            && (notree ==> t@ == empty_tree()),
        r matches Ok((n, t)) ==> phrase_tree_good(rules@, token_type@, t@, notree),
{
    proof {
        law_phrase_trees_are_well_formed(
            s@,
            rules@,
            tokenable@,
            token_type@,
            notree,
            depth_bound(s@.len(), rules@.len()),
        );
    }
    let cs = crate::text::chars_of(s);
    let ty = crate::text::chars_of(token_type);
    let depth = depth_for(cs.len(), rules.types.len());
    match phrase_rec(cs.as_slice(), rules, tokenable, ty.as_slice(), notree, depth) {
        Err(PhraseError::Fault) => Err(PhraseError::Fault),
        other => match first_phrase(s, rules, tokenable, token_type, notree) {
            Ok((n, t)) => Ok((n, t)),
            Err(_) => other,
        },
    }
}

/// The first phrase of type `token_type` in `s`, read by the prepared
/// grammar `rules`: how many characters of `s` it covers and its syntax
/// tree (an empty tree where `notree` holds), or the message of why there
/// is none. Where reading faults (a rule without pieces or a reading rule
/// without a name, or nesting that would never end), it is not asked for.
pub fn first_phrase(s: &str, rules: &Grammar, tokenable: &crate::tokenable::Tokenable, token_type: &str, notree: bool) -> (r: Result<(usize, crate::tree::SyntaxTree), &'static str>)
    requires
        !(first_phrase_spec(s@, rules@, tokenable@, token_type@, notree, depth_bound(s@.len(), rules@.len()))
            matches Err(PhraseError::Fault)),
    ensures
        match first_phrase_spec(s@, rules@, tokenable@, token_type@, notree, depth_bound(s@.len(), rules@.len())) {
            Ok((n, t)) => r matches Ok((m, u)) && m == n && u@ == t,
            Err(e) => r matches Err(msg) && msg@ == error_text(e),
        },
        r matches Ok((n, t)) ==> n <= s@.len() && names_a_rule(rulesets_of(rules@, token_type@), t@.rule)
            && (notree ==> t@ == empty_tree()),
        r matches Ok((n, t)) ==> phrase_tree_good(rules@, token_type@, t@, notree),
        r matches Ok((n, t)) ==> (t@.rule.len() > 0 ==> exists|j: int, k: int|
            0 <= j < rulesets_of(rules@, token_type@).len() && 0 <= k < rulesets_of(rules@, token_type@)[j].len()
                && (#[trigger] rulesets_of(rules@, token_type@)[j][k]).name == Some(t@.rule)
                && crate::phrase_pieces::args_named(rulesets_of(rules@, token_type@)[j][k].tokens.unwrap(), t@.args)),
{
    proof {
        crate::phrase_pieces::law_phrase_placeholders_are_the_rules(
            s@,
            rules@,
            tokenable@,
            token_type@,
            notree,
            depth_bound(s@.len(), rules@.len()),
        );
        law_phrase_trees_are_well_formed(
            s@,
            rules@,
            tokenable@,
            token_type@,
            notree,
            depth_bound(s@.len(), rules@.len()),
        );
    }
    let cs = crate::text::chars_of(s);
    let ty = crate::text::chars_of(token_type);
    let depth = depth_for(cs.len(), rules.types.len());
    match phrase_rec(cs.as_slice(), rules, tokenable, ty.as_slice(), notree, depth) {
        Ok((n, t)) => Ok((n, t)),
        Err(PhraseError::Fault) => {
            assert(false);
            Err(error_message(PhraseError::Fault))
        },
        Err(e) => Err(error_message(e)),
    }
}

} // verus!

verus! {

/// Inside a string, the characters of a literal that hold no quote and no
/// backslash leave the bracket state as it is, from `i` on.
proof fn lemma_string_is_transparent(tok: Seq<char>, i: int, e: int, stack: Seq<char>)
    requires
        0 <= i <= e <= tok.len(),
        forall|m: int| i <= m < e ==> #[trigger] tok[m] != '"' && tok[m] != '\\',
    ensures
        brackets(tok, i, Brackets { in_string: true, escaped: false, stack })
            == brackets(tok, e, Brackets { in_string: true, escaped: false, stack }),
    decreases e - i,
{
    if i < e {
        lemma_string_is_transparent(tok, i + 1, e, stack);
        let st = Brackets { in_string: true, escaped: false, stack };
        assert(Brackets { escaped: false, ..st } == st);
    }
}

/// Brackets between quotes are not counted. A quote outside an escape
/// starts or ends a string; in a string, a token without quotes and
/// backslashes changes nothing, whatever brackets it holds; and a whole
/// quoted text `"x"` read outside a string leaves the brackets open as they
/// were and reading going on.
pub proof fn law_quoted_brackets_are_not_counted(x: Seq<char>, st: Brackets)
    requires
        !st.escaped,
    ensures
        brackets(seq!['"'], 0, st) == (
            Brackets { in_string: !st.in_string, escaped: false, stack: st.stack },
            BracketOutcome::Go,
        ),
        (forall|m: int| 0 <= m < x.len() ==> #[trigger] x[m] != '"' && x[m] != '\\') && st.in_string ==> brackets(
            x,
            0,
            st,
        ) == (st, BracketOutcome::Go),
        (forall|m: int| 0 <= m < x.len() ==> #[trigger] x[m] != '"' && x[m] != '\\') && !st.in_string ==> brackets(
            seq!['"'] + x + seq!['"'],
            0,
            st,
        ) == (Brackets { in_string: false, escaped: false, stack: st.stack }, BracketOutcome::Go),
{
    let q = seq!['"'];
    assert(brackets(q, 1, Brackets { in_string: !st.in_string, escaped: false, stack: st.stack }) == (
        Brackets { in_string: !st.in_string, escaped: false, stack: st.stack },
        BracketOutcome::Go,
    ));
    if forall|m: int| 0 <= m < x.len() ==> #[trigger] x[m] != '"' && x[m] != '\\' {
        if st.in_string {
            lemma_string_is_transparent(x, 0, x.len() as int, st.stack);
            assert(st == Brackets { in_string: true, escaped: false, stack: st.stack });
        } else {
            let tok = q + x + q;
            let inside = Brackets { in_string: true, escaped: false, stack: st.stack };
            assert forall|m: int| 1 <= m < x.len() + 1 implies #[trigger] tok[m] != '"' && tok[m] != '\\' by {
                assert(tok[m] == x[m - 1]);
            }
            lemma_string_is_transparent(tok, 1, (x.len() + 1) as int, st.stack);
            assert(tok[0] == '"');
            assert(tok[(x.len() + 1) as int] == '"');
            assert(brackets(tok, 0, st) == brackets(tok, 1, inside));
            assert(brackets(tok, (x.len() + 1) as int, inside) == brackets(
                tok,
                (x.len() + 2) as int,
                Brackets { in_string: false, escaped: false, stack: st.stack },
            ));
        }
    }
}

} // verus!
