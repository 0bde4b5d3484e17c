//! Reading a whole text as a phrase of a type, rule by rule, directly from
//! the rule patterns (without prepared pieces).
//!
//! A rule is read character by character. Literal text is compared with the
//! tokens of the input; a placeholder at the end takes the rest of the input;
//! one followed by `{` is found by reading tokens backwards; one followed by
//! other text extends to where that text comes next outside brackets.

use vstd::prelude::*;
use crate::grammar::{Grammar, Rule, RuleV, rulesets_of, rulesets_view};
use crate::text::{trim, is_single, placeholder_name, placeholder_type};
use crate::token::{token_scan, token_end, token_start};
use crate::tokenable::regex_is_match;
use crate::tree::{TreeV, ExprV, insert_key};
use crate::phrase::{Brackets, BracketOutcome, brackets, ident_type};

verus! {

/// What reading a text as a phrase gives: a tree, a refusal with its
/// message, or a fault (an index past the end of the text, or reading that
/// would never end).
pub enum ParseOutcome {
    Tree(TreeV),
    Fail(Seq<char>),
    Fault,
}

/// The placeholders read so far by a rule.
pub type ArgsV = Seq<(Seq<char>, (ExprV, Seq<char>))>;

/// The state while a rule is read.
pub struct RuleState {
    /// The index of the rule character being read.
    pub idx: int,
    /// Where in the text reading goes on.
    pub code: int,
    /// The length kept of the first placeholder.
    pub first_len: int,
    /// The literal text read since the last token.
    pub token: Seq<char>,
    /// Whether a placeholder name is being read.
    pub in_token: bool,
    /// Whether no character of the current literal was read yet.
    pub first_letter: bool,
    /// Where in the rule the current literal starts.
    pub start: int,
    /// The placeholder name being read.
    pub name: Seq<char>,
    /// Whether the text read so far matches.
    pub is_ok: bool,
    /// The placeholders read.
    pub args: ArgsV,
}

/// What one character of a rule does: reading goes on, the rule stops, or
/// the whole reading returns.
pub enum Step {
    Next(RuleState),
    Stop(RuleState),
    Ret(ParseOutcome),
}

/// Where the token of `s` at `pos` ends, or `None` where `pos` is past the
/// end of a text that is not empty.
pub open spec fn token_end_at(s: Seq<char>, pat: Seq<char>, pos: int) -> Option<int> {
    if s.len() > 0 && pos >= s.len() {
        None
    } else {
        Some(token_end(s, pat, pos))
    }
}

/// Compares the literal read so far with the next token of the text, where
/// the literal is complete: at the end of the rule, or where it is a token
/// and the rule text up to the next character is not.
pub open spec fn literal_check(s: Seq<char>, pat: Seq<char>, r: Seq<char>, st: RuleState) -> Step {
    let i = st.idx;
    if i == r.len() - 1 || (regex_is_match(pat, st.token) && !regex_is_match(
        pat,
        r.subrange(st.start, i + 2),
    )) {
        match token_end_at(s, pat, st.code) {
            None => Step::Ret(ParseOutcome::Fault),
            Some(ci) => if trim(s.subrange(st.code, ci)) == trim(st.token) {
                Step::Next(
                    RuleState {
                        code: ci,
                        first_letter: true,
                        start: i + 1,
                        is_ok: if i == r.len() - 1 {
                            ci == s.len()
                        } else {
                            st.is_ok
                        },
                        token: seq![],
                        ..st
                    },
                )
            } else {
                Step::Stop(RuleState { code: ci, ..st })
            },
        }
    } else {
        Step::Next(st)
    }
}

/// The literal with its last character (an escaping backslash) replaced by `c`.
pub open spec fn escaped_literal(token: Seq<char>, c: char) -> Seq<char> {
    if token.len() > 0 {
        token.drop_last().push(c)
    } else {
        token.push(c)
    }
}

/// Keeps the length of the first placeholder (which stays 0 once 0).
pub open spec fn keep_len(first_len: int, inner: Seq<char>) -> int {
    if first_len != 0 {
        inner.len() as int
    } else {
        first_len
    }
}

/// Whether `inner` is one name token of type `ident`.
pub open spec fn is_name(tt: Seq<char>, inner: Seq<char>, pat: Seq<char>) -> bool {
    tt == ident_type() && token_end(inner, pat, 0) == inner.len()
}

/// Reads the placeholder `tname` of type `tt` backwards: from the end of the
/// text, token by token, until the text from `ts` to the reading point is a
/// phrase of the type and the text up to the previous point is not.
pub open spec fn search_back(
    s: Seq<char>,
    g: Seq<(Seq<char>, Seq<Seq<RuleV>>)>,
    pat: Seq<char>,
    d: nat,
    tname: Seq<char>,
    tt: Seq<char>,
    ts: int,
    code: int,
    st: RuleState,
) -> Step
    decreases d, 1int, code,
{
    if code <= 0 {
        Step::Next(RuleState { code, ..st })
    } else {
        let ck = code;
        let ci = token_start(s, pat, ck);
        if ci < 0 || ci < ts || ci > ck {
            Step::Ret(ParseOutcome::Fault)
        } else {
            match parse_spec(trim(s.subrange(ts, ci)), g, pat, tt, d) {
                ParseOutcome::Fault => Step::Ret(ParseOutcome::Fault),
                ParseOutcome::Tree(inner) => match parse_spec(trim(s.subrange(ts, ck)), g, pat, tt, d) {
                    ParseOutcome::Fault => Step::Ret(ParseOutcome::Fault),
                    ParseOutcome::Fail(_) => Step::Next(
                        RuleState {
                            code: ci,
                            args: insert_key(st.args, tname, (ExprV::Exp(inner), tt)),
                            is_ok: true,
                            ..st
                        },
                    ),
                    ParseOutcome::Tree(_) => if ci == ck {
                        Step::Ret(ParseOutcome::Fault)
                    } else {
                        search_back(s, g, pat, d, tname, tt, ts, ci, st)
                    },
                },
                ParseOutcome::Fail(_) => if ci == ck {
                    Step::Ret(ParseOutcome::Fault)
                } else {
                    search_back(s, g, pat, d, tname, tt, ts, ci, st)
                },
            }
        }
    }
}

/// Reads the placeholder `tname` of type `tt` forwards from `ts`: token by
/// token, keeping track of brackets, up to where `next` comes outside
/// brackets.
pub open spec fn search_forward(
    s: Seq<char>,
    g: Seq<(Seq<char>, Seq<Seq<RuleV>>)>,
    pat: Seq<char>,
    d: nat,
    tname: Seq<char>,
    tt: Seq<char>,
    next: Seq<char>,
    ts: int,
    code: int,
    br: Brackets,
    st: RuleState,
) -> Step
    decreases d, 1int, s.len() - code,
{
    if code < 0 || code >= s.len() {
        Step::Next(RuleState { code, ..st })
    } else {
        let ck = code;
        let ci = token_end(s, pat, ck);
        if ci <= ck || ci > s.len() {
            Step::Next(RuleState { code, ..st })
        } else if br.stack.len() == 0 && trim(s.subrange(ck, ci)) == next {
            let inner = trim(s.subrange(ts, ck));
            if is_name(tt, inner, pat) {
                Step::Next(
                    RuleState {
                        code: ck,
                        first_len: keep_len(st.first_len, inner),
                        args: insert_key(st.args, tname, (ExprV::Ident(inner), tt)),
                        is_ok: true,
                        ..st
                    },
                )
            } else {
                match parse_spec(inner, g, pat, tt, d) {
                    ParseOutcome::Fault => Step::Ret(ParseOutcome::Fault),
                    ParseOutcome::Fail(_) => Step::Next(RuleState { code: ci, is_ok: false, ..st }),
                    ParseOutcome::Tree(t) => Step::Next(
                        RuleState {
                            code: ck,
                            first_len: keep_len(st.first_len, inner),
                            args: insert_key(st.args, tname, (ExprV::Exp(t), tt)),
                            is_ok: true,
                            ..st
                        },
                    ),
                }
            }
        } else {
            match brackets(s.subrange(ck, ci), 0, br) {
                (br2, BracketOutcome::Go) => search_forward(s, g, pat, d, tname, tt, next, ts, ci, br2, st),
                _ => Step::Ret(ParseOutcome::Fail("Parentheses do not match."@)),
            }
        }
    }
}

/// A closing brace that ends a placeholder: the placeholder is read, and the
/// rule goes on where it matched.
pub open spec fn close_placeholder(
    s: Seq<char>,
    g: Seq<(Seq<char>, Seq<Seq<RuleV>>)>,
    pat: Seq<char>,
    d: nat,
    r: Seq<char>,
    st: RuleState,
) -> Step
    decreases d, 2int, 0int,
{
    let i = st.idx;
    let st1 = RuleState { token: seq![], ..st };
    let tname = placeholder_name(st.name);
    let tt = placeholder_type(st.name);
    let after = |t: RuleState| RuleState { in_token: false, first_letter: true, start: i + 1, ..t };
    if i == r.len() - 1 {
        let inner = trim(s.subrange(st.code, s.len() as int));
        if is_name(tt, inner, pat) {
            Step::Next(
                after(
                    RuleState {
                        first_len: keep_len(st1.first_len, inner),
                        args: insert_key(st1.args, tname, (ExprV::Ident(inner), tt)),
                        is_ok: true,
                        ..st1
                    },
                ),
            )
        } else {
            match parse_spec(inner, g, pat, tt, d) {
                ParseOutcome::Fault => Step::Ret(ParseOutcome::Fault),
                ParseOutcome::Fail(_) => Step::Stop(RuleState { is_ok: false, ..st1 }),
                ParseOutcome::Tree(t) => Step::Next(
                    after(
                        RuleState {
                            first_len: keep_len(st1.first_len, inner),
                            args: insert_key(st1.args, tname, (ExprV::Exp(t), tt)),
                            is_ok: true,
                            ..st1
                        },
                    ),
                ),
            }
        }
    } else {
        let st2 = RuleState { is_ok: false, ..st1 };
        let next = token_scan(r, pat, i + 1).1;
        let res = if is_single(next, '{') {
            if tt == ident_type() {
                match token_end_at(s, pat, st2.code) {
                    None => Step::Ret(ParseOutcome::Fault),
                    Some(ci) => Step::Next(
                        RuleState {
                            code: ci,
                            args: insert_key(st2.args, tname, (ExprV::Ident(trim(s.subrange(st2.code, ci))), tt)),
                            is_ok: true,
                            ..st2
                        },
                    ),
                }
            } else {
                search_back(s, g, pat, d, tname, tt, st2.code, s.len() as int, st2)
            }
        } else {
            search_forward(
                s,
                g,
                pat,
                d,
                tname,
                tt,
                next,
                st2.code,
                st2.code,
                Brackets { in_string: false, escaped: false, stack: seq![] },
                st2,
            )
        };
        match res {
            Step::Next(t) => if !t.is_ok {
                Step::Stop(t)
            } else {
                Step::Next(after(t))
            },
            other => other,
        }
    }
}

/// What the rule character `r[st.idx]` does.
pub open spec fn rule_step(
    s: Seq<char>,
    g: Seq<(Seq<char>, Seq<Seq<RuleV>>)>,
    pat: Seq<char>,
    d: nat,
    r: Seq<char>,
    st: RuleState,
) -> Step
    decreases d, 3int, 0int,
{
    let i = st.idx;
    let c = r[i];
    let escaped = i > 0 && r[i - 1] == '\\';
    if c == '{' {
        if escaped {
            literal_check(s, pat, r, RuleState { token: escaped_literal(st.token, c), ..st })
        } else {
            Step::Next(RuleState { name: seq![], token: seq![], in_token: true, ..st })
        }
    } else if c == '}' {
        if escaped {
            literal_check(s, pat, r, RuleState { token: escaped_literal(st.token, c), ..st })
        } else {
            close_placeholder(s, g, pat, d, r, st)
        }
    } else if st.in_token {
        Step::Next(RuleState { name: st.name.push(c), ..st })
    } else {
        let st1 = if c != ' ' {
            RuleState { first_letter: false, token: st.token.push(c), ..st }
        } else if !st.first_letter {
            RuleState { token: st.token.push(c), ..st }
        } else {
            RuleState { first_letter: true, start: st.start + 1, ..st }
        };
        literal_check(s, pat, r, st1)
    }
}

/// What reading the rule `r` from `st.idx` on gives: the state where it
/// ends, or what the whole reading returns.
pub open spec fn run_rule(
    s: Seq<char>,
    g: Seq<(Seq<char>, Seq<Seq<RuleV>>)>,
    pat: Seq<char>,
    d: nat,
    r: Seq<char>,
    st: RuleState,
) -> Step
    decreases d, 4int, r.len() - st.idx,
{
    if st.idx < 0 || st.idx >= r.len() {
        Step::Stop(st)
    } else {
        match rule_step(s, g, pat, d, r, st) {
            Step::Next(t) => run_rule(s, g, pat, d, r, RuleState { idx: st.idx + 1, ..t }),
            other => other,
        }
    }
}

/// The state a rule starts in, with `is_ok` carried over from the rule before.
pub open spec fn rule_start(is_ok: bool) -> RuleState {
    RuleState {
        idx: 0,
        code: 0,
        first_len: 0,
        token: seq![],
        in_token: false,
        first_letter: true,
        start: 0,
        name: seq![],
        is_ok,
        args: seq![],
    }
}

/// The progress over the rules: whether the last rule matched, whether one
/// of the current rule set did, the shortest first placeholder, and the
/// tree kept.
pub struct Pick {
    pub is_ok: bool,
    pub exists: bool,
    pub shortest: int,
    pub tree: TreeV,
}

/// Whether `name` is `ty.n` for the name `n` of a rule of `rs`.
pub open spec fn tree_of_rule(rs: Seq<Seq<RuleV>>, ty: Seq<char>, name: Seq<char>) -> bool {
    exists|j: int, k: int|
        0 <= j < rs.len() && 0 <= k < rs[j].len() && (#[trigger] rs[j][k]).name is Some && name == dot_join(
            ty,
            rs[j][k].name.unwrap(),
        )
}

/// `a.b`.
pub open spec fn dot_join(a: Seq<char>, b: Seq<char>) -> Seq<char> {
    a + seq!['.'] + b
}

/// Reads the text by the rules `rs[j][k..]`, `rs[j + 1..]`.
pub open spec fn parse_rules(
    s: Seq<char>,
    g: Seq<(Seq<char>, Seq<Seq<RuleV>>)>,
    pat: Seq<char>,
    ty: Seq<char>,
    d: nat,
    rs: Seq<Seq<RuleV>>,
    j: int,
    k: int,
    p: Pick,
) -> ParseOutcome
    decreases d, 5int, rs.len() - j, (if 0 <= j < rs.len() { rs[j].len() - k } else { 0 }),
{
    if j < 0 || j >= rs.len() || k < 0 {
        ParseOutcome::Fail("No rule matches."@)
    } else if k >= rs[j].len() {
        if p.exists {
            ParseOutcome::Tree(p.tree)
        } else {
            parse_rules(s, g, pat, ty, d, rs, j + 1, 0, p)
        }
    } else {
        let rule = rs[j][k];
        match rule.name {
            None => ParseOutcome::Fail("No name field."@),
            Some(rulename) => match rule.rule {
                None => ParseOutcome::Fail("No rule field."@),
                Some(r) => match run_rule(s, g, pat, d, r, rule_start(p.is_ok)) {
                    Step::Ret(o) => o,
                    Step::Next(st) => parse_rules(s, g, pat, ty, d, rs, j, k + 1, pick(p, st, ty, rulename)),
                    Step::Stop(st) => parse_rules(s, g, pat, ty, d, rs, j, k + 1, pick(p, st, ty, rulename)),
                },
            },
        }
    }
}

/// The progress after a rule ended in state `st`.
pub open spec fn pick(p: Pick, st: RuleState, ty: Seq<char>, rulename: Seq<char>) -> Pick {
    if st.is_ok {
        if p.shortest > st.first_len {
            Pick {
                is_ok: true,
                exists: true,
                shortest: st.first_len,
                tree: TreeV { rule: dot_join(ty, rulename), args: st.args },
            }
        } else {
            Pick { is_ok: true, exists: true, ..p }
        }
    } else {
        Pick { is_ok: false, ..p }
    }
}

/// Reads the whole text `s` as a phrase of type `ty`, with phrases nested
/// at most `depth` deep.
pub open spec fn parse_spec(
    s: Seq<char>,
    g: Seq<(Seq<char>, Seq<Seq<RuleV>>)>,
    pat: Seq<char>,
    ty: Seq<char>,
    depth: nat,
) -> ParseOutcome
    decreases depth, 0int, 0int, 0int,
{
    if depth == 0 {
        ParseOutcome::Fault
    } else {
        parse_rules(
            s,
            g,
            pat,
            ty,
            (depth - 1) as nat,
            rulesets_of(g, ty),
            0,
            0,
            Pick { is_ok: false, exists: false, shortest: 9999, tree: TreeV { rule: seq![], args: seq![] } },
        )
    }
}

} // verus!

verus! {

/// Whether a step ends the whole reading with a fault.
pub open spec fn step_faults(x: Step) -> bool {
    x matches Step::Ret(ParseOutcome::Fault)
}

/// Deeper nesting changes nothing for a backward search without a fault.
pub proof fn lemma_search_back_deeper(
    s: Seq<char>,
    g: Seq<(Seq<char>, Seq<Seq<RuleV>>)>,
    pat: Seq<char>,
    d1: nat,
    d2: nat,
    tname: Seq<char>,
    tt: Seq<char>,
    ts: int,
    code: int,
    st: RuleState,
)
    requires
        d1 <= d2,
        !step_faults(search_back(s, g, pat, d1, tname, tt, ts, code, st)),
    ensures
        search_back(s, g, pat, d2, tname, tt, ts, code, st) == search_back(s, g, pat, d1, tname, tt, ts, code, st),
    decreases d1, 1int, code, 0int,
{
    if code > 0 {
        let ck = code;
        let ci = token_start(s, pat, ck);
        if !(ci < 0 || ci < ts || ci > ck) {
            let first = trim(s.subrange(ts, ci));
            let whole = trim(s.subrange(ts, ck));
            if !(parse_spec(first, g, pat, tt, d1) is Fault) {
                lemma_parse_deeper(first, g, pat, tt, d1, d2);
                match parse_spec(first, g, pat, tt, d1) {
                    ParseOutcome::Tree(_) => {
                        if !(parse_spec(whole, g, pat, tt, d1) is Fault) {
                            lemma_parse_deeper(whole, g, pat, tt, d1, d2);
                            if parse_spec(whole, g, pat, tt, d1) is Tree && ci != ck {
                                lemma_search_back_deeper(s, g, pat, d1, d2, tname, tt, ts, ci, st);
                            }
                        }
                    },
                    ParseOutcome::Fail(_) => {
                        if ci != ck {
                            lemma_search_back_deeper(s, g, pat, d1, d2, tname, tt, ts, ci, st);
                        }
                    },
                    ParseOutcome::Fault => {},
                }
            }
        }
    }
}

/// Deeper nesting changes nothing for a forward search without a fault.
pub proof fn lemma_search_forward_deeper(
    s: Seq<char>,
    g: Seq<(Seq<char>, Seq<Seq<RuleV>>)>,
    pat: Seq<char>,
    d1: nat,
    d2: nat,
    tname: Seq<char>,
    tt: Seq<char>,
    next: Seq<char>,
    ts: int,
    code: int,
    br: Brackets,
    st: RuleState,
)
    requires
        d1 <= d2,
        !step_faults(search_forward(s, g, pat, d1, tname, tt, next, ts, code, br, st)),
    ensures
        search_forward(s, g, pat, d2, tname, tt, next, ts, code, br, st) == search_forward(
            s,
            g,
            pat,
            d1,
            tname,
            tt,
            next,
            ts,
            code,
            br,
            st,
        ),
    decreases d1, 1int, s.len() - code, 0int,
{
    if 0 <= code < s.len() {
        let ck = code;
        let ci = token_end(s, pat, ck);
        if ck < ci <= s.len() {
            if br.stack.len() == 0 && trim(s.subrange(ck, ci)) == next {
                let inner = trim(s.subrange(ts, ck));
                if !is_name(tt, inner, pat) && !(parse_spec(inner, g, pat, tt, d1) is Fault) {
                    lemma_parse_deeper(inner, g, pat, tt, d1, d2);
                }
            } else {
                let (br2, out) = brackets(s.subrange(ck, ci), 0, br);
                if out is Go {
                    lemma_search_forward_deeper(s, g, pat, d1, d2, tname, tt, next, ts, ci, br2, st);
                }
            }
        }
    }
}

/// Deeper nesting changes nothing for closing a placeholder without a fault.
pub proof fn lemma_close_placeholder_deeper(
    s: Seq<char>,
    g: Seq<(Seq<char>, Seq<Seq<RuleV>>)>,
    pat: Seq<char>,
    d1: nat,
    d2: nat,
    r: Seq<char>,
    st: RuleState,
)
    requires
        d1 <= d2,
        !step_faults(close_placeholder(s, g, pat, d1, r, st)),
    ensures
        close_placeholder(s, g, pat, d2, r, st) == close_placeholder(s, g, pat, d1, r, st),
    decreases d1, 2int, 0int, 0int,
{
    let i = st.idx;
    let st1 = RuleState { token: seq![], ..st };
    let tname = placeholder_name(st.name);
    let tt = placeholder_type(st.name);
    if i == r.len() - 1 {
        let inner = trim(s.subrange(st.code, s.len() as int));
        if !is_name(tt, inner, pat) && !(parse_spec(inner, g, pat, tt, d1) is Fault) {
            lemma_parse_deeper(inner, g, pat, tt, d1, d2);
        }
    } else {
        let st2 = RuleState { is_ok: false, ..st1 };
        let next = token_scan(r, pat, i + 1).1;
        if is_single(next, '{') {
            if tt != ident_type() {
                let res = search_back(s, g, pat, d1, tname, tt, st2.code, s.len() as int, st2);
                if !step_faults(res) {
                    lemma_search_back_deeper(s, g, pat, d1, d2, tname, tt, st2.code, s.len() as int, st2);
                }
            }
        } else {
            let br = Brackets { in_string: false, escaped: false, stack: seq![] };
            let res = search_forward(s, g, pat, d1, tname, tt, next, st2.code, st2.code, br, st2);
            if !step_faults(res) {
                lemma_search_forward_deeper(s, g, pat, d1, d2, tname, tt, next, st2.code, st2.code, br, st2);
            }
        }
    }
}

/// Deeper nesting changes nothing for a rule character without a fault.
pub proof fn lemma_rule_step_deeper(
    s: Seq<char>,
    g: Seq<(Seq<char>, Seq<Seq<RuleV>>)>,
    pat: Seq<char>,
    d1: nat,
    d2: nat,
    r: Seq<char>,
    st: RuleState,
)
    requires
        d1 <= d2,
        !step_faults(rule_step(s, g, pat, d1, r, st)),
    ensures
        rule_step(s, g, pat, d2, r, st) == rule_step(s, g, pat, d1, r, st),
    decreases d1, 3int, 0int, 0int,
{
    let i = st.idx;
    let escaped = i > 0 && r[i - 1] == '\\';
    if r[i] == '}' && !escaped {
        lemma_close_placeholder_deeper(s, g, pat, d1, d2, r, st);
    }
}

/// Deeper nesting changes nothing for reading a rule without a fault.
pub proof fn lemma_run_rule_deeper(
    s: Seq<char>,
    g: Seq<(Seq<char>, Seq<Seq<RuleV>>)>,
    pat: Seq<char>,
    d1: nat,
    d2: nat,
    r: Seq<char>,
    st: RuleState,
)
    requires
        d1 <= d2,
        !step_faults(run_rule(s, g, pat, d1, r, st)),
    ensures
        run_rule(s, g, pat, d2, r, st) == run_rule(s, g, pat, d1, r, st),
    decreases d1, 4int, r.len() - st.idx, 0int,
{
    if 0 <= st.idx < r.len() {
        let x = rule_step(s, g, pat, d1, r, st);
        if !step_faults(x) {
            lemma_rule_step_deeper(s, g, pat, d1, d2, r, st);
            match x {
                Step::Next(t) => {
                    lemma_run_rule_deeper(s, g, pat, d1, d2, r, RuleState { idx: st.idx + 1, ..t });
                },
                _ => {},
            }
        }
    }
}

/// Deeper nesting changes nothing for reading by the rules without a fault.
pub proof fn lemma_parse_rules_deeper(
    s: Seq<char>,
    g: Seq<(Seq<char>, Seq<Seq<RuleV>>)>,
    pat: Seq<char>,
    ty: Seq<char>,
    d1: nat,
    d2: nat,
    rs: Seq<Seq<RuleV>>,
    j: int,
    k: int,
    p: Pick,
)
    requires
        d1 <= d2,
        !(parse_rules(s, g, pat, ty, d1, rs, j, k, p) is Fault),
    ensures
        parse_rules(s, g, pat, ty, d2, rs, j, k, p) == parse_rules(s, g, pat, ty, d1, rs, j, k, p),
    decreases d1, 5int, rs.len() - j, (if 0 <= j < rs.len() { rs[j].len() - k } else { 0 }),
{
    if 0 <= j < rs.len() && 0 <= k {
        if k >= rs[j].len() {
            if !p.exists {
                lemma_parse_rules_deeper(s, g, pat, ty, d1, d2, rs, j + 1, 0, p);
            }
        } else {
            let rule = rs[j][k];
            if rule.name is Some && rule.rule is Some {
                let rulename = rule.name.unwrap();
                let r = rule.rule.unwrap();
                let x = run_rule(s, g, pat, d1, r, rule_start(p.is_ok));
                if !step_faults(x) {
                    lemma_run_rule_deeper(s, g, pat, d1, d2, r, rule_start(p.is_ok));
                    match x {
                        Step::Next(st) => lemma_parse_rules_deeper(s, g, pat, ty, d1, d2, rs, j, k + 1, pick(p, st, ty, rulename)),
                        Step::Stop(st) => lemma_parse_rules_deeper(s, g, pat, ty, d1, d2, rs, j, k + 1, pick(p, st, ty, rulename)),
                        Step::Ret(_) => {},
                    }
                }
            }
        }
    }
}

/// Deeper nesting changes nothing for a reading without a fault.
pub proof fn lemma_parse_deeper(
    s: Seq<char>,
    g: Seq<(Seq<char>, Seq<Seq<RuleV>>)>,
    pat: Seq<char>,
    ty: Seq<char>,
    d1: nat,
    d2: nat,
)
    requires
        d1 <= d2,
        !(parse_spec(s, g, pat, ty, d1) is Fault),
    ensures
        parse_spec(s, g, pat, ty, d2) == parse_spec(s, g, pat, ty, d1),
    decreases d1, 0int, 0int, 0int,
{
    if d1 > 0 {
        lemma_parse_rules_deeper(
            s,
            g,
            pat,
            ty,
            (d1 - 1) as nat,
            (d2 - 1) as nat,
            rulesets_of(g, ty),
            0,
            0,
            Pick { is_ok: false, exists: false, shortest: 9999, tree: TreeV { rule: seq![], args: seq![] } },
        );
    }
}

/// A whole-text reading that does not fault within some nesting depth
/// gives the same outcome with any greater depth: the depth only cuts off
/// readings that nest too deep, and never changes the outcome of one that
/// ends.
pub proof fn law_parse_depth_only_cuts_off(
    s: Seq<char>,
    g: Seq<(Seq<char>, Seq<Seq<RuleV>>)>,
    pat: Seq<char>,
    ty: Seq<char>,
    d1: nat,
    d2: nat,
)
    requires
        d1 <= d2,
        !(parse_spec(s, g, pat, ty, d1) is Fault),
    ensures
        parse_spec(s, g, pat, ty, d2) == parse_spec(s, g, pat, ty, d1),
{
    lemma_parse_deeper(s, g, pat, ty, d1, d2);
}

/// Whether a placeholder read by `parse` is well formed: a name is of type
/// `ident` and trimmed; a phrase is named `type.rule` after its type.
pub open spec fn arg_good(a: (Seq<char>, (ExprV, Seq<char>))) -> bool {
    match a.1.0 {
        ExprV::Ident(x) => a.1.1 == ident_type() && trim(x) == x,
        ExprV::Exp(sub) => exists|n: Seq<char>| #[trigger] dot_join(a.1.1, n) == sub.rule,
    }
}

/// Whether every placeholder of `args` is well formed.
pub open spec fn args_good(args: ArgsV) -> bool {
    forall|i: int| 0 <= i < args.len() ==> #[trigger] arg_good(args[i])
}

/// Whether `t` is a well-formed tree of type `ty`.
pub open spec fn tree_good(t: TreeV, ty: Seq<char>) -> bool {
    args_good(t.args) && exists|n: Seq<char>| #[trigger] dot_join(ty, n) == t.rule
}

/// Whether a rule's state has well-formed placeholders and keeps the length
/// of its first placeholder at 0.
pub open spec fn state_good(st: RuleState) -> bool {
    st.first_len == 0 && args_good(st.args)
}

/// Whether a step keeps a good state and never returns a tree.
pub open spec fn step_good(x: Step) -> bool {
    match x {
        Step::Next(st) => state_good(st),
        Step::Stop(st) => state_good(st),
        Step::Ret(o) => !(o is Tree),
    }
}

/// Whether the progress over the rules keeps a well-formed tree of type
/// `ty` once one was picked.
pub open spec fn pick_good(p: Pick, ty: Seq<char>) -> bool {
    (p.exists ==> tree_good(p.tree, ty)) && (!p.exists ==> p.shortest > 0)
}

/// Setting a well-formed placeholder keeps every placeholder well formed.
pub proof fn lemma_insert_good(args: ArgsV, k: Seq<char>, v: (ExprV, Seq<char>))
    requires
        args_good(args),
        arg_good((k, v)),
    ensures
        args_good(insert_key(args, k, v)),
    decreases args.len(),
{
    let r = insert_key(args, k, v);
    if args.len() > 0 && args[0].0 != k && !crate::text::chars_lt(k, args[0].0) {
        let t = args.drop_first();
        assert forall|i: int| 0 <= i < t.len() implies #[trigger] arg_good(t[i]) by {
            assert(t[i] == args[i + 1]);
        }
        lemma_insert_good(t, k, v);
        assert forall|i: int| 0 <= i < r.len() implies #[trigger] arg_good(r[i]) by {
            if i > 0 {
                assert(r[i] == insert_key(t, k, v)[i - 1]);
            }
        }
    } else if args.len() > 0 && args[0].0 != k {
        assert forall|i: int| 0 <= i < r.len() implies #[trigger] arg_good(r[i]) by {
            if i > 0 {
                assert(r[i] == args[i - 1]);
            }
        }
    } else if args.len() > 0 {
        assert forall|i: int| 0 <= i < r.len() implies #[trigger] arg_good(r[i]) by {
            if i > 0 {
                assert(r[i] == args[i]);
            }
        }
    }
}

/// A name read from the text is well formed.
pub proof fn lemma_name_good(k: Seq<char>, tt: Seq<char>, raw: Seq<char>)
    requires
        tt == ident_type(),
    ensures
        arg_good((k, (ExprV::Ident(trim(raw)), tt))),
{
    crate::text::lemma_trim_twice(raw);
}

/// A phrase read from the text is well formed.
pub proof fn lemma_phrase_good(k: Seq<char>, tt: Seq<char>, t: TreeV)
    requires
        tree_good(t, tt),
    ensures
        arg_good((k, (ExprV::Exp(t), tt))),
{
    let n = choose|n: Seq<char>| #[trigger] dot_join(tt, n) == t.rule;
    let a = (k, (ExprV::Exp(t), tt));
    assert(dot_join(a.1.1, n) == t.rule);
}

/// A backward search keeps a good state.
pub proof fn lemma_search_back_good(
    s: Seq<char>,
    g: Seq<(Seq<char>, Seq<Seq<RuleV>>)>,
    pat: Seq<char>,
    d: nat,
    tname: Seq<char>,
    tt: Seq<char>,
    ts: int,
    code: int,
    st: RuleState,
)
    requires
        state_good(st),
    ensures
        step_good(search_back(s, g, pat, d, tname, tt, ts, code, st)),
    decreases d, 1int, code, 0int,
{
    if code > 0 {
        let ck = code;
        let ci = token_start(s, pat, ck);
        if !(ci < 0 || ci < ts || ci > ck) {
            let first = trim(s.subrange(ts, ci));
            let whole = trim(s.subrange(ts, ck));
            lemma_parse_good(first, g, pat, tt, d);
            match parse_spec(first, g, pat, tt, d) {
                ParseOutcome::Tree(inner) => {
                    lemma_phrase_good(tname, tt, inner);
                    lemma_insert_good(st.args, tname, (ExprV::Exp(inner), tt));
                    if parse_spec(whole, g, pat, tt, d) is Tree && ci != ck {
                        lemma_search_back_good(s, g, pat, d, tname, tt, ts, ci, st);
                    }
                },
                ParseOutcome::Fail(_) => {
                    if ci != ck {
                        lemma_search_back_good(s, g, pat, d, tname, tt, ts, ci, st);
                    }
                },
                ParseOutcome::Fault => {},
            }
        }
    }
}

/// A forward search keeps a good state.
pub proof fn lemma_search_forward_good(
    s: Seq<char>,
    g: Seq<(Seq<char>, Seq<Seq<RuleV>>)>,
    pat: Seq<char>,
    d: nat,
    tname: Seq<char>,
    tt: Seq<char>,
    next: Seq<char>,
    ts: int,
    code: int,
    br: Brackets,
    st: RuleState,
)
    requires
        state_good(st),
    ensures
        step_good(search_forward(s, g, pat, d, tname, tt, next, ts, code, br, st)),
    decreases d, 1int, s.len() - code, 0int,
{
    if 0 <= code < s.len() {
        let ck = code;
        let ci = token_end(s, pat, ck);
        if ck < ci <= s.len() {
            if br.stack.len() == 0 && trim(s.subrange(ck, ci)) == next {
                let raw = s.subrange(ts, ck);
                let inner = trim(raw);
                if is_name(tt, inner, pat) {
                    lemma_name_good(tname, tt, raw);
                    lemma_insert_good(st.args, tname, (ExprV::Ident(inner), tt));
                } else {
                    lemma_parse_good(inner, g, pat, tt, d);
                    match parse_spec(inner, g, pat, tt, d) {
                        ParseOutcome::Tree(t) => {
                            lemma_phrase_good(tname, tt, t);
                            lemma_insert_good(st.args, tname, (ExprV::Exp(t), tt));
                        },
                        _ => {},
                    }
                }
            } else {
                let (br2, out) = brackets(s.subrange(ck, ci), 0, br);
                if out is Go {
                    lemma_search_forward_good(s, g, pat, d, tname, tt, next, ts, ci, br2, st);
                }
            }
        }
    }
}

/// Closing a placeholder keeps a good state.
pub proof fn lemma_close_placeholder_good(
    s: Seq<char>,
    g: Seq<(Seq<char>, Seq<Seq<RuleV>>)>,
    pat: Seq<char>,
    d: nat,
    r: Seq<char>,
    st: RuleState,
)
    requires
        state_good(st),
    ensures
        step_good(close_placeholder(s, g, pat, d, r, st)),
    decreases d, 2int, 0int, 0int,
{
    let i = st.idx;
    let st1 = RuleState { token: seq![], ..st };
    let tname = placeholder_name(st.name);
    let tt = placeholder_type(st.name);
    if i == r.len() - 1 {
        let raw = s.subrange(st.code, s.len() as int);
        let inner = trim(raw);
        if is_name(tt, inner, pat) {
            lemma_name_good(tname, tt, raw);
            lemma_insert_good(st1.args, tname, (ExprV::Ident(inner), tt));
        } else {
            lemma_parse_good(inner, g, pat, tt, d);
            match parse_spec(inner, g, pat, tt, d) {
                ParseOutcome::Tree(t) => {
                    lemma_phrase_good(tname, tt, t);
                    lemma_insert_good(st1.args, tname, (ExprV::Exp(t), tt));
                },
                _ => {},
            }
        }
    } else {
        let st2 = RuleState { is_ok: false, ..st1 };
        let next = token_scan(r, pat, i + 1).1;
        if is_single(next, '{') {
            if tt == ident_type() {
                match token_end_at(s, pat, st2.code) {
                    Some(ci) => {
                        lemma_name_good(tname, tt, s.subrange(st2.code, ci));
                        lemma_insert_good(st2.args, tname, (ExprV::Ident(trim(s.subrange(st2.code, ci))), tt));
                    },
                    None => {},
                }
            } else {
                lemma_search_back_good(s, g, pat, d, tname, tt, st2.code, s.len() as int, st2);
            }
        } else {
            let br = Brackets { in_string: false, escaped: false, stack: seq![] };
            lemma_search_forward_good(s, g, pat, d, tname, tt, next, st2.code, st2.code, br, st2);
        }
    }
}

/// A rule character keeps a good state.
pub proof fn lemma_rule_step_good(
    s: Seq<char>,
    g: Seq<(Seq<char>, Seq<Seq<RuleV>>)>,
    pat: Seq<char>,
    d: nat,
    r: Seq<char>,
    st: RuleState,
)
    requires
        state_good(st),
        0 <= st.idx < r.len(),
    ensures
        step_good(rule_step(s, g, pat, d, r, st)),
    decreases d, 3int, 0int, 0int,
{
    let i = st.idx;
    let escaped = i > 0 && r[i - 1] == '\\';
    if r[i] == '}' && !escaped {
        lemma_close_placeholder_good(s, g, pat, d, r, st);
    }
}

/// Reading a rule keeps a good state.
pub proof fn lemma_run_rule_good(
    s: Seq<char>,
    g: Seq<(Seq<char>, Seq<Seq<RuleV>>)>,
    pat: Seq<char>,
    d: nat,
    r: Seq<char>,
    st: RuleState,
)
    requires
        state_good(st),
    ensures
        step_good(run_rule(s, g, pat, d, r, st)),
    decreases d, 4int, r.len() - st.idx, 0int,
{
    if 0 <= st.idx < r.len() {
        lemma_rule_step_good(s, g, pat, d, r, st);
        match rule_step(s, g, pat, d, r, st) {
            Step::Next(t) => {
                lemma_run_rule_good(s, g, pat, d, r, RuleState { idx: st.idx + 1, ..t });
            },
            _ => {},
        }
    }
}

/// Reading by the rules gives only well-formed trees of the type.
pub proof fn lemma_parse_rules_good(
    s: Seq<char>,
    g: Seq<(Seq<char>, Seq<Seq<RuleV>>)>,
    pat: Seq<char>,
    ty: Seq<char>,
    d: nat,
    rs: Seq<Seq<RuleV>>,
    j: int,
    k: int,
    p: Pick,
)
    requires
        pick_good(p, ty),
    ensures
        parse_rules(s, g, pat, ty, d, rs, j, k, p) matches ParseOutcome::Tree(t) ==> tree_good(t, ty),
    decreases d, 5int, rs.len() - j, (if 0 <= j < rs.len() { rs[j].len() - k } else { 0 }),
{
    if 0 <= j < rs.len() && 0 <= k {
        if k >= rs[j].len() {
            if !p.exists {
                lemma_parse_rules_good(s, g, pat, ty, d, rs, j + 1, 0, p);
            }
        } else {
            let rule = rs[j][k];
            if rule.name is Some && rule.rule is Some {
                let rulename = rule.name.unwrap();
                let r = rule.rule.unwrap();
                assert(state_good(rule_start(p.is_ok)));
                lemma_run_rule_good(s, g, pat, d, r, rule_start(p.is_ok));
                match run_rule(s, g, pat, d, r, rule_start(p.is_ok)) {
                    Step::Next(st) => {
                        assert(pick_good(pick(p, st, ty, rulename), ty));
                        lemma_parse_rules_good(s, g, pat, ty, d, rs, j, k + 1, pick(p, st, ty, rulename));
                    },
                    Step::Stop(st) => {
                        assert(pick_good(pick(p, st, ty, rulename), ty));
                        lemma_parse_rules_good(s, g, pat, ty, d, rs, j, k + 1, pick(p, st, ty, rulename));
                    },
                    Step::Ret(_) => {},
                }
            }
        }
    }
}

/// Reading a whole text gives only a well-formed tree of the type.
pub proof fn lemma_parse_good(
    s: Seq<char>,
    g: Seq<(Seq<char>, Seq<Seq<RuleV>>)>,
    pat: Seq<char>,
    ty: Seq<char>,
    d: nat,
)
    ensures
        parse_spec(s, g, pat, ty, d) matches ParseOutcome::Tree(t) ==> tree_good(t, ty),
    decreases d, 0int, 0int, 0int,
{
    if d > 0 {
        let p0 = Pick { is_ok: false, exists: false, shortest: 9999, tree: TreeV { rule: seq![], args: seq![] } };
        lemma_parse_rules_good(s, g, pat, ty, (d - 1) as nat, rulesets_of(g, ty), 0, 0, p0);
    }
}

/// A tree read by `parse` is named `type.rule` for its type, and so is
/// every phrase in it; every name in it is trimmed and of type `ident`.
pub proof fn law_parsed_trees_are_well_formed(
    s: Seq<char>,
    g: Seq<(Seq<char>, Seq<Seq<RuleV>>)>,
    pat: Seq<char>,
    ty: Seq<char>,
    d: nat,
)
    ensures
        parse_spec(s, g, pat, ty, d) matches ParseOutcome::Tree(t) ==> tree_good(t, ty),
{
    lemma_parse_good(s, g, pat, ty, d);
}

} // verus!

verus! {

/// What reading a text as a phrase gives.
pub enum ParseResult {
    Tree(crate::tree::SyntaxTree),
    Fail(&'static str),
    Fault,
}

impl View for ParseResult {
    type V = ParseOutcome;

    open spec fn view(&self) -> ParseOutcome {
        match self {
            ParseResult::Tree(t) => ParseOutcome::Tree(t@),
            ParseResult::Fail(m) => ParseOutcome::Fail(m@),
            ParseResult::Fault => ParseOutcome::Fault,
        }
    }
}

/// The state while a rule is read.
struct RunState {
    idx: usize,
    code: usize,
    first_len: usize,
    token: Vec<char>,
    in_token: bool,
    first_letter: bool,
    start: usize,
    name: Vec<char>,
    is_ok: bool,
    args: crate::tree::SyntaxTree,
}

impl View for RunState {
    type V = RuleState;

    closed spec fn view(&self) -> RuleState {
        RuleState {
            idx: self.idx as int,
            code: self.code as int,
            first_len: self.first_len as int,
            token: self.token@,
            in_token: self.in_token,
            first_letter: self.first_letter,
            start: self.start as int,
            name: self.name@,
            is_ok: self.is_ok,
            args: self.args@.args,
        }
    }
}

/// How a step ended; the state is kept by the caller.
enum StepKind {
    Next,
    Stop,
    Ret(ParseResult),
}

spec fn step_view(k: StepKind, st: RuleState) -> Step {
    match k {
        StepKind::Next => Step::Next(st),
        StepKind::Stop => Step::Stop(st),
        StepKind::Ret(o) => Step::Ret(o@),
    }
}

/// Whether the state is within the rule `r` and the text `s`.
spec fn state_ok(st: RunState, r: Seq<char>, s: Seq<char>) -> bool {
    &&& st.idx < r.len()
    &&& st.start <= st.idx
    &&& st.code <= s.len()
}

/// Where the token of `s` at `pos` ends, or `None` past the end of a text
/// that is not empty.
fn token_end_checked(s: &[char], pos: usize, tokenable: &crate::tokenable::Tokenable) -> (r: Option<usize>)
    ensures
        match r {
            Some(e) => token_end_at(s@, tokenable@, pos as int) == Some(e as int) && e <= s@.len()
                && (pos <= s@.len() ==> pos <= e),
            None => token_end_at(s@, tokenable@, pos as int) is None,
        },
{
    if s.len() > 0 && pos < s.len() {
        proof {
            crate::token::lemma_scan_forward_bounds(s@, tokenable@, pos + 1, crate::token::first_checking(s@, pos as int));
        }
    }
    if s.len() == 0 {
        Some(0)
    } else if pos >= s.len() {
        None
    } else {
        Some(crate::token::token_at(s, pos, tokenable).0)
    }
}

/// The characters of `s[a..b]` with white space trimmed.
fn trimmed(s: &[char], a: usize, b: usize) -> (r: Vec<char>)
    requires
        a <= b <= s@.len(),
    ensures
        r@ == trim(s@.subrange(a as int, b as int)),
{
    let (x, y) = crate::text::trim_bounds(s, a, b);
    vstd::slice::slice_to_vec(vstd::slice::slice_subrange(s, x, y))
}

/// Compares a complete literal with the next token of the text.
fn check_literal(s: &[char], tokenable: &crate::tokenable::Tokenable, r: &[char], st: &mut RunState) -> (k: StepKind)
    requires
        old(st).idx < r@.len(),
        old(st).start <= old(st).idx + 1,
        old(st).code <= s@.len(),
    ensures
        step_view(k, final(st)@) == literal_check(s@, tokenable@, r@, old(st)@),
        final(st).idx == old(st).idx,
        final(st).code <= s@.len(),
        final(st).start <= final(st).idx + 1,
        old(st).first_len == 0 ==> final(st).first_len == 0,
        !(k matches StepKind::Ret(ParseResult::Tree(_))),
{
    let i = st.idx;
    let last = i == r.len() - 1;
    let complete = if last {
        true
    } else if tokenable.matches(st.token.as_slice()) {
        !tokenable.matches(vstd::slice::slice_subrange(r, st.start, i + 2))
    } else {
        false
    };
    if !complete {
        return StepKind::Next;
    }
    let ck = st.code;
    match token_end_checked(s, ck, tokenable) {
        None => StepKind::Ret(ParseResult::Fault),
        Some(ci) => {
            assert(ck <= ci) by {
                if s@.len() > 0 {
                    crate::token::lemma_scan_forward_bounds(s@, tokenable@, ck + 1, crate::token::first_checking(s@, ck as int));
                }
            };
            let piece = trimmed(s, ck, ci);
            let tok = trimmed(st.token.as_slice(), 0, st.token.len());
            assert(st.token@.subrange(0, st.token@.len() as int) =~= st.token@);
            if crate::text::chars_eq(piece.as_slice(), tok.as_slice()) {
                st.code = ci;
                st.first_letter = true;
                st.start = i + 1;
                if last {
                    st.is_ok = ci == s.len();
                }
                st.token = Vec::new();
                assert(st.token@ =~= Seq::<char>::empty());
                StepKind::Next
            } else {
                st.code = ci;
                StepKind::Stop
            }
        },
    }
}

} // verus!

verus! {

/// Reads a placeholder backwards from the end of the text.
fn search_back_exec(
    s: &[char],
    g: &Grammar,
    tokenable: &crate::tokenable::Tokenable,
    d: usize,
    tname: &[char],
    tt: &[char],
    ts: usize,
    st: &mut RunState,
) -> (k: StepKind)
    requires
        ts <= s@.len(),
        old(st).code <= s@.len(),
    ensures
        step_view(k, final(st)@) == search_back(s@, g@, tokenable@, d as nat, tname@, tt@, ts as int, s@.len() as int, old(st)@),
        final(st).idx == old(st).idx,
        final(st).start == old(st).start,
        final(st).code <= s@.len(),
        old(st).first_len == 0 ==> final(st).first_len == 0,
        !(k matches StepKind::Ret(ParseResult::Tree(_))),
    decreases d, 1int,
{
    let ghost st0 = st@;
    let ghost whole = search_back(s@, g@, tokenable@, d as nat, tname@, tt@, ts as int, s@.len() as int, st0);
    let mut code = s.len();
    while code > 0
        invariant
            code <= s@.len(),
            ts <= s@.len(),
            st@ == st0,
            st0 == old(st)@,
            st.code <= s@.len(),
            whole == search_back(s@, g@, tokenable@, d as nat, tname@, tt@, ts as int, s@.len() as int, st0),
            whole == search_back(s@, g@, tokenable@, d as nat, tname@, tt@, ts as int, code as int, st0),
        decreases code,
    {
        let ck = code;
        let ci = crate::token::token_back(s, ck, tokenable);
        if ci < ts {
            return StepKind::Ret(ParseResult::Fault);
        }
        let sub1 = trimmed(s, ts, ci);
        match parse_rec(sub1.as_slice(), g, tokenable, tt, d) {
            ParseResult::Fault => {
                return StepKind::Ret(ParseResult::Fault);
            },
            ParseResult::Tree(inner) => {
                let sub2 = trimmed(s, ts, ck);
                match parse_rec(sub2.as_slice(), g, tokenable, tt, d) {
                    ParseResult::Fault => {
                        return StepKind::Ret(ParseResult::Fault);
                    },
                    ParseResult::Fail(_) => {
                        st.code = ci;
                        st.args.insert_arg(
                            crate::text::string_of(tname),
                            crate::tree::Expression::Exp(inner),
                            crate::text::string_of(tt),
                        );
                        st.is_ok = true;
                        return StepKind::Next;
                    },
                    ParseResult::Tree(_) => {},
                }
            },
            ParseResult::Fail(_) => {},
        }
        if ci == ck {
            return StepKind::Ret(ParseResult::Fault);
        }
        code = ci;
    }
    st.code = code;
    StepKind::Next
}

/// Reads a placeholder forwards up to where `next` comes outside brackets.
fn search_forward_exec(
    s: &[char],
    g: &Grammar,
    tokenable: &crate::tokenable::Tokenable,
    d: usize,
    tname: &[char],
    tt: &[char],
    next: &[char],
    st: &mut RunState,
) -> (k: StepKind)
    requires
        old(st).code <= s@.len(),
    ensures
        step_view(k, final(st)@) == search_forward(
            s@,
            g@,
            tokenable@,
            d as nat,
            tname@,
            tt@,
            next@,
            old(st).code as int,
            old(st).code as int,
            Brackets { in_string: false, escaped: false, stack: seq![] },
            old(st)@,
        ),
        final(st).idx == old(st).idx,
        final(st).start == old(st).start,
        final(st).code <= s@.len(),
        old(st).first_len == 0 ==> final(st).first_len == 0,
        !(k matches StepKind::Ret(ParseResult::Tree(_))),
    decreases d, 1int,
{
    let ghost st0 = st@;
    let ts = st.code;
    let ghost whole = search_forward(
        s@,
        g@,
        tokenable@,
        d as nat,
        tname@,
        tt@,
        next@,
        ts as int,
        ts as int,
        Brackets { in_string: false, escaped: false, stack: seq![] },
        st0,
    );
    let mut code = ts;
    let mut in_string = false;
    let mut escaped = false;
    let mut stack: Vec<char> = Vec::new();
    assert(stack@ =~= Seq::<char>::empty());
    while code < s.len()
        invariant
            ts <= code <= s@.len(),
            st@ == st0,
            st0 == old(st)@,
            st0.code == ts,
            whole == search_forward(
                s@,
                g@,
                tokenable@,
                d as nat,
                tname@,
                tt@,
                next@,
                ts as int,
                ts as int,
                Brackets { in_string: false, escaped: false, stack: seq![] },
                st0,
            ),
            whole == search_forward(
                s@,
                g@,
                tokenable@,
                d as nat,
                tname@,
                tt@,
                next@,
                ts as int,
                code as int,
                Brackets { in_string, escaped, stack: stack@ },
                st0,
            ),
        decreases s@.len() - code,
    {
        let ck = code;
        let ci = crate::token::token_at(s, ck, tokenable).0;
        assert(token_end(s@, tokenable@, ck as int) == ci);
        let piece = trimmed(s, ck, ci);
        if stack.len() == 0 && crate::text::chars_eq(piece.as_slice(), next) {
            let inner = trimmed(s, ts, ck);
            let name_like = crate::text::is_ident(tt) && crate::phrase::token_end_exec(inner.as_slice(), tokenable) == inner.len();
            if name_like {
                if st.first_len != 0 {
                    st.first_len = inner.len();
                }
                st.args.insert_arg(
                    crate::text::string_of(tname),
                    crate::tree::Expression::Ident(crate::text::string_of(inner.as_slice())),
                    crate::text::string_of(tt),
                );
            } else {
                match parse_rec(inner.as_slice(), g, tokenable, tt, d) {
                    ParseResult::Fault => {
                        return StepKind::Ret(ParseResult::Fault);
                    },
                    ParseResult::Fail(_) => {
                        st.code = ci;
                        st.is_ok = false;
                        return StepKind::Next;
                    },
                    ParseResult::Tree(t) => {
                        if st.first_len != 0 {
                            st.first_len = inner.len();
                        }
                        st.args.insert_arg(
                            crate::text::string_of(tname),
                            crate::tree::Expression::Exp(t),
                            crate::text::string_of(tt),
                        );
                    },
                }
            }
            st.code = ck;
            st.is_ok = true;
            return StepKind::Next;
        }
        let seg = vstd::slice::slice_subrange(s, ck, ci);
        match crate::phrase::read_brackets(seg, &mut in_string, &mut escaped, &mut stack) {
            BracketOutcome::Go => {},
            _ => {
                return StepKind::Ret(ParseResult::Fail("Parentheses do not match."));
            },
        }
        code = ci;
    }
    st.code = code;
    StepKind::Next
}

/// The text `a.b`.
fn dot_string(a: &[char], b: &str) -> (r: String)
    ensures
        r@ == dot_join(a@, b@),
{
    let mut v = vstd::slice::slice_to_vec(a);
    v.push('.');
    let w = crate::text::chars_of(b);
    let mut i: usize = 0;
    let ghost v0 = v@;
    while i < w.len()
        invariant
            i <= w@.len(),
            v@ == v0 + w@.subrange(0, i as int),
        decreases w@.len() - i,
    {
        v.push(w[i]);
        i = i + 1;
        assert(v@ =~= v0 + w@.subrange(0, i as int));
    }
    assert(w@.subrange(0, w@.len() as int) =~= w@);
    assert(v@ =~= dot_join(a@, b@));
    crate::text::string_of(v.as_slice())
}

/// A closing brace that ends a placeholder.
fn close_exec(
    s: &[char],
    g: &Grammar,
    tokenable: &crate::tokenable::Tokenable,
    d: usize,
    r: &[char],
    st: &mut RunState,
) -> (k: StepKind)
    requires
        state_ok(*old(st), r@, s@),
    ensures
        step_view(k, final(st)@) == close_placeholder(s@, g@, tokenable@, d as nat, r@, old(st)@),
        final(st).idx == old(st).idx,
        final(st).code <= s@.len(),
        final(st).start <= final(st).idx + 1,
        old(st).first_len == 0 ==> final(st).first_len == 0,
        !(k matches StepKind::Ret(ParseResult::Tree(_))),
    decreases d, 2int,
{
    let i = st.idx;
    st.token = Vec::new();
    assert(st.token@ =~= Seq::<char>::empty());
    let (tname, tt) = crate::text::split_placeholder(st.name.as_slice());
    if i == r.len() - 1 {
        let inner = trimmed(s, st.code, s.len());
        if crate::text::is_ident(tt.as_slice()) && crate::phrase::token_end_exec(inner.as_slice(), tokenable) == inner.len() {
            if st.first_len != 0 {
                st.first_len = inner.len();
            }
            st.args.insert_arg(
                crate::text::string_of(tname.as_slice()),
                crate::tree::Expression::Ident(crate::text::string_of(inner.as_slice())),
                crate::text::string_of(tt.as_slice()),
            );
            st.is_ok = true;
            st.in_token = false;
            st.first_letter = true;
            st.start = i + 1;
            return StepKind::Next;
        }
        match parse_rec(inner.as_slice(), g, tokenable, tt.as_slice(), d) {
            ParseResult::Fault => StepKind::Ret(ParseResult::Fault),
            ParseResult::Fail(_) => {
                st.is_ok = false;
                StepKind::Stop
            },
            ParseResult::Tree(t) => {
                if st.first_len != 0 {
                    st.first_len = inner.len();
                }
                st.args.insert_arg(
                    crate::text::string_of(tname.as_slice()),
                    crate::tree::Expression::Exp(t),
                    crate::text::string_of(tt.as_slice()),
                );
                st.is_ok = true;
                st.in_token = false;
                st.first_letter = true;
                st.start = i + 1;
                StepKind::Next
            },
        }
    } else {
        st.is_ok = false;
        let next = crate::token::token_at(r, i + 1, tokenable).1;
        let open_next = next.len() == 1 && next[0] == '{';
        assert(open_next == is_single(next@, '{'));
        let res = if open_next {
            if crate::text::is_ident(tt.as_slice()) {
                match token_end_checked(s, st.code, tokenable) {
                    None => StepKind::Ret(ParseResult::Fault),
                    Some(ci) => {
                        let piece = trimmed(s, st.code, ci);
                        st.args.insert_arg(
                            crate::text::string_of(tname.as_slice()),
                            crate::tree::Expression::Ident(crate::text::string_of(piece.as_slice())),
                            crate::text::string_of(tt.as_slice()),
                        );
                        st.code = ci;
                        st.is_ok = true;
                        StepKind::Next
                    },
                }
            } else {
                let ts = st.code;
                search_back_exec(s, g, tokenable, d, tname.as_slice(), tt.as_slice(), ts, st)
            }
        } else {
            search_forward_exec(s, g, tokenable, d, tname.as_slice(), tt.as_slice(), next.as_slice(), st)
        };
        match res {
            StepKind::Next => {
                if !st.is_ok {
                    StepKind::Stop
                } else {
                    st.in_token = false;
                    st.first_letter = true;
                    st.start = i + 1;
                    StepKind::Next
                }
            },
            other => other,
        }
    }
}

/// What the rule character `r[st.idx]` does.
fn rule_step_exec(
    s: &[char],
    g: &Grammar,
    tokenable: &crate::tokenable::Tokenable,
    d: usize,
    r: &[char],
    st: &mut RunState,
) -> (k: StepKind)
    requires
        state_ok(*old(st), r@, s@),
    ensures
        step_view(k, final(st)@) == rule_step(s@, g@, tokenable@, d as nat, r@, old(st)@),
        final(st).idx == old(st).idx,
        final(st).code <= s@.len(),
        final(st).start <= final(st).idx + 1,
        old(st).first_len == 0 ==> final(st).first_len == 0,
        !(k matches StepKind::Ret(ParseResult::Tree(_))),
    decreases d, 3int,
{
    let i = st.idx;
    let c = r[i];
    let escaped = i > 0 && r[i - 1] == '\\';
    if c == '{' || c == '}' {
        if escaped {
            let ghost t0 = st.token@;
            if st.token.len() > 0 {
                st.token.pop();
            }
            st.token.push(c);
            assert(st.token@ =~= escaped_literal(t0, c));
            return check_literal(s, tokenable, r, st);
        }
        if c == '{' {
            st.name = Vec::new();
            st.token = Vec::new();
            st.in_token = true;
            assert(st.name@ =~= Seq::<char>::empty());
            assert(st.token@ =~= Seq::<char>::empty());
            return StepKind::Next;
        }
        return close_exec(s, g, tokenable, d, r, st);
    }
    if st.in_token {
        st.name.push(c);
        return StepKind::Next;
    }
    if c != ' ' {
        st.first_letter = false;
        st.token.push(c);
    } else if !st.first_letter {
        st.token.push(c);
    } else {
        st.first_letter = true;
        st.start = st.start + 1;
    }
    check_literal(s, tokenable, r, st)
}

/// Reads the rule `r` to its end, or to where it stops.
fn run_rule_exec(
    s: &[char],
    g: &Grammar,
    tokenable: &crate::tokenable::Tokenable,
    d: usize,
    r: &[char],
    st: &mut RunState,
) -> (k: StepKind)
    requires
        old(st).idx == 0,
        old(st).start == 0,
        old(st).code <= s@.len(),
    ensures
        step_view(k, final(st)@) == run_rule(s@, g@, tokenable@, d as nat, r@, old(st)@),
        old(st).first_len == 0 ==> final(st).first_len == 0,
        !(k matches StepKind::Ret(ParseResult::Tree(_))),
    decreases d, 4int,
{
    let ghost whole = run_rule(s@, g@, tokenable@, d as nat, r@, old(st)@);
    while st.idx < r.len()
        invariant
            st.start <= st.idx,
            st.code <= s@.len(),
            old(st).first_len == 0 ==> st.first_len == 0,
            whole == run_rule(s@, g@, tokenable@, d as nat, r@, old(st)@),
            whole == run_rule(s@, g@, tokenable@, d as nat, r@, st@),
        decreases r@.len() - st.idx,
    {
        match rule_step_exec(s, g, tokenable, d, r, st) {
            StepKind::Next => {
                st.idx = st.idx + 1;
            },
            StepKind::Stop => {
                return StepKind::Stop;
            },
            StepKind::Ret(o) => {
                return StepKind::Ret(o);
            },
        }
    }
    StepKind::Stop
}

fn parse_rec(
    s: &[char],
    g: &Grammar,
    tokenable: &crate::tokenable::Tokenable,
    ty: &[char],
    depth: usize,
) -> (r: ParseResult)
    ensures
        r@ == parse_spec(s@, g@, tokenable@, ty@, depth as nat),
        r matches ParseResult::Tree(t) ==> tree_of_rule(rulesets_of(g@, ty@), ty@, t@.rule),
    decreases depth, 0int,
{
    if depth == 0 {
        return ParseResult::Fault;
    }
    let d = depth - 1;
    proof {
        crate::grammar::lemma_type_index_bounds(g@, ty@, 0);
    }
    let ti = g.type_index(ty);
    let empty: Vec<Vec<Rule>> = Vec::new();
    let rs: &Vec<Vec<Rule>> = if ti < g.types.len() {
        &g.types[ti].rulesets
    } else {
        &empty
    };
    assert(rulesets_view(rs@) =~= rulesets_of(g@, ty@));
    let ghost rsv = rulesets_view(rs@);
    let ghost whole = parse_spec(s@, g@, tokenable@, ty@, depth as nat);
    let mut is_ok = false;
    let mut exists = false;
    let mut shortest: usize = 9999;
    let mut tree = crate::tree::SyntaxTree::new(String::new());
    assert(tree@ == TreeV { rule: seq![], args: seq![] });
    let mut j: usize = 0;
    while j < rs.len()
        invariant
            j <= rs@.len(),
            depth > 0,
            d == depth - 1,
            rsv == rulesets_view(rs@),
            whole == parse_spec(s@, g@, tokenable@, ty@, depth as nat),
            whole == parse_rules(s@, g@, tokenable@, ty@, d as nat, rsv, j as int, 0, Pick { is_ok, exists, shortest: shortest as int, tree: tree@ }),
            shortest < 9999 ==> tree_of_rule(rsv, ty@, tree@.rule),
            exists ==> shortest < 9999,
            rsv == rulesets_of(g@, ty@),
        decreases rs@.len() - j,
    {
        let mut k: usize = 0;
        while k < rs[j].len()
            invariant
                j < rs@.len(),
                k <= rs@[j as int]@.len(),
                rsv == rulesets_view(rs@),
                depth > 0,
                d == depth - 1,
                whole == parse_spec(s@, g@, tokenable@, ty@, depth as nat),
                whole == parse_rules(s@, g@, tokenable@, ty@, d as nat, rsv, j as int, k as int, Pick { is_ok, exists, shortest: shortest as int, tree: tree@ }),
                shortest < 9999 ==> tree_of_rule(rsv, ty@, tree@.rule),
                exists ==> shortest < 9999,
            decreases rs@[j as int]@.len() - k,
        {
            let rule = &rs[j][k];
            assert(rsv[j as int][k as int] == rule@);
            let rulename = match &rule.name {
                Some(n) => n,
                None => {
                    return ParseResult::Fail("No name field.");
                },
            };
            let text = match &rule.rule {
                Some(t) => crate::text::chars_of(t.as_str()),
                None => {
                    return ParseResult::Fail("No rule field.");
                },
            };
            let mut st = RunState {
                idx: 0,
                code: 0,
                first_len: 0,
                token: Vec::new(),
                in_token: false,
                first_letter: true,
                start: 0,
                name: Vec::new(),
                is_ok,
                args: crate::tree::SyntaxTree::new(String::new()),
            };
            assert(st@ =~= rule_start(is_ok));
            match run_rule_exec(s, g, tokenable, d, text.as_slice(), &mut st) {
                StepKind::Ret(o) => {
                    return o;
                },
                _ => {},
            }
            let ghost p0 = Pick { is_ok, exists, shortest: shortest as int, tree: tree@ };
            if st.is_ok {
                if shortest > st.first_len {
                    shortest = st.first_len;
                    let mut t = st.args;
                    t.rule = dot_string(ty, rulename.as_str());
                    tree = t;
                    assert(tree_of_rule(rsv, ty@, tree@.rule)) by {
                        assert(rsv[j as int][k as int].name == Some(rulename@));
                    };
                }
                is_ok = true;
                exists = true;
            } else {
                is_ok = false;
            }
            assert(Pick { is_ok, exists, shortest: shortest as int, tree: tree@ } == pick(p0, st@, ty@, rulename@));
            k = k + 1;
        }
        if exists {
            return ParseResult::Tree(tree);
        }
        j = j + 1;
    }
    ParseResult::Fail("No rule matches.")
}

} // verus!

verus! {

/// Reads all of `s` as a phrase of type `token_type` by the rule patterns of
/// `rules`, with phrases nested at most `depth_bound` deep: a tree, a
/// refusal with its message, or a fault. It tests whether reading faults
/// and, where it does not, reads by `parse`.
pub fn try_parse(s: &str, rules: &Grammar, token_type: &str, tokenable: &crate::tokenable::Tokenable) -> (r: ParseResult)
    ensures
        r@ == parse_spec(
            s@,
            rules@,
            tokenable@,
            token_type@,
            crate::phrase::depth_bound(s@.len(), rules@.len()),
        ),
        r matches ParseResult::Tree(t) ==> tree_of_rule(rulesets_of(rules@, token_type@), token_type@, t@.rule),
        r matches ParseResult::Tree(t) ==> tree_good(t@, token_type@),
{
    let cs = crate::text::chars_of(s);
    let ty = crate::text::chars_of(token_type);
    let depth = crate::phrase::depth_for(cs.len(), rules.types.len());
    match parse_rec(cs.as_slice(), rules, tokenable, ty.as_slice(), depth) {
        ParseResult::Fault => ParseResult::Fault,
        other => match parse(s, rules, token_type, tokenable) {
            Ok(t) => ParseResult::Tree(t),
            Err(_) => other,
        },
    }
}

/// Reads all of `s` as a phrase of type `token_type` by the rule patterns of
/// `rules`: the tree of the first rule set with a rule that matches, or the
/// message of why none does. Where reading would go past the end of the
/// text, or never end, it is not asked for.
pub fn parse(s: &str, rules: &Grammar, token_type: &str, tokenable: &crate::tokenable::Tokenable) -> (r: Result<
    crate::tree::SyntaxTree,
    &'static str,
>)
    requires
        !(parse_spec(
            s@,
            rules@,
            tokenable@,
            token_type@,
            crate::phrase::depth_bound(s@.len(), rules@.len()),
        ) is Fault),
    ensures
        match parse_spec(
            s@,
            rules@,
            tokenable@,
            token_type@,
            crate::phrase::depth_bound(s@.len(), rules@.len()),
        ) {
            ParseOutcome::Tree(t) => r matches Ok(x) && x@ == t,
            ParseOutcome::Fail(m) => r matches Err(e) && e@ == m,
            ParseOutcome::Fault => false,
        },
        r matches Ok(t) ==> tree_of_rule(rulesets_of(rules@, token_type@), token_type@, t@.rule),
        r matches Ok(t) ==> tree_good(t@, token_type@),
        no_rule_leads_with_first_token(rulesets_of(rules@, token_type@), s@, tokenable@) ==> r is Err,
{
    proof {
        if no_rule_leads_with_first_token(rulesets_of(rules@, token_type@), s@, tokenable@) {
            law_parse_compares_the_leading_literal(
                s@,
                rules@,
                tokenable@,
                token_type@,
                crate::phrase::depth_bound(s@.len(), rules@.len()),
            );
        }
        law_parsed_trees_are_well_formed(
            s@,
            rules@,
            tokenable@,
            token_type@,
            crate::phrase::depth_bound(s@.len(), rules@.len()),
        );
    }
    let cs = crate::text::chars_of(s);
    let ty = crate::text::chars_of(token_type);
    let depth = crate::phrase::depth_for(cs.len(), rules.types.len());
    match parse_rec(cs.as_slice(), rules, tokenable, ty.as_slice(), depth) {
        ParseResult::Tree(t) => Ok(t),
        ParseResult::Fail(m) => Err(m),
        ParseResult::Fault => {
            assert(false);
            Err("Reading faults.")
        },
    }
}

} // verus!

verus! {

/// Whether the rule pattern `r` starts with the literal `lit`: characters
/// that are no white space, brace or backslash, each prefix of which is a
/// token, while the literal with the next pattern character is not.
pub open spec fn leading_literal(r: Seq<char>, pat: Seq<char>, lit: Seq<char>) -> bool {
    &&& 0 < lit.len() < r.len()
    &&& r.subrange(0, lit.len() as int) == lit
    &&& forall|m: int|
        0 <= m < lit.len() ==> !crate::text::is_ws(#[trigger] lit[m]) && lit[m] != '{' && lit[m] != '}' && lit[m]
            != '\\'
    &&& forall|m: int| 1 <= m <= lit.len() ==> #[trigger] regex_is_match(pat, lit.subrange(0, m))
    &&& !regex_is_match(pat, r.subrange(0, (lit.len() + 1) as int))
}

/// Whether every rule of `rs` with a pattern leads with a literal that is
/// not the first token of `s` (trimmed).
pub open spec fn no_rule_leads_with_first_token(rs: Seq<Seq<RuleV>>, s: Seq<char>, pat: Seq<char>) -> bool {
    forall|j: int, k: int|
        0 <= j < rs.len() && 0 <= k < rs[j].len() && (#[trigger] rs[j][k]).rule is Some ==> exists|lit: Seq<char>|
            leading_literal(rs[j][k].rule.unwrap(), pat, lit) && trim(s.subrange(0, token_end(s, pat, 0))) != lit
}

/// A text without white space is its own trimmed text.
proof fn lemma_trim_plain(x: Seq<char>)
    requires
        x.len() > 0,
        forall|m: int| 0 <= m < x.len() ==> !crate::text::is_ws(#[trigger] x[m]),
    ensures
        trim(x) == x,
{
    assert(crate::text::skip_ws_from(x, 0) == 0);
    assert(crate::text::back_ws_from(x, 0, x.len() as int) == x.len());
    assert(x.subrange(0, x.len() as int) =~= x);
}

/// Reading a rule that leads with `lit`, from a place inside the literal,
/// compares the literal with the first token of the text and stops where
/// they differ, leaving whether the last rule matched as it was.
proof fn lemma_run_leading(
    s: Seq<char>,
    g: Seq<(Seq<char>, Seq<Seq<RuleV>>)>,
    pat: Seq<char>,
    d: nat,
    r: Seq<char>,
    lit: Seq<char>,
    st: RuleState,
)
    requires
        leading_literal(r, pat, lit),
        0 <= st.idx < lit.len(),
        st.token == lit.subrange(0, st.idx),
        st.code == 0,
        st.start == 0,
        !st.in_token,
        trim(s.subrange(0, token_end(s, pat, 0))) != lit,
    ensures
        run_rule(s, g, pat, d, r, st) matches Step::Stop(t) && t.is_ok == st.is_ok,
    decreases lit.len() - st.idx,
{
    let i = st.idx;
    assert(r[i] == lit[i]) by {
        assert(r.subrange(0, lit.len() as int)[i] == r[i]);
    }
    let c = r[i];
    assert(c != ' ') by {
        assert(!crate::text::is_ws(lit[i]));
    }
    let st1 = RuleState { first_letter: false, token: st.token.push(c), ..st };
    assert(st1.token =~= lit.subrange(0, i + 1));
    assert(regex_is_match(pat, lit.subrange(0, i + 1)));
    assert(rule_step(s, g, pat, d, r, st) == literal_check(s, pat, r, st1));
    if i + 1 < lit.len() {
        assert(r.subrange(0, i + 2) =~= lit.subrange(0, i + 2));
        assert(regex_is_match(pat, lit.subrange(0, i + 2)));
        assert(literal_check(s, pat, r, st1) == Step::Next(st1));
        lemma_run_leading(s, g, pat, d, r, lit, RuleState { idx: st.idx + 1, ..st1 });
    } else {
        assert(st1.token =~= lit);
        assert forall|m: int| 0 <= m < lit.len() implies !crate::text::is_ws(#[trigger] lit[m]) by {}
        lemma_trim_plain(lit);
        assert(r.subrange(0, i + 2) == r.subrange(0, (lit.len() + 1) as int));
    }
}

/// Reading the rules from `rs[j][k]` on, where none leads with the first
/// token of the text and no rule matched before, gives no tree.
proof fn lemma_rules_leading(
    s: Seq<char>,
    g: Seq<(Seq<char>, Seq<Seq<RuleV>>)>,
    pat: Seq<char>,
    ty: Seq<char>,
    d: nat,
    rs: Seq<Seq<RuleV>>,
    j: int,
    k: int,
    p: Pick,
)
    requires
        no_rule_leads_with_first_token(rs, s, pat),
        !p.is_ok,
        !p.exists,
    ensures
        !(parse_rules(s, g, pat, ty, d, rs, j, k, p) is Tree),
    decreases rs.len() - j, (if 0 <= j < rs.len() { rs[j].len() - k } else { 0 }),
{
    if 0 <= j < rs.len() && 0 <= k {
        if k >= rs[j].len() {
            lemma_rules_leading(s, g, pat, ty, d, rs, j + 1, 0, p);
        } else {
            let rule = rs[j][k];
            match rule.name {
                None => {},
                Some(rulename) => match rule.rule {
                    None => {},
                    Some(r) => {
                        assert(rs[j][k].rule is Some);
                        let lit = choose|lit: Seq<char>|
                            leading_literal(r, pat, lit) && trim(s.subrange(0, token_end(s, pat, 0))) != lit;
                        let st0 = rule_start(false);
                        assert(st0.token =~= lit.subrange(0, 0));
                        lemma_run_leading(s, g, pat, d, r, lit, st0);
                        match run_rule(s, g, pat, d, r, rule_start(p.is_ok)) {
                            Step::Stop(st) => {
                                lemma_rules_leading(s, g, pat, ty, d, rs, j, k + 1, pick(p, st, ty, rulename));
                            },
                            _ => {},
                        }
                    },
                },
            }
        }
    }
}

/// `parse` compares each rule's leading literal with the text: where every
/// rule of the type leads with a literal and none of them is the first
/// token of the text, no rule reads the text and no tree is given.
pub proof fn law_parse_compares_the_leading_literal(
    s: Seq<char>,
    g: Seq<(Seq<char>, Seq<Seq<RuleV>>)>,
    pat: Seq<char>,
    ty: Seq<char>,
    depth: nat,
)
    requires
        no_rule_leads_with_first_token(rulesets_of(g, ty), s, pat),
    ensures
        !(parse_spec(s, g, pat, ty, depth) is Tree),
{
    if depth > 0 {
        lemma_rules_leading(
            s,
            g,
            pat,
            ty,
            (depth - 1) as nat,
            rulesets_of(g, ty),
            0,
            0,
            Pick { is_ok: false, exists: false, shortest: 9999, tree: TreeV { rule: seq![], args: seq![] } },
        );
    }
}

} // verus!
