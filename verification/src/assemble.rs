//! Rendering a syntax tree in a target language: each phrase is rendered by
//! the template of the rule of the same name, with the renderings of its
//! placeholders as data.

use vstd::prelude::*;
use crate::grammar::{Grammar, RuleV, Rule, rulesets_of, rulesets_view};
use crate::render::{Compile, Renderer, LineFeeds, RenderData, rendered, entries_map, may_include, ranked_from, no_partial_cycle, has_include_tag, include_tag_in};
use crate::tree::{SyntaxTree, Expression, TreeV, ExprV};

verus! {

/// `a-b`.
pub open spec fn dash_join(a: Seq<char>, b: Seq<char>) -> Seq<char> {
    a + seq!['-'] + b
}

/// How the compile of `src` under `tid` goes by the history `oks` of the
/// compiles still to come: `Some(ok)` where the history goes on with that
/// compile, of outcome `ok`, or has nothing left (then it compiles);
/// `None` where it goes on with another compile.
pub open spec fn next_compile(oks: Seq<Compile>, tid: Seq<char>, src: Seq<char>) -> Option<bool> {
    if oks.len() == 0 {
        Some(true)
    } else if oks[0].0 == tid && oks[0].1 == src {
        Some(oks[0].2)
    } else {
        None
    }
}

/// The history left after the next compile.
pub open spec fn after_ok(oks: Seq<Compile>) -> Seq<Compile> {
    if oks.len() == 0 {
        oks
    } else {
        oks.drop_first()
    }
}

/// Registers, from `rs[j][k]` on, the template of every rule named `name`
/// under `tid`, with its line-feed flag (recorded before the template is
/// handed over); each compile takes its outcome from the history `oks`,
/// and one that fails ends the registering with the template error, the
/// renderer as it was. Stops at the first rule without a template. Gives
/// the outcome, the templates and flags after it, and the history left: a
/// history that goes on with another compile is left as it is, so that no
/// whole run of compiles ends there with nothing left.
pub open spec fn register_rules(
    rs: Seq<Seq<RuleV>>,
    j: int,
    k: int,
    name: Seq<char>,
    tid: Seq<char>,
    reg: Map<Seq<char>, Seq<char>>,
    lf: Map<Seq<char>, bool>,
    oks: Seq<Compile>,
) -> (Result<(), Seq<char>>, Map<Seq<char>, Seq<char>>, Map<Seq<char>, bool>, Seq<Compile>)
    decreases rs.len() - j, (if 0 <= j < rs.len() { rs[j].len() - k } else { 0 }),
{
    if j < 0 || j >= rs.len() || k < 0 {
        (Ok(()), reg, lf, oks)
    } else if k >= rs[j].len() {
        register_rules(rs, j + 1, 0, name, tid, reg, lf, oks)
    } else {
        let rule = rs[j][k];
        if rule.name == Some(name) {
            match rule.rule {
                Some(tpl) => {
                    let lf2 = lf.insert(tid, rule.lf);
                    match next_compile(oks, tid, tpl) {
                        Some(true) => register_rules(rs, j, k + 1, name, tid, reg.insert(tid, tpl), lf2, after_ok(oks)),
                        Some(false) => (Err(template_error()), reg, lf2, after_ok(oks)),
                        None => (Err(template_error()), reg, lf2, oks),
                    }
                },
                None => (Err("No `rule` in object."@), reg, lf, oks),
            }
        } else {
            register_rules(rs, j, k + 1, name, tid, reg, lf, oks)
        }
    }
}

/// Renders the tree `t` as a phrase of type `rt` of the target grammar
/// `lang`, registering the templates it needs, each compile taking its
/// outcome from the history `oks` in order; gives the outcome, the
/// templates and flags after it, and the history left. With `oks` empty,
/// every compile succeeds.
pub open spec fn assemble_spec(
    t: TreeV,
    lang: Seq<(Seq<char>, Seq<Seq<RuleV>>)>,
    rt: Seq<char>,
    reg: Map<Seq<char>, Seq<char>>,
    lf: Map<Seq<char>, bool>,
    oks: Seq<Compile>,
) -> (Result<Seq<char>, Seq<char>>, Map<Seq<char>, Seq<char>>, Map<Seq<char>, bool>, Seq<Compile>)
    decreases t, 0int,
{
    let tid = dash_join(t.rule, rt);
    let (o1, reg1, lf1, oks1) = if !reg.contains_key(tid) {
        register_rules(rulesets_of(lang, rt), 0, 0, t.rule, tid, reg, lf, oks)
    } else {
        (Ok(()), reg, lf, oks)
    };
    match o1 {
        Err(e) => (Err(e), reg1, lf1, oks1),
        Ok(()) => render_phrase(tid, assemble_args(t.args, 0, lang, reg1, lf1, seq![], oks1)),
    }
}

/// Renders the template `tid` with the data that rendering the placeholders
/// gave (`r`), a line feed after it where the template's flag asks for one;
/// an error of the placeholders passes up unchanged.
pub open spec fn render_phrase(
    tid: Seq<char>,
    r: (Result<Seq<(Seq<char>, Seq<char>)>, Seq<char>>, Map<Seq<char>, Seq<char>>, Map<Seq<char>, bool>, Seq<Compile>),
) -> (Result<Seq<char>, Seq<char>>, Map<Seq<char>, Seq<char>>, Map<Seq<char>, bool>, Seq<Compile>) {
    let (o2, reg2, lf2, oks2) = r;
    match o2 {
        Err(e) => (Err(e), reg2, lf2, oks2),
        Ok(data) => match rendered(reg2, tid, entries_map(data)) {
            Some(out) => (
                Ok(
                    if lf2[tid] {
                        out + seq!['\n']
                    } else {
                        out
                    },
                ),
                reg2,
                lf2,
                oks2,
            ),
            None => (Err("Render Error!"@), reg2, lf2, oks2),
        },
    }
}

/// Renders the placeholders `args[i..]` after `data`: a phrase by its
/// rendering, a name as it is, each under the key `name-type`.
pub open spec fn assemble_args(
    args: Seq<(Seq<char>, (ExprV, Seq<char>))>,
    i: int,
    lang: Seq<(Seq<char>, Seq<Seq<RuleV>>)>,
    reg: Map<Seq<char>, Seq<char>>,
    lf: Map<Seq<char>, bool>,
    data: Seq<(Seq<char>, Seq<char>)>,
    oks: Seq<Compile>,
) -> (Result<Seq<(Seq<char>, Seq<char>)>, Seq<char>>, Map<Seq<char>, Seq<char>>, Map<Seq<char>, bool>, Seq<Compile>)
    decreases args, args.len() - i,
{
    if i < 0 || i >= args.len() {
        (Ok(data), reg, lf, oks)
    } else {
        let key = dash_join(args[i].0, args[i].1.1);
        match args[i].1.0 {
            ExprV::Exp(e) => {
                let (o, reg2, lf2, oks2) = assemble_spec(e, lang, args[i].1.1, reg, lf, oks);
                match o {
                    Err(x) => (Err(x), reg2, lf2, oks2),
                    Ok(text) => assemble_args(args, i + 1, lang, reg2, lf2, data.push((key, text)), oks2),
                }
            },
            ExprV::Ident(x) => assemble_args(args, i + 1, lang, reg, lf, data.push((key, x)), oks),
        }
    }
}

/// The view of a result with a text.
pub open spec fn text_result(r: Result<String, &'static str>) -> Result<Seq<char>, Seq<char>> {
    match r {
        Ok(s) => Ok(s@),
        Err(m) => Err(m@),
    }
}

/// The view of a result without a value.
pub open spec fn unit_result(r: Result<(), &'static str>) -> Result<(), Seq<char>> {
    match r {
        Ok(()) => Ok(()),
        Err(m) => Err(m@),
    }
}

/// The message given where handlebars does not compile a template.
pub open spec fn template_error() -> Seq<char> {
    "Render template Error!"@
}

/// Whether `src` is the template of a rule of `lang` that is registered
/// under `id`: a rule named `n` of a type `rt`, with `id` being `n-rt`.
pub open spec fn rule_template(lang: Seq<(Seq<char>, Seq<Seq<RuleV>>)>, id: Seq<char>, src: Seq<char>) -> bool {
    exists|rt: Seq<char>, j: int, k: int|
        0 <= j < rulesets_of(lang, rt).len() && 0 <= k < rulesets_of(lang, rt)[j].len()
            && #[trigger] rulesets_of(lang, rt)[j][k].rule == Some(src) && rulesets_of(lang, rt)[j][k].name is Some
            && id == dash_join(rulesets_of(lang, rt)[j][k].name.unwrap(), rt)
}

/// Whether rendering the phrases whose template ids are `ids` in `lang`,
/// starting from the templates `reg`, may hold `src` under `id`: `reg` holds
/// it, or `id` is one of `ids` that `reg` does not hold and `src` is the
/// template of a rule registered under `id`.
pub open spec fn may_hold(
    lang: Seq<(Seq<char>, Seq<Seq<RuleV>>)>,
    ids: Set<Seq<char>>,
    reg: Map<Seq<char>, Seq<char>>,
    id: Seq<char>,
    src: Seq<char>,
) -> bool {
    (reg.contains_key(id) && reg[id] == src) || (!reg.contains_key(id) && ids.contains(id) && rule_template(
        lang,
        id,
        src,
    ))
}

/// Whether every template that rendering the phrases with ids `ids` in
/// `lang` from `reg` may hold under a name of `reach` includes, as far as
/// `may_include` tells, only names of `reach` ranked lower by `rank`.
pub open spec fn sources_ranked(
    lang: Seq<(Seq<char>, Seq<Seq<RuleV>>)>,
    ids: Set<Seq<char>>,
    reg: Map<Seq<char>, Seq<char>>,
    reach: Set<Seq<char>>,
    rank: spec_fn(Seq<char>) -> nat,
) -> bool {
    forall|a: Seq<char>, sa: Seq<char>, b: Seq<char>|
        #![trigger may_hold(lang, ids, reg, a, sa), may_include(sa, b)]
        reach.contains(a) && may_hold(lang, ids, reg, a, sa) && may_include(sa, b) ==> reach.contains(b) && rank(b)
            < rank(a)
}

/// Whether rendering the phrases of `t` (of type `rt`) in `lang` from `reg`
/// cannot get, through partials, to a template that includes itself.
pub open spec fn acyclic_sources(
    lang: Seq<(Seq<char>, Seq<Seq<RuleV>>)>,
    reg: Map<Seq<char>, Seq<char>>,
    t: TreeV,
    rt: Seq<char>,
) -> bool {
    exists|reach: Set<Seq<char>>, rank: spec_fn(Seq<char>) -> nat|
        ids_of(t, rt).subset_of(reach) && #[trigger] sources_ranked(lang, ids_of(t, rt), reg, reach, rank)
}

/// Whether every template of `reg1` may be held when rendering the phrases
/// with ids `ids` in `lang` from `reg0`.
pub open spec fn held_from(
    lang: Seq<(Seq<char>, Seq<Seq<RuleV>>)>,
    ids: Set<Seq<char>>,
    reg0: Map<Seq<char>, Seq<char>>,
    reg1: Map<Seq<char>, Seq<char>>,
) -> bool {
    forall|id: Seq<char>| #[trigger] reg1.contains_key(id) ==> may_hold(lang, ids, reg0, id, reg1[id])
}

/// Whether `(reg1, lf1)` keeps every template of `reg0` and every flag of
/// `lf0`, and has a flag for each template it adds.
pub open spec fn grows(
    reg0: Map<Seq<char>, Seq<char>>,
    lf0: Map<Seq<char>, bool>,
    reg1: Map<Seq<char>, Seq<char>>,
    lf1: Map<Seq<char>, bool>,
) -> bool {
    &&& reg0.submap_of(reg1)
    &&& lf0.dom().subset_of(lf1.dom())
    &&& forall|id: Seq<char>| #[trigger] reg1.contains_key(id) && !reg0.contains_key(id) ==> lf1.contains_key(id)
}

/// Whether every phrase of `t` (of type `rt`) whose template is held in
/// `reg` has its line-feed flag in `lf`.
pub open spec fn flags_cover(t: TreeV, rt: Seq<char>, reg: Map<Seq<char>, Seq<char>>, lf: Map<Seq<char>, bool>) -> bool
    decreases t, 0int,
{
    &&& reg.contains_key(dash_join(t.rule, rt)) ==> lf.contains_key(dash_join(t.rule, rt))
    &&& args_flags_cover(t.args, 0, reg, lf)
}

/// `flags_cover` for the phrases among `args[i..]`.
pub open spec fn args_flags_cover(
    args: Seq<(Seq<char>, (ExprV, Seq<char>))>,
    i: int,
    reg: Map<Seq<char>, Seq<char>>,
    lf: Map<Seq<char>, bool>,
) -> bool
    decreases args, args.len() - i,
{
    if i < 0 || i >= args.len() {
        true
    } else {
        (match args[i].1.0 {
            ExprV::Exp(e) => flags_cover(e, args[i].1.1, reg, lf),
            ExprV::Ident(_) => true,
        }) && args_flags_cover(args, i + 1, reg, lf)
    }
}

/// The template ids of the phrases of `t` (of type `rt`): `rule-type` for
/// each.
pub open spec fn ids_of(t: TreeV, rt: Seq<char>) -> Set<Seq<char>>
    decreases t, 0int,
{
    set![dash_join(t.rule, rt)] + args_ids(t.args, 0)
}

/// `ids_of` for the phrases among `args[i..]`.
pub open spec fn args_ids(args: Seq<(Seq<char>, (ExprV, Seq<char>))>, i: int) -> Set<Seq<char>>
    decreases args, args.len() - i,
{
    if i < 0 || i >= args.len() {
        Set::empty()
    } else {
        (match args[i].1.0 {
            ExprV::Exp(e) => ids_of(e, args[i].1.1),
            ExprV::Ident(_) => Set::empty(),
        }) + args_ids(args, i + 1)
    }
}

/// The ids of the phrase at `args[j]`, for `j` from `i` on, are among those
/// of `args[i..]`.
pub proof fn lemma_args_ids_at(args: Seq<(Seq<char>, (ExprV, Seq<char>))>, i: int, j: int, id: Seq<char>)
    requires
        0 <= i <= j < args.len(),
        args[j].1.0 matches ExprV::Exp(e) && ids_of(e, args[j].1.1).contains(id),
    ensures
        args_ids(args, i).contains(id),
    decreases j - i,
{
    if i < j {
        lemma_args_ids_at(args, i + 1, j, id);
    }
}

/// Whether the template of every phrase of `t` (of type `rt`) is held in
/// `reg`.
pub open spec fn all_held(t: TreeV, rt: Seq<char>, reg: Map<Seq<char>, Seq<char>>) -> bool
    decreases t, 0int,
{
    reg.contains_key(dash_join(t.rule, rt)) && args_all_held(t.args, 0, reg)
}

/// `all_held` for the phrases among `args[i..]`.
pub open spec fn args_all_held(args: Seq<(Seq<char>, (ExprV, Seq<char>))>, i: int, reg: Map<Seq<char>, Seq<char>>) -> bool
    decreases args, args.len() - i,
{
    if i < 0 || i >= args.len() {
        true
    } else {
        (match args[i].1.0 {
            ExprV::Exp(e) => all_held(e, args[i].1.1, reg),
            ExprV::Ident(_) => true,
        }) && args_all_held(args, i + 1, reg)
    }
}

/// Templates held stay held where more are held.
pub proof fn lemma_all_held_grows(t: TreeV, rt: Seq<char>, r0: Map<Seq<char>, Seq<char>>, r1: Map<Seq<char>, Seq<char>>)
    requires
        all_held(t, rt, r0),
        r0.submap_of(r1),
    ensures
        all_held(t, rt, r1),
    decreases t, 0int,
{
    lemma_args_all_held_grows(t.args, 0, r0, r1);
}

/// `lemma_all_held_grows` for the phrases among `args[i..]`.
pub proof fn lemma_args_all_held_grows(
    args: Seq<(Seq<char>, (ExprV, Seq<char>))>,
    i: int,
    r0: Map<Seq<char>, Seq<char>>,
    r1: Map<Seq<char>, Seq<char>>,
)
    requires
        args_all_held(args, i, r0),
        r0.submap_of(r1),
    ensures
        args_all_held(args, i, r1),
    decreases args, args.len() - i,
{
    if 0 <= i < args.len() {
        match args[i].1.0 {
            ExprV::Exp(e) => lemma_all_held_grows(e, args[i].1.1, r0, r1),
            ExprV::Ident(_) => {},
        }
        lemma_args_all_held_grows(args, i + 1, r0, r1);
    }
}

/// The phrase at `args[j]`, for `j` from `i` on, has its flags covered
/// where all of `args[i..]` do.
pub proof fn lemma_args_flags_cover_at(
    args: Seq<(Seq<char>, (ExprV, Seq<char>))>,
    i: int,
    j: int,
    reg: Map<Seq<char>, Seq<char>>,
    lf: Map<Seq<char>, bool>,
)
    requires
        0 <= i <= j < args.len(),
        args_flags_cover(args, i, reg, lf),
    ensures
        args[j].1.0 matches ExprV::Exp(e) ==> flags_cover(e, args[j].1.1, reg, lf),
    decreases j - i,
{
    if i < j {
        lemma_args_flags_cover_at(args, i + 1, j, reg, lf);
    }
}

/// The phrases among `args[i..]` have all their templates held where each
/// of them has.
pub proof fn lemma_args_all_held_from(
    args: Seq<(Seq<char>, (ExprV, Seq<char>))>,
    i: int,
    reg: Map<Seq<char>, Seq<char>>,
)
    requires
        0 <= i,
        forall|j: int| i <= j < args.len() ==> ((#[trigger] args[j]).1.0 matches ExprV::Exp(e) ==> all_held(e, args[j].1.1, reg)),
    ensures
        args_all_held(args, i, reg),
    decreases args.len() - i,
{
    if i < args.len() {
        lemma_args_all_held_from(args, i + 1, reg);
    }
}

/// Holding only templates that may be held from `r0` is kept along.
pub proof fn lemma_held_trans(
    lang: Seq<(Seq<char>, Seq<Seq<RuleV>>)>,
    ids: Set<Seq<char>>,
    r0: Map<Seq<char>, Seq<char>>,
    r1: Map<Seq<char>, Seq<char>>,
    r2: Map<Seq<char>, Seq<char>>,
)
    requires
        held_from(lang, ids, r0, r1),
        held_from(lang, ids, r1, r2),
        r0.submap_of(r1),
    ensures
        held_from(lang, ids, r0, r2),
{
    assert forall|id: Seq<char>| #[trigger] r2.contains_key(id) implies may_hold(lang, ids, r0, id, r2[id]) by {
        assert(may_hold(lang, ids, r1, id, r2[id]));
        if r1.contains_key(id) && r1[id] == r2[id] {
            assert(may_hold(lang, ids, r0, id, r1[id]));
        } else {
            assert(!r0.contains_key(id));
        }
    }
}

/// What may be held for fewer ids may be held for more.
pub proof fn lemma_held_more_ids(
    lang: Seq<(Seq<char>, Seq<Seq<RuleV>>)>,
    small: Set<Seq<char>>,
    big: Set<Seq<char>>,
    r0: Map<Seq<char>, Seq<char>>,
    r1: Map<Seq<char>, Seq<char>>,
)
    requires
        held_from(lang, small, r0, r1),
        small.subset_of(big),
    ensures
        held_from(lang, big, r0, r1),
{
    assert forall|id: Seq<char>| #[trigger] r1.contains_key(id) implies may_hold(lang, big, r0, id, r1[id]) by {
        assert(may_hold(lang, small, r0, id, r1[id]));
    }
}

/// An order of what may be held for more ids orders what may be held for
/// fewer.
pub proof fn lemma_ranked_fewer_ids(
    lang: Seq<(Seq<char>, Seq<Seq<RuleV>>)>,
    small: Set<Seq<char>>,
    big: Set<Seq<char>>,
    reg: Map<Seq<char>, Seq<char>>,
    reach: Set<Seq<char>>,
    rank: spec_fn(Seq<char>) -> nat,
)
    requires
        sources_ranked(lang, big, reg, reach, rank),
        small.subset_of(big),
    ensures
        sources_ranked(lang, small, reg, reach, rank),
{
    assert forall|a: Seq<char>, sa: Seq<char>, b: Seq<char>|
        #![trigger may_hold(lang, small, reg, a, sa), may_include(sa, b)]
        reach.contains(a) && may_hold(lang, small, reg, a, sa) && may_include(sa, b) implies reach.contains(b)
            && rank(b) < rank(a) by {
        assert(may_hold(lang, big, reg, a, sa));
    }
}

/// An order of the templates that may be held from `r0` orders those that
/// may be held from `r1`, and those `r1` holds.
pub proof fn lemma_ranked_from(
    lang: Seq<(Seq<char>, Seq<Seq<RuleV>>)>,
    ids: Set<Seq<char>>,
    r0: Map<Seq<char>, Seq<char>>,
    r1: Map<Seq<char>, Seq<char>>,
    reach: Set<Seq<char>>,
    rank: spec_fn(Seq<char>) -> nat,
)
    requires
        held_from(lang, ids, r0, r1),
        r0.submap_of(r1),
        sources_ranked(lang, ids, r0, reach, rank),
    ensures
        sources_ranked(lang, ids, r1, reach, rank),
        ranked_from(r1, reach, rank),
{
    assert forall|a: Seq<char>, sa: Seq<char>, b: Seq<char>|
        #![trigger may_hold(lang, ids, r1, a, sa), may_include(sa, b)]
        reach.contains(a) && may_hold(lang, ids, r1, a, sa) && may_include(sa, b) implies reach.contains(b) && rank(b)
            < rank(a) by {
        if r1.contains_key(a) && r1[a] == sa {
            assert(r1.contains_key(a));
            assert(may_hold(lang, ids, r0, a, r1[a]));
        } else {
            assert(!r0.contains_key(a));
        }
        assert(may_hold(lang, ids, r0, a, sa));
    }
    assert forall|a: Seq<char>, b: Seq<char>|
        reach.contains(a) && r1.contains_key(a) && r1.contains_key(b) && #[trigger] may_include(r1[a], b) implies reach.contains(
            b,
        ) && rank(b) < rank(a) by {
        assert(may_hold(lang, ids, r0, a, r1[a]));
    }
}

/// Growing is kept along.
pub proof fn lemma_grows_trans(
    r0: Map<Seq<char>, Seq<char>>,
    l0: Map<Seq<char>, bool>,
    r1: Map<Seq<char>, Seq<char>>,
    l1: Map<Seq<char>, bool>,
    r2: Map<Seq<char>, Seq<char>>,
    l2: Map<Seq<char>, bool>,
)
    requires
        grows(r0, l0, r1, l1),
        grows(r1, l1, r2, l2),
    ensures
        grows(r0, l0, r2, l2),
{
    assert forall|id: Seq<char>| #[trigger] r2.contains_key(id) && !r0.contains_key(id) implies l2.contains_key(id) by {
        if r1.contains_key(id) {
            assert(l1.contains_key(id));
        }
    }
    vstd::map_lib::lemma_submap_of_trans(r0, r1, r2);
    assert(l0.dom().subset_of(l2.dom()));
}

/// Flags that cover a tree still cover it after growing.
pub proof fn lemma_flags_cover_grows(
    t: TreeV,
    rt: Seq<char>,
    r0: Map<Seq<char>, Seq<char>>,
    l0: Map<Seq<char>, bool>,
    r1: Map<Seq<char>, Seq<char>>,
    l1: Map<Seq<char>, bool>,
)
    requires
        flags_cover(t, rt, r0, l0),
        grows(r0, l0, r1, l1),
    ensures
        flags_cover(t, rt, r1, l1),
    decreases t, 0int,
{
    let id = dash_join(t.rule, rt);
    if r1.contains_key(id) && !r0.contains_key(id) {
        assert(l1.contains_key(id));
    }
    lemma_args_flags_cover_grows(t.args, 0, r0, l0, r1, l1);
}

/// Flags that cover the phrases among `args[i..]` still cover them after
/// growing.
pub proof fn lemma_args_flags_cover_grows(
    args: Seq<(Seq<char>, (ExprV, Seq<char>))>,
    i: int,
    r0: Map<Seq<char>, Seq<char>>,
    l0: Map<Seq<char>, bool>,
    r1: Map<Seq<char>, Seq<char>>,
    l1: Map<Seq<char>, bool>,
)
    requires
        args_flags_cover(args, i, r0, l0),
        grows(r0, l0, r1, l1),
    ensures
        args_flags_cover(args, i, r1, l1),
    decreases args, args.len() - i,
{
    if 0 <= i < args.len() {
        match args[i].1.0 {
            ExprV::Exp(e) => lemma_flags_cover_grows(e, args[i].1.1, r0, l0, r1, l1),
            ExprV::Ident(_) => {},
        }
        lemma_args_flags_cover_grows(args, i + 1, r0, l0, r1, l1);
    }
}

} // verus!

verus! {

/// The text `a-b`.
fn join_dash(a: &str, b: &str) -> (r: String)
    ensures
        r@ == dash_join(a@, b@),
{
    let mut v = crate::text::chars_of(a);
    v.push('-');
    let w = crate::text::chars_of(b);
    let mut i: usize = 0;
    let ghost v0 = v@;
    while i < w.len()
        invariant
            i <= w@.len(),
            v@ == v0 + w@.subrange(0, i as int),
        decreases w@.len() - i,
    {
        v.push(w[i]);
        i = i + 1;
        assert(v@ =~= v0 + w@.subrange(0, i as int));
    }
    assert(w@.subrange(0, w@.len() as int) =~= w@);
    assert(v@ =~= dash_join(a@, b@));
    crate::text::string_of(v.as_slice())
}

/// Whether the rule is named `name`.
fn named(rule: &Rule, name: &[char]) -> (b: bool)
    ensures
        b == (rule@.name == Some(name@)),
{
    match &rule.name {
        Some(n) => {
            let c = crate::text::chars_of(n.as_str());
            crate::text::chars_eq(c.as_slice(), name)
        },
        None => false,
    }
}

/// Registers under `tid` the template of every rule of `rs` named `name`,
/// with its line-feed flag; gives the compiles it asked handlebars for,
/// with their outcomes, with which the registering is `register_rules`.
fn register_named(
    rs: &Vec<Vec<Rule>>,
    name: &str,
    tid: &str,
    renderer: &mut Renderer,
    lf_reg: &mut LineFeeds,
) -> (res: (Result<(), &'static str>, Ghost<Seq<Compile>>))
    requires
        !old(renderer)@.contains_key(tid@),
    ensures
        forall|rest: Seq<Compile>|
            #[trigger] register_rules(rulesets_view(rs@), 0, 0, name@, tid@, old(renderer)@, old(lf_reg)@, res.1@ + rest)
                == (unit_result(res.0), final(renderer)@, final(lf_reg)@, rest),
        final(renderer).compiles() == old(renderer).compiles() + res.1@,
        grows(old(renderer)@, old(lf_reg)@, final(renderer)@, final(lf_reg)@),
        forall|id: Seq<char>| #[trigger] final(renderer)@.contains_key(id) ==> (old(renderer)@.contains_key(id)
            && final(renderer)@[id] == old(renderer)@[id]) || (id == tid@ && exists|j: int, k: int|
            0 <= j < rulesets_view(rs@).len() && 0 <= k < rulesets_view(rs@)[j].len()
                && #[trigger] rulesets_view(rs@)[j][k].rule == Some(final(renderer)@[id])
                && rulesets_view(rs@)[j][k].name == Some(name@)),
{
    let ghost rsv = rulesets_view(rs@);
    let ghost reg0 = renderer@;
    let ghost lf0 = lf_reg@;
    let ghost c0 = renderer.compiles();
    let ghost mut obs: Seq<Compile> = seq![];
    let nm = crate::text::chars_of(name);
    let mut j: usize = 0;
    assert forall|rest: Seq<Compile>| #[trigger] register_rules(rsv, 0, 0, name@, tid@, reg0, lf0, obs + rest)
        == register_rules(rsv, 0, 0, name@, tid@, renderer@, lf_reg@, rest) by {
        assert(obs + rest =~= rest);
    }
    assert(renderer.compiles() =~= c0 + obs);
    while j < rs.len()
        invariant
            j <= rs@.len(),
            rsv == rulesets_view(rs@),
            nm@ == name@,
            reg0 == old(renderer)@,
            lf0 == old(lf_reg)@,
            renderer.compiles() == c0 + obs,
                c0 == old(renderer).compiles(),
            grows(reg0, lf0, renderer@, lf_reg@),
            !reg0.contains_key(tid@),
            forall|id: Seq<char>| #[trigger] renderer@.contains_key(id) ==> (reg0.contains_key(id)
                && renderer@[id] == reg0[id]) || (id == tid@ && exists|j2: int, k2: int|
                0 <= j2 < rsv.len() && 0 <= k2 < rsv[j2].len() && #[trigger] rsv[j2][k2].rule == Some(renderer@[id])
                    && rsv[j2][k2].name == Some(name@)),
            forall|rest: Seq<Compile>| #[trigger] register_rules(rsv, 0, 0, name@, tid@, reg0, lf0, obs + rest)
                == register_rules(rsv, j as int, 0, name@, tid@, renderer@, lf_reg@, rest),
        decreases rs@.len() - j,
    {
        let mut k: usize = 0;
        while k < rs[j].len()
            invariant
                j < rs@.len(),
                k <= rs@[j as int]@.len(),
                rsv == rulesets_view(rs@),
                nm@ == name@,
                reg0 == old(renderer)@,
                lf0 == old(lf_reg)@,
                renderer.compiles() == c0 + obs,
                c0 == old(renderer).compiles(),
                grows(reg0, lf0, renderer@, lf_reg@),
                !reg0.contains_key(tid@),
                forall|id: Seq<char>| #[trigger] renderer@.contains_key(id) ==> (reg0.contains_key(id)
                    && renderer@[id] == reg0[id]) || (id == tid@ && exists|j2: int, k2: int|
                    0 <= j2 < rsv.len() && 0 <= k2 < rsv[j2].len() && #[trigger] rsv[j2][k2].rule == Some(renderer@[id])
                        && rsv[j2][k2].name == Some(name@)),
                forall|rest: Seq<Compile>| #[trigger] register_rules(rsv, 0, 0, name@, tid@, reg0, lf0, obs + rest)
                    == register_rules(rsv, j as int, k as int, name@, tid@, renderer@, lf_reg@, rest),
            decreases rs@[j as int]@.len() - k,
        {
            let rule = &rs[j][k];
            assert(rsv[j as int][k as int] == rule@);
            if named(rule, nm.as_slice()) {
                match &rule.rule {
                    Some(tpl) => {
                        let ghost reg1 = renderer@;
                        let ghost lf1 = lf_reg@;
                        let ghost obs0 = obs;
                        lf_reg.insert(crate::text::string_of(crate::text::chars_of(tid).as_slice()), rule.lf);
                        let ok = renderer.register_template_string(tid, tpl.as_str());
                        proof {
                            obs = obs0.push((tid@, tpl@, ok));
                            assert(renderer.compiles() =~= c0 + obs);
                            assert forall|rest: Seq<Compile>| #[trigger] register_rules(rsv, 0, 0, name@, tid@, reg0, lf0, obs + rest)
                                == (if ok {
                                    register_rules(rsv, j as int, k + 1, name@, tid@, renderer@, lf_reg@, rest)
                                } else {
                                    (Err(template_error()), renderer@, lf_reg@, rest)
                                }) by {
                                assert(obs + rest =~= obs0 + (seq![(tid@, tpl@, ok)] + rest));
                                assert(next_compile(seq![(tid@, tpl@, ok)] + rest, tid@, tpl@) == Some(ok));
                                assert(after_ok(seq![(tid@, tpl@, ok)] + rest) =~= rest);
                            }
                        }
                        if !ok {
                            return (Err("Render template Error!"), Ghost(obs));
                        }
                        assert forall|id: Seq<char>| #[trigger] renderer@.contains_key(id) implies (reg0.contains_key(id)
                            && renderer@[id] == reg0[id]) || (id == tid@ && exists|j2: int, k2: int|
                            0 <= j2 < rsv.len() && 0 <= k2 < rsv[j2].len() && #[trigger] rsv[j2][k2].rule == Some(renderer@[id])
                                && rsv[j2][k2].name == Some(name@)) by {
                            if id == tid@ {
                                assert(rsv[j as int][k as int].rule == Some(renderer@[id]));
                            } else {
                                assert(reg1.contains_key(id));
                            }
                        }
                    },
                    None => {
                        return (Err("No `rule` in object."), Ghost(obs));
                    },
                }
            }
            k = k + 1;
        }
        j = j + 1;
    }
    (Ok(()), Ghost(obs))
}

/// Renders the tree `ast` as a phrase of type `rule_type` of the target
/// grammar `lang`, registering in `renderer` (with their line-feed flags in
/// `lf_reg`) the templates it needs that are not registered yet: the
/// template of a phrase is that of the rule named as the phrase's rule, and
/// its data the renderings of its placeholders under `name-type`. What a
/// template with a line feed renders is followed by `\n`. Whether
/// handlebars compiles a template is up to it: the call adds to the
/// renderer's compile history the templates it handed over, with their
/// outcomes, and the outcome, templates and flags are `assemble_spec`'s for
/// exactly that part of the history; on success every phrase of the tree has
/// its template held.
/// Asked for: every phrase whose template is held already has its flag,
/// and rendering the tree cannot get through partials to a template that
/// includes itself.
pub fn assemble(
    ast: &SyntaxTree,
    lang: &Grammar,
    renderer: &mut Renderer,
    rule_type: &str,
    lf_reg: &mut LineFeeds,
) -> (r: Result<String, &'static str>)
    requires
        flags_cover(ast@, rule_type@, old(renderer)@, old(lf_reg)@),
        acyclic_sources(lang@, old(renderer)@, ast@, rule_type@),
    ensures
        final(renderer).compiles().subrange(0, old(renderer).compiles().len() as int) == old(renderer).compiles(),
        assemble_spec(
            ast@,
            lang@,
            rule_type@,
            old(renderer)@,
            old(lf_reg)@,
            final(renderer).compiles().skip(old(renderer).compiles().len() as int),
        ) == (text_result(r), final(renderer)@, final(lf_reg)@, Seq::<Compile>::empty()),
        grows(old(renderer)@, old(lf_reg)@, final(renderer)@, final(lf_reg)@),
        held_from(lang@, ids_of(ast@, rule_type@), old(renderer)@, final(renderer)@),
        r is Ok ==> all_held(ast@, rule_type@, final(renderer)@),
{
    let ghost c0 = renderer.compiles();
    let (r, Ghost(obs)) = assemble_rec(ast, lang, renderer, rule_type, lf_reg);
    assert(assemble_spec(ast@, lang@, rule_type@, old(renderer)@, old(lf_reg)@, obs + Seq::<Compile>::empty()) == (
        text_result(r),
        renderer@,
        lf_reg@,
        Seq::<Compile>::empty(),
    ));
    assert(obs + Seq::<Compile>::empty() =~= obs);
    assert(renderer.compiles().skip(c0.len() as int) =~= obs);
    assert(renderer.compiles().subrange(0, c0.len() as int) =~= c0);
    r
}

/// `assemble`, giving the compiles it asked handlebars for, with their
/// outcomes.
fn assemble_rec(
    ast: &SyntaxTree,
    lang: &Grammar,
    renderer: &mut Renderer,
    rule_type: &str,
    lf_reg: &mut LineFeeds,
) -> (res: (Result<String, &'static str>, Ghost<Seq<Compile>>))
    requires
        flags_cover(ast@, rule_type@, old(renderer)@, old(lf_reg)@),
        acyclic_sources(lang@, old(renderer)@, ast@, rule_type@),
    ensures
        forall|rest: Seq<Compile>|
            #[trigger] assemble_spec(ast@, lang@, rule_type@, old(renderer)@, old(lf_reg)@, res.1@ + rest) == (
                text_result(res.0),
                final(renderer)@,
                final(lf_reg)@,
                rest,
            ),
        final(renderer).compiles() == old(renderer).compiles() + res.1@,
        grows(old(renderer)@, old(lf_reg)@, final(renderer)@, final(lf_reg)@),
        held_from(lang@, ids_of(ast@, rule_type@), old(renderer)@, final(renderer)@),
        res.0 is Ok ==> all_held(ast@, rule_type@, final(renderer)@),
    decreases ast,
{
    let ghost reg0 = renderer@;
    let ghost lf0 = lf_reg@;
    let ghost c0 = renderer.compiles();
    let ghost ids = ids_of(ast@, rule_type@);
    let ghost (reach, rank) = choose|reach: Set<Seq<char>>, rank: spec_fn(Seq<char>) -> nat|
        ids.subset_of(reach) && #[trigger] sources_ranked(lang@, ids, reg0, reach, rank);
    let tid = join_dash(ast.rule.as_str(), rule_type);
    let rt = crate::text::chars_of(rule_type);
    assert(ids.contains(tid@));
    assert(held_from(lang@, ids, reg0, reg0));
    let ghost mut obs1: Seq<Compile> = seq![];
    assert(renderer.compiles() =~= c0 + obs1);
    if !renderer.has_template(tid.as_str()) {
        proof {
            crate::grammar::lemma_type_index_bounds(lang@, rule_type@, 0);
        }
        let ti = lang.type_index(rt.as_slice());
        let empty: Vec<Vec<Rule>> = Vec::new();
        let rs: &Vec<Vec<Rule>> = if ti < lang.types.len() {
            &lang.types[ti].rulesets
        } else {
            &empty
        };
        assert(rulesets_view(rs@) =~= rulesets_of(lang@, rule_type@));
        let (res, Ghost(o)) = register_named(rs, ast.rule.as_str(), tid.as_str(), renderer, lf_reg);
        proof {
            obs1 = o;
        }
        assert(held_from(lang@, ids, reg0, renderer@)) by {
            assert forall|id: Seq<char>| #[trigger] renderer@.contains_key(id) implies may_hold(lang@, ids, reg0, id, renderer@[id]) by {
                if !(reg0.contains_key(id) && renderer@[id] == reg0[id]) {
                    let rsv = rulesets_view(rs@);
                    let (j2, k2) = choose|j2: int, k2: int|
                        0 <= j2 < rsv.len() && 0 <= k2 < rsv[j2].len() && #[trigger] rsv[j2][k2].rule == Some(renderer@[id])
                            && rsv[j2][k2].name == Some(ast@.rule);
                    assert(rulesets_of(lang@, rule_type@)[j2][k2].rule == Some(renderer@[id]));
                    assert(rule_template(lang@, id, renderer@[id]));
                }
            }
        }
        match res {
            Ok(()) => {},
            Err(e) => {
                proof {
                    assert forall|rest: Seq<Compile>| #[trigger] assemble_spec(ast@, lang@, rule_type@, reg0, lf0, obs1 + rest)
                        == (text_result(Err::<String, &'static str>(e)), renderer@, lf_reg@, rest) by {
                        assert(register_rules(rulesets_of(lang@, rule_type@), 0, 0, ast@.rule, tid@, reg0, lf0, obs1 + rest)
                            == (unit_result(Err::<(), &'static str>(e)), renderer@, lf_reg@, rest));
                    }
                }
                return (Err(e), Ghost(obs1));
            },
        }
    }
    let ghost reg1 = renderer@;
    let ghost lf1 = lf_reg@;
    assert forall|rest: Seq<Compile>| #[trigger] assemble_spec(ast@, lang@, rule_type@, reg0, lf0, obs1 + rest)
        == render_phrase(tid@, assemble_args(ast@.args, 0, lang@, reg1, lf1, seq![], rest)) by {
        if !reg0.contains_key(tid@) {
            assert(register_rules(rulesets_of(lang@, rule_type@), 0, 0, ast@.rule, tid@, reg0, lf0, obs1 + rest)
                == (Ok::<(), Seq<char>>(()), reg1, lf1, rest));
        } else {
            assert(obs1 + rest =~= rest);
        }
    }
    proof {
        crate::tree::lemma_args_view(ast.args@);
    }
    let ghost args = ast@.args;
    let ghost mut obs2: Seq<Compile> = seq![];
    let ghost mut dseq: Seq<(Seq<char>, Seq<char>)> = seq![];
    let mut data = RenderData::new();
    assert(renderer.compiles() =~= c0 + obs1 + obs2);
    let mut i: usize = 0;
    assert forall|rest: Seq<Compile>| #[trigger] assemble_args(args, 0, lang@, reg1, lf1, seq![], obs2 + rest)
        == assemble_args(args, 0, lang@, renderer@, lf_reg@, dseq, rest) by {
        assert(obs2 + rest =~= rest);
    }
    while i < ast.args.len()
        invariant
            i <= ast.args@.len(),
            args == ast@.args,
            args.len() == ast.args@.len(),
            forall|j: int|
                0 <= j < ast.args@.len() ==> #[trigger] args[j] == (
                    ast.args@[j].0@,
                    (crate::tree::expr_view(ast.args@[j].1.0), ast.args@[j].1.1@),
                ),
            reg0 == old(renderer)@,
            lf0 == old(lf_reg)@,
            renderer.compiles() == c0 + obs1 + obs2,
            c0 == old(renderer).compiles(),
            ids == ids_of(ast@, rule_type@),
            ids.subset_of(reach),
            sources_ranked(lang@, ids, reg0, reach, rank),
            flags_cover(ast@, rule_type@, reg0, lf0),
            args_flags_cover(args, 0, reg0, lf0),
            grows(reg0, lf0, renderer@, lf_reg@),
            held_from(lang@, ids, reg0, renderer@),
            tid@ == dash_join(ast@.rule, rule_type@),
            reg1.submap_of(renderer@),
            data@ == entries_map(dseq),
            forall|rest: Seq<Compile>| #[trigger] assemble_spec(ast@, lang@, rule_type@, reg0, lf0, obs1 + rest)
                == render_phrase(tid@, assemble_args(args, 0, lang@, reg1, lf1, seq![], rest)),
            forall|j: int| 0 <= j < i ==> ((#[trigger] args[j]).1.0 matches ExprV::Exp(e) ==> all_held(e, args[j].1.1, renderer@)),
            forall|rest: Seq<Compile>| #[trigger] assemble_args(args, 0, lang@, reg1, lf1, seq![], obs2 + rest)
                == assemble_args(args, i as int, lang@, renderer@, lf_reg@, dseq, rest),
        decreases ast.args@.len() - i,
    {
        let entry = &ast.args[i];
        let key = join_dash(entry.0.as_str(), entry.1.1.as_str());
        match &entry.1.0 {
            Expression::Exp(exp) => {
                assert(decreases_to!(*ast => *exp)) by {
                    assert(decreases_to!(*ast => ast.args));
                    assert(decreases_to!(ast.args => ast.args@));
                    assert(decreases_to!(ast.args@ => ast.args@[i as int]));
                };
                let ghost reg_b = renderer@;
                let ghost lf_b = lf_reg@;
                let ghost obs2_b = obs2;
                assert(args[i as int].1.0 == ExprV::Exp(exp@));
                proof {
                    lemma_args_flags_cover_at(args, 0, i as int, reg0, lf0);
                    lemma_flags_cover_grows(exp@, entry.1.1@, reg0, lf0, reg_b, lf_b);
                    lemma_ranked_from(lang@, ids, reg0, reg_b, reach, rank);
                    assert forall|id: Seq<char>| ids_of(exp@, entry.1.1@).contains(id) implies ids.contains(id) by {
                        lemma_args_ids_at(args, 0, i as int, id);
                    }
                    assert(ids_of(exp@, entry.1.1@).subset_of(ids));
                    lemma_ranked_fewer_ids(lang@, ids_of(exp@, entry.1.1@), ids, reg_b, reach, rank);
                    assert(ids_of(exp@, entry.1.1@).subset_of(reach));
                    assert(sources_ranked(lang@, ids_of(exp@, entry.1.1@), reg_b, reach, rank));
                }
                let (res, Ghost(oc)) = assemble_rec(exp, lang, renderer, entry.1.1.as_str(), lf_reg);
                proof {
                    vstd::map_lib::lemma_submap_of_trans(old(renderer)@, reg_b, renderer@);
                    vstd::map_lib::lemma_submap_of_trans(reg1, reg_b, renderer@);
                    lemma_grows_trans(reg0, lf0, reg_b, lf_b, renderer@, lf_reg@);
                    lemma_held_more_ids(lang@, ids_of(exp@, entry.1.1@), ids, reg_b, renderer@);
                    lemma_held_trans(lang@, ids, reg0, reg_b, renderer@);
                    obs2 = obs2_b + oc;
                    assert(renderer.compiles() =~= c0 + obs1 + obs2);
                    assert forall|rest: Seq<Compile>| #[trigger] assemble_args(args, 0, lang@, reg1, lf1, seq![], obs2 + rest)
                        == assemble_args(args, i as int, lang@, reg_b, lf_b, dseq, oc + rest) by {
                        assert(obs2 + rest =~= obs2_b + (oc + rest));
                    }
                    assert forall|j: int| 0 <= j < i implies (#[trigger] args[j]).1.0 matches ExprV::Exp(e) ==> all_held(
                        e,
                        args[j].1.1,
                        renderer@,
                    ) by {
                        if let ExprV::Exp(e) = args[j].1.0 {
                            lemma_all_held_grows(e, args[j].1.1, reg_b, renderer@);
                        }
                    }
                }
                match res {
                    Ok(text) => {
                        assert(all_held(exp@, args[i as int].1.1, renderer@));
                        let ghost tv = text@;
                        let ghost dseq_b = dseq;
                        data.insert(key, text);
                        proof {
                            dseq = dseq.push((dash_join(args[i as int].0, args[i as int].1.1), tv));
                            assert(dseq.drop_last() =~= dseq_b);
                            assert forall|rest: Seq<Compile>| #[trigger] assemble_args(args, 0, lang@, reg1, lf1, seq![], obs2 + rest)
                                == assemble_args(args, i + 1, lang@, renderer@, lf_reg@, dseq, rest) by {
                                assert(args[i as int].1.1 == entry.1.1@);
                                assert(assemble_spec(exp@, lang@, entry.1.1@, reg_b, lf_b, oc + rest) == (
                                    text_result(Ok::<String, &'static str>(text)),
                                    renderer@,
                                    lf_reg@,
                                    rest,
                                ));
                                assert(assemble_args(args, i as int, lang@, reg_b, lf_b, dseq_b, oc + rest)
                                    == assemble_args(args, i + 1, lang@, renderer@, lf_reg@, dseq, rest));
                            }
                        }
                    },
                    Err(e) => {
                        proof {
                            assert forall|rest: Seq<Compile>| #[trigger] assemble_spec(ast@, lang@, rule_type@, reg0, lf0, (obs1 + obs2) + rest)
                                == (text_result(Err::<String, &'static str>(e)), renderer@, lf_reg@, rest) by {
                                assert((obs1 + obs2) + rest =~= obs1 + (obs2 + rest));
                                assert(assemble_spec(ast@, lang@, rule_type@, reg0, lf0, (obs1 + obs2) + rest)
                                    == assemble_spec(ast@, lang@, rule_type@, reg0, lf0, obs1 + (obs2 + rest)));
                                assert(args[i as int].1.1 == entry.1.1@);
                                assert(assemble_spec(exp@, lang@, entry.1.1@, reg_b, lf_b, oc + rest) == (
                                    text_result(Err::<String, &'static str>(e)),
                                    renderer@,
                                    lf_reg@,
                                    rest,
                                ));
                                assert(text_result(Err::<String, &'static str>(e)) == Err::<Seq<char>, Seq<char>>(e@));
                                assert(assemble_args(args, i as int, lang@, reg_b, lf_b, dseq, oc + rest) == (
                                    Err::<Seq<(Seq<char>, Seq<char>)>, Seq<char>>(e@),
                                    renderer@,
                                    lf_reg@,
                                    rest,
                                ));
                            }
                        }
                        assert(renderer.compiles() =~= c0 + (obs1 + obs2));
                        return (Err(e), Ghost(obs1 + obs2));
                    },
                }
            },
            Expression::Ident(x) => {
                let ghost xv = x@;
                let ghost dseq_b = dseq;
                data.insert(key, x.clone());
                proof {
                    dseq = dseq.push((dash_join(args[i as int].0, args[i as int].1.1), xv));
                    assert(dseq.drop_last() =~= dseq_b);
                    assert(args[i as int].1.0 == ExprV::Ident(xv));
                    assert forall|rest: Seq<Compile>| #[trigger] assemble_args(args, 0, lang@, reg1, lf1, seq![], obs2 + rest)
                        == assemble_args(args, i + 1, lang@, renderer@, lf_reg@, dseq, rest) by {
                        assert(assemble_args(args, i as int, lang@, renderer@, lf_reg@, dseq_b, rest)
                            == assemble_args(args, i + 1, lang@, renderer@, lf_reg@, dseq, rest));
                    }
                }
            },
        }
        i = i + 1;
    }
    proof {
        lemma_ranked_from(lang@, ids, reg0, renderer@, reach, rank);
        assert(reach.contains(tid@));
        assert(reach.contains(tid@) && ranked_from(renderer@, reach, rank));
    }
    let ghost reg_f = renderer@;
    let ghost lf_f = lf_reg@;
    let ghost obs = obs1 + obs2;
    let ghost done = (Ok::<Seq<(Seq<char>, Seq<char>)>, Seq<char>>(dseq), renderer@, lf_reg@);
    let out = match renderer.render(tid.as_str(), &data) {
        Some(out) => {
            proof {
                if !reg0.contains_key(tid@) {
                    assert(lf_reg@.contains_key(tid@));
                }
                lemma_args_all_held_from(args, 0, renderer@);
                assert(all_held(ast@, rule_type@, renderer@));
            }
            match lf_reg.get(tid.as_str()) {
                Some(true) => {
                    let ghost o0 = out@;
                    let mut out = out;
                    crate::text::push_char(&mut out, '\n');
                    assert(out@ =~= o0 + seq!['\n']);
                    Ok(out)
                },
                Some(false) => Ok(out),
                None => {
                    assert(false);
                    Err("Render Error!")
                },
            }
        },
        None => Err("Render Error!"),
    };
    assert(forall|rest: Seq<Compile>| #[trigger] render_phrase(tid@, (done.0, done.1, done.2, rest)) == (
        text_result(out),
        renderer@,
        lf_reg@,
        rest,
    ));
    proof {
        assert forall|rest: Seq<Compile>| #[trigger] assemble_spec(ast@, lang@, rule_type@, reg0, lf0, obs + rest)
            == (text_result(out), renderer@, lf_reg@, rest) by {
            assert(obs + rest =~= obs1 + (obs2 + rest));
            assert(assemble_spec(ast@, lang@, rule_type@, reg0, lf0, obs + rest)
                == assemble_spec(ast@, lang@, rule_type@, reg0, lf0, obs1 + (obs2 + rest)));
            assert(i == args.len());
            assert(assemble_args(args, i as int, lang@, renderer@, lf_reg@, dseq, rest) == (
                Ok::<Seq<(Seq<char>, Seq<char>)>, Seq<char>>(dseq),
                renderer@,
                lf_reg@,
                rest,
            ));
            assert(assemble_args(args, 0, lang@, reg1, lf1, seq![], obs2 + rest) == (
                Ok::<Seq<(Seq<char>, Seq<char>)>, Seq<char>>(dseq),
                renderer@,
                lf_reg@,
                rest,
            ));
        }
    }
    assert(renderer.compiles() =~= c0 + obs);
    (out, Ghost(obs))
}

/// At a placeholder holding a phrase whose rendering fails, rendering the
/// placeholders fails with that phrase's error, unchanged, and nothing after
/// it is rendered: the templates, flags and compile outcomes left are those
/// the phrase left.
pub proof fn law_child_error_passes_up(
    args: Seq<(Seq<char>, (ExprV, Seq<char>))>,
    i: int,
    lang: Seq<(Seq<char>, Seq<Seq<RuleV>>)>,
    reg: Map<Seq<char>, Seq<char>>,
    lf: Map<Seq<char>, bool>,
    data: Seq<(Seq<char>, Seq<char>)>,
    oks: Seq<Compile>,
    e: TreeV,
    x: Seq<char>,
)
    requires
        0 <= i < args.len(),
        args[i].1.0 == ExprV::Exp(e),
        assemble_spec(e, lang, args[i].1.1, reg, lf, oks).0 == Err::<Seq<char>, Seq<char>>(x),
    ensures
        assemble_args(args, i, lang, reg, lf, data, oks) == (
            Err::<Seq<(Seq<char>, Seq<char>)>, Seq<char>>(x),
            assemble_spec(e, lang, args[i].1.1, reg, lf, oks).1,
            assemble_spec(e, lang, args[i].1.1, reg, lf, oks).2,
            assemble_spec(e, lang, args[i].1.1, reg, lf, oks).3,
        ),
{
}

/// A phrase whose placeholders fail to render fails with their error: the
/// phrase's own template is not rendered.
pub proof fn law_args_error_passes_up(
    t: TreeV,
    lang: Seq<(Seq<char>, Seq<Seq<RuleV>>)>,
    rt: Seq<char>,
    reg: Map<Seq<char>, Seq<char>>,
    lf: Map<Seq<char>, bool>,
    oks: Seq<Compile>,
    x: Seq<char>,
)
    requires
        reg.contains_key(dash_join(t.rule, rt)),
        assemble_args(t.args, 0, lang, reg, lf, seq![], oks).0 == Err::<Seq<(Seq<char>, Seq<char>)>, Seq<char>>(x),
    ensures
        assemble_spec(t, lang, rt, reg, lf, oks).0 == Err::<Seq<char>, Seq<char>>(x),
{
}

/// Rendering placeholders that hold no phrase does not read the grammar.
pub proof fn lemma_names_only_args(
    args: Seq<(Seq<char>, (ExprV, Seq<char>))>,
    i: int,
    lang1: Seq<(Seq<char>, Seq<Seq<RuleV>>)>,
    lang2: Seq<(Seq<char>, Seq<Seq<RuleV>>)>,
    reg: Map<Seq<char>, Seq<char>>,
    lf: Map<Seq<char>, bool>,
    data: Seq<(Seq<char>, Seq<char>)>,
    oks: Seq<Compile>,
)
    requires
        forall|j: int| 0 <= j < args.len() ==> (#[trigger] args[j]).1.0 is Ident,
    ensures
        assemble_args(args, i, lang1, reg, lf, data, oks) == assemble_args(args, i, lang2, reg, lf, data, oks),
    decreases args.len() - i,
{
    if 0 <= i < args.len() {
        assert(args[i].1.0 is Ident);
        let key = dash_join(args[i].0, args[i].1.1);
        let x = args[i].1.0->Ident_0;
        lemma_names_only_args(args, i + 1, lang1, lang2, reg, lf, data.push((key, x)), oks);
    }
}

/// A phrase whose template is registered already and whose placeholders
/// hold no phrase is rendered without reading the grammar: any two target
/// grammars give the same outcome, templates and flags.
pub proof fn law_registered_needs_no_grammar(
    t: TreeV,
    lang1: Seq<(Seq<char>, Seq<Seq<RuleV>>)>,
    lang2: Seq<(Seq<char>, Seq<Seq<RuleV>>)>,
    rt: Seq<char>,
    reg: Map<Seq<char>, Seq<char>>,
    lf: Map<Seq<char>, bool>,
    oks: Seq<Compile>,
)
    requires
        reg.contains_key(dash_join(t.rule, rt)),
        forall|j: int| 0 <= j < t.args.len() ==> (#[trigger] t.args[j]).1.0 is Ident,
    ensures
        assemble_spec(t, lang1, rt, reg, lf, oks) == assemble_spec(t, lang2, rt, reg, lf, oks),
{
    lemma_names_only_args(t.args, 0, lang1, lang2, reg, lf, seq![], oks);
}

/// Such a phrase asks no grammar to have its templates free of cycles:
/// where one grammar lets it render, any other does.
pub proof fn law_registered_needs_no_acyclic_grammar(
    t: TreeV,
    lang1: Seq<(Seq<char>, Seq<Seq<RuleV>>)>,
    lang2: Seq<(Seq<char>, Seq<Seq<RuleV>>)>,
    rt: Seq<char>,
    reg: Map<Seq<char>, Seq<char>>,
)
    requires
        reg.contains_key(dash_join(t.rule, rt)),
        forall|j: int| 0 <= j < t.args.len() ==> (#[trigger] t.args[j]).1.0 is Ident,
        acyclic_sources(lang1, reg, t, rt),
    ensures
        acyclic_sources(lang2, reg, t, rt),
{
    let ids = ids_of(t, rt);
    let (reach, rank) = choose|reach: Set<Seq<char>>, rank: spec_fn(Seq<char>) -> nat|
        ids.subset_of(reach) && #[trigger] sources_ranked(lang1, ids, reg, reach, rank);
    assert(args_ids(t.args, 0) =~= Set::<Seq<char>>::empty()) by {
        lemma_names_only_ids(t.args, 0);
    }
    assert(ids =~= set![dash_join(t.rule, rt)]);
    assert forall|a: Seq<char>, sa: Seq<char>, b: Seq<char>|
        #![trigger may_hold(lang2, ids, reg, a, sa), may_include(sa, b)]
        reach.contains(a) && may_hold(lang2, ids, reg, a, sa) && may_include(sa, b) implies reach.contains(b)
            && rank(b) < rank(a) by {
        assert(may_hold(lang1, ids, reg, a, sa));
    }
    assert(sources_ranked(lang2, ids, reg, reach, rank));
}

/// Placeholders that hold no phrase have no template ids.
pub proof fn lemma_names_only_ids(args: Seq<(Seq<char>, (ExprV, Seq<char>))>, i: int)
    requires
        forall|j: int| 0 <= j < args.len() ==> (#[trigger] args[j]).1.0 is Ident,
    ensures
        args_ids(args, i) =~= Set::<Seq<char>>::empty(),
    decreases args.len() - i,
{
    if 0 <= i < args.len() {
        assert(args[i].1.0 is Ident);
        lemma_names_only_ids(args, i + 1);
    }
}

/// A tree whose phrases all have their templates held renders without
/// compiling anything: the templates, flags and compile history stay as they
/// are. So after a call that succeeds (which leaves all of them held), the
/// same call again compiles nothing and changes nothing.
pub proof fn law_held_tree_compiles_nothing(
    t: TreeV,
    lang: Seq<(Seq<char>, Seq<Seq<RuleV>>)>,
    rt: Seq<char>,
    reg: Map<Seq<char>, Seq<char>>,
    lf: Map<Seq<char>, bool>,
    oks: Seq<Compile>,
)
    requires
        all_held(t, rt, reg),
    ensures
        assemble_spec(t, lang, rt, reg, lf, oks).1 == reg,
        assemble_spec(t, lang, rt, reg, lf, oks).2 == lf,
        assemble_spec(t, lang, rt, reg, lf, oks).3 == oks,
    decreases t, 0int,
{
    lemma_held_args_compile_nothing(t.args, 0, lang, reg, lf, seq![], oks);
}

/// `law_held_tree_compiles_nothing` for the placeholders `args[i..]`.
pub proof fn lemma_held_args_compile_nothing(
    args: Seq<(Seq<char>, (ExprV, Seq<char>))>,
    i: int,
    lang: Seq<(Seq<char>, Seq<Seq<RuleV>>)>,
    reg: Map<Seq<char>, Seq<char>>,
    lf: Map<Seq<char>, bool>,
    data: Seq<(Seq<char>, Seq<char>)>,
    oks: Seq<Compile>,
)
    requires
        args_all_held(args, i, reg),
    ensures
        assemble_args(args, i, lang, reg, lf, data, oks).1 == reg,
        assemble_args(args, i, lang, reg, lf, data, oks).2 == lf,
        assemble_args(args, i, lang, reg, lf, data, oks).3 == oks,
    decreases args, args.len() - i,
{
    if 0 <= i < args.len() {
        let key = dash_join(args[i].0, args[i].1.1);
        match args[i].1.0 {
            ExprV::Exp(e) => {
                law_held_tree_compiles_nothing(e, lang, args[i].1.1, reg, lf, oks);
                match assemble_spec(e, lang, args[i].1.1, reg, lf, oks).0 {
                    Ok(text) => lemma_held_args_compile_nothing(args, i + 1, lang, reg, lf, data.push((key, text)), oks),
                    Err(_) => {},
                }
            },
            ExprV::Ident(x) => lemma_held_args_compile_nothing(args, i + 1, lang, reg, lf, data.push((key, x)), oks),
        }
    }
}

/// A placeholder's data is the whole text of what it holds. For a phrase
/// whose templates are all held and whose one placeholder `k` of type `ty`
/// holds the phrase `e`: its text is its template rendered with exactly the
/// text that rendering `e` alone gives (line feed included) under `k-ty`,
/// followed by a line feed where its own flag asks for one; an error of `e`
/// is its error. Where the placeholder holds a name, the data is the name as
/// it is.
pub proof fn law_placeholder_data_is_the_rendering(
    t: TreeV,
    lang: Seq<(Seq<char>, Seq<Seq<RuleV>>)>,
    rt: Seq<char>,
    reg: Map<Seq<char>, Seq<char>>,
    lf: Map<Seq<char>, bool>,
    oks: Seq<Compile>,
    k: Seq<char>,
    ty: Seq<char>,
)
    requires
        all_held(t, rt, reg),
        t.args.len() == 1,
        t.args[0].0 == k,
        t.args[0].1.1 == ty,
    ensures
        ({
            let tid = dash_join(t.rule, rt);
            let finish = |x: Seq<char>|
                match rendered(reg, tid, Map::empty().insert(dash_join(k, ty), x)) {
                    Some(o) => Ok::<Seq<char>, Seq<char>>(
                        if lf[tid] {
                            o + seq!['\n']
                        } else {
                            o
                        },
                    ),
                    None => Err("Render Error!"@),
                };
            assemble_spec(t, lang, rt, reg, lf, oks).0 == match t.args[0].1.0 {
                ExprV::Ident(x) => finish(x),
                ExprV::Exp(e) => match assemble_spec(e, lang, ty, reg, lf, oks).0 {
                    Ok(x) => finish(x),
                    Err(m) => Err(m),
                },
            }
        }),
{
    let key = dash_join(k, ty);
    let none = Seq::<(Seq<char>, Seq<char>)>::empty();
    assert(entries_map(none) == Map::<Seq<char>, Seq<char>>::empty());
    match t.args[0].1.0 {
        ExprV::Exp(e) => {
            assert(args_all_held(t.args, 0, reg));
            assert(all_held(e, ty, reg));
            law_held_tree_compiles_nothing(e, lang, ty, reg, lf, oks);
            match assemble_spec(e, lang, ty, reg, lf, oks).0 {
                Ok(x) => {
                    let one = none.push((key, x));
                    assert(one.last() == (key, x));
                    assert(assemble_args(t.args, 1, lang, reg, lf, one, oks) == (
                        Ok::<Seq<(Seq<char>, Seq<char>)>, Seq<char>>(one),
                        reg,
                        lf,
                        oks,
                    ));
                    assert(one.drop_last() =~= Seq::<(Seq<char>, Seq<char>)>::empty());
                    assert(entries_map(one) == Map::<Seq<char>, Seq<char>>::empty().insert(key, x));
                    assert(assemble_args(t.args, 0, lang, reg, lf, none, oks) == (
                        Ok::<Seq<(Seq<char>, Seq<char>)>, Seq<char>>(one),
                        reg,
                        lf,
                        oks,
                    ));
                    assert(assemble_spec(t, lang, rt, reg, lf, oks) == render_phrase(
                        dash_join(t.rule, rt),
                        (Ok::<Seq<(Seq<char>, Seq<char>)>, Seq<char>>(one), reg, lf, oks),
                    ));
                },
                Err(m) => {
                    assert(assemble_args(t.args, 0, lang, reg, lf, none, oks).0 == Err::<
                        Seq<(Seq<char>, Seq<char>)>,
                        Seq<char>,
                    >(m));
                    assert(assemble_spec(t, lang, rt, reg, lf, oks).0 == Err::<Seq<char>, Seq<char>>(m));
                },
            }
        },
        ExprV::Ident(x) => {
            let one = none.push((key, x));
            assert(one.last() == (key, x));
            assert(one.drop_last() =~= Seq::<(Seq<char>, Seq<char>)>::empty());
            assert(entries_map(one) == Map::<Seq<char>, Seq<char>>::empty().insert(key, x));
            assert(assemble_args(t.args, 1, lang, reg, lf, one, oks) == (
                Ok::<Seq<(Seq<char>, Seq<char>)>, Seq<char>>(one),
                reg,
                lf,
                oks,
            ));
            assert(assemble_args(t.args, 0, lang, reg, lf, none, oks) == (
                Ok::<Seq<(Seq<char>, Seq<char>)>, Seq<char>>(one),
                reg,
                lf,
                oks,
            ));
            assert(assemble_spec(t, lang, rt, reg, lf, oks) == render_phrase(
                dash_join(t.rule, rt),
                (Ok::<Seq<(Seq<char>, Seq<char>)>, Seq<char>>(one), reg, lf, oks),
            ));
        },
    }
}

/// Whether no template of a rule of `lang` has a partial or decorator tag.
pub open spec fn partial_free(lang: Seq<(Seq<char>, Seq<Seq<RuleV>>)>) -> bool {
    forall|t: int, r: int, k: int|
        0 <= t < lang.len() && 0 <= r < lang[t].1.len() && 0 <= k < lang[t].1[r].len() && (
        #[trigger] lang[t].1[r][k]).rule is Some ==> !has_include_tag(lang[t].1[r][k].rule.unwrap())
}

/// Whether no template of a rule of `lang` has a partial or decorator tag;
/// where none has, rendering in `lang` from no templates has no cycle of
/// partials.
pub fn templates_partial_free(lang: &Grammar) -> (b: bool)
    ensures
        b == partial_free(lang@),
        b ==> forall|t: TreeV, rt: Seq<char>| #[trigger] acyclic_sources(lang@, Map::empty(), t, rt),
{
    let ghost g = lang@;
    let mut t: usize = 0;
    while t < lang.types.len()
        invariant
            t <= g.len(),
            g == lang@,
            forall|t2: int, r: int, k: int|
                0 <= t2 < t && 0 <= r < g[t2].1.len() && 0 <= k < g[t2].1[r].len() && (
                #[trigger] g[t2].1[r][k]).rule is Some ==> !has_include_tag(g[t2].1[r][k].rule.unwrap()),
        decreases g.len() - t,
    {
        let sets = &lang.types[t].rulesets;
        assert(g[t as int].1 == rulesets_view(sets@));
        let mut r: usize = 0;
        while r < sets.len()
            invariant
                t < g.len(),
                r <= sets@.len(),
                g == lang@,
                g[t as int].1 == rulesets_view(sets@),
                forall|t2: int, r2: int, k: int|
                    0 <= t2 < t && 0 <= r2 < g[t2].1.len() && 0 <= k < g[t2].1[r2].len() && (
                    #[trigger] g[t2].1[r2][k]).rule is Some ==> !has_include_tag(g[t2].1[r2][k].rule.unwrap()),
                forall|r2: int, k: int|
                    0 <= r2 < r && 0 <= k < g[t as int].1[r2].len() && (
                    #[trigger] g[t as int].1[r2][k]).rule is Some ==> !has_include_tag(g[t as int].1[r2][k].rule.unwrap()),
            decreases sets@.len() - r,
        {
            let mut k: usize = 0;
            while k < sets[r].len()
                invariant
                    t < g.len(),
                    r < sets@.len(),
                    k <= sets@[r as int]@.len(),
                    g == lang@,
                    g[t as int].1 == rulesets_view(sets@),
                    forall|t2: int, r2: int, k2: int|
                        0 <= t2 < t && 0 <= r2 < g[t2].1.len() && 0 <= k2 < g[t2].1[r2].len() && (
                        #[trigger] g[t2].1[r2][k2]).rule is Some ==> !has_include_tag(g[t2].1[r2][k2].rule.unwrap()),
                    forall|r2: int, k2: int|
                        0 <= r2 < r && 0 <= k2 < g[t as int].1[r2].len() && (
                        #[trigger] g[t as int].1[r2][k2]).rule is Some ==> !has_include_tag(g[t as int].1[r2][k2].rule.unwrap()),
                    forall|k2: int|
                        0 <= k2 < k && (#[trigger] g[t as int].1[r as int][k2]).rule is Some ==> !has_include_tag(
                            g[t as int].1[r as int][k2].rule.unwrap(),
                        ),
                decreases sets@[r as int]@.len() - k,
            {
                assert(g[t as int].1[r as int][k as int] == sets@[r as int]@[k as int]@);
                match &sets[r][k].rule {
                    Some(tpl) => {
                        let cs = crate::text::chars_of(tpl.as_str());
                        if include_tag_in(cs.as_slice()) {
                            assert(g[t as int].1[r as int][k as int].rule is Some);
                            return false;
                        }
                    },
                    None => {},
                }
                k = k + 1;
            }
            r = r + 1;
        }
        t = t + 1;
    }
    proof {
        let rank = |x: Seq<char>| 0nat;
        let reach = Set::<Seq<char>>::full();
        assert forall|t: TreeV, rt: Seq<char>| #[trigger] acyclic_sources(g, Map::empty(), t, rt) by {
            let ids = ids_of(t, rt);
            assert forall|a: Seq<char>, sa: Seq<char>, b: Seq<char>|
                #![trigger may_hold(g, ids, Map::empty(), a, sa), may_include(sa, b)]
                reach.contains(a) && may_hold(g, ids, Map::empty(), a, sa) && may_include(sa, b) implies reach.contains(b)
                    && rank(b) < rank(a) by {
                let (rt2, j, k) = choose|rt2: Seq<char>, j: int, k: int|
                    0 <= j < rulesets_of(g, rt2).len() && 0 <= k < rulesets_of(g, rt2)[j].len()
                        && #[trigger] rulesets_of(g, rt2)[j][k].rule == Some(sa) && rulesets_of(g, rt2)[j][k].name is Some
                        && a == dash_join(rulesets_of(g, rt2)[j][k].name.unwrap(), rt2);
                crate::grammar::lemma_type_index_bounds(g, rt2, 0);
                let ti = crate::grammar::type_index_from(g, rt2, 0);
                assert(g[ti].1[j][k].rule is Some);
                assert(has_include_tag(sa));
            }
            assert(ids.subset_of(reach));
            assert(sources_ranked(g, ids, Map::empty(), reach, rank));
        }
    }
    true
}

} // verus!
