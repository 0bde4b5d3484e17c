//! A language file: a JSON object with the token pattern (`tokenable`), the
//! grammar (`syntax`: for each phrase type, rule sets of rules with `name`,
//! `rule` and `lf`), the extension of output files (`ext`) and the commands
//! to run afterwards (`then`).

use vstd::prelude::*;
use json::JsonValue;
use crate::grammar::{Grammar, Rule, RuleType, RuleV, opt_view};

verus! {

/// A rule as the file gives it.
pub struct RawRule {
    pub name: Option<String>,
    pub rule: Option<String>,
    pub lf: Option<bool>,
}

/// The view of a rule as the file gives it.
pub struct RawRuleV {
    pub name: Option<Seq<char>>,
    pub rule: Option<Seq<char>>,
    pub lf: Option<bool>,
}

impl View for RawRule {
    type V = RawRuleV;

    open spec fn view(&self) -> RawRuleV {
        RawRuleV { name: opt_view(self.name), rule: opt_view(self.rule), lf: self.lf }
    }
}

/// A phrase type as the file gives it: its name and its rule sets.
pub struct RawType {
    pub name: String,
    pub rulesets: Vec<Vec<RawRule>>,
}

pub open spec fn raw_sets_view(v: Seq<Vec<RawRule>>) -> Seq<Seq<RawRuleV>> {
    Seq::new(v.len(), |i: int| Seq::new(v[i]@.len(), |k: int| v[i]@[k]@))
}

impl View for RawType {
    type V = (Seq<char>, Seq<Seq<RawRuleV>>);

    open spec fn view(&self) -> (Seq<char>, Seq<Seq<RawRuleV>>) {
        (self.name@, raw_sets_view(self.rulesets@))
    }
}

/// What a language file holds.
pub struct Language {
    /// The `tokenable` string, where there is one.
    pub tokenable: Option<String>,
    /// The `ext` value as text.
    pub ext: String,
    /// The `then` commands, each where it is a string.
    pub commands: Vec<Option<String>>,
    /// The `syntax` types, in the order the file gives them.
    pub syntax: Vec<RawType>,
}

/// The view of a language file.
pub struct LanguageV {
    pub tokenable: Option<Seq<char>>,
    pub ext: Seq<char>,
    pub commands: Seq<Option<Seq<char>>>,
    pub syntax: Seq<(Seq<char>, Seq<Seq<RawRuleV>>)>,
}

impl View for Language {
    type V = LanguageV;

    open spec fn view(&self) -> LanguageV {
        LanguageV {
            tokenable: opt_view(self.tokenable),
            ext: self.ext@,
            commands: Seq::new(self.commands@.len(), |i: int| opt_view(self.commands@[i])),
            syntax: Seq::new(self.syntax@.len(), |i: int| self.syntax@[i]@),
        }
    }
}

pub open spec fn opt_language_view(r: Option<Language>) -> Option<LanguageV> {
    match r {
        Some(l) => Some(l@),
        None => None,
    }
}

/// What `json::parse` reads from `text`, taken apart into a language file
/// (`None` where the text is no JSON).
pub uninterp spec fn language_of(text: Seq<char>) -> Option<LanguageV>;

/// Calls `json::parse` and takes the value apart: each field by its key (a
/// missing one reads as null), strings and booleans where they are such,
/// arrays by their members and objects by their entries in order (other
/// values giving none). Claimed: the result is `language_of` the text, a
/// function of the text alone.
#[verifier::external_body]
fn parse_language(text: &str) -> (r: Option<Language>)
    ensures
        opt_language_view(r) == language_of(text@),
{
    let v = json::parse(text).ok()?;
    let s = |x: &JsonValue| x.as_str().map(String::from);
    let rule = |r: &JsonValue| RawRule { name: s(&r["name"]), rule: s(&r["rule"]), lf: r["lf"].as_bool() };
    let syntax = v["syntax"].entries().map(|(n, t)| RawType {
        name: n.to_string(),
        rulesets: t.members().map(|set| set.members().map(rule).collect()).collect(),
    }).collect();
    Some(Language { tokenable: s(&v["tokenable"]), ext: v["ext"].to_string(), commands: v["then"].members().map(s).collect(), syntax })
}

/// The rule a file's rule stands for: no line feed unless `lf` is true.
pub open spec fn rule_of(r: RawRuleV) -> RuleV {
    RuleV {
        name: r.name,
        rule: r.rule,
        lf: match r.lf {
            Some(b) => b,
            None => false,
        },
        tokens: None,
    }
}

/// The grammar a file's `syntax` stands for.
pub open spec fn grammar_of(syntax: Seq<(Seq<char>, Seq<Seq<RawRuleV>>)>) -> Seq<(Seq<char>, Seq<Seq<RuleV>>)> {
    Seq::new(
        syntax.len(),
        |t: int| (syntax[t].0, Seq::new(syntax[t].1.len(), |r: int| Seq::new(syntax[t].1[r].len(), |k: int| rule_of(syntax[t].1[r][k])))),
    )
}

/// The grammar of a file keeps its types, and in each type every rule set,
/// at its place and with every rule of it at its place: a rule keeps its
/// name and pattern, has a line feed where the file's `lf` is `true`, and is
/// not prepared yet.
pub proof fn law_grammar_keeps_every_rule(syntax: Seq<(Seq<char>, Seq<Seq<RawRuleV>>)>)
    ensures
        grammar_of(syntax).len() == syntax.len(),
        forall|t: int|
            0 <= t < syntax.len() ==> (#[trigger] grammar_of(syntax)[t]).0 == syntax[t].0 && grammar_of(syntax)[t].1.len()
                == syntax[t].1.len(),
        forall|t: int, r: int|
            0 <= t < syntax.len() && 0 <= r < syntax[t].1.len() ==> (#[trigger] grammar_of(syntax)[t].1[r]).len()
                == syntax[t].1[r].len(),
        forall|t: int, r: int, k: int|
            0 <= t < syntax.len() && 0 <= r < syntax[t].1.len() && 0 <= k < syntax[t].1[r].len() ==> {
                let g = #[trigger] grammar_of(syntax)[t].1[r][k];
                let f = syntax[t].1[r][k];
                &&& g.name == f.name
                &&& g.rule == f.rule
                &&& g.lf == (f.lf == Some(true))
                &&& g.tokens is None
            },
{
}

fn clone_opt(o: &Option<String>) -> (r: Option<String>)
    ensures
        opt_view(r) == opt_view(*o),
{
    match o {
        Some(s) => Some(s.clone()),
        None => None,
    }
}

/// The rule sets a file's rule sets stand for.
fn sets_of(sets: &Vec<Vec<RawRule>>) -> (r: Vec<Vec<Rule>>)
    ensures
        crate::grammar::rulesets_view(r@) == Seq::new(
            raw_sets_view(sets@).len(),
            |i: int| Seq::new(raw_sets_view(sets@)[i].len(), |k: int| rule_of(raw_sets_view(sets@)[i][k])),
        ),
{
    let ghost want = Seq::new(
        raw_sets_view(sets@).len(),
        |i: int| Seq::new(raw_sets_view(sets@)[i].len(), |k: int| rule_of(raw_sets_view(sets@)[i][k])),
    );
    let mut r: Vec<Vec<Rule>> = Vec::new();
    let mut i: usize = 0;
    while i < sets.len()
        invariant
            i <= sets@.len(),
            r@.len() == i,
            want == Seq::new(
                raw_sets_view(sets@).len(),
                |i: int| Seq::new(raw_sets_view(sets@)[i].len(), |k: int| rule_of(raw_sets_view(sets@)[i][k])),
            ),
            forall|j: int| 0 <= j < i ==> #[trigger] crate::grammar::rulesets_view(r@)[j] == want[j],
        decreases sets@.len() - i,
    {
        let mut set: Vec<Rule> = Vec::new();
        let mut k: usize = 0;
        while k < sets[i].len()
            invariant
                i < sets@.len(),
                k <= sets@[i as int]@.len(),
                set@.len() == k,
                forall|m: int| 0 <= m < k ==> #[trigger] set@[m]@ == rule_of(sets@[i as int]@[m]@),
            decreases sets@[i as int]@.len() - k,
        {
            let raw = &sets[i][k];
            let lf = match raw.lf {
                Some(b) => b,
                None => false,
            };
            set.push(Rule { name: clone_opt(&raw.name), rule: clone_opt(&raw.rule), lf, tokens: None });
            k = k + 1;
        }
        let ghost before = r@;
        let ghost sv = set@;
        r.push(set);
        assert(r@[i as int]@ == sv);
        assert forall|j: int| 0 <= j <= i implies #[trigger] crate::grammar::rulesets_view(r@)[j] == want[j] by {
            if j < i {
                assert(r@[j] == before[j]);
                assert(crate::grammar::rulesets_view(r@)[j] == crate::grammar::rulesets_view(before)[j]);
            } else {
                assert(sv.len() == sets@[j]@.len());
                assert(raw_sets_view(sets@)[j].len() == sets@[j]@.len());
                assert(want[j].len() == sv.len());
                assert(crate::grammar::rulesets_view(r@)[j].len() == sv.len());
                assert forall|m: int| 0 <= m < sv.len() implies #[trigger] crate::grammar::rulesets_view(r@)[j][m]
                    == want[j][m] by {
                    assert(raw_sets_view(sets@)[j][m] == sets@[j]@[m]@);
                    assert(crate::grammar::rulesets_view(r@)[j][m] == r@[j]@[m]@);
                    assert(r@[j]@[m] == sv[m]);
                    assert(sv[m]@ == rule_of(sets@[j]@[m]@));
                }
                assert(crate::grammar::rulesets_view(r@)[j] =~= want[j]);
            }
        }
        i = i + 1;
    }
    assert(crate::grammar::rulesets_view(r@) =~= want);
    r
}

/// The grammar of a language file's `syntax`.
pub fn language_grammar(lang: &Language) -> (g: Grammar)
    ensures
        g@ == grammar_of(lang@.syntax),
        g@.len() == lang@.syntax.len(),
        forall|t: int|
            0 <= t < g@.len() ==> (#[trigger] g@[t]).0 == lang@.syntax[t].0 && g@[t].1.len() == lang@.syntax[t].1.len(),
        forall|t: int, r: int|
            0 <= t < g@.len() && 0 <= r < g@[t].1.len() ==> (#[trigger] g@[t].1[r]).len() == lang@.syntax[t].1[r].len(),
{
    proof {
        law_grammar_keeps_every_rule(lang@.syntax);
    }
    let mut types: Vec<RuleType> = Vec::new();
    let mut t: usize = 0;
    while t < lang.syntax.len()
        invariant
            t <= lang.syntax@.len(),
            types@.len() == t,
            forall|j: int| 0 <= j < t ==> #[trigger] types@[j]@ == grammar_of(lang@.syntax)[j],
        decreases lang.syntax@.len() - t,
    {
        let raw = &lang.syntax[t];
        let rulesets = sets_of(&raw.rulesets);
        let ty = RuleType { name: raw.name.clone(), rulesets };
        assert(ty@ == grammar_of(lang@.syntax)[t as int]) by {
            assert(lang@.syntax[t as int] == raw@);
            assert(ty@.1 =~= grammar_of(lang@.syntax)[t as int].1);
        }
        types.push(ty);
        t = t + 1;
    }
    let g = Grammar { types };
    assert(g@ =~= grammar_of(lang@.syntax));
    g
}

/// Reads a language file: what it holds and the grammar of its `syntax`;
/// `None` where the text is no JSON.
pub fn read_language(text: &str) -> (r: Option<(Language, Grammar)>)
    ensures
        match language_of(text@) {
            None => r is None,
            Some(lv) => r matches Some((l, g)) && l@ == lv && g@ == grammar_of(lv.syntax),
        },
{
    match parse_language(text) {
        None => None,
        Some(l) => {
            let g = language_grammar(&l);
            Some((l, g))
        },
    }
}

} // verus!
