//! The grammar of a language: for each phrase type, rule sets of rules.
//! Each rule is a pattern with literal tokens and `{name:type}`
//! placeholders, and, once prepared, the template read from it.

use vstd::prelude::*;
use crate::text::chars_eq;

verus! {

/// One piece of a prepared rule: a literal token, or the `name:type` text of
/// a placeholder.
pub struct Part {
    pub literal: bool,
    pub text: String,
}

impl View for Part {
    type V = (bool, Seq<char>);

    open spec fn view(&self) -> (bool, Seq<char>) {
        (self.literal, self.text@)
    }
}

/// A rule of a phrase type.
pub struct Rule {
    /// The rule's name, where it has one.
    pub name: Option<String>,
    /// The rule's pattern (source grammar) or template (target grammar).
    pub rule: Option<String>,
    /// Whether a line feed follows the rendered phrase.
    pub lf: bool,
    /// The pieces of the pattern, once the grammar is prepared.
    pub tokens: Option<Vec<Part>>,
}

/// The view of a rule.
pub struct RuleV {
    pub name: Option<Seq<char>>,
    pub rule: Option<Seq<char>>,
    pub lf: bool,
    pub tokens: Option<Seq<(bool, Seq<char>)>>,
}

pub open spec fn opt_view(o: Option<String>) -> Option<Seq<char>> {
    match o {
        Some(s) => Some(s@),
        None => None,
    }
}

pub open spec fn parts_view(v: Seq<Part>) -> Seq<(bool, Seq<char>)> {
    Seq::new(v.len(), |i: int| v[i]@)
}

impl View for Rule {
    type V = RuleV;

    open spec fn view(&self) -> RuleV {
        RuleV {
            name: opt_view(self.name),
            rule: opt_view(self.rule),
            lf: self.lf,
            tokens: match self.tokens {
                Some(t) => Some(parts_view(t@)),
                None => None,
            },
        }
    }
}

/// A phrase type: its name and its rule sets.
pub struct RuleType {
    pub name: String,
    pub rulesets: Vec<Vec<Rule>>,
}

pub open spec fn rulesets_view(v: Seq<Vec<Rule>>) -> Seq<Seq<RuleV>> {
    Seq::new(v.len(), |i: int| Seq::new(v[i]@.len(), |k: int| v[i]@[k]@))
}

impl View for RuleType {
    type V = (Seq<char>, Seq<Seq<RuleV>>);

    open spec fn view(&self) -> (Seq<char>, Seq<Seq<RuleV>>) {
        (self.name@, rulesets_view(self.rulesets@))
    }
}

/// The phrase types of a language, in the order they are given.
pub struct Grammar {
    pub types: Vec<RuleType>,
}

impl View for Grammar {
    type V = Seq<(Seq<char>, Seq<Seq<RuleV>>)>;

    open spec fn view(&self) -> Seq<(Seq<char>, Seq<Seq<RuleV>>)> {
        Seq::new(self.types@.len(), |i: int| self.types@[i]@)
    }
}

/// Index of the first type named `ty` at or after `i`, or the number of types.
pub open spec fn type_index_from(g: Seq<(Seq<char>, Seq<Seq<RuleV>>)>, ty: Seq<char>, i: int) -> int
    decreases g.len() - i,
{
    if i < 0 || i >= g.len() {
        g.len() as int
    } else if g[i].0 == ty {
        i
    } else {
        type_index_from(g, ty, i + 1)
    }
}

/// The rule sets of the type `ty`: those of the first type of that name, none
/// where there is no such type.
pub open spec fn rulesets_of(g: Seq<(Seq<char>, Seq<Seq<RuleV>>)>, ty: Seq<char>) -> Seq<Seq<RuleV>> {
    let i = type_index_from(g, ty, 0);
    if 0 <= i < g.len() {
        g[i].1
    } else {
        seq![]
    }
}

/// The index of a type lies between `i` and the number of types, and names that type where it is smaller.
pub proof fn lemma_type_index_bounds(g: Seq<(Seq<char>, Seq<Seq<RuleV>>)>, ty: Seq<char>, i: int)
    requires
        0 <= i <= g.len(),
    ensures
        i <= type_index_from(g, ty, i) <= g.len(),
        type_index_from(g, ty, i) < g.len() ==> g[type_index_from(g, ty, i)].0 == ty,
    decreases g.len() - i,
{
    if i < g.len() && g[i].0 != ty {
        lemma_type_index_bounds(g, ty, i + 1);
    }
}

impl Grammar {
    /// Index of the first type named `ty`, or the number of types.
    pub fn type_index(&self, ty: &[char]) -> (r: usize)
        ensures
            r == type_index_from(self@, ty@, 0),
            r <= self@.len(),
    {
        proof {
            lemma_type_index_bounds(self@, ty@, 0);
        }
        let mut i: usize = 0;
        while i < self.types.len()
            invariant
                i <= self.types@.len(),
                self@.len() == self.types@.len(),
                type_index_from(self@, ty@, i as int) == type_index_from(self@, ty@, 0),
            decreases self.types@.len() - i,
        {
            let name = crate::text::chars_of(self.types[i].name.as_str());
            if chars_eq(name.as_slice(), ty) {
                return i;
            }
            i = i + 1;
        }
        i
    }
}

} // verus!
