//! Syntax trees: a rule name and, for each placeholder of the rule, the
//! expression it was filled with and the type of that expression.

use vstd::prelude::*;
use crate::text::{chars_lt, str_lt};

verus! {

/// What a placeholder was filled with: a name, or a phrase of its own.
pub enum Expression {
    Ident(String),
    Exp(SyntaxTree),
}

/// A phrase: the rule it was read by, and its placeholders in the order of
/// their names, each with its expression and type.
pub struct SyntaxTree {
    pub args: Vec<(String, (Expression, String))>,
    pub rule: String,
}

/// The view of an expression.
pub enum ExprV {
    Ident(Seq<char>),
    Exp(TreeV),
}

/// The view of a syntax tree.
pub struct TreeV {
    pub args: Seq<(Seq<char>, (ExprV, Seq<char>))>,
    pub rule: Seq<char>,
}

pub open spec fn expr_view(e: Expression) -> ExprV
    decreases e,
{
    match e {
        Expression::Ident(s) => ExprV::Ident(s@),
        Expression::Exp(t) => ExprV::Exp(tree_view(t)),
    }
}

pub open spec fn tree_view(t: SyntaxTree) -> TreeV
    decreases t,
{
    TreeV { args: args_view(t.args@), rule: t.rule@ }
}

pub open spec fn args_view(a: Seq<(String, (Expression, String))>) -> Seq<(Seq<char>, (ExprV, Seq<char>))>
    decreases a,
{
    if a.len() == 0 {
        seq![]
    } else {
        let last = a[a.len() - 1];
        args_view(a.drop_last()).push((last.0@, (expr_view(last.1.0), last.1.1@)))
    }
}

impl View for Expression {
    type V = ExprV;

    open spec fn view(&self) -> ExprV {
        expr_view(*self)
    }
}

impl View for SyntaxTree {
    type V = TreeV;

    open spec fn view(&self) -> TreeV {
        tree_view(*self)
    }
}

/// `a` with the value of key `k` set to `v`: kept in its place where `k` is
/// present, else put before the first greater key (as a sorted map does).
pub open spec fn insert_key<V>(a: Seq<(Seq<char>, V)>, k: Seq<char>, v: V) -> Seq<(Seq<char>, V)>
    decreases a.len(),
{
    if a.len() == 0 {
        seq![(k, v)]
    } else if a[0].0 == k {
        a.update(0, (k, v))
    } else if chars_lt(k, a[0].0) {
        seq![(k, v)] + a
    } else {
        seq![a[0]] + insert_key(a.drop_first(), k, v)
    }
}

} // verus!

verus! {

/// The view of each placeholder of a tree.
pub proof fn lemma_args_view(a: Seq<(String, (Expression, String))>)
    ensures
        args_view(a).len() == a.len(),
        forall|i: int|
            0 <= i < a.len() ==> #[trigger] args_view(a)[i] == (a[i].0@, (expr_view(a[i].1.0), a[i].1.1@)),
    decreases a.len(),
{
    if a.len() > 0 {
        lemma_args_view(a.drop_last());
    }
}

/// Inserting a name passes over the names before it that are smaller.
pub proof fn lemma_insert_key_skip<V>(s: Seq<(Seq<char>, V)>, k: Seq<char>, v: V, i: int)
    requires
        0 <= i <= s.len(),
        forall|j: int| 0 <= j < i ==> (#[trigger] s[j]).0 != k && !chars_lt(k, s[j].0),
    ensures
        insert_key(s, k, v) == s.take(i) + insert_key(s.skip(i), k, v),
    decreases i,
{
    if i == 0 {
        assert(s.take(0) + insert_key(s.skip(0), k, v) =~= insert_key(s, k, v)) by {
            assert(s.skip(0) =~= s);
        }
    } else {
        let t = s.drop_first();
        assert forall|j: int| 0 <= j < i - 1 implies (#[trigger] t[j]).0 != k && !chars_lt(k, t[j].0) by {
            assert(t[j] == s[j + 1]);
        }
        lemma_insert_key_skip(t, k, v, i - 1);
        assert(t.skip(i - 1) =~= s.skip(i));
        assert(s.take(i) =~= seq![s[0]] + t.take(i - 1));
        assert(seq![s[0]] + (t.take(i - 1) + insert_key(s.skip(i), k, v)) =~= s.take(i) + insert_key(
            s.skip(i),
            k,
            v,
        ));
    }
}

impl SyntaxTree {
    /// A tree of rule `rule` with no placeholders.
    pub fn new(rule: String) -> (t: SyntaxTree)
        ensures
            t@.rule == rule@,
            t@.args == Seq::<(Seq<char>, (ExprV, Seq<char>))>::empty(),
    {
        let t = SyntaxTree { args: Vec::new(), rule };
        proof {
            lemma_args_view(t.args@);
        }
        assert(t@.args =~= Seq::<(Seq<char>, (ExprV, Seq<char>))>::empty());
        t
    }

    /// Sets the placeholder `key` to `expr` of type `ty`, keeping the
    /// placeholders in the order of their names.
    pub fn insert_arg(&mut self, key: String, expr: Expression, ty: String)
        ensures
            final(self)@.rule == old(self)@.rule,
            final(self)@.args == insert_key(old(self)@.args, key@, (expr@, ty@)),
    {
        proof {
            lemma_args_view(self.args@);
        }
        let ghost s = old(self)@.args;
        let ghost val = (expr@, ty@);
        let mut i: usize = 0;
        while i < self.args.len() && !(self.args[i].0 == key) && !str_lt(key.as_str(), self.args[i].0.as_str())
            invariant
                i <= self.args@.len(),
                self.args@ == old(self).args@,
                s == args_view(self.args@),
                s.len() == self.args@.len(),
                forall|j: int| 0 <= j < i ==> (#[trigger] s[j]).0 != key@ && !chars_lt(key@, s[j].0),
            decreases self.args@.len() - i,
        {
            proof {
                lemma_args_view(self.args@);
                assert(s[i as int].0 == self.args@[i as int].0@);
            }
            i = i + 1;
        }
        proof {
            lemma_insert_key_skip(s, key@, val, i as int);
        }
        let ghost rest = s.skip(i as int);
        if i < self.args.len() && self.args[i].0 == key {
            assert(rest[0].0 == key@);
            let ghost a0 = self.args@;
            let (_, old_val) = self.args.remove(i);
            self.args.insert(i, (key, (expr, ty)));
            proof {
                lemma_args_view(self.args@);
                assert(args_view(self.args@) =~= s.take(i as int) + rest.update(0, (key@, val)));
            }
        } else {
            if i < self.args.len() {
                assert(chars_lt(key@, rest[0].0));
            } else {
                assert(rest.len() == 0);
            }
            let ghost a0 = self.args@;
            self.args.insert(i, (key, (expr, ty)));
            proof {
                lemma_args_view(self.args@);
                assert(args_view(self.args@) =~= s.take(i as int) + (seq![(key@, val)] + rest));
            }
        }
    }
}

} // verus!

verus! {

/// Whether the keys of `s` are in strictly increasing order.
pub open spec fn keys_sorted<V>(s: Seq<(Seq<char>, V)>) -> bool {
    forall|i: int, j: int| 0 <= i < j < s.len() ==> chars_lt(#[trigger] s[i].0, #[trigger] s[j].0)
}

/// Setting a key of a map kept in the order of its keys keeps it in order:
/// the key gets the value, every other entry stays, and nothing else is added.
pub proof fn law_insert_keeps_order<V>(s: Seq<(Seq<char>, V)>, k: Seq<char>, v: V)
    requires
        keys_sorted(s),
    ensures
        keys_sorted(insert_key(s, k, v)),
        insert_key(s, k, v).contains((k, v)),
        forall|i: int| 0 <= i < s.len() && s[i].0 != k ==> insert_key(s, k, v).contains(#[trigger] s[i]),
        forall|x: (Seq<char>, V)| #[trigger] insert_key(s, k, v).contains(x) ==> x == (k, v) || (s.contains(x) && x.0 != k),
    decreases s.len(),
{
    let r = insert_key(s, k, v);
    if s.len() == 0 {
        assert(r[0] == (k, v));
    } else if s[0].0 == k {
        assert(r[0] == (k, v));
        assert forall|i: int, j: int| 0 <= i < j < r.len() implies chars_lt(#[trigger] r[i].0, #[trigger] r[j].0) by {
            assert(r[i].0 == s[i].0);
            assert(r[j].0 == s[j].0);
        }
        assert forall|i: int| 0 <= i < s.len() && s[i].0 != k implies r.contains(#[trigger] s[i]) by {
            assert(r[i] == s[i]);
        }
        assert forall|x: (Seq<char>, V)| #[trigger] r.contains(x) implies x == (k, v) || (s.contains(x) && x.0 != k) by {
            let i = choose|i: int| 0 <= i < r.len() && r[i] == x;
            if i > 0 {
                assert(r[i] == s[i]);
                assert(chars_lt(s[0].0, s[i].0));
                if s[i].0 == k {
                    crate::text::lemma_lt_irreflexive(k);
                }
            }
        }
    } else if chars_lt(k, s[0].0) {
        assert(r[0] == (k, v));
        assert forall|i: int, j: int| 0 <= i < j < r.len() implies chars_lt(#[trigger] r[i].0, #[trigger] r[j].0) by {
            assert(r[j] == s[j - 1]);
            if i == 0 {
                if j > 1 {
                    crate::text::lemma_lt_transitive(k, s[0].0, s[j - 1].0);
                }
            } else {
                assert(r[i] == s[i - 1]);
            }
        }
        assert forall|i: int| 0 <= i < s.len() && s[i].0 != k implies r.contains(#[trigger] s[i]) by {
            assert(r[i + 1] == s[i]);
        }
        assert forall|x: (Seq<char>, V)| #[trigger] r.contains(x) implies x == (k, v) || (s.contains(x) && x.0 != k) by {
            let i = choose|i: int| 0 <= i < r.len() && r[i] == x;
            if i > 0 {
                assert(r[i] == s[i - 1]);
                if s[i - 1].0 == k {
                    if i - 1 > 0 {
                        crate::text::lemma_lt_transitive(k, s[0].0, s[i - 1].0);
                    }
                    crate::text::lemma_lt_irreflexive(k);
                }
            }
        }
    } else {
        let t = s.drop_first();
        assert(keys_sorted(t)) by {
            assert forall|i: int, j: int| 0 <= i < j < t.len() implies chars_lt(#[trigger] t[i].0, #[trigger] t[j].0) by {
                assert(t[i] == s[i + 1]);
                assert(t[j] == s[j + 1]);
            }
        }
        law_insert_keeps_order(t, k, v);
        let rt = insert_key(t, k, v);
        assert(r == seq![s[0]] + rt);
        crate::text::lemma_lt_total(k, s[0].0);
        assert forall|i: int, j: int| 0 <= i < j < r.len() implies chars_lt(#[trigger] r[i].0, #[trigger] r[j].0) by {
            assert(r[j] == rt[j - 1]);
            if i == 0 {
                assert(rt.contains(rt[j - 1]));
                let x = rt[j - 1];
                if x != (k, v) {
                    let m = choose|m: int| 0 <= m < t.len() && t[m] == x;
                    assert(t[m] == s[m + 1]);
                }
            } else {
                assert(r[i] == rt[i - 1]);
            }
        }
        assert(r[0] == s[0]);
        assert(rt.contains((k, v)));
        let m0 = choose|m: int| 0 <= m < rt.len() && rt[m] == (k, v);
        assert(r[m0 + 1] == (k, v));
        assert forall|i: int| 0 <= i < s.len() && s[i].0 != k implies r.contains(#[trigger] s[i]) by {
            if i == 0 {
                assert(r[0] == s[0]);
            } else {
                assert(t[i - 1] == s[i]);
                assert(rt.contains(t[i - 1]));
                let m = choose|m: int| 0 <= m < rt.len() && rt[m] == t[i - 1];
                assert(r[m + 1] == s[i]);
            }
        }
        assert forall|x: (Seq<char>, V)| #[trigger] r.contains(x) implies x == (k, v) || (s.contains(x) && x.0 != k) by {
            let i = choose|i: int| 0 <= i < r.len() && r[i] == x;
            if i == 0 {
                assert(s[0] == x);
            } else {
                assert(rt[i - 1] == x);
                assert(rt.contains(x));
                if x != (k, v) {
                    let m = choose|m: int| 0 <= m < t.len() && t[m] == x;
                    assert(s[m + 1] == x);
                }
            }
        }
    }
}

} // verus!
