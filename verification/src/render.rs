//! Rendering with handlebars templates: a registry of named templates that
//! render without escaping, the data they are rendered with, and the
//! line-feed flags of the registered templates.

use vstd::prelude::*;
use handlebars::Handlebars;

verus! {

#[verifier::external_type_specification]
#[verifier::external_body]
pub struct ExHandlebars<'reg>(handlebars::Handlebars<'reg>);

/// The registries this library builds.
pub type Registry = Handlebars<'static>;

/// The templates a registry holds: the source each name was registered with.
pub uninterp spec fn registered(registry: Registry) -> Map<Seq<char>, Seq<char>>;

/// What rendering the template `name` of a registry holding `templates`,
/// with escaping off, gives for `data` (`None`: an error).
pub uninterp spec fn rendered(
    templates: Map<Seq<char>, Seq<char>>,
    name: Seq<char>,
    data: Map<Seq<char>, Seq<char>>,
) -> Option<Seq<char>>;

/// A registry holding no template.
pub open spec fn no_templates() -> Map<Seq<char>, Seq<char>> {
    Map::empty()
}

/// Calls `handlebars::Handlebars::new`. Claimed: the new registry holds no
/// template.
#[verifier::external_body]
fn new_registry() -> (r: Registry)
    ensures
        registered(r) == no_templates(),
{
    Handlebars::new()
}

/// Hands every text to the template unchanged.
pub fn keep_text(text: &str) -> (r: String)
    ensures
        r@ == text@,
{
    text.to_owned()
}

/// Calls `Handlebars::register_escape_fn` with `keep_text`. Claimed: the
/// templates held stay as they were.
#[verifier::external_body]
fn turn_off_escaping(registry: &mut Registry)
    ensures
        registered(*final(registry)) == registered(*old(registry)),
{
    registry.register_escape_fn(keep_text);
}

/// Calls `Handlebars::has_template`. Claimed: it answers whether a template
/// is registered under `name`.
#[verifier::external_body]
fn registry_has(registry: &Registry, name: &str) -> (b: bool)
    ensures
        b == registered(*registry).contains_key(name@),
{
    registry.has_template(name)
}

/// Calls `Handlebars::register_template_string`. Claimed: on success the
/// template is held under `name` (replacing one held before), on failure
/// nothing changes. Whether it succeeds is left unsaid: besides the source,
/// compiling depends on the stack left and on the parser's call budget.
#[verifier::external_body]
fn registry_register(registry: &mut Registry, name: &str, source: &str) -> (ok: bool)
    ensures
        ok ==> registered(*final(registry)) == registered(*old(registry)).insert(name@, source@),
        !ok ==> registered(*final(registry)) == registered(*old(registry)),
{
    registry.register_template_string(name, source).is_ok()
}

/// Index of the first character of `s` at or after `i` that is no blank
/// (space, tab, line feed, carriage return).
pub open spec fn skip_blank(s: Seq<char>, i: int) -> int
    decreases s.len() - i,
{
    if 0 <= i < s.len() && (s[i] == ' ' || s[i] == '\t' || s[i] == '\n' || s[i] == '\r') {
        skip_blank(s, i + 1)
    } else {
        i
    }
}

/// Where a partial name starts in `s` when the tag opened by `{{` just
/// before `i` is a partial tag (`{{>` or `{{#>`, with an optional `~` and
/// blanks between), or -1.
pub open spec fn partial_name_start(s: Seq<char>, i: int) -> int {
    let k0 = skip_blank(s, i);
    let k = if 0 <= k0 < s.len() && s[k0] == '~' {
        skip_blank(s, k0 + 1)
    } else {
        k0
    };
    if 0 <= k < s.len() && s[k] == '>' {
        skip_blank(s, k + 1)
    } else if 0 <= k < s.len() && s[k] == '#' {
        let m = skip_blank(s, k + 1);
        if 0 <= m < s.len() && s[m] == '>' {
            skip_blank(s, m + 1)
        } else {
            -1
        }
    } else {
        -1
    }
}

/// Whether `s[i..]` starts a partial tag.
pub open spec fn partial_tag_at(s: Seq<char>, i: int) -> bool {
    0 <= i && i + 1 < s.len() && s[i] == '{' && s[i + 1] == '{' && partial_name_start(s, i + 2) >= 0
}

/// Index of the first character of `s` at or after `i` that is no blank.
fn skip_blank_exec(s: &[char], i: usize) -> (r: usize)
    requires
        i <= s@.len(),
    ensures
        r as int == skip_blank(s@, i as int),
        i <= r <= s@.len(),
{
    let mut k = i;
    while k < s.len() && (s[k] == ' ' || s[k] == '\t' || s[k] == '\n' || s[k] == '\r')
        invariant
            i <= k <= s@.len(),
            skip_blank(s@, k as int) == skip_blank(s@, i as int),
        decreases s@.len() - k,
    {
        k = k + 1;
    }
    k
}

/// Whether the tag opened by `{{` just before `i` is a partial tag.
fn partial_tag_after(s: &[char], i: usize) -> (b: bool)
    requires
        i <= s@.len(),
    ensures
        b == (partial_name_start(s@, i as int) >= 0),
{
    let k0 = skip_blank_exec(s, i);
    let k = if k0 < s.len() && s[k0] == '~' {
        skip_blank_exec(s, k0 + 1)
    } else {
        k0
    };
    if k < s.len() && s[k] == '>' {
        let _ = skip_blank_exec(s, k + 1);
        true
    } else if k < s.len() && s[k] == '#' {
        let m = skip_blank_exec(s, k + 1);
        if m < s.len() && s[m] == '>' {
            let _ = skip_blank_exec(s, m + 1);
            true
        } else {
            false
        }
    } else {
        false
    }
}


/// Whether `c` may stand in a plain partial name.
pub open spec fn is_partial_symbol_char(c: char) -> bool {
    ('a' <= c && c <= 'z') || ('A' <= c && c <= 'Z') || ('0' <= c && c <= '9') || c == '-' || c == '_' || c
        == '/' || c == '.' || (c as u32) >= 0x80
}

/// Where the run of partial-name characters from `m` ends.
pub open spec fn name_end(s: Seq<char>, m: int) -> int
    decreases s.len() - m,
{
    if 0 <= m < s.len() && is_partial_symbol_char(s[m]) {
        name_end(s, m + 1)
    } else {
        m
    }
}

/// Whether a plain partial name starts at `m`: a run of partial-name
/// characters ended by a blank, `~`, `}` or the end of the text. Such a
/// name is the very name of the template the partial includes.
pub open spec fn named_partial_at(s: Seq<char>, m: int) -> bool {
    let e = name_end(s, m);
    0 <= m < e && (e >= s.len() || s[e] == ' ' || s[e] == '\t' || s[e] == '\n' || s[e] == '\r' || s[e] == '~'
        || s[e] == '}')
}

/// Whether `s[i..]` starts a decorator tag (`{{*` or `{{#*`, with an
/// optional `~` and blanks between), which may define partials of its own.
pub open spec fn decorator_tag_at(s: Seq<char>, i: int) -> bool {
    0 <= i && i + 1 < s.len() && s[i] == '{' && s[i + 1] == '{' && ({
        let k0 = skip_blank(s, i + 2);
        let k = if 0 <= k0 < s.len() && s[k0] == '~' {
            skip_blank(s, k0 + 1)
        } else {
            k0
        };
        (0 <= k < s.len() && s[k] == '*') || (0 <= k < s.len() && s[k] == '#' && ({
            let m = skip_blank(s, k + 1);
            0 <= m < s.len() && s[m] == '*'
        }))
    })
}

/// Whether the template source `src` may include the template `name`: it
/// has a decorator tag (whose inline partials may include anything), or a
/// partial tag whose name is not plain (computed, quoted, bracketed or
/// `@partial-block`: it may include anything), or one whose plain name is
/// `name`.
pub open spec fn may_include(src: Seq<char>, name: Seq<char>) -> bool {
    (exists|i: int| #[trigger] decorator_tag_at(src, i)) || (exists|i: int|
        #[trigger] partial_tag_at(src, i) && ({
            let m = partial_name_start(src, i + 2);
            !named_partial_at(src, m) || src.subrange(m, name_end(src, m)) == name
        }))
}

/// Whether the template source `src` has a partial or decorator tag.
pub open spec fn has_include_tag(src: Seq<char>) -> bool {
    (exists|i: int| #[trigger] partial_tag_at(src, i)) || (exists|i: int| #[trigger] decorator_tag_at(src, i))
}

/// Whether the tag opened by `{{` just before `i` is a decorator tag.
fn decorator_tag_after(s: &[char], i: usize) -> (b: bool)
    requires
        i <= s@.len(),
    ensures
        b == ({
            let k0 = skip_blank(s@, i as int);
            let k = if 0 <= k0 < s@.len() && s@[k0] == '~' {
                skip_blank(s@, k0 + 1)
            } else {
                k0
            };
            (0 <= k < s@.len() && s@[k] == '*') || (0 <= k < s@.len() && s@[k] == '#' && ({
                let m = skip_blank(s@, k + 1);
                0 <= m < s@.len() && s@[m] == '*'
            }))
        }),
{
    let k0 = skip_blank_exec(s, i);
    let k = if k0 < s.len() && s[k0] == '~' {
        skip_blank_exec(s, k0 + 1)
    } else {
        k0
    };
    if k < s.len() && s[k] == '*' {
        true
    } else if k < s.len() && s[k] == '#' {
        let m = skip_blank_exec(s, k + 1);
        m < s.len() && s[m] == '*'
    } else {
        false
    }
}

/// Whether `s` has a partial or decorator tag.
pub fn include_tag_in(s: &[char]) -> (b: bool)
    ensures
        b == has_include_tag(s@),
{
    let mut i: usize = 0;
    while i < s.len() && i + 1 < s.len()
        invariant
            i <= s@.len(),
            forall|j: int| 0 <= j < i ==> !#[trigger] partial_tag_at(s@, j),
            forall|j: int| 0 <= j < i ==> !#[trigger] decorator_tag_at(s@, j),
        decreases s@.len() - i,
    {
        if s[i] == '{' && s[i + 1] == '{' {
            if partial_tag_after(s, i + 2) {
                assert(partial_tag_at(s@, i as int));
                return true;
            }
            if decorator_tag_after(s, i + 2) {
                assert(decorator_tag_at(s@, i as int));
                return true;
            }
        }
        i = i + 1;
    }
    assert forall|j: int| !#[trigger] decorator_tag_at(s@, j) by {
        if 0 <= j < i {
        } else if j >= i {
            assert(!(j + 1 < s@.len()));
        }
    }
    assert forall|j: int| !#[trigger] partial_tag_at(s@, j) by {
        if 0 <= j < i {
        } else if j >= i {
            assert(!(j + 1 < s@.len()));
        }
    }
    false
}

/// Whether every template of `m` that rendering from the names `reach` may
/// get to includes, as far as `may_include` tells, only templates of
/// `reach` ranked lower by `rank`.
pub open spec fn ranked_from(m: Map<Seq<char>, Seq<char>>, reach: Set<Seq<char>>, rank: spec_fn(Seq<char>) -> nat) -> bool {
    forall|a: Seq<char>, b: Seq<char>|
        reach.contains(a) && m.contains_key(a) && m.contains_key(b) && #[trigger] may_include(m[a], b) ==> reach.contains(b)
            && rank(b) < rank(a)
}

/// Whether rendering the template `name` of `m` cannot get, through
/// partials, to a template that includes itself.
pub open spec fn no_partial_cycle(m: Map<Seq<char>, Seq<char>>, name: Seq<char>) -> bool {
    exists|reach: Set<Seq<char>>, rank: spec_fn(Seq<char>) -> nat| reach.contains(name) && ranked_from(m, reach, rank)
}


/// The map that a list of entries builds, a later entry replacing an earlier
/// one of the same key.
pub open spec fn entries_map(e: Seq<(Seq<char>, Seq<char>)>) -> Map<Seq<char>, Seq<char>>
    decreases e.len(),
{
    if e.len() == 0 {
        Map::empty()
    } else {
        entries_map(e.drop_last()).insert(e.last().0, e.last().1)
    }
}

/// The data a template is rendered with: text values under text keys.
pub struct RenderData {
    entries: Vec<(String, String)>,
}

/// The entries of `v` as plain values.
pub open spec fn entry_views(v: Seq<(String, String)>) -> Seq<(Seq<char>, Seq<char>)> {
    Seq::new(v.len(), |i: int| (v[i].0@, v[i].1@))
}

/// Whether no two entries of `e` have the same key.
pub open spec fn keys_unique(e: Seq<(Seq<char>, Seq<char>)>) -> bool {
    forall|i: int, j: int| 0 <= i < j < e.len() ==> (#[trigger] e[i]).0 != (#[trigger] e[j]).0
}

impl RenderData {
    /// Each key is held once.
    #[verifier::type_invariant]
    spec fn one_entry_per_key(self) -> bool {
        keys_unique(entry_views(self.entries@))
    }
}

impl View for RenderData {
    type V = Map<Seq<char>, Seq<char>>;

    closed spec fn view(&self) -> Map<Seq<char>, Seq<char>> {
        entries_map(entry_views(self.entries@))
    }
}

/// Giving the entry of a key a new value, where keys are unique, sets that
/// key in the map the entries build.
proof fn lemma_entries_map_update(e: Seq<(Seq<char>, Seq<char>)>, i: int, v: Seq<char>)
    requires
        keys_unique(e),
        0 <= i < e.len(),
    ensures
        entries_map(e.update(i, (e[i].0, v))) == entries_map(e).insert(e[i].0, v),
    decreases e.len(),
{
    let u = e.update(i, (e[i].0, v));
    if i == e.len() - 1 {
        assert(u.drop_last() =~= e.drop_last());
        assert(entries_map(u) =~= entries_map(e).insert(e[i].0, v));
    } else {
        let d = e.drop_last();
        assert(keys_unique(d)) by {
            assert forall|a: int, b: int| 0 <= a < b < d.len() implies (#[trigger] d[a]).0 != (#[trigger] d[b]).0 by {
                assert(d[a] == e[a] && d[b] == e[b]);
            }
        }
        lemma_entries_map_update(d, i, v);
        assert(u.drop_last() =~= d.update(i, (d[i].0, v)));
        assert(e[i].0 != e.last().0) by {
            assert(e.last() == e[e.len() - 1]);
        }
        assert(entries_map(u) =~= entries_map(e).insert(e[i].0, v));
    }
}

/// A key that no entry has is not in the map the entries build.
proof fn lemma_entries_map_absent(e: Seq<(Seq<char>, Seq<char>)>, k: Seq<char>)
    requires
        forall|i: int| 0 <= i < e.len() ==> (#[trigger] e[i]).0 != k,
    ensures
        !entries_map(e).contains_key(k),
    decreases e.len(),
{
    if e.len() > 0 {
        let d = e.drop_last();
        assert forall|i: int| 0 <= i < d.len() implies (#[trigger] d[i]).0 != k by {
            assert(d[i] == e[i]);
        }
        lemma_entries_map_absent(d, k);
        assert(e.last() == e[e.len() - 1]);
    }
}

impl RenderData {
    pub fn new() -> (d: RenderData)
        ensures
            d@ == Map::<Seq<char>, Seq<char>>::empty(),
    {
        let d = RenderData { entries: Vec::new() };
        assert(entry_views(d.entries@) =~= Seq::<(Seq<char>, Seq<char>)>::empty());
        d
    }

    /// Sets `key` to `value`, replacing the value it had.
    pub fn insert(&mut self, key: String, value: String)
        ensures
            final(self)@ == old(self)@.insert(key@, value@),
    {
        proof {
            use_type_invariant(&*self);
        }
        let mut entries: Vec<(String, String)> = Vec::new();
        std::mem::swap(&mut entries, &mut self.entries);
        let ghost e = entry_views(entries@);
        assert(entries_map(e) == old(self)@);
        let k = crate::text::chars_of(key.as_str());
        let mut i: usize = 0;
        while i < entries.len()
            invariant
                i <= entries@.len(),
                e == entry_views(entries@),
                keys_unique(e),
                entries_map(e) == old(self)@,
                k@ == key@,
                forall|j: int| 0 <= j < i ==> (#[trigger] e[j]).0 != key@,
            decreases entries@.len() - i,
        {
            let name = crate::text::chars_of(entries[i].0.as_str());
            if crate::text::chars_eq(name.as_slice(), k.as_slice()) {
                proof {
                    lemma_entries_map_update(e, i as int, value@);
                }
                assert(e[i as int].0 == key@);
                let ghost v = value@;
                entries.set(i, (key, value));
                assert(entry_views(entries@) =~= e.update(i as int, (e[i as int].0, v)));
                assert(keys_unique(entry_views(entries@))) by {
                    assert forall|a: int, b: int| 0 <= a < b < entries@.len() implies (#[trigger] entry_views(entries@)[a]).0
                        != (#[trigger] entry_views(entries@)[b]).0 by {
                        assert(e[a].0 != e[b].0);
                    }
                }
                self.entries = entries;
                return;
            }
            i = i + 1;
        }
        proof {
            lemma_entries_map_absent(e, key@);
        }
        let ghost kv = (key@, value@);
        entries.push((key, value));
        assert(entry_views(entries@).drop_last() =~= e);
        assert(entry_views(entries@) =~= e.push(kv));
        assert(keys_unique(entry_views(entries@))) by {
            assert forall|a: int, b: int| 0 <= a < b < entries@.len() implies (#[trigger] entry_views(entries@)[a]).0
                != (#[trigger] entry_views(entries@)[b]).0 by {
                if b == entries@.len() - 1 {
                    assert(e[a].0 != key@);
                } else {
                    assert(e[a].0 != e[b].0);
                }
            }
        }
        self.entries = entries;
    }
}

/// A template handed to handlebars to compile: the name it was to be
/// registered under, its source, and whether it compiled.
pub type Compile = (Seq<char>, Seq<char>, bool);

/// A registry of handlebars templates that render text unescaped, with the
/// history of the templates it was asked to compile.
pub struct Renderer {
    registry: Registry,
    log: Ghost<Seq<Compile>>,
}

impl View for Renderer {
    type V = Map<Seq<char>, Seq<char>>;

    /// The templates held, by name.
    closed spec fn view(&self) -> Map<Seq<char>, Seq<char>> {
        registered(self.registry)
    }
}

impl Renderer {
    /// Every template handed to handlebars so far, in order, with its
    /// outcome.
    pub closed spec fn compiles(&self) -> Seq<Compile> {
        self.log@
    }

    /// A registry with no templates.
    pub fn new() -> (r: Renderer)
        ensures
            r@ == Map::<Seq<char>, Seq<char>>::empty(),
            r.compiles() == Seq::<Compile>::empty(),
    {
        let mut registry = new_registry();
        turn_off_escaping(&mut registry);
        Renderer { registry, log: Ghost(Seq::empty()) }
    }

    /// Whether a template is held under `name`.
    pub fn has_template(&self, name: &str) -> (b: bool)
        ensures
            b == self@.contains_key(name@),
    {
        registry_has(&self.registry, name)
    }

    /// Registers `source` under `name`; fails, changing nothing, where
    /// handlebars cannot compile the source. The attempt and its outcome
    /// are added to the history.
    pub fn register_template_string(&mut self, name: &str, source: &str) -> (ok: bool)
        ensures
            ok ==> final(self)@ == old(self)@.insert(name@, source@),
            !ok ==> final(self)@ == old(self)@,
            final(self).compiles() == old(self).compiles().push((name@, source@, ok)),
    {
        let ok = registry_register(&mut self.registry, name, source);
        self.log = Ghost(self.log@.push((name@, source@, ok)));
        ok
    }

    /// Calls `Handlebars::render` on the registry, with the data as a map
    /// (one entry per key, so the map holds the entries as they are). Claimed: the result is `rendered` of the templates held, the name
    /// and the data (escaping is off in every registry of a `Renderer`: `new`
    /// turns it off and nothing turns it on), and rendering succeeds only for
    /// a name that is registered (the registry never loads templates from
    /// elsewhere). Rendering recurses only through partials, so where the
    /// template cannot get to one that includes itself through them, it
    /// returns.
    #[verifier::external_body]
    fn render_registry(&self, name: &str, data: &RenderData) -> (r: Option<String>)
        requires
            no_partial_cycle(self@, name@),
        ensures
            match r {
                Some(s) => rendered(self@, name@, data@) == Some(s@) && self@.contains_key(name@),
                None => rendered(self@, name@, data@) is None,
            },
    {
        let map: std::collections::BTreeMap<String, String> = data.entries.iter().cloned().collect();
        self.registry.render(name, &map).ok()
    }

    /// Renders the template `name` with `data`, where it cannot get through
    /// partials to a template that includes itself.
    pub fn render(&self, name: &str, data: &RenderData) -> (r: Option<String>)
        requires
            no_partial_cycle(self@, name@),
        ensures
            match r {
                Some(s) => rendered(self@, name@, data@) == Some(s@) && self@.contains_key(name@),
                None => rendered(self@, name@, data@) is None,
            },
    {
        self.render_registry(name, data)
    }
}

/// The map that a list of flags builds, a later entry replacing an earlier
/// one of the same key.
pub open spec fn flags_map(e: Seq<(Seq<char>, bool)>) -> Map<Seq<char>, bool>
    decreases e.len(),
{
    if e.len() == 0 {
        Map::empty()
    } else {
        flags_map(e.drop_last()).insert(e.last().0, e.last().1)
    }
}

/// For each registered template, whether a line feed follows what it renders.
pub struct LineFeeds {
    entries: Vec<(String, bool)>,
}

impl View for LineFeeds {
    type V = Map<Seq<char>, bool>;

    closed spec fn view(&self) -> Map<Seq<char>, bool> {
        flags_map(Seq::new(self.entries@.len(), |i: int| (self.entries@[i].0@, self.entries@[i].1)))
    }
}

impl LineFeeds {
    pub fn new() -> (r: LineFeeds)
        ensures
            r@ == Map::<Seq<char>, bool>::empty(),
    {
        let r = LineFeeds { entries: Vec::new() };
        assert(Seq::new(r.entries@.len(), |i: int| (r.entries@[i].0@, r.entries@[i].1)) =~= Seq::<(Seq<char>, bool)>::empty());
        r
    }

    /// Sets the flag of `key` to `value`.
    pub fn insert(&mut self, key: String, value: bool)
        ensures
            final(self)@ == old(self)@.insert(key@, value),
    {
        let ghost e0 = Seq::new(self.entries@.len(), |i: int| (self.entries@[i].0@, self.entries@[i].1));
        self.entries.push((key, value));
        let ghost e1 = Seq::new(self.entries@.len(), |i: int| (self.entries@[i].0@, self.entries@[i].1));
        assert(e1.drop_last() =~= e0);
    }

    /// The flag of `key`, where it has one.
    pub fn get(&self, key: &str) -> (r: Option<bool>)
        ensures
            match r {
                Some(b) => self@.contains_key(key@) && self@[key@] == b,
                None => !self@.contains_key(key@),
            },
    {
        let ghost e = Seq::new(self.entries@.len(), |i: int| (self.entries@[i].0@, self.entries@[i].1));
        let k = crate::text::chars_of(key);
        let mut i = self.entries.len();
        while i > 0
            invariant
                i <= self.entries@.len(),
                k@ == key@,
                e == Seq::new(self.entries@.len(), |i: int| (self.entries@[i].0@, self.entries@[i].1)),
                forall|j: int| i <= j < e.len() ==> (#[trigger] e[j]).0 != key@,
            decreases i,
        {
            let name = crate::text::chars_of(self.entries[i - 1].0.as_str());
            if crate::text::chars_eq(name.as_slice(), k.as_slice()) {
                proof {
                    lemma_flags_tail(e, i as int, key@);
                    assert(e.take(i as int).drop_last() =~= e.take(i - 1));
                }
                return Some(self.entries[i - 1].1);
            }
            i = i - 1;
        }
        proof {
            lemma_flags_tail(e, 0, key@);
            assert(e.take(0) =~= Seq::<(Seq<char>, bool)>::empty());
        }
        None
    }
}

/// Entries after `i` that do not have `key` leave its flag as it was.
proof fn lemma_flags_tail(e: Seq<(Seq<char>, bool)>, i: int, key: Seq<char>)
    requires
        0 <= i <= e.len(),
        forall|j: int| i <= j < e.len() ==> (#[trigger] e[j]).0 != key,
    ensures
        flags_map(e).contains_key(key) == flags_map(e.take(i)).contains_key(key),
        flags_map(e).contains_key(key) ==> flags_map(e)[key] == flags_map(e.take(i))[key],
    decreases e.len() - i,
{
    if i == e.len() {
        assert(e.take(i) =~= e);
    } else {
        let f = e.drop_last();
        assert forall|j: int| i <= j < f.len() implies (#[trigger] f[j]).0 != key by {
            assert(f[j] == e[j]);
        }
        lemma_flags_tail(f, i, key);
        assert(f.take(i) =~= e.take(i));
        assert(e.last() == e[e.len() - 1]);
    }
}

} // verus!
