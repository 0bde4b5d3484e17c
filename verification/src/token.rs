//! Reading one token of a text, forwards or backwards.
//!
//! A token grows character by character for as long as the tokenable
//! pattern matches what has been read. A backslash right before `{` or `}`
//! escapes the brace and is not part of the token; a space is skipped where
//! its index is the text's length in UTF-8 bytes less one (in a text of
//! ASCII characters, at the very end).

use vstd::prelude::*;
use crate::tokenable::{Tokenable, regex_is_match};
use crate::text::{chars_of, string_of, utf8_len, utf8_len_of};

verus! {

/// Whether the character after `s[i]` is a brace.
pub open spec fn next_is_brace(s: Seq<char>, i: int) -> bool {
    i + 1 < s.len() && (s[i + 1] == '{' || s[i + 1] == '}')
}

/// Whether `s[i]` is read into a token: it is not a backslash that escapes
/// the brace after it.
pub open spec fn kept(s: Seq<char>, i: int) -> bool {
    !(next_is_brace(s, i) && s[i] == '\\')
}

/// Reading forwards from `s[i]` with `checking` read so far: the index of the
/// first character that ends the token (or the length of `s`) and the token.
pub open spec fn scan_forward(s: Seq<char>, pat: Seq<char>, i: int, checking: Seq<char>) -> (
    int,
    Seq<char>,
)
    decreases s.len() - i,
{
    if i < 0 || i >= s.len() {
        (s.len() as int, checking)
    } else if (s[i] != ' ' || i != utf8_len(s) - 1) && kept(s, i) {
        if !regex_is_match(pat, checking.push(s[i])) {
            (i, checking)
        } else {
            scan_forward(s, pat, i + 1, checking.push(s[i]))
        }
    } else {
        scan_forward(s, pat, i + 1, checking)
    }
}

/// What is read of the first character of a token at `pos`.
pub open spec fn first_checking(s: Seq<char>, pos: int) -> Seq<char> {
    if s[pos] != ' ' && kept(s, pos) {
        seq![s[pos]]
    } else {
        seq![]
    }
}

/// The token at `pos`: where it ends, and its text.
pub open spec fn token_scan(s: Seq<char>, pat: Seq<char>, pos: int) -> (int, Seq<char>) {
    scan_forward(s, pat, pos + 1, first_checking(s, pos))
}

/// Where the token at `pos` ends (0 in an empty text).
pub open spec fn token_end(s: Seq<char>, pat: Seq<char>, pos: int) -> int {
    if s.len() == 0 {
        0
    } else {
        token_scan(s, pat, pos).0
    }
}

/// Reading backwards: `s[i - 1]` is the next character to read and
/// `checking` what was read so far; the result is where the token starts.
pub open spec fn scan_backward(s: Seq<char>, pat: Seq<char>, pos: int, i: int, checking: Seq<char>) -> int
    decreases i,
{
    if i <= 0 {
        0
    } else {
        let k = i - 1;
        let c = s[k];
        let next = if (c != ' ' || (k != 1 && k != pos - 1)) && kept(s, k) {
            seq![c] + checking
        } else {
            checking
        };
        if !regex_is_match(pat, next) {
            k + 1
        } else {
            scan_backward(s, pat, pos, k, next)
        }
    }
}

/// Where the token that ends at `pos` starts.
pub open spec fn token_start(s: Seq<char>, pat: Seq<char>, pos: int) -> int {
    scan_backward(s, pat, pos, pos, seq![])
}

/// Reading forwards from `i` ends at `i` or later, within the text.
pub proof fn lemma_scan_forward_bounds(s: Seq<char>, pat: Seq<char>, i: int, checking: Seq<char>)
    requires
        0 <= i,
    ensures
        i <= scan_forward(s, pat, i, checking).0 <= s.len() || (i > s.len()
            && scan_forward(s, pat, i, checking).0 == s.len()),
    decreases s.len() - i,
{
    if i < s.len() {
        if (s[i] != ' ' || i != utf8_len(s) - 1) && kept(s, i) {
            if regex_is_match(pat, checking.push(s[i])) {
                lemma_scan_forward_bounds(s, pat, i + 1, checking.push(s[i]));
            }
        } else {
            lemma_scan_forward_bounds(s, pat, i + 1, checking);
        }
    }
}

/// Reading backwards from `i` starts at `i` or earlier, within the text.
pub proof fn lemma_scan_backward_bounds(s: Seq<char>, pat: Seq<char>, pos: int, i: int, checking: Seq<char>)
    ensures
        i >= 0 ==> 0 <= scan_backward(s, pat, pos, i, checking) <= i,
    decreases i,
{
    if i > 0 {
        let k = i - 1;
        let c = s[k];
        let next = if (c != ' ' || (k != 1 && k != pos - 1)) && kept(s, k) {
            seq![c] + checking
        } else {
            checking
        };
        lemma_scan_backward_bounds(s, pat, pos, k, next);
    }
}

/// The characters of `s[i..e]` that reading forwards puts into a token:
/// all but escaping backslashes and a space whose index is the text's length
/// in UTF-8 bytes less one.
pub open spec fn kept_from(s: Seq<char>, i: int, e: int) -> Seq<char>
    decreases e - i,
{
    if i >= e || i < 0 || i >= s.len() {
        seq![]
    } else if (s[i] != ' ' || i != utf8_len(s) - 1) && kept(s, i) {
        seq![s[i]] + kept_from(s, i + 1, e)
    } else {
        kept_from(s, i + 1, e)
    }
}

/// Reading forwards from `i` adds to `checking` exactly the kept characters
/// up to where the token ends.
pub proof fn lemma_scan_forward_text(s: Seq<char>, pat: Seq<char>, i: int, checking: Seq<char>)
    requires
        0 <= i,
    ensures
        scan_forward(s, pat, i, checking).1 == checking + kept_from(s, i, scan_forward(s, pat, i, checking).0),
    decreases s.len() - i,
{
    let e = scan_forward(s, pat, i, checking).0;
    if i >= s.len() {
        assert(checking + kept_from(s, i, e) =~= checking);
    } else if (s[i] != ' ' || i != utf8_len(s) - 1) && kept(s, i) {
        if !regex_is_match(pat, checking.push(s[i])) {
            assert(checking + kept_from(s, i, e) =~= checking);
        } else {
            lemma_scan_forward_text(s, pat, i + 1, checking.push(s[i]));
            lemma_scan_forward_bounds(s, pat, i + 1, checking.push(s[i]));
            assert(checking.push(s[i]) + kept_from(s, i + 1, e) =~= checking + (seq![s[i]] + kept_from(
                s,
                i + 1,
                e,
            )));
        }
    } else {
        lemma_scan_forward_text(s, pat, i + 1, checking);
        lemma_scan_forward_bounds(s, pat, i + 1, checking);
    }
}

/// The text of the token at `pos` (what `token_from_s` gives) is made of the
/// characters from `pos` up to where the token ends (what `token_from`
/// gives): the first one unless it is a space or an escaping backslash, then
/// every one but escaping backslashes and a space whose index is the text's
/// length in UTF-8 bytes less one.
pub proof fn law_token_text_is_its_span(s: Seq<char>, pat: Seq<char>, pos: int)
    requires
        0 <= pos < s.len(),
    ensures
        token_scan(s, pat, pos).1 == first_checking(s, pos) + kept_from(s, pos + 1, token_end(s, pat, pos)),
        pos < token_end(s, pat, pos) <= s.len(),
{
    lemma_scan_forward_text(s, pat, pos + 1, first_checking(s, pos));
    lemma_scan_forward_bounds(s, pat, pos + 1, first_checking(s, pos));
}

/// Where reading forwards stops before the end, the next character is one
/// that would be read, and with it the text no longer matches; and the text
/// read matches wherever anything was added to `checking`.
pub proof fn lemma_scan_forward_stop(s: Seq<char>, pat: Seq<char>, i: int, checking: Seq<char>)
    requires
        0 <= i,
    ensures
        ({
            let (e, text) = scan_forward(s, pat, i, checking);
            &&& e < s.len() ==> (s[e] != ' ' || e != utf8_len(s) - 1) && kept(s, e) && !regex_is_match(
                pat,
                text.push(s[e]),
            )
            &&& text.len() > checking.len() ==> regex_is_match(pat, text)
            &&& text.len() >= checking.len()
            &&& text.len() == checking.len() ==> text == checking
        }),
    decreases s.len() - i,
{
    if i < s.len() {
        if (s[i] != ' ' || i != utf8_len(s) - 1) && kept(s, i) {
            if regex_is_match(pat, checking.push(s[i])) {
                lemma_scan_forward_stop(s, pat, i + 1, checking.push(s[i]));
            }
        } else {
            lemma_scan_forward_stop(s, pat, i + 1, checking);
        }
    }
}

/// The token at `pos` ends where the pattern stops matching: where it ends
/// before the end of the text (what `token_from` gives), the character
/// there would be read, and the token text (what `token_from_s` gives) with
/// it does not match; and a token text longer than what its first
/// character gives matches.
pub proof fn law_token_ends_where_matching_stops(s: Seq<char>, pat: Seq<char>, pos: int)
    requires
        0 <= pos < s.len(),
    ensures
        token_end(s, pat, pos) < s.len() ==> kept(s, token_end(s, pat, pos)) && !regex_is_match(
            pat,
            token_scan(s, pat, pos).1.push(s[token_end(s, pat, pos)]),
        ),
        token_scan(s, pat, pos).1.len() > first_checking(s, pos).len() ==> regex_is_match(
            pat,
            token_scan(s, pat, pos).1,
        ),
{
    lemma_scan_forward_stop(s, pat, pos + 1, first_checking(s, pos));
}

/// Whether reading backwards to the token that ends at `pos` puts `s[k]`
/// into it.
pub open spec fn back_kept(s: Seq<char>, pos: int, k: int) -> bool {
    (s[k] != ' ' || (k != 1 && k != pos - 1)) && kept(s, k)
}

/// The characters of `s[k..i]` that reading backwards puts into a token.
pub open spec fn kept_back(s: Seq<char>, pos: int, k: int, i: int) -> Seq<char>
    decreases i - k,
{
    if k >= i || k < 0 {
        seq![]
    } else {
        (if back_kept(s, pos, k) {
            seq![s[k]]
        } else {
            seq![]
        }) + kept_back(s, pos, k + 1, i)
    }
}

/// Reading backwards from `i` with what was read from `i` to `pos` stops
/// where the text read from one character earlier no longer matches; every
/// text read from a start in between matches.
pub proof fn lemma_scan_backward_stop(s: Seq<char>, pat: Seq<char>, pos: int, i: int)
    requires
        0 <= i <= pos <= s.len(),
    ensures
        ({
            let r = scan_backward(s, pat, pos, i, kept_back(s, pos, i, pos));
            &&& r > 0 ==> !regex_is_match(pat, kept_back(s, pos, r - 1, pos))
            &&& forall|k: int| r <= k < i ==> regex_is_match(pat, #[trigger] kept_back(s, pos, k, pos))
        }),
    decreases i,
{
    if i > 0 {
        let k = i - 1;
        assert(kept_back(s, pos, k, pos) == (if back_kept(s, pos, k) {
            seq![s[k]]
        } else {
            seq![]
        }) + kept_back(s, pos, i, pos));
        let next = if (s[k] != ' ' || (k != 1 && k != pos - 1)) && kept(s, k) {
            seq![s[k]] + kept_back(s, pos, i, pos)
        } else {
            kept_back(s, pos, i, pos)
        };
        if back_kept(s, pos, k) {
            assert(next == kept_back(s, pos, k, pos));
        } else {
            assert(seq![] + kept_back(s, pos, i, pos) =~= kept_back(s, pos, i, pos));
            assert(next == kept_back(s, pos, k, pos));
        }
        if regex_is_match(pat, next) {
            lemma_scan_backward_stop(s, pat, pos, k);
        }
    }
}

/// The token that ends at `pos` starts where matching stops, reading
/// backwards: where it starts after 0 (what `token_from_reverse` gives), the
/// text read from one character earlier does not match, and every text read
/// from a start within the token matches.
pub proof fn law_token_starts_where_matching_stops(s: Seq<char>, pat: Seq<char>, pos: int)
    requires
        0 <= pos <= s.len(),
    ensures
        token_start(s, pat, pos) > 0 ==> !regex_is_match(pat, kept_back(s, pos, token_start(s, pat, pos) - 1, pos)),
        forall|k: int| token_start(s, pat, pos) <= k < pos ==> regex_is_match(pat, #[trigger] kept_back(s, pos, k, pos)),
{
    assert(kept_back(s, pos, pos, pos) == Seq::<char>::empty());
    lemma_scan_backward_stop(s, pat, pos, pos);
}

/// The token of `s` at `pos`: where it ends and its text.
pub fn token_at(s: &[char], pos: usize, tokenable: &Tokenable) -> (r: (usize, Vec<char>))
    requires
        pos < s@.len(),
    ensures
        r.0 == token_scan(s@, tokenable@, pos as int).0,
        r.1@ == token_scan(s@, tokenable@, pos as int).1,
        pos < r.0 <= s@.len(),
{
    let n = s.len();
    let mut checking: Vec<char> = Vec::new();
    let c = s[pos];
    let brace_next = pos + 1 < n && (s[pos + 1] == '{' || s[pos + 1] == '}');
    if c != ' ' && !(brace_next && c == '\\') {
        checking.push(c);
    }
    assert(checking@ =~= first_checking(s@, pos as int));
    proof {
        lemma_scan_forward_bounds(s@, tokenable@, pos + 1, checking@);
    }
    let nb = utf8_len_of(s);
    let mut i = pos + 1;
    while i < n
        invariant
            n == s@.len(),
            nb == utf8_len(s@),
            pos < i <= n,
            scan_forward(s@, tokenable@, i as int, checking@) == token_scan(
                s@,
                tokenable@,
                pos as int,
            ),
        decreases n - i,
    {
        let c = s[i];
        let brace_next = i + 1 < n && (s[i + 1] == '{' || s[i + 1] == '}');
        if (c != ' ' || (i as u128) + 1 != nb) && !(brace_next && c == '\\') {
            let ghost before = checking@;
            checking.push(c);
            if !tokenable.matches(checking.as_slice()) {
                checking.pop();
                assert(checking@ =~= before);
                return (i, checking);
            }
        }
        i = i + 1;
    }
    (n, checking)
}

/// Where the token of `s` that starts at `pos` ends; 0 for an empty text.
pub fn token_from(s: &str, pos: usize, tokenable: &Tokenable) -> (r: usize)
    requires
        s@.len() == 0 || pos < s@.len(),
    ensures
        r == token_end(s@, tokenable@, pos as int),
        s@.len() > 0 ==> pos < r <= s@.len(),
{
    let cs = chars_of(s);
    if cs.len() == 0 {
        return 0;
    }
    token_at(cs.as_slice(), pos, tokenable).0
}

/// The text of the token of `s` that starts at `pos`.
pub fn token_from_s(s: &str, pos: usize, tokenable: &Tokenable) -> (r: String)
    requires
        pos < s@.len(),
    ensures
        r@ == token_scan(s@, tokenable@, pos as int).1,
{
    let cs = chars_of(s);
    let (_, t) = token_at(cs.as_slice(), pos, tokenable);
    string_of(t.as_slice())
}

/// Where the token of `s` that ends at `pos` starts.
pub fn token_back(s: &[char], pos: usize, tokenable: &Tokenable) -> (r: usize)
    requires
        pos <= s@.len(),
    ensures
        r == token_start(s@, tokenable@, pos as int),
        r <= pos,
{
    proof {
        lemma_scan_backward_bounds(s@, tokenable@, pos as int, pos as int, seq![]);
    }
    let n = s.len();
    let mut checking: Vec<char> = Vec::new();
    let mut i = pos;
    assert(checking@ =~= Seq::<char>::empty());
    while i > 0
        invariant
            n == s@.len(),
            i <= pos <= n,
            scan_backward(s@, tokenable@, pos as int, i as int, checking@) == token_start(
                s@,
                tokenable@,
                pos as int,
            ),
        decreases i,
    {
        let k = i - 1;
        let c = s[k];
        let brace_next = k + 1 < n && (s[k + 1] == '{' || s[k + 1] == '}');
        if (c != ' ' || (k != 1 && k != pos - 1)) && !(brace_next && c == '\\') {
            let ghost before = checking@;
            checking.insert(0, c);
            assert(checking@ =~= seq![c] + before);
        }
        if !tokenable.matches(checking.as_slice()) {
            return k + 1;
        }
        i = k;
    }
    0
}

/// Where the token of `s` that ends at `pos` starts.
pub fn token_from_reverse(s: &str, pos: usize, tokenable: &Tokenable) -> (r: usize)
    requires
        pos <= s@.len(),
    ensures
        r == token_start(s@, tokenable@, pos as int),
        r <= pos,
{
    let cs = chars_of(s);
    token_back(cs.as_slice(), pos, tokenable)
}

} // verus!
