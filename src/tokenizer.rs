//! Splitting source text into tokens.
use vstd::prelude::*;
use vstd::string::StrSliceExecFns;
use crate::text::push_char;

verus! {

/// The characters that carry the Unicode `White_Space` property, which is
/// what `char::is_whitespace` tests.
pub open spec fn is_space(c: char) -> bool {
    ('\u{9}' <= c && c <= '\u{d}') || c == ' ' || c == '\u{85}' || c == '\u{a0}'
        || c == '\u{1680}' || ('\u{2000}' <= c && c <= '\u{200a}') || c == '\u{2028}'
        || c == '\u{2029}' || c == '\u{202f}' || c == '\u{205f}' || c == '\u{3000}'
}

/// The text after every parenthesis has been given a space on each side.
pub open spec fn spaced(s: Seq<char>) -> Seq<char>
    decreases s.len(),
{
    if s.len() == 0 {
        Seq::empty()
    } else {
        let c = s.last();
        let piece = if c == '(' || c == ')' { seq![' ', c, ' '] } else { seq![c] };
        spaced(s.drop_last()) + piece
    }
}

/// Scanning state: the finished tokens, the token being read, and whether
/// the scan is inside a quoted span.
pub struct ScanState {
    pub done: Seq<Seq<char>>,
    pub current: Seq<char>,
    pub quoted: bool,
}

/// Closes the current token, keeping it only when it is not empty.
pub open spec fn flush(done: Seq<Seq<char>>, current: Seq<char>) -> Seq<Seq<char>> {
    if current.len() == 0 { done } else { done.push(current) }
}

/// One character of the scan: whitespace outside quotes ends a token, a
/// double quote toggles quoting and is kept, anything else is kept.
pub open spec fn scan_step(st: ScanState, c: char) -> ScanState {
    if !st.quoted && is_space(c) {
        ScanState { done: flush(st.done, st.current), current: Seq::empty(), quoted: false }
    } else if c == '"' {
        ScanState { done: st.done, current: st.current.push(c), quoted: !st.quoted }
    } else {
        ScanState { done: st.done, current: st.current.push(c), quoted: st.quoted }
    }
}

pub open spec fn scan(s: Seq<char>) -> ScanState
    decreases s.len(),
{
    if s.len() == 0 {
        ScanState { done: Seq::empty(), current: Seq::empty(), quoted: false }
    } else {
        scan_step(scan(s.drop_last()), s.last())
    }
}

/// The tokens of a text: parentheses stand alone, a quoted span is part of
/// one token with its quotes, and the other tokens are the maximal runs of
/// non-whitespace characters.
pub open spec fn tokens_of(s: Seq<char>) -> Seq<Seq<char>> {
    let st = scan(spaced(s));
    flush(st.done, st.current)
}

/// Tests a character as `char::is_whitespace` does.
pub fn is_whitespace(c: char) -> (r: bool)
    ensures
        r == is_space(c),
{
    ('\u{9}' <= c && c <= '\u{d}') || c == ' ' || c == '\u{85}' || c == '\u{a0}'
        || c == '\u{1680}' || ('\u{2000}' <= c && c <= '\u{200a}') || c == '\u{2028}'
        || c == '\u{2029}' || c == '\u{202f}' || c == '\u{205f}' || c == '\u{3000}'
}

/// Feeds one character into the scan held in `tokens`, `current` and `quoted`.
fn feed(tokens: &mut Vec<String>, current: &mut String, quoted: &mut bool, c: char)
    requires
        forall|j: int| 0 <= j < old(tokens)@.len() ==> old(tokens)@[j]@.len() > 0,
    ensures
        forall|j: int| 0 <= j < final(tokens)@.len() ==> final(tokens)@[j]@.len() > 0,
        ({
            let st = scan_step(
                ScanState { done: old(tokens)@.map_values(|t: String| t@), current: old(current)@, quoted: *old(quoted) },
                c,
            );
            &&& final(tokens)@.map_values(|t: String| t@) == st.done
            &&& final(current)@ == st.current
            &&& *final(quoted) == st.quoted
        }),
{
    if !*quoted && is_whitespace(c) {
        if !current.as_str().is_empty() {
            let t = current.clone();
            tokens.push(t);
            assert(tokens@.map_values(|t: String| t@) =~= old(tokens)@.map_values(|t: String| t@).push(old(current)@));
        }
        *current = String::new();
    } else if c == '"' {
        *quoted = !*quoted;
        push_char(current, c);
    } else {
        push_char(current, c);
    }
}

/// Splits source text into tokens: `(` and `)` always stand alone, text
/// between double quotes stays in one token together with its quotes, and
/// every other token is a maximal run of non-whitespace characters.
pub fn tokenize(s: &str) -> (r: Vec<String>)
    ensures
        r@.map_values(|t: String| t@) == tokens_of(s@),
        forall|i: int| 0 <= i < r@.len() ==> r@[i]@.len() > 0,
{
    let n = s.unicode_len();
    let mut tokens: Vec<String> = Vec::new();
    let mut current = String::new();
    let mut quoted = false;
    let mut i: usize = 0;
    while i < n
        invariant
            n == s@.len(),
            i <= n,
            forall|j: int| 0 <= j < tokens@.len() ==> tokens@[j]@.len() > 0,
            ({
                let st = scan(spaced(s@.subrange(0, i as int)));
                &&& tokens@.map_values(|t: String| t@) == st.done
                &&& current@ == st.current
                &&& quoted == st.quoted
            }),
        decreases n - i,
    {
        let c = s.get_char(i);
        let ghost pre = s@.subrange(0, i as int);
        assert(s@.subrange(0, i + 1).drop_last() =~= pre);
        assert(s@.subrange(0, i + 1).last() == c);
        if c == '(' || c == ')' {
            feed(&mut tokens, &mut current, &mut quoted, ' ');
            feed(&mut tokens, &mut current, &mut quoted, c);
            feed(&mut tokens, &mut current, &mut quoted, ' ');
            proof {
                let x = spaced(pre);
                assert(spaced(s@.subrange(0, i + 1)) == x + seq![' ', c, ' ']);
                assert((x + seq![' ', c, ' ']).drop_last() =~= x + seq![' ', c]);
                assert((x + seq![' ', c]).drop_last() =~= x + seq![' ']);
                assert((x + seq![' ']).drop_last() =~= x);
                assert(scan(x + seq![' ']) == scan_step(scan(x), ' '));
                assert(scan(x + seq![' ', c]) == scan_step(scan(x + seq![' ']), c));
                assert(scan(x + seq![' ', c, ' ']) == scan_step(scan(x + seq![' ', c]), ' '));
            }
        } else {
            feed(&mut tokens, &mut current, &mut quoted, c);
            proof {
                let x = spaced(pre);
                assert(spaced(s@.subrange(0, i + 1)) == x + seq![c]);
                assert((x + seq![c]).drop_last() =~= x);
                assert(scan(x + seq![c]) == scan_step(scan(x), c));
            }
        }
        i = i + 1;
    }
    assert(s@.subrange(0, n as int) =~= s@);
    if !current.as_str().is_empty() {
        tokens.push(current);
        assert(tokens@.map_values(|t: String| t@) =~= tokens_of(s@));
    }
    tokens
}

} // verus!
