//! Building syntax trees from tokens, note literals included, and running
//! a whole source text against an environment.
use vstd::prelude::*;
use vstd::string::{StrSliceExecFns, StringExecFns};
use crate::atom::{Atom, AtomV, view_atom, view_atoms, lemma_view_atoms_push, lemma_view_atoms_index};
use crate::env::{Env, same_text};
use crate::eval::{NumberOps, MAX_DEPTH, eval_post, note_pair};
use crate::env::SymbolDefV;
use crate::text::push_char;
use crate::tokenizer::{tokenize, tokens_of};

verus! {

/// The key offset of a natural pitch letter within its octave, relative to
/// the keyboard's numbering (A4 is key 49, C4 is key 40).
pub open spec fn letter_offset(c: char) -> Option<int> {
    if c == 'C' { Some(-8) } else if c == 'D' { Some(-6) } else if c == 'E' { Some(-4) }
    else if c == 'F' { Some(-3) } else if c == 'G' { Some(-1) } else if c == 'A' { Some(1) }
    else if c == 'B' { Some(3) } else { None }
}

/// The key offset of a pitch: a letter, optionally raised by `#` or lowered by `b`.
pub open spec fn pitch_offset(p: Seq<char>) -> Option<int> {
    if p.len() == 1 {
        letter_offset(p[0])
    } else if p.len() == 2 && letter_offset(p[0]) is Some && (p[1] == '#' || p[1] == 'b') {
        Some(letter_offset(p[0])->0 + if p[1] == '#' { 1int } else { -1int })
    } else {
        None
    }
}

/// The key number of a pitch in an octave: the pitch's offset plus twelve keys per octave.
pub open spec fn key_of(p: Seq<char>, octave: nat) -> Option<int> {
    match pitch_offset(p) {
        Some(o) => Some(o + 12 * octave),
        None => None,
    }
}

fn letter_offset_of(c: char) -> (r: Option<i64>)
    ensures
        r matches Some(o) ==> letter_offset(c) == Some(o as int),
        r is None ==> letter_offset(c) is None,
{
    if c == 'C' { Some(-8) } else if c == 'D' { Some(-6) } else if c == 'E' { Some(-4) }
    else if c == 'F' { Some(-3) } else if c == 'G' { Some(-1) } else if c == 'A' { Some(1) }
    else if c == 'B' { Some(3) } else { None }
}

/// The key number of `pitch` in `octave`, or `None` when the pitch is not
/// a letter from A to G with at most one `#` or `b`.
pub fn note_key(pitch: &str, octave: u32) -> (r: Option<i64>)
    ensures
        r matches Some(k) ==> key_of(pitch@, octave as nat) == Some(k as int),
        r is None ==> key_of(pitch@, octave as nat) is None,
{
    let n = pitch.unicode_len();
    let base = if n == 1 || n == 2 {
        letter_offset_of(pitch.get_char(0))
    } else {
        None
    };
    let offset = match base {
        None => None,
        Some(b) => {
            if n == 1 {
                Some(b)
            } else {
                let acc = pitch.get_char(1);
                if acc == '#' {
                    Some(b + 1)
                } else if acc == 'b' {
                    Some(b - 1)
                } else {
                    None
                }
            }
        },
    };
    match offset {
        None => None,
        Some(o) => Some(o + 12 * (octave as i64)),
    }
}

pub open spec fn is_pitch_char(c: char) -> bool {
    c == 'A' || c == 'B' || c == 'C' || c == 'D' || c == 'E' || c == 'F' || c == 'G' || c == 'R'
        || c == '#' || c == 'b'
}

pub open spec fn is_digit(c: char) -> bool {
    '0' <= c && c <= '9'
}

/// The value of a run of decimal digits.
pub open spec fn digits_value(s: Seq<char>) -> nat
    decreases s.len(),
{
    if s.len() == 0 {
        0
    } else {
        10 * digits_value(s.drop_last()) + ((s.last() as nat) - ('0' as nat)) as nat
    }
}

/// The largest octave a note literal may name.
pub const MAX_OCTAVE: u32 = 9999;

/// Reads an octave: one or more decimal digits whose value is at most `MAX_OCTAVE`.
pub fn parse_octave(s: &str) -> (r: Option<u32>)
    ensures
        r matches Some(v) ==> s@.len() > 0 && (forall|i: int| 0 <= i < s@.len() ==> is_digit(#[trigger] s@[i]))
            && v as nat == digits_value(s@) && v <= MAX_OCTAVE,
        r is None ==> !(s@.len() > 0 && (forall|i: int| 0 <= i < s@.len() ==> is_digit(#[trigger] s@[i]))
            && digits_value(s@) <= MAX_OCTAVE),
{
    let n = s.unicode_len();
    if n == 0 {
        return None;
    }
    let mut v: u32 = 0;
    let mut i: usize = 0;
    while i < n
        invariant
            n == s@.len(),
            i <= n,
            forall|k: int| 0 <= k < i ==> is_digit(#[trigger] s@[k]),
            v as nat == digits_value(s@.subrange(0, i as int)),
            v <= MAX_OCTAVE,
        decreases n - i,
    {
        let c = s.get_char(i);
        assert(s@.subrange(0, i + 1).drop_last() =~= s@.subrange(0, i as int));
        if !('0' <= c && c <= '9') {
            return None;
        }
        let d = (c as u32) - ('0' as u32);
        if v > (MAX_OCTAVE - d) / 10 {
            proof {
                assert(digits_value(s@.subrange(0, i + 1)) == 10 * v + d);
                assert(10 * v + d > MAX_OCTAVE) by (nonlinear_arith)
                    requires v > (MAX_OCTAVE - d) / 10, d <= 9;
                if forall|k: int| 0 <= k < s@.len() ==> is_digit(#[trigger] s@[k]) {
                    lemma_digits_grow(s@, i as int + 1);
                }
            }
            return None;
        }
        v = v * 10 + d;
        i = i + 1;
    }
    assert(s@.subrange(0, n as int) =~= s@);
    Some(v)
}

/// A longer run of digits never has a smaller value.
proof fn lemma_digits_grow(s: Seq<char>, j: int)
    requires
        0 <= j <= s.len(),
        forall|i: int| 0 <= i < s.len() ==> is_digit(#[trigger] s[i]),
    ensures
        digits_value(s) >= digits_value(s.subrange(0, j)),
    decreases s.len() - j,
{
    if j < s.len() {
        lemma_digits_grow(s, j + 1);
        assert(s.subrange(0, j + 1).drop_last() =~= s.subrange(0, j));
    } else {
        assert(s.subrange(0, j) =~= s);
    }
}

fn note_error(token: &str, what: &str) -> (r: String) {
    let mut m = String::from_str("Malformed note literal `");
    m.append(token);
    m.append("`: ");
    m.append(what);
    m
}

/// Where a note literal splits: at its first colon, with the pitch as the
/// longest run of pitch characters before it and the octave between the two.
pub open spec fn note_split(t: Seq<char>, run: int, colon: int) -> bool {
    &&& 0 <= run <= colon < t.len()
    &&& t[colon] == ':'
    &&& forall|j: int| 0 <= j < colon ==> #[trigger] t[j] != ':'
    &&& forall|j: int| 0 <= j < run ==> is_pitch_char(#[trigger] t[j])
    &&& run == colon || !is_pitch_char(t[run])
}

/// A pitch that a note literal may name: the rest `R`, or a key.
pub open spec fn pitch_ok(p: Seq<char>) -> bool {
    p == "R"@ || key_of(p, 0) is Some
}

pub open spec fn octave_ok(o: Seq<char>) -> bool {
    o.len() > 0 && (forall|i: int| 0 <= i < o.len() ==> is_digit(#[trigger] o[i])) && digits_value(o) <= MAX_OCTAVE
}

/// `f` is the frequency that `ops` gives for a pitch in an octave: zero for
/// the rest, else the frequency of the pitch's key number.
pub open spec fn note_frequency<O: NumberOps>(ops: &O, pitch: Seq<char>, octave: nat, f: u32) -> bool {
    if pitch == "R"@ {
        call_ensures(O::from_count, (ops, 0usize), f)
    } else {
        key_of(pitch, octave) is Some && call_ensures(O::key_frequency, (ops, key_of(pitch, octave)->0 as i64), f)
    }
}

/// Reads a note literal `<pitch><octave>:<duration>` into the pair
/// `(frequency duration)`; the pitch `R` is a rest, with frequency zero.
/// It fails when the token has no colon, its pitch or octave is malformed,
/// or `parse_number` does not read its duration.
/// What reading the note literal `t` may give: on success the pair made of
/// the frequency of its pitch in its octave and the duration `parse_number`
/// read; a failure when the literal is malformed or its duration unread.
pub open spec fn note_result<O: NumberOps>(ops: &O, t: Seq<char>, res: Result<AtomV, Seq<char>>) -> bool {
    match res {
        Ok(a) => exists|run: int, colon: int| #[trigger] note_split(t, run, colon) && {
            &&& pitch_ok(t.subrange(0, run))
            &&& octave_ok(t.subrange(run, colon))
            &&& a matches AtomV::List(p) && p.len() == 2 && p[0] is Number && p[1] is Number
            &&& note_frequency(ops, t.subrange(0, run), digits_value(t.subrange(run, colon)), a->List_0[0]->Number_0)
            &&& exists|text: &str| #[trigger] text@ == t.subrange(colon + 1, t.len() as int)
                && call_ensures(O::parse_number, (ops, text), Some(a->List_0[1]->Number_0))
        },
        Err(_) => !(exists|run: int, colon: int| #[trigger] note_split(t, run, colon) && pitch_ok(t.subrange(0, run))
            && octave_ok(t.subrange(run, colon))) || exists|run: int, colon: int| #[trigger] note_split(t, run, colon)
            && exists|text: &str| #[trigger] text@ == t.subrange(colon + 1, t.len() as int)
            && call_ensures(O::parse_number, (ops, text), None::<u32>),
    }
}

pub open spec fn result_view(r: Result<Atom, String>) -> Result<AtomV, Seq<char>> {
    match r {
        Ok(a) => Ok(a@),
        Err(m) => Err(m@),
    }
}

pub fn parse_note<O: NumberOps>(token: &str, ops: &O) -> (r: Result<Atom, String>)
    ensures
        note_result(ops, token@, result_view(r)),
{
    let n = token.unicode_len();
    let mut colon: usize = 0;
    while colon < n && token.get_char(colon) != ':'
        invariant
            n == token@.len(),
            colon <= n,
            forall|j: int| 0 <= j < colon ==> #[trigger] token@[j] != ':',
        decreases n - colon,
    {
        colon = colon + 1;
    }
    if colon == n {
        proof {
            assert forall|run: int, c: int| !#[trigger] note_split(token@, run, c) by {
                if note_split(token@, run, c) {
                    assert(token@[c] == ':');
                }
            }
        }
        return Err(note_error(token, "missing `:`"));
    }
    let mut run: usize = 0;
    while run < colon && is_pitch_char_of(token.get_char(run))
        invariant
            n == token@.len(),
            colon < n,
            run <= colon,
            forall|j: int| 0 <= j < run ==> is_pitch_char(#[trigger] token@[j]),
        decreases colon - run,
    {
        run = run + 1;
    }
    assert(note_split(token@, run as int, colon as int));
    proof { lemma_note_split_unique(token@, run as int, colon as int); }
    let pitch = token.substring_char(0, run);
    let octave_text = token.substring_char(run, colon);
    let duration_text = token.substring_char(colon + 1, n);
    let rest = same_text(pitch, "R");
    if !rest && note_key(pitch, 0).is_none() {
        assert(!pitch_ok(token@.subrange(0, run as int)));
        return Err(note_error(token, "unrecognized pitch"));
    }
    let octave = match parse_octave(octave_text) {
        Some(o) => o,
        None => { return Err(note_error(token, "unreadable octave")); },
    };
    let frequency = if rest {
        ops.from_count(0)
    } else {
        match note_key(pitch, octave) {
            Some(key) => ops.key_frequency(key),
            None => { return Err(note_error(token, "unrecognized pitch")); },
        }
    };
    let parsed = ops.parse_number(duration_text);
    let duration = match parsed {
        Some(d) => d,
        None => {
            assert(note_split(token@, run as int, colon as int) && duration_text@ == token@.subrange(colon + 1, token@.len() as int)
                && call_ensures(O::parse_number, (ops, duration_text), None::<u32>));
            return Err(note_error(token, "unreadable duration"));
        },
    };
    let mut pair: Vec<Atom> = Vec::new();
    pair.push(Atom::Number(frequency));
    pair.push(Atom::Number(duration));
    proof {
        lemma_view_atoms_push(Seq::empty(), Atom::Number(frequency));
        assert(seq![Atom::Number(frequency)] =~= Seq::<Atom>::empty().push(Atom::Number(frequency)));
        lemma_view_atoms_push(seq![Atom::Number(frequency)], Atom::Number(duration));
        assert(view_atoms(Seq::<Atom>::empty()) =~= Seq::<AtomV>::empty());
        assert(seq![Atom::Number(frequency)].push(Atom::Number(duration)) =~= pair@);
        assert(view_atoms(pair@) =~= seq![AtomV::Number(frequency), AtomV::Number(duration)]);
        assert(duration_text@ == token@.subrange(colon + 1, token@.len() as int));
        assert(note_frequency(ops, pitch@, digits_value(octave_text@), frequency));
        assert(call_ensures(O::parse_number, (ops, duration_text), Some(duration)));
    }
    Ok(Atom::List(pair))
}

/// A token splits in one way only.
proof fn lemma_note_split_unique(t: Seq<char>, run: int, colon: int)
    requires
        note_split(t, run, colon),
    ensures
        forall|r2: int, c2: int| #[trigger] note_split(t, r2, c2) ==> r2 == run && c2 == colon,
{
    assert forall|r2: int, c2: int| #[trigger] note_split(t, r2, c2) implies r2 == run && c2 == colon by {
        if c2 < colon {
            assert(t[c2] == ':');
        } else if colon < c2 {
            assert(t[colon] == ':');
        }
        if r2 < run {
            assert(is_pitch_char(t[r2]));
        } else if run < r2 {
            assert(is_pitch_char(t[run]));
        }
    }
}

fn is_pitch_char_of(c: char) -> (r: bool)
    ensures
        r == is_pitch_char(c),
{
    c == 'A' || c == 'B' || c == 'C' || c == 'D' || c == 'E' || c == 'F' || c == 'G' || c == 'R'
        || c == '#' || c == 'b'
}

/// Whether the text contains a colon.
fn has_colon(t: &str) -> (r: bool)
    ensures
        r == t@.contains(':'),
{
    let n = t.unicode_len();
    let mut i: usize = 0;
    while i < n
        invariant
            n == t@.len(),
            i <= n,
            forall|k: int| 0 <= k < i ==> t@[k] != ':',
        decreases n - i,
    {
        if t.get_char(i) == ':' {
            return true;
        }
        i = i + 1;
    }
    false
}

/// Whether the token is a quoted string: at least two characters, with a
/// double quote at each end.
pub open spec fn is_quoted(t: Seq<char>) -> bool {
    t.len() >= 2 && t[0] == '"' && t[t.len() - 1] == '"'
}

/// What a token stands for once numbers and note literals are read.
pub enum TokenKind {
    Open,
    Close,
    Leaf(Atom),
    Bad(String),
}

/// The view of a `TokenKind`.
pub enum KindV {
    Open,
    Close,
    Leaf(AtomV),
    Bad(Seq<char>),
}

impl View for TokenKind {
    type V = KindV;

    open spec fn view(&self) -> KindV {
        match self {
            TokenKind::Open => KindV::Open,
            TokenKind::Close => KindV::Close,
            TokenKind::Leaf(a) => KindV::Leaf(a@),
            TokenKind::Bad(m) => KindV::Bad(m@),
        }
    }
}

pub open spec fn kinds_view(ks: Seq<TokenKind>) -> Seq<KindV> {
    ks.map_values(|k: TokenKind| k@)
}

/// The kind that a token's text gives when the token is not read as a
/// number; `None` for a note literal.
pub open spec fn text_kind(t: Seq<char>) -> Option<KindV> {
    if t == ")"@ {
        Some(KindV::Close)
    } else if t == "("@ {
        Some(KindV::Open)
    } else if t == "TRUE"@ {
        Some(KindV::Leaf(AtomV::Boolean(true)))
    } else if t == "FALSE"@ {
        Some(KindV::Leaf(AtomV::Boolean(false)))
    } else if is_quoted(t) {
        Some(KindV::Leaf(AtomV::Str(t.subrange(1, t.len() - 1))))
    } else if t.contains(':') {
        None
    } else {
        Some(KindV::Leaf(AtomV::Symbol(t)))
    }
}

/// The kind a note literal's reading gives.
pub open spec fn note_kind(res: Result<AtomV, Seq<char>>) -> KindV {
    match res {
        Ok(a) => KindV::Leaf(a),
        Err(m) => KindV::Bad(m),
    }
}

/// How `text` is read: as the number `parse_number` returned for it, or,
/// when it returned none, as its text says, a note literal being read by
/// `parse_note`.
pub open spec fn reads_as<O: NumberOps>(ops: &O, text: &str, k: KindV) -> bool {
    exists|o: Option<u32>| #[trigger] call_ensures(O::parse_number, (ops, text), o) && match o {
        Some(x) => k == KindV::Leaf(AtomV::Number(x)),
        None => match text_kind(text@) {
            Some(x) => k == x,
            None => exists|res: Result<AtomV, Seq<char>>| #[trigger] note_result(ops, text@, res) && k == note_kind(res),
        },
    }
}

/// How a token with the characters `t` is read.
pub open spec fn kind_fits<O: NumberOps>(ops: &O, t: Seq<char>, k: KindV) -> bool {
    exists|text: &str| #[trigger] reads_as(ops, text, k) && text@ == t
}

/// Reads one token.
pub fn classify<O: NumberOps>(t: &str, ops: &O) -> (r: TokenKind)
    ensures
        reads_as(ops, t, r@),
{
    let parsed = ops.parse_number(t);
    if let Some(x) = parsed {
        return TokenKind::Leaf(Atom::Number(x));
    }
    if same_text(t, ")") {
        TokenKind::Close
    } else if same_text(t, "(") {
        TokenKind::Open
    } else if same_text(t, "TRUE") {
        TokenKind::Leaf(Atom::Boolean(true))
    } else if same_text(t, "FALSE") {
        TokenKind::Leaf(Atom::Boolean(false))
    } else {
        let n = t.unicode_len();
        if n >= 2 && t.get_char(0) == '"' && t.get_char(n - 1) == '"' {
            TokenKind::Leaf(Atom::String(String::from_str(t.substring_char(1, n - 1))))
        } else if has_colon(t) {
            let res = parse_note(t, ops);
            proof {
                assert(note_result(ops, t@, result_view(res)));
            }
            match res {
                Ok(a) => TokenKind::Leaf(a),
                Err(e) => TokenKind::Bad(e),
            }
        } else {
            TokenKind::Leaf(Atom::Symbol(String::from_str(t)))
        }
    }
}

/// Parsing from position `p` with the atoms `acc` already read at this
/// level: a leaf is added, `(` reads a nested list, `)` or the end closes the
/// level, and a failed token fails the whole parse. The position returned is
/// the one after the last token used.
pub open spec fn parse_items(ks: Seq<KindV>, p: int, acc: Seq<AtomV>) -> (Result<Seq<AtomV>, Seq<char>>, int)
    decreases ks.len() - p,
{
    if p >= ks.len() {
        (Ok(acc), ks.len() as int)
    } else {
        match ks[p] {
            KindV::Close => (Ok(acc), p + 1),
            KindV::Bad(m) => (Err(m), p + 1),
            KindV::Leaf(a) => parse_items(ks, p + 1, acc.push(a)),
            KindV::Open => {
                let (inner, q) = parse_items(ks, p + 1, Seq::empty());
                match inner {
                    Err(m) => (Err(m), q),
                    Ok(items) => {
                        let next = if q <= p { p + 1 } else if q > ks.len() { ks.len() as int } else { q };
                        parse_items(ks, next, acc.push(AtomV::List(items)))
                    },
                }
            },
        }
    }
}

/// The position a parse reaches lies after its start and within the tokens.
proof fn lemma_parse_bounds(ks: Seq<KindV>, p: int, acc: Seq<AtomV>)
    requires
        0 <= p <= ks.len(),
    ensures
        p < ks.len() ==> p < parse_items(ks, p, acc).1 <= ks.len(),
        p == ks.len() ==> parse_items(ks, p, acc).1 == ks.len(),
    decreases ks.len() - p,
{
    if p < ks.len() {
        match ks[p] {
            KindV::Leaf(a) => { lemma_parse_bounds(ks, p + 1, acc.push(a)); },
            KindV::Open => {
                lemma_parse_bounds(ks, p + 1, Seq::empty());
                let (inner, q) = parse_items(ks, p + 1, Seq::empty());
                if let Ok(items) = inner {
                    lemma_parse_bounds(ks, q, acc.push(AtomV::List(items)));
                }
            },
            _ => {},
        }
    }
}

/// Whether an executable parse result is the one `parse_items` describes.
pub open spec fn parsed_as(
    expected: (Result<Seq<AtomV>, Seq<char>>, int),
    r: Result<(Vec<Atom>, usize), String>,
) -> bool {
    match r {
        Ok((atoms, used)) => expected.0 == Ok::<Seq<AtomV>, Seq<char>>(view_atoms(atoms@))
            && expected.1 == used as int,
        Err(m) => expected.0 == Err::<Seq<AtomV>, Seq<char>>(m@),
    }
}

fn build_level(kinds: &Vec<TokenKind>, start: usize) -> (r: Result<(Vec<Atom>, usize), String>)
    requires
        start <= kinds@.len(),
    ensures
        parsed_as(parse_items(kinds_view(kinds@), start as int, Seq::empty()), r),
    decreases kinds@.len() - start,
{
    let ghost kv = kinds_view(kinds@);
    let mut out: Vec<Atom> = Vec::new();
    let mut p: usize = start;
    assert(view_atoms(out@) =~= Seq::<AtomV>::empty());
    while p < kinds.len()
        invariant
            kv == kinds_view(kinds@),
            kv.len() == kinds@.len(),
            start <= p <= kinds@.len(),
            parse_items(kv, start as int, Seq::empty()) == parse_items(kv, p as int, view_atoms(out@)),
        decreases kinds@.len() - p,
    {
        assert(kv[p as int] == kinds@[p as int]@);
        match &kinds[p] {
            TokenKind::Close => {
                return Ok((out, p + 1));
            },
            TokenKind::Bad(m) => {
                return Err(m.clone());
            },
            TokenKind::Leaf(a) => {
                let c = a.duplicate();
                proof { lemma_view_atoms_push(out@, c); }
                out.push(c);
                p = p + 1;
            },
            TokenKind::Open => {
                proof { lemma_parse_bounds(kv, p + 1, Seq::empty()); }
                match build_level(kinds, p + 1) {
                    Err(m) => {
                        return Err(m);
                    },
                    Ok((inner, q)) => {
                        proof { lemma_view_atoms_push(out@, Atom::List(inner)); }
                        out.push(Atom::List(inner));
                        p = q;
                    },
                }
            },
        }
    }
    Ok((out, kinds.len()))
}

/// Builds syntax trees from read tokens, up to the first unmatched `)`,
/// and says how many tokens were used; a failed token fails the whole build.
pub fn build_tree(kinds: &Vec<TokenKind>) -> (r: Result<(Vec<Atom>, usize), String>)
    ensures
        parsed_as(parse_items(kinds_view(kinds@), 0, Seq::empty()), r),
{
    build_level(kinds, 0)
}

/// Builds the syntax trees of a token sequence, up to the first unmatched
/// `)`, and says how many tokens were used. A malformed note literal fails
/// the whole sequence.
pub fn construct_ast<O: NumberOps>(tokens: &Vec<String>, ops: &O) -> (r: Result<(Vec<Atom>, usize), String>)
    ensures
        exists|ks: Seq<KindV>| {
            &&& ks.len() == tokens@.len()
            &&& forall|i: int| 0 <= i < tokens@.len() ==> #[trigger] kind_fits(ops, tokens@[i]@, ks[i])
            &&& parsed_as(parse_items(ks, 0, Seq::empty()), r)
        },
        tokens@.len() == 0 ==> (r matches Ok((atoms, used)) && atoms@.len() == 0),
{
    let mut kinds: Vec<TokenKind> = Vec::new();
    let mut i: usize = 0;
    while i < tokens.len()
        invariant
            i <= tokens@.len(),
            kinds@.len() == i,
            forall|k: int| 0 <= k < i ==> #[trigger] kind_fits(ops, tokens@[k]@, kinds@[k]@),
        decreases tokens@.len() - i,
    {
        let text = tokens[i].as_str();
        let k = classify(text, ops);
        assert(kind_fits(ops, tokens@[i as int]@, k@));
        kinds.push(k);
        i = i + 1;
    }
    let r = build_tree(&kinds);
    proof {
        let ks = kinds_view(kinds@);
        assert(forall|k: int| 0 <= k < tokens@.len() ==> ks[k] == kinds@[k]@);
        if tokens@.len() == 0 {
            assert(view_atoms(Seq::<Atom>::empty()) =~= Seq::<AtomV>::empty());
        }
    }
    r
}

/// Each value in `rs` is what evaluating the atom at its position promises,
/// the environment passing from one evaluation to the next.
pub open spec fn evaluated_in_order<O: NumberOps>(
    ops: &O,
    atoms: Seq<AtomV>,
    e0: Map<Seq<char>, SymbolDefV>,
    e1: Map<Seq<char>, SymbolDefV>,
    rs: Seq<AtomV>,
) -> bool {
    &&& rs.len() == atoms.len()
    &&& exists|envs: Seq<Map<Seq<char>, SymbolDefV>>| {
        &&& envs.len() == atoms.len() + 1
        &&& envs[0] == e0
        &&& envs.last() == e1
        &&& forall|i: int| 0 <= i < atoms.len() ==> #[trigger] eval_post(ops, MAX_DEPTH as nat, atoms[i], envs[i], envs[i + 1], rs[i])
    }
}

/// Evaluates atoms in order against one environment, each seeing the
/// definitions of those before it.
pub fn eval_all<O: NumberOps>(atoms: &Vec<Atom>, env: &mut Env, ops: &O) -> (r: Vec<Atom>)
    ensures
        evaluated_in_order(ops, view_atoms(atoms@), old(env)@, final(env)@, view_atoms(r@)),
{
    proof { lemma_view_atoms_index(atoms@); }
    let mut out: Vec<Atom> = Vec::new();
    let ghost mut envs: Seq<Map<Seq<char>, SymbolDefV>> = seq![env@];
    let mut i: usize = 0;
    while i < atoms.len()
        invariant
            view_atoms(atoms@).len() == atoms@.len(),
            forall|k: int| 0 <= k < atoms@.len() ==> #[trigger] view_atoms(atoms@)[k] == view_atom(atoms@[k]),
            i <= atoms@.len(),
            out@.len() == i,
            envs.len() == i + 1,
            envs[0] == old(env)@,
            envs.last() == env@,
            forall|k: int| 0 <= k < i ==> #[trigger] eval_post(ops, MAX_DEPTH as nat, atoms@[k]@, envs[k], envs[k + 1], out@[k]@),
        decreases atoms@.len() - i,
    {
        let v = atoms[i].eval(env, ops);
        proof { envs = envs.push(env@); }
        out.push(v);
        i = i + 1;
    }
    proof {
        lemma_view_atoms_index(out@);
        let av = view_atoms(atoms@);
        let rv = view_atoms(out@);
        assert forall|k: int| 0 <= k < av.len() implies #[trigger] eval_post(ops, MAX_DEPTH as nat, av[k], envs[k], envs[k + 1], rv[k]) by {
            assert(av[k] == atoms@[k]@);
            assert(rv[k] == out@[k]@);
        }
    }
    out
}

/// Tokenizes, parses and evaluates a source text against `env`, returning
/// the value of each top-level form in order. A malformed note literal
/// gives a single error and evaluates nothing.
pub fn parse_input<O: NumberOps>(env: &mut Env, s: &str, ops: &O) -> (r: Vec<Atom>)
    ensures
        exists|ks: Seq<KindV>| #![trigger parse_items(ks, 0, Seq::<AtomV>::empty())] {
            &&& ks.len() == tokens_of(s@).len()
            &&& forall|i: int| 0 <= i < ks.len() ==> #[trigger] kind_fits(ops, tokens_of(s@)[i], ks[i])
            &&& match parse_items(ks, 0, Seq::empty()).0 {
                Ok(atoms) => evaluated_in_order(ops, atoms, old(env)@, final(env)@, view_atoms(r@)),
                Err(m) => view_atoms(r@) == seq![AtomV::Error(m)] && final(env)@ == old(env)@,
            }
        },
{
    let tokens = tokenize(s);
    proof {
        let tv = tokens@.map_values(|t: String| t@);
        assert(tv.len() == tokens@.len());
        assert(forall|i: int| 0 <= i < tokens@.len() ==> #[trigger] tv[i] == tokens@[i]@);
    }
    match construct_ast(&tokens, ops) {
        Ok((atoms, _)) => eval_all(&atoms, env, ops),
        Err(msg) => {
            let mut v: Vec<Atom> = Vec::new();
            v.push(Atom::Error(msg));
            proof {
                lemma_view_atoms_push(Seq::empty(), v@[0]);
                assert(Seq::<Atom>::empty().push(v@[0]) =~= v@);
                assert(view_atoms(Seq::<Atom>::empty()) =~= Seq::<AtomV>::empty());
                assert(Seq::<AtomV>::empty().push(view_atom(v@[0])) =~= seq![view_atom(v@[0])]);
            }
            v
        },
    }
}

/// Evaluates a source text against `env` for its definitions alone.
pub fn update_symbols<O: NumberOps>(env: &mut Env, s: &str, ops: &O)
    ensures
        exists|ks: Seq<KindV>| #![trigger parse_items(ks, 0, Seq::<AtomV>::empty())] {
            &&& ks.len() == tokens_of(s@).len()
            &&& forall|i: int| 0 <= i < ks.len() ==> #[trigger] kind_fits(ops, tokens_of(s@)[i], ks[i])
            &&& match parse_items(ks, 0, Seq::empty()).0 {
                Ok(atoms) => exists|rs: Seq<AtomV>| #[trigger] evaluated_in_order(ops, atoms, old(env)@, final(env)@, rs),
                Err(m) => final(env)@ == old(env)@,
            }
        },
{
    let r = parse_input(env, s, ops);
}

} // verus!
