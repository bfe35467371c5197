//! The evaluator: built-in forms, definitions and user function calls.
use vstd::prelude::*;
use crate::atom::{Atom, AtomV, Status, StatusV, view_atom, view_atoms, lemma_view_atoms_push, lemma_view_atoms_index};
use crate::env::{Env, SymbolDef, SymbolDefV, is_builtin, is_builtin_name, same_text, resolve, names_view, subst};
use crate::text::{decimal, decimal_string, join3};
use crate::display::same_atom;
use vstd::string::StringExecFns;

verus! {

/// Samples per second of the rendered timeline.
pub const SAMPLING_RATE: usize = 44100;

/// How deeply evaluation may nest before it gives up with an error.
pub const MAX_DEPTH: usize = 400;

/// The four arithmetic operators.
#[derive(Clone, Copy, Debug)]
pub enum ArithOp {
    Add,
    Sub,
    Mul,
    Div,
}

/// The three trigonometric functions.
#[derive(Clone, Copy, Debug)]
pub enum TrigFn {
    Sin,
    Cos,
    Tan,
}

/// Arithmetic on numbers held as IEEE-754 single-precision bit patterns.
/// Its methods carry no contracts: the evaluator's contracts name what a
/// method returned through `call_ensures`, so they hold for every
/// implementation.
pub trait NumberOps {
    /// The number a token denotes, if it is one.
    fn parse_number(&self, text: &str) -> Option<u32>;

    /// `a op b`.
    fn arith(&self, op: ArithOp, a: u32, b: u32) -> u32;

    /// `f(x)`.
    fn trig(&self, f: TrigFn, x: u32) -> u32;

    /// The number nearest to `n`.
    fn from_count(&self, n: usize) -> u32;

    /// `duration * beat * rate`, truncated to a count.
    fn scaled_count(&self, duration: u32, beat: u32, rate: usize) -> usize;

    /// The frequency of a key number under equal temperament with key 49 at 440 Hz.
    fn key_frequency(&self, key: i64) -> u32;

    /// The number written in decimal.
    fn number_text(&self, x: u32) -> String;
}

pub open spec fn arity_msg(n: Seq<char>, expected: Seq<char>, found: nat) -> Seq<char> {
    "Incorrect number of arguments to `"@ + n + "` (expected "@ + expected + ", found "@
        + decimal(found) + ")"@
}

pub open spec fn type_msg(i: nat, n: Seq<char>, ty: Seq<char>) -> Seq<char> {
    "Argument "@ + decimal(i) + " of `"@ + n + "` has incorrect type: expected "@ + ty
}

pub open spec fn is_arith(n: Seq<char>) -> bool {
    n == "+"@ || n == "-"@ || n == "*"@ || n == "/"@
}

pub open spec fn is_trig(n: Seq<char>) -> bool {
    n == "sin"@ || n == "cos"@ || n == "tan"@
}

/// Whether a built-in form accepts `k` arguments.
pub open spec fn builtin_arity_ok(n: Seq<char>, k: nat) -> bool {
    if n == "load"@ || is_trig(n) {
        k == 1
    } else if is_arith(n) {
        k >= 1
    } else if n == "equals"@ {
        k >= 2
    } else if n == "if"@ {
        k == 3
    } else if n == "def"@ {
        k == 2 || k == 3
    } else if n == "render"@ || n == "map"@ {
        k == 2
    } else {
        true
    }
}

/// The argument count that the arity error of a built-in form names.
pub open spec fn builtin_expected(n: Seq<char>) -> Seq<char> {
    if n == "load"@ || is_trig(n) {
        "1"@
    } else if is_arith(n) {
        "1+"@
    } else if n == "equals"@ {
        "2+"@
    } else if n == "if"@ {
        "3"@
    } else {
        "2"@
    }
}

pub open spec fn symbol_missing_msg(n: Seq<char>) -> Seq<char> {
    "Symbol `"@ + n + "` not found"@
}

pub open spec fn function_missing_msg(n: Seq<char>) -> Seq<char> {
    "Function `"@ + n + "` not found"@
}

pub open spec fn first_class_msg() -> Seq<char> {
    "Functions are not yet supported as first-class objects"@
}

/// The value of a bare symbol in an environment.
pub open spec fn symbol_value(env: Map<Seq<char>, SymbolDefV>, n: Seq<char>) -> AtomV {
    if !env.contains_key(n) {
        AtomV::Error(symbol_missing_msg(n))
    } else if env[n].args.len() == 0 {
        env[n].body
    } else {
        AtomV::Error(first_class_msg())
    }
}

fn arity_error(name: &str, expected: &str, found: usize) -> (r: Atom)
    ensures
        r@ == AtomV::Error(arity_msg(name@, expected@, found as nat)),
{
    let mut s = join3("Incorrect number of arguments to `", name, "` (expected ");
    s.append(expected);
    s.append(", found ");
    let d = decimal_string(found);
    s.append(d.as_str());
    s.append(")");
    Atom::Error(s)
}

fn type_error(index: usize, name: &str, ty: &str) -> (r: Atom)
    ensures
        r@ == AtomV::Error(type_msg(index as nat, name@, ty@)),
{
    let mut s = String::from_str("Argument ");
    let d = decimal_string(index);
    s.append(d.as_str());
    s.append(" of `");
    s.append(name);
    s.append("` has incorrect type: expected ");
    s.append(ty);
    Atom::Error(s)
}

pub open spec fn all_symbols(ps: Seq<AtomV>) -> bool {
    forall|i: int| 0 <= i < ps.len() ==> ps[i] is Symbol
}

pub open spec fn param_names(ps: Seq<AtomV>) -> Seq<Seq<char>> {
    Seq::new(ps.len(), |i: int| ps[i]->Symbol_0)
}

pub open spec fn distinct(ns: Seq<Seq<char>>) -> bool {
    forall|i: int, j: int| 0 <= i < j < ns.len() ==> ns[i] != ns[j]
}

pub open spec fn not_symbols_msg() -> Seq<char> {
    "Expected Symbols in parameter list of `def`"@
}

pub open spec fn repeated_msg() -> Seq<char> {
    "Repeated name in parameter list of `def`"@
}

/// What `(def name value)` does: binds the value it returns, with no parameters.
pub open spec fn def_value_post(
    s: Seq<AtomV>,
    e0: Map<Seq<char>, SymbolDefV>,
    e1: Map<Seq<char>, SymbolDefV>,
    r: AtomV,
) -> bool {
    match s[1] {
        AtomV::Symbol(x) => e1.contains_key(x) && e1[x] == SymbolDefV { args: Seq::empty(), body: r },
        _ => r == AtomV::Error(type_msg(1, "def"@, "Symbol"@)) && e1 == e0,
    }
}

/// What `(def name (params...) body)` does: binds the body with its
/// parameters resolved, or fails and leaves the environment as it was.
pub open spec fn def_fn_post(
    s: Seq<AtomV>,
    e0: Map<Seq<char>, SymbolDefV>,
    e1: Map<Seq<char>, SymbolDefV>,
    r: AtomV,
) -> bool {
    if !(s[1] is Symbol) {
        r == AtomV::Error(type_msg(1, "def"@, "Symbol"@)) && e1 == e0
    } else if !(s[2] is List) {
        r == AtomV::Error(type_msg(2, "def"@, "List"@)) && e1 == e0
    } else if !all_symbols(s[2]->List_0) {
        r == AtomV::Error(not_symbols_msg()) && e1 == e0
    } else if !distinct(param_names(s[2]->List_0)) {
        r == AtomV::Error(repeated_msg()) && e1 == e0
    } else {
        let names = param_names(s[2]->List_0);
        let b = resolve(s[3], names, e0);
        if b is Error {
            r == b && e1 == e0
        } else {
            r == AtomV::Nil && e1 == e0.insert(s[1]->Symbol_0, SymbolDefV { args: names, body: b })
        }
    }
}

/// Whether an atom is a note pair `(frequency duration)` of two numbers.
pub open spec fn note_pair(a: AtomV) -> bool {
    a matches AtomV::List(p) && p.len() == 2 && p[0] is Number && p[1] is Number
}

/// What `(render beat notes)` gives: its two arguments are taken as written,
/// and a well-formed note list becomes the timeline of its frequencies, each
/// note lasting as many samples as `scaled_count` gives for its duration.
pub open spec fn render_post<O: NumberOps>(ops: &O, s: Seq<AtomV>, r: AtomV) -> bool {
    if !(s[1] is Number) {
        r == AtomV::Error(type_msg(1, "render"@, "Number"@))
    } else if !(s[2] is List) {
        r == AtomV::Error(type_msg(2, "render"@, "List"@))
    } else {
        let notes = s[2]->List_0;
        if forall|j: int| 0 <= j < notes.len() ==> #[trigger] note_pair(notes[j]) {
            exists|spans: Seq<NoteSpan>| {
                &&& spans.len() == notes.len()
                &&& forall|j: int| 0 <= j < notes.len() ==> #[trigger] spans[j].frequency
                    == notes[j]->List_0[0]->Number_0
                &&& forall|j: int| 0 <= j < notes.len() ==> call_ensures(
                    O::scaled_count,
                    (ops, notes[j]->List_0[1]->Number_0, s[1]->Number_0, SAMPLING_RATE),
                    #[trigger] spans[j].samples,
                )
                &&& r == AtomV::List(timeline(spans))
            }
        } else {
            r is Error
        }
    }
}

pub open spec fn arith_op_of(n: Seq<char>) -> ArithOp {
    if n == "+"@ {
        ArithOp::Add
    } else if n == "-"@ {
        ArithOp::Sub
    } else if n == "*"@ {
        ArithOp::Mul
    } else {
        ArithOp::Div
    }
}

pub open spec fn trig_of(n: Seq<char>) -> TrigFn {
    if n == "sin"@ {
        TrigFn::Sin
    } else if n == "cos"@ {
        TrigFn::Cos
    } else {
        TrigFn::Tan
    }
}

/// An atom that evaluates to itself.
pub open spec fn self_evaluating(a: AtomV) -> bool {
    !(a is List) && !(a is Symbol)
}

/// A non-empty list of atoms that evaluate to themselves, so that it
/// evaluates to itself.
pub open spec fn literal_data(a: AtomV) -> bool {
    a matches AtomV::List(s) && s.len() >= 1 && forall|i: int| 0 <= i < s.len() ==> #[trigger] self_evaluating(s[i])
}

/// The arguments of a form: the items after its head.
pub open spec fn args_of(s: Seq<AtomV>) -> Seq<AtomV> {
    s.subrange(1, s.len() as int)
}

pub open spec fn all_numbers(s: Seq<AtomV>) -> bool {
    forall|i: int| 0 <= i < s.len() ==> #[trigger] s[i] is Number
}

pub open spec fn numbers_of(s: Seq<AtomV>) -> Seq<u32> {
    Seq::new(s.len(), |i: int| s[i]->Number_0)
}

/// `accs` are the running results of folding `vals` from the left, each
/// step one call of `ops.arith` with the result so far and the next value.
pub open spec fn fold_chain<O: NumberOps>(ops: &O, op: ArithOp, vals: Seq<u32>, accs: Seq<u32>) -> bool {
    &&& vals.len() >= 1
    &&& accs.len() == vals.len()
    &&& accs[0] == vals[0]
    &&& forall|i: int| #![trigger vals[i], accs[i]] 1 <= i < vals.len() ==> call_ensures(O::arith, (ops, op, accs[i - 1], vals[i]), accs[i])
}

/// `x` is what folding `vals` from the left with `op` gives.
pub open spec fn folds_left<O: NumberOps>(ops: &O, op: ArithOp, vals: Seq<u32>, x: u32) -> bool {
    exists|accs: Seq<u32>| #[trigger] fold_chain(ops, op, vals, accs) && accs.last() == x
}

/// What `(map (params...) seq)` gives once `seq` has evaluated to the
/// numbers `fs`: for element `i` it evaluates the call made of `params`, the
/// element and its time `i * SAMPLING_RATE` (both converted by `from_count`
/// and multiplied by `arith`), in order, and lists the results.
pub open spec fn map_post<O: NumberOps>(
    ops: &O,
    d: nat,
    params: Seq<AtomV>,
    fs: Seq<AtomV>,
    e0: Map<Seq<char>, SymbolDefV>,
    e1: Map<Seq<char>, SymbolDefV>,
    r: AtomV,
) -> bool
    decreases d, 2int,
{
    &&& r is List
    &&& r->List_0.len() == fs.len()
    &&& exists|rate: u32, counts: Seq<u32>, times: Seq<u32>, envs: Seq<Map<Seq<char>, SymbolDefV>>|
        #[trigger] map_sizes(fs.len(), rate, counts, times, envs) && map_chain(
            ops,
            d,
            params,
            fs,
            e0,
            e1,
            r->List_0,
            rate,
            counts,
            times,
            envs,
        )
}

/// The lengths of the records of a `map` over `n` elements.
pub open spec fn map_sizes(
    n: nat,
    rate: u32,
    counts: Seq<u32>,
    times: Seq<u32>,
    envs: Seq<Map<Seq<char>, SymbolDefV>>,
) -> bool {
    counts.len() == n && times.len() == n && envs.len() == n + 1
}

/// The calls behind a `map`: `rate` is the sampling rate as a number, and
/// call `i` gets the count `i` converted, its time, and the environments
/// before and after it.
pub open spec fn map_chain<O: NumberOps>(
    ops: &O,
    d: nat,
    params: Seq<AtomV>,
    fs: Seq<AtomV>,
    e0: Map<Seq<char>, SymbolDefV>,
    e1: Map<Seq<char>, SymbolDefV>,
    rs: Seq<AtomV>,
    rate: u32,
    counts: Seq<u32>,
    times: Seq<u32>,
    envs: Seq<Map<Seq<char>, SymbolDefV>>,
) -> bool
    decreases d, 1int,
{
    &&& call_ensures(O::from_count, (ops, SAMPLING_RATE), rate)
    &&& counts.len() == fs.len()
    &&& times.len() == fs.len()
    &&& envs.len() == fs.len() + 1
    &&& envs[0] == e0
    &&& envs.last() == e1
    &&& forall|i: int| 0 <= i < fs.len() ==> {
        &&& call_ensures(O::from_count, (ops, i as usize), #[trigger] counts[i])
        &&& call_ensures(O::arith, (ops, ArithOp::Mul, counts[i], rate), times[i])
        &&& eval_post(
            ops,
            d,
            AtomV::List(params.push(fs[i]).push(AtomV::Number(times[i]))),
            envs[i],
            envs[i + 1],
            rs[i],
        )
    }
}

/// The sizes of a record of `n` evaluations: their values and the
/// environments before, between and after them.
pub open spec fn run_sizes(n: int, vals: Seq<AtomV>, envs: Seq<Map<Seq<char>, SymbolDefV>>) -> bool {
    vals.len() == n && envs.len() == n + 1
}

/// `vals` are what the atoms `args` evaluate to, one after another, each
/// starting from the environment the one before it left.
pub open spec fn evals_in_order<O: NumberOps>(
    ops: &O,
    d: nat,
    args: Seq<AtomV>,
    vals: Seq<AtomV>,
    envs: Seq<Map<Seq<char>, SymbolDefV>>,
) -> bool
    decreases d, 1int,
{
    &&& vals.len() == args.len()
    &&& envs.len() == args.len() + 1
    &&& forall|i: int| 0 <= i < args.len() ==> eval_post(ops, d, args[i], envs[i], envs[i + 1], #[trigger] vals[i])
}

/// What evaluating a list headed by a symbol promises, where `d` is the
/// nesting depth left for its parts.
pub open spec fn form_post<O: NumberOps>(
    ops: &O,
    d: nat,
    s: Seq<AtomV>,
    n: Seq<char>,
    e0: Map<Seq<char>, SymbolDefV>,
    e1: Map<Seq<char>, SymbolDefV>,
    r: AtomV,
) -> bool
    decreases d, 3int,
{
    let k = (s.len() - 1) as nat;
    &&& n == "quit"@ ==> r == AtomV::StatusMsg(StatusV::Quit) && e1 == e0
    &&& n == "out"@ ==> r == AtomV::Nil && e1 == e0
    &&& is_builtin(n) && !builtin_arity_ok(n, k) ==> r == AtomV::Error(
        arity_msg(n, builtin_expected(n), k),
    ) && e1 == e0
    &&& !is_builtin(n) && !e0.contains_key(n) ==> r == AtomV::Error(function_missing_msg(n)) && e1
        == e0
    &&& !is_builtin(n) && e0.contains_key(n) && e0[n].args.len() != k ==> r == AtomV::Error(
        arity_msg(n, decimal(e0[n].args.len()), k),
    ) && e1 == e0
    &&& !is_builtin(n) && e0.contains_key(n) && e0[n].args.len() == k ==> eval_post(
        ops,
        d,
        subst(e0[n].body, s),
        e0,
        e1,
        r,
    )
    &&& n == "load"@ && k == 1 ==> r is StatusMsg || r == AtomV::Error(type_msg(1, n, "String"@))
    &&& d > 0 && n == "load"@ && k == 1 && s[1] is Str ==> r == AtomV::StatusMsg(
        StatusV::LoadModule(s[1]->Str_0),
    ) && e1 == e0
    &&& d > 0 && n == "def"@ && k == 2 && s[1] is Symbol && self_evaluating(s[2]) ==> r == s[2]
        && e1 == e0.insert(s[1]->Symbol_0, SymbolDefV { args: Seq::empty(), body: s[2] })
    &&& is_arith(n) && k >= 1 ==> r is Number || exists|i: nat| 1 <= i <= k && r == AtomV::Error(
        type_msg(i, n, "Number"@),
    )
    &&& d > 0 && is_arith(n) && k >= 1 && all_numbers(args_of(s)) ==> r is Number && folds_left(
        ops,
        arith_op_of(n),
        numbers_of(args_of(s)),
        r->Number_0,
    ) && e1 == e0
    &&& is_trig(n) && k == 1 ==> r is Number || r == AtomV::Error(type_msg(1, n, "Number"@))
    &&& d > 0 && is_trig(n) && k == 1 && s[1] is Number ==> r is Number && call_ensures(
        O::trig,
        (ops, trig_of(n), s[1]->Number_0),
        r->Number_0,
    ) && e1 == e0
    &&& n == "equals"@ && k >= 2 ==> r is Boolean
    &&& d > 0 && n == "equals"@ && k >= 2 && (forall|i: int| 0 <= i < k ==> #[trigger] self_evaluating(args_of(s)[i]))
        ==> r == AtomV::Boolean(neighbours_equal(args_of(s))) && e1 == e0
    &&& d > 0 && n == "if"@ && k == 3 && s[1] is Boolean ==> eval_post(
        ops,
        d,
        if s[1]->Boolean_0 { s[2] } else { s[3] },
        e0,
        e1,
        r,
    )
    &&& is_arith(n) && k >= 1 ==> exists|j: int, vals: Seq<AtomV>, envs: Seq<Map<Seq<char>, SymbolDefV>>|
        #[trigger] run_sizes(j, vals, envs) && {
            &&& 1 <= j <= k
            &&& envs[0] == e0
            &&& envs[j] == e1
            &&& evals_in_order(ops, d, args_of(s).subrange(0, j), vals, envs)
            &&& all_numbers(vals.subrange(0, j - 1))
            &&& if vals[j - 1] is Number {
                j == k && r is Number && folds_left(ops, arith_op_of(n), numbers_of(vals), r->Number_0)
            } else {
                r == AtomV::Error(type_msg(j as nat, n, "Number"@))
            }
        }
    &&& is_trig(n) && k == 1 ==> exists|vals: Seq<AtomV>, envs: Seq<Map<Seq<char>, SymbolDefV>>|
        #[trigger] run_sizes(1, vals, envs) && {
            &&& envs[0] == e0
            &&& envs[1] == e1
            &&& evals_in_order(ops, d, args_of(s), vals, envs)
            &&& if vals[0] is Number {
                r is Number && call_ensures(O::trig, (ops, trig_of(n), vals[0]->Number_0), r->Number_0)
            } else {
                r == AtomV::Error(type_msg(1, n, "Number"@))
            }
        }
    &&& n == "load"@ && k == 1 ==> exists|vals: Seq<AtomV>, envs: Seq<Map<Seq<char>, SymbolDefV>>|
        #[trigger] run_sizes(1, vals, envs) && {
            &&& envs[0] == e0
            &&& envs[1] == e1
            &&& evals_in_order(ops, d, args_of(s), vals, envs)
            &&& if vals[0] is Str {
                r == AtomV::StatusMsg(StatusV::LoadModule(vals[0]->Str_0))
            } else {
                r == AtomV::Error(type_msg(1, n, "String"@))
            }
        }
    &&& n == "equals"@ && k >= 2 ==> exists|vals: Seq<AtomV>, envs: Seq<Map<Seq<char>, SymbolDefV>>|
        #[trigger] run_sizes(k as int, vals, envs) && {
            &&& envs[0] == e0
            &&& envs[k as int] == e1
            &&& evals_in_order(ops, d, args_of(s), vals, envs)
            &&& r == AtomV::Boolean(neighbours_equal(vals))
        }
    &&& n == "if"@ && k == 3 ==> exists|vals: Seq<AtomV>, envs: Seq<Map<Seq<char>, SymbolDefV>>|
        #[trigger] run_sizes(1, vals, envs) && {
            &&& envs[0] == e0
            &&& evals_in_order(ops, d, s.subrange(1, 2), vals, envs)
            &&& if vals[0] is Boolean {
                eval_post(ops, d, if vals[0]->Boolean_0 { s[2] } else { s[3] }, envs[1], e1, r)
            } else {
                r == AtomV::Error(type_msg(1, n, "Boolean"@)) && e1 == envs[1]
            }
        }
    &&& n == "def"@ && k == 2 && s[1] is Symbol ==> exists|vals: Seq<AtomV>, envs: Seq<Map<Seq<char>, SymbolDefV>>|
        #[trigger] run_sizes(1, vals, envs) && {
            &&& envs[0] == e0
            &&& evals_in_order(ops, d, s.subrange(2, 3), vals, envs)
            &&& r == vals[0]
            &&& e1 == envs[1].insert(s[1]->Symbol_0, SymbolDefV { args: Seq::empty(), body: r })
        }
    &&& n == "map"@ && k == 2 && s[1] is List ==> exists|vals: Seq<AtomV>, envs: Seq<Map<Seq<char>, SymbolDefV>>|
        #[trigger] run_sizes(1, vals, envs) && {
            &&& envs[0] == e0
            &&& evals_in_order(ops, d, s.subrange(2, 3), vals, envs)
            &&& !(vals[0] is List) ==> r == AtomV::Error(type_msg(2, n, "List"@)) && e1 == envs[1]
            &&& vals[0] is List && all_numbers(vals[0]->List_0) ==> map_post(
                ops,
                d,
                s[1]->List_0,
                vals[0]->List_0,
                envs[1],
                e1,
                r,
            )
            &&& vals[0] is List && !all_numbers(vals[0]->List_0) ==> r == AtomV::Error(
                "Unable to read frequency in `map`"@,
            )
        }
    &&& n == "render"@ && k == 2 ==> render_post(ops, s, r) && e1 == e0
    &&& n == "map"@ && k == 2 && !(s[1] is List) ==> r == AtomV::Error(type_msg(1, n, "List"@)) && e1
        == e0
    &&& d > 1 && n == "map"@ && k == 2 && s[1] is List && literal_data(s[2]) && all_numbers(s[2]->List_0)
        ==> map_post(ops, d, s[1]->List_0, s[2]->List_0, e0, e1, r)
    &&& n == "def"@ && s.len() == 3 ==> def_value_post(s, e0, e1, r)
    &&& n == "def"@ && s.len() == 4 ==> def_fn_post(s, e0, e1, r)
}

/// What evaluating an atom with `depth` levels of nesting left promises,
/// whatever the parts that it does not pin down evaluate to.
pub open spec fn eval_post<O: NumberOps>(
    ops: &O,
    depth: nat,
    a: AtomV,
    e0: Map<Seq<char>, SymbolDefV>,
    e1: Map<Seq<char>, SymbolDefV>,
    r: AtomV,
) -> bool
    decreases depth, 0int,
{
    if depth == 0 {
        r == AtomV::Error(too_deep_msg()) && e1 == e0
    } else {
        match a {
            AtomV::Symbol(n) => r == symbol_value(e0, n) && e1 == e0,
            AtomV::List(s) => {
                &&& s.len() == 0 ==> r == AtomV::List(Seq::empty()) && e1 == e0
                &&& s.len() >= 1 && !(s[0] is Symbol) ==> exists|vals: Seq<AtomV>, envs: Seq<Map<Seq<char>, SymbolDefV>>|
                    #[trigger] run_sizes(s.len() as int, vals, envs) && {
                        &&& envs[0] == e0
                        &&& envs[s.len() as int] == e1
                        &&& evals_in_order(ops, (depth - 1) as nat, s, vals, envs)
                        &&& r == AtomV::List(vals)
                    }
                &&& depth > 1 && literal_data(a) ==> r == a && e1 == e0
                &&& s.len() >= 1 && s[0] is Symbol ==> form_post(
                    ops,
                    (depth - 1) as nat,
                    s,
                    s[0]->Symbol_0,
                    e0,
                    e1,
                    r,
                )
            },
            _ => r == a && e1 == e0,
        }
    }
}

/// One evaluation is a record of one.
proof fn lemma_single_run<O: NumberOps>(
    ops: &O,
    d: nat,
    a: AtomV,
    e0: Map<Seq<char>, SymbolDefV>,
    e1: Map<Seq<char>, SymbolDefV>,
    v: AtomV,
)
    requires
        eval_post(ops, d, a, e0, e1, v),
    ensures
        run_sizes(1, seq![v], seq![e0, e1]),
        evals_in_order(ops, d, seq![a], seq![v], seq![e0, e1]),
{
    assert(seq![v][0] == v);
}

/// A record grows by one more evaluation.
proof fn lemma_run_push<O: NumberOps>(
    ops: &O,
    d: nat,
    args: Seq<AtomV>,
    vals: Seq<AtomV>,
    envs: Seq<Map<Seq<char>, SymbolDefV>>,
    a: AtomV,
    e: Map<Seq<char>, SymbolDefV>,
    v: AtomV,
)
    requires
        evals_in_order(ops, d, args, vals, envs),
        eval_post(ops, d, a, envs.last(), e, v),
    ensures
        evals_in_order(ops, d, args.push(a), vals.push(v), envs.push(e)),
        run_sizes(args.len() + 1int, vals.push(v), envs.push(e)),
{
    let na = args.push(a);
    let nv = vals.push(v);
    let ne = envs.push(e);
    assert forall|i: int| 0 <= i < na.len() implies eval_post(ops, d, na[i], ne[i], ne[i + 1], #[trigger] nv[i]) by {
        if i < args.len() {
            assert(na[i] == args[i] && ne[i] == envs[i] && ne[i + 1] == envs[i + 1] && nv[i] == vals[i]);
        } else {
            assert(na[i] == a && ne[i] == envs.last() && ne[i + 1] == e && nv[i] == v);
        }
    }
}

/// Each built-in name begins with its own character, so no two are equal.
proof fn lemma_builtin_heads()
    ensures
        "quit"@.len() > 0 && "quit"@[0] == 'q',
        "load"@.len() > 0 && "load"@[0] == 'l',
        "+"@.len() > 0 && "+"@[0] == '+',
        "-"@.len() > 0 && "-"@[0] == '-',
        "*"@.len() > 0 && "*"@[0] == '*',
        "/"@.len() > 0 && "/"@[0] == '/',
        "sin"@.len() > 0 && "sin"@[0] == 's',
        "cos"@.len() > 0 && "cos"@[0] == 'c',
        "tan"@.len() > 0 && "tan"@[0] == 't',
        "equals"@.len() > 0 && "equals"@[0] == 'e',
        "if"@.len() > 0 && "if"@[0] == 'i',
        "def"@.len() > 0 && "def"@[0] == 'd',
        "render"@.len() > 0 && "render"@[0] == 'r',
        "map"@.len() > 0 && "map"@[0] == 'm',
        "out"@.len() > 0 && "out"@[0] == 'o',
{
    reveal_strlit("quit");
    reveal_strlit("load");
    reveal_strlit("+");
    reveal_strlit("-");
    reveal_strlit("*");
    reveal_strlit("/");
    reveal_strlit("sin");
    reveal_strlit("cos");
    reveal_strlit("tan");
    reveal_strlit("equals");
    reveal_strlit("if");
    reveal_strlit("def");
    reveal_strlit("render");
    reveal_strlit("map");
    reveal_strlit("out");
}

fn lookup_symbol(name: &String, env: &Env) -> (r: Atom)
    ensures
        r@ == symbol_value(env@, name@),
{
    match env.get(name) {
        None => Atom::Error(join3("Symbol `", name.as_str(), "` not found")),
        Some(def) => {
            if def.args.len() == 0 {
                def.eval.duplicate()
            } else {
                Atom::Error(String::from_str("Functions are not yet supported as first-class objects"))
            }
        },
    }
}

/// Checks a parameter list and collects its names.
fn parameter_names(ps: &Vec<Atom>) -> (r: Result<Vec<String>, Atom>)
    ensures
        r matches Ok(names) ==> all_symbols(view_atoms(ps@)) && distinct(param_names(view_atoms(ps@)))
            && names_view(names@) == param_names(view_atoms(ps@)),
        r matches Err(e) ==> (!all_symbols(view_atoms(ps@)) && e@ == AtomV::Error(not_symbols_msg()))
            || (all_symbols(view_atoms(ps@)) && !distinct(param_names(view_atoms(ps@)))
                && e@ == AtomV::Error(repeated_msg())),
{
    proof { lemma_view_atoms_index(ps@); }
    let ghost v = view_atoms(ps@);
    let mut i: usize = 0;
    while i < ps.len()
        invariant
            v == view_atoms(ps@),
            v.len() == ps@.len(),
            forall|k: int| 0 <= k < ps@.len() ==> #[trigger] v[k] == view_atom(ps@[k]),
            i <= ps@.len(),
            forall|k: int| 0 <= k < i ==> v[k] is Symbol,
        decreases ps@.len() - i,
    {
        if let Atom::Symbol(_) = &ps[i] {
        } else {
            assert(!(v[i as int] is Symbol));
            return Err(Atom::Error(String::from_str("Expected Symbols in parameter list of `def`")));
        }
        i = i + 1;
    }
    let ghost pn = param_names(v);
    let mut names: Vec<String> = Vec::new();
    let mut i: usize = 0;
    while i < ps.len()
        invariant
            v == view_atoms(ps@),
            v.len() == ps@.len(),
            forall|k: int| 0 <= k < ps@.len() ==> #[trigger] v[k] == view_atom(ps@[k]),
            all_symbols(v),
            pn == param_names(v),
            i <= ps@.len(),
            names_view(names@) == pn.subrange(0, i as int),
            distinct(pn.subrange(0, i as int)),
        decreases ps@.len() - i,
    {
        if let Atom::Symbol(x) = &ps[i] {
            let mut j: usize = 0;
            while j < names.len()
                invariant
                    names_view(names@) == pn.subrange(0, i as int),
                    v.len() == ps@.len(),
                    v == view_atoms(ps@),
                    all_symbols(v),
                    distinct(pn.subrange(0, i as int)),
                    i < ps@.len(),
                    v[i as int] == view_atom(ps@[i as int]),
                    ps@[i as int] == Atom::Symbol(*x),
                    pn == param_names(v),
                    j <= names@.len(),
                    forall|k: int| 0 <= k < j ==> pn[k] != pn[i as int],
                decreases names@.len() - j,
            {
                assert(pn.len() == v.len());
                assert(names_view(names@).len() == names@.len());
                assert(names@.len() == i);
                assert(names_view(names@)[j as int] == names@[j as int]@);
                assert(pn.subrange(0, i as int)[j as int] == pn[j as int]);
                if names[j] == *x {
                    assert(pn[i as int] == x@);
                    assert(pn[j as int] == pn[i as int]);
                    assert(!distinct(pn));
                    return Err(Atom::Error(String::from_str("Repeated name in parameter list of `def`")));
                }
                j = j + 1;
            }
            assert(names_view(names@).len() == names@.len());
            assert(pn.len() == v.len());
            let ghost before = names@;
            names.push(x.clone());
            proof {
                assert(pn[i as int] == x@);
                assert(names@ == before.push(*x));
                assert forall|k: int| 0 <= k < i + 1 implies #[trigger] names_view(names@)[k] == pn.subrange(0, i + 1)[k] by {
                    if k < i {
                        assert(names_view(before)[k] == pn.subrange(0, i as int)[k]);
                    }
                }
                assert(names_view(names@) =~= pn.subrange(0, i + 1));
                assert forall|a: int, b: int| 0 <= a < b < i + 1 implies #[trigger] pn.subrange(0, i + 1)[a] != #[trigger] pn.subrange(0, i + 1)[b] by {
                    if b < i {
                        assert(pn.subrange(0, i as int)[a] != pn.subrange(0, i as int)[b]);
                    }
                }
            }
        }
        i = i + 1;
    }
    assert(pn.subrange(0, ps@.len() as int) =~= pn);
    Ok(names)
}

fn eval_def_fn(items: &Vec<Atom>, env: &mut Env) -> (r: Atom)
    requires
        items@.len() == 4,
    ensures
        def_fn_post(view_atoms(items@), old(env)@, final(env)@, r@),
{
    proof { lemma_view_atoms_index(items@); }
    let fn_name = match &items[1] {
        Atom::Symbol(x) => x,
        _ => { return type_error(1, "def", "Symbol"); },
    };
    let plist = match &items[2] {
        Atom::List(ps) => ps,
        _ => { return type_error(2, "def", "List"); },
    };
    let names = match parameter_names(plist) {
        Ok(names) => names,
        Err(e) => { return e; },
    };
    let body = items[3].parse_args(&names, env);
    if let Atom::Error(_) = body {
        return body;
    }
    env.insert(fn_name.clone(), SymbolDef { args: names, eval: body });
    Atom::Nil
}

/// One note of a rendered sequence: a frequency and how many samples it lasts.
pub struct NoteSpan {
    pub frequency: u32,
    pub samples: usize,
}

/// The per-sample frequency timeline of a sequence of notes.
pub open spec fn timeline(notes: Seq<NoteSpan>) -> Seq<AtomV>
    decreases notes.len(),
{
    if notes.len() == 0 {
        Seq::empty()
    } else {
        let last = notes.last();
        timeline(notes.drop_last()) + Seq::new(last.samples as nat, |i: int| AtomV::Number(last.frequency))
    }
}

/// Expands notes into a timeline: each frequency is repeated once per sample
/// slot of its note, in order.
pub fn expand_notes(notes: &Vec<NoteSpan>) -> (r: Vec<Atom>)
    ensures
        view_atoms(r@) == timeline(notes@),
{
    let mut out: Vec<Atom> = Vec::new();
    let mut i: usize = 0;
    while i < notes.len()
        invariant
            i <= notes@.len(),
            view_atoms(out@) == timeline(notes@.subrange(0, i as int)),
        decreases notes@.len() - i,
    {
        let f = notes[i].frequency;
        let count = notes[i].samples;
        let ghost start = view_atoms(out@);
        let mut j: usize = 0;
        while j < count
            invariant
                j <= count,
                view_atoms(out@) == start + Seq::new(j as nat, |k: int| AtomV::Number(f)),
            decreases count - j,
        {
            proof { lemma_view_atoms_push(out@, Atom::Number(f)); }
            out.push(Atom::Number(f));
            assert(start + Seq::new((j + 1) as nat, |k: int| AtomV::Number(f))
                =~= (start + Seq::new(j as nat, |k: int| AtomV::Number(f))).push(AtomV::Number(f)));
            j = j + 1;
        }
        assert(notes@.subrange(0, i + 1).drop_last() =~= notes@.subrange(0, i as int));
        i = i + 1;
    }
    assert(notes@.subrange(0, notes@.len() as int) =~= notes@);
    out
}

fn eval_render<O: NumberOps>(items: &Vec<Atom>, ops: &O) -> (r: Atom)
    requires
        items@.len() == 3,
    ensures
        render_post(ops, view_atoms(items@), r@),
{
    proof { lemma_view_atoms_index(items@); }
    let beat = match &items[1] {
        Atom::Number(b) => *b,
        _ => { return type_error(1, "render", "Number"); },
    };
    let notes = match &items[2] {
        Atom::List(ns) => ns,
        _ => { return type_error(2, "render", "List"); },
    };
    proof { lemma_view_atoms_index(notes@); }
    let ghost nv = view_atoms(notes@);
    let mut spans: Vec<NoteSpan> = Vec::new();
    let mut i: usize = 0;
    while i < notes.len()
        invariant
            items@.len() == 3,
            items@[1] == Atom::Number(beat),
            items@[2] == Atom::List(*notes),
            view_atoms(items@).len() == 3,
            forall|k: int| 0 <= k < 3 ==> #[trigger] view_atoms(items@)[k] == view_atom(items@[k]),
            nv == view_atoms(notes@),
            nv.len() == notes@.len(),
            forall|k: int| 0 <= k < notes@.len() ==> #[trigger] nv[k] == view_atom(notes@[k]),
            i <= notes@.len(),
            spans@.len() == i,
            forall|j: int| 0 <= j < i ==> #[trigger] note_pair(nv[j]),
            forall|j: int| 0 <= j < i ==> #[trigger] spans@[j].frequency == nv[j]->List_0[0]->Number_0,
            forall|j: int| 0 <= j < i ==> call_ensures(
                O::scaled_count,
                (ops, nv[j]->List_0[1]->Number_0, beat, SAMPLING_RATE),
                #[trigger] spans@[j].samples,
            ),
        decreases notes@.len() - i,
    {
        let note = match &notes[i] {
            Atom::List(pair) => pair,
            _ => {
                assert(!note_pair(nv[i as int]));
                return type_error(2, "render", "List");
            },
        };
        proof { lemma_view_atoms_index(note@); }
        if note.len() != 2 {
            assert(!note_pair(nv[i as int]));
            return Atom::Error(String::from_str(
                "Note passed as argument to `render` should have format `(frequency, duration)`",
            ));
        }
        let frequency = match &note[0] {
            Atom::Number(f) => *f,
            _ => {
                assert(!note_pair(nv[i as int]));
                return Atom::Error(String::from_str("Unable to read frequency of note in `render`"));
            },
        };
        let duration = match &note[1] {
            Atom::Number(d) => *d,
            _ => {
                assert(!note_pair(nv[i as int]));
                return Atom::Error(String::from_str("Unable to read duration of note in `render`"));
            },
        };
        let samples = ops.scaled_count(duration, beat, SAMPLING_RATE);
        spans.push(NoteSpan { frequency, samples });
        i = i + 1;
    }
    let out = expand_notes(&spans);
    Atom::List(out)
}

impl Atom {
    /// Evaluates the atom against `env`, which only `def` changes.
    pub fn eval<O: NumberOps>(&self, env: &mut Env, ops: &O) -> (r: Atom)
        ensures
            eval_post(ops, MAX_DEPTH as nat, self@, old(env)@, final(env)@, r@),
    {
        self.eval_within(env, ops, MAX_DEPTH)
    }

    /// Evaluates with at most `depth` levels of nesting left.
    pub fn eval_within<O: NumberOps>(&self, env: &mut Env, ops: &O, depth: usize) -> (r: Atom)
        ensures
            eval_post(ops, depth as nat, self@, old(env)@, final(env)@, r@),
        decreases depth, 0int,
    {
        if depth == 0 {
            return Atom::Error(String::from_str("Evaluation is nested too deeply"));
        }
        match self {
            Atom::List(items) => {
                proof { lemma_view_atoms_index(items@); }
                if items.len() == 0 {
                    assert(view_atoms(items@) =~= Seq::<AtomV>::empty());
                    return Atom::List(Vec::new());
                }
                match &items[0] {
                    Atom::Symbol(name) => {
                        assert(!self_evaluating(view_atoms(items@)[0]));
                        eval_form(name, items, env, ops, depth - 1)
                    },
                    _ => eval_each(items, env, ops, depth - 1),
                }
            },
            Atom::Symbol(name) => lookup_symbol(name, env),
            _ => self.duplicate(),
        }
    }
}

pub open spec fn too_deep_msg() -> Seq<char> {
    "Evaluation is nested too deeply"@
}

/// Evaluates every item of a list whose head is not a symbol.
fn eval_each<O: NumberOps>(items: &Vec<Atom>, env: &mut Env, ops: &O, depth: usize) -> (r: Atom)
    ensures
        r@ is List && r@->List_0.len() == items@.len(),
        depth > 0 && literal_data(AtomV::List(view_atoms(items@))) ==> r@ == AtomV::List(view_atoms(items@))
            && final(env)@ == old(env)@,
        exists|vals: Seq<AtomV>, envs: Seq<Map<Seq<char>, SymbolDefV>>|
            #[trigger] run_sizes(items@.len() as int, vals, envs) && {
                &&& envs[0] == old(env)@
                &&& envs[items@.len() as int] == final(env)@
                &&& evals_in_order(ops, depth as nat, view_atoms(items@), vals, envs)
                &&& r@ == AtomV::List(vals)
            },
    decreases depth, 1int,
{
    proof { lemma_view_atoms_index(items@); }
    let ghost s = view_atoms(items@);
    let ghost lit = depth > 0 && literal_data(AtomV::List(s));
    let ghost env0 = env@;
    let ghost mut envs: Seq<Map<Seq<char>, SymbolDefV>> = seq![env@];
    let mut out: Vec<Atom> = Vec::new();
    let mut i: usize = 0;
    while i < items.len()
        invariant
            i <= items@.len(),
            s == view_atoms(items@),
            s.len() == items@.len(),
            forall|k: int| 0 <= k < items@.len() ==> #[trigger] s[k] == view_atom(items@[k]),
            lit == (depth > 0 && literal_data(AtomV::List(s))),
            lit ==> env@ == env0 && view_atoms(out@) == s.subrange(0, i as int),
            out@.len() == i,
            envs.len() == i + 1,
            envs[0] == env0,
            env0 == old(env)@,
            envs.last() == env@,
            evals_in_order(ops, depth as nat, s.subrange(0, i as int), view_atoms(out@), envs),
        decreases items@.len() - i,
    {
        proof {
            if lit {
                assert(self_evaluating(s[i as int]));
            }
        }
        let v = items[i].eval_within(env, ops, depth);
        proof {
            lemma_run_push(ops, depth as nat, s.subrange(0, i as int), view_atoms(out@), envs, s[i as int], env@, v@);
            assert(s.subrange(0, i as int).push(s[i as int]) =~= s.subrange(0, i + 1));
            envs = envs.push(env@);
            lemma_view_atoms_push(out@, v);
            if lit {
                assert(s.subrange(0, i + 1) =~= s.subrange(0, i as int).push(s[i as int]));
            }
        }
        out.push(v);
        i = i + 1;
    }
    proof {
        lemma_view_atoms_index(out@);
        assert(s.subrange(0, items@.len() as int) =~= s);
        assert(run_sizes(items@.len() as int, view_atoms(out@), envs));
    }
    Atom::List(out)
}

fn eval_form<O: NumberOps>(name: &String, items: &Vec<Atom>, env: &mut Env, ops: &O, depth: usize) -> (r: Atom)
    requires
        items@.len() >= 1,
        items@[0] == Atom::Symbol(*name),
    ensures
        form_post(ops, depth as nat, view_atoms(items@), name@, old(env)@, final(env)@, r@),
    decreases depth, 2int,
{
    proof {
        lemma_view_atoms_index(items@);
        lemma_builtin_heads();
    }
    let k = items.len() - 1;
    let n = name.as_str();
    if same_text(n, "quit") {
        return Atom::StatusMsg(Status::Quit);
    }
    if same_text(n, "out") {
        return Atom::Nil;
    }
    if same_text(n, "load") {
        if k != 1 {
            return arity_error(n, "1", k);
        }
        let ghost e0 = env@;
        let v = items[1].eval_within(env, ops, depth);
        proof {
            lemma_single_run(ops, depth as nat, view_atoms(items@)[1], e0, env@, v@);
            assert(args_of(view_atoms(items@)) =~= seq![view_atoms(items@)[1]]);
        }
        return match v {
            Atom::String(path) => Atom::StatusMsg(Status::LoadModule(path)),
            _ => type_error(1, n, "String"),
        };
    }
    if same_text(n, "+") || same_text(n, "-") || same_text(n, "*") || same_text(n, "/") {
        if k < 1 {
            return arity_error(n, "1+", k);
        }
        let op = if same_text(n, "+") {
            ArithOp::Add
        } else if same_text(n, "-") {
            ArithOp::Sub
        } else if same_text(n, "*") {
            ArithOp::Mul
        } else {
            ArithOp::Div
        };
        return eval_arith(n, op, items, env, ops, depth);
    }
    if same_text(n, "sin") || same_text(n, "cos") || same_text(n, "tan") {
        if k != 1 {
            return arity_error(n, "1", k);
        }
        let f = if same_text(n, "sin") {
            TrigFn::Sin
        } else if same_text(n, "cos") {
            TrigFn::Cos
        } else {
            TrigFn::Tan
        };
        let ghost e0 = env@;
        let v = items[1].eval_within(env, ops, depth);
        proof {
            lemma_single_run(ops, depth as nat, view_atoms(items@)[1], e0, env@, v@);
            assert(args_of(view_atoms(items@)) =~= seq![view_atoms(items@)[1]]);
        }
        return match v {
            Atom::Number(x) => Atom::Number(ops.trig(f, x)),
            _ => type_error(1, n, "Number"),
        };
    }
    if same_text(n, "equals") {
        if k < 2 {
            return arity_error(n, "2+", k);
        }
        return eval_equals(items, env, ops, depth);
    }
    if same_text(n, "if") {
        if k != 3 {
            return arity_error(n, "3", k);
        }
        let ghost e0 = env@;
        let v = items[1].eval_within(env, ops, depth);
        proof {
            lemma_single_run(ops, depth as nat, view_atoms(items@)[1], e0, env@, v@);
            assert(view_atoms(items@).subrange(1, 2) =~= seq![view_atoms(items@)[1]]);
        }
        return match v {
            Atom::Boolean(c) => {
                if c {
                    items[2].eval_within(env, ops, depth)
                } else {
                    items[3].eval_within(env, ops, depth)
                }
            },
            _ => type_error(1, n, "Boolean"),
        };
    }
    if same_text(n, "def") {
        if k == 2 {
            return eval_def_value(items, env, ops, depth);
        } else if k == 3 {
            return eval_def_fn(items, env);
        } else {
            return arity_error(n, "2", k);
        }
    }
    if same_text(n, "render") {
        if k != 2 {
            return arity_error(n, "2", k);
        }
        return eval_render(items, ops);
    }
    if same_text(n, "map") {
        if k != 2 {
            return arity_error(n, "2", k);
        }
        return eval_map(items, env, ops, depth);
    }
    eval_call(name, items, env, ops, depth)
}

/// One more step of a left fold.
proof fn lemma_fold_push<O: NumberOps>(ops: &O, op: ArithOp, vals: Seq<u32>, accs: Seq<u32>, x: u32, next: u32)
    requires
        fold_chain(ops, op, vals, accs),
        call_ensures(O::arith, (ops, op, accs.last(), x), next),
    ensures
        fold_chain(ops, op, vals.push(x), accs.push(next)),
{
    let vs = vals.push(x);
    let na = accs.push(next);
    assert forall|k: int| #![trigger vs[k], na[k]] 1 <= k < vs.len() implies call_ensures(O::arith, (ops, op, na[k - 1], vs[k]), na[k]) by {
        if k < vals.len() {
            assert(vs[k] == vals[k] && na[k] == accs[k] && na[k - 1] == accs[k - 1]);
            assert(vals[k] == vals[k] && accs[k] == accs[k]);
        } else {
            assert(na[k] == next && na[k - 1] == accs.last() && vs[k] == x);
        }
    }
}

/// The numbers of a list of number atoms grow with it.
proof fn lemma_numbers_push(vals: Seq<AtomV>, x: u32)
    ensures
        numbers_of(vals.push(AtomV::Number(x))) == numbers_of(vals).push(x),
{
    assert(numbers_of(vals.push(AtomV::Number(x))) =~= numbers_of(vals).push(x));
}

fn eval_arith<O: NumberOps>(
    n: &str,
    op: ArithOp,
    items: &Vec<Atom>,
    env: &mut Env,
    ops: &O,
    depth: usize,
) -> (r: Atom)
    requires
        items@.len() >= 2,
    ensures
        r@ is Number || exists|i: nat| 1 <= i < items@.len() && r@ == AtomV::Error(type_msg(i, n@, "Number"@)),
        depth > 0 && all_numbers(args_of(view_atoms(items@))) ==> r@ is Number && folds_left(
            ops,
            op,
            numbers_of(args_of(view_atoms(items@))),
            r@->Number_0,
        ) && final(env)@ == old(env)@,
        exists|j: int, vals: Seq<AtomV>, envs: Seq<Map<Seq<char>, SymbolDefV>>|
            #[trigger] run_sizes(j, vals, envs) && {
                &&& 1 <= j <= items@.len() - 1
                &&& envs[0] == old(env)@
                &&& envs[j] == final(env)@
                &&& evals_in_order(ops, depth as nat, args_of(view_atoms(items@)).subrange(0, j), vals, envs)
                &&& all_numbers(vals.subrange(0, j - 1))
                &&& if vals[j - 1] is Number {
                    j == items@.len() - 1 && r@ is Number && folds_left(ops, op, numbers_of(vals), r@->Number_0)
                } else {
                    r@ == AtomV::Error(type_msg(j as nat, n@, "Number"@))
                }
            },
    decreases depth, 1int,
{
    proof { lemma_view_atoms_index(items@); }
    let ghost s = view_atoms(items@);
    let ghost args = args_of(s);
    let ghost lit = depth > 0 && all_numbers(args);
    let ghost env0 = env@;
    let first = items[1].eval_within(env, ops, depth);
    let ghost mut vals: Seq<AtomV> = seq![first@];
    let ghost mut envs: Seq<Map<Seq<char>, SymbolDefV>> = seq![env0, env@];
    proof {
        assert(args[0] == s[1]);
        lemma_single_run(ops, depth as nat, s[1], env0, env@, first@);
        assert(args.subrange(0, 1) =~= seq![s[1]]);
        assert(vals.subrange(0, 0) =~= Seq::<AtomV>::empty());
        if lit {
            assert(args[0] is Number);
        }
    }
    let mut acc = match first {
        Atom::Number(x) => x,
        _ => {
            assert(run_sizes(1, vals, envs));
            return type_error(1, n, "Number");
        },
    };
    let ghost mut accs: Seq<u32> = seq![acc];
    proof {
        assert(numbers_of(vals) =~= seq![acc]);
    }
    let mut i: usize = 2;
    while i < items.len()
        invariant
            2 <= i <= items@.len(),
            s == view_atoms(items@),
            args == args_of(s),
            s.len() == items@.len(),
            forall|k: int| 0 <= k < items@.len() ==> #[trigger] s[k] == view_atom(items@[k]),
            lit == (depth > 0 && all_numbers(args)),
            vals.len() == i - 1,
            envs.len() == i,
            envs[0] == env0,
            env0 == old(env)@,
            envs.last() == env@,
            evals_in_order(ops, depth as nat, args.subrange(0, i - 1), vals, envs),
            all_numbers(vals),
            fold_chain(ops, op, numbers_of(vals), accs),
            accs.last() == acc,
            lit ==> vals == args.subrange(0, i - 1) && env@ == env0,
        decreases items@.len() - i,
    {
        let v = items[i].eval_within(env, ops, depth);
        proof {
            assert(args[i - 1] == s[i as int]);
            lemma_run_push(ops, depth as nat, args.subrange(0, i - 1), vals, envs, s[i as int], env@, v@);
            assert(args.subrange(0, i - 1).push(s[i as int]) =~= args.subrange(0, i as int));
            if lit {
                assert(args[i - 1] is Number);
            }
        }
        match v {
            Atom::Number(x) => {
                let next = ops.arith(op, acc, x);
                proof {
                    lemma_numbers_push(vals, x);
                    lemma_fold_push(ops, op, numbers_of(vals), accs, x, next);
                    vals = vals.push(v@);
                    envs = envs.push(env@);
                    accs = accs.push(next);
                    if lit {
                        assert(args.subrange(0, i as int) =~= args.subrange(0, i - 1).push(args[i - 1]));
                    }
                }
                acc = next;
            },
            _ => {
                proof {
                    let ghost old_vals = vals;
                    vals = vals.push(v@);
                    envs = envs.push(env@);
                    assert(vals.subrange(0, i - 1) =~= old_vals);
                    assert(!(vals[i - 1] is Number));
                    assert(!lit);
                    assert(run_sizes(i as int, vals, envs));
                }
                let e = type_error(i, n, "Number");
                assert(e@ == AtomV::Error(type_msg(i as nat, n@, "Number"@)));
                return e;
            },
        }
        i = i + 1;
    }
    proof {
        let j = (items@.len() - 1) as int;
        assert(args.subrange(0, j) =~= args);
        assert(vals.subrange(0, j - 1) =~= vals.drop_last());
        assert(run_sizes(j, vals, envs));
    }
    Atom::Number(acc)
}

/// `TRUE` when every two neighbouring values are equal.
pub open spec fn neighbours_equal(vals: Seq<AtomV>) -> bool {
    forall|i: int| 0 <= i < vals.len() - 1 ==> #[trigger] vals[i] == vals[i + 1]
}

fn eval_equals<O: NumberOps>(items: &Vec<Atom>, env: &mut Env, ops: &O, depth: usize) -> (r: Atom)
    requires
        items@.len() >= 3,
    ensures
        r@ is Boolean,
        depth > 0 && (forall|i: int| 0 <= i < items@.len() - 1 ==> #[trigger] self_evaluating(args_of(view_atoms(items@))[i]))
            ==> r@ == AtomV::Boolean(neighbours_equal(args_of(view_atoms(items@)))) && final(env)@ == old(env)@,
        exists|vals: Seq<AtomV>, envs: Seq<Map<Seq<char>, SymbolDefV>>|
            #[trigger] run_sizes(items@.len() - 1, vals, envs) && {
                &&& envs[0] == old(env)@
                &&& envs[items@.len() - 1] == final(env)@
                &&& evals_in_order(ops, depth as nat, args_of(view_atoms(items@)), vals, envs)
                &&& r@ == AtomV::Boolean(neighbours_equal(vals))
            },
    decreases depth, 1int,
{
    proof { lemma_view_atoms_index(items@); }
    let ghost s = view_atoms(items@);
    let ghost lit = depth > 0 && (forall|i: int| 0 <= i < items@.len() - 1 ==> #[trigger] self_evaluating(args_of(s)[i]));
    let ghost env0 = env@;
    let ghost mut envs: Seq<Map<Seq<char>, SymbolDefV>> = seq![env@];
    proof { assert(args_of(s).subrange(0, 0) =~= Seq::<AtomV>::empty()); assert(view_atoms(Seq::<Atom>::empty()) =~= Seq::<AtomV>::empty()); }
    let mut vals: Vec<Atom> = Vec::new();
    let mut i: usize = 1;
    while i < items.len()
        invariant
            1 <= i <= items@.len(),
            s == view_atoms(items@),
            s.len() == items@.len(),
            forall|k: int| 0 <= k < items@.len() ==> #[trigger] s[k] == view_atom(items@[k]),
            lit == (depth > 0 && (forall|j: int| 0 <= j < items@.len() - 1 ==> #[trigger] self_evaluating(args_of(s)[j]))),
            lit ==> env@ == env0 && view_atoms(vals@) == s.subrange(1, i as int),
            envs.len() == i,
            envs[0] == env0,
            env0 == old(env)@,
            envs.last() == env@,
            evals_in_order(ops, depth as nat, args_of(s).subrange(0, i - 1), view_atoms(vals@), envs),
        decreases items@.len() - i,
    {
        proof {
            assert(args_of(s)[i - 1] == s[i as int]);
            if lit {
                assert(self_evaluating(args_of(s)[i - 1]));
            }
        }
        let v = items[i].eval_within(env, ops, depth);
        proof {
            lemma_run_push(ops, depth as nat, args_of(s).subrange(0, i - 1), view_atoms(vals@), envs, s[i as int], env@, v@);
            assert(args_of(s).subrange(0, i - 1).push(s[i as int]) =~= args_of(s).subrange(0, i as int));
            envs = envs.push(env@);
            lemma_view_atoms_push(vals@, v);
            if lit {
                assert(s.subrange(1, i + 1) =~= s.subrange(1, i as int).push(s[i as int]));
            }
        }
        vals.push(v);
        i = i + 1;
    }
    proof {
        assert(args_of(s).subrange(0, items@.len() - 1) =~= args_of(s));
        assert(run_sizes(items@.len() - 1, view_atoms(vals@), envs));
    }
    Atom::Boolean(all_neighbours_equal(&vals))
}

/// Whether every two neighbouring atoms are equal.
pub fn all_neighbours_equal(vals: &Vec<Atom>) -> (r: bool)
    ensures
        r == neighbours_equal(view_atoms(vals@)),
{
    proof { lemma_view_atoms_index(vals@); }
    let ghost v = view_atoms(vals@);
    let n = vals.len();
    if n == 0 {
        return true;
    }
    let mut result = true;
    let mut i: usize = 0;
    while i + 1 < n
        invariant
            n == vals@.len(),
            v == view_atoms(vals@),
            v.len() == vals@.len(),
            forall|k: int| 0 <= k < vals@.len() ==> #[trigger] v[k] == view_atom(vals@[k]),
            i + 1 <= n,
            result == (forall|k: int| 0 <= k < i ==> #[trigger] v[k] == v[k + 1]),
        decreases n - i,
    {
        let same = same_atom(&vals[i], &vals[i + 1]);
        assert(same == (v[i as int] == v[i + 1]));
        if !same {
            result = false;
        }
        i = i + 1;
    }
    result
}

fn eval_def_value<O: NumberOps>(items: &Vec<Atom>, env: &mut Env, ops: &O, depth: usize) -> (r: Atom)
    requires
        items@.len() == 3,
    ensures
        def_value_post(view_atoms(items@), old(env)@, final(env)@, r@),
        depth > 0 && view_atom(items@[1]) is Symbol && self_evaluating(view_atom(items@[2])) ==> r@ == view_atom(
            items@[2],
        ) && final(env)@ == old(env)@.insert(
            view_atom(items@[1])->Symbol_0,
            SymbolDefV { args: Seq::empty(), body: view_atom(items@[2]) },
        ),
        view_atom(items@[1]) is Symbol ==> exists|vals: Seq<AtomV>, envs: Seq<Map<Seq<char>, SymbolDefV>>|
            #[trigger] run_sizes(1, vals, envs) && {
                &&& envs[0] == old(env)@
                &&& evals_in_order(ops, depth as nat, view_atoms(items@).subrange(2, 3), vals, envs)
                &&& r@ == vals[0]
                &&& final(env)@ == envs[1].insert(
                    view_atom(items@[1])->Symbol_0,
                    SymbolDefV { args: Seq::empty(), body: r@ },
                )
            },
    decreases depth, 1int,
{
    proof { lemma_view_atoms_index(items@); }
    let var_name = match &items[1] {
        Atom::Symbol(x) => x.clone(),
        _ => { return type_error(1, "def", "Symbol"); },
    };
    let ghost e0 = env@;
    let value = items[2].eval_within(env, ops, depth);
    proof {
        lemma_single_run(ops, depth as nat, view_atoms(items@)[2], e0, env@, value@);
        assert(view_atoms(items@).subrange(2, 3) =~= seq![view_atoms(items@)[2]]);
    }
    let stored = value.duplicate();
    env.insert(var_name, SymbolDef { args: Vec::new(), eval: stored });
    proof {
        assert(Seq::<String>::empty().map_values(|a: String| a@) =~= Seq::<Seq<char>>::empty());
    }
    value
}

fn eval_map<O: NumberOps>(items: &Vec<Atom>, env: &mut Env, ops: &O, depth: usize) -> (r: Atom)
    requires
        items@.len() == 3,
    ensures
        !(view_atom(items@[1]) is List) ==> r@ == AtomV::Error(type_msg(1, "map"@, "List"@))
            && final(env)@ == old(env)@,
        depth > 1 && view_atom(items@[1]) is List && literal_data(view_atom(items@[2]))
            && all_numbers(view_atom(items@[2])->List_0) ==> map_post(
            ops,
            depth as nat,
            view_atom(items@[1])->List_0,
            view_atom(items@[2])->List_0,
            old(env)@,
            final(env)@,
            r@,
        ),
        view_atom(items@[1]) is List ==> exists|vals: Seq<AtomV>, envs: Seq<Map<Seq<char>, SymbolDefV>>|
            #[trigger] run_sizes(1, vals, envs) && {
                &&& envs[0] == old(env)@
                &&& evals_in_order(ops, depth as nat, view_atoms(items@).subrange(2, 3), vals, envs)
                &&& !(vals[0] is List) ==> r@ == AtomV::Error(type_msg(2, "map"@, "List"@)) && final(env)@ == envs[1]
                &&& vals[0] is List && all_numbers(vals[0]->List_0) ==> map_post(
                    ops,
                    depth as nat,
                    view_atom(items@[1])->List_0,
                    vals[0]->List_0,
                    envs[1],
                    final(env)@,
                    r@,
                )
                &&& vals[0] is List && !all_numbers(vals[0]->List_0) ==> r@ == AtomV::Error(
                    "Unable to read frequency in `map`"@,
                )
            },
    decreases depth, 1int,
{
    proof { lemma_view_atoms_index(items@); }
    let params = match &items[1] {
        Atom::List(ps) => ps,
        _ => { return type_error(1, "map", "List"); },
    };
    let ghost env_start = env@;
    let ghost s = view_atoms(items@);
    let ghost pv = view_atoms(params@);
    let ghost fs = view_atom(items@[2])->List_0;
    let ghost lit = depth > 1 && literal_data(view_atom(items@[2])) && all_numbers(fs);
    let evaluated = items[2].eval_within(env, ops, depth);
    let ghost ev = evaluated@;
    let ghost se = seq![env_start, env@];
    proof {
        lemma_single_run(ops, depth as nat, s[2], env_start, env@, ev);
        assert(s.subrange(2, 3) =~= seq![s[2]]);
        if lit {
            assert(items@[2]@ == view_atom(items@[2]));
            assert(evaluated@ == items@[2]@);
        }
    }
    let frequencies = match evaluated {
        Atom::List(fs) => fs,
        _ => {
            assert(run_sizes(1, seq![ev], se));
            return type_error(2, "map", "List");
        },
    };
    proof { lemma_view_atoms_index(frequencies@); }
    let ghost fv = view_atoms(frequencies@);
    let rate = ops.from_count(SAMPLING_RATE);
    let ghost env0 = env@;
    let ghost mut counts: Seq<u32> = Seq::empty();
    let ghost mut times: Seq<u32> = Seq::empty();
    let ghost mut envs: Seq<Map<Seq<char>, SymbolDefV>> = seq![env@];
    let mut results: Vec<Atom> = Vec::new();
    let mut i: usize = 0;
    while i < frequencies.len()
        invariant
            items@.len() == 3,
            items@[1] == Atom::List(*params),
            s == view_atoms(items@),
            fs == view_atom(items@[2])->List_0,
            lit == (depth > 1 && literal_data(view_atom(items@[2])) && all_numbers(fs)),
            lit ==> env0 == env_start && fv == fs,
            env_start == old(env)@,
            ev == AtomV::List(fv),
            se == seq![env_start, env0],
            run_sizes(1, seq![ev], se),
            evals_in_order(ops, depth as nat, s.subrange(2, 3), seq![ev], se),
            pv == view_atoms(params@),
            i <= frequencies@.len(),
            fv == view_atoms(frequencies@),
            fv.len() == frequencies@.len(),
            forall|k: int| 0 <= k < frequencies@.len() ==> #[trigger] fv[k] == view_atom(frequencies@[k]),
            forall|k: int| 0 <= k < i ==> #[trigger] fv[k] is Number,
            call_ensures(O::from_count, (ops, SAMPLING_RATE), rate),
            results@.len() == i,
            counts.len() == i,
            times.len() == i,
            envs.len() == i + 1,
            envs[0] == env0,
            envs.last() == env@,
            forall|k: int| 0 <= k < i ==> {
                &&& call_ensures(O::from_count, (ops, k as usize), #[trigger] counts[k])
                &&& call_ensures(O::arith, (ops, ArithOp::Mul, counts[k], rate), times[k])
                &&& eval_post(
                    ops,
                    depth as nat,
                    AtomV::List(pv.push(fv[k]).push(AtomV::Number(times[k]))),
                    envs[k],
                    envs[k + 1],
                    results@[k]@,
                )
            },
        decreases frequencies@.len() - i,
    {
        let f = match &frequencies[i] {
            Atom::Number(f) => *f,
            _ => {
                proof {
                    assert(!(fv[i as int] is Number));
                    assert(!all_numbers(fv));
                    assert(run_sizes(1, seq![ev], se));
                }
                return Atom::Error(String::from_str("Unable to read frequency in `map`"));
            },
        };
        let count = ops.from_count(i);
        let time = ops.arith(ArithOp::Mul, count, rate);
        let call = Atom::List(call_with(params, f, time));
        let v = call.eval_within(env, ops, depth);
        proof {
            counts = counts.push(count);
            times = times.push(time);
            envs = envs.push(env@);
        }
        results.push(v);
        i = i + 1;
    }
    proof {
        lemma_view_atoms_index(results@);
    }
    let r = Atom::List(results);
    proof {
        let rv = view_atoms(results@);
        assert forall|k: int| 0 <= k < fv.len() implies {
            &&& call_ensures(O::from_count, (ops, k as usize), #[trigger] counts[k])
            &&& call_ensures(O::arith, (ops, ArithOp::Mul, counts[k], rate), times[k])
            &&& eval_post(
                ops,
                depth as nat,
                AtomV::List(pv.push(fv[k]).push(AtomV::Number(times[k]))),
                envs[k],
                envs[k + 1],
                rv[k],
            )
        } by {
            assert(rv[k] == results@[k]@);
        }
        assert(r@->List_0 == rv);
        assert(pv == view_atom(items@[1])->List_0);
        assert(map_chain(ops, depth as nat, pv, fv, env0, env@, rv, rate, counts, times, envs));
        assert(map_sizes(fv.len(), rate, counts, times, envs));
        assert(all_numbers(fv));
        assert(map_post(ops, depth as nat, pv, fv, env0, env@, r@));
        assert(run_sizes(1, seq![ev], se));
    }
    r
}

/// The call that `map` makes for one element: the given items, then the
/// element, then its time.
pub fn call_with(params: &Vec<Atom>, f: u32, time: u32) -> (r: Vec<Atom>)
    ensures
        view_atoms(r@) == view_atoms(params@).push(AtomV::Number(f)).push(AtomV::Number(time)),
{
    let mut out: Vec<Atom> = Vec::new();
    let mut i: usize = 0;
    while i < params.len()
        invariant
            i <= params@.len(),
            view_atoms(out@) == view_atoms(params@.subrange(0, i as int)),
        decreases params@.len() - i,
    {
        let c = params[i].duplicate();
        proof {
            lemma_view_atoms_push(out@, c);
            lemma_view_atoms_push(params@.subrange(0, i as int), params@[i as int]);
            assert(params@.subrange(0, i as int).push(params@[i as int]) =~= params@.subrange(0, i + 1));
        }
        out.push(c);
        i = i + 1;
    }
    assert(params@.subrange(0, params@.len() as int) =~= params@);
    proof { lemma_view_atoms_push(out@, Atom::Number(f)); }
    out.push(Atom::Number(f));
    proof { lemma_view_atoms_push(out@, Atom::Number(time)); }
    out.push(Atom::Number(time));
    out
}

fn eval_call<O: NumberOps>(name: &String, items: &Vec<Atom>, env: &mut Env, ops: &O, depth: usize) -> (r: Atom)
    requires
        items@.len() >= 1,
    ensures
        !old(env)@.contains_key(name@) ==> r@ == AtomV::Error(function_missing_msg(name@))
            && final(env)@ == old(env)@,
        old(env)@.contains_key(name@) && old(env)@[name@].args.len() != items@.len() - 1
            ==> r@ == AtomV::Error(arity_msg(name@, decimal(old(env)@[name@].args.len()), (items@.len() - 1) as nat))
            && final(env)@ == old(env)@,
        old(env)@.contains_key(name@) && old(env)@[name@].args.len() == items@.len() - 1 ==> eval_post(
            ops,
            depth as nat,
            subst(old(env)@[name@].body, view_atoms(items@)),
            old(env)@,
            final(env)@,
            r@,
        ),
    decreases depth, 1int,
{
    let body = match env.get(name) {
        None => { return Atom::Error(join3("Function `", name.as_str(), "` not found")); },
        Some(def) => {
            if items.len() - 1 != def.args.len() {
                let expected = decimal_string(def.args.len());
                return arity_error(name.as_str(), expected.as_str(), items.len() - 1);
            }
            def.eval.substitute_args(items)
        },
    };
    body.eval_within(env, ops, depth)
}

} // verus!
