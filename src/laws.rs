//! Laws that relate definitions, lookups and calls.
use vstd::prelude::*;
use crate::atom::AtomV;
use crate::eval::type_msg;
use crate::env::{SymbolDefV, is_builtin, param_index, resolve, resolve_seq, subst, subst_seq};
use crate::eval::{NumberOps, eval_post, run_sizes, evals_in_order, param_names, map_post, literal_data, is_arith, all_numbers, args_of, arith_op_of, numbers_of, folds_left, self_evaluating, neighbours_equal};

verus! {

/// After `(def x value)`, evaluating the bare symbol `x` gives back exactly
/// what the definition returned, and changes nothing.
pub proof fn law_def_then_lookup<O: NumberOps>(
    ops: &O,
    d1: nat,
    d2: nat,
    x: Seq<char>,
    value: AtomV,
    e0: Map<Seq<char>, SymbolDefV>,
    e1: Map<Seq<char>, SymbolDefV>,
    r: AtomV,
    e2: Map<Seq<char>, SymbolDefV>,
    r2: AtomV,
)
    requires
        d1 > 0,
        d2 > 0,
        eval_post(ops, d1, AtomV::List(seq![AtomV::Symbol("def"@), AtomV::Symbol(x), value]), e0, e1, r),
        eval_post(ops, d2, AtomV::Symbol(x), e1, e2, r2),
    ensures
        r2 == r,
        e2 == e1,
{
    let s = seq![AtomV::Symbol("def"@), AtomV::Symbol(x), value];
    assert(s[0] is Symbol && s[0]->Symbol_0 == "def"@);
    assert(s[1] == AtomV::Symbol(x));
}

/// Arithmetic folds strictly from the left: `(op a b c ...)` on literal
/// numbers is `((a op b) op c) ...`, each step one call of `arith` on the
/// result so far and the next number.
pub proof fn law_arith_folds_left<O: NumberOps>(
    ops: &O,
    depth: nat,
    n: Seq<char>,
    s: Seq<AtomV>,
    e0: Map<Seq<char>, SymbolDefV>,
    e1: Map<Seq<char>, SymbolDefV>,
    r: AtomV,
)
    requires
        depth >= 2,
        is_arith(n),
        s.len() >= 2,
        s[0] == AtomV::Symbol(n),
        all_numbers(args_of(s)),
        eval_post(ops, depth, AtomV::List(s), e0, e1, r),
    ensures
        r is Number,
        folds_left(ops, arith_op_of(n), numbers_of(args_of(s)), r->Number_0),
        e1 == e0,
{
}

/// The same for any arguments: when `(op a b c ...)` gives a number, every
/// argument was evaluated once, in order, to a number, and the result folds
/// those numbers from the left.
pub proof fn law_arith_folds_left_evaluated<O: NumberOps>(
    ops: &O,
    depth: nat,
    n: Seq<char>,
    s: Seq<AtomV>,
    e0: Map<Seq<char>, SymbolDefV>,
    e1: Map<Seq<char>, SymbolDefV>,
    r: AtomV,
)
    requires
        depth >= 1,
        is_arith(n),
        s.len() >= 2,
        s[0] == AtomV::Symbol(n),
        eval_post(ops, depth, AtomV::List(s), e0, e1, r),
        r is Number,
    ensures
        exists|vals: Seq<AtomV>, envs: Seq<Map<Seq<char>, SymbolDefV>>| #[trigger] run_sizes(s.len() - 1, vals, envs) && {
            &&& envs[0] == e0
            &&& envs[s.len() - 1] == e1
            &&& evals_in_order(ops, (depth - 1) as nat, args_of(s), vals, envs)
            &&& all_numbers(vals)
            &&& folds_left(ops, arith_op_of(n), numbers_of(vals), r->Number_0)
        },
{
    let k = s.len() - 1;
    let d = (depth - 1) as nat;
    let (j, vals, envs) = choose|j: int, vals: Seq<AtomV>, envs: Seq<Map<Seq<char>, SymbolDefV>>|
        #[trigger] run_sizes(j, vals, envs) && {
            &&& 1 <= j <= k
            &&& envs[0] == e0
            &&& envs[j] == e1
            &&& evals_in_order(ops, d, args_of(s).subrange(0, j), vals, envs)
            &&& all_numbers(vals.subrange(0, j - 1))
            &&& if vals[j - 1] is Number {
                j == k && r is Number && folds_left(ops, arith_op_of(n), numbers_of(vals), r->Number_0)
            } else {
                r == AtomV::Error(type_msg(j as nat, n, "Number"@))
            }
        };
    assert(j == k);
    assert(args_of(s).subrange(0, j) =~= args_of(s));
    assert forall|i: int| 0 <= i < vals.len() implies #[trigger] vals[i] is Number by {
        if i < j - 1 {
            assert(vals.subrange(0, j - 1)[i] == vals[i]);
        }
    }
}

/// `equals` on any arguments evaluates each once, in order, and is `TRUE`
/// exactly when every value equals the one after it.
pub proof fn law_equals_adjacent_evaluated<O: NumberOps>(
    ops: &O,
    depth: nat,
    s: Seq<AtomV>,
    e0: Map<Seq<char>, SymbolDefV>,
    e1: Map<Seq<char>, SymbolDefV>,
    r: AtomV,
)
    requires
        depth >= 1,
        s.len() >= 3,
        s[0] == AtomV::Symbol("equals"@),
        eval_post(ops, depth, AtomV::List(s), e0, e1, r),
    ensures
        exists|vals: Seq<AtomV>, envs: Seq<Map<Seq<char>, SymbolDefV>>| #[trigger] run_sizes(s.len() - 1, vals, envs) && {
            &&& envs[0] == e0
            &&& envs[s.len() - 1] == e1
            &&& evals_in_order(ops, (depth - 1) as nat, args_of(s), vals, envs)
            &&& r == AtomV::Boolean(neighbours_equal(vals))
        },
{
    assert(s[0] is Symbol && s[0]->Symbol_0 == "equals"@);
}

/// `equals` compares neighbours only: on literal arguments it is `TRUE`
/// exactly when every argument equals the one after it.
pub proof fn law_equals_adjacent<O: NumberOps>(
    ops: &O,
    depth: nat,
    s: Seq<AtomV>,
    e0: Map<Seq<char>, SymbolDefV>,
    e1: Map<Seq<char>, SymbolDefV>,
    r: AtomV,
)
    requires
        depth >= 2,
        s.len() >= 3,
        s[0] == AtomV::Symbol("equals"@),
        forall|i: int| 1 <= i < s.len() ==> #[trigger] self_evaluating(s[i]),
        eval_post(ops, depth, AtomV::List(s), e0, e1, r),
    ensures
        r == AtomV::Boolean(neighbours_equal(args_of(s))),
        e1 == e0,
{
    assert forall|i: int| 0 <= i < s.len() - 1 implies #[trigger] self_evaluating(args_of(s)[i]) by {
        assert(args_of(s)[i] == s[i + 1]);
    }
}

/// `if` evaluates only the branch its condition selects: the result is what
/// evaluating that branch promises, and the other branch plays no part.
pub proof fn law_if_short_circuit<O: NumberOps>(
    ops: &O,
    depth: nat,
    b: bool,
    then_branch: AtomV,
    else_branch: AtomV,
    e0: Map<Seq<char>, SymbolDefV>,
    e1: Map<Seq<char>, SymbolDefV>,
    r: AtomV,
)
    requires
        depth >= 2,
        eval_post(
            ops,
            depth,
            AtomV::List(seq![AtomV::Symbol("if"@), AtomV::Boolean(b), then_branch, else_branch]),
            e0,
            e1,
            r,
        ),
    ensures
        eval_post(ops, (depth - 1) as nat, if b { then_branch } else { else_branch }, e0, e1, r),
{
    let s = seq![AtomV::Symbol("if"@), AtomV::Boolean(b), then_branch, else_branch];
    assert(s[0] is Symbol && s[0]->Symbol_0 == "if"@);
}

/// `map` hands each element of a literal list of numbers, followed by its
/// time `i * SAMPLING_RATE`, to the given call, in order, and lists the results.
pub proof fn law_map_time_indexing<O: NumberOps>(
    ops: &O,
    depth: nat,
    params: Seq<AtomV>,
    fs: Seq<AtomV>,
    e0: Map<Seq<char>, SymbolDefV>,
    e1: Map<Seq<char>, SymbolDefV>,
    r: AtomV,
)
    requires
        depth >= 3,
        literal_data(AtomV::List(fs)),
        all_numbers(fs),
        eval_post(
            ops,
            depth,
            AtomV::List(seq![AtomV::Symbol("map"@), AtomV::List(params), AtomV::List(fs)]),
            e0,
            e1,
            r,
        ),
    ensures
        map_post(ops, (depth - 1) as nat, params, fs, e0, e1, r),
{
    let s = seq![AtomV::Symbol("map"@), AtomV::List(params), AtomV::List(fs)];
    assert(s[0] is Symbol && s[0]->Symbol_0 == "map"@);
    assert(s[2] == AtomV::List(fs));
}

/// Evaluating a symbol that nothing binds gives an error whose message
/// holds the symbol's name, and changes nothing.
pub proof fn law_unbound_symbol<O: NumberOps>(
    ops: &O,
    depth: nat,
    n: Seq<char>,
    e0: Map<Seq<char>, SymbolDefV>,
    e1: Map<Seq<char>, SymbolDefV>,
    r: AtomV,
)
    requires
        depth > 0,
        !e0.contains_key(n),
        eval_post(ops, depth, AtomV::Symbol(n), e0, e1, r),
    ensures
        r is Error,
        exists|i: int| 0 <= i && i + n.len() <= r->Error_0.len() && #[trigger] r->Error_0.subrange(i, i + n.len()) == n,
        e1 == e0,
{
    let pre = "Symbol `"@;
    let m = r->Error_0;
    assert(m == pre + n + "` not found"@);
    assert(m.subrange(pre.len() as int, (pre.len() + n.len()) as int) =~= n);
}

/// Whether a tree holds no parameter placeholder.
pub open spec fn no_placeholders(a: AtomV) -> bool
    decreases a,
{
    match a {
        AtomV::List(s) => no_placeholders_seq(s),
        AtomV::Arg(_) => false,
        _ => true,
    }
}

pub open spec fn no_placeholders_seq(s: Seq<AtomV>) -> bool
    decreases s,
{
    s.len() == 0 || (no_placeholders_seq(s.subrange(0, s.len() - 1)) && no_placeholders(s[s.len() - 1]))
}

/// Every entry of a sequence without placeholders has none.
pub proof fn lemma_no_placeholders_index(s: Seq<AtomV>, i: int)
    requires
        no_placeholders_seq(s),
        0 <= i < s.len(),
    ensures
        no_placeholders(s[i]),
    decreases s.len(),
{
    if i < s.len() - 1 {
        let t = s.subrange(0, s.len() - 1);
        lemma_no_placeholders_index(t, i);
        assert(t[i] == s[i]);
    }
}

/// A sequence without placeholders has none in any prefix.
pub proof fn lemma_no_placeholders_prefix(s: Seq<AtomV>, j: int)
    requires
        no_placeholders_seq(s),
        0 <= j <= s.len(),
    ensures
        no_placeholders_seq(s.subrange(0, j)),
    decreases s.len() - j,
{
    if j < s.len() {
        lemma_no_placeholders_prefix(s.subrange(0, s.len() - 1), j);
        assert(s.subrange(0, s.len() - 1).subrange(0, j) =~= s.subrange(0, j));
    } else {
        assert(s.subrange(0, j) =~= s);
    }
}

/// A body with every reference to parameter `i` (a symbol that is not a
/// built-in name) replaced by the argument at `i + 1` of a call.
pub open spec fn with_arguments(a: AtomV, ps: Seq<Seq<char>>, call: Seq<AtomV>) -> AtomV
    decreases a,
{
    match a {
        AtomV::List(s) => AtomV::List(with_arguments_seq(s, ps, call)),
        AtomV::Symbol(n) => {
            if !is_builtin(n) && param_index(ps, n) >= 0 {
                call[param_index(ps, n) + 1]
            } else {
                a
            }
        },
        _ => a,
    }
}

pub open spec fn with_arguments_seq(s: Seq<AtomV>, ps: Seq<Seq<char>>, call: Seq<AtomV>) -> Seq<AtomV>
    decreases s,
{
    if s.len() == 0 {
        Seq::empty()
    } else {
        with_arguments_seq(s.subrange(0, s.len() - 1), ps, call).push(
            with_arguments(s[s.len() - 1], ps, call),
        )
    }
}

proof fn lemma_param_index_bound(ps: Seq<Seq<char>>, n: Seq<char>)
    ensures
        -1 <= param_index(ps, n) < ps.len(),
    decreases ps.len(),
{
    if ps.len() > 0 {
        lemma_param_index_bound(ps.drop_last(), n);
    }
}

/// Resolving a function body at definition time and substituting a call's
/// arguments at call time puts the call's argument `i + 1` wherever the body
/// named parameter `i`, and leaves everything else as it was.
pub proof fn law_call_substitution(
    body: AtomV,
    ps: Seq<Seq<char>>,
    globals: Map<Seq<char>, SymbolDefV>,
    call: Seq<AtomV>,
)
    requires
        no_placeholders(body),
        !(resolve(body, ps, globals) is Error),
        call.len() == ps.len() + 1,
    ensures
        subst(resolve(body, ps, globals), call) == with_arguments(body, ps, call),
    decreases body,
{
    match body {
        AtomV::List(s) => {
            law_call_substitution_seq(s, ps, globals, call);
        },
        AtomV::Symbol(n) => {
            lemma_param_index_bound(ps, n);
        },
        _ => {},
    }
}

proof fn law_call_substitution_seq(
    s: Seq<AtomV>,
    ps: Seq<Seq<char>>,
    globals: Map<Seq<char>, SymbolDefV>,
    call: Seq<AtomV>,
)
    requires
        no_placeholders_seq(s),
        !(resolve_seq(s, ps, globals) is Error),
        call.len() == ps.len() + 1,
    ensures
        resolve_seq(s, ps, globals) is List,
        subst_seq(resolve_seq(s, ps, globals)->List_0, call) == with_arguments_seq(s, ps, call),
    decreases s,
{
    if s.len() > 0 {
        let t = s.subrange(0, s.len() - 1);
        let x = s[s.len() - 1];
        law_call_substitution_seq(t, ps, globals, call);
        law_call_substitution(x, ps, globals, call);
        let p = resolve_seq(t, ps, globals)->List_0;
        let h = resolve(x, ps, globals);
        assert(p.push(h).subrange(0, p.len() as int) =~= p);
    }
}


/// Defining `(def f (params...) body)` and then calling `(f args...)` with
/// one argument per parameter evaluates the body with each parameter
/// replaced by its argument.
pub proof fn law_function_call<O: NumberOps>(
    ops: &O,
    d1: nat,
    d2: nat,
    f: Seq<char>,
    params: Seq<AtomV>,
    body: AtomV,
    e0: Map<Seq<char>, SymbolDefV>,
    e1: Map<Seq<char>, SymbolDefV>,
    r1: AtomV,
    call: Seq<AtomV>,
    e2: Map<Seq<char>, SymbolDefV>,
    r2: AtomV,
)
    requires
        d1 > 0,
        d2 > 0,
        !is_builtin(f),
        no_placeholders(body),
        eval_post(
            ops,
            d1,
            AtomV::List(seq![AtomV::Symbol("def"@), AtomV::Symbol(f), AtomV::List(params), body]),
            e0,
            e1,
            r1,
        ),
        r1 == AtomV::Nil,
        call.len() == params.len() + 1,
        call[0] == AtomV::Symbol(f),
        eval_post(ops, d2, AtomV::List(call), e1, e2, r2),
    ensures
        eval_post(ops, (d2 - 1) as nat, with_arguments(body, param_names(params), call), e1, e2, r2),
{
    let s = seq![AtomV::Symbol("def"@), AtomV::Symbol(f), AtomV::List(params), body];
    assert(s[0] is Symbol && s[0]->Symbol_0 == "def"@);
    assert(s[1] == AtomV::Symbol(f) && s[2] == AtomV::List(params) && s[3] == body);
    let names = param_names(params);
    law_call_substitution(body, names, e0, call);
    assert(e1.contains_key(f));
    assert(e1[f].args.len() == params.len());
}

} // verus!
