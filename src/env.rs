//! Symbol definitions, the environment, and the two substitution passes
//! that implement function calls.
use vstd::prelude::*;
use vstd::string::StrSliceExecFns;
use crate::atom::{Atom, AtomV, view_atom, view_atoms, lemma_view_atoms_push, lemma_view_atoms_index};
use crate::text::join3;

verus! {

/// One bound name: a value (no parameters) or a function whose body has
/// every parameter reference already replaced by `Arg(position)`.
pub struct SymbolDef {
    pub args: Vec<String>,
    pub eval: Atom,
}

/// The view of a `SymbolDef`: its parameter names and its body.
pub struct SymbolDefV {
    pub args: Seq<Seq<char>>,
    pub body: AtomV,
}

impl View for SymbolDef {
    type V = SymbolDefV;

    open spec fn view(&self) -> SymbolDefV {
        SymbolDefV { args: self.args@.map_values(|a: String| a@), body: self.eval@ }
    }
}

/// The mapping from names to definitions that a session evaluates against.
pub struct Env {
    entries: Vec<(String, SymbolDef)>,
}

/// The mapping held by a list of bindings, where a later binding of a name
/// replaces an earlier one.
pub open spec fn bindings_map(s: Seq<(String, SymbolDef)>) -> Map<Seq<char>, SymbolDefV>
    decreases s.len(),
{
    if s.len() == 0 {
        Map::empty()
    } else {
        bindings_map(s.drop_last()).insert(s.last().0@, s.last().1@)
    }
}

proof fn lemma_bindings_suffix(s: Seq<(String, SymbolDef)>, j: int, k: Seq<char>)
    requires
        0 <= j <= s.len(),
        forall|i: int| j <= i < s.len() ==> s[i].0@ != k,
    ensures
        bindings_map(s).contains_key(k) == bindings_map(s.subrange(0, j)).contains_key(k),
        bindings_map(s)[k] == bindings_map(s.subrange(0, j))[k],
    decreases s.len() - j,
{
    if j < s.len() {
        lemma_bindings_suffix(s.drop_last(), j, k);
        assert(s.drop_last().subrange(0, j) =~= s.subrange(0, j));
    } else {
        assert(s.subrange(0, j) =~= s);
    }
}

impl View for Env {
    type V = Map<Seq<char>, SymbolDefV>;

    closed spec fn view(&self) -> Map<Seq<char>, SymbolDefV> {
        bindings_map(self.entries@)
    }
}

impl Env {
    /// An environment with no bindings.
    pub fn new() -> (r: Env)
        ensures
            r@ == Map::<Seq<char>, SymbolDefV>::empty(),
    {
        Env { entries: Vec::new() }
    }

    /// The definition bound to `name`, if any.
    pub fn get(&self, name: &String) -> (r: Option<&SymbolDef>)
        ensures
            r.is_some() == self@.contains_key(name@),
            r.is_some() ==> r.unwrap()@ == self@[name@],
    {
        let mut j = self.entries.len();
        while j > 0
            invariant
                j <= self.entries@.len(),
                forall|i: int| j <= i < self.entries@.len() ==> self.entries@[i].0@ != name@,
            decreases j,
        {
            if self.entries[j - 1].0 == *name {
                proof {
                    let s = self.entries@;
                    lemma_bindings_suffix(s, j as int, name@);
                    assert(s.subrange(0, j as int).drop_last() =~= s.subrange(0, j - 1));
                }
                return Some(&self.entries[j - 1].1);
            }
            j = j - 1;
        }
        proof {
            lemma_bindings_suffix(self.entries@, 0, name@);
            assert(self.entries@.subrange(0, 0) =~= Seq::<(String, SymbolDef)>::empty());
        }
        None
    }

    /// Binds `name` to `def`, replacing any earlier binding of it.
    pub fn insert(&mut self, name: String, def: SymbolDef)
        ensures
            final(self)@ == old(self)@.insert(name@, def@),
    {
        let ghost before = self.entries@;
        self.entries.push((name, def));
        assert(self.entries@.drop_last() =~= before);
    }
}

/// The names of the built-in forms, which a function body never resolves.
pub open spec fn is_builtin(n: Seq<char>) -> bool {
    n == "quit"@ || n == "load"@ || n == "+"@ || n == "-"@ || n == "*"@ || n == "/"@
        || n == "sin"@ || n == "cos"@ || n == "tan"@ || n == "equals"@ || n == "if"@
        || n == "def"@ || n == "render"@ || n == "map"@ || n == "out"@
}

/// Compares two texts character by character.
pub fn same_text(a: &str, b: &str) -> (r: bool)
    ensures
        r == (a@ == b@),
{
    let n = a.unicode_len();
    if n != b.unicode_len() {
        return false;
    }
    let mut i: usize = 0;
    while i < n
        invariant
            n == a@.len() == b@.len(),
            i <= n,
            forall|k: int| 0 <= k < i ==> a@[k] == b@[k],
        decreases n - i,
    {
        if a.get_char(i) != b.get_char(i) {
            return false;
        }
        i = i + 1;
    }
    assert(a@ =~= b@);
    true
}

/// Whether `name` is one of the built-in forms.
pub fn is_builtin_name(name: &str) -> (r: bool)
    ensures
        r == is_builtin(name@),
{
    same_text(name, "quit") || same_text(name, "load") || same_text(name, "+")
        || same_text(name, "-") || same_text(name, "*") || same_text(name, "/")
        || same_text(name, "sin") || same_text(name, "cos") || same_text(name, "tan")
        || same_text(name, "equals") || same_text(name, "if") || same_text(name, "def")
        || same_text(name, "render") || same_text(name, "map") || same_text(name, "out")
}

/// Call-time substitution: every `Arg(i)` is replaced by `args[i + 1]` (the
/// entry at 0 is the called name); an index past the end stays as it is.
pub open spec fn subst(a: AtomV, args: Seq<AtomV>) -> AtomV
    decreases a,
{
    match a {
        AtomV::List(s) => AtomV::List(subst_seq(s, args)),
        AtomV::Arg(i) => if i + 1 < args.len() { args[i + 1int] } else { a },
        _ => a,
    }
}

pub open spec fn subst_seq(s: Seq<AtomV>, args: Seq<AtomV>) -> Seq<AtomV>
    decreases s,
{
    if s.len() == 0 {
        Seq::empty()
    } else {
        subst_seq(s.subrange(0, s.len() - 1), args).push(subst(s[s.len() - 1], args))
    }
}

/// The position of the last occurrence of `n` among the parameter names, or -1.
pub open spec fn param_index(ps: Seq<Seq<char>>, n: Seq<char>) -> int
    decreases ps.len(),
{
    if ps.len() == 0 {
        -1
    } else if ps.last() == n {
        ps.len() - 1
    } else {
        param_index(ps.drop_last(), n)
    }
}

pub open spec fn not_found_msg(n: Seq<char>) -> Seq<char> {
    "Argument `"@ + n + "` not found"@
}

/// Definition-time resolution: a symbol that is not a built-in name becomes
/// `Arg(i)` when it is parameter `i`, stays when the environment binds it,
/// and is an error otherwise; inside a list the first error wins.
pub open spec fn resolve(a: AtomV, ps: Seq<Seq<char>>, globals: Map<Seq<char>, SymbolDefV>) -> AtomV
    decreases a,
{
    match a {
        AtomV::List(s) => resolve_seq(s, ps, globals),
        AtomV::Symbol(n) => {
            if is_builtin(n) {
                a
            } else if param_index(ps, n) >= 0 {
                AtomV::Arg(param_index(ps, n) as nat)
            } else if globals.contains_key(n) {
                a
            } else {
                AtomV::Error(not_found_msg(n))
            }
        },
        _ => a,
    }
}

pub open spec fn resolve_seq(
    s: Seq<AtomV>,
    ps: Seq<Seq<char>>,
    globals: Map<Seq<char>, SymbolDefV>,
) -> AtomV
    decreases s,
{
    if s.len() == 0 {
        AtomV::List(Seq::empty())
    } else {
        let p = resolve_seq(s.subrange(0, s.len() - 1), ps, globals);
        let h = resolve(s[s.len() - 1], ps, globals);
        if p is Error {
            p
        } else if h is Error {
            h
        } else {
            AtomV::List(p->List_0.push(h))
        }
    }
}

pub open spec fn names_view(ps: Seq<String>) -> Seq<Seq<char>> {
    ps.map_values(|p: String| p@)
}

/// The position of the last parameter called `name`.
fn find_param(params: &Vec<String>, name: &String) -> (r: Option<usize>)
    ensures
        r is None ==> param_index(names_view(params@), name@) == -1,
        r matches Some(i) ==> param_index(names_view(params@), name@) == i,
{
    let mut j = params.len();
    assert(params@.subrange(0, j as int) =~= params@);
    while j > 0
        invariant
            j <= params@.len(),
            param_index(names_view(params@), name@)
                == param_index(names_view(params@.subrange(0, j as int)), name@),
        decreases j,
    {
        let ghost pre = names_view(params@.subrange(0, j as int));
        assert(pre.drop_last() =~= names_view(params@.subrange(0, j - 1)));
        if params[j - 1] == *name {
            return Some(j - 1);
        }
        j = j - 1;
    }
    None
}

proof fn lemma_subst_seq_push(s: Seq<AtomV>, x: AtomV, args: Seq<AtomV>)
    ensures
        subst_seq(s.push(x), args) == subst_seq(s, args).push(subst(x, args)),
{
    assert(s.push(x).subrange(0, s.len() as int) =~= s);
}

proof fn lemma_resolve_seq_push(s: Seq<AtomV>, x: AtomV, ps: Seq<Seq<char>>, g: Map<Seq<char>, SymbolDefV>)
    ensures
        resolve_seq(s.push(x), ps, g) == ({
            let p = resolve_seq(s, ps, g);
            let h = resolve(x, ps, g);
            if p is Error { p } else if h is Error { h } else { AtomV::List(p->List_0.push(h)) }
        }),
{
    assert(s.push(x).subrange(0, s.len() as int) =~= s);
}

/// Once a prefix of a list fails to resolve, the whole list fails with the same error.
proof fn lemma_resolve_seq_error_extends(s: Seq<AtomV>, j: int, ps: Seq<Seq<char>>, g: Map<Seq<char>, SymbolDefV>)
    requires
        0 <= j <= s.len(),
        resolve_seq(s.subrange(0, j), ps, g) is Error,
    ensures
        resolve_seq(s, ps, g) == resolve_seq(s.subrange(0, j), ps, g),
    decreases s.len() - j,
{
    if j < s.len() {
        lemma_resolve_seq_push(s.subrange(0, j), s[j], ps, g);
        assert(s.subrange(0, j).push(s[j]) =~= s.subrange(0, j + 1));
        lemma_resolve_seq_error_extends(s, j + 1, ps, g);
    } else {
        assert(s.subrange(0, j) =~= s);
    }
}

impl Atom {
    /// Whether the atom is a symbol naming a built-in form.
    pub fn is_reserved_keyword(&self) -> (r: bool)
        ensures
            r == (self@ matches AtomV::Symbol(n) && is_builtin(n)),
    {
        match self {
            Atom::Symbol(name) => is_builtin_name(name.as_str()),
            _ => false,
        }
    }

    /// Call-time substitution: replaces every `Arg(i)` by a copy of
    /// `args[i + 1]`, without evaluating anything.
    pub fn substitute_args(&self, args: &Vec<Atom>) -> (r: Atom)
        ensures
            r@ == subst(self@, view_atoms(args@)),
        decreases self,
    {
        match self {
            Atom::List(items) => {
                let ghost av = view_atoms(args@);
                let mut out: Vec<Atom> = Vec::new();
                let mut i: usize = 0;
                while i < items.len()
                    invariant
                        *self == Atom::List(*items),
                        av == view_atoms(args@),
                        i <= items@.len(),
                        view_atoms(out@) == subst_seq(view_atoms(items@.subrange(0, i as int)), av),
                    decreases items@.len() - i,
                {
                    proof {
                        assert(decreases_to!(*self => (*self)->List_0));
                        assert(decreases_to!(*items => items@));
                        assert(decreases_to!(items@ => items@[i as int]));
                    }
                    let c = items[i].substitute_args(args);
                    proof {
                        let pre = items@.subrange(0, i as int);
                        lemma_view_atoms_push(out@, c);
                        lemma_view_atoms_push(pre, items@[i as int]);
                        lemma_subst_seq_push(view_atoms(pre), view_atom(items@[i as int]), av);
                        assert(pre.push(items@[i as int]) =~= items@.subrange(0, i + 1));
                    }
                    out.push(c);
                    i = i + 1;
                }
                assert(items@.subrange(0, items@.len() as int) =~= items@);
                Atom::List(out)
            },
            Atom::Arg(k) => {
                proof { lemma_view_atoms_index(args@); }
                if *k < args.len() && *k + 1 < args.len() {
                    args[*k + 1].duplicate()
                } else {
                    Atom::Arg(*k)
                }
            },
            _ => self.duplicate(),
        }
    }

    /// Definition-time resolution of a function body against its parameter
    /// names and the environment it is defined in.
    pub fn parse_args(&self, params: &Vec<String>, env: &Env) -> (r: Atom)
        ensures
            r@ == resolve(self@, names_view(params@), env@),
        decreases self,
    {
        let ghost ps = names_view(params@);
        match self {
            Atom::List(items) => {
                let mut out: Vec<Atom> = Vec::new();
                let mut i: usize = 0;
                while i < items.len()
                    invariant
                        *self == Atom::List(*items),
                        ps == names_view(params@),
                        i <= items@.len(),
                        resolve_seq(view_atoms(items@.subrange(0, i as int)), ps, env@)
                            == AtomV::List(view_atoms(out@)),
                    decreases items@.len() - i,
                {
                    proof {
                        assert(decreases_to!(*self => (*self)->List_0));
                        assert(decreases_to!(*items => items@));
                        assert(decreases_to!(items@ => items@[i as int]));
                    }
                    let c = items[i].parse_args(params, env);
                    let ghost pre = items@.subrange(0, i as int);
                    proof {
                        lemma_view_atoms_push(pre, items@[i as int]);
                        lemma_resolve_seq_push(view_atoms(pre), view_atom(items@[i as int]), ps, env@);
                        assert(pre.push(items@[i as int]) =~= items@.subrange(0, i + 1));
                        lemma_view_atoms_index(items@);
                        lemma_view_atoms_index(items@.subrange(0, i + 1));
                        assert(view_atoms(items@.subrange(0, i + 1)) =~= view_atoms(items@).subrange(0, i + 1));
                    }
                    if let Atom::Error(_) = c {
                        proof {
                            lemma_resolve_seq_error_extends(view_atoms(items@), i + 1, ps, env@);
                        }
                        return c;
                    }
                    proof { lemma_view_atoms_push(out@, c); }
                    out.push(c);
                    i = i + 1;
                }
                assert(items@.subrange(0, items@.len() as int) =~= items@);
                Atom::List(out)
            },
            Atom::Symbol(name) => {
                if is_builtin_name(name.as_str()) {
                    return self.duplicate();
                }
                match find_param(params, name) {
                    Some(k) => Atom::Arg(k),
                    None => {
                        if env.get(name).is_some() {
                            self.duplicate()
                        } else {
                            Atom::Error(join3("Argument `", name.as_str(), "` not found"))
                        }
                    },
                }
            },
            _ => self.duplicate(),
        }
    }
}

} // verus!
