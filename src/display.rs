//! The text a host shows for a value, and structural equality of atoms.
use vstd::prelude::*;
use vstd::string::StringExecFns;
use crate::atom::{Atom, AtomV, Status, StatusV, view_atom, view_atoms, lemma_view_atoms_push, lemma_view_atoms_index};
use crate::eval::NumberOps;
use crate::laws::{no_placeholders, no_placeholders_seq, lemma_no_placeholders_index, lemma_no_placeholders_prefix};
use crate::text::push_char;

verus! {

/// The display text of an atom that is not a number, a list or a placeholder.
pub open spec fn leaf_text(a: AtomV) -> Seq<char> {
    match a {
        AtomV::Boolean(b) => if b { "TRUE"@ } else { "FALSE"@ },
        AtomV::Symbol(s) => s,
        AtomV::Str(s) => s,
        AtomV::Error(m) => "ERROR: "@ + m,
        AtomV::StatusMsg(StatusV::Quit) => "quitting"@,
        AtomV::StatusMsg(StatusV::LoadModule(m)) => "loading module "@ + m,
        _ => "None"@,
    }
}

/// Texts separated by single spaces.
pub open spec fn spaced_join(parts: Seq<Seq<char>>) -> Seq<char>
    decreases parts.len(),
{
    if parts.len() == 0 {
        Seq::empty()
    } else if parts.len() == 1 {
        parts[0]
    } else {
        spaced_join(parts.drop_last()) + seq![' '] + parts.last()
    }
}

/// `t` is the text shown for `a`: a number as `number_text` wrote it, a list
/// as its items' texts between parentheses, separated by single spaces, and
/// anything else as `leaf_text` says.
pub open spec fn shown<O: NumberOps>(ops: &O, a: AtomV, t: Seq<char>) -> bool
    decreases a,
{
    match a {
        AtomV::Number(x) => exists|st: String| #[trigger] call_ensures(O::number_text, (ops, x), st) && t == st@,
        AtomV::List(items) => exists|parts: Seq<Seq<char>>|
            t == seq!['('] + #[trigger] spaced_join(parts) + seq![')'] && shown_all(ops, items, parts),
        _ => t == leaf_text(a),
    }
}

/// Each text in `parts` is the one shown for the atom at its position.
pub open spec fn shown_all<O: NumberOps>(ops: &O, items: Seq<AtomV>, parts: Seq<Seq<char>>) -> bool
    decreases items,
{
    &&& items.len() == parts.len()
    &&& items.len() == 0 || {
        &&& shown_all(ops, items.subrange(0, items.len() - 1), parts.drop_last())
        &&& shown(ops, items[items.len() - 1], parts.last())
    }
}

impl Atom {
    /// Whether a parameter placeholder occurs anywhere in the atom.
    pub fn has_placeholder(&self) -> (r: bool)
        ensures
            r == !no_placeholders(self@),
        decreases self,
    {
        match self {
            Atom::Arg(_) => true,
            Atom::List(items) => {
                let mut i: usize = 0;
                while i < items.len()
                    invariant
                        *self == Atom::List(*items),
                        i <= items@.len(),
                        no_placeholders_seq(view_atoms(items@.subrange(0, i as int))),
                    decreases items@.len() - i,
                {
                    proof {
                        assert(decreases_to!(*self => (*self)->List_0));
                        assert(decreases_to!(*items => items@));
                        assert(decreases_to!(items@ => items@[i as int]));
                    }
                    let inner = items[i].has_placeholder();
                    let ghost pre = items@.subrange(0, i as int);
                    proof {
                        lemma_view_atoms_push(pre, items@[i as int]);
                        assert(pre.push(items@[i as int]) =~= items@.subrange(0, i + 1));
                        let vs = view_atoms(pre).push(view_atom(items@[i as int]));
                        assert(vs.subrange(0, vs.len() - 1) =~= view_atoms(pre));
                    }
                    if inner {
                        proof {
                            if no_placeholders_seq(view_atoms(items@)) {
                                lemma_view_atoms_index(items@);
                                lemma_no_placeholders_prefix(view_atoms(items@), i as int + 1);
                                lemma_view_atoms_index(items@.subrange(0, i + 1));
                                assert(view_atoms(items@).subrange(0, i + 1) =~= view_atoms(items@.subrange(0, i + 1)));
                            }
                        }
                        return true;
                    }
                    i = i + 1;
                }
                assert(items@.subrange(0, items@.len() as int) =~= items@);
                false
            },
            _ => false,
        }
    }

    /// The text a host shows for a value: a list is its items' texts
    /// between parentheses, separated by single spaces.
    pub fn to_text<O: NumberOps>(&self, ops: &O) -> (r: String)
        requires
            no_placeholders(self@),
        ensures
            !(self@ is List) && !(self@ is Number) ==> r@ == leaf_text(self@),
            self@ is List ==> r@.len() >= 2 && r@[0] == '(' && r@[r@.len() - 1] == ')',
            shown(ops, self@, r@),
        decreases self,
    {
        match self {
            Atom::Number(x) => {
                let t = ops.number_text(*x);
                assert(call_ensures(O::number_text, (ops, *x), t));
                t
            },
            Atom::Boolean(b) => if *b { String::from_str("TRUE") } else { String::from_str("FALSE") },
            Atom::Symbol(s) => s.clone(),
            Atom::String(s) => s.clone(),
            Atom::Error(m) => {
                let mut t = String::from_str("ERROR: ");
                t.append(m.as_str());
                t
            },
            Atom::StatusMsg(Status::Quit) => String::from_str("quitting"),
            Atom::StatusMsg(Status::LoadModule(m)) => {
                let mut t = String::from_str("loading module ");
                t.append(m.as_str());
                t
            },
            Atom::List(items) => {
                proof { lemma_view_atoms_index(items@); }
                let mut t = String::new();
                push_char(&mut t, '(');
                let ghost mut parts: Seq<Seq<char>> = Seq::empty();
                proof {
                    assert(view_atoms(items@).subrange(0, 0) =~= Seq::<AtomV>::empty());
                    assert(t@ =~= seq!['('] + spaced_join(parts));
                }
                let mut i: usize = 0;
                while i < items.len()
                    invariant
                        *self == Atom::List(*items),
                        no_placeholders(self@),
                        view_atoms(items@).len() == items@.len(),
                        forall|k: int| 0 <= k < items@.len() ==> #[trigger] view_atoms(items@)[k] == view_atom(items@[k]),
                        i <= items@.len(),
                        t@.len() >= 1 && t@[0] == '(',
                        parts.len() == i,
                        shown_all(ops, view_atoms(items@).subrange(0, i as int), parts),
                        t@ == seq!['('] + spaced_join(parts),
                    decreases items@.len() - i,
                {
                    proof {
                        assert(decreases_to!(*self => (*self)->List_0));
                        assert(decreases_to!(*items => items@));
                        assert(decreases_to!(items@ => items@[i as int]));
                        lemma_no_placeholders_index(view_atoms(items@), i as int);
                    }
                    if i > 0 {
                        push_char(&mut t, ' ');
                    }
                    let part = items[i].to_text(ops);
                    let ghost before = t@;
                    t.append(part.as_str());
                    assert(t@[0] == before[0]);
                    proof {
                        let np = parts.push(part@);
                        let pre = view_atoms(items@).subrange(0, i + 1);
                        assert(pre.subrange(0, i as int) =~= view_atoms(items@).subrange(0, i as int));
                        assert(np.drop_last() =~= parts);
                        assert(pre[i as int] == view_atom(items@[i as int]));
                        assert(shown_all(ops, pre, np));
                        if i == 0 {
                            assert(spaced_join(np) == part@);
                            assert(t@ =~= seq!['('] + spaced_join(np));
                        } else {
                            assert(spaced_join(np) == spaced_join(parts) + seq![' '] + part@);
                            assert(t@ =~= seq!['('] + spaced_join(np));
                        }
                        parts = np;
                    }
                    i = i + 1;
                }
                push_char(&mut t, ')');
                proof {
                    assert(view_atoms(items@).subrange(0, items@.len() as int) =~= view_atoms(items@));
                    assert(t@ =~= seq!['('] + spaced_join(parts) + seq![')']);
                }
                t
            },
            Atom::Arg(_) => String::new(),
            Atom::Nil => String::from_str("None"),
        }
    }
}


impl PartialEq for Atom {
    fn eq(&self, other: &Atom) -> (r: bool)
        ensures
            r == (self@ == other@),
    {
        same_atom(self, other)
    }
}

impl vstd::std_specs::cmp::PartialEqSpecImpl for Atom {
    open spec fn obeys_eq_spec() -> bool {
        true
    }

    open spec fn eq_spec(&self, other: &Atom) -> bool {
        self@ == other@
    }
}

/// Whether two atoms are structurally equal.
pub fn same_atom(a: &Atom, b: &Atom) -> (r: bool)
    ensures
        r == (a@ == b@),
    decreases a,
{
    match (a, b) {
        (Atom::Number(x), Atom::Number(y)) => *x == *y,
        (Atom::Boolean(x), Atom::Boolean(y)) => *x == *y,
        (Atom::Symbol(x), Atom::Symbol(y)) => *x == *y,
        (Atom::String(x), Atom::String(y)) => *x == *y,
        (Atom::Error(x), Atom::Error(y)) => *x == *y,
        (Atom::Arg(x), Atom::Arg(y)) => *x == *y,
        (Atom::Nil, Atom::Nil) => true,
        (Atom::StatusMsg(Status::Quit), Atom::StatusMsg(Status::Quit)) => true,
        (Atom::StatusMsg(Status::LoadModule(x)), Atom::StatusMsg(Status::LoadModule(y))) => *x == *y,
        (Atom::List(xs), Atom::List(ys)) => {
            proof {
                lemma_view_atoms_index(xs@);
                lemma_view_atoms_index(ys@);
            }
            if xs.len() != ys.len() {
                return false;
            }
            let mut i: usize = 0;
            while i < xs.len()
                invariant
                    *a == Atom::List(*xs),
                    *b == Atom::List(*ys),
                    xs@.len() == ys@.len(),
                    view_atoms(xs@).len() == xs@.len(),
                    view_atoms(ys@).len() == ys@.len(),
                    forall|k: int| 0 <= k < xs@.len() ==> #[trigger] view_atoms(xs@)[k] == view_atom(xs@[k]),
                    forall|k: int| 0 <= k < ys@.len() ==> #[trigger] view_atoms(ys@)[k] == view_atom(ys@[k]),
                    i <= xs@.len(),
                    forall|k: int| 0 <= k < i ==> view_atoms(xs@)[k] == view_atoms(ys@)[k],
                decreases xs@.len() - i,
            {
                proof {
                    assert(decreases_to!(*a => (*a)->List_0));
                    assert(decreases_to!(*xs => xs@));
                    assert(decreases_to!(xs@ => xs@[i as int]));
                }
                if !same_atom(&xs[i], &ys[i]) {
                    assert(view_atoms(xs@)[i as int] != view_atoms(ys@)[i as int]);
                    return false;
                }
                i = i + 1;
            }
            assert(view_atoms(xs@) =~= view_atoms(ys@));
            true
        },
        _ => false,
    }
}


} // verus!
