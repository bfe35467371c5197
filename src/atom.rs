//! The value and syntax-tree type of the language, and its mathematical view.
use vstd::prelude::*;

verus! {

/// A request from the evaluator to the host loop.
#[derive(Clone, Debug)]
pub enum Status {
    Quit,
    LoadModule(String),
}

/// One node of a syntax tree, which is also the type of every value.
///
/// A number is held as the bit pattern of an IEEE-754 single-precision float;
/// the arithmetic on it is supplied by a `NumberOps` implementation.
#[derive(Debug)]
pub enum Atom {
    Number(u32),
    Boolean(bool),
    Symbol(String),
    String(String),
    List(Vec<Atom>),
    Error(String),
    StatusMsg(Status),
    Arg(usize),
    Nil,
}

/// The view of a `Status`.
pub enum StatusV {
    Quit,
    LoadModule(Seq<char>),
}

/// The view of an `Atom`: the same tree over character sequences.
pub enum AtomV {
    Number(u32),
    Boolean(bool),
    Symbol(Seq<char>),
    Str(Seq<char>),
    List(Seq<AtomV>),
    Error(Seq<char>),
    StatusMsg(StatusV),
    Arg(nat),
    Nil,
}

impl View for Status {
    type V = StatusV;

    open spec fn view(&self) -> StatusV {
        match self {
            Status::Quit => StatusV::Quit,
            Status::LoadModule(p) => StatusV::LoadModule(p@),
        }
    }
}

pub open spec fn view_atom(a: Atom) -> AtomV
    decreases a,
{
    match a {
        Atom::Number(n) => AtomV::Number(n),
        Atom::Boolean(b) => AtomV::Boolean(b),
        Atom::Symbol(s) => AtomV::Symbol(s@),
        Atom::String(s) => AtomV::Str(s@),
        Atom::List(v) => AtomV::List(view_atoms(v@)),
        Atom::Error(s) => AtomV::Error(s@),
        Atom::StatusMsg(m) => AtomV::StatusMsg(m@),
        Atom::Arg(i) => AtomV::Arg(i as nat),
        Atom::Nil => AtomV::Nil,
    }
}

pub open spec fn view_atoms(s: Seq<Atom>) -> Seq<AtomV>
    decreases s,
{
    if s.len() == 0 {
        Seq::empty()
    } else {
        seq![view_atom(s[0])] + view_atoms(s.subrange(1, s.len() as int))
    }
}

impl View for Atom {
    type V = AtomV;

    open spec fn view(&self) -> AtomV {
        view_atom(*self)
    }
}

impl Status {
    /// A copy of the status.
    pub fn duplicate(&self) -> (r: Status)
        ensures
            r@ == self@,
    {
        match self {
            Status::Quit => Status::Quit,
            Status::LoadModule(p) => Status::LoadModule(p.clone()),
        }
    }
}

impl Atom {
    /// A deep copy of the atom.
    pub fn duplicate(&self) -> (r: Atom)
        ensures
            r@ == self@,
        decreases self,
    {
        match self {
            Atom::Number(n) => Atom::Number(*n),
            Atom::Boolean(b) => Atom::Boolean(*b),
            Atom::Symbol(s) => Atom::Symbol(s.clone()),
            Atom::String(s) => Atom::String(s.clone()),
            Atom::List(items) => {
                let mut out: Vec<Atom> = Vec::new();
                let mut i: usize = 0;
                while i < items.len()
                    invariant
                        *self == Atom::List(*items),
                        i <= items@.len(),
                        view_atoms(out@) == view_atoms(items@.subrange(0, i as int)),
                    decreases items@.len() - i,
                {
                    proof {
                        assert(decreases_to!(*self => (*self)->List_0));
                        assert(decreases_to!(*items => items@));
                        assert(decreases_to!(items@ => items@[i as int]));
                    }
                    let c = items[i].duplicate();
                    proof { lemma_view_atoms_push(out@, c); lemma_view_atoms_push(items@.subrange(0, i as int), items@[i as int]); }
                    out.push(c);
                    assert(items@.subrange(0, i + 1) =~= items@.subrange(0, i as int).push(items@[i as int]));
                    i = i + 1;
                }
                assert(items@.subrange(0, items@.len() as int) =~= items@);
                Atom::List(out)
            },
            Atom::Error(s) => Atom::Error(s.clone()),
            Atom::StatusMsg(m) => Atom::StatusMsg(m.duplicate()),
            Atom::Arg(i) => Atom::Arg(*i),
            Atom::Nil => Atom::Nil,
        }
    }
}

/// Whether two atoms are of the same variant, whatever they hold.
pub open spec fn same_variant(a: AtomV, b: AtomV) -> bool {
    (a is Number && b is Number) || (a is Boolean && b is Boolean) || (a is Symbol && b is Symbol)
        || (a is Str && b is Str) || (a is List && b is List) || (a is Error && b is Error)
        || (a is StatusMsg && b is StatusMsg) || (a is Arg && b is Arg) || (a is Nil && b is Nil)
}

impl Atom {
    /// Whether `self` and `other` are of the same variant.
    pub fn is_same_type(&self, other: &Atom) -> (r: bool)
        ensures
            r == same_variant(self@, other@),
    {
        match (self, other) {
            (Atom::Number(_), Atom::Number(_)) => true,
            (Atom::Boolean(_), Atom::Boolean(_)) => true,
            (Atom::Symbol(_), Atom::Symbol(_)) => true,
            (Atom::String(_), Atom::String(_)) => true,
            (Atom::List(_), Atom::List(_)) => true,
            (Atom::Error(_), Atom::Error(_)) => true,
            (Atom::StatusMsg(_), Atom::StatusMsg(_)) => true,
            (Atom::Arg(_), Atom::Arg(_)) => true,
            (Atom::Nil, Atom::Nil) => true,
            _ => false,
        }
    }
}

impl Clone for Atom {
    fn clone(&self) -> (r: Atom)
        ensures
            r@ == self@,
    {
        self.duplicate()
    }
}

/// The view of a sequence with one more atom is the view extended by that atom's view.
pub proof fn lemma_view_atoms_push(s: Seq<Atom>, a: Atom)
    ensures
        view_atoms(s.push(a)) == view_atoms(s).push(view_atom(a)),
    decreases s.len(),
{
    if s.len() == 0 {
        assert(s.push(a).subrange(1, 1) =~= Seq::<Atom>::empty());
        assert(view_atoms(Seq::<Atom>::empty()) == Seq::<AtomV>::empty());
        assert(view_atoms(s.push(a)) =~= seq![view_atom(a)]);
    } else {
        let t = s.subrange(1, s.len() as int);
        lemma_view_atoms_push(t, a);
        assert(s.push(a).subrange(1, s.len() + 1int) =~= t.push(a));
        assert(view_atoms(s.push(a)) =~= view_atoms(s).push(view_atom(a)));
    }
}

/// The view of a sequence has its length, and its entries are the views of the atoms.
pub proof fn lemma_view_atoms_index(s: Seq<Atom>)
    ensures
        view_atoms(s).len() == s.len(),
        forall|i: int| 0 <= i < s.len() ==> #[trigger] view_atoms(s)[i] == view_atom(s[i]),
    decreases s.len(),
{
    if s.len() > 0 {
        let t = s.subrange(1, s.len() as int);
        lemma_view_atoms_index(t);
        assert forall|i: int| 0 <= i < s.len() implies #[trigger] view_atoms(s)[i] == view_atom(s[i]) by {
            if i > 0 {
                assert(t[i - 1] == s[i]);
            }
        }
    }
}

} // verus!
