//! Terms and the identifiers they can hold, with their mathematical views.

#![allow(non_camel_case_types)]

use crate::encoding::{erlang_char_encoding, ERLANG_ASCII, ERLANG_LATIN1, ERLANG_UTF8};
use vstd::prelude::*;

verus! {

/// The longest atom name in Latin-1, in bytes.
pub const MAX_ATOM_LATIN1: usize = 255;

/// The longest atom name in UTF-8, in bytes.
pub const MAX_ATOM_UTF8: usize = 1020;

/// Why a value cannot be encoded.
#[derive(Debug, Copy, Clone, PartialEq, Eq, Structural)]
pub enum EncodingError {
    /// An atom name is longer than its encoding allows.
    NameTooLong,
    /// The value cannot be written in the representation chosen for it: a
    /// length that needs more than 32 bits, a reference without one to three
    /// words, a character set that the name does not fit, or a big integer
    /// that holds a machine-word value.
    Unrepresentable,
}

/// An atom name: its bytes, and whether they are UTF-8 or Latin-1.
#[derive(Debug, Clone, PartialEq, Eq)]
pub struct Atom {
    pub name: Vec<u8>,
    pub utf8: bool,
}

/// What an [`Atom`] is.
pub ghost struct AtomView {
    pub name: Seq<u8>,
    pub utf8: bool,
}

impl View for Atom {
    type V = AtomView;

    open spec fn view(&self) -> AtomView {
        AtomView { name: self.name@, utf8: self.utf8 }
    }
}

/// Whether an atom name is within the length its encoding allows.
pub open spec fn atom_fits(a: AtomView) -> bool {
    if a.utf8 {
        a.name.len() <= MAX_ATOM_UTF8
    } else {
        a.name.len() <= MAX_ATOM_LATIN1
    }
}

/// Whether every byte is seven-bit ASCII.
pub open spec fn all_ascii(s: Seq<u8>) -> bool {
    forall|i: int| 0 <= i < s.len() ==> s[i] < 128
}

/// What `Atom::new` returns for a name and a set of encodings.
pub open spec fn atom_new_spec(name: Seq<u8>, encoding: erlang_char_encoding) -> Result<
    AtomView,
    EncodingError,
> {
    if encoding.0 == ERLANG_UTF8 {
        if name.len() <= MAX_ATOM_UTF8 {
            Ok(AtomView { name, utf8: true })
        } else {
            Err(EncodingError::NameTooLong)
        }
    } else if encoding.0 == ERLANG_LATIN1 || encoding.0 == ERLANG_ASCII {
        if name.len() > MAX_ATOM_LATIN1 {
            Err(EncodingError::NameTooLong)
        } else if encoding.0 == ERLANG_ASCII && !all_ascii(name) {
            Err(EncodingError::Unrepresentable)
        } else {
            Ok(AtomView { name, utf8: false })
        }
    } else {
        Err(EncodingError::Unrepresentable)
    }
}

impl Atom {
    /// An atom with the given name, checked against the limits of `encoding`,
    /// which must name exactly one character set. ASCII names are kept as Latin-1.
    pub fn new(name: Vec<u8>, encoding: erlang_char_encoding) -> (r: Result<Atom, EncodingError>)
        ensures
            match r {
                Ok(a) => atom_new_spec(name@, encoding) == Ok::<AtomView, EncodingError>(a@),
                Err(e) => atom_new_spec(name@, encoding) == Err::<AtomView, EncodingError>(e),
            },
    {
        if encoding.0 == ERLANG_UTF8 {
            if name.len() <= MAX_ATOM_UTF8 {
                Ok(Atom { name, utf8: true })
            } else {
                Err(EncodingError::NameTooLong)
            }
        } else if encoding.0 == ERLANG_LATIN1 || encoding.0 == ERLANG_ASCII {
            if name.len() > MAX_ATOM_LATIN1 {
                return Err(EncodingError::NameTooLong);
            }
            if encoding.0 == ERLANG_ASCII {
                let mut i: usize = 0;
                while i < name.len()
                    invariant
                        i <= name.len(),
                        name.len() <= MAX_ATOM_LATIN1,
                        encoding.0 == ERLANG_ASCII,
                        forall|j: int| 0 <= j < i ==> name@[j] < 128,
                    decreases name.len() - i,
                {
                    if name[i] >= 128 {
                        assert(!all_ascii(name@)) by {
                            assert(name@[i as int] >= 128);
                        }
                        return Err(EncodingError::Unrepresentable);
                    }
                    i += 1;
                }
            }
            Ok(Atom { name, utf8: false })
        } else {
            Err(EncodingError::Unrepresentable)
        }
    }

    /// The character set of the name: UTF-8 or Latin-1.
    pub fn encoding(&self) -> (r: erlang_char_encoding)
        ensures
            r.0 == (if self.utf8 { ERLANG_UTF8 } else { ERLANG_LATIN1 }),
    {
        if self.utf8 {
            erlang_char_encoding::utf8()
        } else {
            erlang_char_encoding::latin1()
        }
    }
}

/// A process identifier.
#[derive(Debug, Clone, PartialEq, Eq)]
pub struct erlang_pid {
    pub node: Atom,
    pub num: u32,
    pub serial: u32,
    pub creation: u32,
}

/// What an [`erlang_pid`] is.
pub ghost struct PidView {
    pub node: AtomView,
    pub num: u32,
    pub serial: u32,
    pub creation: u32,
}

impl View for erlang_pid {
    type V = PidView;

    open spec fn view(&self) -> PidView {
        PidView { node: self.node@, num: self.num, serial: self.serial, creation: self.creation }
    }
}

/// A port identifier.
#[derive(Debug, Clone, PartialEq, Eq)]
pub struct erlang_port {
    pub node: Atom,
    pub id: u32,
    pub creation: u32,
}

/// What an [`erlang_port`] is.
pub ghost struct PortView {
    pub node: AtomView,
    pub id: u32,
    pub creation: u32,
}

impl View for erlang_port {
    type V = PortView;

    open spec fn view(&self) -> PortView {
        PortView { node: self.node@, id: self.id, creation: self.creation }
    }
}

/// A reference: one to three words that are unique on its node.
#[derive(Debug, Clone, PartialEq, Eq)]
pub struct erlang_ref {
    pub node: Atom,
    pub n: Vec<u32>,
    pub creation: u32,
}

/// What an [`erlang_ref`] is.
pub ghost struct RefView {
    pub node: AtomView,
    pub n: Seq<u32>,
    pub creation: u32,
}

impl View for erlang_ref {
    type V = RefView;

    open spec fn view(&self) -> RefView {
        RefView { node: self.node@, n: self.n@, creation: self.creation }
    }
}

/// A function that a module exports, named by module, function and arity.
#[derive(Debug, Clone, PartialEq, Eq)]
pub struct erlang_fun {
    pub module: Atom,
    pub function: Atom,
    pub arity: u8,
}

/// What an [`erlang_fun`] is.
pub ghost struct FunView {
    pub module: AtomView,
    pub function: AtomView,
    pub arity: u8,
}

impl View for erlang_fun {
    type V = FunView;

    open spec fn view(&self) -> FunView {
        FunView { module: self.module@, function: self.function@, arity: self.arity }
    }
}

/// A value of the external term format.
#[derive(Debug, PartialEq, Eq)]
pub enum Term {
    /// An integer that fits a machine word.
    Integer(i64),
    /// An integer beyond the machine word: sign and magnitude, the magnitude
    /// as bytes with the least significant first.
    BigInteger { negative: bool, digits: Vec<u8> },
    /// A float, held as the 64 bits of its IEEE 754 form.
    Float(u64),
    Atom(Atom),
    Tuple(Vec<Term>),
    /// The empty list.
    Nil,
    /// The elements of a list and its tail; the tail of a proper list is `Nil`.
    List(Vec<Term>, Box<Term>),
    /// Key and value pairs in the order in which they were given.
    Mapping(Vec<(Term, Term)>),
    Binary(Vec<u8>),
    Pid(erlang_pid),
    Port(erlang_port),
    Reference(erlang_ref),
    Fun(erlang_fun),
}

/// What a [`Term`] is.
pub ghost enum TermView {
    Integer(i64),
    BigInteger { negative: bool, digits: Seq<u8> },
    Float(u64),
    Atom(AtomView),
    Tuple(Seq<TermView>),
    Nil,
    List(Seq<TermView>, Box<TermView>),
    Mapping(Seq<(TermView, TermView)>),
    Binary(Seq<u8>),
    Pid(PidView),
    Port(PortView),
    Reference(RefView),
    Fun(FunView),
}

/// The views of a sequence of terms.
pub open spec fn views(items: Seq<Term>) -> Seq<TermView>
    decreases items,
{
    if items.len() == 0 {
        Seq::empty()
    } else {
        views(items.drop_last()).push(term_view(items.last()))
    }
}

/// The views of a sequence of pairs of terms.
pub open spec fn pair_views(pairs: Seq<(Term, Term)>) -> Seq<(TermView, TermView)>
    decreases pairs,
{
    if pairs.len() == 0 {
        Seq::empty()
    } else {
        pair_views(pairs.drop_last()).push((term_view(pairs.last().0), term_view(pairs.last().1)))
    }
}

/// What a term is: the same shape over mathematical sequences.
pub open spec fn term_view(t: Term) -> TermView
    decreases t,
{
    match t {
        Term::Integer(v) => TermView::Integer(v),
        Term::BigInteger { negative, digits } => TermView::BigInteger { negative, digits: digits@ },
        Term::Float(bits) => TermView::Float(bits),
        Term::Atom(a) => TermView::Atom(a@),
        Term::Tuple(items) => TermView::Tuple(views(items@)),
        Term::Nil => TermView::Nil,
        Term::List(items, tail) => TermView::List(views(items@), Box::new(term_view(*tail))),
        Term::Mapping(pairs) => TermView::Mapping(pair_views(pairs@)),
        Term::Binary(bytes) => TermView::Binary(bytes@),
        Term::Pid(p) => TermView::Pid(p@),
        Term::Port(p) => TermView::Port(p@),
        Term::Reference(r) => TermView::Reference(r@),
        Term::Fun(f) => TermView::Fun(f@),
    }
}

impl View for Term {
    type V = TermView;

    open spec fn view(&self) -> TermView {
        term_view(*self)
    }
}

/// What `Term::proper_list` makes of its elements.
pub open spec fn proper_list_view(items: Seq<TermView>) -> TermView {
    if items.len() == 0 {
        TermView::Nil
    } else {
        TermView::List(items, Box::new(TermView::Nil))
    }
}

impl Term {
    /// An atom with the given name, checked as `Atom::new` checks it.
    pub fn atom(name: Vec<u8>, encoding: erlang_char_encoding) -> (r: Result<Term, EncodingError>)
        ensures
            match r {
                Ok(t) => atom_new_spec(name@, encoding) matches Ok(a) && t@ == TermView::Atom(a),
                Err(e) => atom_new_spec(name@, encoding) == Err::<AtomView, EncodingError>(e),
            },
    {
        match Atom::new(name, encoding) {
            Ok(a) => Ok(Term::Atom(a)),
            Err(e) => Err(e),
        }
    }

    /// The proper list of the given elements: the empty list where there
    /// are none, else the elements with the empty list as their tail.
    pub fn proper_list(items: Vec<Term>) -> (r: Term)
        ensures
            r@ == proper_list_view(views(items@)),
    {
        if items.len() == 0 {
            assert(views(items@) =~= Seq::empty());
            Term::Nil
        } else {
            proof {
                lemma_views(items@);
            }
            assert(term_view(Term::Nil) == TermView::Nil);
            Term::List(items, Box::new(Term::Nil))
        }
    }
}

/// `views` keeps the length and maps each term to its view.
pub proof fn lemma_views(items: Seq<Term>)
    ensures
        views(items).len() == items.len(),
        forall|i: int| 0 <= i < items.len() ==> (#[trigger] views(items)[i]) == items[i].view(),
    decreases items.len(),
{
    if items.len() > 0 {
        lemma_views(items.drop_last());
    }
}

/// `pair_views` keeps the length and maps each pair to its views.
pub proof fn lemma_pair_views(pairs: Seq<(Term, Term)>)
    ensures
        pair_views(pairs).len() == pairs.len(),
        forall|i: int|
            0 <= i < pairs.len() ==> (#[trigger] pair_views(pairs)[i]) == (
                pairs[i].0.view(),
                pairs[i].1.view(),
            ),
    decreases pairs.len(),
{
    if pairs.len() > 0 {
        lemma_pair_views(pairs.drop_last());
    }
}

} // verus!
