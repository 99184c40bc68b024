//! The wire form of each term, and the encoder that writes it.

use crate::number::{fits_word, magnitude, magnitude_of};
use crate::term::{atom_fits, Atom, AtomView, EncodingError, Term, TermView};
use crate::term::{lemma_pair_views, lemma_views, pair_views, views};
use crate::wire::{be16, be32, be64, bits_of_i32, i32_bits, push_all, push_be16, push_be32, push_be64};
use vstd::bytes::{spec_u64_to_le_bytes, u64_to_le_bytes};
use vstd::prelude::*;

verus! {

/// The byte that precedes a complete term.
pub const VERSION_MAGIC: u8 = 131;

/// A float as the eight bytes of its IEEE 754 form.
pub const NEW_FLOAT_EXT: u8 = 70;

/// A process identifier with a four-byte creation.
pub const NEW_PID_EXT: u8 = 88;

/// A port identifier with a four-byte creation.
pub const NEW_PORT_EXT: u8 = 89;

/// A reference with a four-byte creation.
pub const NEWER_REFERENCE_EXT: u8 = 90;

/// A port identifier with a one-byte creation, as older nodes write it.
pub const PORT_EXT: u8 = 102;

/// A process identifier with a one-byte creation, as older nodes write it.
pub const PID_EXT: u8 = 103;

/// A reference with a one-byte creation, as older nodes write it.
pub const NEW_REFERENCE_EXT: u8 = 114;

/// An integer from 0 to 255 in one byte.
pub const SMALL_INTEGER_EXT: u8 = 97;

/// A signed integer in four bytes.
pub const INTEGER_EXT: u8 = 98;

/// A Latin-1 atom behind a two-byte length.
pub const ATOM_EXT: u8 = 100;

/// A tuple behind a one-byte arity.
pub const SMALL_TUPLE_EXT: u8 = 104;

/// A tuple behind a four-byte arity.
pub const LARGE_TUPLE_EXT: u8 = 105;

/// The empty list.
pub const NIL_EXT: u8 = 106;

/// A list of bytes behind a two-byte length.
pub const STRING_EXT: u8 = 107;

/// A list behind a four-byte length, with its tail.
pub const LIST_EXT: u8 = 108;

/// Raw bytes behind a four-byte length.
pub const BINARY_EXT: u8 = 109;

/// A big integer behind a one-byte digit count.
pub const SMALL_BIG_EXT: u8 = 110;

/// A big integer behind a four-byte digit count.
pub const LARGE_BIG_EXT: u8 = 111;

/// An exported function: module, function and arity.
pub const EXPORT_EXT: u8 = 113;

/// A Latin-1 atom behind a one-byte length.
pub const SMALL_ATOM_EXT: u8 = 115;

/// A map behind a four-byte count of pairs.
pub const MAP_EXT: u8 = 116;

/// A UTF-8 atom behind a two-byte length.
pub const ATOM_UTF8_EXT: u8 = 118;

/// A UTF-8 atom behind a one-byte length.
pub const SMALL_ATOM_UTF8_EXT: u8 = 119;

/// The length `n` as a 32-bit field.
pub open spec fn len32(n: nat) -> Seq<u8> {
    be32(n as u32)
}

/// The sign byte of a big integer.
pub open spec fn sign_byte(negative: bool) -> u8 {
    if negative {
        1
    } else {
        0
    }
}

/// The wire form of an atom: the shortest tag of its character set.
pub open spec fn enc_atom(a: AtomView) -> Seq<u8> {
    if !a.utf8 {
        seq![SMALL_ATOM_EXT, a.name.len() as u8] + a.name
    } else if a.name.len() <= 255 {
        seq![SMALL_ATOM_UTF8_EXT, a.name.len() as u8] + a.name
    } else {
        seq![ATOM_UTF8_EXT] + be16(a.name.len() as u16) + a.name
    }
}

/// The wire form of a machine-word integer: the smallest tag that holds it.
pub open spec fn enc_int(v: i64) -> Seq<u8> {
    if 0 <= v <= 255 {
        seq![SMALL_INTEGER_EXT, v as u8]
    } else if -2147483648 <= v <= 2147483647 {
        seq![INTEGER_EXT] + be32(i32_bits(v as i32))
    } else {
        seq![SMALL_BIG_EXT, 8u8, sign_byte(v < 0)] + spec_u64_to_le_bytes(magnitude_of(v))
    }
}

/// The words of a reference, each as a 32-bit field.
pub open spec fn enc_words(n: Seq<u32>) -> Seq<u8>
    decreases n.len(),
{
    if n.len() == 0 {
        Seq::empty()
    } else {
        be32(n[0]) + enc_words(n.subrange(1, n.len() as int))
    }
}

/// The wire form of a term, without the version byte.
pub open spec fn enc(t: TermView) -> Seq<u8>
    decreases t,
{
    match t {
        TermView::Integer(v) => enc_int(v),
        TermView::BigInteger { negative, digits } => if digits.len() <= 255 {
            seq![SMALL_BIG_EXT, digits.len() as u8, sign_byte(negative)] + digits
        } else {
            seq![LARGE_BIG_EXT] + len32(digits.len()) + seq![sign_byte(negative)] + digits
        },
        TermView::Float(bits) => seq![NEW_FLOAT_EXT] + be64(bits),
        TermView::Atom(a) => enc_atom(a),
        TermView::Tuple(items) => if items.len() <= 255 {
            seq![SMALL_TUPLE_EXT, items.len() as u8] + enc_seq(items)
        } else {
            seq![LARGE_TUPLE_EXT] + len32(items.len()) + enc_seq(items)
        },
        TermView::Nil => seq![NIL_EXT],
        TermView::List(items, tail) => seq![LIST_EXT] + len32(items.len()) + enc_seq(items) + enc(
            *tail,
        ),
        TermView::Mapping(pairs) => seq![MAP_EXT] + len32(pairs.len()) + enc_pairs(pairs),
        TermView::Binary(bytes) => seq![BINARY_EXT] + len32(bytes.len()) + bytes,
        TermView::Pid(p) => seq![NEW_PID_EXT] + enc_atom(p.node) + be32(p.num) + be32(p.serial)
            + be32(p.creation),
        TermView::Port(p) => seq![NEW_PORT_EXT] + enc_atom(p.node) + be32(p.id) + be32(p.creation),
        TermView::Reference(r) => seq![NEWER_REFERENCE_EXT] + be16(r.n.len() as u16) + enc_atom(
            r.node,
        ) + be32(r.creation) + enc_words(r.n),
        TermView::Fun(f) => seq![EXPORT_EXT] + enc_atom(f.module) + enc_atom(f.function) + seq![
            SMALL_INTEGER_EXT,
            f.arity,
        ],
    }
}

/// The wire forms of the terms of a sequence, one after the other.
pub open spec fn enc_seq(items: Seq<TermView>) -> Seq<u8>
    decreases items,
{
    if items.len() == 0 {
        Seq::empty()
    } else {
        enc(items[0]) + enc_seq(items.subrange(1, items.len() as int))
    }
}

/// The wire forms of key and value of each pair, one after the other.
pub open spec fn enc_pairs(pairs: Seq<(TermView, TermView)>) -> Seq<u8>
    decreases pairs,
{
    if pairs.len() == 0 {
        Seq::empty()
    } else {
        enc(pairs[0].0) + enc(pairs[0].1) + enc_pairs(pairs.subrange(1, pairs.len() as int))
    }
}

/// The wire form of a complete term: the version byte, then the term.
pub open spec fn enc_versioned(t: TermView) -> Seq<u8> {
    seq![VERSION_MAGIC] + enc(t)
}

/// Why an atom cannot be encoded, if it cannot.
pub open spec fn atom_error(a: AtomView) -> Option<EncodingError> {
    if atom_fits(a) {
        None
    } else {
        Some(EncodingError::NameTooLong)
    }
}

/// Why a term cannot be encoded, if it cannot: the first obstacle met when
/// the term is walked in the order in which it is written.
pub open spec fn encoding_error(t: TermView) -> Option<EncodingError>
    decreases t,
{
    match t {
        TermView::Integer(_) => None,
        TermView::BigInteger { negative, digits } => if digits.len() > u32::MAX || fits_word(
            negative,
            digits,
        ) {
            Some(EncodingError::Unrepresentable)
        } else {
            None
        },
        TermView::Float(_) => None,
        TermView::Atom(a) => atom_error(a),
        TermView::Tuple(items) => if items.len() > u32::MAX {
            Some(EncodingError::Unrepresentable)
        } else {
            first_error(items)
        },
        TermView::Nil => None,
        TermView::List(items, tail) => if items.len() > u32::MAX {
            Some(EncodingError::Unrepresentable)
        } else if first_error(items) is Some {
            first_error(items)
        } else {
            encoding_error(*tail)
        },
        TermView::Mapping(pairs) => if pairs.len() > u32::MAX {
            Some(EncodingError::Unrepresentable)
        } else {
            first_pair_error(pairs)
        },
        TermView::Binary(bytes) => if bytes.len() > u32::MAX {
            Some(EncodingError::Unrepresentable)
        } else {
            None
        },
        TermView::Pid(p) => atom_error(p.node),
        TermView::Port(p) => atom_error(p.node),
        TermView::Reference(r) => if atom_error(r.node) is Some {
            atom_error(r.node)
        } else if 1 <= r.n.len() <= 3 {
            None
        } else {
            Some(EncodingError::Unrepresentable)
        },
        TermView::Fun(f) => if atom_error(f.module) is Some {
            atom_error(f.module)
        } else {
            atom_error(f.function)
        },
    }
}

/// The first obstacle among the terms of a sequence.
pub open spec fn first_error(items: Seq<TermView>) -> Option<EncodingError>
    decreases items,
{
    if items.len() == 0 {
        None
    } else if encoding_error(items[0]) is Some {
        encoding_error(items[0])
    } else {
        first_error(items.subrange(1, items.len() as int))
    }
}

/// The first obstacle among the keys and values of a sequence of pairs.
pub open spec fn first_pair_error(pairs: Seq<(TermView, TermView)>) -> Option<EncodingError>
    decreases pairs,
{
    if pairs.len() == 0 {
        None
    } else if encoding_error(pairs[0].0) is Some {
        encoding_error(pairs[0].0)
    } else if encoding_error(pairs[0].1) is Some {
        encoding_error(pairs[0].1)
    } else {
        first_pair_error(pairs.subrange(1, pairs.len() as int))
    }
}

/// Whether a term can be encoded.
pub open spec fn encodable(t: TermView) -> bool {
    encoding_error(t) is None
}

fn check_atom(a: &Atom) -> (r: Result<(), EncodingError>)
    ensures
        r.is_ok() == (atom_error(a@) is None),
        r.is_err() ==> atom_error(a@) == Some(r.unwrap_err()),
{
    let limit: usize = if a.utf8 {
        1020
    } else {
        255
    };
    if a.name.len() <= limit {
        Ok(())
    } else {
        Err(EncodingError::NameTooLong)
    }
}

fn check_items(items: &Vec<Term>) -> (r: Result<(), EncodingError>)
    ensures
        r.is_ok() == (first_error(views(items@)) is None),
        r.is_err() ==> first_error(views(items@)) == Some(r.unwrap_err()),
    decreases items,
{
    let ghost all = views(items@);
    proof {
        lemma_views(items@);
        assert(all.subrange(0, all.len() as int) =~= all);
    }
    let mut i: usize = 0;
    while i < items.len()
        invariant
            i <= items.len(),
            all == views(items@),
            all.len() == items.len(),
            forall|j: int| 0 <= j < items.len() ==> (#[trigger] all[j]) == items@[j].view(),
            first_error(all) == first_error(all.subrange(i as int, all.len() as int)),
        decreases items.len() - i,
    {
        let ghost rest = all.subrange(i as int, all.len() as int);
        assert(rest[0] == all[i as int]);
        assert(rest.subrange(1, rest.len() as int) =~= all.subrange(i + 1, all.len() as int));
        match check(&items[i]) {
            Ok(()) => {},
            Err(e) => {
                return Err(e);
            },
        }
        i += 1;
    }
    Ok(())
}

fn check_pairs(pairs: &Vec<(Term, Term)>) -> (r: Result<(), EncodingError>)
    ensures
        r.is_ok() == (first_pair_error(pair_views(pairs@)) is None),
        r.is_err() ==> first_pair_error(pair_views(pairs@)) == Some(r.unwrap_err()),
    decreases pairs,
{
    let ghost all = pair_views(pairs@);
    proof {
        lemma_pair_views(pairs@);
        assert(all.subrange(0, all.len() as int) =~= all);
    }
    let mut i: usize = 0;
    while i < pairs.len()
        invariant
            i <= pairs.len(),
            all == pair_views(pairs@),
            all.len() == pairs.len(),
            forall|j: int|
                0 <= j < pairs.len() ==> (#[trigger] all[j]) == (
                    pairs@[j].0.view(),
                    pairs@[j].1.view(),
                ),
            first_pair_error(all) == first_pair_error(all.subrange(i as int, all.len() as int)),
        decreases pairs.len() - i,
    {
        let ghost rest = all.subrange(i as int, all.len() as int);
        assert(rest[0] == all[i as int]);
        assert(rest.subrange(1, rest.len() as int) =~= all.subrange(i + 1, all.len() as int));
        match check(&pairs[i].0) {
            Ok(()) => {},
            Err(e) => {
                return Err(e);
            },
        }
        match check(&pairs[i].1) {
            Ok(()) => {},
            Err(e) => {
                return Err(e);
            },
        }
        i += 1;
    }
    Ok(())
}

/// Tells whether a term can be encoded, and if not, why not.
pub fn check(t: &Term) -> (r: Result<(), EncodingError>)
    ensures
        r.is_ok() == encodable(t@),
        r.is_err() ==> encoding_error(t@) == Some(r.unwrap_err()),
    decreases t,
{
    match t {
        Term::Integer(_) => Ok(()),
        Term::BigInteger { negative, digits } => {
            if digits.len() > 0xffff_ffff {
                return Err(EncodingError::Unrepresentable);
            }
            match crate::number::to_word(*negative, digits) {
                Some(_) => Err(EncodingError::Unrepresentable),
                None => Ok(()),
            }
        },
        Term::Float(_) => Ok(()),
        Term::Atom(a) => check_atom(a),
        Term::Tuple(items) => {
            proof {
                lemma_views(items@);
            }
            if items.len() > 0xffff_ffff {
                return Err(EncodingError::Unrepresentable);
            }
            check_items(items)
        },
        Term::Nil => Ok(()),
        Term::List(items, tail) => {
            proof {
                lemma_views(items@);
            }
            if items.len() > 0xffff_ffff {
                return Err(EncodingError::Unrepresentable);
            }
            match check_items(items) {
                Ok(()) => check(&**tail),
                Err(e) => Err(e),
            }
        },
        Term::Mapping(pairs) => {
            proof {
                lemma_pair_views(pairs@);
            }
            if pairs.len() > 0xffff_ffff {
                return Err(EncodingError::Unrepresentable);
            }
            check_pairs(pairs)
        },
        Term::Binary(bytes) => {
            if bytes.len() > 0xffff_ffff {
                Err(EncodingError::Unrepresentable)
            } else {
                Ok(())
            }
        },
        Term::Pid(p) => check_atom(&p.node),
        Term::Port(p) => check_atom(&p.node),
        Term::Reference(r) => {
            match check_atom(&r.node) {
                Ok(()) => {
                    if 1 <= r.n.len() && r.n.len() <= 3 {
                        Ok(())
                    } else {
                        Err(EncodingError::Unrepresentable)
                    }
                },
                Err(e) => Err(e),
            }
        },
        Term::Fun(f) => {
            match check_atom(&f.module) {
                Ok(()) => check_atom(&f.function),
                Err(e) => Err(e),
            }
        },
    }
}

fn write_atom(a: &Atom, buf: &mut Vec<u8>)
    requires
        atom_fits(a@),
    ensures
        final(buf)@ == old(buf)@ + enc_atom(a@),
{
    let ghost before = buf@;
    if !a.utf8 {
        buf.push(SMALL_ATOM_EXT);
        buf.push(a.name.len() as u8);
    } else if a.name.len() <= 255 {
        buf.push(SMALL_ATOM_UTF8_EXT);
        buf.push(a.name.len() as u8);
    } else {
        buf.push(ATOM_UTF8_EXT);
        push_be16(buf, a.name.len() as u16);
    }
    push_all(buf, &a.name);
    assert(buf@ =~= before + enc_atom(a@));
}

fn write_int(v: i64, buf: &mut Vec<u8>)
    ensures
        final(buf)@ == old(buf)@ + enc_int(v),
{
    let ghost before = buf@;
    if 0 <= v && v <= 255 {
        buf.push(SMALL_INTEGER_EXT);
        buf.push(v as u8);
    } else if -2147483648 <= v && v <= 2147483647 {
        buf.push(INTEGER_EXT);
        push_be32(buf, bits_of_i32(v as i32));
    } else {
        buf.push(SMALL_BIG_EXT);
        buf.push(8u8);
        buf.push(if v < 0 { 1u8 } else { 0u8 });
        let digits = u64_to_le_bytes(magnitude(v));
        push_all(buf, &digits);
    }
    assert(buf@ =~= before + enc_int(v));
}

fn write_words(n: &Vec<u32>, buf: &mut Vec<u8>)
    ensures
        final(buf)@ == old(buf)@ + enc_words(n@),
{
    let ghost before = buf@;
    let mut i: usize = 0;
    assert(n@.subrange(0, n@.len() as int) =~= n@);
    while i < n.len()
        invariant
            i <= n.len(),
            before + enc_words(n@) == buf@ + enc_words(n@.subrange(i as int, n@.len() as int)),
        decreases n.len() - i,
    {
        let ghost rest = n@.subrange(i as int, n@.len() as int);
        let ghost sofar = buf@;
        assert(rest[0] == n@[i as int]);
        assert(rest.subrange(1, rest.len() as int) =~= n@.subrange(i + 1, n@.len() as int));
        push_be32(buf, n[i]);
        i += 1;
        assert(sofar + (be32(rest[0]) + enc_words(rest.subrange(1, rest.len() as int))) =~= (sofar
            + be32(rest[0])) + enc_words(rest.subrange(1, rest.len() as int)));
    }
    assert(buf@ + Seq::<u8>::empty() =~= buf@);
}

fn write_items(items: &Vec<Term>, buf: &mut Vec<u8>)
    requires
        first_error(views(items@)) is None,
    ensures
        final(buf)@ == old(buf)@ + enc_seq(views(items@)),
    decreases items,
{
    let ghost before = buf@;
    let ghost all = views(items@);
    proof {
        lemma_views(items@);
        assert(all.subrange(0, all.len() as int) =~= all);
    }
    let mut i: usize = 0;
    while i < items.len()
        invariant
            i <= items.len(),
            all == views(items@),
            all.len() == items.len(),
            forall|j: int| 0 <= j < items.len() ==> (#[trigger] all[j]) == items@[j].view(),
            first_error(all.subrange(i as int, all.len() as int)) is None,
            before + enc_seq(all) == buf@ + enc_seq(all.subrange(i as int, all.len() as int)),
        decreases items.len() - i,
    {
        let ghost rest = all.subrange(i as int, all.len() as int);
        let ghost sofar = buf@;
        assert(rest[0] == all[i as int]);
        assert(rest.subrange(1, rest.len() as int) =~= all.subrange(i + 1, all.len() as int));
        write_term(&items[i], buf);
        i += 1;
        assert(sofar + (enc(rest[0]) + enc_seq(rest.subrange(1, rest.len() as int))) =~= (sofar
            + enc(rest[0])) + enc_seq(rest.subrange(1, rest.len() as int)));
    }
    assert(buf@ + Seq::<u8>::empty() =~= buf@);
}

fn write_pairs(pairs: &Vec<(Term, Term)>, buf: &mut Vec<u8>)
    requires
        first_pair_error(pair_views(pairs@)) is None,
    ensures
        final(buf)@ == old(buf)@ + enc_pairs(pair_views(pairs@)),
    decreases pairs,
{
    let ghost before = buf@;
    let ghost all = pair_views(pairs@);
    proof {
        lemma_pair_views(pairs@);
        assert(all.subrange(0, all.len() as int) =~= all);
    }
    let mut i: usize = 0;
    while i < pairs.len()
        invariant
            i <= pairs.len(),
            all == pair_views(pairs@),
            all.len() == pairs.len(),
            forall|j: int|
                0 <= j < pairs.len() ==> (#[trigger] all[j]) == (
                    pairs@[j].0.view(),
                    pairs@[j].1.view(),
                ),
            first_pair_error(all.subrange(i as int, all.len() as int)) is None,
            before + enc_pairs(all) == buf@ + enc_pairs(all.subrange(i as int, all.len() as int)),
        decreases pairs.len() - i,
    {
        let ghost rest = all.subrange(i as int, all.len() as int);
        let ghost sofar = buf@;
        assert(rest[0] == all[i as int]);
        assert(rest.subrange(1, rest.len() as int) =~= all.subrange(i + 1, all.len() as int));
        write_term(&pairs[i].0, buf);
        write_term(&pairs[i].1, buf);
        i += 1;
        assert(sofar + (enc(rest[0].0) + enc(rest[0].1) + enc_pairs(
            rest.subrange(1, rest.len() as int),
        )) =~= ((sofar + enc(rest[0].0)) + enc(rest[0].1)) + enc_pairs(
            rest.subrange(1, rest.len() as int),
        ));
    }
    assert(buf@ + Seq::<u8>::empty() =~= buf@);
}

/// Appends the wire form of a term that can be encoded.
pub fn write_term(t: &Term, buf: &mut Vec<u8>)
    requires
        encodable(t@),
    ensures
        final(buf)@ == old(buf)@ + enc(t@),
    decreases t,
{
    let ghost before = buf@;
    match t {
        Term::Integer(v) => {
            write_int(*v, buf);
        },
        Term::BigInteger { negative, digits } => {
            if digits.len() <= 255 {
                buf.push(SMALL_BIG_EXT);
                buf.push(digits.len() as u8);
            } else {
                buf.push(LARGE_BIG_EXT);
                push_be32(buf, digits.len() as u32);
            }
            buf.push(if *negative { 1u8 } else { 0u8 });
            push_all(buf, digits);
        },
        Term::Float(bits) => {
            buf.push(NEW_FLOAT_EXT);
            push_be64(buf, *bits);
        },
        Term::Atom(a) => {
            write_atom(a, buf);
        },
        Term::Tuple(items) => {
            proof {
                lemma_views(items@);
            }
            if items.len() <= 255 {
                buf.push(SMALL_TUPLE_EXT);
                buf.push(items.len() as u8);
            } else {
                buf.push(LARGE_TUPLE_EXT);
                push_be32(buf, items.len() as u32);
            }
            write_items(items, buf);
        },
        Term::Nil => {
            buf.push(NIL_EXT);
        },
        Term::List(items, tail) => {
            proof {
                lemma_views(items@);
            }
            buf.push(LIST_EXT);
            push_be32(buf, items.len() as u32);
            write_items(items, buf);
            write_term(&**tail, buf);
        },
        Term::Mapping(pairs) => {
            proof {
                lemma_pair_views(pairs@);
            }
            buf.push(MAP_EXT);
            push_be32(buf, pairs.len() as u32);
            write_pairs(pairs, buf);
        },
        Term::Binary(bytes) => {
            buf.push(BINARY_EXT);
            push_be32(buf, bytes.len() as u32);
            push_all(buf, bytes);
        },
        Term::Pid(p) => {
            buf.push(NEW_PID_EXT);
            write_atom(&p.node, buf);
            push_be32(buf, p.num);
            push_be32(buf, p.serial);
            push_be32(buf, p.creation);
        },
        Term::Port(p) => {
            buf.push(NEW_PORT_EXT);
            write_atom(&p.node, buf);
            push_be32(buf, p.id);
            push_be32(buf, p.creation);
        },
        Term::Reference(r) => {
            buf.push(NEWER_REFERENCE_EXT);
            push_be16(buf, r.n.len() as u16);
            write_atom(&r.node, buf);
            push_be32(buf, r.creation);
            write_words(&r.n, buf);
        },
        Term::Fun(f) => {
            buf.push(EXPORT_EXT);
            write_atom(&f.module, buf);
            write_atom(&f.function, buf);
            buf.push(SMALL_INTEGER_EXT);
            buf.push(f.arity);
        },
    }
    assert(buf@ =~= before + enc(t@));
}

/// Appends the wire form of `term` to `buf`, or leaves `buf` as it is and
/// says why the term cannot be encoded.
pub fn encode(term: &Term, buf: &mut Vec<u8>) -> (r: Result<(), EncodingError>)
    ensures
        r.is_ok() == encodable(term@),
        r.is_ok() ==> final(buf)@ == old(buf)@ + enc(term@),
        r.is_err() ==> final(buf)@ == old(buf)@ && encoding_error(term@) == Some(r.unwrap_err()),
{
    match check(term) {
        Ok(()) => {
            write_term(term, buf);
            Ok(())
        },
        Err(e) => Err(e),
    }
}

/// Appends the version byte and the wire form of `term` to `buf`, or leaves
/// `buf` as it is and says why the term cannot be encoded.
pub fn encode_versioned(term: &Term, buf: &mut Vec<u8>) -> (r: Result<(), EncodingError>)
    ensures
        r.is_ok() == encodable(term@),
        r.is_ok() ==> final(buf)@ == old(buf)@ + enc_versioned(term@),
        r.is_err() ==> final(buf)@ == old(buf)@ && encoding_error(term@) == Some(r.unwrap_err()),
{
    match check(term) {
        Ok(()) => {
            let ghost before = buf@;
            buf.push(VERSION_MAGIC);
            write_term(term, buf);
            assert(buf@ =~= before + enc_versioned(term@));
            Ok(())
        },
        Err(e) => Err(e),
    }
}

} // verus!
