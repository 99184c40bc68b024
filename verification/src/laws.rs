//! What holds between the encoder and the decoder.

use crate::decode::{dec, dec_atom, dec_big, dec_pairs, dec_seq, dec_versioned, dec_words, DecodingError};
use crate::encode::{
    atom_error, enc, enc_atom, enc_int, enc_pairs, enc_seq, enc_versioned, enc_words, encodable,
    encoding_error, first_error, first_pair_error, len32, sign_byte, ATOM_UTF8_EXT, BINARY_EXT,
    EXPORT_EXT,
    INTEGER_EXT, LARGE_BIG_EXT, LARGE_TUPLE_EXT, LIST_EXT, MAP_EXT, NEWER_REFERENCE_EXT,
    NEW_FLOAT_EXT, NEW_PID_EXT, NEW_PORT_EXT, NIL_EXT, SMALL_ATOM_EXT, SMALL_ATOM_UTF8_EXT,
    SMALL_BIG_EXT, SMALL_INTEGER_EXT, SMALL_TUPLE_EXT, VERSION_MAGIC,
};
use crate::number::{fits_word, lemma_word_of_magnitude, magnitude_of};
use crate::term::{atom_fits, AtomView, TermView};
use crate::wire::{
    be16, be32, be64, i32_bits, lemma_be16_read, lemma_be32_read, lemma_be64_read, lemma_i32_bits,
};
use vstd::bytes::spec_u64_to_le_bytes;
use vstd::prelude::*;

verus! {

/// Whether the bytes `x` stand in `b` from `pos` on.
pub open spec fn stands_at(b: Seq<u8>, pos: int, x: Seq<u8>) -> bool {
    0 <= pos && pos + x.len() <= b.len() && b.subrange(pos, pos + x.len()) == x
}

/// Where `x + y` stands, `x` stands, and `y` stands behind it.
pub proof fn lemma_split(b: Seq<u8>, pos: int, x: Seq<u8>, y: Seq<u8>)
    requires
        stands_at(b, pos, x + y),
    ensures
        stands_at(b, pos, x),
        stands_at(b, pos + x.len(), y),
{
    let w = b.subrange(pos, pos + (x + y).len());
    assert(b.subrange(pos, pos + x.len()) =~= x) by {
        assert forall|i: int| 0 <= i < x.len() implies b.subrange(pos, pos + x.len())[i]
            == x[i] by {
            assert(w[i] == (x + y)[i]);
        }
    }
    assert(b.subrange(pos + x.len(), pos + x.len() + y.len()) =~= y) by {
        assert forall|i: int| 0 <= i < y.len() implies b.subrange(
            pos + x.len(),
            pos + x.len() + y.len(),
        )[i] == y[i] by {
            assert(w[x.len() + i] == (x + y)[x.len() + i]);
        }
    }
}

/// Where `x` stands, each of its bytes is found.
pub proof fn lemma_byte(b: Seq<u8>, pos: int, x: Seq<u8>, i: int)
    requires
        stands_at(b, pos, x),
        0 <= i < x.len(),
    ensures
        b[pos + i] == x[i],
{
    assert(b.subrange(pos, pos + x.len())[i] == x[i]);
}

/// Every term's wire form begins with a tag byte.
pub proof fn lemma_enc_nonempty(t: TermView)
    ensures
        enc(t).len() >= 1,
{
}

/// An atom of allowed length is read back from where its wire form stands.
pub proof fn lemma_atom_roundtrip(a: AtomView, b: Seq<u8>, pos: int)
    requires
        atom_fits(a),
        stands_at(b, pos, enc_atom(a)),
    ensures
        dec_atom(b, pos) == Ok::<(AtomView, int), (DecodingError, int)>(
            (a, pos + enc_atom(a).len()),
        ),
        enc_atom(a).len() >= 2,
{
    let n = a.name.len();
    if !a.utf8 || n <= 255 {
        let hdr = seq![
            if a.utf8 {
                SMALL_ATOM_UTF8_EXT
            } else {
                SMALL_ATOM_EXT
            },
            n as u8,
        ];
        assert(enc_atom(a) == hdr + a.name);
        lemma_split(b, pos, hdr, a.name);
        lemma_byte(b, pos, hdr, 0);
        lemma_byte(b, pos, hdr, 1);
    } else {
        let hdr = seq![ATOM_UTF8_EXT] + be16(n as u16);
        lemma_split(b, pos, hdr, a.name);
        lemma_split(b, pos, seq![ATOM_UTF8_EXT], be16(n as u16));
        lemma_byte(b, pos, seq![ATOM_UTF8_EXT], 0);
        lemma_be16_read(b, pos + 1, n as u16);
    }
}

/// A machine-word integer is read back from where its wire form stands.
pub proof fn lemma_int_roundtrip(v: i64, b: Seq<u8>, pos: int)
    requires
        stands_at(b, pos, enc_int(v)),
    ensures
        dec(b, pos) == Ok::<(TermView, int), (DecodingError, int)>(
            (TermView::Integer(v), pos + enc_int(v).len()),
        ),
{
    if 0 <= v <= 255 {
        let x = seq![SMALL_INTEGER_EXT, v as u8];
        lemma_byte(b, pos, x, 0);
        lemma_byte(b, pos, x, 1);
    } else if -2147483648 <= v <= 2147483647 {
        let bits = i32_bits(v as i32);
        lemma_split(b, pos, seq![INTEGER_EXT], be32(bits));
        lemma_byte(b, pos, seq![INTEGER_EXT], 0);
        lemma_be32_read(b, pos + 1, bits);
        lemma_i32_bits(v as i32);
    } else {
        let hdr = seq![SMALL_BIG_EXT, 8u8, sign_byte(v < 0)];
        let digits = spec_u64_to_le_bytes(magnitude_of(v));
        lemma_word_of_magnitude(v);
        lemma_split(b, pos, hdr, digits);
        lemma_byte(b, pos, hdr, 0);
        lemma_byte(b, pos, hdr, 1);
        lemma_byte(b, pos, hdr, 2);
        assert(b.subrange(pos + 3, pos + 3 + 8) == digits);
        assert(dec_big(b, pos, pos + 3, 8, sign_byte(v < 0)) == Ok::<
            (TermView, int),
            (DecodingError, int),
        >((TermView::Integer(v), pos + 11)));
    }
}

/// The words of a reference are read back from where they stand.
pub proof fn lemma_words_roundtrip(n: Seq<u32>, b: Seq<u8>, pos: int)
    requires
        stands_at(b, pos, enc_words(n)),
    ensures
        enc_words(n).len() == 4 * n.len(),
        dec_words(b, pos, n.len() as int) == n,
    decreases n.len(),
{
    if n.len() == 0 {
        assert(dec_words(b, pos, 0) =~= n);
    } else {
        let rest = n.subrange(1, n.len() as int);
        lemma_split(b, pos, be32(n[0]), enc_words(rest));
        lemma_words_roundtrip(rest, b, pos + 4);
        lemma_be32_read(b, pos, n[0]);
        assert forall|i: int| 0 <= i < n.len() implies dec_words(b, pos, n.len() as int)[i]
            == n[i] by {
            if i > 0 {
                assert(dec_words(b, pos + 4, rest.len() as int)[i - 1] == rest[i - 1]);
            }
        }
        assert(dec_words(b, pos, n.len() as int) =~= n);
    }
}

/// Round trip of a machine-word integer.
proof fn lemma_integer_case(t: TermView, b: Seq<u8>, pos: int)
    requires
        t is Integer,
        encodable(t),
        stands_at(b, pos, enc(t)),
    ensures
        dec(b, pos) == Ok::<(TermView, int), (DecodingError, int)>((t, pos + enc(t).len())),
{
    match t {
        TermView::Integer(v) => {
            lemma_int_roundtrip(v, b, pos);
        },
        _ => {},
    }
}

/// Round trip of a big integer.
proof fn lemma_big_case(t: TermView, b: Seq<u8>, pos: int)
    requires
        t is BigInteger,
        encodable(t),
        stands_at(b, pos, enc(t)),
    ensures
        dec(b, pos) == Ok::<(TermView, int), (DecodingError, int)>((t, pos + enc(t).len())),
{
    match t {
        TermView::BigInteger { negative, digits } => {
            let n = digits.len();
            if n <= 255 {
                let hdr = seq![SMALL_BIG_EXT, n as u8, sign_byte(negative)];
                lemma_split(b, pos, hdr, digits);
                lemma_byte(b, pos, hdr, 0);
                lemma_byte(b, pos, hdr, 1);
                lemma_byte(b, pos, hdr, 2);
            } else {
                let a = seq![LARGE_BIG_EXT];
                let l = len32(n);
                let s = seq![sign_byte(negative)];
                lemma_split(b, pos, a + l + s, digits);
                lemma_split(b, pos, a + l, s);
                lemma_split(b, pos, a, l);
                lemma_byte(b, pos, a, 0);
                lemma_byte(b, pos + 5, s, 0);
                lemma_be32_read(b, pos + 1, n as u32);
            }
        },
        _ => {},
    }
}

/// Round trip of a float.
proof fn lemma_float_case(t: TermView, b: Seq<u8>, pos: int)
    requires
        t is Float,
        encodable(t),
        stands_at(b, pos, enc(t)),
    ensures
        dec(b, pos) == Ok::<(TermView, int), (DecodingError, int)>((t, pos + enc(t).len())),
{
    match t {
        TermView::Float(bits) => {
            lemma_split(b, pos, seq![NEW_FLOAT_EXT], be64(bits));
            lemma_byte(b, pos, seq![NEW_FLOAT_EXT], 0);
            lemma_be64_read(b, pos + 1, bits);
        },
        _ => {},
    }
}

/// Round trip of an atom.
proof fn lemma_atom_term_case(t: TermView, b: Seq<u8>, pos: int)
    requires
        t is Atom,
        encodable(t),
        stands_at(b, pos, enc(t)),
    ensures
        dec(b, pos) == Ok::<(TermView, int), (DecodingError, int)>((t, pos + enc(t).len())),
{
    match t {
        TermView::Atom(a) => {
            lemma_atom_roundtrip(a, b, pos);
            lemma_byte(b, pos, enc_atom(a), 0);
        },
        _ => {},
    }
}

/// Round trip of a tuple.
proof fn lemma_tuple_case(t: TermView, b: Seq<u8>, pos: int)
    requires
        t is Tuple,
        encodable(t),
        stands_at(b, pos, enc(t)),
    ensures
        dec(b, pos) == Ok::<(TermView, int), (DecodingError, int)>((t, pos + enc(t).len())),
    decreases t, 0int,
{
    match t {
        TermView::Tuple(items) => {
            let n = items.len();
            if n <= 255 {
                let hdr = seq![SMALL_TUPLE_EXT, n as u8];
                lemma_split(b, pos, hdr, enc_seq(items));
                lemma_byte(b, pos, hdr, 0);
                lemma_byte(b, pos, hdr, 1);
                lemma_seq_roundtrip(items, b, pos + 2);
            } else {
                let a = seq![LARGE_TUPLE_EXT];
                lemma_split(b, pos, a + len32(n), enc_seq(items));
                lemma_split(b, pos, a, len32(n));
                lemma_byte(b, pos, a, 0);
                lemma_be32_read(b, pos + 1, n as u32);
                lemma_seq_roundtrip(items, b, pos + 5);
            }
        },
        _ => {},
    }
}

/// Round trip of the empty list.
proof fn lemma_nil_case(t: TermView, b: Seq<u8>, pos: int)
    requires
        t is Nil,
        encodable(t),
        stands_at(b, pos, enc(t)),
    ensures
        dec(b, pos) == Ok::<(TermView, int), (DecodingError, int)>((t, pos + enc(t).len())),
{
    match t {
        TermView::Nil => {
            lemma_byte(b, pos, seq![NIL_EXT], 0);
        },
        _ => {},
    }
}

/// Round trip of a list.
proof fn lemma_list_case(t: TermView, b: Seq<u8>, pos: int)
    requires
        t is List,
        encodable(t),
        stands_at(b, pos, enc(t)),
    ensures
        dec(b, pos) == Ok::<(TermView, int), (DecodingError, int)>((t, pos + enc(t).len())),
    decreases t, 0int,
{
    match t {
        TermView::List(items, tail) => {
            let a = seq![LIST_EXT];
            let n = items.len();
            lemma_split(b, pos, a + len32(n) + enc_seq(items), enc(*tail));
            lemma_split(b, pos, a + len32(n), enc_seq(items));
            lemma_split(b, pos, a, len32(n));
            lemma_byte(b, pos, a, 0);
            lemma_be32_read(b, pos + 1, n as u32);
            lemma_seq_roundtrip(items, b, pos + 5);
            lemma_roundtrip_at(*tail, b, pos + 5 + enc_seq(items).len());
        },
        _ => {},
    }
}

/// Round trip of a map.
proof fn lemma_map_case(t: TermView, b: Seq<u8>, pos: int)
    requires
        t is Mapping,
        encodable(t),
        stands_at(b, pos, enc(t)),
    ensures
        dec(b, pos) == Ok::<(TermView, int), (DecodingError, int)>((t, pos + enc(t).len())),
    decreases t, 0int,
{
    match t {
        TermView::Mapping(pairs) => {
            let a = seq![MAP_EXT];
            let n = pairs.len();
            lemma_split(b, pos, a + len32(n), enc_pairs(pairs));
            lemma_split(b, pos, a, len32(n));
            lemma_byte(b, pos, a, 0);
            lemma_be32_read(b, pos + 1, n as u32);
            lemma_pairs_roundtrip(pairs, b, pos + 5);
        },
        _ => {},
    }
}

/// Round trip of a binary.
proof fn lemma_binary_case(t: TermView, b: Seq<u8>, pos: int)
    requires
        t is Binary,
        encodable(t),
        stands_at(b, pos, enc(t)),
    ensures
        dec(b, pos) == Ok::<(TermView, int), (DecodingError, int)>((t, pos + enc(t).len())),
{
    match t {
        TermView::Binary(bytes) => {
            let a = seq![BINARY_EXT];
            let n = bytes.len();
            lemma_split(b, pos, a + len32(n), bytes);
            lemma_split(b, pos, a, len32(n));
            lemma_byte(b, pos, a, 0);
            lemma_be32_read(b, pos + 1, n as u32);
        },
        _ => {},
    }
}

/// Round trip of a process identifier.
proof fn lemma_pid_case(t: TermView, b: Seq<u8>, pos: int)
    requires
        t is Pid,
        encodable(t),
        stands_at(b, pos, enc(t)),
    ensures
        dec(b, pos) == Ok::<(TermView, int), (DecodingError, int)>((t, pos + enc(t).len())),
{
    match t {
        TermView::Pid(p) => {
            let a = seq![NEW_PID_EXT];
            let node = enc_atom(p.node);
            lemma_split(b, pos, a + node + be32(p.num) + be32(p.serial), be32(p.creation));
            lemma_split(b, pos, a + node + be32(p.num), be32(p.serial));
            lemma_split(b, pos, a + node, be32(p.num));
            lemma_split(b, pos, a, node);
            lemma_byte(b, pos, a, 0);
            lemma_atom_roundtrip(p.node, b, pos + 1);
            let at = pos + 1 + node.len();
            lemma_be32_read(b, at, p.num);
            lemma_be32_read(b, at + 4, p.serial);
            lemma_be32_read(b, at + 8, p.creation);
        },
        _ => {},
    }
}

/// Round trip of a port identifier.
proof fn lemma_port_case(t: TermView, b: Seq<u8>, pos: int)
    requires
        t is Port,
        encodable(t),
        stands_at(b, pos, enc(t)),
    ensures
        dec(b, pos) == Ok::<(TermView, int), (DecodingError, int)>((t, pos + enc(t).len())),
{
    match t {
        TermView::Port(p) => {
            let a = seq![NEW_PORT_EXT];
            let node = enc_atom(p.node);
            lemma_split(b, pos, a + node + be32(p.id), be32(p.creation));
            lemma_split(b, pos, a + node, be32(p.id));
            lemma_split(b, pos, a, node);
            lemma_byte(b, pos, a, 0);
            lemma_atom_roundtrip(p.node, b, pos + 1);
            let at = pos + 1 + node.len();
            lemma_be32_read(b, at, p.id);
            lemma_be32_read(b, at + 4, p.creation);
        },
        _ => {},
    }
}

/// Round trip of a reference.
proof fn lemma_reference_case(t: TermView, b: Seq<u8>, pos: int)
    requires
        t is Reference,
        encodable(t),
        stands_at(b, pos, enc(t)),
    ensures
        dec(b, pos) == Ok::<(TermView, int), (DecodingError, int)>((t, pos + enc(t).len())),
{
    match t {
        TermView::Reference(r) => {
            let a = seq![NEWER_REFERENCE_EXT];
            let l = be16(r.n.len() as u16);
            let node = enc_atom(r.node);
            lemma_split(b, pos, a + l + node + be32(r.creation), enc_words(r.n));
            lemma_split(b, pos, a + l + node, be32(r.creation));
            lemma_split(b, pos, a + l, node);
            lemma_split(b, pos, a, l);
            lemma_byte(b, pos, a, 0);
            lemma_be16_read(b, pos + 1, r.n.len() as u16);
            lemma_atom_roundtrip(r.node, b, pos + 3);
            let at = pos + 3 + node.len();
            lemma_be32_read(b, at, r.creation);
            lemma_words_roundtrip(r.n, b, at + 4);
        },
        _ => {},
    }
}

/// Round trip of an exported function.
proof fn lemma_fun_case(t: TermView, b: Seq<u8>, pos: int)
    requires
        t is Fun,
        encodable(t),
        stands_at(b, pos, enc(t)),
    ensures
        dec(b, pos) == Ok::<(TermView, int), (DecodingError, int)>((t, pos + enc(t).len())),
{
    let f = t->Fun_0;
    let a = seq![EXPORT_EXT];
    let module = enc_atom(f.module);
    let function = enc_atom(f.function);
    let arity = seq![SMALL_INTEGER_EXT, f.arity];
    lemma_split(b, pos, a + module + function, arity);
    lemma_split(b, pos, a + module, function);
    lemma_split(b, pos, a, module);
    lemma_byte(b, pos, a, 0);
    lemma_atom_roundtrip(f.module, b, pos + 1);
    lemma_atom_roundtrip(f.function, b, pos + 1 + module.len());
    let end = pos + 1 + module.len() + function.len();
    lemma_byte(b, end, arity, 0);
    lemma_byte(b, end, arity, 1);
}

/// Round trip: an encodable term is decoded again from any byte string in
/// which its wire form stands, and the decoder stops right behind it.
pub proof fn lemma_roundtrip_at(t: TermView, b: Seq<u8>, pos: int)
    requires
        encodable(t),
        stands_at(b, pos, enc(t)),
    ensures
        dec(b, pos) == Ok::<(TermView, int), (DecodingError, int)>((t, pos + enc(t).len())),
    decreases t, 1int,
{
    match t {
        TermView::Integer(..) => {
            lemma_integer_case(t, b, pos);
        },
        TermView::BigInteger { .. } => {
            lemma_big_case(t, b, pos);
        },
        TermView::Float(..) => {
            lemma_float_case(t, b, pos);
        },
        TermView::Atom(..) => {
            lemma_atom_term_case(t, b, pos);
        },
        TermView::Tuple(..) => {
            lemma_tuple_case(t, b, pos);
        },
        TermView::Nil => {
            lemma_nil_case(t, b, pos);
        },
        TermView::List(..) => {
            lemma_list_case(t, b, pos);
        },
        TermView::Mapping(..) => {
            lemma_map_case(t, b, pos);
        },
        TermView::Binary(..) => {
            lemma_binary_case(t, b, pos);
        },
        TermView::Pid(..) => {
            lemma_pid_case(t, b, pos);
        },
        TermView::Port(..) => {
            lemma_port_case(t, b, pos);
        },
        TermView::Reference(..) => {
            lemma_reference_case(t, b, pos);
        },
        TermView::Fun(..) => {
            lemma_fun_case(t, b, pos);
        },
    }
}

/// Round trip of a sequence of encodable terms.
pub proof fn lemma_seq_roundtrip(items: Seq<TermView>, b: Seq<u8>, pos: int)
    requires
        first_error(items) is None,
        stands_at(b, pos, enc_seq(items)),
    ensures
        dec_seq(b, pos, items.len() as int) == Ok::<(Seq<TermView>, int), (DecodingError, int)>(
            (items, pos + enc_seq(items).len()),
        ),
    decreases items, 0int,
{
    if items.len() == 0 {
        assert(items =~= Seq::empty());
    } else {
        let rest = items.subrange(1, items.len() as int);
        lemma_split(b, pos, enc(items[0]), enc_seq(rest));
        lemma_enc_nonempty(items[0]);
        lemma_roundtrip_at(items[0], b, pos);
        lemma_seq_roundtrip(rest, b, pos + enc(items[0]).len());
        assert(seq![items[0]] + rest =~= items);
    }
}

/// Round trip of a sequence of pairs of encodable terms: the pairs come back
/// in the order in which they were written.
pub proof fn lemma_pairs_roundtrip(pairs: Seq<(TermView, TermView)>, b: Seq<u8>, pos: int)
    requires
        first_pair_error(pairs) is None,
        stands_at(b, pos, enc_pairs(pairs)),
    ensures
        dec_pairs(b, pos, pairs.len() as int) == Ok::<
            (Seq<(TermView, TermView)>, int),
            (DecodingError, int),
        >((pairs, pos + enc_pairs(pairs).len())),
    decreases pairs, 0int,
{
    if pairs.len() == 0 {
        assert(pairs =~= Seq::empty());
    } else {
        let rest = pairs.subrange(1, pairs.len() as int);
        let k = pairs[0].0;
        let v = pairs[0].1;
        lemma_split(b, pos, enc(k) + enc(v), enc_pairs(rest));
        lemma_split(b, pos, enc(k), enc(v));
        lemma_enc_nonempty(k);
        lemma_enc_nonempty(v);
        lemma_roundtrip_at(k, b, pos);
        lemma_roundtrip_at(v, b, pos + enc(k).len());
        lemma_pairs_roundtrip(rest, b, pos + enc(k).len() + enc(v).len());
        assert(seq![(k, v)] + rest =~= pairs);
    }
}

/// Round trip: decoding the wire form of an encodable term gives the term
/// back and consumes exactly its bytes.
pub proof fn lemma_roundtrip(t: TermView)
    requires
        encodable(t),
    ensures
        dec(enc(t), 0) == Ok::<(TermView, int), (DecodingError, int)>((t, enc(t).len() as int)),
        dec_versioned(enc_versioned(t), 0) == Ok::<(TermView, int), (DecodingError, int)>(
            (t, enc_versioned(t).len() as int),
        ),
{
    assert(enc(t).subrange(0, enc(t).len() as int) =~= enc(t));
    lemma_roundtrip_at(t, enc(t), 0);
    let whole = enc_versioned(t);
    assert(whole.subrange(0, whole.len() as int) =~= whole);
    lemma_split(whole, 0, seq![VERSION_MAGIC], enc(t));
    lemma_roundtrip_at(t, whole, 1);
}

/// Terms packed back to back are decoded one after the other: behind the
/// first, the cursor stands where the second begins.
pub proof fn lemma_back_to_back(t: TermView, u: TermView)
    requires
        encodable(t),
        encodable(u),
    ensures
        dec(enc(t) + enc(u), 0) == Ok::<(TermView, int), (DecodingError, int)>(
            (t, enc(t).len() as int),
        ),
        dec(enc(t) + enc(u), enc(t).len() as int) == Ok::<(TermView, int), (DecodingError, int)>(
            (u, (enc(t) + enc(u)).len() as int),
        ),
{
    let both = enc(t) + enc(u);
    assert(both.subrange(0, both.len() as int) =~= both);
    lemma_split(both, 0, enc(t), enc(u));
    lemma_roundtrip_at(t, both, 0);
    lemma_roundtrip_at(u, both, enc(t).len() as int);
}

/// A map keeps the order of its pairs: decoding the wire form of a map gives
/// a map with the same pairs at the same places.
pub proof fn lemma_map_order(pairs: Seq<(TermView, TermView)>)
    requires
        encodable(TermView::Mapping(pairs)),
    ensures
        dec(enc(TermView::Mapping(pairs)), 0) matches Ok((TermView::Mapping(got), _))
            && got.len() == pairs.len() && forall|i: int|
            0 <= i < pairs.len() ==> got[i] == pairs[i],
{
    lemma_roundtrip(TermView::Mapping(pairs));
}

/// Whether `b` ends, from `pos` on, with a part of `x` that is not all of it.
pub open spec fn cut_at(b: Seq<u8>, pos: int, x: Seq<u8>) -> bool {
    0 <= pos <= b.len() && b.len() - pos < x.len() && b.subrange(pos, b.len() as int) == x.take(
        b.len() - pos,
    )
}

/// Whether decoding fails for want of bytes.
pub open spec fn is_truncated<T>(r: Result<(T, int), (DecodingError, int)>) -> bool {
    r matches Err((e, _)) && e == DecodingError::Truncated
}

/// Where a part of `x` stands, each byte of that part is found.
pub proof fn lemma_cut_byte(b: Seq<u8>, pos: int, x: Seq<u8>, i: int)
    requires
        cut_at(b, pos, x),
        0 <= i < b.len() - pos,
    ensures
        b[pos + i] == x[i],
{
    assert(b.subrange(pos, b.len() as int)[i] == x.take(b.len() - pos)[i]);
}

/// Where a part of `x + y` stands, either a part of `x` stands, or all of
/// `x` and behind it a part of `y`.
pub proof fn lemma_cut_split(b: Seq<u8>, pos: int, x: Seq<u8>, y: Seq<u8>)
    requires
        cut_at(b, pos, x + y),
    ensures
        b.len() - pos < x.len() ==> cut_at(b, pos, x),
        b.len() - pos >= x.len() ==> stands_at(b, pos, x) && cut_at(b, pos + x.len(), y),
{
    let k = b.len() - pos;
    let w = b.subrange(pos, b.len() as int);
    let xy = (x + y).take(k);
    if k < x.len() {
        assert(w =~= x.take(k)) by {
            assert forall|i: int| 0 <= i < k implies w[i] == x.take(k)[i] by {
                assert(w[i] == xy[i]);
            }
        }
    } else {
        assert(b.subrange(pos, pos + x.len()) =~= x) by {
            assert forall|i: int| 0 <= i < x.len() implies b.subrange(pos, pos + x.len())[i]
                == x[i] by {
                assert(w[i] == xy[i]);
            }
        }
        let tail = b.subrange(pos + x.len(), b.len() as int);
        let part = y.take(k - x.len());
        assert(tail =~= part) by {
            assert forall|i: int| 0 <= i < k - x.len() implies #[trigger] tail[i] == part[i] by {
                assert(w[x.len() + i] == xy[x.len() + i]);
            }
        }
    }
}

/// The words of a reference take four bytes each.
pub proof fn lemma_words_len(n: Seq<u32>)
    ensures
        enc_words(n).len() == 4 * n.len(),
    decreases n.len(),
{
    if n.len() > 0 {
        lemma_words_len(n.subrange(1, n.len() as int));
    }
}

/// A part of an atom's wire form does not decode: the bytes run out.
pub proof fn lemma_atom_truncated(a: AtomView, b: Seq<u8>, pos: int)
    requires
        atom_fits(a),
        cut_at(b, pos, enc_atom(a)),
    ensures
        is_truncated(dec_atom(b, pos)),
{
    let k = b.len() - pos;
    let n = a.name.len();
    if k >= 1 {
        lemma_cut_byte(b, pos, enc_atom(a), 0);
        if !a.utf8 || n <= 255 {
            let hdr = seq![
                if a.utf8 {
                    SMALL_ATOM_UTF8_EXT
                } else {
                    SMALL_ATOM_EXT
                },
                n as u8,
            ];
            assert(enc_atom(a) == hdr + a.name);
            if k >= 2 {
                lemma_cut_byte(b, pos, enc_atom(a), 1);
            }
        } else {
            let hdr = seq![ATOM_UTF8_EXT] + be16(n as u16);
            if k >= 3 {
                lemma_cut_split(b, pos, hdr, a.name);
                lemma_split(b, pos, seq![ATOM_UTF8_EXT], be16(n as u16));
                lemma_be16_read(b, pos + 1, n as u16);
            }
        }
    }
}

/// A part of the wire form of a term that is no tuple, list or map does not
/// decode: the bytes run out.
proof fn lemma_number_truncated(t: TermView, b: Seq<u8>, pos: int)
    requires
        t is Integer || t is BigInteger || t is Float,
        encodable(t),
        cut_at(b, pos, enc(t)),
    ensures
        is_truncated(dec(b, pos)),
{
    let k = b.len() - pos;
    if k >= 1 {
        lemma_cut_byte(b, pos, enc(t), 0);
        match t {
            TermView::Integer(v) => {
                if 0 <= v <= 255 {
                } else if -2147483648 <= v <= 2147483647 {
                } else {
                    let hdr = seq![SMALL_BIG_EXT, 8u8, sign_byte(v < 0)];
                    let digits = spec_u64_to_le_bytes(magnitude_of(v));
                    lemma_word_of_magnitude(v);
                    if k >= 3 {
                        lemma_cut_split(b, pos, hdr, digits);
                        lemma_byte(b, pos, hdr, 1);
                    }
                }
            },
            TermView::BigInteger { negative, digits } => {
                let n = digits.len();
                if n <= 255 {
                    let hdr = seq![SMALL_BIG_EXT, n as u8, sign_byte(negative)];
                    if k >= 3 {
                        lemma_cut_split(b, pos, hdr, digits);
                        lemma_byte(b, pos, hdr, 1);
                    }
                } else {
                    let a = seq![LARGE_BIG_EXT];
                    let l = len32(n);
                    let s = seq![sign_byte(negative)];
                    if k >= 6 {
                        lemma_cut_split(b, pos, a + l + s, digits);
                        lemma_split(b, pos, a + l, s);
                        lemma_split(b, pos, a, l);
                        lemma_be32_read(b, pos + 1, n as u32);
                    }
                }
            },
            _ => {},
        }
    }
}

/// A part of the wire form of an atom, a binary or the empty list does not
/// decode: the bytes run out.
proof fn lemma_bytes_truncated(t: TermView, b: Seq<u8>, pos: int)
    requires
        t is Atom || t is Binary || t is Nil,
        encodable(t),
        cut_at(b, pos, enc(t)),
    ensures
        is_truncated(dec(b, pos)),
{
    let k = b.len() - pos;
    if k >= 1 {
        lemma_cut_byte(b, pos, enc(t), 0);
        match t {
            TermView::Atom(a) => {
                lemma_atom_truncated(a, b, pos);
            },
            TermView::Binary(bytes) => {
                let a = seq![BINARY_EXT];
                let n = bytes.len();
                if k >= 5 {
                    lemma_cut_split(b, pos, a + len32(n), bytes);
                    lemma_split(b, pos, a, len32(n));
                    lemma_be32_read(b, pos + 1, n as u32);
                }
            },
            _ => {},
        }
    }
}

/// A part of the wire form of an identifier does not decode: the bytes run out.
proof fn lemma_id_truncated(t: TermView, b: Seq<u8>, pos: int)
    requires
        t is Pid || t is Port || t is Reference,
        encodable(t),
        cut_at(b, pos, enc(t)),
    ensures
        is_truncated(dec(b, pos)),
{
    let k = b.len() - pos;
    if k >= 1 {
        lemma_cut_byte(b, pos, enc(t), 0);
        match t {
            TermView::Pid(p) => {
                let a = seq![NEW_PID_EXT];
                let node = enc_atom(p.node);
                let rest = be32(p.num) + be32(p.serial) + be32(p.creation);
                assert(enc(t) =~= a + (node + rest));
                lemma_cut_split(b, pos, a, node + rest);
                lemma_cut_split(b, pos + 1, node, rest);
                if k - 1 < node.len() {
                    lemma_atom_truncated(p.node, b, pos + 1);
                } else {
                    lemma_atom_roundtrip(p.node, b, pos + 1);
                }
            },
            TermView::Port(p) => {
                let a = seq![NEW_PORT_EXT];
                let node = enc_atom(p.node);
                let rest = be32(p.id) + be32(p.creation);
                assert(enc(t) =~= a + (node + rest));
                lemma_cut_split(b, pos, a, node + rest);
                lemma_cut_split(b, pos + 1, node, rest);
                if k - 1 < node.len() {
                    lemma_atom_truncated(p.node, b, pos + 1);
                } else {
                    lemma_atom_roundtrip(p.node, b, pos + 1);
                }
            },
            TermView::Reference(r) => {
                let a = seq![NEWER_REFERENCE_EXT] + be16(r.n.len() as u16);
                let node = enc_atom(r.node);
                let rest = be32(r.creation) + enc_words(r.n);
                lemma_words_len(r.n);
                assert(enc(t) =~= a + (node + rest));
                if k >= 3 {
                    lemma_cut_split(b, pos, a, node + rest);
                    lemma_split(b, pos, seq![NEWER_REFERENCE_EXT], be16(r.n.len() as u16));
                    lemma_be16_read(b, pos + 1, r.n.len() as u16);
                    lemma_cut_split(b, pos + 3, node, rest);
                    if k - 3 < node.len() {
                        lemma_atom_truncated(r.node, b, pos + 3);
                    } else {
                        lemma_atom_roundtrip(r.node, b, pos + 3);
                    }
                }
            },
            _ => {},
        }
    }
}

/// A part of the wire form of an exported function does not decode: the
/// bytes run out.
proof fn lemma_fun_truncated(t: TermView, b: Seq<u8>, pos: int)
    requires
        t is Fun,
        encodable(t),
        cut_at(b, pos, enc(t)),
    ensures
        is_truncated(dec(b, pos)),
{
    let k = b.len() - pos;
    let f = t->Fun_0;
    let a = seq![EXPORT_EXT];
    let module = enc_atom(f.module);
    let function = enc_atom(f.function);
    let arity = seq![SMALL_INTEGER_EXT, f.arity];
    if k >= 1 {
        lemma_cut_byte(b, pos, enc(t), 0);
        assert(enc(t) =~= a + (module + (function + arity)));
        lemma_cut_split(b, pos, a, module + (function + arity));
        lemma_cut_split(b, pos + 1, module, function + arity);
        if k - 1 < module.len() {
            lemma_atom_truncated(f.module, b, pos + 1);
        } else {
            lemma_atom_roundtrip(f.module, b, pos + 1);
            let at = pos + 1 + module.len();
            lemma_cut_split(b, at, function, arity);
            if b.len() - at < function.len() {
                lemma_atom_truncated(f.function, b, at);
            } else {
                lemma_atom_roundtrip(f.function, b, at);
            }
        }
    }
}

/// A part of the wire form of a tuple does not decode: the bytes run out.
proof fn lemma_tuple_truncated(t: TermView, b: Seq<u8>, pos: int)
    requires
        t is Tuple,
        encodable(t),
        cut_at(b, pos, enc(t)),
    ensures
        is_truncated(dec(b, pos)),
    decreases t, 0int,
{
    let k = b.len() - pos;
    let items = t->Tuple_0;
    let n = items.len();
    if k >= 1 {
        lemma_cut_byte(b, pos, enc(t), 0);
        if n <= 255 {
            let hdr = seq![SMALL_TUPLE_EXT, n as u8];
            if k >= 2 {
                lemma_cut_split(b, pos, hdr, enc_seq(items));
                lemma_byte(b, pos, hdr, 1);
                lemma_seq_truncated(items, b, pos + 2);
            }
        } else {
            let a = seq![LARGE_TUPLE_EXT];
            if k >= 5 {
                lemma_cut_split(b, pos, a + len32(n), enc_seq(items));
                lemma_split(b, pos, a, len32(n));
                lemma_be32_read(b, pos + 1, n as u32);
                lemma_seq_truncated(items, b, pos + 5);
            }
        }
    }
}

/// A part of the wire form of a list does not decode: the bytes run out.
proof fn lemma_list_truncated(t: TermView, b: Seq<u8>, pos: int)
    requires
        t is List,
        encodable(t),
        cut_at(b, pos, enc(t)),
    ensures
        is_truncated(dec(b, pos)),
    decreases t, 0int,
{
    let k = b.len() - pos;
    let items = t->List_0;
    let tail = *t->List_1;
    let n = items.len();
    let hdr = seq![LIST_EXT] + len32(n);
    if k >= 1 {
        lemma_cut_byte(b, pos, enc(t), 0);
        if k >= 5 {
            assert(enc(t) =~= hdr + (enc_seq(items) + enc(tail)));
            lemma_cut_split(b, pos, hdr, enc_seq(items) + enc(tail));
            lemma_split(b, pos, seq![LIST_EXT], len32(n));
            lemma_be32_read(b, pos + 1, n as u32);
            lemma_cut_split(b, pos + 5, enc_seq(items), enc(tail));
            if k - 5 < enc_seq(items).len() {
                lemma_seq_truncated(items, b, pos + 5);
            } else {
                lemma_seq_roundtrip(items, b, pos + 5);
                lemma_truncated_at(tail, b, pos + 5 + enc_seq(items).len());
            }
        }
    }
}

/// A part of the wire form of a map does not decode: the bytes run out.
proof fn lemma_map_truncated(t: TermView, b: Seq<u8>, pos: int)
    requires
        t is Mapping,
        encodable(t),
        cut_at(b, pos, enc(t)),
    ensures
        is_truncated(dec(b, pos)),
    decreases t, 0int,
{
    let k = b.len() - pos;
    let pairs = t->Mapping_0;
    let n = pairs.len();
    let a = seq![MAP_EXT];
    if k >= 1 {
        lemma_cut_byte(b, pos, enc(t), 0);
        if k >= 5 {
            lemma_cut_split(b, pos, a + len32(n), enc_pairs(pairs));
            lemma_split(b, pos, a, len32(n));
            lemma_be32_read(b, pos + 1, n as u32);
            lemma_pairs_truncated(pairs, b, pos + 5);
        }
    }
}

/// Truncation: where the bytes end inside the wire form of an encodable
/// term, at whatever offset, decoding fails with `Truncated`.
pub proof fn lemma_truncated_at(t: TermView, b: Seq<u8>, pos: int)
    requires
        encodable(t),
        cut_at(b, pos, enc(t)),
    ensures
        is_truncated(dec(b, pos)),
    decreases t, 1int,
{
    match t {
        TermView::Integer(..) | TermView::BigInteger { .. } | TermView::Float(..) => {
            lemma_number_truncated(t, b, pos);
        },
        TermView::Atom(..) | TermView::Binary(..) | TermView::Nil => {
            lemma_bytes_truncated(t, b, pos);
        },
        TermView::Pid(..) | TermView::Port(..) | TermView::Reference(..) => {
            lemma_id_truncated(t, b, pos);
        },
        TermView::Fun(..) => {
            lemma_fun_truncated(t, b, pos);
        },
        TermView::Tuple(..) => {
            lemma_tuple_truncated(t, b, pos);
        },
        TermView::List(..) => {
            lemma_list_truncated(t, b, pos);
        },
        TermView::Mapping(..) => {
            lemma_map_truncated(t, b, pos);
        },
    }
}

/// Truncation inside a sequence of encodable terms.
pub proof fn lemma_seq_truncated(items: Seq<TermView>, b: Seq<u8>, pos: int)
    requires
        first_error(items) is None,
        cut_at(b, pos, enc_seq(items)),
    ensures
        is_truncated(dec_seq(b, pos, items.len() as int)),
    decreases items, 0int,
{
    let k = b.len() - pos;
    let rest = items.subrange(1, items.len() as int);
    lemma_cut_split(b, pos, enc(items[0]), enc_seq(rest));
    if k < enc(items[0]).len() {
        lemma_truncated_at(items[0], b, pos);
    } else {
        lemma_enc_nonempty(items[0]);
        lemma_roundtrip_at(items[0], b, pos);
        lemma_seq_truncated(rest, b, pos + enc(items[0]).len());
    }
}

/// Truncation inside a sequence of pairs of encodable terms.
pub proof fn lemma_pairs_truncated(pairs: Seq<(TermView, TermView)>, b: Seq<u8>, pos: int)
    requires
        first_pair_error(pairs) is None,
        cut_at(b, pos, enc_pairs(pairs)),
    ensures
        is_truncated(dec_pairs(b, pos, pairs.len() as int)),
    decreases pairs, 0int,
{
    let k = b.len() - pos;
    let rest = pairs.subrange(1, pairs.len() as int);
    let key = pairs[0].0;
    let value = pairs[0].1;
    assert(enc_pairs(pairs) =~= enc(key) + (enc(value) + enc_pairs(rest)));
    lemma_cut_split(b, pos, enc(key), enc(value) + enc_pairs(rest));
    if k < enc(key).len() {
        lemma_truncated_at(key, b, pos);
    } else {
        lemma_enc_nonempty(key);
        lemma_roundtrip_at(key, b, pos);
        let mid = pos + enc(key).len();
        lemma_cut_split(b, mid, enc(value), enc_pairs(rest));
        if b.len() - mid < enc(value).len() {
            lemma_truncated_at(value, b, mid);
        } else {
            lemma_enc_nonempty(value);
            lemma_roundtrip_at(value, b, mid);
            lemma_pairs_truncated(rest, b, mid + enc(value).len());
        }
    }
}

/// Truncation: every proper prefix of the wire form of an encodable term,
/// with or without the version byte, fails to decode with `Truncated`.
pub proof fn lemma_truncated(t: TermView, k: int)
    requires
        encodable(t),
    ensures
        0 <= k < enc(t).len() ==> is_truncated(dec(enc(t).take(k), 0)),
        0 <= k < enc_versioned(t).len() ==> is_truncated(
            dec_versioned(enc_versioned(t).take(k), 0),
        ),
{
    if 0 <= k < enc(t).len() {
        let b = enc(t).take(k);
        assert(b.subrange(0, b.len() as int) =~= enc(t).take(b.len() - 0));
        lemma_truncated_at(t, b, 0);
    }
    if 1 <= k < enc_versioned(t).len() {
        let whole = enc_versioned(t);
        let b = whole.take(k);
        assert(b.subrange(0, b.len() as int) =~= whole.take(b.len() - 0));
        lemma_cut_split(b, 0, seq![VERSION_MAGIC], enc(t));
        lemma_byte(b, 0, seq![VERSION_MAGIC], 0);
        lemma_truncated_at(t, b, 1);
    }
}

} // verus!
