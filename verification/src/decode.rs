//! What each byte string decodes to, and the decoder that computes it.

use crate::encode::{
    ATOM_EXT, ATOM_UTF8_EXT, BINARY_EXT, EXPORT_EXT, INTEGER_EXT, LARGE_BIG_EXT, LARGE_TUPLE_EXT, LIST_EXT,
    MAP_EXT, NEWER_REFERENCE_EXT, NEW_FLOAT_EXT, NEW_PID_EXT, NEW_PORT_EXT, NEW_REFERENCE_EXT,
    NIL_EXT, PID_EXT, PORT_EXT,
    SMALL_ATOM_EXT, SMALL_ATOM_UTF8_EXT, SMALL_BIG_EXT, SMALL_INTEGER_EXT, SMALL_TUPLE_EXT,
    STRING_EXT, VERSION_MAGIC,
};
use crate::number::{fits_word, signed_word, to_word, word_magnitude};
use crate::term::{
    erlang_fun, erlang_pid, erlang_port, erlang_ref, pair_views, term_view, views, Atom, AtomView, FunView,
    PidView, PortView,
    RefView, Term, TermView,
};
use crate::wire::{get_be16, get_be32, get_be64, i32_from_bits, i32_of_bits, read_be16, read_be32, read_be64};
use vstd::prelude::*;

verus! {

/// Why a byte string cannot be decoded.
#[derive(Debug, Copy, Clone, PartialEq, Eq, Structural)]
pub enum DecodingError {
    /// The byte where a tag is expected is none that the format knows.
    UnexpectedTag,
    /// The bytes end before the item does.
    Truncated,
    /// A length field holds a value that the format does not allow for its item.
    BadLength,
}

/// Whether fewer than `need` bytes stand at `pos`.
pub open spec fn short(b: Seq<u8>, pos: int, need: int) -> bool {
    pos + need > b.len()
}

/// The words of a reference that stand at `pos`.
pub open spec fn dec_words(b: Seq<u8>, pos: int, n: int) -> Seq<u32> {
    Seq::new(n as nat, |i: int| read_be32(b, pos + 4 * i))
}

/// The small integers that a string of `n` bytes at `pos` stands for.
pub open spec fn dec_chars(b: Seq<u8>, pos: int, n: int) -> Seq<TermView> {
    Seq::new(n as nat, |i: int| TermView::Integer(b[pos + i] as i64))
}

/// The atom whose tag stands at `pos` and the position after it, or the
/// error and the position of the item that failed.
pub open spec fn dec_atom(b: Seq<u8>, pos: int) -> Result<(AtomView, int), (DecodingError, int)> {
    if pos < 0 || short(b, pos, 1) {
        Err((DecodingError::Truncated, pos))
    } else if b[pos] == SMALL_ATOM_EXT || b[pos] == SMALL_ATOM_UTF8_EXT {
        if short(b, pos, 2) || short(b, pos, 2 + b[pos + 1]) {
            Err((DecodingError::Truncated, pos))
        } else {
            Ok(
                (
                    AtomView {
                        name: b.subrange(pos + 2, pos + 2 + b[pos + 1]),
                        utf8: b[pos] == SMALL_ATOM_UTF8_EXT,
                    },
                    pos + 2 + b[pos + 1],
                ),
            )
        }
    } else if b[pos] == ATOM_EXT || b[pos] == ATOM_UTF8_EXT {
        if short(b, pos, 3) {
            Err((DecodingError::Truncated, pos))
        } else if read_be16(b, pos + 1) > (if b[pos] == ATOM_EXT {
            255int
        } else {
            1020int
        }) {
            Err((DecodingError::BadLength, pos))
        } else if short(b, pos, 3 + read_be16(b, pos + 1)) {
            Err((DecodingError::Truncated, pos))
        } else {
            Ok(
                (
                    AtomView {
                        name: b.subrange(pos + 3, pos + 3 + read_be16(b, pos + 1)),
                        utf8: b[pos] == ATOM_UTF8_EXT,
                    },
                    pos + 3 + read_be16(b, pos + 1),
                ),
            )
        }
    } else {
        Err((DecodingError::UnexpectedTag, pos))
    }
}

/// The integer with the given sign whose `n` digits stand at `start`: a
/// machine word where it fits one, a big integer with the digits as they
/// stand where it does not. `pos` is where the item began.
pub open spec fn dec_big(b: Seq<u8>, pos: int, start: int, n: int, sign: u8) -> Result<
    (TermView, int),
    (DecodingError, int),
> {
    if start + n > b.len() {
        Err((DecodingError::Truncated, pos))
    } else if fits_word(sign != 0, b.subrange(start, start + n)) {
        Ok(
            (
                TermView::Integer(
                    signed_word(sign != 0, word_magnitude(b.subrange(start, start + n))),
                ),
                start + n,
            ),
        )
    } else {
        Ok(
            (
                TermView::BigInteger { negative: sign != 0, digits: b.subrange(start, start + n) },
                start + n,
            ),
        )
    }
}

/// The term whose tag stands at `pos` and the position after it, or the
/// error and the position of the innermost item that failed.
pub open spec fn dec(b: Seq<u8>, pos: int) -> Result<(TermView, int), (DecodingError, int)>
    decreases b.len() - pos, 0int,
{
    if pos < 0 || short(b, pos, 1) {
        Err((DecodingError::Truncated, pos))
    } else if b[pos] == SMALL_INTEGER_EXT {
        if short(b, pos, 2) {
            Err((DecodingError::Truncated, pos))
        } else {
            Ok((TermView::Integer(b[pos + 1] as i64), pos + 2))
        }
    } else if b[pos] == INTEGER_EXT {
        if short(b, pos, 5) {
            Err((DecodingError::Truncated, pos))
        } else {
            Ok((TermView::Integer(i32_of_bits(read_be32(b, pos + 1)) as i64), pos + 5))
        }
    } else if b[pos] == NEW_FLOAT_EXT {
        if short(b, pos, 9) {
            Err((DecodingError::Truncated, pos))
        } else {
            Ok((TermView::Float(read_be64(b, pos + 1)), pos + 9))
        }
    } else if b[pos] == SMALL_BIG_EXT {
        if short(b, pos, 3) {
            Err((DecodingError::Truncated, pos))
        } else {
            dec_big(b, pos, pos + 3, b[pos + 1] as int, b[pos + 2])
        }
    } else if b[pos] == LARGE_BIG_EXT {
        if short(b, pos, 6) {
            Err((DecodingError::Truncated, pos))
        } else {
            dec_big(b, pos, pos + 6, read_be32(b, pos + 1) as int, b[pos + 5])
        }
    } else if b[pos] == SMALL_ATOM_EXT || b[pos] == SMALL_ATOM_UTF8_EXT || b[pos] == ATOM_EXT
        || b[pos] == ATOM_UTF8_EXT {
        match dec_atom(b, pos) {
            Ok((a, next)) => Ok((TermView::Atom(a), next)),
            Err(e) => Err(e),
        }
    } else if b[pos] == SMALL_TUPLE_EXT {
        if short(b, pos, 2) {
            Err((DecodingError::Truncated, pos))
        } else {
            match dec_seq(b, pos + 2, b[pos + 1] as int) {
                Ok((items, next)) => Ok((TermView::Tuple(items), next)),
                Err(e) => Err(e),
            }
        }
    } else if b[pos] == LARGE_TUPLE_EXT {
        if short(b, pos, 5) {
            Err((DecodingError::Truncated, pos))
        } else {
            match dec_seq(b, pos + 5, read_be32(b, pos + 1) as int) {
                Ok((items, next)) => Ok((TermView::Tuple(items), next)),
                Err(e) => Err(e),
            }
        }
    } else if b[pos] == NIL_EXT {
        Ok((TermView::Nil, pos + 1))
    } else if b[pos] == STRING_EXT {
        if short(b, pos, 3) || short(b, pos, 3 + read_be16(b, pos + 1)) {
            Err((DecodingError::Truncated, pos))
        } else {
            Ok(
                (
                    TermView::List(
                        dec_chars(b, pos + 3, read_be16(b, pos + 1) as int),
                        Box::new(TermView::Nil),
                    ),
                    pos + 3 + read_be16(b, pos + 1),
                ),
            )
        }
    } else if b[pos] == LIST_EXT {
        if short(b, pos, 5) {
            Err((DecodingError::Truncated, pos))
        } else {
            match dec_seq(b, pos + 5, read_be32(b, pos + 1) as int) {
                Ok((items, mid)) => if pos < mid <= b.len() {
                    match dec(b, mid) {
                        Ok((tail, next)) => Ok((TermView::List(items, Box::new(tail)), next)),
                        Err(e) => Err(e),
                    }
                } else {
                    Err((DecodingError::Truncated, pos))
                },
                Err(e) => Err(e),
            }
        }
    } else if b[pos] == MAP_EXT {
        if short(b, pos, 5) {
            Err((DecodingError::Truncated, pos))
        } else {
            match dec_pairs(b, pos + 5, read_be32(b, pos + 1) as int) {
                Ok((pairs, next)) => Ok((TermView::Mapping(pairs), next)),
                Err(e) => Err(e),
            }
        }
    } else if b[pos] == BINARY_EXT {
        if short(b, pos, 5) || short(b, pos, 5 + read_be32(b, pos + 1)) {
            Err((DecodingError::Truncated, pos))
        } else {
            Ok(
                (
                    TermView::Binary(b.subrange(pos + 5, pos + 5 + read_be32(b, pos + 1))),
                    pos + 5 + read_be32(b, pos + 1),
                ),
            )
        }
    } else if b[pos] == NEW_PID_EXT {
        match dec_atom(b, pos + 1) {
            Ok((node, at)) => if short(b, at, 12) {
                Err((DecodingError::Truncated, pos))
            } else {
                Ok(
                    (
                        TermView::Pid(
                            PidView {
                                node,
                                num: read_be32(b, at),
                                serial: read_be32(b, at + 4),
                                creation: read_be32(b, at + 8),
                            },
                        ),
                        at + 12,
                    ),
                )
            },
            Err(e) => Err(e),
        }
    } else if b[pos] == NEW_PORT_EXT {
        match dec_atom(b, pos + 1) {
            Ok((node, at)) => if short(b, at, 8) {
                Err((DecodingError::Truncated, pos))
            } else {
                Ok(
                    (
                        TermView::Port(
                            PortView { node, id: read_be32(b, at), creation: read_be32(b, at + 4) },
                        ),
                        at + 8,
                    ),
                )
            },
            Err(e) => Err(e),
        }
    } else if b[pos] == NEWER_REFERENCE_EXT {
        if short(b, pos, 3) {
            Err((DecodingError::Truncated, pos))
        } else if read_be16(b, pos + 1) < 1 || read_be16(b, pos + 1) > 3 {
            Err((DecodingError::BadLength, pos))
        } else {
            match dec_atom(b, pos + 3) {
                Ok((node, at)) => if short(b, at, 4 + 4 * read_be16(b, pos + 1)) {
                    Err((DecodingError::Truncated, pos))
                } else {
                    Ok(
                        (
                            TermView::Reference(
                                RefView {
                                    node,
                                    n: dec_words(b, at + 4, read_be16(b, pos + 1) as int),
                                    creation: read_be32(b, at),
                                },
                            ),
                            at + 4 + 4 * read_be16(b, pos + 1),
                        ),
                    )
                },
                Err(e) => Err(e),
            }
        }
    } else if b[pos] == PID_EXT {
        match dec_atom(b, pos + 1) {
            Ok((node, at)) => if short(b, at, 9) {
                Err((DecodingError::Truncated, pos))
            } else {
                Ok(
                    (
                        TermView::Pid(
                            PidView {
                                node,
                                num: read_be32(b, at),
                                serial: read_be32(b, at + 4),
                                creation: b[at + 8] as u32,
                            },
                        ),
                        at + 9,
                    ),
                )
            },
            Err(e) => Err(e),
        }
    } else if b[pos] == PORT_EXT {
        match dec_atom(b, pos + 1) {
            Ok((node, at)) => if short(b, at, 5) {
                Err((DecodingError::Truncated, pos))
            } else {
                Ok(
                    (
                        TermView::Port(
                            PortView { node, id: read_be32(b, at), creation: b[at + 4] as u32 },
                        ),
                        at + 5,
                    ),
                )
            },
            Err(e) => Err(e),
        }
    } else if b[pos] == NEW_REFERENCE_EXT {
        if short(b, pos, 3) {
            Err((DecodingError::Truncated, pos))
        } else if read_be16(b, pos + 1) < 1 || read_be16(b, pos + 1) > 3 {
            Err((DecodingError::BadLength, pos))
        } else {
            match dec_atom(b, pos + 3) {
                Ok((node, at)) => if short(b, at, 1 + 4 * read_be16(b, pos + 1)) {
                    Err((DecodingError::Truncated, pos))
                } else {
                    Ok(
                        (
                            TermView::Reference(
                                RefView {
                                    node,
                                    n: dec_words(b, at + 1, read_be16(b, pos + 1) as int),
                                    creation: b[at] as u32,
                                },
                            ),
                            at + 1 + 4 * read_be16(b, pos + 1),
                        ),
                    )
                },
                Err(e) => Err(e),
            }
        }
    } else if b[pos] == EXPORT_EXT {
        match dec_atom(b, pos + 1) {
            Ok((module, at)) => match dec_atom(b, at) {
                Ok((function, end)) => if short(b, end, 2) {
                    Err((DecodingError::Truncated, pos))
                } else if b[end] != SMALL_INTEGER_EXT {
                    Err((DecodingError::UnexpectedTag, end))
                } else {
                    Ok((TermView::Fun(FunView { module, function, arity: b[end + 1] }), end + 2))
                },
                Err(e) => Err(e),
            },
            Err(e) => Err(e),
        }
    } else {
        Err((DecodingError::UnexpectedTag, pos))
    }
}

/// The `n` terms that stand one after the other from `pos`, and the position
/// after them.
pub open spec fn dec_seq(b: Seq<u8>, pos: int, n: int) -> Result<
    (Seq<TermView>, int),
    (DecodingError, int),
>
    decreases b.len() - pos, n + 1,
{
    if n <= 0 {
        Ok((Seq::empty(), pos))
    } else {
        match dec(b, pos) {
            Ok((t, mid)) => if pos < mid <= b.len() {
                match dec_seq(b, mid, n - 1) {
                    Ok((rest, next)) => Ok((seq![t] + rest, next)),
                    Err(e) => Err(e),
                }
            } else {
                Err((DecodingError::Truncated, pos))
            },
            Err(e) => Err(e),
        }
    }
}

/// The `n` pairs of key and value that stand one after the other from `pos`,
/// in the order in which they stand, and the position after them.
pub open spec fn dec_pairs(b: Seq<u8>, pos: int, n: int) -> Result<
    (Seq<(TermView, TermView)>, int),
    (DecodingError, int),
>
    decreases b.len() - pos, n + 1,
{
    if n <= 0 {
        Ok((Seq::empty(), pos))
    } else {
        match dec(b, pos) {
            Ok((k, mid)) => if pos < mid <= b.len() {
                match dec(b, mid) {
                    Ok((v, end)) => if mid < end <= b.len() {
                        match dec_pairs(b, end, n - 1) {
                            Ok((rest, next)) => Ok((seq![(k, v)] + rest, next)),
                            Err(e) => Err(e),
                        }
                    } else {
                        Err((DecodingError::Truncated, pos))
                    },
                    Err(e) => Err(e),
                }
            } else {
                Err((DecodingError::Truncated, pos))
            },
            Err(e) => Err(e),
        }
    }
}

/// The complete term that stands at `pos`: the version byte, then the term.
pub open spec fn dec_versioned(b: Seq<u8>, pos: int) -> Result<
    (TermView, int),
    (DecodingError, int),
> {
    if pos < 0 || short(b, pos, 1) {
        Err((DecodingError::Truncated, pos))
    } else if b[pos] != VERSION_MAGIC {
        Err((DecodingError::UnexpectedTag, pos))
    } else {
        dec(b, pos + 1)
    }
}

/// A decoded sequence put behind the terms that were decoded before it.
pub open spec fn extend(
    acc: Seq<TermView>,
    r: Result<(Seq<TermView>, int), (DecodingError, int)>,
) -> Result<(Seq<TermView>, int), (DecodingError, int)> {
    match r {
        Ok((rest, next)) => Ok((acc + rest, next)),
        Err(e) => Err(e),
    }
}

/// A decoded sequence of pairs put behind the pairs that were decoded before it.
pub open spec fn extend_pairs(
    acc: Seq<(TermView, TermView)>,
    r: Result<(Seq<(TermView, TermView)>, int), (DecodingError, int)>,
) -> Result<(Seq<(TermView, TermView)>, int), (DecodingError, int)> {
    match r {
        Ok((rest, next)) => Ok((acc + rest, next)),
        Err(e) => Err(e),
    }
}

fn lacks(buf: &[u8], pos: usize, need: usize) -> (r: bool)
    requires
        pos <= buf.len(),
    ensures
        r == short(buf@, pos as int, need as int),
{
    need > buf.len() - pos
}

fn copy_range(buf: &[u8], from: usize, to: usize) -> (out: Vec<u8>)
    requires
        from <= to <= buf.len(),
    ensures
        out@ == buf@.subrange(from as int, to as int),
{
    let mut out: Vec<u8> = Vec::new();
    let mut i: usize = from;
    while i < to
        invariant
            from <= i <= to,
            to <= buf.len(),
            out@ == buf@.subrange(from as int, i as int),
        decreases to - i,
    {
        out.push(buf[i]);
        i += 1;
        assert(out@ =~= buf@.subrange(from as int, i as int));
    }
    out
}

fn read_atom(buf: &[u8], pos: usize) -> (r: Result<(Atom, usize), (DecodingError, usize)>)
    ensures
        match r {
            Ok((a, next)) => dec_atom(buf@, pos as int) == Ok::<
                (AtomView, int),
                (DecodingError, int),
            >((a@, next as int)) && pos < next <= buf.len(),
            Err((e, at)) => dec_atom(buf@, pos as int) == Err::<
                (AtomView, int),
                (DecodingError, int),
            >((e, at as int)),
        },
{
    if pos >= buf.len() {
        return Err((DecodingError::Truncated, pos));
    }
    let tag: u8 = buf[pos];
    if tag == SMALL_ATOM_EXT || tag == SMALL_ATOM_UTF8_EXT {
        if lacks(buf, pos, 2) {
            return Err((DecodingError::Truncated, pos));
        }
        let n: usize = buf[pos + 1] as usize;
        if lacks(buf, pos, 2 + n) {
            return Err((DecodingError::Truncated, pos));
        }
        let name = copy_range(buf, pos + 2, pos + 2 + n);
        Ok((Atom { name, utf8: tag == SMALL_ATOM_UTF8_EXT }, pos + 2 + n))
    } else if tag == ATOM_EXT || tag == ATOM_UTF8_EXT {
        if lacks(buf, pos, 3) {
            return Err((DecodingError::Truncated, pos));
        }
        let n: usize = get_be16(buf, pos + 1) as usize;
        let limit: usize = if tag == ATOM_EXT {
            255
        } else {
            1020
        };
        if n > limit {
            return Err((DecodingError::BadLength, pos));
        }
        if lacks(buf, pos, 3 + n) {
            return Err((DecodingError::Truncated, pos));
        }
        let name = copy_range(buf, pos + 3, pos + 3 + n);
        Ok((Atom { name, utf8: tag == ATOM_UTF8_EXT }, pos + 3 + n))
    } else {
        Err((DecodingError::UnexpectedTag, pos))
    }
}

fn read_big(buf: &[u8], pos: usize, start: usize, n: usize, sign: u8) -> (r: Result<
    (Term, usize),
    (DecodingError, usize),
>)
    requires
        pos < start <= buf.len(),
    ensures
        match r {
            Ok((t, next)) => dec_big(buf@, pos as int, start as int, n as int, sign) == Ok::<
                (TermView, int),
                (DecodingError, int),
            >((t@, next as int)) && pos < next <= buf.len(),
            Err((e, at)) => dec_big(buf@, pos as int, start as int, n as int, sign) == Err::<
                (TermView, int),
                (DecodingError, int),
            >((e, at as int)),
        },
{
    if lacks(buf, start, n) {
        return Err((DecodingError::Truncated, pos));
    }
    let digits = copy_range(buf, start, start + n);
    let negative = sign != 0;
    match to_word(negative, &digits) {
        Some(v) => Ok((Term::Integer(v), start + n)),
        None => Ok((Term::BigInteger { negative, digits }, start + n)),
    }
}

fn read_chars(buf: &[u8], start: usize, n: usize) -> (out: Vec<Term>)
    requires
        start + n <= buf.len(),
    ensures
        views(out@) == dec_chars(buf@, start as int, n as int),
{
    let mut out: Vec<Term> = Vec::new();
    let mut i: usize = 0;
    assert(views(out@) =~= dec_chars(buf@, start as int, 0));
    while i < n
        invariant
            i <= n,
            start + n <= buf.len(),
            views(out@) == dec_chars(buf@, start as int, i as int),
        decreases n - i,
    {
        let ghost before = out@;
        let t = Term::Integer(buf[start + i] as i64);
        out.push(t);
        i += 1;
        assert(out@.drop_last() =~= before);
        assert(views(out@) == views(before).push(term_view(out@.last())));
        assert(views(out@) =~= dec_chars(buf@, start as int, i as int));
    }
    out
}

fn read_words(buf: &[u8], start: usize, n: usize) -> (out: Vec<u32>)
    requires
        n <= 3,
        start + 4 * n <= buf.len(),
    ensures
        out@ == dec_words(buf@, start as int, n as int),
{
    let mut out: Vec<u32> = Vec::new();
    let mut i: usize = 0;
    assert(out@ =~= dec_words(buf@, start as int, 0));
    while i < n
        invariant
            i <= n,
            n <= 3,
            start + 4 * n <= buf.len(),
            out@ == dec_words(buf@, start as int, i as int),
        decreases n - i,
    {
        out.push(get_be32(buf, start + 4 * i));
        i += 1;
        assert(out@ =~= dec_words(buf@, start as int, i as int));
    }
    out
}

fn read_items(buf: &[u8], pos: usize, n: usize) -> (r: Result<
    (Vec<Term>, usize),
    (DecodingError, usize),
>)
    requires
        pos <= buf.len(),
    ensures
        match r {
            Ok((items, next)) => dec_seq(buf@, pos as int, n as int) == Ok::<
                (Seq<TermView>, int),
                (DecodingError, int),
            >((views(items@), next as int)) && pos <= next <= buf.len(),
            Err((e, at)) => dec_seq(buf@, pos as int, n as int) == Err::<
                (Seq<TermView>, int),
                (DecodingError, int),
            >((e, at as int)),
        },
    decreases buf.len() - pos, n + 1,
{
    let mut out: Vec<Term> = Vec::new();
    let mut cur: usize = pos;
    let mut i: usize = 0;
    proof {
        match dec_seq(buf@, pos as int, n as int) {
            Ok((rest, next)) => {
                assert(views(out@) + rest =~= rest);
            },
            Err(_) => {},
        }
    }
    while i < n
        invariant
            i <= n,
            pos <= cur <= buf.len(),
            dec_seq(buf@, pos as int, n as int) == extend(
                views(out@),
                dec_seq(buf@, cur as int, n - i),
            ),
        decreases n - i,
    {
        match read_term(buf, cur) {
            Ok((t, next)) => {
                proof {
                    let acc = views(out@);
                    assert(out@.push(t).drop_last() =~= out@);
                    assert(views(out@.push(t)) == acc.push(t@));
                    match dec_seq(buf@, next as int, n - i - 1) {
                        Ok((rest, end)) => {
                            assert(acc + (seq![t@] + rest) =~= acc.push(t@) + rest);
                        },
                        Err(_) => {},
                    }
                }
                out.push(t);
                cur = next;
                i += 1;
            },
            Err(e) => {
                return Err(e);
            },
        }
    }
    assert(views(out@) + Seq::<TermView>::empty() =~= views(out@));
    Ok((out, cur))
}

fn read_pairs(buf: &[u8], pos: usize, n: usize) -> (r: Result<
    (Vec<(Term, Term)>, usize),
    (DecodingError, usize),
>)
    requires
        pos <= buf.len(),
    ensures
        match r {
            Ok((pairs, next)) => dec_pairs(buf@, pos as int, n as int) == Ok::<
                (Seq<(TermView, TermView)>, int),
                (DecodingError, int),
            >((pair_views(pairs@), next as int)) && pos <= next <= buf.len(),
            Err((e, at)) => dec_pairs(buf@, pos as int, n as int) == Err::<
                (Seq<(TermView, TermView)>, int),
                (DecodingError, int),
            >((e, at as int)),
        },
    decreases buf.len() - pos, n + 1,
{
    let mut out: Vec<(Term, Term)> = Vec::new();
    let mut cur: usize = pos;
    let mut i: usize = 0;
    proof {
        match dec_pairs(buf@, pos as int, n as int) {
            Ok((rest, next)) => {
                assert(pair_views(out@) + rest =~= rest);
            },
            Err(_) => {},
        }
    }
    while i < n
        invariant
            i <= n,
            pos <= cur <= buf.len(),
            dec_pairs(buf@, pos as int, n as int) == extend_pairs(
                pair_views(out@),
                dec_pairs(buf@, cur as int, n - i),
            ),
        decreases n - i,
    {
        let (k, mid) = match read_term(buf, cur) {
            Ok(found) => found,
            Err(e) => {
                return Err(e);
            },
        };
        let (v, next) = match read_term(buf, mid) {
            Ok(found) => found,
            Err(e) => {
                return Err(e);
            },
        };
        proof {
            let acc = pair_views(out@);
            assert(out@.push((k, v)).drop_last() =~= out@);
            assert(pair_views(out@.push((k, v))) == acc.push((k@, v@)));
            match dec_pairs(buf@, next as int, n - i - 1) {
                Ok((rest, end)) => {
                    assert(acc + (seq![(k@, v@)] + rest) =~= acc.push((k@, v@)) + rest);
                },
                Err(_) => {},
            }
        }
        out.push((k, v));
        cur = next;
        i += 1;
    }
    assert(pair_views(out@) + Seq::<(TermView, TermView)>::empty() =~= pair_views(out@));
    Ok((out, cur))
}

/// Decodes the term whose tag stands at `pos`. Gives the term and the
/// position after it, or the error and the position of the item that failed.
pub fn read_term(buf: &[u8], pos: usize) -> (r: Result<(Term, usize), (DecodingError, usize)>)
    ensures
        match r {
            Ok((t, next)) => dec(buf@, pos as int) == Ok::<(TermView, int), (DecodingError, int)>(
                (t@, next as int),
            ) && pos < next <= buf.len(),
            Err((e, at)) => dec(buf@, pos as int) == Err::<(TermView, int), (DecodingError, int)>(
                (e, at as int),
            ),
        },
    decreases buf.len() - pos, 0int,
{
    if pos >= buf.len() {
        return Err((DecodingError::Truncated, pos));
    }
    let tag: u8 = buf[pos];
    if tag == SMALL_INTEGER_EXT {
        if lacks(buf, pos, 2) {
            return Err((DecodingError::Truncated, pos));
        }
        Ok((Term::Integer(buf[pos + 1] as i64), pos + 2))
    } else if tag == INTEGER_EXT {
        if lacks(buf, pos, 5) {
            return Err((DecodingError::Truncated, pos));
        }
        Ok((Term::Integer(i32_from_bits(get_be32(buf, pos + 1)) as i64), pos + 5))
    } else if tag == NEW_FLOAT_EXT {
        if lacks(buf, pos, 9) {
            return Err((DecodingError::Truncated, pos));
        }
        Ok((Term::Float(get_be64(buf, pos + 1)), pos + 9))
    } else if tag == SMALL_BIG_EXT {
        if lacks(buf, pos, 3) {
            return Err((DecodingError::Truncated, pos));
        }
        read_big(buf, pos, pos + 3, buf[pos + 1] as usize, buf[pos + 2])
    } else if tag == LARGE_BIG_EXT {
        if lacks(buf, pos, 6) {
            return Err((DecodingError::Truncated, pos));
        }
        read_big(buf, pos, pos + 6, get_be32(buf, pos + 1) as usize, buf[pos + 5])
    } else if tag == SMALL_ATOM_EXT || tag == SMALL_ATOM_UTF8_EXT || tag == ATOM_EXT || tag
        == ATOM_UTF8_EXT {
        match read_atom(buf, pos) {
            Ok((a, next)) => Ok((Term::Atom(a), next)),
            Err(e) => Err(e),
        }
    } else if tag == SMALL_TUPLE_EXT {
        if lacks(buf, pos, 2) {
            return Err((DecodingError::Truncated, pos));
        }
        match read_items(buf, pos + 2, buf[pos + 1] as usize) {
            Ok((items, next)) => Ok((Term::Tuple(items), next)),
            Err(e) => Err(e),
        }
    } else if tag == LARGE_TUPLE_EXT {
        if lacks(buf, pos, 5) {
            return Err((DecodingError::Truncated, pos));
        }
        match read_items(buf, pos + 5, get_be32(buf, pos + 1) as usize) {
            Ok((items, next)) => Ok((Term::Tuple(items), next)),
            Err(e) => Err(e),
        }
    } else if tag == NIL_EXT {
        Ok((Term::Nil, pos + 1))
    } else if tag == STRING_EXT {
        if lacks(buf, pos, 3) {
            return Err((DecodingError::Truncated, pos));
        }
        let n: usize = get_be16(buf, pos + 1) as usize;
        if lacks(buf, pos, 3 + n) {
            return Err((DecodingError::Truncated, pos));
        }
        let items = read_chars(buf, pos + 3, n);
        assert(term_view(Term::Nil) == TermView::Nil);
        Ok((Term::List(items, Box::new(Term::Nil)), pos + 3 + n))
    } else if tag == LIST_EXT {
        if lacks(buf, pos, 5) {
            return Err((DecodingError::Truncated, pos));
        }
        match read_items(buf, pos + 5, get_be32(buf, pos + 1) as usize) {
            Ok((items, mid)) => match read_term(buf, mid) {
                Ok((tail, next)) => Ok((Term::List(items, Box::new(tail)), next)),
                Err(e) => Err(e),
            },
            Err(e) => Err(e),
        }
    } else if tag == MAP_EXT {
        if lacks(buf, pos, 5) {
            return Err((DecodingError::Truncated, pos));
        }
        match read_pairs(buf, pos + 5, get_be32(buf, pos + 1) as usize) {
            Ok((pairs, next)) => Ok((Term::Mapping(pairs), next)),
            Err(e) => Err(e),
        }
    } else if tag == BINARY_EXT {
        if lacks(buf, pos, 5) {
            return Err((DecodingError::Truncated, pos));
        }
        let n: usize = get_be32(buf, pos + 1) as usize;
        if lacks(buf, pos + 5, n) {
            return Err((DecodingError::Truncated, pos));
        }
        Ok((Term::Binary(copy_range(buf, pos + 5, pos + 5 + n)), pos + 5 + n))
    } else if tag == NEW_PID_EXT {
        match read_atom(buf, pos + 1) {
            Ok((node, at)) => {
                if lacks(buf, at, 12) {
                    return Err((DecodingError::Truncated, pos));
                }
                let num: u32 = get_be32(buf, at);
                let serial: u32 = get_be32(buf, at + 4);
                let creation: u32 = get_be32(buf, at + 8);
                Ok((Term::Pid(erlang_pid { node, num, serial, creation }), at + 12))
            },
            Err(e) => Err(e),
        }
    } else if tag == NEW_PORT_EXT {
        match read_atom(buf, pos + 1) {
            Ok((node, at)) => {
                if lacks(buf, at, 8) {
                    return Err((DecodingError::Truncated, pos));
                }
                let id: u32 = get_be32(buf, at);
                let creation: u32 = get_be32(buf, at + 4);
                Ok((Term::Port(erlang_port { node, id, creation }), at + 8))
            },
            Err(e) => Err(e),
        }
    } else if tag == NEWER_REFERENCE_EXT {
        if lacks(buf, pos, 3) {
            return Err((DecodingError::Truncated, pos));
        }
        let n: usize = get_be16(buf, pos + 1) as usize;
        if n < 1 || n > 3 {
            return Err((DecodingError::BadLength, pos));
        }
        match read_atom(buf, pos + 3) {
            Ok((node, at)) => {
                if lacks(buf, at, 4 + 4 * n) {
                    return Err((DecodingError::Truncated, pos));
                }
                let creation: u32 = get_be32(buf, at);
                let words = read_words(buf, at + 4, n);
                Ok((Term::Reference(erlang_ref { node, n: words, creation }), at + 4 + 4 * n))
            },
            Err(e) => Err(e),
        }
    } else if tag == PID_EXT {
        match read_atom(buf, pos + 1) {
            Ok((node, at)) => {
                if lacks(buf, at, 9) {
                    return Err((DecodingError::Truncated, pos));
                }
                let num: u32 = get_be32(buf, at);
                let serial: u32 = get_be32(buf, at + 4);
                let creation: u32 = buf[at + 8] as u32;
                Ok((Term::Pid(erlang_pid { node, num, serial, creation }), at + 9))
            },
            Err(e) => Err(e),
        }
    } else if tag == PORT_EXT {
        match read_atom(buf, pos + 1) {
            Ok((node, at)) => {
                if lacks(buf, at, 5) {
                    return Err((DecodingError::Truncated, pos));
                }
                let id: u32 = get_be32(buf, at);
                let creation: u32 = buf[at + 4] as u32;
                Ok((Term::Port(erlang_port { node, id, creation }), at + 5))
            },
            Err(e) => Err(e),
        }
    } else if tag == NEW_REFERENCE_EXT {
        if lacks(buf, pos, 3) {
            return Err((DecodingError::Truncated, pos));
        }
        let n: usize = get_be16(buf, pos + 1) as usize;
        if n < 1 || n > 3 {
            return Err((DecodingError::BadLength, pos));
        }
        match read_atom(buf, pos + 3) {
            Ok((node, at)) => {
                if lacks(buf, at, 1 + 4 * n) {
                    return Err((DecodingError::Truncated, pos));
                }
                let creation: u32 = buf[at] as u32;
                let words = read_words(buf, at + 1, n);
                Ok((Term::Reference(erlang_ref { node, n: words, creation }), at + 1 + 4 * n))
            },
            Err(e) => Err(e),
        }
    } else if tag == EXPORT_EXT {
        match read_atom(buf, pos + 1) {
            Ok((module, at)) => match read_atom(buf, at) {
                Ok((function, end)) => {
                    if lacks(buf, end, 2) {
                        return Err((DecodingError::Truncated, pos));
                    }
                    if buf[end] != SMALL_INTEGER_EXT {
                        return Err((DecodingError::UnexpectedTag, end));
                    }
                    let arity: u8 = buf[end + 1];
                    Ok((Term::Fun(erlang_fun { module, function, arity }), end + 2))
                },
                Err(e) => Err(e),
            },
            Err(e) => Err(e),
        }
    } else {
        Err((DecodingError::UnexpectedTag, pos))
    }
}

/// Decodes the term at the cursor, the version byte being already consumed,
/// and moves the cursor behind it. On an error the cursor is left at the
/// item that failed.
pub fn decode(buf: &[u8], cursor: &mut usize) -> (r: Result<Term, DecodingError>)
    ensures
        match r {
            Ok(t) => dec(buf@, *old(cursor) as int) == Ok::<(TermView, int), (DecodingError, int)>(
                (t@, *final(cursor) as int),
            ),
            Err(e) => dec(buf@, *old(cursor) as int) == Err::<
                (TermView, int),
                (DecodingError, int),
            >((e, *final(cursor) as int)),
        },
{
    match read_term(buf, *cursor) {
        Ok((t, next)) => {
            *cursor = next;
            Ok(t)
        },
        Err((e, at)) => {
            *cursor = at;
            Err(e)
        },
    }
}

/// Decodes the complete term at the cursor, version byte first, and moves
/// the cursor behind it. On an error the cursor is left at the item that
/// failed.
pub fn decode_versioned(buf: &[u8], cursor: &mut usize) -> (r: Result<Term, DecodingError>)
    ensures
        match r {
            Ok(t) => dec_versioned(buf@, *old(cursor) as int) == Ok::<
                (TermView, int),
                (DecodingError, int),
            >((t@, *final(cursor) as int)),
            Err(e) => dec_versioned(buf@, *old(cursor) as int) == Err::<
                (TermView, int),
                (DecodingError, int),
            >((e, *final(cursor) as int)),
        },
{
    if *cursor >= buf.len() {
        return Err(DecodingError::Truncated);
    }
    if buf[*cursor] != VERSION_MAGIC {
        return Err(DecodingError::UnexpectedTag);
    }
    match read_term(buf, *cursor + 1) {
        Ok((t, next)) => {
            *cursor = next;
            Ok(t)
        },
        Err((e, at)) => {
            *cursor = at;
            Err(e)
        },
    }
}

/// Where decoding ends: the position behind the item, or the error and the
/// position of the item that failed.
pub open spec fn end_of<T>(r: Result<(T, int), (DecodingError, int)>) -> Result<
    int,
    (DecodingError, int),
> {
    match r {
        Ok((_, next)) => Ok(next),
        Err(e) => Err(e),
    }
}

/// The positions of a result of skipping, as mathematical integers.
pub open spec fn skipped(r: Result<usize, (DecodingError, usize)>) -> Result<
    int,
    (DecodingError, int),
> {
    match r {
        Ok(next) => Ok(next as int),
        Err((e, at)) => Err((e, at as int)),
    }
}

fn skip_atom(buf: &[u8], pos: usize) -> (r: Result<usize, (DecodingError, usize)>)
    ensures
        skipped(r) == end_of(dec_atom(buf@, pos as int)),
        r.is_ok() ==> pos < r.unwrap() <= buf.len(),
{
    if pos >= buf.len() {
        return Err((DecodingError::Truncated, pos));
    }
    let tag: u8 = buf[pos];
    if tag == SMALL_ATOM_EXT || tag == SMALL_ATOM_UTF8_EXT {
        if lacks(buf, pos, 2) {
            return Err((DecodingError::Truncated, pos));
        }
        let n: usize = buf[pos + 1] as usize;
        if lacks(buf, pos, 2 + n) {
            return Err((DecodingError::Truncated, pos));
        }
        Ok(pos + 2 + n)
    } else if tag == ATOM_EXT || tag == ATOM_UTF8_EXT {
        if lacks(buf, pos, 3) {
            return Err((DecodingError::Truncated, pos));
        }
        let n: usize = get_be16(buf, pos + 1) as usize;
        let limit: usize = if tag == ATOM_EXT {
            255
        } else {
            1020
        };
        if n > limit {
            return Err((DecodingError::BadLength, pos));
        }
        if lacks(buf, pos, 3 + n) {
            return Err((DecodingError::Truncated, pos));
        }
        Ok(pos + 3 + n)
    } else {
        Err((DecodingError::UnexpectedTag, pos))
    }
}

fn skip_items(buf: &[u8], pos: usize, n: usize) -> (r: Result<usize, (DecodingError, usize)>)
    requires
        pos <= buf.len(),
    ensures
        skipped(r) == end_of(dec_seq(buf@, pos as int, n as int)),
        r.is_ok() ==> pos <= r.unwrap() <= buf.len(),
    decreases buf.len() - pos, n + 1,
{
    let mut cur: usize = pos;
    let mut i: usize = 0;
    while i < n
        invariant
            i <= n,
            pos <= cur <= buf.len(),
            end_of(dec_seq(buf@, pos as int, n as int)) == end_of(
                dec_seq(buf@, cur as int, n - i),
            ),
        decreases n - i,
    {
        match skip_term(buf, cur) {
            Ok(next) => {
                cur = next;
                i += 1;
            },
            Err(e) => {
                return Err(e);
            },
        }
    }
    Ok(cur)
}

fn skip_pairs(buf: &[u8], pos: usize, n: usize) -> (r: Result<usize, (DecodingError, usize)>)
    requires
        pos <= buf.len(),
    ensures
        skipped(r) == end_of(dec_pairs(buf@, pos as int, n as int)),
        r.is_ok() ==> pos <= r.unwrap() <= buf.len(),
    decreases buf.len() - pos, n + 1,
{
    let mut cur: usize = pos;
    let mut i: usize = 0;
    while i < n
        invariant
            i <= n,
            pos <= cur <= buf.len(),
            end_of(dec_pairs(buf@, pos as int, n as int)) == end_of(
                dec_pairs(buf@, cur as int, n - i),
            ),
        decreases n - i,
    {
        let mid = match skip_term(buf, cur) {
            Ok(next) => next,
            Err(e) => {
                return Err(e);
            },
        };
        let next = match skip_term(buf, mid) {
            Ok(next) => next,
            Err(e) => {
                return Err(e);
            },
        };
        cur = next;
        i += 1;
    }
    Ok(cur)
}

/// Walks over the term whose tag stands at `pos` without building it.
/// Gives the position after it, or the error and the position of the item
/// that failed: in each case what decoding would give.
pub fn skip_term(buf: &[u8], pos: usize) -> (r: Result<usize, (DecodingError, usize)>)
    ensures
        skipped(r) == end_of(dec(buf@, pos as int)),
        r.is_ok() ==> pos < r.unwrap() <= buf.len(),
    decreases buf.len() - pos, 0int,
{
    if pos >= buf.len() {
        return Err((DecodingError::Truncated, pos));
    }
    let tag: u8 = buf[pos];
    let truncated = Err((DecodingError::Truncated, pos));
    if tag == SMALL_INTEGER_EXT {
        if lacks(buf, pos, 2) {
            return truncated;
        }
        Ok(pos + 2)
    } else if tag == INTEGER_EXT {
        if lacks(buf, pos, 5) {
            return truncated;
        }
        Ok(pos + 5)
    } else if tag == NEW_FLOAT_EXT {
        if lacks(buf, pos, 9) {
            return truncated;
        }
        Ok(pos + 9)
    } else if tag == SMALL_BIG_EXT {
        if lacks(buf, pos, 3) {
            return truncated;
        }
        let n: usize = buf[pos + 1] as usize;
        if lacks(buf, pos + 3, n) {
            return truncated;
        }
        Ok(pos + 3 + n)
    } else if tag == LARGE_BIG_EXT {
        if lacks(buf, pos, 6) {
            return truncated;
        }
        let n: usize = get_be32(buf, pos + 1) as usize;
        if lacks(buf, pos + 6, n) {
            return truncated;
        }
        Ok(pos + 6 + n)
    } else if tag == SMALL_ATOM_EXT || tag == SMALL_ATOM_UTF8_EXT || tag == ATOM_EXT || tag
        == ATOM_UTF8_EXT {
        skip_atom(buf, pos)
    } else if tag == SMALL_TUPLE_EXT {
        if lacks(buf, pos, 2) {
            return truncated;
        }
        skip_items(buf, pos + 2, buf[pos + 1] as usize)
    } else if tag == LARGE_TUPLE_EXT {
        if lacks(buf, pos, 5) {
            return truncated;
        }
        skip_items(buf, pos + 5, get_be32(buf, pos + 1) as usize)
    } else if tag == NIL_EXT {
        Ok(pos + 1)
    } else if tag == STRING_EXT {
        if lacks(buf, pos, 3) {
            return truncated;
        }
        let n: usize = get_be16(buf, pos + 1) as usize;
        if lacks(buf, pos, 3 + n) {
            return truncated;
        }
        Ok(pos + 3 + n)
    } else if tag == LIST_EXT {
        if lacks(buf, pos, 5) {
            return truncated;
        }
        match skip_items(buf, pos + 5, get_be32(buf, pos + 1) as usize) {
            Ok(mid) => skip_term(buf, mid),
            Err(e) => Err(e),
        }
    } else if tag == MAP_EXT {
        if lacks(buf, pos, 5) {
            return truncated;
        }
        skip_pairs(buf, pos + 5, get_be32(buf, pos + 1) as usize)
    } else if tag == BINARY_EXT {
        if lacks(buf, pos, 5) {
            return truncated;
        }
        let n: usize = get_be32(buf, pos + 1) as usize;
        if lacks(buf, pos + 5, n) {
            return truncated;
        }
        Ok(pos + 5 + n)
    } else if tag == NEW_PID_EXT {
        match skip_atom(buf, pos + 1) {
            Ok(at) => {
                if lacks(buf, at, 12) {
                    return truncated;
                }
                Ok(at + 12)
            },
            Err(e) => Err(e),
        }
    } else if tag == NEW_PORT_EXT {
        match skip_atom(buf, pos + 1) {
            Ok(at) => {
                if lacks(buf, at, 8) {
                    return truncated;
                }
                Ok(at + 8)
            },
            Err(e) => Err(e),
        }
    } else if tag == NEWER_REFERENCE_EXT {
        if lacks(buf, pos, 3) {
            return truncated;
        }
        let n: usize = get_be16(buf, pos + 1) as usize;
        if n < 1 || n > 3 {
            return Err((DecodingError::BadLength, pos));
        }
        match skip_atom(buf, pos + 3) {
            Ok(at) => {
                if lacks(buf, at, 4 + 4 * n) {
                    return truncated;
                }
                Ok(at + 4 + 4 * n)
            },
            Err(e) => Err(e),
        }
    } else if tag == PID_EXT {
        match skip_atom(buf, pos + 1) {
            Ok(at) => {
                if lacks(buf, at, 9) {
                    return truncated;
                }
                Ok(at + 9)
            },
            Err(e) => Err(e),
        }
    } else if tag == PORT_EXT {
        match skip_atom(buf, pos + 1) {
            Ok(at) => {
                if lacks(buf, at, 5) {
                    return truncated;
                }
                Ok(at + 5)
            },
            Err(e) => Err(e),
        }
    } else if tag == NEW_REFERENCE_EXT {
        if lacks(buf, pos, 3) {
            return truncated;
        }
        let n: usize = get_be16(buf, pos + 1) as usize;
        if n < 1 || n > 3 {
            return Err((DecodingError::BadLength, pos));
        }
        match skip_atom(buf, pos + 3) {
            Ok(at) => {
                if lacks(buf, at, 1 + 4 * n) {
                    return truncated;
                }
                Ok(at + 1 + 4 * n)
            },
            Err(e) => Err(e),
        }
    } else if tag == EXPORT_EXT {
        match skip_atom(buf, pos + 1) {
            Ok(at) => match skip_atom(buf, at) {
                Ok(end) => {
                    if lacks(buf, end, 2) {
                        return truncated;
                    }
                    if buf[end] != SMALL_INTEGER_EXT {
                        return Err((DecodingError::UnexpectedTag, end));
                    }
                    Ok(end + 2)
                },
                Err(e) => Err(e),
            },
            Err(e) => Err(e),
        }
    } else {
        Err((DecodingError::UnexpectedTag, pos))
    }
}

/// Moves the cursor over the term at which it stands, the version byte
/// being already consumed, without building the term. The cursor ends where
/// decoding would leave it: behind the term, or at the item that failed.
pub fn skip(buf: &[u8], cursor: &mut usize) -> (r: Result<(), DecodingError>)
    ensures
        match r {
            Ok(()) => end_of(dec(buf@, *old(cursor) as int)) == Ok::<int, (DecodingError, int)>(
                *final(cursor) as int,
            ),
            Err(e) => end_of(dec(buf@, *old(cursor) as int)) == Err::<int, (DecodingError, int)>(
                (e, *final(cursor) as int),
            ),
        },
{
    match skip_term(buf, *cursor) {
        Ok(next) => {
            *cursor = next;
            Ok(())
        },
        Err((e, at)) => {
            *cursor = at;
            Err(e)
        },
    }
}

/// Moves the cursor over the complete term at which it stands, version byte
/// first, without building the term.
pub fn skip_versioned(buf: &[u8], cursor: &mut usize) -> (r: Result<(), DecodingError>)
    ensures
        match r {
            Ok(()) => end_of(dec_versioned(buf@, *old(cursor) as int)) == Ok::<
                int,
                (DecodingError, int),
            >(*final(cursor) as int),
            Err(e) => end_of(dec_versioned(buf@, *old(cursor) as int)) == Err::<
                int,
                (DecodingError, int),
            >((e, *final(cursor) as int)),
        },
{
    if *cursor >= buf.len() {
        return Err(DecodingError::Truncated);
    }
    if buf[*cursor] != VERSION_MAGIC {
        return Err(DecodingError::UnexpectedTag);
    }
    match skip_term(buf, *cursor + 1) {
        Ok(next) => {
            *cursor = next;
            Ok(())
        },
        Err((e, at)) => {
            *cursor = at;
            Err(e)
        },
    }
}

} // verus!
