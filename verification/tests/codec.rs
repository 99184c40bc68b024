use ei_codec::decode::{decode, decode_versioned, skip, skip_versioned, DecodingError};
use ei_codec::encode::{check, encode, encode_versioned};
use ei_codec::encoding::{erlang_char_encoding, ERLANG_ASCII, ERLANG_LATIN1, ERLANG_UTF8};
use ei_codec::buffer::ei_x_buff;
use ei_codec::term::{erlang_fun, erlang_pid, erlang_port, erlang_ref, Atom, EncodingError, Term};

fn latin1(name: &str) -> Atom {
    Atom { name: name.as_bytes().to_vec(), utf8: false }
}

fn utf8(name: &str) -> Atom {
    Atom { name: name.as_bytes().to_vec(), utf8: true }
}

fn bytes_of(t: &Term) -> Vec<u8> {
    let mut buf = Vec::new();
    assert_eq!(encode(t, &mut buf), Ok(()));
    buf
}

fn round_trip(t: Term) {
    let buf = bytes_of(&t);
    let mut cursor = 0usize;
    let back = decode(&buf, &mut cursor);
    assert_eq!(back, Ok(t));
    assert_eq!(cursor, buf.len());
    let mut skipped = 0usize;
    assert_eq!(skip(&buf, &mut skipped), Ok(()));
    assert_eq!(skipped, buf.len());
}

fn sample() -> Term {
    Term::Tuple(vec![
        Term::Atom(latin1("reply")),
        Term::Integer(-70000),
        Term::List(
            vec![Term::Binary(vec![1, 2, 3]), Term::Float(0x3ff8000000000000)],
            Box::new(Term::Nil),
        ),
        Term::Mapping(vec![
            (Term::Atom(utf8("k")), Term::Integer(1 << 40)),
            (Term::Integer(7), Term::Tuple(vec![])),
        ]),
        Term::Pid(erlang_pid { node: latin1("a@host"), num: 38, serial: 2, creation: 3 }),
        Term::Reference(erlang_ref { node: utf8("a@host"), n: vec![9, 8], creation: 1 }),
    ])
}

#[test]
fn small_integer_bytes() {
    assert_eq!(bytes_of(&Term::Integer(0)), vec![97, 0]);
    assert_eq!(bytes_of(&Term::Integer(5)), vec![97, 5]);
    assert_eq!(bytes_of(&Term::Integer(255)), vec![97, 255]);
}

#[test]
fn integer_bytes() {
    assert_eq!(bytes_of(&Term::Integer(256)), vec![98, 0, 0, 1, 0]);
    assert_eq!(bytes_of(&Term::Integer(-1)), vec![98, 255, 255, 255, 255]);
    assert_eq!(bytes_of(&Term::Integer(2147483647)), vec![98, 127, 255, 255, 255]);
    assert_eq!(bytes_of(&Term::Integer(-2147483648)), vec![98, 128, 0, 0, 0]);
}

#[test]
fn wide_integer_bytes() {
    assert_eq!(bytes_of(&Term::Integer(1 << 40)), vec![110, 8, 0, 0, 0, 0, 0, 0, 1, 0, 0]);
    assert_eq!(
        bytes_of(&Term::Integer(-2147483649)),
        vec![110, 8, 1, 1, 0, 0, 128, 0, 0, 0, 0]
    );
    assert_eq!(
        bytes_of(&Term::Integer(i64::MIN)),
        vec![110, 8, 1, 0, 0, 0, 0, 0, 0, 0, 128]
    );
}

#[test]
fn float_bits_survive() {
    for x in [0.0f64, -0.0, 1.5, -2.25e300, f64::INFINITY, f64::MIN_POSITIVE] {
        let buf = bytes_of(&Term::Float(x.to_bits()));
        let mut cursor = 0usize;
        match decode(&buf, &mut cursor) {
            Ok(Term::Float(bits)) => assert_eq!(f64::from_bits(bits).to_bits(), x.to_bits()),
            other => panic!("no float: {:?}", other),
        }
    }
}

#[test]
fn float_bytes() {
    assert_eq!(
        bytes_of(&Term::Float(0x3ff0000000000000)),
        vec![70, 63, 240, 0, 0, 0, 0, 0, 0]
    );
}

#[test]
fn atom_bytes() {
    assert_eq!(bytes_of(&Term::Atom(latin1("ok"))), vec![115, 2, 111, 107]);
    assert_eq!(bytes_of(&Term::Atom(utf8("ok"))), vec![119, 2, 111, 107]);
    let long = Atom { name: vec![b'x'; 300], utf8: true };
    let buf = bytes_of(&Term::Atom(long));
    assert_eq!(&buf[..3], &[118, 1, 44]);
    assert_eq!(buf.len(), 303);
}

#[test]
fn container_bytes() {
    assert_eq!(
        bytes_of(&Term::Tuple(vec![Term::Integer(1), Term::Integer(2)])),
        vec![104, 2, 97, 1, 97, 2]
    );
    assert_eq!(bytes_of(&Term::Nil), vec![106]);
    assert_eq!(
        bytes_of(&Term::List(vec![Term::Integer(1)], Box::new(Term::Nil))),
        vec![108, 0, 0, 0, 1, 97, 1, 106]
    );
    assert_eq!(
        bytes_of(&Term::List(vec![Term::Integer(1)], Box::new(Term::Integer(2)))),
        vec![108, 0, 0, 0, 1, 97, 1, 97, 2]
    );
    assert_eq!(bytes_of(&Term::Binary(vec![9, 8])), vec![109, 0, 0, 0, 2, 9, 8]);
    assert_eq!(
        bytes_of(&Term::Mapping(vec![(Term::Integer(1), Term::Nil)])),
        vec![116, 0, 0, 0, 1, 97, 1, 106]
    );
}

#[test]
fn large_tuple_bytes() {
    let items: Vec<Term> = (0..256).map(|_| Term::Nil).collect();
    let buf = bytes_of(&Term::Tuple(items));
    assert_eq!(&buf[..5], &[105, 0, 0, 1, 0]);
    assert_eq!(buf.len(), 5 + 256);
}

#[test]
fn identifier_bytes() {
    let pid = Term::Pid(erlang_pid { node: latin1("a"), num: 1, serial: 2, creation: 3 });
    assert_eq!(
        bytes_of(&pid),
        vec![88, 115, 1, 97, 0, 0, 0, 1, 0, 0, 0, 2, 0, 0, 0, 3]
    );
    let port = Term::Port(erlang_port { node: latin1("a"), id: 258, creation: 3 });
    assert_eq!(bytes_of(&port), vec![89, 115, 1, 97, 0, 0, 1, 2, 0, 0, 0, 3]);
    let reference =
        Term::Reference(erlang_ref { node: latin1("a"), n: vec![5, 6], creation: 7 });
    assert_eq!(
        bytes_of(&reference),
        vec![90, 0, 2, 115, 1, 97, 0, 0, 0, 7, 0, 0, 0, 5, 0, 0, 0, 6]
    );
}

#[test]
fn big_integer_bytes() {
    let big = Term::BigInteger { negative: true, digits: vec![0, 0, 0, 0, 0, 0, 0, 0, 1] };
    assert_eq!(bytes_of(&big), vec![110, 9, 1, 0, 0, 0, 0, 0, 0, 0, 0, 1]);
}

#[test]
fn versioned_bytes() {
    let mut buf = vec![7u8];
    assert_eq!(encode_versioned(&Term::Integer(5), &mut buf), Ok(()));
    assert_eq!(buf, vec![7, 131, 97, 5]);
    let mut cursor = 1usize;
    assert_eq!(decode_versioned(&buf, &mut cursor), Ok(Term::Integer(5)));
    assert_eq!(cursor, 4);
    let mut skipped = 1usize;
    assert_eq!(skip_versioned(&buf, &mut skipped), Ok(()));
    assert_eq!(skipped, 4);
}

#[test]
fn versioned_needs_version_byte() {
    let buf = vec![97u8, 5];
    let mut cursor = 0usize;
    assert_eq!(decode_versioned(&buf, &mut cursor), Err(DecodingError::UnexpectedTag));
    assert_eq!(cursor, 0);
    let mut at_end = 2usize;
    assert_eq!(decode_versioned(&buf, &mut at_end), Err(DecodingError::Truncated));
}

#[test]
fn round_trip_every_variant() {
    round_trip(Term::Integer(0));
    round_trip(Term::Integer(255));
    round_trip(Term::Integer(256));
    round_trip(Term::Integer(-1));
    round_trip(Term::Integer(i64::MAX));
    round_trip(Term::Integer(i64::MIN));
    round_trip(Term::Integer(2147483648));
    round_trip(Term::BigInteger { negative: false, digits: vec![0, 0, 0, 0, 0, 0, 0, 128] });
    round_trip(Term::BigInteger { negative: true, digits: vec![1, 0, 0, 0, 0, 0, 0, 128] });
    round_trip(Term::BigInteger { negative: false, digits: vec![7; 300] });
    round_trip(Term::Float(0x3ff8000000000000));
    round_trip(Term::Float(0xfff0000000000000));
    round_trip(Term::Atom(latin1("")));
    round_trip(Term::Atom(latin1("node")));
    round_trip(Term::Atom(utf8("\u{3b1}\u{3b2}")));
    round_trip(Term::Atom(Atom { name: vec![b'y'; 1020], utf8: true }));
    round_trip(Term::Pid(erlang_pid { node: latin1("a@host"), num: 1, serial: 2, creation: 3 }));
    round_trip(Term::Port(erlang_port { node: utf8("a@host"), id: 1, creation: u32::MAX }));
    round_trip(Term::Reference(erlang_ref { node: latin1("n"), n: vec![1], creation: 0 }));
    round_trip(Term::Reference(erlang_ref { node: latin1("n"), n: vec![1, 2, 3], creation: 9 }));
    round_trip(sample());
}

#[test]
fn round_trip_empty_containers() {
    round_trip(Term::Nil);
    round_trip(Term::Tuple(vec![]));
    round_trip(Term::Mapping(vec![]));
    round_trip(Term::Binary(vec![]));
    round_trip(Term::List(vec![], Box::new(Term::Nil)));
}

#[test]
fn atom_length_boundary() {
    let mut buf = Vec::new();
    let fits = Term::Atom(Atom { name: vec![b'a'; 255], utf8: false });
    assert_eq!(encode(&fits, &mut buf), Ok(()));
    assert_eq!(buf.len(), 257);
    let too_long = Term::Atom(Atom { name: vec![b'a'; 256], utf8: false });
    assert_eq!(encode(&too_long, &mut buf), Err(EncodingError::NameTooLong));
    assert_eq!(buf.len(), 257);
    assert_eq!(check(&too_long), Err(EncodingError::NameTooLong));
}

#[test]
fn utf8_atom_length_boundary() {
    let mut buf = Vec::new();
    let fits = Term::Atom(Atom { name: vec![b'a'; 1020], utf8: true });
    assert_eq!(encode(&fits, &mut buf), Ok(()));
    let too_long = Term::Atom(Atom { name: vec![b'a'; 1021], utf8: true });
    assert_eq!(encode(&too_long, &mut buf), Err(EncodingError::NameTooLong));
}

#[test]
fn nested_error_leaves_buffer() {
    let bad = Term::Tuple(vec![
        Term::Integer(1),
        Term::Pid(erlang_pid {
            node: Atom { name: vec![b'a'; 256], utf8: false },
            num: 0,
            serial: 0,
            creation: 0,
        }),
    ]);
    let mut buf = vec![1u8, 2, 3];
    assert_eq!(encode(&bad, &mut buf), Err(EncodingError::NameTooLong));
    assert_eq!(buf, vec![1, 2, 3]);
    let mut versioned = vec![1u8];
    assert_eq!(encode_versioned(&bad, &mut versioned), Err(EncodingError::NameTooLong));
    assert_eq!(versioned, vec![1]);
}

#[test]
fn unrepresentable_values() {
    let mut buf = Vec::new();
    let small = Term::BigInteger { negative: false, digits: vec![5, 0, 0] };
    assert_eq!(encode(&small, &mut buf), Err(EncodingError::Unrepresentable));
    let no_words = Term::Reference(erlang_ref { node: latin1("n"), n: vec![], creation: 0 });
    assert_eq!(encode(&no_words, &mut buf), Err(EncodingError::Unrepresentable));
    let four = Term::Reference(erlang_ref { node: latin1("n"), n: vec![1, 2, 3, 4], creation: 0 });
    assert_eq!(encode(&four, &mut buf), Err(EncodingError::Unrepresentable));
    assert!(buf.is_empty());
}

#[test]
fn truncation_at_every_offset() {
    let whole = bytes_of(&sample());
    for k in 0..whole.len() {
        let mut cursor = 0usize;
        assert_eq!(decode(&whole[..k], &mut cursor), Err(DecodingError::Truncated), "at {}", k);
        let mut skipped = 0usize;
        assert_eq!(skip(&whole[..k], &mut skipped), Err(DecodingError::Truncated));
        assert_eq!(skipped, cursor);
    }
    let mut versioned = Vec::new();
    assert_eq!(encode_versioned(&sample(), &mut versioned), Ok(()));
    for k in 0..versioned.len() {
        let mut cursor = 0usize;
        assert_eq!(decode_versioned(&versioned[..k], &mut cursor), Err(DecodingError::Truncated));
    }
}

#[test]
fn map_order_is_kept() {
    let map = Term::Mapping(vec![
        (Term::Atom(latin1("k2")), Term::Integer(2)),
        (Term::Atom(latin1("k1")), Term::Integer(1)),
    ]);
    let buf = bytes_of(&map);
    let mut cursor = 0usize;
    match decode(&buf, &mut cursor) {
        Ok(Term::Mapping(pairs)) => {
            assert_eq!(pairs.len(), 2);
            assert_eq!(pairs[0], (Term::Atom(latin1("k2")), Term::Integer(2)));
            assert_eq!(pairs[1], (Term::Atom(latin1("k1")), Term::Integer(1)));
        }
        other => panic!("no map: {:?}", other),
    }
}

#[test]
fn wide_tags_hold_small_numbers() {
    let mut cursor = 0usize;
    assert_eq!(decode(&[110, 1, 0, 5], &mut cursor), Ok(Term::Integer(5)));
    assert_eq!(cursor, 4);
    cursor = 0;
    assert_eq!(decode(&[111, 0, 0, 0, 1, 1, 5], &mut cursor), Ok(Term::Integer(-5)));
    assert_eq!(cursor, 7);
    cursor = 0;
    assert_eq!(decode(&[98, 0, 0, 0, 5], &mut cursor), Ok(Term::Integer(5)));
    cursor = 0;
    assert_eq!(
        decode(&[110, 10, 0, 0, 1, 0, 0, 0, 0, 0, 0, 0, 0], &mut cursor),
        Ok(Term::Integer(256))
    );
    cursor = 0;
    assert_eq!(decode(&[110, 0, 1], &mut cursor), Ok(Term::Integer(0)));
    cursor = 0;
    assert_eq!(
        decode(&[110, 8, 1, 0, 0, 0, 0, 0, 0, 0, 128], &mut cursor),
        Ok(Term::Integer(i64::MIN))
    );
    cursor = 0;
    assert_eq!(
        decode(&[110, 8, 0, 0, 0, 0, 0, 0, 0, 0, 128], &mut cursor),
        Ok(Term::BigInteger { negative: false, digits: vec![0, 0, 0, 0, 0, 0, 0, 128] })
    );
}

#[test]
fn old_atom_tag_is_accepted() {
    let mut cursor = 0usize;
    assert_eq!(decode(&[100, 0, 2, 111, 107], &mut cursor), Ok(Term::Atom(latin1("ok"))));
    assert_eq!(cursor, 5);
}

#[test]
fn string_is_a_list_of_bytes() {
    let mut cursor = 0usize;
    assert_eq!(
        decode(&[107, 0, 2, 104, 105], &mut cursor),
        Ok(Term::List(vec![Term::Integer(104), Term::Integer(105)], Box::new(Term::Nil)))
    );
    assert_eq!(cursor, 5);
}

#[test]
fn unexpected_tag() {
    let mut cursor = 0usize;
    assert_eq!(decode(&[200, 1, 2], &mut cursor), Err(DecodingError::UnexpectedTag));
    assert_eq!(cursor, 0);
    let nested = [104u8, 2, 97, 1, 1, 0];
    assert_eq!(decode(&nested, &mut cursor), Err(DecodingError::UnexpectedTag));
    assert_eq!(cursor, 4);
    let mut skipped = 0usize;
    assert_eq!(skip(&nested, &mut skipped), Err(DecodingError::UnexpectedTag));
    assert_eq!(skipped, 4);
}

#[test]
fn bad_length() {
    let mut long_atom = vec![100u8, 1, 0];
    long_atom.extend(vec![b'a'; 256]);
    let mut cursor = 0usize;
    assert_eq!(decode(&long_atom, &mut cursor), Err(DecodingError::BadLength));
    assert_eq!(cursor, 0);
    cursor = 0;
    assert_eq!(
        decode(&[90, 0, 4, 115, 1, 97, 0, 0, 0, 0], &mut cursor),
        Err(DecodingError::BadLength)
    );
    cursor = 0;
    assert_eq!(decode(&[90, 0, 0, 115, 1, 97], &mut cursor), Err(DecodingError::BadLength));
}

#[test]
fn truncated_leaves_cursor_at_the_item() {
    let buf = [104u8, 2, 97, 1, 109, 0, 0, 0, 9, 1];
    let mut cursor = 0usize;
    assert_eq!(decode(&buf, &mut cursor), Err(DecodingError::Truncated));
    assert_eq!(cursor, 4);
    let mut beyond = 50usize;
    assert_eq!(decode(&buf, &mut beyond), Err(DecodingError::Truncated));
    assert_eq!(beyond, 50);
}

#[test]
fn terms_back_to_back() {
    let mut buf = Vec::new();
    assert_eq!(encode(&Term::Integer(1), &mut buf), Ok(()));
    assert_eq!(encode(&Term::Atom(latin1("x")), &mut buf), Ok(()));
    assert_eq!(encode(&Term::Nil, &mut buf), Ok(()));
    let mut cursor = 0usize;
    assert_eq!(decode(&buf, &mut cursor), Ok(Term::Integer(1)));
    assert_eq!(cursor, 2);
    assert_eq!(skip(&buf, &mut cursor), Ok(()));
    assert_eq!(cursor, 5);
    assert_eq!(decode(&buf, &mut cursor), Ok(Term::Nil));
    assert_eq!(cursor, 6);
    assert_eq!(decode(&buf, &mut cursor), Err(DecodingError::Truncated));
}

#[test]
fn checked_atom_constructor() {
    let ascii = erlang_char_encoding(ERLANG_ASCII);
    let l1 = erlang_char_encoding(ERLANG_LATIN1);
    let u8s = erlang_char_encoding(ERLANG_UTF8);
    assert_eq!(Atom::new(b"ok".to_vec(), ascii), Ok(latin1("ok")));
    assert_eq!(Atom::new(vec![0xe9], ascii), Err(EncodingError::Unrepresentable));
    assert_eq!(Atom::new(vec![0xe9], l1), Ok(Atom { name: vec![0xe9], utf8: false }));
    assert_eq!(Atom::new(vec![b'a'; 255], l1).map(|a| a.name.len()), Ok(255));
    assert_eq!(Atom::new(vec![b'a'; 256], l1), Err(EncodingError::NameTooLong));
    assert_eq!(Atom::new(vec![b'a'; 256], ascii), Err(EncodingError::NameTooLong));
    assert_eq!(Atom::new(vec![b'a'; 1020], u8s).map(|a| a.utf8), Ok(true));
    assert_eq!(Atom::new(vec![b'a'; 1021], u8s), Err(EncodingError::NameTooLong));
    assert_eq!(Atom::new(b"ok".to_vec(), l1 | u8s), Err(EncodingError::Unrepresentable));
    assert_eq!(Atom::new(b"ok".to_vec(), erlang_char_encoding(0)), Err(EncodingError::Unrepresentable));
    assert_eq!(latin1("x").encoding(), l1);
    assert_eq!(utf8("x").encoding(), u8s);
}

#[test]
fn encoding_sets() {
    let ascii = erlang_char_encoding::ascii();
    let l1 = erlang_char_encoding::latin1();
    let u8s = erlang_char_encoding::utf8();
    assert_eq!(ascii, erlang_char_encoding(1));
    assert_eq!(l1, erlang_char_encoding(2));
    assert_eq!(u8s, erlang_char_encoding(4));
    assert_eq!(ascii | l1, erlang_char_encoding(3));
    assert_eq!((ascii | l1) & l1, l1);
    assert_eq!(ascii & u8s, erlang_char_encoding(0));
    let mut set = ascii;
    set |= u8s;
    assert_eq!(set, erlang_char_encoding(5));
    set &= u8s;
    assert_eq!(set, u8s);
    assert!((ascii | l1).contains(l1));
    assert!(!(ascii | l1).contains(u8s));
}

#[test]
fn exported_function() {
    let f = Term::Fun(erlang_fun { module: latin1("lists"), function: utf8("map"), arity: 2 });
    assert_eq!(
        bytes_of(&f),
        vec![113, 115, 5, 108, 105, 115, 116, 115, 119, 3, 109, 97, 112, 97, 2]
    );
    round_trip(f);
    let mut cursor = 0usize;
    assert_eq!(
        decode(&[113, 115, 1, 97, 115, 1, 98, 98, 0], &mut cursor),
        Err(DecodingError::UnexpectedTag)
    );
    assert_eq!(cursor, 7);
    let long = Term::Fun(erlang_fun {
        module: latin1("m"),
        function: Atom { name: vec![b'f'; 256], utf8: false },
        arity: 0,
    });
    assert_eq!(check(&long), Err(EncodingError::NameTooLong));
}

#[test]
fn buffer_with_cursor() {
    let mut x = ei_x_buff::new_with_version();
    assert_eq!(x.encode(&Term::Integer(5)), Ok(()));
    assert_eq!(x.encode(&Term::Nil), Ok(()));
    assert_eq!(x.buff, vec![131, 97, 5, 106]);
    assert_eq!(x.index, 4);
    x.index = 1;
    assert_eq!(x.decode(), Ok(Term::Integer(5)));
    assert_eq!(x.index, 3);
    assert_eq!(x.skip(), Ok(()));
    assert_eq!(x.index, 4);
    assert_eq!(x.decode(), Err(DecodingError::Truncated));
    assert_eq!(x.index, 4);
    x.index = 3;
    assert_eq!(x.encode(&Term::Atom(latin1("a"))), Ok(()));
    assert_eq!(x.buff, vec![131, 97, 5, 115, 1, 97]);
    assert_eq!(x.index, 6);
    let before = x.clone();
    assert_eq!(
        x.encode(&Term::Atom(Atom { name: vec![0; 256], utf8: false })),
        Err(EncodingError::NameTooLong)
    );
    assert_eq!(x, before);
    x.index = 7;
    assert_eq!(x.encode(&Term::Nil), Err(EncodingError::Unrepresentable));
    let mut received = ei_x_buff::from_bytes(vec![200]);
    assert_eq!(received.skip(), Err(DecodingError::UnexpectedTag));
    assert_eq!(received.index, 0);
    assert_eq!(ei_x_buff::new(), ei_x_buff { buff: vec![], index: 0 });
}

#[test]
fn builders() {
    assert_eq!(Term::proper_list(vec![]), Term::Nil);
    assert_eq!(
        Term::proper_list(vec![Term::Integer(1), Term::Nil]),
        Term::List(vec![Term::Integer(1), Term::Nil], Box::new(Term::Nil))
    );
    assert_eq!(
        Term::atom(b"ok".to_vec(), erlang_char_encoding(ERLANG_UTF8)),
        Ok(Term::Atom(utf8("ok")))
    );
    assert_eq!(
        Term::atom(vec![b'a'; 256], erlang_char_encoding(ERLANG_LATIN1)),
        Err(EncodingError::NameTooLong)
    );
}

#[test]
fn identifiers_of_older_nodes() {
    let mut cursor = 0usize;
    assert_eq!(
        decode(&[103, 115, 1, 97, 0, 0, 0, 1, 0, 0, 0, 2, 3], &mut cursor),
        Ok(Term::Pid(erlang_pid { node: latin1("a"), num: 1, serial: 2, creation: 3 }))
    );
    assert_eq!(cursor, 13);
    cursor = 0;
    assert_eq!(
        decode(&[102, 115, 1, 97, 0, 0, 1, 2, 3], &mut cursor),
        Ok(Term::Port(erlang_port { node: latin1("a"), id: 258, creation: 3 }))
    );
    assert_eq!(cursor, 9);
    cursor = 0;
    let reference = [114u8, 0, 2, 115, 1, 97, 7, 0, 0, 0, 5, 0, 0, 0, 6];
    assert_eq!(
        decode(&reference, &mut cursor),
        Ok(Term::Reference(erlang_ref { node: latin1("a"), n: vec![5, 6], creation: 7 }))
    );
    assert_eq!(cursor, 15);
    let mut skipped = 0usize;
    assert_eq!(skip(&reference, &mut skipped), Ok(()));
    assert_eq!(skipped, 15);
    cursor = 0;
    assert_eq!(decode(&reference[..14], &mut cursor), Err(DecodingError::Truncated));
    cursor = 0;
    assert_eq!(
        decode(&[103, 115, 1, 97, 0, 0, 0, 1, 0, 0, 0, 2], &mut cursor),
        Err(DecodingError::Truncated)
    );
    cursor = 0;
    assert_eq!(decode(&[114, 0, 4, 115, 1, 97, 7], &mut cursor), Err(DecodingError::BadLength));
}
