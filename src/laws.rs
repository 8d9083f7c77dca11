use vstd::prelude::*;
use vstd::utf8::{
    encode_scalar, encode_utf8, encode_utf8_decode_utf8, encode_utf8_valid_utf8, is_scalar,
    last_continuation_byte, leading_byte_width_1, leading_byte_width_2, leading_byte_width_3,
    leading_byte_width_4, second_last_continuation_byte, third_last_continuation_byte,
};

use crate::error::Error;
use crate::grammar::{
    decode_all,
    enc, enc_entries, enc_entry, enc_items, find, framed, item_step, key_step, lemma_le_to_le,
    lemma_radix_values, lemma_to_le_len, parse, parse_entries, parse_items, parse_run, to_le,
    value_step,
};
use crate::wire::{
    in_range, item_shape, kind_width, radix, ListShape, Shape, Val, BYTE_DELIMITER, MAP_DELIMITER,
    MAP_KEY_DELIMITER, MAP_VALUE_DELIMITER, MAP_VALUE_SEPARATOR, SEQ_DELIMITER, SEQ_VALUE_DELIMITER,
    STRING_DELIMITER, UNIT,
};

verus! {

/// Every byte of the UTF-8 form of one scalar is at most 0xF7.
proof fn lemma_scalar_bytes_low(c: u32)
    ensures
        forall|i: int| 0 <= i < encode_scalar(c).len() ==> #[trigger] encode_scalar(c)[i] <= 0xF7,
{
    assert(leading_byte_width_1(c) <= 0x7F) by (bit_vector);
    assert(leading_byte_width_2(c) <= 0xDF) by (bit_vector);
    assert(leading_byte_width_3(c) <= 0xEF) by (bit_vector);
    assert(leading_byte_width_4(c) <= 0xF7) by (bit_vector);
    assert(last_continuation_byte(c) <= 0xBF) by (bit_vector);
    assert(second_last_continuation_byte(c) <= 0xBF) by (bit_vector);
    assert(third_last_continuation_byte(c) <= 0xBF) by (bit_vector);
}

/// UTF-8 never holds the string delimiter, so a string needs no escaping.
pub proof fn lemma_utf8_has_no_string_delimiter(cs: Seq<char>)
    ensures
        !encode_utf8(cs).contains(STRING_DELIMITER),
    decreases cs.len(),
{
    if cs.len() > 0 {
        let head = encode_scalar(cs[0] as u32);
        let tail = encode_utf8(cs.drop_first());
        lemma_scalar_bytes_low(cs[0] as u32);
        lemma_utf8_has_no_string_delimiter(cs.drop_first());
        assert(encode_utf8(cs) == head + tail);
        if encode_utf8(cs).contains(STRING_DELIMITER) {
            let k = choose|k: int|
                0 <= k < encode_utf8(cs).len() && #[trigger] encode_utf8(cs)[k] == STRING_DELIMITER;
            if k < head.len() {
                assert(head[k] <= 0xF7);
            } else {
                assert(tail[k - head.len()] == STRING_DELIMITER);
            }
        }
    }
}

/// `v` has shape `sh`, and its encoding can be read back unambiguously: no
/// byte buffer holds the byte delimiter, a present optional does not start
/// with the `UNIT` byte, and the first item of a sequence does not start with
/// the sequence delimiter. (Strings are never ambiguous: see
/// `lemma_utf8_has_no_string_delimiter`.)
pub open spec fn fits(v: Val, sh: Shape) -> bool
    decreases v,
{
    match sh {
        Shape::Bool => v is Bool,
        Shape::Int(k) => match v {
            Val::Int(k2, n) => k2 == k && n < radix(kind_width(k)),
            _ => false,
        },
        Shape::Char => match v {
            Val::Char(c) => c < radix(4) && is_scalar(c as u32),
            _ => false,
        },
        Shape::Str => v is Str,
        Shape::Bytes => match v {
            Val::Bytes(b) => !b.contains(BYTE_DELIMITER),
            _ => false,
        },
        Shape::Unit => v is Unit,
        Shape::Opt(t) => match v {
            Val::Opt(None) => true,
            Val::Opt(Some(x)) => fits(*x, *t) && enc(*x)[0] != UNIT,
            _ => false,
        },
        Shape::Sequence(ls) => match v {
            Val::Sequence(xs) => items_fit(xs, ls, 0) && (xs.len() > 0 ==> enc(xs[0])[0]
                != SEQ_DELIMITER),
            _ => false,
        },
        Shape::Mapping(ks, ls) => match v {
            Val::Mapping(es) => entries_fit(es, *ks, ls, 0),
            _ => false,
        },
        Shape::Enum(vs) => match v {
            Val::Enum(i, p) => i < vs@.len() && i < radix(4) && match (vs@[i as int], p) {
                (None, None) => true,
                (Some(ps), Some(x)) => fits(*x, ps),
                _ => false,
            },
            _ => false,
        },
    }
}

/// The items `xs`, from position `i` on, fit the list shape `ls`; a fixed
/// list is filled exactly.
pub open spec fn items_fit(xs: Seq<Val>, ls: ListShape, i: nat) -> bool
    decreases xs,
{
    if xs.len() == 0 {
        !(ls is Fixed && in_range(ls, i))
    } else {
        in_range(ls, i) && fits(xs[0], item_shape(ls, i)) && items_fit(xs.drop_first(), ls, i + 1)
    }
}

/// The entries `es`, from position `i` on, have keys of shape `ks` and
/// values that fit `ls`; a fixed list is filled exactly.
pub open spec fn entries_fit(es: Seq<(Val, Val)>, ks: Shape, ls: ListShape, i: nat) -> bool
    decreases es,
{
    if es.len() == 0 {
        !(ls is Fixed && in_range(ls, i))
    } else {
        in_range(ls, i) && fits(es[0].0, ks) && fits(es[0].1, item_shape(ls, i)) && entries_fit(
            es.drop_first(),
            ks,
            ls,
            i + 1,
        )
    }
}

proof fn lemma_enc_nonempty(v: Val)
    ensures
        enc(v).len() >= 1,
    decreases v,
{
    match v {
        Val::Int(k, n) => lemma_to_le_len(n, kind_width(k)),
        Val::Char(c) => lemma_to_le_len(c, 4),
        Val::Opt(Some(x)) => lemma_enc_nonempty(*x),
        Val::Enum(i, p) => lemma_to_le_len(i, 4),
        _ => {},
    }
}

/// A payload without `d`, then `d`: the first `d` is right after the payload.
proof fn lemma_find_after(p: Seq<u8>, d: u8, r: Seq<u8>)
    requires
        !p.contains(d),
    ensures
        find(p + seq![d] + r, d) == Some(p.len()),
    decreases p.len(),
{
    let s = p + seq![d] + r;
    if p.len() == 0 {
        assert(s[0] == d);
    } else {
        assert(s[0] == p[0]);
        assert(!p.drop_first().contains(d)) by {
            if p.drop_first().contains(d) {
                let k = choose|k: int| 0 <= k < p.drop_first().len() && p.drop_first()[k] == d;
                assert(p[k + 1] == d);
            }
        }
        assert(p[0] != d) by {
            if p[0] == d {
                assert(p.contains(d));
            }
        }
        assert(s.drop_first() =~= p.drop_first() + seq![d] + r);
        lemma_find_after(p.drop_first(), d, r);
    }
}

/// A framed run followed by anything reads back as its payload.
proof fn lemma_run(d: u8, p: Seq<u8>, rest: Seq<u8>)
    requires
        !p.contains(d),
    ensures
        parse_run(framed(d, p) + rest, d) == Some((p, p.len() + 2)),
{
    let s = framed(d, p) + rest;
    assert(s.drop_first() =~= p + seq![d] + rest);
    lemma_find_after(p, d, rest);
    assert(s.subrange(1, p.len() + 1 as int) =~= p);
}

/// Decoding the encoding of a fitting value, whatever follows it, gives the
/// value back and consumes exactly its encoding.
pub proof fn lemma_round_trip(v: Val, sh: Shape, rest: Seq<u8>)
    requires
        fits(v, sh),
    ensures
        parse(sh, enc(v) + rest) == Ok::<(Val, nat), Error>((v, enc(v).len())),
    decreases v,
{
    let s = enc(v) + rest;
    lemma_radix_values();
    match sh {
        Shape::Bool => {},
        Shape::Int(k) => {
            let n = v->Int_1;
            lemma_to_le_len(n, kind_width(k));
            lemma_le_to_le(n, kind_width(k));
            assert(s.take(kind_width(k) as int) =~= enc(v));
        },
        Shape::Char => {
            let c = v->Char_0;
            lemma_to_le_len(c, 4);
            lemma_le_to_le(c, 4);
            assert(s.take(4) =~= enc(v));
        },
        Shape::Str => {
            let cs = v->Str_0;
            lemma_utf8_has_no_string_delimiter(cs);
            lemma_run(STRING_DELIMITER, encode_utf8(cs), rest);
            encode_utf8_valid_utf8(cs);
            encode_utf8_decode_utf8(cs);
        },
        Shape::Bytes => {
            lemma_run(BYTE_DELIMITER, v->Bytes_0, rest);
        },
        Shape::Unit => {},
        Shape::Opt(t) => {
            if let Val::Opt(Some(x)) = v {
                lemma_enc_nonempty(*x);
                lemma_round_trip(*x, *t, rest);
            }
        },
        Shape::Sequence(ls) => {
            let xs = v->Sequence_0;
            let e = enc_items(xs, true);
            assert(s.drop_first() =~= e + (seq![SEQ_DELIMITER] + rest));
            lemma_round_trip_items(xs, ls, 0, seq![SEQ_DELIMITER] + rest);
            assert(s[e.len() + 1 as int] == SEQ_DELIMITER);
        },
        Shape::Mapping(ks, ls) => {
            let es = v->Mapping_0;
            let e = enc_entries(es, true);
            assert(s.drop_first() =~= e + (seq![MAP_DELIMITER] + rest));
            lemma_round_trip_entries(es, *ks, ls, 0, seq![MAP_DELIMITER] + rest);
            assert(s[e.len() + 1 as int] == MAP_DELIMITER);
        },
        Shape::Enum(vs) => {
            let i = v->Enum_0;
            lemma_to_le_len(i, 4);
            lemma_le_to_le(i, 4);
            assert(s.subrange(1, 5) =~= to_le(i, 4));
            if let Some(x) = v->Enum_1 {
                let p = vs@[i as int]->Some_0;
                assert(s.skip(5) =~= enc(*x) + rest);
                lemma_round_trip(*x, p, rest);
            }
        },
    }
}

#[verifier::rlimit(100)]
proof fn lemma_round_trip_items(xs: Seq<Val>, ls: ListShape, i: nat, tail: Seq<u8>)
    requires
        items_fit(xs, ls, i),
        tail.len() > 0 && (tail[0] == SEQ_DELIMITER || ls is Fixed),
        i == 0 && xs.len() > 0 ==> enc(xs[0])[0] != SEQ_DELIMITER,
    ensures
        parse_items(ls, enc_items(xs, i == 0) + tail, i) == Ok::<(Seq<Val>, nat), Error>(
            (xs, enc_items(xs, i == 0).len()),
        ),
    decreases xs,
{
    let e = enc_items(xs, i == 0);
    let s = e + tail;
    if xs.len() == 0 {
        assert(s =~= tail);
        assert(xs =~= Seq::<Val>::empty());
        assert(e.len() == 0);
        if in_range(ls, i) {
            assert(s[0] == SEQ_DELIMITER);
            assert(item_step(item_shape(ls, i), s, i == 0) == Ok::<Option<(Val, nat)>, Error>(None));
            assert(!(ls is Fixed));
        }
    } else {
        let x = xs[0];
        let sh = item_shape(ls, i);
        let more = enc_items(xs.drop_first(), false);
        let sep = if i == 0 { Seq::<u8>::empty() } else { seq![SEQ_VALUE_DELIMITER] };
        assert(e == sep + enc(x) + more);
        lemma_enc_nonempty(x);
        if i == 0 {
            assert(s =~= enc(x) + (more + tail));
            lemma_round_trip(x, sh, more + tail);
        } else {
            assert(s.drop_first() =~= enc(x) + (more + tail));
            lemma_round_trip(x, sh, more + tail);
        }
        let n = sep.len() + enc(x).len();
        assert(item_step(sh, s, i == 0) == Ok::<Option<(Val, nat)>, Error>(Some((x, n as nat))));
        assert(s.skip(n as int) =~= more + tail);
        lemma_round_trip_items(xs.drop_first(), ls, i + 1, tail);
        assert(in_range(ls, i));
        assert(0 < n <= s.len());
        assert(parse_items(ls, s.skip(n as int), i + 1) == Ok::<(Seq<Val>, nat), Error>(
            (xs.drop_first(), more.len()),
        ));
        assert(n + more.len() == e.len());
        assert(parse_items(ls, s, i) == Ok::<(Seq<Val>, nat), Error>(
            (seq![x] + xs.drop_first(), (n + more.len()) as nat),
        ));
        assert(seq![x] + xs.drop_first() =~= xs);
    }
}

/// A framed key, after its separator when it is not the first, reads back
/// once the key itself does.
#[verifier::rlimit(100)]
proof fn lemma_key_read(k: Val, ks: Shape, first: bool, after: Seq<u8>)
    requires
        parse(ks, enc(k) + (seq![MAP_KEY_DELIMITER] + after)) == Ok::<(Val, nat), Error>(
            (k, enc(k).len()),
        ),
    ensures
        ({
            let sep = if first { Seq::<u8>::empty() } else { seq![MAP_VALUE_SEPARATOR] };
            let s = sep + framed(MAP_KEY_DELIMITER, enc(k)) + after;
            key_step(ks, s, first) == Ok::<Option<(Val, nat)>, Error>(
                Some((k, sep.len() + enc(k).len() + 2)),
            )
        }),
{
    let sep = if first { Seq::<u8>::empty() } else { seq![MAP_VALUE_SEPARATOR] };
    let s = sep + framed(MAP_KEY_DELIMITER, enc(k)) + after;
    let o = sep.len() as int;
    assert(s =~= sep + seq![MAP_KEY_DELIMITER] + enc(k) + (seq![MAP_KEY_DELIMITER] + after));
    assert(s.skip(o + 1) =~= enc(k) + (seq![MAP_KEY_DELIMITER] + after));
    assert(s[o] == MAP_KEY_DELIMITER);
    assert(s[o + enc(k).len() + 1] == MAP_KEY_DELIMITER);
}

/// A framed value reads back once the value itself does.
#[verifier::rlimit(100)]
proof fn lemma_value_read(v: Val, vsh: Shape, after: Seq<u8>)
    requires
        parse(vsh, enc(v) + (seq![MAP_VALUE_DELIMITER] + after)) == Ok::<(Val, nat), Error>(
            (v, enc(v).len()),
        ),
    ensures
        value_step(vsh, framed(MAP_VALUE_DELIMITER, enc(v)) + after) == Ok::<(Val, nat), Error>(
            (v, enc(v).len() + 2),
        ),
        (framed(MAP_VALUE_DELIMITER, enc(v)) + after).skip(enc(v).len() + 2 as int) == after,
{
    let s = framed(MAP_VALUE_DELIMITER, enc(v)) + after;
    assert(s.drop_first() =~= enc(v) + (seq![MAP_VALUE_DELIMITER] + after));
    assert(s[enc(v).len() + 1 as int] == MAP_VALUE_DELIMITER);
    assert(s.skip(enc(v).len() + 2 as int) =~= after);
}

/// One entry, after its separator when it is not the first, reads back.
#[verifier::rlimit(100)]
proof fn lemma_round_trip_entry(kv: (Val, Val), ks: Shape, vsh: Shape, first: bool, after: Seq<u8>)
    requires
        fits(kv.0, ks),
        fits(kv.1, vsh),
    ensures
        ({
            let (k, v) = kv;
            let sep = if first { Seq::<u8>::empty() } else { seq![MAP_VALUE_SEPARATOR] };
            let s = sep + enc_entry((k, v)) + after;
            let nk = sep.len() + enc(k).len() + 2;
            let nv = enc(v).len() + 2;
            &&& key_step(ks, s, first) == Ok::<Option<(Val, nat)>, Error>(Some((k, nk)))
            &&& value_step(vsh, s.skip(nk as int)) == Ok::<(Val, nat), Error>((v, nv))
            &&& s.skip((nk + nv) as int) == after
        }),
    decreases kv,
{
    let (k, v) = kv;
    let sep = if first { Seq::<u8>::empty() } else { seq![MAP_VALUE_SEPARATOR] };
    let vpart = framed(MAP_VALUE_DELIMITER, enc(v)) + after;
    let s = sep + enc_entry((k, v)) + after;
    assert(s =~= sep + framed(MAP_KEY_DELIMITER, enc(k)) + vpart);
    lemma_round_trip(k, ks, seq![MAP_KEY_DELIMITER] + vpart);
    lemma_key_read(k, ks, first, vpart);
    lemma_round_trip(v, vsh, seq![MAP_VALUE_DELIMITER] + after);
    lemma_value_read(v, vsh, after);
    let nk = sep.len() + enc(k).len() + 2;
    assert(s.skip(nk as int) =~= vpart);
    let nv = enc(v).len() + 2;
    assert(s.skip((nk + nv) as int) =~= vpart.skip(nv as int));
}

#[verifier::rlimit(100)]
proof fn lemma_round_trip_entries(
    es: Seq<(Val, Val)>,
    ks: Shape,
    ls: ListShape,
    i: nat,
    tail: Seq<u8>,
)
    requires
        entries_fit(es, ks, ls, i),
        tail.len() > 0 && (tail[0] == MAP_DELIMITER || ls is Fixed),
    ensures
        parse_entries(Shape::Mapping(Box::new(ks), ls), enc_entries(es, i == 0) + tail, i) == Ok::<
            (Seq<(Val, Val)>, nat),
            Error,
        >((es, enc_entries(es, i == 0).len())),
    decreases es,
{
    let e = enc_entries(es, i == 0);
    let s = e + tail;
    if es.len() == 0 {
        assert(s =~= tail);
        assert(es =~= Seq::<(Val, Val)>::empty());
        assert(e.len() == 0);
        if in_range(ls, i) {
            assert(s[0] == MAP_DELIMITER);
            assert(key_step(ks, s, i == 0) == Ok::<Option<(Val, nat)>, Error>(None));
            assert(!(ls is Fixed));
        }
    } else {
        let (k, v) = es[0];
        let more = enc_entries(es.drop_first(), false);
        let sep = if i == 0 { Seq::<u8>::empty() } else { seq![MAP_VALUE_SEPARATOR] };
        assert(e == sep + enc_entry(es[0]) + more);
        assert(s =~= sep + enc_entry((k, v)) + (more + tail));
        lemma_round_trip_entry(es[0], ks, item_shape(ls, i), i == 0, more + tail);
        lemma_round_trip_entries(es.drop_first(), ks, ls, i + 1, tail);
        assert(seq![(k, v)] + es.drop_first() =~= es);
        let nk = sep.len() + enc(k).len() + 2;
        let nv = enc(v).len() + 2;
        assert(in_range(ls, i));
        assert(nk + nv + more.len() == e.len());
        assert(s.skip((nk + nv) as int) == more + tail);
    }
}

/// Decoding the encoding of any value that fits the shape gives the value
/// back, and consumes exactly its encoding.
pub proof fn round_trip(v: Val, sh: Shape)
    requires
        fits(v, sh),
    ensures
        parse(sh, enc(v)) == Ok::<(Val, nat), Error>((v, enc(v).len())),
{
    lemma_round_trip(v, sh, Seq::empty());
    assert(enc(v) + Seq::<u8>::empty() =~= enc(v));
}

/// An empty sequence encodes as two sequence delimiters and an empty map as
/// two map delimiters; both decode to an empty container wherever the shape
/// admits one.
pub proof fn empty_containers(ls: ListShape, ks: Shape)
    ensures
        enc(Val::Sequence(Seq::empty())) == seq![SEQ_DELIMITER, SEQ_DELIMITER],
        enc(Val::Mapping(Seq::empty())) == seq![MAP_DELIMITER, MAP_DELIMITER],
        items_fit(Seq::empty(), ls, 0) ==> parse(
            Shape::Sequence(ls),
            seq![SEQ_DELIMITER, SEQ_DELIMITER],
        ) == Ok::<(Val, nat), Error>((Val::Sequence(Seq::empty()), 2)),
        entries_fit(Seq::empty(), ks, ls, 0) ==> parse(
            Shape::Mapping(Box::new(ks), ls),
            seq![MAP_DELIMITER, MAP_DELIMITER],
        ) == Ok::<(Val, nat), Error>((Val::Mapping(Seq::empty()), 2)),
{
    assert(enc_items(Seq::<Val>::empty(), true) =~= Seq::<u8>::empty());
    assert(enc_entries(Seq::<(Val, Val)>::empty(), true) =~= Seq::<u8>::empty());
    assert(enc(Val::Sequence(Seq::empty())) =~= seq![SEQ_DELIMITER, SEQ_DELIMITER]);
    assert(enc(Val::Mapping(Seq::empty())) =~= seq![MAP_DELIMITER, MAP_DELIMITER]);
    if items_fit(Seq::empty(), ls, 0) {
        round_trip(Val::Sequence(Seq::empty()), Shape::Sequence(ls));
    }
    if entries_fit(Seq::empty(), ks, ls, 0) {
        round_trip(Val::Mapping(Seq::empty()), Shape::Mapping(Box::new(ks), ls));
    }
}

/// An empty string encodes as two string delimiters, an empty byte buffer
/// as two byte delimiters, and each decodes back to empty.
pub proof fn empty_text()
    ensures
        enc(Val::Str(Seq::empty())) == seq![STRING_DELIMITER, STRING_DELIMITER],
        parse(Shape::Str, seq![STRING_DELIMITER, STRING_DELIMITER]) == Ok::<(Val, nat), Error>(
            (Val::Str(Seq::empty()), 2),
        ),
        enc(Val::Bytes(Seq::empty())) == seq![BYTE_DELIMITER, BYTE_DELIMITER],
        parse(Shape::Bytes, seq![BYTE_DELIMITER, BYTE_DELIMITER]) == Ok::<(Val, nat), Error>(
            (Val::Bytes(Seq::empty()), 2),
        ),
{
    let e = encode_utf8(Seq::<char>::empty());
    assert(e =~= Seq::<u8>::empty());
    assert(enc(Val::Str(Seq::empty())) =~= seq![STRING_DELIMITER, STRING_DELIMITER]);
    assert(enc(Val::Bytes(Seq::empty())) =~= seq![BYTE_DELIMITER, BYTE_DELIMITER]);
    round_trip(Val::Str(Seq::empty()), Shape::Str);
    round_trip(Val::Bytes(Seq::empty()), Shape::Bytes);
}

/// An absent optional encodes as the one `UNIT` byte and a present one as
/// its value alone. Decoding an optional gives "absent" on a leading `UNIT`
/// byte and otherwise decodes the inner shape.
pub proof fn option_identity(x: Val, t: Shape, s: Seq<u8>)
    ensures
        enc(Val::Opt(None)) == seq![UNIT],
        enc(Val::Opt(Some(Box::new(x)))) == enc(x),
        s.len() > 0 && s[0] == UNIT ==> parse(Shape::Opt(Box::new(t)), s) == Ok::<(Val, nat), Error>(
            (Val::Opt(None), 1),
        ),
        s.len() > 0 && s[0] != UNIT ==> parse(Shape::Opt(Box::new(t)), s) == match parse(t, s) {
            Err(e) => Err(e),
            Ok((v, n)) => Ok::<(Val, nat), Error>((Val::Opt(Some(Box::new(v))), n)),
        },
{
}

/// The error for a wrong first byte where a value of shape `sh` begins, for
/// the shapes that begin with a delimiter.
pub open spec fn opening_error(sh: Shape) -> Option<Error> {
    match sh {
        Shape::Str => Some(Error::ExpectedStringDelimiter),
        Shape::Bytes => Some(Error::ExpectedByteDelimiter),
        Shape::Unit => Some(Error::ExpectedUnit),
        Shape::Sequence(_) => Some(Error::ExpectedSeqDelimiter),
        Shape::Mapping(_, _) => Some(Error::ExpectedMapDelimiter),
        Shape::Enum(_) => Some(Error::ExpectedEnumDelimiter),
        _ => None,
    }
}

/// Replacing the opening delimiter of an encoding by any other byte makes
/// decoding fail with the error that names that delimiter.
pub proof fn opening_delimiter_rejected(v: Val, sh: Shape, b: u8)
    requires
        fits(v, sh),
        opening_error(sh) is Some,
        b != enc(v)[0],
    ensures
        parse(sh, enc(v).update(0, b)) == Err::<(Val, nat), Error>(opening_error(sh)->0),
{
    lemma_enc_nonempty(v);
    let s = enc(v).update(0, b);
    assert(s[0] == b);
}

proof fn lemma_find_none(q: Seq<u8>, d: u8)
    requires
        !q.contains(d),
    ensures
        find(q, d) is None,
{
    crate::grammar::lemma_find(q, d);
    if let Some(k) = find(q, d) {
        assert(q[k as int] == d);
        assert(q.contains(d));
    }
}

/// A framed run cut before its closing delimiter finds no end.
proof fn lemma_run_cut(d: u8, p: Seq<u8>, j: int)
    requires
        !p.contains(d),
        1 <= j <= p.len() + 1,
    ensures
        parse_run(framed(d, p).take(j), d) is None,
{
    let s = framed(d, p).take(j);
    assert(s.drop_first() =~= p.take(j - 1));
    let q = p.take(j - 1);
    assert(!q.contains(d)) by {
        if q.contains(d) {
            let k = choose|k: int| 0 <= k < q.len() && #[trigger] q[k] == d;
            assert(p[k] == d);
        }
    }
    lemma_find_none(q, d);
}

/// Every proper prefix of the encoding of a fitting value fails to decode,
/// for want of input.
#[verifier::rlimit(100)]
pub proof fn lemma_truncated(v: Val, sh: Shape, j: int)
    requires
        fits(v, sh),
        0 <= j < enc(v).len(),
    ensures
        parse(sh, enc(v).take(j)) == Err::<(Val, nat), Error>(Error::EndOfInput),
    decreases v,
{
    let e = enc(v);
    let s = e.take(j);
    lemma_radix_values();
    if j == 0 {
        assert(s.len() == 0);
        return;
    }
    match sh {
        Shape::Int(k) => {
            lemma_to_le_len(v->Int_1, kind_width(k));
        },
        Shape::Char => {
            lemma_to_le_len(v->Char_0, 4);
        },
        Shape::Str => {
            lemma_utf8_has_no_string_delimiter(v->Str_0);
            lemma_run_cut(STRING_DELIMITER, encode_utf8(v->Str_0), j);
        },
        Shape::Bytes => {
            lemma_run_cut(BYTE_DELIMITER, v->Bytes_0, j);
        },
        Shape::Opt(t) => {
            if let Val::Opt(Some(x)) = v {
                lemma_truncated(*x, *t, j);
            }
        },
        Shape::Sequence(ls) => {
            let xs = v->Sequence_0;
            let items = enc_items(xs, true);
            assert(s.drop_first() =~= items.take(j - 1));
            lemma_truncated_items(xs, ls, 0, j - 1);
        },
        Shape::Mapping(ks, ls) => {
            let es = v->Mapping_0;
            let body = enc_entries(es, true);
            assert(s.drop_first() =~= body.take(j - 1));
            lemma_truncated_entries(es, *ks, ls, 0, j - 1);
        },
        Shape::Enum(vs) => {
            let i = v->Enum_0;
            lemma_to_le_len(i, 4);
            lemma_le_to_le(i, 4);
            if j >= 5 {
                assert(s.subrange(1, 5) =~= to_le(i, 4));
                let x = v->Enum_1->Some_0;
                let p = vs@[i as int]->Some_0;
                assert(s.skip(5) =~= enc(*x).take(j - 5));
                lemma_truncated(*x, p, j - 5);
            }
        },
        _ => {},
    }
}

/// The items of a sequence cut at `j`: short of their end they fail for want
/// of input; at their end they fail so, or read back whole.
#[verifier::rlimit(100)]
proof fn lemma_truncated_items(xs: Seq<Val>, ls: ListShape, i: nat, j: int)
    requires
        items_fit(xs, ls, i),
        i == 0 && xs.len() > 0 ==> enc(xs[0])[0] != SEQ_DELIMITER,
        0 <= j <= enc_items(xs, i == 0).len(),
    ensures
        ({
            let e = enc_items(xs, i == 0);
            let r = parse_items(ls, e.take(j), i);
            &&& j < e.len() ==> r == Err::<(Seq<Val>, nat), Error>(Error::EndOfInput)
            &&& j == e.len() ==> r == Err::<(Seq<Val>, nat), Error>(Error::EndOfInput) || r == Ok::<
                (Seq<Val>, nat),
                Error,
            >((xs, e.len()))
        }),
    decreases xs,
{
    let e = enc_items(xs, i == 0);
    let s = e.take(j);
    if xs.len() == 0 {
        assert(e.len() == 0);
        assert(s.len() == 0);
        assert(xs =~= Seq::<Val>::empty());
        if in_range(ls, i) {
            assert(item_step(item_shape(ls, i), s, i == 0) == Err::<Option<(Val, nat)>, Error>(
                Error::EndOfInput,
            ));
        }
        return;
    }
    let x = xs[0];
    let sh = item_shape(ls, i);
    let more = enc_items(xs.drop_first(), false);
    let sep = if i == 0 { Seq::<u8>::empty() } else { seq![SEQ_VALUE_DELIMITER] };
    assert(e == sep + enc(x) + more);
    lemma_enc_nonempty(x);
    let n = sep.len() + enc(x).len();
    assert(in_range(ls, i));
    if j < n {
        if j == 0 {
            assert(s.len() == 0);
        } else if i == 0 {
            assert(s =~= enc(x).take(j));
            lemma_truncated(x, sh, j);
        } else {
            assert(s[0] == SEQ_VALUE_DELIMITER);
            assert(s.drop_first() =~= enc(x).take(j - 1));
            lemma_truncated(x, sh, j - 1);
        }
    } else {
        let cut = more.take(j - n);
        if i == 0 {
            assert(s =~= enc(x) + cut);
        } else {
            assert(s.drop_first() =~= enc(x) + cut);
        }
        lemma_round_trip(x, sh, cut);
        assert(item_step(sh, s, i == 0) == Ok::<Option<(Val, nat)>, Error>(Some((x, n as nat))));
        assert(s.skip(n as int) =~= cut);
        lemma_truncated_items(xs.drop_first(), ls, i + 1, j - n);
        assert(seq![x] + xs.drop_first() =~= xs);
    }
}

/// One entry cut at `j`, short of its end: reading it fails for want of
/// input, in its key or in its value.
#[verifier::rlimit(100)]
proof fn lemma_truncated_entry(kv: (Val, Val), ks: Shape, vsh: Shape, first: bool, j: int)
    requires
        fits(kv.0, ks),
        fits(kv.1, vsh),
        0 <= j < (if first { 0int } else { 1int }) + enc_entry(kv).len(),
    ensures
        ({
            let sep = if first { Seq::<u8>::empty() } else { seq![MAP_VALUE_SEPARATOR] };
            let s = (sep + enc_entry(kv)).take(j);
            let nk = sep.len() + enc(kv.0).len() + 2;
            ||| key_step(ks, s, first) == Err::<Option<(Val, nat)>, Error>(Error::EndOfInput)
            ||| nk <= s.len() && key_step(ks, s, first) == Ok::<Option<(Val, nat)>, Error>(
                Some((kv.0, nk as nat)),
            ) && value_step(vsh, s.skip(nk as int)) == Err::<(Val, nat), Error>(Error::EndOfInput)
        }),
    decreases kv,
{
    let (k, v) = kv;
    let sep = if first { Seq::<u8>::empty() } else { seq![MAP_VALUE_SEPARATOR] };
    let full = sep + enc_entry(kv);
    let s = full.take(j);
    let o = sep.len() as int;
    let kk = enc(k);
    let vv = enc(v);
    lemma_enc_nonempty(k);
    lemma_enc_nonempty(v);
    assert(full =~= sep + seq![MAP_KEY_DELIMITER] + kk + seq![MAP_KEY_DELIMITER, MAP_VALUE_DELIMITER]
        + vv + seq![MAP_VALUE_DELIMITER]);
    let nk = o + kk.len() + 2;
    if j <= o {
        assert(s.len() < o + 1);
        if j > 0 {
            assert(s[0] == MAP_VALUE_SEPARATOR);
        }
    } else if j <= o + kk.len() {
        assert(s[0] == full[0]);
        assert(s[o] == MAP_KEY_DELIMITER);
        assert(s.skip(o + 1) =~= kk.take(j - o - 1));
        lemma_truncated(k, ks, j - o - 1);
    } else if j == o + kk.len() + 1 {
        assert(s[0] == full[0]);
        assert(s[o] == MAP_KEY_DELIMITER);
        assert(s.skip(o + 1) =~= kk + Seq::<u8>::empty());
        lemma_round_trip(k, ks, Seq::empty());
    } else {
        assert(s[0] == full[0]);
        assert(s[o] == MAP_KEY_DELIMITER);
        let after_key = s.skip(o + 1 + kk.len());
        assert(s.skip(o + 1) =~= kk + after_key);
        lemma_round_trip(k, ks, after_key);
        assert(s[o + kk.len() + 1] == MAP_KEY_DELIMITER);
        let t = s.skip(nk);
        let jj = j - nk;
        assert(0 <= jj < vv.len() + 2);
        if jj == 0 {
            assert(t.len() == 0);
        } else {
            assert(t[0] == MAP_VALUE_DELIMITER);
            if jj - 1 < vv.len() {
                assert(t.drop_first() =~= vv.take(jj - 1));
                lemma_truncated(v, vsh, jj - 1);
            } else {
                assert(t.drop_first() =~= vv + Seq::<u8>::empty());
                lemma_round_trip(v, vsh, Seq::empty());
            }
        }
    }
}

/// The entries of a map cut at `j`: short of their end they fail for want
/// of input; at their end they fail so, or read back whole.
#[verifier::rlimit(100)]
proof fn lemma_truncated_entries(es: Seq<(Val, Val)>, ks: Shape, ls: ListShape, i: nat, j: int)
    requires
        entries_fit(es, ks, ls, i),
        0 <= j <= enc_entries(es, i == 0).len(),
    ensures
        ({
            let e = enc_entries(es, i == 0);
            let r = parse_entries(Shape::Mapping(Box::new(ks), ls), e.take(j), i);
            &&& j < e.len() ==> r == Err::<(Seq<(Val, Val)>, nat), Error>(Error::EndOfInput)
            &&& j == e.len() ==> r == Err::<(Seq<(Val, Val)>, nat), Error>(Error::EndOfInput) || r
                == Ok::<(Seq<(Val, Val)>, nat), Error>((es, e.len()))
        }),
    decreases es,
{
    let e = enc_entries(es, i == 0);
    let s = e.take(j);
    if es.len() == 0 {
        assert(e.len() == 0);
        assert(s.len() == 0);
        assert(es =~= Seq::<(Val, Val)>::empty());
        if in_range(ls, i) {
            assert(key_step(ks, s, i == 0) == Err::<Option<(Val, nat)>, Error>(Error::EndOfInput));
        }
        return;
    }
    let (k, v) = es[0];
    let vsh = item_shape(ls, i);
    let more = enc_entries(es.drop_first(), false);
    let sep = if i == 0 { Seq::<u8>::empty() } else { seq![MAP_VALUE_SEPARATOR] };
    assert(e == sep + enc_entry(es[0]) + more);
    assert(in_range(ls, i));
    let whole = sep.len() + enc_entry(es[0]).len();
    if j < whole {
        assert(s =~= (sep + enc_entry(es[0])).take(j));
        lemma_truncated_entry(es[0], ks, vsh, i == 0, j);
        lemma_enc_nonempty(k);
        lemma_enc_nonempty(v);
    } else {
        let cut = more.take(j - whole);
        assert(s =~= sep + enc_entry((k, v)) + cut);
        lemma_round_trip_entry(es[0], ks, vsh, i == 0, cut);
        let nk = sep.len() + enc(k).len() + 2;
        let nv = enc(v).len() + 2;
        assert(nk + nv == whole);
        lemma_truncated_entries(es.drop_first(), ks, ls, i + 1, j - whole);
        assert(seq![(k, v)] + es.drop_first() =~= es);
    }
}

/// Every proper prefix of an encoding fails to decode with `EndOfInput`:
/// decoding never succeeds on, nor reads past, a cut encoding.
pub proof fn truncation_fails(v: Val, sh: Shape, p: Seq<u8>)
    requires
        fits(v, sh),
        p.len() < enc(v).len(),
        p == enc(v).take(p.len() as int),
    ensures
        parse(sh, p) == Err::<(Val, nat), Error>(Error::EndOfInput),
{
    lemma_truncated(v, sh, p.len() as int);
}

/// Replacing the closing delimiter of an encoded string or byte buffer by
/// any other byte leaves the run without an end: decoding fails for want of
/// input.
pub proof fn closing_delimiter_rejected(v: Val, sh: Shape, b: u8)
    requires
        fits(v, sh),
        sh is Str || sh is Bytes,
        b != enc(v)[enc(v).len() - 1],
    ensures
        parse(sh, enc(v).update(enc(v).len() - 1, b)) == Err::<(Val, nat), Error>(
            Error::EndOfInput,
        ),
{
    let d = if sh is Str { STRING_DELIMITER } else { BYTE_DELIMITER };
    let p = if sh is Str { encode_utf8(v->Str_0) } else { v->Bytes_0 };
    if sh is Str {
        lemma_utf8_has_no_string_delimiter(v->Str_0);
    }
    assert(enc(v) == framed(d, p));
    let s = enc(v).update(enc(v).len() - 1, b);
    let q = p + seq![b];
    assert(s.drop_first() =~= q);
    assert(!q.contains(d)) by {
        if q.contains(d) {
            let k = choose|k: int| 0 <= k < q.len() && #[trigger] q[k] == d;
            if k < p.len() {
                assert(p[k] == d);
            }
        }
    }
    lemma_find_none(q, d);
}

/// Replacing the closing delimiter of an encoded tuple or struct (a
/// sequence or map of fixed arity) by any other byte makes decoding fail
/// with the error that names that delimiter.
pub proof fn fixed_closing_delimiter_rejected(v: Val, sh: Shape, b: u8)
    requires
        fits(v, sh),
        sh matches Shape::Sequence(ListShape::Fixed(_)) || sh matches Shape::Mapping(
            _,
            ListShape::Fixed(_),
        ),
        b != enc(v)[enc(v).len() - 1],
    ensures
        parse(sh, enc(v).update(enc(v).len() - 1, b)) == Err::<(Val, nat), Error>(
            if sh is Sequence {
                Error::ExpectedSeqDelimiter
            } else {
                Error::ExpectedMapDelimiter
            },
        ),
{
    let s = enc(v).update(enc(v).len() - 1, b);
    match sh {
        Shape::Sequence(ls) => {
            let xs = v->Sequence_0;
            let e = enc_items(xs, true);
            assert(s.drop_first() =~= e + seq![b]);
            lemma_round_trip_items(xs, ls, 0, seq![b]);
            assert(s[e.len() + 1 as int] == b);
        },
        Shape::Mapping(ks, ls) => {
            let es = v->Mapping_0;
            let e = enc_entries(es, true);
            assert(s.drop_first() =~= e + seq![b]);
            lemma_round_trip_entries(es, *ks, ls, 0, seq![b]);
            assert(s[e.len() + 1 as int] == b);
        },
        _ => {},
    }
}

/// Decoding the whole encoding of a fitting value gives the value back.
pub proof fn round_trip_whole(v: Val, sh: Shape)
    requires
        fits(v, sh),
    ensures
        decode_all(sh, enc(v)) == Ok::<Val, Error>(v),
{
    round_trip(v, sh);
}

/// The items of a sequence split anywhere: the first `m` items, then the
/// rest after a separator.
proof fn lemma_enc_items_split(xs: Seq<Val>, m: int, first: bool)
    requires
        0 <= m <= xs.len(),
    ensures
        enc_items(xs, first) == enc_items(xs.take(m), first) + enc_items(
            xs.skip(m),
            first && m == 0,
        ),
    decreases xs.len(),
{
    if m == 0 {
        assert(xs.take(0) =~= Seq::<Val>::empty());
        assert(xs.skip(0) =~= xs);
        assert(enc_items(xs.take(0), first) =~= Seq::<u8>::empty());
        assert(enc_items(xs, first) =~= Seq::<u8>::empty() + enc_items(xs, first));
    } else {
        let d = xs.drop_first();
        lemma_enc_items_split(d, m - 1, false);
        assert(xs.take(m).drop_first() =~= d.take(m - 1));
        assert(xs.take(m)[0] == xs[0]);
        assert(xs.skip(m) =~= d.skip(m - 1));
        let sep = if first { Seq::<u8>::empty() } else { seq![SEQ_VALUE_DELIMITER] };
        assert(enc_items(xs.take(m), first) == sep + enc(xs[0]) + enc_items(d.take(m - 1), false));
        assert(enc_items(xs, first) =~= enc_items(xs.take(m), first) + enc_items(
            xs.skip(m),
            first && m == 0,
        ));
    }
}

proof fn lemma_items_fit_take(xs: Seq<Val>, ls: ListShape, i: nat, m: int)
    requires
        ls is Repeat,
        items_fit(xs, ls, i),
        0 <= m <= xs.len(),
    ensures
        items_fit(xs.take(m), ls, i),
    decreases xs.len(),
{
    if m > 0 {
        lemma_items_fit_take(xs.drop_first(), ls, i + 1, m - 1);
        assert(xs.take(m).drop_first() =~= xs.drop_first().take(m - 1));
    }
}

/// Items already read, followed by the outcome of reading what comes after.
pub open spec fn after_items(ys: Seq<Val>, n: nat, r: Result<(Seq<Val>, nat), Error>) -> Result<
    (Seq<Val>, nat),
    Error,
> {
    match r {
        Err(e) => Err(e),
        Ok((zs, m)) => Ok((ys + zs, n + m)),
    }
}

/// Reading well-formed items and then anything at all: the items come back,
/// and reading goes on from what follows them.
#[verifier::rlimit(100)]
proof fn lemma_items_prefix(ys: Seq<Val>, ls: ListShape, i: nat, tail: Seq<u8>)
    requires
        ls is Repeat,
        items_fit(ys, ls, i),
        i == 0 && ys.len() > 0 ==> enc(ys[0])[0] != SEQ_DELIMITER,
    ensures
        parse_items(ls, enc_items(ys, i == 0) + tail, i) == after_items(
            ys,
            enc_items(ys, i == 0).len(),
            parse_items(ls, tail, i + ys.len()),
        ),
    decreases ys,
{
    let e = enc_items(ys, i == 0);
    let s = e + tail;
    if ys.len() == 0 {
        assert(e.len() == 0);
        assert(s =~= tail);
        if let Ok((zs, m)) = parse_items(ls, tail, i) {
            assert(ys + zs =~= zs);
        }
    } else {
        let x = ys[0];
        let sh = item_shape(ls, i);
        let more = enc_items(ys.drop_first(), false);
        let sep = if i == 0 { Seq::<u8>::empty() } else { seq![SEQ_VALUE_DELIMITER] };
        assert(e == sep + enc(x) + more);
        lemma_enc_nonempty(x);
        if i == 0 {
            assert(s =~= enc(x) + (more + tail));
        } else {
            assert(s.drop_first() =~= enc(x) + (more + tail));
        }
        lemma_round_trip(x, sh, more + tail);
        let n = sep.len() + enc(x).len();
        assert(item_step(sh, s, i == 0) == Ok::<Option<(Val, nat)>, Error>(Some((x, n as nat))));
        assert(s.skip(n as int) =~= more + tail);
        lemma_items_prefix(ys.drop_first(), ls, i + 1, tail);
        assert(i + 1 + ys.drop_first().len() == i + ys.len());
        if let Ok((zs, m)) = parse_items(ls, tail, i + ys.len()) {
            assert(seq![x] + (ys.drop_first() + zs) =~= ys + zs);
        }
    }
}

/// Corrupting the separator before any item but the first of a sequence of
/// any length: into the closing delimiter, the sequence ends early and the
/// whole-buffer decode fails on the bytes left over; into any other byte, it
/// fails on the separator.
#[verifier::rlimit(100)]
pub proof fn separator_rejected(xs: Seq<Val>, t: Shape, m: int, c: u8)
    requires
        fits(Val::Sequence(xs), Shape::Sequence(ListShape::Repeat(Box::new(t)))),
        0 < m < xs.len(),
        c != SEQ_VALUE_DELIMITER,
    ensures
        ({
            let e = enc(Val::Sequence(xs));
            let k = 1 + enc_items(xs.take(m), true).len() as int;
            &&& e[k] == SEQ_VALUE_DELIMITER
            &&& decode_all(Shape::Sequence(ListShape::Repeat(Box::new(t))), e.update(k, c)) == Err::<
                Val,
                Error,
            >(
                if c == SEQ_DELIMITER {
                    Error::TrailingBytes
                } else {
                    Error::ExpectedSeqValueDelimiter
                },
            )
        }),
{
    let ls = ListShape::Repeat(Box::new(t));
    let sh = Shape::Sequence(ls);
    let e = enc(Val::Sequence(xs));
    let ys = xs.take(m);
    let p = enc_items(ys, true);
    let q = enc_items(xs.skip(m), false);
    lemma_enc_items_split(xs, m, true);
    let rest = xs.skip(m);
    lemma_enc_nonempty(rest[0]);
    assert(q == seq![SEQ_VALUE_DELIMITER] + enc(rest[0]) + enc_items(rest.drop_first(), false));
    assert(e =~= seq![SEQ_DELIMITER] + p + q + seq![SEQ_DELIMITER]);
    let k = 1 + p.len() as int;
    assert(e[k] == SEQ_VALUE_DELIMITER);
    let b = e.update(k, c);
    let tail = seq![c] + q.drop_first() + seq![SEQ_DELIMITER];
    assert(b.drop_first() =~= p + tail);
    lemma_items_fit_take(xs, ls, 0, m);
    assert(ys[0] == xs[0]);
    lemma_items_prefix(ys, ls, 0, tail);
    assert(tail[0] == c);
    assert(b[0] == SEQ_DELIMITER);
    if c == SEQ_DELIMITER {
        assert(parse_items(ls, tail, m as nat) == Ok::<(Seq<Val>, nat), Error>((Seq::empty(), 0)));
        assert(ys + Seq::<Val>::empty() =~= ys);
        assert(b[p.len() + 1 as int] == SEQ_DELIMITER);
    } else {
        assert(item_step(t, tail, false) == Err::<Option<(Val, nat)>, Error>(
            Error::ExpectedSeqValueDelimiter,
        ));
    }
}

/// The entries of a map split anywhere: the first `m` entries, then the
/// rest after a separator.
proof fn lemma_enc_entries_split(es: Seq<(Val, Val)>, m: int, first: bool)
    requires
        0 <= m <= es.len(),
    ensures
        enc_entries(es, first) == enc_entries(es.take(m), first) + enc_entries(
            es.skip(m),
            first && m == 0,
        ),
    decreases es.len(),
{
    if m == 0 {
        assert(es.take(0) =~= Seq::<(Val, Val)>::empty());
        assert(es.skip(0) =~= es);
        assert(enc_entries(es.take(0), first) =~= Seq::<u8>::empty());
        assert(enc_entries(es, first) =~= Seq::<u8>::empty() + enc_entries(es, first));
    } else {
        let d = es.drop_first();
        lemma_enc_entries_split(d, m - 1, false);
        assert(es.take(m).drop_first() =~= d.take(m - 1));
        assert(es.take(m)[0] == es[0]);
        assert(es.skip(m) =~= d.skip(m - 1));
        let sep = if first { Seq::<u8>::empty() } else { seq![MAP_VALUE_SEPARATOR] };
        assert(enc_entries(es.take(m), first) == sep + enc_entry(es[0]) + enc_entries(
            d.take(m - 1),
            false,
        ));
        assert(enc_entries(es, first) =~= enc_entries(es.take(m), first) + enc_entries(
            es.skip(m),
            first && m == 0,
        ));
    }
}

proof fn lemma_entries_fit_take(es: Seq<(Val, Val)>, ks: Shape, ls: ListShape, i: nat, m: int)
    requires
        ls is Repeat,
        entries_fit(es, ks, ls, i),
        0 <= m <= es.len(),
    ensures
        entries_fit(es.take(m), ks, ls, i),
    decreases es.len(),
{
    if m > 0 {
        lemma_entries_fit_take(es.drop_first(), ks, ls, i + 1, m - 1);
        assert(es.take(m).drop_first() =~= es.drop_first().take(m - 1));
    }
}

/// Entries already read, followed by the outcome of reading what comes after.
pub open spec fn after_entries(
    ys: Seq<(Val, Val)>,
    n: nat,
    r: Result<(Seq<(Val, Val)>, nat), Error>,
) -> Result<(Seq<(Val, Val)>, nat), Error> {
    match r {
        Err(e) => Err(e),
        Ok((zs, m)) => Ok((ys + zs, n + m)),
    }
}

/// Reading well-formed entries and then anything at all: the entries come
/// back, and reading goes on from what follows them.
#[verifier::rlimit(100)]
proof fn lemma_entries_prefix(ys: Seq<(Val, Val)>, ks: Shape, ls: ListShape, i: nat, tail: Seq<u8>)
    requires
        ls is Repeat,
        entries_fit(ys, ks, ls, i),
    ensures
        parse_entries(Shape::Mapping(Box::new(ks), ls), enc_entries(ys, i == 0) + tail, i)
            == after_entries(
            ys,
            enc_entries(ys, i == 0).len(),
            parse_entries(Shape::Mapping(Box::new(ks), ls), tail, i + ys.len()),
        ),
    decreases ys,
{
    let mp = Shape::Mapping(Box::new(ks), ls);
    let e = enc_entries(ys, i == 0);
    let s = e + tail;
    if ys.len() == 0 {
        assert(e.len() == 0);
        assert(s =~= tail);
        if let Ok((zs, m)) = parse_entries(mp, tail, i) {
            assert(ys + zs =~= zs);
        }
    } else {
        let (k, v) = ys[0];
        let more = enc_entries(ys.drop_first(), false);
        let sep = if i == 0 { Seq::<u8>::empty() } else { seq![MAP_VALUE_SEPARATOR] };
        assert(e == sep + enc_entry(ys[0]) + more);
        assert(s =~= sep + enc_entry((k, v)) + (more + tail));
        lemma_round_trip_entry(ys[0], ks, item_shape(ls, i), i == 0, more + tail);
        lemma_enc_nonempty(k);
        lemma_enc_nonempty(v);
        lemma_entries_prefix(ys.drop_first(), ks, ls, i + 1, tail);
        assert(i + 1 + ys.drop_first().len() == i + ys.len());
        if let Ok((zs, m)) = parse_entries(mp, tail, i + ys.len()) {
            assert(seq![(k, v)] + (ys.drop_first() + zs) =~= ys + zs);
        }
    }
}

/// Corrupting the separator before any entry but the first of a map of any
/// length: into the closing delimiter, the map ends early and the
/// whole-buffer decode fails on the bytes left over; into any other byte, it
/// fails on the separator.
#[verifier::rlimit(100)]
pub proof fn map_separator_rejected(es: Seq<(Val, Val)>, ks: Shape, t: Shape, m: int, c: u8)
    requires
        fits(Val::Mapping(es), Shape::Mapping(Box::new(ks), ListShape::Repeat(Box::new(t)))),
        0 < m < es.len(),
        c != MAP_VALUE_SEPARATOR,
    ensures
        ({
            let e = enc(Val::Mapping(es));
            let k = 1 + enc_entries(es.take(m), true).len() as int;
            &&& e[k] == MAP_VALUE_SEPARATOR
            &&& decode_all(
                Shape::Mapping(Box::new(ks), ListShape::Repeat(Box::new(t))),
                e.update(k, c),
            ) == Err::<Val, Error>(
                if c == MAP_DELIMITER {
                    Error::TrailingBytes
                } else {
                    Error::ExpectedMapValueSeparator
                },
            )
        }),
{
    let ls = ListShape::Repeat(Box::new(t));
    let mp = Shape::Mapping(Box::new(ks), ls);
    let e = enc(Val::Mapping(es));
    let ys = es.take(m);
    let p = enc_entries(ys, true);
    let q = enc_entries(es.skip(m), false);
    lemma_enc_entries_split(es, m, true);
    let rest = es.skip(m);
    assert(q == seq![MAP_VALUE_SEPARATOR] + enc_entry(rest[0]) + enc_entries(
        rest.drop_first(),
        false,
    ));
    assert(e =~= seq![MAP_DELIMITER] + p + q + seq![MAP_DELIMITER]);
    let k = 1 + p.len() as int;
    assert(e[k] == MAP_VALUE_SEPARATOR);
    let b = e.update(k, c);
    let tail = seq![c] + q.drop_first() + seq![MAP_DELIMITER];
    assert(b.drop_first() =~= p + tail);
    lemma_entries_fit_take(es, ks, ls, 0, m);
    lemma_entries_prefix(ys, ks, ls, 0, tail);
    assert(tail[0] == c);
    assert(b[0] == MAP_DELIMITER);
    assert(q.len() > 1);
    if c == MAP_DELIMITER {
        assert(key_step(ks, tail, false) == Ok::<Option<(Val, nat)>, Error>(None));
        assert(parse_entries(mp, tail, m as nat) == Ok::<(Seq<(Val, Val)>, nat), Error>(
            (Seq::empty(), 0),
        ));
        assert(ys + Seq::<(Val, Val)>::empty() =~= ys);
        assert(b[p.len() + 1 as int] == MAP_DELIMITER);
    } else {
        assert(key_step(ks, tail, false) == Err::<Option<(Val, nat)>, Error>(
            Error::ExpectedMapValueSeparator,
        ));
    }
}

} // verus!
