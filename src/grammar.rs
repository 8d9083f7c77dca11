use vstd::prelude::*;
use vstd::utf8::{decode_utf8, encode_utf8, is_scalar, valid_utf8};

use crate::error::Error;
use crate::wire::{
    in_range, item_shape, kind_width, radix, ListShape, Shape, Val, BYTE_DELIMITER, ENUM_DELIMITER,
    MAP_DELIMITER, MAP_KEY_DELIMITER, MAP_VALUE_DELIMITER, MAP_VALUE_SEPARATOR, SEQ_DELIMITER,
    SEQ_VALUE_DELIMITER, STRING_DELIMITER, UNIT,
};

verus! {

/// The little-endian number that the bytes `b` spell.
pub open spec fn le(b: Seq<u8>) -> nat
    decreases b.len(),
{
    if b.len() == 0 {
        0
    } else {
        b[0] as nat + 256 * le(b.drop_first())
    }
}

/// The `w` little-endian bytes of `x` (high bytes beyond `w` are dropped).
pub open spec fn to_le(x: nat, w: nat) -> Seq<u8>
    decreases w,
{
    if w == 0 {
        Seq::empty()
    } else {
        seq![(x % 256) as u8] + to_le(x / 256, (w - 1) as nat)
    }
}

/// A payload framed by `d` on both sides.
pub open spec fn framed(d: u8, payload: Seq<u8>) -> Seq<u8> {
    seq![d] + payload + seq![d]
}

/// The encoding of a value.
pub open spec fn enc(v: Val) -> Seq<u8>
    decreases v,
{
    match v {
        Val::Bool(b) => seq![if b { 1u8 } else { 0u8 }],
        Val::Int(k, n) => to_le(n, kind_width(k)),
        Val::Char(c) => to_le(c, 4),
        Val::Str(cs) => framed(STRING_DELIMITER, encode_utf8(cs)),
        Val::Bytes(b) => framed(BYTE_DELIMITER, b),
        Val::Unit => seq![UNIT],
        Val::Opt(o) => match o {
            None => seq![UNIT],
            Some(x) => enc(*x),
        },
        Val::Sequence(xs) => seq![SEQ_DELIMITER] + enc_items(xs, true) + seq![SEQ_DELIMITER],
        Val::Mapping(es) => seq![MAP_DELIMITER] + enc_entries(es, true) + seq![MAP_DELIMITER],
        Val::Enum(i, p) => seq![ENUM_DELIMITER] + to_le(i, 4) + match p {
            None => Seq::empty(),
            Some(x) => enc(*x),
        },
    }
}

/// The items of a sequence, a separator before each but the first.
pub open spec fn enc_items(xs: Seq<Val>, first: bool) -> Seq<u8>
    decreases xs,
{
    if xs.len() == 0 {
        Seq::empty()
    } else {
        (if first { Seq::empty() } else { seq![SEQ_VALUE_DELIMITER] }) + enc(xs[0]) + enc_items(
            xs.drop_first(),
            false,
        )
    }
}

/// One map entry: its key and its value, each framed.
pub open spec fn enc_entry(e: (Val, Val)) -> Seq<u8>
    decreases e,
{
    framed(MAP_KEY_DELIMITER, enc(e.0)) + framed(MAP_VALUE_DELIMITER, enc(e.1))
}

/// The entries of a map, a separator before each but the first.
pub open spec fn enc_entries(es: Seq<(Val, Val)>, first: bool) -> Seq<u8>
    decreases es,
{
    if es.len() == 0 {
        Seq::empty()
    } else {
        (if first { Seq::empty() } else { seq![MAP_VALUE_SEPARATOR] }) + enc_entry(es[0])
            + enc_entries(es.drop_first(), false)
    }
}

/// Where the first `d` stands in `s`, if anywhere.
pub open spec fn find(s: Seq<u8>, d: u8) -> Option<nat>
    decreases s.len(),
{
    if s.len() == 0 {
        None
    } else if s[0] == d {
        Some(0)
    } else {
        match find(s.drop_first(), d) {
            None => None,
            Some(j) => Some(j + 1),
        }
    }
}

/// A framed run: after the opening `d` (already checked), the bytes up to the
/// next `d`, and how many bytes the run takes with both delimiters.
pub open spec fn parse_run(s: Seq<u8>, d: u8) -> Option<(Seq<u8>, nat)> {
    match find(s.drop_first(), d) {
        None => None,
        Some(j) => Some((s.subrange(1, (j + 1) as int), j + 2)),
    }
}

/// The result of decoding `s` as `sh`: the value and how many bytes it took.
/// Bytes after the value are left alone.
pub open spec fn parse(sh: Shape, s: Seq<u8>) -> Result<(Val, nat), Error>
    decreases s.len(), sh, 0nat,
{
    match sh {
        Shape::Bool => if s.len() < 1 {
            Err(Error::EndOfInput)
        } else {
            Ok((Val::Bool(s[0] != 0), 1))
        },
        Shape::Int(k) => if s.len() < kind_width(k) {
            Err(Error::EndOfInput)
        } else {
            Ok((Val::Int(k, le(s.take(kind_width(k) as int))), kind_width(k)))
        },
        Shape::Char => if s.len() < 4 {
            Err(Error::EndOfInput)
        } else if is_scalar(le(s.take(4)) as u32) {
            Ok((Val::Char(le(s.take(4))), 4))
        } else {
            Err(Error::InvalidCodePoint)
        },
        Shape::Str => if s.len() < 1 {
            Err(Error::EndOfInput)
        } else if s[0] != STRING_DELIMITER {
            Err(Error::ExpectedStringDelimiter)
        } else {
            match parse_run(s, STRING_DELIMITER) {
                None => Err(Error::EndOfInput),
                Some((p, n)) => if valid_utf8(p) {
                    Ok((Val::Str(decode_utf8(p)), n))
                } else {
                    Err(Error::ConversionError)
                },
            }
        },
        Shape::Bytes => if s.len() < 1 {
            Err(Error::EndOfInput)
        } else if s[0] != BYTE_DELIMITER {
            Err(Error::ExpectedByteDelimiter)
        } else {
            match parse_run(s, BYTE_DELIMITER) {
                None => Err(Error::EndOfInput),
                Some((p, n)) => Ok((Val::Bytes(p), n)),
            }
        },
        Shape::Unit => if s.len() < 1 {
            Err(Error::EndOfInput)
        } else if s[0] != UNIT {
            Err(Error::ExpectedUnit)
        } else {
            Ok((Val::Unit, 1))
        },
        Shape::Opt(inner) => if s.len() < 1 {
            Err(Error::EndOfInput)
        } else if s[0] == UNIT {
            Ok((Val::Opt(None), 1))
        } else {
            match parse(*inner, s) {
                Err(e) => Err(e),
                Ok((v, n)) => Ok((Val::Opt(Some(Box::new(v))), n)),
            }
        },
        Shape::Sequence(ls) => if s.len() < 1 {
            Err(Error::EndOfInput)
        } else if s[0] != SEQ_DELIMITER {
            Err(Error::ExpectedSeqDelimiter)
        } else {
            match parse_items(ls, s.drop_first(), 0) {
                Err(e) => Err(e),
                Ok((xs, n)) => if s.len() < n + 2 {
                    Err(Error::EndOfInput)
                } else if s[(n + 1) as int] != SEQ_DELIMITER {
                    Err(Error::ExpectedSeqDelimiter)
                } else {
                    Ok((Val::Sequence(xs), n + 2))
                },
            }
        },
        Shape::Mapping(_, _) => if s.len() < 1 {
            Err(Error::EndOfInput)
        } else if s[0] != MAP_DELIMITER {
            Err(Error::ExpectedMapDelimiter)
        } else {
            match parse_entries(sh, s.drop_first(), 0) {
                Err(e) => Err(e),
                Ok((es, n)) => if s.len() < n + 2 {
                    Err(Error::EndOfInput)
                } else if s[(n + 1) as int] != MAP_DELIMITER {
                    Err(Error::ExpectedMapDelimiter)
                } else {
                    Ok((Val::Mapping(es), n + 2))
                },
            }
        },
        Shape::Enum(vs) => if s.len() < 1 {
            Err(Error::EndOfInput)
        } else if s[0] != ENUM_DELIMITER {
            Err(Error::ExpectedEnumDelimiter)
        } else if s.len() < 5 {
            Err(Error::EndOfInput)
        } else if le(s.subrange(1, 5)) >= vs@.len() {
            Err(Error::UnknownVariant)
        } else {
            let i = le(s.subrange(1, 5));
            match vs@[i as int] {
                None => Ok((Val::Enum(i, None), 5)),
                Some(p) => match parse(p, s.skip(5)) {
                    Err(e) => Err(e),
                    Ok((v, n)) => Ok((Val::Enum(i, Some(Box::new(v))), n + 5)),
                },
            }
        },
    }
}

/// The result of decoding the whole of `s` as one value of shape `sh`: bytes
/// left after the value are an error.
pub open spec fn decode_all(sh: Shape, s: Seq<u8>) -> Result<Val, Error> {
    match parse(sh, s) {
        Err(e) => Err(e),
        Ok((v, n)) => if n == s.len() {
            Ok(v)
        } else {
            Err(Error::TrailingBytes)
        },
    }
}

/// One step of a sequence's items: `None` at the closing delimiter, else the
/// next item, after its separator when it is not the first. Gives the value
/// and the bytes taken, separator included.
pub open spec fn item_step(sh: Shape, s: Seq<u8>, first: bool) -> Result<Option<(Val, nat)>, Error>
    decreases s.len(), sh, 1nat,
{
    if s.len() < 1 {
        Err(Error::EndOfInput)
    } else if s[0] == SEQ_DELIMITER {
        Ok(None)
    } else if first {
        match parse(sh, s) {
            Err(e) => Err(e),
            Ok((v, n)) => Ok(Some((v, n))),
        }
    } else if s[0] != SEQ_VALUE_DELIMITER {
        Err(Error::ExpectedSeqValueDelimiter)
    } else {
        match parse(sh, s.drop_first()) {
            Err(e) => Err(e),
            Ok((v, n)) => Ok(Some((v, n + 1))),
        }
    }
}

/// The items of a sequence from item `i` on, up to (not including) the
/// closing delimiter.
pub open spec fn parse_items(ls: ListShape, s: Seq<u8>, i: nat) -> Result<(Seq<Val>, nat), Error>
    decreases s.len(), ls, 0nat,
{
    if !in_range(ls, i) {
        Ok((Seq::empty(), 0))
    } else {
        match item_step(item_shape(ls, i), s, i == 0) {
            Err(e) => Err(e),
            Ok(None) => if ls is Fixed {
                Err(Error::LengthMismatch)
            } else {
                Ok((Seq::empty(), 0))
            },
            Ok(Some((v, n))) => if n == 0 || n > s.len() {
                Err(Error::EndOfInput)
            } else {
                match parse_items(ls, s.skip(n as int), i + 1) {
                    Err(e) => Err(e),
                    Ok((xs, m)) => Ok((seq![v] + xs, n + m)),
                }
            },
        }
    }
}

/// The key half of one map entry: `None` at the closing delimiter, else the
/// separator (when not first), the framed key, and the bytes taken.
pub open spec fn key_step(ks: Shape, s: Seq<u8>, first: bool) -> Result<Option<(Val, nat)>, Error>
    decreases s.len(), ks, 1nat,
{
    let o: nat = if first { 0 } else { 1 };
    if s.len() < 1 {
        Err(Error::EndOfInput)
    } else if s[0] == MAP_DELIMITER {
        Ok(None)
    } else if !first && s[0] != MAP_VALUE_SEPARATOR {
        Err(Error::ExpectedMapValueSeparator)
    } else if s.len() < o + 1 {
        Err(Error::EndOfInput)
    } else if s[o as int] != MAP_KEY_DELIMITER {
        Err(Error::ExpectedMapKeyDelimiter)
    } else {
        match parse(ks, s.skip((o + 1) as int)) {
            Err(e) => Err(e),
            Ok((k, n)) => if s.len() < o + n + 2 {
                Err(Error::EndOfInput)
            } else if s[(o + n + 1) as int] != MAP_KEY_DELIMITER {
                Err(Error::ExpectedMapKeyDelimiter)
            } else {
                Ok(Some((k, o + n + 2)))
            },
        }
    }
}

/// The value half of one map entry, framed, and the bytes taken.
pub open spec fn value_step(vs: Shape, s: Seq<u8>) -> Result<(Val, nat), Error>
    decreases s.len(), vs, 1nat,
{
    if s.len() < 1 {
        Err(Error::EndOfInput)
    } else if s[0] != MAP_VALUE_DELIMITER {
        Err(Error::ExpectedMapValueDelimiter)
    } else {
        match parse(vs, s.drop_first()) {
            Err(e) => Err(e),
            Ok((v, n)) => if s.len() < n + 2 {
                Err(Error::EndOfInput)
            } else if s[(n + 1) as int] != MAP_VALUE_DELIMITER {
                Err(Error::ExpectedMapValueDelimiter)
            } else {
                Ok((v, n + 2))
            },
        }
    }
}

/// The entries of a map (`mp` is its `Mapping` shape) from entry `i` on, up
/// to the closing delimiter.
pub open spec fn parse_entries(mp: Shape, s: Seq<u8>, i: nat) -> Result<(Seq<(Val, Val)>, nat), Error>
    decreases s.len(), mp, 0nat,
{
    match mp {
        Shape::Mapping(ks, ls) => if !in_range(ls, i) {
            Ok((Seq::empty(), 0))
        } else {
            match key_step(*ks, s, i == 0) {
                Err(e) => Err(e),
                Ok(None) => if ls is Fixed {
                    Err(Error::LengthMismatch)
                } else {
                    Ok((Seq::empty(), 0))
                },
                Ok(Some((k, n))) => if n == 0 || n > s.len() {
                    Err(Error::EndOfInput)
                } else {
                    match value_step(item_shape(ls, i), s.skip(n as int)) {
                        Err(e) => Err(e),
                        Ok((v, m)) => if m == 0 || n + m > s.len() {
                            Err(Error::EndOfInput)
                        } else {
                            match parse_entries(mp, s.skip((n + m) as int), i + 1) {
                                Err(e) => Err(e),
                                Ok((es, r)) => Ok((seq![(k, v)] + es, n + m + r)),
                            }
                        }
                    }
                },
            }
        },
        _ => Ok((Seq::empty(), 0)),
    }
}

/// The widths that the integer readers accept.
pub open spec fn valid_width(w: nat) -> bool {
    w == 1 || w == 2 || w == 4 || w == 8
}

pub proof fn lemma_radix_values()
    ensures
        radix(0) == 1,
        radix(1) == 256,
        radix(2) == 0x1_0000,
        radix(4) == 0x1_0000_0000,
        radix(8) == 0x1_0000_0000_0000_0000,
{
    reveal_with_fuel(radix, 9);
}

pub proof fn lemma_radix_mono(a: nat, b: nat)
    requires
        a <= b,
    ensures
        1 <= radix(a) <= radix(b),
    decreases b,
{
    if b > a {
        lemma_radix_mono(a, (b - 1) as nat);
    } else if a > 0 {
        lemma_radix_mono((a - 1) as nat, (a - 1) as nat);
    }
}

pub proof fn lemma_le_bound(b: Seq<u8>)
    ensures
        le(b) < radix(b.len()),
    decreases b.len(),
{
    if b.len() > 0 {
        lemma_le_bound(b.drop_first());
    }
}

pub proof fn lemma_to_le_len(x: nat, w: nat)
    ensures
        to_le(x, w).len() == w,
    decreases w,
{
    if w > 0 {
        lemma_to_le_len(x / 256, (w - 1) as nat);
    }
}

/// Reading back `w` little-endian bytes gives the number that was written.
pub proof fn lemma_le_to_le(x: nat, w: nat)
    requires
        x < radix(w),
    ensures
        le(to_le(x, w)) == x,
    decreases w,
{
    if w > 0 {
        let t = to_le(x, w);
        lemma_le_to_le(x / 256, (w - 1) as nat);
        assert(t.drop_first() =~= to_le(x / 256, (w - 1) as nat));
    }
}

/// Where `find` stops: at the first `d`, and nowhere when there is none.
pub proof fn lemma_find(s: Seq<u8>, d: u8)
    ensures
        find(s, d) matches Some(j) ==> j < s.len() && s[j as int] == d && forall|k: int|
            0 <= k < j ==> s[k] != d,
        find(s, d) is None ==> forall|k: int| 0 <= k < s.len() ==> s[k] != d,
    decreases s.len(),
{
    if s.len() > 0 {
        lemma_find(s.drop_first(), d);
        if s[0] != d {
            assert forall|k: int| 1 <= k < s.len() implies s[k] == s.drop_first()[k - 1] by {}
        }
    }
}

/// A value that parses takes at least one byte and no more than there are.
pub proof fn lemma_parse_len(sh: Shape, s: Seq<u8>)
    ensures
        parse(sh, s) matches Ok((v, n)) ==> 1 <= n <= s.len(),
    decreases s.len(), sh, 0nat,
{
    match sh {
        Shape::Str => lemma_find(s.drop_first(), STRING_DELIMITER),
        Shape::Bytes => lemma_find(s.drop_first(), BYTE_DELIMITER),
        Shape::Opt(inner) => if s.len() >= 1 && s[0] != UNIT {
            lemma_parse_len(*inner, s);
        },
        Shape::Sequence(ls) => if s.len() >= 1 {
            lemma_items_len(ls, s.drop_first(), 0);
        },
        Shape::Mapping(_, _) => if s.len() >= 1 {
            lemma_entries_len(sh, s.drop_first(), 0);
        },
        Shape::Enum(vs) => if s.len() >= 5 && s[0] == ENUM_DELIMITER && le(s.subrange(1, 5))
            < vs@.len() {
            let i = le(s.subrange(1, 5));
            if let Some(p) = vs@[i as int] {
                lemma_parse_len(p, s.skip(5));
            }
        },
        _ => {},
    }
}

pub proof fn lemma_item_step_len(sh: Shape, s: Seq<u8>, first: bool)
    ensures
        item_step(sh, s, first) matches Ok(Some((v, n))) ==> 1 <= n <= s.len(),
    decreases s.len(), sh, 1nat,
{
    if s.len() >= 1 && s[0] != SEQ_DELIMITER {
        if first {
            lemma_parse_len(sh, s);
        } else {
            lemma_parse_len(sh, s.drop_first());
        }
    }
}

pub proof fn lemma_items_len(ls: ListShape, s: Seq<u8>, i: nat)
    ensures
        parse_items(ls, s, i) matches Ok((xs, n)) ==> n <= s.len(),
    decreases s.len(), ls, 0nat,
{
    if in_range(ls, i) {
        if let Ok(Some((v, n))) = item_step(item_shape(ls, i), s, i == 0) {
            if 0 < n <= s.len() {
                lemma_items_len(ls, s.skip(n as int), i + 1);
            }
        }
    }
}

pub proof fn lemma_key_step_len(ks: Shape, s: Seq<u8>, first: bool)
    ensures
        key_step(ks, s, first) matches Ok(Some((k, n))) ==> 1 <= n <= s.len(),
    decreases s.len(), ks, 1nat,
{
}

pub proof fn lemma_value_step_len(vs: Shape, s: Seq<u8>)
    ensures
        value_step(vs, s) matches Ok((v, n)) ==> 1 <= n <= s.len(),
    decreases s.len(), vs, 1nat,
{
}

pub proof fn lemma_entries_len(mp: Shape, s: Seq<u8>, i: nat)
    ensures
        parse_entries(mp, s, i) matches Ok((es, n)) ==> n <= s.len(),
    decreases s.len(), mp, 0nat,
{
    if let Shape::Mapping(ks, ls) = mp {
        if in_range(ls, i) {
            if let Ok(Some((k, n))) = key_step(*ks, s, i == 0) {
                if 0 < n <= s.len() {
                    if let Ok((v, m)) = value_step(item_shape(ls, i), s.skip(n as int)) {
                        if 0 < m && n + m <= s.len() {
                            lemma_entries_len(mp, s.skip((n + m) as int), i + 1);
                        }
                    }
                }
            }
        }
    }
}

} // verus!
