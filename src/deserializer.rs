use vstd::prelude::*;

use crate::cursor::CustomDeserializer;
use crate::error::Error;
use crate::grammar::{
    decode_all,
    item_step, key_step, lemma_item_step_len, lemma_key_step_len, lemma_le_bound, lemma_parse_len,
    lemma_radix_values, lemma_value_step_len, parse, parse_entries, parse_items, value_step,
};
use crate::wire::{
    entries_view, in_range, item_shape, value_view, values_view, IntKind, ListShape, Shape, Val,
    Value, BYTE_DELIMITER, ENUM_DELIMITER, MAP_DELIMITER, SEQ_DELIMITER, STRING_DELIMITER, UNIT,
};

verus! {

proof fn lemma_values_view_push(xs: Seq<Value>, x: Value)
    ensures
        values_view(xs.push(x)) == values_view(xs).push(value_view(x)),
    decreases xs.len(),
{
    if xs.len() == 0 {
        let ys = xs.push(x);
        assert(ys.drop_first() =~= Seq::<Value>::empty());
        assert(values_view(ys.drop_first()) =~= Seq::<Val>::empty());
        assert(values_view(ys) == seq![value_view(ys[0])] + values_view(ys.drop_first()));
        assert(values_view(ys) =~= values_view(xs).push(value_view(x)));
    } else {
        let ys = xs.push(x);
        assert(ys.drop_first() =~= xs.drop_first().push(x));
        lemma_values_view_push(xs.drop_first(), x);
        assert(values_view(ys) == seq![value_view(ys[0])] + values_view(ys.drop_first()));
        assert(values_view(xs) == seq![value_view(xs[0])] + values_view(xs.drop_first()));
        assert(values_view(ys) =~= values_view(xs).push(value_view(x)));
    }
}

proof fn lemma_entries_view_push(es: Seq<(Value, Value)>, e: (Value, Value))
    ensures
        entries_view(es.push(e)) == entries_view(es).push((value_view(e.0), value_view(e.1))),
    decreases es.len(),
{
    if es.len() == 0 {
        let ys = es.push(e);
        assert(ys.drop_first() =~= Seq::<(Value, Value)>::empty());
        assert(entries_view(ys.drop_first()) =~= Seq::<(Val, Val)>::empty());
        assert(entries_view(ys) == seq![(value_view(ys[0].0), value_view(ys[0].1))] + entries_view(
            ys.drop_first(),
        ));
        assert(entries_view(es.push(e)) =~= entries_view(es).push(
            (value_view(e.0), value_view(e.1)),
        ));
    } else {
        let ys = es.push(e);
        assert(ys.drop_first() =~= es.drop_first().push(e));
        lemma_entries_view_push(es.drop_first(), e);
        assert(entries_view(ys) == seq![(value_view(ys[0].0), value_view(ys[0].1))] + entries_view(
            ys.drop_first(),
        ));
        assert(entries_view(es) == seq![(value_view(es[0].0), value_view(es[0].1))] + entries_view(
            es.drop_first(),
        ));
        assert(entries_view(es.push(e)) =~= entries_view(es).push(
            (value_view(e.0), value_view(e.1)),
        ));
    }
}

/// Reads the items of a sequence, one per call.
pub struct MinimalSequenceDeserializer {
    first: bool,
}

impl MinimalSequenceDeserializer {
    pub closed spec fn at_first(&self) -> bool {
        self.first
    }

    pub fn new() -> (r: Self)
        ensures
            r.at_first(),
    {
        MinimalSequenceDeserializer { first: true }
    }

    /// The next item as `sh`, or `None` at the closing delimiter (which is
    /// left for the caller). Items after the first are preceded by a
    /// separator.
    pub fn next_element(&mut self, de: &mut CustomDeserializer, sh: &Shape) -> (r: Result<
        Option<Value>,
        Error,
    >)
        requires
            old(de).wf(),
        ensures
            final(de).wf(),
            match item_step(*sh, old(de).rest(), old(self).at_first()) {
                Err(e) => r is Err && r->Err_0 == e,
                Ok(None) => r is Ok && r->Ok_0 is None && final(de).rest() == old(de).rest()
                    && final(self).at_first() == old(self).at_first(),
                Ok(Some((v, n))) => r is Ok && r->Ok_0 is Some && r->Ok_0->0@ == v && final(de).rest() == old(de).rest().skip(n as int) && !final(self).at_first(),
            },
        decreases old(de).rest().len(), *sh, 3nat,
    {
        proof {
            lemma_item_step_len(*sh, old(de).rest(), old(self).at_first());
        }
        let b = de.peek_byte()?;
        if b == SEQ_DELIMITER {
            return Ok(None);
        }
        if !self.first {
            let sep = de.eat_byte()?;
            if sep != crate::wire::SEQ_VALUE_DELIMITER {
                return Err(Error::ExpectedSeqValueDelimiter);
            }
        }
        self.first = false;
        let v = decode_value(de, sh)?;
        proof {
            if !old(self).at_first() {
                assert(old(de).rest().skip(
                    item_step(*sh, old(de).rest(), false)->Ok_0->Some_0.1 as int,
                ) =~= old(de).rest().drop_first().skip(
                    parse(*sh, old(de).rest().drop_first())->Ok_0.1 as int,
                ));
            }
        }
        Ok(Some(v))
    }
}

/// Reads the entries of a map, a key and then its value per entry.
pub struct MinimalMapDeserializer {
    first: bool,
}

impl MinimalMapDeserializer {
    pub closed spec fn at_first(&self) -> bool {
        self.first
    }

    pub fn new() -> (r: Self)
        ensures
            r.at_first(),
    {
        MinimalMapDeserializer { first: true }
    }

    /// The next key as `ks` with its framing, or `None` at the closing
    /// delimiter (which is left for the caller). Entries after the first are
    /// preceded by a separator.
    pub fn next_key(&mut self, de: &mut CustomDeserializer, ks: &Shape) -> (r: Result<
        Option<Value>,
        Error,
    >)
        requires
            old(de).wf(),
        ensures
            final(de).wf(),
            match key_step(*ks, old(de).rest(), old(self).at_first()) {
                Err(e) => r is Err && r->Err_0 == e,
                Ok(None) => r is Ok && r->Ok_0 is None && final(de).rest() == old(de).rest()
                    && final(self).at_first() == old(self).at_first(),
                Ok(Some((k, n))) => r is Ok && r->Ok_0 is Some && r->Ok_0->0@ == k && final(de).rest() == old(de).rest().skip(n as int) && !final(self).at_first(),
            },
        decreases old(de).rest().len(), *ks, 3nat,
    {
        proof {
            lemma_key_step_len(*ks, old(de).rest(), old(self).at_first());
        }
        let ghost s = old(de).rest();
        let b = de.peek_byte()?;
        if b == MAP_DELIMITER {
            return Ok(None);
        }
        if !self.first {
            let sep = de.eat_byte()?;
            if sep != crate::wire::MAP_VALUE_SEPARATOR {
                return Err(Error::ExpectedMapValueSeparator);
            }
        }
        self.first = false;
        let ghost o: int = if old(self).at_first() { 0 } else { 1 };
        assert(de.rest() == s.skip(o));
        let kd = de.eat_byte()?;
        if kd != crate::wire::MAP_KEY_DELIMITER {
            return Err(Error::ExpectedMapKeyDelimiter);
        }
        assert(de.rest() =~= s.skip(o + 1));
        let k = decode_value(de, ks)?;
        let ghost n = parse(*ks, s.skip(o + 1))->Ok_0.1 as int;
        proof {
            lemma_parse_len(*ks, s.skip(o + 1));
        }
        assert(de.rest() =~= s.skip(o + 1 + n));
        let kd2 = de.eat_byte()?;
        if kd2 != crate::wire::MAP_KEY_DELIMITER {
            return Err(Error::ExpectedMapKeyDelimiter);
        }
        assert(de.rest() =~= s.skip(o + n + 2));
        Ok(Some(k))
    }

    /// The value of the current entry as `sh`, with its framing.
    pub fn next_value(&mut self, de: &mut CustomDeserializer, sh: &Shape) -> (r: Result<
        Value,
        Error,
    >)
        requires
            old(de).wf(),
        ensures
            final(de).wf(),
            final(self).at_first() == old(self).at_first(),
            match value_step(*sh, old(de).rest()) {
                Err(e) => r is Err && r->Err_0 == e,
                Ok((v, n)) => r is Ok && r->Ok_0@ == v && final(de).rest() == old(de).rest().skip(
                    n as int,
                ),
            },
        decreases old(de).rest().len(), *sh, 3nat,
    {
        proof {
            lemma_value_step_len(*sh, old(de).rest());
        }
        let ghost s = old(de).rest();
        let vd = de.eat_byte()?;
        if vd != crate::wire::MAP_VALUE_DELIMITER {
            return Err(Error::ExpectedMapValueDelimiter);
        }
        let v = decode_value(de, sh)?;
        let ghost n = parse(*sh, s.drop_first())->Ok_0.1 as int;
        proof {
            lemma_parse_len(*sh, s.drop_first());
        }
        assert(de.rest() =~= s.skip(1 + n));
        let vd2 = de.eat_byte()?;
        if vd2 != crate::wire::MAP_VALUE_DELIMITER {
            return Err(Error::ExpectedMapValueDelimiter);
        }
        assert(de.rest() =~= s.skip(n + 2));
        Ok(v)
    }
}

fn list_done(ls: &ListShape, i: usize) -> (r: bool)
    ensures
        r == !in_range(*ls, i as nat),
{
    match ls {
        ListShape::Repeat(_) => false,
        ListShape::Fixed(fs) => i >= fs.len(),
    }
}

fn list_is_fixed(ls: &ListShape) -> (r: bool)
    ensures
        r == (*ls is Fixed),
{
    match ls {
        ListShape::Repeat(_) => false,
        ListShape::Fixed(_) => true,
    }
}

fn list_item(ls: &ListShape, i: usize) -> (r: &Shape)
    requires
        in_range(*ls, i as nat),
    ensures
        *r == item_shape(*ls, i as nat),
{
    match ls {
        ListShape::Repeat(b) => b,
        ListShape::Fixed(fs) => &fs[i],
    }
}

/// A fixed-width integer (or float bit pattern).
fn decode_int(de: &mut CustomDeserializer, sh: &Shape) -> (r: Result<Value, Error>)
    requires
        old(de).wf(),
        *sh is Int,
    ensures
        final(de).wf(),
        match parse(*sh, old(de).rest()) {
            Err(e) => r is Err && r->Err_0 == e,
            Ok((v, n)) => r is Ok && r->Ok_0@ == v && final(de).rest() == old(de).rest().skip(
                n as int,
            ),
        },
{
    let ghost s = old(de).rest();
    proof {
        lemma_radix_values();
    }
    let k = match sh {
        Shape::Int(k) => k,
        _ => {
            return Err(Error::EndOfInput);
        },
    };
    match k {
        IntKind::U8 => {
            let x = de.parse_unsigned(1)?;
            proof {
                lemma_le_bound(s.take(1));
            }
            Ok(Value::U8(x as u8))
        },
        IntKind::U16 => {
            let x = de.parse_unsigned(2)?;
            proof {
                lemma_le_bound(s.take(2));
            }
            Ok(Value::U16(x as u16))
        },
        IntKind::U32 => {
            let x = de.parse_unsigned(4)?;
            proof {
                lemma_le_bound(s.take(4));
            }
            Ok(Value::U32(x as u32))
        },
        IntKind::U64 => Ok(Value::U64(de.parse_unsigned(8)?)),
        IntKind::I8 => Ok(Value::I8(de.parse_signed(1)? as i8)),
        IntKind::I16 => Ok(Value::I16(de.parse_signed(2)? as i16)),
        IntKind::I32 => Ok(Value::I32(de.parse_signed(4)? as i32)),
        IntKind::I64 => Ok(Value::I64(de.parse_signed(8)?)),
        IntKind::F32 => Ok(Value::F32(de.parse_f32()?)),
        IntKind::F64 => Ok(Value::F64(de.parse_f64()?)),
    }
}

/// A character.
fn decode_char(de: &mut CustomDeserializer, sh: &Shape) -> (r: Result<Value, Error>)
    requires
        old(de).wf(),
        *sh is Char,
    ensures
        final(de).wf(),
        match parse(*sh, old(de).rest()) {
            Err(e) => r is Err && r->Err_0 == e,
            Ok((v, n)) => r is Ok && r->Ok_0@ == v && final(de).rest() == old(de).rest().skip(
                n as int,
            ),
        },
{
    let ghost s = old(de).rest();
    proof {
        lemma_radix_values();
        lemma_parse_len(*sh, s);
    }
    let c = de.parse_char()?;
    proof {
        lemma_le_bound(s.take(4));
        crate::wire::lemma_char_view(c);
    }
    Ok(Value::Char(c))
}

/// A string, framed by its delimiters.
fn decode_str(de: &mut CustomDeserializer, sh: &Shape) -> (r: Result<Value, Error>)
    requires
        old(de).wf(),
        *sh is Str,
    ensures
        final(de).wf(),
        match parse(*sh, old(de).rest()) {
            Err(e) => r is Err && r->Err_0 == e,
            Ok((v, n)) => r is Ok && r->Ok_0@ == v && final(de).rest() == old(de).rest().skip(
                n as int,
            ),
        },
{
    let ghost s = old(de).rest();
    proof {
        lemma_radix_values();
        lemma_parse_len(*sh, s);
    }
    let b = de.eat_byte()?;
    if b != STRING_DELIMITER {
        return Err(Error::ExpectedStringDelimiter);
    }
    let mut bytes: Vec<u8> = Vec::new();
    let ghost b0 = bytes@;
    let res = de.parse_str(&mut bytes);
    proof {
        crate::grammar::lemma_find(s.drop_first(), STRING_DELIMITER);
        if let Some(j) = crate::grammar::find(s.drop_first(), STRING_DELIMITER) {
            assert(s.drop_first().take(j as int) =~= s.subrange(1, (j + 1) as int));
            assert(b0 + s.drop_first().take(j as int) =~= s.subrange(1, (j + 1) as int));
            assert(s.drop_first().skip((j + 1) as int) =~= s.skip((j + 2) as int));
        }
    }
    let text = res?;
    Ok(Value::Str(text))
}

/// A byte buffer, framed by its delimiters.
fn decode_bytes(de: &mut CustomDeserializer, sh: &Shape) -> (r: Result<Value, Error>)
    requires
        old(de).wf(),
        *sh is Bytes,
    ensures
        final(de).wf(),
        match parse(*sh, old(de).rest()) {
            Err(e) => r is Err && r->Err_0 == e,
            Ok((v, n)) => r is Ok && r->Ok_0@ == v && final(de).rest() == old(de).rest().skip(
                n as int,
            ),
        },
{
    let ghost s = old(de).rest();
    proof {
        lemma_radix_values();
        lemma_parse_len(*sh, s);
    }
    let b = de.eat_byte()?;
    if b != BYTE_DELIMITER {
        return Err(Error::ExpectedByteDelimiter);
    }
    let mut bytes: Vec<u8> = Vec::new();
    de.parse_bytes(&mut bytes)?;
    proof {
        crate::grammar::lemma_find(s.drop_first(), BYTE_DELIMITER);
        let j = crate::grammar::find(s.drop_first(), BYTE_DELIMITER)->0 as int;
        assert(s.drop_first().take(j as int) =~= s.subrange(1, j + 1));
        assert(s.drop_first().skip(j + 1) =~= s.skip(j + 2));
        assert(bytes@ =~= s.subrange(1, j + 1));
    }
    Ok(Value::Bytes(bytes))
}

/// A value of a shape that holds no other value.
fn decode_primitive(de: &mut CustomDeserializer, sh: &Shape) -> (r: Result<Value, Error>)
    requires
        old(de).wf(),
        !(*sh is Opt || *sh is Sequence || *sh is Mapping || *sh is Enum),
    ensures
        final(de).wf(),
        match parse(*sh, old(de).rest()) {
            Err(e) => r is Err && r->Err_0 == e,
            Ok((v, n)) => r is Ok && r->Ok_0@ == v && final(de).rest() == old(de).rest().skip(
                n as int,
            ),
        },
{
    let ghost s = old(de).rest();
    proof {
        lemma_radix_values();
        lemma_parse_len(*sh, s);
    }
    match sh {
        Shape::Bool => {
            let b = de.parse_bool()?;
            Ok(Value::Bool(b))
        },
        Shape::Int(k) => decode_int(de, sh),
        Shape::Char => decode_char(de, sh),
        Shape::Str => decode_str(de, sh),
        Shape::Bytes => decode_bytes(de, sh),
        Shape::Unit => {
            let b = de.eat_byte()?;
            if b != UNIT {
                return Err(Error::ExpectedUnit);
            }
            Ok(Value::Unit)
        },
        _ => Err(Error::EndOfInput),
    }
}

/// Decodes one value of shape `sh` from the cursor, leaving what follows it.
pub fn decode_value(de: &mut CustomDeserializer, sh: &Shape) -> (r: Result<Value, Error>)
    requires
        old(de).wf(),
    ensures
        final(de).wf(),
        match parse(*sh, old(de).rest()) {
            Err(e) => r is Err && r->Err_0 == e,
            Ok((v, n)) => r is Ok && r->Ok_0@ == v && final(de).rest() == old(de).rest().skip(
                n as int,
            ),
        },
    decreases old(de).rest().len(), *sh, 2nat,
{
    let ghost s = old(de).rest();
    proof {
        lemma_radix_values();
        lemma_parse_len(*sh, s);
    }
    match sh {
        Shape::Bool | Shape::Int(_) | Shape::Char | Shape::Str | Shape::Bytes | Shape::Unit => {
            decode_primitive(de, sh)
        },
        Shape::Opt(inner) => {
            let b = de.peek_byte()?;
            if b == UNIT {
                de.eat_byte()?;
                Ok(Value::Opt(None))
            } else {
                let v = decode_value(de, inner)?;
                Ok(Value::Opt(Some(Box::new(v))))
            }
        },
        Shape::Sequence(_) => decode_sequence(de, sh),
        Shape::Mapping(_, _) => decode_mapping(de, sh),
        Shape::Enum(_) => decode_enum(de, sh),
    }
}

/// A sequence: its delimiters and its items.
#[verifier::rlimit(100)]
fn decode_sequence(de: &mut CustomDeserializer, sh: &Shape) -> (r: Result<Value, Error>)
    requires
        old(de).wf(),
        *sh is Sequence,
    ensures
        final(de).wf(),
        match parse(*sh, old(de).rest()) {
            Err(e) => r is Err && r->Err_0 == e,
            Ok((v, n)) => r is Ok && r->Ok_0@ == v && final(de).rest() == old(de).rest().skip(
                n as int,
            ),
        },
    decreases old(de).rest().len(), *sh, 1nat,
{
    let ghost s = old(de).rest();
    proof {
        lemma_radix_values();
        lemma_parse_len(*sh, s);
    }
    let ls = match sh {
        Shape::Sequence(ls) => ls,
        _ => {
            return Err(Error::EndOfInput);
        },
    };
    let b = de.eat_byte()?;
    if b != SEQ_DELIMITER {
        return Err(Error::ExpectedSeqDelimiter);
    }
    let ghost s1 = s.drop_first();
    let mut access = MinimalSequenceDeserializer::new();
    let mut items: Vec<Value> = Vec::new();
    let mut i: usize = 0;
    assert(s1.skip(0) =~= s1);
    assert(values_view(items@) =~= Seq::<Val>::empty());
    loop
        invariant
            de.wf(),
            s == old(de).rest(),
            s1 == s.drop_first(),
            s.len() >= 1,
            s[0] == SEQ_DELIMITER,
            *sh == Shape::Sequence(*ls),
            de.rest().len() <= s1.len(),
            de.rest() == s1.skip(s1.len() - de.rest().len()),
            access.at_first() == (i == 0),
            items@.len() == i,
            match parse_items(*ls, de.rest(), i as nat) {
                Err(e) => parse_items(*ls, s1, 0) == Err::<(Seq<Val>, nat), Error>(e),
                Ok((xs, m)) => parse_items(*ls, s1, 0) == Ok::<(Seq<Val>, nat), Error>(
                    (values_view(items@) + xs, (s1.len() - de.rest().len() + m) as nat),
                ),
            },
        ensures
            de.wf(),
            de.rest().len() <= s1.len(),
            de.rest() == s1.skip(s1.len() - de.rest().len()),
            parse_items(*ls, s1, 0) == Ok::<(Seq<Val>, nat), Error>(
                (values_view(items@), (s1.len() - de.rest().len()) as nat),
            ),
        decreases de.rest().len(),
    {
        if list_done(ls, i) {
            break;
        }
        let ish = list_item(ls, i);
        let ghost cur = de.rest();
        proof {
            lemma_item_step_len(*ish, cur, i == 0);
        }
        match access.next_element(de, ish) {
            Err(e) => {
                return Err(e);
            },
            Ok(None) => {
                if list_is_fixed(ls) {
                    return Err(Error::LengthMismatch);
                }
                break;
            },
            Ok(Some(v)) => {
                proof {
                    let n = item_step(*ish, cur, i == 0)->Ok_0->Some_0.1;
                    lemma_values_view_push(items@, v);
                    assert(de.rest() =~= s1.skip(s1.len() - de.rest().len()));
                    match parse_items(*ls, de.rest(), (i + 1) as nat) {
                        Err(e) => {},
                        Ok((xs, m)) => {
                            assert(values_view(items@) + (seq![v@] + xs) =~= values_view(
                                items@.push(v),
                            ) + xs);
                        },
                    }
                }
                items.push(v);
                i = items.len();
            },
        }
    }
    proof {
        assert(values_view(items@) + Seq::<Val>::empty() =~= values_view(items@));
    }
    proof {
        let n = s1.len() - de.rest().len();
        assert(de.rest().len() == s.len() - n - 1);
        if de.rest().len() > 0 {
            assert(de.rest()[0] == s[n + 1]);
        }
    }
    let c = de.eat_byte()?;
    if c != SEQ_DELIMITER {
        return Err(Error::ExpectedSeqDelimiter);
    }
    proof {
        assert(de.rest() =~= s.skip(s.len() - de.rest().len()));
    }
    Ok(Value::Sequence(items))
}

/// A map: its delimiters and its entries.
#[verifier::rlimit(100)]
fn decode_mapping(de: &mut CustomDeserializer, sh: &Shape) -> (r: Result<Value, Error>)
    requires
        old(de).wf(),
        *sh is Mapping,
    ensures
        final(de).wf(),
        match parse(*sh, old(de).rest()) {
            Err(e) => r is Err && r->Err_0 == e,
            Ok((v, n)) => r is Ok && r->Ok_0@ == v && final(de).rest() == old(de).rest().skip(
                n as int,
            ),
        },
    decreases old(de).rest().len(), *sh, 1nat,
{
    let ghost s = old(de).rest();
    proof {
        lemma_radix_values();
        lemma_parse_len(*sh, s);
    }
    let (ks, ls) = match sh {
        Shape::Mapping(ks, ls) => (ks, ls),
        _ => {
            return Err(Error::EndOfInput);
        },
    };
    let b = de.eat_byte()?;
    if b != MAP_DELIMITER {
        return Err(Error::ExpectedMapDelimiter);
    }
    let ghost s1 = s.drop_first();
    let mut access = MinimalMapDeserializer::new();
    let mut entries: Vec<(Value, Value)> = Vec::new();
    let mut i: usize = 0;
    assert(s1.skip(0) =~= s1);
    assert(entries_view(entries@) =~= Seq::<(Val, Val)>::empty());
    loop
        invariant
            de.wf(),
            s == old(de).rest(),
            s1 == s.drop_first(),
            s.len() >= 1,
            de.rest().len() <= s1.len(),
            de.rest() == s1.skip(s1.len() - de.rest().len()),
            *sh == Shape::Mapping(*ks, *ls),
            s[0] == MAP_DELIMITER,
            access.at_first() == (i == 0),
            entries@.len() == i,
            match parse_entries(*sh, de.rest(), i as nat) {
                Err(e) => parse_entries(*sh, s1, 0) == Err::<(Seq<(Val, Val)>, nat), Error>(
                    e,
                ),
                Ok((es, m)) => parse_entries(*sh, s1, 0) == Ok::<
                    (Seq<(Val, Val)>, nat),
                    Error,
                >(
                    (
                        entries_view(entries@) + es,
                        (s1.len() - de.rest().len() + m) as nat,
                    ),
                ),
            },
        ensures
            de.wf(),
            de.rest().len() <= s1.len(),
            de.rest() == s1.skip(s1.len() - de.rest().len()),
            parse_entries(*sh, s1, 0) == Ok::<(Seq<(Val, Val)>, nat), Error>(
                (entries_view(entries@), (s1.len() - de.rest().len()) as nat),
            ),
        decreases de.rest().len(),
    {
        if list_done(ls, i) {
            break;
        }
        let ghost cur = de.rest();
        proof {
            lemma_key_step_len(**ks, cur, i == 0);
        }
        match access.next_key(de, ks) {
            Err(e) => {
                return Err(e);
            },
            Ok(None) => {
                if list_is_fixed(ls) {
                    return Err(Error::LengthMismatch);
                }
                break;
            },
            Ok(Some(k)) => {
                let ish = list_item(ls, i);
                let ghost mid = de.rest();
                proof {
                    lemma_value_step_len(*ish, mid);
                }
                let v = match access.next_value(de, ish) {
                    Err(e) => {
                        return Err(e);
                    },
                    Ok(v) => v,
                };
                proof {
                    let n = key_step(**ks, cur, i == 0)->Ok_0->Some_0.1 as int;
                    let m = value_step(*ish, mid)->Ok_0.1 as int;
                    assert(de.rest() =~= cur.skip(n + m));
                    lemma_entries_view_push(entries@, (k, v));
                    assert(de.rest() =~= s1.skip(s1.len() - de.rest().len()));
                    match parse_entries(*sh, de.rest(), (i + 1) as nat) {
                        Err(e) => {},
                        Ok((es, r)) => {
                            assert(entries_view(entries@) + (seq![(k@, v@)] + es)
                                =~= entries_view(entries@.push((k, v))) + es);
                        },
                    }
                }
                entries.push((k, v));
                i = entries.len();
            },
        }
    }
    proof {
        assert(entries_view(entries@) + Seq::<(Val, Val)>::empty() =~= entries_view(
            entries@,
        ));
    }
    proof {
        let n = s1.len() - de.rest().len();
        assert(de.rest().len() == s.len() - n - 1);
        if de.rest().len() > 0 {
            assert(de.rest()[0] == s[n + 1]);
        }
    }
    let c = de.eat_byte()?;
    if c != MAP_DELIMITER {
        return Err(Error::ExpectedMapDelimiter);
    }
    proof {
        assert(de.rest() =~= s.skip(s.len() - de.rest().len()));
    }
    Ok(Value::Mapping(entries))
}

/// An enum: its delimiter, its variant index and its payload.
fn decode_enum(de: &mut CustomDeserializer, sh: &Shape) -> (r: Result<Value, Error>)
    requires
        old(de).wf(),
        *sh is Enum,
    ensures
        final(de).wf(),
        match parse(*sh, old(de).rest()) {
            Err(e) => r is Err && r->Err_0 == e,
            Ok((v, n)) => r is Ok && r->Ok_0@ == v && final(de).rest() == old(de).rest().skip(
                n as int,
            ),
        },
    decreases old(de).rest().len(), *sh, 1nat,
{
    let ghost s = old(de).rest();
    proof {
        lemma_radix_values();
        lemma_parse_len(*sh, s);
    }
    let vs = match sh {
        Shape::Enum(vs) => vs,
        _ => {
            return Err(Error::EndOfInput);
        },
    };
    let b = de.eat_byte()?;
    if b != ENUM_DELIMITER {
        return Err(Error::ExpectedEnumDelimiter);
    }
    let idx = de.parse_unsigned(4)?;
    proof {
        assert(s.drop_first().take(4) =~= s.subrange(1, 5));
        assert(de.rest() =~= s.skip(5));
        lemma_le_bound(s.subrange(1, 5));
    }
    if idx >= vs.len() as u64 {
        return Err(Error::UnknownVariant);
    }
    match &vs[idx as usize] {
        None => Ok(Value::Enum(idx as u32, None)),
        Some(p) => {
            let v = decode_value(de, p)?;
            proof {
                lemma_parse_len(*p, s.skip(5));
                assert(de.rest() =~= s.skip(5 + parse(*p, s.skip(5))->Ok_0.1 as int));
            }
            Ok(Value::Enum(idx as u32, Some(Box::new(v))))
        },
    }
}

/// Decodes `bytes` as exactly one value of shape `sh`. The whole buffer
/// must be used: bytes left after the value are an error.
pub fn from_bytes(sh: &Shape, bytes: &[u8]) -> (r: Result<Value, Error>)
    ensures
        match decode_all(*sh, bytes@) {
            Err(e) => r is Err && r->Err_0 == e,
            Ok(v) => r is Ok && r->Ok_0@ == v,
        },
{
    let mut de = CustomDeserializer::new(bytes);
    proof {
        lemma_parse_len(*sh, bytes@);
    }
    let v = decode_value(&mut de, sh)?;
    if de.remaining() != 0 {
        return Err(Error::TrailingBytes);
    }
    Ok(v)
}

} // verus!
