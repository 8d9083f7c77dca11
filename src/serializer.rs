use vstd::prelude::*;

use crate::grammar::{enc, enc_entries, enc_entry, enc_items, framed, lemma_radix_values, to_le};
use crate::wire::{
    entries_view, value_view, values_view, Value, BYTE_DELIMITER, ENUM_DELIMITER,
    MAP_DELIMITER, MAP_KEY_DELIMITER, MAP_VALUE_DELIMITER, MAP_VALUE_SEPARATOR, SEQ_DELIMITER,
    SEQ_VALUE_DELIMITER, STRING_DELIMITER, UNIT,
};

verus! {

/// Appends the `w` little-endian bytes of `x`.
fn write_le(out: &mut Vec<u8>, x: u64, w: usize)
    ensures
        final(out)@ == old(out)@ + to_le(x as nat, w as nat),
{
    let mut cur: u64 = x;
    let mut i: usize = 0;
    while i < w
        invariant
            i <= w,
            out@ + to_le(cur as nat, (w - i) as nat) == old(out)@ + to_le(x as nat, w as nat),
        decreases w - i,
    {
        let ghost before = out@;
        out.push((cur % 256) as u8);
        proof {
            assert(to_le(cur as nat, (w - i) as nat) == seq![(cur as nat % 256) as u8] + to_le(
                cur as nat / 256,
                (w - i - 1) as nat,
            ));
            assert(out@ + to_le(cur as nat / 256, (w - i - 1) as nat) =~= before + to_le(
                cur as nat,
                (w - i) as nat,
            ));
        }
        cur = cur / 256;
        i = i + 1;
    }
    assert(out@ + to_le(cur as nat, 0) =~= out@);
}

/// Appends every byte of `b`.
fn write_all(out: &mut Vec<u8>, b: &[u8])
    ensures
        final(out)@ == old(out)@ + b@,
{
    let mut i: usize = 0;
    while i < b.len()
        invariant
            i <= b@.len(),
            out@ == old(out)@ + b@.take(i as int),
        decreases b@.len() - i,
    {
        out.push(b[i]);
        i = i + 1;
        assert(out@ =~= old(out)@ + b@.take(i as int));
    }
    assert(b@.take(b@.len() as int) =~= b@);
}

/// Appends a payload framed by `d` on both sides.
fn write_framed(out: &mut Vec<u8>, d: u8, b: &[u8])
    ensures
        final(out)@ == old(out)@ + framed(d, b@),
{
    out.push(d);
    write_all(out, b);
    out.push(d);
    assert(out@ =~= old(out)@ + framed(d, b@));
}

/// Appends the encoding of `v`.
pub fn encode_into(v: &Value, out: &mut Vec<u8>)
    ensures
        final(out)@ == old(out)@ + enc(v@),
    decreases v,
{
    proof {
        lemma_radix_values();
    }
    match v {
        Value::Bool(b) => out.push(if *b { 1 } else { 0 }),
        Value::U8(x) => write_le(out, *x as u64, 1),
        Value::U16(x) => write_le(out, *x as u64, 2),
        Value::U32(x) => write_le(out, *x as u64, 4),
        Value::U64(x) => write_le(out, *x, 8),
        Value::I8(x) => write_le(out, if *x < 0 { (*x as i64 + 0x100) as u64 } else { *x as u64 }, 1),
        Value::I16(x) => write_le(
            out,
            if *x < 0 { (*x as i64 + 0x1_0000) as u64 } else { *x as u64 },
            2,
        ),
        Value::I32(x) => write_le(
            out,
            if *x < 0 { (*x as i64 + 0x1_0000_0000) as u64 } else { *x as u64 },
            4,
        ),
        Value::I64(x) => write_le(
            out,
            if *x < 0 { (*x as i128 + 0x1_0000_0000_0000_0000) as u64 } else { *x as u64 },
            8,
        ),
        Value::F32(x) => write_le(out, *x as u64, 4),
        Value::F64(x) => write_le(out, *x, 8),
        Value::Char(c) => write_le(out, *c as u32 as u64, 4),
        Value::Str(s) => write_framed(out, STRING_DELIMITER, s.as_str().as_bytes()),
        Value::Bytes(b) => write_framed(out, BYTE_DELIMITER, b.as_slice()),
        Value::Unit => out.push(UNIT),
        Value::Opt(o) => match o {
            None => out.push(UNIT),
            Some(x) => encode_into(x, out),
        },
        Value::Sequence(items) => {
            out.push(SEQ_DELIMITER);
            let ghost start = out@;
            let ghost xs = values_view(items@);
            let mut i: usize = 0;
            assert(items@.skip(0) =~= items@);
            while i < items.len()
                invariant
                    *v == Value::Sequence(*items),
                    i <= items@.len(),
                    out@ + enc_items(values_view(items@.skip(i as int)), i == 0) == start
                        + enc_items(xs, true),
                decreases items@.len() - i,
            {
                let ghost before = out@;
                let ghost tail = items@.skip(i as int);
                proof {
                    assert(tail.drop_first() =~= items@.skip(i + 1));
                    assert(values_view(tail)[0] == value_view(items@[i as int]));
                    assert(values_view(tail).drop_first() == values_view(items@.skip(i + 1)));
                }
                if i > 0 {
                    out.push(SEQ_VALUE_DELIMITER);
                }
                proof {
                    assert(decreases_to!(*v => v->Sequence_0));
                    assert(decreases_to!(*items => items[i as int]));
                }
                encode_into(&items[i], out);
                i = i + 1;
                proof {
                    let sep = if i - 1 == 0 { Seq::<u8>::empty() } else { seq![SEQ_VALUE_DELIMITER] };
                    assert(out@ == before + sep + enc(value_view(items@[i - 1])));
                    assert(out@ + enc_items(values_view(items@.skip(i as int)), false) =~= before
                        + enc_items(values_view(tail), i - 1 == 0));
                }
            }
            proof {
                assert(items@.skip(i as int) =~= Seq::<Value>::empty());
                assert(out@ =~= start + enc_items(xs, true));
            }
            out.push(SEQ_DELIMITER);
        },
        Value::Mapping(entries) => {
            out.push(MAP_DELIMITER);
            let ghost start = out@;
            let ghost es = entries_view(entries@);
            let mut i: usize = 0;
            assert(entries@.skip(0) =~= entries@);
            while i < entries.len()
                invariant
                    *v == Value::Mapping(*entries),
                    i <= entries@.len(),
                    out@ + enc_entries(entries_view(entries@.skip(i as int)), i == 0) == start
                        + enc_entries(es, true),
                decreases entries@.len() - i,
            {
                let ghost before = out@;
                let ghost tail = entries@.skip(i as int);
                proof {
                    assert(tail.drop_first() =~= entries@.skip(i + 1));
                    assert(entries_view(tail)[0] == (
                        value_view(entries@[i as int].0),
                        value_view(entries@[i as int].1),
                    ));
                    assert(entries_view(tail).drop_first() == entries_view(entries@.skip(i + 1)));
                }
                if i > 0 {
                    out.push(MAP_VALUE_SEPARATOR);
                }
                out.push(MAP_KEY_DELIMITER);
                proof {
                    assert(decreases_to!(*v => v->Mapping_0));
                    assert(decreases_to!(*entries => entries[i as int]));
                    assert(decreases_to!(entries[i as int] => entries[i as int].0));
                    assert(decreases_to!(entries[i as int] => entries[i as int].1));
                }
                encode_into(&entries[i].0, out);
                out.push(MAP_KEY_DELIMITER);
                out.push(MAP_VALUE_DELIMITER);
                encode_into(&entries[i].1, out);
                out.push(MAP_VALUE_DELIMITER);
                i = i + 1;
                proof {
                    let sep = if i - 1 == 0 { Seq::<u8>::empty() } else { seq![MAP_VALUE_SEPARATOR] };
                    assert(out@ =~= before + sep + enc_entry(entries_view(tail)[0]));
                    assert(out@ + enc_entries(entries_view(entries@.skip(i as int)), false)
                        =~= before + enc_entries(entries_view(tail), i - 1 == 0));
                }
            }
            proof {
                assert(entries@.skip(i as int) =~= Seq::<(Value, Value)>::empty());
                assert(out@ =~= start + enc_entries(es, true));
            }
            out.push(MAP_DELIMITER);
        },
        Value::Enum(i, p) => {
            out.push(ENUM_DELIMITER);
            write_le(out, *i as u64, 4);
            match p {
                None => {},
                Some(x) => encode_into(x, out),
            }
        },
    }
    proof {
        assert(out@ =~= old(out)@ + enc(v@));
    }
}

/// The encoding of `v`. It never fails. It decodes back to `v` whenever
/// `v` fits its shape (`laws::fits`): strings always do, but a byte buffer
/// holding `BYTE_DELIMITER`, a present optional whose encoding starts with
/// `UNIT`, or a sequence whose first item's encoding starts with
/// `SEQ_DELIMITER` does not decode back.
pub fn to_bytes(v: &Value) -> (r: Vec<u8>)
    ensures
        r@ == enc(v@),
{
    let mut out: Vec<u8> = Vec::new();
    encode_into(v, &mut out);
    assert(out@ =~= enc(v@));
    out
}

} // verus!
