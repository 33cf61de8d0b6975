//! Laws that relate the encoder and the decoder.
use crate::de::{
    decode_whole, entry_shape, field_index, parse, parse_entries, parse_items, parse_tuple_items,
    read_byte_string, read_int_token, variant_index, COLON, LOWER_D, LOWER_E, LOWER_I, LOWER_L,
};
use crate::grammar::{
    all_digits, decimal, digits_value, is_digit, lemma_find_from, read_i64, read_u64,
    signed_decimal, signed_digits_value,
};
use crate::ser::{dict_body, enc, enc_entries, enc_items, frame, key_bytes, EncodeConfig};
use crate::error::{DeError, SerError};
use crate::order::{
    canonical_order, entry_leq, lemma_canonical_order_is_sorted, lemma_entry_leq_total,
    lemma_sorted_unique, lex_lt, EntryBytes,
};
use crate::value::{Shape, Val};
use vstd::relations::sorted_by;
use vstd::prelude::*;
use vstd::utf8::encode_utf8;

verus! {

/// `v` is a value of shape `s`, nested at most `depth` deep.
pub open spec fn fits(v: Val, s: Shape, depth: nat) -> bool
    decreases depth, 1int,
{
    if depth == 0 {
        false
    } else {
        let d = (depth - 1) as nat;
        match s {
            Shape::Bool => v is Bool,
            Shape::Int => v is Int,
            Shape::UInt => v is UInt,
            Shape::Char => v is Char,
            Shape::Text => v is Text,
            Shape::Bytes => v is Bytes,
            Shape::Unit => v is Unit,
            Shape::UnitStruct(n) => v == Val::Text(n@),
            Shape::Optional(inner) => match v {
                Val::Present(x) => fits(*x, *inner, d),
                _ => false,
            },
            Shape::List(e) => match v {
                Val::List(xs) => forall|i: int| 0 <= i < xs.len() ==> fits(#[trigger] xs[i], *e, d),
                _ => false,
            },
            Shape::Tuple(ss) => match v {
                Val::List(xs) => xs.len() == ss@.len() && forall|i: int|
                    0 <= i < xs.len() ==> fits(#[trigger] xs[i], ss@[i], d),
                _ => false,
            },
            Shape::Dictionary(ks, vs) => match v {
                Val::Dict(es) => forall|i: int|
                    0 <= i < es.len() ==> entry_fits(#[trigger] es[i], *ks, *vs, None, depth),
                _ => false,
            },
            Shape::Record(fs) => match v {
                Val::Dict(es) => forall|i: int|
                    0 <= i < es.len() ==> entry_fits(
                        #[trigger] es[i],
                        Shape::Text,
                        Shape::Any,
                        Some(fs@),
                        depth,
                    ),
                _ => false,
            },
            Shape::Enum(vs) => match v {
                Val::Variant(n, p) => match variant_index(vs@, encode_utf8(n), 0) {
                    Some(j) => vs@[j].0@ == n && match (vs@[j].1, p) {
                        (None, None) => true,
                        (Some(ps), Some(x)) => fits(*x, ps, d),
                        _ => false,
                    },
                    None => false,
                },
                _ => false,
            },
            Shape::Any => false,
            Shape::Float => false,
        }
    }
}

/// An entry of a dictionary nested at most `depth` deep: its key is a byte
/// string of shape `key_shape`, and its value has the shape that the
/// dictionary gives its key.
pub open spec fn entry_fits(
    e: (Val, Val),
    key_shape: Shape,
    val_shape: Shape,
    fields: Option<Seq<(String, Shape)>>,
    depth: nat,
) -> bool
    decreases depth, 0int,
{
    &&& depth > 0
    &&& key_bytes(e.0) is Some
    &&& fits(e.0, key_shape, (depth - 1) as nat)
    &&& fits(e.1, entry_shape(val_shape, fields, e.0), (depth - 1) as nat)
    &&& fields is Some ==> e.0 is Text && field_index(fields->0, e.0->Text_0, 0) is Some
}

/// `b` stands in `inp` at `pos`.
pub open spec fn at(inp: Seq<u8>, pos: int, b: Seq<u8>) -> bool {
    0 <= pos && pos + b.len() <= inp.len() && inp.subrange(pos, pos + b.len()) == b
}

proof fn lemma_at_split(inp: Seq<u8>, pos: int, a: Seq<u8>, b: Seq<u8>)
    requires
        at(inp, pos, a + b),
    ensures
        at(inp, pos, a),
        at(inp, pos + a.len(), b),
{
    let whole = inp.subrange(pos, pos + (a + b).len());
    assert(inp.subrange(pos, pos + a.len()) =~= whole.subrange(0, a.len() as int));
    assert(whole.subrange(0, a.len() as int) =~= a);
    assert(inp.subrange(pos + a.len(), pos + a.len() + b.len()) =~= whole.subrange(
        a.len() as int,
        (a + b).len() as int,
    ));
    assert(whole.subrange(a.len() as int, (a + b).len() as int) =~= b);
}

proof fn lemma_at_index(inp: Seq<u8>, pos: int, b: Seq<u8>, i: int)
    requires
        at(inp, pos, b),
        0 <= i < b.len(),
    ensures
        inp[pos + i] == b[i],
{
    assert(inp.subrange(pos, pos + b.len())[i] == inp[pos + i]);
}

pub proof fn lemma_decimal(n: nat)
    ensures
        decimal(n).len() >= 1,
        all_digits(decimal(n)),
        digits_value(decimal(n)) == n,
    decreases n,
{
    if n < 10 {
        assert(decimal(n).drop_last() =~= Seq::<u8>::empty());
        assert(decimal(n).last() == (48 + n) as u8);
        assert(((48 + n) as u8) as int == 48 + n);
        assert(digits_value(decimal(n)) == digits_value(decimal(n).drop_last()) * 10 + (
        decimal(n).last() - 48) as nat);
    } else {
        lemma_decimal(n / 10);
        assert(decimal(n).drop_last() =~= decimal(n / 10));
        assert(decimal(n).last() == (48 + n % 10) as u8);
        assert(((48 + n % 10) as u8) as int == 48 + n % 10);
        assert(digits_value(decimal(n)) == digits_value(decimal(n).drop_last()) * 10 + (
        decimal(n).last() - 48) as nat);
        assert(n == (n / 10) * 10 + n % 10);
        assert forall|i: int| 0 <= i < decimal(n).len() implies is_digit(#[trigger] decimal(n)[i]) by {
            if i < decimal(n).len() - 1 {
                assert(decimal(n)[i] == decimal(n / 10)[i]);
            }
        }
    }
}

/// Reading the decimal digits of `n` gives `n` back.
pub proof fn lemma_read_decimal(n: nat)
    requires
        n <= u64::MAX,
    ensures
        read_u64(decimal(n)) == Some(n as u64),
        signed_digits_value(decimal(n)) == Some(n as int),
{
    lemma_decimal(n);
}

/// Reading the decimal text of `i` gives `i` back.
pub proof fn lemma_read_signed_decimal(i: i64)
    ensures
        read_i64(signed_decimal(i as int)) == Some(i),
{
    if i < 0 {
        let s = signed_decimal(i as int);
        lemma_decimal((-i) as nat);
        assert(s.drop_first() =~= decimal((-i) as nat));
    } else {
        lemma_decimal(i as nat);
    }
}

proof fn lemma_signed_decimal_no_e(i: int)
    ensures
        forall|k: int|
            0 <= k < signed_decimal(i).len() ==> #[trigger] signed_decimal(i)[k] != LOWER_E,
        forall|k: int|
            0 <= k < signed_decimal(i).len() ==> #[trigger] signed_decimal(i)[k] != COLON,
{
    if i < 0 {
        lemma_decimal((-i) as nat);
        assert forall|k: int| 0 <= k < signed_decimal(i).len() implies #[trigger] signed_decimal(
            i,
        )[k] != LOWER_E && signed_decimal(i)[k] != COLON by {
            if k > 0 {
                assert(signed_decimal(i)[k] == decimal((-i) as nat)[k - 1]);
            }
        }
    } else {
        lemma_decimal(i as nat);
    }
}

/// A byte string written by the encoder is read back whole.
pub proof fn lemma_read_frame(inp: Seq<u8>, pos: int, b: Seq<u8>)
    requires
        at(inp, pos, frame(b)),
        inp.len() <= usize::MAX,
    ensures
        read_byte_string(inp, pos) == Ok::<(Seq<u8>, int), DeError>((b, pos + frame(b).len())),
{
    let d = decimal(b.len());
    lemma_decimal(b.len());
    lemma_read_decimal(b.len());
    lemma_at_split(inp, pos, d + seq![COLON], b);
    lemma_at_split(inp, pos, d, seq![COLON]);
    assert forall|i: int| pos <= i < pos + d.len() implies inp[i] != COLON by {
        lemma_at_index(inp, pos, d, i - pos);
        assert(is_digit(d[i - pos]));
    }
    lemma_at_index(inp, pos + d.len(), seq![COLON], 0);
    lemma_find_from(inp, pos, COLON, pos + d.len());
    assert(inp.subrange(pos, pos + d.len()) == d);
}

/// An integer token written by the encoder is read back whole.
proof fn lemma_read_token(inp: Seq<u8>, pos: int, t: Seq<u8>)
    requires
        at(inp, pos, seq![LOWER_I] + t + seq![LOWER_E]),
        forall|k: int| 0 <= k < t.len() ==> #[trigger] t[k] != LOWER_E,
    ensures
        read_int_token(inp, pos) == Ok::<(Seq<u8>, int), DeError>((t, pos + t.len() + 2)),
{
    lemma_at_split(inp, pos, seq![LOWER_I] + t, seq![LOWER_E]);
    lemma_at_split(inp, pos, seq![LOWER_I], t);
    lemma_at_index(inp, pos, seq![LOWER_I], 0);
    lemma_at_index(inp, pos + 1 + t.len(), seq![LOWER_E], 0);
    assert forall|i: int| pos + 1 <= i < pos + 1 + t.len() implies inp[i] != LOWER_E by {
        lemma_at_index(inp, pos + 1, t, i - pos - 1);
    }
    lemma_find_from(inp, pos + 1, LOWER_E, pos + 1 + t.len());
}

/// What the encoder writes for a value of some shape is never empty, and
/// never starts with the `e` that closes a list or a dictionary.
pub proof fn lemma_enc_head(v: Val, s: Shape, depth: nat, cfg: EncodeConfig)
    requires
        fits(v, s, depth),
        enc(v, cfg) is Ok,
    ensures
        enc(v, cfg)->Ok_0.len() > 0,
        enc(v, cfg)->Ok_0[0] != LOWER_E,
    decreases depth,
{
    let b = enc(v, cfg)->Ok_0;
    match v {
        Val::Present(x) => {
            if let Shape::Optional(inner) = s {
                lemma_enc_head(*x, *inner, (depth - 1) as nat, cfg);
            }
        },
        Val::Char(c) => {
            lemma_decimal(encode_utf8(seq![c]).len());
        },
        Val::Text(t) => {
            lemma_decimal(encode_utf8(t).len());
        },
        Val::Bytes(x) => {
            lemma_decimal(x.len());
        },
        Val::Variant(n, p) => {
            lemma_decimal(encode_utf8(n).len());
        },
        _ => {},
    }
}

proof fn lemma_frame_head(b: Seq<u8>)
    ensures
        frame(b).len() > 0,
        is_digit(frame(b)[0]),
{
    lemma_decimal(b.len());
    assert(frame(b)[0] == decimal(b.len())[0]);
}

/// Decoding what the encoder wrote, with the shape of the value, gives the
/// value and stops where the encoding ends.
pub proof fn lemma_parse_enc(
    v: Val,
    s: Shape,
    depth: nat,
    cfg: EncodeConfig,
    auto: bool,
    inp: Seq<u8>,
    pos: int,
)
    requires
        fits(v, s, depth),
        !cfg.canonical,
        enc(v, cfg) is Ok,
        at(inp, pos, enc(v, cfg)->Ok_0),
        inp.len() <= usize::MAX,
    ensures
        parse(inp, pos, s, auto, depth) == Ok::<(Val, int), DeError>(
            (v, pos + enc(v, cfg)->Ok_0.len()),
        ),
    decreases depth, 2int, 0int,
{
    match s {
        Shape::Bool | Shape::Int | Shape::UInt => {
            lemma_parse_enc_int(v, s, depth, cfg, auto, inp, pos);
        },
        Shape::Char | Shape::Text | Shape::Bytes | Shape::Unit | Shape::UnitStruct(_) => {
            lemma_parse_enc_string(v, s, depth, cfg, auto, inp, pos);
        },
        Shape::List(_) | Shape::Tuple(_) => {
            lemma_parse_enc_list(v, s, depth, cfg, auto, inp, pos);
        },
        Shape::Dictionary(_, _) | Shape::Record(_) => {
            lemma_parse_enc_dict(v, s, depth, cfg, auto, inp, pos);
        },
        Shape::Optional(_) | Shape::Enum(_) => {
            lemma_parse_enc_variant(v, s, depth, cfg, auto, inp, pos);
        },
        Shape::Any | Shape::Float => {},
    }
}

/// Integers and booleans are read back.
proof fn lemma_parse_enc_int(
    v: Val,
    s: Shape,
    depth: nat,
    cfg: EncodeConfig,
    auto: bool,
    inp: Seq<u8>,
    pos: int,
)
    requires
        fits(v, s, depth),
        !cfg.canonical,
        enc(v, cfg) is Ok,
        at(inp, pos, enc(v, cfg)->Ok_0),
        inp.len() <= usize::MAX,
        s is Bool || s is Int || s is UInt,
    ensures
        parse(inp, pos, s, auto, depth) == Ok::<(Val, int), DeError>(
            (v, pos + enc(v, cfg)->Ok_0.len()),
        ),
{
    let b = enc(v, cfg)->Ok_0;
    let d = (depth - 1) as nat;
    match s {
        Shape::Bool => {
            let t = decimal(
                if v->Bool_0 {
                    1
                } else {
                    0
                },
            );
            lemma_decimal(
                if v->Bool_0 {
                    1
                } else {
                    0
                },
            );
            lemma_read_token(inp, pos, t);
            lemma_at_index(inp, pos, b, 0);
            if v->Bool_0 {
                assert(t =~= seq![49u8]);
            } else {
                assert(t =~= seq![48u8]);
            }
        },
        Shape::Int => {
            let t = signed_decimal(v->Int_0 as int);
            lemma_signed_decimal_no_e(v->Int_0 as int);
            lemma_read_token(inp, pos, t);
            lemma_read_signed_decimal(v->Int_0);
        },
        Shape::UInt => {
            let t = decimal(v->UInt_0 as nat);
            lemma_decimal(v->UInt_0 as nat);
            lemma_read_decimal(v->UInt_0 as nat);
            lemma_read_token(inp, pos, t);
        },
        _ => {},
    }
}

/// Byte strings and the unit value are read back.
proof fn lemma_parse_enc_string(
    v: Val,
    s: Shape,
    depth: nat,
    cfg: EncodeConfig,
    auto: bool,
    inp: Seq<u8>,
    pos: int,
)
    requires
        fits(v, s, depth),
        !cfg.canonical,
        enc(v, cfg) is Ok,
        at(inp, pos, enc(v, cfg)->Ok_0),
        inp.len() <= usize::MAX,
        s is Char || s is Text || s is Bytes || s is Unit || s is UnitStruct,
    ensures
        parse(inp, pos, s, auto, depth) == Ok::<(Val, int), DeError>(
            (v, pos + enc(v, cfg)->Ok_0.len()),
        ),
{
    let b = enc(v, cfg)->Ok_0;
    let d = (depth - 1) as nat;
    match s {
        Shape::Char => {
            let c = v->Char_0;
            let cb = encode_utf8(seq![c]);
            lemma_read_frame(inp, pos, cb);
            assert(seq![c].drop_first() =~= Seq::<char>::empty());
            assert(encode_utf8(seq![c].drop_first()) =~= Seq::<u8>::empty());
            assert(cb == vstd::utf8::encode_scalar(c as u32) + encode_utf8(seq![c].drop_first()));
            assert(cb.len() <= 4);
            vstd::utf8::encode_utf8_valid_utf8(seq![c]);
            vstd::utf8::encode_utf8_decode_utf8(seq![c]);
        },
        Shape::Text => {
            let t = v->Text_0;
            lemma_read_frame(inp, pos, encode_utf8(t));
            vstd::utf8::encode_utf8_valid_utf8(t);
            vstd::utf8::encode_utf8_decode_utf8(t);
        },
        Shape::Bytes => {
            lemma_read_frame(inp, pos, v->Bytes_0);
        },
        Shape::Unit => {},
        Shape::UnitStruct(n) => {
            lemma_read_frame(inp, pos, encode_utf8(n@));
        },
        _ => {},
    }
}

/// Lists and tuples are read back.
proof fn lemma_parse_enc_list(
    v: Val,
    s: Shape,
    depth: nat,
    cfg: EncodeConfig,
    auto: bool,
    inp: Seq<u8>,
    pos: int,
)
    requires
        fits(v, s, depth),
        !cfg.canonical,
        enc(v, cfg) is Ok,
        at(inp, pos, enc(v, cfg)->Ok_0),
        inp.len() <= usize::MAX,
        s is List || s is Tuple,
    ensures
        parse(inp, pos, s, auto, depth) == Ok::<(Val, int), DeError>(
            (v, pos + enc(v, cfg)->Ok_0.len()),
        ),
    decreases depth, 1int, 0int,
{
    let b = enc(v, cfg)->Ok_0;
    let d = (depth - 1) as nat;
    match s {
        Shape::List(e) => {
            let xs = v->List_0;
            let body = enc_items(xs, cfg)->Ok_0;
            lemma_at_split(inp, pos, seq![LOWER_L] + body, seq![LOWER_E]);
            lemma_at_split(inp, pos, seq![LOWER_L], body);
            lemma_at_index(inp, pos, seq![LOWER_L], 0);
            assert(at(inp, pos + 1, body + seq![LOWER_E])) by {
                assert(inp.subrange(pos + 1, pos + 1 + body.len() + 1) =~= inp.subrange(
                    pos + 1,
                    pos + 1 + body.len(),
                ) + inp.subrange(pos + 1 + body.len(), pos + 1 + body.len() + 1));
            }
            lemma_parse_items(xs, *e, depth, cfg, auto, inp, pos + 1, Seq::empty());
            assert(Seq::<Val>::empty() + xs =~= xs);
        },
        Shape::Tuple(ss) => {
            let xs = v->List_0;
            let body = enc_items(xs, cfg)->Ok_0;
            lemma_at_split(inp, pos, seq![LOWER_L] + body, seq![LOWER_E]);
            lemma_at_split(inp, pos, seq![LOWER_L], body);
            lemma_at_index(inp, pos, seq![LOWER_L], 0);
            assert(at(inp, pos + 1, body + seq![LOWER_E])) by {
                assert(inp.subrange(pos + 1, pos + 1 + body.len() + 1) =~= inp.subrange(
                    pos + 1,
                    pos + 1 + body.len(),
                ) + inp.subrange(pos + 1 + body.len(), pos + 1 + body.len() + 1));
            }
            assert(xs.subrange(0, xs.len() as int) =~= xs);
            lemma_parse_tuple_items(xs, ss@, 0, depth, cfg, auto, inp, pos + 1, Seq::empty());
            assert(Seq::<Val>::empty() + xs =~= xs);
        },
        _ => {},
    }
}

/// Dictionaries and records are read back.
proof fn lemma_parse_enc_dict(
    v: Val,
    s: Shape,
    depth: nat,
    cfg: EncodeConfig,
    auto: bool,
    inp: Seq<u8>,
    pos: int,
)
    requires
        fits(v, s, depth),
        !cfg.canonical,
        enc(v, cfg) is Ok,
        at(inp, pos, enc(v, cfg)->Ok_0),
        inp.len() <= usize::MAX,
        s is Dictionary || s is Record,
    ensures
        parse(inp, pos, s, auto, depth) == Ok::<(Val, int), DeError>(
            (v, pos + enc(v, cfg)->Ok_0.len()),
        ),
    decreases depth, 1int, 0int,
{
    let b = enc(v, cfg)->Ok_0;
    let d = (depth - 1) as nat;
    match s {
        Shape::Dictionary(ks, vs) => {
            let es = v->Dict_0;
            let body = dict_body(enc_entries(es, cfg)->Ok_0);
            lemma_at_split(inp, pos, seq![LOWER_D] + body, seq![LOWER_E]);
            lemma_at_split(inp, pos, seq![LOWER_D], body);
            lemma_at_index(inp, pos, seq![LOWER_D], 0);
            assert(at(inp, pos + 1, body + seq![LOWER_E])) by {
                assert(inp.subrange(pos + 1, pos + 1 + body.len() + 1) =~= inp.subrange(
                    pos + 1,
                    pos + 1 + body.len(),
                ) + inp.subrange(pos + 1 + body.len(), pos + 1 + body.len() + 1));
            }
            lemma_parse_entries(es, *ks, *vs, None, depth, cfg, auto, inp, pos + 1, Seq::empty());
            assert(Seq::<(Val, Val)>::empty() + es =~= es);
        },
        Shape::Record(fs) => {
            let es = v->Dict_0;
            let body = dict_body(enc_entries(es, cfg)->Ok_0);
            lemma_at_split(inp, pos, seq![LOWER_D] + body, seq![LOWER_E]);
            lemma_at_split(inp, pos, seq![LOWER_D], body);
            lemma_at_index(inp, pos, seq![LOWER_D], 0);
            assert(at(inp, pos + 1, body + seq![LOWER_E])) by {
                assert(inp.subrange(pos + 1, pos + 1 + body.len() + 1) =~= inp.subrange(
                    pos + 1,
                    pos + 1 + body.len(),
                ) + inp.subrange(pos + 1 + body.len(), pos + 1 + body.len() + 1));
            }
            lemma_parse_entries(
                es,
                Shape::Text,
                Shape::Any,
                Some(fs@),
                depth,
                cfg,
                auto,
                inp,
                pos + 1,
                Seq::empty(),
            );
            assert(Seq::<(Val, Val)>::empty() + es =~= es);
        },
        _ => {},
    }
}

/// Optional values and enum variants are read back.
proof fn lemma_parse_enc_variant(
    v: Val,
    s: Shape,
    depth: nat,
    cfg: EncodeConfig,
    auto: bool,
    inp: Seq<u8>,
    pos: int,
)
    requires
        fits(v, s, depth),
        !cfg.canonical,
        enc(v, cfg) is Ok,
        at(inp, pos, enc(v, cfg)->Ok_0),
        inp.len() <= usize::MAX,
        s is Optional || s is Enum,
    ensures
        parse(inp, pos, s, auto, depth) == Ok::<(Val, int), DeError>(
            (v, pos + enc(v, cfg)->Ok_0.len()),
        ),
    decreases depth, 1int, 0int,
{
    let b = enc(v, cfg)->Ok_0;
    let d = (depth - 1) as nat;
    match s {
        Shape::Optional(inner) => {
            let x = *v->Present_0;
            lemma_enc_head(x, *inner, d, cfg);
            lemma_parse_enc(x, *inner, d, cfg, auto, inp, pos);
        },
        Shape::Enum(vs) => {
            let n = v->Variant_0;
            let p = v->Variant_1;
            let nb = encode_utf8(n);
            let j = variant_index(vs@, nb, 0)->0;
            match p {
                None => {
                    lemma_read_frame(inp, pos, nb);
                    lemma_frame_head(nb);
                    lemma_at_index(inp, pos, b, 0);
                    vstd::utf8::encode_utf8_valid_utf8(n);
                },
                Some(x) => {
                    let ps = vs@[j].1->Some_0;
                    let xb = enc(*x, cfg)->Ok_0;
                    lemma_at_split(inp, pos, seq![LOWER_D] + frame(nb) + xb, seq![LOWER_E]);
                    lemma_at_split(inp, pos, seq![LOWER_D] + frame(nb), xb);
                    lemma_at_split(inp, pos, seq![LOWER_D], frame(nb));
                    lemma_at_index(inp, pos, seq![LOWER_D], 0);
                    lemma_frame_head(nb);
                    lemma_at_index(inp, pos + 1, frame(nb), 0);
                    lemma_read_frame(inp, pos + 1, nb);
                    lemma_parse_enc(*x, ps, d, cfg, auto, inp, pos + 1 + frame(nb).len());
                    lemma_at_index(inp, pos + 1 + frame(nb).len() + xb.len(), seq![LOWER_E], 0);
                },
            }
        },
        _ => {},
    }
}

/// The list elements that the encoder wrote, then the closing `e`, are read
/// back in order.
pub proof fn lemma_parse_items(
    xs: Seq<Val>,
    elem: Shape,
    depth: nat,
    cfg: EncodeConfig,
    auto: bool,
    inp: Seq<u8>,
    pos: int,
    acc: Seq<Val>,
)
    requires
        depth >= 1,
        forall|i: int| 0 <= i < xs.len() ==> fits(#[trigger] xs[i], elem, (depth - 1) as nat),
        !cfg.canonical,
        enc_items(xs, cfg) is Ok,
        at(inp, pos, enc_items(xs, cfg)->Ok_0 + seq![LOWER_E]),
        inp.len() <= usize::MAX,
    ensures
        parse_items(inp, pos, elem, auto, depth, acc) == Ok::<(Val, int), DeError>(
            (Val::List(acc + xs), pos + enc_items(xs, cfg)->Ok_0.len() + 1),
        ),
    decreases depth, 0int, xs.len(),
{
    let body = enc_items(xs, cfg)->Ok_0;
    lemma_at_split(inp, pos, body, seq![LOWER_E]);
    if xs.len() == 0 {
        lemma_at_index(inp, pos, seq![LOWER_E], 0);
        assert(acc + xs =~= acc);
    } else {
        let d = (depth - 1) as nat;
        let x = xs[0];
        let xb = enc(x, cfg)->Ok_0;
        let rest = enc_items(xs.drop_first(), cfg)->Ok_0;
        assert(body == xb + rest);
        assert(body + seq![LOWER_E] =~= xb + (rest + seq![LOWER_E]));
        lemma_at_split(inp, pos, xb, rest + seq![LOWER_E]);
        lemma_enc_head(x, elem, d, cfg);
        lemma_at_index(inp, pos, xb, 0);
        lemma_parse_enc(x, elem, d, cfg, auto, inp, pos);
        assert forall|i: int| 0 <= i < xs.drop_first().len() implies fits(
            #[trigger] xs.drop_first()[i],
            elem,
            d,
        ) by {
            assert(xs.drop_first()[i] == xs[i + 1]);
        }
        lemma_parse_items(xs.drop_first(), elem, depth, cfg, auto, inp, pos + xb.len(), acc.push(x));
        assert(acc.push(x) + xs.drop_first() =~= acc + xs);
    }
}

/// The tuple elements that the encoder wrote, from index `i` on, then the
/// closing `e`, are read back in order.
pub proof fn lemma_parse_tuple_items(
    xs: Seq<Val>,
    ss: Seq<Shape>,
    i: int,
    depth: nat,
    cfg: EncodeConfig,
    auto: bool,
    inp: Seq<u8>,
    pos: int,
    acc: Seq<Val>,
)
    requires
        depth >= 1,
        xs.len() == ss.len(),
        0 <= i <= xs.len(),
        forall|k: int| 0 <= k < xs.len() ==> fits(#[trigger] xs[k], ss[k], (depth - 1) as nat),
        !cfg.canonical,
        enc_items(xs.subrange(i, xs.len() as int), cfg) is Ok,
        at(inp, pos, enc_items(xs.subrange(i, xs.len() as int), cfg)->Ok_0 + seq![LOWER_E]),
        inp.len() <= usize::MAX,
    ensures
        parse_tuple_items(inp, pos, ss, i, auto, depth, acc) == Ok::<(Val, int), DeError>(
            (
                Val::List(acc + xs.subrange(i, xs.len() as int)),
                pos + enc_items(xs.subrange(i, xs.len() as int), cfg)->Ok_0.len() + 1,
            ),
        ),
    decreases depth, 0int, xs.len() - i,
{
    let tail = xs.subrange(i, xs.len() as int);
    let body = enc_items(tail, cfg)->Ok_0;
    lemma_at_split(inp, pos, body, seq![LOWER_E]);
    if i == xs.len() {
        lemma_at_index(inp, pos, seq![LOWER_E], 0);
        assert(acc + tail =~= acc);
    } else {
        let d = (depth - 1) as nat;
        let x = xs[i];
        assert(tail[0] == x);
        assert(tail.drop_first() =~= xs.subrange(i + 1, xs.len() as int));
        let xb = enc(x, cfg)->Ok_0;
        let rest = enc_items(tail.drop_first(), cfg)->Ok_0;
        assert(body == xb + rest);
        assert(body + seq![LOWER_E] =~= xb + (rest + seq![LOWER_E]));
        lemma_at_split(inp, pos, xb, rest + seq![LOWER_E]);
        lemma_parse_enc(x, ss[i], d, cfg, auto, inp, pos);
        lemma_parse_tuple_items(xs, ss, i + 1, depth, cfg, auto, inp, pos + xb.len(), acc.push(x));
        assert(acc.push(x) + xs.subrange(i + 1, xs.len() as int) =~= acc + tail);
    }
}

/// The dictionary entries that the encoder wrote, in their own order, then
/// the closing `e`, are read back in order.
pub proof fn lemma_parse_entries(
    es: Seq<(Val, Val)>,
    key_shape: Shape,
    val_shape: Shape,
    fields: Option<Seq<(String, Shape)>>,
    depth: nat,
    cfg: EncodeConfig,
    auto: bool,
    inp: Seq<u8>,
    pos: int,
    acc: Seq<(Val, Val)>,
)
    requires
        depth >= 1,
        forall|i: int|
            0 <= i < es.len() ==> entry_fits(#[trigger] es[i], key_shape, val_shape, fields, depth),
        !cfg.canonical,
        enc_entries(es, cfg) is Ok,
        at(inp, pos, dict_body(enc_entries(es, cfg)->Ok_0) + seq![LOWER_E]),
        inp.len() <= usize::MAX,
    ensures
        parse_entries(inp, pos, key_shape, val_shape, fields, auto, depth, acc) == Ok::<
            (Val, int),
            DeError,
        >((Val::Dict(acc + es), pos + dict_body(enc_entries(es, cfg)->Ok_0).len() + 1)),
    decreases depth, 0int, es.len(),
{
    let ps = enc_entries(es, cfg)->Ok_0;
    let body = dict_body(ps);
    lemma_at_split(inp, pos, body, seq![LOWER_E]);
    if es.len() == 0 {
        lemma_at_index(inp, pos, seq![LOWER_E], 0);
        assert(acc + es =~= acc);
    } else {
        let d = (depth - 1) as nat;
        let k = es[0].0;
        let v = es[0].1;
        let kb = key_bytes(k)->0;
        let vb = enc(v, cfg)->Ok_0;
        let rest_ps = enc_entries(es.drop_first(), cfg)->Ok_0;
        assert(ps == seq![(kb, vb)] + rest_ps);
        assert(ps[0] == (kb, vb));
        assert(ps.drop_first() =~= rest_ps);
        let rest = dict_body(rest_ps);
        assert(body == frame(kb) + vb + rest);
        assert(enc(k, cfg) == Ok::<Seq<u8>, SerError>(frame(kb)));
        assert(body + seq![LOWER_E] =~= frame(kb) + (vb + (rest + seq![LOWER_E])));
        lemma_at_split(inp, pos, frame(kb), vb + (rest + seq![LOWER_E]));
        lemma_at_split(inp, pos + frame(kb).len(), vb, rest + seq![LOWER_E]);
        lemma_frame_head(kb);
        lemma_at_index(inp, pos, frame(kb), 0);
        lemma_parse_enc(k, key_shape, d, cfg, auto, inp, pos);
        lemma_parse_enc(
            v,
            entry_shape(val_shape, fields, k),
            d,
            cfg,
            auto,
            inp,
            pos + frame(kb).len(),
        );
        assert forall|i: int| 0 <= i < es.drop_first().len() implies entry_fits(
            #[trigger] es.drop_first()[i],
            key_shape,
            val_shape,
            fields,
            depth,
        ) by {
            assert(es.drop_first()[i] == es[i + 1]);
        }
        lemma_parse_entries(
            es.drop_first(),
            key_shape,
            val_shape,
            fields,
            depth,
            cfg,
            auto,
            inp,
            pos + frame(kb).len() + vb.len(),
            acc.push((k, v)),
        );
        assert(acc.push((k, v)) + es.drop_first() =~= acc + es);
    }
}

/// The same configuration, with dictionaries written in the order of their
/// entries.
pub open spec fn in_given_order(cfg: EncodeConfig) -> EncodeConfig {
    EncodeConfig { canonical: false, ..cfg }
}

/// The keys of `es` are byte strings in strictly ascending order.
pub open spec fn keys_ascending(es: Seq<(Val, Val)>) -> bool {
    forall|i: int, j: int|
        0 <= i < j < es.len() ==> key_bytes(#[trigger] es[i].0) is Some && key_bytes(
            #[trigger] es[j].0,
        ) is Some && lex_lt(key_bytes(es[i].0)->0, key_bytes(es[j].0)->0)
}

/// Every dictionary inside `v` already has its keys in canonical order.
pub open spec fn in_canonical_order(v: Val) -> bool
    decreases v,
{
    match v {
        Val::Present(x) => in_canonical_order(*x),
        Val::List(xs) => forall|i: int| 0 <= i < xs.len() ==> in_canonical_order(#[trigger] xs[i]),
        Val::Dict(es) => keys_ascending(es) && forall|i: int|
            0 <= i < es.len() ==> in_canonical_order(#[trigger] es[i].1),
        Val::Variant(_, p) => match p {
            Some(x) => in_canonical_order(*x),
            None => true,
        },
        _ => true,
    }
}

/// The pairs that `enc_entries` builds are the keys' raw bytes and the
/// values' encodings, entry by entry.
pub proof fn lemma_enc_entries_pairs(es: Seq<(Val, Val)>, cfg: EncodeConfig)
    ensures
        enc_entries(es, cfg) is Ok <==> forall|i: int|
            0 <= i < es.len() ==> key_bytes(#[trigger] es[i].0) is Some && enc(es[i].1, cfg) is Ok,
        enc_entries(es, cfg) is Ok ==> enc_entries(es, cfg)->Ok_0 == es.map_values(
            |e: (Val, Val)| (key_bytes(e.0)->0, enc(e.1, cfg)->Ok_0),
        ),
    decreases es.len(),
{
    let f = |e: (Val, Val)| (key_bytes(e.0)->0, enc(e.1, cfg)->Ok_0);
    if es.len() > 0 {
        lemma_enc_entries_pairs(es.drop_first(), cfg);
        assert forall|i: int| 0 < i < es.len() implies #[trigger] es[i] == es.drop_first()[i - 1] by {}
        if enc_entries(es, cfg) is Ok {
            assert(es.map_values(f) =~= seq![f(es[0])] + es.drop_first().map_values(f));
        }
        if !(enc_entries(es, cfg) is Ok) && key_bytes(es[0].0) is Some && enc(es[0].1, cfg) is Ok {
            assert(!(enc_entries(es.drop_first(), cfg) is Ok));
            let k = choose|k: int|
                0 <= k < es.drop_first().len() && !(key_bytes(#[trigger] es.drop_first()[k].0) is Some
                    && enc(es.drop_first()[k].1, cfg) is Ok);
            assert(es[k + 1] == es.drop_first()[k]);
        }
    } else {
        assert(es.map_values(f) =~= Seq::<EntryBytes>::empty());
    }
}

/// For a value whose dictionaries are already in canonical order, canonical
/// output is the output in the given order.
pub proof fn lemma_enc_in_canonical_order(v: Val, cfg: EncodeConfig)
    requires
        in_canonical_order(v),
    ensures
        enc(v, cfg) == enc(v, in_given_order(cfg)),
    decreases v,
{
    let c2 = in_given_order(cfg);
    match v {
        Val::Present(x) => {
            lemma_enc_in_canonical_order(*x, cfg);
        },
        Val::List(xs) => {
            lemma_enc_items_in_canonical_order(xs, cfg);
        },
        Val::Dict(es) => {
            lemma_enc_entries_in_canonical_order(es, cfg);
            lemma_enc_entries_pairs(es, cfg);
            if enc_entries(es, cfg) is Ok {
                let ps = enc_entries(es, cfg)->Ok_0;
                assert(sorted_by(ps, entry_leq())) by {
                    assert forall|i: int, j: int| 0 <= i < j < ps.len() implies #[trigger] entry_leq()(
                        ps[i],
                        ps[j],
                    ) by {
                        assert(lex_lt(key_bytes(es[i].0)->0, key_bytes(es[j].0)->0));
                    }
                }
                lemma_canonical_order_is_sorted(ps, ps);
            }
        },
        Val::Variant(_, p) => {
            if let Some(x) = p {
                lemma_enc_in_canonical_order(*x, cfg);
            }
        },
        _ => {},
    }
}

proof fn lemma_enc_items_in_canonical_order(xs: Seq<Val>, cfg: EncodeConfig)
    requires
        forall|i: int| 0 <= i < xs.len() ==> in_canonical_order(#[trigger] xs[i]),
    ensures
        enc_items(xs, cfg) == enc_items(xs, in_given_order(cfg)),
    decreases xs,
{
    if xs.len() > 0 {
        lemma_enc_in_canonical_order(xs[0], cfg);
        assert forall|i: int| 0 <= i < xs.drop_first().len() implies in_canonical_order(
            #[trigger] xs.drop_first()[i],
        ) by {
            assert(xs.drop_first()[i] == xs[i + 1]);
        }
        lemma_enc_items_in_canonical_order(xs.drop_first(), cfg);
    }
}

proof fn lemma_enc_entries_in_canonical_order(es: Seq<(Val, Val)>, cfg: EncodeConfig)
    requires
        forall|i: int| 0 <= i < es.len() ==> in_canonical_order(#[trigger] es[i].1),
    ensures
        enc_entries(es, cfg) == enc_entries(es, in_given_order(cfg)),
    decreases es,
{
    if es.len() > 0 {
        lemma_enc_in_canonical_order(es[0].1, cfg);
        assert forall|i: int| 0 <= i < es.drop_first().len() implies in_canonical_order(
            #[trigger] es.drop_first()[i].1,
        ) by {
            assert(es.drop_first()[i] == es[i + 1]);
        }
        lemma_enc_entries_in_canonical_order(es.drop_first(), cfg);
    }
}

/// Decoding, with the value's own shape, what the encoder writes for a
/// value gives the value back. Under canonical output this asks that the
/// value's dictionaries already have their keys in canonical order, since
/// entries are read back in the order in which they were written.
pub proof fn lemma_round_trip(v: Val, s: Shape, cfg: EncodeConfig, auto: bool, depth: nat)
    requires
        fits(v, s, depth),
        cfg.canonical ==> in_canonical_order(v),
        enc(v, cfg) is Ok,
        enc(v, cfg)->Ok_0.len() <= usize::MAX,
    ensures
        decode_whole(enc(v, cfg)->Ok_0, s, auto, depth) == Ok::<Val, DeError>(v),
{
    let c2 = in_given_order(cfg);
    if cfg.canonical {
        lemma_enc_in_canonical_order(v, cfg);
    } else {
        assert(c2 == cfg);
    }
    let b = enc(v, c2)->Ok_0;
    assert(b.subrange(0, b.len() as int) =~= b);
    lemma_parse_enc(v, s, depth, c2, auto, b, 0);
}

/// An absent optional value, written as nothing when absent values are not
/// refused, is read back as absent.
pub proof fn lemma_absent_round_trip(s: Shape, cfg: EncodeConfig, auto: bool, depth: nat)
    requires
        !cfg.none_is_error,
        depth >= 1,
    ensures
        enc(Val::Absent, cfg) == Ok::<Seq<u8>, SerError>(Seq::empty()),
        decode_whole(Seq::empty(), Shape::Optional(Box::new(s)), auto, depth) == Ok::<Val, DeError>(
            Val::Absent,
        ),
{
}

proof fn lemma_map_to_multiset<A, B>(s1: Seq<A>, s2: Seq<A>, f: spec_fn(A) -> B)
    requires
        s1.to_multiset() == s2.to_multiset(),
    ensures
        s1.map_values(f).to_multiset() == s2.map_values(f).to_multiset(),
    decreases s1.len(),
{
    broadcast use vstd::seq_lib::group_to_multiset_ensures;

    assert(s1.len() == s1.to_multiset().len());
    assert(s2.len() == s2.to_multiset().len());
    if s1.len() == 0 {
        assert(s1.map_values(f) =~= s2.map_values(f));
    } else {
        let x = s1[0];
        assert(s1.contains(x));
        assert(s2.to_multiset().count(x) > 0);
        assert(s2.contains(x));
        let j = choose|j: int| 0 <= j < s2.len() && s2[j] == x;
        assert(s1.remove(0) =~= s1.drop_first());
        assert(s1.drop_first().to_multiset() == s1.to_multiset().remove(x));
        assert(s2.remove(j).to_multiset() == s2.to_multiset().remove(x));
        lemma_map_to_multiset(s1.drop_first(), s2.remove(j), f);
        let m1 = s1.map_values(f);
        let m2 = s2.map_values(f);
        assert(m1.remove(0) =~= s1.drop_first().map_values(f));
        assert(m2.remove(j) =~= s2.remove(j).map_values(f));
        assert(m1.remove(0).to_multiset() == m1.to_multiset().remove(f(x)));
        assert(m2.remove(j).to_multiset() == m2.to_multiset().remove(f(x)));
        assert(m1.contains(f(x)) && m2.contains(f(x))) by {
            assert(m1[0] == f(x));
            assert(m2[j] == f(x));
        }
        assert(m1.to_multiset().count(f(x)) > 0);
        assert(m2.to_multiset().count(f(x)) > 0);
        assert(m1.to_multiset() =~= m1.to_multiset().remove(f(x)).insert(f(x)));
        assert(m2.to_multiset() =~= m2.to_multiset().remove(f(x)).insert(f(x)));
    }
}

/// With canonical output, a dictionary's bytes do not depend on the order
/// of its entries: two dictionaries that hold the same entries in any two
/// orders both fail or are written alike.
pub proof fn lemma_canonical_output_stable(
    es1: Seq<(Val, Val)>,
    es2: Seq<(Val, Val)>,
    cfg: EncodeConfig,
)
    requires
        cfg.canonical,
        es1.to_multiset() == es2.to_multiset(),
    ensures
        enc(Val::Dict(es1), cfg) is Ok <==> enc(Val::Dict(es2), cfg) is Ok,
        enc(Val::Dict(es1), cfg) is Ok ==> enc(Val::Dict(es1), cfg) == enc(Val::Dict(es2), cfg),
{
    broadcast use vstd::seq_lib::group_to_multiset_ensures;

    lemma_enc_entries_pairs(es1, cfg);
    lemma_enc_entries_pairs(es2, cfg);
    let ok = |e: (Val, Val)| key_bytes(e.0) is Some && enc(e.1, cfg) is Ok;
    assert forall|i: int| 0 <= i < es1.len() implies exists|j: int|
        0 <= j < es2.len() && es2[j] == #[trigger] es1[i] by {
        assert(es1.contains(es1[i]));
        assert(es1.to_multiset().count(es1[i]) > 0);
        assert(es2.contains(es1[i]));
    }
    assert forall|j: int| 0 <= j < es2.len() implies exists|i: int|
        0 <= i < es1.len() && es1[i] == #[trigger] es2[j] by {
        assert(es2.contains(es2[j]));
        assert(es2.to_multiset().count(es2[j]) > 0);
        assert(es1.contains(es2[j]));
    }
    if enc_entries(es1, cfg) is Ok {
        assert forall|j: int| 0 <= j < es2.len() implies key_bytes(#[trigger] es2[j].0) is Some
            && enc(es2[j].1, cfg) is Ok by {
            let i = choose|i: int| 0 <= i < es1.len() && es1[i] == es2[j];
            assert(ok(es1[i]));
        }
    }
    if enc_entries(es2, cfg) is Ok {
        assert forall|i: int| 0 <= i < es1.len() implies key_bytes(#[trigger] es1[i].0) is Some
            && enc(es1[i].1, cfg) is Ok by {
            let j = choose|j: int| 0 <= j < es2.len() && es2[j] == es1[i];
            assert(ok(es2[j]));
        }
    }
    if enc_entries(es1, cfg) is Ok {
        let f = |e: (Val, Val)| (key_bytes(e.0)->0, enc(e.1, cfg)->Ok_0);
        let ps1 = enc_entries(es1, cfg)->Ok_0;
        let ps2 = enc_entries(es2, cfg)->Ok_0;
        lemma_map_to_multiset(es1, es2, f);
        lemma_entry_leq_total();
        ps1.lemma_sort_by_ensures(entry_leq());
        ps2.lemma_sort_by_ensures(entry_leq());
        lemma_sorted_unique(canonical_order(ps1), canonical_order(ps2));
    }
}

/// Every key of a dictionary that is written is text or a byte string. A
/// key that is neither, met after entries that were all written, fails the
/// dictionary with `DictionaryKeyMustBeString`.
pub proof fn lemma_keys_must_be_strings(es: Seq<(Val, Val)>, i: int, cfg: EncodeConfig)
    requires
        0 <= i < es.len(),
    ensures
        enc(Val::Dict(es), cfg) is Ok ==> forall|k: int|
            0 <= k < es.len() ==> (#[trigger] es[k].0 is Text || es[k].0 is Bytes),
        (forall|j: int|
            0 <= j < i ==> (#[trigger] es[j].0 is Text || es[j].0 is Bytes) && enc(es[j].1, cfg) is Ok)
            && !(es[i].0 is Text || es[i].0 is Bytes) ==> enc(Val::Dict(es), cfg) == Err::<
            Seq<u8>,
            SerError,
        >(SerError::DictionaryKeyMustBeString),
{
    lemma_enc_entries_pairs(es, cfg);
    if enc(Val::Dict(es), cfg) is Ok {
        assert forall|k: int| 0 <= k < es.len() implies (#[trigger] es[k].0 is Text
            || es[k].0 is Bytes) by {
            assert(key_bytes(es[k].0) is Some);
        }
    }
    if (forall|j: int|
        0 <= j < i ==> (#[trigger] es[j].0 is Text || es[j].0 is Bytes) && enc(es[j].1, cfg) is Ok)
        && !(es[i].0 is Text || es[i].0 is Bytes) {
        lemma_entries_key_refused(es, i, cfg);
    }
}

proof fn lemma_entries_key_refused(es: Seq<(Val, Val)>, i: int, cfg: EncodeConfig)
    requires
        0 <= i < es.len(),
        forall|j: int|
            0 <= j < i ==> (#[trigger] es[j].0 is Text || es[j].0 is Bytes) && enc(es[j].1, cfg) is Ok,
        !(es[i].0 is Text || es[i].0 is Bytes),
    ensures
        enc_entries(es, cfg) == Err::<Seq<EntryBytes>, SerError>(SerError::DictionaryKeyMustBeString),
    decreases i,
{
    if i > 0 {
        assert(es[0].0 is Text || es[0].0 is Bytes);
        assert forall|j: int| 0 <= j < i - 1 implies (#[trigger] es.drop_first()[j].0 is Text
            || es.drop_first()[j].0 is Bytes) && enc(es.drop_first()[j].1, cfg) is Ok by {
            assert(es.drop_first()[j] == es[j + 1]);
        }
        lemma_entries_key_refused(es.drop_first(), i - 1, cfg);
    }
}

/// `b` is `a` with the entries of some of its dictionaries put in another
/// order, one dictionary for each place where the two differ.
pub open spec fn reordered(a: Val, b: Val) -> bool
    decreases a,
{
    if a == b {
        true
    } else {
        match (a, b) {
            (Val::Dict(e1), Val::Dict(e2)) => e1.to_multiset() == e2.to_multiset() || (e1.len()
                == e2.len() && forall|i: int|
                0 <= i < e1.len() ==> (#[trigger] e1[i]).0 == e2[i].0 && reordered(e1[i].1, e2[i].1)),
            (Val::List(x1), Val::List(x2)) => x1.len() == x2.len() && forall|i: int|
                0 <= i < x1.len() ==> reordered(#[trigger] x1[i], x2[i]),
            (Val::Present(x1), Val::Present(x2)) => reordered(*x1, *x2),
            (Val::Variant(n1, p1), Val::Variant(n2, p2)) => n1 == n2 && match (p1, p2) {
                (Some(x1), Some(x2)) => reordered(*x1, *x2),
                _ => false,
            },
            _ => false,
        }
    }
}

/// With canonical output, the bytes of a value do not depend on the order
/// of the entries of any dictionary inside it: two values that differ only
/// in such orders both fail or are written alike.
pub proof fn lemma_canonical_output_stable_nested(a: Val, b: Val, cfg: EncodeConfig)
    requires
        cfg.canonical,
        reordered(a, b),
    ensures
        enc(a, cfg) is Ok <==> enc(b, cfg) is Ok,
        enc(a, cfg) is Ok ==> enc(a, cfg) == enc(b, cfg),
    decreases a,
{
    if a != b {
        match (a, b) {
            (Val::Dict(e1), Val::Dict(e2)) => {
                if e1.to_multiset() == e2.to_multiset() {
                    lemma_canonical_output_stable(e1, e2, cfg);
                } else {
                    lemma_reordered_entries(e1, e2, cfg);
                }
            },
            (Val::List(x1), Val::List(x2)) => {
                lemma_reordered_items(x1, x2, cfg);
            },
            (Val::Present(x1), Val::Present(x2)) => {
                lemma_canonical_output_stable_nested(*x1, *x2, cfg);
            },
            (Val::Variant(n1, p1), Val::Variant(n2, p2)) => {
                if let (Some(x1), Some(x2)) = (p1, p2) {
                    lemma_canonical_output_stable_nested(*x1, *x2, cfg);
                }
            },
            _ => {},
        }
    }
}

proof fn lemma_reordered_items(x1: Seq<Val>, x2: Seq<Val>, cfg: EncodeConfig)
    requires
        cfg.canonical,
        x1.len() == x2.len(),
        forall|i: int| 0 <= i < x1.len() ==> reordered(#[trigger] x1[i], x2[i]),
    ensures
        enc_items(x1, cfg) is Ok <==> enc_items(x2, cfg) is Ok,
        enc_items(x1, cfg) is Ok ==> enc_items(x1, cfg) == enc_items(x2, cfg),
    decreases x1,
{
    if x1.len() > 0 {
        lemma_canonical_output_stable_nested(x1[0], x2[0], cfg);
        assert forall|i: int| 0 <= i < x1.drop_first().len() implies reordered(
            #[trigger] x1.drop_first()[i],
            x2.drop_first()[i],
        ) by {
            assert(x1.drop_first()[i] == x1[i + 1]);
            assert(x2.drop_first()[i] == x2[i + 1]);
        }
        lemma_reordered_items(x1.drop_first(), x2.drop_first(), cfg);
    }
}

proof fn lemma_reordered_entries(e1: Seq<(Val, Val)>, e2: Seq<(Val, Val)>, cfg: EncodeConfig)
    requires
        cfg.canonical,
        e1.len() == e2.len(),
        forall|i: int|
            0 <= i < e1.len() ==> (#[trigger] e1[i]).0 == e2[i].0 && reordered(e1[i].1, e2[i].1),
    ensures
        enc_entries(e1, cfg) is Ok <==> enc_entries(e2, cfg) is Ok,
        enc_entries(e1, cfg) is Ok ==> enc_entries(e1, cfg) == enc_entries(e2, cfg),
    decreases e1,
{
    if e1.len() > 0 {
        assert(e1[0].0 == e2[0].0);
        lemma_canonical_output_stable_nested(e1[0].1, e2[0].1, cfg);
        assert forall|i: int| 0 <= i < e1.drop_first().len() implies (#[trigger] e1.drop_first()[i]).0
            == e2.drop_first()[i].0 && reordered(e1.drop_first()[i].1, e2.drop_first()[i].1) by {
            assert(e1.drop_first()[i] == e1[i + 1]);
            assert(e2.drop_first()[i] == e2[i + 1]);
        }
        lemma_reordered_entries(e1.drop_first(), e2.drop_first(), cfg);
    }
}

/// A floating-point number is never read.
pub proof fn lemma_float_refused(inp: Seq<u8>, auto: bool, depth: nat)
    requires
        depth >= 1,
    ensures
        decode_whole(inp, Shape::Float, auto, depth) == Err::<Val, DeError>(
            DeError::FloatingPointNotSupported,
        ),
{
}

} // verus!
