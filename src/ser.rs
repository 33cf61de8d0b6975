//! Encoding: values to bencode bytes.
use crate::de::{COLON, LOWER_D, LOWER_E, LOWER_I, LOWER_L};
use crate::error::SerError;
use crate::grammar::{char_utf8, decimal, signed_decimal, utf8_text, write_i64, write_u64};
use crate::order::{canonical_order, entries_view, sort_entries, Entry, EntryBytes};
use crate::value::{
    lemma_view_entries_index, lemma_view_values_index, view_entries, view_values, Val, Value,
};
use vstd::prelude::*;
use vstd::slice::slice_to_vec;
use vstd::utf8::{decode_utf8, encode_utf8, valid_utf8};

verus! {

broadcast use vstd::std_specs::vec::group_vec_axioms;

/// The choices that the encoder leaves to its caller.
#[derive(Debug, Clone, Copy, PartialEq, Eq)]
pub struct EncodeConfig {
    /// Write each dictionary's entries sorted by the raw bytes of their keys.
    pub canonical: bool,
    /// Write booleans as `i0e` and `i1e`; when off, a boolean is an error,
    /// since on the wire it cannot be told from an integer.
    pub allow_bool: bool,
    /// Refuse an absent optional value; when off, it is written as nothing.
    pub none_is_error: bool,
}

impl EncodeConfig {
    /// Canonical order, booleans refused, absent values refused.
    pub fn new() -> (r: EncodeConfig)
        ensures
            r == EncodeConfig::defaults(),
    {
        EncodeConfig { canonical: true, allow_bool: false, none_is_error: true }
    }
}

/// A byte string on the wire: `<length>:<bytes>`.
pub open spec fn frame(b: Seq<u8>) -> Seq<u8> {
    decimal(b.len()) + seq![COLON] + b
}

/// The raw bytes of a dictionary key; only text and byte strings have them.
pub open spec fn key_bytes(k: Val) -> Option<Seq<u8>> {
    match k {
        Val::Text(t) => Some(encode_utf8(t)),
        Val::Bytes(b) => Some(b),
        _ => None,
    }
}

/// `done` followed by what `rest` holds, or the error of `rest`.
pub open spec fn then_append(done: Seq<u8>, rest: Result<Seq<u8>, SerError>) -> Result<
    Seq<u8>,
    SerError,
> {
    match rest {
        Ok(b) => Ok(done + b),
        Err(e) => Err(e),
    }
}

pub open spec fn then_entries(done: Seq<EntryBytes>, rest: Result<Seq<EntryBytes>, SerError>) -> Result<
    Seq<EntryBytes>,
    SerError,
> {
    match rest {
        Ok(b) => Ok(done + b),
        Err(e) => Err(e),
    }
}

/// The bencode bytes of `v`, or the first error met in writing it.
pub open spec fn enc(v: Val, cfg: EncodeConfig) -> Result<Seq<u8>, SerError>
    decreases v,
{
    match v {
        Val::Bool(b) => if cfg.allow_bool {
            Ok(seq![LOWER_I] + decimal(if b {
                1
            } else {
                0
            }) + seq![LOWER_E])
        } else {
            Err(SerError::BoolNotEnabled)
        },
        Val::Int(i) => Ok(seq![LOWER_I] + signed_decimal(i as int) + seq![LOWER_E]),
        Val::UInt(u) => Ok(seq![LOWER_I] + decimal(u as nat) + seq![LOWER_E]),
        Val::Char(c) => Ok(frame(encode_utf8(seq![c]))),
        Val::Text(t) => Ok(frame(encode_utf8(t))),
        Val::Bytes(b) => Ok(frame(b)),
        Val::Unit => Ok(seq![48u8, COLON]),
        Val::Absent => if cfg.none_is_error {
            Err(SerError::NoneNotSupported)
        } else {
            Ok(Seq::empty())
        },
        Val::Present(x) => enc(*x, cfg),
        Val::List(xs) => match enc_items(xs, cfg) {
            Ok(b) => Ok(seq![LOWER_L] + b + seq![LOWER_E]),
            Err(e) => Err(e),
        },
        Val::Dict(es) => match enc_entries(es, cfg) {
            Ok(ps) => Ok(seq![LOWER_D] + dict_body(
                if cfg.canonical {
                    canonical_order(ps)
                } else {
                    ps
                },
            ) + seq![LOWER_E]),
            Err(e) => Err(e),
        },
        Val::Variant(n, p) => match p {
            None => Ok(frame(encode_utf8(n))),
            Some(x) => match enc(*x, cfg) {
                Ok(b) => Ok(seq![LOWER_D] + frame(encode_utf8(n)) + b + seq![LOWER_E]),
                Err(e) => Err(e),
            },
        },
    }
}

/// The elements of a list, one after the other.
pub open spec fn enc_items(xs: Seq<Val>, cfg: EncodeConfig) -> Result<Seq<u8>, SerError>
    decreases xs,
{
    if xs.len() == 0 {
        Ok(Seq::empty())
    } else {
        match enc(xs[0], cfg) {
            Err(e) => Err(e),
            Ok(b) => then_append(b, enc_items(xs.drop_first(), cfg)),
        }
    }
}

/// The entries of a dictionary as (raw key, encoded value) pairs, in the
/// given order; the key of each is checked before its value is written.
pub open spec fn enc_entries(es: Seq<(Val, Val)>, cfg: EncodeConfig) -> Result<
    Seq<EntryBytes>,
    SerError,
>
    decreases es,
{
    if es.len() == 0 {
        Ok(Seq::empty())
    } else {
        match key_bytes(es[0].0) {
            None => Err(SerError::DictionaryKeyMustBeString),
            Some(k) => match enc(es[0].1, cfg) {
                Err(e) => Err(e),
                Ok(b) => then_entries(seq![(k, b)], enc_entries(es.drop_first(), cfg)),
            },
        }
    }
}

/// The entries written one after the other, each key framed as a byte string.
pub open spec fn dict_body(ps: Seq<EntryBytes>) -> Seq<u8>
    decreases ps.len(),
{
    if ps.len() == 0 {
        Seq::empty()
    } else {
        frame(ps[0].0) + ps[0].1 + dict_body(ps.drop_first())
    }
}

/// Appends the bytes of `b` to `out`.
fn push_all(out: &mut Vec<u8>, b: &[u8])
    ensures
        final(out)@ == old(out)@ + b@,
{
    let ghost start = out@;
    let mut i: usize = 0;
    while i < b.len()
        invariant
            0 <= i <= b@.len(),
            out@ == start + b@.subrange(0, i as int),
        decreases b@.len() - i,
    {
        out.push(b[i]);
        i = i + 1;
        assert(out@ =~= start + b@.subrange(0, i as int));
    }
    assert(b@.subrange(0, b@.len() as int) =~= b@);
}

/// Appends `b` framed as a byte string.
fn write_frame(out: &mut Vec<u8>, b: &[u8])
    ensures
        final(out)@ == old(out)@ + frame(b@),
{
    let ghost start = out@;
    write_u64(out, b.len() as u64);
    out.push(COLON);
    push_all(out, b);
    assert(out@ =~= start + frame(b@));
}

/// Appends the bencode bytes of `v` to `out`.
fn encode_into(v: &Value, cfg: &EncodeConfig, out: &mut Vec<u8>) -> (r: Result<(), SerError>)
    ensures
        match enc(v@, *cfg) {
            Ok(b) => r is Ok && final(out)@ == old(out)@ + b,
            Err(e) => r == Err::<(), SerError>(e),
        },
    decreases v,
{
    let ghost start = out@;
    match v {
        Value::Bool(b) => {
            if !cfg.allow_bool {
                return Err(SerError::BoolNotEnabled);
            }
            out.push(LOWER_I);
            write_u64(
                out,
                if *b {
                    1
                } else {
                    0
                },
            );
            out.push(LOWER_E);
            assert(out@ =~= start + enc(v@, *cfg)->Ok_0);
            Ok(())
        },
        Value::Int(i) => {
            out.push(LOWER_I);
            write_i64(out, *i);
            out.push(LOWER_E);
            assert(out@ =~= start + enc(v@, *cfg)->Ok_0);
            Ok(())
        },
        Value::UInt(u) => {
            out.push(LOWER_I);
            write_u64(out, *u);
            out.push(LOWER_E);
            assert(out@ =~= start + enc(v@, *cfg)->Ok_0);
            Ok(())
        },
        Value::Char(c) => {
            let bytes = char_utf8(*c);
            write_frame(out, bytes.as_slice());
            Ok(())
        },
        Value::Text(t) => {
            write_frame(out, t.as_str().as_bytes());
            Ok(())
        },
        Value::Bytes(b) => {
            write_frame(out, b.as_slice());
            Ok(())
        },
        Value::Unit => {
            out.push(48u8);
            out.push(COLON);
            assert(out@ =~= start + enc(v@, *cfg)->Ok_0);
            Ok(())
        },
        Value::Absent => {
            if cfg.none_is_error {
                Err(SerError::NoneNotSupported)
            } else {
                assert(out@ =~= start + Seq::<u8>::empty());
                Ok(())
            }
        },
        Value::Present(x) => encode_into(&**x, cfg, out),
        Value::List(xs) => {
            out.push(LOWER_L);
            let ghost vals = view_values(xs@);
            let ghost mark = out@;
            proof {
                crate::value::lemma_view_values_len(xs@);
                assert(vals.subrange(0, vals.len() as int) =~= vals);
                assert(mark + Seq::<u8>::empty() =~= mark);
            }
            let mut i: usize = 0;
            while i < xs.len()
                invariant
                    0 <= i <= xs@.len(),
                    vals == view_values(xs@),
                    vals.len() == xs@.len(),
                    *v == Value::List(*xs),
                    v@ == Val::List(vals),
                    mark == start + seq![LOWER_L],
                    out@.len() >= mark.len(),
                    out@.subrange(0, mark.len() as int) == mark,
                    enc_items(vals, *cfg) == then_append(
                        out@.subrange(mark.len() as int, out@.len() as int),
                        enc_items(vals.subrange(i as int, vals.len() as int), *cfg),
                    ),
                decreases xs@.len() - i,
            {
                let ghost before = out@;
                proof {
                    lemma_view_values_index(xs@, i as int);
                    let rest = vals.subrange(i as int, vals.len() as int);
                    assert(rest[0] == vals[i as int]);
                    assert(rest.drop_first() =~= vals.subrange(i + 1, vals.len() as int));
                }
                match encode_into(&xs[i], cfg, out) {
                    Err(e) => {
                        proof {
                            let rest = vals.subrange(i as int, vals.len() as int);
                            assert(enc_items(rest, *cfg) == Err::<Seq<u8>, SerError>(e));
                            assert(v@ == Val::List(vals));
                        }
                        return Err(e);
                    },
                    Ok(()) => {},
                }
                proof {
                    let done = before.subrange(mark.len() as int, before.len() as int);
                    let b = enc(vals[i as int], *cfg)->Ok_0;
                    assert(out@.subrange(mark.len() as int, out@.len() as int) =~= done + b);
                    assert(out@.subrange(0, mark.len() as int) =~= mark);
                    match enc_items(vals.subrange(i + 1, vals.len() as int), *cfg) {
                        Ok(r) => {
                            assert(done + (b + r) =~= (done + b) + r);
                        },
                        Err(_) => {},
                    }
                }
                i = i + 1;
            }
            proof {
                assert(vals.subrange(i as int, vals.len() as int) =~= Seq::<Val>::empty());
                let done = out@.subrange(mark.len() as int, out@.len() as int);
                assert(done + Seq::<u8>::empty() =~= done);
            }
            let ghost pre = out@;
            out.push(LOWER_E);
            proof {
                let body = enc_items(vals, *cfg)->Ok_0;
                let before_end = pre;
                assert(before_end.subrange(0, mark.len() as int) =~= mark);
                assert(before_end =~= mark + body);
                assert(mark =~= start + seq![LOWER_L]);
                assert(out@ =~= start + (seq![LOWER_L] + body + seq![LOWER_E]));
            }
            Ok(())
        },
        Value::Dict(es) => {
            let ghost evals = view_entries(es@);
            proof {
                crate::value::lemma_view_entries_len(es@);
                assert(evals.subrange(0, evals.len() as int) =~= evals);
                assert(Seq::<EntryBytes>::empty() + enc_entries(evals, *cfg)->Ok_0 =~= enc_entries(
                    evals,
                    *cfg,
                )->Ok_0);
            }
            let mut pairs: Vec<Entry> = Vec::new();
            let mut i: usize = 0;
            while i < es.len()
                invariant
                    0 <= i <= es@.len(),
                    evals == view_entries(es@),
                    evals.len() == es@.len(),
                    *v == Value::Dict(*es),
                    v@ == Val::Dict(evals),
                    out@ == start,
                    enc_entries(evals, *cfg) == then_entries(
                        entries_view(pairs@),
                        enc_entries(evals.subrange(i as int, evals.len() as int), *cfg),
                    ),
                decreases es@.len() - i,
            {
                proof {
                    lemma_view_entries_index(es@, i as int);
                    let rest = evals.subrange(i as int, evals.len() as int);
                    assert(rest[0] == evals[i as int]);
                    assert(rest.drop_first() =~= evals.subrange(i + 1, evals.len() as int));
                }
                let key: Vec<u8> = match &es[i].0 {
                    Value::Text(t) => slice_to_vec(t.as_str().as_bytes()),
                    Value::Bytes(b) => slice_to_vec(b.as_slice()),
                    _ => {
                        proof {
                            let rest = evals.subrange(i as int, evals.len() as int);
                            assert(key_bytes(evals[i as int].0) is None);
                            assert(enc_entries(rest, *cfg) == Err::<Seq<EntryBytes>, SerError>(
                                SerError::DictionaryKeyMustBeString,
                            ));
                            assert(v@ == Val::Dict(evals));
                        }
                        return Err(SerError::DictionaryKeyMustBeString);
                    },
                };
                let mut value: Vec<u8> = Vec::new();
                match encode_into(&es[i].1, cfg, &mut value) {
                    Err(e) => {
                        proof {
                            let rest = evals.subrange(i as int, evals.len() as int);
                            assert(enc_entries(rest, *cfg) == Err::<Seq<EntryBytes>, SerError>(e));
                            assert(v@ == Val::Dict(evals));
                        }
                        return Err(e);
                    },
                    Ok(()) => {},
                }
                let ghost done = entries_view(pairs@);
                let ghost pair = (key@, value@);
                pairs.push(Entry { key, value });
                proof {
                    assert(value@ =~= Seq::<u8>::empty() + value@);
                    assert(entries_view(pairs@) =~= done + seq![pair]);
                    match enc_entries(evals.subrange(i + 1, evals.len() as int), *cfg) {
                        Ok(r) => {
                            assert(done + (seq![pair] + r) =~= (done + seq![pair]) + r);
                        },
                        Err(_) => {},
                    }
                }
                i = i + 1;
            }
            proof {
                assert(evals.subrange(i as int, evals.len() as int) =~= Seq::<(Val, Val)>::empty());
                assert(entries_view(pairs@) + Seq::<EntryBytes>::empty() =~= entries_view(pairs@));
            }
            let ordered = if cfg.canonical {
                sort_entries(pairs)
            } else {
                pairs
            };
            let ghost ps = entries_view(ordered@);
            out.push(LOWER_D);
            let ghost mark = out@;
            proof {
                assert(ps.subrange(0, ps.len() as int) =~= ps);
                assert(Seq::<u8>::empty() + dict_body(ps) =~= dict_body(ps));
                assert(out@.subrange(mark.len() as int, out@.len() as int) =~= Seq::<u8>::empty());
            }
            let mut j: usize = 0;
            while j < ordered.len()
                invariant
                    0 <= j <= ordered@.len(),
                    ps == entries_view(ordered@),
                    mark == start + seq![LOWER_D],
                    out@.len() >= mark.len(),
                    out@.subrange(0, mark.len() as int) == mark,
                    dict_body(ps) == out@.subrange(mark.len() as int, out@.len() as int) + dict_body(
                        ps.subrange(j as int, ps.len() as int),
                    ),
                decreases ordered@.len() - j,
            {
                let ghost before = out@;
                write_frame(out, ordered[j].key.as_slice());
                push_all(out, ordered[j].value.as_slice());
                proof {
                    let rest = ps.subrange(j as int, ps.len() as int);
                    assert(rest[0] == ps[j as int]);
                    assert(rest.drop_first() =~= ps.subrange(j + 1, ps.len() as int));
                    let done = before.subrange(mark.len() as int, before.len() as int);
                    let piece = frame(ps[j as int].0) + ps[j as int].1;
                    assert(out@.subrange(mark.len() as int, out@.len() as int) =~= done + piece);
                    assert(out@.subrange(0, mark.len() as int) =~= mark);
                    assert(done + (piece + dict_body(rest.drop_first())) =~= (done + piece)
                        + dict_body(rest.drop_first()));
                }
                j = j + 1;
            }
            proof {
                assert(ps.subrange(j as int, ps.len() as int) =~= Seq::<EntryBytes>::empty());
                let done = out@.subrange(mark.len() as int, out@.len() as int);
                assert(done + Seq::<u8>::empty() =~= done);
            }
            let ghost pre = out@;
            out.push(LOWER_E);
            proof {
                let before_end = pre;
                assert(before_end.subrange(0, mark.len() as int) =~= mark);
                assert(before_end =~= mark + dict_body(ps));
                assert(mark =~= start + seq![LOWER_D]);
                assert(out@ =~= start + (seq![LOWER_D] + dict_body(ps) + seq![LOWER_E]));
            }
            Ok(())
        },
        Value::Variant(n, p) => match p {
            None => {
                write_frame(out, n.as_str().as_bytes());
                Ok(())
            },
            Some(x) => {
                out.push(LOWER_D);
                write_frame(out, n.as_str().as_bytes());
                let ghost mid = out@;
                encode_into(&**x, cfg, out)?;
                out.push(LOWER_E);
                proof {
                    let b = enc(x@, *cfg)->Ok_0;
                    assert(out@ =~= start + (seq![LOWER_D] + frame(encode_utf8(n@)) + b + seq![
                        LOWER_E,
                    ]));
                }
                Ok(())
            },
        },
    }
}

/// Encodes `value` under `cfg`.
pub fn to_vec_with(value: &Value, cfg: &EncodeConfig) -> (r: Result<Vec<u8>, SerError>)
    ensures
        match enc(value@, *cfg) {
            Ok(b) => r is Ok && r->Ok_0@ == b,
            Err(e) => r == Err::<Vec<u8>, SerError>(e),
        },
{
    let mut out: Vec<u8> = Vec::new();
    encode_into(value, cfg, &mut out)?;
    assert(out@ =~= Seq::<u8>::empty() + enc(value@, *cfg)->Ok_0);
    Ok(out)
}

/// Encodes `value` with canonical dictionaries; booleans and absent values
/// are refused.
pub fn to_vec(value: &Value) -> (r: Result<Vec<u8>, SerError>)
    ensures
        match enc(value@, EncodeConfig::defaults()) {
            Ok(b) => r is Ok && r->Ok_0@ == b,
            Err(e) => r == Err::<Vec<u8>, SerError>(e),
        },
{
    let cfg = EncodeConfig::new();
    to_vec_with(value, &cfg)
}

/// Encodes `value` as [`to_vec`] does, as text; fails with `FromUtf8Error`
/// when the bytes are not valid UTF-8.
pub fn to_string(value: &Value) -> (r: Result<String, SerError>)
    ensures
        match enc(value@, EncodeConfig::defaults()) {
            Ok(b) => if valid_utf8(b) {
                r is Ok && r->Ok_0@ == decode_utf8(b)
            } else {
                r == Err::<String, SerError>(SerError::FromUtf8Error)
            },
            Err(e) => r == Err::<String, SerError>(e),
        },
{
    let bytes = to_vec(value)?;
    match utf8_text(bytes.as_slice()) {
        Some(s) => Ok(s.to_owned()),
        None => Err(SerError::FromUtf8Error),
    }
}

impl EncodeConfig {
    /// The configuration that [`EncodeConfig::new`] returns.
    pub open spec fn defaults() -> EncodeConfig {
        EncodeConfig { canonical: true, allow_bool: false, none_is_error: true }
    }
}

} // verus!
