//! Decoding: a cursor over the input, and the shape-directed reader.
use crate::error::DeError;
use crate::grammar::{
    find_from, lemma_find_from_found, is_digit, parse_i64, parse_u64, read_i64, read_u64, slice_while,
    utf8_text,
};
use crate::value::{
    lemma_view_entries_push, lemma_view_values_push, view_entries, view_values, Shape, Val,
    Value,
};
use std::marker::PhantomData;
use vstd::prelude::*;
use vstd::slice::slice_to_vec;
use vstd::string::StrSliceExecFns;
use vstd::utf8::{decode_utf8, encode_utf8, valid_utf8};

verus! {

/// Keeps [`Behaviour`] closed to the two behaviours of this module.
pub trait Sealed {
}

/// How a byte string is offered when no shape says what it holds.
pub trait Behaviour: Sealed {
    /// Whether such a byte string becomes text when it is valid UTF-8.
    spec fn auto_text() -> bool;

    fn text_when_valid() -> (r: bool)
        ensures
            r == Self::auto_text(),
    ;
}

/// Byte strings read without a shape always become bytes.
pub struct Simple;

/// Byte strings read without a shape become text when they are valid UTF-8,
/// and bytes otherwise.
pub struct Auto;

impl Sealed for Simple {
}

impl Sealed for Auto {
}

impl Behaviour for Simple {
    open spec fn auto_text() -> bool {
        false
    }

    fn text_when_valid() -> (r: bool) {
        false
    }
}

impl Behaviour for Auto {
    open spec fn auto_text() -> bool {
        true
    }

    fn text_when_valid() -> (r: bool) {
        true
    }
}

pub const COLON: u8 = 58;

pub const MINUS: u8 = 45;

pub const LOWER_D: u8 = 100;

pub const LOWER_E: u8 = 101;

pub const LOWER_I: u8 = 105;

pub const LOWER_L: u8 = 108;

/// The largest nesting that the plain entry points accept.
pub const DEFAULT_MAX_DEPTH: usize = 256;

/// A byte string at `pos`: its bytes and the position after it.
pub open spec fn read_byte_string(inp: Seq<u8>, pos: int) -> Result<(Seq<u8>, int), DeError> {
    match find_from(inp, pos, COLON) {
        None => Err(DeError::UnexpectedEof),
        Some(k) => match read_u64(inp.subrange(pos, k)) {
            None => Err(DeError::ParseIntegerError),
            Some(n) => if n > usize::MAX {
                Err(DeError::ParseIntegerError)
            } else if k + 1 + n > inp.len() {
                Err(DeError::UnexpectedEof)
            } else {
                Ok((inp.subrange(k + 1, k + 1 + n), k + 1 + n))
            },
        },
    }
}

/// The text of an integer token `i...e` at `pos`, and the position after it.
pub open spec fn read_int_token(inp: Seq<u8>, pos: int) -> Result<(Seq<u8>, int), DeError> {
    if pos < 0 || pos >= inp.len() {
        Err(DeError::UnexpectedEof)
    } else if inp[pos] != LOWER_I {
        Err(DeError::SyntaxError(inp[pos], Some(LOWER_I)))
    } else {
        match find_from(inp, pos + 1, LOWER_E) {
            None => Err(DeError::UnexpectedEof),
            Some(k) => Ok((inp.subrange(pos + 1, k), k + 1)),
        }
    }
}

pub open spec fn read_signed(inp: Seq<u8>, pos: int) -> Result<(Val, int), DeError> {
    match read_int_token(inp, pos) {
        Err(e) => Err(e),
        Ok((t, p)) => match read_i64(t) {
            Some(n) => Ok((Val::Int(n), p)),
            None => Err(DeError::ParseIntegerError),
        },
    }
}

pub open spec fn read_unsigned(inp: Seq<u8>, pos: int) -> Result<(Val, int), DeError> {
    match read_int_token(inp, pos) {
        Err(e) => Err(e),
        Ok((t, p)) => match read_u64(t) {
            Some(n) => Ok((Val::UInt(n), p)),
            None => Err(DeError::ParseIntegerError),
        },
    }
}

pub open spec fn read_bool(inp: Seq<u8>, pos: int) -> Result<(Val, int), DeError> {
    if pos < 0 || pos >= inp.len() {
        Err(DeError::UnexpectedEof)
    } else if inp[pos] != LOWER_I {
        Err(DeError::ExpectedInteger)
    } else {
        match read_int_token(inp, pos) {
            Err(e) => Err(e),
            Ok((t, p)) => if t == seq![48u8] {
                Ok((Val::Bool(false), p))
            } else if t == seq![49u8] {
                Ok((Val::Bool(true), p))
            } else {
                Err(DeError::ExpectedBoolean)
            },
        }
    }
}

pub open spec fn read_char(inp: Seq<u8>, pos: int) -> Result<(Val, int), DeError> {
    match read_byte_string(inp, pos) {
        Err(e) => Err(e),
        Ok((b, p)) => if b.len() > 4 {
            Err(DeError::ExpectedCharString)
        } else if !valid_utf8(b) {
            Err(DeError::Utf8Error)
        } else if decode_utf8(b).len() != 1 {
            Err(DeError::ExpectedCharString)
        } else {
            Ok((Val::Char(decode_utf8(b)[0]), p))
        },
    }
}

pub open spec fn read_text(inp: Seq<u8>, pos: int) -> Result<(Val, int), DeError> {
    match read_byte_string(inp, pos) {
        Err(e) => Err(e),
        Ok((b, p)) => if valid_utf8(b) {
            Ok((Val::Text(decode_utf8(b)), p))
        } else {
            Err(DeError::Utf8Error)
        },
    }
}

/// A byte string read with no shape: text under `Auto` when it is valid
/// UTF-8, else bytes.
pub open spec fn read_untyped_string(inp: Seq<u8>, pos: int, auto: bool) -> Result<
    (Val, int),
    DeError,
> {
    match read_byte_string(inp, pos) {
        Err(e) => Err(e),
        Ok((b, p)) => if auto && valid_utf8(b) {
            Ok((Val::Text(decode_utf8(b)), p))
        } else {
            Ok((Val::Bytes(b), p))
        },
    }
}

/// The index of the first variant whose name has the UTF-8 bytes `name`.
pub open spec fn variant_index(vs: Seq<(String, Option<Shape>)>, name: Seq<u8>, from: int) -> Option<
    int,
>
    decreases vs.len() - from,
{
    if from < 0 || from >= vs.len() {
        None
    } else if encode_utf8(vs[from].0@) == name {
        Some(from)
    } else {
        variant_index(vs, name, from + 1)
    }
}

/// The index of the first field named `name`.
pub open spec fn field_index(fs: Seq<(String, Shape)>, name: Seq<char>, from: int) -> Option<int>
    decreases fs.len() - from,
{
    if from < 0 || from >= fs.len() {
        None
    } else if fs[from].0@ == name {
        Some(from)
    } else {
        field_index(fs, name, from + 1)
    }
}

/// The shape of the value stored under `key`: the dictionary's value shape,
/// or, in a record, the shape of the field that the key names.
pub open spec fn entry_shape(val_shape: Shape, fields: Option<Seq<(String, Shape)>>, key: Val) -> Shape {
    match fields {
        None => val_shape,
        Some(fs) => match key {
            Val::Text(t) => match field_index(fs, t, 0) {
                Some(i) => fs[i].1,
                None => Shape::Any,
            },
            _ => Shape::Any,
        },
    }
}

/// Reads a value of shape `shape` at `pos`; on success, the value and the
/// position after it. `depth` bounds the nesting.
pub open spec fn parse(inp: Seq<u8>, pos: int, shape: Shape, auto: bool, depth: nat) -> Result<
    (Val, int),
    DeError,
>
    decreases depth, 1int, 0int,
{
    if depth == 0 {
        Err(DeError::DepthLimitExceeded)
    } else {
        let d = (depth - 1) as nat;
        match shape {
            Shape::Any => if pos < 0 || pos >= inp.len() {
                Err(DeError::UnexpectedEof)
            } else if inp[pos] == LOWER_I {
                if pos + 1 >= inp.len() {
                    Err(DeError::UnexpectedEof)
                } else if inp[pos + 1] == MINUS {
                    read_signed(inp, pos)
                } else {
                    read_unsigned(inp, pos)
                }
            } else if inp[pos] == LOWER_L {
                parse_items(inp, pos + 1, Shape::Any, auto, depth, Seq::empty())
            } else if inp[pos] == LOWER_D {
                parse_entries(inp, pos + 1, Shape::Any, Shape::Any, None, auto, depth, Seq::empty())
            } else if is_digit(inp[pos]) {
                read_untyped_string(inp, pos, auto)
            } else {
                Err(DeError::SyntaxError(inp[pos], None))
            },
            Shape::Bool => read_bool(inp, pos),
            Shape::Int => read_signed(inp, pos),
            Shape::UInt => read_unsigned(inp, pos),
            Shape::Float => Err(DeError::FloatingPointNotSupported),
            Shape::Char => read_char(inp, pos),
            Shape::Text => read_text(inp, pos),
            Shape::Bytes => match read_byte_string(inp, pos) {
                Err(e) => Err(e),
                Ok((b, p)) => Ok((Val::Bytes(b), p)),
            },
            Shape::Unit => if pos < 0 || pos + 2 > inp.len() {
                Err(DeError::UnexpectedEof)
            } else {
                Ok((Val::Unit, pos + 2))
            },
            Shape::UnitStruct(name) => match read_byte_string(inp, pos) {
                Err(e) => Err(e),
                Ok((b, p)) => if b == encode_utf8(name@) {
                    Ok((Val::Text(name@), p))
                } else {
                    Err(DeError::ExpectedUnitStructName)
                },
            },
            Shape::Optional(s) => if pos >= inp.len() {
                Ok((Val::Absent, pos))
            } else {
                match parse(inp, pos, *s, auto, d) {
                    Err(e) => Err(e),
                    Ok((v, p)) => Ok((Val::Present(Box::new(v)), p)),
                }
            },
            Shape::List(s) => if pos < 0 || pos >= inp.len() {
                Err(DeError::UnexpectedEof)
            } else if inp[pos] != LOWER_L {
                Err(DeError::SyntaxError(inp[pos], Some(LOWER_L)))
            } else {
                parse_items(inp, pos + 1, *s, auto, depth, Seq::empty())
            },
            Shape::Tuple(ss) => if pos < 0 || pos >= inp.len() {
                Err(DeError::UnexpectedEof)
            } else if inp[pos] != LOWER_L {
                Err(DeError::SyntaxError(inp[pos], Some(LOWER_L)))
            } else {
                parse_tuple_items(inp, pos + 1, ss@, 0, auto, depth, Seq::empty())
            },
            Shape::Dictionary(ks, vs) => if pos < 0 || pos >= inp.len() {
                Err(DeError::UnexpectedEof)
            } else if inp[pos] != LOWER_D {
                Err(DeError::SyntaxError(inp[pos], Some(LOWER_D)))
            } else {
                parse_entries(inp, pos + 1, *ks, *vs, None, auto, depth, Seq::empty())
            },
            Shape::Record(fs) => if pos < 0 || pos >= inp.len() {
                Err(DeError::UnexpectedEof)
            } else if inp[pos] != LOWER_D {
                Err(DeError::SyntaxError(inp[pos], Some(LOWER_D)))
            } else {
                parse_entries(inp, pos + 1, Shape::Text, Shape::Any, Some(fs@), auto, depth, Seq::empty())
            },
            Shape::Enum(vs) => if pos < 0 || pos >= inp.len() {
                Err(DeError::UnexpectedEof)
            } else if inp[pos] == LOWER_D {
                if pos + 1 >= inp.len() {
                    Err(DeError::UnexpectedEof)
                } else if !is_digit(inp[pos + 1]) {
                    Err(DeError::ExpectedString)
                } else {
                    match read_byte_string(inp, pos + 1) {
                        Err(e) => Err(e),
                        Ok((name, p)) => match variant_index(vs@, name, 0) {
                            None => Err(DeError::UnknownVariant),
                            Some(j) => match vs@[j].1 {
                                None => Err(DeError::ExpectedString),
                                Some(ps) => match parse(inp, p, ps, auto, d) {
                                    Err(e) => Err(e),
                                    Ok((x, q)) => if q < 0 || q >= inp.len() {
                                        Err(DeError::UnexpectedEof)
                                    } else if inp[q] != LOWER_E {
                                        Err(DeError::ExpectedEndOfDictionary)
                                    } else {
                                        Ok((Val::Variant(vs@[j].0@, Some(Box::new(x))), q + 1))
                                    },
                                },
                            },
                        },
                    }
                }
            } else if is_digit(inp[pos]) {
                match read_byte_string(inp, pos) {
                    Err(e) => Err(e),
                    Ok((name, p)) => if !valid_utf8(name) {
                        Err(DeError::Utf8Error)
                    } else {
                        match variant_index(vs@, name, 0) {
                            None => Err(DeError::UnknownVariant),
                            Some(j) => match vs@[j].1 {
                                Some(_) => Err(DeError::ExpectedDictionary),
                                None => Ok((Val::Variant(vs@[j].0@, None), p)),
                            },
                        }
                    },
                }
            } else {
                Err(DeError::ExpectedDictionary)
            },
        }
    }
}

/// The elements of a list after its `l`, each of shape `elem`, up to and
/// including the closing `e`; `acc` holds those already read.
pub open spec fn parse_items(
    inp: Seq<u8>,
    pos: int,
    elem: Shape,
    auto: bool,
    depth: nat,
    acc: Seq<Val>,
) -> Result<(Val, int), DeError>
    decreases depth, 0int, inp.len() - pos,
{
    if depth == 0 {
        Err(DeError::DepthLimitExceeded)
    } else if pos < 0 || pos >= inp.len() {
        Err(DeError::UnexpectedEof)
    } else if inp[pos] == LOWER_E {
        Ok((Val::List(acc), pos + 1))
    } else {
        match parse(inp, pos, elem, auto, (depth - 1) as nat) {
            Err(e) => Err(e),
            Ok((v, p)) => if p <= pos || p > inp.len() {
                Err(DeError::UnexpectedEof)
            } else {
                parse_items(inp, p, elem, auto, depth, acc.push(v))
            },
        }
    }
}

/// The elements of a tuple after its `l`, one of each shape of `shapes` from
/// index `i` on, then the closing `e`.
pub open spec fn parse_tuple_items(
    inp: Seq<u8>,
    pos: int,
    shapes: Seq<Shape>,
    i: int,
    auto: bool,
    depth: nat,
    acc: Seq<Val>,
) -> Result<(Val, int), DeError>
    decreases depth, 0int, shapes.len() - i,
{
    if depth == 0 {
        Err(DeError::DepthLimitExceeded)
    } else if i < 0 || i >= shapes.len() {
        if pos < 0 || pos >= inp.len() {
            Err(DeError::UnexpectedEof)
        } else if inp[pos] != LOWER_E {
            Err(DeError::SyntaxError(inp[pos], Some(LOWER_E)))
        } else {
            Ok((Val::List(acc), pos + 1))
        }
    } else {
        match parse(inp, pos, shapes[i], auto, (depth - 1) as nat) {
            Err(e) => Err(e),
            Ok((v, p)) => parse_tuple_items(inp, p, shapes, i + 1, auto, depth, acc.push(v)),
        }
    }
}

/// The entries of a dictionary after its `d`, up to and including the
/// closing `e`. Each key must be a byte string.
pub open spec fn parse_entries(
    inp: Seq<u8>,
    pos: int,
    key_shape: Shape,
    val_shape: Shape,
    fields: Option<Seq<(String, Shape)>>,
    auto: bool,
    depth: nat,
    acc: Seq<(Val, Val)>,
) -> Result<(Val, int), DeError>
    decreases depth, 0int, inp.len() - pos,
{
    if depth == 0 {
        Err(DeError::DepthLimitExceeded)
    } else if pos < 0 || pos >= inp.len() {
        Err(DeError::UnexpectedEof)
    } else if inp[pos] == LOWER_E {
        Ok((Val::Dict(acc), pos + 1))
    } else if !is_digit(inp[pos]) {
        Err(DeError::ExpectedString)
    } else {
        match parse(inp, pos, key_shape, auto, (depth - 1) as nat) {
            Err(e) => Err(e),
            Ok((k, p)) => match parse(
                inp,
                p,
                entry_shape(val_shape, fields, k),
                auto,
                (depth - 1) as nat,
            ) {
                Err(e) => Err(e),
                Ok((v, q)) => if q <= pos || q > inp.len() {
                    Err(DeError::UnexpectedEof)
                } else {
                    parse_entries(inp, q, key_shape, val_shape, fields, auto, depth, acc.push((k, v)))
                },
            },
        }
    }
}

/// What decoding all of `inp` as `shape` gives: the value must take up the
/// whole input.
pub open spec fn decode_whole(inp: Seq<u8>, shape: Shape, auto: bool, depth: nat) -> Result<
    Val,
    DeError,
> {
    match parse(inp, 0, shape, auto, depth) {
        Err(e) => Err(e),
        Ok((v, p)) => if p < inp.len() {
            Err(DeError::SyntaxError(inp[p], None))
        } else {
            Ok(v)
        },
    }
}

/// `r` is what the grammar gives, and `pos` is where it stops.
pub open spec fn same_outcome(r: Result<Value, DeError>, s: Result<(Val, int), DeError>, pos: int) -> bool {
    match s {
        Ok((v, p)) => r is Ok && r->Ok_0@ == v && pos == p,
        Err(e) => r == Err::<Value, DeError>(e),
    }
}

/// A forward-only reader over a borrowed input.
pub struct Deserializer<'de, B: Behaviour> {
    input: &'de [u8],
    pos: usize,
    marker: PhantomData<B>,
}

impl<'de> Deserializer<'de, Simple> {
    /// A reader over `input` that reads untyped byte strings as bytes.
    pub fn from_bytes(input: &'de [u8]) -> (r: Self)
        ensures
            r.input() == input@,
            r.pos() == 0,
    {
        Deserializer { input, pos: 0, marker: PhantomData }
    }

    /// A reader over the bytes of `input` that reads untyped byte strings as
    /// bytes.
    pub fn from_str(input: &'de str) -> (r: Self)
        ensures
            r.input() == encode_utf8(input@),
            r.pos() == 0,
    {
        Deserializer { input: input.as_bytes(), pos: 0, marker: PhantomData }
    }
}

impl<'de> Deserializer<'de, Auto> {
    /// A reader over `input` that reads untyped byte strings as text when
    /// they are valid UTF-8.
    pub fn from_bytes_auto(input: &'de [u8]) -> (r: Self)
        ensures
            r.input() == input@,
            r.pos() == 0,
    {
        Deserializer { input, pos: 0, marker: PhantomData }
    }

    /// A reader over the bytes of `input` that reads untyped byte strings as
    /// text when they are valid UTF-8.
    pub fn from_str_auto(input: &'de str) -> (r: Self)
        ensures
            r.input() == encode_utf8(input@),
            r.pos() == 0,
    {
        Deserializer { input: input.as_bytes(), pos: 0, marker: PhantomData }
    }
}

impl<'de, B: Behaviour> Deserializer<'de, B> {
    /// The whole input.
    pub closed spec fn input(&self) -> Seq<u8> {
        self.input@
    }

    /// The position of the next unread byte.
    pub closed spec fn pos(&self) -> int {
        self.pos as int
    }

    pub open spec fn wf(&self) -> bool {
        0 <= self.pos() <= self.input().len()
    }

    /// Whether every byte has been read.
    pub fn is_exhausted(&self) -> (r: bool)
        requires
            self.wf(),
        ensures
            r == (self.pos() == self.input().len()),
    {
        self.pos == self.input.len()
    }

    /// The next byte, left unread.
    pub fn peek_next(&self) -> (r: Result<u8, DeError>)
        requires
            self.wf(),
        ensures
            self.pos() < self.input().len() ==> r == Ok::<u8, DeError>(self.input()[self.pos()]),
            self.pos() == self.input().len() ==> r == Err::<u8, DeError>(DeError::UnexpectedEof),
    {
        if self.pos < self.input.len() {
            Ok(self.input[self.pos])
        } else {
            Err(DeError::UnexpectedEof)
        }
    }

    /// The byte after the next one, left unread.
    pub fn peek_second(&self) -> (r: Result<u8, DeError>)
        requires
            self.wf(),
        ensures
            self.pos() + 1 < self.input().len() ==> r == Ok::<u8, DeError>(
                self.input()[self.pos() + 1],
            ),
            self.pos() + 1 >= self.input().len() ==> r == Err::<u8, DeError>(
                DeError::UnexpectedEof,
            ),
    {
        if self.input.len() - self.pos > 1 {
            Ok(self.input[self.pos + 1])
        } else {
            Err(DeError::UnexpectedEof)
        }
    }

    /// Reads one byte.
    pub fn advance(&mut self) -> (r: Result<u8, DeError>)
        requires
            old(self).wf(),
        ensures
            final(self).wf(),
            final(self).input() == old(self).input(),
            old(self).pos() < old(self).input().len() ==> r == Ok::<u8, DeError>(
                old(self).input()[old(self).pos()],
            ) && final(self).pos() == old(self).pos() + 1,
            old(self).pos() == old(self).input().len() ==> r == Err::<u8, DeError>(
                DeError::UnexpectedEof,
            ) && final(self).pos() == old(self).pos(),
    {
        if self.pos < self.input.len() {
            let b = self.input[self.pos];
            self.pos = self.pos + 1;
            Ok(b)
        } else {
            Err(DeError::UnexpectedEof)
        }
    }

    /// Reads the next `len` bytes, without copying them.
    pub fn advance_by(&mut self, len: usize) -> (r: Result<&'de [u8], DeError>)
        requires
            old(self).wf(),
        ensures
            final(self).wf(),
            final(self).input() == old(self).input(),
            old(self).pos() + len <= old(self).input().len() ==> r is Ok && r->Ok_0@
                == old(self).input().subrange(old(self).pos(), old(self).pos() + len)
                && final(self).pos() == old(self).pos() + len,
            old(self).pos() + len > old(self).input().len() ==> r == Err::<&[u8], DeError>(
                DeError::UnexpectedEof,
            ) && final(self).pos() == old(self).pos(),
    {
        if len <= self.input.len() - self.pos {
            let start = self.pos;
            self.pos = self.pos + len;
            Ok(&self.input[start..start + len])
        } else {
            Err(DeError::UnexpectedEof)
        }
    }

    /// Reads up to the next `byte`, which is read too; returns the bytes
    /// before it, without copying them.
    pub fn advance_to(&mut self, byte: u8) -> (r: Result<&'de [u8], DeError>)
        requires
            old(self).wf(),
        ensures
            final(self).wf(),
            final(self).input() == old(self).input(),
            match find_from(old(self).input(), old(self).pos(), byte) {
                Some(k) => r is Ok && r->Ok_0@ == old(self).input().subrange(old(self).pos(), k)
                    && final(self).pos() == k + 1 && k >= old(self).pos(),
                None => r == Err::<&[u8], DeError>(DeError::UnexpectedEof) && final(self).pos()
                    == old(self).pos(),
            },
    {
        let rest = &self.input[self.pos..self.input.len()];
        let ghost inp = self.input@;
        let ghost p = self.pos as int;
        proof {
            lemma_find_shift(inp, p, 0, byte);
            lemma_find_from_found(rest@, 0, byte);
        }
        let before = slice_while(rest, byte)?;
        self.pos = self.pos + before.len() + 1;
        Ok(before)
    }

    /// Reads a byte string `<length>:<bytes>` and returns its bytes, without
    /// copying them.
    pub fn parse_byte_string(&mut self) -> (r: Result<&'de [u8], DeError>)
        requires
            old(self).wf(),
        ensures
            final(self).wf(),
            final(self).input() == old(self).input(),
            match read_byte_string(old(self).input(), old(self).pos()) {
                Ok((b, p)) => r is Ok && r->Ok_0@ == b && final(self).pos() == p && p > old(
                    self,
                ).pos(),
                Err(e) => r == Err::<&[u8], DeError>(e),
            },
            r is Err ==> final(self).pos() == old(self).pos(),
    {
        let start = self.pos;
        let digits = self.advance_to(COLON)?;
        let n = match parse_u64(digits) {
            Ok(n) => n,
            Err(e) => {
                self.pos = start;
                return Err(e);
            },
        };
        if n > usize::MAX as u64 {
            self.pos = start;
            return Err(DeError::ParseIntegerError);
        }
        match self.advance_by(n as usize) {
            Ok(b) => Ok(b),
            Err(e) => {
                self.pos = start;
                Err(e)
            },
        }
    }

    /// Reads an integer token `i...e` and returns the text between the
    /// markers.
    fn int_token(&mut self) -> (r: Result<&'de [u8], DeError>)
        requires
            old(self).wf(),
        ensures
            final(self).wf(),
            final(self).input() == old(self).input(),
            match read_int_token(old(self).input(), old(self).pos()) {
                Ok((t, p)) => r is Ok && r->Ok_0@ == t && final(self).pos() == p && p > old(
                    self,
                ).pos(),
                Err(e) => r == Err::<&[u8], DeError>(e),
            },
    {
        let marker = self.advance()?;
        if marker != LOWER_I {
            return Err(DeError::SyntaxError(marker, Some(LOWER_I)));
        }
        self.advance_to(LOWER_E)
    }

    fn read_signed(&mut self) -> (r: Result<Value, DeError>)
        requires
            old(self).wf(),
        ensures
            final(self).wf(),
            final(self).input() == old(self).input(),
            same_outcome(r, read_signed(old(self).input(), old(self).pos()), final(self).pos()),
            r is Ok ==> final(self).pos() > old(self).pos(),
    {
        let t = self.int_token()?;
        let n = parse_i64(t)?;
        Ok(Value::Int(n))
    }

    fn read_unsigned(&mut self) -> (r: Result<Value, DeError>)
        requires
            old(self).wf(),
        ensures
            final(self).wf(),
            final(self).input() == old(self).input(),
            same_outcome(r, read_unsigned(old(self).input(), old(self).pos()), final(self).pos()),
            r is Ok ==> final(self).pos() > old(self).pos(),
    {
        let t = self.int_token()?;
        let n = parse_u64(t)?;
        Ok(Value::UInt(n))
    }

    fn read_bool(&mut self) -> (r: Result<Value, DeError>)
        requires
            old(self).wf(),
        ensures
            final(self).wf(),
            final(self).input() == old(self).input(),
            same_outcome(r, read_bool(old(self).input(), old(self).pos()), final(self).pos()),
            r is Ok ==> final(self).pos() > old(self).pos(),
    {
        let b = self.peek_next()?;
        if b != LOWER_I {
            return Err(DeError::ExpectedInteger);
        }
        let t = self.int_token()?;
        if t.len() == 1 && t[0] == 48u8 {
            proof {
                assert(t@ =~= seq![48u8]);
            }
            Ok(Value::Bool(false))
        } else if t.len() == 1 && t[0] == 49u8 {
            proof {
                assert(t@ =~= seq![49u8]);
            }
            Ok(Value::Bool(true))
        } else {
            Err(DeError::ExpectedBoolean)
        }
    }

    fn read_char(&mut self) -> (r: Result<Value, DeError>)
        requires
            old(self).wf(),
        ensures
            final(self).wf(),
            final(self).input() == old(self).input(),
            same_outcome(r, read_char(old(self).input(), old(self).pos()), final(self).pos()),
            r is Ok ==> final(self).pos() > old(self).pos(),
    {
        let b = self.parse_byte_string()?;
        if b.len() > 4 {
            return Err(DeError::ExpectedCharString);
        }
        match utf8_text(b) {
            None => Err(DeError::Utf8Error),
            Some(s) => {
                if s.unicode_len() != 1 {
                    Err(DeError::ExpectedCharString)
                } else {
                    Ok(Value::Char(s.get_char(0)))
                }
            },
        }
    }

    fn read_text(&mut self) -> (r: Result<Value, DeError>)
        requires
            old(self).wf(),
        ensures
            final(self).wf(),
            final(self).input() == old(self).input(),
            same_outcome(r, read_text(old(self).input(), old(self).pos()), final(self).pos()),
            r is Ok ==> final(self).pos() > old(self).pos(),
    {
        let b = self.parse_byte_string()?;
        match utf8_text(b) {
            None => Err(DeError::Utf8Error),
            Some(s) => Ok(Value::Text(s.to_owned())),
        }
    }

    fn read_untyped_string(&mut self) -> (r: Result<Value, DeError>)
        requires
            old(self).wf(),
        ensures
            final(self).wf(),
            final(self).input() == old(self).input(),
            same_outcome(
                r,
                read_untyped_string(old(self).input(), old(self).pos(), B::auto_text()),
                final(self).pos(),
            ),
            r is Ok ==> final(self).pos() > old(self).pos(),
    {
        let b = self.parse_byte_string()?;
        if B::text_when_valid() {
            if let Some(s) = utf8_text(b) {
                return Ok(Value::Text(s.to_owned()));
            }
        }
        Ok(Value::Bytes(slice_to_vec(b)))
    }
}

/// Whether two byte slices are equal.
pub fn bytes_equal(a: &[u8], b: &[u8]) -> (r: bool)
    ensures
        r == (a@ == b@),
{
    if a.len() != b.len() {
        return false;
    }
    let mut i: usize = 0;
    while i < a.len()
        invariant
            a@.len() == b@.len(),
            0 <= i <= a@.len(),
            forall|j: int| 0 <= j < i ==> a@[j] == b@[j],
        decreases a@.len() - i,
    {
        if a[i] != b[i] {
            return false;
        }
        i = i + 1;
    }
    assert(a@ =~= b@);
    true
}

/// The index of the first variant whose name has the bytes `name`.
fn find_variant(vs: &Vec<(String, Option<Shape>)>, name: &[u8]) -> (r: Option<usize>)
    ensures
        r is Some ==> variant_index(vs@, name@, 0) == Some(r->0 as int) && r->0 < vs@.len(),
        r is None ==> variant_index(vs@, name@, 0) is None,
{
    let mut i: usize = 0;
    while i < vs.len()
        invariant
            0 <= i <= vs@.len(),
            variant_index(vs@, name@, 0) == variant_index(vs@, name@, i as int),
        decreases vs@.len() - i,
    {
        if bytes_equal(vs[i].0.as_str().as_bytes(), name) {
            return Some(i);
        }
        i = i + 1;
    }
    None
}

/// The index of the first field named `name`.
fn find_field(fs: &Vec<(String, Shape)>, name: &String) -> (r: Option<usize>)
    ensures
        r is Some ==> field_index(fs@, name@, 0) == Some(r->0 as int) && r->0 < fs@.len(),
        r is None ==> field_index(fs@, name@, 0) is None,
{
    let mut i: usize = 0;
    while i < fs.len()
        invariant
            0 <= i <= fs@.len(),
            field_index(fs@, name@, 0) == field_index(fs@, name@, i as int),
        decreases fs@.len() - i,
    {
        let same = bytes_equal(fs[i].0.as_str().as_bytes(), name.as_str().as_bytes());
        proof {
            vstd::utf8::encode_utf8_decode_utf8(fs@[i as int].0@);
            vstd::utf8::encode_utf8_decode_utf8(name@);
        }
        if same {
            return Some(i);
        }
        i = i + 1;
    }
    None
}

/// The fields of a record being read, as a sequence.
pub open spec fn fields_view(fields: Option<&Vec<(String, Shape)>>) -> Option<Seq<(String, Shape)>> {
    match fields {
        Some(fs) => Some(fs@),
        None => None,
    }
}

impl<'de, B: Behaviour> Deserializer<'de, B> {
    /// Reads one value of shape `shape`, nested at most `depth` deep. On an
    /// error the cursor is left where it was.
    pub fn decode_value(&mut self, shape: &Shape, depth: usize) -> (r: Result<Value, DeError>)
        requires
            old(self).wf(),
        ensures
            final(self).wf(),
            final(self).input() == old(self).input(),
            same_outcome(
                r,
                parse(old(self).input(), old(self).pos(), *shape, B::auto_text(), depth as nat),
                final(self).pos(),
            ),
            r is Ok ==> final(self).pos() > old(self).pos() || old(self).pos() == old(
                self,
            ).input().len(),
            r is Err ==> final(self).pos() == old(self).pos(),
        decreases depth, 2int,
    {
        let start = self.pos;
        let r = self.decode_step(shape, depth);
        if r.is_err() {
            self.pos = start;
        }
        r
    }

    /// Reads one value of shape `shape`; where an error leaves the cursor is
    /// not said.
    fn decode_step(&mut self, shape: &Shape, depth: usize) -> (r: Result<Value, DeError>)
        requires
            old(self).wf(),
        ensures
            final(self).wf(),
            final(self).input() == old(self).input(),
            same_outcome(
                r,
                parse(old(self).input(), old(self).pos(), *shape, B::auto_text(), depth as nat),
                final(self).pos(),
            ),
            r is Ok ==> final(self).pos() > old(self).pos() || old(self).pos() == old(
                self,
            ).input().len(),
        decreases depth, 1int,
    {
        if depth == 0 {
            return Err(DeError::DepthLimitExceeded);
        }
        match shape {
            Shape::Any => {
                let b = self.peek_next()?;
                if b == LOWER_I {
                    let c = self.peek_second()?;
                    if c == MINUS {
                        self.read_signed()
                    } else {
                        self.read_unsigned()
                    }
                } else if b == LOWER_L {
                    let _ = self.advance();
                    let any = Shape::Any;
                    self.decode_items(&any, depth)
                } else if b == LOWER_D {
                    let _ = self.advance();
                    let any = Shape::Any;
                    self.decode_entries(&any, &any, None, depth)
                } else if 48 <= b && b <= 57 {
                    self.read_untyped_string()
                } else {
                    Err(DeError::SyntaxError(b, None))
                }
            },
            Shape::Bool => self.read_bool(),
            Shape::Int => self.read_signed(),
            Shape::UInt => self.read_unsigned(),
            Shape::Float => Err(DeError::FloatingPointNotSupported),
            Shape::Char => self.read_char(),
            Shape::Text => self.read_text(),
            Shape::Bytes => {
                let b = self.parse_byte_string()?;
                Ok(Value::Bytes(slice_to_vec(b)))
            },
            Shape::Unit => {
                let _ = self.advance_by(2)?;
                Ok(Value::Unit)
            },
            Shape::UnitStruct(name) => {
                let b = self.parse_byte_string()?;
                if bytes_equal(b, name.as_str().as_bytes()) {
                    Ok(Value::Text(name.clone()))
                } else {
                    Err(DeError::ExpectedUnitStructName)
                }
            },
            Shape::Optional(s) => {
                if self.is_exhausted() {
                    Ok(Value::Absent)
                } else {
                    let v = self.decode_value(&**s, depth - 1)?;
                    Ok(Value::Present(Box::new(v)))
                }
            },
            Shape::List(s) => {
                let b = self.advance()?;
                if b != LOWER_L {
                    return Err(DeError::SyntaxError(b, Some(LOWER_L)));
                }
                self.decode_items(&**s, depth)
            },
            Shape::Tuple(ss) => {
                let b = self.advance()?;
                if b != LOWER_L {
                    return Err(DeError::SyntaxError(b, Some(LOWER_L)));
                }
                self.decode_tuple_items(ss, depth)
            },
            Shape::Dictionary(ks, vs) => {
                let b = self.advance()?;
                if b != LOWER_D {
                    return Err(DeError::SyntaxError(b, Some(LOWER_D)));
                }
                self.decode_entries(&**ks, &**vs, None, depth)
            },
            Shape::Record(fs) => {
                let b = self.advance()?;
                if b != LOWER_D {
                    return Err(DeError::SyntaxError(b, Some(LOWER_D)));
                }
                let text = Shape::Text;
                let any = Shape::Any;
                self.decode_entries(&text, &any, Some(fs), depth)
            },
            Shape::Enum(vs) => self.decode_variant(vs, depth),
        }
    }

    fn decode_variant(&mut self, vs: &Vec<(String, Option<Shape>)>, depth: usize) -> (r: Result<
        Value,
        DeError,
    >)
        requires
            old(self).wf(),
            depth >= 1,
        ensures
            final(self).wf(),
            final(self).input() == old(self).input(),
            same_outcome(
                r,
                parse(
                    old(self).input(),
                    old(self).pos(),
                    Shape::Enum(*vs),
                    B::auto_text(),
                    depth as nat,
                ),
                final(self).pos(),
            ),
            r is Ok ==> final(self).pos() > old(self).pos(),
        decreases depth, 0int,
    {
        let b = self.peek_next()?;
        if b == LOWER_D {
            let _ = self.advance();
            let c = self.peek_next()?;
            if !(48 <= c && c <= 57) {
                return Err(DeError::ExpectedString);
            }
            let name = self.parse_byte_string()?;
            match find_variant(vs, name) {
                None => Err(DeError::UnknownVariant),
                Some(j) => match &vs[j].1 {
                    None => Err(DeError::ExpectedString),
                    Some(ps) => {
                        let x = self.decode_value(ps, depth - 1)?;
                        let end = self.advance()?;
                        if end != LOWER_E {
                            Err(DeError::ExpectedEndOfDictionary)
                        } else {
                            Ok(Value::Variant(vs[j].0.clone(), Some(Box::new(x))))
                        }
                    },
                },
            }
        } else if 48 <= b && b <= 57 {
            let name = self.parse_byte_string()?;
            if utf8_text(name).is_none() {
                return Err(DeError::Utf8Error);
            }
            match find_variant(vs, name) {
                None => Err(DeError::UnknownVariant),
                Some(j) => match &vs[j].1 {
                    Some(_) => Err(DeError::ExpectedDictionary),
                    None => Ok(Value::Variant(vs[j].0.clone(), None)),
                },
            }
        } else {
            Err(DeError::ExpectedDictionary)
        }
    }

    /// Reads list elements of shape `elem` after the opening `l`, and the
    /// closing `e`.
    fn decode_items(&mut self, elem: &Shape, depth: usize) -> (r: Result<Value, DeError>)
        requires
            old(self).wf(),
            depth >= 1,
        ensures
            final(self).wf(),
            final(self).input() == old(self).input(),
            same_outcome(
                r,
                parse_items(
                    old(self).input(),
                    old(self).pos(),
                    *elem,
                    B::auto_text(),
                    depth as nat,
                    Seq::empty(),
                ),
                final(self).pos(),
            ),
            r is Ok ==> final(self).pos() > old(self).pos(),
        decreases depth, 0int,
    {
        let ghost inp = self.input();
        let ghost start = self.pos();
        let mut items: Vec<Value> = Vec::new();
        loop
            invariant
                self.wf(),
                self.input() == inp,
                inp == old(self).input(),
                start == old(self).pos(),
                self.pos() >= start,
                depth >= 1,
                parse_items(inp, start, *elem, B::auto_text(), depth as nat, Seq::empty())
                    == parse_items(
                    inp,
                    self.pos(),
                    *elem,
                    B::auto_text(),
                    depth as nat,
                    view_values(items@),
                ),
            decreases self.input().len() - self.pos(),
        {
            let b = self.peek_next()?;
            if b == LOWER_E {
                let _ = self.advance();
                return Ok(Value::List(items));
            }
            let v = self.decode_value(elem, depth - 1)?;
            proof {
                lemma_view_values_push(items@, v);
            }
            items.push(v);
        }
    }

    /// Reads one element of each shape of `shapes` after the opening `l`,
    /// and the closing `e`.
    fn decode_tuple_items(&mut self, shapes: &Vec<Shape>, depth: usize) -> (r: Result<
        Value,
        DeError,
    >)
        requires
            old(self).wf(),
            depth >= 1,
        ensures
            final(self).wf(),
            final(self).input() == old(self).input(),
            same_outcome(
                r,
                parse_tuple_items(
                    old(self).input(),
                    old(self).pos(),
                    shapes@,
                    0,
                    B::auto_text(),
                    depth as nat,
                    Seq::empty(),
                ),
                final(self).pos(),
            ),
            r is Ok ==> final(self).pos() > old(self).pos(),
        decreases depth, 0int,
    {
        let ghost inp = self.input();
        let ghost start = self.pos();
        let mut items: Vec<Value> = Vec::new();
        let mut i: usize = 0;
        while i < shapes.len()
            invariant
                self.wf(),
                self.input() == inp,
                inp == old(self).input(),
                start == old(self).pos(),
                self.pos() >= start,
                depth >= 1,
                0 <= i <= shapes@.len(),
                parse_tuple_items(inp, start, shapes@, 0, B::auto_text(), depth as nat, Seq::empty())
                    == parse_tuple_items(
                    inp,
                    self.pos(),
                    shapes@,
                    i as int,
                    B::auto_text(),
                    depth as nat,
                    view_values(items@),
                ),
            decreases shapes@.len() - i,
        {
            let v = self.decode_value(&shapes[i], depth - 1)?;
            proof {
                lemma_view_values_push(items@, v);
            }
            items.push(v);
            i = i + 1;
        }
        let end = self.advance()?;
        if end != LOWER_E {
            return Err(DeError::SyntaxError(end, Some(LOWER_E)));
        }
        Ok(Value::List(items))
    }

    /// Reads dictionary entries after the opening `d`, and the closing `e`.
    /// With `fields`, the value shape is that of the field the key names.
    fn decode_entries(
        &mut self,
        key_shape: &Shape,
        val_shape: &Shape,
        fields: Option<&Vec<(String, Shape)>>,
        depth: usize,
    ) -> (r: Result<Value, DeError>)
        requires
            old(self).wf(),
            depth >= 1,
        ensures
            final(self).wf(),
            final(self).input() == old(self).input(),
            same_outcome(
                r,
                parse_entries(
                    old(self).input(),
                    old(self).pos(),
                    *key_shape,
                    *val_shape,
                    fields_view(fields),
                    B::auto_text(),
                    depth as nat,
                    Seq::empty(),
                ),
                final(self).pos(),
            ),
            r is Ok ==> final(self).pos() > old(self).pos(),
        decreases depth, 0int,
    {
        let ghost inp = self.input();
        let ghost start = self.pos();
        let ghost fv = fields_view(fields);
        let mut entries: Vec<(Value, Value)> = Vec::new();
        let any = Shape::Any;
        loop
            invariant
                self.wf(),
                self.input() == inp,
                inp == old(self).input(),
                start == old(self).pos(),
                self.pos() >= start,
                depth >= 1,
                fv == fields_view(fields),
                any == Shape::Any,
                parse_entries(
                    inp,
                    start,
                    *key_shape,
                    *val_shape,
                    fv,
                    B::auto_text(),
                    depth as nat,
                    Seq::empty(),
                ) == parse_entries(
                    inp,
                    self.pos(),
                    *key_shape,
                    *val_shape,
                    fv,
                    B::auto_text(),
                    depth as nat,
                    view_entries(entries@),
                ),
            decreases self.input().len() - self.pos(),
        {
            let b = self.peek_next()?;
            if b == LOWER_E {
                let _ = self.advance();
                return Ok(Value::Dict(entries));
            }
            if !(48 <= b && b <= 57) {
                return Err(DeError::ExpectedString);
            }
            let key = self.decode_value(key_shape, depth - 1)?;
            let vshape: &Shape = match fields {
                None => val_shape,
                Some(fs) => match &key {
                    Value::Text(t) => match find_field(fs, t) {
                        Some(i) => &fs[i].1,
                        None => &any,
                    },
                    _ => &any,
                },
            };
            proof {
                if let Value::Text(t) = &key {
                    assert(key@ == Val::Text(t@));
                }
            }
            assert(*vshape == entry_shape(*val_shape, fv, key@));
            let val = self.decode_value(vshape, depth - 1)?;
            proof {
                lemma_view_entries_push(entries@, key, val);
            }
            entries.push((key, val));
        }
    }
}

fn decode_slice<B: Behaviour>(input: &[u8], shape: &Shape, max_depth: usize) -> (r: Result<
    Value,
    DeError,
>)
    ensures
        same_result(r, decode_whole(input@, *shape, B::auto_text(), max_depth as nat)),
{
    let mut de: Deserializer<B> = Deserializer { input, pos: 0, marker: PhantomData };
    let v = de.decode_value(shape, max_depth)?;
    if de.pos < input.len() {
        Err(DeError::SyntaxError(input[de.pos], None))
    } else {
        Ok(v)
    }
}

/// `r` is what the grammar gives for the whole input.
pub open spec fn same_result(r: Result<Value, DeError>, s: Result<Val, DeError>) -> bool {
    match s {
        Ok(v) => r is Ok && r->Ok_0@ == v,
        Err(e) => r == Err::<Value, DeError>(e),
    }
}

/// Decodes all of `b` as a value of shape `shape`; byte strings read with no
/// shape become bytes.
pub fn from_bytes(b: &[u8], shape: &Shape) -> (r: Result<Value, DeError>)
    ensures
        same_result(r, decode_whole(b@, *shape, false, DEFAULT_MAX_DEPTH as nat)),
{
    decode_slice::<Simple>(b, shape, DEFAULT_MAX_DEPTH)
}

/// Decodes all of `b` as a value of shape `shape`; byte strings read with no
/// shape become text when they are valid UTF-8.
pub fn from_bytes_auto(b: &[u8], shape: &Shape) -> (r: Result<Value, DeError>)
    ensures
        same_result(r, decode_whole(b@, *shape, true, DEFAULT_MAX_DEPTH as nat)),
{
    decode_slice::<Auto>(b, shape, DEFAULT_MAX_DEPTH)
}

/// Decodes the bytes of `s` as a value of shape `shape`; byte strings read
/// with no shape become bytes.
pub fn from_str(s: &str, shape: &Shape) -> (r: Result<Value, DeError>)
    ensures
        same_result(r, decode_whole(encode_utf8(s@), *shape, false, DEFAULT_MAX_DEPTH as nat)),
{
    decode_slice::<Simple>(s.as_bytes(), shape, DEFAULT_MAX_DEPTH)
}

/// Decodes the bytes of `s` as a value of shape `shape`; byte strings read
/// with no shape become text when they are valid UTF-8.
pub fn from_str_auto(s: &str, shape: &Shape) -> (r: Result<Value, DeError>)
    ensures
        same_result(r, decode_whole(encode_utf8(s@), *shape, true, DEFAULT_MAX_DEPTH as nat)),
{
    decode_slice::<Auto>(s.as_bytes(), shape, DEFAULT_MAX_DEPTH)
}

/// Decodes all of `b` as a value of shape `shape`, nested at most
/// `max_depth` deep.
pub fn from_bytes_with_depth(b: &[u8], shape: &Shape, auto: bool, max_depth: usize) -> (r: Result<
    Value,
    DeError,
>)
    ensures
        same_result(r, decode_whole(b@, *shape, auto, max_depth as nat)),
{
    if auto {
        decode_slice::<Auto>(b, shape, max_depth)
    } else {
        decode_slice::<Simple>(b, shape, max_depth)
    }
}

proof fn lemma_find_shift(s: Seq<u8>, p: int, from: int, b: u8)
    requires
        0 <= p <= s.len(),
        0 <= from <= s.len() - p,
    ensures
        match find_from(s.subrange(p, s.len() as int), from, b) {
            Some(k) => find_from(s, p + from, b) == Some(p + k),
            None => find_from(s, p + from, b) is None,
        },
    decreases s.len() - p - from,
{
    if from < s.len() - p {
        lemma_find_shift(s, p, from + 1, b);
    }
}

} // verus!
