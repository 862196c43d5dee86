//! Decoding: a forward-only cursor over the input with one field of
//! lookahead.

use vstd::prelude::*;
use vstd::slice::slice_subrange;
use vstd::utf8::decode_utf8_encode_utf8;

use crate::decimal::parse_bounded;
use crate::decimal::parse_signed;
use crate::decimal::parse_unsigned;
use crate::error::Error;
use crate::framing::bytes_to_length;
use crate::framing::prefix_value;
use crate::ser::bool_text;
use crate::text::bytes_to_str;
use crate::text::text_of;
use crate::value::Field;
use crate::value::Shape;
use crate::value::SpecField;
use crate::value::SpecFieldShape;
use crate::value::SpecShape;
use crate::value::SpecValue;
use crate::value::Value;

verus! {

/// The length announced by the prefix at `at`; `Eof` where fewer than two
/// bytes are left.
pub open spec fn length_at(input: Seq<u8>, at: int) -> Result<u16, Error> {
    if 0 <= at && at + 2 <= input.len() {
        Ok(prefix_value(input[at], input[at + 1]) as u16)
    } else {
        Err(Error::Eof)
    }
}

/// The `count` bytes at `at`; `Eof` where fewer are left.
pub open spec fn payload_at(input: Seq<u8>, at: int, count: int) -> Result<Seq<u8>, Error> {
    if 0 <= at && 0 <= count && at + count <= input.len() {
        Ok(input.subrange(at, at + count))
    } else {
        Err(Error::Eof)
    }
}

/// The `count` bytes at `at`, read as text; `BadData` where they are not
/// UTF-8.
pub open spec fn text_at(input: Seq<u8>, at: int, count: int) -> Result<Seq<char>, Error> {
    match payload_at(input, at, count) {
        Err(e) => Err(e),
        Ok(payload) => match text_of(payload) {
            None => Err(Error::BadData),
            Some(chars) => Ok(chars),
        },
    }
}

/// The payload of the field that starts at `at`, and where the next field
/// starts.
pub open spec fn field_at(input: Seq<u8>, at: int) -> Result<(Seq<u8>, int), Error> {
    match length_at(input, at) {
        Err(e) => Err(e),
        Ok(count) => match payload_at(input, at + 2, count as int) {
            Err(e) => Err(e),
            Ok(payload) => Ok((payload, at + 2 + count)),
        },
    }
}

/// The text of the field that starts at `at`, and where the next field
/// starts.
pub open spec fn text_field_at(input: Seq<u8>, at: int) -> Result<(Seq<char>, int), Error> {
    match field_at(input, at) {
        Err(e) => Err(e),
        Ok((payload, next)) => match text_of(payload) {
            None => Err(Error::BadData),
            Some(chars) => Ok((chars, next)),
        },
    }
}

/// The scalar of the given shape that a payload spells. An empty payload
/// spells none: a field of length zero is the terminator.
pub open spec fn scalar_of(payload: Seq<u8>, shape: SpecShape) -> Option<SpecValue> {
    match shape {
        SpecShape::Bool => if payload == bool_text(true) {
            Some(SpecValue::Bool(true))
        } else if payload == bool_text(false) {
            Some(SpecValue::Bool(false))
        } else {
            None
        },
        SpecShape::I8 => match parse_bounded(payload, true, i8::MIN as int, i8::MAX as int) {
            Some(v) => Some(SpecValue::I8(v as i8)),
            None => None,
        },
        SpecShape::I16 => match parse_bounded(payload, true, i16::MIN as int, i16::MAX as int) {
            Some(v) => Some(SpecValue::I16(v as i16)),
            None => None,
        },
        SpecShape::I32 => match parse_bounded(payload, true, i32::MIN as int, i32::MAX as int) {
            Some(v) => Some(SpecValue::I32(v as i32)),
            None => None,
        },
        SpecShape::I64 => match parse_bounded(payload, true, i64::MIN as int, i64::MAX as int) {
            Some(v) => Some(SpecValue::I64(v as i64)),
            None => None,
        },
        SpecShape::U8 => match parse_bounded(payload, false, 0, u8::MAX as int) {
            Some(v) => Some(SpecValue::U8(v as u8)),
            None => None,
        },
        SpecShape::U16 => match parse_bounded(payload, false, 0, u16::MAX as int) {
            Some(v) => Some(SpecValue::U16(v as u16)),
            None => None,
        },
        SpecShape::U32 => match parse_bounded(payload, false, 0, u32::MAX as int) {
            Some(v) => Some(SpecValue::U32(v as u32)),
            None => None,
        },
        SpecShape::U64 => match parse_bounded(payload, false, 0, u64::MAX as int) {
            Some(v) => Some(SpecValue::U64(v as u64)),
            None => None,
        },
        SpecShape::Char => match text_of(payload) {
            Some(chars) => if chars.len() == 1 {
                Some(SpecValue::Char(chars[0]))
            } else {
                None
            },
            None => None,
        },
        SpecShape::Str => match text_of(payload) {
            Some(chars) => if payload.len() > 0 {
                Some(SpecValue::Str(chars))
            } else {
                None
            },
            None => None,
        },
        SpecShape::Struct(_) => None,
        SpecShape::Sequence(_) => None,
    }
}

/// The scalar of the given shape in the field that starts at `at`, and
/// where the next field starts; `BadData` where the payload does not spell
/// one.
pub open spec fn scalar_at(input: Seq<u8>, at: int, shape: SpecShape) -> Result<
    (SpecValue, int),
    Error,
> {
    match field_at(input, at) {
        Err(e) => Err(e),
        Ok((payload, next)) => match scalar_of(payload, shape) {
            None => Err(Error::BadData),
            Some(v) => Ok((v, next)),
        },
    }
}

/// The value of the given shape that starts at `at`, and where it ends.
///
/// A scalar is one field. A struct is, for each declared field in turn, the
/// key as a string and then the value. A sequence is one frame, which its
/// elements fill exactly.
pub open spec fn parse_value(input: Seq<u8>, at: int, shape: SpecShape) -> Result<
    (SpecValue, int),
    Error,
>
    decreases shape, 0nat, 0nat,
{
    match shape {
        SpecShape::Struct(shapes) => match parse_fields(input, at, shapes, 0, Seq::empty()) {
            Err(e) => Err(e),
            Ok((fields, next)) => Ok((SpecValue::Struct(fields), next)),
        },
        SpecShape::Sequence(element) => match field_at(input, at) {
            Err(e) => Err(e),
            Ok((_, next)) => match parse_items(input, at + 2, next, *element, Seq::empty()) {
                Err(e) => Err(e),
                Ok(items) => Ok((SpecValue::Sequence(items), next)),
            },
        },
        _ => scalar_at(input, at, shape),
    }
}

/// The fields of a struct from the `k`-th declared one on, read from `at`
/// and added to `acc`. A key that is not the declared one is `BadData`.
pub open spec fn parse_fields(
    input: Seq<u8>,
    at: int,
    shapes: Seq<SpecFieldShape>,
    k: nat,
    acc: Seq<SpecField>,
) -> Result<(Seq<SpecField>, int), Error>
    decreases shapes, shapes.len() - k, 0nat,
{
    if k >= shapes.len() {
        Ok((acc, at))
    } else {
        match scalar_at(input, at, SpecShape::Str) {
            Err(e) => Err(e),
            Ok((key, next)) => if key != SpecValue::Str(shapes[k as int].key) {
                Err(Error::BadData)
            } else {
                match parse_value(input, next, shapes[k as int].shape) {
                    Err(e) => Err(e),
                    Ok((v, after)) => parse_fields(
                        input,
                        after,
                        shapes,
                        k + 1,
                        acc.push(SpecField { key: shapes[k as int].key, value: v }),
                    ),
                }
            },
        }
    }
}

/// The elements of a sequence whose frame ends at `end`, read from `at` and
/// added to `acc`. An element that takes no bytes, or that runs past the end
/// of the frame, is `BadData`.
pub open spec fn parse_items(
    input: Seq<u8>,
    at: int,
    end: int,
    element: SpecShape,
    acc: Seq<SpecValue>,
) -> Result<Seq<SpecValue>, Error>
    decreases element, 1nat, end - at,
{
    if at == end {
        Ok(acc)
    } else if at > end {
        Err(Error::BadData)
    } else {
        match parse_value(input, at, element) {
            Err(e) => Err(e),
            Ok((v, next)) => if next <= at || next > end {
                Err(Error::BadData)
            } else {
                parse_items(input, next, end, element, acc.push(v))
            },
        }
    }
}

/// Whether the document is over at `at`: the terminator stands there and the
/// input ends with it. `Eof` where no length prefix can be read at `at`;
/// `TrailingCharacters` where another field stands there, or where bytes
/// follow the terminator.
pub open spec fn end_at(input: Seq<u8>, at: int) -> Result<(), Error> {
    match length_at(input, at) {
        Err(e) => Err(e),
        Ok(length) => if length == 0 && at + 2 == input.len() {
            Ok(())
        } else {
            Err(Error::TrailingCharacters)
        },
    }
}

/// The value of the given shape that a whole document holds: the value
/// starts at the first byte, the terminator follows it, and nothing follows
/// the terminator.
pub open spec fn decode_document(input: Seq<u8>, shape: SpecShape) -> Result<SpecValue, Error> {
    match parse_value(input, 0, shape) {
        Err(e) => Err(e),
        Ok((v, next)) => match end_at(input, next) {
            Err(e) => Err(e),
            Ok(_) => Ok(v),
        },
    }
}

/// A cursor into a buffer that is being decoded. A read that fails leaves
/// the cursor where it was.
pub struct Deserializer<'de> {
    index: usize,
    input: &'de [u8],
}

impl<'de> Deserializer<'de> {
    #[verifier::type_invariant]
    spec fn in_bounds(self) -> bool {
        self.index <= self.input@.len()
    }

    /// The whole buffer.
    pub closed spec fn bytes(&self) -> Seq<u8> {
        self.input@
    }

    /// How many bytes have been consumed.
    pub closed spec fn position(&self) -> int {
        self.index as int
    }

    /// A cursor at the start of `bytes`.
    pub fn from_bytes(bytes: &'de [u8]) -> (de: Self)
        ensures
            de.bytes() == bytes@,
            de.position() == 0,
    {
        Self { index: 0, input: bytes }
    }

    /// The length prefix under the cursor, which stays where it is.
    pub fn peek_length(&self) -> (result: Result<u16, Error>)
        ensures
            result == length_at(self.bytes(), self.position()),
    {
        proof {
            use_type_invariant(self);
        }
        if self.input.len() - self.index < 2 {
            return Err(Error::Eof);
        }
        let bytes: [u8; 2] = [self.input[self.index], self.input[self.index + 1]];
        Ok(bytes_to_length(&bytes))
    }

    /// The length prefix under the cursor; the cursor moves past it.
    pub fn read_length(&mut self) -> (result: Result<u16, Error>)
        ensures
            final(self).bytes() == old(self).bytes(),
            result == length_at(old(self).bytes(), old(self).position()),
            result is Ok ==> final(self).position() == old(self).position() + 2,
            result is Err ==> final(self).position() == old(self).position(),
    {
        proof {
            use_type_invariant(&*self);
            assert(self.input@.len() == self.input.len());
        }
        let length = self.peek_length();
        if length.is_ok() {
            self.index += 2;
        }
        length
    }

    /// The next `count` bytes as text; the cursor moves past them.
    pub fn read_str(&mut self, count: u16) -> (result: Result<&'de str, Error>)
        ensures
            final(self).bytes() == old(self).bytes(),
            match text_at(old(self).bytes(), old(self).position(), count as int) {
                Ok(chars) => result matches Ok(text) && text@ == chars && final(self).position()
                    == old(self).position() + count,
                Err(e) => result matches Err(err) && err == e
                    && final(self).position() == old(self).position(),
            },
    {
        proof {
            use_type_invariant(&*self);
        }
        if self.input.len() - self.index < count as usize {
            return Err(Error::Eof);
        }
        let new_value = self.index + count as usize;
        match bytes_to_str(slice_subrange(self.input, self.index, new_value)) {
            Some(string) => {
                self.index = new_value;
                Ok(string)
            },
            None => Err(Error::BadData),
        }
    }

    /// The text of the field under the cursor, borrowed from the buffer; the
    /// cursor moves past the field.
    pub fn read_next_value_as_str(&mut self) -> (result: Result<&'de str, Error>)
        ensures
            final(self).bytes() == old(self).bytes(),
            match text_field_at(old(self).bytes(), old(self).position()) {
                Ok((chars, next)) => result matches Ok(text) && text@ == chars
                    && final(self).position() == next,
                Err(e) => result matches Err(err) && err == e
                    && final(self).position() == old(self).position(),
            },
    {
        proof {
            use_type_invariant(&*self);
        }
        let start = self.index;
        let length = match self.read_length() {
            Ok(length) => length,
            Err(e) => { return Err(e); },
        };
        match self.read_str(length) {
            Ok(value) => Ok(value),
            Err(e) => {
                self.index = start;
                Err(e)
            },
        }
    }

    /// The text of the field under the cursor, as an owned string; the cursor
    /// moves past the field.
    pub fn read_next_value(&mut self) -> (result: Result<String, Error>)
        ensures
            final(self).bytes() == old(self).bytes(),
            match text_field_at(old(self).bytes(), old(self).position()) {
                Ok((chars, next)) => result matches Ok(text) && text@ == chars
                    && final(self).position() == next,
                Err(e) => result matches Err(err) && err == e
                    && final(self).position() == old(self).position(),
            },
    {
        match self.read_next_value_as_str() {
            Ok(value) => Ok(String::from_str(value)),
            Err(e) => Err(e),
        }
    }

    /// Whether the cursor stands on the terminator.
    pub fn done(&self) -> (result: Result<bool, Error>)
        ensures
            result == match length_at(self.bytes(), self.position()) {
                Ok(length) => Ok::<bool, Error>(length == 0),
                Err(e) => Err(e),
            },
    {
        match self.peek_length() {
            Ok(length) => Ok(length == 0),
            Err(e) => Err(e),
        }
    }

    /// Whether the document is over: the cursor stands on the terminator and
    /// the buffer ends with it.
    pub fn finish(&self) -> (result: Result<(), Error>)
        ensures
            result == end_at(self.bytes(), self.position()),
    {
        proof {
            use_type_invariant(self);
        }
        match self.done() {
            Err(e) => Err(e),
            Ok(true) => if self.input.len() - self.index == 2 {
                Ok(())
            } else {
                Err(Error::TrailingCharacters)
            },
            Ok(false) => Err(Error::TrailingCharacters),
        }
    }

    /// Whether another field of a struct follows, where `remaining` of its
    /// declared fields are still to be read. None follows where none
    /// remains; where one remains and the terminator stands in its place,
    /// the struct is cut short: `BadData`.
    pub fn field_follows(&self, remaining: usize) -> (result: Result<bool, Error>)
        ensures
            result == if remaining == 0 {
                Ok::<bool, Error>(false)
            } else {
                match length_at(self.bytes(), self.position()) {
                    Err(e) => Err(e),
                    Ok(length) => if length == 0 {
                        Err(Error::BadData)
                    } else {
                        Ok(true)
                    },
                }
            },
    {
        if remaining == 0 {
            return Ok(false);
        }
        match self.done() {
            Err(e) => Err(e),
            Ok(true) => Err(Error::BadData),
            Ok(false) => Ok(true),
        }
    }

    /// The payload of the field under the cursor; the cursor moves past the
    /// field.
    pub fn read_field(&mut self) -> (result: Result<&'de [u8], Error>)
        ensures
            final(self).bytes() == old(self).bytes(),
            match field_at(old(self).bytes(), old(self).position()) {
                Ok((payload, next)) => result matches Ok(bytes) && bytes@ == payload
                    && final(self).position() == next,
                Err(e) => result matches Err(err) && err == e
                    && final(self).position() == old(self).position(),
            },
    {
        proof {
            use_type_invariant(&*self);
        }
        let start = self.index;
        let length = match self.read_length() {
            Ok(length) => length,
            Err(e) => { return Err(e); },
        };
        if self.input.len() - self.index < length as usize {
            self.index = start;
            return Err(Error::Eof);
        }
        let end = self.index + length as usize;
        let payload = slice_subrange(self.input, self.index, end);
        self.index = end;
        Ok(payload)
    }

    /// How many bytes have been consumed.
    pub fn index(&self) -> (index: usize)
        ensures
            index == self.position(),
    {
        self.index
    }

    /// Enters the frame under the cursor: the cursor moves past the length
    /// prefix, and the result is where the frame ends. A frame that runs
    /// past the end of the buffer is `Eof`.
    pub fn begin_frame(&mut self) -> (result: Result<usize, Error>)
        ensures
            final(self).bytes() == old(self).bytes(),
            match field_at(old(self).bytes(), old(self).position()) {
                Ok((_, next)) => result matches Ok(end) && end == next && final(self).position()
                    == old(self).position() + 2,
                Err(e) => result matches Err(err) && err == e
                    && final(self).position() == old(self).position(),
            },
    {
        proof {
            use_type_invariant(&*self);
        }
        let start = self.index;
        match self.read_field() {
            Ok(_) => {},
            Err(e) => { return Err(e); },
        }
        let end = self.index;
        self.index = start + 2;
        Ok(end)
    }

    /// Whether another element follows in the frame that ends at `end`. A
    /// cursor beyond the end of the frame is `BadData`.
    pub fn element_follows(&self, end: usize) -> (result: Result<bool, Error>)
        ensures
            result == if self.position() == end {
                Ok::<bool, Error>(false)
            } else if self.position() > end {
                Err(Error::BadData)
            } else {
                Ok(true)
            },
    {
        if self.index == end {
            Ok(false)
        } else if self.index > end {
            Err(Error::BadData)
        } else {
            Ok(true)
        }
    }

    /// Checks the element just read from the frame that ends at `end`, where
    /// the cursor stood at `before` when the reading began: an element that
    /// took no bytes, or that ran past the end of the frame, is `BadData`.
    pub fn element_read(&self, before: usize, end: usize) -> (result: Result<(), Error>)
        ensures
            result == if self.position() <= before || self.position() > end {
                Err::<(), Error>(Error::BadData)
            } else {
                Ok(())
            },
    {
        if self.index <= before || self.index > end {
            Err(Error::BadData)
        } else {
            Ok(())
        }
    }

    /// The key of the next field of a struct, or `None` where the cursor
    /// stands on the terminator, which it then does not pass.
    pub fn next_key(&mut self) -> (result: Result<Option<&'de str>, Error>)
        ensures
            final(self).bytes() == old(self).bytes(),
            match length_at(old(self).bytes(), old(self).position()) {
                Err(e) => result matches Err(err) && err == e
                    && final(self).position() == old(self).position(),
                Ok(length) => if length == 0 {
                    result matches Ok(None) && final(self).position() == old(self).position()
                } else {
                    match text_field_at(old(self).bytes(), old(self).position()) {
                        Ok((chars, next)) => result matches Ok(Some(key)) && key@ == chars
                            && final(self).position() == next,
                        Err(e) => result matches Err(err) && err == e && final(self).position()
                            == old(self).position(),
                    }
                },
            },
    {
        match self.done() {
            Err(e) => { return Err(e); },
            Ok(true) => { return Ok(None); },
            Ok(false) => {},
        }
        match self.read_next_value_as_str() {
            Ok(key) => Ok(Some(key)),
            Err(e) => Err(e),
        }
    }

    /// Reads a boolean: the word `True` or the word `False`.
    pub fn deserialize_bool(&mut self) -> (result: Result<bool, Error>)
        ensures
            final(self).bytes() == old(self).bytes(),
            match scalar_at(old(self).bytes(), old(self).position(), SpecShape::Bool) {
                Ok((v, next)) => result matches Ok(x) && v == SpecValue::Bool(x)
                    && final(self).position() == next,
                Err(e) => result matches Err(err) && err == e
                    && final(self).position() == old(self).position(),
            },
    {
        proof {
            use_type_invariant(&*self);
        }
        let start = self.index;
        let payload = match self.read_field() {
            Ok(payload) => payload,
            Err(e) => { return Err(e); },
        };
        if payload.len() == 4 && payload[0] == 84 && payload[1] == 114 && payload[2] == 117
            && payload[3] == 101 {
            assert(payload@ =~= bool_text(true));
            Ok(true)
        } else if payload.len() == 5 && payload[0] == 70 && payload[1] == 97 && payload[2] == 108
            && payload[3] == 115 && payload[4] == 101 {
            assert(payload@ =~= bool_text(false));
            Ok(false)
        } else {
            self.index = start;
            Err(Error::BadData)
        }
    }

    /// Reads `i8` from its decimal text.
    pub fn deserialize_i8(&mut self) -> (result: Result<i8, Error>)
        ensures
            final(self).bytes() == old(self).bytes(),
            match scalar_at(old(self).bytes(), old(self).position(), SpecShape::I8) {
                Ok((v, next)) => result matches Ok(x) && v == SpecValue::I8(x)
                    && final(self).position() == next,
                Err(e) => result matches Err(err) && err == e
                    && final(self).position() == old(self).position(),
            },
    {
        proof {
            use_type_invariant(&*self);
        }
        let start = self.index;
        let payload = match self.read_field() {
            Ok(payload) => payload,
            Err(e) => { return Err(e); },
        };
        match parse_signed(payload, i8::MIN as i64, i8::MAX as i64) {
            Some(v) => Ok(v as i8),
            None => {
                self.index = start;
                Err(Error::BadData)
            },
        }
    }

    /// Reads `i16` from its decimal text.
    pub fn deserialize_i16(&mut self) -> (result: Result<i16, Error>)
        ensures
            final(self).bytes() == old(self).bytes(),
            match scalar_at(old(self).bytes(), old(self).position(), SpecShape::I16) {
                Ok((v, next)) => result matches Ok(x) && v == SpecValue::I16(x)
                    && final(self).position() == next,
                Err(e) => result matches Err(err) && err == e
                    && final(self).position() == old(self).position(),
            },
    {
        proof {
            use_type_invariant(&*self);
        }
        let start = self.index;
        let payload = match self.read_field() {
            Ok(payload) => payload,
            Err(e) => { return Err(e); },
        };
        match parse_signed(payload, i16::MIN as i64, i16::MAX as i64) {
            Some(v) => Ok(v as i16),
            None => {
                self.index = start;
                Err(Error::BadData)
            },
        }
    }

    /// Reads `i32` from its decimal text.
    pub fn deserialize_i32(&mut self) -> (result: Result<i32, Error>)
        ensures
            final(self).bytes() == old(self).bytes(),
            match scalar_at(old(self).bytes(), old(self).position(), SpecShape::I32) {
                Ok((v, next)) => result matches Ok(x) && v == SpecValue::I32(x)
                    && final(self).position() == next,
                Err(e) => result matches Err(err) && err == e
                    && final(self).position() == old(self).position(),
            },
    {
        proof {
            use_type_invariant(&*self);
        }
        let start = self.index;
        let payload = match self.read_field() {
            Ok(payload) => payload,
            Err(e) => { return Err(e); },
        };
        match parse_signed(payload, i32::MIN as i64, i32::MAX as i64) {
            Some(v) => Ok(v as i32),
            None => {
                self.index = start;
                Err(Error::BadData)
            },
        }
    }

    /// Reads `i64` from its decimal text.
    pub fn deserialize_i64(&mut self) -> (result: Result<i64, Error>)
        ensures
            final(self).bytes() == old(self).bytes(),
            match scalar_at(old(self).bytes(), old(self).position(), SpecShape::I64) {
                Ok((v, next)) => result matches Ok(x) && v == SpecValue::I64(x)
                    && final(self).position() == next,
                Err(e) => result matches Err(err) && err == e
                    && final(self).position() == old(self).position(),
            },
    {
        proof {
            use_type_invariant(&*self);
        }
        let start = self.index;
        let payload = match self.read_field() {
            Ok(payload) => payload,
            Err(e) => { return Err(e); },
        };
        match parse_signed(payload, i64::MIN, i64::MAX) {
            Some(v) => Ok(v as i64),
            None => {
                self.index = start;
                Err(Error::BadData)
            },
        }
    }

    /// Reads `u8` from its decimal text.
    pub fn deserialize_u8(&mut self) -> (result: Result<u8, Error>)
        ensures
            final(self).bytes() == old(self).bytes(),
            match scalar_at(old(self).bytes(), old(self).position(), SpecShape::U8) {
                Ok((v, next)) => result matches Ok(x) && v == SpecValue::U8(x)
                    && final(self).position() == next,
                Err(e) => result matches Err(err) && err == e
                    && final(self).position() == old(self).position(),
            },
    {
        proof {
            use_type_invariant(&*self);
        }
        let start = self.index;
        let payload = match self.read_field() {
            Ok(payload) => payload,
            Err(e) => { return Err(e); },
        };
        match parse_unsigned(payload, u8::MAX as u64) {
            Some(v) => Ok(v as u8),
            None => {
                self.index = start;
                Err(Error::BadData)
            },
        }
    }

    /// Reads `u16` from its decimal text.
    pub fn deserialize_u16(&mut self) -> (result: Result<u16, Error>)
        ensures
            final(self).bytes() == old(self).bytes(),
            match scalar_at(old(self).bytes(), old(self).position(), SpecShape::U16) {
                Ok((v, next)) => result matches Ok(x) && v == SpecValue::U16(x)
                    && final(self).position() == next,
                Err(e) => result matches Err(err) && err == e
                    && final(self).position() == old(self).position(),
            },
    {
        proof {
            use_type_invariant(&*self);
        }
        let start = self.index;
        let payload = match self.read_field() {
            Ok(payload) => payload,
            Err(e) => { return Err(e); },
        };
        match parse_unsigned(payload, u16::MAX as u64) {
            Some(v) => Ok(v as u16),
            None => {
                self.index = start;
                Err(Error::BadData)
            },
        }
    }

    /// Reads `u32` from its decimal text.
    pub fn deserialize_u32(&mut self) -> (result: Result<u32, Error>)
        ensures
            final(self).bytes() == old(self).bytes(),
            match scalar_at(old(self).bytes(), old(self).position(), SpecShape::U32) {
                Ok((v, next)) => result matches Ok(x) && v == SpecValue::U32(x)
                    && final(self).position() == next,
                Err(e) => result matches Err(err) && err == e
                    && final(self).position() == old(self).position(),
            },
    {
        proof {
            use_type_invariant(&*self);
        }
        let start = self.index;
        let payload = match self.read_field() {
            Ok(payload) => payload,
            Err(e) => { return Err(e); },
        };
        match parse_unsigned(payload, u32::MAX as u64) {
            Some(v) => Ok(v as u32),
            None => {
                self.index = start;
                Err(Error::BadData)
            },
        }
    }

    /// Reads `u64` from its decimal text.
    pub fn deserialize_u64(&mut self) -> (result: Result<u64, Error>)
        ensures
            final(self).bytes() == old(self).bytes(),
            match scalar_at(old(self).bytes(), old(self).position(), SpecShape::U64) {
                Ok((v, next)) => result matches Ok(x) && v == SpecValue::U64(x)
                    && final(self).position() == next,
                Err(e) => result matches Err(err) && err == e
                    && final(self).position() == old(self).position(),
            },
    {
        proof {
            use_type_invariant(&*self);
        }
        let start = self.index;
        let payload = match self.read_field() {
            Ok(payload) => payload,
            Err(e) => { return Err(e); },
        };
        match parse_unsigned(payload, u64::MAX) {
            Some(v) => Ok(v as u64),
            None => {
                self.index = start;
                Err(Error::BadData)
            },
        }
    }

    /// Reads a character: a string of exactly one.
    pub fn deserialize_char(&mut self) -> (result: Result<char, Error>)
        ensures
            final(self).bytes() == old(self).bytes(),
            match scalar_at(old(self).bytes(), old(self).position(), SpecShape::Char) {
                Ok((v, next)) => result matches Ok(x) && v == SpecValue::Char(x)
                    && final(self).position() == next,
                Err(e) => result matches Err(err) && err == e
                    && final(self).position() == old(self).position(),
            },
    {
        proof {
            use_type_invariant(&*self);
        }
        let start = self.index;
        let text = match self.read_next_value_as_str() {
            Ok(text) => text,
            Err(e) => { return Err(e); },
        };
        if text.unicode_len() == 1 {
            Ok(text.get_char(0))
        } else {
            self.index = start;
            Err(Error::BadData)
        }
    }

    /// Reads a string, borrowed from the buffer. The empty string is
    /// `BadData`.
    pub fn deserialize_str(&mut self) -> (result: Result<&'de str, Error>)
        ensures
            final(self).bytes() == old(self).bytes(),
            match scalar_at(old(self).bytes(), old(self).position(), SpecShape::Str) {
                Ok((v, next)) => result matches Ok(x) && v == SpecValue::Str(x@)
                    && final(self).position() == next,
                Err(e) => result matches Err(err) && err == e
                    && final(self).position() == old(self).position(),
            },
    {
        proof {
            use_type_invariant(&*self);
        }
        let start = self.index;
        let text = match self.read_next_value_as_str() {
            Ok(text) => text,
            Err(e) => { return Err(e); },
        };
        proof {
            let payload = field_at(old(self).bytes(), old(self).position())->Ok_0.0;
            decode_utf8_encode_utf8(payload);
        }
        if text.len() == 0 {
            self.index = start;
            return Err(Error::BadData);
        }
        Ok(text)
    }

    /// Reads a string, as an owned value. The empty string is `BadData`.
    pub fn deserialize_string(&mut self) -> (result: Result<String, Error>)
        ensures
            final(self).bytes() == old(self).bytes(),
            match scalar_at(old(self).bytes(), old(self).position(), SpecShape::Str) {
                Ok((v, next)) => result matches Ok(x) && v == SpecValue::Str(x@)
                    && final(self).position() == next,
                Err(e) => result matches Err(err) && err == e
                    && final(self).position() == old(self).position(),
            },
    {
        match self.deserialize_str() {
            Ok(text) => Ok(String::from_str(text)),
            Err(e) => Err(e),
        }
    }
    /// Reads a value of the given shape: a scalar from one field, a struct
    /// field by field in the declared order, a sequence from one frame.
    pub fn deserialize_value(&mut self, shape: &Shape) -> (result: Result<Value, Error>)
        ensures
            final(self).bytes() == old(self).bytes(),
            match parse_value(old(self).bytes(), old(self).position(), shape@) {
                Ok((v, next)) => result matches Ok(value) && value@ == v && final(self).position()
                    == next,
                Err(e) => result matches Err(err) && err == e
                    && final(self).position() == old(self).position(),
            },
        decreases shape,
    {
        proof {
            use_type_invariant(&*self);
        }
        let start = self.index;
        match shape {
            Shape::Bool => match self.deserialize_bool() {
                Ok(v) => Ok(Value::Bool(v)),
                Err(e) => Err(e),
            },
            Shape::I8 => match self.deserialize_i8() {
                Ok(v) => Ok(Value::I8(v)),
                Err(e) => Err(e),
            },
            Shape::I16 => match self.deserialize_i16() {
                Ok(v) => Ok(Value::I16(v)),
                Err(e) => Err(e),
            },
            Shape::I32 => match self.deserialize_i32() {
                Ok(v) => Ok(Value::I32(v)),
                Err(e) => Err(e),
            },
            Shape::I64 => match self.deserialize_i64() {
                Ok(v) => Ok(Value::I64(v)),
                Err(e) => Err(e),
            },
            Shape::U8 => match self.deserialize_u8() {
                Ok(v) => Ok(Value::U8(v)),
                Err(e) => Err(e),
            },
            Shape::U16 => match self.deserialize_u16() {
                Ok(v) => Ok(Value::U16(v)),
                Err(e) => Err(e),
            },
            Shape::U32 => match self.deserialize_u32() {
                Ok(v) => Ok(Value::U32(v)),
                Err(e) => Err(e),
            },
            Shape::U64 => match self.deserialize_u64() {
                Ok(v) => Ok(Value::U64(v)),
                Err(e) => Err(e),
            },
            Shape::Char => match self.deserialize_char() {
                Ok(v) => Ok(Value::Char(v)),
                Err(e) => Err(e),
            },
            Shape::Str => match self.deserialize_string() {
                Ok(v) => Ok(Value::Str(v)),
                Err(e) => Err(e),
            },
            Shape::Struct(shapes) => {
                let ghost spec_shapes = shape@->Struct_0;
                let mut fields: Vec<Field> = Vec::new();
                let ghost mut acc: Seq<SpecField> = Seq::empty();
                let mut k: usize = 0;
                while k < shapes.len()
                    invariant
                        k <= shapes.len(),
                        *shape == Shape::Struct(*shapes),
                        shape@ == SpecShape::Struct(spec_shapes),
                        spec_shapes.len() == shapes.len(),
                        forall|j: int|
                            0 <= j < shapes.len() ==> spec_shapes[j] == (#[trigger] shapes[j])@,
                        self.bytes() == old(self).bytes(),
                        start == old(self).position(),
                        start <= self.input@.len(),
                        acc.len() == fields.len(),
                        forall|j: int| 0 <= j < fields.len() ==> (#[trigger] fields[j])@ == acc[j],
                        parse_fields(self.bytes(), start as int, spec_shapes, 0, Seq::empty())
                            == parse_fields(
                            self.bytes(),
                            self.position(),
                            spec_shapes,
                            k as nat,
                            acc,
                        ),
                    decreases shapes.len() - k,
                {
                    let declared = &shapes[k];
                    let key = match self.next_key() {
                        Ok(Some(key)) => String::from_str(key),
                        Ok(None) => {
                            self.index = start;
                            return Err(Error::BadData);
                        },
                        Err(e) => {
                            self.index = start;
                            return Err(e);
                        },
                    };
                    if !(key == declared.key) {
                        self.index = start;
                        return Err(Error::BadData);
                    }
                    let value = match self.deserialize_value(&declared.shape) {
                        Ok(value) => value,
                        Err(e) => {
                            self.index = start;
                            return Err(e);
                        },
                    };
                    proof {
                        acc = acc.push(SpecField { key: key@, value: value@ });
                    }
                    fields.push(Field { key, value });
                    k += 1;
                }
                let value = Value::Struct(fields);
                assert(value@->Struct_0 =~= acc);
                Ok(value)
            },
            Shape::Sequence(element) => {
                let end = match self.begin_frame() {
                    Ok(end) => end,
                    Err(e) => { return Err(e); },
                };
                let mut items: Vec<Value> = Vec::new();
                let ghost mut acc: Seq<SpecValue> = Seq::empty();
                let mut more = match self.element_follows(end) {
                    Ok(more) => more,
                    Err(e) => {
                        self.index = start;
                        return Err(e);
                    },
                };
                while more
                    invariant
                        *shape == Shape::Sequence(*element),
                        shape@ == SpecShape::Sequence(Box::new(element@)),
                        self.bytes() == old(self).bytes(),
                        start == old(self).position(),
                        start <= self.input@.len(),
                        self.index <= end,
                        more == (self.index < end),
                        field_at(self.bytes(), start as int) matches Ok((_, next)) && next == end,
                        acc.len() == items.len(),
                        forall|j: int| 0 <= j < items.len() ==> (#[trigger] items[j])@ == acc[j],
                        parse_items(self.bytes(), start + 2, end as int, element@, Seq::empty())
                            == parse_items(
                            self.bytes(),
                            self.position(),
                            end as int,
                            element@,
                            acc,
                        ),
                    decreases end - self.index,
                {
                    let before = self.index;
                    let item = match self.deserialize_value(&**element) {
                        Ok(item) => item,
                        Err(e) => {
                            self.index = start;
                            return Err(e);
                        },
                    };
                    match self.element_read(before, end) {
                        Ok(()) => {},
                        Err(e) => {
                            self.index = start;
                            return Err(e);
                        },
                    }
                    proof {
                        acc = acc.push(item@);
                    }
                    items.push(item);
                    more = match self.element_follows(end) {
                        Ok(more) => more,
                        Err(e) => {
                            self.index = start;
                            return Err(e);
                        },
                    };
                }
                let value = Value::Sequence(items);
                assert(value@->Sequence_0 =~= acc);
                Ok(value)
            },
        }
    }
}

/// Decodes a whole document as a value of the given shape. The terminator
/// must follow the value, and the buffer must end with the terminator.
pub fn from_bytes(bytes: &[u8], shape: &Shape) -> (result: Result<Value, Error>)
    ensures
        match decode_document(bytes@, shape@) {
            Ok(v) => result matches Ok(value) && value@ == v,
            Err(e) => result matches Err(err) && err == e,
        },
{
    let mut deserializer = Deserializer::from_bytes(bytes);
    let value = match deserializer.deserialize_value(shape) {
        Ok(value) => value,
        Err(e) => { return Err(e); },
    };
    match deserializer.finish() {
        Ok(()) => Ok(value),
        Err(e) => Err(e),
    }
}

} // verus!
