//! Encoding: fields are appended to an output buffer, and a sequence's
//! length prefix is spliced in front of its elements once they are written.

use vstd::prelude::*;
use vstd::utf8::encode_utf8;

use crate::decimal::decimal_text;
use crate::decimal::i64_to_decimal;
use crate::decimal::lemma_decimal_text_len;
use crate::decimal::u64_to_decimal;
use crate::error::Error;
use crate::framing::framed;
use crate::framing::terminator;
use crate::framing::too_long_text;
use crate::framing::usize_to_bytes;
use crate::framing::MAX_FIELD_LEN;
use crate::text::char_to_string;
use crate::value::SpecField;
use crate::value::SpecValue;
use crate::value::Value;

verus! {

/// The payload of a boolean: the word `True` or the word `False`.
pub open spec fn bool_text(v: bool) -> Seq<u8> {
    if v {
        seq![84u8, 114u8, 117u8, 101u8]
    } else {
        seq![70u8, 97u8, 108u8, 115u8, 101u8]
    }
}

/// The payload of a scalar value; a composite has none.
pub open spec fn scalar_text(v: SpecValue) -> Seq<u8> {
    match v {
        SpecValue::Bool(b) => bool_text(b),
        SpecValue::I8(i) => decimal_text(i as int),
        SpecValue::I16(i) => decimal_text(i as int),
        SpecValue::I32(i) => decimal_text(i as int),
        SpecValue::I64(i) => decimal_text(i as int),
        SpecValue::U8(i) => decimal_text(i as int),
        SpecValue::U16(i) => decimal_text(i as int),
        SpecValue::U32(i) => decimal_text(i as int),
        SpecValue::U64(i) => decimal_text(i as int),
        SpecValue::Char(c) => encode_utf8(seq![c]),
        SpecValue::Str(s) => encode_utf8(s),
        SpecValue::Struct(_) => Seq::empty(),
        SpecValue::Sequence(_) => Seq::empty(),
    }
}

/// The bytes of a value on the wire, without the terminator. A scalar is one
/// field. A struct is its keys and values in turn, with nothing around
/// them. A sequence is one frame around its elements.
pub open spec fn value_bytes(v: SpecValue) -> Seq<u8>
    decreases v, 0nat,
{
    match v {
        SpecValue::Struct(fields) => fields_bytes(fields, fields.len()),
        SpecValue::Sequence(items) => framed(items_bytes(items, items.len())),
        _ => framed(scalar_text(v)),
    }
}

/// The bytes of the first `n` fields of a struct.
pub open spec fn fields_bytes(fields: Seq<SpecField>, n: nat) -> Seq<u8>
    decreases fields, n,
{
    if n == 0 || n > fields.len() {
        Seq::empty()
    } else {
        fields_bytes(fields, (n - 1) as nat) + framed(encode_utf8(fields[n - 1].key))
            + value_bytes(fields[n - 1].value)
    }
}

/// The bytes of the first `n` elements of a sequence.
pub open spec fn items_bytes(items: Seq<SpecValue>, n: nat) -> Seq<u8>
    decreases items, n,
{
    if n == 0 || n > items.len() {
        Seq::empty()
    } else {
        items_bytes(items, (n - 1) as nat) + value_bytes(items[n - 1])
    }
}

/// A whole document: the value, then the terminator.
pub open spec fn document_bytes(v: SpecValue) -> Seq<u8> {
    value_bytes(v) + terminator()
}

/// Whether a payload can be framed as text: it is not empty, since a field
/// of length zero is the terminator, and its length fits the prefix.
pub open spec fn fits_field(payload: Seq<u8>) -> bool {
    1 <= payload.len() <= MAX_FIELD_LEN
}

/// Whether a value has an encoding: every string and key fits a field, and
/// the elements of every sequence fit one frame.
pub open spec fn encodable(v: SpecValue) -> bool
    decreases v,
{
    match v {
        SpecValue::Struct(fields) => forall|i: int|
            0 <= i < fields.len() ==> fits_field(encode_utf8((#[trigger] fields[i]).key))
                && encodable(fields[i].value),
        SpecValue::Sequence(items) => items_bytes(items, items.len()).len() <= MAX_FIELD_LEN
            && forall|i: int| 0 <= i < items.len() ==> encodable(#[trigger] items[i]),
        _ => fits_field(scalar_text(v)),
    }
}

/// The text of the failure raised for an empty string.
pub open spec fn empty_text() -> Seq<char> {
    "Empty string has no encoding"@
}

/// The text of the failure raised for closing a sequence where none is
/// open.
pub open spec fn not_open_text() -> Seq<char> {
    "No sequence is open"@
}

/// Why a payload cannot be framed as text, where it cannot.
pub open spec fn text_refusal(payload: Seq<u8>) -> Option<Seq<char>> {
    if payload.len() == 0 {
        Some(empty_text())
    } else if payload.len() > MAX_FIELD_LEN {
        Some(too_long_text())
    } else {
        None
    }
}

/// The text of the refusal that stops the encoder on a value: the first one
/// met in the order of writing. `None` for a value that has an encoding.
pub open spec fn refusal(v: SpecValue) -> Option<Seq<char>>
    decreases v, 0nat,
{
    match v {
        SpecValue::Struct(fields) => fields_refusal(fields, fields.len()),
        SpecValue::Sequence(items) => match items_refusal(items, items.len()) {
            Some(text) => Some(text),
            None => if items_bytes(items, items.len()).len() > MAX_FIELD_LEN {
                Some(too_long_text())
            } else {
                None
            },
        },
        _ => text_refusal(scalar_text(v)),
    }
}

/// The first refusal among the first `n` fields of a struct.
pub open spec fn fields_refusal(fields: Seq<SpecField>, n: nat) -> Option<Seq<char>>
    decreases fields, n,
{
    if n == 0 || n > fields.len() {
        None
    } else {
        match fields_refusal(fields, (n - 1) as nat) {
            Some(text) => Some(text),
            None => match text_refusal(encode_utf8(fields[n - 1].key)) {
                Some(text) => Some(text),
                None => refusal(fields[n - 1].value),
            },
        }
    }
}

/// The first refusal among the first `n` elements of a sequence.
pub open spec fn items_refusal(items: Seq<SpecValue>, n: nat) -> Option<Seq<char>>
    decreases items, n,
{
    if n == 0 || n > items.len() {
        None
    } else {
        match items_refusal(items, (n - 1) as nat) {
            Some(text) => Some(text),
            None => refusal(items[n - 1]),
        }
    }
}

/// Why a field cannot be written: what its key is refused for or, where the
/// key is in order, what its value is refused for.
pub open spec fn field_refusal(key: Seq<char>, value: SpecValue) -> Option<Seq<char>> {
    match text_refusal(encode_utf8(key)) {
        Some(text) => Some(text),
        None => refusal(value),
    }
}

/// Whether `result` is the refusal with the given text.
pub open spec fn refused_with(result: Result<(), Error>, text: Option<Seq<char>>) -> bool {
    result matches Err(Error::Message(message)) && text == Some(message@)
}

/// A value is refused exactly where it has no encoding, and then for an
/// empty string or for a length that does not fit the prefix.
pub proof fn lemma_refusal(v: SpecValue)
    ensures
        encodable(v) <==> refusal(v) is None,
        refusal(v) matches Some(text) ==> text == too_long_text() || text == empty_text(),
    decreases v, 0nat,
{
    match v {
        SpecValue::Struct(fields) => {
            lemma_fields_refusal(fields, fields.len());
        },
        SpecValue::Sequence(items) => {
            lemma_items_refusal(items, items.len());
        },
        _ => {},
    }
}

/// The first `n` fields of a struct are refused exactly where one of them
/// has a key that does not fit a field or a value without an encoding.
pub proof fn lemma_fields_refusal(fields: Seq<SpecField>, n: nat)
    requires
        n <= fields.len(),
    ensures
        fields_refusal(fields, n) is None <==> forall|i: int|
            0 <= i < n ==> fits_field(encode_utf8((#[trigger] fields[i]).key)) && encodable(
                fields[i].value,
            ),
        fields_refusal(fields, n) matches Some(text) ==> text == too_long_text() || text
            == empty_text(),
    decreases fields, n,
{
    if n > 0 {
        lemma_fields_refusal(fields, (n - 1) as nat);
        lemma_refusal(fields[n - 1].value);
    }
}

/// The first `n` elements of a sequence are refused exactly where one of
/// them has no encoding.
pub proof fn lemma_items_refusal(items: Seq<SpecValue>, n: nat)
    requires
        n <= items.len(),
    ensures
        items_refusal(items, n) is None <==> forall|i: int|
            0 <= i < n ==> encodable(#[trigger] items[i]),
        items_refusal(items, n) matches Some(text) ==> text == too_long_text() || text
            == empty_text(),
    decreases items, n,
{
    if n > 0 {
        lemma_items_refusal(items, (n - 1) as nat);
        lemma_refusal(items[n - 1]);
    }
}

/// A refusal among the first `k` fields is the refusal of any longer run of
/// fields.
pub proof fn lemma_fields_refusal_stays(fields: Seq<SpecField>, k: nat, n: nat)
    requires
        k <= n <= fields.len(),
        fields_refusal(fields, k) is Some,
    ensures
        fields_refusal(fields, n) == fields_refusal(fields, k),
    decreases n - k,
{
    if k < n {
        lemma_fields_refusal_stays(fields, k, (n - 1) as nat);
    }
}

/// A refusal among the first `k` elements is the refusal of any longer run
/// of elements.
pub proof fn lemma_items_refusal_stays(items: Seq<SpecValue>, k: nat, n: nat)
    requires
        k <= n <= items.len(),
        items_refusal(items, k) is Some,
    ensures
        items_refusal(items, n) == items_refusal(items, k),
    decreases n - k,
{
    if k < n {
        lemma_items_refusal_stays(items, k, (n - 1) as nat);
    }
}

/// The payload of every scalar but a string fits a field.
pub proof fn lemma_scalar_fits(v: SpecValue)
    requires
        !(v is Str),
        !(v is Struct),
        !(v is Sequence),
    ensures
        fits_field(scalar_text(v)),
{
    match v {
        SpecValue::Bool(_) => {},
        SpecValue::I8(i) => lemma_decimal_text_len(i as int),
        SpecValue::I16(i) => lemma_decimal_text_len(i as int),
        SpecValue::I32(i) => lemma_decimal_text_len(i as int),
        SpecValue::I64(i) => lemma_decimal_text_len(i as int),
        SpecValue::U8(i) => lemma_decimal_text_len(i as int),
        SpecValue::U16(i) => lemma_decimal_text_len(i as int),
        SpecValue::U32(i) => lemma_decimal_text_len(i as int),
        SpecValue::U64(i) => lemma_decimal_text_len(i as int),
        SpecValue::Char(_) => reveal_with_fuel(encode_utf8, 2),
        _ => {},
    }
}

/// An output buffer under construction, with the start of every sequence
/// that is still open. A call that fails leaves both as they were.
pub struct Serializer {
    byte_indexes: Vec<usize>,
    output: Vec<u8>,
}

impl Serializer {
    /// The bytes written so far.
    pub closed spec fn written(&self) -> Seq<u8> {
        self.output@
    }

    /// Where each open sequence starts in the output, outermost first.
    pub closed spec fn markers(&self) -> Seq<usize> {
        self.byte_indexes@
    }

    /// Every open sequence starts inside the output, an inner one no
    /// earlier than an outer one. This holds of a new serializer, and every
    /// method keeps it.
    pub open spec fn wf(&self) -> bool {
        &&& forall|i: int|
            0 <= i < self.markers().len() ==> #[trigger] self.markers()[i] <= self.written().len()
        &&& forall|i: int, j: int|
            0 <= i <= j < self.markers().len() ==> #[trigger] self.markers()[i]
                <= #[trigger] self.markers()[j]
    }

    /// An empty buffer with no open sequence.
    pub fn new() -> (ser: Self)
        ensures
            ser.wf(),
            ser.written() == Seq::<u8>::empty(),
            ser.markers() == Seq::<usize>::empty(),
    {
        Serializer { byte_indexes: Vec::new(), output: Vec::new() }
    }

    /// Closes the document: appends the terminator.
    pub fn end(&mut self)
        requires
            old(self).wf(),
        ensures
            final(self).wf(),
            final(self).written() == old(self).written() + terminator(),
            final(self).markers() == old(self).markers(),
    {
        self.output.push(0);
        self.output.push(0);
        assert(self.markers() == old(self).markers());
    }

    /// Hands out the bytes written.
    pub fn into_output(self) -> (bytes: Vec<u8>)
        ensures
            bytes@ == self.written(),
    {
        self.output
    }

    /// Appends one field: the length prefix of `payload`, then `payload`.
    fn write_field(&mut self, payload: &[u8]) -> (result: Result<(), Error>)
        requires
            old(self).wf(),
        ensures
            final(self).wf(),
            final(self).markers() == old(self).markers(),
            payload@.len() <= MAX_FIELD_LEN ==> result is Ok
                && final(self).written() == old(self).written() + framed(payload@),
            payload@.len() > MAX_FIELD_LEN ==> (result matches Err(Error::Message(message))
                && message@ == too_long_text()) && final(self).written() == old(self).written(),
    {
        let prefix = match usize_to_bytes(payload.len()) {
            Ok(prefix) => prefix,
            Err(e) => { return Err(e); },
        };
        self.output.push(prefix[0]);
        self.output.push(prefix[1]);
        self.output.extend_from_slice(payload);
        assert(self.markers() == old(self).markers());
        Ok(())
    }

    /// Appends a string as one field. The empty string is refused, and so is
    /// one longer than a field can hold.
    pub fn serialize_str(&mut self, v: &str) -> (result: Result<(), Error>)
        requires
            old(self).wf(),
        ensures
            final(self).wf(),
            final(self).markers() == old(self).markers(),
            fits_field(encode_utf8(v@)) ==> result is Ok
                && final(self).written() == old(self).written() + framed(encode_utf8(v@)),
            !fits_field(encode_utf8(v@)) ==> refused_with(result, text_refusal(encode_utf8(v@)))
                && final(self).written() == old(self).written(),
    {
        let bytes = v.as_bytes();
        if bytes.len() == 0 {
            return Err(Error::Message(String::from_str("Empty string has no encoding")));
        }
        self.write_field(bytes)
    }

    /// Appends a boolean as the word `True` or `False`.
    pub fn serialize_bool(&mut self, v: bool) -> (result: Result<(), Error>)
        requires
            old(self).wf(),
        ensures
            final(self).wf(),
            final(self).markers() == old(self).markers(),
            result is Ok,
            final(self).written() == old(self).written() + framed(bool_text(v)),
    {
        if v {
            let word: [u8; 4] = [84, 114, 117, 101];
            self.write_field(&word)
        } else {
            let word: [u8; 5] = [70, 97, 108, 115, 101];
            self.write_field(&word)
        }
    }

    /// Appends a character as the one-character string.
    pub fn serialize_char(&mut self, v: char) -> (result: Result<(), Error>)
        requires
            old(self).wf(),
        ensures
            final(self).wf(),
            final(self).markers() == old(self).markers(),
            result is Ok,
            final(self).written() == old(self).written() + framed(encode_utf8(seq![v])),
    {
        proof {
            lemma_scalar_fits(SpecValue::Char(v));
        }
        let text = char_to_string(v);
        self.serialize_str(text.as_str())
    }

    /// Appends an unsigned integer as its decimal text.
    pub fn serialize_u64(&mut self, v: u64) -> (result: Result<(), Error>)
        requires
            old(self).wf(),
        ensures
            final(self).wf(),
            final(self).markers() == old(self).markers(),
            result is Ok,
            final(self).written() == old(self).written() + framed(decimal_text(v as int)),
    {
        proof {
            lemma_decimal_text_len(v as int);
        }
        let text = u64_to_decimal(v);
        self.write_field(text.as_slice())
    }

    /// Appends an unsigned integer as its decimal text.
    pub fn serialize_u8(&mut self, v: u8) -> (result: Result<(), Error>)
        requires
            old(self).wf(),
        ensures
            final(self).wf(),
            final(self).markers() == old(self).markers(),
            result is Ok,
            final(self).written() == old(self).written() + framed(decimal_text(v as int)),
    {
        self.serialize_u64(v as u64)
    }

    /// Appends an unsigned integer as its decimal text.
    pub fn serialize_u16(&mut self, v: u16) -> (result: Result<(), Error>)
        requires
            old(self).wf(),
        ensures
            final(self).wf(),
            final(self).markers() == old(self).markers(),
            result is Ok,
            final(self).written() == old(self).written() + framed(decimal_text(v as int)),
    {
        self.serialize_u64(v as u64)
    }

    /// Appends an unsigned integer as its decimal text.
    pub fn serialize_u32(&mut self, v: u32) -> (result: Result<(), Error>)
        requires
            old(self).wf(),
        ensures
            final(self).wf(),
            final(self).markers() == old(self).markers(),
            result is Ok,
            final(self).written() == old(self).written() + framed(decimal_text(v as int)),
    {
        self.serialize_u64(v as u64)
    }

    /// Appends a signed integer as its decimal text, with a `-` in front of
    /// a negative one.
    pub fn serialize_i64(&mut self, v: i64) -> (result: Result<(), Error>)
        requires
            old(self).wf(),
        ensures
            final(self).wf(),
            final(self).markers() == old(self).markers(),
            result is Ok,
            final(self).written() == old(self).written() + framed(decimal_text(v as int)),
    {
        proof {
            lemma_decimal_text_len(v as int);
        }
        let text = i64_to_decimal(v);
        self.write_field(text.as_slice())
    }

    /// Appends a signed integer as its decimal text.
    pub fn serialize_i8(&mut self, v: i8) -> (result: Result<(), Error>)
        requires
            old(self).wf(),
        ensures
            final(self).wf(),
            final(self).markers() == old(self).markers(),
            result is Ok,
            final(self).written() == old(self).written() + framed(decimal_text(v as int)),
    {
        self.serialize_i64(v as i64)
    }

    /// Appends a signed integer as its decimal text.
    pub fn serialize_i16(&mut self, v: i16) -> (result: Result<(), Error>)
        requires
            old(self).wf(),
        ensures
            final(self).wf(),
            final(self).markers() == old(self).markers(),
            result is Ok,
            final(self).written() == old(self).written() + framed(decimal_text(v as int)),
    {
        self.serialize_i64(v as i64)
    }

    /// Appends a signed integer as its decimal text.
    pub fn serialize_i32(&mut self, v: i32) -> (result: Result<(), Error>)
        requires
            old(self).wf(),
        ensures
            final(self).wf(),
            final(self).markers() == old(self).markers(),
            result is Ok,
            final(self).written() == old(self).written() + framed(decimal_text(v as int)),
    {
        self.serialize_i64(v as i64)
    }

    /// Opens a sequence: remembers where its length prefix will go.
    pub fn serialize_seq(&mut self)
        requires
            old(self).wf(),
        ensures
            final(self).wf(),
            final(self).written() == old(self).written(),
            final(self).markers() == old(self).markers().push(old(self).written().len() as usize),
    {
        self.byte_indexes.push(self.output.len());
        assert(self.markers() == old(self).markers().push(old(self).written().len() as usize));
    }

    /// Closes the innermost open sequence: splices the length of what was
    /// written since it was opened in front of that. Where no sequence is
    /// open the call is refused; where the length does not fit the prefix
    /// it is refused too, and the sequence stays open.
    pub fn end_seq(&mut self) -> (result: Result<(), Error>)
        requires
            old(self).wf(),
        ensures
            final(self).wf(),
            old(self).markers().len() == 0 ==> (result matches Err(Error::Message(message))
                && message@ == not_open_text()) && final(self).written() == old(self).written()
                && final(self).markers() == old(self).markers(),
            old(self).markers().len() > 0 ==> ({
                let start = old(self).markers().last() as int;
                let done = old(self).written().subrange(0, start);
                let elements = old(self).written().subrange(
                    start,
                    old(self).written().len() as int,
                );
                &&& start <= old(self).written().len()
                &&& if elements.len() <= MAX_FIELD_LEN {
                    &&& result is Ok
                    &&& final(self).written() == done + framed(elements)
                    &&& final(self).markers() == old(self).markers().drop_last()
                } else {
                    &&& result matches Err(Error::Message(message)) && message@ == too_long_text()
                    &&& final(self).written() == old(self).written()
                    &&& final(self).markers() == old(self).markers()
                }
            }),
    {
        if self.byte_indexes.len() == 0 {
            return Err(Error::Message(String::from_str("No sequence is open")));
        }
        let index = self.byte_indexes[self.byte_indexes.len() - 1];
        let count = self.output.len() - index;
        let bytes = match usize_to_bytes(count) {
            Ok(bytes) => bytes,
            Err(e) => { return Err(e); },
        };
        self.byte_indexes.pop();
        self.output.insert(index, bytes[0]);
        assert(self.output@.len() == self.output.len());
        self.output.insert(index + 1, bytes[1]);
        Ok(())
    }

    /// Gives up the innermost open sequence: forgets its marker and drops
    /// what was written since it was opened.
    fn abandon_seq(&mut self)
        requires
            old(self).wf(),
            old(self).markers().len() > 0,
        ensures
            final(self).wf(),
            final(self).markers() == old(self).markers().drop_last(),
            final(self).written() == old(self).written().subrange(
                0,
                old(self).markers().last() as int,
            ),
    {
        let index = self.byte_indexes[self.byte_indexes.len() - 1];
        self.byte_indexes.pop();
        self.output.truncate(index);
    }

    /// Appends one field of a struct: the key as a string, then the value.
    pub fn serialize_field(&mut self, key: &str, value: &Value) -> (result: Result<(), Error>)
        requires
            old(self).wf(),
        ensures
            final(self).wf(),
            final(self).markers() == old(self).markers(),
            fits_field(encode_utf8(key@)) && encodable(value@) ==> result is Ok
                && final(self).written()
                    == old(self).written() + framed(encode_utf8(key@)) + value_bytes(value@),
            !(fits_field(encode_utf8(key@)) && encodable(value@)) ==> refused_with(
                result,
                field_refusal(key@, value@),
            ) && final(self).written() == old(self).written(),
    {
        let start = self.output.len();
        match self.serialize_str(key) {
            Ok(()) => {},
            Err(e) => { return Err(e); },
        }
        match self.serialize_value(value) {
            Ok(()) => Ok(()),
            Err(e) => {
                self.output.truncate(start);
                Err(e)
            },
        }
    }

    /// Appends one element of the innermost open sequence.
    pub fn serialize_element(&mut self, value: &Value) -> (result: Result<(), Error>)
        requires
            old(self).wf(),
        ensures
            final(self).wf(),
            final(self).markers() == old(self).markers(),
            encodable(value@) ==> result is Ok && final(self).written() == old(self).written()
                + value_bytes(value@),
            !encodable(value@) ==> refused_with(result, refusal(value@)) && final(self).written()
                == old(self).written(),
    {
        self.serialize_value(value)
    }

    /// Appends a value that is present: the value itself, with no sign that
    /// it could have been absent.
    pub fn serialize_some(&mut self, value: &Value) -> (result: Result<(), Error>)
        requires
            old(self).wf(),
        ensures
            final(self).wf(),
            final(self).markers() == old(self).markers(),
            encodable(value@) ==> result is Ok && final(self).written() == old(self).written()
                + value_bytes(value@),
            !encodable(value@) ==> refused_with(result, refusal(value@)) && final(self).written()
                == old(self).written(),
    {
        self.serialize_value(value)
    }

    /// Appends a value: a scalar as one field, a struct field by field, a
    /// sequence inside one frame.
    pub fn serialize_value(&mut self, value: &Value) -> (result: Result<(), Error>)
        requires
            old(self).wf(),
        ensures
            final(self).wf(),
            final(self).markers() == old(self).markers(),
            encodable(value@) ==> result is Ok && final(self).written() == old(self).written()
                + value_bytes(value@),
            !encodable(value@) ==> refused_with(result, refusal(value@)) && final(self).written()
                == old(self).written(),
        decreases value,
    {
        proof {
            if !(value@ is Str) && !(value@ is Struct) && !(value@ is Sequence) {
                lemma_scalar_fits(value@);
            }
        }
        match value {
            Value::Bool(v) => self.serialize_bool(*v),
            Value::I8(v) => self.serialize_i8(*v),
            Value::I16(v) => self.serialize_i16(*v),
            Value::I32(v) => self.serialize_i32(*v),
            Value::I64(v) => self.serialize_i64(*v),
            Value::U8(v) => self.serialize_u8(*v),
            Value::U16(v) => self.serialize_u16(*v),
            Value::U32(v) => self.serialize_u32(*v),
            Value::U64(v) => self.serialize_u64(*v),
            Value::Char(v) => self.serialize_char(*v),
            Value::Str(v) => self.serialize_str(v.as_str()),
            Value::Struct(fields) => {
                let ghost spec_fields = value@->Struct_0;
                let start = self.output.len();
                let mut i: usize = 0;
                while i < fields.len()
                    invariant
                        i <= fields.len(),
                        *value == Value::Struct(*fields),
                        value@ == SpecValue::Struct(spec_fields),
                        spec_fields.len() == fields.len(),
                        forall|j: int|
                            0 <= j < fields.len() ==> spec_fields[j] == (#[trigger] fields[j])@,
                        self.wf(),
                        old(self).wf(),
                        self.markers() == old(self).markers(),
                        start == old(self).written().len(),
                        self.written() == old(self).written() + fields_bytes(
                            spec_fields,
                            i as nat,
                        ),
                        forall|j: int|
                            0 <= j < i ==> fits_field(
                                encode_utf8((#[trigger] spec_fields[j]).key),
                            ) && encodable(spec_fields[j].value),
                        fields_refusal(spec_fields, i as nat) is None,
                    decreases fields.len() - i,
                {
                    let field = &fields[i];
                    match self.serialize_str(field.key.as_str()) {
                        Ok(()) => {},
                        Err(e) => {
                            self.output.truncate(start);
                            proof {
                                lemma_fields_refusal_stays(
                                    spec_fields,
                                    (i + 1) as nat,
                                    spec_fields.len(),
                                );
                            }
                            return Err(e);
                        },
                    }
                    match self.serialize_value(&field.value) {
                        Ok(()) => {},
                        Err(e) => {
                            self.output.truncate(start);
                            proof {
                                lemma_fields_refusal_stays(
                                    spec_fields,
                                    (i + 1) as nat,
                                    spec_fields.len(),
                                );
                            }
                            return Err(e);
                        },
                    }
                    proof {
                        lemma_refusal(field.value@);
                    }
                    i += 1;
                }
                Ok(())
            },
            Value::Sequence(items) => {
                let ghost spec_items = value@->Sequence_0;
                let start = self.output.len();
                self.serialize_seq();
                let mut i: usize = 0;
                while i < items.len()
                    invariant
                        i <= items.len(),
                        *value == Value::Sequence(*items),
                        value@ == SpecValue::Sequence(spec_items),
                        spec_items.len() == items.len(),
                        forall|j: int|
                            0 <= j < items.len() ==> spec_items[j] == (#[trigger] items[j])@,
                        self.wf(),
                        old(self).wf(),
                        start == old(self).written().len(),
                        self.markers() == old(self).markers().push(start),
                        self.written() == old(self).written() + items_bytes(spec_items, i as nat),
                        forall|j: int| 0 <= j < i ==> encodable(#[trigger] spec_items[j]),
                        items_refusal(spec_items, i as nat) is None,
                    decreases items.len() - i,
                {
                    match self.serialize_value(&items[i]) {
                        Ok(()) => {},
                        Err(e) => {
                            self.abandon_seq();
                            proof {
                                lemma_items_refusal_stays(
                                    spec_items,
                                    (i + 1) as nat,
                                    spec_items.len(),
                                );
                            }
                            return Err(e);
                        },
                    }
                    proof {
                        lemma_refusal(items[i as int]@);
                    }
                    i += 1;
                }
                match self.end_seq() {
                    Ok(()) => Ok(()),
                    Err(e) => {
                        self.abandon_seq();
                        Err(e)
                    },
                }
            },
        }
    }
}

/// Encodes `value` as a whole document: its bytes, then the terminator.
pub fn to_amp(value: &Value) -> (result: Result<Vec<u8>, Error>)
    ensures
        encodable(value@) ==> (result matches Ok(bytes) && bytes@ == document_bytes(value@)),
        result matches Ok(bytes) ==> bytes@.len() >= 2 && bytes@[bytes@.len() - 2] == 0
            && bytes@[bytes@.len() - 1] == 0,
        !encodable(value@) ==> (result matches Err(Error::Message(message)) && refusal(value@)
            == Some(message@)),
{
    let mut serializer = Serializer::new();
    match serializer.serialize_value(value) {
        Ok(()) => {},
        Err(e) => { return Err(e); },
    }
    serializer.end();
    Ok(serializer.into_output())
}

} // verus!
