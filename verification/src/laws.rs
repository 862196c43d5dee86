//! What holds of encoding and decoding together.

use vstd::prelude::*;
use vstd::utf8::encode_utf8;

use crate::de::decode_document;
use crate::de::field_at;
use crate::de::length_at;
use crate::de::parse_fields;
use crate::de::parse_items;
use crate::de::parse_value;
use crate::de::scalar_at;
use crate::de::scalar_of;
use crate::decimal::lemma_decimal_round_trip;
use crate::error::Error;
use crate::framing::framed;
use crate::framing::length_prefix;
use crate::framing::prefix_value;
use crate::framing::terminator;
use crate::framing::MAX_FIELD_LEN;
use crate::ser::bool_text;
use crate::ser::document_bytes;
use crate::ser::encodable;
use crate::ser::fields_bytes;
use crate::ser::fits_field;
use crate::ser::items_bytes;
use crate::ser::scalar_text;
use crate::ser::value_bytes;
use crate::text::lemma_text_round_trip;
use crate::value::conforms;
use crate::value::SpecField;
use crate::value::SpecFieldShape;
use crate::value::SpecShape;
use crate::value::SpecValue;

verus! {

/// Whether `bytes` stand in `input` from position `at` on.
pub open spec fn holds_at(input: Seq<u8>, at: int, bytes: Seq<u8>) -> bool {
    &&& 0 <= at
    &&& at + bytes.len() <= input.len()
    &&& input.subrange(at, at + bytes.len()) == bytes
}

/// Whether a value is a scalar: neither a struct nor a sequence.
pub open spec fn is_scalar_value(v: SpecValue) -> bool {
    !(v is Struct) && !(v is Sequence)
}

/// Whether every element of every sequence inside `v` takes at least one
/// byte on the wire. Only a struct without fields takes none.
pub open spec fn elements_have_width(v: SpecValue) -> bool
    decreases v,
{
    match v {
        SpecValue::Struct(fields) => forall|i: int|
            0 <= i < fields.len() ==> elements_have_width((#[trigger] fields[i]).value),
        SpecValue::Sequence(items) => forall|i: int|
            0 <= i < items.len() ==> value_bytes(#[trigger] items[i]).len() > 0
                && elements_have_width(items[i]),
        _ => true,
    }
}

/// Where part of the input is `a` followed by `b`, `a` stands at the start
/// of that part and `b` right after it.
pub proof fn lemma_holds_split(input: Seq<u8>, at: int, a: Seq<u8>, b: Seq<u8>)
    requires
        holds_at(input, at, a + b),
    ensures
        holds_at(input, at, a),
        holds_at(input, at + a.len(), b),
{
    let whole = a + b;
    assert(input.subrange(at, at + a.len()) =~= whole.subrange(0, a.len() as int));
    assert(whole.subrange(0, a.len() as int) =~= a);
    assert(input.subrange(at + a.len(), at + a.len() + b.len()) =~= whole.subrange(
        a.len() as int,
        whole.len() as int,
    ));
    assert(whole.subrange(a.len() as int, whole.len() as int) =~= b);
}

/// Where the start of `whole` stands in the input, so does the start of that
/// start.
pub proof fn lemma_holds_prefix(input: Seq<u8>, at: int, whole: Seq<u8>, part: Seq<u8>)
    requires
        holds_at(input, at, whole),
        part.len() <= whole.len(),
        whole.subrange(0, part.len() as int) == part,
    ensures
        holds_at(input, at, part),
{
    assert(input.subrange(at, at + part.len()) =~= whole.subrange(0, part.len() as int));
}

/// A framed payload is read back as that payload.
pub proof fn lemma_field_read_back(input: Seq<u8>, at: int, payload: Seq<u8>)
    requires
        payload.len() <= MAX_FIELD_LEN,
        holds_at(input, at, framed(payload)),
    ensures
        field_at(input, at) == Ok::<(Seq<u8>, int), Error>((payload, at + 2 + payload.len())),
{
    let n = payload.len() as int;
    let frame = framed(payload);
    assert(frame[0] == length_prefix(n)[0]);
    assert(frame[1] == length_prefix(n)[1]);
    assert(input.subrange(at + 2, at + 2 + n) =~= frame.subrange(2, n + 2));
    assert(frame.subrange(2, n + 2) =~= payload);
}

/// The payload written for a scalar spells that scalar.
pub proof fn lemma_scalar_read_back(v: SpecValue, shape: SpecShape)
    requires
        is_scalar_value(v),
        conforms(v, shape),
        fits_field(scalar_text(v)),
    ensures
        scalar_of(scalar_text(v), shape) == Some(v),
{
    match v {
        SpecValue::I8(i) => lemma_decimal_round_trip(i as int, true),
        SpecValue::I16(i) => lemma_decimal_round_trip(i as int, true),
        SpecValue::I32(i) => lemma_decimal_round_trip(i as int, true),
        SpecValue::I64(i) => lemma_decimal_round_trip(i as int, true),
        SpecValue::U8(i) => lemma_decimal_round_trip(i as int, false),
        SpecValue::U16(i) => lemma_decimal_round_trip(i as int, false),
        SpecValue::U32(i) => lemma_decimal_round_trip(i as int, false),
        SpecValue::U64(i) => lemma_decimal_round_trip(i as int, false),
        SpecValue::Char(c) => lemma_text_round_trip(seq![c]),
        SpecValue::Str(s) => lemma_text_round_trip(s),
        _ => {},
    }
}

/// The bytes of the first `k` fields are the start of the bytes of the
/// first `n`.
pub proof fn lemma_fields_bytes_prefix(fields: Seq<SpecField>, k: nat, n: nat)
    requires
        k <= n <= fields.len(),
    ensures
        fields_bytes(fields, k).len() <= fields_bytes(fields, n).len(),
        fields_bytes(fields, n).subrange(0, fields_bytes(fields, k).len() as int) == fields_bytes(
            fields,
            k,
        ),
    decreases n - k,
{
    if k < n {
        lemma_fields_bytes_prefix(fields, k, (n - 1) as nat);
    }
}

/// The bytes of the first `k` elements are the start of the bytes of the
/// first `n`.
pub proof fn lemma_items_bytes_prefix(items: Seq<SpecValue>, k: nat, n: nat)
    requires
        k <= n <= items.len(),
    ensures
        items_bytes(items, k).len() <= items_bytes(items, n).len(),
        items_bytes(items, n).subrange(0, items_bytes(items, k).len() as int) == items_bytes(
            items,
            k,
        ),
    decreases n - k,
{
    if k < n {
        lemma_items_bytes_prefix(items, k, (n - 1) as nat);
    }
}

/// A value that stands encoded in the input is read back from there, and
/// the reading ends where its bytes end.
pub proof fn lemma_value_read_back(v: SpecValue, shape: SpecShape, input: Seq<u8>, at: int)
    requires
        conforms(v, shape),
        encodable(v),
        elements_have_width(v),
        holds_at(input, at, value_bytes(v)),
    ensures
        parse_value(input, at, shape) == Ok::<(SpecValue, int), Error>(
            (v, at + value_bytes(v).len()),
        ),
    decreases v, 0nat,
{
    match v {
        SpecValue::Struct(fields) => {
            let shapes = shape->Struct_0;
            lemma_fields_read_back(fields, shapes, 0, input, at, Seq::empty());
            assert(Seq::<SpecField>::empty() + fields.subrange(0, fields.len() as int) =~= fields);
        },
        SpecValue::Sequence(items) => {
            let element = *shape->Sequence_0;
            let elements = items_bytes(items, items.len());
            lemma_field_read_back(input, at, elements);
            lemma_holds_split(input, at, length_prefix(elements.len() as int), elements);
            lemma_items_read_back(items, element, 0, input, at + 2, Seq::empty());
            assert(Seq::<SpecValue>::empty() + items.subrange(0, items.len() as int) =~= items);
        },
        _ => {
            lemma_field_read_back(input, at, scalar_text(v));
            lemma_scalar_read_back(v, shape);
        },
    }
}

/// The fields of a struct from the `k`-th on are read back from where they
/// stand encoded.
pub proof fn lemma_fields_read_back(
    fields: Seq<SpecField>,
    shapes: Seq<SpecFieldShape>,
    k: nat,
    input: Seq<u8>,
    base: int,
    acc: Seq<SpecField>,
)
    requires
        k <= fields.len(),
        conforms(SpecValue::Struct(fields), SpecShape::Struct(shapes)),
        encodable(SpecValue::Struct(fields)),
        elements_have_width(SpecValue::Struct(fields)),
        holds_at(input, base, fields_bytes(fields, fields.len())),
    ensures
        parse_fields(input, base + fields_bytes(fields, k).len(), shapes, k, acc) == Ok::<
            (Seq<SpecField>, int),
            Error,
        >(
            (
                acc + fields.subrange(k as int, fields.len() as int),
                base + fields_bytes(fields, fields.len()).len(),
            ),
        ),
    decreases fields, fields.len() - k,
{
    let at = base + fields_bytes(fields, k).len();
    if k < fields.len() {
        let field = fields[k as int];
        let key_bytes = encode_utf8(field.key);
        let so_far = fields_bytes(fields, k);
        lemma_fields_bytes_prefix(fields, k + 1, fields.len());
        lemma_holds_prefix(
            input,
            base,
            fields_bytes(fields, fields.len()),
            fields_bytes(fields, k + 1),
        );
        lemma_holds_split(input, base, so_far + framed(key_bytes), value_bytes(field.value));
        lemma_holds_split(input, base, so_far, framed(key_bytes));
        lemma_field_read_back(input, at, key_bytes);
        lemma_scalar_read_back(SpecValue::Str(field.key), SpecShape::Str);
        let next = at + 2 + key_bytes.len();
        lemma_value_read_back(field.value, shapes[k as int].shape, input, next);
        let longer = acc.push(SpecField { key: shapes[k as int].key, value: field.value });
        lemma_fields_read_back(fields, shapes, k + 1, input, base, longer);
        assert(longer + fields.subrange(k as int + 1, fields.len() as int) =~= acc
            + fields.subrange(k as int, fields.len() as int));
    }
}

/// The elements of a sequence from the `k`-th on are read back from where
/// they stand encoded, up to the end of the frame.
pub proof fn lemma_items_read_back(
    items: Seq<SpecValue>,
    element: SpecShape,
    k: nat,
    input: Seq<u8>,
    base: int,
    acc: Seq<SpecValue>,
)
    requires
        k <= items.len(),
        conforms(SpecValue::Sequence(items), SpecShape::Sequence(Box::new(element))),
        encodable(SpecValue::Sequence(items)),
        elements_have_width(SpecValue::Sequence(items)),
        holds_at(input, base, items_bytes(items, items.len())),
    ensures
        parse_items(
            input,
            base + items_bytes(items, k).len(),
            base + items_bytes(items, items.len()).len(),
            element,
            acc,
        ) == Ok::<Seq<SpecValue>, Error>(acc + items.subrange(k as int, items.len() as int)),
    decreases items, items.len() - k,
{
    let at = base + items_bytes(items, k).len();
    if k < items.len() {
        let item = items[k as int];
        let so_far = items_bytes(items, k);
        lemma_items_bytes_prefix(items, k + 1, items.len());
        lemma_holds_prefix(
            input,
            base,
            items_bytes(items, items.len()),
            items_bytes(items, k + 1),
        );
        lemma_holds_split(input, base, so_far, value_bytes(item));
        lemma_value_read_back(item, element, input, at);
        let longer = acc.push(item);
        lemma_items_read_back(items, element, k + 1, input, base, longer);
        assert(longer + items.subrange(k as int + 1, items.len() as int) =~= acc
            + items.subrange(k as int, items.len() as int));
    }
}

/// Decoding the document written for a value gives that value back,
/// whatever its nesting: `decode(encode(v)) == v`.
pub proof fn lemma_round_trip(v: SpecValue, shape: SpecShape)
    requires
        conforms(v, shape),
        encodable(v),
        elements_have_width(v),
    ensures
        decode_document(document_bytes(v), shape) == Ok::<SpecValue, Error>(v),
{
    let document = document_bytes(v);
    let n = value_bytes(v).len() as int;
    assert(document.subrange(0, n) =~= value_bytes(v));
    lemma_value_read_back(v, shape, document, 0);
}

/// Whether a value is made of scalars and structs alone, to any depth.
pub open spec fn is_plain(v: SpecValue) -> bool
    decreases v,
{
    match v {
        SpecValue::Struct(fields) => forall|i: int|
            0 <= i < fields.len() ==> is_plain((#[trigger] fields[i]).value),
        SpecValue::Sequence(_) => false,
        _ => true,
    }
}

/// The bytes that the first `n` elements take on the wire, added up.
pub open spec fn total_width(items: Seq<SpecValue>, n: nat) -> nat
    decreases n,
{
    if n == 0 || n > items.len() {
        0
    } else {
        total_width(items, (n - 1) as nat) + value_bytes(items[n - 1]).len()
    }
}

/// A value without sequences has no element without width.
pub proof fn lemma_plain_has_width(v: SpecValue)
    requires
        is_plain(v),
    ensures
        elements_have_width(v),
    decreases v,
{
    match v {
        SpecValue::Struct(fields) => {
            assert forall|i: int| 0 <= i < fields.len() implies elements_have_width(
                (#[trigger] fields[i]).value,
            ) by {
                lemma_plain_has_width(fields[i].value);
            }
        },
        _ => {},
    }
}

/// The elements of a sequence take as many bytes together as each takes
/// alone, added up.
pub proof fn lemma_items_bytes_len(items: Seq<SpecValue>, n: nat)
    requires
        n <= items.len(),
    ensures
        items_bytes(items, n).len() == total_width(items, n),
    decreases n,
{
    if n > 0 {
        lemma_items_bytes_len(items, (n - 1) as nat);
    }
}

/// Every scalar that has an encoding comes back from its document:
/// booleans, integers of every width at every value, characters, and
/// strings that fit a field.
pub proof fn lemma_scalar_round_trip(v: SpecValue, shape: SpecShape)
    requires
        is_scalar_value(v),
        conforms(v, shape),
        encodable(v),
    ensures
        decode_document(document_bytes(v), shape) == Ok::<SpecValue, Error>(v),
{
    lemma_round_trip(v, shape);
}

/// Every struct made of scalars and structs comes back from its document,
/// with its fields in their order and its nesting as it was.
pub proof fn lemma_struct_round_trip(v: SpecValue, shape: SpecShape)
    requires
        v is Struct,
        is_plain(v),
        conforms(v, shape),
        encodable(v),
    ensures
        decode_document(document_bytes(v), shape) == Ok::<SpecValue, Error>(v),
{
    lemma_plain_has_width(v);
    lemma_round_trip(v, shape);
}

/// Every sequence of scalars comes back from its document, and the length
/// that its frame declares is the sum of the bytes of its elements.
pub proof fn lemma_sequence_round_trip(items: Seq<SpecValue>, element: SpecShape)
    requires
        forall|i: int| 0 <= i < items.len() ==> is_scalar_value(#[trigger] items[i]),
        conforms(SpecValue::Sequence(items), SpecShape::Sequence(Box::new(element))),
        encodable(SpecValue::Sequence(items)),
    ensures
        decode_document(
            document_bytes(SpecValue::Sequence(items)),
            SpecShape::Sequence(Box::new(element)),
        ) == Ok::<SpecValue, Error>(SpecValue::Sequence(items)),
        length_at(document_bytes(SpecValue::Sequence(items)), 0) == Ok::<u16, Error>(
            total_width(items, items.len()) as u16,
        ),
        total_width(items, items.len()) <= MAX_FIELD_LEN,
        document_bytes(SpecValue::Sequence(items)).len() == 2 + total_width(items, items.len())
            + 2,
{
    assert forall|i: int| 0 <= i < items.len() implies value_bytes(#[trigger] items[i]).len() > 0
        && elements_have_width(items[i]) by {}
    lemma_round_trip(SpecValue::Sequence(items), SpecShape::Sequence(Box::new(element)));
    lemma_items_bytes_len(items, items.len());
}

/// Every document ends with the terminator.
pub proof fn lemma_document_ends_with_terminator(v: SpecValue)
    ensures
        document_bytes(v).len() >= 2,
        document_bytes(v).subrange(document_bytes(v).len() - 2, document_bytes(v).len() as int)
            == terminator(),
        document_bytes(v)[document_bytes(v).len() - 2] == 0,
        document_bytes(v)[document_bytes(v).len() - 1] == 0,
{
}

/// Where a value is read in full and the input does not end with the
/// terminator right after it, because another field follows the value or
/// because bytes follow the terminator, decoding fails with
/// `TrailingCharacters`.
pub proof fn lemma_trailing_characters(input: Seq<u8>, shape: SpecShape)
    requires
        parse_value(input, 0, shape) is Ok,
        ({
            let next = parse_value(input, 0, shape)->Ok_0.1;
            &&& 0 <= next
            &&& next + 2 <= input.len()
            &&& !(input[next] == 0 && input[next + 1] == 0 && next + 2 == input.len())
        }),
    ensures
        decode_document(input, shape) == Err::<SpecValue, Error>(Error::TrailingCharacters),
{
}

/// A document with anything after it is not decoded: whatever the bytes
/// that follow the terminator, the decoder fails with `TrailingCharacters`.
pub proof fn lemma_bytes_after_document(v: SpecValue, shape: SpecShape, tail: Seq<u8>)
    requires
        conforms(v, shape),
        encodable(v),
        elements_have_width(v),
        tail.len() > 0,
    ensures
        decode_document(document_bytes(v) + tail, shape) == Err::<SpecValue, Error>(
            Error::TrailingCharacters,
        ),
{
    let input = document_bytes(v) + tail;
    let n = value_bytes(v).len() as int;
    assert(input.subrange(0, n) =~= value_bytes(v));
    lemma_value_read_back(v, shape, input, 0);
    assert(input[n] == document_bytes(v)[n]);
    assert(input[n + 1] == document_bytes(v)[n + 1]);
}

/// A decoded document ends with the terminator, and the value that was read
/// ends where the terminator starts.
pub proof fn lemma_decoded_document_ends(input: Seq<u8>, shape: SpecShape)
    requires
        decode_document(input, shape) is Ok,
    ensures
        input.len() >= 2,
        input[input.len() - 2] == 0,
        input[input.len() - 1] == 0,
        parse_value(input, 0, shape) matches Ok((_, next)) && next + 2 == input.len(),
{
}

/// Where fewer than two bytes are left for a length prefix, every read of a
/// field fails with `Eof`.
pub proof fn lemma_truncated_prefix(input: Seq<u8>, at: int, shape: SpecShape)
    requires
        0 <= at,
        input.len() < at + 2,
    ensures
        length_at(input, at) == Err::<u16, Error>(Error::Eof),
        field_at(input, at) == Err::<(Seq<u8>, int), Error>(Error::Eof),
        scalar_at(input, at, shape) == Err::<(SpecValue, int), Error>(Error::Eof),
        !(shape is Struct) ==> parse_value(input, at, shape) == Err::<(SpecValue, int), Error>(
            Error::Eof,
        ),
        shape matches SpecShape::Struct(shapes) && shapes.len() > 0 ==> parse_value(
            input,
            at,
            shape,
        ) == Err::<(SpecValue, int), Error>(Error::Eof),
{
    reveal_with_fuel(parse_fields, 2);
}

/// Where a length prefix announces more bytes than are left, every read of
/// the field fails with `Eof`.
pub proof fn lemma_truncated_payload(input: Seq<u8>, at: int, shape: SpecShape)
    requires
        0 <= at,
        at + 2 <= input.len(),
        input.len() < at + 2 + prefix_value(input[at], input[at + 1]),
    ensures
        field_at(input, at) == Err::<(Seq<u8>, int), Error>(Error::Eof),
        scalar_at(input, at, shape) == Err::<(SpecValue, int), Error>(Error::Eof),
        !(shape is Struct) ==> parse_value(input, at, shape) == Err::<(SpecValue, int), Error>(
            Error::Eof,
        ),
        shape matches SpecShape::Struct(shapes) && shapes.len() > 0 ==> parse_value(
            input,
            at,
            shape,
        ) == Err::<(SpecValue, int), Error>(Error::Eof),
{
    reveal_with_fuel(parse_fields, 2);
}

/// Reading never fails with a message: what a decoder answers with is
/// `Eof`, `TrailingCharacters` or `BadData`.
pub proof fn lemma_decode_errors(input: Seq<u8>, shape: SpecShape)
    ensures
        decode_document(input, shape) matches Err(e) ==> e == Error::Eof || e
            == Error::TrailingCharacters || e == Error::BadData,
{
    lemma_parse_errors(input, 0, shape);
}

/// Reading a value fails with `Eof` or `BadData` alone.
pub proof fn lemma_parse_errors(input: Seq<u8>, at: int, shape: SpecShape)
    ensures
        parse_value(input, at, shape) matches Err(e) ==> e == Error::Eof || e == Error::BadData,
    decreases shape, 0nat, 0nat,
{
    match shape {
        SpecShape::Struct(shapes) => {
            lemma_parse_fields_errors(input, at, shapes, 0, Seq::empty());
        },
        SpecShape::Sequence(element) => {
            if field_at(input, at) is Ok {
                let next = field_at(input, at)->Ok_0.1;
                lemma_parse_items_errors(input, at + 2, next, *element, Seq::empty());
            }
        },
        _ => {},
    }
}

/// Reading the fields of a struct fails with `Eof` or `BadData` alone.
pub proof fn lemma_parse_fields_errors(
    input: Seq<u8>,
    at: int,
    shapes: Seq<SpecFieldShape>,
    k: nat,
    acc: Seq<SpecField>,
)
    ensures
        parse_fields(input, at, shapes, k, acc) matches Err(e) ==> e == Error::Eof || e
            == Error::BadData,
    decreases shapes, shapes.len() - k, 0nat,
{
    if k < shapes.len() {
        if let Ok((key, next)) = scalar_at(input, at, SpecShape::Str) {
            if key == SpecValue::Str(shapes[k as int].key) {
                lemma_parse_errors(input, next, shapes[k as int].shape);
                if let Ok((v, after)) = parse_value(input, next, shapes[k as int].shape) {
                    lemma_parse_fields_errors(
                        input,
                        after,
                        shapes,
                        k + 1,
                        acc.push(SpecField { key: shapes[k as int].key, value: v }),
                    );
                }
            }
        }
    }
}

/// Reading the elements of a sequence fails with `Eof` or `BadData` alone.
pub proof fn lemma_parse_items_errors(
    input: Seq<u8>,
    at: int,
    end: int,
    element: SpecShape,
    acc: Seq<SpecValue>,
)
    ensures
        parse_items(input, at, end, element, acc) matches Err(e) ==> e == Error::Eof || e
            == Error::BadData,
    decreases element, 1nat, end - at,
{
    if at < end {
        lemma_parse_errors(input, at, element);
        if let Ok((v, next)) = parse_value(input, at, element) {
            if !(next <= at || next > end) {
                lemma_parse_items_errors(input, next, end, element, acc.push(v));
            }
        }
    }
}

/// What stands in the input before a cut still stands there after it.
pub proof fn lemma_holds_before_cut(input: Seq<u8>, at: int, bytes: Seq<u8>, k: int)
    requires
        holds_at(input, at, bytes),
        at + bytes.len() <= k <= input.len(),
    ensures
        holds_at(input.take(k), at, bytes),
{
    assert(input.take(k).subrange(at, at + bytes.len()) =~= input.subrange(
        at,
        at + bytes.len(),
    ));
}

/// A field whose bytes are cut short fails with `Eof`, whatever is asked of
/// it.
pub proof fn lemma_cut_field(input: Seq<u8>, at: int, payload: Seq<u8>, k: int)
    requires
        payload.len() <= MAX_FIELD_LEN,
        holds_at(input, at, framed(payload)),
        at <= k <= input.len(),
        k < at + 2 + payload.len(),
    ensures
        field_at(input.take(k), at) == Err::<(Seq<u8>, int), Error>(Error::Eof),
{
    if at + 2 <= k {
        let frame = input.subrange(at, at + framed(payload).len());
        assert(input[at] == frame[0]);
        assert(input[at + 1] == frame[1]);
    }
}

/// A value whose bytes are cut short is not read: the decoder fails with
/// `Eof`.
pub proof fn lemma_cut_value(v: SpecValue, shape: SpecShape, input: Seq<u8>, at: int, k: int)
    requires
        conforms(v, shape),
        encodable(v),
        elements_have_width(v),
        holds_at(input, at, value_bytes(v)),
        at <= k <= input.len(),
        k < at + value_bytes(v).len(),
    ensures
        parse_value(input.take(k), at, shape) == Err::<(SpecValue, int), Error>(Error::Eof),
    decreases v, 0nat,
{
    match v {
        SpecValue::Struct(fields) => {
            let shapes = shape->Struct_0;
            lemma_cut_fields(fields, shapes, 0, input, at, k, Seq::empty());
        },
        SpecValue::Sequence(items) => {
            lemma_cut_field(input, at, items_bytes(items, items.len()), k);
        },
        _ => {
            lemma_cut_field(input, at, scalar_text(v), k);
        },
    }
}

/// The fields of a struct from the `j`-th on, where the bytes of one of
/// them are cut short, are not read: the decoder fails with `Eof`.
pub proof fn lemma_cut_fields(
    fields: Seq<SpecField>,
    shapes: Seq<SpecFieldShape>,
    j: nat,
    input: Seq<u8>,
    base: int,
    k: int,
    acc: Seq<SpecField>,
)
    requires
        j <= fields.len(),
        conforms(SpecValue::Struct(fields), SpecShape::Struct(shapes)),
        encodable(SpecValue::Struct(fields)),
        elements_have_width(SpecValue::Struct(fields)),
        holds_at(input, base, fields_bytes(fields, fields.len())),
        base + fields_bytes(fields, j).len() <= k <= input.len(),
        k < base + fields_bytes(fields, fields.len()).len(),
    ensures
        parse_fields(input.take(k), base + fields_bytes(fields, j).len(), shapes, j, acc) == Err::<
            (Seq<SpecField>, int),
            Error,
        >(Error::Eof),
    decreases fields, fields.len() - j,
{
    let cut = input.take(k);
    let at = base + fields_bytes(fields, j).len();
    let field = fields[j as int];
    let key_bytes = encode_utf8(field.key);
    let so_far = fields_bytes(fields, j);
    lemma_fields_bytes_prefix(fields, j + 1, fields.len());
    lemma_holds_prefix(
        input,
        base,
        fields_bytes(fields, fields.len()),
        fields_bytes(fields, j + 1),
    );
    lemma_holds_split(input, base, so_far + framed(key_bytes), value_bytes(field.value));
    lemma_holds_split(input, base, so_far, framed(key_bytes));
    let next = at + 2 + key_bytes.len();
    let after = next + value_bytes(field.value).len();
    if k < next {
        lemma_cut_field(input, at, key_bytes, k);
    } else {
        lemma_holds_before_cut(input, at, framed(key_bytes), k);
        lemma_field_read_back(cut, at, key_bytes);
        lemma_scalar_read_back(SpecValue::Str(field.key), SpecShape::Str);
        if k < after {
            lemma_cut_value(field.value, shapes[j as int].shape, input, next, k);
        } else {
            lemma_holds_before_cut(input, next, value_bytes(field.value), k);
            lemma_value_read_back(field.value, shapes[j as int].shape, cut, next);
            let longer = acc.push(SpecField { key: shapes[j as int].key, value: field.value });
            lemma_cut_fields(fields, shapes, j + 1, input, base, k, longer);
        }
    }
}

/// A document that is cut short anywhere is not decoded: the decoder fails
/// with `Eof`.
pub proof fn lemma_cut_document(v: SpecValue, shape: SpecShape, k: int)
    requires
        conforms(v, shape),
        encodable(v),
        elements_have_width(v),
        0 <= k < document_bytes(v).len(),
    ensures
        decode_document(document_bytes(v).take(k), shape) == Err::<SpecValue, Error>(Error::Eof),
{
    let document = document_bytes(v);
    let n = value_bytes(v).len() as int;
    assert(document.subrange(0, n) =~= value_bytes(v));
    if k < n {
        lemma_cut_value(v, shape, document, 0, k);
    } else {
        lemma_holds_before_cut(document, 0, value_bytes(v), k);
        lemma_value_read_back(v, shape, document.take(k), 0);
    }
}

} // verus!
