//! EBML elements and documents: reading a byte stream into a tree of
//! elements, writing a tree back to bytes, and looking elements up.

use vstd::prelude::*;
use vstd::utf8::{decode_utf8, valid_utf8};
use crate::bits::{be_value, lemma_be_value_bound, lemma_pow2_le};
use vstd::arithmetic::power2::{lemma2_to64, lemma2_to64_rest, pow2};
use crate::numbers::{
    decimal_repr, decimal_text, lemma_decimal_zero, parse_i64, parse_u64, parse_usize,
    parse_usize_spec, signed_of,
};
use crate::schema::{
    json_contents, json_display, json_has_key, json_is_text, json_member, json_parse,
    json_parse_result, model_display, model_has_key, model_is_text, model_member, JsonModel,
    DEFAULT_SCHEMA_JSON,
};
use crate::vint::{
    be_bytes, be_bytes_u64, drop_leading_zeros, lemma_be_bytes_len, lemma_small_payload, make_master_vint, make_vint,
    master_size_bytes, read_size, read_tag, read_v_int_spec, strip_leading_zeros, vint_bytes,
    vint_fits, vint_payload, vint_readable, law_size_roundtrip, lemma_be_bytes_value,
    lemma_drop_leading_zeros_value, lemma_small_be_bytes, lemma_vint_prefix, zeros_only_leading,
    payload_fits,
};
use vstd::utf8::encode_utf8;

verus! {

/// The value an element holds, by the data type that the schema gives it.
/// A float is held as the bits of its IEEE 754 double.
#[derive(Debug)]
pub enum ElementValue {
    Null,
    U64(u64),
    I64(i64),
    F64(u64),
    Binary(Vec<u8>),
    BinaryRep(usize),
    String(String),
}

/// An element: its identifier (in decimal), its size field, its data, the
/// elements it holds when it is a master element, its value, and the name and
/// data type that the schema gives its identifier.
#[derive(Debug)]
pub struct Element {
    pub id: String,
    pub size: u64,
    pub data: Vec<u8>,
    pub children: Vec<Element>,
    pub value: ElementValue,
    pub name: String,
    pub data_type: String,
}

/// What an element value holds.
#[verifier::ext_equal]
pub enum ValueModel {
    Null,
    U64(u64),
    I64(i64),
    F64(u64),
    Binary(Seq<u8>),
    BinaryRep(usize),
    Text(Seq<char>),
}

/// What an element holds, children included.
#[verifier::ext_equal]
pub struct ElementModel {
    pub id: Seq<char>,
    pub size: u64,
    pub data: Seq<u8>,
    pub children: Seq<ElementModel>,
    pub value: ValueModel,
    pub name: Seq<char>,
    pub data_type: Seq<char>,
}

impl View for ElementValue {
    type V = ValueModel;

    open spec fn view(&self) -> ValueModel {
        match self {
            ElementValue::Null => ValueModel::Null,
            ElementValue::U64(v) => ValueModel::U64(*v),
            ElementValue::I64(v) => ValueModel::I64(*v),
            ElementValue::F64(v) => ValueModel::F64(*v),
            ElementValue::Binary(v) => ValueModel::Binary(v@),
            ElementValue::BinaryRep(n) => ValueModel::BinaryRep(*n),
            ElementValue::String(s) => ValueModel::Text(s@),
        }
    }
}

/// The model of an element.
pub open spec fn element_model(e: Element) -> ElementModel
    decreases e,
{
    ElementModel {
        id: e.id@,
        size: e.size,
        data: e.data@,
        children: element_models(e.children@),
        value: e.value@,
        name: e.name@,
        data_type: e.data_type@,
    }
}

/// The models of a sequence of elements.
pub open spec fn element_models(s: Seq<Element>) -> Seq<ElementModel>
    decreases s,
{
    if s.len() == 0 {
        Seq::empty()
    } else {
        element_models(s.drop_last()).push(element_model(s.last()))
    }
}

/// A document: the elements at its top level.
#[derive(Debug)]
pub struct Document {
    pub elements: Vec<Element>,
}

impl View for Document {
    type V = Seq<ElementModel>;

    open spec fn view(&self) -> Seq<ElementModel> {
        element_models(self.elements@)
    }
}

/// An entry of a document map: an element with the entries of its children,
/// or an element alone.
#[derive(Debug)]
pub enum DocumentMapElement {
    Pool(ElementWithChildren),
    Only(ElementWithOutChildren),
}

/// An element's identifier, name and value, without children.
#[derive(Debug)]
pub struct ElementWithOutChildren {
    pub id: String,
    pub name: String,
    pub value: ElementValue,
}

/// An element's identifier, name and value, with the entries of its children.
#[derive(Debug)]
pub struct ElementWithChildren {
    pub id: String,
    pub name: String,
    pub value: ElementValue,
    pub children: Vec<DocumentMapElement>,
}

/// A map of a document: an entry for each top-level element.
#[derive(Debug)]
pub struct DocumentMap {
    pub map: Vec<DocumentMapElement>,
}

/// What a document map entry holds: identifier, name, value, and for a pool
/// the entries of the children.
#[verifier::ext_equal]
pub enum MapModel {
    Pool(Seq<char>, Seq<char>, ValueModel, Seq<MapModel>),
    Only(Seq<char>, Seq<char>, ValueModel),
}

/// The model of a map entry.
pub open spec fn map_model(e: DocumentMapElement) -> MapModel
    decreases e,
{
    match e {
        DocumentMapElement::Pool(p) => MapModel::Pool(
            p.id@,
            p.name@,
            p.value@,
            map_models(p.children@),
        ),
        DocumentMapElement::Only(o) => MapModel::Only(o.id@, o.name@, o.value@),
    }
}

/// The models of a sequence of map entries.
pub open spec fn map_models(s: Seq<DocumentMapElement>) -> Seq<MapModel>
    decreases s,
{
    if s.len() == 0 {
        Seq::empty()
    } else {
        map_models(s.drop_last()).push(map_model(s.last()))
    }
}

impl View for DocumentMap {
    type V = Seq<MapModel>;

    open spec fn view(&self) -> Seq<MapModel> {
        map_models(self.map@)
    }
}

impl View for Element {
    type V = ElementModel;

    open spec fn view(&self) -> ElementModel {
        element_model(*self)
    }
}


pub proof fn lemma_element_models(s: Seq<Element>)
    ensures
        element_models(s).len() == s.len(),
        forall|i: int| 0 <= i < s.len() ==> #[trigger] element_models(s)[i] == element_model(s[i]),
    decreases s.len(),
{
    if s.len() > 0 {
        lemma_element_models(s.drop_last());
        assert forall|i: int| 0 <= i < s.len() implies #[trigger] element_models(s)[i]
            == element_model(s[i]) by {
            if i < s.len() - 1 {
                assert(s.drop_last()[i] == s[i]);
            }
        }
    }
}

/// The header of an element at the start of `data` can be read, and the data
/// it announces lies within `data`.
pub open spec fn header_ok(data: Seq<u8>) -> bool {
    &&& vint_readable(data, 0)
    &&& vint_readable(data, read_v_int_spec(data, 0, false).1)
    &&& header_end(data) + header_size(data) <= data.len()
}

/// The identifier of the element at the start of `data`.
pub open spec fn header_tag(data: Seq<u8>) -> nat {
    read_v_int_spec(data, 0, false).0
}

/// The size of the element at the start of `data`.
pub open spec fn header_size(data: Seq<u8>) -> nat {
    read_v_int_spec(data, read_v_int_spec(data, 0, false).1, true).0
}

/// Where the data of the element at the start of `data` begins.
pub open spec fn header_end(data: Seq<u8>) -> int {
    read_v_int_spec(data, read_v_int_spec(data, 0, false).1, true).1
}

/// The data of the element at the start of `data`.
pub open spec fn element_body(data: Seq<u8>) -> Seq<u8> {
    data.subrange(header_end(data), header_end(data) + header_size(data))
}

/// What follows the element at the start of `data`.
pub open spec fn after_element(data: Seq<u8>) -> Seq<u8> {
    data.skip(header_end(data) + header_size(data))
}

/// The element at the start of `data` as `read_element` returns it: its
/// identifier in decimal, its size and its data, and nothing else yet.
pub open spec fn raw_element(data: Seq<u8>) -> ElementModel {
    ElementModel {
        id: decimal_repr(header_tag(data)),
        size: header_size(data) as u64,
        data: element_body(data),
        children: Seq::empty(),
        value: ValueModel::Null,
        name: Seq::empty(),
        data_type: Seq::empty(),
    }
}

/// Whether the schema gives the identifier `id` the data type `t`.
pub open spec fn schema_type_is(sm: JsonModel, id: Seq<char>, t: Seq<char>) -> bool {
    model_is_text(model_member(model_member(sm, id), "type"@), t)
}

/// The text of the schema's `field` for `id`, or the empty text when the
/// schema has no such field.
pub open spec fn schema_field(sm: JsonModel, id: Seq<char>, field: Seq<char>) -> Seq<char> {
    if model_has_key(sm, id) && model_has_key(model_member(sm, id), field) {
        model_display(model_member(model_member(sm, id), field))
    } else {
        Seq::empty()
    }
}

/// The data types whose data is read as a number of at most eight bytes.
pub open spec fn schema_numeric(sm: JsonModel, id: Seq<char>) -> bool {
    schema_type_is(sm, id, "u"@) || schema_type_is(sm, id, "s"@) || schema_type_is(sm, id, "f"@)
}

/// The value that an element's data has by the data type of its identifier.
pub open spec fn decoded_value(sm: JsonModel, id: Seq<char>, body: Seq<u8>) -> ValueModel {
    if schema_type_is(sm, id, "m"@) {
        ValueModel::Null
    } else if schema_type_is(sm, id, "u"@) {
        ValueModel::U64(be_value(body) as u64)
    } else if schema_type_is(sm, id, "s"@) {
        ValueModel::I64(signed_of(be_value(body)) as i64)
    } else if schema_type_is(sm, id, "f"@) {
        ValueModel::F64(be_value(body) as u64)
    } else if schema_type_is(sm, id, "b"@) {
        ValueModel::Binary(body)
    } else if schema_type_is(sm, id, "8"@) {
        if valid_utf8(body) {
            ValueModel::Text(decode_utf8(body))
        } else {
            ValueModel::Null
        }
    } else {
        ValueModel::Null
    }
}

/// The elements that `data` holds, read by the schema `sm`: one after the
/// other until the data ends or an element with identifier zero is read.
/// The children of master elements are read from their data; other
/// elements get the value of their data type. Read elements keep no data.
pub open spec fn parse_elements(data: Seq<u8>, sm: JsonModel) -> Seq<ElementModel>
    decreases data.len(), 0nat,
{
    if data.len() == 0 || !header_ok(data) || header_tag(data) == 0 {
        Seq::empty()
    } else {
        seq![decode_element(raw_element(data), sm)] + parse_elements(after_element(data), sm)
    }
}

/// A raw element read by the schema `sm`.
pub open spec fn decode_element(raw: ElementModel, sm: JsonModel) -> ElementModel
    decreases raw.data.len(), 1nat,
{
    ElementModel {
        id: raw.id,
        size: raw.size,
        data: Seq::empty(),
        children: if schema_type_is(sm, raw.id, "m"@) {
            parse_elements(raw.data, sm)
        } else {
            Seq::empty()
        },
        value: decoded_value(sm, raw.id, raw.data),
        name: schema_field(sm, raw.id, "name"@),
        data_type: schema_field(sm, raw.id, "type"@),
    }
}

/// `data` can be read by the schema `sm` without fault: every header can be
/// read and announces no more data than there is, numbers take at most eight
/// bytes, and the data of master elements can be read in turn.
pub open spec fn elements_readable(data: Seq<u8>, sm: JsonModel) -> bool
    decreases data.len(), 0nat,
{
    if data.len() == 0 {
        true
    } else if !header_ok(data) {
        false
    } else if header_tag(data) == 0 {
        true
    } else {
        element_readable(raw_element(data), sm) && elements_readable(after_element(data), sm)
    }
}

/// A raw element can be read by the schema `sm` without fault.
pub open spec fn element_readable(raw: ElementModel, sm: JsonModel) -> bool
    decreases raw.data.len(), 1nat,
{
    if schema_type_is(sm, raw.id, "m"@) {
        elements_readable(raw.data, sm)
    } else if schema_numeric(sm, raw.id) {
        raw.data.len() <= 8
    } else {
        true
    }
}

/// The raw elements that `data` holds, before the schema is applied.
pub open spec fn raw_elements(data: Seq<u8>) -> Seq<ElementModel>
    decreases data.len(),
{
    if data.len() == 0 || !header_ok(data) || header_tag(data) == 0 {
        Seq::empty()
    } else {
        seq![raw_element(data)] + raw_elements(after_element(data))
    }
}


/// The headers of the elements that `data` holds can be read one after the
/// other, each announcing no more data than there is, until the data ends or
/// an element with identifier zero is read.
pub open spec fn headers_readable(data: Seq<u8>) -> bool
    decreases data.len(),
{
    data.len() == 0 || (header_ok(data) && (header_tag(data) == 0 || headers_readable(
        after_element(data),
    )))
}

/// The raw elements read by the schema, one by one.
pub open spec fn decode_all(raws: Seq<ElementModel>, sm: JsonModel) -> Seq<ElementModel> {
    Seq::new(raws.len(), |i: int| decode_element(raws[i], sm))
}

/// Every raw element can be read by the schema, and its data is shorter than
/// `bound`.
pub open spec fn raws_readable(raws: Seq<ElementModel>, sm: JsonModel, bound: nat) -> bool {
    forall|i: int|
        0 <= i < raws.len() ==> {
            &&& element_readable(#[trigger] raws[i], sm)
            &&& raws[i].data.len() < bound
            &&& raws[i].children.len() == 0
            &&& raws[i].value == ValueModel::Null
            &&& raws[i].name.len() == 0
            &&& raws[i].data_type.len() == 0
        }
}

/// Reading elements by the schema is reading raw elements with
/// `read_element` one after the other, from the start of the bytes and then
/// from what each leaves, stopping where the bytes end, a header cannot be
/// read, or a raw element has the identifier `0`; then decoding each by the
/// data type the schema gives its identifier (`decode_element`).
pub proof fn law_read_elements_by_raw(data: Seq<u8>, sm: JsonModel)
    ensures
        parse_elements(data, sm) == decode_all(raw_elements(data), sm),
        raw_elements(data) == (if data.len() == 0 || !header_ok(data) || raw_element(data).id
            == seq!['0'] {
            Seq::empty()
        } else {
            seq![raw_element(data)] + raw_elements(after_element(data))
        }),
{
    lemma_parse_decode(data, sm);
    lemma_decimal_zero(header_tag(data));
}

/// Reading a master element, whatever the size of its data: the first
/// element read carries the identifier of the header and has as children
/// exactly the elements that reading its data gives, and reading goes on
/// with the bytes after its data.
pub proof fn law_master_children_read(data: Seq<u8>, sm: JsonModel)
    requires
        header_ok(data),
        header_tag(data) != 0,
        schema_type_is(sm, decimal_repr(header_tag(data)), "m"@),
    ensures
        parse_elements(data, sm).len() >= 1,
        parse_elements(data, sm)[0].id == decimal_repr(header_tag(data)),
        parse_elements(data, sm)[0].children == parse_elements(element_body(data), sm),
        parse_elements(data, sm).drop_first() == parse_elements(after_element(data), sm),
{
    let rest = parse_elements(after_element(data), sm);
    assert((seq![decode_element(raw_element(data), sm)] + rest).drop_first() =~= rest);
}

/// Reading with the schema is splitting into raw elements, then reading each.
proof fn lemma_parse_decode(data: Seq<u8>, sm: JsonModel)
    ensures
        parse_elements(data, sm) =~= decode_all(raw_elements(data), sm),
        elements_readable(data, sm) ==> raws_readable(raw_elements(data), sm, data.len()),
        elements_readable(data, sm) ==> headers_readable(data),
        headers_readable(data) ==> forall|i: int|
            0 <= i < raw_elements(data).len() ==> #[trigger] raw_elements(data)[i].data.len()
                < data.len(),
    decreases data.len(),
{
    if data.len() == 0 || !header_ok(data) || header_tag(data) == 0 {
    } else {
        let rest = after_element(data);
        lemma_parse_decode(rest, sm);
        let raws = raw_elements(data);
        assert(raws =~= seq![raw_element(data)] + raw_elements(rest));
        if headers_readable(data) {
            assert forall|i: int| 0 <= i < raws.len() implies #[trigger] raws[i].data.len()
                < data.len() by {
                if i > 0 {
                    assert(raws[i] == raw_elements(rest)[i - 1]);
                }
            }
        }
        if elements_readable(data, sm) {
            assert forall|i: int| 0 <= i < raws.len() implies {
                &&& element_readable(#[trigger] raws[i], sm)
                &&& raws[i].data.len() < data.len()
                &&& raws[i].children.len() == 0
                &&& raws[i].value == ValueModel::Null
                &&& raws[i].name.len() == 0
                &&& raws[i].data_type.len() == 0
            } by {
                if i > 0 {
                    assert(raws[i] == raw_elements(rest)[i - 1]);
                }
            }
        }
    }
}

/// Copies a slice of bytes into a new vector.
fn slice_to_vec(s: &[u8]) -> (r: Vec<u8>)
    ensures
        r@ == s@,
{
    let mut r: Vec<u8> = Vec::new();
    let mut i: usize = 0;
    while i < s.len()
        invariant
            i <= s@.len(),
            r@ =~= s@.take(i as int),
        decreases s@.len() - i,
    {
        r.push(s[i]);
        i = i + 1;
    }
    assert(s@.take(s@.len() as int) =~= s@);
    r
}

/// `String::from_utf8`: std accepts exactly the valid UTF-8 byte sequences and
/// returns the characters they encode.
#[verifier::external_body]
fn utf8_string(bytes: Vec<u8>) -> (r: Option<String>)
    ensures
        r is Some <==> valid_utf8(bytes@),
        r matches Some(s) ==> s@ == decode_utf8(bytes@),
{
    String::from_utf8(bytes).ok()
}

/// Reads the header of the element at the start of `buffer`, and returns the
/// element with its identifier, size and data, and the bytes that follow it.
pub fn read_element(buffer: &mut Vec<u8>, debug: bool) -> (res: (Element, Vec<u8>))
    requires
        header_ok(old(buffer)@),
    ensures
        final(buffer)@ == old(buffer)@,
        res.0@ == raw_element(old(buffer)@),
        res.1@ == after_element(old(buffer)@),
{
    let _ = debug;
    let cursor: usize = 0;
    let (tag, cursor) = read_tag(buffer, cursor);
    let (size, cursor) = read_size(buffer, cursor);
    let blen: usize = buffer.len();
    assert(size as int + cursor as int <= blen as int);
    let sz: usize = size as usize;
    assert(sz as int == size as int);
    let (size_buffer, overflow) = buffer.as_slice().split_at(sz + cursor);
    let (_, size_data) = size_buffer.split_at(cursor);
    let element = Element {
        id: decimal_text(tag),
        size: size,
        data: slice_to_vec(size_data),
        children: Vec::new(),
        value: ElementValue::Null,
        name: String::new(),
        data_type: String::new(),
    };
    assert(element_models(element.children@) =~= Seq::<ElementModel>::empty());
    (element, slice_to_vec(overflow))
}


/// Splits `buffer` into its raw elements, as `read_element` reads them one
/// after the other, until the bytes end or an element with identifier zero.
fn split_elements(buffer: &Vec<u8>) -> (elements: Vec<Element>)
    requires
        headers_readable(buffer@),
    ensures
        element_models(elements@) =~= raw_elements(buffer@),
{
    let mut elements: Vec<Element> = Vec::new();
    let mut data: Vec<u8> = slice_to_vec(buffer.as_slice());
    let zero: String = "0".to_owned();
    proof {
        reveal_strlit("0");
        assert(zero@ =~= seq!['0']);
    }
    while data.len() > 0
        invariant_except_break
            headers_readable(data@),
            raw_elements(buffer@) =~= element_models(elements@) + raw_elements(data@),
        invariant
            zero@ =~= seq!['0'],
        ensures
            raw_elements(buffer@) =~= element_models(elements@),
        decreases data@.len(),
    {
        let ghost before = data@;
        let ghost done = element_models(elements@);
        let (element, overflow) = read_element(&mut data, false);
        data = overflow;
        proof {
            lemma_decimal_zero(header_tag(before));
        }
        if element.id == zero {
            assert(raw_elements(before) =~= Seq::<ElementModel>::empty());
            assert(done + raw_elements(before) =~= done);
            break;
        }
        proof {
            lemma_element_models(elements@);
        }
        elements.push(element);
        proof {
            lemma_element_models(elements@);
            assert(element_models(elements@) =~= done.push(raw_element(before)));
            assert(raw_elements(before) =~= seq![raw_element(before)] + raw_elements(data@));
        }
    }
    proof {
        if data@.len() == 0 {
            assert(raw_elements(data@) =~= Seq::<ElementModel>::empty());
        }
    }
    elements
}

/// Reads the elements that `buffer` holds by the schema `schema`: the elements
/// follow one another until the bytes end or an element with identifier zero
/// is read. A master element's children are read from its data; any other
/// element gets the value its data type gives its data; every element gets
/// the name and data type that the schema gives its identifier, and keeps no
/// data.
pub fn read_elements_with_schema(buffer: &Vec<u8>, schema: &json::JsonValue) -> (collect: Vec<
    Element,
>)
    requires
        elements_readable(buffer@, json_contents(*schema)),
    ensures
        element_models(collect@) =~= parse_elements(buffer@, json_contents(*schema)),
    decreases buffer@.len(), 1nat,
{
    let ghost sm = json_contents(*schema);
    proof {
        lemma_parse_decode(buffer@, sm);
    }
    let elements = split_elements(buffer);
    decode_raws(elements, schema, Ghost(buffer@.len()))
}

/// Reads raw elements, whose data is shorter than `bound`, by the schema.
fn decode_raws(elements: Vec<Element>, schema: &json::JsonValue, Ghost(bound): Ghost<nat>) -> (collect: Vec<Element>)
    requires
        raws_readable(element_models(elements@), json_contents(*schema), bound),
    ensures
        element_models(collect@) =~= decode_all(element_models(elements@), json_contents(*schema)),
    decreases bound, 0nat,
{
    let ghost sm = json_contents(*schema);
    let mut elements = elements;
    let ghost raws = element_models(elements@);
    proof {
        lemma_element_models(elements@);
    }
    let mut collect: Vec<Element> = Vec::new();
    let ghost mut k: int = 0;
    loop
        invariant
            sm == json_contents(*schema),
            raws_readable(raws, sm, bound),
            0 <= k <= raws.len(),
            element_models(elements@) =~= raws.skip(k),
            element_models(collect@) =~= decode_all(raws.take(k), sm),
        ensures
            element_models(collect@) =~= decode_all(raws, sm),
        decreases raws.len() - k,
    {
        if elements.len() > 0 {
            proof {
                lemma_element_models(elements@);
                lemma_element_models(collect@);
            }
            let ghost rest_before = elements@;
            assert(element_models(rest_before).len() == rest_before.len());
            assert(k < raws.len());
            let ghost raw = raws[k];
            assert(raws.skip(k)[0] == raw);
            assert(element_models(rest_before)[0] == element_model(rest_before[0]));
            let mut element = elements.remove(0);
            assert(element == rest_before[0]);
            assert(element@ == raw);
            assert(element.data@ == raw.data);
            assert(element_readable(raw, sm) && raw.data.len() < bound);
            let id: String = element.id.clone();
            let entry = json_member(schema, id.as_str());
            let kind = json_member(entry, "type");
            assert(id@ == raw.id);
            proof {
                lemma_element_models(element.children@);
                if raw.data.len() <= 8 {
                    lemma_be_value_bound(raw.data);
                    lemma_pow2_le(8 * raw.data.len(), 64);
                    lemma2_to64_rest();
                }
            }
            assert(element.children@.len() == 0);
            if json_is_text(kind, "m") {
                element.children = read_elements_with_schema(&element.data, schema);
            } else if json_is_text(kind, "u") {
                element.value = ElementValue::U64(parse_u64(&element.data));
                assert(element.value@ == decoded_value(sm, raw.id, raw.data));
            } else if json_is_text(kind, "s") {
                element.value = ElementValue::I64(parse_i64(&element.data));
                assert(element.value@ == decoded_value(sm, raw.id, raw.data));
            } else if json_is_text(kind, "f") {
                element.value = ElementValue::F64(parse_u64(&element.data));
                assert(element.value@ == decoded_value(sm, raw.id, raw.data));
            } else if json_is_text(kind, "b") {
                element.value = ElementValue::Binary(element.data.clone());
                assert(element.value@ == ValueModel::Binary(raw.data));
            } else if json_is_text(kind, "8") {
                match utf8_string(element.data.clone()) {
                    Some(v) => {
                        element.value = ElementValue::String(v);
                    },
                    None => {},
                }
            }
            assert(element.value@ == decoded_value(sm, raw.id, raw.data));
            assert(element_models(element.children@) =~= if schema_type_is(sm, raw.id, "m"@) {
                parse_elements(raw.data, sm)
            } else {
                Seq::empty()
            });
            if json_has_key(schema, id.as_str()) && json_has_key(
                json_member(schema, id.as_str()),
                "name",
            ) {
                element.name = json_display(json_member(json_member(schema, id.as_str()), "name"));
            }
            if json_has_key(schema, id.as_str()) && json_has_key(
                json_member(schema, id.as_str()),
                "type",
            ) {
                element.data_type = json_display(
                    json_member(json_member(schema, id.as_str()), "type"),
                );
            }
            element.data = Vec::new();
            let ghost done = element_models(collect@);
            collect.push(element);
            proof {
                lemma_element_models(collect@);
                lemma_element_models(elements@);
                assert(element_model(element) =~= decode_element(raw, sm));
                assert(element_models(collect@) =~= done.push(decode_element(raw, sm)));
                assert(decode_all(raws.take(k + 1), sm) =~= decode_all(raws.take(k), sm).push(
                    decode_element(raw, sm),
                ));
                assert forall|i: int| 0 <= i < elements@.len() implies element_models(elements@)[i]
                    == raws.skip(k + 1)[i] by {
                    assert(elements@[i] == rest_before[i + 1]);
                    assert(element_models(rest_before)[i + 1] == raws.skip(k)[i + 1]);
                }
                assert(element_models(elements@) =~= raws.skip(k + 1));
                k = k + 1;
            }
        } else {
            proof {
                lemma_element_models(elements@);
                assert(raws.take(k) =~= raws);
            }
            break;
        }
    }
    collect
}


/// Reads the elements that `buffer` holds by the schema this library carries
/// (`DEFAULT_SCHEMA_JSON`); fails with `"failed-parse_schema"` when that
/// schema is not JSON.
pub fn read_elements(buffer: &Vec<u8>, debug: bool) -> (res: Result<Vec<Element>, &'static str>)
    requires
        headers_readable(buffer@),
        json_parse_result(DEFAULT_SCHEMA_JSON@) matches Some(sm) ==> elements_readable(buffer@, sm),
    ensures
        json_parse_result(DEFAULT_SCHEMA_JSON@) is None ==> res == Err::<Vec<Element>, &'static str>(
            "failed-parse_schema",
        ),
        json_parse_result(DEFAULT_SCHEMA_JSON@) matches Some(sm) ==> res matches Ok(v)
            && element_models(v@) == parse_elements(buffer@, sm),
        json_parse_result(DEFAULT_SCHEMA_JSON@) matches Some(sm) ==> res matches Ok(v)
            && element_models(v@) == decode_all(raw_elements(buffer@), sm),
{
    let _ = debug;
    let elements = split_elements(buffer);
    let schema = match json_parse(DEFAULT_SCHEMA_JSON) {
        Some(o) => o,
        None => {
            return Err("failed-parse_schema");
        },
    };
    proof {
        lemma_parse_decode(buffer@, json_contents(schema));
    }
    Ok(decode_raws(elements, &schema, Ghost(buffer@.len())))
}

/// Reads a document: the elements that `buffer` holds, by the schema this
/// library carries; fails with `"failed-read_elements"` when the elements
/// cannot be read.
pub fn read_document(buffer: &Vec<u8>) -> (res: Result<Document, &'static str>)
    requires
        headers_readable(buffer@),
        json_parse_result(DEFAULT_SCHEMA_JSON@) matches Some(sm) ==> elements_readable(buffer@, sm),
    ensures
        json_parse_result(DEFAULT_SCHEMA_JSON@) is None ==> res == Err::<Document, &'static str>(
            "failed-read_elements",
        ),
        json_parse_result(DEFAULT_SCHEMA_JSON@) matches Some(sm) ==> res matches Ok(d) && d@
            == parse_elements(buffer@, sm),
{
    match read_elements(buffer, false) {
        Ok(elements) => {
            return Ok(Document { elements: elements });
        },
        Err(_) => {
            return Err("failed-read_elements");
        },
    }
}

/// Whether the header of an element at the start of `data` can be read.
fn header_fits(data: &Vec<u8>) -> (b: bool)
    ensures
        b == header_ok(data@),
{
    if !vint_fits(data, 0) {
        return false;
    }
    let (_, c1) = read_tag(data, 0);
    if !vint_fits(data, c1) {
        return false;
    }
    let (size, c2) = read_size(data, c1);
    (size as u128) + (c2 as u128) <= data.len() as u128
}

/// Whether the headers of the elements that `buffer` holds can be read.
pub fn headers_are_readable(buffer: &Vec<u8>) -> (ok: bool)
    ensures
        ok == headers_readable(buffer@),
{
    let mut data: Vec<u8> = slice_to_vec(buffer.as_slice());
    let zero: String = "0".to_owned();
    proof {
        reveal_strlit("0");
        assert(zero@ =~= seq!['0']);
    }
    loop
        invariant
            headers_readable(data@) == headers_readable(buffer@),
            zero@ =~= seq!['0'],
        decreases data@.len(),
    {
        if data.len() == 0 {
            return true;
        }
        if !header_fits(&data) {
            return false;
        }
        let ghost before = data@;
        let (element, overflow) = read_element(&mut data, false);
        proof {
            lemma_decimal_zero(header_tag(before));
        }
        if element.id == zero {
            return true;
        }
        data = overflow;
    }
}

/// Whether `buffer` can be read by the schema `schema` without fault.
pub fn elements_are_readable(buffer: &Vec<u8>, schema: &json::JsonValue) -> (ok: bool)
    ensures
        ok == elements_readable(buffer@, json_contents(*schema)),
    decreases buffer@.len(),
{
    let ghost sm = json_contents(*schema);
    let mut data: Vec<u8> = slice_to_vec(buffer.as_slice());
    let zero: String = "0".to_owned();
    proof {
        reveal_strlit("0");
        assert(zero@ =~= seq!['0']);
    }
    loop
        invariant
            elements_readable(data@, sm) == elements_readable(buffer@, sm),
            data@.len() <= buffer@.len(),
            sm == json_contents(*schema),
            zero@ =~= seq!['0'],
        decreases data@.len(),
    {
        if data.len() == 0 {
            return true;
        }
        if !header_fits(&data) {
            return false;
        }
        let ghost before = data@;
        let (element, overflow) = read_element(&mut data, false);
        proof {
            lemma_decimal_zero(header_tag(before));
        }
        if element.id == zero {
            return true;
        }
        assert(header_tag(before) != 0);
        assert(elements_readable(before, sm) == (element_readable(raw_element(before), sm)
            && elements_readable(after_element(before), sm)));
        assert(element@ == raw_element(before));
        assert(element.id@ == raw_element(before).id);
        assert(element.data@ == raw_element(before).data);
        let kind = json_member(json_member(schema, element.id.as_str()), "type");
        if json_is_text(kind, "m") {
            if !elements_are_readable(&element.data, schema) {
                return false;
            }
        } else if json_is_text(kind, "u") || json_is_text(kind, "s") || json_is_text(kind, "f") {
            if element.data.len() > 8 {
                return false;
            }
        }
        data = overflow;
    }
}

/// Reads a document where `buffer` can be read without fault, and returns
/// `None` where reading would fault (a header that cannot be read or
/// announces more data than there is, or a number longer than eight bytes).
pub fn try_read_document(buffer: &Vec<u8>) -> (res: Option<Result<Document, &'static str>>)
    ensures
        json_parse_result(DEFAULT_SCHEMA_JSON@) is None ==> (res is Some <==> headers_readable(
            buffer@,
        )) && (res is Some ==> res == Some(Err::<Document, &'static str>("failed-read_elements"))),
        json_parse_result(DEFAULT_SCHEMA_JSON@) matches Some(sm) ==> (res is Some
            <==> elements_readable(buffer@, sm)),
        json_parse_result(DEFAULT_SCHEMA_JSON@) matches Some(sm) ==> (res is Some ==> (res->0 matches Ok(d) && d@
            == parse_elements(buffer@, sm))),
{
    let fits = match json_parse(DEFAULT_SCHEMA_JSON) {
        Some(schema) => {
            proof {
                lemma_parse_decode(buffer@, json_contents(schema));
            }
            elements_are_readable(buffer, &schema)
        },
        None => headers_are_readable(buffer),
    };
    if fits {
        Some(read_document(buffer))
    } else {
        None
    }
}


/// The model of a single element.
pub proof fn lemma_element_models_single(c: Element)
    ensures
        element_models(seq![c]) =~= seq![element_model(c)],
{
    assert(seq![c].drop_last() =~= Seq::<Element>::empty());
    assert(element_models(Seq::<Element>::empty()) =~= Seq::<ElementModel>::empty());
}

/// The models of a concatenation are the concatenation of the models.
pub proof fn lemma_element_models_concat(a: Seq<Element>, b: Seq<Element>)
    ensures
        element_models(a + b) =~= element_models(a) + element_models(b),
{
    lemma_element_models(a);
    lemma_element_models(b);
    lemma_element_models(a + b);
    assert forall|i: int| 0 <= i < (a + b).len() implies element_models(a + b)[i] == (
    element_models(a) + element_models(b))[i] by {
        if i < a.len() {
            assert((a + b)[i] == a[i]);
        } else {
            assert((a + b)[i] == b[i - a.len()]);
        }
    }
}

impl Clone for ElementValue {
    fn clone(&self) -> (res: Self)
        ensures
            res@ == self@,
    {
        match self {
            ElementValue::Null => ElementValue::Null,
            ElementValue::U64(v) => ElementValue::U64(*v),
            ElementValue::I64(v) => ElementValue::I64(*v),
            ElementValue::F64(v) => ElementValue::F64(*v),
            ElementValue::Binary(v) => {
                let c = v.clone();
                assert(c@ =~= v@);
                ElementValue::Binary(c)
            },
            ElementValue::BinaryRep(n) => ElementValue::BinaryRep(*n),
            ElementValue::String(s) => ElementValue::String(s.clone()),
        }
    }
}

/// Copies of the elements of a slice.
fn clone_elements(s: &[Element]) -> (r: Vec<Element>)
    ensures
        element_models(r@) =~= element_models(s@),
{
    let mut r: Vec<Element> = Vec::new();
    let mut i: usize = 0;
    while i < s.len()
        invariant
            i <= s@.len(),
            element_models(r@) =~= element_models(s@.take(i as int)),
        decreases s@.len() - i,
    {
        let ghost before = r@;
        let c = s[i].clone();
        r.push(c);
        proof {
            assert(r@ =~= before.push(c));
            assert(s@.take(i as int + 1).drop_last() =~= s@.take(i as int));
            assert(r@.drop_last() =~= before);
        }
        i = i + 1;
    }
    assert(s@.take(s@.len() as int) =~= s@);
    r
}

impl Clone for Document {
    fn clone(&self) -> (res: Self)
        ensures
            res@ == self@,
    {
        Document { elements: clone_elements(self.elements.as_slice()) }
    }
}

impl Clone for ElementWithOutChildren {
    fn clone(&self) -> (res: Self)
        ensures
            res.id@ == self.id@,
            res.name@ == self.name@,
            res.value@ == self.value@,
    {
        ElementWithOutChildren {
            id: self.id.clone(),
            name: self.name.clone(),
            value: self.value.clone(),
        }
    }
}

impl Clone for DocumentMapElement {
    fn clone(&self) -> (res: Self)
        ensures
            map_model(res) == map_model(*self),
        decreases self,
    {
        match self {
            DocumentMapElement::Only(o) => DocumentMapElement::Only(o.clone()),
            DocumentMapElement::Pool(p) => {
                let mut children: Vec<DocumentMapElement> = Vec::new();
                let mut i: usize = 0;
                while i < p.children.len()
                    invariant
                        *self == DocumentMapElement::Pool(*p),
                        i <= p.children@.len(),
                        map_models(children@) =~= map_models(p.children@.take(i as int)),
                    decreases p.children@.len() - i,
                {
                    let ghost before = children@;
                    assert(decreases_to!(*self => self->Pool_0));
                    assert(decreases_to!(self->Pool_0 => self->Pool_0.children));
                    assert(decreases_to!(self => p.children));
                    let c = p.children[i].clone();
                    children.push(c);
                    proof {
                        lemma_map_models_push(before, c);
                        assert(p.children@.take(i as int + 1).drop_last() =~= p.children@.take(
                            i as int,
                        ));
                    }
                    i = i + 1;
                }
                assert(p.children@.take(p.children@.len() as int) =~= p.children@);
                DocumentMapElement::Pool(
                    ElementWithChildren {
                        id: p.id.clone(),
                        name: p.name.clone(),
                        value: p.value.clone(),
                        children: children,
                    },
                )
            },
        }
    }
}

/// Copies of a sequence of map entries.
fn clone_entries(s: &Vec<DocumentMapElement>) -> (r: Vec<DocumentMapElement>)
    ensures
        map_models(r@) =~= map_models(s@),
{
    let mut r: Vec<DocumentMapElement> = Vec::new();
    let mut i: usize = 0;
    while i < s.len()
        invariant
            i <= s@.len(),
            map_models(r@) =~= map_models(s@.take(i as int)),
        decreases s@.len() - i,
    {
        let ghost before = r@;
        let c = s[i].clone();
        r.push(c);
        proof {
            lemma_map_models_push(before, c);
            assert(s@.take(i as int + 1).drop_last() =~= s@.take(i as int));
        }
        i = i + 1;
    }
    assert(s@.take(s@.len() as int) =~= s@);
    r
}

impl Clone for ElementWithChildren {
    fn clone(&self) -> (res: Self)
        ensures
            res.id@ == self.id@,
            res.name@ == self.name@,
            res.value@ == self.value@,
            map_models(res.children@) == map_models(self.children@),
    {
        ElementWithChildren {
            id: self.id.clone(),
            name: self.name.clone(),
            value: self.value.clone(),
            children: clone_entries(&self.children),
        }
    }
}

impl Clone for DocumentMap {
    fn clone(&self) -> (res: Self)
        ensures
            res@ == self@,
    {
        DocumentMap { map: clone_entries(&self.map) }
    }
}

impl Clone for Element {
    fn clone(&self) -> (res: Self)
        ensures
            res@ == self@,
        decreases self,
    {
        let mut children: Vec<Element> = Vec::new();
        let mut i: usize = 0;
        while i < self.children.len()
            invariant
                i <= self.children@.len(),
                element_models(children@) =~= element_models(self.children@.take(i as int)),
            decreases self.children@.len() - i,
        {
            let ghost before = children@;
            assert(decreases_to!(self => self.children));
            let c = self.children[i].clone();
            children.push(c);
            proof {
                assert(children@ =~= before.push(c));
                assert(self.children@.take(i as int + 1).drop_last() =~= self.children@.take(
                    i as int,
                ));
                assert(children@.drop_last() =~= before);
            }
            i = i + 1;
        }
        assert(self.children@.take(self.children@.len() as int) =~= self.children@);
        let data = self.data.clone();
        assert(data@ =~= self.data@);
        Element {
            id: self.id.clone(),
            size: self.size,
            data: data,
            children: children,
            value: self.value.clone(),
            name: self.name.clone(),
            data_type: self.data_type.clone(),
        }
    }
}


impl ElementValue {
    /// The bytes of a binary value; empty for any other value.
    pub fn binary(&self) -> (r: Vec<u8>)
        ensures
            r@ == (match self@ {
                ValueModel::Binary(v) => v,
                _ => Seq::empty(),
            }),
    {
        match self {
            ElementValue::Binary(v) => {
                let c = v.clone();
                assert(c@ =~= v@);
                return c;
            },
            _ => Vec::new(),
        }
    }

    /// An unsigned value; zero for any other value.
    pub fn u64(&self) -> (r: u64)
        ensures
            r == (match self@ {
                ValueModel::U64(v) => v,
                _ => 0,
            }),
    {
        match self {
            ElementValue::U64(v) => {
                return *v;
            },
            _ => 0,
        }
    }

    /// A signed value; zero for any other value.
    pub fn i64(&self) -> (r: i64)
        ensures
            r == (match self@ {
                ValueModel::I64(v) => v,
                _ => 0,
            }),
    {
        match self {
            ElementValue::I64(v) => {
                return *v;
            },
            _ => 0,
        }
    }

    /// The IEEE 754 bits of a float value; the bits of zero for any other
    /// value.
    pub fn f64_bits(&self) -> (r: u64)
        ensures
            r == (match self@ {
                ValueModel::F64(v) => v,
                _ => 0,
            }),
    {
        match self {
            ElementValue::F64(v) => {
                return *v;
            },
            _ => 0,
        }
    }

    /// The text of a string value; empty for any other value.
    pub fn string(&self) -> (r: String)
        ensures
            r@ == (match self@ {
                ValueModel::Text(v) => v,
                _ => Seq::empty(),
            }),
    {
        match self {
            ElementValue::String(v) => {
                return v.clone();
            },
            _ => String::new(),
        }
    }
}

/// The elements of a sequence whose identifier is not `id`, in order.
pub open spec fn without_id(s: Seq<ElementModel>, id: Seq<char>) -> Seq<ElementModel>
    decreases s.len(),
{
    if s.len() == 0 {
        s
    } else if s.last().id != id {
        without_id(s.drop_last(), id).push(s.last())
    } else {
        without_id(s.drop_last(), id)
    }
}

/// The elements with identifier `id` among the descendants of `e`, in
/// document order.
pub open spec fn found_below(e: ElementModel, id: Seq<char>) -> Seq<ElementModel>
    decreases e,
{
    found_in(e.children, id)
}

/// The elements with identifier `id` among `s` and their descendants, in
/// document order (each element before its descendants).
pub open spec fn found_in(s: Seq<ElementModel>, id: Seq<char>) -> Seq<ElementModel>
    decreases s,
{
    if s.len() == 0 {
        Seq::empty()
    } else {
        found_in(s.drop_last(), id) + (if s.last().id == id {
            seq![s.last()]
        } else {
            Seq::empty()
        }) + found_below(s.last(), id)
    }
}

/// The identifier of SimpleBlock elements, which hold the frames of a stream.
pub open spec fn simple_block_id() -> Seq<char> {
    seq!['3', '5']
}

/// The elements with identifier `id` among the descendants of `element`, in
/// document order.
pub fn get_elements_by_id_element(element: &Element, id: &String) -> (collect: Vec<Element>)
    ensures
        element_models(collect@) =~= found_below(element@, id@),
    decreases element,
{
    let mut collect: Vec<Element> = Vec::new();
    let mut i: usize = 0;
    proof {
        lemma_element_models(element.children@);
    }
    while i < element.children.len()
        invariant
            i <= element.children@.len(),
            element_models(element.children@).len() == element.children@.len(),
            forall|j: int|
                0 <= j < element.children@.len() ==> #[trigger] element_models(element.children@)[j]
                    == element_model(element.children@[j]),
            element_models(collect@) =~= found_in(
                element_models(element.children@).take(i as int),
                id@,
            ),
        decreases element.children@.len() - i,
    {
        let children = &element.children[i];
        let ghost before = element_models(collect@);
        let ghost cm = element_model(*children);
        let ghost prev = element_models(element.children@).take(i as int);
        let ghost t = element_models(element.children@).take(i as int + 1);
        assert(t.drop_last() =~= prev);
        assert(t.last() == cm);
        if children.id == *id {
            let ghost cv = collect@;
            let c = children.clone();
            collect.push(c);
            proof {
                lemma_element_models_concat(cv, seq![c]);
                assert(collect@ =~= cv + seq![c]);
                lemma_element_models_single(c);
            }
        }
        assert(element_models(collect@) =~= before + (if cm.id == id@ {
            seq![cm]
        } else {
            Seq::empty()
        }));
        let ghost mid = collect@;
        assert(decreases_to!(element => element.children));
        let mut deep = get_elements_by_id_element(children, id);
        let ghost deep_v = deep@;
        collect.append(&mut deep);
        proof {
            lemma_element_models_concat(mid, deep_v);
            assert(found_in(t, id@) =~= found_in(prev, id@) + (if cm.id == id@ {
                seq![cm]
            } else {
                Seq::empty()
            }) + found_below(cm, id@));
        }
        i = i + 1;
    }
    assert(element_models(element.children@).take(element.children@.len() as int)
        =~= element_models(element.children@));
    collect
}

impl Document {
    /// Puts copies of the elements of `pool` in front of the document's
    /// elements.
    pub fn add_header(&mut self, pool: &Vec<Element>)
        ensures
            final(self)@ =~= element_models(pool@) + old(self)@,
    {
        let mut collect = clone_elements(pool.as_slice());
        let ghost front = collect@;
        let ghost back = self.elements@;
        collect.append(&mut self.elements);
        proof {
            lemma_element_models_concat(front, back);
        }
        self.elements = collect;
    }

    /// Copies of the document's top-level elements, but for SimpleBlocks.
    pub fn get_header(&self) -> (collect: Vec<Element>)
        ensures
            element_models(collect@) =~= without_id(self@, simple_block_id()),
    {
        let block: String = "35".to_owned();
        proof {
            reveal_strlit("35");
            assert(block@ =~= simple_block_id());
            lemma_element_models(self.elements@);
        }
        let mut collect: Vec<Element> = Vec::new();
        let mut i: usize = 0;
        while i < self.elements.len()
            invariant
                i <= self.elements@.len(),
                block@ =~= simple_block_id(),
                element_models(self.elements@).len() == self.elements@.len(),
                forall|j: int|
                    0 <= j < self.elements@.len() ==> #[trigger] element_models(self.elements@)[j]
                        == element_model(self.elements@[j]),
                element_models(collect@) =~= without_id(
                    element_models(self.elements@).take(i as int),
                    simple_block_id(),
                ),
            decreases self.elements@.len() - i,
        {
            let element = &self.elements[i];
            let ghost t = element_models(self.elements@).take(i as int + 1);
            assert(t.drop_last() =~= element_models(self.elements@).take(i as int));
            assert(t.last() == element_model(*element));
            let ghost em = element_model(*element);
            let ghost before = collect@;
            if !(element.id == block) {
                let c = element.clone();
                collect.push(c);
                proof {
                    lemma_element_models_concat(before, seq![c]);
                    assert(collect@ =~= before + seq![c]);
                    assert(seq![c].drop_last() =~= Seq::<Element>::empty());
                    lemma_element_models_single(c);
                }
            }
            assert(without_id(t, simple_block_id()) =~= if em.id != simple_block_id() {
                without_id(t.drop_last(), simple_block_id()).push(em)
            } else {
                without_id(t.drop_last(), simple_block_id())
            });
            i = i + 1;
        }
        assert(element_models(self.elements@).take(self.elements@.len() as int)
            =~= element_models(self.elements@));
        collect
    }

    /// The elements with identifier `id` in the document, at any depth, in
    /// document order.
    pub fn get_elements_by_id(&self, id: &String) -> (collect: Vec<Element>)
        ensures
            element_models(collect@) =~= found_in(self@, id@),
    {
        proof {
            lemma_element_models(self.elements@);
        }
        let mut collect: Vec<Element> = Vec::new();
        let mut i: usize = 0;
        while i < self.elements.len()
            invariant
                i <= self.elements@.len(),
                element_models(self.elements@).len() == self.elements@.len(),
                forall|j: int|
                    0 <= j < self.elements@.len() ==> #[trigger] element_models(self.elements@)[j]
                        == element_model(self.elements@[j]),
                element_models(collect@) =~= found_in(
                    element_models(self.elements@).take(i as int),
                    id@,
                ),
            decreases self.elements@.len() - i,
        {
            let element = &self.elements[i];
            let ghost em = element_model(*element);
            let ghost prev = element_models(self.elements@).take(i as int);
            let ghost t = element_models(self.elements@).take(i as int + 1);
            assert(t.drop_last() =~= prev);
            assert(t.last() == em);
            let ghost before = element_models(collect@);
            if element.id == *id {
                let ghost cv = collect@;
                let c = element.clone();
                collect.push(c);
                proof {
                    lemma_element_models_concat(cv, seq![c]);
                    assert(collect@ =~= cv + seq![c]);
                    assert(seq![c].drop_last() =~= Seq::<Element>::empty());
                    lemma_element_models_single(c);
                }
            }
            assert(element_models(collect@) =~= before + (if em.id == id@ {
                seq![em]
            } else {
                Seq::empty()
            }));
            let ghost mid = collect@;
            let mut deep = get_elements_by_id_element(element, id);
            let ghost deep_v = deep@;
            collect.append(&mut deep);
            proof {
                lemma_element_models_concat(mid, deep_v);
                assert(found_in(t, id@) =~= found_in(prev, id@) + (if em.id == id@ {
                    seq![em]
                } else {
                    Seq::empty()
                }) + found_below(em, id@));
            }
            i = i + 1;
        }
        assert(element_models(self.elements@).take(self.elements@.len() as int)
            =~= element_models(self.elements@));
        collect
    }
}


/// Every element found for an identifier has that identifier.
pub proof fn law_found_have_id(s: Seq<ElementModel>, id: Seq<char>)
    ensures
        forall|i: int| 0 <= i < found_in(s, id).len() ==> #[trigger] found_in(s, id)[i].id == id,
    decreases s,
{
    if s.len() > 0 {
        let s0 = s.drop_last();
        let e = s.last();
        law_found_have_id(s0, id);
        assert(decreases_to!(s => e));
        assert(decreases_to!(e => e.children));
        law_found_have_id(e.children, id);
        let a = found_in(s0, id);
        let b = if e.id == id {
            seq![e]
        } else {
            Seq::empty()
        };
        let c = found_below(e, id);
        assert forall|i: int| 0 <= i < found_in(s, id).len() implies #[trigger] found_in(s, id)[i].id
            == id by {
            if i < a.len() {
                assert(found_in(s, id)[i] == a[i]);
            } else if i < a.len() + b.len() {
                assert(found_in(s, id)[i] == b[i - a.len()]);
            } else {
                assert(found_in(s, id)[i] == c[i - a.len() - b.len()]);
            }
        }
    }
}

/// Everything found among a sequence of elements is found among that
/// sequence with more elements behind it.
proof fn lemma_found_in_concat(s: Seq<ElementModel>, id: Seq<char>)
    requires
        s.len() > 0,
    ensures
        found_in(s, id) == found_in(s.drop_last(), id) + (if s.last().id == id {
            seq![s.last()]
        } else {
            Seq::empty()
        }) + found_below(s.last(), id),
{
}

/// The search for an identifier misses nothing, at any depth: each element of
/// the sequence that has the identifier is found, and so is every element
/// found below any element of the sequence.
pub proof fn law_found_complete(s: Seq<ElementModel>, id: Seq<char>)
    ensures
        forall|i: int| 0 <= i < s.len() && s[i].id == id ==> #[trigger] found_in(s, id).contains(
            s[i],
        ),
        forall|i: int, x: ElementModel|
            0 <= i < s.len() && #[trigger] found_below(s[i], id).contains(x) ==> found_in(
                s,
                id,
            ).contains(x),
    decreases s.len(),
{
    if s.len() > 0 {
        let s0 = s.drop_last();
        let e = s.last();
        law_found_complete(s0, id);
        lemma_found_in_concat(s, id);
        let a = found_in(s0, id);
        let b = if e.id == id {
            seq![e]
        } else {
            Seq::empty()
        };
        let c = found_below(e, id);
        let f = found_in(s, id);
        assert(f == a + b + c);
        assert forall|x: ElementModel| a.contains(x) implies f.contains(x) by {
            let k = choose|k: int| 0 <= k < a.len() && a[k] == x;
            assert(f[k] == x);
        }
        assert forall|x: ElementModel| c.contains(x) implies f.contains(x) by {
            let k = choose|k: int| 0 <= k < c.len() && c[k] == x;
            assert(f[a.len() + b.len() + k] == x);
        }
        assert forall|i: int| 0 <= i < s.len() && s[i].id == id implies #[trigger] f.contains(
            s[i],
        ) by {
            if i < s.len() - 1 {
                assert(s0[i] == s[i]);
                assert(a.contains(s0[i]));
            } else {
                assert(f[a.len() as int] == e);
            }
        }
        assert forall|i: int, x: ElementModel|
            0 <= i < s.len() && #[trigger] found_below(s[i], id).contains(x) implies f.contains(
            x,
        ) by {
            if i < s.len() - 1 {
                assert(s0[i] == s[i]);
                assert(a.contains(x));
            } else {
                assert(c.contains(x));
            }
        }
    }
}

/// The search below an element misses nothing, at any depth: every child
/// with the identifier is found, and so is every element found below any
/// child, and so on down.
pub proof fn law_found_below_complete(e: ElementModel, id: Seq<char>)
    ensures
        forall|j: int|
            0 <= j < e.children.len() && e.children[j].id == id ==> #[trigger] found_below(
                e,
                id,
            ).contains(e.children[j]),
        forall|j: int, x: ElementModel|
            0 <= j < e.children.len() && #[trigger] found_below(e.children[j], id).contains(x)
                ==> found_below(e, id).contains(x),
{
    law_found_complete(e.children, id);
    assert(found_below(e, id) == found_in(e.children, id));
    assert forall|j: int|
        0 <= j < e.children.len() && e.children[j].id == id implies #[trigger] found_below(
            e,
            id,
        ).contains(e.children[j]) by {
        assert(found_in(e.children, id).contains(e.children[j]));
    }
}

/// No element of a header is a SimpleBlock, and a header has no more
/// elements than the document.
pub proof fn law_header_has_no_blocks(s: Seq<ElementModel>)
    ensures
        forall|i: int|
            0 <= i < without_id(s, simple_block_id()).len() ==> #[trigger] without_id(
                s,
                simple_block_id(),
            )[i].id != simple_block_id(),
        without_id(s, simple_block_id()).len() <= s.len(),
    decreases s.len(),
{
    if s.len() > 0 {
        law_header_has_no_blocks(s.drop_last());
    }
}

/// The elements kept for an identifier are exactly those of the sequence
/// whose identifier differs, in order: a document's header is its top-level
/// elements without the SimpleBlocks, none other dropped.
pub proof fn law_without_id_is_filter(s: Seq<ElementModel>, id: Seq<char>)
    ensures
        without_id(s, id) == s.filter(|e: ElementModel| e.id != id),
        forall|i: int| 0 <= i < s.len() && s[i].id != id ==> #[trigger] without_id(s, id).contains(
            s[i],
        ),
    decreases s.len(),
{
    let pred = |e: ElementModel| e.id != id;
    if s.len() > 0 {
        law_without_id_is_filter(s.drop_last(), id);
        s.drop_last().lemma_filter_push(s.last(), pred);
        assert(s.drop_last().push(s.last()) =~= s);
    } else {
        reveal(Seq::filter);
    }
    assert forall|i: int| 0 <= i < s.len() && s[i].id != id implies #[trigger] without_id(
        s,
        id,
    ).contains(s[i]) by {
        s.lemma_filter_contains(pred, i);
    }
}

/// Filtering out an identifier splits over a concatenation: the header of a
/// document with a header put in front is that header's header, then the
/// document's.
pub proof fn law_without_id_concat(a: Seq<ElementModel>, b: Seq<ElementModel>, id: Seq<char>)
    ensures
        without_id(a + b, id) =~= without_id(a, id) + without_id(b, id),
    decreases b.len(),
{
    if b.len() == 0 {
        assert(a + b =~= a);
    } else {
        assert((a + b).drop_last() =~= a + b.drop_last());
        law_without_id_concat(a, b.drop_last(), id);
    }
}

/// What a value writes is the size field `make_vint` writes for its payload's
/// length, then the payload unchanged (binary data as it is, text as its
/// UTF-8 bytes), except that a binary size writes nothing and a null value
/// writes `01` and six `FF` bytes.
pub proof fn law_value_bytes_shape(v: ValueModel)
    ensures
        v is U64 || v is I64 || v is F64 || v is Binary || v is Text ==> value_bytes(v) == vint_bytes(
            value_payload(v).len(),
        ) + value_payload(v),
        v matches ValueModel::Binary(b) ==> value_payload(v) == b,
        v matches ValueModel::Text(t) ==> value_payload(v) == encode_utf8(t),
        v is BinaryRep ==> value_bytes(v).len() == 0,
        v is Null ==> value_bytes(v) == null_value_bytes(),
{
}

/// A float's bits denote a number above zero: the sign bit is clear, the bits
/// are not those of zero, and not those of a NaN.
pub open spec fn float_is_positive(bits: u64) -> bool {
    0 < bits <= 0x7FF0_0000_0000_0000
}

/// Bytes behind the variable-length integer of their count.
pub open spec fn sized_bytes(b: Seq<u8>) -> Seq<u8> {
    vint_bytes(b.len()) + b
}

/// The eight big-endian bytes of a number, without their leading zeros when
/// `strip` holds, behind their count.
pub open spec fn number_bytes(bs: Seq<u8>, strip: bool) -> Seq<u8> {
    sized_bytes(
        if strip {
            drop_leading_zeros(bs)
        } else {
            bs
        },
    )
}

/// The bytes `vint` writes for a null value.
pub open spec fn null_value_bytes() -> Seq<u8> {
    seq![1u8, 255u8, 255u8, 255u8, 255u8, 255u8, 255u8]
}

/// The bytes `vint` writes for a value: its bytes behind their count, where
/// numbers above zero lose their leading zero bytes; a null value writes
/// `01` and six `FF` bytes, a binary size nothing.
pub open spec fn value_bytes(v: ValueModel) -> Seq<u8> {
    match v {
        ValueModel::Null => null_value_bytes(),
        ValueModel::Binary(b) => sized_bytes(b),
        ValueModel::U64(x) => number_bytes(be_bytes(x as nat, 8), x > 0),
        ValueModel::I64(x) => number_bytes(be_bytes((x as u64) as nat, 8), x > 0),
        ValueModel::F64(bits) => number_bytes(be_bytes(bits as nat, 8), float_is_positive(bits)),
        ValueModel::Text(t) => sized_bytes(encode_utf8(t)),
        ValueModel::BinaryRep(_) => Seq::empty(),
    }
}

/// A count that `make_vint` can write.
pub open spec fn length_encodable(n: nat) -> bool {
    n == 0 || vint_payload(n) < pow2(63)
}

/// A value whose bytes `vint` can count.
pub open spec fn value_encodable(v: ValueModel) -> bool {
    match v {
        ValueModel::Binary(b) => length_encodable(b.len()),
        ValueModel::Text(t) => length_encodable(encode_utf8(t).len()),
        _ => true,
    }
}

/// Writes `bytes` behind the variable-length integer of their count.
fn write_sized(bytes: Vec<u8>) -> (collect: Vec<u8>)
    requires
        length_encodable(bytes@.len()),
    ensures
        collect@ == sized_bytes(bytes@),
{
    let mut bytes = bytes;
    let mut collect: Vec<u8> = Vec::new();
    let mut size = make_vint(bytes.len());
    collect.append(&mut size);
    collect.append(&mut bytes);
    collect
}

impl ElementValue {
    /// The bytes of the value behind their count, as an element's data.
    pub fn vint(&self) -> (r: Vec<u8>)
        requires
            value_encodable(self@),
        ensures
            r@ == value_bytes(self@),
    {
        proof {
            assert forall|n: nat| n <= 8 implies length_encodable(n) by {
                lemma_small_payload(n);
                lemma2_to64();
                vstd::arithmetic::power2::lemma2_to64_rest();
            }
        }
        match self {
            ElementValue::Null => {
                let r: Vec<u8> = vec![1, 255, 255, 255, 255, 255, 255];
                assert(r@ =~= null_value_bytes());
                r
            },
            ElementValue::Binary(v) => {
                let c = v.clone();
                assert(c@ =~= v@);
                write_sized(c)
            },
            ElementValue::U64(v) => {
                let mut as_bytes = be_bytes_u64(*v);
                if *v > 0 {
                    strip_leading_zeros(&mut as_bytes);
                }
                proof {
                    lemma_number_len(*v as nat);
                }
                write_sized(as_bytes)
            },
            ElementValue::I64(v) => {
                let mut as_bytes = be_bytes_u64(#[verifier::truncate] (*v as u64));
                if *v > 0 {
                    strip_leading_zeros(&mut as_bytes);
                }
                proof {
                    lemma_number_len((*v as u64) as nat);
                }
                write_sized(as_bytes)
            },
            ElementValue::F64(bits) => {
                let mut as_bytes = be_bytes_u64(*bits);
                if *bits > 0 && *bits <= 0x7FF0_0000_0000_0000 {
                    strip_leading_zeros(&mut as_bytes);
                }
                proof {
                    lemma_number_len(*bits as nat);
                }
                write_sized(as_bytes)
            },
            ElementValue::String(v) => {
                let as_bytes = slice_to_vec(v.as_str().as_bytes());
                write_sized(as_bytes)
            },
            ElementValue::BinaryRep(_) => Vec::new(),
        }
    }
}

proof fn lemma_number_len(n: nat)
    ensures
        drop_leading_zeros(be_bytes(n, 8)).len() <= 8,
        be_bytes(n, 8).len() == 8,
{
    lemma_be_bytes_len(n, 8);
    lemma_drop_len(be_bytes(n, 8));
}

proof fn lemma_drop_len(s: Seq<u8>)
    ensures
        drop_leading_zeros(s).len() <= s.len(),
    decreases s.len(),
{
    if s.len() > 0 && s[0] == 0 {
        lemma_drop_len(s.drop_first());
    }
}


/// The number an identifier text denotes (as `usize` parsing reads it).
pub open spec fn id_value(id: Seq<char>) -> nat {
    parse_usize_spec(id)->0
}

/// The bytes `parse_element_to_bytes` writes for an element: its identifier
/// as a variable-length integer, then, for a master element, the size field
/// of its children's bytes and those bytes, and for any other element the
/// bytes of its value.
pub open spec fn element_bytes(e: ElementModel) -> Seq<u8>
    decreases e,
{
    if e.data_type == "m"@ {
        vint_bytes(id_value(e.id)) + master_size_bytes(elements_bytes(e.children).len())
            + elements_bytes(e.children)
    } else {
        vint_bytes(id_value(e.id)) + value_bytes(e.value)
    }
}

/// The bytes of a sequence of elements, one after the other.
pub open spec fn elements_bytes(s: Seq<ElementModel>) -> Seq<u8>
    decreases s,
{
    if s.len() == 0 {
        Seq::empty()
    } else {
        elements_bytes(s.drop_last()) + element_bytes(s.last())
    }
}

/// An element that can be written: its identifier is a `usize` in decimal
/// that `make_vint` can write, a master element's children can be written and
/// take less than `2^56` bytes, and any other element's value can be written.
pub open spec fn element_writable(e: ElementModel) -> bool
    decreases e,
{
    &&& parse_usize_spec(e.id) is Some
    &&& length_encodable(id_value(e.id))
    &&& if e.data_type == "m"@ {
        elements_writable(e.children) && elements_bytes(e.children).len() < pow2(56)
    } else {
        value_encodable(e.value)
    }
}

/// Elements that can all be written.
pub open spec fn elements_writable(s: Seq<ElementModel>) -> bool
    decreases s,
{
    s.len() == 0 || (elements_writable(s.drop_last()) && element_writable(s.last()))
}

proof fn lemma_elements_writable(s: Seq<ElementModel>, i: int)
    requires
        elements_writable(s),
        0 <= i <= s.len(),
    ensures
        elements_writable(s.take(i)),
        i < s.len() ==> element_writable(s[i]),
    decreases s.len(),
{
    if s.len() > 0 {
        if i == s.len() {
            assert(s.take(i) =~= s);
        } else {
            assert(s.drop_last().take(i) =~= s.take(i));
            lemma_elements_writable(s.drop_last(), i);
            if i < s.len() - 1 {
                assert(s.drop_last()[i] == s[i]);
            }
        }
    }
}

impl Element {
    /// The identifier as a variable-length integer.
    fn id_as_vint(&self) -> (r: Vec<u8>)
        requires
            parse_usize_spec(self.id@) is Some,
            length_encodable(id_value(self.id@)),
        ensures
            r@ == vint_bytes(id_value(self.id@)),
    {
        let value_as_u64 = parse_usize(self.id.clone().as_str()).unwrap();
        return make_vint(value_as_u64);
    }

    /// The element's bytes.
    fn parse(&self) -> (r: Vec<u8>)
        requires
            element_writable(self@),
        ensures
            r@ == element_bytes(self@),
    {
        return parse_element_to_bytes(&self);
    }
}

/// Writes an element: its identifier, then for a master element the size
/// field and bytes of its children, and for any other element its value.
pub fn parse_element_to_bytes(element: &Element) -> (collect: Vec<u8>)
    requires
        element_writable(element@),
    ensures
        collect@ == element_bytes(element@),
    decreases element,
{
    let ghost em = element_model(*element);
    let mut collect: Vec<u8> = Vec::new();
    let mut id_bytes = element.id_as_vint();
    collect.append(&mut id_bytes);
    let master: String = "m".to_owned();
    proof {
        lemma_element_models(element.children@);
    }
    if element.data_type == master {
        let mut children: Vec<u8> = Vec::new();
        let mut i: usize = 0;
        while i < element.children.len()
            invariant
                em == element_model(*element),
                em.data_type == "m"@,
                element_writable(em),
                i <= element.children@.len(),
                element_models(element.children@).len() == element.children@.len(),
                forall|j: int|
                    0 <= j < element.children@.len() ==> #[trigger] element_models(
                        element.children@,
                    )[j] == element_model(element.children@[j]),
                children@ =~= elements_bytes(element_models(element.children@).take(i as int)),
            decreases element.children@.len() - i,
        {
            let child = &element.children[i];
            proof {
                lemma_elements_writable(em.children, i as int);
                let t = em.children.take(i as int + 1);
                assert(t.drop_last() =~= em.children.take(i as int));
                assert(t.last() == element_model(*child));
            }
            assert(decreases_to!(element => element.children));
            let mut bytes = parse_element_to_bytes(child);
            children.append(&mut bytes);
            i = i + 1;
        }
        assert(em.children.take(element.children@.len() as int) =~= em.children);
        let mut vint = make_master_vint(children.len());
        collect.append(&mut vint);
        collect.append(&mut children);
    } else {
        let mut value = element.value.vint();
        collect.append(&mut value);
    }
    collect
}

/// The bytes of elements put one after the other are the bytes of each part,
/// one after the other: a document with a header put in front writes the
/// header's bytes, then its own.
pub proof fn law_elements_bytes_concat(a: Seq<ElementModel>, b: Seq<ElementModel>)
    ensures
        elements_bytes(a + b) =~= elements_bytes(a) + elements_bytes(b),
    decreases b.len(),
{
    if b.len() == 0 {
        assert(a + b =~= a);
    } else {
        assert((a + b).drop_last() =~= a + b.drop_last());
        law_elements_bytes_concat(a, b.drop_last());
    }
}

impl Document {
    /// The document's bytes: its elements, one after the other.
    pub fn parse(&mut self) -> (parsed: Vec<u8>)
        requires
            elements_writable(old(self)@),
        ensures
            final(self)@ == old(self)@,
            parsed@ == elements_bytes(old(self)@),
    {
        let ghost models = self@;
        proof {
            lemma_element_models(self.elements@);
        }
        let mut parsed: Vec<u8> = Vec::new();
        let mut i: usize = 0;
        while i < self.elements.len()
            invariant
                models == self@,
                elements_writable(models),
                i <= self.elements@.len(),
                models.len() == self.elements@.len(),
                forall|j: int|
                    0 <= j < self.elements@.len() ==> #[trigger] models[j] == element_model(
                        self.elements@[j],
                    ),
                parsed@ =~= elements_bytes(models.take(i as int)),
            decreases self.elements@.len() - i,
        {
            let element = &self.elements[i];
            proof {
                lemma_elements_writable(models, i as int);
                let t = models.take(i as int + 1);
                assert(t.drop_last() =~= models.take(i as int));
                assert(t.last() == element_model(*element));
            }
            let mut bytes = element.parse();
            parsed.append(&mut bytes);
            i = i + 1;
        }
        assert(models.take(self.elements@.len() as int) =~= models);
        return parsed;
    }
}


pub proof fn lemma_map_models_push(s: Seq<DocumentMapElement>, e: DocumentMapElement)
    ensures
        map_models(s.push(e)) =~= map_models(s).push(map_model(e)),
{
    assert(s.push(e).drop_last() =~= s);
}

/// The value a map shows for an element's value: the size of binary data,
/// null in place of a binary size, any other value as it is.
pub open spec fn map_value(v: ValueModel) -> ValueModel {
    match v {
        ValueModel::Binary(b) => ValueModel::BinaryRep(b.len() as usize),
        ValueModel::BinaryRep(_) => ValueModel::Null,
        _ => v,
    }
}

/// The entries for the children of an element: every child becomes a pool,
/// with the entries of its own children.
pub open spec fn tree_entries(e: ElementModel) -> Seq<MapModel>
    decreases e,
{
    tree_entries_of(e.children)
}

/// The pools for a sequence of children.
pub open spec fn tree_entries_of(s: Seq<ElementModel>) -> Seq<MapModel>
    decreases s,
{
    if s.len() == 0 {
        Seq::empty()
    } else {
        tree_entries_of(s.drop_last()).push(
            MapModel::Pool(s.last().id, s.last().name, map_value(s.last().value), tree_entries(s.last())),
        )
    }
}

/// The entry for a top-level element: a pool when it has children, an entry
/// alone otherwise.
pub open spec fn top_entry(e: ElementModel) -> MapModel {
    if e.children.len() > 0 {
        MapModel::Pool(e.id, e.name, map_value(e.value), tree_entries(e))
    } else {
        MapModel::Only(e.id, e.name, map_value(e.value))
    }
}

/// The map of a document's top-level elements.
pub open spec fn document_map(s: Seq<ElementModel>) -> Seq<MapModel> {
    Seq::new(s.len(), |i: int| top_entry(s[i]))
}

/// The identifier of a map entry.
pub open spec fn entry_id(m: MapModel) -> Seq<char> {
    match m {
        MapModel::Pool(id, _, _, _) => id,
        MapModel::Only(id, _, _) => id,
    }
}

/// The name of a map entry.
pub open spec fn entry_name(m: MapModel) -> Seq<char> {
    match m {
        MapModel::Pool(_, name, _, _) => name,
        MapModel::Only(_, name, _) => name,
    }
}

/// The value a map entry shows.
pub open spec fn entry_value(m: MapModel) -> ValueModel {
    match m {
        MapModel::Pool(_, _, v, _) => v,
        MapModel::Only(_, _, v) => v,
    }
}

/// The entries of a pool's children; none for an entry alone.
pub open spec fn entry_children(m: MapModel) -> Seq<MapModel> {
    match m {
        MapModel::Pool(_, _, _, c) => c,
        MapModel::Only(_, _, _) => Seq::empty(),
    }
}

/// A map entry shows an element: its identifier and name, any value that is
/// not binary exactly as it is, binary data by its length, and null for a
/// binary size.
pub open spec fn entry_shows(m: MapModel, e: ElementModel) -> bool {
    &&& entry_id(m) == e.id
    &&& entry_name(m) == e.name
    &&& (e.value matches ValueModel::Binary(b) ==> entry_value(m) == ValueModel::BinaryRep(
        b.len() as usize,
    ))
    &&& (e.value is BinaryRep ==> entry_value(m) == ValueModel::Null)
    &&& (!(e.value is Binary) && !(e.value is BinaryRep) ==> entry_value(m) == e.value)
}

proof fn lemma_tree_entries_of(s: Seq<ElementModel>)
    ensures
        tree_entries_of(s).len() == s.len(),
        forall|j: int|
            0 <= j < s.len() ==> #[trigger] tree_entries_of(s)[j] == MapModel::Pool(
                s[j].id,
                s[j].name,
                map_value(s[j].value),
                tree_entries(s[j]),
            ),
    decreases s.len(),
{
    if s.len() > 0 {
        lemma_tree_entries_of(s.drop_last());
        assert forall|j: int| 0 <= j < s.len() implies #[trigger] tree_entries_of(s)[j]
            == MapModel::Pool(s[j].id, s[j].name, map_value(s[j].value), tree_entries(s[j])) by {
            if j < s.len() - 1 {
                assert(s.drop_last()[j] == s[j]);
            }
        }
    }
}

/// The entries for an element's children: one for each child, in order, each
/// a pool that shows the child (its identifier, name and value, binary data
/// by its length) and holds the entries for the child's own children.
pub proof fn law_tree_entries_show(e: ElementModel)
    ensures
        tree_entries(e).len() == e.children.len(),
        forall|j: int|
            0 <= j < e.children.len() ==> {
                &&& #[trigger] tree_entries(e)[j] is Pool
                &&& entry_shows(tree_entries(e)[j], e.children[j])
                &&& entry_children(tree_entries(e)[j]) == tree_entries(e.children[j])
            },
{
    lemma_tree_entries_of(e.children);
}

/// A document's map: one entry for each top-level element, in order, that
/// shows the element (its identifier, name and value, binary data by its
/// length); an element with children gets a pool holding the entries for
/// its children, any other an entry alone.
pub proof fn law_map_shows_elements(s: Seq<ElementModel>)
    ensures
        document_map(s).len() == s.len(),
        forall|i: int|
            0 <= i < s.len() ==> {
                &&& entry_shows(#[trigger] document_map(s)[i], s[i])
                &&& (document_map(s)[i] is Pool <==> s[i].children.len() > 0)
                &&& (s[i].children.len() > 0 ==> entry_children(document_map(s)[i]) == tree_entries(
                    s[i],
                ))
            },
{
}

/// The value a map shows for an element's value.
fn map_value_of(value: &ElementValue) -> (r: ElementValue)
    ensures
        r@ == map_value(value@),
{
    match value {
        ElementValue::F64(_) => value.clone(),
        ElementValue::I64(_) => value.clone(),
        ElementValue::U64(_) => value.clone(),
        ElementValue::String(_) => value.clone(),
        ElementValue::Binary(v) => ElementValue::BinaryRep(v.len()),
        ElementValue::Null => value.clone(),
        _ => ElementValue::Null,
    }
}

/// The entries for the children of `element`. Each child becomes a pool,
/// since `element` has children whenever it has a child to map.
pub fn get_id_from_element_tree(element: &Element) -> (collect: Vec<DocumentMapElement>)
    ensures
        map_models(collect@) =~= tree_entries(element@),
    decreases element,
{
    let mut collect: Vec<DocumentMapElement> = Vec::new();
    proof {
        lemma_element_models(element.children@);
    }
    let ghost cs = element_models(element.children@);
    let mut i: usize = 0;
    while i < element.children.len()
        invariant
            cs == element_models(element.children@),
            cs == element_model(*element).children,
            i <= element.children@.len(),
            cs.len() == element.children@.len(),
            forall|j: int|
                0 <= j < element.children@.len() ==> #[trigger] cs[j] == element_model(
                    element.children@[j],
                ),
            map_models(collect@) =~= tree_entries_of(cs.take(i as int)),
        decreases element.children@.len() - i,
    {
        let child = &element.children[i];
        let value = map_value_of(&child.value);
        assert(decreases_to!(element => element.children));
        let entry = if element.children.len() > 0 {
            DocumentMapElement::Pool(
                ElementWithChildren {
                    id: child.id.clone(),
                    name: child.name.clone(),
                    value: value,
                    children: get_id_from_element_tree(child),
                },
            )
        } else {
            DocumentMapElement::Only(
                ElementWithOutChildren {
                    id: child.id.clone(),
                    name: child.name.clone(),
                    value: value,
                },
            )
        };
        let ghost before = collect@;
        collect.push(entry);
        proof {
            lemma_map_models_push(before, entry);
            let t = cs.take(i as int + 1);
            assert(t.drop_last() =~= cs.take(i as int));
            assert(t.last() == element_model(*child));
        }
        i = i + 1;
    }
    assert(cs.take(element.children@.len() as int) =~= cs);
    collect
}

impl Document {
    /// A map of the document: for each top-level element its identifier, name
    /// and value (binary data by its size), with the entries of its children
    /// when it has any.
    pub fn get_map(&self) -> (m: DocumentMap)
        ensures
            m@ =~= document_map(self@),
    {
        let ghost models = self@;
        proof {
            lemma_element_models(self.elements@);
        }
        let mut collect: Vec<DocumentMapElement> = Vec::new();
        let mut i: usize = 0;
        while i < self.elements.len()
            invariant
                models == self@,
                i <= self.elements@.len(),
                models.len() == self.elements@.len(),
                forall|j: int|
                    0 <= j < self.elements@.len() ==> #[trigger] models[j] == element_model(
                        self.elements@[j],
                    ),
                map_models(collect@) =~= document_map(models.take(i as int)),
            decreases self.elements@.len() - i,
        {
            let element = &self.elements[i];
            let value = map_value_of(&element.value);
            proof {
                lemma_element_models(element.children@);
            }
            let entry = if element.children.len() > 0 {
                DocumentMapElement::Pool(
                    ElementWithChildren {
                        id: element.id.clone(),
                        name: element.name.clone(),
                        value: value,
                        children: get_id_from_element_tree(&element),
                    },
                )
            } else {
                DocumentMapElement::Only(
                    ElementWithOutChildren {
                        id: element.id.clone(),
                        name: element.name.clone(),
                        value: value,
                    },
                )
            };
            let ghost before = collect@;
            collect.push(entry);
            proof {
                lemma_map_models_push(before, entry);
                assert(models[i as int] == element_model(*element));
                assert(document_map(models.take(i as int + 1)) =~= document_map(
                    models.take(i as int),
                ).push(top_entry(models[i as int])));
            }
            i = i + 1;
        }
        assert(models.take(self.elements@.len() as int) =~= models);
        return DocumentMap { map: collect };
    }
}


/// The payload bytes of a number: one to eight of them.
proof fn lemma_number_payload(x: nat, strip: bool)
    requires
        x < pow2(64),
        strip ==> x > 0,
    ensures
        ({
            let s = if strip {
                drop_leading_zeros(be_bytes(x, 8))
            } else {
                be_bytes(x, 8)
            };
            &&& 1 <= s.len() <= 8
            &&& be_value(s) == x
        }),
{
    lemma_number_len(x);
    lemma_be_bytes_value(x, 8);
    vstd::arithmetic::div_mod::lemma_small_mod(x, pow2(64));
    lemma_drop_leading_zeros_value(be_bytes(x, 8));
    if strip && drop_leading_zeros(be_bytes(x, 8)).len() == 0 {
        assert(drop_leading_zeros(be_bytes(x, 8)) =~= Seq::<u8>::empty());
        assert(be_value(Seq::<u8>::empty()) == 0);
    }
}

/// A size field followed by exactly that many bytes reads back as the size,
/// and the bytes follow it.
proof fn lemma_sized_roundtrip(d: Seq<u8>)
    requires
        d.len() + 1 < pow2(56),
        zeros_only_leading(be_bytes(d.len(), 8)),
    ensures
        ({
            let b = sized_bytes(d);
            let n = read_v_int_spec(b, 0, true).0;
            let start = read_v_int_spec(b, 0, true).1;
            &&& vint_readable(b, 0)
            &&& n == d.len()
            &&& start + n == b.len()
            &&& b.subrange(start, start + n) == d
        }),
{
    law_size_roundtrip(d.len());
    lemma_vint_prefix(vint_bytes(d.len()), d, true);
    let b = sized_bytes(d);
    let start = vint_bytes(d.len()).len() as int;
    assert(b.subrange(start, start + d.len()) =~= d);
}

/// Small counts have no zero byte among their significant bytes.
proof fn lemma_small_count(n: nat)
    requires
        n < 256,
    ensures
        zeros_only_leading(be_bytes(n, 8)),
        n + 1 < pow2(56),
{
    lemma_small_be_bytes(n);
    let s = be_bytes(n, 8);
    assert forall|i: int, j: int| 0 <= j < i < s.len() && s[i] == 0 implies s[j] == 0 by {
        assert(j < 7);
    }
    lemma2_to64();
    vstd::arithmetic::power2::lemma_pow2_strictly_increases(8, 56);
}

/// The bytes a value writes after its size field: the big-endian bytes of a
/// number (without leading zero bytes when it is above zero), binary data as
/// it is, text as UTF-8.
pub open spec fn value_payload(v: ValueModel) -> Seq<u8> {
    match v {
        ValueModel::U64(x) => if x > 0 {
            drop_leading_zeros(be_bytes(x as nat, 8))
        } else {
            be_bytes(x as nat, 8)
        },
        ValueModel::I64(x) => if x > 0 {
            drop_leading_zeros(be_bytes((x as u64) as nat, 8))
        } else {
            be_bytes((x as u64) as nat, 8)
        },
        ValueModel::F64(bits) => if float_is_positive(bits) {
            drop_leading_zeros(be_bytes(bits as nat, 8))
        } else {
            be_bytes(bits as nat, 8)
        },
        ValueModel::Binary(b) => b,
        ValueModel::Text(t) => encode_utf8(t),
        _ => Seq::empty(),
    }
}

/// What a value writes is a size field and then as many bytes, its payload,
/// and those bytes give the value back as the reader decodes data of the
/// value's type: a number from its big-endian bytes (signed numbers as two's
/// complement, floats by their bits) in at most eight bytes, binary data as
/// it is, text by UTF-8. Binary data and text qualify when their byte count
/// has no zero byte among its significant bytes and stays below `2^56 - 1`.
pub proof fn law_value_roundtrip(v: ValueModel)
    requires
        v is U64 || v is I64 || v is F64 || v is Binary || v is Text,
        v matches ValueModel::Binary(d) ==> d.len() + 1 < pow2(56) && zeros_only_leading(
            be_bytes(d.len(), 8),
        ),
        v matches ValueModel::Text(t) ==> encode_utf8(t).len() + 1 < pow2(56) && zeros_only_leading(
            be_bytes(encode_utf8(t).len(), 8),
        ),
    ensures
        ({
            let b = value_bytes(v);
            let n = read_v_int_spec(b, 0, true).0;
            let start = read_v_int_spec(b, 0, true).1;
            let body = b.subrange(start, start + n);
            &&& vint_readable(b, 0)
            &&& start + n == b.len()
            &&& body == value_payload(v)
            &&& (v is U64 || v is I64 || v is F64 ==> n <= 8)
            &&& (v matches ValueModel::U64(x) ==> be_value(body) == x)
            &&& (v matches ValueModel::I64(x) ==> signed_of(be_value(body)) == x)
            &&& (v matches ValueModel::F64(x) ==> be_value(body) == x)
            &&& (v matches ValueModel::Binary(d) ==> body == d)
            &&& (v matches ValueModel::Text(t) ==> valid_utf8(body) && decode_utf8(body) == t)
        }),
{
    lemma2_to64_rest();
    match v {
        ValueModel::U64(x) => {
            lemma_number_payload(x as nat, x > 0);
            let s = if x > 0 { drop_leading_zeros(be_bytes(x as nat, 8)) } else { be_bytes(x as nat, 8) };
            lemma_small_count(s.len());
            lemma_sized_roundtrip(s);
        },
        ValueModel::I64(x) => {
            let u = (x as u64) as nat;
            assert(x > 0 ==> u > 0) by {
                if x > 0 {
                    assert(x > 0 ==> (x as u64) as int == x as int) by (bit_vector);
                }
            }
            lemma_number_payload(u, x > 0);
            let s = if x > 0 { drop_leading_zeros(be_bytes(u, 8)) } else { be_bytes(u, 8) };
            lemma_small_count(s.len());
            lemma_sized_roundtrip(s);
            assert(x >= 0 ==> (x as u64) as int == x as int) by (bit_vector);
            assert(x < 0 ==> (x as u64) as int == x as int + 0x1_0000_0000_0000_0000) by (bit_vector);
            vstd::arithmetic::power2::lemma2_to64();
        },
        ValueModel::F64(x) => {
            lemma_number_payload(x as nat, float_is_positive(x));
            let s = if float_is_positive(x) { drop_leading_zeros(be_bytes(x as nat, 8)) } else { be_bytes(x as nat, 8) };
            lemma_small_count(s.len());
            lemma_sized_roundtrip(s);
        },
        ValueModel::Binary(d) => {
            lemma_sized_roundtrip(d);
        },
        ValueModel::Text(t) => {
            lemma_sized_roundtrip(encode_utf8(t));
            vstd::utf8::encode_utf8_valid_utf8(t);
            vstd::utf8::encode_utf8_decode_utf8(t);
        },
        _ => {},
    }
}


/// Whether an element can be written.
pub fn element_is_writable(element: &Element) -> (b: bool)
    ensures
        b == element_writable(element@),
    decreases element,
{
    let id = match parse_usize(element.id.as_str()) {
        Some(v) => v,
        None => {
            return false;
        },
    };
    if !payload_fits(id) {
        return false;
    }
    let ghost em = element_model(*element);
    let master: String = "m".to_owned();
    proof {
        lemma_element_models(element.children@);
        lemma2_to64_rest();
    }
    if element.data_type == master {
        let mut total: u64 = 0;
        let mut i: usize = 0;
        while i < element.children.len()
            invariant
                em == element_model(*element),
                i <= element.children@.len(),
                element_models(element.children@).len() == element.children@.len(),
                forall|j: int|
                    0 <= j < element.children@.len() ==> #[trigger] element_models(
                        element.children@,
                    )[j] == element_model(element.children@[j]),
                elements_writable(em.children.take(i as int)),
                total == elements_bytes(em.children.take(i as int)).len(),
                total < pow2(56),
                pow2(56) == 0x100_0000_0000_0000,
                element.data_type@ == "m"@,
                em.children == element_models(element.children@),
                em.id == element.id@,
                parse_usize_spec(em.id) is Some,
                length_encodable(id_value(em.id)),
            decreases element.children@.len() - i,
        {
            let child = &element.children[i];
            let ghost t = em.children.take(i as int + 1);
            assert(t.drop_last() =~= em.children.take(i as int));
            assert(t.last() == element_model(*child));
            assert(decreases_to!(element => element.children));
            if !element_is_writable(child) {
                proof {
                    if elements_writable(em.children) {
                        lemma_elements_writable(em.children, i as int);
                    }
                }
                return false;
            }
            let bytes = parse_element_to_bytes(child);
            assert(elements_bytes(t) == elements_bytes(t.drop_last()) + element_bytes(t.last()));
            assert(elements_bytes(t).len() == total + bytes@.len());
            if bytes.len() as u64 >= 0x100_0000_0000_0000u64 - total {
                proof {
                    lemma_elements_bytes_prefix(em.children, i as int + 1);
                }
                return false;
            }
            total = total + bytes.len() as u64;
            i = i + 1;
        }
        assert(em.children.take(element.children@.len() as int) =~= em.children);
        true
    } else {
        match &element.value {
            ElementValue::Binary(v) => payload_fits(v.len()),
            ElementValue::String(t) => payload_fits(t.as_str().as_bytes().len()),
            _ => true,
        }
    }
}

/// The bytes of a prefix of a sequence of elements are at most those of the
/// whole.
proof fn lemma_elements_bytes_prefix(s: Seq<ElementModel>, i: int)
    requires
        0 <= i <= s.len(),
    ensures
        elements_bytes(s.take(i)).len() <= elements_bytes(s).len(),
    decreases s.len(),
{
    if i < s.len() {
        assert(s.drop_last().take(i) =~= s.take(i));
        lemma_elements_bytes_prefix(s.drop_last(), i);
    } else {
        assert(s.take(i) =~= s);
    }
}

/// Whether every element of a document can be written.
pub fn document_is_writable(doc: &Document) -> (b: bool)
    ensures
        b == elements_writable(doc@),
{
    let ghost models = doc@;
    proof {
        lemma_element_models(doc.elements@);
    }
    let mut i: usize = 0;
    while i < doc.elements.len()
        invariant
            models == doc@,
            i <= doc.elements@.len(),
            models.len() == doc.elements@.len(),
            forall|j: int|
                0 <= j < doc.elements@.len() ==> #[trigger] models[j] == element_model(
                    doc.elements@[j],
                ),
            elements_writable(models.take(i as int)),
        decreases doc.elements@.len() - i,
    {
        let element = &doc.elements[i];
        let ghost t = models.take(i as int + 1);
        assert(t.drop_last() =~= models.take(i as int));
        assert(t.last() == element_model(*element));
        if !element_is_writable(element) {
            proof {
                if elements_writable(models) {
                    lemma_elements_writable(models, i as int);
                }
            }
            return false;
        }
        i = i + 1;
    }
    assert(models.take(doc.elements@.len() as int) =~= models);
    true
}

} // verus!
