//! Reading back what was written: elements that agree with the schema come
//! back from their own bytes exactly as they went in.

use vstd::prelude::*;
use vstd::arithmetic::power2::{lemma2_to64, lemma2_to64_rest, lemma_pow2_strictly_increases, pow2};
use vstd::utf8::encode_utf8;
use crate::ebml::{
    after_element, decode_element, element_body, element_bytes, element_readable, element_writable,
    elements_bytes, elements_readable, elements_writable, header_end, header_ok, header_size,
    header_tag, headers_readable, id_value, decoded_value, schema_numeric, law_value_roundtrip, length_encodable, parse_elements,
    raw_element, schema_field, schema_type_is, value_bytes, value_payload, ElementModel, ValueModel,
};
use crate::numbers::{decimal_repr, parse_usize_spec};
use crate::schema::JsonModel;
use crate::vint::{
    be_bytes, law_master_size_roundtrip, law_size_roundtrip, law_vint_payload_exact, law_vint_roundtrip,
    lemma_vint_prefix, master_size_bytes, read_v_int_spec, vint_bytes, vint_payload, vint_readable,
    vint_unknown_size, vint_width, zeros_only_leading,
};

verus! {

/// An identifier that reads back as written: the decimal text of a number
/// from one to below `2^56` whose significant bytes hold no zero byte.
pub open spec fn id_reads_back(id: Seq<char>) -> bool {
    &&& parse_usize_spec(id) is Some
    &&& id == decimal_repr(id_value(id))
    &&& 1 <= id_value(id) < pow2(56)
    &&& zeros_only_leading(be_bytes(id_value(id), 8))
}

/// A byte count that a size field gives back: below `2^56 - 1`, with no zero
/// byte among its significant bytes.
pub open spec fn count_reads_back(n: nat) -> bool {
    n + 1 < pow2(56) && zeros_only_leading(be_bytes(n, 8))
}

/// A value of the kind that the schema's data type for `id` reads: an
/// unsigned, signed or float number, binary data or text, the last two with
/// a byte count that reads back.
pub open spec fn value_fits_type(sm: JsonModel, id: Seq<char>, v: ValueModel) -> bool {
    match v {
        ValueModel::U64(_) => schema_type_is(sm, id, "u"@),
        ValueModel::I64(_) => schema_type_is(sm, id, "s"@),
        ValueModel::F64(_) => schema_type_is(sm, id, "f"@),
        ValueModel::Binary(d) => schema_type_is(sm, id, "b"@) && count_reads_back(d.len()),
        ValueModel::Text(t) => schema_type_is(sm, id, "8"@) && count_reads_back(
            encode_utf8(t).len(),
        ),
        _ => false,
    }
}

/// A value whose written bytes read back: a number, or binary data or text
/// whose byte count reads back.
pub open spec fn value_reads_back(v: ValueModel) -> bool {
    match v {
        ValueModel::U64(_) => true,
        ValueModel::I64(_) => true,
        ValueModel::F64(_) => true,
        ValueModel::Binary(d) => count_reads_back(d.len()),
        ValueModel::Text(t) => count_reads_back(encode_utf8(t).len()),
        _ => false,
    }
}

/// The bytes that follow an element's size field once written: the bytes of
/// a master element's children, or the payload of any other element's value.
pub open spec fn written_body(e: ElementModel) -> Seq<u8> {
    if e.data_type == "m"@ {
        elements_bytes(e.children)
    } else {
        value_payload(e.value)
    }
}

/// The number of bytes that follow an element's size field once written.
pub open spec fn written_size(e: ElementModel) -> nat {
    written_body(e).len()
}

/// An element whose header reads back once written: its identifier reads
/// back, and either it is written as a master element whose children take
/// less than 256 bytes, or its value reads back.
pub open spec fn header_reads_back(e: ElementModel) -> bool {
    &&& id_reads_back(e.id)
    &&& if e.data_type == "m"@ {
        elements_bytes(e.children).len() < 256
    } else {
        value_reads_back(e.value)
    }
}

/// An element as the reader makes it from its written bytes: its identifier
/// reads back, it keeps no data, its name and data type are those the schema
/// gives, its size is what it writes, and either the schema makes it a
/// master element without value whose children read back and take less than
/// 256 bytes, or it has no children and a value of its data type.
pub open spec fn element_reads_back(e: ElementModel, sm: JsonModel) -> bool
    decreases e,
{
    &&& id_reads_back(e.id)
    &&& e.data.len() == 0
    &&& e.name == schema_field(sm, e.id, "name"@)
    &&& e.data_type == schema_field(sm, e.id, "type"@)
    &&& e.size == written_size(e)
    &&& if schema_type_is(sm, e.id, "m"@) {
        &&& e.value == ValueModel::Null
        &&& elements_read_back(e.children, sm)
        &&& elements_bytes(e.children).len() < 256
    } else {
        &&& e.children.len() == 0
        &&& value_fits_type(sm, e.id, e.value)
    }
}

/// Elements that all read back.
pub open spec fn elements_read_back(s: Seq<ElementModel>, sm: JsonModel) -> bool
    decreases s,
{
    s.len() == 0 || (elements_read_back(s.drop_last(), sm) && element_reads_back(s.last(), sm))
}

/// Bytes in front of a whole variable-length integer move it, and change
/// nothing else of it.
proof fn lemma_vint_shift(a: Seq<u8>, b: Seq<u8>, read_empty: bool)
    requires
        vint_readable(b, 0),
    ensures
        vint_readable(a + b, a.len() as int),
        read_v_int_spec(a + b, a.len() as int, read_empty) == (
            read_v_int_spec(b, 0, read_empty).0,
            a.len() + read_v_int_spec(b, 0, read_empty).1,
        ),
{
    let at = a.len() as int;
    let ab = a + b;
    let w = vint_width(b[0]) as int;
    assert(ab[at] == b[0]);
    assert(ab.subrange(at, at + w + 1) =~= b.subrange(0, w + 1));
    if b[0] == 1 {
        assert forall|i: int| at < i <= at + 7 implies ab[i] == b[i - at] by {}
        assert(vint_unknown_size(ab, at) == vint_unknown_size(b, 0)) by {
            if vint_unknown_size(b, 0) {
                assert forall|i: int| at < i <= at + 7 implies ab[i] == 255 by {
                    assert(b[i - at] == 255);
                }
            }
            if vint_unknown_size(ab, at) {
                assert forall|i: int| 0 < i <= 7 implies b[i] == 255 by {
                    assert(ab[i + at] == 255);
                }
            }
        }
    }
}

/// The schema's data type for an element decides how it is written: as a
/// master element exactly when the schema makes it one.
proof fn lemma_written_as_master(e: ElementModel, sm: JsonModel)
    requires
        e.data_type == schema_field(sm, e.id, "type"@),
        schema_type_is(sm, e.id, "m"@) || value_fits_type(sm, e.id, e.value),
    ensures
        (e.data_type == "m"@) == schema_type_is(sm, e.id, "m"@),
{
    reveal_strlit("m");
    reveal_strlit("u");
    reveal_strlit("s");
    reveal_strlit("f");
    reveal_strlit("b");
    reveal_strlit("8");
}

/// The strings that name the schema's data types are not one another.
proof fn lemma_type_names()
    ensures
        "m"@ != "u"@,
        "m"@ != "s"@,
        "m"@ != "f"@,
        "m"@ != "b"@,
        "m"@ != "8"@,
        "u"@ != "s"@,
        "u"@ != "f"@,
        "u"@ != "b"@,
        "u"@ != "8"@,
        "s"@ != "f"@,
        "s"@ != "b"@,
        "s"@ != "8"@,
        "f"@ != "b"@,
        "f"@ != "8"@,
        "b"@ != "8"@,
{
    reveal_strlit("m");
    reveal_strlit("u");
    reveal_strlit("s");
    reveal_strlit("f");
    reveal_strlit("b");
    reveal_strlit("8");
    assert("m"@[0] != "u"@[0]);
    assert("m"@[0] != "s"@[0]);
    assert("m"@[0] != "f"@[0]);
    assert("m"@[0] != "b"@[0]);
    assert("m"@[0] != "8"@[0]);
    assert("u"@[0] != "s"@[0]);
    assert("u"@[0] != "f"@[0]);
    assert("u"@[0] != "b"@[0]);
    assert("u"@[0] != "8"@[0]);
    assert("s"@[0] != "f"@[0]);
    assert("s"@[0] != "b"@[0]);
    assert("s"@[0] != "8"@[0]);
    assert("f"@[0] != "b"@[0]);
    assert("f"@[0] != "8"@[0]);
    assert("b"@[0] != "8"@[0]);
}

/// The identifier of an element that reads back: written, it reads back as
/// its number, and `make_vint` can write it.
proof fn lemma_id_read_back(id: Seq<char>)
    requires
        id_reads_back(id),
    ensures
        length_encodable(id_value(id)),
        vint_readable(vint_bytes(id_value(id)), 0),
        read_v_int_spec(vint_bytes(id_value(id)), 0, false) == (
            id_value(id),
            vint_bytes(id_value(id)).len() as int,
        ),
{
    lemma2_to64();
    lemma2_to64_rest();
    lemma_pow2_strictly_increases(56, 63);
    lemma_pow2_strictly_increases(56, 64);
    let k = id_value(id);
    law_vint_payload_exact(k);
    law_vint_roundtrip(k);
}

/// One element written in front of any bytes, read with `read_element`:
/// its header reads back, the raw element has the element's identifier, the
/// size and bytes written after its size field (a master element's children
/// bytes, any other element's value payload), and what follows is exactly
/// the bytes that were behind it.
pub proof fn law_read_element_written(e: ElementModel, rest: Seq<u8>)
    requires
        header_reads_back(e),
    ensures
        header_ok(element_bytes(e) + rest),
        header_tag(element_bytes(e) + rest) == id_value(e.id),
        raw_element(element_bytes(e) + rest) == (ElementModel {
            id: e.id,
            size: written_size(e) as u64,
            data: written_body(e),
            children: Seq::empty(),
            value: ValueModel::Null,
            name: Seq::empty(),
            data_type: Seq::empty(),
        }),
        after_element(element_bytes(e) + rest) == rest,
{
    lemma_id_read_back(e.id);
    lemma2_to64();
    lemma_pow2_strictly_increases(8, 56);
    let k = id_value(e.id);
    let idb = vint_bytes(k);
    let data = element_bytes(e) + rest;
    let body = written_body(e);
    if e.data_type == "m"@ {
        let l = body.len();
        let szb = master_size_bytes(l);
        law_master_size_roundtrip(l);
        let tail = szb + (body + rest);
        assert(data =~= idb + tail);
        lemma_vint_prefix(idb, tail, false);
        lemma_vint_prefix(szb, body + rest, true);
        lemma_vint_shift(idb, tail, true);
        assert(header_end(data) == idb.len() + 8);
        assert(header_size(data) == l);
    } else {
        let v = e.value;
        let vb = value_bytes(v);
        law_value_roundtrip(v);
        let tail = vb + rest;
        assert(data =~= idb + tail);
        lemma_vint_prefix(idb, tail, false);
        lemma_vint_prefix(vb, rest, true);
        lemma_vint_shift(idb, tail, true);
        let start = read_v_int_spec(vb, 0, true).1;
        let n = read_v_int_spec(vb, 0, true).0;
        assert(n == body.len());
        assert(header_end(data) == idb.len() + start);
        assert(header_size(data) == n);
        assert(data.subrange(idb.len() + start, idb.len() + start + n) =~= vb.subrange(
            start,
            start + n,
        ));
    }
    assert(header_tag(data) == k);
    assert(header_ok(data));
    assert(element_body(data) =~= body);
    assert(after_element(data) =~= rest);
    assert(raw_element(data).data == body);
}

/// An element that reads back, written in front of any bytes: the reader
/// takes the element back from its bytes and goes on with what follows.
proof fn lemma_element_read_back(e: ElementModel, sm: JsonModel, rest: Seq<u8>)
    requires
        element_reads_back(e, sm),
    ensures
        element_writable(e),
        headers_readable(element_bytes(e) + rest) == headers_readable(rest),
        elements_readable(element_bytes(e) + rest, sm) == elements_readable(rest, sm),
        parse_elements(element_bytes(e) + rest, sm) == seq![e] + parse_elements(rest, sm),
    decreases e, 2nat,
{
    lemma_type_names();
    if schema_type_is(sm, e.id, "m"@) {
        lemma_master_read_back(e, sm, rest);
    } else {
        lemma_value_read_back(e, sm, rest);
    }
}

/// A master element that reads back, written in front of any bytes.
proof fn lemma_master_read_back(e: ElementModel, sm: JsonModel, rest: Seq<u8>)
    requires
        element_reads_back(e, sm),
        schema_type_is(sm, e.id, "m"@),
    ensures
        element_writable(e),
        headers_readable(element_bytes(e) + rest) == headers_readable(rest),
        elements_readable(element_bytes(e) + rest, sm) == elements_readable(rest, sm),
        parse_elements(element_bytes(e) + rest, sm) == seq![e] + parse_elements(rest, sm),
    decreases e, 1nat,
{
    lemma_type_names();
    lemma_written_as_master(e, sm);
    lemma_id_read_back(e.id);
    lemma2_to64();
    lemma_pow2_strictly_increases(8, 56);
    let data = element_bytes(e) + rest;
    let cb = elements_bytes(e.children);
    assert(decreases_to!(e => e.children));
    lemma_elements_read_back(e.children, sm, Seq::empty());
    assert(cb + Seq::<u8>::empty() =~= cb);
    assert(e.children + Seq::<ElementModel>::empty() =~= e.children);
    law_read_element_written(e, rest);
    let raw = raw_element(data);
    assert(raw.id == e.id);
    assert(raw.data == cb);
    assert(element_readable(raw, sm));
    assert(decode_element(raw, sm) =~= e);
}

/// A count that reads back can be written.
proof fn lemma_count_encodable(n: nat)
    requires
        count_reads_back(n),
    ensures
        length_encodable(n),
{
    lemma2_to64_rest();
    lemma_pow2_strictly_increases(56, 63);
    lemma_pow2_strictly_increases(56, 64);
    law_vint_payload_exact(n);
}

/// The payload a value writes decodes, by the data type of its kind, back to
/// the value, and a number's payload takes at most eight bytes.
proof fn lemma_payload_decodes(sm: JsonModel, id: Seq<char>, v: ValueModel)
    requires
        value_fits_type(sm, id, v),
    ensures
        decoded_value(sm, id, value_payload(v)) == v,
        schema_numeric(sm, id) ==> value_payload(v).len() <= 8,
        !schema_type_is(sm, id, "m"@),
{
    lemma_type_names();
    law_value_roundtrip(v);
}

/// An element with a value that reads back, written in front of any bytes.
proof fn lemma_value_read_back(e: ElementModel, sm: JsonModel, rest: Seq<u8>)
    requires
        element_reads_back(e, sm),
        !schema_type_is(sm, e.id, "m"@),
    ensures
        element_writable(e),
        headers_readable(element_bytes(e) + rest) == headers_readable(rest),
        elements_readable(element_bytes(e) + rest, sm) == elements_readable(rest, sm),
        parse_elements(element_bytes(e) + rest, sm) == seq![e] + parse_elements(rest, sm),
{
    lemma_written_as_master(e, sm);
    lemma_id_read_back(e.id);
    let data = element_bytes(e) + rest;
    let v = e.value;
    lemma_payload_decodes(sm, e.id, v);
    assert(value_reads_back(v));
    law_read_element_written(e, rest);
    let raw = raw_element(data);
    assert(raw.id == e.id);
    assert(raw.data == value_payload(v));
    assert(element_readable(raw, sm));
    let d = decode_element(raw, sm);
    assert(d.value == v);
    assert(d.size == e.size);
    assert(d.children =~= e.children);
    assert(d.data =~= e.data);
    assert(d =~= e);
    match v {
        ValueModel::Binary(b) => lemma_count_encodable(b.len()),
        ValueModel::Text(t) => lemma_count_encodable(encode_utf8(t).len()),
        _ => {},
    }
}

/// Elements that read back, written in front of any bytes: the reader takes
/// them back one by one and goes on with what follows.
proof fn lemma_elements_read_back(s: Seq<ElementModel>, sm: JsonModel, rest: Seq<u8>)
    requires
        elements_read_back(s, sm),
    ensures
        elements_writable(s),
        headers_readable(elements_bytes(s) + rest) == headers_readable(rest),
        elements_readable(elements_bytes(s) + rest, sm) == elements_readable(rest, sm),
        parse_elements(elements_bytes(s) + rest, sm) == s + parse_elements(rest, sm),
    decreases s, 3nat,
{
    if s.len() == 0 {
        assert(elements_bytes(s) + rest =~= rest);
        assert(s + parse_elements(rest, sm) =~= parse_elements(rest, sm));
    } else {
        let s0 = s.drop_last();
        let e = s.last();
        let x = element_bytes(e) + rest;
        lemma_element_read_back(e, sm, rest);
        lemma_elements_read_back(s0, sm, x);
        assert(elements_bytes(s) + rest =~= elements_bytes(s0) + x);
        assert(s0 + (seq![e] + parse_elements(rest, sm)) =~= s + parse_elements(rest, sm));
    }
}

/// A master element of any size, its header written with its identifier and
/// a size field that holds the byte count of its children (written as
/// `make_vint` writes a count), then its children's bytes, in front of any
/// bytes: reading by the schema gives the element back with all its
/// children, however many bytes they take, and goes on with what follows.
pub proof fn law_master_of_any_size_reads_back(e: ElementModel, sm: JsonModel, rest: Seq<u8>)
    requires
        id_reads_back(e.id),
        schema_type_is(sm, e.id, "m"@),
        e.data.len() == 0,
        e.value == ValueModel::Null,
        e.name == schema_field(sm, e.id, "name"@),
        e.data_type == schema_field(sm, e.id, "type"@),
        elements_read_back(e.children, sm),
        count_reads_back(elements_bytes(e.children).len()),
        e.size == elements_bytes(e.children).len(),
    ensures
        ({
            let bytes = vint_bytes(id_value(e.id)) + vint_bytes(elements_bytes(e.children).len())
                + elements_bytes(e.children) + rest;
            &&& headers_readable(bytes) == headers_readable(rest)
            &&& elements_readable(bytes, sm) == elements_readable(rest, sm)
            &&& parse_elements(bytes, sm) == seq![e] + parse_elements(rest, sm)
        }),
{
    lemma_id_read_back(e.id);
    let k = id_value(e.id);
    let idb = vint_bytes(k);
    let cb = elements_bytes(e.children);
    let l = cb.len();
    let szb = vint_bytes(l);
    law_size_roundtrip(l);
    lemma_elements_read_back(e.children, sm, Seq::empty());
    assert(cb + Seq::<u8>::empty() =~= cb);
    assert(e.children + Seq::<ElementModel>::empty() =~= e.children);
    let data = idb + szb + cb + rest;
    let tail = szb + (cb + rest);
    assert(data =~= idb + tail);
    lemma_vint_prefix(idb, tail, false);
    lemma_vint_prefix(szb, cb + rest, true);
    lemma_vint_shift(idb, tail, true);
    assert(header_tag(data) == k);
    assert(header_end(data) == idb.len() + szb.len());
    assert(header_size(data) == l);
    assert(header_ok(data));
    assert(element_body(data) =~= cb);
    assert(after_element(data) =~= rest);
    let raw = raw_element(data);
    assert(raw.id == e.id);
    assert(element_readable(raw, sm));
    assert(decode_element(raw, sm) =~= e);
}

/// Elements that agree with the schema (see `element_reads_back`) can be
/// written, and reading their bytes by the schema gives them back exactly,
/// without fault.
pub proof fn law_read_back_written(s: Seq<ElementModel>, sm: JsonModel)
    requires
        elements_read_back(s, sm),
    ensures
        elements_writable(s),
        headers_readable(elements_bytes(s)),
        elements_readable(elements_bytes(s), sm),
        parse_elements(elements_bytes(s), sm) == s,
{
    lemma_elements_read_back(s, sm, Seq::empty());
    assert(elements_bytes(s) + Seq::<u8>::empty() =~= elements_bytes(s));
    assert(s + Seq::<ElementModel>::empty() =~= s);
}

} // verus!
