use webm_ebml::vint::make_vint;
use webm_ebml::ebml::{
    get_elements_by_id_element, parse_element_to_bytes, read_document, read_element,
    read_elements, try_read_document, Document, DocumentMapElement, Element, ElementValue,
};

fn ebml_header() -> Vec<u8> {
    vec![0x1A, 0x45, 0xDF, 0xA3, 0x84, 0x42, 0x86, 0x81, 0x01]
}

fn cluster_and_block() -> Vec<u8> {
    vec![0x1F, 0x43, 0xB6, 0x75, 0x85, 0xA3, 0x83, 1, 2, 3, 0xA3, 0x81, 9]
}

#[test]
fn read_element_splits_header() {
    let mut buffer = vec![0xA3, 0x82, 7, 8, 0x99];
    let (element, rest) = read_element(&mut buffer, false);
    assert_eq!(element.id, "35");
    assert_eq!(element.size, 2);
    assert_eq!(element.data, vec![7, 8]);
    assert_eq!(rest, vec![0x99]);
    assert_eq!(buffer, vec![0xA3, 0x82, 7, 8, 0x99]);
}

#[test]
fn read_document_master_and_unsigned() {
    let doc = read_document(&ebml_header()).unwrap();
    assert_eq!(doc.elements.len(), 1);
    let e = &doc.elements[0];
    assert_eq!(e.id, "172351395");
    assert_eq!(e.size, 4);
    assert_eq!(e.name, "EBML");
    assert_eq!(e.data_type, "m");
    assert!(e.data.is_empty());
    assert_eq!(e.children.len(), 1);
    let c = &e.children[0];
    assert_eq!(c.id, "646");
    assert_eq!(c.name, "EBMLVersion");
    assert_eq!(c.data_type, "u");
    assert!(matches!(c.value, ElementValue::U64(1)));
}

#[test]
fn read_elements_value_types() {
    let mut bytes = vec![0x42, 0x82, 0x84, b'w', b'e', b'b', b'm'];
    bytes.extend_from_slice(&[0x44, 0x61, 0x81, 0xFF]);
    bytes.extend_from_slice(&[0x44, 0x89, 0x88]);
    bytes.extend_from_slice(&1.5f64.to_bits().to_be_bytes());
    bytes.extend_from_slice(&[0xA3, 0x83, 1, 2, 3]);
    let elements = read_elements(&bytes, false).unwrap();
    assert_eq!(elements.len(), 4);
    assert_eq!(elements[0].value.string(), "webm");
    assert_eq!(elements[0].name, "DocType");
    assert!(matches!(elements[1].value, ElementValue::I64(255)));
    assert_eq!(elements[2].value.f64_bits(), 1.5f64.to_bits());
    assert_eq!(elements[3].value.binary(), vec![1, 2, 3]);
}

#[test]
fn read_elements_bad_utf8_stays_null() {
    let elements = read_elements(&vec![0x42, 0x82, 0x81, 0xFF], false).unwrap();
    assert!(matches!(elements[0].value, ElementValue::Null));
    assert_eq!(elements[0].data_type, "8");
}

#[test]
fn read_elements_unknown_id() {
    let elements = read_elements(&vec![0x81, 0x81, 5], false).unwrap();
    assert_eq!(elements.len(), 1);
    assert_eq!(elements[0].id, "1");
    assert_eq!(elements[0].name, "");
    assert_eq!(elements[0].data_type, "");
    assert!(matches!(elements[0].value, ElementValue::Null));
}

#[test]
fn read_elements_stops_at_zero_id() {
    let elements = read_elements(&vec![0x81, 0x80, 0x80, 0x80, 0xA3, 0x81, 1], false).unwrap();
    assert_eq!(elements.len(), 1);
    assert_eq!(elements[0].id, "1");
    assert!(read_elements(&vec![], false).unwrap().is_empty());
}

#[test]
fn try_read_document_refuses_overlong_size() {
    assert!(try_read_document(&vec![0x81, 0x85, 1]).is_none());
    assert!(try_read_document(&vec![0x40]).is_none());
}

#[test]
fn try_read_document_refuses_long_number() {
    let mut bytes = vec![0x42, 0x86, 0x89];
    bytes.extend_from_slice(&[0; 9]);
    assert!(try_read_document(&bytes).is_none());
}

#[test]
fn try_read_document_reads_good_input() {
    let doc = try_read_document(&ebml_header()).unwrap().unwrap();
    assert_eq!(doc.elements[0].children[0].value.u64(), 1);
}

#[test]
fn get_elements_by_id_in_document_order() {
    let doc = read_document(&cluster_and_block()).unwrap();
    let found = doc.get_elements_by_id(&"35".to_string());
    assert_eq!(found.len(), 2);
    assert_eq!(found[0].value.binary(), vec![1, 2, 3]);
    assert_eq!(found[1].value.binary(), vec![9]);
    let below = get_elements_by_id_element(&doc.elements[0], &"35".to_string());
    assert_eq!(below.len(), 1);
    assert_eq!(below[0].value.binary(), vec![1, 2, 3]);
    assert!(doc.get_elements_by_id(&"7".to_string()).is_empty());
}

#[test]
fn get_header_skips_blocks() {
    let doc = read_document(&cluster_and_block()).unwrap();
    let header = doc.get_header();
    assert_eq!(header.len(), 1);
    assert_eq!(header[0].name, "Cluster");
}

#[test]
fn add_header_prepends() {
    let header = read_document(&ebml_header()).unwrap().get_header();
    let mut doc = read_document(&cluster_and_block()).unwrap();
    doc.add_header(&header);
    assert_eq!(doc.elements.len(), 3);
    assert_eq!(doc.elements[0].name, "EBML");
    assert_eq!(doc.elements[1].name, "Cluster");
    assert_eq!(doc.elements[2].name, "SimpleBlock");
}

#[test]
fn get_map_entries() {
    let doc = read_document(&cluster_and_block()).unwrap();
    let map = doc.get_map();
    assert_eq!(map.map.len(), 2);
    match &map.map[0] {
        DocumentMapElement::Pool(p) => {
            assert_eq!(p.name, "Cluster");
            assert_eq!(p.children.len(), 1);
            match &p.children[0] {
                DocumentMapElement::Pool(c) => {
                    assert_eq!(c.id, "35");
                    assert!(matches!(c.value, ElementValue::BinaryRep(3)));
                    assert!(c.children.is_empty());
                }
                DocumentMapElement::Only(_) => panic!("children are pools"),
            }
        }
        DocumentMapElement::Only(_) => panic!("a cluster with children is a pool"),
    }
    match &map.map[1] {
        DocumentMapElement::Only(o) => {
            assert_eq!(o.id, "35");
            assert!(matches!(o.value, ElementValue::BinaryRep(1)));
        }
        DocumentMapElement::Pool(_) => panic!("a block alone is an entry alone"),
    }
}

#[test]
fn document_parse_writes_bytes() {
    let mut doc = read_document(&ebml_header()).unwrap();
    let bytes = doc.parse();
    assert_eq!(
        bytes,
        vec![0x1A, 0x45, 0xDF, 0xA3, 1, 0, 0, 0, 0, 0, 0, 4, 0x42, 0x86, 0x81, 0x01]
    );
    let again = read_document(&bytes).unwrap();
    assert_eq!(again.elements[0].children[0].value.u64(), 1);
    assert_eq!(again.elements[0].children[0].name, "EBMLVersion");
}

#[test]
fn parse_element_to_bytes_leaf() {
    let e = Element {
        id: "35".to_string(),
        size: 0,
        data: vec![],
        children: vec![],
        value: ElementValue::Binary(vec![5, 6]),
        name: String::new(),
        data_type: "b".to_string(),
    };
    assert_eq!(parse_element_to_bytes(&e), vec![0xA3, 0x82, 5, 6]);
    let doc = read_document(&parse_element_to_bytes(&e)).unwrap();
    assert_eq!(doc.elements[0].value.binary(), vec![5, 6]);
}

#[test]
fn clone_keeps_element() {
    let doc = read_document(&cluster_and_block()).unwrap();
    let copy = doc.elements[0].clone();
    assert_eq!(copy.id, doc.elements[0].id);
    assert_eq!(copy.children.len(), 1);
    assert_eq!(copy.children[0].value.binary(), vec![1, 2, 3]);
    let d2 = Document { elements: vec![copy] };
    assert_eq!(d2.get_elements_by_id(&"35".to_string()).len(), 1);
}

fn leaf(id: &str, name: &str, data_type: &str, size: u64, value: ElementValue) -> Element {
    Element {
        id: id.to_string(),
        size,
        data: vec![],
        children: vec![],
        value,
        name: name.to_string(),
        data_type: data_type.to_string(),
    }
}

fn same_value(a: &ElementValue, b: &ElementValue) -> bool {
    match (a, b) {
        (ElementValue::Null, ElementValue::Null) => true,
        (ElementValue::U64(x), ElementValue::U64(y)) => x == y,
        (ElementValue::I64(x), ElementValue::I64(y)) => x == y,
        (ElementValue::F64(x), ElementValue::F64(y)) => x == y,
        (ElementValue::Binary(x), ElementValue::Binary(y)) => x == y,
        (ElementValue::BinaryRep(x), ElementValue::BinaryRep(y)) => x == y,
        (ElementValue::String(x), ElementValue::String(y)) => x == y,
        _ => false,
    }
}

fn same_element(a: &Element, b: &Element) -> bool {
    a.id == b.id
        && a.size == b.size
        && a.data == b.data
        && a.name == b.name
        && a.data_type == b.data_type
        && same_value(&a.value, &b.value)
        && a.children.len() == b.children.len()
        && a.children.iter().zip(b.children.iter()).all(|(x, y)| same_element(x, y))
}

#[test]
fn written_document_reads_back() {
    let header = Element {
        id: "172351395".to_string(),
        size: 11,
        data: vec![],
        children: vec![
            leaf("646", "EBMLVersion", "u", 1, ElementValue::U64(1)),
            leaf("642", "DocType", "8", 4, ElementValue::String("webm".to_string())),
        ],
        value: ElementValue::Null,
        name: "EBML".to_string(),
        data_type: "m".to_string(),
    };
    let info = Element {
        id: "88713574".to_string(),
        size: 22,
        data: vec![],
        children: vec![
            leaf("1161", "Duration", "f", 8, ElementValue::F64(1.5f64.to_bits())),
            leaf("1121", "DateUTC", "s", 8, ElementValue::I64(-3)),
        ],
        value: ElementValue::Null,
        name: "Info".to_string(),
        data_type: "m".to_string(),
    };
    let block = leaf("35", "SimpleBlock", "b", 3, ElementValue::Binary(vec![0, 7, 0]));
    let mut doc = Document { elements: vec![header, info, block] };
    let bytes = doc.parse();
    let again = read_document(&bytes).unwrap();
    assert_eq!(again.elements.len(), doc.elements.len());
    for (a, b) in again.elements.iter().zip(doc.elements.iter()) {
        assert!(same_element(a, b), "{:?} != {:?}", a, b);
    }
}

#[test]
fn header_put_in_front_writes_first() {
    let header = read_document(&ebml_header()).unwrap().get_header();
    let mut header_doc = Document { elements: header.clone() };
    let mut chunk = read_document(&cluster_and_block()).unwrap();
    let mut expected = header_doc.parse();
    expected.extend(chunk.parse());
    chunk.add_header(&header);
    assert_eq!(chunk.parse(), expected);
    let blocks = chunk.get_elements_by_id(&"35".to_string());
    assert!(blocks.iter().all(|b| b.id == "35"));
    assert!(chunk.get_header().iter().all(|e| e.id != "35"));
}

#[test]
fn written_element_reads_back_with_read_element() {
    let rest = vec![0xA3, 0x81, 9, 0x42];
    let leaves = vec![
        leaf("35", "", "b", 0, ElementValue::Binary(vec![4, 0, 5])),
        leaf("646", "", "u", 0, ElementValue::U64(300)),
        leaf("642", "", "8", 0, ElementValue::String("webm".to_string())),
        leaf("1121", "", "s", 0, ElementValue::I64(-2)),
    ];
    let expected: Vec<(u64, Vec<u8>)> = vec![
        (3, vec![4, 0, 5]),
        (2, vec![1, 44]),
        (4, b"webm".to_vec()),
        (8, (-2i64).to_be_bytes().to_vec()),
    ];
    for (e, (size, data)) in leaves.iter().zip(expected) {
        let mut bytes = parse_element_to_bytes(e);
        bytes.extend_from_slice(&rest);
        let (r, o) = read_element(&mut bytes, false);
        assert_eq!(r.id, e.id);
        assert_eq!(r.size, size);
        assert_eq!(r.data, data);
        assert_eq!(o, rest);
    }
    let master = Element {
        id: "256095861".to_string(),
        size: 0,
        data: vec![],
        children: vec![leaves[0].clone()],
        value: ElementValue::Null,
        name: String::new(),
        data_type: "m".to_string(),
    };
    let mut bytes = parse_element_to_bytes(&master);
    let children = parse_element_to_bytes(&leaves[0]);
    bytes.extend_from_slice(&rest);
    let (r, o) = read_element(&mut bytes, false);
    assert_eq!(r.id, "256095861");
    assert_eq!(r.size, children.len() as u64);
    assert_eq!(r.data, children);
    assert_eq!(o, rest);
}

#[test]
fn read_elements_is_read_element_repeated_then_decoded() {
    let mut buffer = ebml_header();
    buffer.extend(cluster_and_block());
    buffer.extend_from_slice(&[0x80, 0x80]);
    buffer.extend_from_slice(&[0xA3, 0x81, 1]);
    let mut raws = Vec::new();
    let mut data = buffer.clone();
    while !data.is_empty() {
        let (e, o) = read_element(&mut data, false);
        data = o;
        if e.id == "0" {
            break;
        }
        raws.push(e);
    }
    let v = read_elements(&buffer, false).unwrap();
    assert_eq!(v.len(), raws.len());
    assert_eq!(v.len(), 3);
    for (a, b) in v.iter().zip(raws.iter()) {
        assert_eq!(a.id, b.id);
        assert_eq!(a.size, b.size);
        assert!(a.data.is_empty());
    }
    let children = read_elements(&raws[0].data, true).unwrap();
    assert_eq!(v[0].children.len(), children.len());
    assert!(same_element(&v[0].children[0], &children[0]));
    assert_eq!(v[2].value.binary(), raws[2].data);
}

#[test]
fn read_elements_debug_flag_changes_nothing() {
    let mut buffer = ebml_header();
    buffer.extend(cluster_and_block());
    let a = read_elements(&buffer, true).unwrap();
    let b = read_elements(&buffer, false).unwrap();
    assert_eq!(a.len(), b.len());
    for (x, y) in a.iter().zip(b.iter()) {
        assert!(same_element(x, y));
    }
    let doc = read_document(&buffer).unwrap();
    assert_eq!(doc.elements.len(), b.len());
    for (x, y) in doc.elements.iter().zip(b.iter()) {
        assert!(same_element(x, y));
    }
}

#[test]
fn value_bytes_are_size_then_payload() {
    let b = vec![0u8, 1, 2, 3, 4];
    let mut expected = make_vint(b.len());
    expected.extend_from_slice(&b);
    assert_eq!(ElementValue::Binary(b.clone()).vint(), expected);
    let s = "Opus".to_string();
    let mut expected = make_vint(s.len());
    expected.extend_from_slice(s.as_bytes());
    assert_eq!(ElementValue::String(s).vint(), expected);
    assert!(ElementValue::BinaryRep(12).vint().is_empty());
}

#[test]
fn document_and_map_clone() {
    let doc = read_document(&cluster_and_block()).unwrap();
    let copy = doc.clone();
    assert_eq!(copy.elements.len(), doc.elements.len());
    assert!(same_element(&copy.elements[0], &doc.elements[0]));
    let map = doc.get_map();
    let map_copy = map.clone();
    assert_eq!(map_copy.map.len(), map.map.len());
}
