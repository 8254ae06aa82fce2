use ebml::error::EbmlError;
use ebml::matroska::is_doctype_matroska;
use ebml::source::ByteSource;
use ebml::stream::{Element, Stream, DOCTYPE_ID, EBMLELEMENT_ID};

fn stream_of(bytes: Vec<u8>) -> Stream {
    Stream::new(ByteSource::new(bytes))
}

fn matroska_header(doctype: &[u8]) -> Vec<u8> {
    let mut kid = vec![0x42, 0x82, 0x80 | doctype.len() as u8];
    kid.extend_from_slice(doctype);
    let mut out = vec![0x1A, 0x45, 0xDF, 0xA3, 0x80 | kid.len() as u8];
    out.extend(kid);
    out
}

#[test]
fn next_element_reads_header_and_skips_payload() {
    let mut s = stream_of(vec![0xEC, 0x82, 0xAA, 0xBB, 0xBF, 0x80]);
    let e = s.next_element().unwrap();
    assert_eq!(e, Element { id: 0xEC, length: 2, data_offset: 2 });
    assert_eq!(s.position(), 4);
    let f = s.next_element().unwrap();
    assert_eq!(f, Element { id: 0xBF, length: 0, data_offset: 6 });
    let g = s.next_element().unwrap();
    assert_eq!(g, Element { id: 0, length: 0, data_offset: 0 });
    assert_eq!(s.position(), 6);
}

#[test]
fn single_element_source_has_one_root() {
    let mut s = stream_of(vec![0xEC, 0x81, 0x00]);
    let roots = s.root_elements().unwrap();
    assert_eq!(roots.len(), 1);
    assert_eq!(roots[0], Element { id: 0xEC, length: 1, data_offset: 2 });
}

#[test]
fn root_elements_of_empty_source() {
    let mut s = stream_of(Vec::new());
    assert_eq!(s.root_elements().unwrap().len(), 0);
}

#[test]
fn root_elements_reports_bad_header() {
    let mut s = stream_of(vec![0xEC, 0x80, 0x00]);
    assert_eq!(s.root_elements(), Err(EbmlError::IntegerTooBig));
}

#[test]
fn children_span_the_parent_payload() {
    let bytes = vec![0x1A, 0x45, 0xDF, 0xA3, 0x87, 0xEC, 0x81, 0x00, 0x42, 0x86, 0x81, 0x01, 0xBF, 0x80];
    let mut s = stream_of(bytes);
    let roots = s.root_elements().unwrap();
    assert_eq!(roots.len(), 2);
    let parent = roots[0];
    assert_eq!(parent, Element { id: EBMLELEMENT_ID, length: 7, data_offset: 5 });
    let kids = s.children(&parent).unwrap();
    assert_eq!(kids, vec![
        Element { id: 0xEC, length: 1, data_offset: 7 },
        Element { id: 0x4286, length: 1, data_offset: 11 },
    ]);
    assert_eq!(s.position(), 12);
}

#[test]
fn children_past_the_end_close_with_marker() {
    let mut s = stream_of(vec![0xEC, 0x81, 0x00]);
    let parent = Element { id: 0x1A45DFA3, length: 10, data_offset: 0 };
    let kids = s.children(&parent).unwrap();
    assert_eq!(kids, vec![
        Element { id: 0xEC, length: 1, data_offset: 2 },
        Element { id: 0, length: 0, data_offset: 0 },
    ]);
}

#[test]
fn empty_string_needs_no_seek() {
    let mut s = stream_of(vec![0x42, 0x82, 0x80]);
    s.seek(1000);
    let e = Element { id: DOCTYPE_ID, length: 0, data_offset: 5000 };
    assert_eq!(s.read_string(&e).unwrap(), String::new());
    assert_eq!(s.position(), 1000);
}

#[test]
fn read_string_decodes_utf8() {
    let mut s = stream_of(vec![0x61, 0xC3, 0xA9, 0x62]);
    let e = Element { id: DOCTYPE_ID, length: 4, data_offset: 0 };
    assert_eq!(s.read_string(&e).unwrap(), "a\u{e9}b".to_string());
}

#[test]
fn read_string_rejects_invalid_utf8() {
    let mut s = stream_of(vec![0xFF, 0xFE]);
    let e = Element { id: DOCTYPE_ID, length: 2, data_offset: 0 };
    assert_eq!(s.read_string(&e), Err(EbmlError::InvalidUtf8));
}

#[test]
fn read_element_data_returns_payload() {
    let mut s = stream_of(vec![0xEC, 0x83, 0x01, 0x02, 0x03]);
    let e = s.next_element().unwrap();
    assert_eq!(s.read_element_data(&e).unwrap(), vec![1, 2, 3]);
    assert_eq!(s.position(), 5);
}

#[test]
fn read_element_data_past_end_is_truncated() {
    let mut s = stream_of(vec![0xEC, 0x85, 0x01, 0x02]);
    let e = s.next_element().unwrap();
    assert_eq!(e.length(), 5);
    assert_eq!(s.read_element_data(&e), Err(EbmlError::Truncated));
}

#[test]
fn read_unsigned_integer_one_byte() {
    let mut s = stream_of(vec![0x42, 0x86, 0x81, 0x2A]);
    let e = s.next_element().unwrap();
    assert_eq!(s.read_unsigned_integer(&e), Ok(42));
}

#[test]
fn read_unsigned_integer_shifts_by_bits() {
    let mut s = stream_of(vec![0x01, 0x02, 0x80]);
    let e = Element { id: 0x4286, length: 3, data_offset: 0 };
    assert_eq!(s.read_unsigned_integer(&e), Ok((1 << 2) | (2 << 1) | 0x80));
}

#[test]
fn read_unsigned_integer_too_long() {
    let mut s = stream_of(vec![0; 16]);
    let e = Element { id: 0x4286, length: 9, data_offset: 0 };
    assert_eq!(s.read_unsigned_integer(&e), Err(EbmlError::ElementTooBigForInteger));
}

#[test]
fn matroska_doctype_end_to_end() {
    let mut s = stream_of(matroska_header(b"matroska"));
    let roots = s.root_elements().unwrap();
    assert_eq!(roots.len(), 1);
    assert_eq!(roots[0].id(), EBMLELEMENT_ID);
    let kids = s.children(&roots[0]).unwrap();
    let doctype = kids.iter().find(|e| e.id() == DOCTYPE_ID).unwrap();
    assert_eq!(s.read_string(doctype).unwrap(), "matroska");
    assert_eq!(is_doctype_matroska(&roots[0], &mut s), Ok(true));
}

#[test]
fn other_doctype_is_not_matroska() {
    let mut s = stream_of(matroska_header(b"webm"));
    let roots = s.root_elements().unwrap();
    assert_eq!(is_doctype_matroska(&roots[0], &mut s), Ok(false));
    let other = Element { id: 0xEC, length: 0, data_offset: 0 };
    assert_eq!(is_doctype_matroska(&other, &mut s), Ok(false));
}
