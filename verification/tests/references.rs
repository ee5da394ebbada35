use fraud_index::number::Number;
use fraud_index::references::{decompress, find_list, next_reference, parse_json, read_references,
    Item, ReferenceError};
use std::io::Write;

fn value_of(n: &Number) -> f32 {
    let mut frac: f32 = 0.0;
    let mut div: f32 = 1.0;
    for &digit in &n.fraction {
        frac = frac * 10.0 + digit as f32;
        div *= 10.0;
    }
    let val = n.int_part as f32 + frac / div;
    if n.negative {
        -val
    } else {
        val
    }
}

fn gzip(text: &[u8]) -> Vec<u8> {
    let mut encoder = flate2::write::GzEncoder::new(Vec::new(), flate2::Compression::default());
    encoder.write_all(text).unwrap();
    encoder.finish().unwrap()
}

const TEXT: &str = r#"[{"vector":[0.5,-1,0.25, 1,0,0,0,0,0,0,0,0,0,0.125],"label":"fraud"},
  {"label":"legit","other":3,"vector":[1]}]"#;

#[test]
fn references_are_read_in_order() {
    let list = parse_json(TEXT).unwrap();
    assert_eq!(list.len(), 2);
    assert!(list[0].fraud);
    let first: Vec<f32> = list[0].vector.iter().map(value_of).collect();
    assert_eq!(first[..4], [0.5, -1.0, 0.25, 1.0]);
    assert_eq!(first[13], 0.125);
    assert!(!list[1].fraud);
    assert_eq!(list[1].vector.len(), 14);
    assert_eq!(value_of(&list[1].vector[0]), 1.0);
    assert_eq!(value_of(&list[1].vector[1]), 0.0);
}

#[test]
fn references_can_be_taken_one_by_one() {
    let data = TEXT.as_bytes();
    let mut pos = find_list(data);
    assert_eq!(pos, 1);
    let mut labels = Vec::new();
    loop {
        match next_reference(data, pos) {
            Item::Record(reference, next) => {
                assert!(next > pos);
                labels.push(reference.fraud);
                pos = next;
            }
            Item::End => break,
            Item::CutOff => panic!("the text is complete"),
        }
    }
    assert_eq!(labels, vec![true, false]);
}

#[test]
fn an_empty_list_has_no_references() {
    assert!(parse_json("[]").unwrap().is_empty());
    assert!(parse_json("").unwrap().is_empty());
    assert!(parse_json("no list").unwrap().is_empty());
}

#[test]
fn references_that_end_inside_a_value_are_refused() {
    assert!(parse_json("[{\"vector\":[0.5, ").is_none());
    assert!(parse_json("[{\"label\":").is_none());
    assert!(parse_json("[{\"label\":\"fraud\"},{\"label\":").is_none());
}

#[test]
fn an_unfinished_object_still_counts() {
    let list = parse_json("[{\"label\":\"fraud\"").unwrap();
    assert_eq!(list.len(), 1);
    assert!(list[0].fraud);
}

#[test]
fn compressed_references_are_read() {
    let packed = gzip(TEXT.as_bytes());
    assert_eq!(decompress(&packed).unwrap(), TEXT);
    let list = read_references(&packed).unwrap();
    assert_eq!(list.len(), 2);
    assert!(list[0].fraud);
}

#[test]
fn broken_compression_is_refused() {
    assert_eq!(decompress(TEXT.as_bytes()), Err(ReferenceError::Compression));
    let packed = gzip(TEXT.as_bytes());
    let half = &packed[..packed.len() / 2];
    assert!(matches!(read_references(half), Err(ReferenceError::Compression)));
    assert_eq!(decompress(&gzip(b"\xff\xfe")), Err(ReferenceError::Compression));
    assert!(matches!(read_references(&gzip(b"[{\"label\":")), Err(ReferenceError::CutOff)));
}
