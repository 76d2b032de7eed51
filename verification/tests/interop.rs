use std::io::{Cursor, Read};

use ncsum::container::{read_container, write_container};
use ncsum::record_codec::{decode_record, encode_record};

fn b(s: &str) -> Vec<u8> {
    s.as_bytes().to_vec()
}

#[test]
fn container_is_readable_by_cpio_crate() {
    let record_bytes = b("{\"hash\":\"h\"}");
    let content = b("payload payload payload");
    let container = write_container(&b("x.ncsum"), &record_bytes, &b("x.txt"), &content);

    let mut r = cpio::NewcReader::new(Cursor::new(container)).unwrap();
    assert_eq!(r.entry().name(), "x.ncsum");
    let mut d1 = Vec::new();
    r.read_to_end(&mut d1).unwrap();
    assert_eq!(d1, record_bytes);
    let c = r.finish().unwrap();

    let mut r2 = cpio::NewcReader::new(c).unwrap();
    assert_eq!(r2.entry().name(), "x.txt");
    let mut d2 = Vec::new();
    r2.read_to_end(&mut d2).unwrap();
    assert_eq!(d2, content);
    let c = r2.finish().unwrap();

    let r3 = cpio::NewcReader::new(c).unwrap();
    assert!(r3.entry().is_trailer());
}

#[test]
fn container_matches_cpio_crate_bytes() {
    let record_bytes = b("{\"hash\":\"abc\",\"old_name\":\"a.txt\"}");
    let content = b("0123456789");
    let inputs = vec![
        (
            cpio::NewcBuilder::new("a.ncsum").uid(1000).mode(0o100644),
            Cursor::new(record_bytes.clone()),
        ),
        (
            cpio::NewcBuilder::new("a.txt").uid(1000).mode(0o100644),
            Cursor::new(content.clone()),
        ),
    ];
    let theirs = cpio::write_cpio(inputs.into_iter(), Vec::new()).unwrap();
    let ours = write_container(&b("a.ncsum"), &record_bytes, &b("a.txt"), &content);
    assert_eq!(ours, theirs);
}

#[test]
fn cpio_crate_output_is_read_back() {
    let record_bytes = b("any record bytes");
    let content = b("any content whatsoever, length 37!");
    let inputs = vec![
        (
            cpio::NewcBuilder::new("r.ncsum").uid(1000).mode(0o100644),
            Cursor::new(record_bytes.clone()),
        ),
        (
            cpio::NewcBuilder::new("c.bin").uid(1000).mode(0o100644),
            Cursor::new(content.clone()),
        ),
    ];
    let archive = cpio::write_cpio(inputs.into_iter(), Vec::new()).unwrap();
    let entries = read_container(&archive).unwrap();
    assert_eq!(entries.len(), 2);
    assert_eq!(entries[0].0, b("r.ncsum"));
    assert_eq!(entries[0].1, record_bytes);
    assert_eq!(entries[1].0, b("c.bin"));
    assert_eq!(entries[1].1, content);
}

#[test]
fn record_encoding_is_json() {
    let rec = ncsum::record::derive(&b("report.txt"), &b("hello")).unwrap();
    let bytes = encode_record(&rec);
    let v: serde_json::Value = serde_json::from_slice(&bytes).unwrap();
    assert_eq!(
        v.get("hash").unwrap().as_str().unwrap(),
        "5d41402abc4b2a76b9719d911017c592"
    );
    assert_eq!(v.get("old_name").unwrap().as_str().unwrap(), "report.txt");
    assert_eq!(
        v.get("new_name").unwrap().as_str().unwrap(),
        "5d41402abc4b2a76b9719d911017c592.txt"
    );
    assert_eq!(
        v.get("ncsum_name").unwrap().as_str().unwrap(),
        "5d41402abc4b2a76b9719d911017c592.ncsum"
    );
}

#[test]
fn record_with_escapes_survives_serde_json() {
    let rec = ncsum::record::derive(&b("we\"ird\\dir/file.txt"), &b("x")).unwrap();
    let bytes = encode_record(&rec);
    let v: serde_json::Value = serde_json::from_slice(&bytes).unwrap();
    assert_eq!(
        v.get("old_name").unwrap().as_str().unwrap(),
        "we\"ird\\dir/file.txt"
    );
}

#[test]
fn handwritten_json_decodes() {
    let text = "{\"hash\":\"h1\",\"old_name\":\"a b.txt\",\"new_name\":\"h1.txt\",\"ncsum_name\":\"h1.ncsum\"}";
    let rec = decode_record(&text.as_bytes().to_vec()).unwrap();
    assert_eq!(rec.hash, b("h1"));
    assert_eq!(rec.old_name, b("a b.txt"));
    assert_eq!(rec.new_name, b("h1.txt"));
    assert_eq!(rec.ncsum_name, b("h1.ncsum"));
}
