use ncsum::Error;
use ncsum::engine::{LabelOutcome, RestoreKind, label, restore_kind, temp_output_name, verify_content};
use ncsum::hash::hash_bytes;
use ncsum::record_codec::{decode_record, encode_record};

fn b(s: &str) -> Vec<u8> {
    s.as_bytes().to_vec()
}

#[test]
fn digest_of_hello() {
    let d = hash_bytes(&b("hello"));
    assert_eq!(d, b("5d41402abc4b2a76b9719d911017c592"));
}

#[test]
fn digest_of_empty() {
    let d = hash_bytes(&b(""));
    assert_eq!(d, b("d41d8cd98f00b204e9800998ecf8427e"));
}

#[test]
fn digest_deterministic() {
    let content = b("some content bytes");
    let d1 = hash_bytes(&content);
    let d2 = hash_bytes(&content);
    assert_eq!(d1, d2);
}

#[test]
fn label_report_txt_end_to_end() {
    let plan = match label(&b("report.txt"), &b("hello")).unwrap() {
        LabelOutcome::Labeled(plan) => plan,
        LabelOutcome::Skipped => panic!("should not skip"),
    };
    assert_eq!(plan.record.hash, b("5d41402abc4b2a76b9719d911017c592"));
    assert_eq!(plan.record.old_name, b("report.txt"));
    assert_eq!(plan.record.new_name, b("5d41402abc4b2a76b9719d911017c592.txt"));
    assert_eq!(plan.record.ncsum_name, b("5d41402abc4b2a76b9719d911017c592.ncsum"));

    let restored = decode_record(&plan.record_bytes).unwrap();
    assert_eq!(restored.old_name, b("report.txt"));
    assert_eq!(restored.new_name, plan.record.new_name);
    assert_eq!(restored.ncsum_name, plan.record.ncsum_name);
    assert_eq!(restored.hash, plan.record.hash);
}

#[test]
fn label_keeps_parent_directory() {
    let plan = match label(&b("some/dir/report.txt"), &b("hello")).unwrap() {
        LabelOutcome::Labeled(plan) => plan,
        LabelOutcome::Skipped => panic!("should not skip"),
    };
    assert_eq!(plan.record.new_name, b("some/dir/5d41402abc4b2a76b9719d911017c592.txt"));
    assert_eq!(plan.record.ncsum_name, b("some/dir/5d41402abc4b2a76b9719d911017c592.ncsum"));
}

#[test]
fn label_skips_sidecar_and_container_forms() {
    match label(&b("abc.ncsum"), &b("x")).unwrap() {
        LabelOutcome::Skipped => {},
        LabelOutcome::Labeled(_) => panic!("sidecar form must be skipped"),
    }
    match label(&b("abc.pncsum"), &b("x")).unwrap() {
        LabelOutcome::Skipped => {},
        LabelOutcome::Labeled(_) => panic!("container form must be skipped"),
    }
}

#[test]
fn label_missing_extension_leaves_input_alone() {
    let e = label(&b("README"), &b("untouched")).unwrap_err();
    assert_eq!(e, Error::MissingExtension);
}

#[test]
fn label_missing_parent() {
    let e = label(&b("dir/"), &b("x")).unwrap_err();
    assert_eq!(e, Error::MissingParent);
}

#[test]
fn fresh_label_always_verifies() {
    let content = b("fresh content");
    let rec = ncsum::record::derive(&b("fresh.dat"), &content).unwrap();
    assert!(verify_content(&rec, &content));
}

#[test]
fn record_codec_round_trip_with_escapes() {
    let rec = ncsum::record::derive(&b("we\\ird \"dir\"/na\\me.t t"), &b("data")).unwrap();
    let bytes = encode_record(&rec);
    let back = decode_record(&bytes).unwrap();
    assert_eq!(back.hash, rec.hash);
    assert_eq!(back.old_name, rec.old_name);
    assert_eq!(back.new_name, rec.new_name);
    assert_eq!(back.ncsum_name, rec.ncsum_name);
}

#[test]
fn decode_rejects_malformed_records() {
    assert_eq!(decode_record(&b("")).unwrap_err(), Error::RecordDecode);
    assert_eq!(decode_record(&b("not json")).unwrap_err(), Error::RecordDecode);
    assert_eq!(decode_record(&b("{\"hash\":\"abc\"}")).unwrap_err(), Error::RecordDecode);
    let mut good = encode_record(&ncsum::record::derive(&b("a.txt"), &b("x")).unwrap());
    good.pop();
    assert_eq!(decode_record(&good).unwrap_err(), Error::RecordDecode);
}

#[test]
fn restore_kind_dispatch() {
    assert!(matches!(restore_kind(&b("a.ncsum")), RestoreKind::Sidecar));
    assert!(matches!(restore_kind(&b("a.pncsum")), RestoreKind::Container));
    assert!(matches!(restore_kind(&b("a.txt")), RestoreKind::Unrecognized));
    assert!(matches!(restore_kind(&b("a")), RestoreKind::Unrecognized));
}

#[test]
fn temp_output_name_swaps_suffix() {
    assert_eq!(temp_output_name(&b("dir/x.pncsum")), b("dir/x.tncsum"));
}
