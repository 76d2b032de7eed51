use ncsum::Error;
use ncsum::container::{read_container, write_container};
use ncsum::engine::{
    BundleOutcome, bundle_from_path, bundle_from_record, check_container, check_sidecar,
    quarantine_paths, unbundle,
};
use ncsum::engine::LabelOutcome;
use ncsum::engine::label;
use ncsum::hash::hash_bytes;

fn b(s: &str) -> Vec<u8> {
    s.as_bytes().to_vec()
}

fn find_subslice(haystack: &[u8], needle: &[u8]) -> usize {
    haystack
        .windows(needle.len())
        .position(|w| w == needle)
        .expect("needle not found")
}

#[test]
fn container_codec_round_trip() {
    let out = write_container(&b("r.ncsum"), &b("record-bytes"), &b("payload.bin"), &b("12345"));
    let entries = read_container(&out).unwrap();
    assert_eq!(entries.len(), 2);
    assert_eq!(entries[0].0, b("r.ncsum"));
    assert_eq!(entries[0].1, b("record-bytes"));
    assert_eq!(entries[1].0, b("payload.bin"));
    assert_eq!(entries[1].1, b("12345"));
}

#[test]
fn container_codec_round_trip_empty_payload() {
    let out = write_container(&b("r.ncsum"), &b("x"), &b("p.bin"), &b(""));
    let entries = read_container(&out).unwrap();
    assert_eq!(entries.len(), 2);
    assert_eq!(entries[1].1, b(""));
}

#[test]
fn read_rejects_truncated_container() {
    let out = write_container(&b("r.ncsum"), &b("abc"), &b("p.bin"), &b("defgh"));
    for cut in [1usize, 50, 110, out.len() - 1] {
        let t = out[..out.len() - cut].to_vec();
        assert_eq!(read_container(&t).unwrap_err(), Error::ContainerCorrupt);
    }
    assert_eq!(read_container(&b("")).unwrap_err(), Error::ContainerCorrupt);
    assert_eq!(read_container(&b("junk")).unwrap_err(), Error::ContainerCorrupt);
}

#[test]
fn bundle_unbundle_round_trip() {
    let content = b("some payload bytes for the bundle");
    let digest = String::from_utf8(hash_bytes(&content)).unwrap();
    let plan = match bundle_from_path(&b("data.bin"), &content).unwrap() {
        BundleOutcome::Bundled(plan) => plan,
        BundleOutcome::Skipped => panic!("should not skip"),
    };
    assert_eq!(plan.container_name, b(&format!("{digest}.pncsum")));
    assert_eq!(plan.record.old_name, b("data.bin"));

    let un = unbundle(&plan.container).unwrap();
    assert_eq!(un.content, content);
    assert_eq!(un.record.old_name, b("data.bin"));
    assert_eq!(un.record.hash, b(&digest));
}

#[test]
fn bundle_skips_container_form() {
    match bundle_from_path(&b("x.pncsum"), &b("y")).unwrap() {
        BundleOutcome::Skipped => {},
        BundleOutcome::Bundled(_) => panic!("container form must be skipped"),
    }
}

#[test]
fn bundle_from_sidecar_record() {
    let content = b("labeled content");
    let plan = match label(&b("doc.pdf"), &content).unwrap() {
        LabelOutcome::Labeled(plan) => plan,
        LabelOutcome::Skipped => panic!("should not skip"),
    };
    let bp = bundle_from_record(&plan.record_bytes, &content).unwrap();
    assert_eq!(bp.record.old_name, b("doc.pdf"));
    let un = unbundle(&bp.container).unwrap();
    assert_eq!(un.content, content);
    assert_eq!(un.record.old_name, b("doc.pdf"));
}

#[test]
fn unbundle_truncated_container_fails_without_output() {
    let content = b("payload that will be truncated away");
    let plan = match bundle_from_path(&b("data.bin"), &content).unwrap() {
        BundleOutcome::Bundled(plan) => plan,
        BundleOutcome::Skipped => panic!("should not skip"),
    };
    let t = plan.container[..plan.container.len() - 60].to_vec();
    let e = unbundle(&t).unwrap_err();
    assert_eq!(e, Error::ContainerCorrupt);
}

#[test]
fn unbundle_detects_corrupted_payload() {
    let content = b("payload-0123456789-payload");
    let plan = match bundle_from_path(&b("data.bin"), &content).unwrap() {
        BundleOutcome::Bundled(plan) => plan,
        BundleOutcome::Skipped => panic!("should not skip"),
    };
    let mut c = plan.container.clone();
    let at = find_subslice(&c, &content);
    c[at] ^= 0x01;
    assert_eq!(unbundle(&c).unwrap_err(), Error::IntegrityMismatch);
}

#[test]
fn check_container_reports_match_and_mismatch() {
    let content = b("check me");
    let plan = match bundle_from_path(&b("data.bin"), &content).unwrap() {
        BundleOutcome::Bundled(plan) => plan,
        BundleOutcome::Skipped => panic!("should not skip"),
    };
    let (rec, ok) = check_container(&plan.container).unwrap();
    assert!(ok);
    assert_eq!(rec.old_name, b("data.bin"));

    let mut c = plan.container.clone();
    let at = find_subslice(&c, &content);
    c[at] ^= 0x01;
    let (_, ok2) = check_container(&c).unwrap();
    assert!(!ok2);
}

#[test]
fn unbundle_tolerates_entries_in_either_order() {
    let content = b("payload first this time");
    let plan = match label(&b("swap.txt"), &content).unwrap() {
        LabelOutcome::Labeled(plan) => plan,
        LabelOutcome::Skipped => panic!("should not skip"),
    };
    let swapped = write_container(
        &plan.record.new_name,
        &content,
        &plan.record.ncsum_name,
        &plan.record_bytes,
    );
    let un = unbundle(&swapped).unwrap();
    assert_eq!(un.content, content);
    assert_eq!(un.record.old_name, b("swap.txt"));
}

#[test]
fn unbundle_without_record_entry_is_corrupt() {
    let c = write_container(&b("a.bin"), &b("x"), &b("b.bin"), &b("y"));
    assert_eq!(unbundle(&c).unwrap_err(), Error::ContainerCorrupt);
}

#[test]
fn corruption_detected_and_quarantined() {
    let plan = match label(&b("dir/file.txt"), &b("hello")).unwrap() {
        LabelOutcome::Labeled(plan) => plan,
        LabelOutcome::Skipped => panic!("should not skip"),
    };
    let mut bad = b("hello");
    bad[0] ^= 0x01;
    let (rec, ok) = check_sidecar(&plan.record_bytes, &bad).unwrap();
    assert!(!ok);

    let sidecar_path = rec.ncsum_name.clone();
    let q = quarantine_paths(&sidecar_path, &rec);
    assert_eq!(q.dir, b("dir/5d41402abc4b2a76b9719d911017c592"));
    assert_eq!(
        q.content_dest,
        b("dir/5d41402abc4b2a76b9719d911017c592/5d41402abc4b2a76b9719d911017c592.txt")
    );
    assert_eq!(
        q.input_dest,
        b("dir/5d41402abc4b2a76b9719d911017c592/5d41402abc4b2a76b9719d911017c592.ncsum")
    );

    let (_, ok_good) = check_sidecar(&plan.record_bytes, &b("hello")).unwrap();
    assert!(ok_good);
}
