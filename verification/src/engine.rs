//! The lifecycle engine: the four transitions over the co-located states
//! (original file; labeled file + sidecar; container; restored file), as
//! pure functions from byte values to byte values.  The surrounding
//! application performs the renames, reads, writes, and deletes each
//! returned plan calls for; everything the plans say is proved here.

use vstd::prelude::*;

use crate::Error;
use crate::container::{
    container_spec, entries_view, lemma_container_round_trip, parse_entries_at, read_container,
    trailer_name, write_container,
};
use crate::hash::{digest_of, hash_bytes, is_digest, is_hex_digit};
use crate::paths::{
    DOT, SLASH, bytes_end_with, bytes_eq, ends_with, file_name, find_suffix,
    lemma_find_suffix_props, lemma_parent_prefix_len, ncsum_suffix, ncsum_suffix_bytes,
    parent_prefix, pncsum_suffix, pncsum_suffix_bytes, replace_suffix, tncsum_suffix,
    tncsum_suffix_bytes,
};
use crate::record::{FileRecord, RecordView, derivable, derive_spec};
use crate::record_codec::{
    decode_record, decode_spec, encode_record, encode_spec, lemma_decode_lens, lemma_encode_len,
    lemma_record_round_trip,
};

verus! {

/// What Label asks the application to do: write `record_bytes` to the
/// record's sidecar name, then rename the original to the labeled name.
#[derive(Debug)]
pub struct LabelPlan {
    pub record: FileRecord,
    pub record_bytes: Vec<u8>,
}

#[derive(Debug)]
pub enum LabelOutcome {
    /// The input already carries the sidecar or container suffix: a no-op.
    Skipped,
    Labeled(LabelPlan),
}

/// Inputs Label leaves untouched: names already in sidecar or container form.
pub open spec fn label_skip(path: Seq<u8>) -> bool {
    ends_with(path, ncsum_suffix()) || ends_with(path, pncsum_suffix())
}

/// Label: derive the record for `path` from `content`'s digest and encode
/// it.  Inputs already in sidecar or container form are skipped; otherwise
/// the outcome is exactly what derivation and the record codec give, and an
/// error is exactly a derivation error.
pub fn label(path: &Vec<u8>, content: &Vec<u8>) -> (r: Result<LabelOutcome, Error>)
    ensures
        match r {
            Ok(out) => match out {
                LabelOutcome::Skipped => label_skip(path@),
                LabelOutcome::Labeled(plan) => !label_skip(path@) && Ok::<RecordView, Error>(
                    plan.record@,
                ) == derive_spec(path@, digest_of(content@)) && plan.record_bytes@ == encode_spec(
                    plan.record@,
                ) && is_digest(plan.record.hash@),
            },
            Err(e) => !label_skip(path@) && Err::<RecordView, Error>(e) == derive_spec(
                path@,
                digest_of(content@),
            ),
        },
{
    let nsfx = ncsum_suffix_bytes();
    let psfx = pncsum_suffix_bytes();
    if bytes_end_with(path, &nsfx) || bytes_end_with(path, &psfx) {
        return Ok(LabelOutcome::Skipped);
    }
    let record = match crate::record::derive(path, content) {
        Ok(rec) => rec,
        Err(e) => {
            return Err(e);
        },
    };
    let record_bytes = encode_record(&record);
    Ok(LabelOutcome::Labeled(LabelPlan { record, record_bytes }))
}

/// Which form of input Restore received, judged by its suffix alone.
pub enum RestoreKind {
    Sidecar,
    Container,
    Unrecognized,
}

/// Classify a Restore input: sidecar suffix, container suffix, or neither
/// (which the engine rejects rather than silently skipping).
pub fn restore_kind(path: &Vec<u8>) -> (r: RestoreKind)
    ensures
        r is Sidecar <==> ends_with(path@, ncsum_suffix()),
        r is Container <==> (!ends_with(path@, ncsum_suffix()) && ends_with(
            path@,
            pncsum_suffix(),
        )),
        r is Unrecognized <==> (!ends_with(path@, ncsum_suffix()) && !ends_with(
            path@,
            pncsum_suffix(),
        )),
{
    let nsfx = ncsum_suffix_bytes();
    let psfx = pncsum_suffix_bytes();
    if bytes_end_with(path, &nsfx) {
        RestoreKind::Sidecar
    } else if bytes_end_with(path, &psfx) {
        RestoreKind::Container
    } else {
        RestoreKind::Unrecognized
    }
}

/// The temporary output name for a container being unbundled: the container
/// suffix swapped for the temporary suffix.
pub fn temp_output_name(container_path: &Vec<u8>) -> (r: Vec<u8>)
    requires
        ends_with(container_path@, pncsum_suffix()),
    ensures
        r@ == container_path@.subrange(0, container_path@.len() - pncsum_suffix().len())
            + tncsum_suffix(),
{
    let psfx = pncsum_suffix_bytes();
    let tsfx = tncsum_suffix_bytes();
    replace_suffix(container_path, &psfx, &tsfx)
}

/// Whether an entry name marks the record entry of a container.
pub open spec fn is_record_name(n: Seq<u8>) -> bool {
    ends_with(n, ncsum_suffix())
}

/// The record entry a container's entries carry: the last one whose name is
/// in sidecar form.
pub open spec fn record_entry_of(es: Seq<(Seq<u8>, Seq<u8>)>) -> Option<Seq<u8>>
    decreases es.len(),
{
    if es.len() == 0 {
        Option::None
    } else if is_record_name(es.last().0) {
        Option::Some(es.last().1)
    } else {
        record_entry_of(es.drop_last())
    }
}

/// The payload a container's entries carry: every non-record entry's bytes,
/// in order.
pub open spec fn payload_of(es: Seq<(Seq<u8>, Seq<u8>)>) -> Seq<u8>
    decreases es.len(),
{
    if es.len() == 0 {
        Seq::empty()
    } else if is_record_name(es.last().0) {
        payload_of(es.drop_last())
    } else {
        payload_of(es.drop_last()) + es.last().1
    }
}

/// The record and payload a container stream carries, before any integrity
/// judgement: parse the entries, pick the record entry, decode it.
pub open spec fn container_contents(b: Seq<u8>) -> Result<(RecordView, Seq<u8>), Error> {
    match parse_entries_at(b, 0) {
        Option::None => Err(Error::ContainerCorrupt),
        Option::Some(es) => match record_entry_of(es) {
            Option::None => Err(Error::ContainerCorrupt),
            Option::Some(rb) => match decode_spec(rb) {
                Option::None => Err(Error::RecordDecode),
                Option::Some(rec) => Ok((rec, payload_of(es))),
            },
        },
    }
}

/// What Unbundle yields when it accepts a container: the decoded record and
/// the payload, whose digest matches the recorded one.
pub open spec fn unbundle_spec(b: Seq<u8>) -> Result<(RecordView, Seq<u8>), Error> {
    match container_contents(b) {
        Err(e) => Err(e),
        Ok((rec, payload)) => if digest_of(payload) == rec.hash {
            Ok((rec, payload))
        } else {
            Err(Error::IntegrityMismatch)
        },
    }
}

/// An accepted container restored in memory: write `content` to the
/// temporary name, then rename it to the record's original name and delete
/// the container.
#[derive(Debug)]
pub struct UnbundlePlan {
    pub record: FileRecord,
    pub content: Vec<u8>,
}

/// Pick a container's record entry and concatenated payload out of its
/// parsed entries.
fn split_entries(entries: &Vec<(Vec<u8>, Vec<u8>)>) -> (r: (Option<Vec<u8>>, Vec<u8>))
    ensures
        ({
            let es = entries_view(entries@);
            &&& match r.0 {
                Option::Some(rb) => record_entry_of(es) == Option::Some(rb@),
                Option::None => record_entry_of(es) is None,
            }
            &&& r.1@ == payload_of(es)
        }),
{
    let ghost es = entries_view(entries@);
    let nsfx = ncsum_suffix_bytes();
    let mut record_bytes: Option<Vec<u8>> = Option::None;
    let mut payload: Vec<u8> = Vec::new();
    let mut i: usize = 0;
    proof {
        assert(es.take(0) =~= Seq::<(Seq<u8>, Seq<u8>)>::empty());
    }
    while i < entries.len()
        invariant
            0 <= i <= entries@.len(),
            nsfx@ == ncsum_suffix(),
            es == entries_view(entries@),
            es.len() == entries@.len(),
            (match record_bytes {
                Option::Some(rb) => record_entry_of(es.take(i as int)) == Option::Some(rb@),
                Option::None => record_entry_of(es.take(i as int)) is None,
            }),
            payload@ == payload_of(es.take(i as int)),
        decreases entries@.len() - i,
    {
        let e = vstd::slice::slice_index_get(entries.as_slice(), i);
        let is_rec = bytes_end_with(&e.0, &nsfx);
        if is_rec {
            record_bytes = Option::Some(vstd::slice::slice_to_vec(e.1.as_slice()));
        } else {
            payload.extend_from_slice(e.1.as_slice());
        }
        proof {
            let t = es.take(i + 1);
            assert(es[i as int] == (entries@[i as int].0@, entries@[i as int].1@));
            assert(t =~= es.take(i as int).push(es[i as int]));
            assert(t.drop_last() =~= es.take(i as int));
            assert(t.last() == es[i as int]);
            if is_rec {
                assert(is_record_name(t.last().0));
                assert(record_entry_of(t) == Option::Some(t.last().1));
                assert(payload_of(t) == payload_of(es.take(i as int)));
            } else {
                assert(!is_record_name(t.last().0));
                assert(record_entry_of(t) == record_entry_of(es.take(i as int)));
                assert(payload_of(t) == payload_of(es.take(i as int)) + t.last().1);
            }
        }
        i = i + 1;
    }
    proof {
        assert(es.take(es.len() as int) =~= es);
    }
    (record_bytes, payload)
}

/// Unbundle: parse the container, decode its record entry, re-hash the
/// payload, and accept it only if the digest matches the recorded one.  The
/// outcome, success and every error alike, is exactly `unbundle_spec`.
pub fn unbundle(container: &Vec<u8>) -> (r: Result<UnbundlePlan, Error>)
    ensures
        match r {
            Ok(plan) => unbundle_spec(container@) == Ok::<(RecordView, Seq<u8>), Error>(
                (plan.record@, plan.content@),
            ),
            Err(e) => unbundle_spec(container@) == Err::<(RecordView, Seq<u8>), Error>(e),
        },
{
    let entries = match read_container(container) {
        Ok(es) => es,
        Err(e) => {
            return Err(e);
        },
    };
    let (record_bytes_opt, payload) = split_entries(&entries);
    let record_bytes = match record_bytes_opt {
        Option::Some(rb) => rb,
        Option::None => {
            return Err(Error::ContainerCorrupt);
        },
    };
    let record = match decode_record(&record_bytes) {
        Ok(rec) => rec,
        Err(e) => {
            return Err(e);
        },
    };
    let digest = hash_bytes(&payload);
    if bytes_eq(&digest, &record.hash) {
        Ok(UnbundlePlan { record, content: payload })
    } else {
        Err(Error::IntegrityMismatch)
    }
}

/// Whether `content` carries exactly the digest the record claims.
pub fn verify_content(record: &FileRecord, content: &Vec<u8>) -> (r: bool)
    ensures
        r == (digest_of(content@) == record.hash@),
{
    let digest = hash_bytes(content);
    bytes_eq(&digest, &record.hash)
}

/// Check a sidecar pair: decode the record, re-hash the content, report
/// whether they agree.
pub fn check_sidecar(record_bytes: &Vec<u8>, content: &Vec<u8>) -> (r: Result<
    (FileRecord, bool),
    Error,
>)
    ensures
        match r {
            Ok(p) => decode_spec(record_bytes@) == Option::Some(p.0@) && p.1 == (digest_of(
                content@,
            ) == p.0.hash@),
            Err(e) => e == Error::RecordDecode && decode_spec(record_bytes@) is None,
        },
{
    let record = match decode_record(record_bytes) {
        Ok(rec) => rec,
        Err(e) => {
            return Err(e);
        },
    };
    let matches_digest = verify_content(&record, content);
    Ok((record, matches_digest))
}

/// Check a container stream: decode the record entry and re-hash the
/// payload as it passes through, reporting whether they agree.
pub fn check_container(container: &Vec<u8>) -> (r: Result<(FileRecord, bool), Error>)
    ensures
        match r {
            Ok(p) => container_contents(container@) matches Ok(c) && c.0 == p.0@ && p.1 == (
            digest_of(c.1) == p.0.hash@),
            Err(e) => container_contents(container@) == Err::<(RecordView, Seq<u8>), Error>(e),
        },
{
    let entries = match read_container(container) {
        Ok(es) => es,
        Err(e) => {
            return Err(e);
        },
    };
    let (record_bytes_opt, payload) = split_entries(&entries);
    let record_bytes = match record_bytes_opt {
        Option::Some(rb) => rb,
        Option::None => {
            return Err(Error::ContainerCorrupt);
        },
    };
    let record = match decode_record(&record_bytes) {
        Ok(rec) => rec,
        Err(e) => {
            return Err(e);
        },
    };
    let matches_digest = verify_content(&record, &payload);
    Ok((record, matches_digest))
}

/// Where Verify relocates a mismatching pair: a digest-named directory
/// beside the input, holding the content file and the input under their
/// base file names.
pub struct QuarantinePlan {
    pub dir: Vec<u8>,
    pub content_dest: Vec<u8>,
    pub input_dest: Vec<u8>,
}

/// Compute the quarantine locations for a mismatching input.
pub fn quarantine_paths(input_path: &Vec<u8>, record: &FileRecord) -> (r: QuarantinePlan)
    ensures
        r.dir@ == parent_prefix(input_path@) + record.hash@,
        r.content_dest@ == parent_prefix(input_path@) + record.hash@ + seq![SLASH] + file_name(
            record.new_name@,
        ),
        r.input_dest@ == parent_prefix(input_path@) + record.hash@ + seq![SLASH] + file_name(
            input_path@,
        ),
{
    let (parent, input_name) = crate::paths::split_parent(input_path);
    let (_, content_name) = crate::paths::split_parent(&record.new_name);
    let mut dir = vstd::slice::slice_to_vec(parent.as_slice());
    dir.extend_from_slice(record.hash.as_slice());
    let mut content_dest = vstd::slice::slice_to_vec(dir.as_slice());
    content_dest.push(SLASH);
    content_dest.extend_from_slice(content_name.as_slice());
    let mut input_dest = vstd::slice::slice_to_vec(dir.as_slice());
    input_dest.push(SLASH);
    input_dest.extend_from_slice(input_name.as_slice());
    proof {
        assert(content_dest@ =~= parent_prefix(input_path@) + record.hash@ + seq![SLASH]
            + file_name(record.new_name@));
        assert(input_dest@ =~= parent_prefix(input_path@) + record.hash@ + seq![SLASH] + file_name(
            input_path@,
        ));
    }
    QuarantinePlan { dir, content_dest, input_dest }
}

/// What Bundle asks the application to do: write `container` to
/// `container_name`, then delete the bundled inputs.
#[derive(Debug)]
pub struct BundlePlan {
    pub record: FileRecord,
    pub container_name: Vec<u8>,
    pub container: Vec<u8>,
}

/// Bundle a labeled pair: the record entry carries the sidecar's bytes under
/// the sidecar's own name, the payload entry the labeled content under the
/// labeled name; the container is named by swapping the sidecar suffix for
/// the container suffix.  A record whose sidecar name is not in sidecar form
/// is rejected as malformed.
pub fn bundle_from_record(record_bytes: &Vec<u8>, content: &Vec<u8>) -> (r: Result<
    BundlePlan,
    Error,
>)
    requires
        record_bytes@.len() + 2 <= 0xffffffff,
        content@.len() <= 0xffffffff,
        3 * record_bytes@.len() + content@.len() + 1024 <= usize::MAX,
    ensures
        match r {
            Ok(plan) => {
                &&& decode_spec(record_bytes@) == Option::Some(plan.record@)
                &&& is_record_name(plan.record.ncsum_name@)
                &&& plan.container_name@ == plan.record.ncsum_name@.subrange(
                    0,
                    plan.record.ncsum_name@.len() - ncsum_suffix().len(),
                ) + pncsum_suffix()
                &&& plan.container@ == container_spec(
                    plan.record.ncsum_name@,
                    record_bytes@,
                    plan.record.new_name@,
                    content@,
                )
            },
            Err(e) => e == Error::RecordDecode && (match decode_spec(record_bytes@) {
                Option::None => true,
                Option::Some(rec) => !is_record_name(rec.ncsum_name),
            }),
        },
{
    let record = match decode_record(record_bytes) {
        Ok(rec) => rec,
        Err(e) => {
            return Err(e);
        },
    };
    let nsfx = ncsum_suffix_bytes();
    if !bytes_end_with(&record.ncsum_name, &nsfx) {
        return Err(Error::RecordDecode);
    }
    proof {
        lemma_decode_lens(record_bytes@);
        crate::container::lemma_entry_len_bound(record.ncsum_name@, record_bytes@);
        crate::container::lemma_entry_len_bound(record.new_name@, content@);
    }
    let psfx = pncsum_suffix_bytes();
    let container_name = replace_suffix(&record.ncsum_name, &nsfx, &psfx);
    let container = write_container(&record.ncsum_name, record_bytes, &record.new_name, content);
    Ok(BundlePlan { record, container_name, container })
}

#[derive(Debug)]
pub enum BundleOutcome {
    /// The input already carries the container suffix: a no-op.
    Skipped,
    Bundled(BundlePlan),
}

/// Bundle straight from an original file: derive the record from the
/// content's digest, encode it, and write the container holding the encoded
/// record under the sidecar name and the content under the labeled name.
/// Inputs already in container form are skipped; an error is exactly a
/// derivation error.
pub fn bundle_from_path(path: &Vec<u8>, content: &Vec<u8>) -> (r: Result<BundleOutcome, Error>)
    requires
        path@.len() <= 0xffffff,
        content@.len() <= 0xffffffff,
        16 * path@.len() + content@.len() + 4096 <= usize::MAX,
    ensures
        match r {
            Ok(out) => match out {
                BundleOutcome::Skipped => ends_with(path@, pncsum_suffix()),
                BundleOutcome::Bundled(plan) => {
                    &&& !ends_with(path@, pncsum_suffix())
                    &&& Ok::<RecordView, Error>(plan.record@) == derive_spec(
                        path@,
                        digest_of(content@),
                    )
                    &&& is_digest(plan.record.hash@)
                    &&& plan.container_name@ == plan.record.ncsum_name@.subrange(
                        0,
                        plan.record.ncsum_name@.len() - ncsum_suffix().len(),
                    ) + pncsum_suffix()
                    &&& plan.container@ == container_spec(
                        plan.record.ncsum_name@,
                        encode_spec(plan.record@),
                        plan.record.new_name@,
                        content@,
                    )
                },
            },
            Err(e) => !ends_with(path@, pncsum_suffix()) && Err::<RecordView, Error>(e)
                == derive_spec(path@, digest_of(content@)),
        },
{
    let psfx = pncsum_suffix_bytes();
    if bytes_end_with(path, &psfx) {
        return Ok(BundleOutcome::Skipped);
    }
    let record = match crate::record::derive(path, content) {
        Ok(rec) => rec,
        Err(e) => {
            return Err(e);
        },
    };
    let record_bytes = encode_record(&record);
    let nsfx = ncsum_suffix_bytes();
    proof {
        let par = parent_prefix(path@);
        lemma_parent_prefix_len(path@);
        lemma_find_suffix_props(file_name(path@));
        lemma_encode_len(record@);
        assert(record.ncsum_name@.subrange(
            record.ncsum_name@.len() - 6,
            record.ncsum_name@.len() as int,
        ) =~= ncsum_suffix());
        crate::container::lemma_entry_len_bound(record.ncsum_name@, record_bytes@);
        crate::container::lemma_entry_len_bound(record.new_name@, content@);
    }
    let container_name = replace_suffix(&record.ncsum_name, &nsfx, &psfx);
    let container = write_container(&record.ncsum_name, &record_bytes, &record.new_name, content);
    Ok(BundleOutcome::Bundled(BundlePlan { record, container_name, container }))
}

/// The digest is a function of the content alone: equal contents always
/// carry equal digests, in every run.
pub proof fn lemma_digest_deterministic(a: Seq<u8>, b: Seq<u8>)
    requires
        a == b,
    ensures
        digest_of(a) == digest_of(b),
{
}

/// Label then Restore round trip: the sidecar written beside a labeled file
/// decodes back to exactly the derived record, whose original name is the
/// path that was labeled — so the restoring rename reproduces the original
/// file name, and the content rides the renames unchanged.
pub proof fn lemma_label_restore_round_trip(path: Seq<u8>, digest: Seq<u8>)
    requires
        derive_spec(path, digest) is Ok,
    ensures
        decode_spec(encode_spec(derive_spec(path, digest).unwrap())) == Option::Some(
            derive_spec(path, digest).unwrap(),
        ),
        derive_spec(path, digest).unwrap().old_name == path,
        derive_spec(path, digest).unwrap().hash == digest,
{
    lemma_record_round_trip(derive_spec(path, digest).unwrap());
}

/// A freshly labeled pair always verifies: the derived record carries
/// exactly the digest of the content it was derived from.
pub proof fn lemma_fresh_label_verifies(path: Seq<u8>, content: Seq<u8>)
    requires
        derivable(path),
    ensures
        derive_spec(path, digest_of(content)) is Ok,
        derive_spec(path, digest_of(content)).unwrap().hash == digest_of(content),
{
}

/// Derivation fails with `MissingExtension` exactly when the file name
/// holds no dot, whatever the digest; the input itself is untouched, since
/// derivation only reads it.
pub proof fn lemma_missing_extension(path: Seq<u8>, digest: Seq<u8>)
    requires
        file_name(path).len() > 0,
    ensures
        (derive_spec(path, digest) == Err::<RecordView, Error>(Error::MissingExtension)) <==> (
        find_suffix(file_name(path)) is None),
{
}

/// A labeled file's name is never in sidecar form: its tail is hex digits
/// plus a suffix holding a dot only at its head, and the path itself is not
/// in sidecar form.
proof fn lemma_labeled_name_not_record(path: Seq<u8>, digest: Seq<u8>)
    requires
        derivable(path),
        !ends_with(path, ncsum_suffix()),
        is_digest(digest),
    ensures
        !is_record_name(derive_spec(path, digest).unwrap().new_name),
{
    let rec = derive_spec(path, digest).unwrap();
    let pname = rec.new_name;
    let sfx = find_suffix(file_name(path)).unwrap();
    lemma_parent_prefix_len(path);
    lemma_find_suffix_props(file_name(path));
    let sl = sfx.len() as int;
    let pl = pname.len() as int;
    if ends_with(pname, ncsum_suffix()) {
        assert(pname.subrange(pl - 6, pl) == ncsum_suffix());
        assert(pname[pl - 6] == DOT);
        if sl < 6 {
            assert(pname[pl - 6] == digest[32 - 6 + sl]);
            assert(is_hex_digit(digest[32 - 6 + sl]));
            assert(false);
        } else if sl > 6 {
            assert(pname[pl - 6] == sfx[sl - 6]);
            assert(sfx[sl - 6] != DOT);
            assert(false);
        } else {
            assert(sfx =~= ncsum_suffix()) by {
                assert(forall|i: int|
                    0 <= i < 6 ==> pname.subrange(pl - 6, pl)[i] == #[trigger] sfx[i]);
            }
            let fnm = file_name(path);
            assert(fnm.subrange(fnm.len() - 6, fnm.len() as int) == sfx);
            assert(ends_with(path, ncsum_suffix())) by {
                assert(path.subrange(path.len() - 6, path.len() as int) =~= sfx);
            }
            assert(false);
        }
    }
}

/// A two-entry sequence whose first name is in sidecar form and whose
/// second is not carries the first entry's bytes as record and the second's
/// as payload.
proof fn lemma_two_entry_contents(rname: Seq<u8>, rb: Seq<u8>, pname: Seq<u8>, content: Seq<u8>)
    requires
        is_record_name(rname),
        !is_record_name(pname),
    ensures
        record_entry_of(seq![(rname, rb), (pname, content)]) == Option::Some(rb),
        payload_of(seq![(rname, rb), (pname, content)]) == content,
{
    let es = seq![(rname, rb), (pname, content)];
    assert(es.last() == (pname, content));
    assert(es.drop_last() =~= seq![(rname, rb)]);
    assert(seq![(rname, rb)].last() == (rname, rb));
    assert(seq![(rname, rb)].drop_last() =~= Seq::<(Seq<u8>, Seq<u8>)>::empty());
    assert(record_entry_of(seq![(rname, rb)]) == Option::Some(rb));
    assert(record_entry_of(es) == record_entry_of(es.drop_last()));
    assert(payload_of(Seq::<(Seq<u8>, Seq<u8>)>::empty()) == Seq::<u8>::empty());
    assert(payload_of(seq![(rname, rb)]) == Seq::<u8>::empty());
    assert(payload_of(es) == payload_of(es.drop_last()) + content);
    assert(payload_of(es) =~= content);
}

/// A well-formed two-entry container carries exactly its record and its
/// payload.
proof fn lemma_contents_of_wf_container(
    rname: Seq<u8>,
    rb: Seq<u8>,
    pname: Seq<u8>,
    content: Seq<u8>,
    rec: RecordView,
)
    requires
        rname.len() + 1 <= 0xffffffff,
        rb.len() <= 0xffffffff,
        pname.len() + 1 <= 0xffffffff,
        content.len() <= 0xffffffff,
        rname != trailer_name(),
        pname != trailer_name(),
        is_record_name(rname),
        !is_record_name(pname),
        decode_spec(rb) == Option::Some(rec),
    ensures
        container_contents(container_spec(rname, rb, pname, content)) == Ok::<
            (RecordView, Seq<u8>),
            Error,
        >((rec, content)),
{
    lemma_container_round_trip(rname, rb, pname, content);
    lemma_two_entry_contents(rname, rb, pname, content);
}

/// Bundle then Unbundle round trip: the container bundled from a derivable
/// path's record and its content carries exactly that record and
/// byte-identical content; unbundling accepts it whenever the recorded
/// digest is the content's, and answers `IntegrityMismatch` otherwise.
#[verifier::rlimit(100)]
pub proof fn lemma_bundle_unbundle_round_trip(path: Seq<u8>, content: Seq<u8>, digest: Seq<u8>)
    requires
        derivable(path),
        !ends_with(path, ncsum_suffix()),
        is_digest(digest),
        path.len() <= 0xffffff,
        content.len() <= 0xffffffff,
    ensures
        ({
            let rec = derive_spec(path, digest).unwrap();
            let container = container_spec(
                rec.ncsum_name,
                encode_spec(rec),
                rec.new_name,
                content,
            );
            &&& container_contents(container) == Ok::<(RecordView, Seq<u8>), Error>((rec, content))
            &&& (digest_of(content) == digest ==> unbundle_spec(container) == Ok::<
                (RecordView, Seq<u8>),
                Error,
            >((rec, content)))
            &&& (digest_of(content) != digest ==> unbundle_spec(container) == Err::<
                (RecordView, Seq<u8>),
                Error,
            >(Error::IntegrityMismatch))
        }),
{
    let rec = derive_spec(path, digest).unwrap();
    let rb = encode_spec(rec);
    let rname = rec.ncsum_name;
    let pname = rec.new_name;
    let par = parent_prefix(path);
    let sfx = find_suffix(file_name(path)).unwrap();
    lemma_parent_prefix_len(path);
    lemma_find_suffix_props(file_name(path));
    lemma_encode_len(rec);
    let sl = sfx.len() as int;

    // The record entry's name is in sidecar form.
    assert(ends_with(rname, ncsum_suffix())) by {
        assert(rname.subrange(rname.len() - 6, rname.len() as int) =~= ncsum_suffix());
    }

    lemma_labeled_name_not_record(path, digest);

    // Neither content entry is the trailer: both are longer than its name.
    assert(rname.len() == par.len() + 38);
    assert(pname.len() == par.len() + 32 + sl);
    assert(rname != trailer_name());
    assert(pname != trailer_name());

    lemma_record_round_trip(rec);
    lemma_contents_of_wf_container(rname, rb, pname, content, rec);
}

} // verus!
