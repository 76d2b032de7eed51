//! The sidecar record: a digest paired with the three derived path names.

use vstd::prelude::*;

use crate::Error;
use crate::hash::{digest_of, hash_bytes, is_digest};
use crate::paths::{file_name, find_suffix, name_suffix, ncsum_suffix, parent_prefix, split_parent};

verus! {

/// The one persistent entity: a digest and the original, labeled, and sidecar
/// path names, all as byte strings.
#[derive(Debug)]
pub struct FileRecord {
    pub hash: Vec<u8>,
    pub old_name: Vec<u8>,
    pub new_name: Vec<u8>,
    pub ncsum_name: Vec<u8>,
}

/// The mathematical shadow of a `FileRecord`.
pub struct RecordView {
    pub hash: Seq<u8>,
    pub old_name: Seq<u8>,
    pub new_name: Seq<u8>,
    pub ncsum_name: Seq<u8>,
}

impl View for FileRecord {
    type V = RecordView;

    open spec fn view(&self) -> RecordView {
        RecordView {
            hash: self.hash@,
            old_name: self.old_name@,
            new_name: self.new_name@,
            ncsum_name: self.ncsum_name@,
        }
    }
}

/// What derivation from a path and a digest yields: the labeled name is the
/// digest plus the original suffix beside the original, the sidecar name is
/// the digest plus `.ncsum` beside it.  A path without a file-name component
/// cannot be derived from; a file name without a `.` has no suffix.
pub open spec fn derive_spec(path: Seq<u8>, digest: Seq<u8>) -> Result<RecordView, Error> {
    if file_name(path).len() == 0 {
        Err(Error::MissingParent)
    } else {
        match find_suffix(file_name(path)) {
            Option::Some(sfx) => Ok(
                RecordView {
                    hash: digest,
                    old_name: path,
                    new_name: parent_prefix(path) + digest + sfx,
                    ncsum_name: parent_prefix(path) + digest + ncsum_suffix(),
                },
            ),
            Option::None => Err(Error::MissingExtension),
        }
    }
}

/// Whether a path can be derived from at all: it has a file-name component
/// and that name holds a `.`.  Derivation succeeds for exactly these paths,
/// whatever the digest.
pub open spec fn derivable(path: Seq<u8>) -> bool {
    file_name(path).len() > 0 && find_suffix(file_name(path)) is Some
}

/// Build the record for `path` from the digest of `content`.
///
/// Succeeds exactly when the path has a file-name component holding a `.`;
/// the record is then precisely `derive_spec` of the path and the content's
/// digest.
pub fn derive(path: &Vec<u8>, content: &Vec<u8>) -> (r: Result<FileRecord, Error>)
    ensures
        match r {
            Ok(rec) => Ok::<RecordView, Error>(rec@) == derive_spec(path@, digest_of(content@))
                && is_digest(rec.hash@),
            Err(e) => Err::<RecordView, Error>(e) == derive_spec(path@, digest_of(content@)),
        },
{
    let (parent, name) = split_parent(path);
    if name.len() == 0 {
        return Err(Error::MissingParent);
    }
    let sfx = match name_suffix(&name) {
        Option::Some(s) => s,
        Option::None => {
            return Err(Error::MissingExtension);
        },
    };
    let digest = hash_bytes(content);

    let mut new_name = vstd::slice::slice_to_vec(parent.as_slice());
    new_name.extend_from_slice(digest.as_slice());
    new_name.extend_from_slice(sfx.as_slice());

    let mut ncsum_name = vstd::slice::slice_to_vec(parent.as_slice());
    ncsum_name.extend_from_slice(digest.as_slice());
    let dot_ncsum = crate::paths::ncsum_suffix_bytes();
    ncsum_name.extend_from_slice(dot_ncsum.as_slice());

    let rec = FileRecord {
        hash: digest,
        old_name: vstd::slice::slice_to_vec(path.as_slice()),
        new_name,
        ncsum_name,
    };
    proof {
        assert(rec.new_name@ =~= parent_prefix(path@) + digest_of(content@) + find_suffix(
            file_name(path@),
        ).unwrap());
        assert(rec.ncsum_name@ =~= parent_prefix(path@) + digest_of(content@) + ncsum_suffix());
    }
    Ok(rec)
}

} // verus!
