//! Content-addressed file lifecycle library.
//!
//! A file's bytes are hashed to a lowercase hex digest; the file is renamed to
//! that digest (keeping its suffix) and a small sidecar record maps the digest
//! back to the original name.  A record and its content can be bundled into a
//! single two-entry container file and later unbundled, with the digest
//! re-checked on the way out.  This crate holds the verified core: path
//! derivation, the record codec, the container codec, and the lifecycle
//! transitions as pure functions over bytes.  File and console I/O live in the
//! surrounding application, which feeds this library plain byte vectors.

use vstd::prelude::*;

pub mod container;
pub mod engine;
pub mod hash;
pub mod paths;
pub mod record;
pub mod record_codec;

verus! {

/// Everything that can go wrong in the lifecycle engine or its codecs.
#[derive(Clone, Copy, Debug, PartialEq, Eq, Structural)]
pub enum Error {
    /// A source file's content could not be read.
    HashIO,
    /// The file name holds no `.`, so no suffix can be derived.
    MissingExtension,
    /// The path has no file-name component to derive from.
    MissingParent,
    /// A sidecar record (standalone or inside a container) is malformed.
    RecordDecode,
    /// A container stream is truncated, lacks its trailer, or has a bad header.
    ContainerCorrupt,
    /// A recomputed digest disagrees with the recorded digest.
    IntegrityMismatch,
    /// A rename, create, delete, or mkdir failed.
    FilesystemOp,
    /// An input's suffix names neither a sidecar record nor a container.
    UnrecognizedExtension,
}

} // verus!
