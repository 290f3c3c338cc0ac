//! Per-item snapshot state: what is recorded about one tracked item, and the
//! decision rules that compare a recorded state against a live observation.

use vstd::prelude::*;

verus! {

/// A 256-bit content digest, stored as four 64-bit little-endian words.
#[derive(Clone, Copy, Debug, Hash, PartialEq, Eq, Structural)]
pub struct Digest {
    pub w0: u64,
    pub w1: u64,
    pub w2: u64,
    pub w3: u64,
}

/// A last-modified timestamp: seconds and subsecond nanoseconds since an
/// arbitrary fixed epoch.
#[derive(Clone, Copy, Debug, Hash, PartialEq, Eq, Structural)]
pub struct Timestamp {
    pub secs: u64,
    pub nanos: u32,
}

/// The cheap, metadata-level properties of a live item: byte length and
/// last-modified timestamp.
#[derive(Clone, Copy, Debug, Hash, PartialEq, Eq, Structural)]
pub struct FileMeta {
    pub len: u64,
    pub modified: Timestamp,
}

/// Everything observable about a live item at one point in time: either the
/// item could not be read at all, or its metadata together with the digest of
/// its full content.
#[derive(Clone, Copy, Debug, Hash, PartialEq, Eq, Structural)]
pub enum Observation {
    /// The item does not exist or could not be inspected.
    Missing,
    /// The item was readable; these are its properties.
    Found { meta: FileMeta, digest: Digest },
}

/// The outcome of the cheap metadata comparison alone.
#[derive(Clone, Copy, Debug, PartialEq, Eq, Structural)]
pub enum Verdict {
    /// The item is gone or unreadable: it counts as changed.
    Changed,
    /// Length and modified-timestamp both match the recorded state: the item
    /// counts as unchanged without reading its content.
    Unchanged,
    /// The metadata differs: only a content digest comparison can decide.
    NeedContent,
}

/// The digest that hashing a byte string yields. Its value is fixed by the
/// hash function; contracts relate results to this name rather than spelling
/// the algorithm out.
pub uninterp spec fn digest_of(content: Seq<u8>) -> Digest;

/// The snapshot capability: a state type that can be captured from an
/// observation of a live item and later compared against a fresh observation.
pub trait State<U>: Sized {
    /// What capturing from a given observation yields, if anything.
    spec fn capture_spec(item: U) -> Option<Self>;

    /// Whether a recorded state counts as changed against a fresh observation.
    spec fn changed_spec(self, item: U) -> bool;

    /// Capture a state from an observation; `None` means the item was not
    /// inspectable and gets no entry.
    fn from(item: &U) -> (r: Option<Self>)
        ensures
            r == Self::capture_spec(*item),
    ;

    /// Compare this recorded state against a fresh observation of the item.
    fn has_changed(&self, item: &U) -> (r: bool)
        ensures
            r == self.changed_spec(*item),
    ;
}

/// The recorded state of one file: length, modified-timestamp, and content
/// digest, all captured at the same moment.
#[derive(Clone, Copy, Debug, Hash, PartialEq, Eq, Structural)]
pub struct FileState {
    pub len: u64,
    pub modified: Timestamp,
    pub digest: Digest,
}

/// The layered change rule for files: a missing item is changed; matching
/// metadata means unchanged without consulting the digest; differing metadata
/// defers to the digest comparison alone.
pub open spec fn file_changed(s: FileState, o: Observation) -> bool {
    match o {
        Observation::Missing => true,
        Observation::Found { meta, digest } => {
            if meta.len == s.len && meta.modified == s.modified {
                false
            } else {
                digest != s.digest
            }
        },
    }
}

/// What capturing a file state from an observation yields: nothing for a
/// missing item, otherwise the observed properties verbatim.
pub open spec fn file_capture(o: Observation) -> Option<FileState> {
    match o {
        Observation::Missing => None,
        Observation::Found { meta, digest } => Some(
            FileState { len: meta.len, modified: meta.modified, digest },
        ),
    }
}

/// Relies on `sha2::Sha256`: the SHA-256 digest of a byte string depends on
/// those bytes alone.
#[verifier::external_body]
fn compute_digest(content: &Vec<u8>) -> (r: Digest)
    ensures
        r == digest_of(content@),
{
    let d = <sha2::Sha256 as sha2::Digest>::digest(content.as_slice());
    let b: &[u8] = d.as_slice();
    Digest {
        w0: u64::from_le_bytes(b[0..8].try_into().unwrap()),
        w1: u64::from_le_bytes(b[8..16].try_into().unwrap()),
        w2: u64::from_le_bytes(b[16..24].try_into().unwrap()),
        w3: u64::from_le_bytes(b[24..32].try_into().unwrap()),
    }
}

impl FileState {
    /// Capture a file state directly from the live properties: metadata plus
    /// the full content, whose digest is recorded.
    pub fn capture(len: u64, modified: Timestamp, content: &Vec<u8>) -> (r: FileState)
        ensures
            r.len == len,
            r.modified == modified,
            r.digest == digest_of(content@),
    {
        FileState { len, modified, digest: compute_digest(content) }
    }

    /// The cheap first layer of the change check: metadata alone. Never reads
    /// content; says when content must be consulted.
    pub fn check_meta(&self, live: Option<FileMeta>) -> (r: Verdict)
        ensures
            live is None ==> r == Verdict::Changed,
            (live matches Some(m) && m.len == self.len && m.modified == self.modified)
                ==> r == Verdict::Unchanged,
            (live matches Some(m) && !(m.len == self.len && m.modified == self.modified))
                ==> r == Verdict::NeedContent,
    {
        match live {
            None => Verdict::Changed,
            Some(m) => {
                if m.len == self.len && m.modified.secs == self.modified.secs
                    && m.modified.nanos == self.modified.nanos {
                    Verdict::Unchanged
                } else {
                    Verdict::NeedContent
                }
            },
        }
    }

    /// The second layer: decide by content digest alone, for use when the
    /// metadata comparison was inconclusive.
    pub fn content_changed(&self, content: &Vec<u8>) -> (r: bool)
        ensures
            r == (digest_of(content@) != self.digest),
    {
        let d = compute_digest(content);
        !(d.w0 == self.digest.w0 && d.w1 == self.digest.w1 && d.w2 == self.digest.w2
            && d.w3 == self.digest.w3)
    }
}

impl State<Observation> for FileState {
    open spec fn capture_spec(item: Observation) -> Option<FileState> {
        file_capture(item)
    }

    open spec fn changed_spec(self, item: Observation) -> bool {
        file_changed(self, item)
    }

    fn from(item: &Observation) -> (r: Option<FileState>) {
        match item {
            Observation::Missing => None,
            Observation::Found { meta, digest } => Some(
                FileState { len: meta.len, modified: meta.modified, digest: *digest },
            ),
        }
    }

    fn has_changed(&self, item: &Observation) -> (r: bool) {
        match item {
            Observation::Missing => true,
            Observation::Found { meta, digest } => {
                match self.check_meta(Some(*meta)) {
                    Verdict::Changed => true,
                    Verdict::Unchanged => false,
                    Verdict::NeedContent => {
                        !(digest.w0 == self.digest.w0 && digest.w1 == self.digest.w1
                            && digest.w2 == self.digest.w2 && digest.w3 == self.digest.w3)
                    },
                }
            },
        }
    }
}

} // verus!
