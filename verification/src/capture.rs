//! Capture records, their quality flags, manifests and gap markers.
use vstd::prelude::*;
use crate::instrument::{Channel, Instrument};
use crate::time::Timestamp;

verus! {

/// The version of the capture layout this library writes.
pub const SCHEMA_VERSION: u32 = 1;

/// The identifier of one capture.
#[derive(Clone, PartialEq, Eq, Hash, Debug)]
pub struct CaptureId(String);

impl View for CaptureId {
    type V = Seq<char>;

    closed spec fn view(&self) -> Seq<char> {
        self.0@
    }
}

impl CaptureId {
    pub fn new(value: String) -> (r: CaptureId)
        ensures
            r@ == value@,
    {
        CaptureId(value)
    }

    pub fn as_str(&self) -> (s: &str)
        ensures
            s@ == self@,
    {
        self.0.as_str()
    }
}

pub const SEQUENCE_GAP_BIT: u32 = 1;

pub const DUPLICATE_BIT: u32 = 2;

pub const RESYNC_BIT: u32 = 4;

pub const STALE_BIT: u32 = 8;

pub const UNRELIABLE_BIT: u32 = 16;

pub const TRUNCATED_BIT: u32 = 32;

pub const SYNTHETIC_BIT: u32 = 64;

/// A set of capture quality bits.
#[derive(Clone, Copy, PartialEq, Eq, Structural, Hash, Default, Debug)]
pub struct CaptureFlags(pub u32);

impl CaptureFlags {
    /// No flag.
    pub fn none() -> (r: Self)
        ensures
            r.0 == 0,
    {
        CaptureFlags(0)
    }

    /// The venue stream skipped a sequence number.
    pub fn sequence_gap() -> (r: Self)
        ensures
            r.0 == SEQUENCE_GAP_BIT,
    {
        CaptureFlags(SEQUENCE_GAP_BIT)
    }

    /// The frame repeats one already recorded.
    pub fn duplicate() -> (r: Self)
        ensures
            r.0 == DUPLICATE_BIT,
    {
        CaptureFlags(DUPLICATE_BIT)
    }

    /// The capture resynchronised after a gap.
    pub fn resync() -> (r: Self)
        ensures
            r.0 == RESYNC_BIT,
    {
        CaptureFlags(RESYNC_BIT)
    }

    /// The data was too old to trust at capture time.
    pub fn stale() -> (r: Self)
        ensures
            r.0 == STALE_BIT,
    {
        CaptureFlags(STALE_BIT)
    }

    /// The surrounding window cannot be trusted.
    pub fn unreliable() -> (r: Self)
        ensures
            r.0 == UNRELIABLE_BIT,
    {
        CaptureFlags(UNRELIABLE_BIT)
    }

    /// The payload was cut short.
    pub fn truncated() -> (r: Self)
        ensures
            r.0 == TRUNCATED_BIT,
    {
        CaptureFlags(TRUNCATED_BIT)
    }

    /// The record was written by the recorder, not by the venue.
    pub fn synthetic() -> (r: Self)
        ensures
            r.0 == SYNTHETIC_BIT,
    {
        CaptureFlags(SYNTHETIC_BIT)
    }

    pub fn bits(self) -> (r: u32)
        ensures
            r == self.0,
    {
        self.0
    }

    /// Whether every bit of `other` is set in `self`.
    pub fn contains(self, other: Self) -> (r: bool)
        ensures
            r == (self.0 & other.0 == other.0),
    {
        self.0 & other.0 == other.0
    }

    pub fn union(self, other: Self) -> (r: Self)
        ensures
            r.0 == self.0 | other.0,
    {
        CaptureFlags(self.0 | other.0)
    }

    pub fn insert(&mut self, other: Self)
        ensures
            final(self).0 == old(self).0 | other.0,
    {
        self.0 = self.0 | other.0;
    }
}

/// Union keeps what was set and adds what was asked: the union of two flag
/// sets contains both, and no bit that neither of them has.
pub proof fn lemma_union_contains(a: u32, b: u32)
    ensures
        (a | b) & a == a,
        (a | b) & b == b,
        (a | b) & !a & !b == 0,
{
    assert((a | b) & a == a) by (bit_vector);
    assert((a | b) & b == b) by (bit_vector);
    assert((a | b) & !a & !b == 0) by (bit_vector);
}

/// The gap record flags: synthetic, a sequence gap, an unreliable window.
pub open spec fn gap_flag_bits() -> u32 {
    SYNTHETIC_BIT | SEQUENCE_GAP_BIT | UNRELIABLE_BIT
}

/// One captured frame, or one synthetic record written by the recorder.
#[derive(Clone, PartialEq, Eq, Debug)]
pub struct CaptureRecord {
    pub seq: u64,
    pub instrument: Instrument,
    pub channel: Channel,
    pub ts_socket: Timestamp,
    pub ts_exchange: Option<Timestamp>,
    pub payload: Vec<u8>,
    pub flags: CaptureFlags,
}

/// The description of one capture.
#[derive(Clone, PartialEq, Eq, Debug)]
pub struct CaptureManifest {
    pub schema_version: u32,
    pub capture_id: CaptureId,
    pub created_at: Timestamp,
    pub instrument: Instrument,
    pub channel: Channel,
    pub frames_written: u64,
    pub stop_reason: Option<String>,
}

/// The payload of a gap record: when the gap started and ended, how many
/// reconnect attempts it took (zero for a sequence gap), and why.
#[derive(Clone, PartialEq, Eq, Debug)]
pub struct GapMarker {
    pub started_at: Timestamp,
    pub ended_at: Timestamp,
    pub attempts: u32,
    pub reason: String,
}

} // verus!
