//! Durable admission facts: identities, states and retained prevention causes.
//! Authorization belongs to the service; storage only preserves what it chose.
use vstd::prelude::*;

verus! {

/// A retained prevention cause; service policy selects it, storage preserves it.
#[derive(Clone, Copy, Debug, PartialEq, Eq, Structural)]
pub enum PreventionReason {
    /// No cause was recorded; migration cannot reconstruct one.
    Unknown,
    Requested,
    VersionConflict,
    AuthorityLost,
}

/// The byte a prevention cause is stored as.
pub open spec fn prevention_code(reason: PreventionReason) -> u8 {
    match reason {
        PreventionReason::Unknown => 0u8,
        PreventionReason::Requested => 1u8,
        PreventionReason::VersionConflict => 2u8,
        PreventionReason::AuthorityLost => 3u8,
    }
}

/// The cause a stored byte names, if any.
pub open spec fn prevention_of(code: u8) -> Option<PreventionReason> {
    if code == 0 {
        Some(PreventionReason::Unknown)
    } else if code == 1 {
        Some(PreventionReason::Requested)
    } else if code == 2 {
        Some(PreventionReason::VersionConflict)
    } else if code == 3 {
        Some(PreventionReason::AuthorityLost)
    } else {
        None
    }
}

pub fn prevention_byte(reason: PreventionReason) -> (r: u8)
    ensures
        r == prevention_code(reason),
        prevention_of(r) == Some(reason),
{
    match reason {
        PreventionReason::Unknown => 0,
        PreventionReason::Requested => 1,
        PreventionReason::VersionConflict => 2,
        PreventionReason::AuthorityLost => 3,
    }
}

pub fn prevention_from(code: u8) -> (r: Option<PreventionReason>)
    ensures
        r == prevention_of(code),
{
    if code == 0 {
        Some(PreventionReason::Unknown)
    } else if code == 1 {
        Some(PreventionReason::Requested)
    } else if code == 2 {
        Some(PreventionReason::VersionConflict)
    } else if code == 3 {
        Some(PreventionReason::AuthorityLost)
    } else {
        None
    }
}

/// An admission's durable state.
#[derive(Clone, Copy, Debug, PartialEq, Eq, Structural)]
pub enum AdmissionState {
    Admitted,
    Cancelled,
    Committed,
}

/// Separate namespace from completed-operation IDs. The number is the sequence
/// of a durably published admission.
#[derive(Clone, Copy, Debug, PartialEq, Eq)]
pub struct AdmissionId {
    pub lineage: [u8; 16],
    pub number: u64,
}

/// What a caller learns of an admission.
#[derive(Clone, Copy, Debug, PartialEq, Eq)]
pub struct AdmissionStatus {
    pub id: AdmissionId,
    pub state: AdmissionState,
    /// Sequence of the terminal metadata transition; zero while admitted.
    pub terminal: u64,
    /// The retained cause of a cancellation.
    pub prevention: Option<PreventionReason>,
}

} // verus!
