//! Status decoding for restricted transactional memory.
//!
//! Beginning a hardware transaction either starts it — reported by the
//! sentinel `_XBEGIN_STARTED` — or aborts before it ever became active,
//! reported by a bit mask naming the cause, with an 8-bit caller-chosen
//! code in the top byte when the abort was explicit.  The instructions
//! themselves touch hardware and live with the callers that issue them;
//! this module holds the decoding of what they report, which is plain
//! logic.  An abort is a normal, frequent outcome: callers must always keep
//! a fallback path (such as a `TryLock`), since the hardware never
//! guarantees forward progress.

use vstd::prelude::*;

verus! {

/// The sentinel reported when the transaction actually started.
pub const _XBEGIN_STARTED: u32 = 0xffff_ffff;

/// The transaction was aborted by an explicit abort instruction.
pub const _XABORT_EXPLICIT: u32 = 1 << 0;

/// The transaction may succeed if retried.
pub const _XABORT_RETRY: u32 = 1 << 1;

/// Another core conflicted with a transactional address.
pub const _XABORT_CONFLICT: u32 = 1 << 2;

/// The transaction outgrew the hardware's capacity.
pub const _XABORT_CAPACITY: u32 = 1 << 3;

/// A debug trap fired inside the transaction.
pub const _XABORT_DEBUG: u32 = 1 << 4;

/// The abort happened inside a nested transaction.
pub const _XABORT_NESTED: u32 = 1 << 5;

/// A begin attempt, decoded.
#[derive(Clone, Copy, Debug, PartialEq, Eq, Structural)]
pub enum TxStatus {
    Started,
    AbortExplicit,
    AbortRetry,
    AbortConflict,
    AbortCapacity,
    AbortDebug,
    AbortNested,
    AbortUnknown,
}

/// The decoding rule: the start sentinel wins, then the cause bits in
/// order, then the catch-all.
pub open spec fn spec_decode(code: u32) -> TxStatus {
    if code == _XBEGIN_STARTED {
        TxStatus::Started
    } else if code & _XABORT_EXPLICIT != 0 {
        TxStatus::AbortExplicit
    } else if code & _XABORT_RETRY != 0 {
        TxStatus::AbortRetry
    } else if code & _XABORT_CONFLICT != 0 {
        TxStatus::AbortConflict
    } else if code & _XABORT_CAPACITY != 0 {
        TxStatus::AbortCapacity
    } else if code & _XABORT_DEBUG != 0 {
        TxStatus::AbortDebug
    } else if code & _XABORT_NESTED != 0 {
        TxStatus::AbortNested
    } else {
        TxStatus::AbortUnknown
    }
}

/// Decodes what beginning a transaction reported.
pub fn decode_status(code: u32) -> (r: TxStatus)
    ensures
        r == spec_decode(code),
        (r == TxStatus::Started) == (code == _XBEGIN_STARTED),
{
    if code == _XBEGIN_STARTED {
        TxStatus::Started
    } else if code & _XABORT_EXPLICIT != 0 {
        TxStatus::AbortExplicit
    } else if code & _XABORT_RETRY != 0 {
        TxStatus::AbortRetry
    } else if code & _XABORT_CONFLICT != 0 {
        TxStatus::AbortConflict
    } else if code & _XABORT_CAPACITY != 0 {
        TxStatus::AbortCapacity
    } else if code & _XABORT_DEBUG != 0 {
        TxStatus::AbortDebug
    } else if code & _XABORT_NESTED != 0 {
        TxStatus::AbortNested
    } else {
        TxStatus::AbortUnknown
    }
}

/// The caller-chosen code of an explicit abort: the top byte of the status
/// word reported at the begin call site.
#[allow(non_snake_case)]
pub fn _XABORT_CODE(status: u32) -> (r: u8)
    ensures
        r as u32 == status >> 24,
{
    proof {
        assert(status >> 24 < 256 && ((status >> 24) as u8) as u32 == status >> 24)
            by (bit_vector);
    }
    (status >> 24) as u8
}

} // verus!
