//! The microsecond timestamps that operations carry.
//!
//! `Timestamp` comes from `kitsune_p2p_timestamp`. Its inside is hidden from
//! the verifier: this file says what is taken on trust about it.

use vstd::prelude::*;
use kitsune_p2p_timestamp::Timestamp;

verus! {

/// `kitsune_p2p_timestamp::Timestamp`, a count of microseconds since the
/// UNIX epoch held in an `i64`. Declared opaque.
#[verifier::external_type_specification]
#[verifier::external_body]
pub struct ExTimestamp(kitsune_p2p_timestamp::Timestamp);

/// `kitsune_p2p_timestamp::TimestampError`, the error of the timestamp
/// arithmetic that the crate offers. Nothing here produces one; it is
/// declared because the operator impls of `Timestamp` name it.
#[verifier::external_type_specification]
#[verifier::external_body]
pub struct ExTimestampError(kitsune_p2p_timestamp::TimestampError);

/// The number of microseconds since the UNIX epoch that `t` holds: what
/// `Timestamp::as_micros` returns for it.
pub uninterp spec fn timestamp_micros(t: Timestamp) -> i64;

/// `Timestamp::from_micros` wraps its argument: reading the microseconds of
/// the result gives the argument back.
pub assume_specification[ Timestamp::from_micros ](micros: i64) -> (t: Timestamp)
    ensures
        timestamp_micros(t) == micros,
;

/// `Timestamp::as_micros` returns the wrapped count of microseconds.
pub assume_specification[ Timestamp::as_micros ](t: &Timestamp) -> (micros: i64)
    ensures
        micros == timestamp_micros(*t),
;

} // verus!
