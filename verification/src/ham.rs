//! HAM (Hypothetical Amnesia Machine) conflict resolution.

use vstd::prelude::*;
use std::cmp::Ordering;
use crate::text::{chars_less, lemma_chars_less_total};
use crate::value::{lex_key, Value, ValueView};

verus! {

/// Result of HAM conflict resolution for an incoming update of one property.
#[derive(Debug, Clone, Copy, PartialEq, Eq, Structural)]
pub enum HamResult {
    /// The incoming value is newer: accept and apply it.
    Accept,
    /// The incoming value is older: discard it.
    Discard,
    /// The incoming value is from the future: defer processing.
    Defer,
    /// Equal states are settled by the lexicographic tiebreak inside
    /// [`Ham::resolve`]; this variant is never returned.
    _Tiebreak,
}

/// The HAM conflict resolution engine: a per-property algorithm.
///
/// - an incoming state ahead of the machine's clock is deferred;
/// - otherwise the write with the greater state wins;
/// - equal states are settled by comparing the values' canonical texts, the
///   greater winning, so that every peer converges to the same value
///   whatever the order in which the writes arrive.
pub struct Ham;

/// What HAM decides for an incoming write against the current one.
pub open spec fn ham_decision(
    machine_state: i64,
    incoming_state: i64,
    current_state: i64,
    incoming_value: ValueView,
    current_value: ValueView,
) -> HamResult {
    if incoming_state > machine_state {
        HamResult::Defer
    } else if incoming_state > current_state {
        HamResult::Accept
    } else if incoming_state < current_state {
        HamResult::Discard
    } else if chars_less(lex_key(current_value), lex_key(incoming_value)) {
        HamResult::Accept
    } else {
        HamResult::Discard
    }
}

impl Ham {
    /// Resolve a conflict between an incoming update and the current state
    /// (states are timestamps in milliseconds since the Unix epoch).
    pub fn resolve(
        machine_state: i64,
        incoming_state: i64,
        current_state: i64,
        incoming_value: &Value,
        current_value: &Value,
    ) -> (r: HamResult)
        ensures
            r == ham_decision(
                machine_state,
                incoming_state,
                current_state,
                incoming_value@,
                current_value@,
            ),
    {
        if incoming_state > machine_state {
            return HamResult::Defer;
        }
        if incoming_state > current_state {
            return HamResult::Accept;
        }
        if incoming_state < current_state {
            return HamResult::Discard;
        }
        proof {
            lemma_chars_less_total(lex_key(incoming_value@), lex_key(current_value@));
        }
        match incoming_value.lexicographic_cmp(current_value) {
            Ordering::Greater => HamResult::Accept,
            _ => HamResult::Discard,
        }
    }
}

/// The machine time in milliseconds since the Unix epoch, by
/// `chrono::Utc::now().timestamp_millis()`.
///
/// Claims only that the reading is not `i64::MIN`: chrono's dates lie
/// within about 262,000 years of the epoch, so their milliseconds are far
/// from the bounds of `i64`. On WebAssembly in a browser chrono reads the
/// JavaScript clock; elsewhere it reads the system clock, and `Utc::now`
/// panics if that clock is set before 1970, a fault of the machine that
/// nothing here can rule out.
#[verifier::external_body]
fn utc_now_ms() -> (r: i64)
    ensures
        r > i64::MIN,
{
    chrono::Utc::now().timestamp_millis()
}

/// The current machine time in milliseconds since the Unix epoch
/// (negative before it, where the clock allows), from chrono's UTC clock;
/// the result is never `i64::MIN`.
pub fn now_ms() -> (r: i64)
    ensures
        r > i64::MIN,
{
    utc_now_ms()
}

} // verus!
