//! Counters of what an archive has used up.

use crate::error::{excess, invalid_data, outcome, Error, ErrorView};
use portable_atomic::AtomicU64;
use vstd::prelude::*;

verus! {

/// The atomic counter of `portable_atomic`.
#[verifier::external_type_specification]
#[verifier::external_body]
pub struct ExAtomicU64(portable_atomic::AtomicU64);

/// The number that a counter holds.
pub uninterp spec fn counter_value(counter: AtomicU64) -> u64;

/// `AtomicU64::new`: the counter holds the given number.
#[verifier::external_body]
pub(crate) fn new_counter(value: u64) -> (counter: AtomicU64)
    ensures
        counter_value(counter) == value,
{
    AtomicU64::new(value)
}

/// `AtomicU64::load`: the number in the counter, which stays as it is. The
/// counter is borrowed for this call alone, so nothing else changes it.
#[verifier::external_body]
pub(crate) fn load_counter(counter: &mut AtomicU64) -> (value: u64)
    ensures
        value == counter_value(*old(counter)),
        *final(counter) == *old(counter),
{
    counter.load(portable_atomic::Ordering::SeqCst)
}

/// `AtomicU64::fetch_add`: adds to the number in the counter, wrapping around
/// at 2^64, and returns what it was before.
#[verifier::external_body]
pub(crate) fn add_to_counter(counter: &mut AtomicU64, amount: u64) -> (before: u64)
    ensures
        before == counter_value(*old(counter)),
        counter_value(*final(counter)) == (before + amount) % 0x1_0000_0000_0000_0000,
{
    counter.fetch_add(amount, portable_atomic::Ordering::SeqCst)
}

/// `AtomicU64::fetch_update` with [`next_reservation`]: the counter takes the
/// number that the function gives for its own one, which is returned as `Ok`;
/// where the function gives none, the counter stays as it is and its number is
/// returned as `Err`. The counter is borrowed for this call alone.
#[verifier::external_body]
pub(crate) fn update_counter(counter: &mut AtomicU64, amount: u64, limit: u64) -> (before: Result<
    u64,
    u64,
>)
    ensures
        match reservation(counter_value(*old(counter)), amount, limit) {
            Some(next) => before == Ok::<u64, u64>(counter_value(*old(counter))) && counter_value(
                *final(counter),
            ) == next,
            None => before == Err::<u64, u64>(counter_value(*old(counter))) && counter_value(
                *final(counter),
            ) == counter_value(*old(counter)),
        },
{
    counter.fetch_update(
        portable_atomic::Ordering::Relaxed,
        portable_atomic::Ordering::Relaxed,
        |current| next_reservation(current, amount, limit),
    )
}

/// What a count becomes when `amount` is reserved, if that stays within the
/// limit.
pub open spec fn reservation(current: u64, amount: u64, limit: u64) -> Option<u64> {
    if current + amount <= limit {
        Some((current + amount) as u64)
    } else {
        None
    }
}

/// What a count becomes when `amount` is reserved, if that stays within the
/// limit.
pub fn next_reservation(current: u64, amount: u64, limit: u64) -> (next: Option<u64>)
    ensures
        next == reservation(current, amount, limit),
{
    match current.checked_add(amount) {
        Some(next) => if next <= limit {
            Some(next)
        } else {
            None
        },
        None => None,
    }
}

/// A count and the outcome after `amount` was to be reserved of it.
pub open spec fn reserved(current: u64, amount: u64, limit: u64, message: Seq<char>) -> (
    u64,
    Result<(), ErrorView>,
) {
    match reservation(current, amount, limit) {
        Some(next) => (next, Ok(())),
        None => (current, Err(excess(message))),
    }
}

/// Reserves `amount` of what the counter counts. Where the limit does not
/// allow that, the counter stays as it is.
pub fn reserve_with_limit(
    counter: &mut AtomicU64,
    amount: u64,
    limit: u64,
    message: &str,
) -> (done: Result<(), Error>)
    ensures
        (counter_value(*final(counter)), outcome(done)) == reserved(
            counter_value(*old(counter)),
            amount,
            limit,
            message@,
        ),
{
    match update_counter(counter, amount, limit) {
        Ok(_) => Ok(()),
        Err(_) => Err(invalid_data(message)),
    }
}

/// A count within a limit stays within it, and grows by what was reserved.
pub proof fn law_reserved_stays_within_limit(
    current: u64,
    amount: u64,
    limit: u64,
    message: Seq<char>,
)
    requires
        current <= limit,
    ensures
        reserved(current, amount, limit, message).0 <= limit,
        reserved(current, amount, limit, message).1 is Ok ==> reserved(
            current,
            amount,
            limit,
            message,
        ).0 == current + amount,
        reserved(current, amount, limit, message).1 is Err ==> reserved(
            current,
            amount,
            limit,
            message,
        ).0 == current,
{
}

} // verus!
