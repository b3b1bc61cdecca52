//! How long things take.

use vstd::prelude::*;

verus! {

/// A clock. What it shows is the machine's, and nothing is promised of it.
pub trait Clock {
    /// Nanoseconds since some moment.
    fn now(&self) -> u64;
}

/// `t` lies between two readings of the clock; a clock that goes back counts nothing.
pub open spec fn spent<K: Clock>(clock: &K, t: u64) -> bool {
    exists|from: u64, to: u64|
        #[trigger] call_ensures(K::now, (clock,), from) && #[trigger] call_ensures(
            K::now,
            (clock,),
            to,
        ) && t == if to > from {
            (to - from) as u64
        } else {
            0
        }
}

/// What has passed since a reading.
pub fn elapsed<K: Clock>(clock: &K, from: u64) -> (t: u64)
    requires
        call_ensures(K::now, (clock,), from),
    ensures
        spent(clock, t),
{
    let to: u64 = clock.now();
    assert(call_ensures(K::now, (clock,), to));
    if to > from {
        to - from
    } else {
        0
    }
}

/// What is spent between two readings, added to the first, is the second; nothing where the clock went
/// back.
pub proof fn lemma_what_is_spent<K: Clock>(clock: &K, t: u64)
    requires
        spent(clock, t),
    ensures
        exists|from: u64, to: u64|
            #[trigger] call_ensures(K::now, (clock,), from) && #[trigger] call_ensures(
                K::now,
                (clock,),
                to,
            ) && (to >= from ==> from + t == to) && (to < from ==> t == 0),
{
    let (from, to) = choose|from: u64, to: u64|
        #[trigger] call_ensures(K::now, (clock,), from) && #[trigger] call_ensures(
            K::now,
            (clock,),
            to,
        ) && t == if to > from {
            (to - from) as u64
        } else {
            0
        };
    assert(call_ensures(K::now, (clock,), from) && call_ensures(K::now, (clock,), to));
}

} // verus!
