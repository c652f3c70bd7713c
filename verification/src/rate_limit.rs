//! Sliding-window admission control, keyed by client.
//!
//! The limiter keeps, for each client key, the times of the requests it has
//! admitted. A request is admitted when fewer than `max` of those times lie
//! within the trailing window; stale times are dropped whenever the key is
//! looked at.

use vstd::hash_map::StringHashMap;
use vstd::prelude::*;

verus! {

/// The outcome of an admission check.
#[derive(Clone, Copy, Debug, PartialEq, Eq, Structural)]
pub enum Admission {
    Allowed,
    Denied,
}

/// A request recorded at `t` still counts at `now` while less than `window`
/// seconds have passed.
pub open spec fn live(t: i64, now: i64, window: u32) -> bool {
    now - t < window
}

/// The recorded times that still count at `now`, in their recorded order.
pub open spec fn pruned(stamps: Seq<i64>, now: i64, window: u32) -> Seq<i64>
    decreases stamps.len(),
{
    if stamps.len() == 0 {
        Seq::empty()
    } else {
        let rest = pruned(stamps.drop_last(), now, window);
        if live(stamps.last(), now, window) {
            rest.push(stamps.last())
        } else {
            rest
        }
    }
}

/// Whether a request arriving at `now` is admitted, given the times recorded
/// for its key.
pub open spec fn admits(stamps: Seq<i64>, now: i64, window: u32, max: u32) -> bool {
    pruned(stamps, now, window).len() < max
}

/// The times recorded for a key after a request at `now` has been checked:
/// stale times are gone, and `now` is appended if the request was admitted.
pub open spec fn recorded(stamps: Seq<i64>, now: i64, window: u32, max: u32) -> Seq<i64> {
    let kept = pruned(stamps, now, window);
    if kept.len() < max {
        kept.push(now)
    } else {
        kept
    }
}

/// The times recorded for `key`; a key never seen has none.
pub open spec fn stamps_of(state: Map<Seq<char>, Seq<i64>>, key: Seq<char>) -> Seq<i64> {
    if state.contains_key(key) {
        state[key]
    } else {
        Seq::empty()
    }
}

/// Per-client request times. Built empty and owned by whoever serves
/// requests; callers serialize access to it.
pub struct RateLimiter {
    entries: StringHashMap<Vec<i64>>,
}

impl View for RateLimiter {
    type V = Map<Seq<char>, Seq<i64>>;

    closed spec fn view(&self) -> Map<Seq<char>, Seq<i64>> {
        self.entries@.map_values(|v: Vec<i64>| v@)
    }
}

/// Copies the live times out of `stamps`.
fn prune(stamps: &Vec<i64>, now: i64, window_seconds: u32) -> (kept: Vec<i64>)
    ensures
        kept@ == pruned(stamps@, now, window_seconds),
{
    let mut kept: Vec<i64> = Vec::new();
    let mut i: usize = 0;
    assert(stamps@.take(0) =~= Seq::<i64>::empty());
    while i < stamps.len()
        invariant
            i <= stamps.len(),
            kept@ == pruned(stamps@.take(i as int), now, window_seconds),
        decreases stamps.len() - i,
    {
        let t: i64 = stamps[i];
        assert(stamps@.take(i as int + 1).drop_last() =~= stamps@.take(i as int));
        if (now as i128) - (t as i128) < (window_seconds as i128) {
            kept.push(t);
        }
        i += 1;
    }
    assert(stamps@.take(i as int) =~= stamps@);
    kept
}

impl RateLimiter {
    /// A limiter that has seen no request.
    pub fn new() -> (limiter: RateLimiter)
        ensures
            limiter@ == Map::<Seq<char>, Seq<i64>>::empty(),
    {
        let limiter = RateLimiter { entries: StringHashMap::new() };
        assert(limiter@ =~= Map::<Seq<char>, Seq<i64>>::empty());
        limiter
    }

    /// Decides whether the request of `key` arriving at `now` is admitted,
    /// and records it if so.
    ///
    /// Times of `key` that are `window_seconds` old or older are dropped
    /// first. If `max` or more remain the request is denied and not counted;
    /// otherwise `now` is appended. Other keys are untouched.
    pub fn check(&mut self, key: &str, now: i64, window_seconds: u32, max: u32) -> (outcome:
        Admission)
        ensures
            outcome == (if admits(stamps_of(old(self)@, key@), now, window_seconds, max) {
                Admission::Allowed
            } else {
                Admission::Denied
            }),
            final(self)@ == old(self)@.insert(
                key@,
                recorded(stamps_of(old(self)@, key@), now, window_seconds, max),
            ),
            outcome == Admission::Allowed ==> stamps_of(final(self)@, key@).len() <= max,
    {
        let mut kept: Vec<i64> = match self.entries.get(key) {
            Some(stamps) => prune(stamps, now, window_seconds),
            None => Vec::new(),
        };
        assert(kept@ == pruned(stamps_of(old(self)@, key@), now, window_seconds));
        let outcome = if kept.len() >= max as usize {
            Admission::Denied
        } else {
            kept.push(now);
            Admission::Allowed
        };
        self.entries.insert(key.to_owned(), kept);
        assert(self@ =~= old(self)@.insert(
            key@,
            recorded(stamps_of(old(self)@, key@), now, window_seconds, max),
        ));
        outcome
    }

    /// The times currently recorded for `key`, oldest first.
    pub fn recorded_for(&self, key: &str) -> (stamps: Vec<i64>)
        ensures
            stamps@ == stamps_of(self@, key@),
    {
        match self.entries.get(key) {
            Some(stamps) => stamps.clone(),
            None => Vec::new(),
        }
    }
}

/// Times that never go back.
pub open spec fn nondecreasing(times: Seq<i64>) -> bool {
    forall|i: int, j: int| 0 <= i <= j < times.len() ==> times[i] <= times[j]
}

/// No time in `stamps` is later than `now`.
pub open spec fn none_after(stamps: Seq<i64>, now: i64) -> bool {
    forall|i: int| 0 <= i < stamps.len() ==> stamps[i] <= now
}

/// The times recorded for one key after requests arriving at `times`, in
/// that order, have been checked against a limiter that had not seen the key.
pub open spec fn replay(times: Seq<i64>, window: u32, max: u32) -> Seq<i64>
    decreases times.len(),
{
    if times.len() == 0 {
        Seq::empty()
    } else {
        recorded(replay(times.drop_last(), window, max), times.last(), window, max)
    }
}

/// Whether request number `i` of `times` is admitted.
pub open spec fn admitted(times: Seq<i64>, i: int, window: u32, max: u32) -> bool {
    admits(replay(times.take(i), window, max), times[i], window, max)
}

/// How many of the first `n` requests of `times` were admitted and still
/// count at `now`.
pub open spec fn recent_admissions(
    times: Seq<i64>,
    n: int,
    now: i64,
    window: u32,
    max: u32,
) -> nat
    decreases n,
{
    if n <= 0 {
        0
    } else {
        let earlier = recent_admissions(times, n - 1, now, window, max);
        if admitted(times, n - 1, window, max) && live(times[n - 1], now, window) {
            earlier + 1
        } else {
            earlier
        }
    }
}

proof fn lemma_pruned_bounds(stamps: Seq<i64>, now: i64, window: u32)
    ensures
        pruned(stamps, now, window).len() <= stamps.len(),
        none_after(stamps, now) ==> none_after(pruned(stamps, now, window), now),
        nondecreasing(stamps) ==> nondecreasing(pruned(stamps, now, window)),
        nondecreasing(stamps) && stamps.len() > 0 ==> none_after(
            pruned(stamps, now, window),
            stamps.last(),
        ),
    decreases stamps.len(),
{
    if stamps.len() > 0 {
        let front = stamps.drop_last();
        lemma_pruned_bounds(front, now, window);
        let rest = pruned(front, now, window);
        if nondecreasing(stamps) {
            assert(nondecreasing(front));
            if front.len() > 0 {
                assert(front.last() == stamps[stamps.len() - 2]);
                assert(none_after(rest, stamps.last()));
            }
        }
        if none_after(stamps, now) {
            assert(none_after(front, now));
        }
    }
}

proof fn lemma_pruned_again(stamps: Seq<i64>, earlier: i64, now: i64, window: u32)
    requires
        earlier <= now,
    ensures
        pruned(pruned(stamps, earlier, window), now, window) == pruned(stamps, now, window),
    decreases stamps.len(),
{
    if stamps.len() > 0 {
        let front = stamps.drop_last();
        lemma_pruned_again(front, earlier, now, window);
        let rest = pruned(front, earlier, window);
        if live(stamps.last(), earlier, window) {
            assert(rest.push(stamps.last()).drop_last() =~= rest);
        }
    }
}

proof fn lemma_replay_counts(times: Seq<i64>, n: int, now: i64, window: u32, max: u32)
    requires
        nondecreasing(times),
        0 <= n <= times.len(),
        n > 0 ==> times[n - 1] <= now,
    ensures
        pruned(replay(times.take(n), window, max), now, window).len() == recent_admissions(
            times,
            n,
            now,
            window,
            max,
        ),
        replay(times.take(n), window, max).len() <= max,
    decreases n,
{
    if n > 0 {
        let t = times[n - 1];
        assert(times.take(n).drop_last() =~= times.take(n - 1));
        let before = replay(times.take(n - 1), window, max);
        let kept = pruned(before, t, window);
        lemma_replay_counts(times, n - 1, now, window, max);
        lemma_pruned_again(before, t, now, window);
        lemma_pruned_bounds(before, t, window);
        if kept.len() < max {
            assert(kept.push(t).drop_last() =~= kept);
        }
    }
}

/// The sliding-window law. When the clock never goes back, a request is
/// admitted exactly when fewer than `max` of the requests admitted before it
/// arrived less than `window` seconds earlier; and counting the request
/// itself, no trailing window ever holds more than `max` admitted requests.
pub proof fn law_sliding_window(times: Seq<i64>, i: int, window: u32, max: u32)
    requires
        nondecreasing(times),
        0 <= i < times.len(),
    ensures
        admitted(times, i, window, max) <==> recent_admissions(times, i, times[i], window, max)
            < max,
        recent_admissions(times, i + 1, times[i], window, max) <= max,
{
    lemma_replay_counts(times, i, times[i], window, max);
    lemma_replay_counts(times, i + 1, times[i], window, max);
    lemma_pruned_bounds(replay(times.take(i + 1), window, max), times[i], window);
}

/// Stored times stay in arrival order. If the times recorded for a key never
/// go back and none is later than `now`, the same holds after a check at
/// `now`.
pub proof fn law_recorded_in_order(stamps: Seq<i64>, now: i64, window: u32, max: u32)
    requires
        nondecreasing(stamps),
        none_after(stamps, now),
    ensures
        nondecreasing(recorded(stamps, now, window, max)),
        none_after(recorded(stamps, now, window, max), now),
{
    lemma_pruned_bounds(stamps, now, window);
}

/// A denied request leaves nothing behind: checking it again at the same
/// time gives the same recorded times and the same answer.
pub proof fn law_denied_not_counted(stamps: Seq<i64>, now: i64, window: u32, max: u32)
    requires
        !admits(stamps, now, window, max),
    ensures
        recorded(stamps, now, window, max) == pruned(stamps, now, window),
        recorded(recorded(stamps, now, window, max), now, window, max) == recorded(
            stamps,
            now,
            window,
            max,
        ),
        !admits(recorded(stamps, now, window, max), now, window, max),
{
    lemma_pruned_again(stamps, now, now, window);
}

} // verus!
