//! Fan-out delivery: who is sent to, what came back, and the summary.
//!
//! The sends themselves happen outside this crate, all in flight at once.
//! The coordinator hands out the recipients, takes each result as it becomes
//! available, and produces the aggregate only when every send has settled.

use crate::recipients::ResolvedRecipients;
use crate::text::{decimal, decimal_string};
use vstd::prelude::*;

verus! {

/// How many failures a summary itemizes; the rest are only counted.
pub const MAX_ITEMIZED: usize = 3;

/// What became of one send.
#[derive(Debug)]
pub enum DispatchOutcome {
    Delivered,
    /// The send failed, for the reason given.
    Failed(String),
}

/// The summary of one fan-out.
#[derive(Debug)]
pub struct AggregateOutcome {
    /// How many sends did not deliver.
    pub failed: usize,
    /// How many sends were attempted.
    pub total: usize,
    /// The first failures reported, as (recipient, reason), at most
    /// [`MAX_ITEMIZED`] of them.
    pub itemized: Vec<(String, String)>,
}

/// One failure as the summary shows it.
pub open spec fn item_text(item: (Seq<char>, Seq<char>)) -> Seq<char> {
    item.0 + ": "@ + item.1
}

/// The itemized failures, joined by `"; "`.
pub open spec fn detail_text(items: Seq<(Seq<char>, Seq<char>)>) -> Seq<char>
    decreases items.len(),
{
    if items.len() == 0 {
        Seq::empty()
    } else if items.len() == 1 {
        item_text(items[0])
    } else {
        detail_text(items.drop_last()) + "; "@ + item_text(items.last())
    }
}

/// The first `limit` members of `items`, or all of them if there are fewer.
pub open spec fn first_few<T>(items: Seq<T>, limit: nat) -> Seq<T> {
    if items.len() <= limit {
        items
    } else {
        items.take(limit as int)
    }
}

/// The message of a failed fan-out: the counts, a note if failures were left
/// out, and the itemized failures.
pub open spec fn failure_text(
    failed: nat,
    total: nat,
    items: Seq<(Seq<char>, Seq<char>)>,
) -> Seq<char> {
    "Failed to send "@ + decimal(failed) + " of "@ + decimal(total) + " email(s). "@ + (if failed
        > MAX_ITEMIZED {
        "Some errors omitted. "@
    } else {
        Seq::empty()
    }) + detail_text(first_few(items, MAX_ITEMIZED as nat))
}

impl AggregateOutcome {
    /// Every send delivered.
    pub fn all_delivered(&self) -> (r: bool)
        ensures
            r == (self.failed == 0),
    {
        self.failed == 0
    }

    /// More sends failed than the summary itemizes.
    pub fn more_omitted(&self) -> (r: bool)
        ensures
            r == (self.failed > MAX_ITEMIZED),
    {
        self.failed > MAX_ITEMIZED
    }

    /// The message that reports this summary to the caller.
    pub fn failure_message(&self) -> (r: String)
        ensures
            r@ == failure_text(self.failed as nat, self.total as nat, self.itemized.deep_view()),
    {
        let mut r = String::from_str("Failed to send ");
        let failed = decimal_string(self.failed);
        r.append(failed.as_str());
        r.append(" of ");
        let total = decimal_string(self.total);
        r.append(total.as_str());
        r.append(" email(s). ");
        if self.failed > MAX_ITEMIZED {
            r.append("Some errors omitted. ");
        }
        let ghost head = r@;
        let ghost items = self.itemized.deep_view();
        let ghost shown = first_few(items, MAX_ITEMIZED as nat);
        let limit: usize = if self.itemized.len() <= MAX_ITEMIZED {
            self.itemized.len()
        } else {
            MAX_ITEMIZED
        };
        let mut i: usize = 0;
        assert(shown.take(0) =~= Seq::<(Seq<char>, Seq<char>)>::empty());
        assert(head + Seq::<char>::empty() =~= head);
        while i < limit
            invariant
                i <= limit,
                limit == shown.len(),
                limit <= self.itemized.len(),
                items == self.itemized.deep_view(),
                forall|k: int| 0 <= k < limit ==> shown[k] == items[k],
                r@ == head + detail_text(shown.take(i as int)),
            decreases limit - i,
        {
            let ghost so_far = shown.take(i as int);
            let ghost next = shown.take(i as int + 1);
            if i > 0 {
                r.append("; ");
            }
            r.append(self.itemized[i].0.as_str());
            r.append(": ");
            r.append(self.itemized[i].1.as_str());
            proof {
                assert(next.drop_last() =~= so_far);
                assert(next.last() == items[i as int]);
                assert(items[i as int] == (self.itemized@[i as int].0@, self.itemized@[i as int].1@));
                if i > 0 {
                    assert(r@ =~= head + (detail_text(so_far) + "; "@ + item_text(next.last())));
                } else {
                    assert(detail_text(so_far) =~= Seq::<char>::empty());
                    assert(r@ =~= head + item_text(next.last()));
                }
            }
            i += 1;
        }
        assert(shown.take(i as int) =~= shown);
        r
    }
}

/// Where a fan-out stands: who is sent to, whose send has settled, and the
/// failures reported so far.
pub struct DispatchProgress {
    pub recipients: Seq<Seq<char>>,
    /// For each recipient, whether its send has settled.
    pub settled: Seq<bool>,
    /// The failures reported with a reason, in the order they came in.
    pub failures: Seq<(Seq<char>, Seq<char>)>,
    /// How many sends were lost without a result.
    pub dropped: nat,
}

impl DispatchProgress {
    /// Nothing has settled yet.
    pub open spec fn start(recipients: Seq<Seq<char>>) -> DispatchProgress {
        DispatchProgress {
            recipients,
            settled: Seq::new(recipients.len(), |i: int| false),
            failures: Seq::empty(),
            dropped: 0,
        }
    }

    /// A result for `index` is taken only once, and only for a recipient
    /// that exists.
    pub open spec fn accepts(self, index: int) -> bool {
        0 <= index < self.settled.len() && !self.settled[index]
    }

    /// Every send has settled.
    pub open spec fn complete(self) -> bool {
        forall|i: int| 0 <= i < self.settled.len() ==> self.settled[i]
    }

    /// How many sends did not deliver.
    pub open spec fn failed(self) -> nat {
        self.failures.len() + self.dropped
    }

    /// The progress after the send to recipient `index` came back with
    /// `outcome`. A failure is added behind those already reported.
    pub open spec fn after_outcome(self, index: int, outcome: DispatchOutcome) -> DispatchProgress {
        DispatchProgress {
            settled: self.settled.update(index, true),
            failures: match outcome {
                DispatchOutcome::Delivered => self.failures,
                DispatchOutcome::Failed(reason) => self.failures.push(
                    (self.recipients[index], reason@),
                ),
            },
            ..self
        }
    }

    /// The progress after the send to recipient `index` was lost: it counts
    /// as failed, with nothing to itemize.
    pub open spec fn after_drop(self, index: int) -> DispatchProgress {
        DispatchProgress {
            settled: self.settled.update(index, true),
            dropped: self.dropped + 1,
            ..self
        }
    }
}

/// How many sends have not settled.
pub open spec fn unsettled(settled: Seq<bool>) -> nat
    decreases settled.len(),
{
    if settled.len() == 0 {
        0
    } else if settled.last() {
        unsettled(settled.drop_last())
    } else {
        unsettled(settled.drop_last()) + 1
    }
}

proof fn lemma_unsettled_bounds(settled: Seq<bool>)
    ensures
        unsettled(settled) <= settled.len(),
        unsettled(settled) == 0 <==> (forall|i: int| 0 <= i < settled.len() ==> settled[i]),
    decreases settled.len(),
{
    if settled.len() > 0 {
        let front = settled.drop_last();
        lemma_unsettled_bounds(front);
        if unsettled(settled) == 0 {
            assert forall|i: int| 0 <= i < settled.len() implies settled[i] by {
                if i < front.len() {
                    assert(front[i]);
                }
            }
        }
        if forall|i: int| 0 <= i < settled.len() ==> settled[i] {
            assert(forall|i: int| 0 <= i < front.len() ==> front[i] == settled[i]);
        }
    }
}

proof fn lemma_unsettled_fresh(n: nat)
    ensures
        unsettled(Seq::new(n, |i: int| false)) == n,
    decreases n,
{
    if n > 0 {
        lemma_unsettled_fresh((n - 1) as nat);
        assert(Seq::new(n, |i: int| false).drop_last() =~= Seq::new(
            (n - 1) as nat,
            |i: int| false,
        ));
    }
}

proof fn lemma_unsettled_settle(settled: Seq<bool>, index: int)
    requires
        0 <= index < settled.len(),
        !settled[index],
    ensures
        unsettled(settled.update(index, true)) + 1 == unsettled(settled),
    decreases settled.len(),
{
    let front = settled.drop_last();
    if index == settled.len() - 1 {
        assert(settled.update(index, true).drop_last() =~= front);
    } else {
        lemma_unsettled_settle(front, index);
        assert(settled.update(index, true).drop_last() =~= front.update(index, true));
    }
}

/// Keeps the books of one fan-out.
pub struct DispatchCoordinator {
    recipients: Vec<String>,
    settled: Vec<bool>,
    pending: usize,
    failures: Vec<(String, String)>,
    dropped: usize,
}

impl View for DispatchCoordinator {
    type V = DispatchProgress;

    /// The progress of the fan-out. The count of sends still pending is not
    /// part of it: for well-formed books it is the number of flags not set.
    closed spec fn view(&self) -> DispatchProgress {
        DispatchProgress {
            recipients: self.recipients.deep_view(),
            settled: self.settled@,
            failures: self.failures.deep_view(),
            dropped: self.dropped as nat,
        }
    }
}

impl DispatchCoordinator {
    /// The books balance: one flag per recipient, and every settled send is
    /// either delivered or counted as failed.
    pub closed spec fn wf(&self) -> bool {
        &&& self.settled.len() == self.recipients.len()
        &&& self.pending == unsettled(self.settled@)
        &&& self.failures.len() + self.dropped + self.pending <= self.recipients.len()
    }

    /// Opens the books for a fan-out to `recipients`.
    pub fn new(recipients: &ResolvedRecipients) -> (coordinator: DispatchCoordinator)
        ensures
            coordinator.wf(),
            coordinator@ == DispatchProgress::start(recipients@),
    {
        let list = recipients.as_vec();
        let mut copy: Vec<String> = Vec::new();
        let mut settled: Vec<bool> = Vec::new();
        let mut i: usize = 0;
        while i < list.len()
            invariant
                i <= list.len(),
                copy.len() == i,
                settled.len() == i,
                forall|k: int| 0 <= k < i ==> copy@[k]@ == list@[k]@,
                forall|k: int| 0 <= k < i ==> !settled@[k],
            decreases list.len() - i,
        {
            copy.push(list[i].clone());
            settled.push(false);
            i += 1;
        }
        proof {
            lemma_unsettled_fresh(list.len() as nat);
            assert(settled@ =~= Seq::new(list.len() as nat, |i: int| false));
            assert(copy.deep_view() =~= list.deep_view());
        }
        let coordinator = DispatchCoordinator {
            recipients: copy,
            pending: settled.len(),
            settled,
            failures: Vec::new(),
            dropped: 0,
        };
        assert(coordinator.failures.deep_view() =~= Seq::<(Seq<char>, Seq<char>)>::empty());
        coordinator
    }

    /// How many sends this fan-out consists of.
    pub fn total(&self) -> (n: usize)
        requires
            self.wf(),
        ensures
            n == self@.recipients.len(),
    {
        self.recipients.len()
    }

    /// The address that send number `index` goes to.
    pub fn recipient(&self, index: usize) -> (r: Option<&str>)
        requires
            self.wf(),
        ensures
            match r {
                Some(address) => index < self@.recipients.len() && address@
                    == self@.recipients[index as int],
                None => index >= self@.recipients.len(),
            },
    {
        if index < self.recipients.len() {
            Some(self.recipients[index].as_str())
        } else {
            None
        }
    }

    /// Takes the result of send number `index`.
    ///
    /// The result is accepted if `index` names a recipient whose send has
    /// not settled; then the send is settled, and a failure is noted behind
    /// those noted before. Otherwise nothing changes.
    pub fn record(&mut self, index: usize, outcome: DispatchOutcome) -> (accepted: bool)
        requires
            old(self).wf(),
        ensures
            final(self).wf(),
            accepted == old(self)@.accepts(index as int),
            final(self)@ == (if accepted {
                old(self)@.after_outcome(index as int, outcome)
            } else {
                old(self)@
            }),
    {
        if index >= self.settled.len() || self.settled[index] {
            return false;
        }
        proof {
            lemma_unsettled_settle(self.settled@, index as int);
        }
        self.settled.set(index, true);
        self.pending = self.pending - 1;
        match outcome {
            DispatchOutcome::Delivered => {},
            DispatchOutcome::Failed(reason) => {
                let address = self.recipients[index].clone();
                self.failures.push((address, reason));
                assert(self.failures.deep_view() =~= old(self).failures.deep_view().push(
                    (old(self)@.recipients[index as int], reason@),
                ));
            },
        }
        true
    }

    /// Notes that send number `index` was lost without a result. It is
    /// accepted as a result is, and counts as failed.
    pub fn record_dropped(&mut self, index: usize) -> (accepted: bool)
        requires
            old(self).wf(),
        ensures
            final(self).wf(),
            accepted == old(self)@.accepts(index as int),
            final(self)@ == (if accepted {
                old(self)@.after_drop(index as int)
            } else {
                old(self)@
            }),
    {
        if index >= self.settled.len() || self.settled[index] {
            return false;
        }
        proof {
            lemma_unsettled_settle(self.settled@, index as int);
        }
        self.settled.set(index, true);
        self.pending = self.pending - 1;
        self.dropped = self.dropped + 1;
        true
    }

    /// Whether every send has settled.
    pub fn is_complete(&self) -> (r: bool)
        requires
            self.wf(),
        ensures
            r == self@.complete(),
    {
        proof {
            lemma_unsettled_bounds(self@.settled);
            if self.pending == 0 {
                assert(forall|i: int| 0 <= i < self@.settled.len() ==> self@.settled[i]);
            }
            if self@.complete() {
                assert(forall|i: int| 0 <= i < self@.settled.len() ==> self@.settled[i]);
            }
        }
        self.pending == 0
    }

    /// The summary, once every send has settled; before that there is none.
    ///
    /// It counts the failures and itemizes the first [`MAX_ITEMIZED`] of
    /// them, in the order they were reported.
    pub fn finish(&self) -> (r: Option<AggregateOutcome>)
        requires
            self.wf(),
        ensures
            r is Some <==> self@.complete(),
            match r {
                Some(summary) => {
                    &&& summary.failed == self@.failed()
                    &&& summary.total == self@.recipients.len()
                    &&& summary.failed <= summary.total
                    &&& summary.itemized.deep_view() == first_few(
                        self@.failures,
                        MAX_ITEMIZED as nat,
                    )
                },
                None => true,
            },
    {
        if !self.is_complete() {
            return None;
        }
        let limit: usize = if self.failures.len() <= MAX_ITEMIZED {
            self.failures.len()
        } else {
            MAX_ITEMIZED
        };
        let mut itemized: Vec<(String, String)> = Vec::new();
        let mut i: usize = 0;
        while i < limit
            invariant
                i <= limit,
                limit <= self.failures.len(),
                itemized.len() == i,
                forall|k: int|
                    0 <= k < i ==> itemized.deep_view()[k] == self.failures.deep_view()[k],
            decreases limit - i,
        {
            let ghost before = itemized.deep_view();
            let pair = (self.failures[i].0.clone(), self.failures[i].1.clone());
            itemized.push(pair);
            assert(itemized.deep_view() =~= before.push(self.failures.deep_view()[i as int]));
            i += 1;
        }
        assert(itemized.deep_view() =~= first_few(self@.failures, MAX_ITEMIZED as nat));
        Some(
            AggregateOutcome {
                failed: self.failures.len() + self.dropped,
                total: self.recipients.len(),
                itemized,
            },
        )
    }
}

} // verus!
