use vstd::prelude::*;

use crate::subscriber::Subscriber;

verus! {

/// Mathematical view of a delivery outcome.
pub ghost enum DeliveryOutcomeView {
    Delivered,
    Failed { reason: Seq<char> },
}

/// What one delivery attempt came to: accepted by the subscriber, or
/// failed with a reason. A failure concerns that subscriber alone; it never
/// aborts the batch and never touches the registry.
pub enum DeliveryOutcome {
    Delivered,
    Failed(String),
}

impl View for DeliveryOutcome {
    type V = DeliveryOutcomeView;

    open spec fn view(&self) -> DeliveryOutcomeView {
        match self {
            DeliveryOutcome::Delivered => DeliveryOutcomeView::Delivered,
            DeliveryOutcome::Failed(reason) => DeliveryOutcomeView::Failed { reason: reason@ },
        }
    }
}

/// Mathematical view of one line of a dispatch report.
#[verifier::ext_equal]
pub ghost struct DispatchEntryView {
    pub url: Seq<char>,
    pub outcome: DeliveryOutcomeView,
}

/// One line of a dispatch report: which subscriber was attempted, and what
/// the attempt came to.
pub struct DispatchEntry {
    pub url: String,
    pub outcome: DeliveryOutcome,
}

impl View for DispatchEntry {
    type V = DispatchEntryView;

    open spec fn view(&self) -> DispatchEntryView {
        DispatchEntryView { url: self.url@, outcome: self.outcome@ }
    }
}

/// How many of the first `n` entries were delivered.
pub open spec fn delivered_prefix(s: Seq<DispatchEntryView>, n: int) -> int
    decreases n,
{
    if n <= 0 {
        0
    } else {
        delivered_prefix(s, n - 1) + if s[n - 1].outcome is Delivered {
            1int
        } else {
            0int
        }
    }
}

/// How many entries of a report were delivered.
pub open spec fn delivered_count(s: Seq<DispatchEntryView>) -> int {
    delivered_prefix(s, s.len() as int)
}

/// The per-subscriber outcome of one notify call: one entry per subscriber
/// that was attempted, in the order of the snapshot that was dispatched to.
pub struct DispatchReport {
    pub entries: Vec<DispatchEntry>,
}

impl View for DispatchReport {
    type V = Seq<DispatchEntryView>;

    open spec fn view(&self) -> Seq<DispatchEntryView> {
        self.entries@.map_values(|e: DispatchEntry| e@)
    }
}

impl DispatchReport {
    /// How many attempts there were; one per subscriber in the snapshot.
    pub fn len(&self) -> (r: usize)
        ensures
            r == self@.len(),
    {
        self.entries.len()
    }

    /// How many attempts the subscribers accepted.
    pub fn delivered(&self) -> (r: usize)
        ensures
            r == delivered_count(self@),
    {
        let n = self.entries.len();
        let mut count: usize = 0;
        let mut i: usize = 0;
        while i < n
            invariant
                n == self@.len(),
                0 <= i <= n,
                count <= i,
                count == delivered_prefix(self@, i as int),
            decreases n - i,
        {
            match &self.entries[i].outcome {
                DeliveryOutcome::Delivered => {
                    count = count + 1;
                },
                DeliveryOutcome::Failed(_) => {},
            }
            proof {
                assert(self@[i as int] == self.entries@[i as int]@);
            }
            i = i + 1;
        }
        count
    }

    /// How many attempts failed.
    pub fn failed(&self) -> (r: usize)
        ensures
            r == self@.len() - delivered_count(self@),
    {
        proof {
            lemma_delivered_prefix_bounds(self@, self@.len() as int);
        }
        let total = self.entries.len();
        let ok = self.delivered();
        total - ok
    }
}

/// A delivered count never exceeds the number of entries counted.
pub proof fn lemma_delivered_prefix_bounds(s: Seq<DispatchEntryView>, n: int)
    ensures
        0 <= delivered_prefix(s, n) <= if n <= 0 {
            0int
        } else {
            n
        },
    decreases n,
{
    if n > 0 {
        lemma_delivered_prefix_bounds(s, n - 1);
    }
}

/// Fans one event's outcomes into a report: entry `i` pairs subscriber `i`
/// of the snapshot with the outcome its delivery attempt came to. The
/// attempts themselves are the caller's: they happen outside the registry,
/// one per subscriber, independently — a failed attempt neither aborts the
/// batch nor unsubscribes anybody.
pub fn dispatch(subscribers: &Vec<Subscriber>, outcomes: Vec<DeliveryOutcome>) -> (r:
    DispatchReport)
    requires
        subscribers@.len() == outcomes@.len(),
    ensures
        r@.len() == subscribers@.len(),
        forall|i: int|
            0 <= i < r@.len() ==> (#[trigger] r@[i]).url == subscribers@[i]@.url && r@[i].outcome
                == outcomes@[i]@,
{
    let ghost outs0 = outcomes@;
    let n = subscribers.len();
    let mut entries: Vec<DispatchEntry> = Vec::new();
    let mut outcomes = outcomes;
    let mut i: usize = 0;
    while i < n
        invariant
            n == subscribers@.len(),
            outs0.len() == n,
            outcomes@.len() == n - i,
            0 <= i <= n,
            entries@.len() == i,
            forall|p: int|
                0 <= p < i ==> (#[trigger] entries@[p])@.url == subscribers@[p]@.url
                    && entries@[p]@.outcome == outs0[p]@,
            outcomes@ == outs0.skip(i as int),
        decreases n - i,
    {
        let url = subscribers[i].url.clone();
        proof {
            assert(outcomes@[0] == outs0.skip(i as int)[0]);
        }
        let outcome = outcomes.remove(0);
        proof {
            assert(outcome == outs0[i as int]);
            assert forall|k: int| 0 <= k < outcomes@.len() implies outcomes@[k] == outs0.skip(
                i as int + 1,
            )[k] by {
                assert(outcomes@[k] == outs0.skip(i as int)[k + 1]);
            }
            assert(outcomes@ =~= outs0.skip(i as int + 1));
        }
        entries.push(DispatchEntry { url, outcome });
        i = i + 1;
    }
    let r = DispatchReport { entries };
    proof {
        assert forall|i: int| 0 <= i < r@.len() implies (#[trigger] r@[i]).url
            == subscribers@[i]@.url && r@[i].outcome == outs0[i]@ by {
            assert(r@[i] == r.entries@[i]@);
        }
    }
    r
}

} // verus!
