//! Fan-out of one message to every registered peer but its origin.
//!
//! The choice of recipients and the account of what happened are decided
//! here; the sends themselves run concurrently outside, one per recipient,
//! and each send's outcome is handed back without touching the others.
use vstd::prelude::*;

verus! {

/// The identities of a registry snapshot, in order.
pub open spec fn ids_of<H>(s: Seq<(String, H)>) -> Seq<Seq<char>> {
    s.map_values(|e: (String, H)| e.0@)
}

/// The positions of the entries whose identity is not `origin`, in order.
pub open spec fn recipients(ids: Seq<Seq<char>>, origin: Seq<char>) -> Seq<int>
    decreases ids.len(),
{
    if ids.len() == 0 {
        seq![]
    } else {
        let prev = recipients(ids.drop_last(), origin);
        if ids.last() != origin {
            prev.push(ids.len() - 1)
        } else {
            prev
        }
    }
}

/// Which positions of the snapshot get a send for a message from `origin`.
pub fn broadcast_targets<H>(snapshot: &Vec<(String, H)>, origin: &String) -> (r: Vec<usize>)
    ensures
        r@.map_values(|i: usize| i as int) == recipients(ids_of(snapshot@), origin@),
{
    let ghost ids = ids_of(snapshot@);
    let mut out: Vec<usize> = Vec::new();
    let mut i: usize = 0;
    while i < snapshot.len()
        invariant
            i <= snapshot@.len(),
            ids == ids_of(snapshot@),
            out@.map_values(|k: usize| k as int) == recipients(ids.take(i as int), origin@),
        decreases snapshot@.len() - i,
    {
        proof {
            assert(ids.take(i as int + 1).drop_last() =~= ids.take(i as int));
            assert(ids.take(i as int + 1).last() == snapshot@[i as int].0@);
        }
        if snapshot[i].0 != *origin {
            out.push(i);
            proof {
                assert(out@.map_values(|k: usize| k as int) =~= recipients(
                    ids.take(i as int + 1),
                    origin@,
                ));
            }
        }
        i = i + 1;
    }
    proof {
        assert(ids.take(snapshot@.len() as int) =~= ids);
    }
    out
}

/// Every peer but the origin gets exactly one send, and the origin none:
/// the recipients are the positions whose identity differs from the origin,
/// each listed once, in increasing order.
pub proof fn lemma_broadcast_exclusion(ids: Seq<Seq<char>>, origin: Seq<char>)
    ensures
        forall|k: int|
            0 <= k < recipients(ids, origin).len() ==> 0 <= #[trigger] recipients(ids, origin)[k]
                < ids.len() && ids[recipients(ids, origin)[k]] != origin,
        forall|i: int|
            0 <= i < ids.len() && #[trigger] ids[i] != origin ==> exists|k: int|
                0 <= k < recipients(ids, origin).len() && recipients(ids, origin)[k] == i,
        forall|a: int, b: int|
            0 <= a < b < recipients(ids, origin).len() ==> #[trigger] recipients(ids, origin)[a]
                < #[trigger] recipients(ids, origin)[b],
    decreases ids.len(),
{
    if ids.len() > 0 {
        let p = ids.drop_last();
        lemma_broadcast_exclusion(p, origin);
        let r = recipients(ids, origin);
        let q = recipients(p, origin);
        assert forall|i: int| 0 <= i < ids.len() && #[trigger] ids[i] != origin implies exists|k: int|
            0 <= k < r.len() && r[k] == i by {
            if i < ids.len() - 1 {
                assert(p[i] == ids[i]);
                let k = choose|k: int| 0 <= k < q.len() && q[k] == i;
                assert(r[k] == i);
            } else {
                assert(r[q.len() as int] == i);
            }
        }
        assert forall|k: int| 0 <= k < r.len() implies 0 <= #[trigger] r[k] < ids.len() && ids[r[k]]
            != origin by {
            if k < q.len() {
                assert(p[q[k]] == ids[q[k]]);
            }
        }
    }
}

/// What one fan-out came to. Failed sends are only counted and listed: they
/// never stop the others and never surface as an error.
pub struct BroadcastReport {
    /// Sends started: one per recipient, whatever became of them.
    pub attempted: usize,
    /// Sends that the transport accepted.
    pub delivered: usize,
    /// Snapshot positions whose send failed, in order.
    pub failed: Vec<usize>,
}

/// How many outcomes are successes.
pub open spec fn successes(sent: Seq<bool>) -> nat
    decreases sent.len(),
{
    if sent.len() == 0 {
        0
    } else {
        successes(sent.drop_last()) + if sent.last() {
            1nat
        } else {
            0nat
        }
    }
}

/// The targets whose send failed, in order.
pub open spec fn failures(targets: Seq<usize>, sent: Seq<bool>) -> Seq<usize>
    decreases sent.len(),
{
    if sent.len() == 0 || targets.len() < sent.len() {
        seq![]
    } else {
        let prev = failures(targets.take(sent.len() - 1), sent.drop_last());
        if sent.last() {
            prev
        } else {
            prev.push(targets[sent.len() - 1])
        }
    }
}

proof fn lemma_successes_bound(sent: Seq<bool>)
    ensures
        successes(sent) <= sent.len(),
    decreases sent.len(),
{
    if sent.len() > 0 {
        lemma_successes_bound(sent.drop_last());
    }
}

/// Accounts for a fan-out from the outcome of each send; `sent[k]` tells
/// whether the send to `targets[k]` went through.
pub fn summarize(targets: &Vec<usize>, sent: &Vec<bool>) -> (r: BroadcastReport)
    requires
        targets@.len() == sent@.len(),
    ensures
        r.attempted == targets@.len(),
        r.delivered == successes(sent@),
        r.failed@ == failures(targets@, sent@),
{
    let mut delivered: usize = 0;
    let mut failed: Vec<usize> = Vec::new();
    let mut k: usize = 0;
    while k < sent.len()
        invariant
            k <= sent@.len(),
            targets@.len() == sent@.len(),
            delivered == successes(sent@.take(k as int)),
            failed@ == failures(targets@.take(k as int), sent@.take(k as int)),
        decreases sent@.len() - k,
    {
        proof {
            assert(sent@.take(k as int + 1).drop_last() =~= sent@.take(k as int));
            assert(targets@.take(k as int + 1).take(k as int) =~= targets@.take(k as int));
            lemma_successes_bound(sent@.take(k as int));
        }
        if sent[k] {
            delivered = delivered + 1;
        } else {
            failed.push(targets[k]);
        }
        k = k + 1;
    }
    proof {
        assert(sent@.take(sent@.len() as int) =~= sent@);
        assert(targets@.take(sent@.len() as int) =~= targets@);
    }
    BroadcastReport { attempted: targets.len(), delivered, failed }
}

/// A failed send affects nothing but its own entry: whatever the outcomes,
/// every recipient counts as attempted, and a target is listed as failed
/// exactly when its own send failed.
pub proof fn lemma_failure_isolation(targets: Seq<usize>, sent: Seq<bool>)
    requires
        targets.len() == sent.len(),
    ensures
        failures(targets, sent).len() + successes(sent) == targets.len(),
        forall|k: int|
            0 <= k < sent.len() && !#[trigger] sent[k] ==> failures(targets, sent).contains(
                targets[k],
            ),
    decreases sent.len(),
{
    if sent.len() > 0 {
        let n = sent.len() - 1;
        let t = targets.take(n);
        let s = sent.drop_last();
        lemma_failure_isolation(t, s);
        let prev = failures(t, s);
        assert forall|k: int| 0 <= k < sent.len() && !#[trigger] sent[k] implies failures(
            targets,
            sent,
        ).contains(targets[k]) by {
            if k < n {
                assert(s[k] == sent[k]);
                assert(t[k] == targets[k]);
                assert(prev.contains(targets[k]));
                let j = choose|j: int| 0 <= j < prev.len() && prev[j] == targets[k];
                if !sent.last() {
                    assert(failures(targets, sent)[j] == targets[k]);
                }
            } else {
                assert(failures(targets, sent)[prev.len() as int] == targets[k]);
            }
        }
    }
}

} // verus!
