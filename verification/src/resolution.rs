//! The resolution stage: turns captured hashes into timestamped transactions.
//!
//! The stage owns a retry set of hashes whose lookup last came back
//! not-found. Each arrival from the relay queue opens a *pass*: the retry set
//! is drained in full, every drained entry and then the new arrival is looked
//! up once, found entries are emitted as `TimedTransaction` values, not-found
//! entries are deferred into the next retry set, and a transport error is
//! fatal. Lookups are issued by the surrounding process, so the stage is a
//! step machine: `begin_pass` opens the pass, `next_hash` names the hash to
//! look up, `resolve_next` consumes one lookup outcome, and `finish_pass`
//! installs the deferred entries as the new retry set.
//!
//! The contracts speak about a recursive model of a whole pass:
//! `pass_outputs` lists what a pass emits and `pass_deferred` what it defers,
//! both as functions of the pending entries and the lookup outcomes alone.

use vstd::prelude::*;

use crate::timed_tx::TimedHash;
use crate::timed_tx::TimedTransaction;
use crate::timed_tx::Transaction;
use crate::timed_tx::TxHash;

verus! {

/// What a single lookup call reported for one hash.
#[derive(Clone, Copy, Debug, PartialEq, Eq)]
pub enum LookupOutcome {
    /// The node returned the full transaction body.
    Found(Transaction),
    /// The node does not know the transaction yet: expected read-lag, the
    /// hash is deferred and retried on the next arrival.
    NotFound,
    /// The call itself failed. Fatal for the stage.
    TransportError,
}

/// The one fatal error of the stage: a lookup transport failure.
#[derive(Clone, Copy, Debug, PartialEq, Eq, Structural)]
pub enum LookupError {
    Transport,
}

/// The entries a pass works through: the drained retry set in order, then
/// the newly arrived entry.
pub open spec fn pass_input(retry: Seq<TimedHash>, item: TimedHash) -> Seq<TimedHash> {
    retry.push(item)
}

/// The transaction a found lookup emits: the body, stamped with the capture
/// instant of the hash that resolved to it.
pub open spec fn stamped(start: u64, timed_hash: TimedHash, full_tx: Transaction) -> TimedTransaction {
    TimedTransaction { timestamp: (start + timed_hash.elapsed) as u64, transaction: full_tx }
}

/// No outcome in the sequence is a transport error.
pub open spec fn pass_ok(outcomes: Seq<LookupOutcome>) -> bool {
    forall|i: int| 0 <= i < outcomes.len() ==> !(#[trigger] outcomes[i] is TransportError)
}

/// Every found outcome carries the body of the hash it answers.
pub open spec fn outcomes_match(pending: Seq<TimedHash>, outcomes: Seq<LookupOutcome>) -> bool {
    forall|i: int| 0 <= i < pending.len() && i < outcomes.len() ==>
        (#[trigger] outcomes[i] matches LookupOutcome::Found(full_tx) ==> full_tx.hash == pending[i].hash)
}

/// Every pending entry can be stamped without overflowing the timestamp.
pub open spec fn elapsed_fits(start: u64, pending: Seq<TimedHash>) -> bool {
    forall|i: int| 0 <= i < pending.len() ==> start + (#[trigger] pending[i]).elapsed <= u64::MAX
}

/// No two pending entries carry the same hash.
pub open spec fn distinct_hashes(pending: Seq<TimedHash>) -> bool {
    forall|i: int, j: int| 0 <= i < j < pending.len() ==> pending[i].hash != pending[j].hash
}

/// Whether some entry of the sequence carries the given hash.
pub open spec fn hash_in(entries: Seq<TimedHash>, h: TxHash) -> bool {
    exists|i: int| 0 <= i < entries.len() && (#[trigger] entries[i]).hash == h
}

/// What a pass over `pending` emits, in lookup order, when the lookups come
/// back as `outcomes`, position by position. A transport error ends the pass;
/// nothing after it is looked up.
pub open spec fn pass_outputs(start: u64, pending: Seq<TimedHash>, outcomes: Seq<LookupOutcome>) -> Seq<TimedTransaction>
    decreases pending.len(),
{
    if pending.len() == 0 || outcomes.len() == 0 {
        Seq::empty()
    } else {
        match outcomes[0] {
            LookupOutcome::Found(full_tx) => seq![stamped(start, pending[0], full_tx)]
                + pass_outputs(start, pending.drop_first(), outcomes.drop_first()),
            LookupOutcome::NotFound => pass_outputs(
                start,
                pending.drop_first(),
                outcomes.drop_first(),
            ),
            LookupOutcome::TransportError => Seq::empty(),
        }
    }
}

/// What a pass over `pending` defers into the next retry set, in lookup
/// order, when the lookups come back as `outcomes`.
pub open spec fn pass_deferred(pending: Seq<TimedHash>, outcomes: Seq<LookupOutcome>) -> Seq<TimedHash>
    decreases pending.len(),
{
    if pending.len() == 0 || outcomes.len() == 0 {
        Seq::empty()
    } else {
        match outcomes[0] {
            LookupOutcome::Found(_) => pass_deferred(pending.drop_first(), outcomes.drop_first()),
            LookupOutcome::NotFound => seq![pending[0]]
                + pass_deferred(pending.drop_first(), outcomes.drop_first()),
            LookupOutcome::TransportError => Seq::empty(),
        }
    }
}

/// The resolution stage of the pipeline, driven one event at a time by the
/// surrounding process. Between passes only the retry set is populated;
/// within a pass the entries still to look up sit in `lookups` and the
/// entries already deferred sit in `not_found`.
pub struct TimedTransactionStream {
    /// Wall-clock nanoseconds at pipeline start; every emitted timestamp is
    /// this instant plus the elapsed capture time of the resolved hash.
    pub start: u64,
    retry_set: Vec<TimedHash>,
    lookups: Vec<TimedHash>,
    not_found: Vec<TimedHash>,
    mid_pass: bool,
}

impl TimedTransactionStream {
    /// The wall-clock start instant, as the contracts speak of it.
    pub closed spec fn start_time(&self) -> u64 {
        self.start
    }

    /// The retry set carried between passes.
    pub closed spec fn retry(&self) -> Seq<TimedHash> {
        self.retry_set@
    }

    /// The entries of the open pass still waiting for their lookup.
    pub closed spec fn pending(&self) -> Seq<TimedHash> {
        self.lookups@
    }

    /// The entries of the open pass whose lookup came back not-found.
    pub closed spec fn deferred(&self) -> Seq<TimedHash> {
        self.not_found@
    }

    /// Whether a pass is open.
    pub closed spec fn in_pass(&self) -> bool {
        self.mid_pass
    }

    /// The stage invariant: between passes nothing is pending or deferred,
    /// and within a pass the retry set has been drained in full.
    pub open spec fn wf(&self) -> bool {
        &&& (!self.in_pass() ==> self.pending().len() == 0 && self.deferred().len() == 0)
        &&& (self.in_pass() ==> self.retry().len() == 0)
    }

    /// Creates a stage with an empty retry set, recording the wall-clock
    /// start instant that all emitted timestamps are measured from.
    pub fn new(start: u64) -> (stream: Self)
        ensures
            stream.wf(),
            stream.start_time() == start,
            stream.retry().len() == 0,
            !stream.in_pass(),
    {
        TimedTransactionStream {
            start,
            retry_set: Vec::new(),
            lookups: Vec::new(),
            not_found: Vec::new(),
            mid_pass: false,
        }
    }

    /// Opens a pass for a newly arrived entry: drains the whole retry set
    /// into the pending list and queues the new entry behind it.
    pub fn begin_pass(&mut self, item: TimedHash)
        requires
            old(self).wf(),
            !old(self).in_pass(),
        ensures
            final(self).wf(),
            final(self).in_pass(),
            final(self).start_time() == old(self).start_time(),
            final(self).pending() == pass_input(old(self).retry(), item),
            final(self).deferred().len() == 0,
            final(self).retry().len() == 0,
    {
        let mut drained: Vec<TimedHash> = Vec::new();
        core::mem::swap(&mut drained, &mut self.retry_set);
        drained.push(item);
        self.lookups = drained;
        self.mid_pass = true;
    }

    /// The hash the stage wants looked up next, if the open pass still has
    /// pending entries.
    pub fn next_hash(&self) -> (r: Option<TxHash>)
        ensures
            self.in_pass() && self.pending().len() > 0 ==> r == Some(self.pending()[0].hash),
            !(self.in_pass() && self.pending().len() > 0) ==> r is None,
    {
        if self.mid_pass && self.lookups.len() > 0 {
            Some(self.lookups[0].hash)
        } else {
            None
        }
    }

    /// Consumes the lookup outcome for the first pending entry. A found body
    /// is emitted stamped with the entry's capture instant; a not-found entry
    /// is deferred unchanged into the next retry set; a transport error is
    /// fatal and leaves the stage as it stands.
    pub fn resolve_next(&mut self, outcome: LookupOutcome) -> (r: Result<
        Option<TimedTransaction>,
        LookupError,
    >)
        requires
            old(self).wf(),
            old(self).in_pass(),
            old(self).pending().len() > 0,
            outcome matches LookupOutcome::Found(full_tx) ==> full_tx.hash == old(self).pending()[0].hash,
            old(self).start_time() + old(self).pending()[0].elapsed <= u64::MAX,
        ensures
            final(self).wf(),
            final(self).in_pass(),
            final(self).start_time() == old(self).start_time(),
            final(self).retry().len() == 0,
            match outcome {
                LookupOutcome::Found(full_tx) => {
                    &&& r == Ok::<_, LookupError>(Some(stamped(old(self).start_time(), old(self).pending()[0], full_tx)))
                    &&& final(self).pending() == old(self).pending().drop_first()
                    &&& final(self).deferred() == old(self).deferred()
                },
                LookupOutcome::NotFound => {
                    &&& r == Ok::<_, LookupError>(None::<TimedTransaction>)
                    &&& final(self).pending() == old(self).pending().drop_first()
                    &&& final(self).deferred() == old(self).deferred().push(old(self).pending()[0])
                },
                LookupOutcome::TransportError => {
                    &&& r == Err::<Option<TimedTransaction>, _>(LookupError::Transport)
                    &&& final(self).pending() == old(self).pending()
                    &&& final(self).deferred() == old(self).deferred()
                },
            },
    {
        match outcome {
            LookupOutcome::Found(full_tx) => {
                let item = self.lookups.remove(0);
                proof {
                    assert(self.lookups@ =~= old(self).pending().drop_first());
                }
                Ok(Some(TimedTransaction::timestamp_tx(full_tx, self.start, item.elapsed)))
            },
            LookupOutcome::NotFound => {
                let item = self.lookups.remove(0);
                proof {
                    assert(self.lookups@ =~= old(self).pending().drop_first());
                }
                self.not_found.push(item);
                Ok(None)
            },
            LookupOutcome::TransportError => Err(LookupError::Transport),
        }
    }

    /// Whether the open pass has looked everything up.
    pub fn pass_done(&self) -> (b: bool)
        ensures
            b == (self.pending().len() == 0),
    {
        self.lookups.len() == 0
    }

    /// Closes a fully looked-up pass: the entries deferred during the pass
    /// become the retry set for the next arrival.
    pub fn finish_pass(&mut self)
        requires
            old(self).wf(),
            old(self).in_pass(),
            old(self).pending().len() == 0,
        ensures
            final(self).wf(),
            !final(self).in_pass(),
            final(self).start_time() == old(self).start_time(),
            final(self).retry() == old(self).deferred(),
            final(self).pending().len() == 0,
            final(self).deferred().len() == 0,
    {
        core::mem::swap(&mut self.retry_set, &mut self.not_found);
        self.mid_pass = false;
    }

    /// How many entries currently await retry.
    pub fn retry_len(&self) -> (n: usize)
        ensures
            n == self.retry().len(),
    {
        self.retry_set.len()
    }

    /// Runs one whole pass for a newly arrived entry against lookup outcomes
    /// given position by position: `outcomes[i]` answers the `i`-th lookup of
    /// the pass, first the drained retry set in order, last the new entry.
    /// Emits the found bodies in lookup order, installs the not-found entries
    /// as the next retry set, and stops fatally at the first transport error.
    #[verifier::loop_isolation(false)]
    pub fn run_pass(&mut self, item: TimedHash, outcomes: &Vec<LookupOutcome>) -> (r: Result<
        Vec<TimedTransaction>,
        LookupError,
    >)
        requires
            old(self).wf(),
            !old(self).in_pass(),
            outcomes@.len() == old(self).retry().len() + 1,
            outcomes_match(pass_input(old(self).retry(), item), outcomes@),
            elapsed_fits(old(self).start_time(), pass_input(old(self).retry(), item)),
        ensures
            final(self).wf(),
            final(self).start_time() == old(self).start_time(),
            (r is Ok) <==> pass_ok(outcomes@),
            r matches Ok(outputs) ==> {
                &&& outputs@ == pass_outputs(
                    old(self).start_time(),
                    pass_input(old(self).retry(), item),
                    outcomes@,
                )
                &&& final(self).retry() == pass_deferred(pass_input(old(self).retry(), item), outcomes@)
                &&& !final(self).in_pass()
            },
            r matches Err(e) ==> e == LookupError::Transport && final(self).in_pass(),
    {
        let ghost all: Seq<TimedHash> = pass_input(old(self).retry(), item);
        let ghost start0: u64 = old(self).start_time();
        self.begin_pass(item);
        let mut outputs: Vec<TimedTransaction> = Vec::new();
        let mut i: usize = 0;
        proof {
            assert(all.skip(0) =~= all);
            assert(outcomes@.skip(0) =~= outcomes@);
            assert(outputs@ + pass_outputs(start0, all, outcomes@) =~= pass_outputs(start0, all, outcomes@));
            assert(self.deferred() + pass_deferred(all, outcomes@) =~= pass_deferred(all, outcomes@));
        }
        while i < outcomes.len()
            invariant
                self.wf(),
                self.in_pass(),
                self.start_time() == start0,
                i <= outcomes@.len(),
                self.pending() == all.skip(i as int),
                forall|j: int| 0 <= j < i ==> !(#[trigger] outcomes@[j] is TransportError),
                outputs@ + pass_outputs(start0, all.skip(i as int), outcomes@.skip(i as int))
                    == pass_outputs(start0, all, outcomes@),
                self.deferred() + pass_deferred(all.skip(i as int), outcomes@.skip(i as int))
                    == pass_deferred(all, outcomes@),
            decreases outcomes@.len() - i,
        {
            proof {
                assert(all.skip(i as int)[0] == all[i as int]);
                assert(all.skip(i as int).drop_first() =~= all.skip(i as int + 1));
                assert(outcomes@.skip(i as int)[0] == outcomes@[i as int]);
                assert(outcomes@.skip(i as int).drop_first() =~= outcomes@.skip(i as int + 1));
            }
            let outcome = outcomes[i];
            match self.resolve_next(outcome) {
                Ok(Some(timed_tx)) => {
                    proof {
                        assert((outputs@ + seq![timed_tx])
                            + pass_outputs(start0, all.skip(i as int + 1), outcomes@.skip(i as int + 1))
                            =~= outputs@ + (seq![timed_tx]
                                + pass_outputs(start0, all.skip(i as int + 1), outcomes@.skip(i as int + 1))));
                    }
                    outputs.push(timed_tx);
                },
                Ok(None) => {
                    proof {
                        assert(self.deferred()
                            + pass_deferred(all.skip(i as int + 1), outcomes@.skip(i as int + 1))
                            =~= (self.deferred().drop_last() + (seq![all[i as int]]
                                + pass_deferred(all.skip(i as int + 1), outcomes@.skip(i as int + 1)))));
                    }
                },
                Err(e) => {
                    return Err(e);
                },
            }
            i = i + 1;
        }
        proof {
            assert(all.skip(all.len() as int) =~= Seq::<TimedHash>::empty());
            assert(outputs@ + Seq::<TimedTransaction>::empty() =~= outputs@);
            assert(self.deferred() + Seq::<TimedHash>::empty() =~= self.deferred());
        }
        self.finish_pass();
        Ok(outputs)
    }
}

/// Dropping the first pending entry and its outcome preserves the side
/// conditions the pass model is stated under.
proof fn lemma_tail_preserves(pending: Seq<TimedHash>, outcomes: Seq<LookupOutcome>)
    requires
        pending.len() > 0,
        outcomes.len() > 0,
    ensures
        outcomes_match(pending, outcomes) ==> outcomes_match(
            pending.drop_first(),
            outcomes.drop_first(),
        ),
        pass_ok(outcomes) ==> pass_ok(outcomes.drop_first()),
        distinct_hashes(pending) ==> distinct_hashes(pending.drop_first()),
{
    if outcomes_match(pending, outcomes) {
        assert forall|i: int|
            0 <= i < pending.drop_first().len() && i < outcomes.drop_first().len() implies (
        #[trigger] outcomes.drop_first()[i] matches LookupOutcome::Found(full_tx) ==> full_tx.hash
            == pending.drop_first()[i].hash) by {
            assert(outcomes.drop_first()[i] == outcomes[i + 1]);
            assert(pending.drop_first()[i] == pending[i + 1]);
        }
    }
    if pass_ok(outcomes) {
        assert forall|i: int| 0 <= i < outcomes.drop_first().len() implies !(
        #[trigger] outcomes.drop_first()[i] is TransportError) by {
            assert(outcomes.drop_first()[i] == outcomes[i + 1]);
        }
    }
    if distinct_hashes(pending) {
        assert forall|i: int, j: int|
            0 <= i < j < pending.drop_first().len() implies pending.drop_first()[i].hash
            != pending.drop_first()[j].hash by {
            assert(pending.drop_first()[i] == pending[i + 1]);
            assert(pending.drop_first()[j] == pending[j + 1]);
        }
    }
}

/// Every entry a pass defers was a pending entry whose lookup came back
/// not-found: a hash resolved during a pass never reappears in the retry set
/// that the pass leaves behind.
pub proof fn lemma_deferred_origin(pending: Seq<TimedHash>, outcomes: Seq<LookupOutcome>, j: int)
    requires
        outcomes.len() == pending.len(),
        0 <= j < pass_deferred(pending, outcomes).len(),
    ensures
        exists|i: int|
            0 <= i < pending.len() && (#[trigger] pending[i]) == pass_deferred(pending, outcomes)[j]
                && outcomes[i] is NotFound,
    decreases pending.len(),
{
    let def = pass_deferred(pending, outcomes);
    let tail_p = pending.drop_first();
    let tail_o = outcomes.drop_first();
    let tail_def = pass_deferred(tail_p, tail_o);
    match outcomes[0] {
        LookupOutcome::Found(_) => {
            lemma_deferred_origin(tail_p, tail_o, j);
            let i_t = choose|i: int|
                0 <= i < tail_p.len() && (#[trigger] tail_p[i]) == tail_def[j] && tail_o[i] is NotFound;
            assert(pending[i_t + 1] == tail_p[i_t]);
            assert(outcomes[i_t + 1] == tail_o[i_t]);
        },
        LookupOutcome::NotFound => {
            if j == 0 {
                assert(pending[0] == def[0]);
            } else {
                lemma_deferred_origin(tail_p, tail_o, j - 1);
                let i_t = choose|i: int|
                    0 <= i < tail_p.len() && (#[trigger] tail_p[i]) == tail_def[j - 1] && tail_o[i] is NotFound;
                assert(def[j] == tail_def[j - 1]);
                assert(pending[i_t + 1] == tail_p[i_t]);
                assert(outcomes[i_t + 1] == tail_o[i_t]);
            }
        },
        LookupOutcome::TransportError => {},
    }
}

/// Every pending entry whose lookup came back not-found is deferred into the
/// next retry set: a pass loses nothing.
pub proof fn lemma_not_found_deferred(pending: Seq<TimedHash>, outcomes: Seq<LookupOutcome>, i: int)
    requires
        outcomes.len() == pending.len(),
        pass_ok(outcomes),
        0 <= i < pending.len(),
        outcomes[i] is NotFound,
    ensures
        pass_deferred(pending, outcomes).contains(pending[i]),
    decreases pending.len(),
{
    let def = pass_deferred(pending, outcomes);
    let tail_p = pending.drop_first();
    let tail_o = outcomes.drop_first();
    let tail_def = pass_deferred(tail_p, tail_o);
    lemma_tail_preserves(pending, outcomes);
    match outcomes[0] {
        LookupOutcome::Found(_) => {
            lemma_not_found_deferred(tail_p, tail_o, i - 1);
            assert(tail_p[i - 1] == pending[i]);
            let k = choose|k: int| 0 <= k < tail_def.len() && tail_def[k] == pending[i];
            assert(def[k] == pending[i]);
        },
        LookupOutcome::NotFound => {
            if i == 0 {
                assert(def[0] == pending[0]);
            } else {
                lemma_not_found_deferred(tail_p, tail_o, i - 1);
                assert(tail_p[i - 1] == pending[i]);
                let k = choose|k: int| 0 <= k < tail_def.len() && tail_def[k] == pending[i];
                assert(def[k + 1] == pending[i]);
            }
        },
        LookupOutcome::TransportError => {
            assert(!(outcomes[0] is TransportError));
        },
    }
}

/// Timestamp fidelity: every transaction a pass emits is stamped with the
/// capture instant of some pending entry carrying its hash — start time plus
/// the elapsed time recorded when the hash was first observed — no matter how
/// many retry passes the entry already waited through.
pub proof fn lemma_timestamp_fidelity(
    start: u64,
    pending: Seq<TimedHash>,
    outcomes: Seq<LookupOutcome>,
    j: int,
)
    requires
        outcomes.len() == pending.len(),
        outcomes_match(pending, outcomes),
        0 <= j < pass_outputs(start, pending, outcomes).len(),
    ensures
        exists|i: int|
            0 <= i < pending.len() && (#[trigger] pending[i]).hash == pass_outputs(
                start,
                pending,
                outcomes,
            )[j].transaction.hash && pass_outputs(start, pending, outcomes)[j] == stamped(
                start,
                pending[i],
                pass_outputs(start, pending, outcomes)[j].transaction,
            ) && outcomes[i] == LookupOutcome::Found(
                pass_outputs(start, pending, outcomes)[j].transaction,
            ),
    decreases pending.len(),
{
    let outs = pass_outputs(start, pending, outcomes);
    let tail_p = pending.drop_first();
    let tail_o = outcomes.drop_first();
    let tail_outs = pass_outputs(start, tail_p, tail_o);
    lemma_tail_preserves(pending, outcomes);
    match outcomes[0] {
        LookupOutcome::Found(full_tx) => {
            if j == 0 {
                assert(outs[0] == stamped(start, pending[0], full_tx));
                assert(full_tx.hash == pending[0].hash);
            } else {
                lemma_timestamp_fidelity(start, tail_p, tail_o, j - 1);
                assert(outs[j] == tail_outs[j - 1]);
                let i_t = choose|i: int|
                    0 <= i < tail_p.len() && (#[trigger] tail_p[i]).hash == tail_outs[j
                        - 1].transaction.hash && tail_outs[j - 1] == stamped(
                        start,
                        tail_p[i],
                        tail_outs[j - 1].transaction,
                    ) && tail_o[i] == LookupOutcome::Found(tail_outs[j - 1].transaction);
                assert(pending[i_t + 1] == tail_p[i_t]);
                assert(outcomes[i_t + 1] == tail_o[i_t]);
            }
        },
        LookupOutcome::NotFound => {
            lemma_timestamp_fidelity(start, tail_p, tail_o, j);
            let i_t = choose|i: int|
                0 <= i < tail_p.len() && (#[trigger] tail_p[i]).hash == tail_outs[j].transaction.hash
                    && tail_outs[j] == stamped(start, tail_p[i], tail_outs[j].transaction)
                    && tail_o[i] == LookupOutcome::Found(tail_outs[j].transaction);
            assert(pending[i_t + 1] == tail_p[i_t]);
            assert(outcomes[i_t + 1] == tail_o[i_t]);
        },
        LookupOutcome::TransportError => {},
    }
}

/// Healthy lookups resolve: a pending entry whose lookup comes back found is
/// emitted during that very pass, stamped with its capture instant, and — the
/// pending hashes being distinct — leaves no trace in the next retry set.
pub proof fn lemma_found_resolves(
    start: u64,
    pending: Seq<TimedHash>,
    outcomes: Seq<LookupOutcome>,
    i: int,
)
    requires
        outcomes.len() == pending.len(),
        pass_ok(outcomes),
        outcomes_match(pending, outcomes),
        distinct_hashes(pending),
        0 <= i < pending.len(),
        outcomes[i] is Found,
    ensures
        outcomes[i] matches LookupOutcome::Found(full_tx) ==> pass_outputs(
            start,
            pending,
            outcomes,
        ).contains(stamped(start, pending[i], full_tx)),
        forall|j: int|
            0 <= j < pass_deferred(pending, outcomes).len() ==> (#[trigger] pass_deferred(
                pending,
                outcomes,
            )[j]).hash != pending[i].hash,
    decreases pending.len(),
{
    let outs = pass_outputs(start, pending, outcomes);
    let def = pass_deferred(pending, outcomes);
    let tail_p = pending.drop_first();
    let tail_o = outcomes.drop_first();
    let tail_outs = pass_outputs(start, tail_p, tail_o);
    lemma_tail_preserves(pending, outcomes);
    match outcomes[0] {
        LookupOutcome::Found(full_tx) => {
            if i == 0 {
                assert(outs[0] == stamped(start, pending[0], full_tx));
                assert forall|j: int| 0 <= j < def.len() implies (#[trigger] def[j]).hash
                    != pending[0].hash by {
                    lemma_deferred_origin(tail_p, tail_o, j);
                    let m = choose|m: int|
                        0 <= m < tail_p.len() && (#[trigger] tail_p[m]) == pass_deferred(
                            tail_p,
                            tail_o,
                        )[j] && tail_o[m] is NotFound;
                    assert(tail_p[m] == pending[m + 1]);
                }
            } else {
                lemma_found_resolves(start, tail_p, tail_o, i - 1);
                assert(tail_p[i - 1] == pending[i]);
                assert(tail_o[i - 1] == outcomes[i]);
                let full_tx_i = outcomes[i]->Found_0;
                let k = choose|k: int|
                    0 <= k < tail_outs.len() && tail_outs[k] == stamped(start, pending[i], full_tx_i);
                assert(outs[k + 1] == tail_outs[k]);
                assert forall|j: int| 0 <= j < def.len() implies (#[trigger] def[j]).hash
                    != pending[i].hash by {
                    assert(def[j] == pass_deferred(tail_p, tail_o)[j]);
                }
            }
        },
        LookupOutcome::NotFound => {
            lemma_found_resolves(start, tail_p, tail_o, i - 1);
            assert(tail_p[i - 1] == pending[i]);
            assert(tail_o[i - 1] == outcomes[i]);
            let full_tx_i = outcomes[i]->Found_0;
            let k = choose|k: int|
                0 <= k < tail_outs.len() && tail_outs[k] == stamped(start, pending[i], full_tx_i);
            assert(outs[k] == tail_outs[k]);
            assert forall|j: int| 0 <= j < def.len() implies (#[trigger] def[j]).hash
                != pending[i].hash by {
                if j > 0 {
                    assert(def[j] == pass_deferred(tail_p, tail_o)[j - 1]);
                } else {
                    assert(def[0] == pending[0]);
                }
            }
        },
        LookupOutcome::TransportError => {
            assert(!(outcomes[0] is TransportError));
        },
    }
}

/// No duplicate resolution: when the pending entries carry pairwise distinct
/// hashes, a pass emits at most one transaction per hash, what it emits is
/// disjoint from what it defers, and the next retry set again carries
/// pairwise distinct hashes.
pub proof fn lemma_no_duplicate_resolution(
    start: u64,
    pending: Seq<TimedHash>,
    outcomes: Seq<LookupOutcome>,
)
    requires
        outcomes.len() == pending.len(),
        outcomes_match(pending, outcomes),
        distinct_hashes(pending),
    ensures
        forall|a: int, b: int|
            0 <= a < b < pass_outputs(start, pending, outcomes).len() ==> pass_outputs(
                start,
                pending,
                outcomes,
            )[a].transaction.hash != pass_outputs(start, pending, outcomes)[b].transaction.hash,
        forall|a: int, j: int|
            0 <= a < pass_outputs(start, pending, outcomes).len() && 0 <= j < pass_deferred(
                pending,
                outcomes,
            ).len() ==> pass_outputs(start, pending, outcomes)[a].transaction.hash != pass_deferred(
                pending,
                outcomes,
            )[j].hash,
        distinct_hashes(pass_deferred(pending, outcomes)),
    decreases pending.len(),
{
    if pending.len() == 0 {
    } else {
        let outs = pass_outputs(start, pending, outcomes);
        let def = pass_deferred(pending, outcomes);
        let tail_p = pending.drop_first();
        let tail_o = outcomes.drop_first();
        let touts = pass_outputs(start, tail_p, tail_o);
        let tdef = pass_deferred(tail_p, tail_o);
        lemma_tail_preserves(pending, outcomes);
        match outcomes[0] {
            LookupOutcome::Found(full_tx) => {
                lemma_no_duplicate_resolution(start, tail_p, tail_o);
                assert(outs[0].transaction.hash == pending[0].hash);
                assert forall|a: int, b: int| 0 <= a < b < outs.len() implies outs[a].transaction.hash
                    != outs[b].transaction.hash by {
                    assert(outs[b] == touts[b - 1]);
                    if a == 0 {
                        lemma_timestamp_fidelity(start, tail_p, tail_o, b - 1);
                        let m = choose|i: int|
                            0 <= i < tail_p.len() && (#[trigger] tail_p[i]).hash == touts[b
                                - 1].transaction.hash && touts[b - 1] == stamped(
                                start,
                                tail_p[i],
                                touts[b - 1].transaction,
                            ) && tail_o[i] == LookupOutcome::Found(touts[b - 1].transaction);
                        assert(tail_p[m] == pending[m + 1]);
                    } else {
                        assert(outs[a] == touts[a - 1]);
                    }
                }
                assert forall|a: int, j: int|
                    0 <= a < outs.len() && 0 <= j < def.len() implies outs[a].transaction.hash
                    != def[j].hash by {
                    assert(def[j] == tdef[j]);
                    if a == 0 {
                        lemma_deferred_origin(tail_p, tail_o, j);
                        let m = choose|i: int|
                            0 <= i < tail_p.len() && (#[trigger] tail_p[i]) == tdef[j] && tail_o[i] is NotFound;
                        assert(tail_p[m] == pending[m + 1]);
                    } else {
                        assert(outs[a] == touts[a - 1]);
                    }
                }
                assert forall|a: int, b: int| 0 <= a < b < def.len() implies def[a].hash
                    != def[b].hash by {
                    assert(def[a] == tdef[a]);
                    assert(def[b] == tdef[b]);
                }
            },
            LookupOutcome::NotFound => {
                lemma_no_duplicate_resolution(start, tail_p, tail_o);
                assert forall|a: int, b: int| 0 <= a < b < outs.len() implies outs[a].transaction.hash
                    != outs[b].transaction.hash by {
                    assert(outs[a] == touts[a]);
                    assert(outs[b] == touts[b]);
                }
                assert forall|a: int, j: int|
                    0 <= a < outs.len() && 0 <= j < def.len() implies outs[a].transaction.hash
                    != def[j].hash by {
                    assert(outs[a] == touts[a]);
                    if j == 0 {
                        assert(def[0] == pending[0]);
                        lemma_timestamp_fidelity(start, tail_p, tail_o, a);
                        let m = choose|i: int|
                            0 <= i < tail_p.len() && (#[trigger] tail_p[i]).hash
                                == touts[a].transaction.hash && touts[a] == stamped(
                                start,
                                tail_p[i],
                                touts[a].transaction,
                            ) && tail_o[i] == LookupOutcome::Found(touts[a].transaction);
                        assert(tail_p[m] == pending[m + 1]);
                    } else {
                        assert(def[j] == tdef[j - 1]);
                    }
                }
                assert forall|a: int, b: int| 0 <= a < b < def.len() implies def[a].hash
                    != def[b].hash by {
                    assert(def[b] == tdef[b - 1]);
                    if a == 0 {
                        assert(def[0] == pending[0]);
                        lemma_deferred_origin(tail_p, tail_o, b - 1);
                        let m = choose|i: int|
                            0 <= i < tail_p.len() && (#[trigger] tail_p[i]) == tdef[b - 1]
                                && tail_o[i] is NotFound;
                        assert(tail_p[m] == pending[m + 1]);
                    } else {
                        assert(def[a] == tdef[a - 1]);
                    }
                }
            },
            LookupOutcome::TransportError => {},
        }
    }
}

/// The retry set drains fully each pass: what a pass leaves behind for the
/// next retry set is exactly the pending entries whose lookup came back
/// not-found during that pass — each such entry is kept, and nothing else
/// enters, in particular no entry that the pass resolved.
pub proof fn lemma_retry_drains_fully(pending: Seq<TimedHash>, outcomes: Seq<LookupOutcome>)
    requires
        outcomes.len() == pending.len(),
        pass_ok(outcomes),
    ensures
        forall|j: int|
            0 <= j < pass_deferred(pending, outcomes).len() ==> exists|i: int|
                0 <= i < pending.len() && (#[trigger] pending[i]) == (#[trigger] pass_deferred(
                    pending,
                    outcomes,
                )[j]) && outcomes[i] is NotFound,
        forall|i: int|
            0 <= i < pending.len() && (#[trigger] outcomes[i]) is NotFound ==> pass_deferred(
                pending,
                outcomes,
            ).contains(pending[i]),
{
    assert forall|j: int| 0 <= j < pass_deferred(pending, outcomes).len() implies exists|i: int|
        0 <= i < pending.len() && (#[trigger] pending[i]) == (#[trigger] pass_deferred(
        pending,
        outcomes,
    )[j]) && outcomes[i] is NotFound by {
        lemma_deferred_origin(pending, outcomes, j);
    }
    assert forall|i: int|
        0 <= i < pending.len() && (#[trigger] outcomes[i]) is NotFound implies pass_deferred(
        pending,
        outcomes,
    ).contains(pending[i]) by {
        lemma_not_found_deferred(pending, outcomes, i);
    }
}

/// A hash absent from the retry set and different from the new arrival is
/// untouched by the pass: nothing is emitted for it, and it is absent from
/// the retry set the pass leaves behind. Together with the per-pass
/// disjointness of outputs and deferrals this extends no-duplicate
/// resolution across passes: once a hash resolves it leaves the retry set,
/// and no later pass emits it again unless the subscription delivers the
/// same hash anew.
pub proof fn lemma_absent_hash_stays_absent(
    start: u64,
    retry: Seq<TimedHash>,
    item: TimedHash,
    outcomes: Seq<LookupOutcome>,
    h: TxHash,
)
    requires
        outcomes.len() == pass_input(retry, item).len(),
        outcomes_match(pass_input(retry, item), outcomes),
        !hash_in(retry, h),
        item.hash != h,
    ensures
        !hash_in(pass_deferred(pass_input(retry, item), outcomes), h),
        forall|j: int|
            0 <= j < pass_outputs(start, pass_input(retry, item), outcomes).len() ==> (
            #[trigger] pass_outputs(start, pass_input(retry, item), outcomes)[j]).transaction.hash
                != h,
{
    let pending = pass_input(retry, item);
    let outs = pass_outputs(start, pending, outcomes);
    let def = pass_deferred(pending, outcomes);
    assert forall|i: int| 0 <= i < pending.len() implies (#[trigger] pending[i]).hash != h by {
        if i < retry.len() {
            assert(pending[i] == retry[i]);
        } else {
            assert(pending[i] == item);
        }
    }
    assert forall|j: int| 0 <= j < def.len() implies (#[trigger] def[j]).hash != h by {
        lemma_deferred_origin(pending, outcomes, j);
        let m = choose|i: int|
            0 <= i < pending.len() && (#[trigger] pending[i]) == def[j] && outcomes[i] is NotFound;
        assert(pending[m].hash != h);
    }
    assert forall|j: int| 0 <= j < outs.len() implies (#[trigger] outs[j]).transaction.hash
        != h by {
        lemma_timestamp_fidelity(start, pending, outcomes, j);
        let m = choose|i: int|
            0 <= i < pending.len() && (#[trigger] pending[i]).hash == outs[j].transaction.hash
                && outs[j] == stamped(start, pending[i], outs[j].transaction) && outcomes[i]
                == LookupOutcome::Found(outs[j].transaction);
        assert(pending[m].hash != h);
    }
}

} // verus!
