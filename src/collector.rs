use vstd::prelude::*;

use crate::message::{finished_count, results_of, Message, Results};

verus! {

/// The collection loop's state as mathematical values.
pub ghost struct CollectorView {
    /// Workers that have not sent `Finished` yet.
    pub waiting: nat,
    /// Every completed request received, in arrival order.
    pub log: Seq<Results>,
}

impl CollectorView {
    /// The state after receiving one message.
    pub open spec fn step(self, m: Message) -> CollectorView {
        match m {
            Message::Result(r) => CollectorView { waiting: self.waiting, log: self.log.push(r) },
            Message::Finished => CollectorView {
                waiting: if self.waiting > 0 {
                    (self.waiting - 1) as nat
                } else {
                    0
                },
                log: self.log,
            },
        }
    }

    /// The state after receiving a sequence of messages, in order.
    pub open spec fn feed(self, ms: Seq<Message>) -> CollectorView
        decreases ms.len(),
    {
        if ms.len() == 0 {
            self
        } else {
            self.step(ms[0]).feed(ms.drop_first())
        }
    }
}

/// The collection loop: keeps the log of completed requests and counts the
/// workers that are still running. The run is over when none is.
pub struct Collector {
    waiting_workers: u16,
    results: Vec<Results>,
}

impl View for Collector {
    type V = CollectorView;

    closed spec fn view(&self) -> CollectorView {
        CollectorView { waiting: self.waiting_workers as nat, log: self.results@ }
    }
}

impl Collector {
    /// A collector waiting for `concurrency` workers, with an empty log.
    pub fn new(concurrency: u16) -> (r: Collector)
        ensures
            r@ == (CollectorView { waiting: concurrency as nat, log: Seq::empty() }),
    {
        Collector { waiting_workers: concurrency, results: Vec::new() }
    }

    /// Takes one message. A completed request is appended to the log and its
    /// status code and elapsed time are returned, for the aggregator.
    pub fn receive(&mut self, msg: Message) -> (r: Option<(u16, u128)>)
        ensures
            final(self)@ == old(self)@.step(msg),
            match msg {
                Message::Result(res) => r == Some((res.response_code, res.elapsed)),
                Message::Finished => r is None,
            },
    {
        match msg {
            Message::Result(result) => {
                let forward = (result.response_code, result.elapsed);
                self.results.push(result);
                Some(forward)
            },
            Message::Finished => {
                if self.waiting_workers > 0 {
                    self.waiting_workers = self.waiting_workers - 1;
                }
                None
            },
        }
    }

    /// Number of workers that have not sent `Finished` yet.
    pub fn waiting_workers(&self) -> (r: u16)
        ensures
            r == self@.waiting,
    {
        self.waiting_workers
    }

    /// Whether every worker has sent `Finished`: the run is over.
    pub fn is_complete(&self) -> (r: bool)
        ensures
            r == (self@.waiting == 0),
    {
        self.waiting_workers == 0
    }

    /// The log of completed requests, in arrival order.
    pub fn results(&self) -> (r: &Vec<Results>)
        ensures
            r@ == self@.log,
    {
        &self.results
    }

    /// Gives up the log of completed requests, in arrival order.
    pub fn into_results(self) -> (r: Vec<Results>)
        ensures
            r@ == self@.log,
    {
        self.results
    }
}

/// The run ends exactly when every worker has sent `Finished`: from `n`
/// running workers, after any messages the collector waits for the workers
/// that have not finished, so it is complete if and only if `n` `Finished`
/// messages arrived (with `n - 1` it never is), and its log holds every
/// result received, in order.
pub proof fn lemma_complete_iff_all_finished(v: CollectorView, ms: Seq<Message>)
    ensures
        v.feed(ms).waiting == if finished_count(ms) >= v.waiting {
            0
        } else {
            (v.waiting - finished_count(ms)) as nat
        },
        (v.feed(ms).waiting == 0) <==> finished_count(ms) >= v.waiting,
        finished_count(ms) < v.waiting ==> v.feed(ms).waiting > 0,
        v.feed(ms).log == v.log + results_of(ms),
    decreases ms.len(),
{
    if ms.len() == 0 {
        assert(v.log + results_of(ms) =~= v.log);
    } else {
        let rest = ms.drop_first();
        lemma_complete_iff_all_finished(v.step(ms[0]), rest);
        match ms[0] {
            Message::Result(r) => {
                assert(v.log.push(r) + results_of(rest) =~= v.log + (seq![r] + results_of(rest)));
            },
            Message::Finished => {},
        }
    }
}

} // verus!
