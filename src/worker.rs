use vstd::prelude::*;

use crate::message::{finished_count, lemma_finished_count_concat, Message, Results};

verus! {

/// The messages one attempt yields: its result, if the request completed,
/// then `Finished` if the deadline has passed.
pub open spec fn attempt_messages(outcome: Option<Results>, deadline_passed: bool) -> Seq<Message> {
    (match outcome {
        Some(r) => seq![Message::Result(r)],
        None => Seq::empty(),
    }) + if deadline_passed {
        seq![Message::Finished]
    } else {
        Seq::empty()
    }
}

/// A worker's state as mathematical values.
pub ghost struct WorkerView {
    /// The test's duration, in seconds.
    pub test_time: nat,
    /// Whether the worker has sent `Finished` and stopped.
    pub done: bool,
}

impl WorkerView {
    /// The state after one attempt `(outcome, seconds since the test began)`.
    pub open spec fn step(self, a: (Option<Results>, u64)) -> WorkerView {
        WorkerView { test_time: self.test_time, done: self.done || a.1 >= self.test_time }
    }

    /// The messages that one attempt sends.
    pub open spec fn sends(self, a: (Option<Results>, u64)) -> Seq<Message> {
        if self.done {
            Seq::empty()
        } else {
            attempt_messages(a.0, a.1 >= self.test_time)
        }
    }

    /// All messages sent over a sequence of attempts, in order.
    pub open spec fn emitted(self, attempts: Seq<(Option<Results>, u64)>) -> Seq<Message>
        decreases attempts.len(),
    {
        if attempts.len() == 0 {
            Seq::empty()
        } else {
            self.sends(attempts[0]) + self.step(attempts[0]).emitted(attempts.drop_first())
        }
    }
}

/// One request loop: after each attempt it decides what to send and whether
/// to stop. The requests themselves are issued by the caller.
pub struct Worker {
    test_time: u64,
    done: bool,
}

impl View for Worker {
    type V = WorkerView;

    closed spec fn view(&self) -> WorkerView {
        WorkerView { test_time: self.test_time as nat, done: self.done }
    }
}

impl Worker {
    /// A running worker for a test of `test_time` seconds.
    pub fn new(test_time: u16) -> (r: Worker)
        ensures
            r@ == (WorkerView { test_time: test_time as nat, done: false }),
    {
        Worker { test_time: test_time as u64, done: false }
    }

    /// Whether the worker has sent `Finished`; it then issues no more requests.
    pub fn is_done(&self) -> (r: bool)
        ensures
            r == self@.done,
    {
        self.done
    }

    /// Called after each attempt with its outcome (`None` when the transport
    /// failed, which is skipped) and the whole seconds since the test began.
    /// Returns the messages to send, in order.
    pub fn after_attempt(&mut self, outcome: Option<Results>, elapsed_secs: u64) -> (r: Vec<Message>)
        ensures
            r@ == old(self)@.sends((outcome, elapsed_secs)),
            final(self)@ == old(self)@.step((outcome, elapsed_secs)),
    {
        let mut r: Vec<Message> = Vec::new();
        if self.done {
            return r;
        }
        let ghost sent = attempt_messages(outcome, elapsed_secs >= self.test_time);
        match outcome {
            Some(result) => {
                r.push(Message::Result(result));
            },
            None => {},
        }
        if elapsed_secs >= self.test_time {
            r.push(Message::Finished);
            self.done = true;
        }
        assert(r@ =~= sent);
        r
    }
}

/// A worker sends `Finished` exactly once if some attempt ends at or after
/// its deadline, and never otherwise; nothing follows it.
pub proof fn lemma_finished_exactly_once(w: WorkerView, attempts: Seq<(Option<Results>, u64)>)
    ensures
        w.done ==> w.emitted(attempts) == Seq::<Message>::empty(),
        !w.done ==> finished_count(w.emitted(attempts)) == if exists|i: int|
            0 <= i < attempts.len() && #[trigger] attempts[i].1 >= w.test_time {
            1nat
        } else {
            0nat
        },
        w.emitted(attempts).len() > 0 && finished_count(w.emitted(attempts)) > 0
            ==> w.emitted(attempts).last() is Finished,
    decreases attempts.len(),
{
    if attempts.len() > 0 {
        let a = attempts[0];
        let rest = attempts.drop_first();
        let w2 = w.step(a);
        lemma_finished_exactly_once(w2, rest);
        lemma_finished_count_concat(w.sends(a), w2.emitted(rest));
        if w.done {
            assert(w.emitted(attempts) =~= Seq::<Message>::empty());
        } else {
            let first = match a.0 {
                Some(r) => seq![Message::Result(r)],
                None => Seq::<Message>::empty(),
            };
            assert(finished_count(first) == 0) by {
                assert(finished_count(Seq::<Message>::empty()) == 0);
                if first.len() > 0 {
                    assert(first.drop_first() =~= Seq::<Message>::empty());
                    assert(first[0] is Result);
                }
            }
            if a.1 >= w.test_time {
                lemma_finished_count_concat(first, seq![Message::Finished]);
                assert(seq![Message::Finished].drop_first() =~= Seq::<Message>::empty());
                assert(w.sends(a).last() is Finished);
                assert(w.emitted(attempts) =~= w.sends(a));
            } else {
                assert(w.sends(a) =~= first);
                if exists|i: int| 0 <= i < attempts.len() && #[trigger] attempts[i].1 >= w.test_time {
                    let i = choose|i: int|
                        0 <= i < attempts.len() && #[trigger] attempts[i].1 >= w.test_time;
                    assert(rest[i - 1] == attempts[i]);
                } else {
                    assert forall|i: int| 0 <= i < rest.len() implies !(#[trigger] rest[i].1
                        >= w.test_time) by {
                        assert(rest[i] == attempts[i + 1]);
                    }
                }
                if w.emitted(attempts).len() > 0 && finished_count(w.emitted(attempts)) > 0 {
                    assert(finished_count(w2.emitted(rest)) > 0);
                    assert(w2.emitted(rest).len() > 0);
                    assert(w.emitted(attempts).last() == w2.emitted(rest).last());
                }
            }
        }
    }
}

} // verus!
