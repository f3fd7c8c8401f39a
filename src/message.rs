use vstd::prelude::*;

verus! {

/// One completed request: its status code, how long it took, and its body.
#[derive(Debug, Clone)]
pub struct Results {
    pub response_code: u16,
    /// Elapsed time of the exchange, in whole milliseconds.
    pub elapsed: u128,
    pub body: String,
}

/// What a worker sends to the collection loop.
#[derive(Debug)]
pub enum Message {
    /// A request completed.
    Result(Results),
    /// The worker passed its deadline and sends nothing more.
    Finished,
}

/// Number of `Finished` messages in a sequence.
pub open spec fn finished_count(ms: Seq<Message>) -> nat
    decreases ms.len(),
{
    if ms.len() == 0 {
        0
    } else {
        (if ms[0] is Finished {
            1nat
        } else {
            0nat
        }) + finished_count(ms.drop_first())
    }
}

/// The completed requests carried by a sequence of messages, in order.
pub open spec fn results_of(ms: Seq<Message>) -> Seq<Results>
    decreases ms.len(),
{
    if ms.len() == 0 {
        Seq::empty()
    } else {
        match ms[0] {
            Message::Result(r) => seq![r] + results_of(ms.drop_first()),
            Message::Finished => results_of(ms.drop_first()),
        }
    }
}

/// Counting `Finished` messages distributes over joining sequences.
pub proof fn lemma_finished_count_concat(a: Seq<Message>, b: Seq<Message>)
    ensures
        finished_count(a + b) == finished_count(a) + finished_count(b),
    decreases a.len(),
{
    if a.len() == 0 {
        assert(a + b =~= b);
    } else {
        assert((a + b).drop_first() =~= a.drop_first() + b);
        lemma_finished_count_concat(a.drop_first(), b);
    }
}

} // verus!
