use vstd::prelude::*;

use crate::args::Args;

verus! {

/// Milliseconds that must pass between two redraws of the dashboard.
pub const REDRAW_INTERVAL_MILLIS: u64 = 1000;

/// Whether a status code falls in one of the four classes 2xx, 3xx, 4xx, 5xx.
pub open spec fn in_class_range(code: u16) -> bool {
    200 <= code <= 599
}

/// Index of a status code's class: 0 for 2xx up to 3 for 5xx.
pub open spec fn class_of(code: u16) -> int {
    code as int / 100 - 2
}

/// Sum of a sequence of response times.
pub open spec fn seq_sum(s: Seq<u128>) -> int
    decreases s.len(),
{
    if s.len() == 0 {
        0
    } else {
        seq_sum(s.drop_last()) + s.last()
    }
}

/// Sum of the four class counts.
pub open spec fn bucket_total(c: Seq<int>) -> int {
    c[0] + c[1] + c[2] + c[3]
}

/// Whether enough time has passed since the last redraw. A clock reading
/// before the last redraw counts as no time passed.
pub open spec fn redraw_due(last: int, interval: int, now: int) -> bool {
    (if now >= last {
        now - last
    } else {
        0
    }) >= interval
}

/// A response time as a sparkline value: capped at `u64::MAX`.
pub open spec fn capped(t: u128) -> u64 {
    if t > u64::MAX {
        u64::MAX
    } else {
        t as u64
    }
}

/// What the aggregator holds, seen as mathematical values.
pub ghost struct AggregateView {
    /// Responses seen per class: 2xx, 3xx, 4xx, 5xx.
    pub counts: Seq<int>,
    /// Every response time seen, in arrival order.
    pub times: Seq<u128>,
    /// Time of the last redraw, in milliseconds since the test began.
    pub last_redraw: int,
    /// Minimum time between two redraws, in milliseconds.
    pub interval: int,
}

impl AggregateView {
    /// The counts cover exactly the responses seen.
    pub open spec fn consistent(self) -> bool {
        &&& self.counts.len() == 4
        &&& forall|i: int| 0 <= i < 4 ==> 0 <= #[trigger] self.counts[i]
        &&& bucket_total(self.counts) == self.times.len()
    }

    /// Whether a response can be recorded: its class exists and no counter overflows.
    pub open spec fn accepts(self, code: u16, time: u128) -> bool {
        &&& in_class_range(code)
        &&& self.times.len() < u64::MAX
        &&& seq_sum(self.times) + time <= u128::MAX
    }

    /// The state after recording one response at clock reading `now`.
    pub open spec fn recorded(self, code: u16, time: u128, now: u64) -> AggregateView {
        AggregateView {
            counts: self.counts.update(class_of(code), self.counts[class_of(code)] + 1),
            times: self.times.push(time),
            last_redraw: if redraw_due(self.last_redraw, self.interval, now as int) {
                now as int
            } else {
                self.last_redraw
            },
            interval: self.interval,
        }
    }

    /// One event `(code, time, now)`: recorded when accepted, ignored otherwise.
    pub open spec fn step(self, e: (u16, u128, u64)) -> AggregateView {
        if self.accepts(e.0, e.1) {
            self.recorded(e.0, e.1, e.2)
        } else {
            self
        }
    }

    /// Whether the event `e` makes the dashboard redraw.
    pub open spec fn redraws_on(self, e: (u16, u128, u64)) -> bool {
        self.accepts(e.0, e.1) && redraw_due(self.last_redraw, self.interval, e.2 as int)
    }

    /// The state after a sequence of events, in order.
    pub open spec fn feed(self, es: Seq<(u16, u128, u64)>) -> AggregateView
        decreases es.len(),
    {
        if es.len() == 0 {
            self
        } else {
            self.step(es[0]).feed(es.drop_first())
        }
    }

    /// How many redraws a sequence of events causes.
    pub open spec fn redraw_count(self, es: Seq<(u16, u128, u64)>) -> nat
        decreases es.len(),
    {
        if es.len() == 0 {
            0
        } else {
            (if self.redraws_on(es[0]) {
                1nat
            } else {
                0nat
            }) + self.step(es[0]).redraw_count(es.drop_first())
        }
    }

    /// The clock readings at which a sequence of events redraws, in order.
    pub open spec fn redraw_times(self, es: Seq<(u16, u128, u64)>) -> Seq<int>
        decreases es.len(),
    {
        if es.len() == 0 {
            Seq::empty()
        } else {
            (if self.redraws_on(es[0]) {
                seq![es[0].2 as int]
            } else {
                Seq::empty()
            }) + self.step(es[0]).redraw_times(es.drop_first())
        }
    }

    /// Failed responses: 4xx and 5xx. The error percentage is this count
    /// over `error_divisor`.
    pub open spec fn failed_count(self) -> int {
        self.counts[2] + self.counts[3]
    }

    /// Successful responses (2xx, 3xx), or 1 when there is none, so that the
    /// error percentage is always defined.
    pub open spec fn error_divisor(self) -> int {
        let ok = self.counts[0] + self.counts[1];
        if ok == 0 {
            1
        } else {
            ok
        }
    }
}

/// Why a response could not be recorded.
#[derive(Debug, Clone, Copy, PartialEq, Eq, Structural)]
pub enum UpdateError {
    /// The status code is below 200 or above 599.
    StatusOutOfRange,
    /// A counter would pass its largest value.
    CounterOverflow,
}

/// The aggregator: sole owner of the running statistics of a load test.
pub struct App {
    program_args: Args,
    total_responses: u64,
    total_response_time: u128,
    /// Responses per class: 2xx, 3xx, 4xx, 5xx.
    results: [u64; 4],
    response_times: Vec<u128>,
    redraw_interval: u64,
    previous_redraw_time: u64,
}

impl View for App {
    type V = AggregateView;

    closed spec fn view(&self) -> AggregateView {
        AggregateView {
            counts: self.results@.map_values(|c: u64| c as int),
            times: self.response_times@,
            last_redraw: self.previous_redraw_time as int,
            interval: self.redraw_interval as int,
        }
    }
}

impl App {
    /// The counters agree with the recorded response times.
    pub closed spec fn wf(&self) -> bool {
        &&& self@.consistent()
        &&& self.total_responses == self.response_times@.len()
        &&& self.total_response_time == seq_sum(self.response_times@)
    }

    /// The settings the test was started with.
    pub closed spec fn spec_args(&self) -> Args {
        self.program_args
    }

    /// A fresh aggregator; `now` is the clock in milliseconds since the test began.
    pub fn new(args: Args, now: u64) -> (r: App)
        ensures
            r.wf(),
            r@.consistent(),
            r@.counts == seq![0int, 0, 0, 0],
            r@.times == Seq::<u128>::empty(),
            r@.last_redraw == now,
            r@.interval == REDRAW_INTERVAL_MILLIS,
            r.spec_args() == args,
    {
        let r = App {
            program_args: args,
            total_responses: 0,
            total_response_time: 0,
            results: [0, 0, 0, 0],
            response_times: Vec::new(),
            redraw_interval: REDRAW_INTERVAL_MILLIS,
            previous_redraw_time: now,
        };
        assert(r@.counts =~= seq![0int, 0, 0, 0]);
        r
    }

    /// Records one response with status `code` that took `response_time`
    /// milliseconds, at clock reading `now`. Returns whether the dashboard is
    /// due for a redraw; a rejected response changes nothing.
    pub fn update_state(&mut self, code: u16, response_time: u128, now: u64) -> (r: Result<
        bool,
        UpdateError,
    >)
        requires
            old(self).wf(),
        ensures
            final(self).wf(),
            final(self)@.consistent(),
            final(self)@ == old(self)@.step((code, response_time, now)),
            (r == Ok::<bool, UpdateError>(true)) == old(self)@.redraws_on((code, response_time, now)),
            match r {
                Ok(redraw) => {
                    &&& old(self)@.accepts(code, response_time)
                    &&& final(self)@ == old(self)@.recorded(code, response_time, now)
                    &&& redraw == redraw_due(old(self)@.last_redraw, old(self)@.interval, now as int)
                    &&& final(self).spec_args() == old(self).spec_args()
                },
                Err(UpdateError::StatusOutOfRange) => {
                    &&& !in_class_range(code)
                    &&& *final(self) == *old(self)
                },
                Err(UpdateError::CounterOverflow) => {
                    &&& in_class_range(code)
                    &&& !old(self)@.accepts(code, response_time)
                    &&& *final(self) == *old(self)
                },
            },
    {
        if code < 200 || code > 599 {
            return Err(UpdateError::StatusOutOfRange);
        }
        if self.total_responses == u64::MAX || u128::MAX - self.total_response_time < response_time {
            return Err(UpdateError::CounterOverflow);
        }
        let ghost before = self@;
        let index: usize = (code / 100 - 2) as usize;
        assert(self.results@[index as int] <= self.total_responses);
        self.results[index] = self.results[index] + 1;
        self.total_responses = self.total_responses + 1;
        self.total_response_time = self.total_response_time + response_time;
        self.response_times.push(response_time);
        assert(self.response_times@.drop_last() =~= before.times);
        let since: u64 = if now >= self.previous_redraw_time {
            now - self.previous_redraw_time
        } else {
            0
        };
        let redraw = since >= self.redraw_interval;
        if redraw {
            self.previous_redraw_time = now;
        }
        assert(self@.counts =~= before.recorded(code, response_time, now).counts);
        Ok(redraw)
    }

    /// The settings the test was started with.
    pub fn args(&self) -> (r: &Args)
        ensures
            *r == self.spec_args(),
    {
        &self.program_args
    }

    /// Number of responses recorded.
    pub fn total_responses(&self) -> (r: u64)
        requires
            self.wf(),
        ensures
            r == self@.times.len(),
    {
        self.total_responses
    }

    /// Responses recorded per class: 2xx, 3xx, 4xx, 5xx.
    pub fn results(&self) -> (r: [u64; 4])
        ensures
            forall|i: int| 0 <= i < 4 ==> r[i] == #[trigger] self@.counts[i],
    {
        self.results
    }

    /// Every response time recorded, in arrival order.
    pub fn response_times(&self) -> (r: &Vec<u128>)
        ensures
            r@ == self@.times,
    {
        &self.response_times
    }

    /// Sum of the response times recorded, in milliseconds.
    pub fn total_response_time(&self) -> (r: u128)
        requires
            self.wf(),
        ensures
            r == seq_sum(self@.times),
    {
        self.total_response_time
    }

    /// Mean response time in whole milliseconds, rounded down; 0 before any response.
    pub fn average_response_time(&self) -> (r: u128)
        requires
            self.wf(),
        ensures
            self@.times.len() == 0 ==> r == 0,
            self@.times.len() > 0 ==> r == seq_sum(self@.times) / (self@.times.len() as int),
    {
        if self.total_responses == 0 {
            0
        } else {
            self.total_response_time / (self.total_responses as u128)
        }
    }

    /// Failed responses (4xx, 5xx): the numerator of the error percentage.
    pub fn failed_responses(&self) -> (r: u64)
        requires
            self.wf(),
        ensures
            r == self@.failed_count(),
    {
        self.results[2] + self.results[3]
    }

    /// Successful responses (2xx, 3xx), at least 1: the divisor of the error
    /// percentage.
    pub fn error_divisor(&self) -> (r: u64)
        requires
            self.wf(),
        ensures
            r == self@.error_divisor(),
            r >= 1,
    {
        if self.results[0] == 0 && self.results[1] == 0 {
            1
        } else {
            self.results[0] + self.results[1]
        }
    }

    /// The largest class count: the top of the bar chart.
    pub fn max_bucket(&self) -> (r: u64)
        ensures
            forall|i: int| 0 <= i < 4 ==> #[trigger] self@.counts[i] <= r,
            exists|i: int| 0 <= i < 4 && #[trigger] self@.counts[i] == r,
    {
        let mut max: u64 = self.results[0];
        let mut i: usize = 1;
        let ghost mut at: int = 0;
        while i < 4
            invariant
                1 <= i <= 4,
                forall|j: int| 0 <= j < i ==> #[trigger] self@.counts[j] <= max,
                0 <= at < i,
                self@.counts[at] == max,
            decreases 4 - i,
        {
            if self.results[i] > max {
                max = self.results[i];
                proof {
                    at = i as int;
                }
            }
            i = i + 1;
        }
        max
    }

    /// The newest response times first, at most `max_len` of them, each
    /// capped at `u64::MAX`: the data of the sparkline.
    pub fn sparkline_data(&self, max_len: usize) -> (r: Vec<u64>)
        ensures
            r@.len() == if max_len < self@.times.len() {
                max_len as int
            } else {
                self@.times.len() as int
            },
            forall|i: int|
                0 <= i < r@.len() ==> #[trigger] r@[i] == capped(
                    self@.times[self@.times.len() - 1 - i],
                ),
    {
        let n = self.response_times.len();
        let bound: usize = if max_len < n {
            max_len
        } else {
            n
        };
        let mut r: Vec<u64> = Vec::new();
        let mut i: usize = 0;
        while i < bound
            invariant
                i <= bound,
                bound <= n,
                n == self@.times.len(),
                r@.len() == i,
                forall|j: int|
                    0 <= j < i ==> #[trigger] r@[j] == capped(self@.times[n - 1 - j]),
            decreases bound - i,
        {
            let t = self.response_times[n - 1 - i];
            let v: u64 = if t > u64::MAX as u128 {
                u64::MAX
            } else {
                t as u64
            };
            r.push(v);
            i = i + 1;
        }
        r
    }
}

/// The response times of a sequence of events `(code, time, now)`.
pub open spec fn times_of(es: Seq<(u16, u128, u64)>) -> Seq<u128> {
    es.map_values(|e: (u16, u128, u64)| e.1)
}

/// The status codes of a sequence of events `(code, time, now)`.
pub open spec fn codes_of(es: Seq<(u16, u128, u64)>) -> Seq<u16> {
    es.map_values(|e: (u16, u128, u64)| e.0)
}

/// How many of the codes fall in class `c`.
pub open spec fn class_count(codes: Seq<u16>, c: int) -> int
    decreases codes.len(),
{
    if codes.len() == 0 {
        0
    } else {
        class_count(codes.drop_last(), c) + if class_of(codes.last()) == c {
            1int
        } else {
            0int
        }
    }
}

proof fn lemma_class_count_concat(a: Seq<u16>, b: Seq<u16>, c: int)
    ensures
        class_count(a + b, c) == class_count(a, c) + class_count(b, c),
    decreases b.len(),
{
    if b.len() == 0 {
        assert(a + b =~= a);
    } else {
        lemma_class_count_concat(a, b.drop_last(), c);
        assert((a + b).drop_last() =~= a + b.drop_last());
    }
}

proof fn lemma_class_count_single(x: u16, c: int)
    ensures
        class_count(seq![x], c) == if class_of(x) == c {
            1int
        } else {
            0int
        },
{
    assert(seq![x].drop_last() =~= Seq::<u16>::empty());
    assert(class_count(Seq::<u16>::empty(), c) == 0);
}

proof fn lemma_class_count_permutation(s: Seq<u16>, t: Seq<u16>, c: int)
    requires
        s.to_multiset() == t.to_multiset(),
    ensures
        class_count(s, c) == class_count(t, c),
    decreases s.len(),
{
    broadcast use vstd::seq_lib::group_to_multiset_ensures;

    if s.len() == 0 {
        assert(t.to_multiset().len() == 0);
        assert(t =~= Seq::<u16>::empty());
    } else {
        let x = s.last();
        let rest = s.drop_last();
        assert(rest.push(x) =~= s);
        assert(s.to_multiset().count(x) > 0);
        assert(t.contains(x));
        let j = choose|j: int| 0 <= j < t.len() && t[j] == x;
        let t2 = t.remove(j);
        assert(rest.to_multiset() =~= s.to_multiset().remove(x));
        lemma_class_count_permutation(rest, t2, c);
        let front = t.subrange(0, j);
        let back = t.subrange(j + 1, t.len() as int);
        assert(t =~= front + (seq![x] + back));
        assert(t2 =~= front + back);
        lemma_class_count_concat(front, seq![x] + back, c);
        lemma_class_count_concat(seq![x], back, c);
        lemma_class_count_concat(front, back, c);
        lemma_class_count_single(x, c);
    }
}

proof fn lemma_sum_single(x: u128)
    ensures
        seq_sum(seq![x]) == x,
{
    assert(seq![x].drop_last() =~= Seq::<u128>::empty());
    assert(seq_sum(Seq::<u128>::empty()) == 0);
    assert(seq![x].last() == x);
}

proof fn lemma_sum_nonnegative(s: Seq<u128>)
    ensures
        seq_sum(s) >= 0,
    decreases s.len(),
{
    if s.len() > 0 {
        lemma_sum_nonnegative(s.drop_last());
    }
}

proof fn lemma_sum_concat(a: Seq<u128>, b: Seq<u128>)
    ensures
        seq_sum(a + b) == seq_sum(a) + seq_sum(b),
    decreases b.len(),
{
    if b.len() == 0 {
        assert(a + b =~= a);
    } else {
        lemma_sum_concat(a, b.drop_last());
        assert((a + b).drop_last() =~= a + b.drop_last());
    }
}

proof fn lemma_sum_permutation(s: Seq<u128>, t: Seq<u128>)
    requires
        s.to_multiset() == t.to_multiset(),
    ensures
        seq_sum(s) == seq_sum(t),
    decreases s.len(),
{
    broadcast use vstd::seq_lib::group_to_multiset_ensures;

    if s.len() == 0 {
        assert(t.to_multiset().len() == 0);
        assert(t =~= Seq::<u128>::empty());
    } else {
        let x = s.last();
        let rest = s.drop_last();
        assert(rest.push(x) =~= s);
        assert(s.to_multiset().count(x) > 0);
        assert(t.contains(x));
        let j = choose|j: int| 0 <= j < t.len() && t[j] == x;
        let t2 = t.remove(j);
        assert(rest.to_multiset() =~= s.to_multiset().remove(x));
        lemma_sum_permutation(rest, t2);
        let front = t.subrange(0, j);
        let back = t.subrange(j + 1, t.len() as int);
        assert(t =~= front + (seq![x] + back));
        assert(t2 =~= front + back);
        lemma_sum_concat(front, seq![x] + back);
        lemma_sum_concat(seq![x], back);
        lemma_sum_concat(front, back);
        lemma_sum_single(x);
    }
}

proof fn lemma_step_consistent(v: AggregateView, e: (u16, u128, u64))
    requires
        v.consistent(),
    ensures
        v.step(e).consistent(),
        v.step(e).interval == v.interval,
{
    if v.accepts(e.0, e.1) {
        let c = class_of(e.0);
        assert(c == 0 || c == 1 || c == 2 || c == 3);
        assert(bucket_total(v.step(e).counts) == bucket_total(v.counts) + 1);
    }
}

/// The class counts always add up to the number of responses recorded:
/// whatever responses arrive, this holds after every update.
pub proof fn lemma_counts_sum_to_total(v: AggregateView, es: Seq<(u16, u128, u64)>)
    requires
        v.consistent(),
    ensures
        v.feed(es).consistent(),
        bucket_total(v.feed(es).counts) == v.feed(es).times.len(),
    decreases es.len(),
{
    if es.len() > 0 {
        lemma_step_consistent(v, es[0]);
        lemma_counts_sum_to_total(v.step(es[0]), es.drop_first());
    }
}

/// Responses with valid status codes that overflow no counter are all
/// recorded, with their times kept in arrival order.
pub proof fn lemma_feed_keeps_times(v: AggregateView, es: Seq<(u16, u128, u64)>)
    requires
        forall|i: int| 0 <= i < es.len() ==> in_class_range(#[trigger] es[i].0),
        v.times.len() + es.len() <= u64::MAX,
        seq_sum(v.times) + seq_sum(times_of(es)) <= u128::MAX,
    ensures
        v.feed(es).times == v.times + times_of(es),
    decreases es.len(),
{
    if es.len() == 0 {
        assert(v.times + times_of(es) =~= v.times);
    } else {
        let e = es[0];
        let rest = es.drop_first();
        assert(times_of(es) =~= seq![e.1] + times_of(rest));
        lemma_sum_concat(seq![e.1], times_of(rest));
        lemma_sum_single(e.1);
        lemma_sum_nonnegative(times_of(rest));
        assert(v.accepts(e.0, e.1));
        let w = v.step(e);
        assert(w.times.drop_last() =~= v.times);
        assert forall|i: int| 0 <= i < rest.len() implies in_class_range(#[trigger] rest[i].0) by {
            assert(rest[i] == es[i + 1]);
        }
        lemma_feed_keeps_times(w, rest);
        assert(v.times.push(e.1) + times_of(rest) =~= v.times + times_of(es));
    }
}

/// Responses with valid status codes that overflow no counter each add one
/// to the count of their class.
pub proof fn lemma_feed_counts(v: AggregateView, es: Seq<(u16, u128, u64)>)
    requires
        v.counts.len() == 4,
        forall|i: int| 0 <= i < es.len() ==> in_class_range(#[trigger] es[i].0),
        v.times.len() + es.len() <= u64::MAX,
        seq_sum(v.times) + seq_sum(times_of(es)) <= u128::MAX,
    ensures
        v.feed(es).counts.len() == 4,
        forall|c: int|
            0 <= c < 4 ==> #[trigger] v.feed(es).counts[c] == v.counts[c] + class_count(
                codes_of(es),
                c,
            ),
    decreases es.len(),
{
    if es.len() == 0 {
        assert forall|c: int| 0 <= c < 4 implies #[trigger] v.feed(es).counts[c] == v.counts[c]
            + class_count(codes_of(es), c) by {
            assert(codes_of(es) =~= Seq::<u16>::empty());
        }
    } else {
        let e = es[0];
        let rest = es.drop_first();
        assert(times_of(es) =~= seq![e.1] + times_of(rest));
        lemma_sum_concat(seq![e.1], times_of(rest));
        lemma_sum_single(e.1);
        lemma_sum_nonnegative(times_of(rest));
        assert(v.accepts(e.0, e.1));
        let w = v.step(e);
        assert(w.times.drop_last() =~= v.times);
        assert forall|i: int| 0 <= i < rest.len() implies in_class_range(#[trigger] rest[i].0) by {
            assert(rest[i] == es[i + 1]);
        }
        lemma_feed_counts(w, rest);
        assert(codes_of(es) =~= seq![e.0] + codes_of(rest));
        assert forall|c: int| 0 <= c < 4 implies #[trigger] v.feed(es).counts[c] == v.counts[c]
            + class_count(codes_of(es), c) by {
            lemma_class_count_concat(seq![e.0], codes_of(rest), c);
            lemma_class_count_single(e.0, c);
        }
    }
}

/// The running mean is the true mean: fed responses with times `t1..tn`
/// from a fresh state, the recorded times are exactly `t1..tn`, so their
/// sum over their number is `(t1 + ... + tn) / n`.
pub proof fn lemma_mean_of_fed_times(v: AggregateView, es: Seq<(u16, u128, u64)>)
    requires
        v.times.len() == 0,
        forall|i: int| 0 <= i < es.len() ==> in_class_range(#[trigger] es[i].0),
        es.len() <= u64::MAX,
        seq_sum(times_of(es)) <= u128::MAX,
    ensures
        v.feed(es).times.len() == es.len(),
        seq_sum(v.feed(es).times) == seq_sum(times_of(es)),
{
    assert(seq_sum(v.times) == 0);
    lemma_feed_keeps_times(v, es);
    assert(v.times + times_of(es) =~= times_of(es));
}

/// Arrival order does not matter: two runs from the same fresh state whose
/// status codes are the same multiset and whose response times are the same
/// multiset end with the same class counts, the same number of responses and
/// the same sum of times, hence the same mean.
pub proof fn lemma_mean_independent_of_order(
    v: AggregateView,
    es1: Seq<(u16, u128, u64)>,
    es2: Seq<(u16, u128, u64)>,
)
    requires
        v.consistent(),
        v.times.len() == 0,
        forall|i: int| 0 <= i < es1.len() ==> in_class_range(#[trigger] es1[i].0),
        forall|i: int| 0 <= i < es2.len() ==> in_class_range(#[trigger] es2[i].0),
        es1.len() <= u64::MAX,
        seq_sum(times_of(es1)) <= u128::MAX,
        times_of(es1).to_multiset() == times_of(es2).to_multiset(),
        codes_of(es1).to_multiset() == codes_of(es2).to_multiset(),
    ensures
        v.feed(es1).counts == v.feed(es2).counts,
        v.feed(es1).times.len() == v.feed(es2).times.len(),
        seq_sum(v.feed(es1).times) == seq_sum(v.feed(es2).times),
{
    broadcast use vstd::seq_lib::group_to_multiset_ensures;

    assert(seq_sum(v.times) == 0);
    lemma_sum_permutation(times_of(es1), times_of(es2));
    assert(times_of(es1).len() == times_of(es1).to_multiset().len());
    assert(times_of(es2).len() == times_of(es2).to_multiset().len());
    lemma_feed_counts(v, es1);
    lemma_feed_counts(v, es2);
    assert forall|c: int| 0 <= c < 4 implies #[trigger] v.feed(es1).counts[c] == v.feed(
        es2,
    ).counts[c] by {
        lemma_class_count_permutation(codes_of(es1), codes_of(es2), c);
    }
    assert(v.feed(es1).counts =~= v.feed(es2).counts);

    lemma_sum_permutation(times_of(es1), times_of(es2));
    assert(times_of(es1).len() == times_of(es1).to_multiset().len());
    assert(times_of(es2).len() == times_of(es2).to_multiset().len());
    lemma_mean_of_fed_times(v, es1);
    lemma_mean_of_fed_times(v, es2);
}

/// The error percentage is always defined: its divisor is at least 1.
/// With no successful and no failed response it is 0 over 1, that is 0.
pub proof fn lemma_error_percentage_defined(v: AggregateView)
    requires
        v.consistent(),
    ensures
        v.error_divisor() >= 1,
        v.counts[0] == 0 && v.counts[1] == 0 && v.counts[2] == 0 && v.counts[3] == 0 ==> (
        v.failed_count() == 0 && v.error_divisor() == 1),
{
    assert(0 <= v.counts[0] && 0 <= v.counts[1]);
}

/// When every response is 2xx, all of them land in the first class and no
/// response counts as failed, so the error percentage stays 0.
pub proof fn lemma_all_success(v: AggregateView, es: Seq<(u16, u128, u64)>)
    requires
        v.consistent(),
        v.counts[1] == 0,
        v.counts[2] == 0,
        v.counts[3] == 0,
        forall|i: int| 0 <= i < es.len() ==> 200 <= #[trigger] es[i].0 <= 299,
    ensures
        v.feed(es).counts == seq![v.feed(es).times.len() as int, 0, 0, 0],
        v.feed(es).failed_count() == 0,
    decreases es.len(),
{
    if es.len() == 0 {
        assert(v.counts =~= seq![v.times.len() as int, 0, 0, 0]);
    } else {
        let rest = es.drop_first();
        lemma_step_consistent(v, es[0]);
        assert forall|i: int| 0 <= i < rest.len() implies 200 <= #[trigger] rest[i].0 <= 299 by {
            assert(rest[i] == es[i + 1]);
        }
        lemma_all_success(v.step(es[0]), rest);
    }
}

proof fn lemma_quiet_after_redraw(v: AggregateView, es: Seq<(u16, u128, u64)>, start: int)
    requires
        v.interval > 0,
        start <= v.last_redraw,
        forall|i: int| 0 <= i < es.len() ==> start <= #[trigger] es[i].2 < start + v.interval,
    ensures
        v.redraw_count(es) == 0,
    decreases es.len(),
{
    if es.len() > 0 {
        let rest = es.drop_first();
        assert(start <= es[0].2 < start + v.interval);
        assert(!v.redraws_on(es[0]));
        assert forall|i: int| 0 <= i < rest.len() implies start <= #[trigger] rest[i].2 < start
            + v.interval by {
            assert(rest[i] == es[i + 1]);
        }
        lemma_quiet_after_redraw(v.step(es[0]), rest, start);
    }
}

/// Redraws are throttled: however many responses arrive within one redraw
/// interval, they cause at most one redraw.
pub proof fn lemma_redraw_at_most_once_per_interval(
    v: AggregateView,
    es: Seq<(u16, u128, u64)>,
    start: int,
)
    requires
        v.interval > 0,
        forall|i: int| 0 <= i < es.len() ==> start <= #[trigger] es[i].2 < start + v.interval,
    ensures
        v.redraw_count(es) <= 1,
    decreases es.len(),
{
    if es.len() > 0 {
        let rest = es.drop_first();
        assert(start <= es[0].2 < start + v.interval);
        assert forall|i: int| 0 <= i < rest.len() implies start <= #[trigger] rest[i].2 < start
            + v.interval by {
            assert(rest[i] == es[i + 1]);
        }
        if v.redraws_on(es[0]) {
            lemma_quiet_after_redraw(v.step(es[0]), rest, start);
        } else {
            lemma_redraw_at_most_once_per_interval(v.step(es[0]), rest, start);
        }
    }
}

/// Redraws are throttled at any message rate: each redraw comes at least
/// one interval after the previous one, the first at least one interval
/// after the last redraw before the events.
pub proof fn lemma_redraws_an_interval_apart(v: AggregateView, es: Seq<(u16, u128, u64)>)
    requires
        v.interval > 0,
    ensures
        forall|k: int|
            0 <= k < v.redraw_times(es).len() ==> #[trigger] v.redraw_times(es)[k] >= v.last_redraw
                + v.interval,
        forall|k: int|
            0 <= k < v.redraw_times(es).len() - 1 ==> #[trigger] v.redraw_times(es)[k + 1]
                >= v.redraw_times(es)[k] + v.interval,
    decreases es.len(),
{
    if es.len() > 0 {
        let e = es[0];
        let rest = es.drop_first();
        let w = v.step(e);
        assert(w.interval == v.interval);
        lemma_redraws_an_interval_apart(w, rest);
        let tail = w.redraw_times(rest);
        let all = v.redraw_times(es);
        if v.redraws_on(e) {
            assert(w.last_redraw == e.2 as int);
            assert(e.2 as int >= v.last_redraw + v.interval);
            assert(all =~= seq![e.2 as int] + tail);
            assert forall|k: int| 0 <= k < all.len() implies #[trigger] all[k] >= v.last_redraw
                + v.interval by {
                if k > 0 {
                    assert(all[k] == tail[k - 1]);
                }
            }
            assert forall|k: int| 0 <= k < all.len() - 1 implies #[trigger] all[k + 1] >= all[k]
                + v.interval by {
                assert(all[k + 1] == tail[k]);
                if k > 0 {
                    assert(all[k] == tail[k - 1]);
                    assert(tail[(k - 1) + 1] >= tail[k - 1] + v.interval);
                } else {
                    assert(tail[0] >= w.last_redraw + v.interval);
                }
            }
        } else {
            assert(w.last_redraw == v.last_redraw);
            assert(all =~= tail);
        }
    }
}

} // verus!
