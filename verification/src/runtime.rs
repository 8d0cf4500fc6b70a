//! The reactive runtime: signal cells, the subscription registry, and the
//! cooperative re-render queue.

use vstd::prelude::*;

verus! {

/// True when no element occurs twice in the sequence.
pub open spec fn distinct(s: Seq<usize>) -> bool {
    forall|i: int, j: int| 0 <= i < j < s.len() ==> s[i] != s[j]
}

/// How many times `x` occurs in `s`.
pub open spec fn occurrences(s: Seq<usize>, x: usize) -> nat
    decreases s.len(),
{
    if s.len() == 0 {
        0
    } else {
        occurrences(s.drop_last(), x) + (if s.last() == x {
            1nat
        } else {
            0nat
        })
    }
}

/// A sequence holds `x` exactly when `x` occurs a positive number of times.
pub proof fn lemma_occurrences_contains(s: Seq<usize>, x: usize)
    ensures
        s.contains(x) <==> occurrences(s, x) > 0,
    decreases s.len(),
{
    if s.len() > 0 {
        lemma_occurrences_contains(s.drop_last(), x);
        if s.drop_last().contains(x) {
            let i = choose|i: int| 0 <= i < s.drop_last().len() && s.drop_last()[i] == x;
            assert(s[i] == x);
        }
        if s.contains(x) && s.last() != x {
            let i = choose|i: int| 0 <= i < s.len() && s[i] == x;
            assert(s.drop_last()[i] == x);
        }
    }
}

/// In a sequence without duplicates, every element occurs exactly once.
pub proof fn lemma_distinct_occurrences(s: Seq<usize>, x: usize)
    requires
        distinct(s),
    ensures
        s.contains(x) ==> occurrences(s, x) == 1,
        !s.contains(x) ==> occurrences(s, x) == 0,
    decreases s.len(),
{
    lemma_occurrences_contains(s, x);
    if s.len() > 0 {
        assert(distinct(s.drop_last())) by {
            assert(forall|i: int, j: int|
                0 <= i < j < s.drop_last().len() ==> s.drop_last()[i] == s[i]
                    && s.drop_last()[j] == s[j]);
        }
        lemma_distinct_occurrences(s.drop_last(), x);
        lemma_occurrences_contains(s.drop_last(), x);
        if s.last() == x {
            assert(!s.drop_last().contains(x)) by {
                if s.drop_last().contains(x) {
                    let i = choose|i: int|
                        0 <= i < s.drop_last().len() && s.drop_last()[i] == x;
                    assert(s[i] == s[s.len() - 1]);
                }
            }
        } else {
            if s.contains(x) {
                let i = choose|i: int| 0 <= i < s.len() && s[i] == x;
                assert(s.drop_last()[i] == x);
            }
        }
    }
}

/// Whether `v` holds `x`.
fn vec_has(v: &Vec<usize>, x: usize) -> (b: bool)
    ensures
        b == v@.contains(x),
{
    let mut i: usize = 0;
    while i < v.len()
        invariant
            i <= v@.len(),
            forall|j: int| 0 <= j < i ==> v@[j] != x,
        decreases v@.len() - i,
    {
        if v[i] == x {
            return true;
        }
        i = i + 1;
    }
    false
}

/// Removes the one occurrence of `x` from `v`, if any, keeping the order of
/// the remaining elements.
fn remove_element(v: &mut Vec<usize>, x: usize)
    requires
        distinct(old(v)@),
    ensures
        distinct(final(v)@),
        !final(v)@.contains(x),
        forall|y: usize| y != x ==> (final(v)@.contains(y) <==> old(v)@.contains(y)),
        old(v)@.contains(x) ==> final(v)@.len() == old(v)@.len() - 1,
        !old(v)@.contains(x) ==> final(v)@ == old(v)@,
{
    let mut i: usize = 0;
    while i < v.len()
        invariant
            i <= v@.len(),
            v@ == old(v)@,
            distinct(old(v)@),
            forall|j: int| 0 <= j < i ==> v@[j] != x,
        decreases v@.len() - i,
    {
        if v[i] == x {
            proof {
                old(v)@.remove_ensures(i as int);
            }
            v.remove(i);
            proof {
                let r = old(v)@.remove(i as int);
                assert(v@ == r);
                assert forall|j: int| 0 <= j < i implies r[j] == old(v)@[j] by {
                    assert(old(v)@.remove(i as int)[j] == old(v)@[j]);
                }
                assert forall|j: int| i <= j < r.len() implies r[j] == old(v)@[j + 1] by {
                    assert(old(v)@.remove(i as int)[j] == old(v)@[j + 1]);
                }
                assert forall|y: usize|
                    y != x implies (v@.contains(y) <==> old(v)@.contains(y)) by {
                    if v@.contains(y) {
                        let j = choose|j: int| 0 <= j < r.len() && r[j] == y;
                        if j < i {
                            assert(old(v)@[j] == y);
                        } else {
                            assert(old(v)@[j + 1] == y);
                        }
                    }
                    if old(v)@.contains(y) {
                        let j = choose|j: int| 0 <= j < old(v)@.len() && old(v)@[j] == y;
                        if j < i {
                            assert(r[j] == y);
                        } else {
                            assert(j != i);
                            assert(r[j - 1] == old(v)@[j]);
                        }
                    }
                }
                assert(!v@.contains(x)) by {
                    if v@.contains(x) {
                        let j = choose|j: int| 0 <= j < r.len() && r[j] == x;
                        if j < i {
                            assert(old(v)@[j] == x);
                        } else {
                            assert(old(v)@[j + 1] == x);
                            assert(old(v)@[i as int] == x);
                        }
                    }
                }
                assert(distinct(v@)) by {
                    assert forall|a: int, b: int|
                        0 <= a < b < r.len() implies r[a] != r[b] by {
                        let a0 = if a < i { a } else { a + 1 };
                        let b0 = if b < i { b } else { b + 1 };
                        assert(r[a] == old(v)@[a0]);
                        assert(r[b] == old(v)@[b0]);
                    }
                }
            }
            return;
        }
        i = i + 1;
    }
}

/// One mutable cell together with the identities of the consumers that read
/// it during their last evaluation pass.
pub struct SignalCell {
    pub value: i64,
    pub subscribers: Vec<usize>,
}

/// One renderable unit: whether it is still mounted in the tree, and the
/// signals it read during its last evaluation pass.
pub struct Consumer {
    pub alive: bool,
    pub reads: Vec<usize>,
}

/// What one step of the drain loop asks the host to do next.
#[derive(Clone, Copy, Debug, PartialEq, Eq)]
pub enum DrainStep {
    /// Re-evaluate this consumer: read its signals through the runtime,
    /// which rebuilds its subscriptions from the reads that happen.
    Evaluate(usize),
    /// The queue is empty; the turn is complete.
    Done,
    /// The evaluation cap was hit while dirty consumers remained: a
    /// write-triggers-write chain failed to reach a fixed point. The queue
    /// has been discarded so the host can recover.
    RenderLoop,
}

/// The reactive core. Signals and consumers are named by the index at which
/// they were created; the subscription registry is kept in both directions
/// (each cell lists its subscribers, each consumer lists its reads), and the
/// queue holds the consumers marked dirty in the current turn, each at most
/// once, in enqueue order.
pub struct Runtime {
    pub signals: Vec<SignalCell>,
    pub consumers: Vec<Consumer>,
    pub queue: Vec<usize>,
    pub evals_in_turn: usize,
    pub eval_cap: usize,
}

/// Batching: however many writes a turn makes, a consumer they affect
/// stands in the dirty queue exactly once, and one not affected not at all,
/// so the drain re-evaluates each affected consumer exactly once after the
/// turn completes.
pub proof fn lemma_batched_once(rt: Runtime, c: usize)
    requires
        rt.wf(),
    ensures
        rt.queued(c) ==> occurrences(rt.queue@, c) == 1,
        !rt.queued(c) ==> occurrences(rt.queue@, c) == 0,
{
    lemma_distinct_occurrences(rt.queue@, c);
}

/// The registry invariant survives any change that leaves the signals and
/// consumers as they are and the queue without duplicates and over live
/// consumers.
proof fn lemma_wf_requeue(a: Runtime, b: Runtime)
    requires
        a.wf(),
        b.signals@ == a.signals@,
        b.consumers@ == a.consumers@,
        distinct(b.queue@),
        forall|j: int| 0 <= j < b.queue@.len() ==> a.alive_spec(#[trigger] b.queue@[j]),
    ensures
        b.wf(),
{
    assert forall|s: int|
        0 <= s < b.signal_count() implies distinct(#[trigger] b.signals@[s].subscribers@) by {
        assert(distinct(a.signals@[s].subscribers@));
    }
    assert forall|c: int|
        0 <= c < b.consumer_count() implies distinct(#[trigger] b.consumers@[c].reads@) by {
        assert(distinct(a.consumers@[c].reads@));
    }
    assert forall|s: usize, c: usize|
        #![trigger b.subscribed(s, c)]
        #![trigger b.reads_signal(c, s)]
        b.subscribed(s, c) <==> b.reads_signal(c, s) by {
        assert(b.subscribed(s, c) == a.subscribed(s, c));
        assert(b.reads_signal(c, s) == a.reads_signal(c, s));
        assert(a.subscribed(s, c) <==> a.reads_signal(c, s));
    }
    assert forall|s: usize, c: usize| #[trigger] b.subscribed(s, c) implies b.alive_spec(c) by {
        assert(a.subscribed(s, c));
        assert(a.alive_spec(c));
        assert(b.alive_spec(c) == a.alive_spec(c));
    }
    assert forall|c: usize, s: usize| #[trigger]
        b.reads_signal(c, s) implies s < b.signals@.len() && b.alive_spec(c) by {
        assert(a.reads_signal(c, s));
        assert(b.alive_spec(c) == a.alive_spec(c));
    }
    assert forall|j: int|
        0 <= j < b.queue@.len() implies b.alive_spec(#[trigger] b.queue@[j]) by {
        assert(a.alive_spec(b.queue@[j]));
        assert(b.alive_spec(b.queue@[j]) == a.alive_spec(b.queue@[j]));
    }
}

impl Runtime {
    /// The number of signals created so far.
    pub open spec fn signal_count(self) -> int {
        self.signals@.len() as int
    }

    /// The number of consumers created so far.
    pub open spec fn consumer_count(self) -> int {
        self.consumers@.len() as int
    }

    /// The current value of signal `s`.
    pub open spec fn value_spec(self, s: int) -> i64 {
        self.signals@[s].value
    }

    /// Consumer `c` is recorded as a subscriber of signal `s`.
    pub open spec fn subscribed(self, s: usize, c: usize) -> bool {
        s < self.signals@.len() && self.signals@[s as int].subscribers@.contains(c)
    }

    /// Consumer `c` recorded a read of signal `s` in its last pass.
    pub open spec fn reads_signal(self, c: usize, s: usize) -> bool {
        c < self.consumers@.len() && self.consumers@[c as int].reads@.contains(s)
    }

    /// Consumer `c` exists and is still mounted.
    pub open spec fn alive_spec(self, c: usize) -> bool {
        c < self.consumers@.len() && self.consumers@[c as int].alive
    }

    /// Consumer `c` is marked dirty in the current turn.
    pub open spec fn queued(self, c: usize) -> bool {
        self.queue@.contains(c)
    }

    /// The registry invariant: the two directions of the subscription
    /// relation agree, subscriptions name only live consumers and existing
    /// signals, a destroyed consumer holds no reads, and the dirty queue
    /// holds only live consumers, each at most once.
    pub open spec fn wf(self) -> bool {
        &&& forall|s: int|
            0 <= s < self.signal_count() ==> distinct(
                #[trigger] self.signals@[s].subscribers@,
            )
        &&& forall|c: int|
            0 <= c < self.consumer_count() ==> distinct(#[trigger] self.consumers@[c].reads@)
        &&& forall|s: usize, c: usize|
            #![trigger self.subscribed(s, c)]
            #![trigger self.reads_signal(c, s)]
            self.subscribed(s, c) <==> self.reads_signal(c, s)
        &&& forall|s: usize, c: usize| #[trigger]
            self.subscribed(s, c) ==> self.alive_spec(c)
        &&& forall|c: usize, s: usize| #[trigger]
            self.reads_signal(c, s) ==> s < self.signals@.len() && self.alive_spec(c)
        &&& distinct(self.queue@)
        &&& forall|j: int|
            0 <= j < self.queue@.len() ==> self.alive_spec(#[trigger] self.queue@[j])
    }

    /// A fresh runtime with no signals, no consumers, an empty queue, and
    /// the given cap on evaluations per turn.
    pub fn new(eval_cap: usize) -> (rt: Runtime)
        ensures
            rt.wf(),
            rt.signal_count() == 0,
            rt.consumer_count() == 0,
            rt.queue@ =~= Seq::<usize>::empty(),
            rt.evals_in_turn == 0,
            rt.eval_cap == eval_cap,
    {
        Runtime {
            signals: Vec::new(),
            consumers: Vec::new(),
            queue: Vec::new(),
            evals_in_turn: 0,
            eval_cap,
        }
    }

    /// Creates a signal cell holding `initial`, with no subscribers, and
    /// returns its identity. Nothing else changes.
    pub fn create_signal(&mut self, initial: i64) -> (s: usize)
        requires
            old(self).wf(),
        ensures
            final(self).wf(),
            s == old(self).signal_count(),
            final(self).signal_count() == old(self).signal_count() + 1,
            final(self).value_spec(s as int) == initial,
            forall|s2: int|
                0 <= s2 < old(self).signal_count() ==> final(self).value_spec(s2) == old(
                    self,
                ).value_spec(s2),
            forall|s2: usize, c2: usize| #[trigger]
                final(self).subscribed(s2, c2) <==> old(self).subscribed(s2, c2),
            final(self).consumers@ == old(self).consumers@,
            final(self).queue@ == old(self).queue@,
            final(self).evals_in_turn == old(self).evals_in_turn,
            final(self).eval_cap == old(self).eval_cap,
    {
        let s = self.signals.len();
        self.signals.push(SignalCell { value: initial, subscribers: Vec::new() });
        proof {
            assert forall|s2: usize, c2: usize|
                self.subscribed(s2, c2) == old(self).subscribed(s2, c2) by {
                if s2 < old(self).signals@.len() {
                    assert(self.signals@[s2 as int] == old(self).signals@[s2 as int]);
                } else if s2 == s {
                    assert(self.signals@[s2 as int].subscribers@.len() == 0);
                }
            }
            assert forall|c2: usize, s2: usize|
                self.reads_signal(c2, s2) == old(self).reads_signal(c2, s2) by {
                assert(self.consumers == old(self).consumers);
            }
        }
        s
    }

    /// Creates a consumer, mounted and with no subscriptions, and returns
    /// its identity. Nothing else changes.
    pub fn create_consumer(&mut self) -> (c: usize)
        requires
            old(self).wf(),
        ensures
            final(self).wf(),
            c == old(self).consumer_count(),
            final(self).consumer_count() == old(self).consumer_count() + 1,
            final(self).alive_spec(c),
            forall|s2: usize| !final(self).reads_signal(c, s2),
            forall|c2: usize|
                c2 != c ==> (#[trigger] final(self).alive_spec(c2) <==> old(self).alive_spec(c2)),
            forall|s2: usize, c2: usize| #[trigger]
                final(self).subscribed(s2, c2) <==> old(self).subscribed(s2, c2),
            final(self).signals@ == old(self).signals@,
            final(self).queue@ == old(self).queue@,
            final(self).evals_in_turn == old(self).evals_in_turn,
            final(self).eval_cap == old(self).eval_cap,
    {
        let c = self.consumers.len();
        self.consumers.push(Consumer { alive: true, reads: Vec::new() });
        proof {
            assert forall|c2: usize, s2: usize|
                self.reads_signal(c2, s2) == old(self).reads_signal(c2, s2) by {
                if c2 < old(self).consumers@.len() {
                    assert(self.consumers@[c2 as int] == old(self).consumers@[c2 as int]);
                } else if c2 == c {
                    assert(self.consumers@[c2 as int].reads@.len() == 0);
                }
            }
            assert forall|s2: usize, c2: usize|
                self.subscribed(s2, c2) == old(self).subscribed(s2, c2) by {
                assert(self.signals == old(self).signals);
            }
            assert forall|c2: usize|
                c2 != c implies (self.alive_spec(c2) == old(self).alive_spec(c2)) by {
                if c2 < old(self).consumers@.len() {
                    assert(self.consumers@[c2 as int] == old(self).consumers@[c2 as int]);
                }
            }
        }
        c
    }

    /// A consumer reads a signal during its evaluation: returns the current
    /// value and records `c` as a subscriber of `s`, exactly once per pass.
    /// No value, no other subscription, and nothing of the queue changes.
    pub fn read(&mut self, s: usize, c: usize) -> (v: i64)
        requires
            old(self).wf(),
            s < old(self).signal_count(),
            c < old(self).consumer_count(),
            old(self).alive_spec(c),
        ensures
            final(self).wf(),
            v == old(self).value_spec(s as int),
            final(self).subscribed(s, c),
            forall|s2: int|
                0 <= s2 < old(self).signal_count() ==> final(self).value_spec(s2) == old(
                    self,
                ).value_spec(s2),
            forall|s2: usize, c2: usize|
                !(s2 == s && c2 == c) ==> (#[trigger] final(self).subscribed(s2, c2) <==> old(
                    self,
                ).subscribed(s2, c2)),
            final(self).signal_count() == old(self).signal_count(),
            final(self).consumer_count() == old(self).consumer_count(),
            forall|c2: usize| #[trigger]
                final(self).alive_spec(c2) <==> old(self).alive_spec(c2),
            final(self).queue@ == old(self).queue@,
            final(self).evals_in_turn == old(self).evals_in_turn,
            final(self).eval_cap == old(self).eval_cap,
    {
        let v = self.signals[s].value;
        let already = vec_has(&self.consumers[c].reads, s);
        if !already {
            self.consumers[c].reads.push(s);
            self.signals[s].subscribers.push(c);
            proof {
                assert forall|s2: usize, c2: usize|
                    !(s2 == s && c2 == c) implies (self.subscribed(s2, c2) <==> old(
                    self,
                ).subscribed(s2, c2)) by {
                    if s2 < old(self).signals@.len() {
                        if s2 == s {
                            let subs = old(self).signals@[s as int].subscribers@;
                            assert(self.signals@[s as int].subscribers@ == subs.push(c));
                            if self.subscribed(s2, c2) {
                                let j = choose|j: int|
                                    0 <= j < subs.push(c).len() && subs.push(c)[j] == c2;
                                assert(j < subs.len());
                                assert(subs[j] == c2);
                            }
                            if old(self).subscribed(s2, c2) {
                                let j = choose|j: int| 0 <= j < subs.len() && subs[j] == c2;
                                assert(subs.push(c)[j] == c2);
                            }
                        } else {
                            assert(self.signals@[s2 as int] == old(self).signals@[s2 as int]);
                        }
                    }
                }
                assert(self.subscribed(s, c)) by {
                    let subs = old(self).signals@[s as int].subscribers@;
                    assert(subs.push(c)[subs.len() as int] == c);
                }
                assert forall|c2: usize, s2: usize|
                    !(s2 == s && c2 == c) implies (self.reads_signal(c2, s2) <==> old(
                    self,
                ).reads_signal(c2, s2)) by {
                    if c2 < old(self).consumers@.len() {
                        if c2 == c {
                            let rd = old(self).consumers@[c as int].reads@;
                            assert(self.consumers@[c as int].reads@ == rd.push(s));
                            if self.reads_signal(c2, s2) {
                                let j = choose|j: int|
                                    0 <= j < rd.push(s).len() && rd.push(s)[j] == s2;
                                assert(j < rd.len());
                                assert(rd[j] == s2);
                            }
                            if old(self).reads_signal(c2, s2) {
                                let j = choose|j: int| 0 <= j < rd.len() && rd[j] == s2;
                                assert(rd.push(s)[j] == s2);
                            }
                        } else {
                            assert(self.consumers@[c2 as int] == old(self).consumers@[c2 as int]);
                        }
                    }
                }
                assert(self.reads_signal(c, s)) by {
                    let rd = old(self).consumers@[c as int].reads@;
                    assert(rd.push(s)[rd.len() as int] == s);
                }
                assert(distinct(self.signals@[s as int].subscribers@)) by {
                    let subs = old(self).signals@[s as int].subscribers@;
                    assert(!subs.contains(c)) by {
                        if subs.contains(c) {
                            assert(old(self).subscribed(s, c));
                            assert(old(self).reads_signal(c, s));
                        }
                    }
                    assert forall|a: int, b: int|
                        0 <= a < b < subs.push(c).len() implies subs.push(c)[a] != subs.push(
                        c,
                    )[b] by {
                        if b < subs.len() {
                        } else {
                            assert(subs.push(c)[b] == c);
                            assert(subs.push(c)[a] == subs[a]);
                            if subs[a] == c {
                                assert(subs.contains(c));
                            }
                        }
                    }
                }
                assert(distinct(self.consumers@[c as int].reads@)) by {
                    let rd = old(self).consumers@[c as int].reads@;
                    assert(!rd.contains(s));
                    assert forall|a: int, b: int|
                        0 <= a < b < rd.push(s).len() implies rd.push(s)[a] != rd.push(s)[b] by {
                        if b < rd.len() {
                        } else {
                            assert(rd.push(s)[b] == s);
                            assert(rd.push(s)[a] == rd[a]);
                            if rd[a] == s {
                                assert(rd.contains(s));
                            }
                        }
                    }
                }
                assert forall|c2: usize| self.alive_spec(c2) == old(self).alive_spec(c2) by {
                    if c2 < old(self).consumers@.len() && c2 != c {
                        assert(self.consumers@[c2 as int] == old(self).consumers@[c2 as int]);
                    }
                }
                assert forall|s2: int|
                    0 <= s2 < old(self).signal_count() implies self.value_spec(s2) == old(
                    self,
                ).value_spec(s2) by {
                    if s2 != s {
                        assert(self.signals@[s2] == old(self).signals@[s2]);
                    }
                }
            }
        }
        v
    }

    /// An event handler writes a signal: the value is replaced and every
    /// subscriber of `s` is marked dirty, each at most once, appended in
    /// subscriber order after the consumers already queued. A consumer that
    /// is neither subscribed to `s` nor already dirty is not enqueued, and
    /// no subscription changes.
    pub fn write(&mut self, s: usize, value: i64)
        requires
            old(self).wf(),
            s < old(self).signal_count(),
        ensures
            final(self).wf(),
            final(self).value_spec(s as int) == value,
            forall|s2: int|
                0 <= s2 < old(self).signal_count() && s2 != s ==> final(self).value_spec(s2)
                    == old(self).value_spec(s2),
            forall|s2: usize, c2: usize| #[trigger]
                final(self).subscribed(s2, c2) <==> old(self).subscribed(s2, c2),
            forall|c2: usize| #[trigger]
                final(self).queued(c2) <==> old(self).queued(c2) || old(self).subscribed(s, c2),
            old(self).queue@.is_prefix_of(final(self).queue@),
            final(self).signal_count() == old(self).signal_count(),
            final(self).consumers@ == old(self).consumers@,
            final(self).evals_in_turn == old(self).evals_in_turn,
            final(self).eval_cap == old(self).eval_cap,
    {
        self.signals[s].value = value;
        proof {
            assert(self.signals@[s as int].value == value);
            assert(self.signals@[s as int].subscribers@ == old(
                self,
            ).signals@[s as int].subscribers@);
            assert(forall|j: int|
                0 <= j < self.signals@.len() && j != s ==> self.signals@[j] == old(
                    self,
                ).signals@[j]);
        }
        let ghost subs = self.signals@[s as int].subscribers@;
        let n = self.signals[s].subscribers.len();
        let mut i: usize = 0;
        while i < n
            invariant
                old(self).wf(),
                s < self.signals@.len(),
                self.signals@.len() == old(self).signals@.len(),
                self.consumers@ == old(self).consumers@,
                self.evals_in_turn == old(self).evals_in_turn,
                self.eval_cap == old(self).eval_cap,
                self.signals@[s as int].value == value,
                self.signals@[s as int].subscribers@ == subs,
                forall|j: int|
                    0 <= j < self.signals@.len() && j != s ==> self.signals@[j] == old(
                        self,
                    ).signals@[j],
                subs == old(self).signals@[s as int].subscribers@,
                n == subs.len(),
                i <= n,
                distinct(self.queue@),
                old(self).queue@.is_prefix_of(self.queue@),
                forall|c2: usize| #[trigger]
                    self.queue@.contains(c2) <==> old(self).queue@.contains(c2) || (exists|j: int|
                        0 <= j < i && subs[j] == c2),
                forall|j: int|
                    0 <= j < self.queue@.len() ==> self.alive_spec(#[trigger] self.queue@[j]),
            decreases n - i,
        {
            let c = self.signals[s].subscribers[i];
            let already = vec_has(&self.queue, c);
            if !already {
                let ghost q0 = self.queue@;
                self.queue.push(c);
                proof {
                    assert(subs.contains(c)) by {
                        assert(subs[i as int] == c);
                    }
                    assert(old(self).subscribed(s, c));
                    assert(old(self).alive_spec(c));
                    assert(self.alive_spec(c)) by {
                        assert(self.consumers@[c as int] == old(self).consumers@[c as int]);
                    }
                    assert(distinct(self.queue@)) by {
                        assert forall|a: int, b: int|
                            0 <= a < b < q0.push(c).len() implies q0.push(c)[a] != q0.push(
                            c,
                        )[b] by {
                            if b < q0.len() {
                            } else {
                                assert(q0.push(c)[b] == c);
                                assert(q0.push(c)[a] == q0[a]);
                                if q0[a] == c {
                                    assert(q0.contains(c));
                                }
                            }
                        }
                    }
                    assert forall|c2: usize|
                        #[trigger] self.queue@.contains(c2) <==> (old(self).queue@.contains(c2)
                            || (exists|j: int| 0 <= j < i + 1 && subs[j] == c2)) by {
                        if self.queue@.contains(c2) {
                            let j = choose|j: int|
                                0 <= j < q0.push(c).len() && q0.push(c)[j] == c2;
                            if j < q0.len() {
                                assert(q0[j] == c2);
                                assert(q0.contains(c2));
                            } else {
                                assert(c2 == c);
                                assert(subs[i as int] == c2);
                            }
                        }
                        if old(self).queue@.contains(c2) || (exists|j: int|
                            0 <= j < i + 1 && subs[j] == c2) {
                            if q0.contains(c2) {
                                let j = choose|j: int| 0 <= j < q0.len() && q0[j] == c2;
                                assert(q0.push(c)[j] == c2);
                            } else {
                                assert(c2 == c);
                                assert(q0.push(c)[q0.len() as int] == c);
                            }
                        }
                    }
                    assert(old(self).queue@.is_prefix_of(self.queue@)) by {
                        let q1 = old(self).queue@;
                        assert(forall|j: int| 0 <= j < q0.len() ==> q0.push(c)[j] == q0[j]);
                        assert(q1 =~= q0.push(c).subrange(0, q1.len() as int)) by {
                            assert(q1 =~= q0.subrange(0, q1.len() as int));
                            assert(forall|j: int|
                                0 <= j < q1.len() ==> q0.push(c).subrange(0, q1.len() as int)[j]
                                    == q0.push(c)[j]);
                        }
                    }
                }
            } else {
                proof {
                    assert(subs[i as int] == c);
                    assert forall|c2: usize|
                        #[trigger] self.queue@.contains(c2) <==> (old(self).queue@.contains(c2)
                            || (exists|j: int| 0 <= j < i + 1 && subs[j] == c2)) by {
                        if (exists|j: int| 0 <= j < i + 1 && subs[j] == c2) {
                            let j = choose|j: int| 0 <= j < i + 1 && subs[j] == c2;
                            if j == i {
                                assert(c2 == c);
                                assert(self.queue@.contains(c2));
                            }
                        }
                    }
                }
            }
            i = i + 1;
        }
        proof {
            assert forall|s2: usize, c2: usize|
                self.subscribed(s2, c2) == old(self).subscribed(s2, c2) by {
                if s2 < self.signals@.len() {
                    if s2 == s {
                        assert(self.signals@[s2 as int].subscribers@ == old(
                            self,
                        ).signals@[s2 as int].subscribers@);
                    } else {
                        assert(self.signals@[s2 as int] == old(self).signals@[s2 as int]);
                    }
                }
            }
            assert forall|c2: usize, s2: usize|
                self.reads_signal(c2, s2) == old(self).reads_signal(c2, s2) by {}
            assert forall|c2: usize| self.alive_spec(c2) == old(self).alive_spec(c2) by {}
            assert forall|c2: usize|
                #[trigger] self.queued(c2) <==> (old(self).queued(c2) || old(self).subscribed(
                s,
                c2,
            )) by {
                if old(self).subscribed(s, c2) {
                    let j = choose|j: int| 0 <= j < subs.len() && subs[j] == c2;
                    assert(0 <= j < n && subs[j] == c2);
                }
                if (exists|j: int| 0 <= j < n && subs[j] == c2) {
                    let j = choose|j: int| 0 <= j < n && subs[j] == c2;
                    assert(subs.contains(c2));
                }
            }
            assert forall|s2: int|
                0 <= s2 < old(self).signal_count() && s2 != s implies self.value_spec(s2) == old(
                self,
            ).value_spec(s2) by {
                assert(self.signals@[s2] == old(self).signals@[s2]);
            }
        }
    }

    /// Releases every subscription of consumer `c` and empties its read
    /// set: the start of a fresh evaluation pass, and the first half of a
    /// destruction. No value, no other subscription, and nothing of the
    /// queue changes.
    fn clear_subscriptions(&mut self, c: usize)
        requires
            old(self).wf(),
            c < old(self).consumer_count(),
        ensures
            final(self).wf(),
            forall|s2: usize| !final(self).subscribed(s2, c),
            forall|s2: usize| !final(self).reads_signal(c, s2),
            forall|s2: usize, c2: usize|
                c2 != c ==> (#[trigger] final(self).subscribed(s2, c2) <==> old(self).subscribed(
                    s2,
                    c2,
                )),
            forall|c2: usize, s2: usize|
                c2 != c ==> (#[trigger] final(self).reads_signal(c2, s2) <==> old(
                    self,
                ).reads_signal(c2, s2)),
            forall|s2: int|
                0 <= s2 < old(self).signal_count() ==> final(self).value_spec(s2) == old(
                    self,
                ).value_spec(s2),
            final(self).signal_count() == old(self).signal_count(),
            final(self).consumer_count() == old(self).consumer_count(),
            forall|c2: usize| #[trigger]
                final(self).alive_spec(c2) <==> old(self).alive_spec(c2),
            final(self).queue@ == old(self).queue@,
            final(self).evals_in_turn == old(self).evals_in_turn,
            final(self).eval_cap == old(self).eval_cap,
    {
        let ghost rd = self.consumers@[c as int].reads@;
        proof {
            assert forall|j: int| 0 <= j < rd.len() implies rd[j] < self.signals@.len() by {
                assert(rd.contains(rd[j]));
                assert(old(self).reads_signal(c, rd[j]));
            }
        }
        let n = self.consumers[c].reads.len();
        let mut i: usize = 0;
        while i < n
            invariant
                old(self).wf(),
                c < self.consumers@.len(),
                self.consumers@ == old(self).consumers@,
                rd == old(self).consumers@[c as int].reads@,
                n == rd.len(),
                i <= n,
                self.queue@ == old(self).queue@,
                self.evals_in_turn == old(self).evals_in_turn,
                self.eval_cap == old(self).eval_cap,
                self.signals@.len() == old(self).signals@.len(),
                forall|j: int| 0 <= j < rd.len() ==> (#[trigger] rd[j]) < self.signals@.len(),
                forall|j: int|
                    0 <= j < self.signals@.len() ==> #[trigger] self.signals@[j].value == old(
                        self,
                    ).signals@[j].value,
                forall|j: int|
                    0 <= j < self.signals@.len() ==> distinct(
                        #[trigger] self.signals@[j].subscribers@,
                    ),
                forall|j: int|
                    0 <= j < self.signals@.len() && !rd.subrange(0, i as int).contains(j as usize)
                        ==> #[trigger] self.signals@[j].subscribers@ == old(
                        self,
                    ).signals@[j].subscribers@,
                forall|j: int|
                    0 <= j < i ==> !(#[trigger] self.signals@[rd[j] as int].subscribers@).contains(
                        c,
                    ),
                forall|j: int, c2: usize|
                    0 <= j < self.signals@.len() && c2 != c ==> (#[trigger] self.signals@[j]
                        .subscribers@.contains(c2) <==> old(self).signals@[j].subscribers@
                        .contains(c2)),
            decreases n - i,
        {
            let s = self.consumers[c].reads[i];
            proof {
                assert(rd[i as int] == s);
                assert(s < self.signals@.len());
            }
            let ghost sigs0 = self.signals@;
            remove_element(&mut self.signals[s].subscribers, c);
            proof {
                assert(forall|j: int|
                    0 <= j < self.signals@.len() && j != s ==> self.signals@[j] == sigs0[j]);
                assert(self.signals@[s as int].value == sigs0[s as int].value);
                assert(distinct(rd)) by {
                    assert(distinct(old(self).consumers@[c as int].reads@));
                }
                assert(rd.subrange(0, (i + 1) as int) =~= rd.subrange(0, i as int).push(
                    rd[i as int],
                ));
                assert forall|j: int|
                    0 <= j < self.signals@.len() && !rd.subrange(0, (i + 1) as int).contains(
                        j as usize,
                    ) implies self.signals@[j].subscribers@ == old(
                    self,
                ).signals@[j].subscribers@ by {
                    assert(rd.subrange(0, (i + 1) as int)[i as int] == rd[i as int]);
                    assert(j != s);
                    assert(!rd.subrange(0, i as int).contains(j as usize)) by {
                        if rd.subrange(0, i as int).contains(j as usize) {
                            let k = choose|k: int|
                                0 <= k < i && rd.subrange(0, i as int)[k] == j as usize;
                            assert(rd.subrange(0, (i + 1) as int)[k] == rd[k]);
                        }
                    }
                    assert(self.signals@[j].subscribers@ == sigs0[j].subscribers@);
                }
                assert forall|j: int|
                    0 <= j < i + 1 implies !(#[trigger] self.signals@[rd[j] as int].subscribers@)
                    .contains(c) by {
                    assert(rd[j] < self.signals@.len());
                    if j < i {
                        assert(rd[j] != rd[i as int]);
                        assert(self.signals@[rd[j] as int] == sigs0[rd[j] as int]);
                        assert(!sigs0[rd[j] as int].subscribers@.contains(c));
                    }
                }
                assert forall|j: int, c2: usize|
                    0 <= j < self.signals@.len() && c2 != c implies (#[trigger] self.signals@[j]
                        .subscribers@.contains(c2) <==> old(self).signals@[j].subscribers@
                        .contains(c2)) by {
                    if j == s {
                        assert(sigs0[j].subscribers@.contains(c2) <==> old(
                            self,
                        ).signals@[j].subscribers@.contains(c2));
                    } else {
                        assert(self.signals@[j] == sigs0[j]);
                        assert(sigs0[j].subscribers@.contains(c2) <==> old(
                            self,
                        ).signals@[j].subscribers@.contains(c2));
                    }
                }
                assert forall|j: int|
                    0 <= j < self.signals@.len() implies distinct(
                    #[trigger] self.signals@[j].subscribers@,
                ) by {
                    if j != s {
                        assert(self.signals@[j] == sigs0[j]);
                        assert(distinct(sigs0[j].subscribers@));
                    }
                }
            }
            i = i + 1;
        }
        self.consumers[c].reads.clear();
        proof {
            assert(rd.subrange(0, n as int) =~= rd);
            assert(self.consumers@[c as int].reads@.len() == 0);
            assert(self.consumers@[c as int].alive == old(self).consumers@[c as int].alive);
            assert(forall|c2: int|
                0 <= c2 < self.consumers@.len() && c2 != c ==> self.consumers@[c2] == old(
                    self,
                ).consumers@[c2]);
            assert forall|s2: usize| !self.subscribed(s2, c) by {
                if s2 < self.signals@.len() {
                    if rd.contains(s2) {
                        let j = choose|j: int| 0 <= j < rd.len() && rd[j] == s2;
                        assert(!self.signals@[rd[j] as int].subscribers@.contains(c));
                    } else {
                        assert(!rd.subrange(0, n as int).contains(s2));
                        assert(self.signals@[s2 as int].subscribers@ == old(
                            self,
                        ).signals@[s2 as int].subscribers@);
                        assert(!old(self).reads_signal(c, s2));
                        assert(!old(self).subscribed(s2, c));
                    }
                }
            }
            assert forall|c2: usize, s2: usize|
                c2 != c implies (self.reads_signal(c2, s2) <==> old(self).reads_signal(
                c2,
                s2,
            )) by {
                if c2 < self.consumers@.len() {
                    assert(self.consumers@[c2 as int] == old(self).consumers@[c2 as int]);
                }
            }
            assert forall|c2: usize| self.alive_spec(c2) == old(self).alive_spec(c2) by {
                if c2 < self.consumers@.len() && c2 != c {
                    assert(self.consumers@[c2 as int] == old(self).consumers@[c2 as int]);
                }
            }
            assert forall|s2: usize, c2: usize|
                c2 != c implies (self.subscribed(s2, c2) <==> old(self).subscribed(
                s2,
                c2,
            )) by {
                if s2 < self.signals@.len() {
                    assert(self.signals@[s2 as int].subscribers@.contains(c2) <==> old(
                        self,
                    ).signals@[s2 as int].subscribers@.contains(c2));
                }
            }
            assert forall|s2: usize, c2: usize|
                #![trigger self.subscribed(s2, c2)]
                #![trigger self.reads_signal(c2, s2)]
                self.subscribed(s2, c2) <==> self.reads_signal(c2, s2) by {
                if c2 == c {
                    assert(!self.subscribed(s2, c));
                    assert(!self.reads_signal(c, s2));
                } else {
                    assert(self.subscribed(s2, c2) <==> old(self).subscribed(s2, c2));
                    assert(self.reads_signal(c2, s2) <==> old(self).reads_signal(c2, s2));
                    assert(old(self).subscribed(s2, c2) <==> old(self).reads_signal(c2, s2));
                }
            }
            assert forall|s2: usize, c2: usize| #[trigger]
                self.subscribed(s2, c2) implies self.alive_spec(c2) by {
                assert(c2 != c);
                assert(old(self).subscribed(s2, c2));
                assert(old(self).alive_spec(c2));
            }
            assert forall|c2: usize, s2: usize| #[trigger]
                self.reads_signal(c2, s2) implies s2 < self.signals@.len() && self.alive_spec(
                c2,
            ) by {
                assert(c2 != c);
                assert(old(self).reads_signal(c2, s2));
            }
            assert forall|j: int|
                0 <= j < self.queue@.len() implies self.alive_spec(
                #[trigger] self.queue@[j],
            ) by {
                assert(old(self).alive_spec(old(self).queue@[j]));
            }
            assert forall|c2: int|
                0 <= c2 < self.consumers@.len() implies distinct(
                #[trigger] self.consumers@[c2].reads@,
            ) by {
                if c2 != c {
                    assert(self.consumers@[c2] == old(self).consumers@[c2]);
                    assert(distinct(old(self).consumers@[c2].reads@));
                }
            }
        }
    }

    /// One step of the end-of-turn drain, driven by the host. While dirty
    /// consumers remain and the cap allows, hands out the oldest one to
    /// re-evaluate, after releasing its stale subscriptions so the pass
    /// rebuilds them from actual reads. An empty queue completes the turn;
    /// hitting the cap with work remaining reports a re-render loop and
    /// discards the queue so the host can recover.
    pub fn next_dirty(&mut self) -> (step: DrainStep)
        requires
            old(self).wf(),
        ensures
            final(self).wf(),
            (step is Done <==> old(self).queue@.len() == 0),
            (step is RenderLoop <==> old(self).queue@.len() > 0 && old(self).evals_in_turn
                >= old(self).eval_cap),
            (step is Evaluate <==> old(self).queue@.len() > 0 && old(self).evals_in_turn < old(
                self,
            ).eval_cap),
            step is Done ==> final(self).signals@ == old(self).signals@ && final(self).consumers@
                == old(self).consumers@ && final(self).queue@ == old(self).queue@,
            step is RenderLoop ==> final(self).signals@ == old(self).signals@
                && final(self).consumers@ == old(self).consumers@ && final(self).queue@.len()
                == 0,
            (step is Done || step is RenderLoop) ==> final(self).evals_in_turn == 0,
            step matches DrainStep::Evaluate(c) ==> c == old(self).queue@[0] && old(self).queued(
                c,
            ) && old(self).alive_spec(c),
            step matches DrainStep::Evaluate(c) ==> final(self).queue@ == old(
                self,
            ).queue@.subrange(1, old(self).queue@.len() as int) && !final(self).queued(c) && (
            forall|c2: usize|
                c2 != c ==> (#[trigger] final(self).queued(c2) <==> old(self).queued(c2))),
            step matches DrainStep::Evaluate(c) ==> (forall|s2: usize|
                !final(self).subscribed(s2, c)) && (forall|s2: usize|
                !final(self).reads_signal(c, s2)) && final(self).alive_spec(c),
            step matches DrainStep::Evaluate(c) ==> (forall|s2: usize, c2: usize|
                c2 != c ==> (#[trigger] final(self).subscribed(s2, c2) <==> old(self).subscribed(
                    s2,
                    c2,
                ))) && (forall|c2: usize, s2: usize|
                c2 != c ==> (#[trigger] final(self).reads_signal(c2, s2) <==> old(
                    self,
                ).reads_signal(c2, s2))),
            step is Evaluate ==> final(self).evals_in_turn == old(self).evals_in_turn + 1,
            forall|s2: int|
                0 <= s2 < old(self).signal_count() ==> final(self).value_spec(s2) == old(
                    self,
                ).value_spec(s2),
            final(self).signal_count() == old(self).signal_count(),
            final(self).consumer_count() == old(self).consumer_count(),
            forall|c2: usize| #[trigger]
                final(self).alive_spec(c2) <==> old(self).alive_spec(c2),
            final(self).eval_cap == old(self).eval_cap,
    {
        if self.queue.len() == 0 {
            self.evals_in_turn = 0;
            proof {
                assert forall|j: int|
                    0 <= j < self.queue@.len() implies old(self).alive_spec(
                    #[trigger] self.queue@[j],
                ) by {
                    assert(old(self).alive_spec(old(self).queue@[j]));
                }
                lemma_wf_requeue(*old(self), *self);
            }
            return DrainStep::Done;
        }
        if self.evals_in_turn >= self.eval_cap {
            self.queue.clear();
            self.evals_in_turn = 0;
            proof {
                lemma_wf_requeue(*old(self), *self);
            }
            return DrainStep::RenderLoop;
        }
        let ghost q0 = self.queue@;
        let c = self.queue.remove(0);
        self.evals_in_turn = self.evals_in_turn + 1;
        proof {
            q0.remove_ensures(0);
            assert(self.queue@ == q0.remove(0));
            assert(q0.remove(0) =~= q0.subrange(1, q0.len() as int));
            assert forall|j: int|
                0 <= j < self.queue@.len() implies old(self).alive_spec(
                #[trigger] self.queue@[j],
            ) by {
                assert(q0.remove(0)[j] == q0[j + 1]);
                assert(old(self).alive_spec(old(self).queue@[j + 1]));
            }
            assert(distinct(self.queue@)) by {
                assert forall|a: int, b: int|
                    0 <= a < b < self.queue@.len() implies self.queue@[a] != self.queue@[b] by {
                    assert(q0.remove(0)[a] == q0[a + 1]);
                    assert(q0.remove(0)[b] == q0[b + 1]);
                }
            }
            lemma_wf_requeue(*old(self), *self);
            assert(q0[0] == c);
            assert(q0.contains(c)) by {
                assert(q0[0] == c);
            }
            assert(old(self).alive_spec(old(self).queue@[0]));
            assert(self.alive_spec(c));
            assert(!self.queue@.contains(c)) by {
                if self.queue@.contains(c) {
                    let j = choose|j: int| 0 <= j < self.queue@.len() && self.queue@[j] == c;
                    assert(q0.remove(0)[j] == q0[j + 1]);
                    assert(q0[j + 1] == q0[0]);
                }
            }
            assert forall|c2: usize|
                c2 != c implies (self.queue@.contains(c2) <==> q0.contains(c2)) by {
                if self.queue@.contains(c2) {
                    let j = choose|j: int| 0 <= j < self.queue@.len() && self.queue@[j] == c2;
                    assert(q0.remove(0)[j] == q0[j + 1]);
                }
                if q0.contains(c2) {
                    let j = choose|j: int| 0 <= j < q0.len() && q0[j] == c2;
                    assert(j != 0);
                    assert(q0.remove(0)[j - 1] == q0[j]);
                }
            }
        }
        self.clear_subscriptions(c);
        DrainStep::Evaluate(c)
    }

    /// Removes a consumer from the tree: releases every one of its
    /// subscriptions, drops it from the dirty queue, and marks it dead.
    /// Nothing else changes.
    pub fn destroy_consumer(&mut self, c: usize)
        requires
            old(self).wf(),
            c < old(self).consumer_count(),
        ensures
            final(self).wf(),
            !final(self).alive_spec(c),
            forall|s2: usize| !final(self).subscribed(s2, c),
            forall|s2: usize| !final(self).reads_signal(c, s2),
            !final(self).queued(c),
            forall|c2: usize|
                c2 != c ==> (#[trigger] final(self).alive_spec(c2) <==> old(self).alive_spec(c2)),
            forall|s2: usize, c2: usize|
                c2 != c ==> (#[trigger] final(self).subscribed(s2, c2) <==> old(self).subscribed(
                    s2,
                    c2,
                )),
            forall|c2: usize|
                c2 != c ==> (#[trigger] final(self).queued(c2) <==> old(self).queued(c2)),
            forall|s2: int|
                0 <= s2 < old(self).signal_count() ==> final(self).value_spec(s2) == old(
                    self,
                ).value_spec(s2),
            final(self).signal_count() == old(self).signal_count(),
            final(self).consumer_count() == old(self).consumer_count(),
            final(self).evals_in_turn == old(self).evals_in_turn,
            final(self).eval_cap == old(self).eval_cap,
    {
        self.clear_subscriptions(c);
        proof {
            assert(distinct(self.queue@));
        }
        let ghost pre = *self;
        remove_element(&mut self.queue, c);
        proof {
            assert(self.signals@ == pre.signals@);
            assert(self.consumers@ == pre.consumers@);
            assert forall|j: int|
                0 <= j < self.queue@.len() implies pre.alive_spec(#[trigger] self.queue@[j]) by {
                let y = self.queue@[j];
                assert(self.queue@.contains(y));
                assert(y != c);
                assert(pre.queue@.contains(y));
                let k = choose|k: int| 0 <= k < pre.queue@.len() && pre.queue@[k] == y;
                assert(pre.alive_spec(pre.queue@[k]));
            }
            lemma_wf_requeue(pre, *self);
        }
        let ghost mid = *self;
        self.consumers[c].alive = false;
        proof {
            assert(self.signals@ == mid.signals@);
            assert(self.queue@ == mid.queue@);
            assert(self.consumers@[c as int].reads@ == mid.consumers@[c as int].reads@);
            assert(!self.consumers@[c as int].alive);
            assert(forall|c2: int|
                0 <= c2 < self.consumers@.len() && c2 != c ==> self.consumers@[c2]
                    == mid.consumers@[c2]);
            assert forall|c2: usize, s2: usize|
                self.reads_signal(c2, s2) == mid.reads_signal(c2, s2) by {
                if c2 < self.consumers@.len() {
                    if c2 == c {
                        assert(self.consumers@[c2 as int].reads@
                            == mid.consumers@[c2 as int].reads@);
                    } else {
                        assert(self.consumers@[c2 as int] == mid.consumers@[c2 as int]);
                    }
                }
            }
            assert forall|c2: usize|
                c2 != c implies (self.alive_spec(c2) == mid.alive_spec(c2)) by {
                if c2 < self.consumers@.len() {
                    assert(self.consumers@[c2 as int] == mid.consumers@[c2 as int]);
                }
            }
            assert forall|s2: usize, c2: usize|
                self.subscribed(s2, c2) == mid.subscribed(s2, c2) by {
                assert(self.signals@ == mid.signals@);
            }
            assert forall|s2: usize| !self.subscribed(s2, c) by {
                assert(!mid.subscribed(s2, c)) by {
                    assert(mid.subscribed(s2, c) == pre.subscribed(s2, c));
                }
            }
            assert forall|s2: usize| !self.reads_signal(c, s2) by {
                assert(!mid.reads_signal(c, s2)) by {
                    assert(mid.reads_signal(c, s2) == pre.reads_signal(c, s2));
                }
            }
            assert forall|s2: int|
                0 <= s2 < self.signals@.len() implies distinct(
                #[trigger] self.signals@[s2].subscribers@,
            ) by {
                assert(distinct(mid.signals@[s2].subscribers@));
            }
            assert forall|c2: int|
                0 <= c2 < self.consumers@.len() implies distinct(
                #[trigger] self.consumers@[c2].reads@,
            ) by {
                if c2 != c {
                    assert(self.consumers@[c2] == mid.consumers@[c2]);
                }
                assert(distinct(mid.consumers@[c2].reads@));
            }
            assert forall|s2: usize, c2: usize|
                #![trigger self.subscribed(s2, c2)]
                #![trigger self.reads_signal(c2, s2)]
                self.subscribed(s2, c2) <==> self.reads_signal(c2, s2) by {
                assert(mid.subscribed(s2, c2) <==> mid.reads_signal(c2, s2));
            }
            assert forall|s2: usize, c2: usize| #[trigger]
                self.subscribed(s2, c2) implies self.alive_spec(c2) by {
                assert(c2 != c);
                assert(mid.subscribed(s2, c2));
                assert(mid.alive_spec(c2));
            }
            assert forall|c2: usize, s2: usize| #[trigger]
                self.reads_signal(c2, s2) implies s2 < self.signals@.len() && self.alive_spec(
                c2,
            ) by {
                assert(c2 != c);
                assert(mid.reads_signal(c2, s2));
                assert(mid.alive_spec(c2));
            }
            assert forall|j: int|
                0 <= j < self.queue@.len() implies self.alive_spec(
                #[trigger] self.queue@[j],
            ) by {
                assert(mid.alive_spec(mid.queue@[j]));
                assert(self.queue@[j] != c) by {
                    assert(!mid.queue@.contains(c));
                    if self.queue@[j] == c {
                        assert(mid.queue@.contains(c));
                    }
                }
            }
            assert forall|c2: usize|
                c2 != c implies (self.alive_spec(c2) <==> old(self).alive_spec(c2)) by {
                assert(mid.alive_spec(c2) == pre.alive_spec(c2));
                assert(pre.alive_spec(c2) <==> old(self).alive_spec(c2));
            }
            assert forall|s2: usize, c2: usize|
                c2 != c implies (self.subscribed(s2, c2) <==> old(self).subscribed(
                s2,
                c2,
            )) by {
                assert(self.subscribed(s2, c2) == mid.subscribed(s2, c2));
                assert(mid.subscribed(s2, c2) == pre.subscribed(s2, c2));
                assert(pre.subscribed(s2, c2) <==> old(self).subscribed(s2, c2));
            }
        }
    }

    /// The current value of signal `s`, without subscribing anyone.
    pub fn peek(&self, s: usize) -> (v: i64)
        requires
            s < self.signal_count(),
        ensures
            v == self.value_spec(s as int),
    {
        self.signals[s].value
    }

    /// Whether consumer `c` is recorded as a subscriber of signal `s`.
    pub fn is_subscribed(&self, s: usize, c: usize) -> (b: bool)
        requires
            s < self.signal_count(),
        ensures
            b == self.subscribed(s, c),
    {
        vec_has(&self.signals[s].subscribers, c)
    }

    /// Whether consumer `c` is marked dirty in the current turn.
    pub fn is_queued(&self, c: usize) -> (b: bool)
        ensures
            b == self.queued(c),
    {
        vec_has(&self.queue, c)
    }

    /// Whether consumer `c` is still mounted.
    pub fn is_alive(&self, c: usize) -> (b: bool)
        requires
            c < self.consumer_count(),
        ensures
            b == self.alive_spec(c),
    {
        self.consumers[c].alive
    }

    /// How many consumers are marked dirty in the current turn.
    pub fn dirty_count(&self) -> (n: usize)
        ensures
            n == self.queue@.len(),
    {
        self.queue.len()
    }
}

} // verus!
