//! A bounded per-topic broadcast channel with a lossy slow-consumer policy.
//!
//! Publishing never blocks and never fails: when the buffer is full the
//! oldest retained message is dropped. Each consumer owns a position in the
//! message sequence; one that fell behind the retained window is told how
//! many messages it missed (a lag signal) and is moved to the oldest
//! retained message instead of stalling the publisher.

use vstd::prelude::*;

verus! {

/// A value that can hand out an exact copy of itself.
pub trait Dup: Sized {
    fn dup(&self) -> (r: Self)
        ensures
            r == *self,
    ;
}

/// What one receive attempt observes.
pub enum RecvOutcome<T> {
    /// The consumer's next pending message.
    Msg(T),
    /// The consumer fell behind; this many messages were dropped for it and
    /// its position was moved to the oldest retained message.
    Lagged(u64),
    /// Nothing is pending for this consumer.
    Empty,
}

/// The broadcast channel. Messages carry increasing sequence numbers; the
/// channel retains at most `cap` of the newest ones.
pub struct Chan<T> {
    cap: usize,
    base: u64,
    buf: Vec<T>,
    subs: Vec<(u64, u64)>,
    next_id: u64,
}

impl<T: Dup> Chan<T> {
    /// Buffer capacity.
    pub closed spec fn capacity(self) -> int {
        self.cap as int
    }

    /// Sequence number of the oldest retained message.
    pub closed spec fn base_seq(self) -> int {
        self.base as int
    }

    /// Sequence number the next published message will get.
    pub closed spec fn next_seq(self) -> int {
        self.base + self.buf.len()
    }

    /// The message that was published with sequence number `s`, as far as it
    /// is still retained.
    pub closed spec fn msg_at(self, s: int) -> T {
        self.buf[s - self.base]
    }

    /// Number of live subscriptions.
    pub closed spec fn sub_count(self) -> int {
        self.subs.len() as int
    }

    /// `id` is a live subscription.
    pub closed spec fn has_sub(self, id: u64) -> bool {
        exists|i: int| 0 <= i < self.subs.len() && self.subs[i].0 == id
    }

    spec fn sub_pos(self, id: u64) -> int {
        choose|i: int| 0 <= i < self.subs.len() && self.subs[i].0 == id
    }

    /// The sequence number subscription `id` will read next.
    pub closed spec fn sub_next(self, id: u64) -> int {
        self.subs[self.sub_pos(id)].1 as int
    }

    /// Internal consistency: capacity at least one, no more than `cap`
    /// retained messages, unique subscription ids below `next_id`, and every
    /// position at or below the head of the stream.
    pub closed spec fn wf(self) -> bool {
        &&& self.cap >= 1
        &&& self.buf.len() <= self.cap
        &&& self.base + self.buf.len() <= u64::MAX
        &&& (forall|i: int, j: int|
            0 <= i < j < self.subs.len() ==> (#[trigger] self.subs[i]).0 != (
            #[trigger] self.subs[j]).0)
        &&& (forall|i: int| 0 <= i < self.subs.len() ==> (#[trigger] self.subs[i]).0 < self.next_id)
        &&& (forall|i: int|
            0 <= i < self.subs.len() ==> (#[trigger] self.subs[i]).1 <= self.base
                + self.buf.len())
    }

    /// How many subscription ids were ever handed out.
    pub closed spec fn ids_used(self) -> int {
        self.next_id as int
    }

    /// A fresh channel retaining at most `cap` messages.
    pub fn new(cap: usize) -> (r: Chan<T>)
        requires
            cap >= 1,
        ensures
            r.wf(),
            r.capacity() == cap,
            r.base_seq() == 0,
            r.next_seq() == 0,
            r.sub_count() == 0,
            r.ids_used() == 0,
    {
        Chan { cap, base: 0, buf: Vec::new(), subs: Vec::new(), next_id: 0 }
    }

    /// Opens a new subscription positioned at the head of the stream: it will
    /// see only messages published after this call.
    pub fn subscribe(&mut self) -> (id: u64)
        requires
            old(self).wf(),
            old(self).ids_used() < u64::MAX,
        ensures
            final(self).ids_used() == old(self).ids_used() + 1,
            final(self).wf(),
            !old(self).has_sub(id),
            final(self).has_sub(id),
            final(self).sub_next(id) == old(self).next_seq(),
            final(self).sub_count() == old(self).sub_count() + 1,
            final(self).capacity() == old(self).capacity(),
            final(self).base_seq() == old(self).base_seq(),
            final(self).next_seq() == old(self).next_seq(),
            forall|s: int|
                old(self).base_seq() <= s < old(self).next_seq() ==> final(self).msg_at(s) == old(
                    self,
                ).msg_at(s),
            forall|o: u64|
                old(self).has_sub(o) ==> final(self).has_sub(o) && final(self).sub_next(o) == old(
                    self,
                ).sub_next(o),
    {
        let id = self.next_id;
        let pos: u64 = self.base + self.buf.len() as u64;
        self.subs.push((id, pos));
        self.next_id = self.next_id + 1;
        proof {
            let subs = self.subs@;
            assert(subs.last().0 == id);
            assert(self.has_sub(id));
            assert(subs[self.sub_pos(id)].0 == id);
            assert forall|o: u64| old(self).has_sub(o) implies self.has_sub(o) && self.sub_next(o)
                == old(self).sub_next(o) by {
                let i = old(self).sub_pos(o);
                assert(subs[i].0 == o);
                assert(self.has_sub(o));
                let j = self.sub_pos(o);
                assert(subs[j].0 == o);
                if j == subs.len() - 1 {
                    assert(subs[j].0 == id);
                    assert(old(self).subs@[i].0 < old(self).next_id);
                }
                assert(j < subs.len() - 1);
                assert(old(self).subs@[j] == subs[j]);
            }
            assert(self.sub_pos(id) == subs.len() - 1) by {
                let j = self.sub_pos(id);
                assert(subs[j].0 == id);
                if j < subs.len() - 1 {
                    assert(old(self).subs@[j].0 < old(self).next_id);
                }
            }
        }
        id
    }

    /// Closes subscription `id`.
    pub fn unsubscribe(&mut self, id: u64)
        requires
            old(self).wf(),
            old(self).has_sub(id),
        ensures
            final(self).ids_used() == old(self).ids_used(),
            final(self).wf(),
            !final(self).has_sub(id),
            final(self).sub_count() == old(self).sub_count() - 1,
            final(self).capacity() == old(self).capacity(),
            final(self).base_seq() == old(self).base_seq(),
            final(self).next_seq() == old(self).next_seq(),
            forall|s: int|
                old(self).base_seq() <= s < old(self).next_seq() ==> final(self).msg_at(s) == old(
                    self,
                ).msg_at(s),
            forall|o: u64|
                o != id && old(self).has_sub(o) ==> final(self).has_sub(o) && final(self).sub_next(o) == old(self).sub_next(o),
    {
        let ghost pos = old(self).sub_pos(id);
        let mut i: usize = 0;
        let n = self.subs.len();
        while i < n
            invariant
                n == self.subs.len(),
                i <= n,
                *self == *old(self),
                old(self).wf(),
                old(self).has_sub(id),
                forall|k: int| 0 <= k < i ==> (#[trigger] self.subs@[k]).0 != id,
            decreases n - i,
        {
            if self.subs[i].0 == id {
                let ghost subs0 = self.subs@;
                self.subs.remove(i);
                proof {
                    let subs = self.subs@;
                    assert(subs =~= subs0.remove(i as int));
                    assert forall|o: u64|
                        o != id && old(self).has_sub(o) implies self.has_sub(o) && self.sub_next(o)
                        == old(self).sub_next(o) by {
                        let k = old(self).sub_pos(o);
                        assert(subs0[k].0 == o);
                        let k2 = if k < i as int {
                            k
                        } else {
                            k - 1
                        };
                        assert(subs[k2].0 == o);
                        assert(self.has_sub(o));
                        let j = self.sub_pos(o);
                        assert(subs[j].0 == o);
                        let jo = if j < i as int {
                            j
                        } else {
                            j + 1
                        };
                        assert(subs0[jo].0 == o);
                        assert(jo == k);
                        assert(subs[j] == subs0[k]);
                    }
                    assert forall|i2: int| 0 <= i2 < subs.len() implies !((#[trigger] subs[i2]).0
                        == id) by {
                        let io = if i2 < i as int {
                            i2
                        } else {
                            i2 + 1
                        };
                        assert(subs[i2] == subs0[io]);
                        if subs0[io].0 == id {
                            assert(io == old(self).sub_pos(id) || io != old(self).sub_pos(id));
                            if io < i as int {
                                assert(subs0[io].0 != id);
                            } else {
                                assert(io != i as int);
                                assert(subs0[i as int].0 == id);
                            }
                        }
                    }
                }
                return ;
            }
            i = i + 1;
        }
        proof {
            let k = old(self).sub_pos(id);
            assert(self.subs@[k].0 == id);
            assert(false);
        }
    }

    /// Number of live subscriptions, as the publisher sees it.
    pub fn receiver_count(&self) -> (r: usize)
        ensures
            r == self.sub_count(),
    {
        self.subs.len()
    }

    /// Publishes one message. With no subscriber the message is discarded and
    /// `0` is returned; otherwise the message is appended to the stream —
    /// dropping the oldest retained message if the buffer is full — and the
    /// number of subscriptions is returned. The call never blocks and its
    /// outcome never depends on any consumer's position.
    pub fn publish(&mut self, v: T) -> (delivered: usize)
        requires
            old(self).wf(),
            old(self).next_seq() < u64::MAX,
        ensures
            final(self).ids_used() == old(self).ids_used(),
            final(self).wf(),
            delivered == old(self).sub_count(),
            final(self).capacity() == old(self).capacity(),
            final(self).sub_count() == old(self).sub_count(),
            forall|o: u64|
                old(self).has_sub(o) ==> final(self).has_sub(o) && final(self).sub_next(o) == old(
                    self,
                ).sub_next(o),
            old(self).sub_count() == 0 ==> final(self).base_seq() == old(self).base_seq() && final(self).next_seq() == old(self).next_seq() && (forall|s: int|
                old(self).base_seq() <= s < old(self).next_seq() ==> final(self).msg_at(s) == old(
                    self,
                ).msg_at(s)),
            old(self).sub_count() > 0 ==> final(self).next_seq() == old(self).next_seq() + 1
                && final(self).msg_at(old(self).next_seq()) == v && final(self).base_seq() == (
            if old(self).next_seq() - old(self).base_seq() == old(self).capacity() {
                old(self).base_seq() + 1
            } else {
                old(self).base_seq()
            }) && (forall|s: int|
                final(self).base_seq() <= s < old(self).next_seq() ==> final(self).msg_at(s) == old(
                    self,
                ).msg_at(s)),
    {
        if self.subs.len() == 0 {
            return 0;
        }
        let ghost buf0 = self.buf@;
        if self.buf.len() == self.cap {
            self.buf.remove(0);
            self.base = self.base + 1;
            proof {
                assert(self.buf@ =~= buf0.skip(1));
            }
        }
        let ghost buf1 = self.buf@;
        self.buf.push(v);
        proof {
            assert(self.buf@ =~= buf1.push(v));
        }
        self.subs.len()
    }

    /// One receive attempt for subscription `id`: the next message if one is
    /// retained, a lag signal naming the number of dropped messages if the
    /// consumer fell behind the retained window, or nothing.
    pub fn recv(&mut self, id: u64) -> (r: RecvOutcome<T>)
        requires
            old(self).wf(),
            old(self).has_sub(id),
        ensures
            final(self).ids_used() == old(self).ids_used(),
            final(self).wf(),
            final(self).capacity() == old(self).capacity(),
            final(self).base_seq() == old(self).base_seq(),
            final(self).next_seq() == old(self).next_seq(),
            final(self).sub_count() == old(self).sub_count(),
            forall|s: int|
                old(self).base_seq() <= s < old(self).next_seq() ==> final(self).msg_at(s) == old(
                    self,
                ).msg_at(s),
            forall|o: u64|
                old(self).has_sub(o) ==> final(self).has_sub(o),
            forall|o: u64|
                o != id && old(self).has_sub(o) ==> final(self).sub_next(o) == old(self).sub_next(
                    o,
                ),
            match r {
                RecvOutcome::Msg(v) => old(self).base_seq() <= old(self).sub_next(id) < old(
                    self,
                ).next_seq() && v == old(self).msg_at(old(self).sub_next(id)) && final(self).sub_next(id) == old(self).sub_next(id) + 1,
                RecvOutcome::Lagged(n) => old(self).sub_next(id) < old(self).base_seq() && n
                    == old(self).base_seq() - old(self).sub_next(id) && final(self).sub_next(id)
                    == old(self).base_seq(),
                RecvOutcome::Empty => old(self).sub_next(id) == old(self).next_seq() && final(self).sub_next(id) == old(self).sub_next(id),
            },
    {
        let ghost pos = old(self).sub_pos(id);
        proof {
            lemma_sub_pos_valid(*old(self), id);
        }
        let n = self.subs.len();
        let mut i: usize = 0;
        while i < n
            invariant
                n == self.subs.len(),
                i <= n,
                *self == *old(self),
                old(self).wf(),
                old(self).has_sub(id),
                pos == old(self).sub_pos(id),
                0 <= pos < self.subs@.len(),
                self.subs@[pos].0 == id,
                forall|k: int| 0 <= k < i ==> (#[trigger] self.subs@[k]).0 != id,
            decreases n - i,
        {
            if self.subs[i].0 == id {
                proof {
                    assert(i as int == pos);
                }
                let next = self.subs[i].1;
                if next < self.base {
                    let missed = self.base - next;
                    let newpos = self.base;
                    self.subs.set(i, (id, newpos));
                    proof {
                        lemma_recv_update(*old(self), *self, i as int, id, newpos);
                    }
                    return RecvOutcome::Lagged(missed);
                }
                if next - self.base < self.buf.len() as u64 {
                    let idx = (next - self.base) as usize;
                    let v = self.buf[idx].dup();
                    self.subs.set(i, (id, next + 1));
                    proof {
                        lemma_recv_update(*old(self), *self, i as int, id, (next + 1) as u64);
                    }
                    return RecvOutcome::Msg(v);
                }
                return RecvOutcome::Empty;
            }
            i = i + 1;
        }
        proof {
            assert(false);
        }
        RecvOutcome::Empty
    }

    /// The backpressure law: once the stream head has moved more than the
    /// channel capacity past a consumer's position — at least `capacity + 1`
    /// messages were published since it last read — the oldest retained
    /// message lies strictly beyond that consumer, so its next receive
    /// reports a lag signal (`recv`'s contract) instead of stalling anyone;
    /// publishing itself is total and ignores consumer positions entirely.
    pub proof fn lemma_slow_consumer_lags(self, id: u64)
        requires
            self.wf(),
            self.has_sub(id),
            self.sub_next(id) + self.capacity() < self.next_seq(),
        ensures
            self.sub_next(id) < self.base_seq(),
    {
        assert(self.base_seq() == self.next_seq() - self.buf.len());
        assert(self.buf.len() <= self.capacity());
    }
}

proof fn lemma_sub_pos_valid<T: Dup>(c: Chan<T>, id: u64)
    requires
        c.has_sub(id),
    ensures
        0 <= c.sub_pos(id) < c.subs@.len(),
        c.subs@[c.sub_pos(id)].0 == id,
{
    assert(exists|i: int| 0 <= i < c.subs.len() && c.subs[i].0 == id);
}

proof fn lemma_recv_update<T: Dup>(pre: Chan<T>, post: Chan<T>, i: int, id: u64, newnext: u64)
    requires
        pre.wf(),
        0 <= i < pre.subs@.len(),
        pre.subs@[i].0 == id,
        post.cap == pre.cap,
        post.base == pre.base,
        post.buf == pre.buf,
        post.next_id == pre.next_id,
        post.subs@ == pre.subs@.update(i, (id, newnext)),
        newnext <= pre.base + pre.buf.len(),
    ensures
        post.wf(),
        post.sub_count() == pre.sub_count(),
        forall|o: u64| pre.has_sub(o) ==> post.has_sub(o),
        forall|o: u64| o != id && pre.has_sub(o) ==> post.sub_next(o) == pre.sub_next(o),
        post.has_sub(id),
        post.sub_next(id) == newnext,
        pre.sub_next(id) == pre.subs@[i].1,
    {
        let subs0 = pre.subs@;
        let subs = post.subs@;
        assert(subs.len() == subs0.len());
        assert forall|k: int| 0 <= k < subs.len() implies (#[trigger] subs[k]).0 == subs0[k].0 by {
            if k != i {
                assert(subs[k] == subs0[k]);
            }
        }
        lemma_sub_pos_valid(pre, id);
        let p0 = pre.sub_pos(id);
        assert(p0 == i) by {
            if p0 != i {
                assert(subs0[p0].0 == subs0[i].0);
            }
        }
        assert(post.has_sub(id)) by {
            assert(subs[i].0 == id);
        }
        lemma_sub_pos_valid(post, id);
        let p1 = post.sub_pos(id);
        assert(p1 == i) by {
            if p1 != i {
                assert(subs0[p1].0 == subs[p1].0);
                assert(subs0[p1].0 == subs0[i].0);
            }
        }
        assert(subs[i].1 == newnext);
        assert forall|o: u64| pre.has_sub(o) implies post.has_sub(o) by {
            lemma_sub_pos_valid(pre, o);
            let k = pre.sub_pos(o);
            assert(subs[k].0 == o);
        }
        assert forall|o: u64| o != id && pre.has_sub(o) implies post.sub_next(o) == pre.sub_next(
            o,
        ) by {
            lemma_sub_pos_valid(pre, o);
            let k = pre.sub_pos(o);
            assert(subs[k].0 == o);
            assert(post.has_sub(o));
            lemma_sub_pos_valid(post, o);
            let j = post.sub_pos(o);
            assert(subs[j].0 == o);
            assert(subs0[j].0 == o);
            assert(j == k) by {
                if j != k {
                    assert(subs0[j].0 == subs0[k].0);
                }
            }
            assert(j != i);
            assert(subs[j] == subs0[j]);
        }
        assert(post.wf()) by {
            assert forall|a: int, b: int| 0 <= a < b < subs.len() implies (#[trigger] subs[a]).0
                != (#[trigger] subs[b]).0 by {
                assert(subs[a].0 == subs0[a].0);
                assert(subs[b].0 == subs0[b].0);
            }
            assert forall|k: int| 0 <= k < subs.len() implies (#[trigger] subs[k]).0
                < post.next_id by {
                assert(subs[k].0 == subs0[k].0);
            }
            assert forall|k: int| 0 <= k < subs.len() implies (#[trigger] subs[k]).1 <= post.base
                + post.buf.len() by {
                if k != i {
                    assert(subs[k] == subs0[k]);
                }
            }
        }
    }

} // verus!
