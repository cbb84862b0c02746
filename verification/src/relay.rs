//! The push-relay core: per-symbol subscriber counting with exact
//! activation/deactivation signals, the frame-level decisions of the relay
//! loop, and the per-symbol tick broadcast registry with lazy cleanup.
//!
//! The relay holds one connection to the push upstream; sessions raise and
//! lower local demand through these counters, and the relay forwards a
//! `subscribe` exactly on the `0 -> 1` transition and an `unsubscribe`
//! exactly on the `1 -> 0` transition.

use vstd::prelude::*;
use crate::assoc::AssocVec;
use crate::hub::{Chan, Dup, RecvOutcome};

verus! {

/// One live trade tick from the push upstream.
#[derive(Clone, Debug)]
pub struct Tick {
    pub product_id: String,
    pub price: String,
    pub time: String,
}

impl Dup for Tick {
    fn dup(&self) -> (r: Self)
        ensures
            r == *self,
    {
        Tick { product_id: self.product_id.clone(), price: self.price.clone(), time: self.time.clone() }
    }
}

/// A command from a session to the relay, emitted on count transitions.
#[derive(Clone, Debug)]
pub enum Control {
    Subscribe(String),
    Unsubscribe(String),
}

/// An upstream frame after decoding: a matched trade, or anything else.
/// Control frames (ping, pong) and unrecognized shapes are all `Other` and
/// are discarded, never fatal.
pub enum UpstreamEvent {
    Match { product_id: String, price: String, time: String },
    LastMatch { product_id: String, price: String, time: String },
    Other,
}

/// What the relay does with one decoded upstream frame: republishes a tick,
/// or nothing.
pub fn relay_on_frame(ev: UpstreamEvent) -> (r: Option<Tick>)
    ensures
        match ev {
            UpstreamEvent::Match { product_id, price, time } => r matches Some(t) && t.product_id
                == product_id && t.price == price && t.time == time,
            UpstreamEvent::LastMatch { product_id, price, time } => r matches Some(t)
                && t.product_id == product_id && t.price == price && t.time == time,
            UpstreamEvent::Other => r is None,
        },
{
    match ev {
        UpstreamEvent::Match { product_id, price, time } => Some(
            Tick { product_id, price, time },
        ),
        UpstreamEvent::LastMatch { product_id, price, time } => Some(
            Tick { product_id, price, time },
        ),
        UpstreamEvent::Other => None,
    }
}

/// The upstream frame a control command turns into.
pub fn control_to_frame(c: &Control) -> (r: String)
    ensures
        match c {
            Control::Subscribe(sym) => r@ == crate::frames::frame_control(
                "subscribe"@,
                seq![sym@],
            ),
            Control::Unsubscribe(sym) => r@ == crate::frames::frame_control(
                "unsubscribe"@,
                seq![sym@],
            ),
        },
{
    match c {
        Control::Subscribe(sym) => {
            let mut ids: Vec<String> = Vec::new();
            ids.push(sym.clone());
            let f = crate::frames::control_frame("subscribe", &ids);
            proof {
                assert(ids@.map_values(|s: String| s@) =~= seq![sym@]);
            }
            f
        },
        Control::Unsubscribe(sym) => {
            let mut ids: Vec<String> = Vec::new();
            ids.push(sym.clone());
            let f = crate::frames::control_frame("unsubscribe", &ids);
            proof {
                assert(ids@.map_values(|s: String| s@) =~= seq![sym@]);
            }
            f
        },
    }
}

/// Per-symbol subscriber counts.
pub struct SubCounts {
    counts: AssocVec<u64>,
}

impl SubCounts {
    /// The count of `sym`; zero when no entry exists.
    pub closed spec fn count_of(self, sym: Seq<char>) -> int {
        if self.counts.contains_key(sym) {
            self.counts.value_of(sym) as int
        } else {
            0
        }
    }

    /// An entry exists for `sym` (a zero-count entry is possible after a
    /// full subscribe/unsubscribe cycle).
    pub closed spec fn has_entry(self, sym: Seq<char>) -> bool {
        self.counts.contains_key(sym)
    }

    /// Number of entries.
    pub closed spec fn spec_len(self) -> int {
        self.counts.spec_len()
    }

    /// The symbol of entry `i`.
    pub closed spec fn sym_at(self, i: int) -> Seq<char> {
        self.counts.key_at(i)
    }

    /// The count of entry `i`.
    pub closed spec fn count_at(self, i: int) -> int {
        self.counts.value_at(i) as int
    }

    /// Distinct symbols.
    pub closed spec fn wf(self) -> bool {
        self.counts.wf()
    }

    /// No subscribers anywhere.
    pub fn new() -> (r: SubCounts)
        ensures
            r.wf(),
            r.spec_len() == 0,
            forall|s: Seq<char>| r.count_of(s) == 0 && !r.has_entry(s),
    {
        SubCounts { counts: AssocVec::new() }
    }

    /// One subscriber arrives on `sym`. Returns true — the activation
    /// signal, to be forwarded as an upstream subscribe — exactly on the
    /// `0 -> 1` transition.
    pub fn incr(&mut self, sym: &str) -> (signal: bool)
        requires
            old(self).wf(),
            old(self).count_of(sym@) < u64::MAX,
        ensures
            final(self).wf(),
            final(self).count_of(sym@) == old(self).count_of(sym@) + 1,
            final(self).has_entry(sym@),
            signal == (old(self).count_of(sym@) == 0),
            forall|s: Seq<char>|
                s != sym@ ==> final(self).count_of(s) == old(self).count_of(s) && final(self).has_entry(s) == old(self).has_entry(s),
    {
        match self.counts.find(sym) {
            Some(i) => {
                let c = *self.counts.value_ref(i);
                self.counts.set_value_at(i, c + 1);
                c == 0
            },
            None => {
                self.counts.push_new(sym.to_owned(), 1);
                true
            },
        }
    }

    /// One subscriber leaves `sym`. A missing entry is left untouched; an
    /// existing count is lowered (not below zero). Returns true — the
    /// deactivation signal, to be forwarded as an upstream unsubscribe —
    /// exactly when an entry exists and the count comes to rest at zero.
    pub fn decr(&mut self, sym: &str) -> (signal: bool)
        requires
            old(self).wf(),
        ensures
            final(self).wf(),
            final(self).count_of(sym@) == (if old(self).count_of(sym@) > 0 {
                old(self).count_of(sym@) - 1
            } else {
                0
            }),
            final(self).has_entry(sym@) == old(self).has_entry(sym@),
            signal == (old(self).has_entry(sym@) && old(self).count_of(sym@) <= 1),
            forall|s: Seq<char>|
                s != sym@ ==> final(self).count_of(s) == old(self).count_of(s) && final(self).has_entry(s) == old(self).has_entry(s),
    {
        match self.counts.find(sym) {
            Some(i) => {
                let c = *self.counts.value_ref(i);
                let nc: u64 = if c > 0 {
                    c - 1
                } else {
                    0
                };
                self.counts.set_value_at(i, nc);
                nc == 0
            },
            None => false,
        }
    }

    /// The symbols currently under demand, for the idempotent re-subscribe
    /// a reconnect sends: every symbol whose count is positive, in table
    /// order.
    pub fn active_symbols(&self) -> (r: Vec<String>)
        requires
            self.wf(),
        ensures
            r@.map_values(|s: String| s@) == active_of(*self, self.spec_len()),
    {
        let n = self.counts.len();
        let mut r: Vec<String> = Vec::new();
        let mut i: usize = 0;
        while i < n
            invariant
                self.wf(),
                n == self.spec_len(),
                i <= n,
                r@.map_values(|s: String| s@) == active_of(*self, i as int),
            decreases n - i,
        {
            let ghost pre = r@.map_values(|s: String| s@);
            if *self.counts.value_ref(i) > 0 {
                let sym = self.counts.key_ref(i).clone();
                r.push(sym);
                proof {
                    assert(r@.map_values(|s: String| s@) =~= pre.push(self.sym_at(i as int)));
                }
            }
            i = i + 1;
        }
        r
    }
}

/// The demand list after scanning the first `i` entries: the symbols with a
/// positive count, in order.
pub open spec fn active_of(c: SubCounts, i: int) -> Seq<Seq<char>>
    decreases i,
{
    if i <= 0 {
        Seq::<Seq<char>>::empty()
    } else {
        active_of(c, i - 1) + if c.count_at(i - 1) > 0 {
            seq![c.sym_at(i - 1)]
        } else {
            Seq::<Seq<char>>::empty()
        }
    }
}

/// Activation signals seen while `n` subscribers arrive one by one on a
/// symbol whose count starts at `c0`: each arrival signals exactly when the
/// count it found was zero, as `incr` does.
pub open spec fn activations(c0: int, n: int) -> int
    decreases n,
{
    if n <= 0 {
        0
    } else {
        (if c0 == 0 {
            1int
        } else {
            0int
        }) + activations(c0 + 1, n - 1)
    }
}

/// Deactivation signals seen while `n` subscribers leave one by one from a
/// count of `c0`: each departure signals exactly when it brings the count
/// to zero, as `decr` does on an existing entry.
pub open spec fn deactivations(c0: int, n: int) -> int
    decreases n,
{
    if n <= 0 {
        0
    } else {
        (if c0 <= 1 {
            1int
        } else {
            0int
        }) + deactivations(
            if c0 > 0 {
                c0 - 1
            } else {
                0
            },
            n - 1,
        )
    }
}

proof fn lemma_activations_pos(c0: int, n: int)
    requires
        c0 > 0,
    ensures
        activations(c0, n) == 0,
    decreases n,
{
    if n > 0 {
        lemma_activations_pos(c0 + 1, n - 1);
    }
}

proof fn lemma_deactivations_exact(c0: int)
    requires
        c0 >= 1,
    ensures
        deactivations(c0, c0) == 1,
    decreases c0,
{
    if c0 > 1 {
        lemma_deactivations_exact(c0 - 1);
    } else {
        assert(deactivations(0, 0) == 0);
    }
}

/// Subscriber-count transitions are exact: when `n` subscribe/unsubscribe
/// pairs on one symbol interleave as `n` arrivals followed by `n`
/// departures, the count returns to zero, exactly one activation signal
/// fires — on the arrival that found the count at zero — and exactly one
/// deactivation signal fires, on the departure that brought it back to
/// zero. The per-call signals are those of [`SubCounts::incr`] and
/// [`SubCounts::decr`].
pub proof fn lemma_balanced_pairs(n: int)
    requires
        n >= 1,
    ensures
        activations(0, n) == 1,
        deactivations(n, n) == 1,
{
    lemma_activations_pos(1, n - 1);
    lemma_deactivations_exact(n);
}

/// The per-symbol broadcast registry of the trade-tick stream, with the
/// lazy cleanup the session teardown runs.
pub struct TickHub {
    cap: usize,
    channels: AssocVec<Chan<Tick>>,
}

impl TickHub {
    /// Channel capacity used on creation.
    pub closed spec fn capacity(self) -> int {
        self.cap as int
    }

    /// A channel exists for `sym`.
    pub closed spec fn has_channel(self, sym: Seq<char>) -> bool {
        self.channels.contains_key(sym)
    }

    /// The channel of `sym`.
    pub closed spec fn chan_of(self, sym: Seq<char>) -> Chan<Tick> {
        self.channels.value_of(sym)
    }

    /// Internal consistency: every channel well formed and created with the
    /// hub's capacity.
    pub closed spec fn wf(self) -> bool {
        &&& self.cap >= 1
        &&& self.channels.wf()
        &&& (forall|i: int|
            0 <= i < self.channels.spec_len() ==> (#[trigger] self.channels.value_at(i)).wf()
                && self.channels.value_at(i).capacity() == self.cap)
    }

    /// The channel of any symbol is well formed and carries the hub's
    /// capacity.
    pub proof fn lemma_chan_wf(self, s: Seq<char>)
        requires
            self.wf(),
            self.has_channel(s),
        ensures
            self.chan_of(s).wf(),
            self.chan_of(s).capacity() == self.capacity(),
    {
        self.channels.lemma_contains_index(s);
        let i = choose|i: int|
            0 <= i < self.channels.spec_len() && #[trigger] self.channels.key_at(i) == s
                && self.channels.value_at(i) == self.channels.value_of(s);
        assert(self.channels.value_at(i).wf());
        assert(self.channels.value_at(i).capacity() == self.cap);
    }

    /// A fresh registry with the default capacity.
    pub fn new() -> (r: TickHub)
        ensures
            r.wf(),
            r.capacity() == 1024,
            forall|s: Seq<char>| !r.has_channel(s),
    {
        TickHub { cap: 1024, channels: AssocVec::new() }
    }

    /// Opens a subscription on `sym`'s channel, creating it on first use.
    pub fn subscribe(&mut self, sym: &str) -> (id: u64)
        requires
            old(self).wf(),
            old(self).has_channel(sym@) ==> old(self).chan_of(sym@).ids_used() < u64::MAX,
        ensures
            final(self).wf(),
            final(self).has_channel(sym@),
            final(self).chan_of(sym@).wf(),
            final(self).chan_of(sym@).capacity() == old(self).capacity(),
            final(self).chan_of(sym@).has_sub(id),
            final(self).chan_of(sym@).sub_count() == 1 + (if old(self).has_channel(sym@) {
                old(self).chan_of(sym@).sub_count()
            } else {
                0
            }),
            final(self).chan_of(sym@).sub_next(id) == final(self).chan_of(sym@).next_seq(),
            old(self).has_channel(sym@) ==> final(self).chan_of(sym@).next_seq() == old(self).chan_of(sym@).next_seq() && final(self).chan_of(sym@).base_seq() == old(self).chan_of(
                sym@,
            ).base_seq(),
            !old(self).has_channel(sym@) ==> final(self).chan_of(sym@).base_seq() == 0 && final(self).chan_of(sym@).next_seq() == 0,
            forall|s: Seq<char>| s != sym@ ==> final(self).has_channel(s) == old(self).has_channel(s),
            forall|s: Seq<char>|
                s != sym@ && old(self).has_channel(s) ==> final(self).chan_of(s) == old(self).chan_of(s),
    {
        match self.channels.find(sym) {
            Some(i) => {
                proof {
                    self.channels.lemma_at(i as int);
                }
                let mut ch = self.channels.replace_value_at(i, Chan::new(1));
                let id = ch.subscribe();
                self.channels.set_value_at(i, ch);
                id
            },
            None => {
                let mut ch: Chan<Tick> = Chan::new(self.cap);
                let id = ch.subscribe();
                self.channels.push_new(sym.to_owned(), ch);
                id
            },
        }
    }

    /// Closes subscription `id` on `sym`'s channel.
    pub fn unsubscribe(&mut self, sym: &str, id: u64)
        requires
            old(self).wf(),
            old(self).has_channel(sym@),
            old(self).chan_of(sym@).has_sub(id),
        ensures
            final(self).wf(),
            final(self).has_channel(sym@),
            final(self).chan_of(sym@).sub_count() == old(self).chan_of(sym@).sub_count() - 1,
            !final(self).chan_of(sym@).has_sub(id),
            forall|s: Seq<char>| final(self).has_channel(s) == old(self).has_channel(s),
            forall|s: Seq<char>|
                s != sym@ && old(self).has_channel(s) ==> final(self).chan_of(s) == old(self).chan_of(s),
    {
        match self.channels.find(sym) {
            Some(i) => {
                proof {
                    self.channels.lemma_at(i as int);
                }
                let mut ch = self.channels.replace_value_at(i, Chan::new(1));
                ch.unsubscribe(id);
                self.channels.set_value_at(i, ch);
            },
            None => {
                proof {
                    assert(false);
                }
            },
        }
    }

    /// Publishes a tick on its product's channel, creating the channel if
    /// none exists yet — the relay resolves or creates on every matched
    /// trade. The tick must belong to the symbol it is published on.
    /// Returns the number of subscriptions the message was queued for.
    pub fn publish(&mut self, sym: &str, tick: Tick) -> (delivered: usize)
        requires
            old(self).wf(),
            tick.product_id@ == sym@,
            old(self).has_channel(sym@) ==> old(self).chan_of(sym@).next_seq() < u64::MAX,
        ensures
            final(self).wf(),
            final(self).has_channel(sym@),
            delivered == (if old(self).has_channel(sym@) {
                old(self).chan_of(sym@).sub_count()
            } else {
                0
            }),
            old(self).has_channel(sym@) && old(self).chan_of(sym@).sub_count() > 0 ==> final(self).chan_of(sym@).next_seq() == old(self).chan_of(sym@).next_seq() + 1 && final(self).chan_of(sym@).msg_at(old(self).chan_of(sym@).next_seq()) == tick && final(self).chan_of(sym@).base_seq() == (
            if old(self).chan_of(sym@).next_seq() - old(self).chan_of(sym@).base_seq() == old(self).chan_of(sym@).capacity() {
                old(self).chan_of(sym@).base_seq() + 1
            } else {
                old(self).chan_of(sym@).base_seq()
            }) && (forall|s: int|
                final(self).chan_of(sym@).base_seq() <= s < old(self).chan_of(sym@).next_seq()
                    ==> final(self).chan_of(sym@).msg_at(s) == old(self).chan_of(sym@).msg_at(s)),
            forall|s: Seq<char>| s != sym@ ==> final(self).has_channel(s) == old(self).has_channel(s),
            forall|s: Seq<char>|
                s != sym@ && old(self).has_channel(s) ==> final(self).chan_of(s) == old(self).chan_of(s),
            old(self).has_channel(sym@) ==> final(self).chan_of(sym@).sub_count() == old(self).chan_of(sym@).sub_count() && (forall|o: u64|
                old(self).chan_of(sym@).has_sub(o) ==> final(self).chan_of(sym@).has_sub(o)
                    && final(self).chan_of(sym@).sub_next(o) == old(self).chan_of(sym@).sub_next(
                    o,
                )),
    {
        match self.channels.find(sym) {
            Some(i) => {
                proof {
                    self.channels.lemma_at(i as int);
                }
                let mut ch = self.channels.replace_value_at(i, Chan::new(1));
                let delivered = ch.publish(tick);
                self.channels.set_value_at(i, ch);
                delivered
            },
            None => {
                let mut ch: Chan<Tick> = Chan::new(self.cap);
                let delivered = ch.publish(tick);
                self.channels.push_new(sym.to_owned(), ch);
                delivered
            },
        }
    }

    /// One receive attempt for subscription `id` on `sym`'s channel.
    pub fn recv(&mut self, sym: &str, id: u64) -> (r: RecvOutcome<Tick>)
        requires
            old(self).wf(),
            old(self).has_channel(sym@),
            old(self).chan_of(sym@).has_sub(id),
        ensures
            final(self).wf(),
            final(self).has_channel(sym@),
            final(self).chan_of(sym@).next_seq() == old(self).chan_of(sym@).next_seq(),
            final(self).chan_of(sym@).sub_count() == old(self).chan_of(sym@).sub_count(),
            final(self).chan_of(sym@).has_sub(id),
            match r {
                RecvOutcome::Msg(v) => old(self).chan_of(sym@).base_seq() <= old(self).chan_of(
                    sym@,
                ).sub_next(id) < old(self).chan_of(sym@).next_seq() && v == old(self).chan_of(
                    sym@,
                ).msg_at(old(self).chan_of(sym@).sub_next(id)) && final(self).chan_of(
                    sym@,
                ).sub_next(id) == old(self).chan_of(sym@).sub_next(id) + 1,
                RecvOutcome::Lagged(n) => old(self).chan_of(sym@).sub_next(id) < old(self).chan_of(
                    sym@,
                ).base_seq() && n == old(self).chan_of(sym@).base_seq() - old(self).chan_of(
                    sym@,
                ).sub_next(id) && final(self).chan_of(sym@).sub_next(id) == old(self).chan_of(
                    sym@,
                ).base_seq(),
                RecvOutcome::Empty => old(self).chan_of(sym@).sub_next(id) == old(self).chan_of(
                    sym@,
                ).next_seq(),
            },
            forall|s: Seq<char>| final(self).has_channel(s) == old(self).has_channel(s),
            forall|s: Seq<char>|
                s != sym@ && old(self).has_channel(s) ==> final(self).chan_of(s) == old(self).chan_of(s),
    {
        match self.channels.find(sym) {
            Some(i) => {
                proof {
                    self.channels.lemma_at(i as int);
                }
                let mut ch = self.channels.replace_value_at(i, Chan::new(1));
                let r = ch.recv(id);
                self.channels.set_value_at(i, ch);
                r
            },
            None => {
                proof {
                    assert(false);
                }
                RecvOutcome::Empty
            },
        }
    }

    /// Number of live subscriptions on `sym`'s channel.
    pub fn receiver_count(&self, sym: &str) -> (r: usize)
        requires
            self.wf(),
        ensures
            r == (if self.has_channel(sym@) {
                self.chan_of(sym@).sub_count()
            } else {
                0int
            }),
    {
        match self.channels.find(sym) {
            Some(i) => self.channels.value_ref(i).receiver_count(),
            None => 0,
        }
    }

    /// The lazy cleanup a closing session runs: removes `sym`'s channel
    /// only if its subscription count is still zero at this moment.
    pub fn remove_if_idle(&mut self, sym: &str)
        requires
            old(self).wf(),
        ensures
            final(self).wf(),
            final(self).has_channel(sym@) == (old(self).has_channel(sym@) && old(self).chan_of(
                sym@,
            ).sub_count() > 0),
            final(self).has_channel(sym@) ==> final(self).chan_of(sym@) == old(self).chan_of(sym@),
            forall|s: Seq<char>| s != sym@ ==> final(self).has_channel(s) == old(self).has_channel(s),
            forall|s: Seq<char>|
                s != sym@ && old(self).has_channel(s) ==> final(self).chan_of(s) == old(self).chan_of(s),
    {
        match self.channels.find(sym) {
            Some(i) => {
                proof {
                    self.channels.lemma_at(i as int);
                }
                if self.channels.value_ref(i).receiver_count() == 0 {
                    self.channels.remove_at(i);
                    proof {
                        assert forall|j: int|
                            0 <= j < self.channels.spec_len() implies (
                        #[trigger] self.channels.value_at(j)).wf() by {
                            if j < i as int {
                                assert(self.channels.value_at(j) == old(self).channels.value_at(j));
                            } else {
                                assert(self.channels.value_at(j) == old(self).channels.value_at(
                                    j + 1,
                                ));
                            }
                        }
                    }
                }
            },
            None => {},
        }
    }
}

} // verus!
