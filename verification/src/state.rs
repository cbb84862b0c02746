//! The shared in-memory registry of the streaming engine: per-topic
//! broadcast channels, the set of topics under active interest, and the
//! per-topic ingestion cursors.
//!
//! A cursor is a monotonic `(last_ts, last_id)` watermark: it only ever
//! moves forward in the lexicographic pair order, which is what makes
//! re-fetching an overlap window safe. `since_hint` is the highest replay
//! floor any current subscriber asked for; it never lowers.

use vstd::prelude::*;
use crate::assoc::AssocVec;
use crate::hub::{Chan, Dup, RecvOutcome};
use crate::text::lex_lt;

verus! {

/// One message of a topic stream: the JSON text of a wire frame.
#[derive(Clone, Debug)]
pub struct Event(pub String);

impl Dup for Event {
    fn dup(&self) -> (r: Self)
        ensures
            r == *self,
    {
        Event(self.0.clone())
    }
}

/// Per-topic ingestion position and replay floor.
#[derive(Clone, Debug)]
pub struct Cursor {
    pub last_ts: i64,
    pub last_id: String,
    pub since_hint: i64,
}

impl Default for Cursor {
    /// The cursor of a topic never seen: position zero, no replay floor.
    fn default() -> (r: Cursor)
        ensures
            r.last_ts == 0,
            r.last_id@ == Seq::<char>::empty(),
            r.since_hint == 0,
    {
        Cursor { last_ts: 0, last_id: String::new(), since_hint: 0 }
    }
}

/// Strict order on `(timestamp, id)` pairs: by timestamp, then by the
/// lexicographic order of the id.
pub open spec fn pair_lt(a_ts: int, a_id: Seq<char>, b_ts: int, b_id: Seq<char>) -> bool {
    a_ts < b_ts || (a_ts == b_ts && lex_lt(a_id, b_id))
}

/// The registry shared by the poller, the relay and every session.
pub struct StreamState {
    cap: usize,
    channels: AssocVec<Chan<Event>>,
    interested: AssocVec<bool>,
    cursors: AssocVec<Cursor>,
}

impl StreamState {
    /// Capacity each topic channel is created with.
    pub closed spec fn capacity(self) -> int {
        self.cap as int
    }

    /// A channel exists for topic `t`.
    pub closed spec fn has_channel(self, t: Seq<char>) -> bool {
        self.channels.contains_key(t)
    }

    /// The channel of topic `t`.
    pub closed spec fn chan_of(self, t: Seq<char>) -> Chan<Event> {
        self.channels.value_of(t)
    }

    /// Live subscription count of topic `t`; zero when no channel exists.
    pub open spec fn topic_subs(self, t: Seq<char>) -> int {
        if self.has_channel(t) {
            self.chan_of(t).sub_count()
        } else {
            0
        }
    }

    /// Topic `t` is marked interesting (some subscriber asked for it).
    pub closed spec fn is_interested(self, t: Seq<char>) -> bool {
        self.interested.contains_key(t)
    }

    /// Number of topics under interest.
    pub closed spec fn interested_len(self) -> int {
        self.interested.spec_len()
    }

    /// The `i`-th interested topic, in registration order.
    pub closed spec fn interested_at(self, i: int) -> Seq<char> {
        self.interested.key_at(i)
    }

    /// A cursor entry exists for topic `t`.
    pub closed spec fn has_cursor(self, t: Seq<char>) -> bool {
        self.cursors.contains_key(t)
    }

    /// The cursor timestamp of topic `t`; zero when no entry exists.
    pub closed spec fn cursor_ts(self, t: Seq<char>) -> int {
        if self.cursors.contains_key(t) {
            self.cursors.value_of(t).last_ts as int
        } else {
            0
        }
    }

    /// The cursor id of topic `t`; empty when no entry exists.
    pub closed spec fn cursor_id(self, t: Seq<char>) -> Seq<char> {
        if self.cursors.contains_key(t) {
            self.cursors.value_of(t).last_id@
        } else {
            Seq::<char>::empty()
        }
    }

    /// The replay floor of topic `t`; zero when no entry exists.
    pub closed spec fn cursor_hint(self, t: Seq<char>) -> int {
        if self.cursors.contains_key(t) {
            self.cursors.value_of(t).since_hint as int
        } else {
            0
        }
    }

    /// Internal consistency of the three tables and every channel.
    pub closed spec fn wf(self) -> bool {
        &&& self.cap >= 1
        &&& self.channels.wf()
        &&& self.interested.wf()
        &&& self.cursors.wf()
        &&& (forall|i: int|
            0 <= i < self.channels.spec_len() ==> (#[trigger] self.channels.value_at(i)).wf()
                && self.channels.value_at(i).capacity() == self.cap)
    }

    /// The channel of any topic is well formed and was created with the
    /// registry's capacity.
    pub proof fn lemma_chan_wf(self, t: Seq<char>)
        requires
            self.wf(),
            self.has_channel(t),
        ensures
            self.chan_of(t).wf(),
            self.chan_of(t).capacity() == self.capacity(),
    {
        self.channels.lemma_contains_index(t);
        let i = choose|i: int|
            0 <= i < self.channels.spec_len() && #[trigger] self.channels.key_at(i) == t
                && self.channels.value_at(i) == self.channels.value_of(t);
        assert(self.channels.value_at(i).wf());
        assert(self.channels.value_at(i).capacity() == self.cap);
    }

    /// The backpressure law at the registry level: once more than the
    /// registry's channel capacity of messages have been published past a
    /// consumer's position, the retained window has moved beyond it, so its
    /// next receive reports a lag signal (`recv`'s contract) — publishing
    /// itself never waits on any consumer.
    pub proof fn lemma_slow_consumer_lags(self, t: Seq<char>, id: u64)
        requires
            self.wf(),
            self.has_channel(t),
            self.chan_of(t).has_sub(id),
            self.chan_of(t).sub_next(id) + self.capacity() < self.chan_of(t).next_seq(),
        ensures
            self.chan_of(t).sub_next(id) < self.chan_of(t).base_seq(),
    {
        self.lemma_chan_wf(t);
        self.chan_of(t).lemma_slow_consumer_lags(id);
    }

    /// Marks `token` as interesting and, when a replay floor is given,
    /// raises the topic's `since_hint` to it — monotonically and
    /// idempotently; the persisted cursor position is never touched.
    pub fn register_interest(&mut self, token: &str, since: Option<i64>)
        requires
            old(self).wf(),
        ensures
            final(self).wf(),
            final(self).capacity() == old(self).capacity(),
            final(self).is_interested(token@),
            forall|t: Seq<char>|
                t != token@ ==> final(self).is_interested(t) == old(self).is_interested(t),
            old(self).is_interested(token@) ==> final(self).interested_len() == old(self).interested_len(),
            !old(self).is_interested(token@) ==> final(self).interested_len() == old(self).interested_len() + 1 && final(self).interested_at(old(self).interested_len())
                == token@,
            forall|i: int|
                0 <= i < old(self).interested_len() ==> final(self).interested_at(i) == old(self).interested_at(i),
            forall|t: Seq<char>| final(self).has_channel(t) == old(self).has_channel(t),
            forall|t: Seq<char>|
                old(self).has_channel(t) ==> final(self).chan_of(t) == old(self).chan_of(t),
            final(self).has_cursor(token@) == (old(self).has_cursor(token@) || since is Some),
            final(self).cursor_ts(token@) == old(self).cursor_ts(token@),
            final(self).cursor_id(token@) == old(self).cursor_id(token@),
            final(self).cursor_hint(token@) == (match since {
                Some(s) => if old(self).cursor_hint(token@) < s {
                    s as int
                } else {
                    old(self).cursor_hint(token@)
                },
                None => old(self).cursor_hint(token@),
            }),
            forall|t: Seq<char>|
                t != token@ ==> final(self).has_cursor(t) == old(self).has_cursor(t) && final(self).cursor_ts(t) == old(self).cursor_ts(t) && final(self).cursor_id(t) == old(self).cursor_id(t) && final(self).cursor_hint(t) == old(self).cursor_hint(t),
    {
        match self.interested.find(token) {
            Some(_) => {},
            None => {
                self.interested.push_new(token.to_owned(), true);
            },
        }
        match since {
            None => {},
            Some(s) => {
                match self.cursors.find(token) {
                    Some(i) => {
                        let cur = self.cursors.value_ref(i);
                        let ts = cur.last_ts;
                        let hint = cur.since_hint;
                        if hint < s {
                            let id = cur.last_id.clone();
                            self.cursors.set_value_at(
                                i,
                                Cursor { last_ts: ts, last_id: id, since_hint: s },
                            );
                        }
                    },
                    None => {
                        let hint: i64 = if s > 0 {
                            s
                        } else {
                            0
                        };
                        self.cursors.push_new(
                            token.to_owned(),
                            Cursor { last_ts: 0, last_id: String::new(), since_hint: hint },
                        );
                    },
                }
            },
        }
    }

    /// Moves the cursor of `token` to `(last_ts, last_id)` if and only if
    /// that position lies strictly beyond the current one: the watermark
    /// never moves backward.
    pub fn advance_cursor(&mut self, token: &str, last_ts: i64, last_id: &str)
        requires
            old(self).wf(),
        ensures
            final(self).wf(),
            final(self).capacity() == old(self).capacity(),
            forall|t: Seq<char>| final(self).is_interested(t) == old(self).is_interested(t),
            final(self).interested_len() == old(self).interested_len(),
            forall|i: int|
                0 <= i < old(self).interested_len() ==> final(self).interested_at(i) == old(self).interested_at(i),
            forall|t: Seq<char>| final(self).has_channel(t) == old(self).has_channel(t),
            forall|t: Seq<char>|
                old(self).has_channel(t) ==> final(self).chan_of(t) == old(self).chan_of(t),
            final(self).has_cursor(token@),
            pair_lt(
                old(self).cursor_ts(token@),
                old(self).cursor_id(token@),
                last_ts as int,
                last_id@,
            ) ==> final(self).cursor_ts(token@) == last_ts && final(self).cursor_id(token@)
                == last_id@,
            !pair_lt(
                old(self).cursor_ts(token@),
                old(self).cursor_id(token@),
                last_ts as int,
                last_id@,
            ) ==> final(self).cursor_ts(token@) == old(self).cursor_ts(token@) && final(self).cursor_id(token@) == old(self).cursor_id(token@),
            final(self).cursor_hint(token@) == old(self).cursor_hint(token@),
            !pair_lt(
                final(self).cursor_ts(token@),
                final(self).cursor_id(token@),
                old(self).cursor_ts(token@),
                old(self).cursor_id(token@),
            ),
            forall|t: Seq<char>|
                t != token@ ==> final(self).has_cursor(t) == old(self).has_cursor(t) && final(self).cursor_ts(t) == old(self).cursor_ts(t) && final(self).cursor_id(t) == old(self).cursor_id(t) && final(self).cursor_hint(t) == old(self).cursor_hint(t),
    {
        proof {
            if pair_lt(
                old(self).cursor_ts(token@),
                old(self).cursor_id(token@),
                last_ts as int,
                last_id@,
            ) && old(self).cursor_ts(token@) == last_ts {
                crate::text::lemma_lex_lt_asym(old(self).cursor_id(token@), last_id@);
            }
            crate::text::lemma_lex_lt_irrefl(old(self).cursor_id(token@));
        }
        match self.cursors.find(token) {
            Some(i) => {
                let cur = self.cursors.value_ref(i);
                let ts = cur.last_ts;
                let hint = cur.since_hint;
                let moved = last_ts > ts || (last_ts == ts && crate::text::str_lt(
                    cur.last_id.as_str(),
                    last_id,
                ));
                if moved {
                    self.cursors.set_value_at(
                        i,
                        Cursor { last_ts, last_id: last_id.to_owned(), since_hint: hint },
                    );
                }
            },
            None => {
                let moved = last_ts > 0 || (last_ts == 0 && crate::text::str_lt("", last_id));
                proof {
                    reveal_strlit("");
                    assert(""@ =~= Seq::<char>::empty());
                }
                if moved {
                    self.cursors.push_new(
                        token.to_owned(),
                        Cursor { last_ts, last_id: last_id.to_owned(), since_hint: 0 },
                    );
                } else {
                    self.cursors.push_new(
                        token.to_owned(),
                        Cursor { last_ts: 0, last_id: String::new(), since_hint: 0 },
                    );
                }
            },
        }
    }

    /// Adopts a persisted cursor position, but only when the in-memory
    /// cursor still sits at the origin: persisted state seeds an empty
    /// cursor and never overwrites a more advanced one.
    pub fn seed_cursor_if_empty(&mut self, token: &str, ts: i64, id: &str)
        requires
            old(self).wf(),
        ensures
            final(self).wf(),
            final(self).capacity() == old(self).capacity(),
            forall|t: Seq<char>| final(self).is_interested(t) == old(self).is_interested(t),
            final(self).interested_len() == old(self).interested_len(),
            forall|i: int|
                0 <= i < old(self).interested_len() ==> final(self).interested_at(i) == old(self).interested_at(i),
            forall|t: Seq<char>| final(self).has_channel(t) == old(self).has_channel(t),
            forall|t: Seq<char>|
                old(self).has_channel(t) ==> final(self).chan_of(t) == old(self).chan_of(t),
            final(self).has_cursor(token@),
            (old(self).cursor_ts(token@) == 0 && old(self).cursor_id(token@) == Seq::<
                char,
            >::empty()) ==> final(self).cursor_ts(token@) == ts && final(self).cursor_id(token@)
                == id@,
            !(old(self).cursor_ts(token@) == 0 && old(self).cursor_id(token@) == Seq::<
                char,
            >::empty()) ==> final(self).cursor_ts(token@) == old(self).cursor_ts(token@) && final(self).cursor_id(token@) == old(self).cursor_id(token@),
            final(self).cursor_hint(token@) == old(self).cursor_hint(token@),
            forall|t: Seq<char>|
                t != token@ ==> final(self).has_cursor(t) == old(self).has_cursor(t) && final(self).cursor_ts(t) == old(self).cursor_ts(t) && final(self).cursor_id(t) == old(self).cursor_id(t) && final(self).cursor_hint(t) == old(self).cursor_hint(t),
    {
        match self.cursors.find(token) {
            Some(i) => {
                let cur = self.cursors.value_ref(i);
                let cts = cur.last_ts;
                let hint = cur.since_hint;
                let empty = cts == 0 && cur.last_id.as_str().is_empty();
                proof {
                    if old(self).cursor_id(token@).len() == 0 {
                        assert(old(self).cursor_id(token@) =~= Seq::<char>::empty());
                    }
                }
                if empty {
                    self.cursors.set_value_at(
                        i,
                        Cursor { last_ts: ts, last_id: id.to_owned(), since_hint: hint },
                    );
                }
            },
            None => {
                self.cursors.push_new(
                    token.to_owned(),
                    Cursor { last_ts: ts, last_id: id.to_owned(), since_hint: 0 },
                );
            },
        }
    }

    /// A consistent snapshot for the poller: every interested topic appears
    /// exactly once, paired with its current cursor (or the origin cursor
    /// when none exists yet).
    pub fn tokens_to_poll(&self) -> (r: Vec<(String, Cursor)>)
        requires
            self.wf(),
        ensures
            r@.len() == self.interested_len(),
            forall|i: int|
                0 <= i < r@.len() ==> (#[trigger] r@[i]).0@ == self.interested_at(i)
                    && r@[i].1.last_ts == self.cursor_ts(self.interested_at(i))
                    && r@[i].1.last_id@ == self.cursor_id(self.interested_at(i))
                    && r@[i].1.since_hint == self.cursor_hint(self.interested_at(i)),
            forall|a: int, b: int| 0 <= a < b < r@.len() ==> (#[trigger] r@[a]).0@ != (#[trigger] r@[b]).0@,
            forall|i: int| 0 <= i < r@.len() ==> self.is_interested((#[trigger] r@[i]).0@),
            forall|t: Seq<char>|
                self.is_interested(t) ==> (exists|i: int| 0 <= i < r@.len() && (#[trigger] r@[i]).0@ == t),
    {
        let mut r: Vec<(String, Cursor)> = Vec::new();
        let n = self.interested.len();
        let mut i: usize = 0;
        while i < n
            invariant
                self.wf(),
                n == self.interested_len(),
                i <= n,
                r@.len() == i,
                forall|j: int|
                    0 <= j < i ==> (#[trigger] r@[j]).0@ == self.interested_at(j)
                        && r@[j].1.last_ts == self.cursor_ts(self.interested_at(j))
                        && r@[j].1.last_id@ == self.cursor_id(self.interested_at(j))
                        && r@[j].1.since_hint == self.cursor_hint(self.interested_at(j)),
            decreases n - i,
        {
            let key = self.interested.key_ref(i).clone();
            let cur = match self.cursors.find(key.as_str()) {
                Some(j) => {
                    let c = self.cursors.value_ref(j);
                    Cursor {
                        last_ts: c.last_ts,
                        last_id: c.last_id.clone(),
                        since_hint: c.since_hint,
                    }
                },
                None => Cursor { last_ts: 0, last_id: String::new(), since_hint: 0 },
            };
            r.push((key, cur));
            i = i + 1;
        }
        proof {
            assert forall|a: int, b: int| 0 <= a < b < r@.len() implies (#[trigger] r@[a]).0@ != (
            #[trigger] r@[b]).0@ by {
                self.interested.lemma_keys_distinct(a, b);
            }
            assert forall|j: int| 0 <= j < r@.len() implies self.is_interested(
                (#[trigger] r@[j]).0@,
            ) by {
                self.interested.lemma_at(j);
            }
            assert forall|t: Seq<char>| self.is_interested(t) implies (exists|j: int|
                0 <= j < r@.len() && (#[trigger] r@[j]).0@ == t) by {
                self.interested.lemma_contains_index(t);
                let j = choose|j: int|
                    0 <= j < self.interested.spec_len() && #[trigger] self.interested.key_at(j)
                        == t && self.interested.value_at(j) == self.interested.value_of(t);
                assert(r@[j].0@ == t);
            }
        }
        r
    }

    /// Opens a subscription on `token`'s channel, creating the channel —
    /// with the registry's capacity — on first use.
    pub fn subscribe(&mut self, token: &str) -> (id: u64)
        requires
            old(self).wf(),
            old(self).has_channel(token@) ==> old(self).chan_of(token@).ids_used() < u64::MAX,
        ensures
            final(self).wf(),
            final(self).capacity() == old(self).capacity(),
            final(self).has_channel(token@),
            final(self).chan_of(token@).wf(),
            final(self).chan_of(token@).capacity() == old(self).capacity(),
            final(self).chan_of(token@).has_sub(id),
            final(self).chan_of(token@).sub_count() == old(self).topic_subs(token@) + 1,
            final(self).chan_of(token@).sub_next(id) == final(self).chan_of(token@).next_seq(),
            old(self).has_channel(token@) ==> final(self).chan_of(token@).base_seq() == old(self).chan_of(token@).base_seq() && final(self).chan_of(token@).next_seq() == old(self).chan_of(token@).next_seq() && !old(self).chan_of(token@).has_sub(id) && (
            forall|s: int|
                old(self).chan_of(token@).base_seq() <= s < old(self).chan_of(token@).next_seq()
                    ==> final(self).chan_of(token@).msg_at(s) == old(self).chan_of(token@).msg_at(
                    s,
                )) && (forall|o: u64|
                old(self).chan_of(token@).has_sub(o) ==> final(self).chan_of(token@).has_sub(o)
                    && final(self).chan_of(token@).sub_next(o) == old(self).chan_of(
                    token@,
                ).sub_next(o)) && final(self).chan_of(token@).ids_used() == old(self).chan_of(
                token@,
            ).ids_used() + 1,
            !old(self).has_channel(token@) ==> final(self).chan_of(token@).base_seq() == 0 && final(self).chan_of(token@).next_seq() == 0 && final(self).chan_of(token@).ids_used() == 1,
            forall|t: Seq<char>|
                t != token@ ==> final(self).has_channel(t) == old(self).has_channel(t),
            forall|t: Seq<char>|
                t != token@ && old(self).has_channel(t) ==> final(self).chan_of(t) == old(self).chan_of(t),
            forall|t: Seq<char>| final(self).is_interested(t) == old(self).is_interested(t),
            final(self).interested_len() == old(self).interested_len(),
            forall|i: int|
                0 <= i < old(self).interested_len() ==> final(self).interested_at(i) == old(self).interested_at(i),
            forall|t: Seq<char>|
                final(self).has_cursor(t) == old(self).has_cursor(t) && final(self).cursor_ts(t)
                    == old(self).cursor_ts(t) && final(self).cursor_id(t) == old(self).cursor_id(t)
                    && final(self).cursor_hint(t) == old(self).cursor_hint(t),
    {
        match self.channels.find(token) {
            Some(i) => {
                proof {
                    self.channels.lemma_at(i as int);
                }
                let mut ch = self.channels.replace_value_at(i, Chan::new(1));
                let id = ch.subscribe();
                let ghost chx = ch;
                self.channels.set_value_at(i, ch);
                proof {
                    assert(self.channels.value_of(token@) == chx);
                }
                id
            },
            None => {
                let mut ch: Chan<Event> = Chan::new(self.cap);
                let id = ch.subscribe();
                self.channels.push_new(token.to_owned(), ch);
                id
            },
        }
    }

    /// Closes subscription `id` on `token`'s channel.
    pub fn unsubscribe(&mut self, token: &str, id: u64)
        requires
            old(self).wf(),
            old(self).has_channel(token@),
            old(self).chan_of(token@).has_sub(id),
        ensures
            final(self).wf(),
            final(self).capacity() == old(self).capacity(),
            final(self).has_channel(token@),
            !final(self).chan_of(token@).has_sub(id),
            final(self).chan_of(token@).sub_count() == old(self).chan_of(token@).sub_count() - 1,
            final(self).chan_of(token@).base_seq() == old(self).chan_of(token@).base_seq(),
            final(self).chan_of(token@).next_seq() == old(self).chan_of(token@).next_seq(),
            forall|o: u64|
                o != id && old(self).chan_of(token@).has_sub(o) ==> final(self).chan_of(
                    token@,
                ).has_sub(o) && final(self).chan_of(token@).sub_next(o) == old(self).chan_of(
                    token@,
                ).sub_next(o),
            forall|t: Seq<char>| final(self).has_channel(t) == old(self).has_channel(t),
            forall|t: Seq<char>|
                t != token@ && old(self).has_channel(t) ==> final(self).chan_of(t) == old(self).chan_of(t),
            forall|t: Seq<char>| final(self).is_interested(t) == old(self).is_interested(t),
            final(self).interested_len() == old(self).interested_len(),
            forall|t: Seq<char>|
                final(self).has_cursor(t) == old(self).has_cursor(t) && final(self).cursor_ts(t)
                    == old(self).cursor_ts(t) && final(self).cursor_id(t) == old(self).cursor_id(t)
                    && final(self).cursor_hint(t) == old(self).cursor_hint(t),
    {
        match self.channels.find(token) {
            Some(i) => {
                proof {
                    self.channels.lemma_at(i as int);
                }
                let mut ch = self.channels.replace_value_at(i, Chan::new(1));
                ch.unsubscribe(id);
                self.channels.set_value_at(i, ch);
            },
            None => {
                proof {
                    assert(false);
                }
            },
        }
    }

    /// Publishes one event on `token`'s channel. With no channel — nobody
    /// ever subscribed — the event is discarded and `0` returned; the call
    /// never blocks and never creates a channel.
    pub fn publish(&mut self, token: &str, evt: Event) -> (delivered: usize)
        requires
            old(self).wf(),
            old(self).has_channel(token@) ==> old(self).chan_of(token@).next_seq() < u64::MAX,
        ensures
            final(self).wf(),
            final(self).capacity() == old(self).capacity(),
            delivered == old(self).topic_subs(token@),
            forall|t: Seq<char>| final(self).has_channel(t) == old(self).has_channel(t),
            forall|t: Seq<char>|
                t != token@ && old(self).has_channel(t) ==> final(self).chan_of(t) == old(self).chan_of(t),
            !old(self).has_channel(token@) ==> (forall|t: Seq<char>|
                old(self).has_channel(t) ==> final(self).chan_of(t) == old(self).chan_of(t)),
            old(self).has_channel(token@) ==> final(self).chan_of(token@).base_seq() >= old(self).chan_of(token@).base_seq() && final(self).chan_of(token@).capacity() == old(self).chan_of(token@).capacity(),
            old(self).has_channel(token@) && old(self).chan_of(token@).sub_count() > 0 ==> final(self).chan_of(token@).base_seq() == (if old(self).chan_of(token@).next_seq() - old(self).chan_of(token@).base_seq() == old(self).chan_of(token@).capacity() {
                old(self).chan_of(token@).base_seq() + 1
            } else {
                old(self).chan_of(token@).base_seq()
            }),
            old(self).has_channel(token@) ==> final(self).chan_of(token@).sub_count() == old(self).chan_of(token@).sub_count() && final(self).chan_of(token@).ids_used() == old(self).chan_of(token@).ids_used() && (forall|o: u64|
                old(self).chan_of(token@).has_sub(o) ==> final(self).chan_of(token@).has_sub(o)
                    && final(self).chan_of(token@).sub_next(o) == old(self).chan_of(
                    token@,
                ).sub_next(o)),
            old(self).has_channel(token@) && old(self).chan_of(token@).sub_count() <= 0 ==> final(self).chan_of(token@).base_seq() == old(self).chan_of(token@).base_seq() && final(self).chan_of(token@).next_seq() == old(self).chan_of(token@).next_seq(),
            old(self).has_channel(token@) && old(self).chan_of(token@).sub_count() > 0 ==> final(self).chan_of(token@).next_seq() == old(self).chan_of(token@).next_seq() + 1 && final(self).chan_of(token@).msg_at(old(self).chan_of(token@).next_seq()) == evt && (
            forall|s: int|
                final(self).chan_of(token@).base_seq() <= s < old(self).chan_of(token@).next_seq()
                    ==> final(self).chan_of(token@).msg_at(s) == old(self).chan_of(token@).msg_at(
                    s,
                )),
            forall|t: Seq<char>| final(self).is_interested(t) == old(self).is_interested(t),
            final(self).interested_len() == old(self).interested_len(),
            forall|t: Seq<char>|
                final(self).has_cursor(t) == old(self).has_cursor(t) && final(self).cursor_ts(t)
                    == old(self).cursor_ts(t) && final(self).cursor_id(t) == old(self).cursor_id(t)
                    && final(self).cursor_hint(t) == old(self).cursor_hint(t),
    {
        match self.channels.find(token) {
            Some(i) => {
                proof {
                    self.channels.lemma_at(i as int);
                }
                let mut ch = self.channels.replace_value_at(i, Chan::new(1));
                let delivered = ch.publish(evt);
                self.channels.set_value_at(i, ch);
                delivered
            },
            None => 0,
        }
    }

    /// One receive attempt for subscription `id` on `token`'s channel.
    pub fn recv(&mut self, token: &str, id: u64) -> (r: RecvOutcome<Event>)
        requires
            old(self).wf(),
            old(self).has_channel(token@),
            old(self).chan_of(token@).has_sub(id),
        ensures
            final(self).wf(),
            final(self).capacity() == old(self).capacity(),
            final(self).has_channel(token@),
            final(self).chan_of(token@).base_seq() == old(self).chan_of(token@).base_seq(),
            final(self).chan_of(token@).next_seq() == old(self).chan_of(token@).next_seq(),
            final(self).chan_of(token@).sub_count() == old(self).chan_of(token@).sub_count(),
            forall|s: int|
                old(self).chan_of(token@).base_seq() <= s < old(self).chan_of(token@).next_seq()
                    ==> final(self).chan_of(token@).msg_at(s) == old(self).chan_of(token@).msg_at(
                    s,
                ),
            forall|o: u64|
                old(self).chan_of(token@).has_sub(o) ==> final(self).chan_of(token@).has_sub(o),
            forall|o: u64|
                o != id && old(self).chan_of(token@).has_sub(o) ==> final(self).chan_of(
                    token@,
                ).sub_next(o) == old(self).chan_of(token@).sub_next(o),
            match r {
                RecvOutcome::Msg(v) => old(self).chan_of(token@).base_seq() <= old(self).chan_of(
                    token@,
                ).sub_next(id) < old(self).chan_of(token@).next_seq() && v == old(self).chan_of(
                    token@,
                ).msg_at(old(self).chan_of(token@).sub_next(id)) && final(self).chan_of(
                    token@,
                ).sub_next(id) == old(self).chan_of(token@).sub_next(id) + 1,
                RecvOutcome::Lagged(n) => old(self).chan_of(token@).sub_next(id) < old(self).chan_of(token@).base_seq() && n == old(self).chan_of(token@).base_seq() - old(self).chan_of(token@).sub_next(id) && final(self).chan_of(token@).sub_next(id) == old(self).chan_of(token@).base_seq(),
                RecvOutcome::Empty => old(self).chan_of(token@).sub_next(id) == old(self).chan_of(
                    token@,
                ).next_seq() && final(self).chan_of(token@).sub_next(id) == old(self).chan_of(
                    token@,
                ).sub_next(id),
            },
            forall|t: Seq<char>| final(self).has_channel(t) == old(self).has_channel(t),
            forall|t: Seq<char>|
                t != token@ && old(self).has_channel(t) ==> final(self).chan_of(t) == old(self).chan_of(t),
            forall|t: Seq<char>| final(self).is_interested(t) == old(self).is_interested(t),
            final(self).interested_len() == old(self).interested_len(),
            forall|t: Seq<char>|
                final(self).has_cursor(t) == old(self).has_cursor(t) && final(self).cursor_ts(t)
                    == old(self).cursor_ts(t) && final(self).cursor_id(t) == old(self).cursor_id(t)
                    && final(self).cursor_hint(t) == old(self).cursor_hint(t),
    {
        match self.channels.find(token) {
            Some(i) => {
                proof {
                    self.channels.lemma_at(i as int);
                }
                let mut ch = self.channels.replace_value_at(i, Chan::new(1));
                let r = ch.recv(id);
                self.channels.set_value_at(i, ch);
                r
            },
            None => {
                proof {
                    assert(false);
                }
                RecvOutcome::Empty
            },
        }
    }

    /// Number of live subscriptions on `token`'s channel.
    pub fn subscriber_count(&self, token: &str) -> (r: usize)
        requires
            self.wf(),
        ensures
            r == self.topic_subs(token@),
    {
        match self.channels.find(token) {
            Some(i) => self.channels.value_ref(i).receiver_count(),
            None => 0,
        }
    }

    /// A fresh registry with the default channel capacity.
    pub fn new() -> (r: StreamState)
        ensures
            r.wf(),
            r.capacity() == 1024,
            r.interested_len() == 0,
            forall|t: Seq<char>| !r.has_channel(t),
            forall|t: Seq<char>| !r.is_interested(t),
            forall|t: Seq<char>| !r.has_cursor(t),
    {
        StreamState {
            cap: 1024,
            channels: AssocVec::new(),
            interested: AssocVec::new(),
            cursors: AssocVec::new(),
        }
    }
}

} // verus!
