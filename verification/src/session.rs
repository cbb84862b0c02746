//! The per-connection session core: historical replay over the zero-filled
//! bucket grid, the handshake and init frames, interest registration, hub
//! subscription, and the decision the live loop takes on every hub receive.
//!
//! The surrounding socket loop only sends the returned frames and hands
//! receive outcomes back in; every decision is made here.

use vstd::prelude::*;
use crate::bucket::{aligned_start, zero_fill, BucketPoint};
use crate::bucket::{find_last_at, lemma_find_last_at};
use crate::dec::{dec_val, is_canon_dec};
use crate::frames::{
    frame_error, frame_hello, frame_init, frame_warning_lagged, error_frame, hello_frame,
    init_frame, warning_lagged_frame,
};
use crate::hub::RecvOutcome;
use crate::sink::{count_in_bucket, lemma_bucket_empty, sum_in_bucket, MemSink, in_window, bkt};
use crate::state::{Event, StreamState};

verus! {

/// The query parameters a client connects with.
#[derive(Debug)]
pub struct StreamQuery {
    pub token: String,
    pub since: Option<i64>,
}

/// What the live loop does after one hub receive attempt: forward a frame,
/// send a lag warning and continue — lag never closes a session — or wait.
pub enum SessionAction {
    Forward(String),
    Warn(String),
    Idle,
}

/// Maps one hub receive outcome to the session's next action.
pub fn session_on_recv(out: RecvOutcome<Event>) -> (r: SessionAction)
    ensures
        match out {
            RecvOutcome::Msg(e) => r matches SessionAction::Forward(s) && s == e.0,
            RecvOutcome::Lagged(_) => r matches SessionAction::Warn(s) && s@
                == frame_warning_lagged(),
            RecvOutcome::Empty => r is Idle,
        },
{
    match out {
        RecvOutcome::Msg(e) => SessionAction::Forward(e.0),
        RecvOutcome::Lagged(_) => SessionAction::Warn(warning_lagged_frame()),
        RecvOutcome::Empty => SessionAction::Idle,
    }
}

/// The typed error frame that closes a session whose topic cannot be
/// resolved — the only server-side close.
pub fn resolve_error_frame(reason: &str) -> (r: String)
    ensures
        r@ == frame_error(reason@),
{
    error_frame(reason)
}

/// The replay series of `token_id` for the window `[start_ts, end_ts]`:
/// the persisted buckets expanded onto the full grid, every grid point
/// carrying the exact count and share sum of its rows, zero where nothing
/// landed.
pub fn replay_series(
    sink: &MemSink,
    token_id: &str,
    start_ts: i64,
    end_ts: i64,
    bucket_sec: i64,
) -> (out: Vec<BucketPoint>)
    requires
        sink.wf(),
        bucket_sec > 0,
        0 <= start_ts,
        end_ts <= i64::MAX - bucket_sec,
    ensures
        aligned_start(start_ts as int, bucket_sec as int) <= end_ts ==> out@.len() == (end_ts
            - aligned_start(start_ts as int, bucket_sec as int)) / (bucket_sec as int) + 1,
        aligned_start(start_ts as int, bucket_sec as int) > end_ts ==> out@.len() == 0,
        forall|i: int|
            0 <= i < out@.len() ==> (#[trigger] out@[i]).t == aligned_start(
                start_ts as int,
                bucket_sec as int,
            ) + i * bucket_sec,
        start_ts % bucket_sec == 0 && start_ts <= end_ts ==> out@.len() == (end_ts - start_ts) / (
        bucket_sec as int) + 1,
        forall|i: int|
            0 <= i < out@.len() ==> (#[trigger] out@[i]).count == count_in_bucket(
                sink.rows_view(),
                token_id@,
                start_ts as int,
                bucket_sec as int,
                out@[i].t as int,
            ) && dec_val(out@[i].sum_shares@) == sum_in_bucket(
                sink.rows_view(),
                token_id@,
                start_ts as int,
                bucket_sec as int,
                out@[i].t as int,
            ) && is_canon_dec(out@[i].sum_shares@),
{
    let points = sink.fetch_buckets(token_id, start_ts, bucket_sec);
    let out = zero_fill(points, start_ts, end_ts, bucket_sec);
    proof {
        let rows = sink.rows_view();
        let t = token_id@;
        let since = start_ts as int;
        let w = bucket_sec as int;
        assert forall|i: int|
            0 <= i < out@.len() implies (#[trigger] out@[i]).count == count_in_bucket(
            rows,
            t,
            since,
            w,
            out@[i].t as int,
        ) && dec_val(out@[i].sum_shares@) == sum_in_bucket(rows, t, since, w, out@[i].t as int)
            && is_canon_dec(out@[i].sum_shares@) by {
            let g = out@[i].t as int;
            lemma_find_last_at(points@, g);
            match find_last_at(points@, g) {
                Some(p) => {
                    let j = choose|j: int| 0 <= j < points@.len() && points@[j] == p;
                    assert(points@[j].count == count_in_bucket(rows, t, since, w, points@[j].t as int));
                },
                None => {
                    assert forall|k: int|
                        0 <= k < rows.len() implies !(in_window(#[trigger] rows[k], t, since)
                        && bkt(rows[k].block_timestamp as int, w) == g) by {
                        if in_window(rows[k], t, since) && bkt(rows[k].block_timestamp as int, w)
                            == g {
                            let j = choose|j: int|
                                0 <= j < points@.len() && (#[trigger] points@[j]).t == bkt(
                                    rows[k].block_timestamp as int,
                                    w,
                                );
                            assert(points@[j].t != g);
                        }
                    }
                    lemma_bucket_empty(rows, t, since, w, g);
                    assert(out@[i].sum_shares@ == seq!['0']);
                    assert(seq!['0'].drop_last() =~= Seq::<char>::empty());
                    assert(dec_val(Seq::<char>::empty()) == 0);
                    assert(dec_val(out@[i].sum_shares@) == 0);
                    assert(crate::dec::is_dec_digit('0'));
                    assert(is_canon_dec(out@[i].sum_shares@));
                },
            }
        }
    }
    out
}

/// Everything a freshly accepted connection is given.
pub struct SessionStart {
    pub hello: String,
    pub init: String,
    pub series: Vec<BucketPoint>,
    pub sub_id: u64,
    pub start_ts: i64,
}

/// Runs the whole on-connect sequence against the shared registry and the
/// sink: computes the replay window `[now - window_sec, now]`, builds the
/// zero-filled series, renders the `hello` handshake (with the subscriber
/// count as it stood before this session) and the `init` frame (series plus
/// the persisted cursor, falling back to the last grid point), registers
/// interest with the replay floor, and subscribes to the topic's channel.
pub fn session_connect(
    state: &mut StreamState,
    sink: &MemSink,
    token: &str,
    token_id: &str,
    since: Option<i64>,
    now: i64,
    window_sec: i64,
    bucket_sec: i64,
) -> (r: SessionStart)
    requires
        old(state).wf(),
        sink.wf(),
        bucket_sec > 0,
        0 <= window_sec <= now,
        now <= i64::MAX - bucket_sec,
        old(state).has_channel(token@) ==> old(state).chan_of(token@).ids_used() < u64::MAX,
    ensures
        final(state).wf(),
        r.start_ts == now - window_sec,
        r.hello@ == frame_hello(
            token@,
            token_id@,
            old(state).topic_subs(token@),
            window_sec as int,
            bucket_sec as int,
        ),
        sink.has_db_cursor(token_id@) ==> r.init@ == frame_init(
            r.series@,
            sink.db_cursor(token_id@).0,
            sink.db_cursor(token_id@).1,
        ),
        !sink.has_db_cursor(token_id@) ==> r.init@ == frame_init(
            r.series@,
            (if r.series@.len() > 0 {
                r.series@.last().t as int
            } else {
                r.start_ts as int
            }),
            Seq::<char>::empty(),
        ),
        r.series@.len() == (if aligned_start(now - window_sec, bucket_sec as int) <= now {
            (now - aligned_start(now - window_sec, bucket_sec as int)) / (bucket_sec as int) + 1
        } else {
            0int
        }),
        forall|i: int|
            0 <= i < r.series@.len() ==> (#[trigger] r.series@[i]).count == count_in_bucket(
                sink.rows_view(),
                token_id@,
                now - window_sec,
                bucket_sec as int,
                r.series@[i].t as int,
            ) && dec_val(r.series@[i].sum_shares@) == sum_in_bucket(
                sink.rows_view(),
                token_id@,
                now - window_sec,
                bucket_sec as int,
                r.series@[i].t as int,
            ),
        final(state).is_interested(token@),
        final(state).cursor_ts(token@) == old(state).cursor_ts(token@),
        final(state).cursor_id(token@) == old(state).cursor_id(token@),
        final(state).cursor_hint(token@) == ({
            let h1 = if old(state).cursor_hint(token@) < now - window_sec {
                now - window_sec
            } else {
                old(state).cursor_hint(token@)
            };
            match since {
                Some(s) => if h1 < s {
                    s as int
                } else {
                    h1
                },
                None => h1,
            }
        }),
        final(state).has_channel(token@),
        final(state).chan_of(token@).wf(),
        final(state).chan_of(token@).capacity() == old(state).capacity(),
        final(state).chan_of(token@).has_sub(r.sub_id),
        final(state).chan_of(token@).sub_count() == old(state).topic_subs(token@) + 1,
        final(state).chan_of(token@).sub_next(r.sub_id) == final(state).chan_of(token@).next_seq(),
        !old(state).has_channel(token@) ==> final(state).chan_of(token@).base_seq() == 0 && final(state).chan_of(token@).next_seq() == 0 && final(state).chan_of(token@).ids_used() == 1,
        old(state).has_channel(token@) ==> final(state).chan_of(token@).base_seq() == old(state).chan_of(token@).base_seq() && final(state).chan_of(token@).next_seq() == old(state).chan_of(token@).next_seq() && final(state).chan_of(token@).ids_used() == old(state).chan_of(token@).ids_used() + 1 && (forall|o: u64|
            old(state).chan_of(token@).has_sub(o) ==> final(state).chan_of(token@).has_sub(o)
                && final(state).chan_of(token@).sub_next(o) == old(state).chan_of(token@).sub_next(o)),
        forall|t: Seq<char>|
            t != token@ ==> final(state).has_channel(t) == old(state).has_channel(t),
        forall|t: Seq<char>|
            t != token@ && old(state).has_channel(t) ==> final(state).chan_of(t) == old(state).chan_of(t),
        forall|t: Seq<char>|
            t != token@ ==> final(state).cursor_ts(t) == old(state).cursor_ts(t) && final(state).cursor_id(t) == old(state).cursor_id(t) && final(state).cursor_hint(t) == old(state).cursor_hint(t),
{
    let start_ts = now - window_sec;
    let series = replay_series(sink, token_id, start_ts, now, bucket_sec);
    let subs = state.subscriber_count(token);
    let hello = hello_frame(token, token_id, subs, window_sec, bucket_sec);
    let init = match sink.load_cursor(token_id) {
        Some(c) => init_frame(&series, c.0, c.1.as_str()),
        None => {
            let fallback_ts = if series.len() > 0 {
                series[series.len() - 1].t
            } else {
                start_ts
            };
            proof {
                if series@.len() > 0 {
                    assert(series@[series@.len() - 1] == series@.last());
                }
                reveal_strlit("");
                assert(""@ =~= Seq::<char>::empty());
            }
            init_frame(&series, fallback_ts, "")
        },
    };
    state.register_interest(token, Some(start_ts));
    state.register_interest(token, since);
    let sub_id = state.subscribe(token);
    SessionStart { hello, init, series, sub_id, start_ts }
}

} // verus!
