//! The JSON text frames of the client-facing protocol and of the upstream
//! push connection. Each builder's contract pins the exact character
//! sequence of the frame it produces.

use vstd::prelude::*;
use crate::bucket::BucketPoint;
use crate::dec::{dec_i64, i64_to_dec, u64_to_dec, dec_digits};
use crate::sink::DepositRow;
use crate::text::{json_escape, json_escaped};

verus! {

/// A JSON string literal holding `s`.
pub open spec fn quoted(s: Seq<char>) -> Seq<char> {
    seq!['"'] + json_escaped(s) + seq!['"']
}

/// Appends a JSON string literal holding `v`.
pub fn append_quoted(s: &mut String, v: &str)
    ensures
        final(s)@ == old(s)@ + quoted(v@),
{
    crate::dec::push_char(s, '"');
    let e = json_escape(v);
    s.append(e.as_str());
    crate::dec::push_char(s, '"');
    proof {
        assert(s@ =~= old(s)@ + quoted(v@));
    }
}

/// The JSON body of one bucket.
pub open spec fn bucket_json(b: BucketPoint) -> Seq<char> {
    "{\"t\":"@ + dec_i64(b.t as int) + ",\"count\":"@ + dec_i64(b.count as int)
        + ",\"sum_shares\":"@ + quoted(b.sum_shares@) + "}"@
}

fn append_bucket(s: &mut String, b: &BucketPoint)
    ensures
        final(s)@ == old(s)@ + bucket_json(*b),
{
    s.append("{\"t\":");
    let t = i64_to_dec(b.t);
    s.append(t.as_str());
    s.append(",\"count\":");
    let c = i64_to_dec(b.count);
    s.append(c.as_str());
    s.append(",\"sum_shares\":");
    append_quoted(s, b.sum_shares.as_str());
    s.append("}");
    proof {
        assert(s@ =~= old(s)@ + bucket_json(*b));
    }
}

/// The JSON array of a bucket series.
pub open spec fn series_json(series: Seq<BucketPoint>) -> Seq<char>
    decreases series.len(),
{
    if series.len() == 0 {
        "[]"@
    } else if series.len() == 1 {
        "["@ + bucket_json(series[0]) + "]"@
    } else {
        series_json(series.drop_last()).drop_last() + ","@ + bucket_json(series.last()) + "]"@
    }
}

/// The live `deposit` frame for one accepted event on `token`.
pub open spec fn frame_deposit(token: Seq<char>, row: DepositRow) -> Seq<char> {
    "{\"type\":\"deposit\",\"token\":"@ + quoted(token) + ",\"token_id\":"@ + quoted(row.token_id@)
        + ",\"token_symbol\":"@ + quoted(row.token_symbol@) + ",\"staker\":"@ + quoted(row.staker@)
        + ",\"strategy_id\":"@ + quoted(row.strategy_id@) + ",\"shares\":"@ + quoted(row.shares@)
        + ",\"block_number\":"@ + dec_i64(row.block_number as int) + ",\"block_timestamp\":"@
        + dec_i64(row.block_timestamp as int) + ",\"tx_hash\":"@ + quoted(row.tx_hash@)
        + ",\"id\":"@ + quoted(row.id@) + "}"@
}

/// Renders the `deposit` frame.
pub fn deposit_frame(token: &str, row: &DepositRow) -> (r: String)
    ensures
        r@ == frame_deposit(token@, *row),
{
    let mut s = String::new();
    s.append("{\"type\":\"deposit\",\"token\":");
    append_quoted(&mut s, token);
    s.append(",\"token_id\":");
    append_quoted(&mut s, row.token_id.as_str());
    s.append(",\"token_symbol\":");
    append_quoted(&mut s, row.token_symbol.as_str());
    s.append(",\"staker\":");
    append_quoted(&mut s, row.staker.as_str());
    s.append(",\"strategy_id\":");
    append_quoted(&mut s, row.strategy_id.as_str());
    s.append(",\"shares\":");
    append_quoted(&mut s, row.shares.as_str());
    s.append(",\"block_number\":");
    let bn = i64_to_dec(row.block_number);
    s.append(bn.as_str());
    s.append(",\"block_timestamp\":");
    let bt = i64_to_dec(row.block_timestamp);
    s.append(bt.as_str());
    s.append(",\"tx_hash\":");
    append_quoted(&mut s, row.tx_hash.as_str());
    s.append(",\"id\":");
    append_quoted(&mut s, row.id.as_str());
    s.append("}");
    proof {
        assert(s@ =~= frame_deposit(token@, *row));
    }
    s
}

/// The periodic `tick` frame: the current bucket of `token`.
pub open spec fn frame_tick(token: Seq<char>, b: BucketPoint) -> Seq<char> {
    "{\"type\":\"tick\",\"token\":"@ + quoted(token) + ",\"bucket\":"@ + bucket_json(b) + "}"@
}

/// Renders the `tick` frame.
pub fn tick_frame(token: &str, b: &BucketPoint) -> (r: String)
    ensures
        r@ == frame_tick(token@, *b),
{
    let mut s = String::new();
    s.append("{\"type\":\"tick\",\"token\":");
    append_quoted(&mut s, token);
    s.append(",\"bucket\":");
    append_bucket(&mut s, b);
    s.append("}");
    proof {
        assert(s@ =~= frame_tick(token@, *b));
    }
    s
}

/// The `hello` handshake frame.
pub open spec fn frame_hello(
    topic: Seq<char>,
    resolved_id: Seq<char>,
    subscribers: int,
    window_sec: int,
    bucket_sec: int,
) -> Seq<char> {
    "{\"type\":\"hello\",\"topic\":"@ + quoted(topic) + ",\"resolved_id\":"@ + quoted(resolved_id)
        + ",\"subscribers\":"@ + dec_digits(subscribers) + ",\"window_sec\":"@ + dec_i64(window_sec)
        + ",\"bucket_sec\":"@ + dec_i64(bucket_sec) + "}"@
}

/// Renders the `hello` frame.
pub fn hello_frame(
    topic: &str,
    resolved_id: &str,
    subscribers: usize,
    window_sec: i64,
    bucket_sec: i64,
) -> (r: String)
    ensures
        r@ == frame_hello(topic@, resolved_id@, subscribers as int, window_sec as int, bucket_sec as int),
{
    let mut s = String::new();
    s.append("{\"type\":\"hello\",\"topic\":");
    append_quoted(&mut s, topic);
    s.append(",\"resolved_id\":");
    append_quoted(&mut s, resolved_id);
    s.append(",\"subscribers\":");
    let n = u64_to_dec(subscribers as u64);
    s.append(n.as_str());
    s.append(",\"window_sec\":");
    let w = i64_to_dec(window_sec);
    s.append(w.as_str());
    s.append(",\"bucket_sec\":");
    let b = i64_to_dec(bucket_sec);
    s.append(b.as_str());
    s.append("}");
    proof {
        assert(s@ =~= frame_hello(
            topic@,
            resolved_id@,
            subscribers as int,
            window_sec as int,
            bucket_sec as int,
        ));
    }
    s
}

/// The `init` frame: the zero-filled series and the replay cursor.
pub open spec fn frame_init(
    series: Seq<BucketPoint>,
    cursor_ts: int,
    cursor_id: Seq<char>,
) -> Seq<char> {
    "{\"type\":\"init\",\"series\":"@ + series_json(series) + ",\"cursor\":{\"last_ts\":"@
        + dec_i64(cursor_ts) + ",\"last_id\":"@ + quoted(cursor_id) + "}}"@
}

/// Renders the `init` frame.
pub fn init_frame(series: &Vec<BucketPoint>, cursor_ts: i64, cursor_id: &str) -> (r: String)
    ensures
        r@ == frame_init(series@, cursor_ts as int, cursor_id@),
{
    let mut s = String::new();
    s.append("{\"type\":\"init\",\"series\":");
    let n = series.len();
    if n == 0 {
        s.append("[]");
    } else {
        s.append("[");
        append_bucket(&mut s, &series[0]);
        proof {
            assert(series@.take(1).len() == 1);
            assert(series@.take(1)[0] == series@[0]);
            lemma_series_json_shape(series@.take(1));
            assert(s@ =~= "{\"type\":\"init\",\"series\":"@ + series_json(
                series@.take(1),
            ).drop_last());
        }
        let mut i: usize = 1;
        while i < n
            invariant
                1 <= i <= n,
                n == series@.len(),
                s@ == "{\"type\":\"init\",\"series\":"@ + series_json(series@.take(i as int)).drop_last(),
            decreases n - i,
        {
            s.append(",");
            append_bucket(&mut s, &series[i]);
            proof {
                let pre = series@.take(i as int);
                let now = series@.take(i as int + 1);
                assert(now.drop_last() =~= pre);
                assert(now.last() == series@[i as int]);
                lemma_series_json_shape(now);
                assert(s@ =~= "{\"type\":\"init\",\"series\":"@ + series_json(
                    now,
                ).drop_last());
            }
            i = i + 1;
        }
        s.append("]");
        proof {
            assert(series@.take(n as int) =~= series@);
            lemma_series_json_shape(series@);
            assert(s@ =~= "{\"type\":\"init\",\"series\":"@ + series_json(
                series@,
            ).drop_last() + "]"@);
            assert(s@ =~= "{\"type\":\"init\",\"series\":"@ + series_json(series@));
        }
    }
    s.append(",\"cursor\":{\"last_ts\":");
    let t = i64_to_dec(cursor_ts);
    s.append(t.as_str());
    s.append(",\"last_id\":");
    append_quoted(&mut s, cursor_id);
    s.append("}}");
    proof {
        assert(s@ =~= frame_init(series@, cursor_ts as int, cursor_id@));
    }
    s
}

/// The `warning` frame a lagged consumer receives.
pub open spec fn frame_warning_lagged() -> Seq<char> {
    "{\"type\":\"warning\",\"reason\":\"lagged\"}"@
}

/// Renders the lag warning frame.
pub fn warning_lagged_frame() -> (r: String)
    ensures
        r@ == frame_warning_lagged(),
{
    let mut s = String::new();
    s.append("{\"type\":\"warning\",\"reason\":\"lagged\"}");
    proof {
        assert(s@ =~= frame_warning_lagged());
    }
    s
}

/// The `error` frame that closes a session.
pub open spec fn frame_error(reason: Seq<char>) -> Seq<char> {
    "{\"type\":\"error\",\"reason\":"@ + quoted(reason) + "}"@
}

/// Renders the `error` frame.
pub fn error_frame(reason: &str) -> (r: String)
    ensures
        r@ == frame_error(reason@),
{
    let mut s = String::new();
    s.append("{\"type\":\"error\",\"reason\":");
    append_quoted(&mut s, reason);
    s.append("}");
    proof {
        assert(s@ =~= frame_error(reason@));
    }
    s
}

/// A control frame for the upstream push source: `subscribe` or
/// `unsubscribe` with a list of ids.
pub open spec fn frame_control(kind: Seq<char>, ids: Seq<Seq<char>>) -> Seq<char> {
    "{\"type\":"@ + quoted(kind) + ",\"ids\":"@ + ids_json(ids) + "}"@
}

/// The JSON array of a list of ids.
pub open spec fn ids_json(ids: Seq<Seq<char>>) -> Seq<char>
    decreases ids.len(),
{
    if ids.len() == 0 {
        "[]"@
    } else if ids.len() == 1 {
        "["@ + quoted(ids[0]) + "]"@
    } else {
        ids_json(ids.drop_last()).drop_last() + ","@ + quoted(ids.last()) + "]"@
    }
}

/// Renders an upstream control frame.
pub fn control_frame(kind: &str, ids: &Vec<String>) -> (r: String)
    ensures
        r@ == frame_control(kind@, ids@.map_values(|s: String| s@)),
{
    let ghost idsv = ids@.map_values(|s: String| s@);
    let mut s = String::new();
    s.append("{\"type\":");
    append_quoted(&mut s, kind);
    s.append(",\"ids\":");
    let n = ids.len();
    if n == 0 {
        s.append("[]");
    } else {
        s.append("[");
        append_quoted(&mut s, ids[0].as_str());
        proof {
            assert(idsv.take(1).len() == 1);
            assert(idsv.take(1)[0] == idsv[0]);
            assert(idsv[0] == ids@[0]@);
            lemma_ids_json_shape(idsv.take(1));
            assert(s@ =~= "{\"type\":"@ + quoted(kind@) + ",\"ids\":"@ + ids_json(
                idsv.take(1),
            ).drop_last());
        }
        let mut i: usize = 1;
        while i < n
            invariant
                1 <= i <= n,
                n == ids@.len(),
                idsv == ids@.map_values(|s: String| s@),
                s@ == "{\"type\":"@ + quoted(kind@) + ",\"ids\":"@ + ids_json(
                    idsv.take(i as int),
                ).drop_last(),
            decreases n - i,
        {
            s.append(",");
            append_quoted(&mut s, ids[i].as_str());
            proof {
                let pre = idsv.take(i as int);
                let now = idsv.take(i as int + 1);
                assert(now.drop_last() =~= pre);
                assert(now.last() == idsv[i as int]);
                assert(idsv[i as int] == ids@[i as int]@);
                lemma_ids_json_shape(now);
                assert(s@ =~= "{\"type\":"@ + quoted(kind@) + ",\"ids\":"@ + ids_json(
                    now,
                ).drop_last());
            }
            i = i + 1;
        }
        s.append("]");
        proof {
            assert(idsv.take(n as int) =~= idsv);
            lemma_ids_json_shape(idsv);
            assert(s@ =~= "{\"type\":"@ + quoted(kind@) + ",\"ids\":"@ + ids_json(
                idsv,
            ).drop_last() + "]"@);
            assert(s@ =~= "{\"type\":"@ + quoted(kind@) + ",\"ids\":"@ + ids_json(idsv));
        }
    }
    s.append("}");
    proof {
        assert(s@ =~= frame_control(kind@, idsv));
    }
    s
}

/// A live trade tick frame of the exchange stream.
pub open spec fn frame_trade_tick(
    product_id: Seq<char>,
    price: Seq<char>,
    time: Seq<char>,
) -> Seq<char> {
    "{\"product_id\":"@ + quoted(product_id) + ",\"price\":"@ + quoted(price) + ",\"time\":"@
        + quoted(time) + "}"@
}

/// Renders a trade tick frame.
pub fn trade_tick_frame(product_id: &str, price: &str, time: &str) -> (r: String)
    ensures
        r@ == frame_trade_tick(product_id@, price@, time@),
{
    let mut s = String::new();
    s.append("{\"product_id\":");
    append_quoted(&mut s, product_id);
    s.append(",\"price\":");
    append_quoted(&mut s, price);
    s.append(",\"time\":");
    append_quoted(&mut s, time);
    s.append("}");
    proof {
        assert(s@ =~= frame_trade_tick(product_id@, price@, time@));
    }
    s
}


proof fn lemma_series_json_shape(series: Seq<BucketPoint>)
    requires
        series.len() >= 1,
    ensures
        series_json(series) == series_json(series).drop_last() + "]"@,
        series.len() == 1 ==> series_json(series).drop_last() =~= "["@ + bucket_json(series[0]),
        series.len() > 1 ==> series_json(series).drop_last() =~= series_json(
            series.drop_last(),
        ).drop_last() + ","@ + bucket_json(series.last()),
{
    reveal_strlit("]");
    assert("]"@ =~= seq![']']);
    if series.len() == 1 {
        let z = "["@ + bucket_json(series[0]);
        assert(series_json(series) == z + "]"@);
        assert((z + "]"@).drop_last() =~= z);
        assert(series_json(series).drop_last() + "]"@ =~= series_json(series));
    } else {
        let z = series_json(series.drop_last()).drop_last() + ","@ + bucket_json(series.last());
        assert(series_json(series) == z + "]"@);
        assert((z + "]"@).drop_last() =~= z);
        assert(series_json(series).drop_last() + "]"@ =~= series_json(series));
    }
}

proof fn lemma_ids_json_shape(ids: Seq<Seq<char>>)
    requires
        ids.len() >= 1,
    ensures
        ids_json(ids) == ids_json(ids).drop_last() + "]"@,
        ids.len() == 1 ==> ids_json(ids).drop_last() =~= "["@ + quoted(ids[0]),
        ids.len() > 1 ==> ids_json(ids).drop_last() =~= ids_json(ids.drop_last()).drop_last()
            + ","@ + quoted(ids.last()),
{
    reveal_strlit("]");
    assert("]"@ =~= seq![']']);
    if ids.len() == 1 {
        let z = "["@ + quoted(ids[0]);
        assert(ids_json(ids) == z + "]"@);
        assert((z + "]"@).drop_last() =~= z);
        assert(ids_json(ids).drop_last() + "]"@ =~= ids_json(ids));
    } else {
        let z = ids_json(ids.drop_last()).drop_last() + ","@ + quoted(ids.last());
        assert(ids_json(ids) == z + "]"@);
        assert((z + "]"@).drop_last() =~= z);
        assert(ids_json(ids).drop_last() + "]"@ =~= ids_json(ids));
    }
}

} // verus!
