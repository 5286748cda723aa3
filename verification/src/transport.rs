//! Transit arrivals: raw upstream records, arrival-time classification, and
//! the selection and display-stable ordering of arrival groups.

use vstd::prelude::*;
use vstd::relations::{sorted_by, strongly_connected, transitive};
use crate::order::{
    insert_by, lemma_insert_by_position, lemma_lex_lt_asym, lemma_lex_lt_connex,
    lemma_lex_lt_trans, lemma_sort_by_key_props, lex_lt, sort_by_key, str_lt,
};
use crate::screen::{
    minutes_until, spec_arrival_minutes, spec_minutes_until, ArrivalData, ArrivalDataView,
    ArrivalTime, TS_BOUND,
};

verus! {

/// One raw arrival of a trip at a stop, as the transit source reports it;
/// timestamps are milliseconds since the epoch.
#[derive(Clone, Debug)]
pub struct StopArrival {
    pub trip_id: String,
    pub stop_sequence: u32,
    pub start_timestamp: i64,
    pub arrival_timestamp: i64,
    pub updated_arrival_timestamp: Option<i64>,
}

/// The route and headsign a group of arrivals belongs to.
#[derive(Clone, Debug)]
pub struct RouteTrip {
    pub route_id: String,
    pub route_short_name: String,
    pub route_long_name: String,
    pub route_type: i32,
    pub route_color: String,
    pub route_text_color: String,
    pub stop_headsign: String,
}

/// The arrivals of one route and headsign at a stop.
#[derive(Clone, Debug)]
pub struct StopRouteTripArrival {
    pub route_trip: RouteTrip,
    pub arrivals: Vec<StopArrival>,
}

/// The payload of one per-stop arrivals query.
#[derive(Clone, Debug)]
pub struct StopArrivalsResponse {
    pub stop_arrivals: Vec<StopRouteTripArrival>,
}

/// The groups contributed by each stop, in stop order: an unknown stop
/// contributes nothing, a known one its reported groups.
pub open spec fn spec_merge(rs: Seq<Option<StopArrivalsResponse>>) -> Seq<StopRouteTripArrival>
    decreases rs.len(),
{
    if rs.len() == 0 {
        Seq::empty()
    } else {
        spec_merge(rs.drop_last()) + (match rs.last() {
            Some(resp) => resp.stop_arrivals@,
            None => Seq::empty(),
        })
    }
}

/// Concatenate the per-stop results in input order; a stop code that
/// resolved to no known stop contributes nothing and is not an error.
pub fn merge_stop_arrivals(results: Vec<Option<StopArrivalsResponse>>) -> (r: Vec<
    StopRouteTripArrival,
>)
    ensures
        r@ == spec_merge(results@),
{
    let ghost orig = results@;
    let mut results = results;
    let mut r: Vec<StopRouteTripArrival> = Vec::new();
    while results.len() > 0
        invariant
            results@ =~= orig.skip(orig.len() - results@.len()),
            results@.len() <= orig.len(),
            r@ == spec_merge(orig.take(orig.len() - results@.len())),
        decreases results@.len(),
    {
        let ghost k = orig.len() - results@.len();
        let head = results.remove(0);
        proof {
            assert(head == orig[k]);
            assert(results@ =~= orig.skip(k + 1));
            assert(orig.take(k + 1).drop_last() =~= orig.take(k));
            assert(orig.take(k + 1).last() == orig[k]);
        }
        match head {
            Some(mut resp) => {
                let ghost pre = r@;
                r.append(&mut resp.stop_arrivals);
                proof {
                    assert(r@ =~= spec_merge(orig.take(k + 1)));
                }
            },
            None => {
                proof {
                    assert(r@ + Seq::<StopRouteTripArrival>::empty() =~= r@);
                }
            },
        }
    }
    proof {
        assert(orig.take(orig.len() as int) =~= orig);
    }
    r
}

/// The timestamp an arrival is judged by: the live-updated one when present,
/// otherwise the scheduled one.
pub open spec fn spec_effective_ts(a: StopArrival) -> i64 {
    match a.updated_arrival_timestamp {
        Some(u) => u,
        None => a.arrival_timestamp,
    }
}

/// Classification of one arrival timestamp relative to `now_ms`: under one
/// minute away is `Now`, under one hundred minutes is `Minutes`, and anything
/// further is the absolute time.
pub open spec fn spec_classify(ts_ms: i64, now_ms: i64) -> ArrivalTime {
    let m = spec_minutes_until(ts_ms as int, now_ms as int);
    if m < 1 {
        ArrivalTime::Now
    } else if m < 100 {
        ArrivalTime::Minutes(m as u32)
    } else {
        ArrivalTime::Time(ts_ms)
    }
}

/// Classify one arrival timestamp relative to `now_ms`.
pub fn classify_arrival(ts_ms: i64, now_ms: i64) -> (r: ArrivalTime)
    requires
        -TS_BOUND <= ts_ms <= TS_BOUND,
        -TS_BOUND <= now_ms <= TS_BOUND,
    ensures
        r == spec_classify(ts_ms, now_ms),
{
    let m = minutes_until(ts_ms, now_ms);
    if m < 1 {
        ArrivalTime::Now
    } else if m < 100 {
        ArrivalTime::Minutes(m as u32)
    } else {
        ArrivalTime::Time(ts_ms)
    }
}

/// Whether a classified time is near-term: due now or in a counted number of
/// minutes.
pub open spec fn spec_near(t: ArrivalTime) -> bool {
    t is Now || t is Minutes
}

/// Keep classified times while they are near-term, and include the first
/// far-future one, then stop.
pub open spec fn spec_take_while_incl(s: Seq<ArrivalTime>) -> Seq<ArrivalTime>
    decreases s.len(),
{
    if s.len() == 0 {
        s
    } else if spec_near(s[0]) {
        seq![s[0]] + spec_take_while_incl(s.drop_first())
    } else {
        seq![s[0]]
    }
}

proof fn lemma_twi_all_near(s: Seq<ArrivalTime>)
    requires
        forall|j: int| 0 <= j < s.len() ==> spec_near(#[trigger] s[j]),
    ensures
        spec_take_while_incl(s) =~= s,
    decreases s.len(),
{
    if s.len() == 0 {
    } else {
        lemma_twi_all_near(s.drop_first());
        assert(seq![s[0]] + s.drop_first() =~= s);
    }
}

proof fn lemma_twi_position(s: Seq<ArrivalTime>, i: int)
    requires
        0 <= i < s.len(),
        forall|j: int| 0 <= j < i ==> spec_near(#[trigger] s[j]),
        !spec_near(s[i]),
    ensures
        spec_take_while_incl(s) =~= s.take(i + 1),
    decreases i,
{
    if i == 0 {
        assert(spec_take_while_incl(s) =~= s.take(1));
    } else {
        lemma_twi_position(s.drop_first(), i - 1);
        assert(s.drop_first().take(i) =~= s.take(i + 1).drop_first());
        assert(seq![s[0]] + s.take(i + 1).drop_first() =~= s.take(i + 1));
    }
}

/// The first at most two arrivals of a group, classified.
pub open spec fn spec_classified(arrivals: Seq<StopArrival>, now_ms: i64) -> Seq<ArrivalTime> {
    Seq::new(
        if arrivals.len() < 2 {
            arrivals.len()
        } else {
            2
        },
        |i: int| spec_classify(spec_effective_ts(arrivals[i]), now_ms),
    )
}

/// The displayed times of a group: its first at most two arrivals,
/// classified, kept while near-term and cut just after the first far-future
/// one.
pub open spec fn spec_arrival_times(arrivals: Seq<StopArrival>, now_ms: i64) -> Seq<ArrivalTime> {
    spec_take_while_incl(spec_classified(arrivals, now_ms))
}

/// Classify the first at most two arrivals of a group and truncate at the
/// first far-future time, inclusively.
pub fn arrival_times_for(arrivals: &Vec<StopArrival>, now_ms: i64) -> (r: Vec<ArrivalTime>)
    requires
        -TS_BOUND <= now_ms <= TS_BOUND,
        forall|j: int|
            0 <= j < arrivals@.len() ==> -TS_BOUND <= spec_effective_ts(#[trigger] arrivals@[j])
                <= TS_BOUND,
    ensures
        r@ == spec_arrival_times(arrivals@, now_ms),
        arrivals@.len() > 0 ==> r@.len() > 0,
        forall|j: int|
            0 <= j < r@.len() ==> ((#[trigger] r@[j]) matches ArrivalTime::Time(ts) ==> -TS_BOUND
                <= ts <= TS_BOUND),
{
    let ghost cls = spec_classified(arrivals@, now_ms);
    let n = if arrivals.len() < 2 {
        arrivals.len()
    } else {
        2
    };
    let mut out: Vec<ArrivalTime> = Vec::new();
    let mut i: usize = 0;
    let mut stop = false;
    while i < n && !stop
        invariant
            -TS_BOUND <= now_ms <= TS_BOUND,
            forall|j: int|
                0 <= j < arrivals@.len() ==> -TS_BOUND <= spec_effective_ts(
                    #[trigger] arrivals@[j],
                ) <= TS_BOUND,
            cls == spec_classified(arrivals@, now_ms),
            n == cls.len(),
            n <= arrivals@.len(),
            0 <= i <= n,
            out@.len() <= cls.len(),
            forall|j: int| 0 <= j < out@.len() ==> #[trigger] out@[j] == cls[j],
            !stop ==> out@ == cls.take(i as int) && (forall|j: int|
                0 <= j < i ==> spec_near(#[trigger] cls[j])),
            stop ==> out@ == spec_take_while_incl(cls) && out@.len() > 0,
        decreases n - i,
    {
        let a = &arrivals[i];
        let ts = match a.updated_arrival_timestamp {
            Some(u) => u,
            None => a.arrival_timestamp,
        };
        let t = classify_arrival(ts, now_ms);
        out.push(t);
        i = i + 1;
        if matches!(t, ArrivalTime::Now) || matches!(t, ArrivalTime::Minutes(_)) {
            proof {
                assert(out@ =~= cls.take(i as int));
            }
        } else {
            stop = true;
            proof {
                lemma_twi_position(cls, i as int - 1);
                assert(out@ =~= cls.take(i as int));
            }
        }
    }
    proof {
        if !stop {
            lemma_twi_all_near(cls);
            assert(out@ =~= cls);
        }
        assert forall|j: int|
            0 <= j < out@.len() implies ((#[trigger] out@[j]) matches ArrivalTime::Time(ts)
            ==> -TS_BOUND <= ts <= TS_BOUND) by {
            assert(out@[j] == cls[j]);
            assert(cls[j] == spec_classify(spec_effective_ts(arrivals@[j]), now_ms));
        }
    }
    out
}

/// The smallest minute distance among a group's displayed times.
pub open spec fn spec_min_minutes_seq(ts: Seq<ArrivalTime>, now_ms: i64) -> u32
    decreases ts.len(),
{
    if ts.len() == 0 {
        0u32
    } else if ts.len() == 1 {
        spec_arrival_minutes(ts[0], now_ms as int)
    } else {
        let p = spec_min_minutes_seq(ts.drop_last(), now_ms);
        let l = spec_arrival_minutes(ts.last(), now_ms as int);
        if l < p {
            l
        } else {
            p
        }
    }
}

/// The smallest minute distance among a group's displayed times.
pub fn min_arrival_minutes(times: &Vec<ArrivalTime>, now_ms: i64) -> (r: u32)
    requires
        times@.len() > 0,
        -TS_BOUND <= now_ms <= TS_BOUND,
        forall|j: int|
            0 <= j < times@.len() ==> ((#[trigger] times@[j]) matches ArrivalTime::Time(ts)
                ==> -TS_BOUND <= ts <= TS_BOUND),
    ensures
        r == spec_min_minutes_seq(times@, now_ms),
{
    let mut acc = times[0].minutes(now_ms);
    proof {
        assert(times@.take(1) =~= seq![times@[0]]);
        assert(spec_min_minutes_seq(times@.take(1), now_ms) == spec_arrival_minutes(
            times@[0],
            now_ms as int,
        ));
    }
    let mut j: usize = 1;
    while j < times.len()
        invariant
            -TS_BOUND <= now_ms <= TS_BOUND,
            forall|m: int|
                0 <= m < times@.len() ==> ((#[trigger] times@[m]) matches ArrivalTime::Time(ts)
                    ==> -TS_BOUND <= ts <= TS_BOUND),
            1 <= j <= times@.len(),
            acc == spec_min_minutes_seq(times@.take(j as int), now_ms),
        decreases times@.len() - j,
    {
        let m = times[j].minutes(now_ms);
        if m < acc {
            acc = m;
        }
        proof {
            assert(times@.take(j as int + 1).drop_last() =~= times@.take(j as int));
            assert(times@.take(j as int + 1).last() == times@[j as int]);
        }
        j = j + 1;
    }
    proof {
        assert(times@.take(times@.len() as int) =~= times@);
    }
    acc
}

/// A group tagged with its minimum minute distance and its position in the
/// group list, so that sorting by distance keeps the original order of ties.
pub struct RankIx {
    pub mins: u32,
    pub idx: usize,
    pub data: ArrivalData,
}

/// The mathematical value of a `RankIx`.
pub struct RankIxView {
    pub mins: u32,
    pub idx: int,
    pub data: ArrivalDataView,
}

impl View for RankIx {
    type V = RankIxView;

    open spec fn view(&self) -> RankIxView {
        RankIxView { mins: self.mins, idx: self.idx as int, data: self.data@ }
    }
}

/// The views of a sequence of ranked groups.
pub open spec fn rviews(s: Seq<RankIx>) -> Seq<RankIxView> {
    Seq::new(s.len(), |i: int| s[i]@)
}

/// Groups ordered by minimum arrival distance, ties by original position.
pub open spec fn rank_le() -> spec_fn(RankIxView, RankIxView) -> bool {
    |a: RankIxView, b: RankIxView| a.mins < b.mins || (a.mins == b.mins && a.idx <= b.idx)
}

fn rank_le_exec(a: &RankIx, b: &RankIx) -> (r: bool)
    ensures
        r == rank_le()(a@, b@),
{
    a.mins < b.mins || (a.mins == b.mins && a.idx <= b.idx)
}

fn rank_insert(out: &mut Vec<RankIx>, x: RankIx)
    ensures
        rviews(final(out)@) == insert_by(rank_le(), rviews(old(out)@), x@),
{
    let ghost orig = rviews(out@);
    let mut k = out.len();
    while k > 0 && !rank_le_exec(&out[k - 1], &x)
        invariant
            0 <= k <= out@.len(),
            out@.len() == orig.len(),
            rviews(out@) == orig,
            forall|m: int| k <= m < orig.len() ==> !rank_le()(#[trigger] orig[m], x@),
        decreases k,
    {
        proof {
            assert(orig[k - 1] == out@[k - 1]@);
        }
        k = k - 1;
    }
    out.insert(k, x);
    proof {
        lemma_insert_by_position(rank_le(), orig, x@, k as int);
        assert(rviews(out@) =~= orig.insert(k as int, x@));
    }
}

/// Sort ranked groups by minimum arrival distance, keeping the original
/// order of equal distances.
fn sort_ranked(v: Vec<RankIx>) -> (r: Vec<RankIx>)
    ensures
        rviews(r@) == sort_by_key(rank_le(), rviews(v@)),
{
    let ghost orig = rviews(v@);
    let mut v = v;
    let mut out: Vec<RankIx> = Vec::new();
    while v.len() > 0
        invariant
            rviews(v@) =~= orig.skip(orig.len() - v@.len()),
            v@.len() <= orig.len(),
            rviews(out@) == sort_by_key(rank_le(), orig.take(orig.len() - v@.len())),
        decreases v@.len(),
    {
        let ghost k = orig.len() - v@.len();
        let ghost prev = rviews(v@);
        let x = v.remove(0);
        proof {
            assert(x@ == prev[0]);
            assert(prev[0] == orig[k]);
            assert forall|j: int| 0 <= j < v@.len() implies rviews(v@)[j] == orig[k + 1 + j] by {
                assert(rviews(v@)[j] == v@[j]@);
                assert(prev[j + 1] == orig.skip(k)[j + 1]);
            }
            assert(rviews(v@) =~= orig.skip(k + 1));
            assert(orig.take(k + 1).drop_last() =~= orig.take(k));
            assert(orig.take(k + 1).last() == orig[k]);
        }
        rank_insert(&mut out, x);
    }
    proof {
        assert(orig.take(orig.len() as int) =~= orig);
    }
    out
}

/// A retained group tagged with its bucket (more than an hour away or not)
/// and its position after the distance sort.
pub struct DispIx {
    pub far: bool,
    pub idx: usize,
    pub data: ArrivalData,
}

/// The mathematical value of a `DispIx`.
pub struct DispIxView {
    pub far: bool,
    pub idx: int,
    pub data: ArrivalDataView,
}

impl View for DispIx {
    type V = DispIxView;

    open spec fn view(&self) -> DispIxView {
        DispIxView { far: self.far, idx: self.idx as int, data: self.data@ }
    }
}

/// The views of a sequence of display-ordered groups.
pub open spec fn dviews(s: Seq<DispIx>) -> Seq<DispIxView> {
    Seq::new(s.len(), |i: int| s[i]@)
}

/// Display order: near-term groups before far-term ones, then route name,
/// then headsign, ties by position after the distance sort.
pub open spec fn disp_le() -> spec_fn(DispIxView, DispIxView) -> bool {
    |a: DispIxView, b: DispIxView|
        if a.far != b.far {
            !a.far
        } else if a.data.route != b.data.route {
            lex_lt(a.data.route, b.data.route)
        } else if a.data.headsign != b.data.headsign {
            lex_lt(a.data.headsign, b.data.headsign)
        } else {
            a.idx <= b.idx
        }
}

fn disp_le_exec(a: &DispIx, b: &DispIx) -> (r: bool)
    ensures
        r == disp_le()(a@, b@),
{
    if a.far != b.far {
        !a.far
    } else if !(a.data.route == b.data.route) {
        str_lt(a.data.route.as_str(), b.data.route.as_str())
    } else if !(a.data.headsign == b.data.headsign) {
        str_lt(a.data.headsign.as_str(), b.data.headsign.as_str())
    } else {
        a.idx <= b.idx
    }
}

fn disp_insert(out: &mut Vec<DispIx>, x: DispIx)
    ensures
        dviews(final(out)@) == insert_by(disp_le(), dviews(old(out)@), x@),
{
    let ghost orig = dviews(out@);
    let mut k = out.len();
    while k > 0 && !disp_le_exec(&out[k - 1], &x)
        invariant
            0 <= k <= out@.len(),
            out@.len() == orig.len(),
            dviews(out@) == orig,
            forall|m: int| k <= m < orig.len() ==> !disp_le()(#[trigger] orig[m], x@),
        decreases k,
    {
        proof {
            assert(orig[k - 1] == out@[k - 1]@);
        }
        k = k - 1;
    }
    out.insert(k, x);
    proof {
        lemma_insert_by_position(disp_le(), orig, x@, k as int);
        assert(dviews(out@) =~= orig.insert(k as int, x@));
    }
}

/// Sort the retained groups into display order.
fn sort_disp(v: Vec<DispIx>) -> (r: Vec<DispIx>)
    ensures
        dviews(r@) == sort_by_key(disp_le(), dviews(v@)),
{
    let ghost orig = dviews(v@);
    let mut v = v;
    let mut out: Vec<DispIx> = Vec::new();
    while v.len() > 0
        invariant
            dviews(v@) =~= orig.skip(orig.len() - v@.len()),
            v@.len() <= orig.len(),
            dviews(out@) == sort_by_key(disp_le(), orig.take(orig.len() - v@.len())),
        decreases v@.len(),
    {
        let ghost k = orig.len() - v@.len();
        let ghost prev = dviews(v@);
        let x = v.remove(0);
        proof {
            assert(x@ == prev[0]);
            assert(prev[0] == orig[k]);
            assert forall|j: int| 0 <= j < v@.len() implies dviews(v@)[j] == orig[k + 1 + j] by {
                assert(dviews(v@)[j] == v@[j]@);
                assert(prev[j + 1] == orig.skip(k)[j + 1]);
            }
            assert(dviews(v@) =~= orig.skip(k + 1));
            assert(orig.take(k + 1).drop_last() =~= orig.take(k));
            assert(orig.take(k + 1).last() == orig[k]);
        }
        disp_insert(&mut out, x);
    }
    proof {
        assert(orig.take(orig.len() as int) =~= orig);
    }
    out
}

/// The views of a sequence of arrival groups.
pub open spec fn aviews(s: Seq<ArrivalData>) -> Seq<ArrivalDataView> {
    Seq::new(s.len(), |i: int| s[i]@)
}

/// The displayed group of one raw record: its route short name, its
/// headsign, and its classified and truncated times.
pub open spec fn spec_group_view(g: StopRouteTripArrival, now_ms: i64) -> ArrivalDataView {
    ArrivalDataView {
        route: g.route_trip.route_short_name@,
        headsign: g.route_trip.stop_headsign@,
        arrival_times: spec_arrival_times(g.arrivals@, now_ms),
    }
}

/// The displayed groups of the raw records, in order, groups with no raw
/// arrivals dropped.
pub open spec fn spec_groups(s: Seq<StopRouteTripArrival>, now_ms: i64) -> Seq<ArrivalDataView>
    decreases s.len(),
{
    if s.len() == 0 {
        Seq::empty()
    } else {
        spec_groups(s.drop_last(), now_ms) + (if s.last().arrivals@.len() > 0 {
            seq![spec_group_view(s.last(), now_ms)]
        } else {
            Seq::empty()
        })
    }
}

/// Each group tagged with its minimum arrival distance and its position.
pub open spec fn spec_ranked(groups: Seq<ArrivalDataView>, now_ms: i64) -> Seq<RankIxView> {
    Seq::new(
        groups.len(),
        |i: int|
            RankIxView {
                mins: spec_min_minutes_seq(groups[i].arrival_times, now_ms),
                idx: i,
                data: groups[i],
            },
    )
}

/// The first at most four groups of the distance-sorted list.
pub open spec fn spec_top4(sorted: Seq<RankIxView>) -> Seq<RankIxView> {
    sorted.take(
        if sorted.len() < 4 {
            sorted.len() as int
        } else {
            4
        },
    )
}

/// The retained groups tagged with their hour bucket and their position
/// after the distance sort.
pub open spec fn spec_disp(top: Seq<RankIxView>) -> Seq<DispIxView> {
    Seq::new(
        top.len(),
        |i: int| DispIxView { far: top[i].mins > 60, idx: i, data: top[i].data },
    )
}

/// The whole aggregation: group, classify, keep the four groups with the
/// smallest minimum distance (ties by input order), and re-sort those for
/// display stability.
pub open spec fn spec_gather_arrivals(s: Seq<StopRouteTripArrival>, now_ms: i64) -> Seq<
    ArrivalDataView,
> {
    let groups = spec_groups(s, now_ms);
    let sorted = sort_by_key(rank_le(), spec_ranked(groups, now_ms));
    let disp = sort_by_key(disp_le(), spec_disp(spec_top4(sorted)));
    Seq::new(disp.len(), |i: int| disp[i].data)
}

/// Aggregate raw per-stop records into the displayed arrival list: group by
/// route and headsign as reported, classify up to two times per group, keep
/// the four groups arriving soonest, and order them for display stability.
pub fn gather_arrivals(arrivals: Vec<StopRouteTripArrival>, now_ms: i64) -> (r: Vec<ArrivalData>)
    requires
        -TS_BOUND <= now_ms <= TS_BOUND,
        forall|i: int, j: int|
            0 <= i < arrivals@.len() && 0 <= j < (#[trigger] arrivals@[i]).arrivals@.len()
                ==> -TS_BOUND <= spec_effective_ts(#[trigger] arrivals@[i].arrivals@[j])
                <= TS_BOUND,
    ensures
        aviews(r@) == spec_gather_arrivals(arrivals@, now_ms),
        r@.len() <= 4,
{
    let ghost orig = arrivals@;
    let mut arrivals = arrivals;
    let mut ranked: Vec<RankIx> = Vec::new();
    while arrivals.len() > 0
        invariant
            -TS_BOUND <= now_ms <= TS_BOUND,
            forall|i: int, j: int|
                0 <= i < orig.len() && 0 <= j < (#[trigger] orig[i]).arrivals@.len() ==> -TS_BOUND
                    <= spec_effective_ts(#[trigger] orig[i].arrivals@[j]) <= TS_BOUND,
            arrivals@ =~= orig.skip(orig.len() - arrivals@.len()),
            arrivals@.len() <= orig.len(),
            ranked@.len() == spec_groups(orig.take(orig.len() - arrivals@.len()), now_ms).len(),
            rviews(ranked@) == spec_ranked(
                spec_groups(orig.take(orig.len() - arrivals@.len()), now_ms),
                now_ms,
            ),
        decreases arrivals@.len(),
    {
        let ghost k = orig.len() - arrivals@.len();
        let ghost prev = arrivals@;
        let ghost groups_pre = spec_groups(orig.take(k), now_ms);
        let g = arrivals.remove(0);
        proof {
            assert(g == prev[0]);
            assert(prev[0] == orig.skip(k)[0]);
            assert(g == orig[k]);
            assert(arrivals@ =~= orig.skip(k + 1));
            assert(orig.take(k + 1).drop_last() =~= orig.take(k));
            assert(orig.take(k + 1).last() == orig[k]);
        }
        if g.arrivals.len() > 0 {
            proof {
                assert forall|j: int|
                    0 <= j < g.arrivals@.len() implies -TS_BOUND <= spec_effective_ts(
                    #[trigger] g.arrivals@[j],
                ) <= TS_BOUND by {
                    assert(orig[k].arrivals@[j] == g.arrivals@[j]);
                }
            }
            let times = arrival_times_for(&g.arrivals, now_ms);
            let mins = min_arrival_minutes(&times, now_ms);
            let pos = ranked.len();
            let ghost pre_rv = rviews(ranked@);
            ranked.push(
                RankIx {
                    mins,
                    idx: pos,
                    data: ArrivalData {
                        route: g.route_trip.route_short_name,
                        headsign: g.route_trip.stop_headsign,
                        arrival_times: times,
                    },
                },
            );
            proof {
                let groups_post = spec_groups(orig.take(k + 1), now_ms);
                assert(groups_post =~= groups_pre + seq![spec_group_view(orig[k], now_ms)]);
                assert(ranked@[pos as int]@ == spec_ranked(groups_post, now_ms)[pos as int]);
                assert forall|j: int| 0 <= j < pos implies rviews(ranked@)[j] == spec_ranked(
                    groups_post,
                    now_ms,
                )[j] by {
                    assert(rviews(ranked@)[j] == ranked@[j]@);
                    assert(pre_rv[j] == ranked@[j]@);
                    assert(pre_rv[j] == spec_ranked(groups_pre, now_ms)[j]);
                    assert(groups_post[j] == groups_pre[j]);
                }
                assert(rviews(ranked@) =~= spec_ranked(groups_post, now_ms));
            }
        } else {
            proof {
                let groups_post = spec_groups(orig.take(k + 1), now_ms);
                assert(groups_post =~= groups_pre);
            }
        }
    }
    proof {
        assert(orig.take(orig.len() as int) =~= orig);
    }

    let sorted = sort_ranked(ranked);
    let ghost sorted_views = sort_by_key(rank_le(), spec_ranked(spec_groups(orig, now_ms), now_ms));

    let mut top = sorted;
    let ghost full = rviews(top@);
    while top.len() > 4
        invariant
            top@.len() <= full.len(),
            4 <= top@.len() || top@.len() == full.len(),
            rviews(top@) =~= full.take(top@.len() as int),
        decreases top@.len(),
    {
        let ghost pre = top@;
        top.pop();
        proof {
            assert(rviews(top@) =~= rviews(pre).take(pre.len() - 1));
            assert(rviews(pre).take(pre.len() - 1) =~= full.take(pre.len() - 1));
        }
    }
    proof {
        assert(full == sorted_views);
        assert(full.take(full.len() as int) =~= full);
        assert(rviews(top@) =~= spec_top4(sorted_views));
    }

    let ghost top_views = rviews(top@);
    let mut top = top;
    let mut disp: Vec<DispIx> = Vec::new();
    while top.len() > 0
        invariant
            -TS_BOUND <= now_ms <= TS_BOUND,
            rviews(top@) =~= top_views.skip(top_views.len() - top@.len()),
            top@.len() <= top_views.len(),
            disp@.len() == top_views.len() - top@.len(),
            dviews(disp@) == spec_disp(top_views).take(top_views.len() - top@.len()),
        decreases top@.len(),
    {
        let ghost k = top_views.len() - top@.len();
        let ghost prev = rviews(top@);
        let x = top.remove(0);
        proof {
            assert(x@ == prev[0]);
            assert(prev[0] == top_views[k]);
            assert forall|j: int| 0 <= j < top@.len() implies rviews(top@)[j] == top_views[k + 1
                + j] by {
                assert(rviews(top@)[j] == top@[j]@);
                assert(prev[j + 1] == top_views.skip(k)[j + 1]);
            }
            assert(rviews(top@) =~= top_views.skip(k + 1));
        }
        let pos = disp.len();
        disp.push(DispIx { far: x.mins > 60, idx: pos, data: x.data });
        proof {
            assert(disp@[pos as int]@ == spec_disp(top_views)[k]);
            assert(dviews(disp@) =~= spec_disp(top_views).take(k + 1));
        }
    }
    proof {
        assert(spec_disp(top_views).take(top_views.len() as int) =~= spec_disp(top_views));
        assert(dviews(disp@) =~= spec_disp(spec_top4(sorted_views)));
    }

    let disp_sorted = sort_disp(disp);
    let ghost disp_views = sort_by_key(disp_le(), spec_disp(spec_top4(sorted_views)));

    let ghost ds = dviews(disp_sorted@);
    let mut disp_sorted = disp_sorted;
    let mut r: Vec<ArrivalData> = Vec::new();
    while disp_sorted.len() > 0
        invariant
            dviews(disp_sorted@) =~= ds.skip(ds.len() - disp_sorted@.len()),
            disp_sorted@.len() <= ds.len(),
            r@.len() == ds.len() - disp_sorted@.len(),
            forall|j: int| 0 <= j < r@.len() ==> (#[trigger] r@[j])@ == ds[j].data,
        decreases disp_sorted@.len(),
    {
        let ghost k = ds.len() - disp_sorted@.len();
        let ghost prev = dviews(disp_sorted@);
        let x = disp_sorted.remove(0);
        proof {
            assert(x@ == prev[0]);
            assert(prev[0] == ds[k]);
            assert forall|j: int| 0 <= j < disp_sorted@.len() implies dviews(disp_sorted@)[j]
                == ds[k + 1 + j] by {
                assert(dviews(disp_sorted@)[j] == disp_sorted@[j]@);
                assert(prev[j + 1] == ds.skip(k)[j + 1]);
            }
            assert(dviews(disp_sorted@) =~= ds.skip(k + 1));
        }
        r.push(x.data);
    }
    proof {
        assert(ds == disp_views);
        assert(aviews(r@) =~= spec_gather_arrivals(orig, now_ms));
        lemma_disp_le_total();
        lemma_sort_by_key_props(disp_le(), spec_disp(spec_top4(sorted_views)));
    }
    r
}

/// The distance order is a total preorder.
pub proof fn lemma_rank_le_total()
    ensures
        transitive(rank_le()),
        strongly_connected(rank_le()),
{
    let leq = rank_le();
    assert forall|x: RankIxView, y: RankIxView| #[trigger] leq(x, y) || #[trigger] leq(y, x) by {}
    assert forall|x: RankIxView, y: RankIxView, z: RankIxView|
        #[trigger] leq(x, y) && #[trigger] leq(y, z) implies leq(x, z) by {}
}

/// The display order is a total preorder.
pub proof fn lemma_disp_le_total()
    ensures
        transitive(disp_le()),
        strongly_connected(disp_le()),
{
    let leq = disp_le();
    assert forall|x: DispIxView, y: DispIxView| #[trigger] leq(x, y) || #[trigger] leq(y, x) by {
        lemma_lex_lt_connex(x.data.route, y.data.route);
        lemma_lex_lt_connex(x.data.headsign, y.data.headsign);
    }
    assert forall|x: DispIxView, y: DispIxView, z: DispIxView|
        #[trigger] leq(x, y) && #[trigger] leq(y, z) implies leq(x, z) by {
        lemma_lex_lt_asym(x.data.route, y.data.route);
        lemma_lex_lt_asym(y.data.route, z.data.route);
        if lex_lt(x.data.route, y.data.route) && lex_lt(y.data.route, z.data.route) {
            lemma_lex_lt_trans(x.data.route, y.data.route, z.data.route);
        }
        lemma_lex_lt_asym(x.data.headsign, y.data.headsign);
        lemma_lex_lt_asym(y.data.headsign, z.data.headsign);
        if lex_lt(x.data.headsign, y.data.headsign) && lex_lt(y.data.headsign, z.data.headsign) {
            lemma_lex_lt_trans(x.data.headsign, y.data.headsign, z.data.headsign);
        }
    }
}

/// Arrival selection keeps at most four groups, and the groups it keeps are
/// those with the smallest minimum arrival-minutes: every kept group's
/// distance is at or below every dropped group's distance, ties broken by
/// input order.
pub proof fn lemma_selection_keeps_closest(s: Seq<StopRouteTripArrival>, now_ms: i64)
    ensures
        spec_gather_arrivals(s, now_ms).len() == spec_top4(
            sort_by_key(rank_le(), spec_ranked(spec_groups(s, now_ms), now_ms)),
        ).len(),
        spec_gather_arrivals(s, now_ms).len() == if spec_groups(s, now_ms).len() < 4 {
            spec_groups(s, now_ms).len() as int
        } else {
            4
        },
        ({
            let sorted = sort_by_key(rank_le(), spec_ranked(spec_groups(s, now_ms), now_ms));
            forall|i: int, j: int|
                0 <= i < spec_top4(sorted).len() && spec_top4(sorted).len() <= j < sorted.len()
                    ==> (#[trigger] sorted[i]).mins <= (#[trigger] sorted[j]).mins
        }),
{
    let groups = spec_groups(s, now_ms);
    let ranked = spec_ranked(groups, now_ms);
    let sorted = sort_by_key(rank_le(), ranked);
    lemma_rank_le_total();
    lemma_sort_by_key_props(rank_le(), ranked);
    let top = spec_top4(sorted);
    let disp = spec_disp(top);
    lemma_disp_le_total();
    lemma_sort_by_key_props(disp_le(), disp);
    assert forall|i: int, j: int|
        0 <= i < top.len() && top.len() <= j < sorted.len() implies (#[trigger] sorted[i]).mins
        <= (#[trigger] sorted[j]).mins by {
        assert(rank_le()(sorted[i], sorted[j]));
    }
}

/// The final displayed order sorts the retained groups by bucket (near-term
/// before far-term), then route name, then headsign, ties by the position the
/// distance sort gave them; it is the display sort of the retained groups.
pub proof fn lemma_display_ordering(s: Seq<StopRouteTripArrival>, now_ms: i64)
    ensures
        ({
            let disp = sort_by_key(
                disp_le(),
                spec_disp(spec_top4(sort_by_key(rank_le(), spec_ranked(spec_groups(s, now_ms), now_ms)))),
            );
            &&& sorted_by(disp, disp_le())
            &&& spec_gather_arrivals(s, now_ms) == Seq::new(disp.len(), |i: int| disp[i].data)
        }),
{
    let disp0 = spec_disp(spec_top4(sort_by_key(rank_le(), spec_ranked(spec_groups(s, now_ms), now_ms))));
    lemma_disp_le_total();
    lemma_sort_by_key_props(disp_le(), disp0);
}

/// Display order as visible on the entries themselves: the bucket is
/// recomputed from an entry's own times, and entries in the same bucket
/// compare by route name, then headsign; entries equal on all three keys
/// satisfy the order either way round.
pub open spec fn spec_disp_data_le(a: ArrivalDataView, b: ArrivalDataView, now_ms: i64) -> bool {
    let af = spec_min_minutes_seq(a.arrival_times, now_ms) > 60;
    let bf = spec_min_minutes_seq(b.arrival_times, now_ms) > 60;
    if af != bf {
        !af
    } else if a.route != b.route {
        lex_lt(a.route, b.route)
    } else if a.headsign != b.headsign {
        lex_lt(a.headsign, b.headsign)
    } else {
        true
    }
}

/// The displayed entries come out in display order: any earlier entry
/// compares at-or-below any later one by bucket, then route name, then
/// headsign, where the bucket is the entry's own minimum distance against
/// the hour mark.
pub proof fn lemma_result_ordering(s: Seq<StopRouteTripArrival>, now_ms: i64)
    ensures
        ({
            let out = spec_gather_arrivals(s, now_ms);
            forall|i: int, j: int|
                0 <= i < j < out.len() ==> spec_disp_data_le(#[trigger] out[i], #[trigger] out[j], now_ms)
        }),
{
    broadcast use vstd::seq_lib::group_to_multiset_ensures;

    let groups = spec_groups(s, now_ms);
    let ranked = spec_ranked(groups, now_ms);
    let sorted = sort_by_key(rank_le(), ranked);
    let top = spec_top4(sorted);
    let disp0 = spec_disp(top);
    let disp = sort_by_key(disp_le(), disp0);
    let out = spec_gather_arrivals(s, now_ms);
    lemma_rank_le_total();
    lemma_sort_by_key_props(rank_le(), ranked);
    lemma_disp_le_total();
    lemma_sort_by_key_props(disp_le(), disp0);

    assert forall|i: int|
        0 <= i < disp.len() implies (#[trigger] disp[i]).far == (spec_min_minutes_seq(
        disp[i].data.arrival_times,
        now_ms,
    ) > 60) by {
        assert(disp.to_multiset().contains(disp[i]));
        assert(disp0.contains(disp[i]));
        let w = choose|w: int| 0 <= w < disp0.len() && disp0[w] == disp[i];
        assert(disp0[w].far == (top[w].mins > 60));
        assert(disp0[w].data == top[w].data);
        assert(sorted.to_multiset().contains(top[w]));
        assert(ranked.contains(top[w]));
        let v = choose|v: int| 0 <= v < ranked.len() && ranked[v] == top[w];
        assert(ranked[v].mins == spec_min_minutes_seq(groups[v].arrival_times, now_ms));
        assert(ranked[v].data == groups[v]);
    }
    assert forall|i: int, j: int|
        0 <= i < j < out.len() implies spec_disp_data_le(#[trigger] out[i], #[trigger] out[j], now_ms) by {
        assert(disp_le()(disp[i], disp[j]));
        assert(out[i] == disp[i].data);
        assert(out[j] == disp[j].data);
    }
}

} // verus!
