//! Weather aggregation: raw upstream records, icon classification of hourly
//! samples, sunrise/sunset events, and the forecast-slot selection algorithm.

use chrono::{Offset, TimeZone};
use vstd::prelude::*;
use crate::order::{insert_by, lemma_insert_by_position, sort_by_key};
use crate::screen::{
    decimal_string, icon_for_weather, spec_decimal_string, spec_icon_for_weather, Error, Icon,
    WeatherData, WeatherDataView, TS_BOUND,
};

verus! {

/// One upstream weather record: a raw minutes-precision timestamp string, the
/// numeric weather code, the temperature already rounded to whole degrees,
/// the day flag, and the wind-gust speed in tenths of km/h.
#[derive(Clone, Debug)]
pub struct WeatherForecast {
    pub time: String,
    pub weather_code: u32,
    pub temperature: i64,
    pub is_day: bool,
    pub wind_gusts: u32,
}

/// The daily sunrise and sunset timestamp lists of the upstream payload.
#[derive(Clone, Debug)]
pub struct MeteoDailyWeather {
    pub sunrise: Vec<String>,
    pub sunset: Vec<String>,
}

/// Everything fetched from the weather source: the current record, the hourly
/// series, and the sunrise/sunset timestamp lists.
#[derive(Clone, Debug)]
pub struct Weather {
    pub current: WeatherForecast,
    pub forecast: Vec<WeatherForecast>,
    pub sunrises: Vec<String>,
    pub sunsets: Vec<String>,
}

/// Zip the parallel hourly arrays of the upstream payload into records; a day
/// flag of exactly one means day.
pub fn build_hourly_forecast(
    times: Vec<String>,
    codes: Vec<u32>,
    temperatures: Vec<i64>,
    is_day: Vec<u8>,
    wind_gusts: Vec<u32>,
) -> (r: Vec<WeatherForecast>)
    requires
        codes@.len() == times@.len(),
        temperatures@.len() == times@.len(),
        is_day@.len() == times@.len(),
        wind_gusts@.len() == times@.len(),
    ensures
        r@.len() == times@.len(),
        forall|i: int|
            0 <= i < times@.len() ==> (#[trigger] r@[i]).time@ == times@[i]@ && r@[i].weather_code
                == codes@[i] && r@[i].temperature == temperatures@[i] && r@[i].is_day == (is_day@[i]
                == 1) && r@[i].wind_gusts == wind_gusts@[i],
{
    let mut r: Vec<WeatherForecast> = Vec::new();
    let mut times = times;
    let n = times.len();
    let mut i: usize = 0;
    while i < n
        invariant
            n == times@.len(),
            codes@.len() == n,
            temperatures@.len() == n,
            is_day@.len() == n,
            wind_gusts@.len() == n,
            0 <= i <= n,
            r@.len() == i,
            forall|j: int|
                0 <= j < i ==> (#[trigger] r@[j]).time@ == times@[j]@ && r@[j].weather_code
                    == codes@[j] && r@[j].temperature == temperatures@[j] && r@[j].is_day == (
                is_day@[j] == 1) && r@[j].wind_gusts == wind_gusts@[j],
        decreases n - i,
    {
        r.push(
            WeatherForecast {
                time: times[i].clone(),
                weather_code: codes[i],
                temperature: temperatures[i],
                is_day: is_day[i] == 1,
                wind_gusts: wind_gusts[i],
            },
        );
        i = i + 1;
    }
    r
}

/// Assemble the fetched pieces into one `Weather` value.
pub fn weather_from_parts(
    current: WeatherForecast,
    forecast: Vec<WeatherForecast>,
    daily: MeteoDailyWeather,
) -> (r: Weather)
    ensures
        r.current == current,
        r.forecast == forecast,
        r.sunrises == daily.sunrise,
        r.sunsets == daily.sunset,
{
    Weather { current, forecast, sunrises: daily.sunrise, sunsets: daily.sunset }
}

/// What chrono parses the upstream timestamp format to: minutes since the
/// epoch, or nothing when the string is not of the expected shape. The result
/// depends on the string alone.
pub uninterp spec fn weather_time_of(s: Seq<char>) -> Option<i64>;

/// Relies on chrono's `NaiveDateTime::parse_from_str` with the fixed
/// minutes-precision format `%Y-%m-%dT%H:%M`, read as UTC; parsing is a pure
/// function of the input string.
#[verifier::external_body]
fn parse_weather_time(time: &str) -> (r: Option<i64>)
    ensures
        r == weather_time_of(time@),
{
    chrono::NaiveDateTime::parse_from_str(time, "%Y-%m-%dT%H:%M").ok().map(
        |dt| dt.and_utc().timestamp() / 60,
    )
}

/// The offset from UTC, in minutes east, of the named time zone at the given
/// instant (minutes since the epoch), or nothing when the name is unknown.
/// For a fixed zoneinfo database the result depends on the arguments alone.
pub uninterp spec fn tz_offset_of(name: Seq<char>, at_min: i64) -> Option<i64>;

/// Relies on chrono-tz: `Tz::from_str` resolves a zone name against the
/// compiled-in zoneinfo database, and `TimeZone::offset_from_utc_datetime`
/// gives its UTC offset at an instant; both are pure functions of the name,
/// the instant, and that fixed database.
#[verifier::external_body]
fn tz_offset_exec(name: &str, at_min: i64) -> (r: Option<i64>)
    ensures
        r == tz_offset_of(name@, at_min),
{
    let tz: chrono_tz::Tz = name.parse().ok()?;
    let dt = chrono::DateTime::from_timestamp(at_min.checked_mul(60)?, 0)?;
    Some(i64::from(tz.offset_from_utc_datetime(&dt.naive_utc()).fix().local_minus_utc()) / 60)
}

/// Resolve a configured time-zone name to its UTC offset in minutes at the
/// given instant; an unknown name is caller-correctable configuration.
pub fn resolve_tz_offset(timezone: &str, at_min: i64) -> (r: Result<i64, Error>)
    ensures
        match r {
            Ok(off) => tz_offset_of(timezone@, at_min) == Some(off),
            Err(e) => tz_offset_of(timezone@, at_min) is None && e is InvalidTimezone,
        },
{
    match tz_offset_exec(timezone, at_min) {
        Some(off) => Ok(off),
        None => Err(Error::InvalidTimezone),
    }
}

/// A sun event tagged with its position in the merged sunrise/sunset list, so
/// that sorting by time keeps the original order of simultaneous events.
pub struct SunIx {
    pub idx: usize,
    pub data: WeatherData,
}

/// Sun events ordered by time, simultaneous ones by original position.
pub open spec fn sun_le() -> spec_fn(SunIx, SunIx) -> bool {
    |a: SunIx, b: SunIx|
        a.data.time < b.data.time || (a.data.time == b.data.time && a.idx <= b.idx)
}

fn sun_le_exec(a: &SunIx, b: &SunIx) -> (r: bool)
    ensures
        r == sun_le()(*a, *b),
{
    a.data.time < b.data.time || (a.data.time == b.data.time && a.idx <= b.idx)
}

fn sun_insert(out: &mut Vec<SunIx>, x: SunIx)
    ensures
        final(out)@ == insert_by(sun_le(), old(out)@, x),
{
    let ghost orig = out@;
    let mut k = out.len();
    while k > 0 && !sun_le_exec(&out[k - 1], &x)
        invariant
            0 <= k <= orig.len(),
            out@ == orig,
            forall|m: int| k <= m < orig.len() ==> !sun_le()(#[trigger] orig[m], x),
        decreases k,
    {
        k = k - 1;
    }
    out.insert(k, x);
    proof {
        lemma_insert_by_position(sun_le(), orig, x, k as int);
    }
}

/// Sort the merged sun-event list by time, keeping the original order of
/// simultaneous events.
fn sort_suns(v: Vec<SunIx>) -> (r: Vec<SunIx>)
    ensures
        r@ == sort_by_key(sun_le(), v@),
{
    let ghost orig = v@;
    let mut v = v;
    let mut out: Vec<SunIx> = Vec::new();
    while v.len() > 0
        invariant
            v@ =~= orig.skip(orig.len() - v@.len()),
            v@.len() <= orig.len(),
            out@ == sort_by_key(sun_le(), orig.take(orig.len() - v@.len())),
        decreases v@.len(),
    {
        let ghost k = orig.len() - v@.len();
        let x = v.remove(0);
        proof {
            assert(x == orig[k]);
            assert(v@ =~= orig.skip(k + 1));
            assert(orig.take(k + 1).drop_last() =~= orig.take(k));
            assert(orig.take(k + 1).last() == orig[k]);
        }
        sun_insert(&mut out, x);
    }
    proof {
        assert(orig.take(orig.len() as int) =~= orig);
    }
    out
}

/// The views of a sequence of weather samples.
pub open spec fn wviews(s: Seq<WeatherData>) -> Seq<WeatherDataView> {
    Seq::new(s.len(), |i: int| s[i]@)
}

/// The first listed sun event that has not passed `now` and falls inside the
/// window `[start, end]`.
pub open spec fn spec_find_sun(
    suns: Seq<WeatherDataView>,
    now: int,
    start: int,
    end: int,
) -> Option<WeatherDataView>
    decreases suns.len(),
{
    if suns.len() == 0 {
        None
    } else if suns[0].time >= now && suns[0].time >= start && suns[0].time <= end {
        Some(suns[0])
    } else {
        spec_find_sun(suns.drop_first(), now, start, end)
    }
}

/// The last listed hourly sample with a timestamp at or before `end`.
pub open spec fn spec_find_last_le(hourly: Seq<WeatherDataView>, end: int) -> Option<
    WeatherDataView,
>
    decreases hourly.len(),
{
    if hourly.len() == 0 {
        None
    } else if hourly.last().time <= end {
        Some(hourly.last())
    } else {
        spec_find_last_le(hourly.drop_last(), end)
    }
}

/// Forecast-slot selection over two-hour windows: each round substitutes an
/// eligible sun event unless the previous round already did, and otherwise
/// takes the most recent hourly sample for the window; the window advances
/// every round.
pub open spec fn spec_select_slots(
    hourly: Seq<WeatherDataView>,
    suns: Seq<WeatherDataView>,
    now: int,
    start: int,
    rounds: nat,
    sun_changed: bool,
) -> Seq<WeatherDataView>
    decreases rounds,
{
    if rounds == 0 {
        Seq::empty()
    } else {
        let end = start + 120;
        let sun = if sun_changed {
            None
        } else {
            spec_find_sun(suns, now, start, end)
        };
        match sun {
            Some(s) => seq![s] + spec_select_slots(
                hourly,
                suns,
                now,
                start + 120,
                (rounds - 1) as nat,
                true,
            ),
            None => {
                let rest = spec_select_slots(hourly, suns, now, start + 120, (rounds - 1) as nat, false);
                match spec_find_last_le(hourly, end) {
                    Some(h) => seq![h] + rest,
                    None => rest,
                }
            },
        }
    }
}

fn find_first_sun(suns: &Vec<WeatherData>, now: i64, start: i64, end: i64) -> (r: Option<usize>)
    ensures
        match r {
            Some(i) => i < suns@.len() && spec_find_sun(
                wviews(suns@),
                now as int,
                start as int,
                end as int,
            ) == Some(suns@[i as int]@),
            None => spec_find_sun(wviews(suns@), now as int, start as int, end as int) is None,
        },
{
    let n = suns.len();
    let mut i: usize = 0;
    proof {
        assert(wviews(suns@).skip(0) =~= wviews(suns@));
    }
    while i < n
        invariant
            n == suns@.len(),
            0 <= i <= n,
            spec_find_sun(wviews(suns@), now as int, start as int, end as int) == spec_find_sun(
                wviews(suns@).skip(i as int),
                now as int,
                start as int,
                end as int,
            ),
        decreases n - i,
    {
        let d = &suns[i];
        proof {
            assert(wviews(suns@).skip(i as int)[0] == suns@[i as int]@);
        }
        if d.time >= now && d.time >= start && d.time <= end {
            return Some(i);
        }
        proof {
            assert(wviews(suns@).skip(i as int).drop_first() =~= wviews(suns@).skip(i as int + 1));
        }
        i = i + 1;
    }
    proof {
        assert(wviews(suns@).skip(i as int).len() == 0);
    }
    None
}

fn find_last_le(hourly: &Vec<WeatherData>, end: i64) -> (r: Option<usize>)
    ensures
        match r {
            Some(i) => i < hourly@.len() && spec_find_last_le(wviews(hourly@), end as int) == Some(
                hourly@[i as int]@,
            ),
            None => spec_find_last_le(wviews(hourly@), end as int) is None,
        },
{
    let mut j = hourly.len();
    proof {
        assert(wviews(hourly@).take(j as int) =~= wviews(hourly@));
    }
    while j > 0
        invariant
            0 <= j <= hourly@.len(),
            spec_find_last_le(wviews(hourly@), end as int) == spec_find_last_le(
                wviews(hourly@).take(j as int),
                end as int,
            ),
        decreases j,
    {
        proof {
            assert(wviews(hourly@).take(j as int).last() == hourly@[j - 1]@);
        }
        if hourly[j - 1].time <= end {
            return Some(j - 1);
        }
        proof {
            assert(wviews(hourly@).take(j as int).drop_last() =~= wviews(hourly@).take(
                j as int - 1,
            ));
        }
        j = j - 1;
    }
    None
}

/// Fill the four two-hour forecast slots, starting at the top of the current
/// hour: each window takes an eligible sun event unless the previous window
/// already did, and otherwise the most recent hourly sample for the window.
pub fn select_forecast(
    hourly: &Vec<WeatherData>,
    suns: &Vec<WeatherData>,
    now_min: i64,
    start_min: i64,
) -> (r: Vec<WeatherData>)
    requires
        -TS_BOUND <= start_min <= TS_BOUND,
    ensures
        wviews(r@) =~= spec_select_slots(
            wviews(hourly@),
            wviews(suns@),
            now_min as int,
            start_min as int,
            4,
            false,
        ),
{
    let ghost hv = wviews(hourly@);
    let ghost sv = wviews(suns@);
    let ghost goal = spec_select_slots(hv, sv, now_min as int, start_min as int, 4, false);
    let mut forecast: Vec<WeatherData> = Vec::new();
    let mut fs = start_min;
    let mut sun_changed = false;
    let mut round: u64 = 0;
    while round < 4
        invariant
            0 <= round <= 4,
            -TS_BOUND <= start_min <= TS_BOUND,
            fs == start_min + 120 * round,
            hv == wviews(hourly@),
            sv == wviews(suns@),
            goal == spec_select_slots(hv, sv, now_min as int, start_min as int, 4, false),
            goal =~= wviews(forecast@) + spec_select_slots(
                hv,
                sv,
                now_min as int,
                fs as int,
                (4 - round) as nat,
                sun_changed,
            ),
        decreases 4 - round,
    {
        let end = fs + 120;
        let ghost pre = forecast@;
        let ghost rest = spec_select_slots(
            hv,
            sv,
            now_min as int,
            fs as int + 120,
            (3 - round) as nat,
            true,
        );
        let ghost rest_plain = spec_select_slots(
            hv,
            sv,
            now_min as int,
            fs as int + 120,
            (3 - round) as nat,
            false,
        );
        let mut found_sun = false;
        if !sun_changed {
            match find_first_sun(suns, now_min, fs, end) {
                Some(i) => {
                    forecast.push(suns[i].duplicate());
                    found_sun = true;
                    proof {
                        assert(wviews(forecast@) =~= wviews(pre).push(sv[i as int]));
                        assert(wviews(pre) + (seq![sv[i as int]] + rest) =~= wviews(pre).push(
                            sv[i as int],
                        ) + rest);
                    }
                },
                None => {
                },
            }
        }
        if found_sun {
            sun_changed = true;
        } else {
            match find_last_le(hourly, end) {
                Some(i) => {
                    forecast.push(hourly[i].duplicate());
                    proof {
                        assert(wviews(forecast@) =~= wviews(pre).push(hv[i as int]));
                        assert(wviews(pre) + (seq![hv[i as int]] + rest_plain) =~= wviews(
                            pre,
                        ).push(hv[i as int]) + rest_plain);
                    }
                },
                None => {
                    proof {
                        assert(wviews(forecast@) =~= wviews(pre));
                    }
                },
            }
            sun_changed = false;
        }
        fs = fs + 120;
        round = round + 1;
    }
    proof {
        assert(goal =~= wviews(forecast@));
    }
    forecast
}

/// Whether a selected slot shows a sun event rather than an hourly sample.
pub open spec fn is_sun_slot(d: WeatherDataView) -> bool {
    d.weather == Icon::Sunrise || d.weather == Icon::Sunset
}

proof fn lemma_find_last_le_in(hourly: Seq<WeatherDataView>, end: int)
    ensures
        spec_find_last_le(hourly, end) matches Some(h) ==> hourly.contains(h),
    decreases hourly.len(),
{
    if hourly.len() == 0 {
    } else if hourly.last().time <= end {
        assert(hourly.contains(hourly.last()));
    } else {
        lemma_find_last_le_in(hourly.drop_last(), end);
        match spec_find_last_le(hourly, end) {
            Some(h) => {
                assert(hourly.drop_last().contains(h));
                let w = choose|w: int|
                    0 <= w < hourly.drop_last().len() && hourly.drop_last()[w] == h;
                assert(hourly[w] == h);
            },
            None => {},
        }
    }
}

/// Forecast-slot selection never produces two consecutive sun-event slots:
/// a substituted sun event suppresses substitution in the next window, whose
/// slot comes from the hourly samples. The hourly series must cover the first
/// window, so that the suppressed window is not left empty.
pub proof fn lemma_no_adjacent_sun_slots(
    hourly: Seq<WeatherDataView>,
    suns: Seq<WeatherDataView>,
    now: int,
    start: int,
    rounds: nat,
    sun_changed: bool,
    w: int,
)
    requires
        forall|i: int| 0 <= i < hourly.len() ==> !is_sun_slot(#[trigger] hourly[i]),
        0 <= w < hourly.len(),
        hourly[w].time <= start + 120,
    ensures
        ({
            let out = spec_select_slots(hourly, suns, now, start, rounds, sun_changed);
            &&& forall|i: int|
                0 <= i && i + 1 < out.len() ==> !(is_sun_slot(#[trigger] out[i]) && is_sun_slot(
                    out[i + 1],
                ))
            &&& sun_changed && out.len() > 0 ==> !is_sun_slot(out[0])
        }),
    decreases rounds,
{
    if rounds == 0 {
    } else {
        let end = start + 120;
        let out = spec_select_slots(hourly, suns, now, start, rounds, sun_changed);
        let sun = if sun_changed {
            None
        } else {
            spec_find_sun(suns, now, start, end)
        };
        match sun {
            Some(s) => {
                let rest = spec_select_slots(hourly, suns, now, start + 120, (rounds - 1) as nat, true);
                lemma_no_adjacent_sun_slots(hourly, suns, now, start + 120, (rounds - 1) as nat, true, w);
                assert(out =~= seq![s] + rest);
                assert forall|i: int|
                    0 <= i && i + 1 < out.len() implies !(is_sun_slot(#[trigger] out[i])
                    && is_sun_slot(out[i + 1])) by {
                    if i == 0 {
                        assert(out[1] == rest[0]);
                    } else {
                        assert(out[i] == rest[i - 1]);
                        assert(out[i + 1] == rest[i]);
                    }
                }
            },
            None => {
                let rest = spec_select_slots(hourly, suns, now, start + 120, (rounds - 1) as nat, false);
                lemma_no_adjacent_sun_slots(hourly, suns, now, start + 120, (rounds - 1) as nat, false, w);
                lemma_find_last_le_in(hourly, end);
                lemma_find_last_le_some(hourly, end, w);
                match spec_find_last_le(hourly, end) {
                    Some(h) => {
                        let w = choose|w: int| 0 <= w < hourly.len() && hourly[w] == h;
                        assert(!is_sun_slot(h));
                        assert(out =~= seq![h] + rest);
                        assert forall|i: int|
                            0 <= i && i + 1 < out.len() implies !(is_sun_slot(#[trigger] out[i])
                            && is_sun_slot(out[i + 1])) by {
                            if i == 0 {
                                assert(out[1] == rest[0]);
                            } else {
                                assert(out[i] == rest[i - 1]);
                                assert(out[i + 1] == rest[i]);
                            }
                        }
                    },
                    None => {
                    },
                }
            },
        }
    }
}

proof fn lemma_find_last_le_some(hourly: Seq<WeatherDataView>, end: int, w: int)
    requires
        0 <= w < hourly.len(),
        hourly[w].time <= end,
    ensures
        spec_find_last_le(hourly, end) is Some,
    decreases hourly.len(),
{
    if hourly.last().time <= end {
    } else {
        assert(w < hourly.len() - 1);
        lemma_find_last_le_some(hourly.drop_last(), end, w);
    }
}

/// With no sun events and at least one hourly sample no later than the first
/// window's end, every round fills its slot: selection returns exactly
/// `rounds` slots.
pub proof fn lemma_full_slots(
    hourly: Seq<WeatherDataView>,
    suns: Seq<WeatherDataView>,
    now: int,
    start: int,
    rounds: nat,
    w: int,
)
    requires
        suns.len() == 0,
        0 <= w < hourly.len(),
        hourly[w].time <= start + 120,
    ensures
        spec_select_slots(hourly, suns, now, start, rounds, false).len() == rounds,
    decreases rounds,
{
    if rounds == 0 {
    } else {
        lemma_find_last_le_some(hourly, start + 120, w);
        lemma_full_slots(hourly, suns, now, start + 120, (rounds - 1) as nat, w);
    }
}

/// The parsed minutes value of a timestamp string, defaulting to zero where
/// parsing fails; callers guard with `weather_time_of`.
pub open spec fn spec_parsed_time(s: Seq<char>) -> i64 {
    match weather_time_of(s) {
        Some(t) => t,
        None => 0,
    }
}

/// The display sample of one hourly record: its parsed time, its icon, and
/// its rounded temperature rendered in decimal.
pub open spec fn spec_hourly_samples(fs: Seq<WeatherForecast>) -> Seq<WeatherDataView> {
    Seq::new(
        fs.len(),
        |i: int|
            WeatherDataView {
                time: spec_parsed_time(fs[i].time@) as int,
                weather: spec_icon_for_weather(fs[i].weather_code, !fs[i].is_day, fs[i].wind_gusts),
                temp: Some(spec_decimal_string(fs[i].temperature as int)),
            },
    )
}

/// The views of a sequence of strings.
pub open spec fn str_views(s: Seq<String>) -> Seq<Seq<char>> {
    Seq::new(s.len(), |i: int| s[i]@)
}

/// The sunrise markers followed by the sunset markers, each tagged with its
/// position, before sorting.
pub open spec fn spec_sun_merged(sunrises: Seq<Seq<char>>, sunsets: Seq<Seq<char>>) -> Seq<SunIx> {
    Seq::new(
        sunrises.len(),
        |i: int|
            SunIx {
                idx: i as usize,
                data: WeatherData {
                    time: spec_parsed_time(sunrises[i]),
                    weather: Icon::Sunrise,
                    temp: None,
                },
            },
    ) + Seq::new(
        sunsets.len(),
        |i: int|
            SunIx {
                idx: (sunrises.len() + i) as usize,
                data: WeatherData {
                    time: spec_parsed_time(sunsets[i]),
                    weather: Icon::Sunset,
                    temp: None,
                },
            },
    )
}

/// The merged sun events in time order, as display samples.
pub open spec fn spec_sorted_sun_views(
    sunrises: Seq<Seq<char>>,
    sunsets: Seq<Seq<char>>,
) -> Seq<WeatherDataView> {
    let sorted = sort_by_key(sun_le(), spec_sun_merged(sunrises, sunsets));
    Seq::new(sorted.len(), |i: int| sorted[i].data@)
}

/// The top of the hour containing the instant `now_min`, read on the wall
/// clock of a zone `off_min` minutes east of UTC.
pub open spec fn spec_hour_start(now_min: int, off_min: int) -> int {
    now_min - (now_min + off_min) % 60
}

/// Whether every timestamp of the payload parses: each hourly time and each
/// sunrise and sunset time.
pub open spec fn spec_weather_parses(w: Weather) -> bool {
    &&& forall|i: int|
        0 <= i < w.forecast@.len() ==> weather_time_of(
            (#[trigger] w.forecast@[i]).time@,
        ) is Some
    &&& forall|i: int|
        0 <= i < w.sunrises@.len() ==> weather_time_of((#[trigger] w.sunrises@[i])@) is Some
    &&& forall|i: int|
        0 <= i < w.sunsets@.len() ==> weather_time_of((#[trigger] w.sunsets@[i])@) is Some
}

/// The current display sample of the payload.
pub open spec fn spec_current_sample(w: Weather, now_min: int) -> WeatherDataView {
    WeatherDataView {
        time: now_min,
        weather: spec_icon_for_weather(
            w.current.weather_code,
            !w.current.is_day,
            w.current.wind_gusts,
        ),
        temp: Some(spec_decimal_string(w.current.temperature as int)),
    }
}

/// Aggregate a fetched weather payload into the current display sample and
/// the four forecast slots. Any unparsable timestamp aborts the whole
/// aggregation with a data-format error; no partial forecast is produced.
pub fn gather_weather(weather: &Weather, now_min: i64, tz_offset_min: i64) -> (r: Result<
    (WeatherData, Vec<WeatherData>),
    Error,
>)
    requires
        0 <= now_min + tz_offset_min,
        0 <= now_min <= 0x1_0000_0000_0000,
        -1440 <= tz_offset_min <= 1440,
        weather.current.temperature > i64::MIN,
        forall|i: int|
            0 <= i < weather.forecast@.len() ==> (#[trigger] weather.forecast@[i]).temperature
                > i64::MIN,
    ensures
        r is Ok <==> spec_weather_parses(*weather),
        r matches Ok(p) ==> p.0@ == spec_current_sample(*weather, now_min as int) && wviews(p.1@)
            =~= spec_select_slots(
            spec_hourly_samples(weather.forecast@),
            spec_sorted_sun_views(str_views(weather.sunrises@), str_views(weather.sunsets@)),
            now_min as int,
            spec_hour_start(now_min as int, tz_offset_min as int),
            4,
            false,
        ),
        r matches Err(e) ==> e is InvalidDateFormat,
{
    let current = WeatherData {
        time: now_min,
        weather: icon_for_weather(
            weather.current.weather_code,
            !weather.current.is_day,
            weather.current.wind_gusts,
        ),
        temp: Some(decimal_string(weather.current.temperature)),
    };

    let mut hourly: Vec<WeatherData> = Vec::new();
    let nf = weather.forecast.len();
    let mut i: usize = 0;
    while i < nf
        invariant
            nf == weather.forecast@.len(),
            0 <= i <= nf,
            hourly@.len() == i,
            forall|j: int|
                0 <= j < i ==> (#[trigger] weather.forecast@[j]).temperature > i64::MIN,
            forall|j: int|
                j < nf ==> (#[trigger] weather.forecast@[j]).temperature > i64::MIN || j < 0,
            forall|j: int|
                0 <= j < i ==> weather_time_of((#[trigger] weather.forecast@[j]).time@) is Some,
            forall|j: int|
                0 <= j < i ==> (#[trigger] hourly@[j])@ == spec_hourly_samples(
                    weather.forecast@,
                )[j],
        decreases nf - i,
    {
        let f = &weather.forecast[i];
        match parse_weather_time(f.time.as_str()) {
            Some(t) => {
                let icon = icon_for_weather(f.weather_code, !f.is_day, f.wind_gusts);
                let temp = decimal_string(f.temperature);
                hourly.push(WeatherData { time: t, weather: icon, temp: Some(temp) });
                proof {
                    assert((hourly@[i as int])@ == spec_hourly_samples(weather.forecast@)[i as int]);
                }
            },
            None => {
                return Err(Error::InvalidDateFormat);
            },
        }
        i = i + 1;
    }

    let ghost rises = str_views(weather.sunrises@);
    let ghost sets = str_views(weather.sunsets@);
    let ghost merged = spec_sun_merged(rises, sets);
    let mut suns_ix: Vec<SunIx> = Vec::new();
    let nr = weather.sunrises.len();
    let mut i: usize = 0;
    while i < nr
        invariant
            nr == weather.sunrises@.len(),
            0 <= i <= nr,
            rises == str_views(weather.sunrises@),
            sets == str_views(weather.sunsets@),
            merged == spec_sun_merged(rises, sets),
            suns_ix@.len() == i,
            forall|j: int|
                0 <= j < i ==> weather_time_of((#[trigger] weather.sunrises@[j])@) is Some,
            forall|j: int| 0 <= j < i ==> (#[trigger] suns_ix@[j]) == merged[j],
        decreases nr - i,
    {
        match parse_weather_time(weather.sunrises[i].as_str()) {
            Some(t) => {
                suns_ix.push(
                    SunIx {
                        idx: i,
                        data: WeatherData { time: t, weather: Icon::Sunrise, temp: None },
                    },
                );
            },
            None => {
                return Err(Error::InvalidDateFormat);
            },
        }
        i = i + 1;
    }
    let ns = weather.sunsets.len();
    let mut i: usize = 0;
    while i < ns
        invariant
            nr == weather.sunrises@.len(),
            ns == weather.sunsets@.len(),
            0 <= i <= ns,
            rises == str_views(weather.sunrises@),
            sets == str_views(weather.sunsets@),
            merged == spec_sun_merged(rises, sets),
            suns_ix@.len() == nr + i,
            forall|j: int|
                0 <= j < nr ==> weather_time_of((#[trigger] weather.sunrises@[j])@) is Some,
            forall|j: int|
                0 <= j < i ==> weather_time_of((#[trigger] weather.sunsets@[j])@) is Some,
            forall|j: int| 0 <= j < nr + i ==> (#[trigger] suns_ix@[j]) == merged[j],
        decreases ns - i,
    {
        match parse_weather_time(weather.sunsets[i].as_str()) {
            Some(t) => {
                let pos = suns_ix.len();
                suns_ix.push(
                    SunIx {
                        idx: pos,
                        data: WeatherData { time: t, weather: Icon::Sunset, temp: None },
                    },
                );
                proof {
                    assert(suns_ix@[nr + i as int] == merged[nr + i as int]);
                }
            },
            None => {
                return Err(Error::InvalidDateFormat);
            },
        }
        i = i + 1;
    }
    proof {
        assert(suns_ix@ =~= merged);
    }
    let sorted = sort_suns(suns_ix);

    let mut suns_plain: Vec<WeatherData> = Vec::new();
    let ns2 = sorted.len();
    let mut i: usize = 0;
    while i < ns2
        invariant
            ns2 == sorted@.len(),
            0 <= i <= ns2,
            sorted@ == sort_by_key(sun_le(), merged),
            suns_plain@.len() == i,
            forall|j: int| 0 <= j < i ==> (#[trigger] suns_plain@[j])@ == sorted@[j].data@,
        decreases ns2 - i,
    {
        suns_plain.push(sorted[i].data.duplicate());
        i = i + 1;
    }
    proof {
        assert(wviews(suns_plain@) =~= spec_sorted_sun_views(rises, sets));
    }

    let local = now_min + tz_offset_min;
    let rem = ((local as u64) % 60) as i64;
    let start = now_min - rem;
    proof {
        assert(start == spec_hour_start(now_min as int, tz_offset_min as int));
    }

    let fc = select_forecast(&hourly, &suns_plain, now_min, start);
    proof {
        assert(wviews(hourly@) =~= spec_hourly_samples(weather.forecast@));
        assert(wviews(hourly@) == spec_hourly_samples(weather.forecast@));
        assert(wviews(suns_plain@) == spec_sorted_sun_views(rises, sets));
    }
    Ok((current, fc))
}

} // verus!
