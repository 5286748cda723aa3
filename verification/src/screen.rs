//! Core display types: weather icons, arrival times, and the display model.

use vstd::prelude::*;
use vstd::string::StringExecFns;

verus! {

/// Failures surfaced by the rendering pipeline.
///
/// `InvalidTimezone` is caller-correctable configuration; `Http` carries the
/// message of an upstream transport failure; `MissingData` and
/// `InvalidDateFormat` are upstream contract violations.
#[derive(Debug, Clone)]
pub enum Error {
    InvalidTimezone,
    Http(String),
    MissingData(String),
    InvalidDateFormat,
}

/// Bound on timestamps (milliseconds or minutes since the epoch) accepted by
/// the arithmetic here; far beyond any real clock, it only keeps differences
/// inside the machine's integer range.
pub const TS_BOUND: i64 = 0x2000_0000_0000_0000;

/// Wind-gust threshold, in tenths of km/h, at or above which the wind is
/// "strong" on the Beaufort scale and a calm icon is replaced by `Wind`.
pub const STRONG_WIND_TENTHS: u32 = 390;

/// The icon shown for one weather sample or sun event.
#[derive(Clone, Copy, Debug, PartialEq, Eq, Structural)]
pub enum Icon {
    Sun,
    Cloud,
    CloudDrizzle,
    CloudRain,
    CloudSnow,
    CloudLightning,
    Moon,
    Sunrise,
    Sunset,
    Wind,
}

/// The icon chosen from the numeric weather code and the day/night flag,
/// before the strong-wind override.
pub open spec fn spec_base_icon(code: u32, is_night: bool) -> Icon {
    if code <= 1 {
        if is_night {
            Icon::Moon
        } else {
            Icon::Sun
        }
    } else if (2 <= code && code <= 3) || (45 <= code && code <= 48) {
        Icon::Cloud
    } else if 51 <= code && code <= 57 {
        Icon::CloudDrizzle
    } else if (61 <= code && code <= 67) || (80 <= code && code <= 86) {
        Icon::CloudRain
    } else if 71 <= code && code <= 77 {
        Icon::CloudSnow
    } else if 95 <= code && code <= 99 {
        Icon::CloudLightning
    } else {
        Icon::Cloud
    }
}

/// The icon for a weather sample: the base icon, overridden to `Wind` when
/// the gust speed reaches the strong-wind threshold and the base icon is one
/// of the calm icons (`Sun`, `Moon`, `Cloud`).
pub open spec fn spec_icon_for_weather(code: u32, is_night: bool, gust_tenths: u32) -> Icon {
    let base = spec_base_icon(code, is_night);
    if gust_tenths >= STRONG_WIND_TENTHS && (base == Icon::Sun || base == Icon::Moon || base
        == Icon::Cloud) {
        Icon::Wind
    } else {
        base
    }
}

/// Classify a weather sample into a display icon.
///
/// `gust_tenths` is the wind-gust speed in tenths of km/h, so the strong-wind
/// override fires exactly when the speed is at least 39.0 km/h.
pub fn icon_for_weather(code: u32, is_night: bool, gust_tenths: u32) -> (icon: Icon)
    ensures
        icon == spec_icon_for_weather(code, is_night, gust_tenths),
{
    let base = if code <= 1 {
        if is_night {
            Icon::Moon
        } else {
            Icon::Sun
        }
    } else if (2 <= code && code <= 3) || (45 <= code && code <= 48) {
        Icon::Cloud
    } else if 51 <= code && code <= 57 {
        Icon::CloudDrizzle
    } else if (61 <= code && code <= 67) || (80 <= code && code <= 86) {
        Icon::CloudRain
    } else if 71 <= code && code <= 77 {
        Icon::CloudSnow
    } else if 95 <= code && code <= 99 {
        Icon::CloudLightning
    } else {
        Icon::Cloud
    };
    if gust_tenths >= STRONG_WIND_TENTHS && (matches!(base, Icon::Sun) || matches!(
        base,
        Icon::Moon,
    ) || matches!(base, Icon::Cloud)) {
        Icon::Wind
    } else {
        base
    }
}

/// Icon classification is a pure function of code, day/night flag and gust
/// speed: any calm base icon is overridden to `Wind` at or above the
/// strong-wind threshold, and below the threshold the base icon is kept
/// unchanged.
pub proof fn lemma_wind_override(code: u32, is_night: bool, gust_tenths: u32)
    ensures
        gust_tenths >= STRONG_WIND_TENTHS && (spec_base_icon(code, is_night) == Icon::Sun
            || spec_base_icon(code, is_night) == Icon::Moon || spec_base_icon(code, is_night)
            == Icon::Cloud) ==> spec_icon_for_weather(code, is_night, gust_tenths) == Icon::Wind,
        gust_tenths < STRONG_WIND_TENTHS ==> spec_icon_for_weather(code, is_night, gust_tenths)
            == spec_base_icon(code, is_night),
        spec_icon_for_weather(code, is_night, gust_tenths) != Icon::Wind
            ==> spec_icon_for_weather(code, is_night, gust_tenths) == spec_base_icon(
            code,
            is_night,
        ),
{
}

/// The kebab-case name of an icon, as the scene template refers to it.
pub open spec fn spec_icon_name(icon: Icon) -> Seq<char> {
    match icon {
        Icon::Sun => "sun"@,
        Icon::Cloud => "cloud"@,
        Icon::CloudDrizzle => "cloud-drizzle"@,
        Icon::CloudRain => "cloud-rain"@,
        Icon::CloudSnow => "cloud-snow"@,
        Icon::CloudLightning => "cloud-lightning"@,
        Icon::Moon => "moon"@,
        Icon::Sunrise => "sunrise"@,
        Icon::Sunset => "sunset"@,
        Icon::Wind => "wind"@,
    }
}

impl Icon {
    /// The kebab-case name of the icon.
    pub fn name(&self) -> (r: String)
        ensures
            r@ == spec_icon_name(*self),
    {
        let s = match self {
            Icon::Sun => "sun",
            Icon::Cloud => "cloud",
            Icon::CloudDrizzle => "cloud-drizzle",
            Icon::CloudRain => "cloud-rain",
            Icon::CloudSnow => "cloud-snow",
            Icon::CloudLightning => "cloud-lightning",
            Icon::Moon => "moon",
            Icon::Sunrise => "sunrise",
            Icon::Sunset => "sunset",
            Icon::Wind => "wind",
        };
        String::from_str(s)
    }
}

/// The decimal digit character for a value below ten.
pub open spec fn spec_digit_char(d: int) -> char {
    if d == 0 {
        '0'
    } else if d == 1 {
        '1'
    } else if d == 2 {
        '2'
    } else if d == 3 {
        '3'
    } else if d == 4 {
        '4'
    } else if d == 5 {
        '5'
    } else if d == 6 {
        '6'
    } else if d == 7 {
        '7'
    } else if d == 8 {
        '8'
    } else {
        '9'
    }
}

/// The decimal digits of a non-negative value, most significant first.
pub open spec fn spec_decimal_digits(n: int) -> Seq<char>
    decreases n,
{
    if n < 10 {
        seq![spec_digit_char(n)]
    } else {
        spec_decimal_digits(n / 10).push(spec_digit_char(n % 10))
    }
}

/// The decimal rendering of a signed value: a minus sign for negative values,
/// then the digits.
pub open spec fn spec_decimal_string(n: int) -> Seq<char> {
    if n < 0 {
        seq!['-'] + spec_decimal_digits(-n)
    } else {
        spec_decimal_digits(n)
    }
}

fn digit_str(d: u64) -> (r: &'static str)
    requires
        d < 10,
    ensures
        r@ == seq![spec_digit_char(d as int)],
{
    proof {
        reveal_strlit("0");
        reveal_strlit("1");
        reveal_strlit("2");
        reveal_strlit("3");
        reveal_strlit("4");
        reveal_strlit("5");
        reveal_strlit("6");
        reveal_strlit("7");
        reveal_strlit("8");
        reveal_strlit("9");
    }
    let r = match d {
        0 => "0",
        1 => "1",
        2 => "2",
        3 => "3",
        4 => "4",
        5 => "5",
        6 => "6",
        7 => "7",
        8 => "8",
        _ => "9",
    };
    proof {
        assert(r@ =~= seq![spec_digit_char(d as int)]);
    }
    r
}

fn push_decimal_digits(s: &mut String, n: u64)
    ensures
        final(s)@ == old(s)@ + spec_decimal_digits(n as int),
    decreases n,
{
    if n < 10 {
        s.append(digit_str(n));
        proof {
            assert(s@ =~= old(s)@ + spec_decimal_digits(n as int));
        }
    } else {
        push_decimal_digits(s, n / 10);
        s.append(digit_str(n % 10));
        proof {
            assert(s@ =~= old(s)@ + spec_decimal_digits(n as int));
        }
    }
}

/// Render a signed value in decimal, as the display temperature is shown.
pub fn decimal_string(n: i64) -> (r: String)
    requires
        n > i64::MIN,
    ensures
        r@ == spec_decimal_string(n as int),
{
    let mut s = String::new();
    if n < 0 {
        proof {
            reveal_strlit("-");
        }
        s.append("-");
        push_decimal_digits(&mut s, (-n) as u64);
        proof {
            assert(s@ =~= spec_decimal_string(n as int));
        }
    } else {
        push_decimal_digits(&mut s, n as u64);
    }
    s
}

/// One weather sample as displayed: a minutes-precision instant, an icon, and
/// a temperature string that is absent only for sunrise/sunset markers.
#[derive(Clone, Debug)]
pub struct WeatherData {
    /// Minutes since the epoch.
    pub time: i64,
    pub weather: Icon,
    pub temp: Option<String>,
}

/// The mathematical value of a `WeatherData`.
pub struct WeatherDataView {
    pub time: int,
    pub weather: Icon,
    pub temp: Option<Seq<char>>,
}

impl View for WeatherData {
    type V = WeatherDataView;

    open spec fn view(&self) -> WeatherDataView {
        WeatherDataView {
            time: self.time as int,
            weather: self.weather,
            temp: match self.temp {
                Some(s) => Some(s@),
                None => None,
            },
        }
    }
}

impl DeepView for WeatherData {
    type V = WeatherDataView;

    open spec fn deep_view(&self) -> WeatherDataView {
        self.view()
    }
}

impl WeatherData {
    /// A copy with the same mathematical value.
    pub fn duplicate(&self) -> (r: WeatherData)
        ensures
            r@ == self@,
            r.time == self.time,
            r.weather == self.weather,
    {
        WeatherData {
            time: self.time,
            weather: self.weather,
            temp: match &self.temp {
                Some(s) => Some(s.clone()),
                None => None,
            },
        }
    }
}

/// A classified arrival: due now, due in a near-term number of minutes, or at
/// an absolute instant (milliseconds since the epoch) for far-future arrivals.
#[derive(Clone, Copy, Debug, PartialEq, Eq, Structural)]
pub enum ArrivalTime {
    Now,
    Minutes(u32),
    Time(i64),
}

/// Truncating division of the millisecond difference `ts - now` by one minute:
/// whole minutes between `now` and `ts`, rounded toward zero.
pub open spec fn spec_minutes_until(ts: int, now: int) -> int {
    let diff = ts - now;
    if diff >= 0 {
        diff / 60000
    } else {
        -((-diff) / 60000)
    }
}

/// Whole minutes from `now_ms` until `ts_ms`, truncated toward zero.
pub fn minutes_until(ts_ms: i64, now_ms: i64) -> (r: i64)
    requires
        -TS_BOUND <= ts_ms <= TS_BOUND,
        -TS_BOUND <= now_ms <= TS_BOUND,
    ensures
        r == spec_minutes_until(ts_ms as int, now_ms as int),
        -TS_BOUND <= r <= TS_BOUND,
{
    let diff = ts_ms - now_ms;
    if diff >= 0 {
        ((diff as u64) / 60000) as i64
    } else {
        -((((-diff) as u64) / 60000) as i64)
    }
}

/// The minute distance an arrival stands for, relative to `now_ms`: zero for
/// `Now`, the stored count for `Minutes`, and the truncated minute difference
/// for an absolute time, clamped to the `u32` range.
pub open spec fn spec_arrival_minutes(t: ArrivalTime, now_ms: int) -> u32 {
    match t {
        ArrivalTime::Now => 0u32,
        ArrivalTime::Minutes(m) => m,
        ArrivalTime::Time(ts) => {
            let d = spec_minutes_until(ts as int, now_ms);
            if d < 0 {
                0u32
            } else if d > u32::MAX {
                u32::MAX
            } else {
                d as u32
            }
        },
    }
}

impl ArrivalTime {
    /// How many minutes away this arrival is, relative to `now_ms`
    /// (milliseconds since the epoch); never negative.
    pub fn minutes(&self, now_ms: i64) -> (r: u32)
        requires
            -TS_BOUND <= now_ms <= TS_BOUND,
            *self matches ArrivalTime::Time(ts) ==> -TS_BOUND <= ts <= TS_BOUND,
        ensures
            r == spec_arrival_minutes(*self, now_ms as int),
    {
        match self {
            ArrivalTime::Now => 0,
            ArrivalTime::Minutes(m) => *m,
            ArrivalTime::Time(ts) => {
                let d = minutes_until(*ts, now_ms);
                if d < 0 {
                    0
                } else if d > u32::MAX as i64 {
                    u32::MAX
                } else {
                    d as u32
                }
            },
        }
    }
}

impl DeepView for ArrivalTime {
    type V = ArrivalTime;

    open spec fn deep_view(&self) -> ArrivalTime {
        *self
    }
}

/// The arrivals of one route and headsign, collapsed to the one or two times
/// that are shown.
#[derive(Clone, Debug)]
pub struct ArrivalData {
    pub route: String,
    pub headsign: String,
    pub arrival_times: Vec<ArrivalTime>,
}

/// The mathematical value of an `ArrivalData`.
pub struct ArrivalDataView {
    pub route: Seq<char>,
    pub headsign: Seq<char>,
    pub arrival_times: Seq<ArrivalTime>,
}

impl View for ArrivalData {
    type V = ArrivalDataView;

    open spec fn view(&self) -> ArrivalDataView {
        ArrivalDataView {
            route: self.route@,
            headsign: self.headsign@,
            arrival_times: self.arrival_times@,
        }
    }
}

impl DeepView for ArrivalData {
    type V = ArrivalDataView;

    open spec fn deep_view(&self) -> ArrivalDataView {
        self.view()
    }
}

/// Everything the scene renderer needs for one frame: the current weather,
/// exactly four forecast slots, and up to four arrival entries.
#[derive(Clone, Debug)]
pub struct DisplayModel {
    pub weather_now: Icon,
    pub temp_now: String,
    /// Minutes since the epoch.
    pub time: i64,
    pub forecast: Vec<WeatherData>,
    pub arrivals: Vec<ArrivalData>,
}

/// Join the aggregated pieces into the display model handed to the scene
/// renderer. The current sample must carry a temperature string; sunrise and
/// sunset markers never stand for the current weather.
pub fn build_display_model(current: WeatherData, forecast: Vec<WeatherData>, arrivals: Vec<
    ArrivalData,
>) -> (r: Result<DisplayModel, Error>)
    ensures
        match r {
            Ok(m) => {
                &&& current.temp matches Some(t) && m.temp_now == t
                &&& m.weather_now == current.weather
                &&& m.time == current.time
                &&& m.forecast == forecast
                &&& m.arrivals == arrivals
            },
            Err(e) => {
                &&& current.temp is None
                &&& e matches Error::MissingData(msg) && msg@ == "current temperature"@
            },
        },
{
    match current.temp {
        Some(t) => Ok(
            DisplayModel {
                weather_now: current.weather,
                temp_now: t,
                time: current.time,
                forecast,
                arrivals,
            },
        ),
        None => Err(Error::MissingData(String::from_str("current temperature"))),
    }
}

/// What the outside title-casing routine returns for a given string; the
/// result depends on the characters alone.
pub uninterp spec fn title_case_of(s: Seq<char>) -> Seq<char>;

/// Relies on titlecase::titlecase, which rewrites a phrase in title case as a
/// pure function of the input string.
#[verifier::external_body]
fn title_case_exec(input: &str) -> (r: String)
    ensures
        r@ == title_case_of(input@),
{
    titlecase::titlecase(input)
}

/// Convert a label to title case for display.
pub fn titlecase(input: &str) -> (r: String)
    ensures
        r@ == title_case_of(input@),
{
    title_case_exec(input)
}

/// The day number (days since the epoch) of the wall-clock instant `now_min`
/// minutes after the epoch, in a zone `off_min` minutes east of UTC.
pub open spec fn spec_local_day(now_min: int, off_min: int) -> int {
    (now_min + off_min) / 1440
}

/// A fixed fake model that exercises the rendering pipeline without any
/// upstream data: local noon, a generic cloud, dash placeholders, and four
/// fake forecast and arrival rows. It cannot fail on data grounds.
pub fn placeholder_model(now_min: i64, tz_offset_min: i64) -> (m: DisplayModel)
    requires
        0 <= now_min + tz_offset_min < 0x1_0000_0000_0000,
        -1440 <= tz_offset_min <= 1440,
    ensures
        m.weather_now == Icon::Cloud,
        m.temp_now@ == "-"@,
        m.time == spec_local_day(now_min as int, tz_offset_min as int) * 1440 + 720
            - tz_offset_min,
        m.forecast@.len() == 4,
        forall|i: int|
            0 <= i < 4 ==> (#[trigger] m.forecast@[i]).time == spec_local_day(
                now_min as int,
                tz_offset_min as int,
            ) * 1440 + (14 + 2 * i) * 60 - tz_offset_min,
        forall|i: int|
            0 <= i < 4 ==> (#[trigger] m.forecast@[i]).weather == Icon::Cloud && (
            m.forecast@[i].temp matches Some(t) && t@ == "-"@),
        m.arrivals@.len() == 4,
        forall|i: int|
            0 <= i < 4 ==> (#[trigger] m.arrivals@[i]).route@ == "---"@ && m.arrivals@[i].headsign@
                == "----------"@ && m.arrivals@[i].arrival_times@ == seq![
                ArrivalTime::Minutes((10 * (i + 1)) as u32),
            ],
{
    let day = (((now_min + tz_offset_min) as u64) / 1440) as i64;
    proof {
        assert(day == spec_local_day(now_min as int, tz_offset_min as int));
        assert(day * 1440 <= now_min + tz_offset_min) by (nonlinear_arith)
            requires
                day == (now_min + tz_offset_min) / 1440,
                now_min + tz_offset_min >= 0,
        ;
    }
    let noon_utc = day * 1440 + 720 - tz_offset_min;
    let dash = String::from_str("-");
    let mut forecast: Vec<WeatherData> = Vec::new();
    let mut j: i64 = 0;
    while j < 4
        invariant
            0 <= j <= 4,
            0 <= day * 1440 <= 0x1_0000_0000_0000,
            -1440 <= tz_offset_min <= 1440,
            dash@ == "-"@,
            forecast@.len() == j,
            forall|i: int|
                0 <= i < forecast@.len() ==> (#[trigger] forecast@[i]).time == day * 1440 + (14 + 2
                    * i) * 60 - tz_offset_min && forecast@[i].weather == Icon::Cloud && (
                forecast@[i].temp matches Some(t) && t@ == "-"@),
        decreases 4 - j,
    {
        forecast.push(
            WeatherData {
                time: day * 1440 + (14 + 2 * j) * 60 - tz_offset_min,
                weather: Icon::Cloud,
                temp: Some(dash.clone()),
            },
        );
        j = j + 1;
    }
    let mut arrivals: Vec<ArrivalData> = Vec::new();
    let mut n: u32 = 1;
    while n <= 4
        invariant
            1 <= n <= 5,
            arrivals@.len() == n - 1,
            forall|i: int|
                0 <= i < arrivals@.len() ==> (#[trigger] arrivals@[i]).route@ == "---"@
                    && arrivals@[i].headsign@ == "----------"@ && arrivals@[i].arrival_times@
                    == seq![ArrivalTime::Minutes((10 * (i + 1)) as u32)],
        decreases 5 - n,
    {
        let mut times: Vec<ArrivalTime> = Vec::new();
        times.push(ArrivalTime::Minutes(10 * n));
        proof {
            assert(times@ =~= seq![ArrivalTime::Minutes((10 * n) as u32)]);
        }
        arrivals.push(
            ArrivalData {
                route: String::from_str("---"),
                headsign: String::from_str("----------"),
                arrival_times: times,
            },
        );
        n = n + 1;
    }
    DisplayModel {
        weather_now: Icon::Cloud,
        temp_now: dash,
        time: noon_utc,
        forecast,
        arrivals,
    }
}

} // verus!
