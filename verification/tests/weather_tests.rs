use epd_home::screen::{Error, Icon};
use epd_home::weather::{
    build_hourly_forecast, gather_weather, resolve_tz_offset, weather_from_parts,
    MeteoDailyWeather, Weather, WeatherForecast,
};

// 2024-01-01 in minutes since the epoch
const JAN1_0000: i64 = 28_401_120;
const JAN1_1000: i64 = JAN1_0000 + 600;
const JAN1_1030: i64 = JAN1_0000 + 630;

fn record(time: &str, code: u32, temp: i64) -> WeatherForecast {
    WeatherForecast {
        time: String::from(time),
        weather_code: code,
        temperature: temp,
        is_day: true,
        wind_gusts: 0,
    }
}

fn payload(forecast: Vec<WeatherForecast>, sunrises: Vec<&str>, sunsets: Vec<&str>) -> Weather {
    Weather {
        current: WeatherForecast {
            time: String::from("2024-01-01T10:30"),
            weather_code: 0,
            temperature: 18,
            is_day: true,
            wind_gusts: 100,
        },
        forecast,
        sunrises: sunrises.into_iter().map(String::from).collect(),
        sunsets: sunsets.into_iter().map(String::from).collect(),
    }
}

#[test]
fn current_sample_is_classified_and_rendered() {
    let w = payload(vec![record("2024-01-01T10:00", 3, 15)], vec![], vec![]);
    let (current, _) = gather_weather(&w, JAN1_1030, 0).unwrap();
    assert_eq!(current.time, JAN1_1030);
    assert_eq!(current.weather, Icon::Sun);
    assert_eq!(current.temp.as_deref(), Some("18"));
}

#[test]
fn two_sun_events_fill_distinct_nonadjacent_slots() {
    // sunrises at 11:00 and 15:00 fall in the first and third two-hour
    // windows; the suppressed windows take the hourly sample
    let w = payload(
        vec![record("2024-01-01T10:00", 3, 15)],
        vec!["2024-01-01T11:00", "2024-01-01T15:00"],
        vec![],
    );
    let (_, forecast) = gather_weather(&w, JAN1_1030, 0).unwrap();
    assert_eq!(forecast.len(), 4);
    assert_eq!(forecast[0].weather, Icon::Sunrise);
    assert_eq!(forecast[0].time, JAN1_0000 + 660);
    assert_eq!(forecast[0].temp, None);
    assert_eq!(forecast[1].weather, Icon::Cloud);
    assert_eq!(forecast[1].time, JAN1_1000);
    assert_eq!(forecast[2].weather, Icon::Sunrise);
    assert_eq!(forecast[2].time, JAN1_0000 + 900);
    assert_eq!(forecast[3].weather, Icon::Cloud);
    for pair in forecast.windows(2) {
        let both_sun = matches!(pair[0].weather, Icon::Sunrise | Icon::Sunset)
            && matches!(pair[1].weather, Icon::Sunrise | Icon::Sunset);
        assert!(!both_sun);
    }
}

#[test]
fn without_sun_events_every_slot_is_filled() {
    let w = payload(vec![record("2024-01-01T10:00", 61, 15)], vec![], vec![]);
    let (_, forecast) = gather_weather(&w, JAN1_1030, 0).unwrap();
    assert_eq!(forecast.len(), 4);
    for slot in &forecast {
        assert_eq!(slot.weather, Icon::CloudRain);
        assert_eq!(slot.time, JAN1_1000);
        assert_eq!(slot.temp.as_deref(), Some("15"));
    }
}

#[test]
fn latest_sample_in_window_wins() {
    let w = payload(
        vec![
            record("2024-01-01T10:00", 0, 10),
            record("2024-01-01T12:00", 61, 11),
            record("2024-01-01T14:00", 71, 12),
        ],
        vec![],
        vec![],
    );
    let (_, forecast) = gather_weather(&w, JAN1_1030, 0).unwrap();
    assert_eq!(forecast.len(), 4);
    // window ends 12:00, 14:00, 16:00, 18:00: the latest listed sample at or
    // before each end
    assert_eq!(forecast[0].time, JAN1_0000 + 720);
    assert_eq!(forecast[1].time, JAN1_0000 + 840);
    assert_eq!(forecast[2].time, JAN1_0000 + 840);
    assert_eq!(forecast[3].time, JAN1_0000 + 840);
}

#[test]
fn unparsable_hourly_time_aborts() {
    let w = payload(vec![record("not a time", 3, 15)], vec![], vec![]);
    assert!(matches!(gather_weather(&w, JAN1_1030, 0), Err(Error::InvalidDateFormat)));
}

#[test]
fn unparsable_sun_time_aborts() {
    let w = payload(
        vec![record("2024-01-01T10:00", 3, 15)],
        vec![],
        vec!["2024-13-99T99:99"],
    );
    assert!(matches!(gather_weather(&w, JAN1_1030, 0), Err(Error::InvalidDateFormat)));
}

#[test]
fn timezone_resolution() {
    // New Zealand daylight time in January is thirteen hours east
    assert_eq!(resolve_tz_offset("Pacific/Auckland", JAN1_1030).unwrap(), 780);
    assert_eq!(resolve_tz_offset("UTC", JAN1_1030).unwrap(), 0);
    assert!(matches!(
        resolve_tz_offset("Nowhere/Special", JAN1_1030),
        Err(Error::InvalidTimezone)
    ));
}

#[test]
fn hourly_zip_builds_records() {
    let r = build_hourly_forecast(
        vec![String::from("2024-01-01T10:00"), String::from("2024-01-01T11:00")],
        vec![0, 61],
        vec![10, -2],
        vec![1, 0],
        vec![50, 400],
    );
    assert_eq!(r.len(), 2);
    assert_eq!(r[0].time, "2024-01-01T10:00");
    assert_eq!(r[0].weather_code, 0);
    assert_eq!(r[0].temperature, 10);
    assert!(r[0].is_day);
    assert_eq!(r[0].wind_gusts, 50);
    assert_eq!(r[1].time, "2024-01-01T11:00");
    assert!(!r[1].is_day);
    assert_eq!(r[1].temperature, -2);
}

#[test]
fn weather_assembles_from_parts() {
    let current = record("2024-01-01T10:00", 0, 10);
    let daily = MeteoDailyWeather {
        sunrise: vec![String::from("2024-01-01T06:00")],
        sunset: vec![String::from("2024-01-01T20:00")],
    };
    let w = weather_from_parts(current, vec![record("2024-01-01T11:00", 2, 11)], daily);
    assert_eq!(w.current.time, "2024-01-01T10:00");
    assert_eq!(w.forecast.len(), 1);
    assert_eq!(w.sunrises, vec![String::from("2024-01-01T06:00")]);
    assert_eq!(w.sunsets, vec![String::from("2024-01-01T20:00")]);
}
