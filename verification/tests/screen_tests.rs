use epd_home::screen::{
    build_display_model, decimal_string, icon_for_weather, placeholder_model, titlecase,
    ArrivalData, ArrivalTime, Error, Icon, WeatherData,
};

#[test]
fn icon_clear_day_is_sun() {
    assert_eq!(icon_for_weather(0, false, 0), Icon::Sun);
    assert_eq!(icon_for_weather(1, false, 0), Icon::Sun);
}

#[test]
fn icon_clear_night_is_moon() {
    assert_eq!(icon_for_weather(0, true, 0), Icon::Moon);
    assert_eq!(icon_for_weather(1, true, 100), Icon::Moon);
}

#[test]
fn icon_code_buckets() {
    assert_eq!(icon_for_weather(2, false, 0), Icon::Cloud);
    assert_eq!(icon_for_weather(3, false, 0), Icon::Cloud);
    assert_eq!(icon_for_weather(45, false, 0), Icon::Cloud);
    assert_eq!(icon_for_weather(48, true, 0), Icon::Cloud);
    assert_eq!(icon_for_weather(51, false, 0), Icon::CloudDrizzle);
    assert_eq!(icon_for_weather(57, false, 0), Icon::CloudDrizzle);
    assert_eq!(icon_for_weather(61, false, 0), Icon::CloudRain);
    assert_eq!(icon_for_weather(67, false, 0), Icon::CloudRain);
    assert_eq!(icon_for_weather(80, false, 0), Icon::CloudRain);
    assert_eq!(icon_for_weather(86, false, 0), Icon::CloudRain);
    assert_eq!(icon_for_weather(71, false, 0), Icon::CloudSnow);
    assert_eq!(icon_for_weather(77, false, 0), Icon::CloudSnow);
    assert_eq!(icon_for_weather(95, false, 0), Icon::CloudLightning);
    assert_eq!(icon_for_weather(99, false, 0), Icon::CloudLightning);
    assert_eq!(icon_for_weather(40, false, 0), Icon::Cloud);
    assert_eq!(icon_for_weather(100, false, 0), Icon::Cloud);
}

#[test]
fn strong_gusts_override_calm_icons() {
    assert_eq!(icon_for_weather(0, false, 390), Icon::Wind);
    assert_eq!(icon_for_weather(0, true, 390), Icon::Wind);
    assert_eq!(icon_for_weather(2, false, 500), Icon::Wind);
}

#[test]
fn gusts_below_threshold_keep_base_icon() {
    assert_eq!(icon_for_weather(0, false, 389), Icon::Sun);
    assert_eq!(icon_for_weather(2, true, 389), Icon::Cloud);
}

#[test]
fn gusts_never_override_precipitation() {
    assert_eq!(icon_for_weather(61, false, 800), Icon::CloudRain);
    assert_eq!(icon_for_weather(71, false, 800), Icon::CloudSnow);
    assert_eq!(icon_for_weather(95, false, 800), Icon::CloudLightning);
    assert_eq!(icon_for_weather(51, false, 800), Icon::CloudDrizzle);
}

#[test]
fn icon_names_are_kebab_case() {
    assert_eq!(Icon::Sun.name(), "sun");
    assert_eq!(Icon::CloudDrizzle.name(), "cloud-drizzle");
    assert_eq!(Icon::CloudLightning.name(), "cloud-lightning");
    assert_eq!(Icon::Wind.name(), "wind");
    assert_eq!(Icon::Sunrise.name(), "sunrise");
    assert_eq!(Icon::Sunset.name(), "sunset");
}

#[test]
fn decimal_rendering() {
    assert_eq!(decimal_string(0), "0");
    assert_eq!(decimal_string(18), "18");
    assert_eq!(decimal_string(-5), "-5");
    assert_eq!(decimal_string(1234), "1234");
    assert_eq!(decimal_string(-120), "-120");
}

#[test]
fn rounded_float_matches_decimal_rendering() {
    let rounded = (18.4f64).round() as i64;
    assert_eq!(rounded, 18);
    assert_eq!(decimal_string(rounded), "18");
}

#[test]
fn arrival_time_minutes() {
    let now_ms: i64 = 1_700_000_000_000;
    assert_eq!(ArrivalTime::Now.minutes(now_ms), 0);
    assert_eq!(ArrivalTime::Minutes(7).minutes(now_ms), 7);
    // five and a half minutes away truncates to five
    assert_eq!(ArrivalTime::Time(now_ms + 5 * 60_000 + 30_000).minutes(now_ms), 5);
    // a time in the past counts as zero minutes away
    assert_eq!(ArrivalTime::Time(now_ms - 60_000).minutes(now_ms), 0);
}

#[test]
fn display_model_carries_current_weather() {
    let current = WeatherData {
        time: 100,
        weather: Icon::Sun,
        temp: Some(String::from("18")),
    };
    let m = build_display_model(current, Vec::new(), Vec::new()).unwrap();
    assert_eq!(m.weather_now, Icon::Sun);
    assert_eq!(m.temp_now, "18");
    assert_eq!(m.time, 100);
    assert!(m.forecast.is_empty());
    assert!(m.arrivals.is_empty());
}

#[test]
fn display_model_requires_current_temperature() {
    let current = WeatherData {
        time: 100,
        weather: Icon::Sunrise,
        temp: None,
    };
    let r = build_display_model(current, Vec::new(), Vec::new());
    assert!(matches!(r, Err(Error::MissingData(_))));
}

#[test]
fn placeholder_model_is_fixed() {
    // 2024-01-01 10:30 UTC in minutes since the epoch, zone UTC
    let now_min: i64 = 28_401_750;
    let m = placeholder_model(now_min, 0);
    let day = now_min / 1440;
    assert_eq!(m.weather_now, Icon::Cloud);
    assert_eq!(m.temp_now, "-");
    assert_eq!(m.time, day * 1440 + 720);
    assert_eq!(m.forecast.len(), 4);
    for (i, row) in m.forecast.iter().enumerate() {
        assert_eq!(row.time, day * 1440 + (14 + 2 * i as i64) * 60);
        assert_eq!(row.weather, Icon::Cloud);
        assert_eq!(row.temp.as_deref(), Some("-"));
    }
    assert_eq!(m.arrivals.len(), 4);
    for (i, row) in m.arrivals.iter().enumerate() {
        assert_eq!(row.route, "---");
        assert_eq!(row.headsign, "----------");
        assert!(matches!(row.arrival_times[..], [ArrivalTime::Minutes(n)] if n == 10 * (i as u32 + 1)));
    }
    let _ = ArrivalData {
        route: String::from("x"),
        headsign: String::from("y"),
        arrival_times: vec![ArrivalTime::Now],
    };
}

#[test]
fn titlecase_capitalizes_words() {
    assert_eq!(titlecase("hello world"), "Hello World");
    assert_eq!(titlecase("wellington station"), "Wellington Station");
    assert_eq!(titlecase(""), "");
}
