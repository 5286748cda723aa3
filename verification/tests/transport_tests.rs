use epd_home::screen::ArrivalTime;
use epd_home::transport::{
    arrival_times_for, classify_arrival, gather_arrivals, merge_stop_arrivals,
    min_arrival_minutes, RouteTrip, StopArrival, StopArrivalsResponse, StopRouteTripArrival,
};

const NOW_MS: i64 = 1_700_000_000_000;

fn arrival(ts_ms: i64, updated: Option<i64>) -> StopArrival {
    StopArrival {
        trip_id: String::from("trip"),
        stop_sequence: 1,
        start_timestamp: ts_ms - 600_000,
        arrival_timestamp: ts_ms,
        updated_arrival_timestamp: updated,
    }
}

fn group(route: &str, headsign: &str, minutes: &[i64]) -> StopRouteTripArrival {
    StopRouteTripArrival {
        route_trip: RouteTrip {
            route_id: format!("id-{route}"),
            route_short_name: String::from(route),
            route_long_name: format!("{route} long"),
            route_type: 3,
            route_color: String::from("000000"),
            route_text_color: String::from("ffffff"),
            stop_headsign: String::from(headsign),
        },
        arrivals: minutes.iter().map(|m| arrival(NOW_MS + m * 60_000, None)).collect(),
    }
}

#[test]
fn classification_boundaries() {
    // under one minute away, including the past, is now
    assert_eq!(classify_arrival(NOW_MS, NOW_MS), ArrivalTime::Now);
    assert_eq!(classify_arrival(NOW_MS + 59_999, NOW_MS), ArrivalTime::Now);
    assert_eq!(classify_arrival(NOW_MS - 3_600_000, NOW_MS), ArrivalTime::Now);
    // exactly one minute is counted in minutes
    assert_eq!(classify_arrival(NOW_MS + 60_000, NOW_MS), ArrivalTime::Minutes(1));
    assert_eq!(classify_arrival(NOW_MS + 99 * 60_000 + 59_999, NOW_MS), ArrivalTime::Minutes(99));
    // exactly one hundred minutes becomes an absolute time
    let far = NOW_MS + 100 * 60_000;
    assert_eq!(classify_arrival(far, NOW_MS), ArrivalTime::Time(far));
}

#[test]
fn live_updates_are_preferred() {
    let arrivals = vec![arrival(NOW_MS + 50 * 60_000, Some(NOW_MS + 5 * 60_000))];
    let times = arrival_times_for(&arrivals, NOW_MS);
    assert_eq!(times, vec![ArrivalTime::Minutes(5)]);
}

#[test]
fn truncation_keeps_near_term_run() {
    // the third arrival is dropped by the take of two, so a near-term run of
    // two is kept whole
    let arrivals = vec![
        arrival(NOW_MS, None),
        arrival(NOW_MS + 5 * 60_000, None),
        arrival(NOW_MS + 200 * 60_000, None),
    ];
    let times = arrival_times_for(&arrivals, NOW_MS);
    assert_eq!(times, vec![ArrivalTime::Now, ArrivalTime::Minutes(5)]);
}

#[test]
fn truncation_includes_first_far_future_time() {
    let far = NOW_MS + 200 * 60_000;
    let arrivals = vec![arrival(NOW_MS + 5 * 60_000, None), arrival(far, None)];
    let times = arrival_times_for(&arrivals, NOW_MS);
    assert_eq!(times, vec![ArrivalTime::Minutes(5), ArrivalTime::Time(far)]);
}

#[test]
fn truncation_with_far_future_first_keeps_only_it() {
    let far1 = NOW_MS + 200 * 60_000;
    let arrivals = vec![arrival(far1, None), arrival(far1 + 60_000, None)];
    let times = arrival_times_for(&arrivals, NOW_MS);
    assert_eq!(times, vec![ArrivalTime::Time(far1)]);
}

#[test]
fn minimum_minutes_over_times() {
    let times = vec![ArrivalTime::Minutes(7), ArrivalTime::Now];
    assert_eq!(min_arrival_minutes(&times, NOW_MS), 0);
    let times = vec![ArrivalTime::Minutes(7), ArrivalTime::Time(NOW_MS + 120 * 60_000)];
    assert_eq!(min_arrival_minutes(&times, NOW_MS), 7);
}

#[test]
fn merge_concatenates_known_stops_in_order() {
    let results = vec![
        Some(StopArrivalsResponse { stop_arrivals: vec![group("A", "x", &[5]), group("B", "y", &[6])] }),
        None,
        Some(StopArrivalsResponse { stop_arrivals: vec![group("C", "z", &[7])] }),
    ];
    let merged = merge_stop_arrivals(results);
    assert_eq!(merged.len(), 3);
    assert_eq!(merged[0].route_trip.route_short_name, "A");
    assert_eq!(merged[1].route_trip.route_short_name, "B");
    assert_eq!(merged[2].route_trip.route_short_name, "C");
}

#[test]
fn selection_caps_at_four_closest() {
    let groups = vec![
        group("R10", "h", &[10]),
        group("R20", "h", &[20]),
        group("R30", "h", &[30]),
        group("R40", "h", &[40]),
        group("R05", "h", &[5]),
        group("R50", "h", &[50]),
        group("R60", "h", &[55]),
        group("R70", "h", &[56]),
        group("R80", "h", &[57]),
        group("R90", "h", &[58]),
    ];
    let r = gather_arrivals(groups, NOW_MS);
    assert_eq!(r.len(), 4);
    let mut routes: Vec<&str> = r.iter().map(|d| d.route.as_str()).collect();
    routes.sort();
    assert_eq!(routes, vec!["R05", "R10", "R20", "R30"]);
}

#[test]
fn groups_with_no_arrivals_are_dropped() {
    let groups = vec![group("A", "h", &[]), group("B", "h", &[5])];
    let r = gather_arrivals(groups, NOW_MS);
    assert_eq!(r.len(), 1);
    assert_eq!(r[0].route, "B");
}

#[test]
fn near_bucket_precedes_far_bucket() {
    // the far group's route name sorts first alphabetically, yet the group
    // due now is shown first
    let groups = vec![group("Alpha", "h", &[150]), group("Zulu", "h", &[0])];
    let r = gather_arrivals(groups, NOW_MS);
    assert_eq!(r.len(), 2);
    assert_eq!(r[0].route, "Zulu");
    assert_eq!(r[1].route, "Alpha");
}

#[test]
fn near_term_order_is_alphabetical_despite_minute_jitter() {
    let first = gather_arrivals(vec![group("B", "h", &[30]), group("A", "h", &[40])], NOW_MS);
    let second = gather_arrivals(vec![group("B", "h", &[40]), group("A", "h", &[30])], NOW_MS);
    let firsts: Vec<&str> = first.iter().map(|d| d.route.as_str()).collect();
    let seconds: Vec<&str> = second.iter().map(|d| d.route.as_str()).collect();
    assert_eq!(firsts, vec!["A", "B"]);
    assert_eq!(seconds, vec!["A", "B"]);
}

#[test]
fn equal_routes_order_by_headsign() {
    let groups = vec![group("A", "york", &[20]), group("A", "xray", &[10])];
    let r = gather_arrivals(groups, NOW_MS);
    assert_eq!(r.len(), 2);
    assert_eq!(r[0].headsign, "xray");
    assert_eq!(r[1].headsign, "york");
}

#[test]
fn classified_times_survive_selection() {
    let groups = vec![group("A", "h", &[0, 5])];
    let r = gather_arrivals(groups, NOW_MS);
    assert_eq!(r.len(), 1);
    assert_eq!(r[0].arrival_times, vec![ArrivalTime::Now, ArrivalTime::Minutes(5)]);
}
