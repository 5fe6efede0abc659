use inkcal::{
    day_key, event_from_properties, group_by_day, index_text, parse_ical, plan_output, read_events,
    sort_instants, Args, CalendarError, Event, RawProperty,
};

fn doc(events: &[&[&str]]) -> String {
    let mut s = String::from("BEGIN:VCALENDAR\r\nVERSION:2.0\r\nPRODID:-//test//EN\r\n");
    for ev in events {
        s.push_str("BEGIN:VEVENT\r\n");
        for line in ev.iter() {
            s.push_str(line);
            s.push_str("\r\n");
        }
        s.push_str("END:VEVENT\r\n");
    }
    s.push_str("END:VCALENDAR\r\n");
    s
}

fn args(limit: usize) -> Args {
    Args { path: None, output_dir: String::from("out/"), limit_days: limit }
}

fn event(name: &str, start: u64) -> Event {
    Event {
        name: name.to_string(),
        start_time: start,
        end_time: 0,
        description: String::new(),
        status: String::new(),
    }
}

fn prop(name: &str, value: Option<&str>) -> RawProperty {
    RawProperty { name: name.to_string(), value: value.map(|v| v.to_string()) }
}

#[test]
fn start_and_end_fall_on_their_day() {
    let text = doc(&[&["SUMMARY:Meeting", "DTSTART:20240101T090000", "DTEND:20240101T100000"]]);
    let evs = read_events(text.as_bytes()).unwrap();
    assert_eq!(evs.len(), 1);
    assert_eq!(evs[0].start_time, 1704099600);
    assert_eq!(evs[0].end_time, 1704103200);
    assert_eq!(day_key(evs[0].start_time).unwrap(), "01.01.2024");
    assert_eq!(day_key(evs[0].end_time).unwrap(), "01.01.2024");
}

#[test]
fn missing_summary_reads_as_empty() {
    let text = doc(&[&[
        "DTSTART:20240305T120000",
        "DTEND:20240305T130000",
        "STATUS:CONFIRMED",
        "DESCRIPTION:Lunch",
    ]]);
    let evs = read_events(text.as_bytes()).unwrap();
    assert_eq!(evs.len(), 1);
    assert_eq!(evs[0].name, "");
    assert_eq!(evs[0].start_time, 1709640000);
    assert_eq!(evs[0].end_time, 1709643600);
    assert_eq!(evs[0].status, "CONFIRMED");
    assert_eq!(evs[0].description, "Lunch");
}

#[test]
fn same_day_events_share_one_file() {
    let text = doc(&[
        &["SUMMARY:Late", "DTSTART:20240101T180000"],
        &["SUMMARY:Early", "DTSTART:20240101T070000"],
    ]);
    let plan = parse_ical(text.as_bytes(), &args(20)).unwrap();
    assert_eq!(plan.writes.len(), 1);
    assert_eq!(plan.writes[0].key, "01.01.2024");
    assert_eq!(plan.writes[0].path, "out/01.01.2024");
    let names: Vec<&str> = plan.writes[0].events.iter().map(|e| e.name.as_str()).collect();
    assert_eq!(names, vec!["Late", "Early"]);
    assert_eq!(plan.kept, vec![1704132000]);
    assert_eq!(plan.index, "1704132000\n");
}

#[test]
fn limit_two_of_three_days() {
    let text = doc(&[
        &["SUMMARY:c", "DTSTART:20240103T080000"],
        &["SUMMARY:a", "DTSTART:20240101T080000"],
        &["SUMMARY:b", "DTSTART:20240102T080000"],
    ]);
    let plan = parse_ical(text.as_bytes(), &args(2)).unwrap();
    assert_eq!(plan.writes.len(), 3);
    assert_eq!(plan.deletions, vec![String::from("out/03.01.2024")]);
    assert_eq!(plan.kept, vec![1704096000, 1704182400]);
    assert_eq!(plan.index, "1704096000\n1704182400\n");
    assert_eq!(plan.index_path, "out/index.txt");
}

#[test]
fn one_file_per_distinct_day_whatever_the_limit() {
    let text = doc(&[
        &["DTSTART:20240101T080000"],
        &["DTSTART:20240102T080000"],
        &["DTSTART:20240101T230000"],
        &["DTSTART:20231231T080000"],
    ]);
    for limit in [0, 1, 3, 20] {
        let plan = parse_ical(text.as_bytes(), &args(limit)).unwrap();
        assert_eq!(plan.writes.len(), 3);
        assert_eq!(plan.writes.len(), plan.kept.len() + plan.deletions.len());
    }
}

#[test]
fn index_is_ascending_and_bounded() {
    let text = doc(&[
        &["DTSTART:20240110T080000"],
        &["DTSTART:20240102T080000"],
        &["DTSTART:20240105T080000"],
        &["DTSTART:20240101T080000"],
    ]);
    let plan = parse_ical(text.as_bytes(), &args(3)).unwrap();
    assert_eq!(plan.kept.len(), 3);
    assert!(plan.kept.windows(2).all(|w| w[0] < w[1]));
    assert_eq!(plan.deletions, vec![String::from("out/10.01.2024")]);
    assert_eq!(plan.index.lines().count(), 3);
}

#[test]
fn zero_limit_keeps_nothing() {
    let text = doc(&[&["DTSTART:20240101T080000"]]);
    let plan = parse_ical(text.as_bytes(), &args(0)).unwrap();
    assert!(plan.kept.is_empty());
    assert_eq!(plan.index, "");
    assert_eq!(plan.deletions, vec![String::from("out/01.01.2024")]);
}

#[test]
fn two_runs_plan_alike() {
    let text = doc(&[
        &["SUMMARY:x", "DTSTART:20240101T080000", "DTEND:20240101T090000"],
        &["SUMMARY:y", "DTSTART:20240104T080000"],
        &["SUMMARY:z", "DTSTART:20240102T080000"],
    ]);
    let a = parse_ical(text.as_bytes(), &args(2)).unwrap();
    let b = parse_ical(text.as_bytes(), &args(2)).unwrap();
    assert_eq!(format!("{:?}", a), format!("{:?}", b));
}

#[test]
fn empty_document_has_no_calendar() {
    assert_eq!(read_events(b"").unwrap_err(), CalendarError::NoCalendar);
}

#[test]
fn unterminated_calendar_is_malformed() {
    let text = "BEGIN:VCALENDAR\r\nBEGIN:VEVENT\r\nSUMMARY:x\r\n";
    assert_eq!(read_events(text.as_bytes()).unwrap_err(), CalendarError::MalformedCalendar);
}

#[test]
fn bad_start_is_fatal() {
    let text = doc(&[&["SUMMARY:x", "DTSTART:2024-01-01"]]);
    assert_eq!(parse_ical(text.as_bytes(), &args(20)).unwrap_err(), CalendarError::BadTimestamp);
}

#[test]
fn bad_end_is_fatal() {
    let text = doc(&[&["DTSTART:20240101T080000", "DTEND:20241301T080000"]]);
    assert_eq!(read_events(text.as_bytes()).unwrap_err(), CalendarError::BadTimestamp);
}

#[test]
fn properties_later_override_earlier() {
    let props = vec![
        prop("SUMMARY", Some("first")),
        prop("SUMMARY", Some("second")),
        prop("LOCATION", Some("room")),
        prop("STATUS", None),
        prop("DTSTART", Some("19700101T000001")),
    ];
    let ev = event_from_properties(&props).unwrap();
    assert_eq!(ev.name, "second");
    assert_eq!(ev.status, "");
    assert_eq!(ev.start_time, 1);
    assert_eq!(ev.end_time, 0);
}

#[test]
fn start_without_value_is_fatal() {
    let props = vec![prop("DTSTART", None)];
    assert_eq!(event_from_properties(&props).unwrap_err(), CalendarError::BadTimestamp);
}

#[test]
fn grouping_keeps_first_start() {
    let evs = vec![event("a", 1704099600), event("b", 1704096000), event("c", 1704182400)];
    let bs = group_by_day(&evs).unwrap();
    assert_eq!(bs.len(), 2);
    assert_eq!(bs[0].key, "01.01.2024");
    assert_eq!(bs[0].first_start, 1704099600);
    assert_eq!(bs[0].events.len(), 2);
    assert_eq!(bs[1].key, "02.01.2024");
}

#[test]
fn start_before_epoch_keeps_its_date() {
    let text = doc(&[&["DTSTART:19691231T235959"]]);
    let evs = read_events(text.as_bytes()).unwrap();
    assert_eq!(evs[0].start_time, u64::MAX);
    assert_eq!(day_key(evs[0].start_time).unwrap(), "31.12.1969");
}

#[test]
fn unrepresentable_start_has_no_day() {
    let evs = vec![event("far", i64::MAX as u64)];
    assert_eq!(day_key(i64::MAX as u64), None);
    assert_eq!(group_by_day(&evs).unwrap_err(), CalendarError::DayOutOfRange);
}

#[test]
fn planning_without_buckets() {
    let plan = plan_output(&Vec::new(), &String::from("d/"), 5).unwrap();
    assert!(plan.writes.is_empty());
    assert!(plan.deletions.is_empty());
    assert_eq!(plan.index, "");
    assert_eq!(plan.index_path, "d/index.txt");
}

#[test]
fn instants_sort_ascending() {
    assert_eq!(sort_instants(&vec![5, 1, 4, 1, 0]), vec![0, 1, 1, 4, 5]);
    assert_eq!(sort_instants(&vec![]), Vec::<u64>::new());
}

#[test]
fn index_lines_are_decimal() {
    assert_eq!(index_text(&vec![0, 7, 1704099600]), "0\n7\n1704099600\n");
}
