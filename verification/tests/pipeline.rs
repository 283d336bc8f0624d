use outages::dates::{parse_time, TimeError, ZonedTime};
use outages::extract::{extract_outages, ExtractError, Outage};
use outages::json::{outage_report, outages_to_json};

fn block(rows: &[(&str, &str)]) -> String {
    let mut s = String::from("<div class=\"info-content\">");
    for (label, value) in rows {
        s.push_str("<div class=\"row\"><div>");
        s.push_str(label);
        s.push_str("</div><div>");
        s.push_str(value);
        s.push_str("</div></div>");
    }
    s.push_str("</div>");
    s
}

fn doc(blocks: &[String]) -> String {
    let mut s = String::from("<html><body>");
    for b in blocks {
        s.push_str(b);
    }
    s.push_str("</body></html>");
    s
}

fn zt(year: i32, month: u8, day: u8, hour: u8, minute: u8, offset_minutes: i32) -> ZonedTime {
    ZonedTime { year, month, day, hour, minute, offset_minutes }
}

#[test]
fn empty_document_gives_empty_array() {
    let html = doc(&[]);
    let outages = extract_outages(&html).unwrap();
    assert!(outages.is_empty());
    assert_eq!(outage_report(&html).unwrap(), "[]");
}

#[test]
fn no_info_content_class_gives_empty_array() {
    let html = "<html><body><div class=\"other\">Planned</div></body></html>";
    assert_eq!(outage_report(html).unwrap(), "[]");
}

#[test]
fn single_block_three_rows() {
    let html = doc(&[block(&[
        ("Outage Type:", "Planned"),
        ("Location:", "St. John's, Mount Pearl"),
        ("Cause:", "Scheduled Maintenance"),
    ])]);
    let outages = extract_outages(&html).unwrap();
    assert_eq!(outages.len(), 1);
    let o = &outages[0];
    assert_eq!(o.outage_type.as_deref(), Some("Planned"));
    assert_eq!(
        o.locations,
        Some(vec!["St. John's".to_string(), "Mount Pearl".to_string()])
    );
    assert_eq!(o.cause.as_deref(), Some("Scheduled Maintenance"));
    assert_eq!(o.estimated_start_time, None);
    assert_eq!(o.estimated_restore_time, None);
    assert_eq!(o.customers_affected, None);
    assert_eq!(o.crew_status, None);
}

#[test]
fn all_fields_observed() {
    let html = doc(&[block(&[
        ("Outage Type:", "Unplanned"),
        ("Location:", "Paradise"),
        ("Est. Start:", "Mon Jan 1, 2024 1:05 PM"),
        ("Est. Restore:", "Mon Jan 1, 2024 9:30 PM"),
        ("Cause:", "Equipment damage"),
        ("Cust. Affected:", "about 250"),
        ("Crew Status:", "Crew on site"),
    ])]);
    let outages = extract_outages(&html).unwrap();
    assert_eq!(outages.len(), 1);
    let o = &outages[0];
    assert_eq!(o.outage_type.as_deref(), Some("Unplanned"));
    assert_eq!(o.locations, Some(vec!["Paradise".to_string()]));
    assert_eq!(o.estimated_start_time, Some(zt(2024, 1, 1, 13, 5, -210)));
    assert_eq!(o.estimated_restore_time, Some(zt(2024, 1, 1, 21, 30, -210)));
    assert_eq!(o.cause.as_deref(), Some("Equipment damage"));
    assert_eq!(o.customers_affected.as_deref(), Some("about 250"));
    assert_eq!(o.crew_status.as_deref(), Some("Crew on site"));
}

#[test]
fn unknown_label_aborts_run() {
    let html = doc(&[block(&[
        ("Outage Type:", "Planned"),
        ("Unexpected Field:", "whatever"),
    ])]);
    match extract_outages(&html) {
        Err(ExtractError::UnknownLabel(l)) => assert_eq!(l, "Unexpected Field:"),
        other => panic!("expected UnknownLabel, got {:?}", other),
    }
    assert!(outage_report(&html).is_err());
}

#[test]
fn missing_value_cell_aborts_run() {
    let html = doc(&[
        "<div class=\"info-content\"><div class=\"row\"><div>Outage Type:</div></div></div>"
            .to_string(),
    ]);
    assert_eq!(extract_outages(&html), Err(ExtractError::MissingValueCell));
}

#[test]
fn unknown_sentinel_is_absent_not_error() {
    assert_eq!(parse_time("Unknown"), Ok(None));
    assert_eq!(parse_time("  Unknown\n"), Ok(None));
    let html = doc(&[block(&[("Est. Start:", "Unknown")])]);
    let outages = extract_outages(&html).unwrap();
    assert_eq!(outages[0].estimated_start_time, None);
}

#[test]
fn format_a_parses_to_newfoundland_civil_time() {
    let t = parse_time("Mon Jan 1, 2024 1:05 PM").unwrap().unwrap();
    assert_eq!(t, zt(2024, 1, 1, 13, 5, -210));
}

#[test]
fn format_a_daylight_saving_offset() {
    let t = parse_time("Mon Jul 1, 2024 1:05 PM").unwrap().unwrap();
    assert_eq!(t, zt(2024, 7, 1, 13, 5, -150));
}

#[test]
fn format_a_twelve_hour_clock() {
    assert_eq!(
        parse_time("Mon Jan 1, 2024 12:00 AM").unwrap().unwrap(),
        zt(2024, 1, 1, 0, 0, -210)
    );
    assert_eq!(
        parse_time("Mon Jan 1, 2024 12:00 PM").unwrap().unwrap(),
        zt(2024, 1, 1, 12, 0, -210)
    );
}

#[test]
fn format_b_offset_converts_to_newfoundland() {
    // 13:05 at +03:30 is 09:35 UTC, which is 06:05 Newfoundland standard time.
    let t = parse_time("Mon Jan 01, 2024 01:05 PM +0330").unwrap().unwrap();
    assert_eq!(t, zt(2024, 1, 1, 6, 5, -210));
}

#[test]
fn format_b_negative_offset() {
    // 13:05 at -03:30 is Newfoundland standard time already.
    let t = parse_time("Mon Jan 01, 2024 01:05 PM -0330").unwrap().unwrap();
    assert_eq!(t, zt(2024, 1, 1, 13, 5, -210));
}

#[test]
fn format_b_crosses_the_date_line() {
    // 01:05 at +0900 on Jan 1 is Dec 31 12:35 Newfoundland time.
    let t = parse_time("Mon Jan 01, 2024 01:05 AM +0900").unwrap().unwrap();
    assert_eq!(t, zt(2023, 12, 31, 12, 35, -210));
}

#[test]
fn whitespace_runs_inside_value_are_tolerated() {
    let t = parse_time(" Mon\n Jan  1,\n 2024   1:05 PM ").unwrap().unwrap();
    assert_eq!(t, zt(2024, 1, 1, 13, 5, -210));
}

#[test]
fn malformed_dates_are_errors() {
    assert_eq!(parse_time("garbage"), Err(TimeError::BadFormat));
    assert_eq!(parse_time(""), Err(TimeError::BadFormat));
    assert_eq!(parse_time("Mon Jan 1 2024 1:05 PM"), Err(TimeError::BadFormat));
    assert_eq!(parse_time("Mon Jan 32, 2024 1:05 PM"), Err(TimeError::BadFormat));
    assert_eq!(parse_time("Mon Jan 1, 2024 13:05 PM"), Err(TimeError::BadFormat));
    // 2024-01-01 was a Monday, not a Tuesday.
    assert_eq!(parse_time("Tue Jan 1, 2024 1:05 PM"), Err(TimeError::BadFormat));
    // February 29 exists only in leap years.
    assert_eq!(parse_time("Tue Feb 29, 2023 1:05 PM"), Err(TimeError::BadFormat));
}

#[test]
fn leap_day_parses_in_leap_years() {
    let t = parse_time("Thu Feb 29, 2024 8:00 AM").unwrap().unwrap();
    assert_eq!(t, zt(2024, 2, 29, 8, 0, -210));
}

#[test]
fn skipped_local_time_is_an_error() {
    // Newfoundland clocks jump from 02:00 to 03:00 on 2024-03-10.
    let r = parse_time("Sun Mar 10, 2024 2:30 AM");
    assert_eq!(r, Err(TimeError::UnmappableLocalTime));
    let html = doc(&[block(&[("Est. Start:", "Sun Mar 10, 2024 2:30 AM")])]);
    assert_eq!(
        extract_outages(&html),
        Err(ExtractError::BadTime(TimeError::UnmappableLocalTime))
    );
}

#[test]
fn repeated_local_time_is_an_error() {
    // Newfoundland clocks fall back from 02:00 to 01:00 on 2024-11-03.
    let r = parse_time("Sun Nov 3, 2024 1:30 AM");
    assert_eq!(r, Err(TimeError::UnmappableLocalTime));
}

#[test]
fn subminute_historical_offset_is_an_error() {
    // Before standard time the Newfoundland zone kept local mean time,
    // -3:30:52 from UTC: not a whole number of minutes.
    assert_eq!(
        parse_time("Mon Jan 1, 0001 12:05 AM"),
        Err(TimeError::SubminuteOffset)
    );
}

#[test]
fn bad_date_in_block_aborts_run() {
    let html = doc(&[block(&[("Est. Restore:", "soon")])]);
    assert_eq!(
        extract_outages(&html),
        Err(ExtractError::BadTime(TimeError::BadFormat))
    );
}

#[test]
fn row_order_does_not_matter() {
    let rows = [
        ("Outage Type:", "Planned"),
        ("Location:", "Torbay"),
        ("Est. Start:", "Mon Jan 1, 2024 1:05 PM"),
        ("Cause:", "Maintenance"),
    ];
    let shuffled = [
        ("Cause:", "Maintenance"),
        ("Est. Start:", "Mon Jan 1, 2024 1:05 PM"),
        ("Outage Type:", "Planned"),
        ("Location:", "Torbay"),
    ];
    let a = extract_outages(&doc(&[block(&rows)])).unwrap();
    let b = extract_outages(&doc(&[block(&shuffled)])).unwrap();
    assert_eq!(a, b);
}

#[test]
fn blocks_come_out_in_document_order() {
    let html = doc(&[
        block(&[("Outage Type:", "First")]),
        block(&[("Outage Type:", "Second")]),
    ]);
    let outages = extract_outages(&html).unwrap();
    assert_eq!(outages.len(), 2);
    assert_eq!(outages[0].outage_type.as_deref(), Some("First"));
    assert_eq!(outages[1].outage_type.as_deref(), Some("Second"));
}

#[test]
fn json_shape_and_nulls() {
    let o = Outage {
        outage_type: Some("Planned".to_string()),
        locations: None,
        estimated_start_time: None,
        estimated_restore_time: None,
        cause: None,
        customers_affected: None,
        crew_status: None,
    };
    let s = outages_to_json(&vec![o]);
    assert_eq!(
        s,
        "[{\"outage_type\":\"Planned\",\"locations\":null,\
         \"estimated_start_time\":null,\"estimated_restore_time\":null,\
         \"cause\":null,\"customers_affected\":null,\"crew_status\":null}]"
    );
}

#[test]
fn json_time_rendering() {
    let o = Outage {
        outage_type: None,
        locations: None,
        estimated_start_time: Some(zt(2024, 1, 1, 13, 5, -210)),
        estimated_restore_time: Some(zt(2024, 7, 1, 9, 0, -150)),
        cause: None,
        customers_affected: None,
        crew_status: None,
    };
    let s = outages_to_json(&vec![o]);
    assert!(s.contains("\"estimated_start_time\":\"2024-01-01T13:05:00-03:30\""));
    assert!(s.contains("\"estimated_restore_time\":\"2024-07-01T09:00:00-02:30\""));
}

#[test]
fn json_escapes_special_characters() {
    let o = Outage {
        outage_type: Some("a \"quoted\" \\ name\nline".to_string()),
        locations: None,
        estimated_start_time: None,
        estimated_restore_time: None,
        cause: None,
        customers_affected: None,
        crew_status: None,
    };
    let s = outages_to_json(&vec![o]);
    let v: serde_json::Value = serde_json::from_str(&s).unwrap();
    assert_eq!(
        v[0]["outage_type"].as_str().unwrap(),
        "a \"quoted\" \\ name\nline"
    );
}

#[test]
fn round_trip_through_json() {
    let html = doc(&[block(&[
        ("Outage Type:", "Unplanned"),
        ("Location:", "St. John's, Mount Pearl"),
        ("Est. Start:", "Mon Jan 1, 2024 1:05 PM"),
        ("Est. Restore:", "Mon Jan 01, 2024 01:05 PM +0330"),
        ("Cause:", "High winds"),
        ("Cust. Affected:", "1,200+"),
        ("Crew Status:", "Assigned"),
    ])]);
    let outages = extract_outages(&html).unwrap();
    let s = outage_report(&html).unwrap();
    let v: serde_json::Value = serde_json::from_str(&s).unwrap();
    let arr = v.as_array().unwrap();
    assert_eq!(arr.len(), outages.len());
    let o = &outages[0];
    let j = &arr[0];
    assert_eq!(j["outage_type"].as_str(), o.outage_type.as_deref());
    assert_eq!(j["cause"].as_str(), o.cause.as_deref());
    assert_eq!(j["customers_affected"].as_str(), o.customers_affected.as_deref());
    assert_eq!(j["crew_status"].as_str(), o.crew_status.as_deref());
    let locs: Vec<String> = j["locations"]
        .as_array()
        .unwrap()
        .iter()
        .map(|x| x.as_str().unwrap().to_string())
        .collect();
    assert_eq!(Some(locs), o.locations);
    // Date-times reparse to the same instants, checked with chrono.
    for (key, t) in [
        ("estimated_start_time", o.estimated_start_time.as_ref().unwrap()),
        ("estimated_restore_time", o.estimated_restore_time.as_ref().unwrap()),
    ] {
        let text = j[key].as_str().unwrap();
        let reparsed = chrono::DateTime::parse_from_rfc3339(text).unwrap();
        let date = chrono::NaiveDate::from_ymd_opt(t.year, t.month as u32, t.day as u32).unwrap();
        let time = chrono::NaiveTime::from_hms_opt(t.hour as u32, t.minute as u32, 0).unwrap();
        let offset = chrono::FixedOffset::east_opt(t.offset_minutes * 60).unwrap();
        let expected = date.and_time(time).and_local_timezone(offset).unwrap();
        assert_eq!(reparsed.timestamp(), expected.timestamp());
        assert_eq!(reparsed.offset().local_minus_utc(), t.offset_minutes * 60);
    }
    // Both timestamps name the same instant: 13:05 +03:30 equals 06:05 -03:30.
    let start = o.estimated_start_time.unwrap();
    let restore = o.estimated_restore_time.unwrap();
    assert_eq!(restore, zt(2024, 1, 1, 6, 5, -210));
    assert_eq!(start, zt(2024, 1, 1, 13, 5, -210));
}

#[test]
fn location_splitting_trims_whitespace() {
    let html = doc(&[block(&[("Location:", " St. John's ,  Mount Pearl ,Paradise")])]);
    let outages = extract_outages(&html).unwrap();
    assert_eq!(
        outages[0].locations,
        Some(vec![
            "St. John's".to_string(),
            "Mount Pearl".to_string(),
            "Paradise".to_string(),
        ])
    );
}
