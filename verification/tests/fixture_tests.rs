use fixture_next::{
    last_fixture, next_fixture, no_fixture_message, parse_fixtures, team_matches, Date, Status,
};

fn ymd(year: i32, month: u8, day: u8) -> Date {
    Date { year, month, day }
}

const LIST: &str = "\
# statuses
2026-09-12|Arsenal|Chelsea|Premier League|postponed
2026-09-13|Arsenal|Leeds||
2026-09-14,Arsenal,Fulham,,PPD
2026-09-15|Everton|Arsenal|Cup|Cancelled
2026-09-16|Arsenal|Spurs|Cup|canceled
2026-09-17|Arsenal|Wolves|Cup|scheduled
";

#[test]
fn statuses_are_read_with_aliases_in_any_case() {
    let fixtures = parse_fixtures(LIST).expect("list should parse");
    let statuses: Vec<Status> = fixtures.iter().map(|f| f.status).collect();
    assert_eq!(
        statuses,
        vec![
            Status::Postponed,
            Status::Scheduled,
            Status::Postponed,
            Status::Cancelled,
            Status::Cancelled,
            Status::Scheduled,
        ]
    );
    assert_eq!(fixtures[1].competition, None);
    assert_eq!(fixtures[0].competition.as_deref(), Some("Premier League"));
}

#[test]
fn postponed_and_cancelled_fixtures_are_skipped() {
    let fixtures = parse_fixtures(LIST).expect("list should parse");
    let next = next_fixture(&fixtures, "Arsenal", ymd(2026, 9, 1)).expect("a next fixture");
    assert_eq!(next.away, "Leeds");
    let next = next_fixture(&fixtures, "Arsenal", ymd(2026, 9, 14)).expect("a next fixture");
    assert_eq!(next.away, "Wolves");
    let last = last_fixture(&fixtures, "Arsenal", ymd(2026, 9, 17)).expect("a last fixture");
    assert_eq!(last.away, "Leeds");
    assert!(next_fixture(&fixtures, "Everton", ymd(2026, 9, 1)).is_none());
}

#[test]
fn unknown_status_is_an_error() {
    let err = parse_fixtures("2026-09-12|Arsenal|Chelsea|League|Extra").unwrap_err();
    assert_eq!(err.line, 1);
    assert_eq!(err.message, "unknown status 'Extra'");
}

#[test]
fn too_many_fields_is_an_error() {
    let err = parse_fixtures("\n2026-09-12|A|B|C|scheduled|F").unwrap_err();
    assert_eq!(err.line, 2);
    assert_eq!(err.message, "expected 3 to 5 fields, got 6");
    assert_eq!(err.to_string(), "line 2: expected 3 to 5 fields, got 6");
}

#[test]
fn errors_carry_their_line_number_and_message() {
    let err = parse_fixtures("# c\n\n2026-09-12|Arsenal|Chelsea\n2026-02-30|A|B\n").unwrap_err();
    assert_eq!(err.line, 4);
    assert_eq!(err.message, "day 30 is out of range for 2026-02");

    let err = parse_fixtures("2026-09-12||Chelsea").unwrap_err();
    assert_eq!(err.message, "team name cannot be empty");

    let err = parse_fixtures("2026-09-12,Arsenal").unwrap_err();
    assert_eq!(err.message, "expected 3 to 5 fields, got 2");

    let err = parse_fixtures("2026-09-12,Arsenal,Chelsea,\"Cup").unwrap_err();
    assert_eq!(err.message, "unterminated quoted field");

    let err = parse_fixtures("12-09-2026|Arsenal|Chelsea").unwrap_err();
    assert_eq!(err.message, "bad day in '12-09-2026'");
}

#[test]
fn fields_are_trimmed_and_crlf_lines_accepted() {
    let fixtures =
        parse_fixtures("  2026-09-12 |  Arsenal \t| Chelsea  | Premier League \r\n").unwrap();
    assert_eq!(fixtures.len(), 1);
    assert_eq!(fixtures[0].date, ymd(2026, 9, 12));
    assert_eq!(fixtures[0].home, "Arsenal");
    assert_eq!(fixtures[0].away, "Chelsea");
    assert_eq!(fixtures[0].competition.as_deref(), Some("Premier League"));
}

#[test]
fn team_matching_is_whole_name_and_ignores_ascii_case() {
    let fixtures = parse_fixtures("2026-09-12|Arsenal U21|Chelsea").unwrap();
    assert!(team_matches(&fixtures[0], "arsenal u21"));
    assert!(team_matches(&fixtures[0], "CHELSEA"));
    assert!(!team_matches(&fixtures[0], "Arsenal"));
    assert!(!team_matches(&fixtures[0], " Chelsea"));
}

#[test]
fn last_is_before_next_for_the_same_date() {
    let fixtures =
        parse_fixtures("2026-09-12|Arsenal|Chelsea\n2026-09-10|Leeds|Arsenal\n").unwrap();
    let on = ymd(2026, 9, 12);
    let last = last_fixture(&fixtures, "arsenal", on).unwrap();
    let next = next_fixture(&fixtures, "ARSENAL ", on).unwrap();
    assert_eq!(last.date, ymd(2026, 9, 10));
    assert_eq!(next.date, ymd(2026, 9, 12));
    assert!(last.date < next.date);
}

#[test]
fn summary_line_and_not_found_message() {
    let fixtures = parse_fixtures(
        "2026-09-12|Arsenal|Chelsea|Premier League\n2026-09-13|Arsenal|Leeds\n",
    )
    .unwrap();
    assert_eq!(fixtures[0].summary(), "2026-09-12 Arsenal vs Chelsea (Premier League)");
    assert_eq!(fixtures[1].summary(), "2026-09-13 Arsenal vs Leeds");
    assert_eq!(
        no_fixture_message(false, "Sunderland"),
        "no upcoming fixture found for Sunderland"
    );
    assert_eq!(no_fixture_message(true, "Sunderland"), "no past fixture found for Sunderland");
}

#[test]
fn csv_quotes_keep_commas_and_are_dropped() {
    let fixtures = parse_fixtures("2026-09-27, Everton ,\"Arsenal\",\"A, B\"\"C\"").unwrap();
    assert_eq!(fixtures[0].home, "Everton");
    assert_eq!(fixtures[0].away, "Arsenal");
    assert_eq!(fixtures[0].competition.as_deref(), Some("A, BC"));
}
