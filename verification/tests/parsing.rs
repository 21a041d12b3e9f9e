//! The command-language parser: each production and the full lines the
//! grammar describes.

use today::parser::program::{Parser, Program, TokenError};
use today::task::{Date, DateTime, Time};

#[test]
fn time_should_parse_valid_time() {
    let time = "12:43";
    let mut parser = Parser::new(time);

    let result = parser.time();
    assert!(result.is_ok());
    assert_eq!(parser.position(), 5);
    assert_eq!(result.unwrap(), Time::new(12, 43));
}

#[test]
fn time_should_return_err_given_out_of_bounds_time() {
    for input in ["26:00", "3", ":33"] {
        let mut parser = Parser::new(input);
        assert!(parser.time().is_err(), "{input}");
    }
}

#[test]
fn date_should_parse_valid_date() {
    let date = "2022-01-24";
    let mut parser = Parser::new(date);

    let result = parser.date();
    assert!(result.is_ok());
    assert_eq!(parser.position(), 10);
    assert_eq!(result.unwrap(), Date::new(2022, 1, 24));
}

#[test]
fn datetime_should_parse_valid_input() {
    let datetime = "2022-04-27 9:43";
    let mut parser = Parser::new(datetime);

    let result = parser.datetime().unwrap();

    assert_eq!(parser.position(), 15);
    assert_eq!(
        result,
        Some(DateTime::new(Date::new(2022, 4, 27), Time::new(9, 43)))
    );
}

#[test]
fn datetime_should_parse_given_now() {
    let mut parser = Parser::new("Now");

    let result = parser.datetime().unwrap();

    assert!(result.is_none());
}

#[test]
fn taskname_should_consume_everything() {
    let mut parser = Parser::new("This is a test");

    let name = parser.name().unwrap();

    assert_eq!(name.as_str(), "This is a test");
}

#[test]
fn add_should_create_new_task() {
    let mut parser = Parser::new("new 2022-12-24 00:00 It's Christmas everybody");

    let result = parser.add().unwrap();

    match result {
        Program::Add(task) => {
            assert_eq!(task.name(), "It's Christmas everybody");
            assert_eq!(
                task.due(),
                Some(DateTime::new(Date::new(2022, 12, 24), Time::new(0, 0)))
            );
        }
        _ => assert!(false),
    }
}

#[test]
fn id_should_parse_given_valid_input() {
    for (input, end) in [("add", 3), ("85dfa", 5)] {
        let mut parser = Parser::new(input);
        let result = parser.id().unwrap();
        assert_eq!(result, input);
        assert_eq!(parser.position(), end);
    }
}

#[test]
fn parse_add_line() {
    let mut parser = Parser::new("new 2022-12-24 00:00 It's Christmas everybody");
    match parser.parse().unwrap() {
        Program::Add(task) => {
            assert_eq!(task.name(), "It's Christmas everybody");
            assert_eq!(
                task.due(),
                Some(DateTime::new(Date::new(2022, 12, 24), Time::new(0, 0)))
            );
        }
        _ => panic!("expected an addition"),
    }
}

#[test]
fn parse_edit_line_without_action_token() {
    let mut parser = Parser::new("4df78 2022-05-04 18:00 4th july dinner, not lunch");
    match parser.parse().unwrap() {
        Program::Edit { id, name, due } => {
            assert_eq!(id, "4df78");
            assert_eq!(name.as_str(), "4th july dinner, not lunch");
            assert_eq!(
                due,
                Some(DateTime::new(Date::new(2022, 5, 4), Time::new(18, 0)))
            );
        }
        _ => panic!("expected an edit"),
    }
}

#[test]
fn parse_edit_line_with_action_token() {
    let mut parser = Parser::new("4df78 edit Now water the plants");
    match parser.parse().unwrap() {
        Program::Edit { id, name, due } => {
            assert_eq!(id, "4df78");
            assert_eq!(name.as_str(), "water the plants");
            assert_eq!(due, None);
        }
        _ => panic!("expected an edit"),
    }
}

#[test]
fn parse_remove_line_discards_the_rest() {
    let mut parser = Parser::new("4df78 remove anything after is ignored");
    match parser.parse().unwrap() {
        Program::Remove(id) => assert_eq!(id, "4df78"),
        _ => panic!("expected a removal"),
    }
}

#[test]
fn parse_blank_line_is_empty() {
    let mut parser = Parser::new("    ");
    assert!(matches!(parser.parse().unwrap(), Program::Empty));
    let mut parser = Parser::new("");
    assert!(matches!(parser.parse().unwrap(), Program::Empty));
}

#[test]
fn parse_rejects_new_as_action() {
    let mut parser = Parser::new("4df78 new 2022-01-01 00:00 sneaky");
    let err = parser.parse().unwrap_err();
    assert_eq!(err.position(), 6);
    assert_eq!(err.kind(), TokenError::UnexpectedToken('n'));
}

#[test]
fn parse_reports_invalid_month_at_its_column() {
    let mut parser = Parser::new("new 2022-13-01 10:00 impossible");
    let err = parser.parse().unwrap_err();
    assert_eq!(err.kind(), TokenError::InvalidDue);
    assert_eq!(err.position(), 9);
}

#[test]
fn parse_reports_invalid_hour_at_its_column() {
    let mut parser = Parser::new("new 2022-12-01 26:00 impossible");
    let err = parser.parse().unwrap_err();
    assert_eq!(err.kind(), TokenError::InvalidDue);
    assert_eq!(err.position(), 15);
}

#[test]
fn parse_reports_invalid_leap_day() {
    let mut parser = Parser::new("new 2023-02-29 10:00 impossible");
    let err = parser.parse().unwrap_err();
    assert_eq!(err.kind(), TokenError::InvalidDue);
    assert_eq!(err.position(), 12);
    let mut leap = Parser::new("new 2024-02-29 10:00 possible");
    assert!(leap.parse().is_ok());
}

#[test]
fn parse_reports_missing_name() {
    let mut parser = Parser::new("new Now   ");
    let err = parser.parse().unwrap_err();
    assert_eq!(err.kind(), TokenError::InvalidTaskName);
    assert_eq!(err.position(), 10);
}

#[test]
fn parse_reports_end_of_line_where_a_date_was_required() {
    let mut parser = Parser::new("new");
    let err = parser.parse().unwrap_err();
    assert_eq!(err.kind(), TokenError::UnexpectedEOF);
    assert_eq!(err.position(), 3);
}

#[test]
fn parse_keeps_multibyte_names_whole() {
    let mut parser = Parser::new("new Now caf\u{e9} r\u{e9}union \u{1f389}");
    match parser.parse().unwrap() {
        Program::Add(task) => {
            assert_eq!(task.name(), "caf\u{e9} r\u{e9}union \u{1f389}");
            assert_eq!(task.due(), None);
        }
        _ => panic!("expected an addition"),
    }
}

#[test]
fn name_trims_surrounding_whitespace() {
    let mut parser = Parser::new("new Now   trimmed name\t");
    match parser.parse().unwrap() {
        Program::Add(task) => assert_eq!(task.name(), "trimmed name"),
        _ => panic!("expected an addition"),
    }
}
