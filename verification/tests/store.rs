//! The task store: identity, editing, merging and the "due today"
//! view.

use today::commands::{self, ResolveError};
use today::parser::program::{Parser, Program};
use today::task::{Date, DateTime, Task, TaskError, TaskId, TaskList, TaskName, Time, Today};

fn task(bits: u128, name: &str, due: Option<DateTime>) -> Task {
    Task::from_parts(TaskId::from_bits(bits), TaskName::new(name).unwrap(), due)
}

fn at(y: i32, m: u32, d: u32, hh: u32, mm: u32) -> DateTime {
    DateTime::new(Date::new(y, m, d), Time::new(hh, mm))
}

#[test]
fn new_taskname_trims_and_rejects_blank() {
    assert!(TaskName::new("").is_none());
    assert!(TaskName::new(" \t\n ").is_none());
    assert_eq!(TaskName::new("  leading").unwrap().as_str(), "leading");
    assert_eq!(TaskName::new("trailing ").unwrap().as_str(), "trailing");
    assert_eq!(TaskName::new("   mixed\n ").unwrap().as_str(), "mixed");
}

#[test]
fn task_id_renders_as_fixed_length_hex() {
    let id = TaskId::from_bits(0x0123456789abcdef0123456789abcdefu128);
    assert_eq!(id.to_hex(), "0123456789abcdef0123456789abcdef");
    let small = TaskId::from_bits(0xabc);
    assert_eq!(small.to_hex(), "00000000000000000000000000000abc");
    assert_eq!(small.to_hex().len(), 32);
}

#[test]
fn fresh_ids_render_as_32_hex_digits() {
    let id = TaskId::new();
    let hex = id.to_hex();
    assert_eq!(hex.len(), 32);
    assert!(hex.chars().all(|c| c.is_ascii_hexdigit() && !c.is_ascii_uppercase()));
}

#[test]
fn edit_replaces_by_id_and_returns_previous() {
    let mut tasks = TaskList::new();
    tasks.add(task(1, "one", None));
    tasks.add(task(2, "two", None));

    let replacement = task(2, "two again", Some(at(2023, 1, 1, 8, 30)));
    let prev = tasks.edit(replacement).unwrap();
    assert_eq!(prev.name(), "two");

    let slice = tasks.as_slice();
    assert_eq!(slice.len(), 2);
    assert_eq!(slice[1].name(), "two again");
}

#[test]
fn edit_of_unknown_id_fails_without_mutation() {
    let mut tasks = TaskList::new();
    tasks.add(task(1, "one", None));

    let err = tasks.edit(task(9, "ghost", None)).unwrap_err();
    let TaskError::InvalidId(id) = err;
    assert_eq!(id.bits(), 9);
    assert_eq!(tasks.len(), 1);
    assert_eq!(tasks.as_slice()[0].name(), "one");
}

#[test]
fn remove_deletes_every_record_with_the_id() {
    let mut tasks = TaskList::new();
    tasks.add(task(1, "one", None));
    tasks.add(task(2, "two", None));
    tasks.add(task(1, "one again", None));

    tasks.remove(&TaskId::from_bits(1));
    assert_eq!(tasks.len(), 1);
    assert_eq!(tasks.as_slice()[0].name(), "two");
}

#[test]
fn extend_sorts_and_collapses_exact_duplicates() {
    let mut tasks = TaskList::new();
    tasks.add(task(7, "late", None));
    tasks.add(task(1, "early", None));

    let incoming = vec![task(7, "late", None), task(3, "middle", None)];
    tasks.extend(&incoming);

    let names: Vec<&str> = tasks.as_slice().iter().map(|t| t.name()).collect();
    assert_eq!(names, vec!["early", "middle", "late"]);
}

#[test]
fn extend_keeps_same_id_with_different_content() {
    let mut tasks = TaskList::new();
    tasks.add(task(5, "a name", None));
    let incoming = vec![task(5, "another name", None)];
    tasks.extend(&incoming);
    assert_eq!(tasks.len(), 2);
}

#[test]
fn today_includes_due_and_unscheduled_only() {
    let today = Date::new(2023, 6, 1);
    let records = vec![
        task(1, "past", Some(at(2023, 5, 30, 23, 59))),
        task(2, "future", Some(at(2023, 6, 2, 0, 0))),
        task(3, "asap", None),
        task(4, "today late hour", Some(at(2023, 6, 1, 23, 0))),
    ];
    let view = Today::with_date(&records, today);
    let due: Vec<String> = view
        .remaining()
        .iter()
        .map(|t| t.name().to_owned())
        .collect();
    assert_eq!(due, vec!["past", "asap", "today late hour"]);
}

#[test]
fn today_next_walks_due_tasks_in_store_order() {
    let today = Date::new(2023, 6, 1);
    let records = vec![
        task(1, "past", Some(at(2023, 5, 30, 12, 0))),
        task(2, "future", Some(at(2023, 7, 1, 0, 0))),
        task(3, "asap", None),
    ];
    let mut view = Today::with_date(&records, today);
    assert_eq!(view.next().unwrap().name(), "past");
    assert_eq!(view.next().unwrap().name(), "asap");
    assert!(view.next().is_none());
    assert!(view.next().is_none());
}

#[test]
fn today_view_from_the_clock_keeps_unscheduled_tasks() {
    let mut tasks = TaskList::new();
    tasks.add(task(1, "asap", None));
    // Whatever the calendar says right now, an unscheduled task and a
    // task from the distant past are due; one due far ahead is not.
    tasks.add(task(2, "long past", Some(at(1999, 1, 1, 0, 0))));
    tasks.add(task(3, "far future", Some(at(262000, 1, 1, 0, 0))));
    let due: Vec<String> = tasks
        .today()
        .remaining()
        .iter()
        .map(|t| t.name().to_owned())
        .collect();
    assert_eq!(due, vec!["asap", "long past"]);
}

#[test]
fn remove_by_prefix_needs_exactly_one_match() {
    let mut tasks = TaskList::new();
    tasks.add(task(0xaaaa0000_00000000_00000000_00000001, "first", None));
    tasks.add(task(0xaaaa0000_00000000_00000000_00000002, "second", None));
    tasks.add(task(0xbbbb0000_00000000_00000000_00000003, "third", None));

    assert_eq!(
        commands::remove("cccc", &mut tasks),
        Err(ResolveError::NotFound)
    );
    assert_eq!(
        commands::remove("aaaa", &mut tasks),
        Err(ResolveError::Ambiguous)
    );
    assert_eq!(tasks.len(), 3);

    assert_eq!(commands::remove("bbbb", &mut tasks), Ok(()));
    assert_eq!(tasks.len(), 2);
    assert!(tasks.as_slice().iter().all(|t| t.name() != "third"));
}

#[test]
fn apply_program_runs_parsed_lines() {
    let mut tasks = TaskList::new();
    tasks.add(task(
        0x4df78000_00000000_00000000_00000000,
        "dinner",
        None,
    ));

    let mut parser = Parser::new("4df78 2022-05-04 18:00 4th july dinner, not lunch");
    let program = parser.parse().unwrap();
    assert_eq!(commands::apply_program(program, &mut tasks), Ok(()));
    assert_eq!(tasks.as_slice()[0].name(), "4th july dinner, not lunch");
    assert_eq!(tasks.as_slice()[0].due(), Some(at(2022, 5, 4, 18, 0)));

    let mut parser = Parser::new("4df78 remove whatever");
    let program = parser.parse().unwrap();
    assert_eq!(commands::apply_program(program, &mut tasks), Ok(()));
    assert_eq!(tasks.len(), 0);

    let mut parser = Parser::new("new Now something fresh");
    let program = parser.parse().unwrap();
    assert_eq!(commands::apply_program(program, &mut tasks), Ok(()));
    assert_eq!(tasks.len(), 1);
    assert_eq!(tasks.as_slice()[0].name(), "something fresh");

    let mut parser = Parser::new("ffff remove nothing here");
    let program = parser.parse().unwrap();
    assert_eq!(
        commands::apply_program(program, &mut tasks),
        Err(ResolveError::NotFound)
    );
    assert_eq!(tasks.len(), 1);
}

#[test]
fn builders_set_name_due_and_keep_id() {
    let t = Task::new(TaskName::new("Meet Dave").unwrap());
    assert_eq!(t.name(), "Meet Dave");
    assert_eq!(t.due(), None);

    let id = t.id();
    let t = t.with_date(Date::new(2020, 2, 23));
    assert_eq!(t.due(), Some(at(2020, 2, 23, 0, 0)));
    let t = t.and_time(Time::new(15, 30));
    assert_eq!(t.due(), Some(at(2020, 2, 23, 15, 30)));
    let t = t.with_name(TaskName::new("Meet Eve").unwrap());
    assert_eq!(t.name(), "Meet Eve");
    assert_eq!(t.id(), id);

    let t = t.with_due(None).and_time(Time::new(1, 2));
    assert_eq!(t.due(), None);
}
