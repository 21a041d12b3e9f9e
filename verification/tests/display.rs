//! Identifier disambiguation, line rendering and the watch loop's
//! transition table.

use today::commands::{self, shortest_unique_prefix};
use today::formatter::{
    due_text, render_cell, Cell, Column, Field, ListFormatter, Margin, Size, TaskFormatter,
    TodayFormatter, Visibility,
};
use today::task::{Date, DateTime, Task, TaskId, TaskName, Time};
use today::watch::{step, WatchAction, WatchEvent, WatchState};

fn task(bits: u128, name: &str, due: Option<DateTime>) -> Task {
    Task::from_parts(TaskId::from_bits(bits), TaskName::new(name).unwrap(), due)
}

fn at(y: i32, m: u32, d: u32, hh: u32, mm: u32) -> DateTime {
    DateTime::new(Date::new(y, m, d), Time::new(hh, mm))
}

#[test]
fn shortest_prefix_of_shared_cluster() {
    let mut a1 = b"aaaa1".to_vec();
    let mut a2 = b"aaaa2".to_vec();
    let mut b = b"bbbb0".to_vec();
    for v in [&mut a1, &mut a2, &mut b] {
        while v.len() < 32 {
            v.push(b'0');
        }
    }
    let ids = vec![a1, a2, b];
    assert_eq!(shortest_unique_prefix(&ids, 5), 5);
    assert_eq!(shortest_unique_prefix(&ids, 0), 5);
    assert_eq!(shortest_unique_prefix(&ids, 9), 9);
}

#[test]
fn shortest_prefix_of_singleton_or_empty_is_the_floor() {
    let ids: Vec<Vec<u8>> = Vec::new();
    assert_eq!(shortest_unique_prefix(&ids, 5), 5);
    assert_eq!(shortest_unique_prefix(&ids, 0), 0);
    let one = vec![b"0123456789abcdef0123456789abcdef".to_vec()];
    assert_eq!(shortest_unique_prefix(&one, 5), 5);
}

#[test]
fn shortest_id_length_over_tasks() {
    let tasks: Vec<Task> = Vec::new();
    assert_eq!(commands::shortest_id_length(&tasks), 0);

    let tasks = vec![
        task(0xabcde000_00000000_00000000_00000000, "a", None),
        task(0xabcdf000_00000000_00000000_00000000, "b", None),
        task(0x10000000_00000000_00000000_00000000, "c", None),
    ];
    // The first pair shares `abcd` and splits on the fifth digit.
    assert_eq!(commands::shortest_id_length(&tasks), 5);
}

/// Truncating every id to `len` bytes keeps them pairwise distinct.
fn distinct_at(ids: &[Vec<u8>], len: usize) -> bool {
    for i in 0..ids.len() {
        for j in (i + 1)..ids.len() {
            let a = &ids[i][..len.min(ids[i].len())];
            let b = &ids[j][..len.min(ids[j].len())];
            if a == b {
                return false;
            }
        }
    }
    true
}

#[test]
fn shortest_prefix_is_minimal_on_generated_clusters() {
    // A deterministic congruential generator; low digits repeat a lot,
    // which builds adversarial shared-prefix clusters.
    let mut seed: u64 = 0x2545f491;
    let mut ids: Vec<Vec<u8>> = Vec::new();
    for _ in 0..40 {
        let mut id = Vec::new();
        for chunk in 0..8 {
            seed = seed.wrapping_mul(6364136223846793005).wrapping_add(1442695040888963407);
            // Skew early chunks toward few values to force long shared prefixes.
            let v = if chunk < 5 { seed % 2 } else { seed % 16 };
            for k in 0..4 {
                let nibble = (v >> (4 * (3 - k))) & 0xf;
                id.push(b"0123456789abcdef"[nibble as usize]);
            }
        }
        if !ids.contains(&id) {
            ids.push(id);
        }
    }
    for floor in [0usize, 3, 7] {
        let got = shortest_unique_prefix(&ids, floor);
        assert!(got >= floor);
        assert!(distinct_at(&ids, got), "floor {floor} gave a colliding {got}");
        if got > floor {
            assert!(!distinct_at(&ids, got - 1), "floor {floor}: {got} is not minimal");
        }
    }
}

#[test]
fn due_text_formats_instants_and_the_absent_case() {
    assert_eq!(due_text(None), "Now");
    assert_eq!(due_text(Some(at(2022, 12, 24, 0, 0))), "2022-12-24 00:00");
    assert_eq!(due_text(Some(at(987, 1, 2, 9, 5))), "0987-01-02 09:05");
    assert_eq!(due_text(Some(at(12345, 1, 2, 9, 5))), "12345-01-02 09:05");
}

#[test]
fn cells_pad_truncate_and_hide() {
    let c = Cell::new("hello".to_owned());
    assert_eq!(render_cell(&c), "hello");

    let c = Cell::new("hello".to_owned()).with_size(Size::Min(8));
    assert_eq!(render_cell(&c), "hello   ");

    let c = Cell::new("hello".to_owned())
        .with_size(Size::Max(3))
        .with_margin(Margin::new(1, 2));
    assert_eq!(render_cell(&c), " hel  ");

    let c = Cell::new("hello".to_owned()).with_visibility(Visibility::Hidden);
    assert_eq!(render_cell(&c), "");

    // A cut that would split a multi-byte character keeps the text whole.
    let c = Cell::new("a\u{e9}b".to_owned()).with_size(Size::Max(2));
    assert_eq!(render_cell(&c), "a\u{e9}b");
    assert_eq!(c.content(), "a\u{e9}b");
    assert!(matches!(c.visibility(), Visibility::Visible));
}

#[test]
fn list_formatter_lays_out_columns() {
    let mut formatter = ListFormatter::new();
    formatter.insert(
        Field::Id,
        Column::new(Cell::default().with_size(Size::Max(5)).with_margin(Margin::new(0, 1))),
    );
    formatter.insert(Field::Time, Column::new(Cell::default().with_margin(Margin::new(0, 1))));
    let t = task(
        0x4df78000_00000000_00000000_00000000,
        "dinner",
        Some(at(2022, 5, 4, 18, 0)),
    );
    let line = formatter.format(&t);
    assert_eq!(line, "4df78 2022-05-04 18:00 dinner");
    assert!(formatter.column(Field::Id).is_some());
    assert!(formatter.column(Field::Name).is_none());
}

#[test]
fn today_formatter_colors_the_due_instant() {
    let mut formatter = TodayFormatter::new();
    formatter.insert(
        Field::Id,
        Column::new(Cell::default().with_visibility(Visibility::Hidden)),
    );
    let t = task(7, "water the plants", None);
    let line = formatter.format(&t);
    assert_eq!(
        line,
        "\u{1b}[38;5;9mNow\u{1b}[39m: water the plants"
    );
    assert!(formatter.column(Field::Id).is_some());
}

#[test]
fn list_sorts_by_due_with_unscheduled_first() {
    let tasks = vec![
        task(1, "b-later", Some(at(2024, 1, 1, 0, 0))),
        task(2, "a-sooner", Some(at(2023, 1, 1, 0, 0))),
        task(3, "asap", None),
    ];
    let mut formatter = ListFormatter::new();
    formatter.insert(
        Field::Id,
        Column::new(Cell::default().with_visibility(Visibility::Hidden)),
    );
    formatter.insert(Field::Time, Column::new(Cell::default().with_margin(Margin::new(0, 1))));
    let out = commands::list(&tasks, &formatter);
    let lines: Vec<&str> = out.lines().collect();
    assert_eq!(
        lines,
        vec![
            "Now asap",
            "2023-01-01 00:00 a-sooner",
            "2024-01-01 00:00 b-later"
        ]
    );
}

#[test]
fn watch_loop_transitions() {
    assert_eq!(
        step(WatchState::Rendering, WatchEvent::TimedOut),
        (WatchState::Waiting, WatchAction::Wait)
    );
    assert_eq!(
        step(WatchState::Waiting, WatchEvent::FileChanged),
        (WatchState::Rendering, WatchAction::Render)
    );
    assert_eq!(
        step(WatchState::Waiting, WatchEvent::TimedOut),
        (WatchState::Rendering, WatchAction::Render)
    );
    assert_eq!(
        step(WatchState::Waiting, WatchEvent::Quit),
        (WatchState::ShuttingDown, WatchAction::Stop)
    );
    assert_eq!(
        step(WatchState::Waiting, WatchEvent::Disconnected),
        (WatchState::ShuttingDown, WatchAction::Stop)
    );
    for e in [
        WatchEvent::FileChanged,
        WatchEvent::TimedOut,
        WatchEvent::Disconnected,
        WatchEvent::Quit,
    ] {
        assert_eq!(
            step(WatchState::ShuttingDown, e),
            (WatchState::ShuttingDown, WatchAction::Stop)
        );
    }
}

#[test]
fn json_repository_keeps_its_path() {
    let repo = today::json::JsonRepository::new("/tmp/tasks.json".to_owned());
    assert_eq!(repo.path(), "/tmp/tasks.json");
}
