use my_vr_program::store::{COUNT_MAX, DEFAULT_WIDTH};
use my_vr_program::{LogItem, LogLevel, LogStore};

const DOTS: &str = "\u{2023}\u{2023}\u{2023}\u{2023}";

fn item(level: LogLevel, text: &str, count: u32) -> LogItem {
    LogItem { level, text: text.to_string(), count }
}

fn rows(store: &LogStore) -> Vec<LogItem> {
    store.items().clone()
}

#[test]
fn a_new_store_is_empty_and_of_the_default_width() {
    let store = LogStore::new();
    assert!(store.is_empty());
    assert_eq!(store.len(), 0);
    assert_eq!(store.width(), 120);
    assert_eq!(DEFAULT_WIDTH, 120);
    assert!(store.get(0).is_none());
    assert!(store.items().is_empty());
}

#[test]
fn a_store_can_be_made_with_another_width() {
    let mut store = LogStore::with_width(4);
    assert_eq!(store.width(), 4);
    store.ingest(LogLevel::Info, "abcdefghij");
    assert_eq!(
        rows(&store),
        vec![
            item(LogLevel::Info, "abcd", 1),
            item(LogLevel::Info, &format!("{}efgh", DOTS), 1),
            item(LogLevel::Info, &format!("{}ij", DOTS), 1),
        ]
    );
    assert_eq!(store.width(), 4);
}

#[test]
fn idempotent_merge() {
    let mut store = LogStore::new();
    store.ingest(LogLevel::Info, "build ok");
    store.ingest(LogLevel::Info, "build ok");
    assert_eq!(store.len(), 1);
    assert_eq!(rows(&store), vec![item(LogLevel::Info, "build ok", 2)]);
}

#[test]
fn a_third_repeat_counts_three() {
    let mut store = LogStore::new();
    for _ in 0..3 {
        store.ingest(LogLevel::Warning, "again");
    }
    assert_eq!(rows(&store), vec![item(LogLevel::Warning, "again", 3)]);
}

#[test]
fn a_repeat_keeps_the_first_severity() {
    let mut store = LogStore::new();
    store.ingest(LogLevel::Info, "same words");
    store.ingest(LogLevel::Error, "same words");
    assert_eq!(rows(&store), vec![item(LogLevel::Info, "same words", 2)]);
}

#[test]
fn split_lines_are_stored_fragment_by_fragment() {
    let line: String = (0..365).map(|i| (b'a' + (i % 23) as u8) as char).collect();
    let mut store = LogStore::new();
    store.ingest(LogLevel::Diagnostic, &line);
    assert_eq!(
        rows(&store),
        vec![
            item(LogLevel::Diagnostic, &line[..120], 1),
            item(LogLevel::Diagnostic, &format!("{}{}", DOTS, &line[120..240]), 1),
            item(LogLevel::Diagnostic, &format!("{}{}", DOTS, &line[240..360]), 1),
            item(LogLevel::Diagnostic, &format!("{}{}", DOTS, &line[360..]), 1),
        ]
    );
}

#[test]
fn continuations_that_are_alike_are_counted_on_one_row() {
    let line = "a".repeat(360);
    let mut store = LogStore::new();
    store.ingest(LogLevel::Info, &line);
    assert_eq!(
        rows(&store),
        vec![
            item(LogLevel::Info, &"a".repeat(120), 1),
            item(LogLevel::Info, &format!("{}{}", DOTS, "a".repeat(120)), 2),
        ]
    );
}

#[test]
fn multiline_handling() {
    let mut store = LogStore::new();
    store.ingest(LogLevel::Info, "first line\nsecond line");
    assert_eq!(
        rows(&store),
        vec![item(LogLevel::Info, "first line", 1), item(LogLevel::Info, "second line", 1)]
    );
}

#[test]
fn a_line_like_the_last_fragment_of_the_call_before_is_counted() {
    let mut store = LogStore::new();
    store.ingest(LogLevel::Info, "x");
    store.ingest(LogLevel::Warning, "x\ny");
    assert_eq!(rows(&store), vec![item(LogLevel::Info, "x", 2), item(LogLevel::Warning, "y", 1)]);
}

#[test]
fn a_line_like_an_earlier_one_of_the_same_call_is_stored_again() {
    let mut store = LogStore::new();
    store.ingest(LogLevel::Info, "a\nb\na");
    assert_eq!(
        rows(&store),
        vec![
            item(LogLevel::Info, "a", 1),
            item(LogLevel::Info, "b", 1),
            item(LogLevel::Info, "a", 1),
        ]
    );
}

#[test]
fn two_like_lines_one_after_the_other_are_counted() {
    let mut store = LogStore::new();
    store.ingest(LogLevel::Info, "a\na\nb");
    assert_eq!(rows(&store), vec![item(LogLevel::Info, "a", 2), item(LogLevel::Info, "b", 1)]);
}

#[test]
fn an_empty_line_between_two_like_lines_does_not_part_them() {
    let mut store = LogStore::new();
    store.ingest(LogLevel::Info, "a\n\na");
    assert_eq!(rows(&store), vec![item(LogLevel::Info, "a", 2)]);
}

#[test]
fn no_merge_across_non_adjacent_entries() {
    let mut store = LogStore::new();
    store.ingest(LogLevel::Info, "A");
    store.ingest(LogLevel::Info, "B");
    store.ingest(LogLevel::Info, "A");
    assert_eq!(
        rows(&store),
        vec![
            item(LogLevel::Info, "A", 1),
            item(LogLevel::Info, "B", 1),
            item(LogLevel::Info, "A", 1),
        ]
    );
}

#[test]
fn order_is_kept_between_calls() {
    let mut store = LogStore::new();
    store.ingest(LogLevel::Info, "one\ntwo\nthree");
    store.ingest(LogLevel::Error, "four\nfive");
    let texts: Vec<String> = store.items().iter().map(|i| i.text.clone()).collect();
    assert_eq!(texts, vec!["one", "two", "three", "four", "five"]);
    let levels: Vec<LogLevel> = store.items().iter().map(|i| i.level).collect();
    assert_eq!(
        levels,
        vec![LogLevel::Info, LogLevel::Info, LogLevel::Info, LogLevel::Error, LogLevel::Error]
    );
}

#[test]
fn empty_input() {
    let mut store = LogStore::new();
    store.ingest(LogLevel::Info, "");
    assert!(store.is_empty());
    store.ingest(LogLevel::Info, "kept");
    let before = rows(&store);
    store.ingest(LogLevel::Error, "");
    assert_eq!(rows(&store), before);
    assert_eq!(before, vec![item(LogLevel::Info, "kept", 1)]);
}

#[test]
fn line_feeds_alone_change_nothing() {
    let mut store = LogStore::new();
    store.ingest(LogLevel::Info, "kept");
    store.ingest(LogLevel::Info, "\n\r\n\n");
    assert_eq!(rows(&store), vec![item(LogLevel::Info, "kept", 1)]);
}

#[test]
fn build_ok_twice_then_disk_low() {
    let mut store = LogStore::new();
    store.ingest(LogLevel::Info, "build ok");
    store.ingest(LogLevel::Info, "build ok");
    store.ingest(LogLevel::Warning, "disk low");
    assert_eq!(
        rows(&store),
        vec![item(LogLevel::Info, "build ok", 2), item(LogLevel::Warning, "disk low", 1)]
    );
}

#[test]
fn chunks_that_are_no_text_are_not_stored() {
    let mut line = "a".repeat(119);
    line.push('\u{e9}');
    line.push_str(&"b".repeat(119));
    line.push_str("end");
    let mut store = LogStore::new();
    store.ingest(LogLevel::Info, &line);
    assert_eq!(rows(&store), vec![item(LogLevel::Info, &format!("{}end", DOTS), 1)]);
}

#[test]
fn append_takes_one_fragment() {
    let mut store = LogStore::new();
    store.append(LogLevel::Info, "a".to_string());
    store.append(LogLevel::Error, "a".to_string());
    store.append(LogLevel::Error, "b".to_string());
    store.append(LogLevel::Diagnostic, "a\nb".to_string());
    assert_eq!(
        rows(&store),
        vec![
            item(LogLevel::Info, "a", 2),
            item(LogLevel::Error, "b", 1),
            item(LogLevel::Diagnostic, "a\nb", 1),
        ]
    );
}

#[test]
fn append_stores_the_empty_fragment_too() {
    let mut store = LogStore::new();
    store.append(LogLevel::Info, String::new());
    store.append(LogLevel::Info, String::new());
    assert_eq!(rows(&store), vec![item(LogLevel::Info, "", 2)]);
}

#[test]
fn get_finds_rows_by_their_place() {
    let mut store = LogStore::new();
    store.ingest(LogLevel::Info, "zero\none");
    assert_eq!(store.get(0), Some(&item(LogLevel::Info, "zero", 1)));
    assert_eq!(store.get(1), Some(&item(LogLevel::Info, "one", 1)));
    assert_eq!(store.get(2), None);
    assert_eq!(store.len(), 2);
    assert!(!store.is_empty());
}

#[test]
fn no_two_neighbours_have_the_same_text() {
    let mut store = LogStore::with_width(3);
    let texts = ["aaaaaaaaa", "aaa", "aaa\naaa", "b", "b\nb\n\nb", "abcabcabc", "abc", "", "abc"];
    for (i, text) in texts.iter().enumerate() {
        let level = if i % 2 == 0 { LogLevel::Info } else { LogLevel::Error };
        store.ingest(level, text);
        let items = store.items();
        for k in 1..items.len() {
            assert_ne!(items[k - 1].text, items[k].text);
        }
        for it in items.iter() {
            assert!(it.count >= 1);
        }
    }
    let total: u32 = store.items().iter().map(|i| i.count).sum();
    assert_eq!(total, 3 + 1 + 2 + 1 + 3 + 3 + 1 + 0 + 1);
}

#[test]
fn the_store_agrees_with_a_plain_loop_over_lines_and_chunks() {
    let calls = [
        (LogLevel::Info, "build ok".to_string()),
        (LogLevel::Info, "build ok".to_string()),
        (LogLevel::Warning, "disk low\r\ndisk low\n\ndisk low".to_string()),
        (LogLevel::Error, "x".repeat(500)),
        (LogLevel::Error, format!("{}{}", DOTS, "x".repeat(20))),
        (LogLevel::Diagnostic, "h\u{e9}llo ".repeat(100)),
        (LogLevel::Diagnostic, String::new()),
        (LogLevel::Info, "\n".to_string()),
        (LogLevel::Info, "end".to_string()),
    ];
    for width in [1usize, 3, 7, 20, 120] {
        let mut store = LogStore::with_width(width);
        let mut expected: Vec<LogItem> = Vec::new();
        for (level, text) in calls.iter() {
            store.ingest(*level, text);
            for line in text.lines() {
                for (pos, chunk) in line.as_bytes().chunks(width).enumerate() {
                    if let Ok(mut s) = String::from_utf8(chunk.to_vec()) {
                        if pos > 0 {
                            s.insert_str(0, DOTS);
                        }
                        if let Some(last) = expected.last_mut() {
                            if last.text == s {
                                last.count += 1;
                                continue;
                            }
                        }
                        expected.push(LogItem { level: *level, text: s, count: 1 });
                    }
                }
            }
            assert_eq!(store.items(), &expected);
        }
    }
}

#[test]
fn the_counter_has_room_for_every_u32() {
    assert_eq!(COUNT_MAX, u32::MAX);
}

#[test]
fn a_store_can_be_made_from_its_rows() {
    let given = vec![
        item(LogLevel::Info, "a", 2),
        item(LogLevel::Error, "b", 1),
        item(LogLevel::Warning, "a", 7),
    ];
    let mut store = LogStore::from_items(given.clone(), 5).unwrap();
    assert_eq!(rows(&store), given);
    assert_eq!(store.width(), 5);
    store.ingest(LogLevel::Diagnostic, "a\na\nlonger");
    assert_eq!(
        rows(&store),
        vec![
            item(LogLevel::Info, "a", 2),
            item(LogLevel::Error, "b", 1),
            item(LogLevel::Warning, "a", 9),
            item(LogLevel::Diagnostic, "longe", 1),
            item(LogLevel::Diagnostic, &format!("{}r", DOTS), 1),
        ]
    );
}

#[test]
fn a_store_can_be_made_from_no_rows() {
    let store = LogStore::from_items(Vec::new(), 120).unwrap();
    assert!(store.is_empty());
}

#[test]
fn rows_that_no_store_can_hold_are_refused() {
    assert!(LogStore::from_items(vec![item(LogLevel::Info, "a", 1)], 0).is_none());
    assert!(LogStore::from_items(vec![item(LogLevel::Info, "a", 0)], 120).is_none());
    assert!(LogStore::from_items(
        vec![item(LogLevel::Info, "a", 1), item(LogLevel::Info, "b", 0)],
        120
    )
    .is_none());
    assert!(LogStore::from_items(
        vec![item(LogLevel::Info, "a", 1), item(LogLevel::Error, "a", 1)],
        120
    )
    .is_none());
    assert!(LogStore::from_items(
        vec![
            item(LogLevel::Info, "a", 1),
            item(LogLevel::Info, "b", 1),
            item(LogLevel::Info, "b", 3),
        ],
        120
    )
    .is_none());
}

#[test]
fn a_counter_at_its_ceiling_stays_there() {
    let given = vec![item(LogLevel::Info, "flood", COUNT_MAX - 1)];
    let mut store = LogStore::from_items(given, 120).unwrap();
    store.ingest(LogLevel::Info, "flood");
    assert_eq!(rows(&store), vec![item(LogLevel::Info, "flood", COUNT_MAX)]);
    store.ingest(LogLevel::Info, "flood");
    store.append(LogLevel::Error, "flood".to_string());
    assert_eq!(rows(&store), vec![item(LogLevel::Info, "flood", COUNT_MAX)]);
    store.ingest(LogLevel::Info, "ebb");
    assert_eq!(
        rows(&store),
        vec![item(LogLevel::Info, "flood", COUNT_MAX), item(LogLevel::Info, "ebb", 1)]
    );
}
