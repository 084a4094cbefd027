use minitable::num::i32_len;
use minitable::table::Table;
use minitable::value::ColKind;
use minitable::value::Value;

#[test]
fn display_single_cell_grid() {
    let mut t = Table::new("t", vec![("a".to_string(), ColKind::Int)]);
    t.insert(vec![("a".to_string(), Value::Int(Some(5)))]).unwrap();
    assert_eq!(t.display(), " +---+\n | a |\n +---+\n | 5 |\n +---+\n");
}

#[test]
fn display_negative_and_null_cells() {
    let mut t = Table::new(
        "t",
        vec![
            ("n".to_string(), ColKind::Int),
            ("s".to_string(), ColKind::Text),
        ],
    );
    t.insert(vec![
        ("n".to_string(), Value::Int(Some(-42))),
        ("s".to_string(), Value::Text(None)),
    ])
    .unwrap();
    assert_eq!(
        t.display(),
        " +-----+------+\n |  n  |  s   |\n +-----+------+\n | -42 | NULL |\n +-----+------+\n"
    );
}

#[test]
fn display_aligns_integers_right_and_text_left() {
    let mut t = Table::new(
        "table2",
        vec![
            ("id".to_string(), ColKind::Int),
            ("date".to_string(), ColKind::Text),
        ],
    );
    for (id, date) in [(1, "2019/12/20"), (13, "2020/01/01")] {
        t.insert(vec![
            ("id".to_string(), Value::Int(Some(id))),
            ("date".to_string(), Value::Text(Some(date.to_string()))),
        ])
        .unwrap();
    }
    let expected = " +----+------------+\n | id |    date    |\n +----+------------+\n |  1 | 2019/12/20 |\n | 13 | 2020/01/01 |\n +----+------------+\n";
    assert_eq!(t.display(), expected);
}

#[test]
fn display_empty_table_has_no_body_lines() {
    let t = Table::new("e", vec![("col".to_string(), ColKind::Text)]);
    assert_eq!(t.display(), " +-----+\n | col |\n +-----+\n +-----+\n");
}

#[test]
fn select_then_display_shows_only_requested_columns() {
    let mut wide = Table::new(
        "wide",
        vec![
            ("id".to_string(), ColKind::Int),
            ("name".to_string(), ColKind::Text),
            ("price".to_string(), ColKind::Int),
        ],
    );
    let mut narrow = Table::new("narrow", vec![("name".to_string(), ColKind::Text)]);
    for (id, name, price) in [(1, "apple", 50), (8, "honeydew melon", 4096)] {
        wide.insert(vec![
            ("id".to_string(), Value::Int(Some(id))),
            ("name".to_string(), Value::Text(Some(name.to_string()))),
            ("price".to_string(), Value::Int(Some(price))),
        ])
        .unwrap();
        narrow
            .insert(vec![("name".to_string(), Value::Text(Some(name.to_string())))])
            .unwrap();
    }
    // The same "name" column, the same width, the same values: what the
    // projection renders cannot depend on the dropped columns or the name
    // of the table.
    let shown = wide.select(&vec!["name".to_string()]).display();
    assert_eq!(shown, narrow.display());
    assert!(!shown.contains("price"));
    assert!(!shown.contains("50"));
}

#[test]
fn join_then_select_matches_driver_chain() {
    let mut t1 = Table::new(
        "table1",
        vec![
            ("id".to_string(), ColKind::Int),
            ("name".to_string(), ColKind::Text),
        ],
    );
    for (id, name) in [(1, "apple"), (5, "elderberries")] {
        t1.insert(vec![
            ("id".to_string(), Value::Int(Some(id))),
            ("name".to_string(), Value::Text(Some(name.to_string()))),
        ])
        .unwrap();
    }
    let mut t2 = Table::new(
        "table2",
        vec![
            ("id".to_string(), ColKind::Int),
            ("date".to_string(), ColKind::Text),
        ],
    );
    t2.insert(vec![
        ("id".to_string(), Value::Int(Some(1))),
        ("date".to_string(), Value::Text(Some("2019/12/20".to_string()))),
    ])
    .unwrap();
    let j = t1.left_join(&t2, "id").unwrap();
    let out = j
        .select(&vec!["name".to_string(), "date".to_string()])
        .display();
    let expected = " +--------------+------------+\n |     name     |    date    |\n +--------------+------------+\n | apple        | 2019/12/20 |\n | elderberries |       NULL |\n +--------------+------------+\n";
    assert_eq!(out, expected);
}

#[test]
fn integer_widths_count_digits_and_sign() {
    assert_eq!(i32_len(0), 1);
    assert_eq!(i32_len(9), 1);
    assert_eq!(i32_len(10), 2);
    assert_eq!(i32_len(-1), 2);
    assert_eq!(i32_len(2048), 4);
    assert_eq!(i32_len(i32::MAX), 10);
    assert_eq!(i32_len(i32::MIN), 11);
}
