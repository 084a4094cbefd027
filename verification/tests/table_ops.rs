use minitable::table::{Table, TableError};
use minitable::value::ColKind;
use minitable::value::Value;

fn fruit_table() -> Table {
    let mut t = Table::new(
        "table1",
        vec![
            ("id".to_string(), ColKind::Int),
            ("name".to_string(), ColKind::Text),
            ("price".to_string(), ColKind::Int),
        ],
    );
    let rows: Vec<(i32, &str, Option<i32>)> = vec![
        (1, "apple", Some(50)),
        (2, "banana", Some(100)),
        (3, "citrus", None),
        (4, "dorian", Some(256)),
        (5, "elderberries", Some(512)),
        (6, "figs", Some(1024)),
        (7, "grapefruit", Some(2048)),
        (8, "honeydew melon", Some(4096)),
    ];
    for (id, name, price) in rows {
        t.insert(vec![
            ("id".to_string(), Value::Int(Some(id))),
            ("name".to_string(), Value::Text(Some(name.to_string()))),
            ("price".to_string(), Value::Int(price)),
        ])
        .unwrap();
    }
    t
}

fn date_table() -> Table {
    let mut t = Table::new(
        "table2",
        vec![
            ("id".to_string(), ColKind::Int),
            ("date".to_string(), ColKind::Text),
        ],
    );
    for (id, date) in [
        (1, "2019/12/20"),
        (2, "2019/12/21"),
        (3, "2019/12/22"),
        (4, "2019/12/23"),
        (8, "2019/12/27"),
        (13, "2020/01/01"),
    ] {
        t.insert(vec![
            ("id".to_string(), Value::Int(Some(id))),
            ("date".to_string(), Value::Text(Some(date.to_string()))),
        ])
        .unwrap();
    }
    t
}

#[test]
fn select_full_list_preserves_rows() {
    let t = fruit_table();
    let all: Vec<String> = t.cols.iter().map(|c| c.name.clone()).collect();
    let s = t.select(&all);
    assert_eq!(s.rows.len(), t.rows.len());
    assert_eq!(s.cols.len(), t.cols.len());
    for (a, b) in s.rows.iter().zip(t.rows.iter()) {
        assert_eq!(a, b);
    }
    for (k, c) in s.cols.iter().enumerate() {
        assert_eq!(c.name, t.cols[k].name);
        assert_eq!(s.widths[k], t.widths[k]);
    }
}

#[test]
fn select_restricts_and_reorders() {
    let t = fruit_table();
    let s = t.select(&vec!["price".to_string(), "name".to_string()]);
    assert_eq!(s.cols.len(), 2);
    assert_eq!(s.cols[0].name, "price");
    assert_eq!(s.cols[1].name, "name");
    assert_eq!(s.rows.len(), 8);
    assert_eq!(s.rows[0][0], Value::Int(Some(50)));
    assert_eq!(s.rows[0][1], Value::Text(Some("apple".to_string())));
}

#[test]
fn select_drops_unknown_names() {
    let t = fruit_table();
    let s = t.select(&vec!["name".to_string(), "owner".to_string()]);
    assert_eq!(s.cols.len(), 1);
    assert_eq!(s.cols[0].name, "name");
}

#[test]
fn less_than_keeps_exactly_the_small_values() {
    let t = fruit_table();
    let s = t.less_than("id", 10);
    assert_eq!(s.rows.len(), 8);
    let s = t.less_than("price", 250);
    // citrus has a null price, so only apple and banana pass.
    assert_eq!(s.rows.len(), 2);
    assert_eq!(s.rows[0][1], Value::Text(Some("apple".to_string())));
    assert_eq!(s.rows[1][1], Value::Text(Some("banana".to_string())));
    // Every kept row appears in the source.
    for row in &s.rows {
        assert!(t.rows.iter().any(|r| r == row));
    }
}

#[test]
fn less_than_excludes_nulls_for_every_threshold() {
    let t = fruit_table();
    let s = t.less_than("price", i32::MAX);
    assert_eq!(s.rows.len(), 7);
    for row in &s.rows {
        assert_ne!(row[2], Value::Int(None));
    }
}

#[test]
fn insert_rejects_unknown_column() {
    let mut t = date_table();
    let before = t.rows.len();
    let r = t.insert(vec![("owner".to_string(), Value::Text(None))]);
    assert_eq!(r, Err(TableError::UnknownColumn));
    assert_eq!(t.rows.len(), before);
}

#[test]
fn insert_rejects_duplicate_column() {
    let mut t = date_table();
    let r = t.insert(vec![
        ("id".to_string(), Value::Int(Some(9))),
        ("id".to_string(), Value::Int(Some(10))),
    ]);
    assert_eq!(r, Err(TableError::DuplicateColumn));
}

#[test]
fn insert_fills_missing_columns_with_null() {
    let mut t = date_table();
    t.insert(vec![("id".to_string(), Value::Int(Some(21)))]).unwrap();
    let last = t.rows.last().unwrap();
    assert_eq!(last[0], Value::Int(Some(21)));
    assert_eq!(last[1], Value::Text(None));
}

#[test]
fn widths_cover_names_and_values() {
    let mut t = Table::new(
        "w",
        vec![
            ("n".to_string(), ColKind::Int),
            ("s".to_string(), ColKind::Text),
        ],
    );
    assert_eq!(t.widths, vec![1, 1]);
    t.insert(vec![
        ("n".to_string(), Value::Int(Some(-500))),
        ("s".to_string(), Value::Text(Some("abc".to_string()))),
    ])
    .unwrap();
    // -500 renders four characters wide; "abc" three.
    assert_eq!(t.widths, vec![4, 3]);
    t.insert(vec![
        ("n".to_string(), Value::Int(Some(7))),
        ("s".to_string(), Value::Text(None)),
    ])
    .unwrap();
    // Widths never shrink; a null needs the four cells of "NULL".
    assert_eq!(t.widths, vec![4, 4]);
}

#[test]
fn left_join_matches_driver_scenario() {
    let t1 = fruit_table();
    let t2 = date_table();
    let j = t1.left_join(&t2, "id").unwrap();
    assert_eq!(j.cols.len(), 4);
    assert_eq!(j.cols[3].name, "date");
    assert_eq!(j.rows.len(), 8);
    // id 1 matches a date, id 5 does not.
    assert_eq!(j.rows[0][3], Value::Text(Some("2019/12/20".to_string())));
    assert_eq!(j.rows[4][3], Value::Text(None));
    assert_eq!(j.rows[7][3], Value::Text(Some("2019/12/27".to_string())));
    // Imported widths come from the right table.
    assert_eq!(j.widths[3], t2.widths[1]);
}

#[test]
fn left_join_missing_key_is_an_error() {
    let t1 = fruit_table();
    let t2 = date_table();
    assert_eq!(
        t1.left_join(&t2, "price").map(|t| t.name.clone()),
        Err(TableError::MissingJoinKey)
    );
    assert_eq!(
        t2.left_join(&t1, "date").map(|t| t.name.clone()),
        Err(TableError::MissingJoinKey)
    );
}

#[test]
fn left_join_last_match_wins() {
    let mut l = Table::new("l", vec![("k".to_string(), ColKind::Int)]);
    l.insert(vec![("k".to_string(), Value::Int(Some(1)))]).unwrap();
    let mut r = Table::new(
        "r",
        vec![
            ("k".to_string(), ColKind::Int),
            ("v".to_string(), ColKind::Text),
        ],
    );
    r.insert(vec![
        ("k".to_string(), Value::Int(Some(1))),
        ("v".to_string(), Value::Text(Some("first".to_string()))),
    ])
    .unwrap();
    r.insert(vec![
        ("k".to_string(), Value::Int(Some(1))),
        ("v".to_string(), Value::Text(Some("second".to_string()))),
    ])
    .unwrap();
    let j = l.left_join(&r, "k").unwrap();
    assert_eq!(j.rows[0][1], Value::Text(Some("second".to_string())));
}

#[test]
fn left_join_imports_no_existing_column() {
    let t1 = fruit_table();
    let sub = t1.select(&vec!["id".to_string(), "name".to_string()]);
    let j = t1.left_join(&sub, "id").unwrap();
    // Every column of the right table already exists on the left: the
    // schema must stay exactly the left schema, nothing duplicated.
    assert_eq!(j.cols.len(), t1.cols.len());
    for (k, c) in j.cols.iter().enumerate() {
        assert_eq!(c.name, t1.cols[k].name);
    }
}

#[test]
fn left_join_equal_nulls_match() {
    let mut l = Table::new("l", vec![("k".to_string(), ColKind::Int)]);
    l.insert(vec![("k".to_string(), Value::Int(None))]).unwrap();
    let mut r = Table::new(
        "r",
        vec![
            ("k".to_string(), ColKind::Int),
            ("v".to_string(), ColKind::Int),
        ],
    );
    r.insert(vec![
        ("k".to_string(), Value::Int(None)),
        ("v".to_string(), Value::Int(Some(9))),
    ])
    .unwrap();
    let j = l.left_join(&r, "k").unwrap();
    // Two nulls under the same key count as equal.
    assert_eq!(j.rows[0][1], Value::Int(Some(9)));
}

#[test]
fn left_join_raises_narrow_imported_widths_for_nulls() {
    let mut l = Table::new("l", vec![("k".to_string(), ColKind::Int)]);
    l.insert(vec![("k".to_string(), Value::Int(Some(1)))]).unwrap();
    let r = Table::new(
        "r",
        vec![
            ("k".to_string(), ColKind::Int),
            ("d".to_string(), ColKind::Text),
        ],
    );
    // The right table is empty, so the left row is unmatched and the
    // imported column holds a null: its width must cover "NULL" even
    // though the right table cached only the name's width of 1.
    assert_eq!(r.widths, vec![1, 1]);
    let j = l.left_join(&r, "k").unwrap();
    assert_eq!(j.rows[0][1], Value::Text(None));
    assert_eq!(j.widths, vec![1, 4]);
    assert_eq!(
        j.display(),
        " +---+------+\n | k |  d   |\n +---+------+\n | 1 | NULL |\n +---+------+\n"
    );
}

#[test]
fn left_join_keeps_imported_widths_when_all_rows_match() {
    let mut l = Table::new("l", vec![("k".to_string(), ColKind::Int)]);
    l.insert(vec![("k".to_string(), Value::Int(Some(1)))]).unwrap();
    let mut r = Table::new(
        "r",
        vec![
            ("k".to_string(), ColKind::Int),
            ("d".to_string(), ColKind::Text),
        ],
    );
    r.insert(vec![
        ("k".to_string(), Value::Int(Some(1))),
        ("d".to_string(), Value::Text(Some("x".to_string()))),
    ])
    .unwrap();
    // Every left row matches: the imported width is the right table's.
    let j = l.left_join(&r, "k").unwrap();
    assert_eq!(j.widths, vec![1, 1]);
}

#[test]
fn derived_tables_are_independent() {
    let t = fruit_table();
    let mut s = t.less_than("price", 250);
    s.insert(vec![
        ("id".to_string(), Value::Int(Some(100))),
        ("name".to_string(), Value::Text(Some("quince".to_string()))),
        ("price".to_string(), Value::Int(Some(1))),
    ])
    .unwrap();
    assert_eq!(t.rows.len(), 8);
    assert_eq!(s.rows.len(), 3);
}
