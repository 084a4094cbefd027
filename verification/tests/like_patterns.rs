use minitable::pattern::{tokenize, LikeType};
use minitable::table::Table;
use minitable::value::ColKind;
use minitable::value::{str_chars, Value};

fn names_table(names: &[&str]) -> Table {
    let mut t = Table::new("t", vec![("name".to_string(), ColKind::Text)]);
    for n in names {
        t.insert(vec![("name".to_string(), Value::Text(Some(n.to_string())))])
            .unwrap();
    }
    t
}

fn fruit_names() -> Table {
    names_table(&[
        "apple",
        "banana",
        "citrus",
        "dorian",
        "elderberries",
        "figs",
        "grapefruit",
        "honeydew melon",
    ])
}

fn kept(t: &Table) -> Vec<String> {
    t.rows
        .iter()
        .map(|r| match &r[0] {
            Value::Text(Some(s)) => s.clone(),
            _ => panic!("text expected"),
        })
        .collect()
}

#[test]
fn like_literal_matches_exact_name_only() {
    let t = fruit_names();
    let s = t.like("name", "apple");
    assert_eq!(kept(&s), vec!["apple".to_string()]);
}

#[test]
fn like_underscores_match_length_six_only() {
    let t = fruit_names();
    let s = t.like("name", "______");
    assert_eq!(
        kept(&s),
        vec!["banana".to_string(), "citrus".to_string(), "dorian".to_string()]
    );
    for n in kept(&s) {
        assert_eq!(n.chars().count(), 6);
    }
}

#[test]
fn like_percent_s_matches_names_ending_in_s() {
    let t = fruit_names();
    let s = t.like("name", "%s");
    assert_eq!(
        kept(&s),
        vec!["citrus".to_string(), "elderberries".to_string(), "figs".to_string()]
    );
    for n in kept(&s) {
        assert!(n.ends_with('s'));
    }
}

#[test]
fn like_percent_ri_percent_matches_names_containing_ri() {
    let t = fruit_names();
    let s = t.like("name", "%ri%");
    assert_eq!(
        kept(&s),
        vec!["dorian".to_string(), "elderberries".to_string()]
    );
    for n in kept(&s) {
        assert!(n.contains("ri"));
    }
}

#[test]
fn like_skips_null_text() {
    let mut t = names_table(&["pear"]);
    t.insert(vec![("name".to_string(), Value::Text(None))]).unwrap();
    let s = t.like("name", "%");
    assert_eq!(kept(&s), vec!["pear".to_string()]);
}

#[test]
fn tokenize_splits_wildcards_and_literal_runs() {
    let toks = tokenize("a%bc_");
    assert_eq!(
        toks,
        vec![
            LikeType::Str(vec!['a']),
            LikeType::Percent,
            LikeType::Str(vec!['b', 'c']),
            LikeType::Underscore,
        ]
    );
    assert_eq!(tokenize(""), vec![]);
    assert_eq!(tokenize("%%"), vec![LikeType::Percent, LikeType::Percent]);
}

#[test]
fn like_matcher_boundary_cases() {
    let apple = str_chars("apple");
    let empty = str_chars("");
    // A lone "%" matches any nonempty text but not the empty text.
    assert!(minitable::pattern::like(&tokenize("%"), &apple));
    assert!(!minitable::pattern::like(&tokenize("%"), &empty));
    // The split for an inner "%" must leave a nonempty suffix: "apple%"
    // does not accept "apple" itself.
    assert!(!minitable::pattern::like(&tokenize("apple%"), &apple));
    assert!(minitable::pattern::like(&tokenize("appl%"), &apple));
    // "%s" needs at least one character before the "s".
    let s_only = str_chars("s");
    assert!(!minitable::pattern::like(&tokenize("%s"), &s_only));
    // Empty pattern matches only empty text.
    assert!(minitable::pattern::like(&tokenize(""), &empty));
    assert!(!minitable::pattern::like(&tokenize(""), &apple));
    // Underscores count characters exactly.
    assert!(minitable::pattern::like(&tokenize("_____"), &apple));
    assert!(!minitable::pattern::like(&tokenize("____"), &apple));
    assert!(!minitable::pattern::like(&tokenize("______"), &apple));
}
