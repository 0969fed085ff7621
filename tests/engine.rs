use mapsd::parse::parse_table;
use mapsd::replace::{apply_table, copy_name, plan_output, replace_key, Destination, Output};
use mapsd::table::Table;

fn table(items: &[(&str, &str)]) -> Table {
    let mut t = Table::new();
    for (k, v) in items {
        t.insert(k.as_bytes().to_vec(), v.as_bytes().to_vec());
    }
    t
}

fn text(o: &Output) -> String {
    String::from_utf8(o.content.clone()).unwrap()
}

fn sibling(o: &Output) -> String {
    match &o.destination {
        Destination::Sibling(name) => name.clone(),
        Destination::Original => panic!("expected a copy"),
    }
}

const LONG: &str = "Hello, world! This is a test for the world of Hello worlds.\nCeci est une autre ligne avec un Hello world.\n";

#[test]
fn test_creates_copy_by_default() {
    let t = table(&[("Hello", "Bonjour"), ("world", "monde")]);
    let out = plan_output(b"Hello, world! This is a test.\n".to_vec(), &t, false, "replaced.", "input.txt")
        .unwrap();
    assert_eq!(sibling(&out), "replaced.input.txt");
    assert_eq!(text(&out), "Bonjour, monde! This is a test.\n");
}

#[test]
fn test_replaces_all_occurrences() {
    let t = table(&[("Hello", "Bonjour"), ("world", "monde")]);
    let out = plan_output(LONG.as_bytes().to_vec(), &t, false, "replaced.", "input.txt").unwrap();
    assert_eq!(sibling(&out), "replaced.input.txt");
    assert_eq!(text(&out), "Bonjour, monde! This is a test for the monde of Bonjour mondes.\nCeci est une autre ligne avec un Bonjour monde.\n");
}

#[test]
fn test_replace_inplace() {
    let t = table(&[("Hello", "Bonjour"), ("world", "monde")]);
    let out = plan_output(b"Hello, world! This is a test.\n".to_vec(), &t, true, "", "input.txt").unwrap();
    assert!(matches!(out.destination, Destination::Original));
    assert_eq!(text(&out), "Bonjour, monde! This is a test.\n");
}

#[test]
fn test_empty_value_acts_delete() {
    let t = table(&[("Hello", "Bonjour"), ("world", "")]);
    let out = plan_output(LONG.as_bytes().to_vec(), &t, false, "replaced.", "input.txt").unwrap();
    assert_eq!(sibling(&out), "replaced.input.txt");
    assert_eq!(text(&out), "Bonjour, ! This is a test for the  of Bonjour s.\nCeci est une autre ligne avec un Bonjour .\n");
}

#[test]
fn test_main_functionality() {
    let t = parse_table("Hello,Bonjour\nworld,monde\n", ",", false);
    let out = plan_output(b"Hello, world! This is a test.\n".to_vec(), &t, false, "replaced.", "input.txt")
        .unwrap();
    assert_eq!(sibling(&out), "replaced.input.txt");
    assert_eq!(text(&out), "Bonjour, monde! This is a test.\n");
}

#[test]
fn test_main_replaces_multiple_files() {
    let t = parse_table("Hello,Bonjour\nworld,monde\n", ",", false);
    let input = b"Hello, world! This is a test.\n";
    let out_1 = plan_output(input.to_vec(), &t, false, "replaced.", "mapsd_test_input_1.txt").unwrap();
    let out_2 = plan_output(input.to_vec(), &t, false, "replaced.", "mapsd_test_input_2.txt").unwrap();
    assert_eq!(sibling(&out_1), "replaced.mapsd_test_input_1.txt");
    assert_eq!(sibling(&out_2), "replaced.mapsd_test_input_2.txt");
    assert_eq!(text(&out_1), "Bonjour, monde! This is a test.\n");
    assert_eq!(text(&out_2), "Bonjour, monde! This is a test.\n");
}

#[test]
fn scenario_replaces_every_occurrence() {
    let t = table(&[("Hello", "Bonjour"), ("world", "monde")]);
    let (out, changed) = apply_table(
        b"Hello, world! This is a test for the world of Hello worlds.".to_vec(),
        &t,
    );
    assert!(changed);
    assert_eq!(out, b"Bonjour, monde! This is a test for the monde of Bonjour mondes.".to_vec());
}

#[test]
fn scenario_deletes_every_occurrence() {
    let t = table(&[("Hello", "Bonjour"), ("world", "")]);
    let (out, changed) = apply_table(
        b"Hello, world! This is a test for the world of Hello worlds.".to_vec(),
        &t,
    );
    assert!(changed);
    assert_eq!(out, b"Bonjour, ! This is a test for the  of Bonjour s.".to_vec());
}

#[test]
fn file_without_keys_gives_nothing_to_write() {
    let t = table(&[("Hello", "Bonjour"), ("world", "monde")]);
    assert!(plan_output(b"nothing to see here\n".to_vec(), &t, false, "replaced.", "a.txt").is_none());
    assert!(plan_output(b"nothing to see here\n".to_vec(), &t, true, "replaced.", "a.txt").is_none());
    let (out, changed) = apply_table(b"nothing to see here\n".to_vec(), &t);
    assert!(!changed);
    assert_eq!(out, b"nothing to see here\n".to_vec());
    let empty = Table::new();
    assert!(plan_output(b"Hello".to_vec(), &empty, false, "p.", "a.txt").is_none());
}

#[test]
fn value_is_not_rescanned() {
    assert_eq!(replace_key(b"a-a", b"a", b"aa"), (b"aa-aa".to_vec(), true));
    assert_eq!(replace_key(b"ab", b"ab", b"abab"), (b"abab".to_vec(), true));
}

#[test]
fn matches_do_not_overlap() {
    assert_eq!(replace_key(b"aaa", b"aa", b"X"), (b"Xa".to_vec(), true));
    assert_eq!(replace_key(b"aaaa", b"aa", b""), (b"".to_vec(), true));
    assert_eq!(replace_key(b"aabb", b"ab", b""), (b"ab".to_vec(), true));
}

#[test]
fn absent_key_leaves_buffer() {
    assert_eq!(replace_key(b"hello", b"xyz", b"Q"), (b"hello".to_vec(), false));
    assert_eq!(replace_key(b"", b"xyz", b"Q"), (b"".to_vec(), false));
    assert_eq!(replace_key(b"ab", b"abc", b"Q"), (b"ab".to_vec(), false));
}

#[test]
fn empty_key_matches_at_every_position() {
    assert_eq!(replace_key(b"ab", b"", b"-"), (b"-a-b-".to_vec(), true));
    assert_eq!(replace_key(b"", b"", b"-"), (b"-".to_vec(), true));
}

#[test]
fn later_key_sees_earlier_replacement() {
    let t = table(&[("a", "b"), ("b", "c")]);
    let (out, changed) = apply_table(b"ab".to_vec(), &t);
    assert!(changed);
    assert_eq!(out, b"cc".to_vec());
    let reversed = table(&[("b", "c"), ("a", "b")]);
    let (out, _) = apply_table(b"ab".to_vec(), &reversed);
    assert_eq!(out, b"bc".to_vec());
}

#[test]
fn change_undone_by_later_key_still_counts() {
    let t = table(&[("a", "b"), ("b", "a")]);
    let out = plan_output(b"a".to_vec(), &t, true, "", "f").unwrap();
    assert_eq!(text(&out), "a");
}

#[test]
fn copy_name_concatenates() {
    assert_eq!(copy_name("replaced.", "input.txt"), "replaced.input.txt");
    assert_eq!(copy_name("", "x"), "x");
}
