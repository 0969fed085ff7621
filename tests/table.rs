use mapsd::parse::parse_table;
use mapsd::table::Table;

fn pairs(t: &Table) -> Vec<(String, String)> {
    let mut v = Vec::new();
    for i in 0..t.len() {
        let k = String::from_utf8(t.key_at(i).to_vec()).unwrap();
        let val = String::from_utf8(t.value_at(i).to_vec()).unwrap();
        v.push((k, val));
    }
    v.sort();
    v
}

fn expected(items: &[(&str, &str)]) -> Vec<(String, String)> {
    let mut v: Vec<(String, String)> =
        items.iter().map(|(k, val)| (k.to_string(), val.to_string())).collect();
    v.sort();
    v
}

#[test]
fn test_read_csv() {
    let result = parse_table("key1,value1\nkey2,value2,extra\n", ",", false);
    assert_eq!(pairs(&result), expected(&[("key1", "value1"), ("key2", "value2,extra")]));
}

#[test]
fn test_read_csv_with_headers() {
    let result = parse_table("Key,Value\nkey1,value1\nkey2,value2\n", ",", true);
    assert_eq!(pairs(&result), expected(&[("key1", "value1"), ("key2", "value2")]));
}

#[test]
fn test_read_csv_with_uncommon_delimiter() {
    let result = parse_table("key1===value1\nkey2===value2\n", "===", false);
    assert_eq!(pairs(&result), expected(&[("key1", "value1"), ("key2", "value2")]));
}

#[test]
fn test_read_csv_preserves_spaces() {
    let result = parse_table("key1 ,value1\nkey2, value2\nkey3,value3 \n", ",", false);
    assert_eq!(
        pairs(&result),
        expected(&[("key1 ", "value1"), ("key2", " value2"), ("key3", "value3 ")])
    );
}

#[test]
fn test_read_csv_preserves_empty_value() {
    let result = parse_table("key1,value1\nkey2,value2\nkey3,\n", ",", false);
    assert_eq!(
        pairs(&result),
        expected(&[("key1", "value1"), ("key2", "value2"), ("key3", "")])
    );
}

#[test]
fn header_line_is_skipped_whatever_it_holds() {
    let one_field = parse_table("header\nkey1,value1\n", ",", true);
    assert_eq!(pairs(&one_field), expected(&[("key1", "value1")]));
    let data_like = parse_table("a,b\nkey1,value1\n", ",", true);
    assert_eq!(pairs(&data_like), expected(&[("key1", "value1")]));
    let only_header = parse_table("key1,value1", ",", true);
    assert_eq!(only_header.len(), 0);
    let empty = parse_table("", ",", true);
    assert_eq!(empty.len(), 0);
}

#[test]
fn later_duplicate_key_wins_and_keeps_first_place() {
    let t = parse_table("a,1\nb,2\na,3\n", ",", false);
    assert_eq!(t.len(), 2);
    assert_eq!(t.key_at(0), b"a");
    assert_eq!(t.value_at(0), b"3");
    assert_eq!(t.key_at(1), b"b");
    assert_eq!(t.get(b"a"), Some(b"3".to_vec()));
    assert_eq!(t.get(b"c"), None);
}

#[test]
fn delimiter_may_stand_in_value() {
    let t = parse_table("k,v1,v2\n", ",", false);
    assert_eq!(pairs(&t), expected(&[("k", "v1,v2")]));
}

#[test]
fn lines_without_delimiter_are_skipped() {
    let t = parse_table("nodelim\n\nk=v\n", "=", false);
    assert_eq!(pairs(&t), expected(&[("k", "v")]));
}

#[test]
fn crlf_line_endings_are_dropped() {
    let t = parse_table("a,1\r\nb,2\r\nc,3\r", ",", false);
    assert_eq!(pairs(&t), expected(&[("a", "1"), ("b", "2"), ("c", "3\r")]));
}

#[test]
fn empty_delimiter_gives_empty_key() {
    let t = parse_table("abc\n", "", false);
    assert_eq!(pairs(&t), expected(&[("", "abc")]));
}

#[test]
fn table_insert_and_get() {
    let mut t = Table::new();
    assert_eq!(t.len(), 0);
    t.insert(b"x".to_vec(), b"1".to_vec());
    t.insert(b"y".to_vec(), b"2".to_vec());
    t.insert(b"x".to_vec(), b"3".to_vec());
    assert_eq!(t.len(), 2);
    assert_eq!(t.get(b"x"), Some(b"3".to_vec()));
    assert_eq!(t.get(b"y"), Some(b"2".to_vec()));
}
