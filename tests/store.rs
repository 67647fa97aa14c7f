use portwatch::store::{Record, RecordStore, StoreError};

fn rec(name: &str, ports: Vec<u16>) -> Record {
    Record::new(name.to_owned(), ports)
}

fn store_of(names: &[&str]) -> RecordStore {
    let mut records = Vec::new();
    for (i, n) in names.iter().enumerate() {
        records.push(rec(n, vec![i as u16]));
    }
    RecordStore::from_records(records)
}

fn names(s: &RecordStore) -> Vec<String> {
    s.records().iter().map(|r| r.name.clone()).collect()
}

#[test]
fn bootstrap_holds_office() {
    let s = RecordStore::bootstrap();
    assert_eq!(s.len(), 1);
    assert_eq!(s.records()[0], rec("Office", vec![1688]));
}

#[test]
fn add_appends_parsed_record() {
    let mut s = store_of(&["a", "b"]);
    assert_eq!(Ok(()), s.add("Steam".to_owned(), "27000-27002,80".to_owned()));
    assert_eq!(s.len(), 3);
    assert_eq!(s.records()[2], rec("Steam", vec![27000, 27001, 27002, 80]));
    assert_eq!(s.records()[0], rec("a", vec![0]));
    assert_eq!(s.records()[1], rec("b", vec![1]));
}

#[test]
fn add_with_bad_spec_leaves_store() {
    let mut s = store_of(&["a", "b"]);
    assert_eq!(Err(StoreError::Parse), s.add("x".to_owned(), "80,70000".to_owned()));
    assert_eq!(names(&s), vec!["a", "b"]);
}

#[test]
fn delete_swaps_last_into_place() {
    let mut s = store_of(&["a", "b", "c", "d"]);
    assert_eq!(Ok(()), s.delete(2));
    assert_eq!(names(&s), vec!["a", "d", "c"]);
}

#[test]
fn delete_last_and_only() {
    let mut s = store_of(&["a", "b"]);
    assert_eq!(Ok(()), s.delete(2));
    assert_eq!(names(&s), vec!["a"]);
    assert_eq!(Ok(()), s.delete(1));
    assert_eq!(s.len(), 0);
}

#[test]
fn delete_outside_range_is_index_error() {
    let mut s = store_of(&["a", "b", "c"]);
    assert_eq!(Err(StoreError::Index), s.delete(0));
    assert_eq!(Err(StoreError::Index), s.delete(4));
    assert_eq!(names(&s), vec!["a", "b", "c"]);
    let mut empty = RecordStore::from_records(Vec::new());
    assert_eq!(Err(StoreError::Index), empty.delete(1));
}

#[test]
fn get_is_one_based() {
    let s = store_of(&["a", "b"]);
    assert_eq!(s.get(1).unwrap().name, "a");
    assert_eq!(s.get(2).unwrap().name, "b");
    assert_eq!(s.get(0), Err(StoreError::Index));
    assert_eq!(s.get(3), Err(StoreError::Index));
}

fn to_json(s: &RecordStore) -> String {
    let mut items = Vec::new();
    for r in s.records() {
        let mut obj = serde_json::Map::new();
        obj.insert("name".to_owned(), serde_json::Value::String(r.name.clone()));
        let ports = r.ports.iter().map(|p| serde_json::Value::from(*p)).collect();
        obj.insert("ports".to_owned(), serde_json::Value::Array(ports));
        items.push(serde_json::Value::Object(obj));
    }
    serde_json::to_string(&serde_json::Value::Array(items)).unwrap()
}

fn from_json(text: &str) -> RecordStore {
    let v: serde_json::Value = serde_json::from_str(text).unwrap();
    let mut records = Vec::new();
    for item in v.as_array().unwrap() {
        let name = item["name"].as_str().unwrap().to_owned();
        let ports = item["ports"]
            .as_array()
            .unwrap()
            .iter()
            .map(|p| p.as_u64().unwrap() as u16)
            .collect();
        records.push(Record::new(name, ports));
    }
    RecordStore::from_records(records)
}

#[test]
fn bootstrap_file_content() {
    assert_eq!(to_json(&RecordStore::bootstrap()), r#"[{"name":"Office","ports":[1688]}]"#);
}

#[test]
fn store_round_trips_through_json() {
    let mut s = RecordStore::bootstrap();
    s.add("Games".to_owned(), "27000-27003,27000".to_owned()).unwrap();
    s.add("Empty".to_owned(), "9-1".to_owned()).unwrap();
    let back = from_json(&to_json(&s));
    assert_eq!(back.records(), s.records());
}

#[test]
fn add_then_reload_keeps_prefix_and_appends() {
    let mut s = store_of(&["a", "b"]);
    s.add("web".to_owned(), "80,443".to_owned()).unwrap();
    let back = from_json(&to_json(&s));
    assert_eq!(back.len(), 3);
    assert_eq!(back.records()[2], rec("web", vec![80, 443]));
    assert_eq!(back.records()[0], rec("a", vec![0]));
    assert_eq!(back.records()[1], rec("b", vec![1]));
}
