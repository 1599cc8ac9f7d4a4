use serde_trim::collection::{
    binaryheap_non_empty_string_trim, binaryheap_string_trim, btreeset_non_empty_string_trim,
    btreeset_string_trim, hashset_non_empty_string_trim, hashset_string_trim,
    linkedlist_non_empty_string_trim, linkedlist_string_trim, vec_non_empty_string_trim,
    vec_string_trim, vecdeque_non_empty_string_trim, vecdeque_string_trim,
};
use serde_trim::trim::{option_string_trim, string_trim};
use std::collections::{BTreeSet, BinaryHeap, HashMap, HashSet, LinkedList, VecDeque};

const LIST: &str = r#"{"name":["   ","foo","b ar","hello ","  rust"]}"#;
const LIST_REPEATED: &str = r#"{"name":["   ","foo","b ar","hello ","  rust","  rust"]}"#;

fn decoded_list(json: &str) -> Vec<String> {
    let mut fields = serde_json::from_str::<HashMap<String, Vec<String>>>(json).unwrap();
    fields.remove("name").unwrap()
}


#[test]
fn test_string_trim() {
    let json = r#"{"name":" "}"#;
    let mut fields = serde_json::from_str::<HashMap<String, String>>(json).unwrap();
    let name = string_trim(fields.remove("name").unwrap());
    assert_eq!(name, "");
}

#[test]
fn test_option_string_trim() {
    let json = r#"{"name":" "}"#;
    let mut fields = serde_json::from_str::<HashMap<String, Option<String>>>(json).unwrap();
    let name = option_string_trim(fields.remove("name").unwrap());
    assert_eq!(name, None);

    let json = r#"{"addr":"ABC"}"#;
    let mut fields = serde_json::from_str::<HashMap<String, Option<String>>>(json).unwrap();
    let name = option_string_trim(fields.remove("name").unwrap_or_default());
    let addr = fields.remove("addr").unwrap().unwrap();
    assert_eq!(name, None);
    assert_eq!(addr, "ABC");
}

#[test]
fn test_vec_string_trim() {
    let name = vec_string_trim(decoded_list(LIST));
    assert_eq!(name, vec!["", "foo", "b ar", "hello", "rust"]);
}

#[test]
fn test_btreeset_string_trim() {
    let raw: BTreeSet<String> = decoded_list(LIST).into_iter().collect();
    let name: BTreeSet<String> = btreeset_string_trim(raw.into_iter().collect())
        .into_iter()
        .collect();
    let expected: BTreeSet<String> = BTreeSet::from_iter([
        "".into(),
        "foo".into(),
        "b ar".into(),
        "hello".into(),
        "rust".into(),
    ]);
    assert_eq!(name, expected);
}

#[test]
fn test_hashset_string_trim() {
    let raw: HashSet<String> = decoded_list(LIST_REPEATED).into_iter().collect();
    let name: HashSet<String> = hashset_string_trim(raw.into_iter().collect())
        .into_iter()
        .collect();
    let expected: HashSet<String> = HashSet::from_iter([
        "".into(),
        "foo".into(),
        "b ar".into(),
        "hello".into(),
        "rust".into(),
    ]);
    assert_eq!(name, expected);
}

#[test]
fn test_vecdeque_string_trim() {
    let raw: VecDeque<String> = decoded_list(LIST).into_iter().collect();
    let name = vecdeque_string_trim(raw);
    assert_eq!(name, vec!["", "foo", "b ar", "hello", "rust"]);
}

#[test]
fn test_linkedlist_string_trim() {
    let raw: LinkedList<String> = decoded_list(LIST).into_iter().collect();
    let name: LinkedList<String> = linkedlist_string_trim(raw.into_iter().collect())
        .into_iter()
        .collect();
    assert_eq!(
        name,
        LinkedList::from_iter([
            "".into(),
            "foo".into(),
            "b ar".into(),
            "hello".into(),
            "rust".into(),
        ])
    );
}

#[test]
fn test_binaryheap_string_trim() {
    let mut fields = serde_json::from_str::<HashMap<String, BinaryHeap<String>>>(LIST).unwrap();
    let raw = fields.remove("name").unwrap();
    let name = BinaryHeap::from(binaryheap_string_trim(raw.into_vec()));
    assert_eq!(name.into_vec(), vec!["rust", "hello", "b ar", "", "foo"]);
}

#[test]
fn test_vec_non_empty_string_trim() {
    let name = vec_non_empty_string_trim(decoded_list(LIST));
    assert_eq!(name, vec!["foo", "b ar", "hello", "rust"]);
}

#[test]
fn test_btreeset_non_empty_string_trim() {
    let raw: BTreeSet<String> = decoded_list(LIST).into_iter().collect();
    let name: BTreeSet<String> = btreeset_non_empty_string_trim(raw.into_iter().collect())
        .into_iter()
        .collect();
    let expected: BTreeSet<String> =
        BTreeSet::from_iter(["foo".into(), "b ar".into(), "hello".into(), "rust".into()]);
    assert_eq!(name, expected);
}

#[test]
fn test_hashset_non_empty_string_trim() {
    let raw: HashSet<String> = decoded_list(LIST_REPEATED).into_iter().collect();
    let name: HashSet<String> = hashset_non_empty_string_trim(raw.into_iter().collect())
        .into_iter()
        .collect();
    let expected: HashSet<String> =
        HashSet::from_iter(["foo".into(), "b ar".into(), "hello".into(), "rust".into()]);
    assert_eq!(name, expected);
}

#[test]
fn test_vecdeque_non_empty_string_trim() {
    let raw: VecDeque<String> = decoded_list(LIST).into_iter().collect();
    let name = vecdeque_non_empty_string_trim(raw);
    assert_eq!(name, vec!["foo", "b ar", "hello", "rust"]);
}

#[test]
fn test_linkedlist_non_empty_string_trim() {
    let raw: LinkedList<String> = decoded_list(LIST).into_iter().collect();
    let name: LinkedList<String> = linkedlist_non_empty_string_trim(raw.into_iter().collect())
        .into_iter()
        .collect();
    assert_eq!(
        name,
        LinkedList::from_iter(["foo".into(), "b ar".into(), "hello".into(), "rust".into(),])
    );
}

#[test]
fn test_binaryheap_non_empty_string_trim() {
    let mut fields = serde_json::from_str::<HashMap<String, BinaryHeap<String>>>(LIST).unwrap();
    let raw = fields.remove("name").unwrap();
    let name = BinaryHeap::from(binaryheap_non_empty_string_trim(raw.into_vec()));
    assert_eq!(name.into_vec(), vec!["rust", "hello", "b ar", "foo"]);
}
