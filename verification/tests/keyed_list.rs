use dfx::assets::ChunkedAssetEncoding;
use dfx::keyed_list::KeyedList;

fn encoding(tag: u8) -> ChunkedAssetEncoding {
    ChunkedAssetEncoding { chunk_ids: vec![], sha256: vec![tag] }
}

fn list(entries: &[(&str, u8)]) -> KeyedList<ChunkedAssetEncoding> {
    let mut list = KeyedList::new();
    for (key, tag) in entries {
        list = list.insert(key.to_string(), encoding(*tag));
    }
    list
}

fn entries(list: &KeyedList<ChunkedAssetEncoding>) -> Vec<(String, u8)> {
    (0..list.len())
        .map(|i| {
            let (key, value) = list.entry(i);
            (key.clone(), value.sha256[0])
        })
        .collect()
}

#[test]
fn a_new_list_is_empty() {
    let list: KeyedList<ChunkedAssetEncoding> = KeyedList::new();
    assert_eq!(list.len(), 0);
    assert!(!list.contains_key(""));
}

#[test]
fn keys_keep_the_order_in_which_they_came() {
    let list = list(&[("b", 1), ("a", 2), ("c", 3)]);
    assert_eq!(
        entries(&list),
        vec![("b".to_string(), 1), ("a".to_string(), 2), ("c".to_string(), 3)]
    );
    assert!(list.contains_key("a"));
    assert!(!list.contains_key("d"));
}

#[test]
fn a_later_value_replaces_an_earlier_one_in_its_place() {
    let list = list(&[("b", 1), ("a", 2), ("b", 3)]);
    assert_eq!(entries(&list), vec![("b".to_string(), 3), ("a".to_string(), 2)]);
}
