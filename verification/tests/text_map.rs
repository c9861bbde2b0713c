use sheet_translate::text_map::TextMap;

fn numbers(words: &[&str]) -> TextMap<usize> {
    let mut map = TextMap::new();
    for (i, word) in words.iter().enumerate() {
        map.insert(word.to_string(), i);
    }
    map
}

#[test]
fn new_map_is_empty() {
    let map: TextMap<usize> = TextMap::new();
    assert_eq!(map.len(), 0);
    assert_eq!(map.get("a"), None);
    assert_eq!(map.search("a"), Err(0));
}

#[test]
fn keys_are_kept_in_ascending_order() {
    let map = numbers(&["pear", "apple", "fig", "banana"]);
    assert_eq!(map.len(), 4);
    let keys: Vec<&str> = (0..map.len()).map(|i| map.key_at(i).as_str()).collect();
    assert_eq!(keys, vec!["apple", "banana", "fig", "pear"]);
    let values: Vec<usize> = (0..map.len()).map(|i| *map.value_at(i)).collect();
    assert_eq!(values, vec![1, 3, 2, 0]);
}

#[test]
fn prefix_stands_before_longer_key() {
    let map = numbers(&["ab", "a", "abc", ""]);
    let keys: Vec<&str> = (0..map.len()).map(|i| map.key_at(i).as_str()).collect();
    assert_eq!(keys, vec!["", "a", "ab", "abc"]);
}

#[test]
fn search_gives_place_or_insertion_point() {
    let map = numbers(&["b", "d", "f"]);
    assert_eq!(map.search("b"), Ok(0));
    assert_eq!(map.search("d"), Ok(1));
    assert_eq!(map.search("f"), Ok(2));
    assert_eq!(map.search("a"), Err(0));
    assert_eq!(map.search("c"), Err(1));
    assert_eq!(map.search("e"), Err(2));
    assert_eq!(map.search("g"), Err(3));
}

#[test]
fn get_gives_the_value_under_the_key() {
    let map = numbers(&["b", "d", "f"]);
    assert_eq!(map.get("d"), Some(&1));
    assert_eq!(map.get("e"), None);
}

#[test]
fn insert_under_held_key_replaces_the_value() {
    let mut map = numbers(&["b", "d", "f"]);
    map.insert("d".to_string(), 9);
    assert_eq!(map.len(), 3);
    assert_eq!(map.get("d"), Some(&9));
    assert_eq!(map.get("b"), Some(&0));
    assert_eq!(map.get("f"), Some(&2));
}
