use pathmap::json::{d3_json_intern, json_intern};
use pathmap::range_generator::compressed_range;
use pathmap::trie_map::BytesTrieMap;

fn small_map() -> BytesTrieMap<()> {
    // The keys [0, 254], [0, 255], [1, 0], [1, 1].
    BytesTrieMap::new_with_root(compressed_range(254u16, 258u16, 1u16, ()).unwrap())
}

#[test]
fn json_nests_children_by_byte() {
    let mut s = b"x=".to_vec();
    json_intern(&small_map(), &mut s);
    assert_eq!(String::from_utf8(s).unwrap(), r#"x={"0":{"254":{},"255":{}},"1":{"0":{},"1":{}}}"#);
}

#[test]
fn json_of_one_level() {
    let map = BytesTrieMap::new_with_root(compressed_range(7u8, 30u8, 10u8, ()).unwrap());
    let mut s = Vec::new();
    json_intern(&map, &mut s);
    assert_eq!(String::from_utf8(s).unwrap(), r#"{"7":{},"17":{},"27":{}}"#);
}

#[test]
fn d3_json_lists_names_and_children() {
    let mut s = Vec::new();
    d3_json_intern(&small_map(), &mut s);
    assert_eq!(
        String::from_utf8(s).unwrap(),
        r#"[{"name":"0","children":[{"name":"254"},{"name":"255"}]},{"name":"1","children":[{"name":"0"},{"name":"1"}]}]"#
    );
}
