use rustdmenu::rank::{map_to_sorted_list, merge};
use rustdmenu::store::load_map;
use rustdmenu::table::UsageTable;

fn strings(list: &[&str]) -> Vec<String> {
    list.iter().map(|s| s.to_string()).collect()
}

#[test]
fn the_higher_count_comes_first() {
    let table = load_map(Some("{\"htop\":1,\"vim\":3,\"firefox\":2}")).unwrap();
    assert_eq!(map_to_sorted_list(&table), vec!["vim", "firefox", "htop"]);
}

#[test]
fn equal_counts_come_in_the_order_of_the_identifiers() {
    let table = load_map(Some("{\"vim\":2,\"htop\":2,\"firefox\":2,\"alsa\":5}")).unwrap();
    assert_eq!(map_to_sorted_list(&table), vec!["alsa", "firefox", "htop", "vim"]);
}

#[test]
fn identifiers_are_ordered_by_their_bytes() {
    let table = load_map(Some("{\"b\":1,\"a\":1,\"B\":1,\"ab\":1,\"\":1,\"\u{e9}\":1,\"z\":1}"))
        .unwrap();
    assert_eq!(map_to_sorted_list(&table), vec!["", "B", "a", "ab", "b", "z", "\u{e9}"]);
}

#[test]
fn the_empty_table_ranks_nothing() {
    assert!(map_to_sorted_list(&UsageTable::new()).is_empty());
}

#[test]
fn the_ranking_is_the_same_whatever_the_order_of_the_document() {
    let first = load_map(Some("{\"a\":1,\"b\":1,\"c\":7,\"d\":1}")).unwrap();
    let second = load_map(Some("{\"d\":1,\"c\":7,\"b\":1,\"a\":1}")).unwrap();
    assert_eq!(map_to_sorted_list(&first), map_to_sorted_list(&second));
    assert_eq!(map_to_sorted_list(&first), vec!["c", "a", "b", "d"]);
}

#[test]
fn the_ranking_holds_every_key_once() {
    let table = load_map(Some("{\"a\":4,\"b\":9,\"c\":4,\"d\":1,\"e\":9,\"f\":2}")).unwrap();
    let mut list = map_to_sorted_list(&table);
    assert_eq!(list.len(), table.len());
    for name in &list {
        assert!(table.contains_key(name));
    }
    list.sort();
    list.dedup();
    assert_eq!(list, vec!["a", "b", "c", "d", "e", "f"]);
}

#[test]
fn the_counts_fall_along_the_ranking() {
    let table = load_map(Some("{\"a\":4,\"b\":9,\"c\":4,\"d\":1,\"e\":9,\"f\":2,\"g\":-3}"))
        .unwrap();
    let list = map_to_sorted_list(&table);
    assert_eq!(list, vec!["b", "e", "a", "c", "f", "d", "g"]);
    for pair in list.windows(2) {
        assert!(table.get(pair[0]).unwrap() >= table.get(pair[1]).unwrap());
    }
}

#[test]
fn new_candidates_follow_the_known_ones_as_reported() {
    let table = load_map(Some("{\"vim\":3,\"htop\":1}")).unwrap();
    let fresh = strings(&["firefox", "vim", "htop", "alsa"]);
    let list = merge(&table, map_to_sorted_list(&table), &fresh);
    assert_eq!(list, vec!["vim", "htop", "firefox", "alsa"]);
}

#[test]
fn a_key_that_is_not_reported_is_still_offered() {
    let table = load_map(Some("{\"gone\":2}")).unwrap();
    let fresh = strings(&["vim"]);
    let list = merge(&table, map_to_sorted_list(&table), &fresh);
    assert_eq!(list, vec!["gone", "vim"]);
}

#[test]
fn with_an_empty_table_the_candidates_stay_as_reported() {
    let table = UsageTable::new();
    let fresh = strings(&["firefox", "vim", "htop"]);
    let list = merge(&table, map_to_sorted_list(&table), &fresh);
    assert_eq!(list, vec!["firefox", "vim", "htop"]);
}

#[test]
fn candidates_are_not_held_against_each_other() {
    let table = load_map(Some("{\"vim\":1}")).unwrap();
    let fresh = strings(&["top", "vim", "top"]);
    let list = merge(&table, map_to_sorted_list(&table), &fresh);
    assert_eq!(list, vec!["vim", "top", "top"]);
}

#[test]
fn nothing_is_offered_twice_when_nothing_is_reported_twice() {
    let table = load_map(Some("{\"a\":1,\"b\":2,\"c\":3}")).unwrap();
    let fresh = strings(&["x", "c", "y", "a", "z"]);
    let list = merge(&table, map_to_sorted_list(&table), &fresh);
    assert_eq!(list, vec!["c", "b", "a", "x", "y", "z"]);
    let mut seen = list.clone();
    seen.sort();
    seen.dedup();
    assert_eq!(seen.len(), list.len());
    let first_new = list.iter().position(|name| !table.contains_key(name)).unwrap();
    assert!(list[..first_new].iter().all(|name| table.contains_key(name)));
    assert!(list[first_new..].iter().all(|name| !table.contains_key(name)));
}
