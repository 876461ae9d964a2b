use rustdmenu::failure::Failure;
use rustdmenu::store::{checked_document, delete, load_map, save_map};
use rustdmenu::table::{update_used, UsageTable};

#[test]
fn nothing_stored_loads_as_the_empty_table() {
    let table = load_map(None).unwrap();
    assert_eq!(table.len(), 0);
}

#[test]
fn a_document_loads_with_its_counts() {
    let table = load_map(Some("{\"vim\": 3, \"htop\": 1}")).unwrap();
    assert_eq!(table.len(), 2);
    assert_eq!(table.get("vim"), Some(3));
    assert_eq!(table.get("htop"), Some(1));
    assert_eq!(table.get("firefox"), None);
}

#[test]
fn a_broken_document_is_corruption() {
    assert!(matches!(load_map(Some("{\"vim\": 3")), Err(Failure::Corruption)));
    assert!(matches!(load_map(Some("")), Err(Failure::Corruption)));
    assert!(matches!(load_map(Some("{\"vim\": \"three\"}")), Err(Failure::Corruption)));
    assert!(matches!(load_map(Some("{\"vim\": 3} x")), Err(Failure::Corruption)));
}

#[test]
fn the_document_lists_the_keys_in_their_order() {
    let mut table = UsageTable::new();
    update_used(&mut table, "vim");
    update_used(&mut table, "htop");
    update_used(&mut table, "vim");
    assert_eq!(save_map(&table).unwrap(), "{\"htop\":1,\"vim\":2}");
}

#[test]
fn the_empty_table_is_the_empty_object() {
    assert_eq!(save_map(&UsageTable::new()).unwrap(), "{}");
}

#[test]
fn delete_takes_the_key_out_of_the_document() {
    let stored = "{\"vim\":3,\"htop\":1}";
    assert_eq!(delete(Some(stored), "vim").unwrap(), "{\"htop\":1}");
}

#[test]
fn what_is_saved_loads_as_the_same_table() {
    let mut table = UsageTable::new();
    for name in ["vim", "htop", "vim", "fire fox", "\"quoted\"", "back\\slash", "tab\there",
        "\u{e9}t\u{e9}", "\u{1f600}", "", "vim"] {
        update_used(&mut table, name);
    }
    let document = save_map(&table).unwrap();
    let again = load_map(Some(&document)).unwrap();
    assert_eq!(again.len(), table.len());
    assert_eq!(again.len(), 9);
    for name in ["vim", "htop", "fire fox", "\"quoted\"", "back\\slash", "tab\there",
        "\u{e9}t\u{e9}", "\u{1f600}", ""] {
        assert_eq!(again.get(name), table.get(name));
    }
    assert_eq!(again.get("vim"), Some(3));
    assert_eq!(save_map(&again).unwrap(), document);
}

#[test]
fn what_is_loaded_saves_as_a_document_of_the_same_table() {
    let stored = " { \"b\" : 2 ,\n \"a\" : -1 } ";
    let table = load_map(Some(stored)).unwrap();
    let document = save_map(&table).unwrap();
    assert_eq!(document, "{\"a\":-1,\"b\":2}");
    let again = load_map(Some(&document)).unwrap();
    assert_eq!(again.get("a"), Some(-1));
    assert_eq!(again.get("b"), Some(2));
    assert_eq!(again.len(), 2);
}

#[test]
fn a_key_written_twice_holds_its_last_count() {
    let table = load_map(Some("{\"vim\":1,\"vim\":5}")).unwrap();
    assert_eq!(table.len(), 1);
    assert_eq!(table.get("vim"), Some(5));
}

#[test]
fn a_count_beyond_the_range_is_corruption() {
    assert!(matches!(load_map(Some("{\"vim\":2147483648}")), Err(Failure::Corruption)));
    assert!(matches!(load_map(Some("{\"vim\":1.5}")), Err(Failure::Corruption)));
    assert!(matches!(load_map(Some("[]")), Err(Failure::Corruption)));
    assert!(matches!(load_map(Some("null")), Err(Failure::Corruption)));
    assert_eq!(load_map(Some("{\"vim\":2147483647}")).unwrap().get("vim"), Some(i32::MAX));
}

#[test]
fn delete_of_what_is_no_key_keeps_the_table() {
    let stored = "{\"htop\":1,\"vim\":3}";
    assert_eq!(delete(Some(stored), "firefox").unwrap(), stored);
}

#[test]
fn delete_with_nothing_stored_gives_the_empty_object() {
    assert_eq!(delete(None, "vim").unwrap(), "{}");
}

#[test]
fn delete_from_a_broken_document_is_corruption() {
    assert!(matches!(delete(Some("{\"vim\":"), "vim"), Err(Failure::Corruption)));
}

#[test]
fn a_document_is_handed_on_only_for_its_own_table() {
    let table = load_map(Some("{\"vim\":3}")).unwrap();
    assert_eq!(checked_document(&table, "{ \"vim\" : 3 }".to_string()).unwrap(), "{ \"vim\" : 3 }");
    assert!(matches!(
        checked_document(&table, "{\"vim\":4}".to_string()),
        Err(Failure::WriteFailure)
    ));
    assert!(matches!(
        checked_document(&table, "{\"vim\":3,\"htop\":1}".to_string()),
        Err(Failure::WriteFailure)
    ));
    assert!(matches!(checked_document(&table, "{}".to_string()), Err(Failure::WriteFailure)));
    assert!(matches!(checked_document(&table, "{\"vim\":3".to_string()), Err(Failure::WriteFailure)));
}
