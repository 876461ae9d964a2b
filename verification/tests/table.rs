use rustdmenu::store::{load_map, save_map};
use rustdmenu::table::{update_used, UsageTable};

#[test]
fn the_new_table_is_empty() {
    let table = UsageTable::new();
    assert_eq!(table.len(), 0);
    assert_eq!(table.get("vim"), None);
    assert!(!table.contains_key("vim"));
}

#[test]
fn a_first_use_counts_one_and_leaves_the_rest() {
    let mut table = load_map(Some("{\"vim\":3,\"htop\":1}")).unwrap();
    update_used(&mut table, "firefox");
    assert_eq!(table.get("firefox"), Some(1));
    assert_eq!(table.get("vim"), Some(3));
    assert_eq!(table.get("htop"), Some(1));
    assert_eq!(table.len(), 3);
}

#[test]
fn a_further_use_adds_one_and_leaves_the_rest() {
    let mut table = load_map(Some("{\"vim\":3,\"htop\":1}")).unwrap();
    update_used(&mut table, "vim");
    assert_eq!(table.get("vim"), Some(4));
    assert_eq!(table.get("htop"), Some(1));
    assert_eq!(table.len(), 2);
}

#[test]
fn a_count_stays_at_the_largest_value() {
    let mut table = load_map(Some("{\"vim\":2147483646}")).unwrap();
    update_used(&mut table, "vim");
    assert_eq!(table.get("vim"), Some(i32::MAX));
    update_used(&mut table, "vim");
    assert_eq!(table.get("vim"), Some(i32::MAX));
}

#[test]
fn identifiers_are_told_apart_to_the_letter() {
    let mut table = UsageTable::new();
    update_used(&mut table, "vim");
    update_used(&mut table, "Vim");
    update_used(&mut table, "vim ");
    update_used(&mut table, "vi");
    assert_eq!(table.len(), 4);
    assert_eq!(table.get("vim"), Some(1));
    assert!(table.contains_key("vi"));
    assert!(!table.contains_key("v"));
}

#[test]
fn remove_gives_the_count_and_takes_the_key_out() {
    let mut table = load_map(Some("{\"vim\":3,\"htop\":1}")).unwrap();
    assert_eq!(table.remove("vim"), Some(3));
    assert_eq!(table.get("vim"), None);
    assert_eq!(table.get("htop"), Some(1));
    assert_eq!(table.len(), 1);
}

#[test]
fn removing_what_is_no_key_changes_no_byte() {
    let mut table = load_map(Some("{\"vim\":3,\"htop\":1}")).unwrap();
    let before = save_map(&table).unwrap();
    assert_eq!(table.remove("firefox"), None);
    assert_eq!(save_map(&table).unwrap(), before);
    assert_eq!(table.len(), 2);
}

#[test]
fn removing_twice_is_removing_once() {
    let mut table = load_map(Some("{\"vim\":3,\"htop\":1}")).unwrap();
    assert_eq!(table.remove("vim"), Some(3));
    let once = save_map(&table).unwrap();
    assert_eq!(table.remove("vim"), None);
    assert_eq!(save_map(&table).unwrap(), once);
}

#[test]
fn a_removed_key_starts_again_at_one() {
    let mut table = load_map(Some("{\"vim\":3}")).unwrap();
    table.remove("vim");
    update_used(&mut table, "vim");
    assert_eq!(table.get("vim"), Some(1));
}
