use inv_sync::inv::{Id, Item};
use inv_sync::tracker::{InvChange, LocalInv};

fn item(name: &str) -> Item {
    let mut it = Item::new(1000);
    it.name = name.to_string();
    it
}

#[test]
fn drain_is_exhaustive() {
    let mut local = LocalInv::new();
    local.insert_item(Id(1), item("a"));
    local.insert_item(Id(2), item("b"));
    local.insert_item(Id(1), item("a2"));
    local.remove_item(&Id(2));
    local.remove_item(&Id(99));
    let first = local.consume_changes();
    assert!(!first.is_empty());
    let second = local.consume_changes();
    assert!(second.is_empty());
    let third = local.consume_changes();
    assert!(third.is_empty());
}

#[test]
fn added_then_modified_stays_added() {
    let mut local = LocalInv::new();
    local.insert_item(Id(7), item("first"));
    local.insert_item(Id(7), item("second"));
    let changes = local.consume_changes();
    assert_eq!(changes.len(), 1);
    assert_eq!(changes[0], InvChange::AddedItem(Id(7)));
    assert_eq!(local.get_item(&Id(7)).unwrap().name, "second");
}

#[test]
fn modifying_existing_item_marks_modified() {
    let mut local = LocalInv::new();
    local.insert_item(Id(7), item("first"));
    let _ = local.consume_changes();
    local.insert_item(Id(7), item("second"));
    let changes = local.consume_changes();
    assert_eq!(changes.len(), 1);
    assert_eq!(changes[0], InvChange::ModifiedItem(Id(7)));
}

#[test]
fn removing_unknown_id_still_records_deletion() {
    let mut local = LocalInv::new();
    local.remove_item(&Id(42));
    let changes = local.consume_changes();
    assert_eq!(changes.len(), 1);
    assert_eq!(changes[0], InvChange::DeletedItem(Id(42)));
    assert_eq!(local.item_count(), 0);
}

#[test]
fn replace_all_clears_every_change_set() {
    let mut local = LocalInv::new();
    local.insert_item(Id(1), item("a"));
    local.insert_item(Id(2), item("b"));
    let _ = local.consume_changes();
    local.insert_item(Id(2), item("b2"));
    local.remove_item(&Id(1));
    local.insert_item(Id(3), item("c"));

    let mut fresh = inv_sync::inv::Inv::new();
    fresh.platform_names.push("Ebay".to_string());
    fresh.items.insert(Id(9), item("z"));
    local.replace_all(fresh);

    let changes = local.consume_changes();
    assert!(changes.is_empty());
    assert_eq!(local.item_count(), 1);
    assert!(local.get_item(&Id(9)).is_some());
    assert!(local.get_item(&Id(3)).is_none());
}

#[test]
fn drain_reports_each_pending_id_once() {
    let mut local = LocalInv::new();
    local.insert_item(Id(1), item("a"));
    local.remove_item(&Id(1));
    let changes = local.consume_changes();
    // The id was added and then removed before any drain: both intents are
    // recorded, and each appears exactly once.
    assert_eq!(changes.len(), 2);
    assert!(changes.contains(&InvChange::AddedItem(Id(1))));
    assert!(changes.contains(&InvChange::DeletedItem(Id(1))));
}

#[test]
fn item_ids_lists_each_item() {
    let mut local = LocalInv::new();
    local.insert_item(Id(5), item("a"));
    local.insert_item(Id(6), item("b"));
    let mut ids: Vec<u32> = local.item_ids().into_iter().map(|id| id.0).collect();
    ids.sort();
    assert_eq!(ids, vec![5, 6]);
}
