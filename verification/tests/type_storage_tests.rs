use process_mining::type_storage::TypeStorage;

#[test]
fn new_names_get_consecutive_ids() {
    let mut storage = TypeStorage::new();
    assert_eq!(storage.get_type_id("order"), 0);
    assert_eq!(storage.get_type_id("item"), 1);
    assert_eq!(storage.get_type_id("package"), 2);
}

#[test]
fn known_name_keeps_its_id() {
    let mut storage = TypeStorage::new();
    let order = storage.get_type_id("order");
    let item = storage.get_type_id("item");
    assert_eq!(storage.get_type_id("order"), order);
    assert_eq!(storage.get_type_id("item"), item);
    assert_ne!(order, item);
    assert_eq!(storage.get_type_id("new"), 2);
}

#[test]
fn ids_map_back_to_names() {
    let mut storage = TypeStorage::new();
    let order = storage.get_type_id("order");
    let item = storage.get_type_id("item");
    assert_eq!(storage.get_type_name(order), Some("order"));
    assert_eq!(storage.get_type_name(item), Some("item"));
}

#[test]
fn unknown_id_has_no_name() {
    let mut storage = TypeStorage::new();
    assert_eq!(storage.get_type_name(0), None);
    storage.get_type_id("order");
    assert_eq!(storage.get_type_name(1), None);
    assert_eq!(storage.get_type_name(usize::MAX), None);
}

#[test]
fn empty_name_is_a_name_too() {
    let mut storage = TypeStorage::new();
    assert_eq!(storage.get_type_id(""), 0);
    assert_eq!(storage.get_type_id(""), 0);
    assert_eq!(storage.get_type_name(0), Some(""));
}
