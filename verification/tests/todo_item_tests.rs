use rudo::todo_item::TodoItem;

#[test]
fn it_creates_new_item() {
    let name = "test task";
    let item = TodoItem::new(name);

    assert_eq!(item.name, name);
    assert_eq!(item.completed, false);
}

#[test]
fn it_sets_completion_status() {
    let name = "test task";
    let mut item = TodoItem::new(name);

    assert_eq!(item.completed, false);
    item.set_completion(true);
    assert_eq!(item.completed, true);
}

#[test]
fn new_item_has_equal_timestamps() {
    let item = TodoItem::new("fresh");
    assert_eq!(item.created_date, item.updated_date);
}

#[test]
fn renaming_keeps_id_and_creation_date() {
    let mut item = TodoItem::new("before");
    let id = item.id;
    let created = item.created_date;

    item.set_name("after");
    assert_eq!(item.name, "after");
    assert_eq!(item.id, id);
    assert_eq!(item.created_date, created);
    assert!(item.updated_date >= item.created_date);
}
