use rudo::utils::StatefulList;

#[test]
fn it_gets_selected_item() {
    let mut list = StatefulList::new(vec!["a", "b", "c"]);

    assert_eq!(list.selected, None);
    list.next();
    assert_eq!(list.get_selected_item(), Some(&"a"));
    list.next();
    assert_eq!(list.get_selected_item(), Some(&"b"));
    list.previous();
    assert_eq!(list.get_selected_item(), Some(&"a"));
}

#[test]
fn advancing_once_per_item_returns_to_start() {
    let mut list = StatefulList::new(vec![10, 20, 30]);
    list.next();
    list.next();
    let start = list.selected;

    list.next();
    list.next();
    list.next();
    assert_eq!(list.selected, start);
}

#[test]
fn retreating_once_per_item_returns_to_start() {
    let mut list = StatefulList::new(vec![10, 20, 30]);
    list.next();
    let start = list.selected;

    list.previous();
    list.previous();
    list.previous();
    assert_eq!(list.selected, start);
}

#[test]
fn navigation_wraps_at_both_ends() {
    let mut list = StatefulList::new(vec![1, 2]);
    list.previous();
    assert_eq!(list.selected, Some(1));
    list.next();
    assert_eq!(list.selected, Some(0));
    list.previous();
    assert_eq!(list.selected, Some(1));
}

#[test]
fn navigation_on_empty_list_keeps_cursor_unset() {
    let mut list: StatefulList<u8> = StatefulList::new(vec![]);
    list.next();
    assert_eq!(list.selected, None);
    list.previous();
    assert_eq!(list.selected, None);
    assert_eq!(list.get_selected_item(), None);
}
