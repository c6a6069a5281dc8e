use rudo::app::{App, AppStage};
use rudo::sorting::{AppSorting, SortingOrder};
use rudo::todo_item::TodoItem;

static TASK_A_NAME: &str = "A";
static TASK_B_NAME: &str = "B";

fn create_todo_items() -> Vec<TodoItem> {
    vec![TodoItem::new(TASK_A_NAME), TodoItem::new(TASK_B_NAME)]
}

#[test]
fn it_creates_app() {
    let items = create_todo_items();
    let app = App::new(items.clone());

    assert_eq!(app.list.items.len(), items.len());
    assert_eq!(app.list.items[0].id, items[0].id);
    assert_eq!(
        app.sorting_order,
        AppSorting::ByDate(SortingOrder::Ascending)
    );
    assert_eq!(app.get_stage_clone(), AppStage::Default);
    assert_eq!(app.item_name_input, "");
    assert_eq!(app.filter_term, "");

    // Correct item is selected
    assert_eq!(app.list.get_selected_item().unwrap().id, items[0].id);
}

#[test]
fn it_add_new_item() {
    let mut app = App::new(vec![]);
    app.item_input_add_character('a');

    assert_eq!(app.item_name_input, "a");

    app.add_new_item();
    assert_eq!(app.list.items[0].name, "a");
}

#[test]
fn it_should_edit_existing_item() {
    let mut app = App::new(vec![TodoItem::new(TASK_A_NAME)]);
    app.item_input_add_character('a');

    assert_eq!(app.item_name_input, "a");

    app.update_item();
    assert_eq!(app.list.items.len(), 1);
    assert_eq!(app.list.items[0].name, "a");
}

#[test]
fn it_should_not_add_empty_item() {
    let mut app = App::new(vec![]);

    app.add_new_item();
    assert_eq!(app.list.items.len(), 0);
}

#[test]
fn it_removes_selected_item() {
    let items = create_todo_items();
    let mut app = App::new(vec![items[0].clone()]);

    app.remove_task();
    assert_eq!(app.list.items.len(), 0);
}

#[test]
fn it_toggles_sorting() {
    let items = create_todo_items();
    let mut app = App::new(items);
    app.list.items[0].set_completion(true);
    let item_id = app.list.items[0].id;

    app.toggle_sorting();
    assert_eq!(
        app.sorting_order,
        AppSorting::ByDate(SortingOrder::Descending)
    );

    app.toggle_sorting();
    assert_eq!(
        app.sorting_order,
        AppSorting::ByCompletion(SortingOrder::Ascending)
    );

    // Completion ascending puts uncompleted tasks first.
    assert_eq!(app.list.items[1].id, item_id);

    app.toggle_sorting();
    assert_eq!(
        app.sorting_order,
        AppSorting::ByCompletion(SortingOrder::Descending)
    );

    // Completion descending puts the completed task first.
    assert_eq!(app.list.items[0].id, item_id);

    app.toggle_sorting();
    assert_eq!(
        app.sorting_order,
        AppSorting::ByDate(SortingOrder::Ascending)
    );
}

#[test]
fn it_filters_items() {
    let items = create_todo_items();
    let mut app = App::new(items.clone());

    app.filter_term_add_character('a');
    assert_eq!(app.filter_term, "a");
    assert_eq!(app.list.items.len(), 2);
    assert_eq!(app.get_filtered_items().len(), 1);
}

#[test]
fn it_should_keep_initial_list_enumeration() {
    let items = create_todo_items();
    let mut app = App::new(items.clone());

    app.filter_term_add_character('b');
    assert_eq!(app.filter_term, "b");
    assert_eq!(app.get_filtered_items()[0].0, 1);
    assert_eq!(app.get_filtered_items()[0].1.name, TASK_B_NAME);
}

#[test]
fn typed_name_becomes_new_task() {
    let mut app = App::new(vec![]);
    app.item_input_add_character('a');
    app.item_input_add_character('b');

    app.add_new_item();
    assert_eq!(app.list.items.len(), 1);
    assert_eq!(app.list.items[0].name, "ab");
    assert_eq!(app.list.items[0].completed, false);
}

#[test]
fn backspace_edits_the_input_buffer() {
    let mut app = App::new(vec![]);
    app.item_input_add_character('a');
    app.item_input_add_character('b');
    app.item_input_remove_character();
    assert_eq!(app.item_name_input, "a");

    app.item_input_remove_character();
    app.item_input_remove_character();
    assert_eq!(app.item_name_input, "");
}

#[test]
fn remove_with_no_selection_changes_nothing() {
    let items = create_todo_items();
    let mut app = App::new(items.clone());
    app.list.selected = None;

    app.remove_task();
    assert_eq!(app.list.items.len(), 2);
    assert_eq!(app.list.items[0].id, items[0].id);
    assert_eq!(app.list.items[1].id, items[1].id);
    assert_eq!(app.list.selected, None);
}

#[test]
fn sorting_both_ways_reverses_distinct_dates() {
    let mut first = TodoItem::new("first");
    let mut second = TodoItem::new("second");
    let mut third = TodoItem::new("third");
    first.created_date = 0;
    first.updated_date = 30;
    second.created_date = 0;
    second.updated_date = 10;
    third.created_date = 0;
    third.updated_date = 20;

    let mut app = App::new(vec![first.clone(), second.clone(), third.clone()]);
    assert_eq!(app.list.items[0].id, second.id);
    assert_eq!(app.list.items[1].id, third.id);
    assert_eq!(app.list.items[2].id, first.id);

    app.set_sorting_order(AppSorting::ByDate(SortingOrder::Descending));
    assert_eq!(app.list.items[0].id, first.id);
    assert_eq!(app.list.items[1].id, third.id);
    assert_eq!(app.list.items[2].id, second.id);
}

#[test]
fn filter_is_case_insensitive_both_ways() {
    let mut app = App::new(vec![TodoItem::new("alpha"), TodoItem::new("BETA")]);

    for letter in "ALPHA".chars() {
        app.filter_term_add_character(letter);
    }
    let visible = app.get_filtered_items();
    assert_eq!(visible.len(), 1);
    assert_eq!(visible[0].1.name, "alpha");

    for _ in 0.."ALPHA".len() {
        app.filter_term_remove_character();
    }
    for letter in "beta".chars() {
        app.filter_term_add_character(letter);
    }
    let visible = app.get_filtered_items();
    assert_eq!(visible.len(), 1);
    assert_eq!(visible[0].1.name, "BETA");
}

#[test]
fn empty_filter_shows_every_task() {
    let items = create_todo_items();
    let app = App::new(items.clone());

    let visible = app.get_filtered_items();
    assert_eq!(visible.len(), 2);
    assert_eq!(visible[0].0, 0);
    assert_eq!(visible[1].0, 1);
}

#[test]
fn filtered_entry_reports_creation_index() {
    let items = create_todo_items();
    let mut app = App::new(items.clone());

    app.filter_term_add_character('a');
    let visible = app.get_filtered_items();
    assert_eq!(visible.len(), 1);
    assert_eq!(visible[0].0, 0);
    assert_eq!(visible[0].1.name, TASK_A_NAME);
}

#[test]
fn toggled_task_sorts_first_under_completion_descending() {
    let items = create_todo_items();
    let mut app = App::new(items);
    app.list.next();
    assert_eq!(app.list.get_selected_item().unwrap().name, TASK_B_NAME);

    app.toggle_task();
    app.set_sorting_order(AppSorting::ByCompletion(SortingOrder::Descending));

    assert_eq!(app.list.items[0].name, TASK_B_NAME);
    assert!(app.list.items[0].completed);
}

#[test]
fn edit_stage_without_selection_stays_default() {
    let mut app = App::new(vec![]);
    app.set_stage(AppStage::UpdateItem);
    assert_eq!(app.get_stage_clone(), AppStage::Default);
}

#[test]
fn edit_stage_seeds_input_with_selected_name() {
    let items = create_todo_items();
    let mut app = App::new(items);
    app.set_stage(AppStage::UpdateItem);
    assert_eq!(app.get_stage_clone(), AppStage::UpdateItem);
    assert_eq!(app.item_name_input, TASK_A_NAME);
}

#[test]
fn entering_create_stage_clears_input() {
    let mut app = App::new(vec![]);
    app.item_input_add_character('x');
    app.set_stage(AppStage::CreateItem);
    assert_eq!(app.get_stage_clone(), AppStage::CreateItem);
    assert_eq!(app.item_name_input, "");
}

#[test]
fn renaming_keeps_identifier_and_count() {
    let mut app = App::new(vec![TodoItem::new("old name")]);
    let id = app.list.items[0].id;

    for letter in "new name".chars() {
        app.item_input_add_character(letter);
    }
    app.update_item();
    assert_eq!(app.list.items.len(), 1);
    assert_eq!(app.list.items[0].name, "new name");
    assert_eq!(app.list.items[0].id, id);
}

#[test]
fn filter_backspace_on_empty_term_changes_nothing() {
    let mut app = App::new(create_todo_items());
    let before = app.list.selected;

    app.filter_term_remove_character();
    assert_eq!(app.filter_term, "");
    assert_eq!(app.list.selected, before);
}

#[test]
fn date_sort_breaks_ties_by_creation_order() {
    let mut first = TodoItem::new("a");
    let mut second = TodoItem::new("b");
    let mut third = TodoItem::new("c");
    for item in [&mut first, &mut second, &mut third] {
        item.created_date = 0;
        item.updated_date = 5;
    }
    second.completed = true;

    let mut app = App::new(vec![first.clone(), second.clone(), third.clone()]);
    app.set_sorting_order(AppSorting::ByCompletion(SortingOrder::Descending));
    assert_eq!(app.list.items[0].id, second.id);

    // All update times tie, so sorting by date falls back to creation
    // order, not to the completion-sorted order it replaces.
    app.set_sorting_order(AppSorting::ByDate(SortingOrder::Ascending));
    assert_eq!(app.list.items[0].id, first.id);
    assert_eq!(app.list.items[1].id, second.id);
    assert_eq!(app.list.items[2].id, third.id);
}

#[test]
fn toggle_without_selection_changes_nothing() {
    let items = create_todo_items();
    let mut app = App::new(items.clone());
    app.list.selected = None;

    app.toggle_task();
    assert_eq!(app.list.items[0].completed, false);
    assert_eq!(app.list.items[1].completed, false);
}
