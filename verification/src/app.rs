use vstd::prelude::*;
use crate::filtering::{item_matches, name_matches, push_char, pop_char, visible_pred};
use crate::sorting::{
    AppSorting, Entry, ListOrder, SortingOrder, entry_le, index_tasks,
    lemma_permutation_position, lemma_rebuild, lemma_sort_entries, list_order_of, next_sorting,
    no_ties, order_of, sort_entries, sort_entries_vec, with_indices,
};
use crate::todo_item::TodoItem;
use crate::utils::StatefulList;

verus! {

/// The modal context of the application: it decides what a keystroke means
/// — plain navigation, text for a new task's name, text for a selected
/// task's new name, or text for the filter term.
#[derive(Copy, Clone, Debug, PartialEq, Eq, Structural)]
pub enum AppStage {
    Default,
    CreateItem,
    UpdateItem,
    Filter,
}

/// The root application state.
///
/// `list` holds the displayed, currently sorted tasks together with the
/// cursor; `origins[j]` remembers the position that `list.items[j]` holds
/// in the authoritative, creation-ordered task sequence. Sorting reorders
/// the display; the creation order, recoverable through `origins`, never
/// changes under it. The text buffers and the sort mode are plain fields.
pub struct App {
    pub list: StatefulList<TodoItem>,
    pub origins: Vec<usize>,
    pub stage: AppStage,
    pub item_name_input: String,
    pub filter_term: String,
    pub sorting_order: AppSorting,
}

/// The filter that removing a task applies to the creation-ordered
/// sequence: tasks with any other identifier survive.
pub open spec fn survivor_pred(target: u128) -> spec_fn(TodoItem) -> bool {
    |t: TodoItem| t.id != target
}

/// How one task stands after a rename aimed at `target`: a task carrying
/// that identifier takes the new name and a refreshed update time; any
/// other task is exactly as it was.
pub open spec fn updated_name(before: TodoItem, after: TodoItem, target: u128, name: Seq<char>) -> bool {
    if before.id == target {
        &&& after.id == before.id
        &&& after.name@ == name
        &&& after.completed == before.completed
        &&& after.created_date == before.created_date
        &&& after.updated_date >= before.updated_date
    } else {
        after == before
    }
}

/// How one task stands after a completion toggle aimed at `target`: a task
/// carrying that identifier has its flag flipped and its update time
/// refreshed; any other task is exactly as it was.
pub open spec fn toggled_completion(before: TodoItem, after: TodoItem, target: u128) -> bool {
    if before.id == target {
        &&& after.id == before.id
        &&& after.name == before.name
        &&& after.completed == !before.completed
        &&& after.created_date == before.created_date
        &&& after.updated_date >= before.updated_date
    } else {
        after == before
    }
}

/// What committing the text input as a new task leaves behind: the
/// creation-ordered sequence grows by exactly `item` at its end, the
/// display is the re-sort of the old entries plus the new one, and every
/// other part of the state is as it was. The item's name comes from the
/// input; the flag starts cleared.
pub open spec fn added_task(pre: App, post: App, item: TodoItem) -> bool {
    &&& item.name@ == pre.item_name_input@
    &&& !item.completed
    &&& item.created_date == item.updated_date
    &&& item.inv()
    &&& post.entries() == sort_entries(
        order_of(pre.sorting_order),
        with_indices(pre.tasks().push(item)),
    )
    &&& post.tasks() == pre.tasks().push(item)
    &&& post.list.selected == pre.list.selected
    &&& post.stage == pre.stage
    &&& post.item_name_input == pre.item_name_input
    &&& post.filter_term == pre.filter_term
    &&& post.sorting_order == pre.sorting_order
}

/// Committing a typed name grows the task sequence by exactly one task:
/// whatever characters were appended to the input one by one, the new task
/// stands at the end carrying exactly that buffer as its name, not yet
/// completed, and every task that was there before is still there, in
/// order. (With an empty buffer `add_new_item` promises the state back
/// unchanged instead.)
pub proof fn lemma_add_grows_tasks_by_one(pre: App, post: App, item: TodoItem)
    requires
        added_task(pre, post, item),
    ensures
        post.tasks().len() == pre.tasks().len() + 1,
        post.tasks().last() == item,
        post.tasks().last().name@ == pre.item_name_input@,
        !post.tasks().last().completed,
        forall|j: int| 0 <= j < pre.tasks().len() ==> post.tasks()[j] == pre.tasks()[j],
{
}

/// What a rename aimed at `target` leaves behind: every task position
/// relates by `updated_name`, and nothing else moves.
pub open spec fn renamed_matching(pre: App, post: App, target: u128) -> bool {
    &&& post.origins == pre.origins
    &&& post.list.items@.len() == pre.list.items@.len()
    &&& forall|j: int|
        0 <= j < pre.list.items@.len() ==> updated_name(
            pre.list.items@[j],
            #[trigger] post.list.items@[j],
            target,
            pre.item_name_input@,
        )
    &&& post.list.selected == pre.list.selected
    &&& post.stage == pre.stage
    &&& post.item_name_input == pre.item_name_input
    &&& post.filter_term == pre.filter_term
    &&& post.sorting_order == pre.sorting_order
}

/// What a completion toggle aimed at `target` leaves behind: every task
/// position relates by `toggled_completion`, and nothing else moves.
pub open spec fn toggled_matching(pre: App, post: App, target: u128) -> bool {
    &&& post.origins == pre.origins
    &&& post.list.items@.len() == pre.list.items@.len()
    &&& forall|j: int|
        0 <= j < pre.list.items@.len() ==> toggled_completion(
            pre.list.items@[j],
            #[trigger] post.list.items@[j],
            target,
        )
    &&& post.list.selected == pre.list.selected
    &&& post.stage == pre.stage
    &&& post.item_name_input == pre.item_name_input
    &&& post.filter_term == pre.filter_term
    &&& post.sorting_order == pre.sorting_order
}

/// What removing the tasks that carry `target` leaves behind: the
/// creation-ordered sequence keeps exactly the other tasks, in order; the
/// display is their re-sort under the standing mode; the cursor returns to
/// the top or clears; nothing else moves.
pub open spec fn removed_matching(pre: App, post: App, target: u128) -> bool {
    let survivors = pre.tasks().filter(survivor_pred(target));
    &&& post.entries() == sort_entries(order_of(pre.sorting_order), with_indices(survivors))
    &&& post.tasks() == survivors
    &&& post.list.selected == (if survivors.len() > 0 {
        Some(0usize)
    } else {
        None::<usize>
    })
    &&& post.stage == pre.stage
    &&& post.item_name_input == pre.item_name_input
    &&& post.filter_term == pre.filter_term
    &&& post.sorting_order == pre.sorting_order
}

/// Every task of a well-formed application satisfies its own invariant,
/// also when read through the creation-ordered sequence.
proof fn lemma_tasks_all_inv(a: App)
    requires
        a.inv(),
    ensures
        forall|k: int| 0 <= k < a.tasks().len() ==> (#[trigger] a.tasks()[k]).inv(),
{
    lemma_sort_entries(ListOrder::Creation, a.entries());
    let sorted = sort_entries(ListOrder::Creation, a.entries());
    assert forall|k: int| 0 <= k < a.tasks().len() implies (#[trigger] a.tasks()[k]).inv() by {
        lemma_permutation_position(a.entries(), sorted, k);
        let i = choose|i: int| 0 <= i < a.entries().len() && a.entries()[i] == sorted[k];
        assert(a.entries()[i] == (a.origins@[i], a.list.items@[i]));
        assert(a.tasks()[k] == sorted[k].1);
    }
}

/// A display installed as the sort of a freshly indexed task sequence is
/// well-formed, and its creation-ordered sequence is exactly that task
/// sequence.
proof fn lemma_installed_from_tasks(post: App, o: ListOrder, ts: Seq<TodoItem>)
    requires
        post.entries() == sort_entries(o, with_indices(ts)),
        ts.len() <= usize::MAX,
        forall|k: int| 0 <= k < ts.len() ==> (#[trigger] ts[k]).inv(),
        post.origins@.len() == post.list.items@.len(),
        post.list.inv(),
    ensures
        post.inv(),
        post.tasks() == ts,
{
    lemma_rebuild(o, ts);
    lemma_sort_entries(o, with_indices(ts));
    let sorted = sort_entries(o, with_indices(ts));
    assert(post.entries().len() == post.list.items@.len());
    assert forall|j: int| 0 <= j < post.origins@.len() implies (#[trigger] post.origins@[j])
        < post.origins@.len() by {
        assert(post.entries()[j] == (post.origins@[j], post.list.items@[j]));
        assert(sorted[j].0 < ts.len());
    }
    assert forall|j: int| 0 <= j < post.list.items@.len() implies (
    #[trigger] post.list.items@[j]).inv() by {
        lemma_permutation_position(with_indices(ts), sorted, j);
        let i = choose|i: int| 0 <= i < with_indices(ts).len() && with_indices(ts)[i] == sorted[j];
        assert(post.entries()[j] == (post.origins@[j], post.list.items@[j]));
        assert(post.list.items@[j] == sorted[j].1);
        assert(sorted[j].1 == ts[i]);
    }
    assert(post.tasks() =~= ts);
}

/// Mutations that keep every task at its display position (renames,
/// toggles) preserve well-formedness: positions and cursor are untouched,
/// and each task is required to satisfy its own invariant again.
proof fn lemma_same_positions_keep_inv(pre: App, post: App)
    requires
        pre.inv(),
        post.origins == pre.origins,
        post.list.selected == pre.list.selected,
        post.list.items@.len() == pre.list.items@.len(),
        forall|t: int| 0 <= t < post.list.items@.len() ==> (#[trigger] post.list.items@[t]).inv(),
    ensures
        post.inv(),
{
    assert forall|i: int, j: int| 0 <= i < j < post.entries().len() implies !(entry_le(
        ListOrder::Creation,
        post.entries()[i],
        post.entries()[j],
    ) && entry_le(ListOrder::Creation, post.entries()[j], post.entries()[i])) by {
        assert(post.entries()[i] == (post.origins@[i], post.list.items@[i]));
        assert(post.entries()[j] == (post.origins@[j], post.list.items@[j]));
        assert(pre.entries()[i] == (pre.origins@[i], pre.list.items@[i]));
        assert(pre.entries()[j] == (pre.origins@[j], pre.list.items@[j]));
    }
}

impl App {
    /// The displayed entries: each shown task paired with its creation
    /// position.
    pub open spec fn entries(self) -> Seq<Entry> {
        Seq::new(self.list.items@.len(), |j: int| (self.origins@[j], self.list.items@[j]))
    }

    /// The authoritative task sequence, in creation order: the displayed
    /// entries put back into the order the tasks were created in.
    pub open spec fn tasks(self) -> Seq<TodoItem> {
        sort_entries(ListOrder::Creation, self.entries()).map_values(|e: Entry| e.1)
    }

    /// Well-formedness: the cursor is in bounds, each shown task has one
    /// creation position, the positions are pairwise distinct and below the
    /// length, and every task satisfies its own invariant.
    pub open spec fn inv(self) -> bool {
        &&& self.list.inv()
        &&& self.origins@.len() == self.list.items@.len()
        &&& forall|j: int|
            0 <= j < self.origins@.len() ==> (#[trigger] self.origins@[j]) < self.origins@.len()
        &&& no_ties(ListOrder::Creation, self.entries())
        &&& forall|j: int|
            0 <= j < self.list.items@.len() ==> (#[trigger] self.list.items@[j]).inv()
    }

    /// A fresh application over the given tasks: stage `Default`, empty
    /// input and filter buffers, the default sort (least recently updated
    /// first) applied to the display, and the first task selected when
    /// there is one.
    pub fn new(items: Vec<TodoItem>) -> (app: App)
        requires
            forall|j: int| 0 <= j < items@.len() ==> (#[trigger] items@[j]).inv(),
        ensures
            app.inv(),
            app.stage == AppStage::Default,
            app.sorting_order == AppSorting::ByDate(SortingOrder::Ascending),
            app.item_name_input@ == Seq::<char>::empty(),
            app.filter_term@ == Seq::<char>::empty(),
            app.entries() == sort_entries(order_of(app.sorting_order), with_indices(items@)),
            app.tasks() == items@,
            app.list.selected == (if items@.len() > 0 {
                Some(0usize)
            } else {
                None::<usize>
            }),
    {
        let item_count: usize = items.len();
        proof {
            assert(items@.len() == item_count);
        }
        let mut entries = index_tasks(&items);
        let order = ListOrder::Date(SortingOrder::Ascending);
        sort_entries_vec(&mut entries, order);
        let mut app = App {
            list: StatefulList::new(Vec::new()),
            origins: Vec::new(),
            stage: AppStage::Default,
            item_name_input: String::new(),
            filter_term: String::new(),
            sorting_order: AppSorting::ByDate(SortingOrder::Ascending),
        };
        app.install_entries(entries);
        app.select_first_task_or_none();
        proof {
            lemma_installed_from_tasks(app, order, items@);
        }
        app
    }

    /// The current stage, as a value of its own.
    pub fn get_stage_clone(&self) -> (stage: AppStage)
        ensures
            stage == self.stage,
    {
        self.stage
    }

    /// Enters a stage. Entering any stage but `UpdateItem` clears the text
    /// input; entering `UpdateItem` requires a selected task, whose name
    /// then seeds the input — with nothing selected the call changes
    /// nothing at all.
    pub fn set_stage(&mut self, stage: AppStage)
        requires
            old(self).inv(),
        ensures
            final(self).inv(),
            (stage == AppStage::UpdateItem && old(self).list.selected is None) ==> *final(self)
                == *old(self),
            stage == AppStage::UpdateItem ==> (old(self).list.selected matches Some(i) ==> {
                &&& final(self).stage == stage
                &&& final(self).item_name_input == old(self).list.items@[i as int].name
                &&& final(self).list == old(self).list
                &&& final(self).origins == old(self).origins
                &&& final(self).filter_term == old(self).filter_term
                &&& final(self).sorting_order == old(self).sorting_order
            }),
            stage != AppStage::UpdateItem ==> {
                &&& final(self).stage == stage
                &&& final(self).item_name_input@ == Seq::<char>::empty()
                &&& final(self).list == old(self).list
                &&& final(self).origins == old(self).origins
                &&& final(self).filter_term == old(self).filter_term
                &&& final(self).sorting_order == old(self).sorting_order
            },
    {
        match stage {
            AppStage::UpdateItem => {
                match self.list.selected {
                    Some(index) => {
                        self.item_name_input = self.list.items[index].name.clone();
                        self.stage = stage;
                    },
                    None => {},
                }
            },
            _ => {
                self.item_name_input = String::new();
                self.stage = stage;
            },
        }
    }

    /// Appends a character to the text input; nothing else moves.
    pub fn item_input_add_character(&mut self, letter: char)
        requires
            old(self).inv(),
        ensures
            final(self).inv(),
            final(self).item_name_input@ == old(self).item_name_input@.push(letter),
            final(self).list == old(self).list,
            final(self).origins == old(self).origins,
            final(self).stage == old(self).stage,
            final(self).filter_term == old(self).filter_term,
            final(self).sorting_order == old(self).sorting_order,
    {
        push_char(&mut self.item_name_input, letter);
    }

    /// Drops the last character of the text input, if it has one; nothing
    /// else moves.
    pub fn item_input_remove_character(&mut self)
        requires
            old(self).inv(),
        ensures
            final(self).inv(),
            old(self).item_name_input@.len() > 0 ==> final(self).item_name_input@ == old(
                self,
            ).item_name_input@.drop_last(),
            old(self).item_name_input@.len() == 0 ==> *final(self) == *old(self),
            final(self).list == old(self).list,
            final(self).origins == old(self).origins,
            final(self).stage == old(self).stage,
            final(self).filter_term == old(self).filter_term,
            final(self).sorting_order == old(self).sorting_order,
    {
        let _ = pop_char(&mut self.item_name_input);
    }

    /// Clears the text input; nothing else moves.
    pub fn reset_item_name_input(&mut self)
        requires
            old(self).inv(),
        ensures
            final(self).inv(),
            final(self).item_name_input@ == Seq::<char>::empty(),
            final(self).list == old(self).list,
            final(self).origins == old(self).origins,
            final(self).stage == old(self).stage,
            final(self).filter_term == old(self).filter_term,
            final(self).sorting_order == old(self).sorting_order,
    {
        self.item_name_input = String::new();
    }

    /// The displayed entries as a vector: each shown task cloned and paired
    /// with its creation position.
    fn current_entries(&self) -> (entries: Vec<Entry>)
        requires
            self.inv(),
        ensures
            entries@ == self.entries(),
    {
        let mut entries: Vec<Entry> = Vec::new();
        let mut j: usize = 0;
        while j < self.list.items.len()
            invariant
                self.inv(),
                j <= self.list.items@.len(),
                entries@ == self.entries().subrange(0, j as int),
            decreases self.list.items@.len() - j,
        {
            entries.push((self.origins[j], self.list.items[j].clone()));
            proof {
                assert(entries@ =~= self.entries().subrange(0, j as int + 1));
            }
            j += 1;
        }
        proof {
            assert(self.entries().subrange(0, self.entries().len() as int) =~= self.entries());
        }
        entries
    }

    /// Installs freshly computed entries as the displayed list. The cursor
    /// and every other field stay as they are; callers re-establish the
    /// cursor where the length may have changed.
    fn install_entries(&mut self, entries: Vec<Entry>)
        ensures
            final(self).list.items@.len() == entries@.len(),
            final(self).origins@.len() == entries@.len(),
            final(self).entries() == entries@,
            final(self).list.selected == old(self).list.selected,
            final(self).stage == old(self).stage,
            final(self).item_name_input == old(self).item_name_input,
            final(self).filter_term == old(self).filter_term,
            final(self).sorting_order == old(self).sorting_order,
    {
        let mut list_items: Vec<TodoItem> = Vec::new();
        let mut origins: Vec<usize> = Vec::new();
        let mut k: usize = 0;
        while k < entries.len()
            invariant
                k <= entries@.len(),
                list_items@.len() == k,
                origins@.len() == k,
                forall|t: int|
                    0 <= t < k ==> (#[trigger] list_items@[t]) == entries@[t].1 && origins@[t]
                        == entries@[t].0,
            decreases entries@.len() - k,
        {
            origins.push(entries[k].0);
            list_items.push(entries[k].1.clone());
            k += 1;
        }
        self.list.items = list_items;
        self.origins = origins;
        proof {
            assert(self.entries() =~= entries@);
        }
    }

    /// Whether any shown task's name passes the current filter term.
    fn any_item_visible(&self) -> (any: bool)
        requires
            self.inv(),
        ensures
            any == (exists|j: int|
                0 <= j < self.list.items@.len() && item_matches(
                    self.filter_term@,
                    (#[trigger] self.list.items@[j]).name@,
                )),
    {
        let mut j: usize = 0;
        while j < self.list.items.len()
            invariant
                self.inv(),
                j <= self.list.items@.len(),
                forall|t: int|
                    0 <= t < j ==> !item_matches(
                        self.filter_term@,
                        (#[trigger] self.list.items@[t]).name@,
                    ),
            decreases self.list.items@.len() - j,
        {
            if name_matches(&self.list.items[j].name, &self.filter_term) {
                return true;
            }
            j += 1;
        }
        false
    }

    /// After the filter term changed: the cursor moves to the top when the
    /// filtered set still shows something, and clears when it shows
    /// nothing.
    fn reselect_for_filter(&mut self)
        requires
            old(self).inv(),
        ensures
            final(self).inv(),
            final(self).list.items == old(self).list.items,
            final(self).origins == old(self).origins,
            final(self).stage == old(self).stage,
            final(self).item_name_input == old(self).item_name_input,
            final(self).filter_term == old(self).filter_term,
            final(self).sorting_order == old(self).sorting_order,
            final(self).list.selected == (if (exists|j: int|
                0 <= j < old(self).list.items@.len() && item_matches(
                    old(self).filter_term@,
                    (#[trigger] old(self).list.items@[j]).name@,
                )) {
                Some(0usize)
            } else {
                None::<usize>
            }),
    {
        let any = self.any_item_visible();
        if any {
            self.list.selected = Some(0);
        } else {
            self.list.selected = None;
        }
    }

    /// Appends a character to the filter term; the cursor returns to the
    /// top of the narrowed list, or clears when nothing passes any more.
    pub fn filter_term_add_character(&mut self, letter: char)
        requires
            old(self).inv(),
        ensures
            final(self).inv(),
            final(self).filter_term@ == old(self).filter_term@.push(letter),
            final(self).list.items == old(self).list.items,
            final(self).origins == old(self).origins,
            final(self).stage == old(self).stage,
            final(self).item_name_input == old(self).item_name_input,
            final(self).sorting_order == old(self).sorting_order,
            final(self).list.selected == (if (exists|j: int|
                0 <= j < old(self).list.items@.len() && item_matches(
                    old(self).filter_term@.push(letter),
                    (#[trigger] old(self).list.items@[j]).name@,
                )) {
                Some(0usize)
            } else {
                None::<usize>
            }),
    {
        push_char(&mut self.filter_term, letter);
        self.reselect_for_filter();
    }

    /// Drops the last character of the filter term, if it has one; the
    /// cursor then returns to the top of the widened list, or clears when
    /// nothing passes. With nothing to drop the call changes nothing.
    pub fn filter_term_remove_character(&mut self)
        requires
            old(self).inv(),
        ensures
            final(self).inv(),
            old(self).filter_term@.len() == 0 ==> *final(self) == *old(self),
            old(self).filter_term@.len() > 0 ==> final(self).filter_term@ == old(
                self,
            ).filter_term@.drop_last(),
            final(self).list.items == old(self).list.items,
            final(self).origins == old(self).origins,
            final(self).stage == old(self).stage,
            final(self).item_name_input == old(self).item_name_input,
            final(self).sorting_order == old(self).sorting_order,
            old(self).filter_term@.len() > 0 ==> final(self).list.selected == (if (exists|j: int|
                0 <= j < old(self).list.items@.len() && item_matches(
                    old(self).filter_term@.drop_last(),
                    (#[trigger] old(self).list.items@[j]).name@,
                )) {
                Some(0usize)
            } else {
                None::<usize>
            }),
    {
        let removed = pop_char(&mut self.filter_term);
        if removed.is_some() {
            self.reselect_for_filter();
        }
    }

    /// Applies a sort mode: the display is rebuilt as the stable sort of
    /// the creation-ordered task sequence, so that tasks tying on the sort
    /// field stand in creation order. The task sequence itself comes out
    /// exactly as it was, and the cursor keeps its position number.
    pub fn set_sorting_order(&mut self, order: AppSorting)
        requires
            old(self).inv(),
        ensures
            final(self).inv(),
            final(self).sorting_order == order,
            final(self).entries() == sort_entries(
                order_of(order),
                with_indices(old(self).tasks()),
            ),
            final(self).tasks() == old(self).tasks(),
            final(self).list.selected == old(self).list.selected,
            final(self).stage == old(self).stage,
            final(self).item_name_input == old(self).item_name_input,
            final(self).filter_term == old(self).filter_term,
    {
        let tasks_in_order = self.creation_ordered_tasks();
        let task_count: usize = tasks_in_order.len();
        let mut entries = index_tasks(&tasks_in_order);
        let list_order = list_order_of(order);
        sort_entries_vec(&mut entries, list_order);
        self.install_entries(entries);
        self.sorting_order = order;
        proof {
            let ts = old(self).tasks();
            assert(ts.len() == task_count);
            lemma_tasks_all_inv(*old(self));
            lemma_sort_entries(ListOrder::Creation, old(self).entries());
            assert(self.list.items@.len() == sort_entries(
                order_of(order),
                with_indices(ts),
            ).len());
            lemma_rebuild(order_of(order), ts);
            lemma_installed_from_tasks(*self, order_of(order), ts);
        }
    }

    /// Moves the sort mode one step along its fixed rotation and rebuilds
    /// the display accordingly.
    pub fn toggle_sorting(&mut self)
        requires
            old(self).inv(),
        ensures
            final(self).inv(),
            final(self).sorting_order == next_sorting(old(self).sorting_order),
            final(self).entries() == sort_entries(
                order_of(next_sorting(old(self).sorting_order)),
                with_indices(old(self).tasks()),
            ),
            final(self).tasks() == old(self).tasks(),
            final(self).list.selected == old(self).list.selected,
            final(self).stage == old(self).stage,
            final(self).item_name_input == old(self).item_name_input,
            final(self).filter_term == old(self).filter_term,
    {
        let next = match self.sorting_order {
            AppSorting::ByDate(SortingOrder::Ascending) => AppSorting::ByDate(
                SortingOrder::Descending,
            ),
            AppSorting::ByDate(SortingOrder::Descending) => AppSorting::ByCompletion(
                SortingOrder::Ascending,
            ),
            AppSorting::ByCompletion(SortingOrder::Ascending) => AppSorting::ByCompletion(
                SortingOrder::Descending,
            ),
            AppSorting::ByCompletion(SortingOrder::Descending) => AppSorting::ByDate(
                SortingOrder::Ascending,
            ),
        };
        self.set_sorting_order(next);
    }

    /// The filtered view: the displayed entries, in display order, whose
    /// task names pass the current filter term — each an
    /// (original position, task) pair, the position counted in the
    /// unfiltered, unsorted task sequence.
    pub fn get_filtered_items(&self) -> (result: Vec<(usize, TodoItem)>)
        requires
            self.inv(),
        ensures
            result@ == self.entries().filter(visible_pred(self.filter_term@)),
    {
        let ghost pred = visible_pred(self.filter_term@);
        let mut result: Vec<(usize, TodoItem)> = Vec::new();
        let mut j: usize = 0;
        while j < self.list.items.len()
            invariant
                self.inv(),
                j <= self.list.items@.len(),
                result@ == self.entries().subrange(0, j as int).filter(
                    visible_pred(self.filter_term@),
                ),
            decreases self.list.items@.len() - j,
        {
            let visible = name_matches(&self.list.items[j].name, &self.filter_term);
            if visible {
                result.push((self.origins[j], self.list.items[j].clone()));
            }
            proof {
                broadcast use vstd::prelude::Seq::lemma_filter_push;

                let prefix = self.entries().subrange(0, j as int);
                assert(self.entries()[j as int] == (self.origins@[j as int], self.list.items@[j as int]));
                assert(self.entries().subrange(0, j as int + 1) =~= prefix.push(
                    self.entries()[j as int],
                ));
                assert(visible_pred(self.filter_term@)(self.entries()[j as int]) == visible);
            }
            j += 1;
        }
        proof {
            assert(self.entries().subrange(0, self.entries().len() as int) =~= self.entries());
        }
        result
    }

    /// Commits the text input as a new task. An empty input changes
    /// nothing; otherwise one task is appended to the creation-ordered
    /// sequence and the display is re-sorted. The new task's identifier and
    /// timestamps come from the outside world, so they are bound
    /// existentially; its name, flag and everything else are pinned.
    pub fn add_new_item(&mut self)
        requires
            old(self).inv(),
        ensures
            final(self).inv(),
            old(self).item_name_input@.len() == 0 ==> *final(self) == *old(self),
            old(self).item_name_input@.len() > 0 ==> (exists|item: TodoItem|
                #[trigger] added_task(*old(self), *final(self), item)),
    {
        if self.item_name_input.as_str().is_empty() {
            return;
        }
        let item = TodoItem::new(self.item_name_input.as_str());
        let ghost new_item = item;
        let ghost pre = *old(self);
        let mut tasks_in_order = self.creation_ordered_tasks();
        tasks_in_order.push(item);
        let task_count: usize = tasks_in_order.len();
        let mut entries = index_tasks(&tasks_in_order);
        let list_order = list_order_of(self.sorting_order);
        sort_entries_vec(&mut entries, list_order);
        self.install_entries(entries);
        proof {
            let ts = pre.tasks().push(new_item);
            assert(tasks_in_order@ == ts);
            assert(ts.len() == task_count);
            lemma_tasks_all_inv(pre);
            assert forall|k: int| 0 <= k < ts.len() implies (#[trigger] ts[k]).inv() by {
                if k < pre.tasks().len() {
                    assert(ts[k] == pre.tasks()[k]);
                }
            }
            lemma_sort_entries(ListOrder::Creation, pre.entries());
            lemma_rebuild(order_of(pre.sorting_order), ts);
            lemma_installed_from_tasks(*self, order_of(pre.sorting_order), ts);
            assert(added_task(pre, *self, new_item));
        }
    }

    /// Commits the text input as the new name of every task sharing the
    /// selected task's identifier. An empty input, or no selection, changes
    /// nothing. The display order is left as it stands.
    pub fn update_item(&mut self)
        requires
            old(self).inv(),
        ensures
            final(self).inv(),
            old(self).item_name_input@.len() == 0 ==> *final(self) == *old(self),
            old(self).item_name_input@.len() > 0 && old(self).list.selected is None
                ==> *final(self) == *old(self),
            old(self).item_name_input@.len() > 0 ==> (old(self).list.selected matches Some(i)
                ==> renamed_matching(
                *old(self),
                *final(self),
                old(self).list.items@[i as int].id,
            )),
    {
        if self.item_name_input.as_str().is_empty() {
            return;
        }
        let selected_id: u128 = match self.list.selected {
            Some(index) => self.list.items[index].id,
            None => {
                return;
            },
        };
        let ghost pre = *old(self);
        let mut j: usize = 0;
        while j < self.list.items.len()
            invariant
                pre.inv(),
                self.origins == pre.origins,
                self.list.selected == pre.list.selected,
                self.stage == pre.stage,
                self.item_name_input == pre.item_name_input,
                self.filter_term == pre.filter_term,
                self.sorting_order == pre.sorting_order,
                j <= self.list.items@.len(),
                self.list.items@.len() == pre.list.items@.len(),
                forall|t: int|
                    0 <= t < j ==> updated_name(
                        pre.list.items@[t],
                        #[trigger] self.list.items@[t],
                        selected_id,
                        pre.item_name_input@,
                    ),
                forall|t: int|
                    j <= t < self.list.items@.len() ==> (#[trigger] self.list.items@[t])
                        == pre.list.items@[t],
            decreases self.list.items@.len() - j,
        {
            if self.list.items[j].id == selected_id {
                let mut item = self.list.items[j].clone();
                item.set_name(self.item_name_input.as_str());
                self.list.items[j] = item;
            }
            j += 1;
        }
        proof {
            assert forall|t: int| 0 <= t < self.list.items@.len() implies (
            #[trigger] self.list.items@[t]).inv() by {
                assert(updated_name(
                    pre.list.items@[t],
                    self.list.items@[t],
                    selected_id,
                    pre.item_name_input@,
                ));
                assert(pre.list.items@[t].inv());
            }
            lemma_same_positions_keep_inv(pre, *self);
            assert(renamed_matching(pre, *self, selected_id));
        }
    }

    /// Flips the completion flag of every task sharing the selected task's
    /// identifier. With no selection the call changes nothing. The display
    /// order is left as it stands.
    pub fn toggle_task(&mut self)
        requires
            old(self).inv(),
        ensures
            final(self).inv(),
            old(self).list.selected is None ==> *final(self) == *old(self),
            old(self).list.selected matches Some(i) ==> toggled_matching(
                *old(self),
                *final(self),
                old(self).list.items@[i as int].id,
            ),
    {
        let selected_id: u128 = match self.list.selected {
            Some(index) => self.list.items[index].id,
            None => {
                return;
            },
        };
        let ghost pre = *old(self);
        let mut j: usize = 0;
        while j < self.list.items.len()
            invariant
                pre.inv(),
                self.origins == pre.origins,
                self.list.selected == pre.list.selected,
                self.stage == pre.stage,
                self.item_name_input == pre.item_name_input,
                self.filter_term == pre.filter_term,
                self.sorting_order == pre.sorting_order,
                j <= self.list.items@.len(),
                self.list.items@.len() == pre.list.items@.len(),
                forall|t: int|
                    0 <= t < j ==> toggled_completion(
                        pre.list.items@[t],
                        #[trigger] self.list.items@[t],
                        selected_id,
                    ),
                forall|t: int|
                    j <= t < self.list.items@.len() ==> (#[trigger] self.list.items@[t])
                        == pre.list.items@[t],
            decreases self.list.items@.len() - j,
        {
            if self.list.items[j].id == selected_id {
                let mut item = self.list.items[j].clone();
                let flipped = !item.completed;
                item.set_completion(flipped);
                self.list.items[j] = item;
            }
            j += 1;
        }
        proof {
            assert forall|t: int| 0 <= t < self.list.items@.len() implies (
            #[trigger] self.list.items@[t]).inv() by {
                assert(toggled_completion(pre.list.items@[t], self.list.items@[t], selected_id));
                assert(pre.list.items@[t].inv());
            }
            lemma_same_positions_keep_inv(pre, *self);
            assert(toggled_matching(pre, *self, selected_id));
        }
    }

    /// Deletes every task sharing the selected task's identifier from the
    /// creation-ordered sequence; the display is rebuilt under the current
    /// sort and the cursor returns to the top, or clears when nothing is
    /// left. With no selection the call changes nothing.
    pub fn remove_task(&mut self)
        requires
            old(self).inv(),
        ensures
            final(self).inv(),
            old(self).list.selected is None ==> *final(self) == *old(self),
            old(self).list.selected matches Some(i) ==> removed_matching(
                *old(self),
                *final(self),
                old(self).list.items@[i as int].id,
            ),
    {
        let selected_id: u128 = match self.list.selected {
            Some(index) => self.list.items[index].id,
            None => {
                return;
            },
        };
        let ghost pre = *old(self);
        let mut entries = self.current_entries();
        sort_entries_vec(&mut entries, ListOrder::Creation);
        proof {
            lemma_sort_entries(ListOrder::Creation, pre.entries());
            assert forall|t: int| 0 <= t < entries@.len() implies (#[trigger] entries@[t]).1.inv()
                by {
                lemma_permutation_position(pre.entries(), entries@, t);
                let i = choose|i: int|
                    0 <= i < pre.entries().len() && pre.entries()[i] == entries@[t];
                assert(pre.entries()[i] == (pre.origins@[i], pre.list.items@[i]));
            }
        }
        let ghost creation_entries = entries@;
        let mut survivors: Vec<TodoItem> = Vec::new();
        let mut j: usize = 0;
        while j < entries.len()
            invariant
                j <= entries@.len(),
                entries@ == creation_entries,
                forall|t: int| 0 <= t < entries@.len() ==> (#[trigger] entries@[t]).1.inv(),
                survivors@ == creation_entries.subrange(0, j as int).map_values(
                    |e: Entry| e.1,
                ).filter(survivor_pred(selected_id)),
                forall|t: int| 0 <= t < survivors@.len() ==> (#[trigger] survivors@[t]).inv(),
            decreases entries@.len() - j,
        {
            let ghost prefix_tasks = creation_entries.subrange(0, j as int).map_values(
                |e: Entry| e.1,
            );
            if entries[j].1.id != selected_id {
                survivors.push(entries[j].1.clone());
            }
            proof {
                broadcast use vstd::prelude::Seq::lemma_filter_push;

                assert(creation_entries.subrange(0, j as int + 1).map_values(|e: Entry| e.1)
                    =~= prefix_tasks.push(creation_entries[j as int].1));
                assert(survivor_pred(selected_id)(creation_entries[j as int].1) == (
                creation_entries[j as int].1.id != selected_id));
            }
            j += 1;
        }
        proof {
            assert(creation_entries.subrange(0, creation_entries.len() as int)
                =~= creation_entries);
            assert(creation_entries.map_values(|e: Entry| e.1) == pre.tasks());
            assert(survivors@ == pre.tasks().filter(survivor_pred(selected_id)));
        }
        let survivor_count: usize = survivors.len();
        let mut rebuilt = index_tasks(&survivors);
        let list_order = list_order_of(self.sorting_order);
        sort_entries_vec(&mut rebuilt, list_order);
        self.install_entries(rebuilt);
        self.select_first_task_or_none();
        proof {
            let ts = pre.tasks().filter(survivor_pred(selected_id));
            let o = order_of(pre.sorting_order);
            assert(ts.len() == survivor_count);
            lemma_rebuild(o, ts);
            lemma_sort_entries(o, with_indices(ts));
            let sorted = sort_entries(o, with_indices(ts));
            assert(self.entries() == sorted);
            assert forall|j2: int| 0 <= j2 < self.origins@.len() implies (
            #[trigger] self.origins@[j2]) < self.origins@.len() by {
                assert(self.entries()[j2] == (self.origins@[j2], self.list.items@[j2]));
                assert(sorted[j2].0 < ts.len());
            }
            assert forall|j2: int| 0 <= j2 < self.list.items@.len() implies (
            #[trigger] self.list.items@[j2]).inv() by {
                lemma_permutation_position(with_indices(ts), sorted, j2);
                let i = choose|i: int|
                    0 <= i < with_indices(ts).len() && with_indices(ts)[i] == sorted[j2];
                assert(self.entries()[j2] == (self.origins@[j2], self.list.items@[j2]));
                assert(self.list.items@[j2] == sorted[j2].1);
                assert(sorted[j2].1 == ts[i]);
            }
            assert(self.tasks() =~= ts);
            assert(removed_matching(pre, *self, selected_id));
        }
    }

    /// The authoritative task sequence in creation order, cloned out for
    /// consumers: exactly what persistence saves.
    pub fn creation_ordered_tasks(&self) -> (tasks: Vec<TodoItem>)
        requires
            self.inv(),
        ensures
            tasks@ == self.tasks(),
    {
        let mut entries = self.current_entries();
        sort_entries_vec(&mut entries, ListOrder::Creation);
        let mut tasks: Vec<TodoItem> = Vec::new();
        let mut j: usize = 0;
        while j < entries.len()
            invariant
                j <= entries@.len(),
                entries@ == sort_entries(ListOrder::Creation, self.entries()),
                tasks@ == entries@.subrange(0, j as int).map_values(|e: Entry| e.1),
            decreases entries@.len() - j,
        {
            tasks.push(entries[j].1.clone());
            proof {
                assert(entries@.subrange(0, j as int + 1) =~= entries@.subrange(0, j as int).push(
                    entries@[j as int],
                ));
                assert(entries@.subrange(0, j as int + 1).map_values(|e: Entry| e.1)
                    =~= entries@.subrange(0, j as int).map_values(|e: Entry| e.1).push(
                    entries@[j as int].1,
                ));
            }
            j += 1;
        }
        proof {
            assert(entries@.subrange(0, entries@.len() as int) =~= entries@);
        }
        tasks
    }

    /// Puts the cursor on the first shown task, or clears it when nothing
    /// is shown.
    fn select_first_task_or_none(&mut self)
        ensures
            final(self).list.items == old(self).list.items,
            final(self).origins == old(self).origins,
            final(self).stage == old(self).stage,
            final(self).item_name_input == old(self).item_name_input,
            final(self).filter_term == old(self).filter_term,
            final(self).sorting_order == old(self).sorting_order,
            final(self).list.selected == (if old(self).list.items@.len() > 0 {
                Some(0usize)
            } else {
                None::<usize>
            }),
            final(self).list.inv(),
    {
        if self.list.items.len() > 0 {
            self.list.selected = Some(0);
        } else {
            self.list.selected = None;
        }
    }
}

} // verus!
