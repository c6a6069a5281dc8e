use vstd::prelude::*;

verus! {

/// An ordered sequence of items together with at most one selected position:
/// the cursor of the displayed list. Navigation wraps around at both ends.
pub struct StatefulList<T> {
    pub items: Vec<T>,
    pub selected: Option<usize>,
}

/// The cursor after one step forward: an unset cursor lands on the first
/// item, the last position wraps to the first, anything else moves down by
/// one. An empty list leaves the cursor unset.
pub open spec fn spec_advance(sel: Option<usize>, len: int) -> Option<usize> {
    match sel {
        Some(i) => if i + 1 >= len {
            Some(0usize)
        } else {
            Some((i + 1) as usize)
        },
        None => if len > 0 {
            Some(0usize)
        } else {
            None
        },
    }
}

/// The cursor after one step backward: an unset cursor lands on the last
/// item, the first position wraps to the last, anything else moves up by
/// one. An empty list leaves the cursor unset.
pub open spec fn spec_retreat(sel: Option<usize>, len: int) -> Option<usize> {
    match sel {
        Some(i) => if i == 0 {
            Some((len - 1) as usize)
        } else {
            Some((i - 1) as usize)
        },
        None => if len > 0 {
            Some((len - 1) as usize)
        } else {
            None
        },
    }
}

/// The cursor after `n` steps forward.
pub open spec fn advance_n(sel: Option<usize>, len: int, n: nat) -> Option<usize>
    decreases n,
{
    if n == 0 {
        sel
    } else {
        spec_advance(advance_n(sel, len, (n - 1) as nat), len)
    }
}

/// The cursor after `n` steps backward.
pub open spec fn retreat_n(sel: Option<usize>, len: int, n: nat) -> Option<usize>
    decreases n,
{
    if n == 0 {
        sel
    } else {
        spec_retreat(retreat_n(sel, len, (n - 1) as nat), len)
    }
}

impl<T> StatefulList<T> {
    /// The cursor, when set, is a valid index; in particular it is never set
    /// while the list is empty.
    pub open spec fn inv(self) -> bool {
        match self.selected {
            Some(i) => i < self.items@.len(),
            None => true,
        }
    }

    /// A list over `items` whose cursor starts out unset.
    pub fn new(items: Vec<T>) -> (list: StatefulList<T>)
        ensures
            list.items == items,
            list.selected is None,
            list.inv(),
    {
        StatefulList { items, selected: None }
    }

    /// Moves the cursor one step forward, wrapping from the last item to the
    /// first. The items themselves are untouched.
    pub fn next(&mut self)
        requires
            old(self).inv(),
        ensures
            final(self).items == old(self).items,
            final(self).selected == spec_advance(old(self).selected, old(self).items@.len() as int),
            final(self).inv(),
    {
        let number_of_items = self.items.len();
        let item = match self.selected {
            Some(i) => {
                if i >= number_of_items - 1 {
                    Some(0)
                } else {
                    Some(i + 1)
                }
            },
            None => {
                if number_of_items > 0 {
                    Some(0)
                } else {
                    None
                }
            },
        };
        self.selected = item;
    }

    /// Moves the cursor one step backward, wrapping from the first item to
    /// the last. The items themselves are untouched.
    pub fn previous(&mut self)
        requires
            old(self).inv(),
        ensures
            final(self).items == old(self).items,
            final(self).selected == spec_retreat(old(self).selected, old(self).items@.len() as int),
            final(self).inv(),
    {
        let number_of_items = self.items.len();
        let item = match self.selected {
            Some(i) => {
                if i == 0 {
                    Some(number_of_items - 1)
                } else {
                    Some(i - 1)
                }
            },
            None => {
                if number_of_items > 0 {
                    Some(number_of_items - 1)
                } else {
                    None
                }
            },
        };
        self.selected = item;
    }

    /// A reference to the item under the cursor, or nothing when the cursor
    /// is unset.
    pub fn get_selected_item(&self) -> (item: Option<&T>)
        requires
            self.inv(),
        ensures
            self.selected is None ==> item is None,
            self.selected matches Some(i) ==> (item matches Some(t) && *t == self.items@[i as int]),
    {
        match self.selected {
            Some(index) => Some(&self.items[index]),
            _ => None,
        }
    }
}

/// Stepping forward splits: `a + b` steps forward are `a` steps, then `b`.
proof fn lemma_advance_n_add(sel: Option<usize>, len: int, a: nat, b: nat)
    ensures
        advance_n(sel, len, a + b) == advance_n(advance_n(sel, len, a), len, b),
    decreases b,
{
    if b > 0 {
        lemma_advance_n_add(sel, len, a, (b - 1) as nat);
    }
}

proof fn lemma_retreat_n_add(sel: Option<usize>, len: int, a: nat, b: nat)
    ensures
        retreat_n(sel, len, a + b) == retreat_n(retreat_n(sel, len, a), len, b),
    decreases b,
{
    if b > 0 {
        lemma_retreat_n_add(sel, len, a, (b - 1) as nat);
    }
}

/// Starting from the first position, `j` steps forward land on position `j`.
proof fn lemma_advance_n_from_zero(len: usize, j: nat)
    requires
        j < len,
    ensures
        advance_n(Some(0usize), len as int, j) == Some(j as usize),
    decreases j,
{
    if j > 0 {
        lemma_advance_n_from_zero(len, (j - 1) as nat);
    }
}

/// From position `i`, `len - i` steps forward wrap exactly to position 0.
proof fn lemma_advance_n_to_zero(i: usize, len: usize)
    requires
        i < len,
    ensures
        advance_n(Some(i), len as int, (len - i) as nat) == Some(0usize),
    decreases len - i,
{
    assert(advance_n(Some(i), len as int, 0) == Some(i));
    assert(advance_n(Some(i), len as int, 1) == spec_advance(
        advance_n(Some(i), len as int, 0),
        len as int,
    ));
    if i + 1 == len {
    } else {
        lemma_advance_n_add(Some(i), len as int, 1, (len - i - 1) as nat);
        lemma_advance_n_to_zero((i + 1) as usize, len);
    }
}

/// Starting from the last position, `j` steps backward land `j` positions
/// before the last.
proof fn lemma_retreat_n_from_last(len: usize, j: nat)
    requires
        j < len,
    ensures
        retreat_n(Some((len - 1) as usize), len as int, j) == Some((len - 1 - j) as usize),
    decreases j,
{
    if j > 0 {
        lemma_retreat_n_from_last(len, (j - 1) as nat);
    }
}

/// From position `i`, `i + 1` steps backward wrap exactly to the last
/// position.
proof fn lemma_retreat_n_to_last(i: usize, len: usize)
    requires
        i < len,
    ensures
        retreat_n(Some(i), len as int, (i + 1) as nat) == Some((len - 1) as usize),
    decreases i,
{
    assert(retreat_n(Some(i), len as int, 0) == Some(i));
    assert(retreat_n(Some(i), len as int, 1) == spec_retreat(
        retreat_n(Some(i), len as int, 0),
        len as int,
    ));
    if i == 0 {
    } else {
        lemma_retreat_n_add(Some(i), len as int, 1, i as nat);
        lemma_retreat_n_to_last((i - 1) as usize, len);
    }
}

/// Cyclic navigation: on a non-empty list, stepping forward once per item
/// returns a set cursor to its starting position.
pub proof fn lemma_advance_cycle(i: usize, len: usize)
    requires
        i < len,
    ensures
        advance_n(Some(i), len as int, len as nat) == Some(i),
{
    lemma_advance_n_to_zero(i, len);
    lemma_advance_n_add(Some(i), len as int, (len - i) as nat, i as nat);
    lemma_advance_n_from_zero(len, i as nat);
}

/// Cyclic navigation: on a non-empty list, stepping backward once per item
/// returns a set cursor to its starting position.
pub proof fn lemma_retreat_cycle(i: usize, len: usize)
    requires
        i < len,
    ensures
        retreat_n(Some(i), len as int, len as nat) == Some(i),
{
    lemma_retreat_n_to_last(i, len);
    lemma_retreat_n_add(Some(i), len as int, (i + 1) as nat, (len - 1 - i) as nat);
    lemma_retreat_n_from_last(len, (len - 1 - i) as nat);
}

} // verus!
