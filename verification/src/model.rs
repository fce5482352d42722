//! The mathematical model of the server list: entries, filter, expansion flags
//! and cursor, and what each operation does to them.

use crate::item::ItemView;
use vstd::prelude::*;

verus! {

/// The state of the server list.
///
/// `filtered` holds the positions in `items` that pass the filter, `expanded` the
/// expansion flag of each group, and `cursor` the position in the visible rows
/// that was last selected.
pub ghost struct ListModel {
    pub items: Seq<ItemView>,
    pub filtered: Seq<usize>,
    pub expanded: Map<Seq<char>, bool>,
    pub cursor: Option<usize>,
}

/// The positions `0, 1, .., n - 1`.
pub open spec fn all_indices(n: nat) -> Seq<usize> {
    Seq::new(n, |i: int| i as usize)
}

/// Whether `items` holds a header of the group `name`.
pub open spec fn is_header_name(items: Seq<ItemView>, name: Seq<char>) -> bool {
    exists|i: int| 0 <= i < items.len() && (#[trigger] items[i]).is_group && items[i].group == name
}

/// The expansion flag of the group `name`; a group without a flag counts as
/// expanded.
pub open spec fn group_open(expanded: Map<Seq<char>, bool>, name: Seq<char>) -> bool {
    if expanded.contains_key(name) {
        expanded[name]
    } else {
        true
    }
}

/// The rows to show of the entries at `filtered`: every header, and every host of
/// an expanded group unless the last header before it is collapsed. `open` says
/// whether the last header before the entries was expanded; it is true where
/// there was none.
pub open spec fn project(
    items: Seq<ItemView>,
    expanded: Map<Seq<char>, bool>,
    filtered: Seq<usize>,
    open: bool,
) -> Seq<usize>
    decreases filtered.len(),
{
    if filtered.len() == 0 {
        Seq::empty()
    } else {
        let idx = filtered[0];
        let item = items[idx as int];
        let rest = filtered.drop_first();
        if item.is_group {
            seq![idx] + project(items, expanded, rest, group_open(expanded, item.group))
        } else if open && group_open(expanded, item.group) {
            seq![idx] + project(items, expanded, rest, open)
        } else {
            project(items, expanded, rest, open)
        }
    }
}

/// The cursor that stands for the wanted position `pos` in a list of `len` rows:
/// none in an empty list, else the position itself or the last row.
pub open spec fn clamp(pos: usize, len: nat) -> Option<usize> {
    if len == 0 {
        None
    } else if pos < len {
        Some(pos)
    } else {
        Some((len - 1) as usize)
    }
}

/// Number of entries at the front of `items` whose key differs from that of `key`.
/// Where an entry of `items` has the key, this is the position of the first.
pub open spec fn first_same_key(items: Seq<ItemView>, key: ItemView) -> nat
    decreases items.len(),
{
    if items.len() > 0 && !items[0].same_key(key) {
        1 + first_same_key(items.drop_first(), key)
    } else {
        0
    }
}

impl ListModel {
    /// The visible rows, as positions in `items`.
    pub open spec fn visible(self) -> Seq<usize> {
        project(self.items, self.expanded, self.filtered, true)
    }

    /// The selected row: none while no row is visible, else the cursor.
    pub open spec fn selection(self) -> Option<usize> {
        if self.visible().len() == 0 {
            None
        } else {
            self.cursor
        }
    }

    /// The position that the cursor stands for; the first row where there is none.
    pub open spec fn position(self) -> usize {
        match self.cursor {
            Some(c) => c,
            None => 0,
        }
    }

    /// The state with the cursor moved to `pos`, or as near to it as the visible
    /// rows allow.
    pub open spec fn with_position(self, pos: usize) -> ListModel {
        ListModel { cursor: clamp(pos, self.visible().len()), ..self }
    }

    /// The invariant of the entries, the filter and the flags: the filter holds
    /// valid positions in rising order, and the groups with a flag are those with
    /// a header.
    pub open spec fn shape_ok(self) -> bool {
        &&& self.items.len() <= usize::MAX
        &&& forall|k: int|
            0 <= k < self.filtered.len() ==> (#[trigger] self.filtered[k] as int) < self.items.len()
        &&& forall|j: int, k: int|
            0 <= j < k < self.filtered.len() ==> self.filtered[j] < self.filtered[k]
        &&& forall|n: Seq<char>| #[trigger]
            self.expanded.contains_key(n) <==> is_header_name(self.items, n)
    }

    /// The invariant of the cursor: while rows are visible it is on one of them.
    pub open spec fn cursor_ok(self) -> bool {
        self.visible().len() > 0 ==> self.cursor is Some && self.cursor.unwrap()
            < self.visible().len()
    }

    /// The state invariant.
    pub open spec fn wf(self) -> bool {
        self.shape_ok() && self.cursor_ok()
    }

    /// The state after loading `items`: nothing filtered out, every group
    /// expanded, the first row selected.
    pub open spec fn load(items: Seq<ItemView>) -> ListModel {
        (ListModel {
            items,
            filtered: all_indices(items.len()),
            expanded: Map::new(|n: Seq<char>| is_header_name(items, n), |n: Seq<char>| true),
            cursor: None,
        }).with_position(0)
    }

    /// Drops the filter and selects the first row.
    pub open spec fn reset_filter(self) -> ListModel {
        (ListModel { filtered: all_indices(self.items.len()), ..self }).with_position(0)
    }

    /// Replaces the filter by `keep`. The first row is selected if any entry is
    /// kept; else the cursor stays as it was.
    pub open spec fn apply_filter(self, keep: Seq<usize>) -> ListModel {
        let kept = ListModel { filtered: keep, ..self };
        if keep.len() > 0 {
            kept.with_position(0)
        } else {
            kept
        }
    }

    /// The entry that the selected row stands for: the first entry with the key of
    /// the entry shown in that row.
    pub open spec fn selected(self) -> Option<nat> {
        match self.selection() {
            Some(c) => if c < self.visible().len() {
                Some(first_same_key(self.items, self.items[self.visible()[c as int] as int]))
            } else {
                None
            },
            None => None,
        }
    }

    /// The value of the entry that the selected row stands for.
    pub open spec fn selected_entry(self) -> Option<ItemView> {
        match self.selected() {
            Some(i) => Some(self.items[i as int]),
            None => None,
        }
    }

    /// The state with the flag of `group` flipped and the filter dropped. The
    /// cursor keeps its position.
    pub open spec fn flip_group(self, group: Seq<char>) -> ListModel {
        (ListModel {
            expanded: self.expanded.insert(group, !self.expanded[group]),
            filtered: all_indices(self.items.len()),
            ..self
        }).with_position(self.position())
    }

    /// Flips the group of the selected row, if that row is a header.
    pub open spec fn toggle_group(self) -> ListModel {
        match self.selected_entry() {
            Some(entry) => if entry.is_group && self.expanded.contains_key(entry.group) {
                self.flip_group(entry.group)
            } else {
                self
            },
            None => self,
        }
    }

    /// Whether every group is expanded.
    pub open spec fn all_expanded(self) -> bool {
        forall|n: Seq<char>| self.expanded.contains_key(n) ==> #[trigger] self.expanded[n]
    }

    /// Whether every group is collapsed.
    pub open spec fn all_collapsed(self) -> bool {
        forall|n: Seq<char>| self.expanded.contains_key(n) ==> !#[trigger] self.expanded[n]
    }

    /// Collapses every group if all are expanded, else expands every group; drops
    /// the filter. The cursor keeps its position.
    pub open spec fn toggle_all(self) -> ListModel {
        let flag = !self.all_expanded();
        (ListModel {
            expanded: Map::new(|n: Seq<char>| self.expanded.contains_key(n), |n: Seq<char>| flag),
            filtered: all_indices(self.items.len()),
            ..self
        }).with_position(self.position())
    }

    /// Moves the cursor one row down; it stays on the last row.
    pub open spec fn select_next(self) -> ListModel {
        self.with_position(
            match self.cursor {
                Some(c) => if c < usize::MAX {
                    (c + 1) as usize
                } else {
                    c
                },
                None => 0,
            },
        )
    }

    /// Moves the cursor one row up; it stays on the first row.
    pub open spec fn select_previous(self) -> ListModel {
        self.with_position(
            match self.cursor {
                Some(c) => if c > 0 {
                    (c - 1) as usize
                } else {
                    c
                },
                None => usize::MAX,
            },
        )
    }

    /// Moves the cursor to the first row.
    pub open spec fn select_first(self) -> ListModel {
        self.with_position(0)
    }

    /// Moves the cursor to the last row.
    pub open spec fn select_last(self) -> ListModel {
        self.with_position(usize::MAX)
    }

    /// The visible row at the vertical offset `y`, if there is one.
    pub open spec fn row_at(self, y: usize) -> Option<usize> {
        if y < self.visible().len() {
            Some(y)
        } else {
            None
        }
    }
}

/// The rows shown are some of the filtered entries: no more of them, and each a
/// valid position where those are.
pub proof fn lemma_project_bounds(
    items: Seq<ItemView>,
    expanded: Map<Seq<char>, bool>,
    filtered: Seq<usize>,
    open: bool,
)
    requires
        forall|k: int| 0 <= k < filtered.len() ==> (#[trigger] filtered[k] as int) < items.len(),
    ensures
        project(items, expanded, filtered, open).len() <= filtered.len(),
        forall|j: int|
            0 <= j < project(items, expanded, filtered, open).len() ==> (#[trigger] project(
                items,
                expanded,
                filtered,
                open,
            )[j] as int) < items.len(),
    decreases filtered.len(),
{
    if filtered.len() > 0 {
        let rest = filtered.drop_first();
        assert forall|k: int| 0 <= k < rest.len() implies (#[trigger] rest[k] as int)
            < items.len() by {
            assert(rest[k] == filtered[k + 1]);
        }
        let item = items[filtered[0] as int];
        lemma_project_bounds(items, expanded, rest, open);
        lemma_project_bounds(items, expanded, rest, group_open(expanded, item.group));
    }
}

/// No host of a collapsed group is among the rows: the flag of a group decides
/// over its hosts, whatever the filter keeps.
pub proof fn lemma_project_hides_collapsed(
    items: Seq<ItemView>,
    expanded: Map<Seq<char>, bool>,
    filtered: Seq<usize>,
    open: bool,
)
    ensures
        forall|j: int|
            0 <= j < project(items, expanded, filtered, open).len() && !items[#[trigger] project(
                items,
                expanded,
                filtered,
                open,
            )[j] as int].is_group ==> group_open(
                expanded,
                items[project(items, expanded, filtered, open)[j] as int].group,
            ),
    decreases filtered.len(),
{
    if filtered.len() > 0 {
        let item = items[filtered[0] as int];
        let rest = filtered.drop_first();
        lemma_project_hides_collapsed(items, expanded, rest, open);
        lemma_project_hides_collapsed(items, expanded, rest, group_open(expanded, item.group));
        let rows = project(items, expanded, filtered, open);
        let after = if item.is_group {
            project(items, expanded, rest, group_open(expanded, item.group))
        } else {
            project(items, expanded, rest, open)
        };
        if rows != after {
            assert(rows == seq![filtered[0]] + after);
            assert forall|j: int| 0 <= j < rows.len() && !items[#[trigger] rows[j] as int].is_group implies group_open(
                expanded,
                items[rows[j] as int].group,
            ) by {
                if j > 0 {
                    assert(rows[j] == after[j - 1]);
                }
            }
        }
    }
}

/// The count of entries with another key stops at the first entry with the key.
pub proof fn lemma_first_same_key(items: Seq<ItemView>, key: ItemView)
    ensures
        first_same_key(items, key) <= items.len(),
        forall|i: int| 0 <= i < first_same_key(items, key) ==> !(#[trigger] items[i]).same_key(key),
        first_same_key(items, key) < items.len() ==> items[first_same_key(items, key) as int].same_key(
            key,
        ),
    decreases items.len(),
{
    if items.len() > 0 && !items[0].same_key(key) {
        let rest = items.drop_first();
        lemma_first_same_key(rest, key);
        assert forall|i: int| 0 <= i < first_same_key(items, key) implies !(#[trigger] items[i]).same_key(
            key,
        ) by {
            if i > 0 {
                assert(items[i] == rest[i - 1]);
            }
        }
        if first_same_key(items, key) < items.len() {
            assert(items[first_same_key(items, key) as int] == rest[first_same_key(rest, key) as int]);
        }
    }
}

/// A count of leading entries with another key that stops at an entry with the
/// key, or at the end, is `first_same_key`.
pub proof fn lemma_first_same_key_is(items: Seq<ItemView>, key: ItemView, n: int)
    requires
        0 <= n <= items.len(),
        forall|i: int| 0 <= i < n ==> !(#[trigger] items[i]).same_key(key),
        n < items.len() ==> items[n].same_key(key),
    ensures
        first_same_key(items, key) == n,
    decreases n,
{
    if n > 0 {
        let rest = items.drop_first();
        assert(!items[0].same_key(key));
        assert forall|i: int| 0 <= i < n - 1 implies !(#[trigger] rest[i]).same_key(key) by {
            assert(rest[i] == items[i + 1]);
        }
        lemma_first_same_key_is(rest, key, n - 1);
    }
}

} // verus!
