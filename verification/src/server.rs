//! The server list: the parsed entries with their filter, expansion and selection
//! state.

use crate::fuzzy::{best_match_score, fuzzy_score, hits, kept, lemma_kept};
pub use crate::item::ServerItem;
use crate::item::{items_view, ItemView};
use crate::model::{
    all_indices, group_open, is_header_name, lemma_first_same_key_is,
    lemma_project_bounds, project, ListModel,
};
use crate::parser::{entries_of, entries_with, parse_config, parse_config_with};
use crate::width::{display_width, str_width};
use vstd::prelude::*;

verus! {

/// The expansion flag of one group.
#[derive(Debug)]
struct GroupFlag {
    name: String,
    expanded: bool,
}

/// Where the entries of a server list came from.
#[derive(Clone, Copy, Debug, PartialEq, Eq)]
pub enum ConfigSource {
    /// The configuration file was read.
    Loaded,
    /// There was no configuration file that could be read: the list is empty.
    DefaultedEmpty,
}

/// The entries of a configuration with the state of their display: which entries
/// pass the filter, which groups are expanded, and which row is selected.
#[derive(Debug)]
pub struct ServerList {
    items: Vec<ServerItem>,
    filtered_items: Vec<usize>,
    cursor: Option<usize>,
    expanded_groups: Vec<GroupFlag>,
}

/// Whether the flag at position `i` belongs to the group `name`.
spec fn has_name(flags: Seq<GroupFlag>, name: Seq<char>, i: int) -> bool {
    0 <= i < flags.len() && flags[i].name@ == name
}

/// Whether the group `name` has a flag.
spec fn named(flags: Seq<GroupFlag>, name: Seq<char>) -> bool {
    exists|i: int| has_name(flags, name, i)
}

/// Whether no two flags belong to the same group.
spec fn distinct_names(flags: Seq<GroupFlag>) -> bool {
    forall|i: int, j: int| 0 <= i < j < flags.len() ==> flags[i].name@ != flags[j].name@
}

/// The flags as a map from group name to flag.
spec fn flags_map(flags: Seq<GroupFlag>) -> Map<Seq<char>, bool> {
    Map::new(
        |n: Seq<char>| named(flags, n),
        |n: Seq<char>| flags[choose|i: int| has_name(flags, n, i)].expanded,
    )
}

/// Where no name occurs twice, each flag is the value of its group in the map.
proof fn lemma_flag_at(flags: Seq<GroupFlag>, i: int)
    requires
        distinct_names(flags),
        0 <= i < flags.len(),
    ensures
        flags_map(flags).contains_key(flags[i].name@),
        flags_map(flags)[flags[i].name@] == flags[i].expanded,
{
    let n = flags[i].name@;
    assert(has_name(flags, n, i));
    let j = choose|j: int| has_name(flags, n, j);
    assert(has_name(flags, n, j));
    assert(j == i);
}

/// The widest of the numbers in `widths`; zero where there is none.
pub open spec fn largest(widths: Seq<usize>) -> usize
    decreases widths.len(),
{
    if widths.len() == 0 {
        0
    } else if widths.last() > largest(widths.drop_last()) {
        widths.last()
    } else {
        largest(widths.drop_last())
    }
}

/// The display widths of the host labels of `items`.
pub open spec fn host_widths(items: Seq<ItemView>) -> Seq<usize> {
    Seq::new(items.len(), |i: int| display_width(items[i].host))
}

/// The fuzzy scores of the labels of `items` for `query`.
pub open spec fn label_scores(items: Seq<ItemView>, query: Seq<char>) -> Seq<Option<isize>> {
    Seq::new(items.len(), |i: int| fuzzy_score(query, items[i].label()))
}

/// The state after filtering with `query`: an empty query drops the filter; any
/// other keeps the entries whose label it matches with a score above zero.
pub open spec fn filtered_by(list: ListModel, query: Seq<char>) -> ListModel {
    if query.len() == 0 {
        list.reset_filter()
    } else {
        list.apply_filter(kept(label_scores(list.items, query)))
    }
}

/// `largest` is at least every number of the sequence, and is one of them.
pub proof fn lemma_largest(widths: Seq<usize>)
    ensures
        forall|i: int| 0 <= i < widths.len() ==> #[trigger] widths[i] <= largest(widths),
        widths.len() > 0 ==> widths.contains(largest(widths)),
    decreases widths.len(),
{
    if widths.len() > 0 {
        let front = widths.drop_last();
        lemma_largest(front);
        assert forall|i: int| 0 <= i < widths.len() implies #[trigger] widths[i] <= largest(
            widths,
        ) by {
            if i < front.len() {
                assert(widths[i] == front[i]);
            }
        }
        if widths.last() > largest(front) || front.len() == 0 {
            assert(widths[widths.len() - 1] == largest(widths));
        } else {
            let k = choose|k: int| 0 <= k < front.len() && front[k] == largest(front);
            assert(widths[k] == largest(widths));
        }
    }
}

/// The widest of the numbers in `widths`; zero where there is none.
pub fn largest_of(widths: &Vec<usize>) -> (max: usize)
    ensures
        max == largest(widths@),
{
    let mut max: usize = 0;
    let mut i: usize = 0;
    while i < widths.len()
        invariant
            i <= widths.len(),
            max == largest(widths@.take(i as int)),
        decreases widths.len() - i,
    {
        proof {
            assert(widths@.take(i + 1).drop_last() =~= widths@.take(i as int));
        }
        if widths[i] > max {
            max = widths[i];
        }
        i += 1;
    }
    proof {
        assert(widths@.take(widths.len() as int) =~= widths@);
    }
    max
}

impl View for ServerList {
    type V = ListModel;

    closed spec fn view(&self) -> ListModel {
        ListModel {
            items: items_view(self.items@),
            filtered: self.filtered_items@,
            expanded: flags_map(self.expanded_groups@),
            cursor: self.cursor,
        }
    }
}

/// The positions `0, 1, .., n - 1`.
fn all_positions(n: usize) -> (out: Vec<usize>)
    ensures
        out@ == all_indices(n as nat),
{
    let mut out: Vec<usize> = Vec::new();
    let mut i: usize = 0;
    while i < n
        invariant
            i <= n,
            out@ == all_indices(i as nat),
        decreases n - i,
    {
        out.push(i);
        proof {
            assert(out@ =~= all_indices((i + 1) as nat));
        }
        i += 1;
    }
    out
}

/// The position of the flag of the group `name`, if it has one.
fn find_flag(flags: &Vec<GroupFlag>, name: &String) -> (found: Option<usize>)
    ensures
        match found {
            Some(i) => has_name(flags@, name@, i as int),
            None => !named(flags@, name@),
        },
{
    let mut i: usize = 0;
    while i < flags.len()
        invariant
            i <= flags.len(),
            forall|k: int| 0 <= k < i ==> !has_name(flags@, name@, k),
        decreases flags.len() - i,
    {
        if flags[i].name == *name {
            return Some(i);
        }
        i += 1;
    }
    None
}

/// Whether two entries have the same group, host label and kind.
fn same_key(a: &ServerItem, b: &ServerItem) -> (same: bool)
    ensures
        same == a@.same_key(b@),
{
    a.group == b.group && a.host == b.host && a.is_group == b.is_group
}

/// One more entry adds its own name to the header names, if it is a header.
proof fn lemma_header_name_step(items: Seq<ItemView>, i: int, name: Seq<char>)
    requires
        0 <= i < items.len(),
    ensures
        is_header_name(items.take(i + 1), name) <==> is_header_name(items.take(i), name) || (
        items[i].is_group && items[i].group == name),
{
    let before = items.take(i);
    let after = items.take(i + 1);
    if is_header_name(before, name) {
        let k = choose|k: int| 0 <= k < before.len() && (#[trigger] before[k]).is_group && before[k].group == name;
        assert(after[k] == before[k]);
    }
    if items[i].is_group && items[i].group == name {
        assert(after[i] == items[i]);
    }
    if is_header_name(after, name) {
        let k = choose|k: int| 0 <= k < after.len() && (#[trigger] after[k]).is_group && after[k].group == name;
        if k < i {
            assert(before[k] == after[k]);
        }
    }
}

/// One flag for each group that has a header in `items`, all of them expanded.
fn initial_flags(items: &Vec<ServerItem>) -> (flags: Vec<GroupFlag>)
    ensures
        distinct_names(flags@),
        flags_map(flags@) == ListModel::load(items_view(items@)).expanded,
{
    let ghost all = items_view(items@);
    let mut flags: Vec<GroupFlag> = Vec::new();
    let mut i: usize = 0;
    while i < items.len()
        invariant
            i <= items.len(),
            all == items_view(items@),
            distinct_names(flags@),
            forall|k: int| 0 <= k < flags.len() ==> (#[trigger] flags@[k]).expanded,
            forall|n: Seq<char>| #[trigger] named(flags@, n) <==> is_header_name(all.take(i as int), n),
        decreases items.len() - i,
    {
        let item = &items[i];
        let ghost before = flags@;
        proof {
            assert forall|n: Seq<char>|
                is_header_name(all.take(i + 1), n) <==> is_header_name(all.take(i as int), n) || (
                all[i as int].is_group && all[i as int].group == n) by {
                lemma_header_name_step(all, i as int, n);
            }
        }
        if item.is_group {
            if find_flag(&flags, &item.group).is_none() {
                flags.push(GroupFlag { name: item.group.clone(), expanded: true });
                proof {
                    let added = flags@.len() - 1;
                    assert forall|n: Seq<char>| #[trigger]
                        named(flags@, n) <==> named(before, n) || n == item.group@ by {
                        if named(before, n) {
                            let k = choose|k: int| has_name(before, n, k);
                            assert(has_name(flags@, n, k));
                        }
                        if n == item.group@ {
                            assert(has_name(flags@, n, added));
                        }
                        if named(flags@, n) {
                            let k = choose|k: int| has_name(flags@, n, k);
                            if k < added {
                                assert(has_name(before, n, k));
                            }
                        }
                    }
                    assert forall|a: int, b: int| 0 <= a < b < flags@.len() implies flags@[a].name@
                        != flags@[b].name@ by {
                        if b == added {
                            assert(!has_name(before, item.group@, a));
                        }
                    }
                }
            }
        }
        i += 1;
    }
    proof {
        assert(all.take(items.len() as int) =~= all);
        assert forall|n: Seq<char>| named(flags@, n) implies #[trigger] flags_map(flags@)[n] by {
            let k = choose|k: int| has_name(flags@, n, k);
            assert(flags@[k].expanded);
        }
        assert(flags_map(flags@) =~= ListModel::load(all).expanded);
    }
    flags
}

impl ServerList {
    /// The invariant of the entries, the filter and the flags.
    closed spec fn inv(&self) -> bool {
        self@.shape_ok() && distinct_names(self.expanded_groups@)
    }

    /// The invariant of a server list. Every constructor establishes it and every
    /// method keeps it; it implies the invariant of the model.
    pub closed spec fn wf(&self) -> bool {
        self.inv() && self@.cursor_ok()
    }

    /// A well-formed list has a well-formed model.
    pub proof fn lemma_wf(&self)
        requires
            self.wf(),
        ensures
            self@.wf(),
    {
    }

    /// The expansion flag of the group `name`.
    fn flag_of(&self, name: &String) -> (open: bool)
        requires
            self.inv(),
        ensures
            open == group_open(self@.expanded, name@),
    {
        match find_flag(&self.expanded_groups, name) {
            Some(i) => {
                proof {
                    lemma_flag_at(self.expanded_groups@, i as int);
                }
                self.expanded_groups[i].expanded
            },
            None => true,
        }
    }

    /// The visible rows, as positions in the entries.
    fn rows(&self) -> (out: Vec<usize>)
        requires
            self.inv(),
        ensures
            out@ == self@.visible(),
            forall|j: int| 0 <= j < out.len() ==> (#[trigger] out@[j] as int) < self.items.len(),
    {
        let ghost model = self@;
        let mut out: Vec<usize> = Vec::new();
        let mut open = true;
        let mut k: usize = 0;
        proof {
            assert(self.filtered_items@.skip(0) =~= self.filtered_items@);
            lemma_project_bounds(model.items, model.expanded, model.filtered, true);
        }
        while k < self.filtered_items.len()
            invariant
                self.inv(),
                model == self@,
                k <= self.filtered_items.len(),
                out@ + project(
                    model.items,
                    model.expanded,
                    self.filtered_items@.skip(k as int),
                    open,
                ) =~= model.visible(),
            decreases self.filtered_items.len() - k,
        {
            let ghost rest = self.filtered_items@.skip(k as int);
            let idx = self.filtered_items[k];
            proof {
                assert(rest[0] == idx);
                assert(rest.drop_first() =~= self.filtered_items@.skip(k + 1));
                assert((model.filtered[k as int] as int) < model.items.len());
            }
            let item = &self.items[idx];
            if item.is_group {
                open = self.flag_of(&item.group);
                out.push(idx);
            } else if open && self.flag_of(&item.group) {
                out.push(idx);
            }
            k += 1;
        }
        out
    }

    /// Moves the cursor to `pos`, or as near to it as the visible rows allow.
    fn set_position(&mut self, pos: usize)
        requires
            old(self).inv(),
        ensures
            final(self).wf(),
            final(self)@ == old(self)@.with_position(pos),
    {
        let len = self.rows().len();
        self.cursor = if len == 0 {
            None
        } else if pos < len {
            Some(pos)
        } else {
            Some(len - 1)
        };
    }

    /// The list of the entries `items`: nothing filtered out, every group expanded,
    /// the first row selected.
    pub fn from_items(items: Vec<ServerItem>) -> (list: Self)
        ensures
            list.wf(),
            list@ == ListModel::load(items_view(items@)),
    {
        let expanded_groups = initial_flags(&items);
        let filtered_items = all_positions(items.len());
        let mut list = Self { items, filtered_items, cursor: None, expanded_groups };
        list.set_position(0);
        list
    }

    /// The list of the entries that the configuration text `content` declares.
    pub fn from_ssh_config(content: &str) -> (list: Self)
        ensures
            list.wf(),
            list@ == ListModel::load(entries_of(content@)),
    {
        Self::from_items(parse_config(content))
    }

    /// The list of what was read of the configuration file: of the entries that
    /// the text declares, or without entries where no text could be read. A file
    /// that is missing or unreadable is no error. Hosts that declare no login name
    /// get `default_user`.
    pub fn load(content: Option<&str>, default_user: &str) -> (loaded: (Self, ConfigSource))
        ensures
            loaded.0.wf(),
            match content {
                Some(text) => loaded.1 == ConfigSource::Loaded && loaded.0@ == ListModel::load(
                    entries_with(text@, default_user@),
                ),
                None => loaded.1 == ConfigSource::DefaultedEmpty && loaded.0@ == ListModel::load(
                    Seq::empty(),
                ),
            },
    {
        match content {
            Some(text) => (
                Self::from_items(parse_config_with(text, default_user)),
                ConfigSource::Loaded,
            ),
            None => {
                let list = Self::from_items(Vec::new());
                proof {
                    assert(items_view(Seq::<ServerItem>::empty()) =~= Seq::empty());
                }
                (list, ConfigSource::DefaultedEmpty)
            },
        }
    }

    /// Drops the filter and selects the first row.
    pub fn reset_filter(&mut self)
        requires
            old(self).wf(),
        ensures
            final(self).wf(),
            final(self)@ == old(self)@.reset_filter(),
    {
        self.filtered_items = all_positions(self.items.len());
        self.set_position(0);
    }
}

/// The value of an optional entry.
pub open spec fn opt_item_view(item: Option<&ServerItem>) -> Option<ItemView> {
    match item {
        Some(entry) => Some(entry@),
        None => None,
    }
}

/// The row text of each visible row of `list`: the text of its entry, with the
/// host label padded to the widest host label of all entries.
pub open spec fn row_texts(list: ListModel) -> Seq<Seq<char>> {
    Seq::new(
        list.visible().len(),
        |j: int|
            {
                let entry = list.items[list.visible()[j] as int];
                entry.aligned(
                    (largest(host_widths(list.items)) - display_width(entry.host)) as nat,
                    group_open(list.expanded, entry.group),
                )
            },
    )
}

/// The character sequences of a sequence of strings.
pub open spec fn string_views(strings: Seq<String>) -> Seq<Seq<char>> {
    Seq::new(strings.len(), |i: int| strings[i]@)
}

/// Flipping one flag changes the value of its group in the map, and nothing else.
proof fn lemma_flip(before: Seq<GroupFlag>, after: Seq<GroupFlag>, i: int)
    requires
        distinct_names(before),
        0 <= i < before.len(),
        after.len() == before.len(),
        forall|k: int| 0 <= k < before.len() ==> (#[trigger] after[k]).name@ == before[k].name@,
        forall|k: int| 0 <= k < before.len() && k != i ==> (#[trigger] after[k]).expanded == before[k].expanded,
        after[i].expanded == !before[i].expanded,
    ensures
        distinct_names(after),
        flags_map(after) == flags_map(before).insert(before[i].name@, !flags_map(before)[before[i].name@]),
{
    let name = before[i].name@;
    lemma_flag_at(before, i);
    let target = flags_map(before).insert(name, !flags_map(before)[name]);
    assert forall|n: Seq<char>| named(after, n) <==> named(before, n) by {
        if named(after, n) {
            let k = choose|k: int| has_name(after, n, k);
            assert(has_name(before, n, k));
        }
        if named(before, n) {
            let k = choose|k: int| has_name(before, n, k);
            assert(has_name(after, n, k));
        }
    }
    assert forall|n: Seq<char>| named(after, n) implies #[trigger] flags_map(after)[n] == target[n] by {
        let k = choose|k: int| has_name(after, n, k);
        assert(has_name(before, n, k));
        lemma_flag_at(after, k);
        lemma_flag_at(before, k);
    }
    assert(flags_map(after) =~= target);
}

/// Setting every flag to `flag` gives every group that value in the map.
proof fn lemma_set_all(before: Seq<GroupFlag>, after: Seq<GroupFlag>, flag: bool)
    requires
        distinct_names(before),
        after.len() == before.len(),
        forall|k: int| 0 <= k < before.len() ==> (#[trigger] after[k]).name@ == before[k].name@,
        forall|k: int| 0 <= k < before.len() ==> (#[trigger] after[k]).expanded == flag,
    ensures
        distinct_names(after),
        flags_map(after) == Map::new(
            |n: Seq<char>| flags_map(before).contains_key(n),
            |n: Seq<char>| flag,
        ),
{
    let target = Map::new(|n: Seq<char>| flags_map(before).contains_key(n), |n: Seq<char>| flag);
    assert forall|n: Seq<char>| named(after, n) <==> named(before, n) by {
        if named(after, n) {
            let k = choose|k: int| has_name(after, n, k);
            assert(has_name(before, n, k));
        }
        if named(before, n) {
            let k = choose|k: int| has_name(before, n, k);
            assert(has_name(after, n, k));
        }
    }
    assert forall|n: Seq<char>| named(after, n) implies #[trigger] flags_map(after)[n] == flag by {
        let k = choose|k: int| has_name(after, n, k);
        lemma_flag_at(after, k);
    }
    assert(flags_map(after) =~= target);
}

/// Every flag is set exactly if every group of the map is expanded.
proof fn lemma_all_flags(flags: Seq<GroupFlag>, list: ListModel)
    requires
        distinct_names(flags),
        list.expanded == flags_map(flags),
    ensures
        list.all_expanded() <==> forall|k: int| 0 <= k < flags.len() ==> (#[trigger] flags[k]).expanded,
{
    if list.all_expanded() {
        assert forall|k: int| 0 <= k < flags.len() implies (#[trigger] flags[k]).expanded by {
            lemma_flag_at(flags, k);
        }
    }
    if forall|k: int| 0 <= k < flags.len() ==> (#[trigger] flags[k]).expanded {
        assert forall|n: Seq<char>| list.expanded.contains_key(n) implies #[trigger] list.expanded[n] by {
            let k = choose|k: int| has_name(flags, n, k);
            lemma_flag_at(flags, k);
        }
    }
}

impl ServerList {
    /// The entries, in the order of their declaration.
    pub fn items(&self) -> (items: &Vec<ServerItem>)
        ensures
            items_view(items@) == self@.items,
    {
        &self.items
    }

    /// The positions of the entries that pass the filter, in rising order.
    pub fn filtered_items(&self) -> (filtered: &Vec<usize>)
        ensures
            filtered@ == self@.filtered,
    {
        &self.filtered_items
    }

    /// The selected row: none while no row is visible, else a position in the
    /// visible rows.
    pub fn selected_index(&self) -> (row: Option<usize>)
        requires
            self.wf(),
        ensures
            row == self@.selection(),
            match row {
                Some(c) => c < self@.visible().len(),
                None => self@.visible().len() == 0,
            },
    {
        if self.rows().len() == 0 {
            None
        } else {
            self.cursor
        }
    }

    /// Replaces the filter by the entries whose score is a hit, where `scores`
    /// holds one score for each entry. The first row is selected if any entry is
    /// kept; else the cursor stays as it was. With another number of scores the
    /// list stays as it is, and the result is `false`.
    pub fn apply_scores(&mut self, scores: &Vec<Option<isize>>) -> (applied: bool)
        requires
            old(self).wf(),
        ensures
            final(self).wf(),
            applied == (scores.len() == old(self)@.items.len()),
            applied ==> final(self)@ == old(self)@.apply_filter(kept(scores@)),
            !applied ==> final(self)@ == old(self)@,
    {
        if scores.len() != self.items.len() {
            return false;
        }
        let keep = hits(scores);
        proof {
            lemma_kept(scores@);
        }
        let any = keep.len() > 0;
        self.filtered_items = keep;
        if any {
            self.set_position(0);
        }
        true
    }

    /// Filters the entries with `query`. An empty query drops the filter; any
    /// other keeps the entries whose label it matches with a score above zero, in
    /// their order.
    pub fn filter_items(&mut self, query: &str)
        requires
            old(self).wf(),
        ensures
            final(self).wf(),
            final(self)@ == filtered_by(old(self)@, query@),
    {
        if query.is_empty() {
            self.reset_filter();
            return ;
        }
        let ghost wanted = label_scores(self@.items, query@);
        let mut scores: Vec<Option<isize>> = Vec::new();
        let mut i: usize = 0;
        while i < self.items.len()
            invariant
                i <= self.items.len(),
                wanted == label_scores(self@.items, query@),
                scores@ == wanted.take(i as int),
            decreases self.items.len() - i,
        {
            let label = self.items[i].to_string();
            scores.push(best_match_score(query, label.as_str()));
            proof {
                assert(scores@ =~= wanted.take(i + 1));
            }
            i += 1;
        }
        proof {
            assert(wanted.take(self.items.len() as int) =~= wanted);
        }
        self.apply_scores(&scores);
    }

    /// The expansion flag of the group `group`; a group without a header counts as
    /// expanded.
    pub fn is_group_expanded(&self, group: &str) -> (open: bool)
        requires
            self.wf(),
        ensures
            open == group_open(self@.expanded, group@),
    {
        let name = group.to_owned();
        self.flag_of(&name)
    }

    /// The visible rows, as positions in the entries.
    pub fn visible_indices(&self) -> (rows: Vec<usize>)
        requires
            self.wf(),
        ensures
            rows@ == self@.visible(),
    {
        self.rows()
    }

    /// The entries of the visible rows.
    pub fn visible_items(&self) -> (rows: Vec<&ServerItem>)
        requires
            self.wf(),
        ensures
            rows.len() == self@.visible().len(),
            forall|j: int|
                0 <= j < rows.len() ==> (#[trigger] rows@[j])@ == self@.items[self@.visible()[j]
                    as int],
    {
        let indices = self.rows();
        let mut rows: Vec<&ServerItem> = Vec::new();
        let mut j: usize = 0;
        while j < indices.len()
            invariant
                j <= indices.len(),
                rows.len() == j,
                indices@ == self@.visible(),
                forall|k: int| 0 <= k < indices.len() ==> (#[trigger] indices@[k] as int) < self.items.len(),
                forall|k: int| 0 <= k < j ==> (#[trigger] rows@[k])@ == self@.items[indices@[k] as int],
            decreases indices.len() - j,
        {
            assert((indices@[j as int] as int) < self.items.len());
            rows.push(&self.items[indices[j]]);
            j += 1;
        }
        rows
    }

    /// The visible row at the vertical offset `y`, if there is one.
    pub fn get_index_at_y(&self, y: usize) -> (row: Option<usize>)
        requires
            self.wf(),
        ensures
            row == self@.row_at(y),
    {
        if y < self.rows().len() {
            Some(y)
        } else {
            None
        }
    }

    /// The position of the entry that the selected row stands for.
    pub fn selected_position(&self) -> (found: Option<usize>)
        requires
            self.wf(),
        ensures
            match found {
                Some(i) => self@.selected() == Some(i as nat) && i < self@.items.len(),
                None => self@.selected() is None,
            },
    {
        let rows = self.rows();
        match self.cursor {
            Some(c) => {
                if c < rows.len() {
                    assert((rows@[c as int] as int) < self.items.len());
                    let shown = &self.items[rows[c]];
                    let mut i: usize = 0;
                    while i < rows[c] && !same_key(&self.items[i], shown)
                        invariant
                            i <= rows@[c as int] < self.items.len(),
                            c < rows.len(),
                            *shown == self.items@[rows@[c as int] as int],
                            forall|k: int| 0 <= k < i ==> !(#[trigger] self@.items[k]).same_key(shown@),
                        decreases rows@[c as int] - i,
                    {
                        i += 1;
                    }
                    proof {
                        lemma_first_same_key_is(self@.items, shown@, i as int);
                    }
                    Some(i)
                } else {
                    None
                }
            },
            None => None,
        }
    }

    /// The entry that the selected row stands for: the first entry with the group,
    /// host label and kind of the entry shown in that row.
    pub fn selected(&self) -> (found: Option<&ServerItem>)
        requires
            self.wf(),
        ensures
            opt_item_view(found) == self@.selected_entry(),
    {
        match self.selected_position() {
            Some(i) => Some(&self.items[i]),
            None => None,
        }
    }

    /// Flips the expansion flag of the group of the selected row, if that row is a
    /// header, and drops the filter. The cursor keeps its position.
    pub fn toggle_group(&mut self)
        requires
            old(self).wf(),
        ensures
            final(self).wf(),
            final(self)@ == old(self)@.toggle_group(),
    {
        let found = self.selected_position();
        if let Some(i) = found {
            if self.items[i].is_group {
                if let Some(f) = find_flag(&self.expanded_groups, &self.items[i].group) {
                    let current_index = match self.cursor {
                        Some(c) => c,
                        None => 0,
                    };
                    let ghost before = self.expanded_groups@;
                    let flipped = GroupFlag {
                        name: self.expanded_groups[f].name.clone(),
                        expanded: !self.expanded_groups[f].expanded,
                    };
                    self.expanded_groups.set(f, flipped);
                    proof {
                        lemma_flip(before, self.expanded_groups@, f as int);
                    }
                    self.filtered_items = all_positions(self.items.len());
                    self.set_position(current_index);
                }
            }
        }
    }

    /// Collapses every group if all are expanded, else expands every group; drops
    /// the filter. The cursor keeps its position. The flags that the groups had
    /// are not remembered: a second call restores them only if they were all the
    /// same.
    pub fn toggle_all_groups(&mut self)
        requires
            old(self).wf(),
        ensures
            final(self).wf(),
            final(self)@ == old(self)@.toggle_all(),
    {
        let current_index = match self.cursor {
            Some(c) => c,
            None => 0,
        };
        let ghost before = self.expanded_groups@;
        let mut all_expanded = true;
        let mut i: usize = 0;
        while i < self.expanded_groups.len()
            invariant
                i <= self.expanded_groups.len(),
                all_expanded <==> forall|k: int| 0 <= k < i ==> (#[trigger] self.expanded_groups@[k]).expanded,
            decreases self.expanded_groups.len() - i,
        {
            if !self.expanded_groups[i].expanded {
                all_expanded = false;
            }
            i += 1;
        }
        proof {
            lemma_all_flags(before, self@);
        }
        let mut k: usize = 0;
        while k < self.expanded_groups.len()
            invariant
                k <= self.expanded_groups.len() == before.len(),
                self.items == old(self).items,
                self.cursor == old(self).cursor,
                forall|j: int| 0 <= j < before.len() ==> (#[trigger] self.expanded_groups@[j]).name@ == before[j].name@,
                forall|j: int| 0 <= j < k ==> (#[trigger] self.expanded_groups@[j]).expanded == !all_expanded,
            decreases self.expanded_groups.len() - k,
        {
            let flag = GroupFlag { name: self.expanded_groups[k].name.clone(), expanded: !all_expanded };
            self.expanded_groups.set(k, flag);
            k += 1;
        }
        proof {
            lemma_set_all(before, self.expanded_groups@, !all_expanded);
        }
        self.filtered_items = all_positions(self.items.len());
        self.set_position(current_index);
    }

    /// Moves the cursor one row down; it stays on the last row.
    pub fn select_next(&mut self)
        requires
            old(self).wf(),
        ensures
            final(self).wf(),
            final(self)@ == old(self)@.select_next(),
    {
        let pos = match self.cursor {
            Some(c) => if c < usize::MAX {
                c + 1
            } else {
                c
            },
            None => 0,
        };
        self.set_position(pos);
    }

    /// Moves the cursor one row up; it stays on the first row.
    pub fn select_previous(&mut self)
        requires
            old(self).wf(),
        ensures
            final(self).wf(),
            final(self)@ == old(self)@.select_previous(),
    {
        let pos = match self.cursor {
            Some(c) => if c > 0 {
                c - 1
            } else {
                c
            },
            None => usize::MAX,
        };
        self.set_position(pos);
    }

    /// Moves the cursor to the first row.
    pub fn select_first(&mut self)
        requires
            old(self).wf(),
        ensures
            final(self).wf(),
            final(self)@ == old(self)@.select_first(),
    {
        self.set_position(0);
    }

    /// Moves the cursor to the last row.
    pub fn select_last(&mut self)
        requires
            old(self).wf(),
        ensures
            final(self).wf(),
            final(self)@ == old(self)@.select_last(),
    {
        self.set_position(usize::MAX);
    }

    /// Moves the cursor to the row `row`, or to the last row where there are fewer.
    pub fn select(&mut self, row: usize)
        requires
            old(self).wf(),
        ensures
            final(self).wf(),
            final(self)@ == old(self)@.with_position(row),
    {
        self.set_position(row);
    }

    /// The display width of the widest host label of all entries; zero where
    /// there is no entry.
    pub fn max_host_len(&self) -> (max: usize)
        ensures
            max == largest(host_widths(self@.items)),
    {
        let ghost wanted = host_widths(self@.items);
        let mut widths: Vec<usize> = Vec::new();
        let mut i: usize = 0;
        while i < self.items.len()
            invariant
                i <= self.items.len(),
                wanted == host_widths(self@.items),
                widths@ == wanted.take(i as int),
            decreases self.items.len() - i,
        {
            widths.push(str_width(self.items[i].host.as_str()));
            proof {
                assert(widths@ =~= wanted.take(i + 1));
            }
            i += 1;
        }
        proof {
            assert(wanted.take(self.items.len() as int) =~= wanted);
        }
        largest_of(&widths)
    }

    /// The text of each visible row, with the host labels padded to one width.
    pub fn visible_labels(&self) -> (labels: Vec<String>)
        requires
            self.wf(),
        ensures
            string_views(labels@) == row_texts(self@),
    {
        let max = self.max_host_len();
        let rows = self.rows();
        let ghost wanted = row_texts(self@);
        let mut labels: Vec<String> = Vec::new();
        let mut j: usize = 0;
        proof {
            lemma_largest(host_widths(self@.items));
        }
        while j < rows.len()
            invariant
                self.inv(),
                j <= rows.len(),
                rows@ == self@.visible(),
                wanted == row_texts(self@),
                max == largest(host_widths(self@.items)),
                forall|i: int| 0 <= i < self@.items.len() ==> #[trigger] host_widths(self@.items)[i] <= max,
                forall|k: int| 0 <= k < rows.len() ==> (#[trigger] rows@[k] as int) < self.items.len(),
                labels.len() == j,
                wanted.len() == rows.len(),
                string_views(labels@) == wanted.take(j as int),
            decreases rows.len() - j,
        {
            assert((rows@[j as int] as int) < self.items.len());
            let item = &self.items[rows[j]];
            assert(host_widths(self@.items)[rows@[j as int] as int] <= max);
            let open = self.flag_of(&item.group);
            let ghost before = labels@;
            let label = item.to_string_aligned(max, open);
            labels.push(label);
            proof {
                assert(self@.items[rows@[j as int] as int] == item@);
                assert(wanted[j as int] == label@);
                assert(labels@ == before.push(label));
                assert forall|k: int| 0 <= k < j + 1 implies string_views(labels@)[k] == wanted.take(
                    j + 1,
                )[k] by {
                    if k < j {
                        assert(string_views(before)[k] == wanted.take(j as int)[k]);
                    }
                }
                assert(string_views(labels@) =~= wanted.take(j + 1));
            }
            j += 1;
        }
        proof {
            assert(wanted.take(rows.len() as int) =~= wanted);
        }
        labels
    }
}

impl Default for ServerList {
    /// The list without entries.
    fn default() -> (list: Self)
        ensures
            list.wf(),
            list@ == ListModel::load(Seq::empty()),
    {
        let list = Self::from_items(Vec::new());
        proof {
            assert(items_view(Seq::<ServerItem>::empty()) =~= Seq::empty());
        }
        list
    }
}

} // verus!
