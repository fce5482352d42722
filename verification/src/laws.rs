//! Laws of the parser and of the server list, proved over their models.

use crate::fuzzy::{kept, lemma_kept};
use crate::item::{ItemView, OTHER_GROUP};
use crate::model::{
    all_indices, group_open, is_header_name, lemma_first_same_key,
    lemma_project_bounds, lemma_project_hides_collapsed, project, ListModel,
};
use crate::parser::{entries_with, or_default, ParserModel};
use crate::server::{filtered_by, label_scores};
use crate::ssh_login::decimal_digits;
use crate::text::{
    all_digits, decimal_u32, digits_value, is_digit, join_words, lemma_line_len_is,
    lemma_line_len_stop, line_len,
};
use vstd::prelude::*;

verus! {

/// A host that is still being read when the text ends is not lost: it becomes the
/// last entry, after the entries finished before. Where no host is being read at
/// the end (no host was declared, or the last one declared was the wildcard `*`,
/// or a group was opened after it), the entries are those finished before.
pub proof fn lemma_pending_host_is_last(text: Seq<char>, default_user: Seq<char>)
    ensures
        ({
            let end = ParserModel::initial(default_user).feed(text);
            let entries = entries_with(text, default_user);
            match end.host {
                Some(host) => {
                    &&& entries.len() == end.items.len() + 1
                    &&& entries.drop_last() == end.items
                    &&& entries.last() == end.pending_entry(host)
                    &&& entries.last().host == host
                    &&& !entries.last().is_group
                },
                None => entries == end.items,
            }
        }),
{
    let end = ParserModel::initial(default_user).feed(text);
    if let Some(host) = end.host {
        assert(entries_with(text, default_user).drop_last() =~= end.items);
    }
}

/// The parser reads a text line by line: a text, a line feed and one more line
/// leave the parser where the text and then the line leave it.
pub proof fn lemma_feed_line(state: ParserModel, text: Seq<char>, line: Seq<char>)
    requires
        forall|i: int| 0 <= i < line.len() ==> #[trigger] line[i] != '\n',
    ensures
        state.feed(text + seq!['\n'] + line) == state.feed(text).parse_line(line),
    decreases text.len(),
{
    let whole = text + seq!['\n'] + line;
    let n = line_len(text);
    lemma_line_len_stop(text);
    assert forall|i: int| 0 <= i < n implies #[trigger] whole[i] != '\n' by {
        assert(whole[i] == text[i]);
    }
    if n < text.len() {
        assert(whole[n as int] == text[n as int]);
    } else {
        assert(whole[n as int] == '\n');
    }
    lemma_line_len_is(whole, n as int);
    assert(whole.take(n as int) =~= text.take(n as int));
    let next = state.parse_line(text.take(n as int));
    assert(line_len(whole) == n && n < whole.len());
    assert(state.feed(whole) == next.feed(whole.skip(n as int + 1)));
    if n < text.len() {
        assert(whole.skip(n as int + 1) =~= text.skip(n as int + 1) + seq!['\n'] + line);
        lemma_feed_line(next, text.skip(n as int + 1), line);
        assert(state.feed(text) == next.feed(text.skip(n as int + 1)));
    } else {
        assert(whole.skip(n as int + 1) =~= line);
        lemma_line_len_is(line, line.len() as int);
        assert(line.take(line.len() as int) =~= line);
        assert(state.feed(text) == next);
        assert(next.feed(line) == next.parse_line(line));
    }
}

/// The decimal digits of a number read back as that number: the port that a login
/// command shows is the port that was parsed.
pub proof fn lemma_decimal_round_trip(n: u32)
    ensures
        decimal_u32(decimal_digits(n as nat)) == Some(n),
{
    lemma_decimal_digits(n as nat);
    let digits = decimal_digits(n as nat);
    assert(is_digit(digits[0]));
}

/// The decimal digits of a number are digits, at least one, and denote the number.
pub proof fn lemma_decimal_digits(n: nat)
    ensures
        decimal_digits(n).len() >= 1,
        all_digits(decimal_digits(n)),
        digits_value(decimal_digits(n)) == n,
    decreases n,
{
    let digits = decimal_digits(n);
    if n < 10 {
        assert(digits.drop_last() =~= Seq::<char>::empty());
        assert(digits_value(digits) == digits_value(digits.drop_last()) * 10 + (digits.last() as u32
            - 0x30) as nat);
    } else {
        let front = decimal_digits(n / 10);
        lemma_decimal_digits(n / 10);
        assert(digits.drop_last() =~= front);
        assert forall|i: int| 0 <= i < digits.len() implies is_digit(#[trigger] digits[i]) by {
            if i < front.len() {
                assert(digits[i] == front[i]);
            }
        }
    }
}

/// The name of the last group header among `items`, if there is one.
pub open spec fn last_header(items: Seq<ItemView>) -> Option<Seq<char>>
    decreases items.len(),
{
    if items.len() == 0 {
        None
    } else if items.last().is_group {
        Some(items.last().group)
    } else {
        last_header(items.drop_last())
    }
}

/// What holds of every host among parsed entries: its port is positive, its label
/// is not the wildcard `*`, and its group is that of the header that most recently
/// precedes it, or the group "other" where none does.
pub open spec fn entries_ok(items: Seq<ItemView>) -> bool {
    forall|i: int|
        0 <= i < items.len() && !(#[trigger] items[i]).is_group ==> {
            &&& items[i].port >= 1
            &&& items[i].host != "*"@
            &&& items[i].group == or_default(last_header(items.take(i)), OTHER_GROUP@)
        }
}

/// What holds of the parser between two lines, and after the last.
pub open spec fn parser_ok(state: ParserModel) -> bool {
    &&& state.port >= 1
    &&& state.group == last_header(state.items)
    &&& state.host != Some("*"@)
    &&& entries_ok(state.items)
}

/// One more entry keeps the entries as they should be, if it is a header or a
/// host of the group in force.
proof fn lemma_push_entry(items: Seq<ItemView>, entry: ItemView)
    requires
        entries_ok(items),
        !entry.is_group ==> entry.port >= 1 && entry.host != "*"@ && entry.group == or_default(
            last_header(items),
            OTHER_GROUP@,
        ),
    ensures
        entries_ok(items.push(entry)),
        last_header(items.push(entry)) == if entry.is_group {
            Some(entry.group)
        } else {
            last_header(items)
        },
{
    let after = items.push(entry);
    assert(after.drop_last() =~= items);
    assert forall|i: int| 0 <= i < after.len() && !(#[trigger] after[i]).is_group implies {
        &&& after[i].port >= 1
        &&& after[i].host != "*"@
        &&& after[i].group == or_default(last_header(after.take(i)), OTHER_GROUP@)
    } by {
        if i < items.len() {
            assert(after[i] == items[i]);
            assert(after.take(i) =~= items.take(i));
        } else {
            assert(after.take(i) =~= items);
        }
    }
}

/// Words joined by blanks spell the wildcard only if the wildcard is the one word.
proof fn lemma_join_is_no_wildcard(parts: Seq<Seq<char>>)
    requires
        parts.len() >= 1,
        parts[0] != "*"@,
    ensures
        join_words(parts) != "*"@,
{
    reveal_strlit("*");
    if parts.len() >= 2 {
        let front = join_words(parts.drop_last());
        let joined = join_words(parts);
        assert(joined == front + seq![' '] + parts.last());
        assert(joined[front.len() as int] == ' ');
        if joined == "*"@ {
            assert(joined.len() == 1);
            assert(joined[0] == '*');
        }
    }
}

/// Each line leaves the parser as it should be.
pub proof fn lemma_parse_line_ok(state: ParserModel, line: Seq<char>)
    requires
        parser_ok(state),
    ensures
        parser_ok(state.parse_line(line)),
        parser_ok(state.flush()),
{
    let flushed = state.flush();
    if let Some(host) = state.host {
        lemma_push_entry(state.items, state.pending_entry(host));
    }
    assert(parser_ok(flushed));
    assert forall|name: Seq<char>| parser_ok(#[trigger] state.open_group(name)) by {
        lemma_push_entry(flushed.items, ItemView::header(name));
    }
    assert forall|parts: Seq<Seq<char>>| parser_ok(#[trigger] state.directive(parts)) by {
        if parts.len() >= 2 && parts[0] == "Host"@ && parts[1] != "*"@ {
            assert(parts.skip(1)[0] == parts[1]);
            lemma_join_is_no_wildcard(parts.skip(1));
        }
    }
}

/// Every text leaves the parser as it should be.
pub proof fn lemma_feed_ok(state: ParserModel, text: Seq<char>)
    requires
        parser_ok(state),
    ensures
        parser_ok(state.feed(text)),
    decreases text.len(),
{
    let n = line_len(text);
    lemma_parse_line_ok(state, text.take(n as int));
    if n < text.len() {
        lemma_feed_ok(state.parse_line(text.take(n as int)), text.skip(n as int + 1));
    }
}

/// Of the entries of any configuration text: every host has a positive port, none
/// is the wildcard `*`, and each belongs to the group whose header most recently
/// precedes it, or to the group "other".
pub proof fn lemma_entries_ok(text: Seq<char>, default_user: Seq<char>)
    ensures
        entries_ok(entries_with(text, default_user)),
{
    lemma_feed_ok(ParserModel::initial(default_user), text);
    lemma_parse_line_ok(ParserModel::initial(default_user).feed(text), Seq::empty());
}

/// The state after filtering with each query of `queries` in turn.
pub open spec fn after_filters(list: ListModel, queries: Seq<Seq<char>>) -> ListModel
    decreases queries.len(),
{
    if queries.len() == 0 {
        list
    } else {
        filtered_by(after_filters(list, queries.drop_last()), queries.last())
    }
}

/// Filtering changes neither the entries nor the expansion flags.
pub proof fn lemma_filters_keep_entries(list: ListModel, queries: Seq<Seq<char>>)
    ensures
        after_filters(list, queries).items == list.items,
        after_filters(list, queries).expanded == list.expanded,
    decreases queries.len(),
{
    if queries.len() > 0 {
        lemma_filters_keep_entries(list, queries.drop_last());
    }
}

/// Dropping the filter after any sequence of filter calls gives the state that
/// dropping it at once gives: every entry passes, in the order of declaration. For
/// a list that was just loaded this is the loaded state itself.
pub proof fn lemma_reset_after_filters(list: ListModel, queries: Seq<Seq<char>>)
    ensures
        after_filters(list, queries).reset_filter() == list.reset_filter(),
        after_filters(list, queries).reset_filter().filtered == all_indices(list.items.len()),
        after_filters(ListModel::load(list.items), queries).reset_filter() == ListModel::load(
            list.items,
        ),
{
    lemma_filters_keep_entries(list, queries);
    lemma_filters_keep_entries(ListModel::load(list.items), queries);
}

/// Filtering with the empty query twice gives the same state, and so the same
/// visible rows, as filtering with it once.
pub proof fn lemma_empty_query_idempotent(list: ListModel)
    ensures
        filtered_by(filtered_by(list, Seq::empty()), Seq::empty()) == filtered_by(
            list,
            Seq::empty(),
        ),
        filtered_by(filtered_by(list, Seq::empty()), Seq::empty()).visible() == filtered_by(
            list,
            Seq::empty(),
        ).visible(),
{
}

/// Whether a second toggle undoes the first: either the selected row is no
/// header, so that a toggle changes nothing; or no filter is active and the row
/// that is selected after the first toggle is a header of the same group.
pub open spec fn toggles_back(list: ListModel) -> bool {
    match list.selected_entry() {
        Some(entry) => entry.is_group ==> {
            &&& list.filtered == all_indices(list.items.len())
            &&& match list.toggle_group().selected_entry() {
                Some(again) => again.is_group && again.group == entry.group,
                None => false,
            }
        },
        None => true,
    }
}

/// Toggling the selected group twice restores the expansion flags, the filter and
/// the visible rows, wherever the second toggle undoes the first.
pub proof fn lemma_toggle_group_twice(list: ListModel)
    requires
        list.wf(),
        toggles_back(list),
    ensures
        list.toggle_group().toggle_group().expanded == list.expanded,
        list.toggle_group().toggle_group().filtered == list.filtered,
        list.toggle_group().toggle_group().visible() == list.visible(),
{
    let once = list.toggle_group();
    let twice = once.toggle_group();
    match list.selected_entry() {
        Some(entry) => {
            if entry.is_group {
                let i = list.selected().unwrap();
                lemma_first_same_key(
                    list.items,
                    list.items[list.visible()[list.selection().unwrap() as int] as int],
                );
                lemma_project_bounds(list.items, list.expanded, list.filtered, true);
                assert(is_header_name(list.items, entry.group)) by {
                    assert(list.items[i as int].is_group && list.items[i as int].group == entry.group);
                }
                assert(list.expanded.contains_key(entry.group));
                assert(once == list.flip_group(entry.group));
                assert(once.expanded.contains_key(entry.group));
                assert(twice == once.flip_group(entry.group));
                assert(twice.expanded =~= list.expanded);
            }
        },
        None => {},
    }
}

/// Whether hosts are shown after the entries at `filtered`, if they were shown
/// before them exactly if `open`: the flag of the last header among them.
pub open spec fn open_after(
    items: Seq<ItemView>,
    expanded: Map<Seq<char>, bool>,
    filtered: Seq<usize>,
    open: bool,
) -> bool
    decreases filtered.len(),
{
    if filtered.len() == 0 {
        open
    } else {
        let item = items[filtered[0] as int];
        open_after(
            items,
            expanded,
            filtered.drop_first(),
            if item.is_group {
                group_open(expanded, item.group)
            } else {
                open
            },
        )
    }
}

/// The rows of two runs of entries are the rows of the first, then those of the
/// second under the flag that the first leaves in force.
pub proof fn lemma_project_split(
    items: Seq<ItemView>,
    expanded: Map<Seq<char>, bool>,
    front: Seq<usize>,
    back: Seq<usize>,
    open: bool,
)
    ensures
        project(items, expanded, front + back, open) == project(items, expanded, front, open)
            + project(items, expanded, back, open_after(items, expanded, front, open)),
    decreases front.len(),
{
    if front.len() == 0 {
        assert(front + back =~= back);
        assert(project(items, expanded, front, open) + project(items, expanded, back, open)
            =~= project(items, expanded, back, open));
    } else {
        let item = items[front[0] as int];
        let next = if item.is_group {
            group_open(expanded, item.group)
        } else {
            open
        };
        assert((front + back)[0] == front[0]);
        assert((front + back).drop_first() =~= front.drop_first() + back);
        lemma_project_split(items, expanded, front.drop_first(), back, next);
        assert(project(items, expanded, front + back, open) =~= project(
            items,
            expanded,
            front,
            open,
        ) + project(items, expanded, back, open_after(items, expanded, front, open)));
    }
}

/// The rows of a run of entries do not depend on the flag of a group that none of
/// the entries belongs to, but for a header at the end of the run.
pub proof fn lemma_project_same_flags(
    items: Seq<ItemView>,
    first: Map<Seq<char>, bool>,
    second: Map<Seq<char>, bool>,
    filtered: Seq<usize>,
    open: bool,
)
    requires
        forall|k: int|
            0 <= k < filtered.len() && (k < filtered.len() - 1 || !items[#[trigger] filtered[k] as int].is_group)
                ==> group_open(first, items[filtered[k] as int].group) == group_open(
                second,
                items[filtered[k] as int].group,
            ),
    ensures
        project(items, first, filtered, open) == project(items, second, filtered, open),
    decreases filtered.len(),
{
    if filtered.len() > 0 {
        let item = items[filtered[0] as int];
        let rest = filtered.drop_first();
        assert forall|k: int|
            0 <= k < rest.len() && (k < rest.len() - 1 || !items[#[trigger] rest[k] as int].is_group) implies group_open(
            first,
            items[rest[k] as int].group,
        ) == group_open(second, items[rest[k] as int].group) by {
            assert(rest[k] == filtered[k + 1]);
        }
        if rest.len() == 0 {
            assert(project(items, first, rest, open) =~= project(items, second, rest, open));
            assert(project(items, first, rest, group_open(first, item.group)) =~= project(
                items,
                second,
                rest,
                group_open(second, item.group),
            ));
        } else {
            lemma_project_same_flags(items, first, second, rest, open);
            lemma_project_same_flags(items, first, second, rest, group_open(first, item.group));
        }
    }
}

/// A run of entries that ends with a header has that header as its last row.
pub proof fn lemma_project_ends_with_header(
    items: Seq<ItemView>,
    expanded: Map<Seq<char>, bool>,
    filtered: Seq<usize>,
    open: bool,
)
    requires
        filtered.len() > 0,
        items[filtered.last() as int].is_group,
    ensures
        project(items, expanded, filtered, open).len() > 0,
        project(items, expanded, filtered, open).last() == filtered.last(),
    decreases filtered.len(),
{
    let item = items[filtered[0] as int];
    let rest = filtered.drop_first();
    let rows = project(items, expanded, filtered, open);
    if rest.len() > 0 {
        assert(rest.last() == filtered.last());
        lemma_project_ends_with_header(items, expanded, rest, open);
        lemma_project_ends_with_header(items, expanded, rest, group_open(expanded, item.group));
        let after = if item.is_group {
            project(items, expanded, rest, group_open(expanded, item.group))
        } else {
            project(items, expanded, rest, open)
        };
        assert(rows == after || rows == seq![filtered[0]] + after);
        assert(rows.last() == after.last());
    } else {
        assert(filtered.last() == filtered[0]);
        assert(project(items, expanded, rest, group_open(expanded, item.group)) =~= Seq::empty());
        assert(rows =~= seq![filtered[0]]);
    }
}

/// The rows of entries in rising order are in rising order, and none comes before
/// the first of the entries.
pub proof fn lemma_project_rises(
    items: Seq<ItemView>,
    expanded: Map<Seq<char>, bool>,
    filtered: Seq<usize>,
    open: bool,
)
    requires
        forall|j: int, k: int| 0 <= j < k < filtered.len() ==> filtered[j] < filtered[k],
    ensures
        forall|j: int, k: int|
            0 <= j < k < project(items, expanded, filtered, open).len() ==> project(
                items,
                expanded,
                filtered,
                open,
            )[j] < project(items, expanded, filtered, open)[k],
        forall|j: int|
            0 <= j < project(items, expanded, filtered, open).len() ==> filtered[0] <= #[trigger] project(
                items,
                expanded,
                filtered,
                open,
            )[j],
    decreases filtered.len(),
{
    if filtered.len() > 0 {
        let item = items[filtered[0] as int];
        let rest = filtered.drop_first();
        assert forall|j: int, k: int| 0 <= j < k < rest.len() implies rest[j] < rest[k] by {
            assert(rest[j] == filtered[j + 1] && rest[k] == filtered[k + 1]);
        }
        lemma_project_rises(items, expanded, rest, open);
        lemma_project_rises(items, expanded, rest, group_open(expanded, item.group));
        let rows = project(items, expanded, filtered, open);
        let after = if item.is_group {
            project(items, expanded, rest, group_open(expanded, item.group))
        } else {
            project(items, expanded, rest, open)
        };
        if rest.len() > 0 {
            assert(rest[0] == filtered[1]);
        } else {
            assert(after =~= Seq::empty());
        }
        if rows == after {
        } else {
            assert(rows == seq![filtered[0]] + after);
            assert forall|j: int, k: int| 0 <= j < k < rows.len() implies rows[j] < rows[k] by {
                assert(rows[k] == after[k - 1]);
                if j > 0 {
                    assert(rows[j] == after[j - 1]);
                }
            }
            assert forall|j: int| 0 <= j < rows.len() implies filtered[0] <= #[trigger] rows[j] by {
                if j > 0 {
                    assert(rows[j] == after[j - 1]);
                }
            }
        }
    }
}

/// While no filter is active, a second toggle undoes the first wherever the
/// selected row shows a header and no entry before it belongs to its group: the
/// rows down to that header do not change when its group is flipped, so that the
/// cursor stays on it.
pub proof fn lemma_first_header_toggles_back(list: ListModel)
    requires
        list.wf(),
        list.filtered == all_indices(list.items.len()),
        list.selection() is Some,
        list.items[list.visible()[list.selection().unwrap() as int] as int].is_group,
        forall|i: int|
            0 <= i < list.visible()[list.selection().unwrap() as int] ==> (#[trigger] list.items[i]).group
                != list.items[list.visible()[list.selection().unwrap() as int] as int].group,
    ensures
        toggles_back(list),
        list.toggle_group().toggle_group().visible() == list.visible(),
{
    let n = list.items.len();
    let all = all_indices(n);
    let c = list.selection().unwrap();
    lemma_project_bounds(list.items, list.expanded, list.filtered, true);
    let p = list.visible()[c as int];
    let shown = list.items[p as int];
    let group = shown.group;
    lemma_first_same_key(list.items, shown);
    let entry = list.selected_entry().unwrap();
    assert(entry.is_group && entry.group == group);
    assert(list.expanded.contains_key(group)) by {
        assert(list.items[p as int].is_group && list.items[p as int].group == group);
    }
    let front = all.take(p + 1);
    let back = all.skip(p + 1);
    assert(front + back =~= all);
    let flipped = list.expanded.insert(group, !list.expanded[group]);
    lemma_project_split(list.items, list.expanded, front, back, true);
    lemma_project_split(list.items, flipped, front, back, true);
    assert forall|k: int|
        0 <= k < front.len() && (k < front.len() - 1 || !list.items[#[trigger] front[k] as int].is_group) implies group_open(
        list.expanded,
        list.items[front[k] as int].group,
    ) == group_open(flipped, list.items[front[k] as int].group) by {
        assert(front[k] == k);
        if k < p {
            assert(list.items[k].group != group);
        }
    }
    lemma_project_same_flags(list.items, list.expanded, flipped, front, true);
    assert(front.last() == p);
    lemma_project_ends_with_header(list.items, list.expanded, front, true);
    lemma_project_rises(list.items, list.expanded, all, true);
    let head = project(list.items, list.expanded, front, true);
    assert(list.visible()[head.len() - 1] == p);
    assert(c == head.len() - 1);
    let once = list.toggle_group();
    assert(once == list.flip_group(group));
    assert(once.visible()[c as int] == p);
    assert(once.cursor == Some(c));
    lemma_toggle_group_twice(list);
}

/// Flipping the flag of one group twice restores the expansion flags, and with
/// them the visible rows of an unfiltered list.
pub proof fn lemma_flip_group_twice(list: ListModel, group: Seq<char>)
    requires
        list.expanded.contains_key(group),
    ensures
        list.flip_group(group).flip_group(group).expanded == list.expanded,
        list.filtered == all_indices(list.items.len()) ==> list.flip_group(group).flip_group(
            group,
        ).visible() == list.visible(),
{
    assert(list.flip_group(group).flip_group(group).expanded =~= list.expanded);
}

/// "Toggle all" twice restores the expansion flags exactly if all groups started
/// in the same state: all expanded, or all collapsed. Where some were expanded
/// and some collapsed, the first application expands all and the second collapses
/// all, and the flags that the groups had are lost.
pub proof fn lemma_toggle_all_twice(list: ListModel)
    ensures
        list.toggle_all().toggle_all().expanded == list.expanded <==> list.all_expanded()
            || list.all_collapsed(),
        list.all_expanded() || list.all_collapsed() ==> list.toggle_all().toggle_all().visible()
            == list.reset_filter().visible(),
{
    let once = list.toggle_all();
    let twice = once.toggle_all();
    assert forall|n: Seq<char>| once.expanded.contains_key(n) implies #[trigger] once.expanded[n]
        == !list.all_expanded() by {}
    assert forall|n: Seq<char>| twice.expanded.contains_key(n) implies #[trigger] twice.expanded[n]
        == !once.all_expanded() by {}
    if list.all_expanded() {
        if once.all_expanded() {
            assert forall|n: Seq<char>| !list.expanded.contains_key(n) by {
                if list.expanded.contains_key(n) {
                    assert(once.expanded.contains_key(n));
                    assert(once.expanded[n]);
                }
            }
        }
        assert(twice.expanded =~= list.expanded);
    } else if list.all_collapsed() {
        assert(once.all_expanded());
        assert(twice.expanded =~= list.expanded);
    } else {
        assert(once.all_expanded());
        let n = choose|n: Seq<char>| list.expanded.contains_key(n) && list.expanded[n];
        assert(list.expanded.contains_key(n) && list.expanded[n]);
        assert(twice.expanded.contains_key(n));
        assert(!twice.expanded[n]);
    }
}

/// The rows are entries that the filter keeps, and every header that it keeps is
/// a row.
pub proof fn lemma_project_keeps_headers(
    items: Seq<ItemView>,
    expanded: Map<Seq<char>, bool>,
    filtered: Seq<usize>,
    open: bool,
)
    ensures
        forall|j: int|
            0 <= j < project(items, expanded, filtered, open).len() ==> filtered.contains(
                #[trigger] project(items, expanded, filtered, open)[j],
            ),
        forall|k: int|
            0 <= k < filtered.len() && items[#[trigger] filtered[k] as int].is_group ==> project(
                items,
                expanded,
                filtered,
                open,
            ).contains(filtered[k]),
    decreases filtered.len(),
{
    if filtered.len() > 0 {
        let item = items[filtered[0] as int];
        let rest = filtered.drop_first();
        let next = if item.is_group {
            group_open(expanded, item.group)
        } else {
            open
        };
        lemma_project_keeps_headers(items, expanded, rest, next);
        let rows = project(items, expanded, filtered, open);
        let after = project(items, expanded, rest, next);
        assert(rows == after || rows == seq![filtered[0]] + after);
        assert forall|j: int| 0 <= j < rows.len() implies filtered.contains(#[trigger] rows[j]) by {
            if rows == after || j > 0 {
                let row = if rows == after {
                    after[j]
                } else {
                    after[j - 1]
                };
                assert(rows[j] == row);
                let k = choose|k: int| 0 <= k < rest.len() && rest[k] == row;
                assert(filtered[k + 1] == row);
            } else {
                assert(filtered[0] == rows[j]);
            }
        }
        assert forall|k: int|
            0 <= k < filtered.len() && items[#[trigger] filtered[k] as int].is_group implies rows.contains(
            filtered[k],
        ) by {
            if k == 0 {
                assert(rows[0] == filtered[0]);
            } else {
                assert(rest[k - 1] == filtered[k]);
                let j = choose|j: int| 0 <= j < after.len() && after[j] == rest[k - 1];
                if rows == after {
                    assert(rows[j] == filtered[k]);
                } else {
                    assert(rows[j + 1] == filtered[k]);
                }
            }
        }
    }
}

/// While every group is expanded, every entry that the filter keeps is a row.
pub proof fn lemma_project_all_expanded(
    items: Seq<ItemView>,
    expanded: Map<Seq<char>, bool>,
    filtered: Seq<usize>,
)
    requires
        forall|n: Seq<char>| expanded.contains_key(n) ==> #[trigger] expanded[n],
    ensures
        project(items, expanded, filtered, true) == filtered,
    decreases filtered.len(),
{
    if filtered.len() > 0 {
        lemma_project_all_expanded(items, expanded, filtered.drop_first());
        assert(seq![filtered[0]] + filtered.drop_first() =~= filtered);
    }
}

/// Of the visible rows: they are entries that the filter keeps, in rising order;
/// every header that the filter keeps is among them; and while every group is
/// expanded they are all the entries that the filter keeps.
pub proof fn lemma_visible_rows(list: ListModel)
    requires
        list.shape_ok(),
    ensures
        forall|j: int| 0 <= j < list.visible().len() ==> list.filtered.contains(#[trigger] list.visible()[j]),
        forall|j: int, k: int|
            0 <= j < k < list.visible().len() ==> list.visible()[j] < list.visible()[k],
        forall|k: int|
            0 <= k < list.filtered.len() && list.items[#[trigger] list.filtered[k] as int].is_group
                ==> list.visible().contains(list.filtered[k]),
        list.all_expanded() ==> list.visible() == list.filtered,
{
    lemma_project_keeps_headers(list.items, list.expanded, list.filtered, true);
    lemma_project_rises(list.items, list.expanded, list.filtered, true);
    if list.all_expanded() {
        lemma_project_all_expanded(list.items, list.expanded, list.filtered);
    }
}

/// No host of a collapsed group is visible, whatever the filter keeps: the flag of
/// a group decides over its hosts.
pub proof fn lemma_collapsed_groups_hide_hosts(list: ListModel)
    ensures
        forall|j: int|
            0 <= j < list.visible().len() && !list.items[#[trigger] list.visible()[j] as int].is_group
                ==> group_open(list.expanded, list.items[list.visible()[j] as int].group),
{
    lemma_project_hides_collapsed(list.items, list.expanded, list.filtered, true);
}

/// The selected row of a well-formed list is none exactly if no row is visible,
/// and else a position in the visible rows.
pub proof fn lemma_selection_in_range(list: ListModel)
    requires
        list.wf(),
    ensures
        match list.selection() {
            Some(c) => c < list.visible().len(),
            None => list.visible().len() == 0,
        },
{
}

/// Moving the cursor keeps a list well-formed, wherever it is moved to.
pub proof fn lemma_with_position_wf(list: ListModel, pos: usize)
    requires
        list.shape_ok(),
    ensures
        list.with_position(pos).wf(),
        list.with_position(pos).visible() == list.visible(),
{
    lemma_project_bounds(list.items, list.expanded, list.filtered, true);
}

/// Every operation on the list keeps it well-formed: after each of them the
/// selected row is none, with no row visible, or a position in the visible rows.
pub proof fn lemma_operations_keep_wf(list: ListModel, query: Seq<char>, pos: usize)
    requires
        list.wf(),
    ensures
        list.reset_filter().wf(),
        filtered_by(list, query).wf(),
        list.toggle_group().wf(),
        list.toggle_all().wf(),
        list.select_next().wf(),
        list.select_previous().wf(),
        list.select_first().wf(),
        list.select_last().wf(),
        list.with_position(pos).wf(),
{
    let n = list.items.len();
    let unfiltered = ListModel { filtered: all_indices(n), ..list };
    assert(unfiltered.shape_ok());
    lemma_with_position_wf(unfiltered, 0);
    // filter
    if query.len() > 0 {
        let keep = kept(label_scores(list.items, query));
        lemma_kept(label_scores(list.items, query));
        let narrowed = ListModel { filtered: keep, ..list };
        assert(narrowed.shape_ok());
        lemma_with_position_wf(narrowed, 0);
    }
    // toggle_group
    match list.selected_entry() {
        Some(entry) => {
            if entry.is_group && list.expanded.contains_key(entry.group) {
                let flipped = ListModel {
                    expanded: list.expanded.insert(entry.group, !list.expanded[entry.group]),
                    filtered: all_indices(n),
                    ..list
                };
                assert(flipped.shape_ok());
                lemma_with_position_wf(flipped, list.position());
            }
        },
        None => {},
    }
    // toggle_all
    let flag = !list.all_expanded();
    let turned = ListModel {
        expanded: Map::new(|n: Seq<char>| list.expanded.contains_key(n), |n: Seq<char>| flag),
        filtered: all_indices(n),
        ..list
    };
    assert(turned.shape_ok());
    lemma_with_position_wf(turned, list.position());
    // cursor moves
    lemma_with_position_wf(list, pos);
    lemma_with_position_wf(list, 0);
    lemma_with_position_wf(list, usize::MAX);
    match list.cursor {
        Some(c) => {
            lemma_with_position_wf(list, if c < usize::MAX { (c + 1) as usize } else { c });
            lemma_with_position_wf(list, if c > 0 { (c - 1) as usize } else { c });
        },
        None => {},
    }
}

} // verus!
