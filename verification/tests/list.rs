use ssh_hosts::item::ServerItem;
use ssh_hosts::server::{largest_of, ConfigSource, ServerList};

const GROUPED: &str = "#: Group prod\nHost web\n  HostName 10.0.0.1\nHost db\n  HostName 10.0.0.2\n#: Group lab\nHost box\n  HostName 10.0.1.1\n";

fn rows(list: &ServerList) -> Vec<String> {
    list.visible_items()
        .iter()
        .map(|item| if item.is_group { format!("[{}]", item.group) } else { item.host.clone() })
        .collect()
}

fn flags(list: &ServerList) -> Vec<bool> {
    list.items().iter().filter(|item| item.is_group).map(|item| list.is_group_expanded(&item.group)).collect()
}

fn check_cursor(list: &ServerList) {
    let len = list.visible_items().len();
    match list.selected_index() {
        None => assert_eq!(len, 0),
        Some(row) => assert!(row < len),
    }
}

#[test]
fn example_two_hosts_in_the_other_group() {
    let mut list = ServerList::from_ssh_config("Host a\nHostName 10.0.0.1\nHost b");
    assert_eq!(list.items().len(), 2);
    assert!(list.items().iter().all(|item| !item.is_group && item.group == "other"));
    assert_eq!(list.items()[0].host, "a");
    assert_eq!(list.items()[1].host, "b");
    assert_eq!(rows(&list), vec!["a", "b"]);
    list.filter_items("a");
    assert_eq!(rows(&list), vec!["a"]);
    assert_eq!(list.filtered_items(), &vec![0]);
    assert_eq!(list.selected_index(), Some(0));
    list.filter_items("z");
    assert!(list.visible_items().is_empty());
    assert!(list.filtered_items().is_empty());
    assert_eq!(list.selected_index(), None);
    assert!(list.selected().is_none());
}

#[test]
fn example_collapsed_group_shows_only_its_header() {
    let mut list = ServerList::from_ssh_config("#: Group prod\nHost web\nHost db\n");
    assert_eq!(rows(&list), vec!["[prod]", "web", "db"]);
    assert_eq!(list.selected_index(), Some(0));
    assert!(list.is_group_expanded("prod"));
    list.toggle_group();
    assert!(!list.is_group_expanded("prod"));
    assert_eq!(rows(&list), vec!["[prod]"]);
    assert_eq!(list.selected_index(), Some(0));
}

#[test]
fn loaded_list_shows_everything_with_first_row_selected() {
    let list = ServerList::from_ssh_config(GROUPED);
    assert_eq!(rows(&list), vec!["[prod]", "web", "db", "[lab]", "box"]);
    assert_eq!(list.filtered_items(), &vec![0, 1, 2, 3, 4]);
    assert_eq!(list.visible_indices(), vec![0, 1, 2, 3, 4]);
    assert_eq!(list.selected_index(), Some(0));
    assert_eq!(flags(&list), vec![true, true]);
    assert!(list.selected().unwrap().is_group);
}

#[test]
fn empty_list_has_no_selection() {
    let mut list = ServerList::from_ssh_config("");
    assert!(list.items().is_empty());
    assert_eq!(list.selected_index(), None);
    assert!(list.selected().is_none());
    list.select_next();
    list.select_previous();
    list.select_first();
    list.select_last();
    list.select(3);
    list.toggle_group();
    list.toggle_all_groups();
    list.filter_items("x");
    list.reset_filter();
    assert_eq!(list.selected_index(), None);
    assert!(list.visible_items().is_empty());
    assert_eq!(list.get_index_at_y(0), None);
    assert_eq!(list.max_host_len(), 0);
    assert!(list.visible_labels().is_empty());
    let other = ServerList::default();
    assert!(other.items().is_empty());
    assert_eq!(other.selected_index(), None);
}

#[test]
fn missing_file_gives_an_empty_list() {
    let (list, source) = ServerList::load(None, "me");
    assert_eq!(source, ConfigSource::DefaultedEmpty);
    assert!(list.items().is_empty());
    let (list, source) = ServerList::load(Some("Host a\n"), "me");
    assert_eq!(source, ConfigSource::Loaded);
    assert_eq!(list.items().len(), 1);
    assert_eq!(list.items()[0].username, "me");
    let (list, source) = ServerList::load(Some(""), "me");
    assert_eq!(source, ConfigSource::Loaded);
    assert!(list.items().is_empty());
}

#[test]
fn filter_keeps_store_order() {
    let mut list = ServerList::from_ssh_config("Host zeta-b\nHost b\nHost alpha\nHost beta\n");
    list.filter_items("b");
    assert_eq!(rows(&list), vec!["zeta-b", "b", "beta"]);
    assert_eq!(list.filtered_items(), &vec![0, 1, 3]);
}

#[test]
fn filter_is_case_blind_and_fuzzy() {
    let mut list = ServerList::from_ssh_config("Host WebServer\nHost database\nHost wbs\n");
    list.filter_items("wbs");
    assert_eq!(rows(&list), vec!["WebServer", "wbs"]);
    list.filter_items("WS");
    assert_eq!(rows(&list), vec!["WebServer", "wbs"]);
    list.filter_items("dtb");
    assert_eq!(rows(&list), vec!["database"]);
}

#[test]
fn filter_hides_group_headers() {
    let mut list = ServerList::from_ssh_config(GROUPED);
    list.filter_items("b");
    assert_eq!(rows(&list), vec!["web", "db", "box"]);
    assert_eq!(list.selected_index(), Some(0));
}

#[test]
fn filter_resets_the_cursor_to_the_first_row() {
    let mut list = ServerList::from_ssh_config(GROUPED);
    list.select_last();
    assert_eq!(list.selected_index(), Some(4));
    list.filter_items("web");
    assert_eq!(list.selected_index(), Some(0));
    assert_eq!(list.selected().unwrap().host, "web");
}

#[test]
fn fruitless_filter_leaves_no_selection_and_does_not_panic() {
    let mut list = ServerList::from_ssh_config(GROUPED);
    list.select(2);
    list.filter_items("qqq");
    assert!(list.visible_items().is_empty());
    assert_eq!(list.selected_index(), None);
    assert!(list.selected().is_none());
    list.select_next();
    list.select_previous();
    list.toggle_group();
    check_cursor(&list);
    list.filter_items("");
    assert_eq!(list.selected_index(), Some(0));
}

#[test]
fn cursor_position_survives_a_fruitless_filter() {
    let mut list = ServerList::from_ssh_config(GROUPED);
    list.select(2);
    list.filter_items("qqq");
    list.toggle_all_groups();
    assert_eq!(rows(&list), vec!["[prod]", "[lab]"]);
    assert_eq!(list.selected_index(), Some(1));
}

#[test]
fn reset_filter_restores_the_loaded_indices() {
    let mut list = ServerList::from_ssh_config(GROUPED);
    let loaded = list.filtered_items().clone();
    for query in ["w", "b", "zzz", "", "box", "prod"] {
        list.filter_items(query);
    }
    list.reset_filter();
    assert_eq!(list.filtered_items(), &loaded);
    assert_eq!(list.filtered_items(), &vec![0, 1, 2, 3, 4]);
    assert_eq!(list.selected_index(), Some(0));
}

#[test]
fn empty_query_is_idempotent() {
    let mut list = ServerList::from_ssh_config(GROUPED);
    list.filter_items("b");
    list.filter_items("");
    let once = rows(&list);
    let once_indices = list.filtered_items().clone();
    list.filter_items("");
    assert_eq!(rows(&list), once);
    assert_eq!(list.filtered_items(), &once_indices);
    assert_eq!(once, vec!["[prod]", "web", "db", "[lab]", "box"]);
}

#[test]
fn toggling_a_group_twice_restores_the_rows() {
    let mut list = ServerList::from_ssh_config(GROUPED);
    list.select(3);
    let before = rows(&list);
    list.toggle_group();
    assert_eq!(rows(&list), vec!["[prod]", "web", "db", "[lab]"]);
    assert_eq!(flags(&list), vec![true, false]);
    assert_eq!(list.selected_index(), Some(3));
    list.toggle_group();
    assert_eq!(rows(&list), before);
    assert_eq!(flags(&list), vec![true, true]);
}

#[test]
fn toggle_keeps_the_row_number_not_the_entry() {
    let mut list = ServerList::from_ssh_config("#: Group a\nHost h1\nHost h2\n#: Group a\nHost h3\n#: Group b\nHost h4\n");
    assert_eq!(rows(&list), vec!["[a]", "h1", "h2", "[a]", "h3", "[b]", "h4"]);
    list.select(3);
    list.toggle_group();
    assert_eq!(rows(&list), vec!["[a]", "[a]", "[b]", "h4"]);
    assert_eq!(list.selected_index(), Some(3));
    assert_eq!(list.selected().unwrap().host, "h4");
    list.toggle_group();
    assert_eq!(rows(&list), vec!["[a]", "[a]", "[b]", "h4"]);
}

#[test]
fn toggle_on_a_host_does_nothing() {
    let mut list = ServerList::from_ssh_config(GROUPED);
    list.select(1);
    list.toggle_group();
    assert_eq!(rows(&list), vec!["[prod]", "web", "db", "[lab]", "box"]);
    assert_eq!(flags(&list), vec![true, true]);
    assert_eq!(list.selected_index(), Some(1));
}

#[test]
fn collapsed_group_hides_its_hosts_from_a_filter() {
    let mut list = ServerList::from_ssh_config(GROUPED);
    list.toggle_group();
    assert!(!list.is_group_expanded("prod"));
    list.filter_items("b");
    assert_eq!(list.filtered_items(), &vec![1, 2, 4]);
    assert_eq!(rows(&list), vec!["box"]);
    assert_eq!(list.selected_index(), Some(0));
    assert_eq!(list.selected().unwrap().host, "box");
    list.filter_items("web");
    assert_eq!(list.filtered_items(), &vec![1]);
    assert!(list.visible_items().is_empty());
    assert_eq!(list.selected_index(), None);
    assert!(list.selected().is_none());
    list.filter_items("");
    assert_eq!(rows(&list), vec!["[prod]", "[lab]", "box"]);
}

#[test]
fn hosts_before_the_first_header_follow_the_other_group() {
    let mut list = ServerList::from_ssh_config("Host early\n#: Group other\nHost late\n");
    assert_eq!(rows(&list), vec!["early", "[other]", "late"]);
    list.select(1);
    list.toggle_group();
    assert_eq!(rows(&list), vec!["[other]"]);
    assert_eq!(list.selected_index(), Some(0));
    list.toggle_group();
    assert_eq!(rows(&list), vec!["early", "[other]", "late"]);
}

#[test]
fn no_visible_host_belongs_to_a_collapsed_group() {
    let mut list = ServerList::from_ssh_config(GROUPED);
    for step in 0..40usize {
        match step % 8 {
            0 => list.select(step % 5),
            1 => list.toggle_group(),
            2 => list.filter_items("b"),
            3 => list.select(3),
            4 => list.toggle_group(),
            5 => list.filter_items("o"),
            6 => list.toggle_all_groups(),
            _ => list.reset_filter(),
        }
        for item in list.visible_items() {
            assert!(item.is_group || list.is_group_expanded(&item.group));
        }
        check_cursor(&list);
    }
}

#[test]
fn select_is_clamped_after_a_collapse() {
    let mut list = ServerList::from_ssh_config(GROUPED);
    list.toggle_group();
    assert_eq!(rows(&list), vec!["[prod]", "[lab]", "box"]);
    list.select(5);
    assert_eq!(list.selected_index(), Some(2));
    list.toggle_group();
    assert_eq!(rows(&list), vec!["[prod]", "[lab]", "box"]);
}

#[test]
fn toggle_all_collapses_then_expands() {
    let mut list = ServerList::from_ssh_config(GROUPED);
    list.select(4);
    list.toggle_all_groups();
    assert_eq!(flags(&list), vec![false, false]);
    assert_eq!(rows(&list), vec!["[prod]", "[lab]"]);
    assert_eq!(list.selected_index(), Some(1));
    list.toggle_all_groups();
    assert_eq!(flags(&list), vec![true, true]);
    assert_eq!(rows(&list), vec!["[prod]", "web", "db", "[lab]", "box"]);
    assert_eq!(list.selected_index(), Some(1));
}

#[test]
fn toggle_all_twice_loses_mixed_flags() {
    let mut list = ServerList::from_ssh_config(GROUPED);
    list.toggle_group();
    assert_eq!(flags(&list), vec![false, true]);
    list.toggle_all_groups();
    assert_eq!(flags(&list), vec![true, true]);
    list.toggle_all_groups();
    assert_eq!(flags(&list), vec![false, false]);
}

#[test]
fn toggle_all_drops_the_filter() {
    let mut list = ServerList::from_ssh_config(GROUPED);
    list.filter_items("web");
    list.toggle_all_groups();
    assert_eq!(list.filtered_items(), &vec![0, 1, 2, 3, 4]);
    assert_eq!(rows(&list), vec!["[prod]", "[lab]"]);
}

#[test]
fn groups_without_header_count_as_expanded() {
    let list = ServerList::from_ssh_config(GROUPED);
    assert!(list.is_group_expanded("nowhere"));
    assert!(list.is_group_expanded("other"));
}

#[test]
fn cursor_moves_are_clamped() {
    let mut list = ServerList::from_ssh_config(GROUPED);
    list.select_previous();
    assert_eq!(list.selected_index(), Some(0));
    list.select_next();
    assert_eq!(list.selected_index(), Some(1));
    list.select_last();
    assert_eq!(list.selected_index(), Some(4));
    list.select_next();
    assert_eq!(list.selected_index(), Some(4));
    list.select_previous();
    assert_eq!(list.selected_index(), Some(3));
    list.select_first();
    assert_eq!(list.selected_index(), Some(0));
    list.select(2);
    assert_eq!(list.selected_index(), Some(2));
    list.select(usize::MAX);
    assert_eq!(list.selected_index(), Some(4));
}

#[test]
fn cursor_stays_in_range_under_every_operation() {
    let mut list = ServerList::from_ssh_config(GROUPED);
    check_cursor(&list);
    for step in 0..60usize {
        match step % 10 {
            0 => list.select_last(),
            1 => list.toggle_group(),
            2 => list.filter_items("b"),
            3 => list.select_next(),
            4 => list.toggle_all_groups(),
            5 => list.select(step),
            6 => list.filter_items("nothing"),
            7 => list.select_previous(),
            8 => list.reset_filter(),
            _ => list.select_first(),
        }
        check_cursor(&list);
    }
}

#[test]
fn offsets_map_to_visible_rows() {
    let mut list = ServerList::from_ssh_config(GROUPED);
    assert_eq!(list.get_index_at_y(0), Some(0));
    assert_eq!(list.get_index_at_y(4), Some(4));
    assert_eq!(list.get_index_at_y(5), None);
    list.toggle_group();
    assert_eq!(list.get_index_at_y(2), Some(2));
    assert_eq!(list.get_index_at_y(3), None);
    list.select(list.get_index_at_y(2).unwrap());
    assert_eq!(list.selected().unwrap().host, "box");
    assert_eq!(list.selected_position(), Some(4));
}

#[test]
fn selected_is_the_first_entry_with_the_same_key() {
    let mut list = ServerList::from_ssh_config("Host twin\nHostName first\nHost twin\nHostName second\n");
    list.select(1);
    assert_eq!(list.visible_items()[1].ip, "second");
    assert_eq!(list.selected().unwrap().ip, "first");
    assert_eq!(list.selected_position(), Some(0));
}

#[test]
fn widest_host_label_counts_columns() {
    let list = ServerList::from_ssh_config("Host ab\nHost 主机\nHost x\n");
    assert_eq!(list.max_host_len(), 4);
    let list = ServerList::from_ssh_config("#: Group a-long-group-name\nHost abc\n");
    assert_eq!(list.max_host_len(), 3);
    assert_eq!(largest_of(&vec![3, 9, 2]), 9);
    assert_eq!(largest_of(&vec![]), 0);
}

#[test]
fn aligned_rows() {
    let host = ServerItem::new("other", false, "ab", "10.0.0.1", "u", 22, "k", None);
    assert_eq!(host.to_string_aligned(5, true), "ab    10.0.0.1");
    assert_eq!(host.to_string_aligned(2, false), "ab 10.0.0.1");
    let grouped = ServerItem::new("prod", false, "主机", "10.0.0.2", "u", 22, "k", None);
    assert_eq!(grouped.to_string_aligned(6, true), "  主机   10.0.0.2");
    let header = ServerItem::new("prod", true, "", "", "", 0, "", None);
    assert_eq!(header.to_string_aligned(6, true), "▼ prod");
    assert_eq!(header.to_string_aligned(6, false), "▶ prod");
    assert_eq!(grouped.to_string_fitted(4, true), Some("  主机 10.0.0.2".to_string()));
    assert_eq!(grouped.to_string_fitted(3, true), None);
    assert_eq!(host.to_string_fitted(1, true), None);
    assert_eq!(header.to_string_fitted(0, false), Some("▶ prod".to_string()));
}

#[test]
fn visible_labels_are_padded_to_the_widest_host() {
    let mut list = ServerList::from_ssh_config("Host a\nHostName 1.1.1.1\n#: Group prod\nHost website\nHostName 2.2.2.2\nHost db\nHostName 3.3.3.3\n");
    assert_eq!(
        list.visible_labels(),
        vec!["a       1.1.1.1", "▼ prod", "  website 2.2.2.2", "  db      3.3.3.3"]
    );
    list.select(1);
    list.toggle_group();
    assert_eq!(list.visible_labels(), vec!["a       1.1.1.1", "▶ prod"]);
}

#[test]
fn scores_decide_what_is_kept() {
    let mut list = ServerList::from_ssh_config("Host a\nHost b\nHost c\nHost d\n");
    list.select(3);
    assert!(!list.apply_scores(&vec![Some(5), None, Some(7)]));
    assert!(!list.apply_scores(&vec![Some(5), None, Some(7), None, Some(1)]));
    assert_eq!(list.filtered_items(), &vec![0, 1, 2, 3]);
    assert_eq!(list.selected_index(), Some(3));
    assert!(list.apply_scores(&vec![Some(5), None, Some(0), Some(1)]));
    assert_eq!(list.filtered_items(), &vec![0, 3]);
    assert_eq!(list.selected_index(), Some(0));
    list.select(1);
    assert!(list.apply_scores(&vec![Some(-3), None, Some(0), None]));
    assert!(list.filtered_items().is_empty());
    assert_eq!(list.selected_index(), None);
    assert!(ssh_hosts::fuzzy::score_hits(Some(1)));
    assert!(!ssh_hosts::fuzzy::score_hits(Some(0)));
    assert!(!ssh_hosts::fuzzy::score_hits(Some(-1)));
    assert!(!ssh_hosts::fuzzy::score_hits(None));
    assert_eq!(ssh_hosts::fuzzy::hits(&vec![None, Some(2), Some(0), Some(9)]), vec![1, 3]);
}
