use envdoter::group::{group_lens, group_places, key_chars, prefix_len, sort_by_prefix};

fn keys(items: &[&str]) -> Vec<String> {
    items.iter().map(|s| s.to_string()).collect()
}

fn chars(text: &str) -> Vec<char> {
    text.chars().collect()
}

#[test]
fn lone_prefixes_merge_into_one_group() {
    let groups = sort_by_prefix(keys(&["B_X", "A_Y", "SOLO_Z", "C"]));
    assert_eq!(groups, vec![keys(&["A_Y", "B_X", "C", "SOLO_Z"])]);
}

#[test]
fn shared_prefix_forms_its_own_group() {
    let groups = sort_by_prefix(keys(&["APP_NAME", "APP_PORT", "DB_HOST"]));
    assert_eq!(groups, vec![keys(&["DB_HOST"]), keys(&["APP_NAME", "APP_PORT"])]);
}

#[test]
fn no_keys_no_groups() {
    let groups = sort_by_prefix(Vec::new());
    assert_eq!(groups, Vec::<Vec<String>>::new());
}

#[test]
fn one_key_is_one_group() {
    assert_eq!(sort_by_prefix(keys(&["ONLY_ONE"])), vec![keys(&["ONLY_ONE"])]);
}

#[test]
fn without_loose_keys_the_empty_group_is_left_out() {
    let groups = sort_by_prefix(keys(&["A_Y", "A_X"]));
    assert_eq!(groups, vec![keys(&["A_X", "A_Y"])]);
}

#[test]
fn keys_without_underscore_share_the_empty_group() {
    let groups = sort_by_prefix(keys(&["D", "C"]));
    assert_eq!(groups, vec![keys(&["C", "D"])]);
}

#[test]
fn leading_underscore_means_empty_prefix() {
    let groups = sort_by_prefix(keys(&["_B", "Z_1", "_A", "Z_0"]));
    assert_eq!(groups, vec![keys(&["_A", "_B"]), keys(&["Z_0", "Z_1"])]);
}

#[test]
fn prefix_ends_at_the_first_underscore() {
    let groups = sort_by_prefix(keys(&["A_B_C", "A_B_D", "A_X", "AB_1"]));
    assert_eq!(groups, vec![keys(&["AB_1"]), keys(&["A_B_C", "A_B_D", "A_X"])]);
}

#[test]
fn a_key_given_twice_comes_out_twice() {
    let groups = sort_by_prefix(keys(&["X_1", "X_1", "Q"]));
    assert_eq!(groups, vec![keys(&["Q"]), keys(&["X_1", "X_1"])]);
}

#[test]
fn a_key_given_twice_counts_twice_in_the_census() {
    let groups = sort_by_prefix(keys(&["SOLO_A", "SOLO_A"]));
    assert_eq!(groups, vec![keys(&["SOLO_A", "SOLO_A"])]);
    let groups = sort_by_prefix(keys(&["SOLO_A", "SOLO_A", "B"]));
    assert_eq!(groups, vec![keys(&["B"]), keys(&["SOLO_A", "SOLO_A"])]);
}

#[test]
fn groups_and_members_rise() {
    let input = keys(&[
        "DB_USER", "APP_PORT", "ZED", "DB_HOST", "CACHE_TTL", "APP_NAME", "DB_PASS", "APP_ENV",
        "alpha", "CACHE_SIZE", "LONE_WOLF",
    ]);
    let groups = sort_by_prefix(input.clone());
    assert_eq!(
        groups,
        vec![
            keys(&["LONE_WOLF", "ZED", "alpha"]),
            keys(&["APP_ENV", "APP_NAME", "APP_PORT"]),
            keys(&["CACHE_SIZE", "CACHE_TTL"]),
            keys(&["DB_HOST", "DB_PASS", "DB_USER"]),
        ]
    );
    for group in &groups {
        assert!(!group.is_empty());
        for pair in group.windows(2) {
            assert!(pair[0] <= pair[1]);
        }
    }
    let mut all: Vec<String> = groups.into_iter().flatten().collect();
    let mut given = input;
    all.sort();
    given.sort();
    assert_eq!(all, given);
}

#[test]
fn group_count_is_kept_prefixes_and_one_for_loose_keys() {
    // kept prefixes: A, B; loose keys: C_1 and D
    let groups = sort_by_prefix(keys(&["A_1", "B_1", "C_1", "A_2", "B_2", "D"]));
    assert_eq!(groups.len(), 3);
    // kept prefixes: A, B; no loose key
    let groups = sort_by_prefix(keys(&["A_1", "B_1", "A_2", "B_2"]));
    assert_eq!(groups.len(), 2);
}

#[test]
fn order_is_by_code_point_as_std_orders_strings() {
    let input =
        keys(&["é", "z", "Z", "a", "~", "日本", "e\u{301}", "\u{10FFFF}", "\u{FFFF}", ""]);
    let groups = sort_by_prefix(input.clone());
    let mut sorted = input;
    sorted.sort();
    assert_eq!(groups, vec![sorted]);
}

#[test]
fn prefix_len_counts_up_to_the_underscore() {
    assert_eq!(prefix_len(&chars("APP_NAME")), 3);
    assert_eq!(prefix_len(&chars("_NAME")), 0);
    assert_eq!(prefix_len(&chars("NAME")), 0);
    assert_eq!(prefix_len(&chars("")), 0);
    assert_eq!(prefix_len(&chars("é_x")), 1);
}

#[test]
fn group_lens_drop_lone_prefixes() {
    let all = key_chars(&keys(&["APP_NAME", "DB_HOST", "APP_PORT", "PLAIN"]));
    assert_eq!(group_lens(&all), vec![3, 0, 3, 0]);
}

#[test]
fn group_places_keep_equal_keys_in_given_order() {
    let all = key_chars(&keys(&["K_1", "A", "K_1", "K_0", "A"]));
    assert_eq!(group_places(&all), vec![vec![1, 4], vec![3, 0, 2]]);
}
