use envdoter::entry::{EnvVar, ParseError};
use envdoter::envfile::{add_to_env_file, arrange, read_env_file, render_groups, sort_env_file};

fn var(key: &str, value: &str) -> EnvVar {
    EnvVar { key: key.to_string(), value: value.to_string() }
}

#[test]
fn a_line_is_split_at_its_first_equals_sign() {
    assert_eq!(EnvVar::from_str("KEY=VALUE"), Ok(var("KEY", "VALUE")));
    assert_eq!(EnvVar::from_str("URL=http://h/?a=b&c=d"), Ok(var("URL", "http://h/?a=b&c=d")));
    assert_eq!(EnvVar::from_str("EMPTY="), Ok(var("EMPTY", "")));
    assert_eq!(EnvVar::from_str("=x"), Ok(var("", "x")));
    assert_eq!(EnvVar::from_str(" K = v "), Ok(var(" K ", " v ")));
    assert_eq!(EnvVar::from_str("ÄÖ=ü=ß"), Ok(var("ÄÖ", "ü=ß")));
}

#[test]
fn a_line_without_equals_sign_is_an_error() {
    assert_eq!(EnvVar::from_str("NOVALUE"), Err(ParseError::MissingDelimiter));
    assert_eq!(EnvVar::from_str(""), Err(ParseError::MissingDelimiter));
}

#[test]
fn a_variable_is_written_as_key_equals_value() {
    assert_eq!(var("KEY", "VALUE").to_string(), "KEY=VALUE");
    assert_eq!(var("K", "").to_string(), "K=");
    assert_eq!(var("K", "a=b").to_string(), "K=a=b");
}

#[test]
fn duplicate_keeps_key_and_value() {
    assert_eq!(var("K", "v").duplicate(), var("K", "v"));
}

#[test]
fn reading_skips_blank_lines() {
    let vars = read_env_file("A=1\n\n  \t \nB=2\n\u{3000}\nC=3").unwrap();
    assert_eq!(vars, vec![var("A", "1"), var("B", "2"), var("C", "3")]);
}

#[test]
fn reading_keeps_the_order_and_the_duplicates() {
    let vars = read_env_file("B=1\nA=2\nB=3\n").unwrap();
    assert_eq!(vars, vec![var("B", "1"), var("A", "2"), var("B", "3")]);
}

#[test]
fn reading_takes_carriage_return_and_line_feed_as_a_line_end() {
    let vars = read_env_file("A=1\r\nB=2\r\n\r\nC=3\r\n").unwrap();
    assert_eq!(vars, vec![var("A", "1"), var("B", "2"), var("C", "3")]);
}

#[test]
fn reading_keeps_a_carriage_return_that_no_line_feed_follows() {
    let vars = read_env_file("A=1\rB\nC=2\r").unwrap();
    assert_eq!(vars, vec![var("A", "1\rB"), var("C", "2\r")]);
    let vars = read_env_file("A=1\r\r\n").unwrap();
    assert_eq!(vars, vec![var("A", "1\r")]);
}

#[test]
fn reading_agrees_with_the_lines_of_std() {
    let text = "A=1\r\n\nB= x \n \r\nC=\r\r\nD=4\r";
    let want: Vec<EnvVar> = text
        .lines()
        .filter(|line| !line.trim().is_empty())
        .map(|line| {
            let (key, value) = line.split_once("=").unwrap();
            var(key, value)
        })
        .collect();
    assert_eq!(read_env_file(text).unwrap(), want);
}

#[test]
fn reading_nothing_gives_no_variables() {
    assert_eq!(read_env_file(""), Ok(Vec::new()));
    assert_eq!(read_env_file("\n\n"), Ok(Vec::new()));
    assert_eq!(read_env_file("  \n\t\r\n "), Ok(Vec::new()));
}

#[test]
fn reading_a_line_without_equals_sign_is_an_error() {
    assert_eq!(read_env_file("A=1\nBROKEN\nC=3\n"), Err(ParseError::MissingDelimiter));
    assert_eq!(read_env_file("BROKEN"), Err(ParseError::MissingDelimiter));
    assert_eq!(read_env_file("# comment\nA=1\n"), Err(ParseError::MissingDelimiter));
}

#[test]
fn sorting_merges_lone_prefixes_into_one_group() {
    let sorted = sort_env_file("B_X=1\nA_Y=2\nSOLO_Z=3\nC=4\n");
    assert_eq!(sorted, Ok(Some("A_Y=2\nB_X=1\nC=4\nSOLO_Z=3\n\n".to_string())));
}

#[test]
fn sorting_puts_the_loose_group_first_and_shared_prefixes_after_it() {
    let sorted = sort_env_file("APP_NAME=x\nAPP_PORT=y\nDB_HOST=z\n");
    assert_eq!(sorted, Ok(Some("DB_HOST=z\n\nAPP_NAME=x\nAPP_PORT=y\n\n".to_string())));
}

#[test]
fn sorting_a_file_without_variables_leaves_it() {
    assert_eq!(sort_env_file(""), Ok(None));
    assert_eq!(sort_env_file("\n  \n\r\n"), Ok(None));
}

#[test]
fn sorting_a_broken_file_is_an_error() {
    assert_eq!(sort_env_file("A=1\nnope\n"), Err(ParseError::MissingDelimiter));
}

#[test]
fn sorting_twice_changes_nothing_more() {
    let texts = [
        "B_X=1\nA_Y=2\nSOLO_Z=3\nC=4\n",
        "APP_NAME=x\nAPP_PORT=y\nDB_HOST=z\n",
        "Z_2=b\nZ_1=a\n\nA=3\nZ_1=c\nY_9= spaced \r\nA=1",
        "K=v=w\n=odd\n_X=1\n_Y=2\n",
    ];
    for text in texts.iter() {
        let once = sort_env_file(text).unwrap().unwrap();
        let twice = sort_env_file(&once).unwrap().unwrap();
        assert_eq!(twice, once);
    }
}

#[test]
fn sorting_keeps_every_line_of_a_repeated_key_in_its_order() {
    let sorted = sort_env_file("K=second\nA=1\nK=first\nK=third\n");
    assert_eq!(sorted, Ok(Some("A=1\nK=second\nK=first\nK=third\n\n".to_string())));
}

#[test]
fn sorting_counts_a_repeated_key_twice_for_its_prefix() {
    let sorted = sort_env_file("P_K=1\nQ=2\nP_K=0\n");
    assert_eq!(sorted, Ok(Some("Q=2\n\nP_K=1\nP_K=0\n\n".to_string())));
}

#[test]
fn sorting_drops_blank_lines_and_line_ends_of_the_input() {
    let sorted = sort_env_file("\n\nB=2\r\n\n\nA=1");
    assert_eq!(sorted, Ok(Some("A=1\nB=2\n\n".to_string())));
}

#[test]
fn arranging_groups_variables_by_their_keys() {
    let vars = vec![var("DB_B", "1"), var("X", "2"), var("DB_A", "3"), var("X", "0")];
    let groups = arrange(&vars);
    assert_eq!(
        groups,
        vec![vec![var("X", "2"), var("X", "0")], vec![var("DB_A", "3"), var("DB_B", "1")]]
    );
}

#[test]
fn arranging_nothing_gives_no_group() {
    assert_eq!(arrange(&Vec::new()), Vec::<Vec<EnvVar>>::new());
}

#[test]
fn rendering_puts_an_empty_line_behind_each_group() {
    let groups = vec![vec![var("A", "1"), var("B", "2")], vec![var("C_1", "3")]];
    assert_eq!(render_groups(&groups), "A=1\nB=2\n\nC_1=3\n\n");
    assert_eq!(render_groups(&Vec::new()), "");
    assert_eq!(render_groups(&vec![Vec::new()]), "\n");
}

#[test]
fn adding_appends_one_line() {
    assert_eq!(add_to_env_file("A=1\n", "B", "2"), "A=1\nB=2\n");
    assert_eq!(add_to_env_file("", "B", "2"), "B=2\n");
    assert_eq!(add_to_env_file("A=1", "B", ""), "A=1B=\n");
}

#[test]
fn a_carriage_return_at_the_end_of_a_value_does_not_outlast_a_second_sort() {
    let once = sort_env_file("A=1\r").unwrap().unwrap();
    assert_eq!(once, "A=1\r\n\n");
    let twice = sort_env_file(&once).unwrap().unwrap();
    assert_eq!(twice, "A=1\n\n");
}

#[test]
fn sorting_orders_groups_and_lines_of_a_larger_file() {
    let text = "DB_USER=u\nAPP_PORT=80\nZED=z\nDB_HOST=h\n\nAPP_NAME=n\nalpha=a\nLONE_WOLF=w\n";
    let want = "LONE_WOLF=w\nZED=z\nalpha=a\n\nAPP_NAME=n\nAPP_PORT=80\n\nDB_HOST=h\nDB_USER=u\n\n";
    assert_eq!(sort_env_file(text), Ok(Some(want.to_string())));
}

#[test]
fn what_is_written_reads_back() {
    let groups = vec![
        vec![var("", "empty key"), var("K", ""), var("Z", "a=b=c")],
        vec![var("P_1", " padded "), var("P_2", "\ttab")],
    ];
    let text = render_groups(&groups);
    let flat: Vec<EnvVar> = groups.into_iter().flatten().collect();
    assert_eq!(read_env_file(&text), Ok(flat));
}
