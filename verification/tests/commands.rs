use envdoter::command::{assignment, names_listed};

fn names(items: &[&str]) -> Vec<String> {
    items.iter().map(|s| s.to_string()).collect()
}

fn pair(name: &str, value: &str) -> Option<(String, String)> {
    Some((name.to_string(), value.to_string()))
}

#[test]
fn a_given_value_is_taken_as_it_is() {
    assert_eq!(assignment("NAME", Some("value")), pair("NAME", "value"));
    assert_eq!(assignment("A=B", Some("c=d")), pair("A=B", "c=d"));
    assert_eq!(assignment("", Some("")), pair("", ""));
}

#[test]
fn a_name_alone_states_name_and_value() {
    assert_eq!(assignment("NAME=value", None), pair("NAME", "value"));
    assert_eq!(assignment("NAME=", None), pair("NAME", ""));
    assert_eq!(assignment("=value", None), pair("", "value"));
    assert_eq!(assignment("É=日本", None), pair("É", "日本"));
}

#[test]
fn the_value_ends_at_a_second_equals_sign() {
    assert_eq!(assignment("A=b=c", None), pair("A", "b"));
    assert_eq!(assignment("A==c", None), pair("A", ""));
}

#[test]
fn a_name_alone_without_equals_sign_states_nothing() {
    assert_eq!(assignment("NAME", None), None);
    assert_eq!(assignment("", None), None);
}

#[test]
fn without_a_lead_all_names_are_listed() {
    let all = names(&["B", "A_1", "A_2"]);
    assert_eq!(names_listed(&all, None), all);
}

#[test]
fn with_a_lead_the_names_that_begin_with_it_are_listed() {
    let all = names(&["APP_NAME", "DB_HOST", "APP", "AP", "XAPP_1", "APP_PORT"]);
    assert_eq!(names_listed(&all, Some("APP")), names(&["APP_NAME", "APP", "APP_PORT"]));
    assert_eq!(names_listed(&all, Some("")), all);
    assert_eq!(names_listed(&all, Some("NONE")), Vec::<String>::new());
    assert_eq!(names_listed(&Vec::new(), Some("A")), Vec::<String>::new());
}
