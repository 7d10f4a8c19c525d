use tmpo::context::{build, collisions, reserved, Context, Identity};

fn pairs(list: &[(&str, &str)]) -> Vec<(String, String)> {
    list.iter().map(|(k, v)| (k.to_string(), v.to_string())).collect()
}

fn text(s: &str) -> String {
    s.to_string()
}

#[test]
fn reserved_names() {
    assert!(reserved(&text("name")));
    assert!(reserved(&text("repository")));
    assert!(reserved(&text("username")));
    assert!(reserved(&text("email")));
    assert!(!reserved(&text("Name")));
    assert!(!reserved(&text("names")));
    assert!(!reserved(&text("")));
}

#[test]
fn build_keeps_fields() {
    let identity = Identity { username: Some(text("ada")), email: None };
    let context = build(text("demo"), Some(text("default")), &Vec::new(), identity);
    assert_eq!(context.name, "demo");
    assert_eq!(context.repository, Some(text("default")));
    assert_eq!(context.username, Some(text("ada")));
    assert_eq!(context.email, None);
    assert!(context.values.is_empty());
}

#[test]
fn build_leaves_unset_identity_unset() {
    let identity = Identity { username: None, email: Some(String::new()) };
    let context = build(text("demo"), None, &Vec::new(), identity);
    assert_eq!(context.username, None);
    assert_eq!(context.email, Some(String::new()));
    assert_eq!(context.repository, None);
}

#[test]
fn build_drops_reserved_keys() {
    let identity = Identity { username: None, email: None };
    let values = pairs(&[("name", "x"), ("license", "MIT"), ("email", "e"), ("year", "2020")]);
    let context = build(text("demo"), None, &values, identity);
    assert_eq!(context.values, pairs(&[("license", "MIT"), ("year", "2020")]));
    assert_eq!(context.name, "demo");
    assert_eq!(context.email, None);
}

#[test]
fn build_keeps_the_later_value_of_a_key() {
    let identity = Identity { username: None, email: None };
    let values = pairs(&[("a", "1"), ("b", "2"), ("a", "3")]);
    let context = build(text("demo"), None, &values, identity);
    assert_eq!(context.values, pairs(&[("a", "3"), ("b", "2")]));
    assert_eq!(context.lookup(&text("a")), Some(&text("3")));
    assert_eq!(context.lookup(&text("b")), Some(&text("2")));
}

#[test]
fn collisions_lists_reserved_keys_in_order() {
    let values = pairs(&[("email", "e"), ("k", "v"), ("name", "x"), ("email", "f")]);
    assert_eq!(collisions(&values), vec![text("email"), text("name"), text("email")]);
    assert!(collisions(&pairs(&[("k", "v")])).is_empty());
    assert!(collisions(&Vec::new()).is_empty());
}

#[test]
fn lookup_finds_fields_and_pairs() {
    let context = Context {
        name: text("demo"),
        repository: None,
        username: Some(text("ada")),
        email: None,
        values: pairs(&[("k", "v"), ("repository", "r")]),
    };
    assert_eq!(context.lookup(&text("name")), Some(&text("demo")));
    assert_eq!(context.lookup(&text("username")), Some(&text("ada")));
    assert_eq!(context.lookup(&text("email")), None);
    assert_eq!(context.lookup(&text("repository")), None);
    assert_eq!(context.lookup(&text("k")), Some(&text("v")));
    assert_eq!(context.lookup(&text("missing")), None);
}
