use tmpo::context::{build, Context, Identity};
use tmpo::render::{render_chars, render_content, render_text};
use tmpo::text::{chars_of, same_text, string_of, string_of_range};

fn pairs(list: &[(&str, &str)]) -> Vec<(String, String)> {
    list.iter().map(|(k, v)| (k.to_string(), v.to_string())).collect()
}

fn demo() -> Context {
    Context {
        name: "demo".to_string(),
        repository: Some("default".to_string()),
        username: Some("ada".to_string()),
        email: None,
        values: pairs(&[("license", "MIT"), ("empty", "")]),
    }
}

#[test]
fn chars_and_back() {
    assert_eq!(chars_of("a{é}"), vec!['a', '{', 'é', '}']);
    assert_eq!(chars_of(""), Vec::<char>::new());
    assert_eq!(string_of(&vec!['h', 'é', 'y']), "héy");
    assert_eq!(string_of(&vec![]), "");
    assert_eq!(string_of_range(&vec!['a', 'b', 'c', 'd'], 1, 3), "bc");
    assert_eq!(string_of_range(&vec!['a', 'b'], 2, 2), "");
}

#[test]
fn same_text_compares_characters() {
    assert!(same_text(&"name".to_string(), "name"));
    assert!(!same_text(&"name".to_string(), "Name"));
    assert!(!same_text(&"nam".to_string(), "name"));
}

#[test]
fn bound_token_is_replaced() {
    assert_eq!(render_text(&demo(), "Project: {{name}}"), "Project: demo");
    assert_eq!(render_text(&demo(), "{{name}}-config"), "demo-config");
    assert_eq!(render_text(&demo(), "{{name}}"), "demo");
}

#[test]
fn every_occurrence_is_replaced() {
    assert_eq!(render_text(&demo(), "{{name}}/{{name}}{{name}}"), "demo/demodemo");
    assert_eq!(
        render_text(&demo(), "{{name}} by {{username}} ({{license}}) from {{repository}}"),
        "demo by ada (MIT) from default"
    );
}

#[test]
fn rendered_text_has_no_bound_token_left() {
    let out = render_text(&demo(), "a {{name}} b {{license}} c {{name}}");
    assert_eq!(out, "a demo b MIT c demo");
    assert!(!out.contains("{{name}}"));
    assert!(!out.contains("{{license}}"));
    assert_eq!(out.matches("demo").count(), 2);
}

#[test]
fn unbound_token_stays() {
    assert_eq!(render_text(&demo(), "x {{missing}} y"), "x {{missing}} y");
    assert_eq!(render_text(&demo(), "{{Name}}"), "{{Name}}");
    assert_eq!(render_text(&demo(), "{{ name }}"), "{{ name }}");
}

#[test]
fn unset_field_is_unbound() {
    assert_eq!(render_text(&demo(), "<{{email}}>"), "<{{email}}>");
    let mut context = demo();
    context.email = Some(String::new());
    assert_eq!(render_text(&context, "<{{email}}>"), "<>");
}

#[test]
fn empty_value_is_bound() {
    assert_eq!(render_text(&demo(), "[{{empty}}]"), "[]");
}

#[test]
fn field_wins_over_pair() {
    let mut context = demo();
    context.values = pairs(&[("name", "other"), ("email", "x@y")]);
    assert_eq!(render_text(&context, "{{name}} {{email}}"), "demo {{email}}");
}

#[test]
fn later_pair_wins() {
    let mut context = demo();
    context.values = pairs(&[("k", "first"), ("k", "second")]);
    assert_eq!(render_text(&context, "{{k}}"), "second");
}

#[test]
fn braces_that_are_no_token_stay() {
    let context = demo();
    assert_eq!(render_text(&context, ""), "");
    assert_eq!(render_text(&context, "{"), "{");
    assert_eq!(render_text(&context, "{{"), "{{");
    assert_eq!(render_text(&context, "{{name"), "{{name");
    assert_eq!(render_text(&context, "{{name}"), "{{name}");
    assert_eq!(render_text(&context, "{name}}"), "{name}}");
    assert_eq!(render_text(&context, "{{}}"), "{{}}");
    assert_eq!(render_text(&context, "}}{{"), "}}{{");
    assert_eq!(render_text(&context, "{{na{me}}"), "{{na{me}}");
    assert_eq!(render_text(&context, "{{na}me}}"), "{{na}me}}");
}

#[test]
fn token_after_stray_braces() {
    let context = demo();
    assert_eq!(render_text(&context, "{{{name}}"), "{demo");
    assert_eq!(render_text(&context, "{{{{name}}}}"), "{{demo}}");
    assert_eq!(render_text(&context, "{{x{{name}}"), "{{xdemo");
    assert_eq!(render_text(&context, "{{name}}}"), "demo}");
}

#[test]
fn value_is_not_rendered_again() {
    let mut context = demo();
    context.values = pairs(&[("a", "{{name}}"), ("b", "{{")]);
    assert_eq!(render_text(&context, "{{a}}"), "{{name}}");
    assert_eq!(render_text(&context, "{{b}}name}}"), "{{name}}");
}

#[test]
fn empty_key_can_be_bound() {
    let mut context = demo();
    context.values = pairs(&[("", "nothing")]);
    assert_eq!(render_text(&context, "{{}}"), "nothing");
}

#[test]
fn render_chars_matches_render_text() {
    let context = demo();
    let input: Vec<char> = "é {{name}} ü".chars().collect();
    let out: String = render_chars(&context, &input).into_iter().collect();
    assert_eq!(out, "é demo ü");
}

#[test]
fn text_content_is_rendered() {
    let context = demo();
    assert_eq!(render_content(&context, &b"Project: {{name}}".to_vec()), b"Project: demo".to_vec());
    assert_eq!(render_content(&context, &Vec::new()), Vec::<u8>::new());
    assert_eq!(
        render_content(&context, &"héllo {{name}} ✓".as_bytes().to_vec()),
        "héllo demo ✓".as_bytes().to_vec()
    );
}

#[test]
fn binary_content_with_zero_byte_is_copied() {
    let context = demo();
    let bytes = b"\x00{{name}}\x01".to_vec();
    assert_eq!(render_content(&context, &bytes), bytes);
    let bytes = b"{{name}}\x00".to_vec();
    assert_eq!(render_content(&context, &bytes), bytes);
}

#[test]
fn binary_content_that_is_not_utf8_is_copied() {
    let context = demo();
    let bytes = vec![0x89, b'P', b'N', b'G', b'{', b'{', b'n', b'a', b'm', b'e', b'}', b'}', 0xff];
    assert_eq!(render_content(&context, &bytes), bytes);
    let bytes = vec![b'{', b'{', b'n', b'a', b'm', b'e', b'}', b'}', 0xc3];
    assert_eq!(render_content(&context, &bytes), bytes);
}

#[test]
fn built_context_renders_like_its_parts() {
    let identity = Identity { username: None, email: Some("a@b.c".to_string()) };
    let context = build(
        "demo".to_string(),
        None,
        &pairs(&[("name", "x"), ("k", "1"), ("k", "2")]),
        identity,
    );
    assert_eq!(
        render_text(&context, "{{name}} {{repository}} {{username}} {{email}} {{k}}"),
        "demo {{repository}} {{username}} a@b.c 2"
    );
}
