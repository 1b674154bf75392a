use sextant::template::Template;
use sextant::values::{ValueTree, Values, merge_trees};

fn entries(tree: &ValueTree) -> &Vec<(String, ValueTree)> {
    match tree {
        ValueTree::Mapping(e) => e,
        other => panic!("not a mapping: {:?}", other),
    }
}

fn get<'a>(tree: &'a ValueTree, key: &str) -> &'a ValueTree {
    entries(tree).iter().find(|(k, _)| k == key).map(|(_, v)| v).unwrap()
}

#[test]
fn merge_unions_keys_and_merges_shared_ones() {
    let a = Values::parse("x: 1\nm:\n  p: 1\n  q: 2\n", "a".to_string()).unwrap();
    let b = Values::parse("m:\n  q: 3\n  r: 4\ny: 2\n", "b".to_string()).unwrap();
    let merged = merge_trees(&a.data, &b.data);
    assert_eq!(entries(&merged).len(), 3);
    let m = get(&merged, "m");
    assert_eq!(entries(m).len(), 3);
    assert!(matches!(get(m, "p"), ValueTree::Number(n) if n == "1"));
    assert!(matches!(get(m, "q"), ValueTree::Number(n) if n == "3"));
    assert!(matches!(get(m, "r"), ValueTree::Number(n) if n == "4"));
    assert!(matches!(get(&merged, "y"), ValueTree::Number(n) if n == "2"));
    assert!(matches!(get(&merged, "x"), ValueTree::Number(n) if n == "1"));
}

#[test]
fn template_without_placeholders_renders_cleaned() {
    let content = "# header\n\nkind: Pod\n   \nmetadata:\n  name: a # trailing\n";
    let template = Template { path: "t".to_string(), content: content.to_string() };
    let values = Values::parse("x: 1\n", "v".to_string()).unwrap();
    let rendered = template.render(&values);
    assert_eq!(rendered.rendered_content, template.clean_rendered_output(content));
    assert_eq!(rendered.rendered_content, "kind: Pod\nmetadata:\n  name: a # trailing");
}

#[test]
fn unresolved_placeholder_never_survives() {
    let template = Template {
        path: "t".to_string(),
        content: "kind: Pod\nname: {{ .Values.missing }}\nother: {{.Values.absent}}\n".to_string(),
    };
    let values = Values::parse("present: 1\n", "v".to_string()).unwrap();
    let rendered = template.render(&values);
    assert!(!rendered.rendered_content.contains("{{"));
    assert_eq!(rendered.rendered_content, "kind: Pod");
}

#[test]
fn empty_inputs_render_and_extract_nothing() {
    let template = Template { path: "t".to_string(), content: String::new() };
    let values = Values::empty();
    assert_eq!(values.source, "empty");
    assert_eq!(template.render(&values).rendered_content, "");
    assert!(sextant::analyzer::extract_resources_from_yaml("").is_empty());
    assert!(sextant::analyzer::extract_resources_from_yaml("---\n---\n").is_empty());
}

#[test]
fn malformed_values_text_is_rejected() {
    assert!(Values::parse("a: [", "v".to_string()).is_none());
    assert!(Values::parse("a: 1\n", "v".to_string()).is_some());
}

#[test]
fn unterminated_false_block_is_kept() {
    let template = Template {
        path: "t".to_string(),
        content: "a: 1\n{{- if false }}\nb: 2\n".to_string(),
    };
    let rendered = template.render(&Values::empty());
    assert_eq!(rendered.rendered_content, "a: 1\nb: 2");
}

#[test]
fn lines_led_by_dashes_are_kept() {
    let template = Template { path: "t".to_string(), content: "----".to_string() };
    assert_eq!(template.render(&Values::empty()).rendered_content, "----");
    assert_eq!(template.clean_rendered_output("----\n---\n"), "----\n---");
}

#[test]
fn last_line_keeps_bare_carriage_return() {
    let template = Template { path: "t".to_string(), content: "a\r".to_string() };
    assert_eq!(template.clean_rendered_output("a\r"), "a\r");
    assert_eq!(template.render(&Values::empty()).rendered_content, "a\r");
    assert_eq!(template.clean_rendered_output("a\r\nb\r"), "a\nb\r");
    assert_eq!(template.clean_rendered_output("a\r\r"), "a\r\r");
}
