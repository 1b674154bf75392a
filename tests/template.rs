use sextant::discovery::{is_template_file_name, select_template_files, select_values_files};
use sextant::template::Template;
use sextant::values::{ValueTree, Values, merge_trees};

fn create_test_template() -> String {
    r#"
apiVersion: apps/v1
kind: Deployment
metadata:
  name: {{ .Values.name }}
spec:
  replicas: {{ .Values.replicas }}
  selector:
    matchLabels:
      app: {{ .Values.name }}
  template:
    metadata:
      labels:
        app: {{ .Values.name }}
    spec:
      containers:
      - name: {{ .Values.name }}
        image: {{ .Values.image.repository }}:{{ .Values.image.tag }}
"#
    .trim()
    .to_string()
}

fn create_test_values() -> String {
    r#"
name: test-app
replicas: 3
image:
  repository: nginx
  tag: 1.21
"#
    .trim()
    .to_string()
}

fn lookup<'a>(tree: &'a ValueTree, key: &str) -> Option<&'a ValueTree> {
    match tree {
        ValueTree::Mapping(entries) => entries.iter().find(|(k, _)| k == key).map(|(_, v)| v),
        _ => None,
    }
}

fn text(tree: &ValueTree) -> Option<&str> {
    match tree {
        ValueTree::Text(s) => Some(s.as_str()),
        _ => None,
    }
}

fn number(tree: &ValueTree) -> Option<&str> {
    match tree {
        ValueTree::Number(s) => Some(s.as_str()),
        _ => None,
    }
}

#[test]
fn test_render_template() {
    let template = Template { path: "deployment.yaml".to_string(), content: create_test_template() };
    let values = Values::parse(&create_test_values(), "values.yaml".to_string()).unwrap();

    let rendered = template.render(&values);

    assert!(rendered.rendered_content.contains("name: test-app"));
    assert!(rendered.rendered_content.contains("replicas: 3"));
    assert!(rendered.rendered_content.contains("image: nginx:1.21"));
}

#[test]
fn test_find_template_files() {
    let names = vec![
        "deployment.yaml".to_string(),
        "service.yaml".to_string(),
        "NOTES.txt".to_string(),
        "test-deployment.yaml".to_string(),
    ];
    let template_files = select_template_files(&names);

    assert_eq!(template_files.len(), 2);
    assert!(template_files.iter().any(|p| p == "deployment.yaml"));
    assert!(template_files.iter().any(|p| p == "service.yaml"));
}

#[test]
fn test_find_values_files() {
    let names = vec![
        "values.yaml".to_string(),
        "values-prod.yaml".to_string(),
        "values-dev.yml".to_string(),
    ];
    let values_files = select_values_files(&names);

    assert_eq!(values_files.len(), 3);
    assert!(values_files.iter().any(|p| p == "values.yaml"));
    assert!(values_files.iter().any(|p| p == "values-prod.yaml"));
    assert!(values_files.iter().any(|p| p == "values-dev.yml"));
}

#[test]
fn test_merge_values() {
    let base_values_content = r#"
name: test-app
replicas: 1
image:
  repository: nginx
  tag: latest
"#;

    let override_values_content = r#"
replicas: 3
image:
  tag: "1.21"
env: production
"#;

    let base_values = Values::parse(base_values_content, "values.yaml".to_string()).unwrap();
    let override_values =
        Values::parse(override_values_content, "values-prod.yaml".to_string()).unwrap();

    let merged = base_values.merge(&override_values);

    assert_eq!(text(lookup(&merged.data, "name").unwrap()).unwrap(), "test-app");
    assert_eq!(number(lookup(&merged.data, "replicas").unwrap()).unwrap(), "3");
    assert_eq!(text(lookup(&merged.data, "env").unwrap()).unwrap(), "production");

    let image = lookup(&merged.data, "image").unwrap();
    assert_eq!(text(lookup(image, "repository").unwrap()).unwrap(), "nginx");
    assert_eq!(text(lookup(image, "tag").unwrap()).unwrap(), "1.21");
    assert_eq!(merged.source, "values-prod.yaml");
}

#[test]
fn test_is_empty_template() {
    let template = Template { path: "test.yaml".to_string(), content: "".to_string() };
    assert!(template.is_empty_template());

    let template = Template {
        path: "test.yaml".to_string(),
        content: "{{- if false }}\nsome content\n{{- end }}".to_string(),
    };
    assert!(template.is_empty_template());

    let template = Template { path: "test.yaml".to_string(), content: "kind: Deployment".to_string() };
    assert!(!template.is_empty_template());
}

#[test]
fn selected_files_come_sorted() {
    let names = vec![
        "values-zeta.yml".to_string(),
        "values.yaml".to_string(),
        "values-alpha.yaml".to_string(),
        "values.json".to_string(),
        "other.yaml".to_string(),
        "values.yml".to_string(),
    ];
    assert_eq!(
        select_values_files(&names),
        vec!["values-alpha.yaml", "values-zeta.yml", "values.yaml", "values.yml"]
    );
    let names = vec!["b.yml".to_string(), "a.yaml".to_string(), ".yaml".to_string(), "x.txt".to_string()];
    assert_eq!(select_template_files(&names), vec!["a.yaml", "b.yml"]);
    assert!(!is_template_file_name("latest.yaml"));
    assert!(is_template_file_name("ingress.yml"));
}

#[test]
fn merge_replaces_non_mappings_and_keeps_order() {
    let base = Values::parse("a: 1\nlist: [1, 2]\nnested: {x: 1, y: 2}\n", "base".to_string()).unwrap();
    let over = Values::parse("list: [3]\nnested: 5\nz: true\n", "over".to_string()).unwrap();
    let merged = merge_trees(&base.data, &over.data);
    match lookup(&merged, "list").unwrap() {
        ValueTree::Sequence(items) => assert_eq!(items.len(), 1),
        other => panic!("unexpected {:?}", other),
    }
    assert_eq!(number(lookup(&merged, "nested").unwrap()).unwrap(), "5");
    assert!(matches!(lookup(&merged, "z").unwrap(), ValueTree::Bool(true)));
    match &merged {
        ValueTree::Mapping(entries) => {
            let keys: Vec<&str> = entries.iter().map(|(k, _)| k.as_str()).collect();
            assert_eq!(keys, vec!["a", "list", "nested", "z"]);
        }
        other => panic!("unexpected {:?}", other),
    }
}

#[test]
fn placeholder_spellings_and_conditionals() {
    let values = Values::parse("name: web\nflag: false\nnone: null\nitems:\n  - {id: 7}\n", "v".to_string()).unwrap();
    let template = Template {
        path: "t.yaml".to_string(),
        content: "a: {{.Values.name}}\nb: {{ .Values.name | quote }}\nc: {{ .Values.flag }}\nd: x{{ .Values.none }}y\ne: {{ .Values.items[0].id }}\n{{- if false }}\ngone: 1\n{{- end }}\nkept: 2\n# comment\n\n---\n".to_string(),
    };
    let rendered = template.render(&values);
    assert_eq!(rendered.rendered_content, "a: web\nb: web\nc: false\nd: xy\ne: 7\nkept: 2\n---");
    assert_eq!(rendered.template_path, "t.yaml");
    assert_eq!(rendered.values_source, "v");
}

#[test]
fn composite_value_renders_as_yaml_block() {
    let values = Values::parse("image:\n  repository: nginx\n  tag: stable\n", "v".to_string()).unwrap();
    let template = Template { path: "t.yaml".to_string(), content: "{{ .Values.image }}".to_string() };
    let rendered = template.render(&values);
    assert!(rendered.rendered_content.contains("repository: nginx"));
    assert!(rendered.rendered_content.contains("tag: stable"));
}

#[test]
fn cleanup_keeps_separator_and_drops_unresolved() {
    let template = Template { path: "t".to_string(), content: String::new() };
    let out = template.clean_rendered_output("a: 1\r\n  \n# c\n  ---  \n---x\nb: {{ .Values.q }}\nc: 3\n");
    assert_eq!(out, "a: 1\n  ---  \n---x\nc: 3");
}
