use sextant::analyzer::{
    AnalysisError, analyze_chart, analyze_with_values, extract_resource_info,
    extract_resources_from_yaml, file_name_of, sort_by_chart_name,
};
use sextant::chart::{ChartError, ChartMetadata};
use sextant::report::ChartAnalysis;
use sextant::template::Template;
use sextant::values::{ValueTree, Values};

fn chart_metadata(name: &str, chart_type: &str) -> ChartMetadata {
    ChartMetadata {
        name: name.to_string(),
        version: "1.0.0".to_string(),
        description: Some("A test application".to_string()),
        api_version: "v2".to_string(),
        chart_type: Some(chart_type.to_string()),
        keywords: None,
        maintainers: None,
        dependencies: None,
    }
}

fn create_test_values_yaml() -> &'static str {
    r#"
name: my-app
replicas: 2
image:
  repository: nginx
  tag: "1.21"
service:
  port: 80
"#
}

fn create_test_deployment_template() -> &'static str {
    r#"
apiVersion: apps/v1
kind: Deployment
metadata:
  name: {{ .Values.name }}
  namespace: default
spec:
  replicas: {{ .Values.replicas }}
  selector:
    matchLabels:
      app: {{ .Values.name }}
  template:
    metadata:
      labels:
        app: {{ .Values.name }}
    spec:
      containers:
      - name: {{ .Values.name }}
        image: {{ .Values.image.repository }}:{{ .Values.image.tag }}
---
apiVersion: v1
kind: Service
metadata:
  name: {{ .Values.name }}-service
spec:
  ports:
  - port: {{ .Values.service.port }}
  selector:
    app: {{ .Values.name }}
"#
}

fn deployment_template() -> Template {
    Template {
        path: "chart/templates/deployment.yaml".to_string(),
        content: create_test_deployment_template().to_string(),
    }
}

#[test]
fn analyzer_test_analyze_chart() {
    let values = Values::parse(create_test_values_yaml(), "chart/values.yaml".to_string()).unwrap();
    let analysis = analyze_chart(
        "chart",
        chart_metadata("test-app", "application"),
        &vec![deployment_template()],
        &vec![values],
    )
    .unwrap();

    assert_eq!(analysis.chart_name, "test-app");
    assert_eq!(analysis.chart_version, "1.0.0");
    assert_eq!(analysis.values_file_count(), 1);

    let report = analysis.get_report("values.yaml").unwrap();
    assert_eq!(report.get_count("Deployment"), 1);
    assert_eq!(report.get_count("Service"), 1);
    assert_eq!(report.total_resources, 2);
}

#[test]
fn analyzer_test_analyze_chart_with_multiple_values() {
    let values = Values::parse(create_test_values_yaml(), "chart/values.yaml".to_string()).unwrap();
    let prod = Values::parse(
        "name: my-app\nreplicas: 5\nimage:\n  repository: nginx\n  tag: \"1.21\"\nservice:\n  port: 80",
        "chart/values-prod.yaml".to_string(),
    )
    .unwrap();
    let analysis = analyze_chart(
        "chart",
        chart_metadata("test-app", "application"),
        &vec![deployment_template()],
        &vec![prod, values],
    )
    .unwrap();

    assert_eq!(analysis.values_file_count(), 2);

    for (_, report) in &analysis.values_analyses {
        assert_eq!(report.get_count("Deployment"), 1);
        assert_eq!(report.get_count("Service"), 1);
    }
}

#[test]
fn analyzer_test_analyze_library_chart() {
    let values = Values::parse(create_test_values_yaml(), "chart/values.yaml".to_string()).unwrap();
    let analysis = analyze_chart(
        "chart",
        chart_metadata("common-lib", "library"),
        &vec![deployment_template()],
        &vec![values],
    )
    .unwrap();

    assert_eq!(analysis.chart_name, "common-lib");
    assert_eq!(analysis.values_file_count(), 0);
}

#[test]
fn analyzer_test_extract_resources_from_yaml() {
    let yaml_content = r#"
apiVersion: apps/v1
kind: Deployment
metadata:
  name: test-deployment
  namespace: production
---
apiVersion: v1
kind: Service
metadata:
  name: test-service
"#;

    let resources = extract_resources_from_yaml(yaml_content);

    assert_eq!(resources.len(), 2);

    let deployment = &resources[0];
    assert_eq!(deployment.kind, "Deployment");
    assert_eq!(deployment.name, "test-deployment");
    assert_eq!(deployment.namespace, Some("production".to_string()));

    let service = &resources[1];
    assert_eq!(service.kind, "Service");
    assert_eq!(service.name, "test-service");
    assert_eq!(service.namespace, None);
}

#[test]
fn analyzer_test_analyze_chart_no_templates() {
    let values = Values::parse(create_test_values_yaml(), "chart/values.yaml".to_string()).unwrap();
    let analysis =
        analyze_chart("chart", chart_metadata("test-app", "application"), &vec![], &vec![values])
            .unwrap();

    assert_eq!(analysis.chart_name, "test-app");
    assert_eq!(analysis.values_file_count(), 1);

    let report = analysis.get_report("values.yaml").unwrap();
    assert_eq!(report.total_resources, 0);
}

#[test]
fn analyzer_test_analyze_chart_no_values() {
    let template = Template {
        path: "chart/templates/deployment.yaml".to_string(),
        content: "apiVersion: apps/v1\nkind: Deployment\nmetadata:\n  name: static-name".to_string(),
    };
    let analysis =
        analyze_chart("chart", chart_metadata("test-app", "application"), &vec![template], &vec![])
            .unwrap();

    assert_eq!(analysis.values_file_count(), 1);
    assert!(analysis.get_report("default").is_some());
    assert_eq!(analysis.get_report("default").unwrap().total_resources, 1);
    assert_eq!(analysis.get_report("default").unwrap().values_file, "empty");
}

#[test]
fn analyzer_test_analyze_charts() {
    let first = ChartAnalysis::new(
        "test-app".to_string(),
        "1.0.0".to_string(),
        "charts/chart1".to_string(),
        chart_metadata("test-app", "application"),
    );
    let second = ChartAnalysis::new(
        "another-app".to_string(),
        "2.0.0".to_string(),
        "charts/chart2".to_string(),
        chart_metadata("another-app", "application"),
    );
    let analyses = sort_by_chart_name(vec![first, second]);

    assert_eq!(analyses.len(), 2);
    assert_eq!(analyses[0].chart_name, "another-app");
    assert_eq!(analyses[1].chart_name, "test-app");
}

#[test]
fn segment_without_identity_contributes_nothing() {
    let text = "apiVersion: v1\nspec:\n  replicas: 2\n---\nkind: Service\nmetadata:\n  name: web\n";
    let resources = extract_resources_from_yaml(text);
    assert_eq!(resources.len(), 1);
    assert_eq!(resources[0].kind, "Service");
    assert_eq!(resources[0].name, "web");
}

#[test]
fn extraction_skips_bad_segments_and_sentinels() {
    let text = "# just a comment\n---\n: : [\n---\n- a\n- b\n---\nkind: Unknown\nmetadata:\n  name: x\n---\nkind: Pod\nmetadata:\n  name: unnamed\n---\nkind: Pod\nmetadata:\n  name: p1\n  namespace: 3\n---\nkind: ConfigMap\n";
    let resources = extract_resources_from_yaml(text);
    assert_eq!(resources.len(), 1);
    assert_eq!(resources[0].kind, "Pod");
    assert_eq!(resources[0].name, "p1");
    assert_eq!(resources[0].namespace, None);
}

#[test]
fn extraction_is_repeatable() {
    let text = "kind: Deployment\nmetadata:\n  name: x\n---\nkind: Service\nmetadata:\n  name: y\n";
    let first = extract_resources_from_yaml(text);
    let second = extract_resources_from_yaml(text);
    assert_eq!(first, second);
    assert_eq!(first.len(), 2);
}

#[test]
fn resource_info_from_tree() {
    let doc = Values::parse("kind: Job\nmetadata:\n  name: once\n", "v".to_string()).unwrap();
    let info = extract_resource_info(&doc.data).unwrap();
    assert_eq!(info.kind, "Job");
    assert_eq!(info.name, "once");
    assert_eq!(extract_resource_info(&ValueTree::Null), None);
}

#[test]
fn invalid_descriptor_is_rejected() {
    let mut metadata = chart_metadata("", "application");
    let result = analyze_chart("chart", metadata.clone(), &vec![], &vec![]);
    assert_eq!(result.unwrap_err(), AnalysisError::MetadataValidation(ChartError::EmptyName));
    metadata.name = "ok".to_string();
    metadata.api_version = "v9".to_string();
    let result = analyze_chart("chart", metadata, &vec![], &vec![]);
    assert_eq!(
        result.unwrap_err(),
        AnalysisError::MetadataValidation(ChartError::InvalidApiVersion { version: "v9".to_string() })
    );
}

#[test]
fn empty_templates_are_not_rendered() {
    let templates = vec![
        Template { path: "a.yaml".to_string(), content: "{{- if false }}\nkind: Pod\nmetadata:\n  name: hidden\n{{- end }}".to_string() },
        Template { path: "b.yaml".to_string(), content: "   \n".to_string() },
        Template { path: "c.yaml".to_string(), content: "kind: Pod\nmetadata:\n  name: shown\n".to_string() },
    ];
    let analysis =
        analyze_chart("chart", chart_metadata("app", "application"), &templates, &vec![]).unwrap();
    let report = analysis.get_report("default").unwrap();
    assert_eq!(report.total_resources, 1);
    assert_eq!(report.resources[0].1[0].source_template, "c.yaml");
}

#[test]
fn per_values_report_is_named_after_file() {
    let values = Values::parse("name: a\n", "charts/x/values-dev.yml".to_string()).unwrap();
    let report = analyze_with_values(&vec![deployment_template()], &values).unwrap();
    assert_eq!(report.values_file, "values-dev.yml");
    assert_eq!(report.total_resources, 2);
    assert_eq!(report.resources[0].1[0].name, "a");
    assert_eq!(report.resources[0].1[0].namespace, Some("default".to_string()));
    assert_eq!(file_name_of("a/b/c.yaml"), "c.yaml");
    assert_eq!(file_name_of("plain"), "plain");
}

#[test]
fn document_with_repeated_key_is_skipped() {
    let text = "kind: Pod\nkind: Service\nmetadata:\n  name: a\n---\nkind: Pod\nmetadata:\n  name: b\n";
    let resources = extract_resources_from_yaml(text);
    assert_eq!(resources.len(), 1);
    assert_eq!(resources[0].name, "b");
}

#[test]
fn documents_with_other_keys_and_tags_are_read() {
    let text = "~: x\nkind: Pod\nmetadata:\n  name: n\n---\nkind: !custom Job\nmetadata:\n  name: j\n  [1, 2]: pair\n";
    let resources = extract_resources_from_yaml(text);
    assert_eq!(resources.len(), 2);
    assert_eq!(resources[0].kind, "Pod");
    assert_eq!(resources[1].kind, "Job");
    assert_eq!(resources[1].name, "j");
}
