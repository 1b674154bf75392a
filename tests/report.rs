use sextant::chart::{ChartMetadata, Dependency};
use sextant::report::{ChartAnalysis, ReportFormat, ResourceInfo, ResourceReport, generate_markdown_summary};

fn create_test_chart_metadata() -> ChartMetadata {
    ChartMetadata {
        name: "test-chart".to_string(),
        version: "1.0.0".to_string(),
        description: Some("Test chart".to_string()),
        api_version: "v2".to_string(),
        chart_type: Some("application".to_string()),
        keywords: Some(vec!["test".to_string(), "example".to_string()]),
        maintainers: None,
        dependencies: Some(vec![Dependency {
            name: "postgresql".to_string(),
            version: "11.6.21".to_string(),
            repository: Some("https://charts.bitnami.com/bitnami".to_string()),
            condition: None,
        }]),
    }
}

fn summary_count(summary: &[(String, u32)], kind: &str) -> Option<u32> {
    summary.iter().find(|(k, _)| k == kind).map(|(_, c)| *c)
}

#[test]
fn test_create_chart_analysis() {
    let metadata = create_test_chart_metadata();
    let analysis = ChartAnalysis::new(
        "test-chart".to_string(),
        "1.0.0".to_string(),
        "/charts/test-chart".to_string(),
        metadata,
    );

    assert_eq!(analysis.chart_name, "test-chart");
    assert_eq!(analysis.chart_version, "1.0.0");
    assert_eq!(analysis.metadata.dependency_count, 1);
    assert_eq!(analysis.values_file_count(), 0);
}

#[test]
fn test_resource_report() {
    let mut report = ResourceReport::new("values.yaml".to_string());
    assert!(!report.has_resources());
    assert_eq!(report.total_resources, 0);

    let resource = ResourceInfo::new(
        "test-deployment".to_string(),
        Some("default".to_string()),
        "templates/deployment.yaml".to_string(),
    );

    report.add_resource("Deployment".to_string(), resource);

    assert!(report.has_resources());
    assert_eq!(report.total_resources, 1);
    assert_eq!(report.get_count("Deployment"), 1);
    assert_eq!(report.get_count("Service"), 0);

    let types = report.get_resource_types();
    assert_eq!(types, vec!["Deployment"]);
}

#[test]
fn test_resource_info() {
    let resource = ResourceInfo::new(
        "test-app".to_string(),
        Some("production".to_string()),
        "templates/deployment.yaml".to_string(),
    );

    assert_eq!(resource.full_name(), "production/test-app");

    let resource_no_ns = ResourceInfo::new(
        "cluster-role".to_string(),
        None,
        "templates/rbac.yaml".to_string(),
    );

    assert_eq!(resource_no_ns.full_name(), "cluster-role");
}

#[test]
fn test_chart_analysis_with_reports() {
    let metadata = create_test_chart_metadata();
    let mut analysis = ChartAnalysis::new(
        "test-chart".to_string(),
        "1.0.0".to_string(),
        "/charts/test-chart".to_string(),
        metadata,
    );

    let mut report = ResourceReport::new("values.yaml".to_string());
    report.add_resource(
        "Deployment".to_string(),
        ResourceInfo::new(
            "app".to_string(),
            Some("default".to_string()),
            "templates/deployment.yaml".to_string(),
        ),
    );
    report.add_resource(
        "Service".to_string(),
        ResourceInfo::new(
            "app".to_string(),
            Some("default".to_string()),
            "templates/service.yaml".to_string(),
        ),
    );

    analysis.add_resource_report("values.yaml".to_string(), report);

    assert_eq!(analysis.values_file_count(), 1);

    let summary = analysis.get_resource_summary();
    assert_eq!(summary_count(&summary, "Deployment"), Some(1));
    assert_eq!(summary_count(&summary, "Service"), Some(1));
}

#[test]
fn test_report_format() {
    assert_eq!(ReportFormat::Json.extension(), "json");
    assert_eq!(ReportFormat::Yaml.extension(), "yaml");

    assert_eq!(ReportFormat::from_extension("json"), Some(ReportFormat::Json));
    assert_eq!(ReportFormat::from_extension("yaml"), Some(ReportFormat::Yaml));
    assert_eq!(ReportFormat::from_extension("yml"), Some(ReportFormat::Yaml));
    assert_eq!(ReportFormat::from_extension("txt"), None);
}

#[test]
fn test_generate_markdown_summary() {
    let metadata = create_test_chart_metadata();
    let mut analysis = ChartAnalysis::new(
        "test-chart".to_string(),
        "1.0.0".to_string(),
        "/charts/test-chart".to_string(),
        metadata,
    );

    let mut report = ResourceReport::new("values.yaml".to_string());
    report.add_resource(
        "Deployment".to_string(),
        ResourceInfo::new("app".to_string(), None, "templates/deployment.yaml".to_string()),
    );

    analysis.add_resource_report("values.yaml".to_string(), report);

    let markdown = generate_markdown_summary(&vec![analysis]);

    assert!(markdown.contains("# Helm Chart Analysis Report"));
    assert!(markdown.contains("## Chart: test-chart (1.0.0)"));
    assert!(markdown.contains("| values.yaml |"));
    assert!(markdown.contains("Deployment"));
}

#[test]
fn format_extension_ignores_case() {
    assert_eq!(ReportFormat::from_extension("JSON"), Some(ReportFormat::Json));
    assert_eq!(ReportFormat::from_extension("YmL"), Some(ReportFormat::Yaml));
    assert_eq!(ReportFormat::from_lowercase_extension("JSON"), None);
    assert_eq!(ReportFormat::from_lowercase_extension("yaml"), Some(ReportFormat::Yaml));
}

#[test]
fn markdown_summary_exact_table() {
    let metadata = create_test_chart_metadata();
    let mut analysis = ChartAnalysis::new(
        "demo".to_string(),
        "2.1.0".to_string(),
        "charts/demo".to_string(),
        metadata,
    );
    let mut report = ResourceReport::new("values.yaml".to_string());
    report.add_resource(
        "Service".to_string(),
        ResourceInfo::new("svc".to_string(), None, "templates/a.yaml".to_string()),
    );
    report.add_resource(
        "Deployment".to_string(),
        ResourceInfo::new("app".to_string(), None, "templates/a.yaml".to_string()),
    );
    report.add_resource(
        "Service".to_string(),
        ResourceInfo::new("svc2".to_string(), None, "templates/b.yaml".to_string()),
    );
    analysis.add_resource_report("values.yaml".to_string(), report);
    let markdown = generate_markdown_summary(&vec![analysis]);
    let expected = "# Helm Chart Analysis Report\n\n\
## Chart: demo (2.1.0)\n\n\
**Description:** Test chart\n\n\
**Path:** charts/demo\n\n\
**Dependencies:** 1\n\n\
### Resource Summary\n\n\
| Values File | Deployment | Service | Total |\n\
|---|---|---|\n\
| values.yaml | 1 | 2 | 3 |\n\n";
    assert_eq!(markdown, expected);
}

#[test]
fn report_groups_records_by_kind() {
    let mut report = ResourceReport::new("values.yaml".to_string());
    report.add_resource(
        "Service".to_string(),
        ResourceInfo::new("a".to_string(), None, "t.yaml".to_string()),
    );
    report.add_resource(
        "ConfigMap".to_string(),
        ResourceInfo::new("b".to_string(), Some("ns".to_string()), "t.yaml".to_string()),
    );
    report.add_resource(
        "Service".to_string(),
        ResourceInfo::new("c".to_string(), None, "u.yaml".to_string()),
    );
    assert_eq!(report.total_resources, 3);
    assert_eq!(report.get_count("Service"), 2);
    assert_eq!(report.get_count("ConfigMap"), 1);
    assert_eq!(report.get_resource_types(), vec!["ConfigMap", "Service"]);
    assert_eq!(report.resources[0].0, "Service");
    assert_eq!(report.resources[0].1.len(), 2);
    assert_eq!(report.resources[0].1[1].name, "c");
}

#[test]
fn adding_a_report_twice_replaces_it() {
    let mut analysis = ChartAnalysis::new(
        "c".to_string(),
        "1".to_string(),
        "p".to_string(),
        create_test_chart_metadata(),
    );
    analysis.add_resource_report("values.yaml".to_string(), ResourceReport::new("values.yaml".to_string()));
    let mut second = ResourceReport::new("values.yaml".to_string());
    second.add_resource(
        "Pod".to_string(),
        ResourceInfo::new("p".to_string(), None, "t.yaml".to_string()),
    );
    analysis.add_resource_report("values.yaml".to_string(), second);
    assert_eq!(analysis.values_file_count(), 1);
    assert_eq!(analysis.get_report("values.yaml").unwrap().total_resources, 1);
    assert!(analysis.get_report("other.yaml").is_none());
}

#[test]
fn well_formedness_is_checked() {
    let mut report = ResourceReport::new("values.yaml".to_string());
    report.add_resource(
        "Pod".to_string(),
        ResourceInfo::new("a".to_string(), None, "t.yaml".to_string()),
    );
    assert!(report.is_well_formed());
    let mut broken = report.clone();
    broken.total_resources = 2;
    assert!(!broken.is_well_formed());
    let mut broken = report.clone();
    broken.resource_counts[0].1 = 3;
    assert!(!broken.is_well_formed());
    let mut broken = report.clone();
    broken.resource_counts.push(("Pod".to_string(), 0));
    broken.resources.push(("Pod".to_string(), vec![]));
    assert!(!broken.is_well_formed());
}
