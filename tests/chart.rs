use sextant::chart::{ChartError, ChartMetadata, Dependency, Maintainer, find_chart_file, join_path};

fn create_test_chart_metadata() -> ChartMetadata {
    ChartMetadata {
        name: "test-app".to_string(),
        version: "1.0.0".to_string(),
        description: Some("A test Helm chart".to_string()),
        api_version: "v2".to_string(),
        chart_type: Some("application".to_string()),
        keywords: Some(vec!["web".to_string(), "app".to_string()]),
        maintainers: Some(vec![Maintainer {
            name: "Test Maintainer".to_string(),
            email: Some("test@example.com".to_string()),
            url: None,
        }]),
        dependencies: Some(vec![Dependency {
            name: "postgresql".to_string(),
            version: "11.6.21".to_string(),
            repository: Some("https://charts.bitnami.com/bitnami".to_string()),
            condition: None,
        }]),
    }
}

#[test]
fn test_validate_chart_metadata() {
    let metadata = create_test_chart_metadata();
    assert_eq!(metadata.validate(), Ok(()));
}

#[test]
fn test_validate_empty_name_fails() {
    let mut metadata = create_test_chart_metadata();
    metadata.name = String::new();

    let result = metadata.validate();
    assert!(result.is_err());
    assert!(result.unwrap_err().message().contains("Chart name cannot be empty"));
}

#[test]
fn test_validate_invalid_api_version_fails() {
    let mut metadata = create_test_chart_metadata();
    metadata.api_version = "v3".to_string();

    let result = metadata.validate();
    assert!(result.is_err());
    assert!(result.unwrap_err().message().contains("apiVersion must be 'v1' or 'v2'"));
}

#[test]
fn test_is_library_chart() {
    let mut metadata = create_test_chart_metadata();
    assert!(!metadata.is_library());

    metadata.chart_type = Some("library".to_string());
    assert!(metadata.is_library());
}

#[test]
fn test_has_dependencies() {
    let metadata = create_test_chart_metadata();
    assert!(metadata.has_dependencies());

    let mut metadata_no_deps = metadata.clone();
    metadata_no_deps.dependencies = None;
    assert!(!metadata_no_deps.has_dependencies());
}

#[test]
fn test_find_chart_file() {
    let found_path = find_chart_file("/tmp/chart", true, false).unwrap();
    assert_eq!(found_path, "/tmp/chart/Chart.yaml");
}

#[test]
fn test_find_chart_file_yml_fallback() {
    let found_path = find_chart_file("/tmp/chart", false, true).unwrap();
    assert_eq!(found_path, "/tmp/chart/Chart.yml");
}

#[test]
fn test_find_chart_file_not_found() {
    let result = find_chart_file("/tmp/chart", false, false);
    assert!(result.is_err());
    assert!(result.unwrap_err().message().contains("No Chart.yaml or Chart.yml found"));
}

#[test]
fn validation_reports_each_rule() {
    let mut m = create_test_chart_metadata();
    m.version = String::new();
    assert_eq!(m.validate(), Err(ChartError::EmptyVersion));

    let mut m = create_test_chart_metadata();
    m.api_version = "v3".to_string();
    assert_eq!(m.validate(), Err(ChartError::InvalidApiVersion { version: "v3".to_string() }));

    let mut m = create_test_chart_metadata();
    m.chart_type = Some("plugin".to_string());
    let err = m.validate().unwrap_err();
    assert_eq!(err, ChartError::InvalidChartType { chart_type: "plugin".to_string() });
    assert_eq!(err.message(), "Chart type must be 'application' or 'library', got 'plugin'");

    let mut m = create_test_chart_metadata();
    m.chart_type = None;
    m.api_version = "v1".to_string();
    assert_eq!(m.validate(), Ok(()));

    let mut m = create_test_chart_metadata();
    m.name = String::new();
    m.version = String::new();
    assert_eq!(m.validate(), Err(ChartError::EmptyName));
}

#[test]
fn chart_file_prefers_yaml_and_joins_paths() {
    assert_eq!(find_chart_file("dir/", true, true).unwrap(), "dir/Chart.yaml");
    assert_eq!(find_chart_file("", false, true).unwrap(), "Chart.yml");
    assert_eq!(
        find_chart_file("charts/app", false, false),
        Err(ChartError::ChartFileNotFound { path: "charts/app".to_string() })
    );
    assert_eq!(join_path("a/b", "c"), "a/b/c");
}
