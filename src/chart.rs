//! Chart descriptor metadata and its validation.
use vstd::prelude::*;

use crate::text::{chars_of, concat_chars, same_chars, string_of};

verus! {

/// A maintainer listed in a chart descriptor.
#[derive(Debug, Clone, PartialEq)]
pub struct Maintainer {
    pub name: String,
    pub email: Option<String>,
    pub url: Option<String>,
}

/// A dependency listed in a chart descriptor.
#[derive(Debug, Clone, PartialEq)]
pub struct Dependency {
    pub name: String,
    pub version: String,
    pub repository: Option<String>,
    pub condition: Option<String>,
}

/// The metadata of a chart descriptor.
#[derive(Debug, Clone, PartialEq)]
pub struct ChartMetadata {
    pub name: String,
    pub version: String,
    pub description: Option<String>,
    pub api_version: String,
    pub chart_type: Option<String>,
    pub keywords: Option<Vec<String>>,
    pub maintainers: Option<Vec<Maintainer>>,
    pub dependencies: Option<Vec<Dependency>>,
}

/// Why a chart descriptor was rejected.
#[derive(Debug, Clone, PartialEq)]
pub enum ChartError {
    EmptyName,
    EmptyVersion,
    InvalidApiVersion { version: String },
    InvalidChartType { chart_type: String },
    ChartFileNotFound { path: String },
}

/// The outcome of validating `m`: the first rule it breaks, if any.
pub open spec fn validation(m: ChartMetadata) -> Result<(), ChartError> {
    if m.name@.len() == 0 {
        Err(ChartError::EmptyName)
    } else if m.version@.len() == 0 {
        Err(ChartError::EmptyVersion)
    } else if !(m.api_version@ == "v1"@ || m.api_version@ == "v2"@) {
        Err(ChartError::InvalidApiVersion { version: m.api_version })
    } else if m.chart_type is Some && !(m.chart_type->0@ == "application"@ || m.chart_type->0@
        == "library"@) {
        Err(ChartError::InvalidChartType { chart_type: m.chart_type->0 })
    } else {
        Ok(())
    }
}

/// `name` placed in the directory `dir`.
pub open spec fn joined_path(dir: Seq<char>, name: Seq<char>) -> Seq<char> {
    if dir.len() == 0 {
        name
    } else if dir.last() == '/' {
        dir + name
    } else {
        dir + "/"@ + name
    }
}

/// `name` placed in the directory `dir`.
pub fn join_path(dir: &str, name: &str) -> (r: String)
    ensures
        r@ == joined_path(dir@, name@),
{
    let d = chars_of(dir);
    let n = chars_of(name);
    if d.len() == 0 {
        name.to_owned()
    } else if d[d.len() - 1] == '/' {
        string_of(&concat_chars(&d, &n))
    } else {
        string_of(&concat_chars(&concat_chars(&d, &chars_of("/")), &n))
    }
}

/// Whether the text of `s` equals the text of `lit`.
fn text_is(s: &String, lit: &str) -> (r: bool)
    ensures
        r == (s@ == lit@),
{
    same_chars(&chars_of(s.as_str()), &chars_of(lit))
}

impl ChartError {
    /// The message that describes the error.
    pub fn message(&self) -> (r: String)
        ensures
            r@ == match self {
                ChartError::EmptyName => "Chart name cannot be empty"@,
                ChartError::EmptyVersion => "Chart version cannot be empty"@,
                ChartError::InvalidApiVersion { version } => "Chart apiVersion must be 'v1' or 'v2', got '"@
                    + version@ + "'"@,
                ChartError::InvalidChartType { chart_type } =>
                    "Chart type must be 'application' or 'library', got '"@ + chart_type@ + "'"@,
                ChartError::ChartFileNotFound { path } => "No Chart.yaml or Chart.yml found in "@
                    + path@,
            },
    {
        match self {
            ChartError::EmptyName => "Chart name cannot be empty".to_owned(),
            ChartError::EmptyVersion => "Chart version cannot be empty".to_owned(),
            ChartError::InvalidApiVersion { version } => string_of(
                &concat_chars(
                    &concat_chars(
                        &chars_of("Chart apiVersion must be 'v1' or 'v2', got '"),
                        &chars_of(version.as_str()),
                    ),
                    &chars_of("'"),
                ),
            ),
            ChartError::InvalidChartType { chart_type } => string_of(
                &concat_chars(
                    &concat_chars(
                        &chars_of("Chart type must be 'application' or 'library', got '"),
                        &chars_of(chart_type.as_str()),
                    ),
                    &chars_of("'"),
                ),
            ),
            ChartError::ChartFileNotFound { path } => string_of(
                &concat_chars(
                    &chars_of("No Chart.yaml or Chart.yml found in "),
                    &chars_of(path.as_str()),
                ),
            ),
        }
    }
}

impl ChartMetadata {
    /// Checks that name and version are not empty, that the API version is
    /// `v1` or `v2`, and that a chart type, where given, is `application` or
    /// `library`; reports the first rule broken.
    pub fn validate(&self) -> (r: Result<(), ChartError>)
        ensures
            r == validation(*self),
    {
        if self.name.as_str().is_empty() {
            return Err(ChartError::EmptyName);
        }
        if self.version.as_str().is_empty() {
            return Err(ChartError::EmptyVersion);
        }
        if !(text_is(&self.api_version, "v1") || text_is(&self.api_version, "v2")) {
            return Err(ChartError::InvalidApiVersion { version: self.api_version.clone() });
        }
        if let Some(chart_type) = &self.chart_type {
            if !(text_is(chart_type, "application") || text_is(chart_type, "library")) {
                return Err(ChartError::InvalidChartType { chart_type: chart_type.clone() });
            }
        }
        Ok(())
    }

    /// Whether the chart is a library chart.
    pub fn is_library(&self) -> (r: bool)
        ensures
            r == (self.chart_type is Some && self.chart_type->0@ == "library"@),
    {
        match &self.chart_type {
            Some(t) => text_is(t, "library"),
            None => false,
        }
    }

    /// Whether the chart lists at least one dependency.
    pub fn has_dependencies(&self) -> (r: bool)
        ensures
            r == (self.dependencies is Some && self.dependencies->0@.len() > 0),
    {
        match &self.dependencies {
            Some(deps) => deps.len() > 0,
            None => false,
        }
    }
}

/// The descriptor file of the chart in `chart_dir`, given which of
/// `Chart.yaml` and `Chart.yml` exist there; `Chart.yaml` is preferred.
pub fn find_chart_file(chart_dir: &str, has_chart_yaml: bool, has_chart_yml: bool) -> (r: Result<
    String,
    ChartError,
>)
    ensures
        has_chart_yaml ==> r is Ok && r->Ok_0@ == joined_path(chart_dir@, "Chart.yaml"@),
        !has_chart_yaml && has_chart_yml ==> r is Ok && r->Ok_0@ == joined_path(
            chart_dir@,
            "Chart.yml"@,
        ),
        !has_chart_yaml && !has_chart_yml ==> r is Err && r->Err_0 is ChartFileNotFound
            && r->Err_0->ChartFileNotFound_path@ == chart_dir@,
{
    if has_chart_yaml {
        Ok(join_path(chart_dir, "Chart.yaml"))
    } else if has_chart_yml {
        Ok(join_path(chart_dir, "Chart.yml"))
    } else {
        Err(ChartError::ChartFileNotFound { path: chart_dir.to_owned() })
    }
}

} // verus!
