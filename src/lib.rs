//! Static analysis of templated configuration packages ("charts"): render each
//! template against layered value trees and count the typed records that the
//! rendered documents declare.
pub mod values;
pub mod text;
pub mod yaml;
pub mod template;
pub mod chart;
pub mod report;
pub mod analyzer;
pub mod discovery;
