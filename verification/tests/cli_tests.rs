use elm_json::cli::extras::{parse_extra, valid_extra};
use elm_json::cli::new::{approved_license, licenses, valid_summary};
use elm_json::cli::util::{
    format_header, lax_version_from_string, valid_lax_version, valid_package, valid_package_name,
    valid_version,
};
use elm_json::cli::Kind;
use elm_json::semver::{Interval, Version};

fn v(major: u64, minor: u64, patch: u64) -> Version {
    Version::new(major, minor, patch)
}

#[test]
fn package_names_are_checked() {
    assert_eq!(valid_package_name("elm/core".to_string()), Ok(()));
    assert_eq!(
        valid_package_name("elm".to_string()),
        Err("A valid package name look like \"author/project\"".to_string())
    );
    assert_eq!(
        valid_package_name("elm/Core".to_string()),
        Err("Project name may only contains lowercase letters, digits and dashes.".to_string())
    );
}

#[test]
fn versions_are_checked() {
    assert_eq!(valid_version("1.2.3".to_string()), Ok(()));
    assert_eq!(valid_version("1.2".to_string()), Err("Invalid version: 1.2".to_string()));
    assert_eq!(valid_version("1.x.3".to_string()), Err("Invalid number: x".to_string()));
    assert_eq!(valid_version("".to_string()), Err("Invalid number: ".to_string()));
}

#[test]
fn lax_versions_are_a_single_number() {
    assert_eq!(valid_lax_version("1".to_string()), Ok(()));
    assert_eq!(valid_lax_version("18446744073709551615".to_string()), Ok(()));
    assert_eq!(
        valid_lax_version("1.2".to_string()),
        Err("Invalid lax version: 1.2".to_string())
    );
    assert_eq!(valid_lax_version("one".to_string()), Err("Invalid number: one".to_string()));
    assert!(valid_lax_version("".to_string()).is_err());
}

#[test]
fn packages_with_and_without_versions_are_checked() {
    assert_eq!(valid_package("elm/core".to_string()), Ok(()));
    assert_eq!(valid_package("elm/core@1.0.2".to_string()), Ok(()));
    assert_eq!(valid_package("elm/core@1".to_string()), Ok(()));
    assert_eq!(
        valid_package("elm/core@1.0".to_string()),
        Err("Invalid lax version: 1.0".to_string())
    );
    assert_eq!(
        valid_package("core@1.0.0".to_string()),
        Err("A valid package name look like \"author/project\"".to_string())
    );
}

#[test]
fn lax_version_spans_one_major_version() {
    let c = lax_version_from_string("2").unwrap();
    let ranges: Vec<_> = c.retrieve().iter().cloned().collect();
    assert_eq!(ranges.len(), 1);
    assert_eq!(ranges[0].take(), (Interval::Closed(v(2, 0, 0)), Interval::Open(v(3, 0, 0))));
    assert_eq!(
        lax_version_from_string("2.0").unwrap_err(),
        "Expected a valid lax version spec"
    );
    assert_eq!(lax_version_from_string("two").unwrap_err(), "Invalid number: two");
    assert!(lax_version_from_string("18446744073709551615").is_err());
}

#[test]
fn headers_fill_eighty_columns() {
    let h = format_header("PACKAGE CHANGES READY");
    assert_eq!(h.len(), 80);
    assert_eq!(
        h,
        "-- PACKAGE CHANGES READY -------------------------------------------------------"
    );
    assert_eq!(format_header("").len(), 80);
    assert!(format_header("").starts_with("--  -"));
    let longest = "x".repeat(76);
    assert_eq!(format_header(&longest), format!("-- {} ", longest));
}

#[test]
fn kinds_have_their_headings() {
    assert_eq!(Kind::MissingElmJson.to_string(), "Missing elm.json");
    assert_eq!(Kind::InvalidElmJson.to_string(), "Invalid elm.json");
    assert_eq!(Kind::UnwritableElmJson.to_string(), "Failed to write elm.json");
    assert_eq!(Kind::NoResolution.to_string(), "No valid package version");
    assert_eq!(Kind::NotSupported.to_string(), "Not supported");
    assert_eq!(Kind::Unknown.to_string(), "Unknown error");
}

#[test]
fn extras_are_names_with_optional_versions() {
    let (name, wanted) = parse_extra("elm/core").unwrap();
    assert_eq!(name.to_string(), "elm/core");
    assert!(wanted.is_none());
    let (name, wanted) = parse_extra("elm/json@1.1.3").unwrap();
    assert_eq!(name.to_string(), "elm/json");
    let wanted = wanted.unwrap();
    assert!(wanted.satisfies(&v(1, 1, 3)));
    assert!(!wanted.satisfies(&v(1, 1, 4)));
    let (_, wanted) = parse_extra("elm/json@1").unwrap();
    let wanted = wanted.unwrap();
    assert!(wanted.satisfies(&v(1, 9, 0)));
    assert!(!wanted.satisfies(&v(2, 0, 0)));
    assert!(parse_extra("elm/json@1.1").is_none());
    assert!(parse_extra("json@1.1.0").is_none());
    assert!(parse_extra("elm/json@1.0.0@2.0.0").is_none());
    assert!(valid_extra("elm/core@1.0.0"));
    assert!(!valid_extra("elm/core@"));
}

#[test]
fn licenses_come_from_a_fixed_list() {
    assert_eq!(licenses().len(), 99);
    assert!(approved_license("MIT"));
    assert!(approved_license("BSD-3-Clause"));
    assert!(approved_license("AFL-1.1"));
    assert!(approved_license("ZPL-2.0"));
    assert!(!approved_license("mit"));
    assert!(!approved_license("MIT "));
    assert!(!approved_license(""));
    assert!(!approved_license("Proprietary"));
}

#[test]
fn summaries_have_eighty_bytes_at_most() {
    assert!(valid_summary(""));
    assert!(valid_summary(&"x".repeat(80)));
    assert!(!valid_summary(&"x".repeat(81)));
    assert!(!valid_summary(&"\u{e9}".repeat(41)));
}
