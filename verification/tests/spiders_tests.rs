use crawler::error::Error;
use crawler::spiders::{get_spider_names, normalise_link, resolve_spider_name};

#[test]
fn spider_names_are_listed() {
    assert_eq!(get_spider_names(), vec!["CveDetails".to_string()]);
}

#[test]
fn known_spider_name_resolves() {
    assert!(resolve_spider_name("CveDetails").is_ok());
}

#[test]
fn unknown_spider_name_is_a_configuration_error() {
    match resolve_spider_name("nosuch") {
        Err(Error::InvalidSpiderName(name)) => assert_eq!(name, "nosuch"),
        _ => panic!("an unknown spider name must be rejected"),
    }
}

#[test]
fn links_are_normalised_below_the_site_root() {
    assert_eq!(
        normalise_link("cve/CVE-2024-0001"),
        "http://www.cvedetails.com/cve/CVE-2024-0001"
    );
    assert_eq!(normalise_link(""), "http://www.cvedetails.com/");
}
