use connector_server::formats::{validate_toml, validate_xml, ExtendedFormat, FormatError};
use connector_server::server::{ServerConfig, ServerState};

#[test]
fn test_format_from_str() {
    assert_eq!(ExtendedFormat::from_str("yaml").unwrap(), ExtendedFormat::Yaml);
    assert_eq!(ExtendedFormat::from_str("yml").unwrap(), ExtendedFormat::Yaml);
    assert_eq!(ExtendedFormat::from_str("xml").unwrap(), ExtendedFormat::Xml);
    assert_eq!(ExtendedFormat::from_str("toml").unwrap(), ExtendedFormat::Toml);
}

#[test]
fn test_format_extension() {
    assert_eq!(ExtendedFormat::Yaml.extension(), "yaml");
    assert_eq!(ExtendedFormat::Xml.extension(), "xml");
    assert_eq!(ExtendedFormat::Toml.extension(), "toml");
}

#[test]
fn test_validate_toml_empty() {
    let diagnostics = validate_toml("").unwrap();
    assert!(!diagnostics.is_empty());
}

#[test]
fn test_validate_xml_empty() {
    let diagnostics = validate_xml("").unwrap();
    assert!(!diagnostics.is_empty());
}

#[test]
fn test_validate_xml_no_declaration() {
    let xml = "<root></root>";
    let diagnostics = validate_xml(xml).unwrap();
    assert!(diagnostics.iter().any(|d| d.contains("declaration")));
}

#[test]
fn format_names_ignore_case() {
    assert_eq!(ExtendedFormat::from_str("YAML").unwrap(), ExtendedFormat::Yaml);
    assert_eq!(ExtendedFormat::from_str("Toml").unwrap(), ExtendedFormat::Toml);
    assert_eq!(ExtendedFormat::from_str("json"), Err(FormatError::Unsupported("json".to_string())));
    assert_eq!(ExtendedFormat::from_lowercase("XML"), None);
}

#[test]
fn xml_diagnostics_exact() {
    assert_eq!(validate_xml("<?xml version=\"1.0\"?><a></a>").unwrap(), Vec::<String>::new());
    assert_eq!(validate_xml("   ").unwrap(), vec![
        "XML document is empty".to_string(),
        "Missing XML declaration".to_string(),
    ]);
    assert_eq!(validate_xml("<?xml <a>").unwrap(), vec!["Mismatched XML tags".to_string()]);
}

#[test]
fn toml_diagnostics_exact() {
    assert_eq!(validate_toml("key = 1").unwrap(), Vec::<String>::new());
    assert_eq!(validate_toml("\tkey = 1").unwrap(), vec![
        "TOML should use spaces for indentation outside of strings".to_string(),
    ]);
    assert_eq!(validate_toml("k = '''\t'''").unwrap(), Vec::<String>::new());
    assert_eq!(validate_toml(" \n ").unwrap(), vec!["TOML document is empty".to_string()]);
}

#[test]
fn validate_dispatches_by_format() {
    assert_eq!(ExtendedFormat::Yaml.validate("").unwrap(), vec!["YAML document is empty".to_string()]);
    assert_eq!(ExtendedFormat::Yaml.validate("a: 1").unwrap(), Vec::<String>::new());
    assert_eq!(ExtendedFormat::Xml.validate("").unwrap().len(), 2);
    assert_eq!(ExtendedFormat::Toml.validate("").unwrap().len(), 1);
}

#[test]
fn server_state_creates_auth_only_when_enabled() {
    let state = ServerState::new(ServerConfig::default());
    assert!(state.auth_service.is_none());
    assert_eq!(state.config.http_addr, "0.0.0.0:8080");
    let mut config = ServerConfig::default();
    config.enable_auth = true;
    let state = ServerState::new(config);
    let svc = state.auth_service.as_ref().unwrap();
    assert_eq!(svc.authorize("junk", "x"), Err(connector_server::AuthError::MalformedToken));
}

#[test]
fn empty_documents_report_emptiness_first() {
    assert_eq!(validate_toml("").unwrap()[0], "TOML document is empty");
    assert_eq!(validate_xml("").unwrap()[0], "XML document is empty");
    assert_eq!(connector_server::formats::validate_yaml("").unwrap()[0], "YAML document is empty");
}

#[test]
fn unicode_white_space_counts_as_empty() {
    assert_eq!(validate_toml("\u{3000}\u{85}\u{a0}\t").unwrap()[0], "TOML document is empty");
    assert_eq!(validate_xml("\u{2028} ").unwrap()[0], "XML document is empty");
    assert!(validate_xml("\u{200b}").unwrap().iter().all(|d| d != "XML document is empty"));
}
