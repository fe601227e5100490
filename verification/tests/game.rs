use wren_engine::game::{yaml_lookup, Profile, ProfileError, YamlValue};

fn text(s: &str) -> YamlValue {
    YamlValue::Str(s.to_string())
}

fn profile_doc(name: YamlValue, modules: YamlValue) -> YamlValue {
    YamlValue::Hash(vec![(text("name"), name), (text("modules"), modules)])
}

#[test]
fn parses_a_profile() {
    let p = Profile::parse("name: demo\nmodules:\n  - core\n  - ui >= 1.2\n").ok().unwrap();
    assert_eq!(p.name, "demo");
    assert_eq!(p.modules, vec!["core".to_string(), "ui >= 1.2".to_string()]);
}

#[test]
fn parses_an_empty_module_list() {
    let p = Profile::parse("name: bare\nmodules: []\n").ok().unwrap();
    assert_eq!(p.name, "bare");
    assert!(p.modules.is_empty());
}

#[test]
fn only_the_first_document_counts() {
    let p = Profile::parse("name: one\nmodules: [a]\n---\nname: two\nmodules: [b]\n").ok().unwrap();
    assert_eq!(p.name, "one");
    assert_eq!(p.modules, vec!["a".to_string()]);
}

#[test]
fn profile_errors() {
    assert_eq!(Profile::parse("name: [").err(), Some(ProfileError::InvalidYaml));
    assert_eq!(Profile::parse("").err(), Some(ProfileError::NoDocument));
    assert_eq!(Profile::parse("name: 3\nmodules: []\n").err(), Some(ProfileError::InvalidName));
    assert_eq!(Profile::parse("modules: [a]\n").err(), Some(ProfileError::InvalidName));
    assert_eq!(Profile::parse("name: x\n").err(), Some(ProfileError::InvalidModuleList));
    assert_eq!(Profile::parse("name: x\nmodules: a\n").err(), Some(ProfileError::InvalidModuleList));
    assert_eq!(Profile::parse("name: x\nmodules: [a, 1]\n").err(), Some(ProfileError::InvalidModule));
}

#[test]
fn name_is_checked_before_modules() {
    assert_eq!(Profile::parse("name: 1\nmodules: 2\n").err(), Some(ProfileError::InvalidName));
    assert_eq!(Profile::parse("name: y\nmodules: 2\n").err(), Some(ProfileError::InvalidModuleList));
}

#[test]
fn profile_from_documents() {
    let p = Profile::from_documents(vec![
        profile_doc(text("n"), YamlValue::Array(vec![text("m1"), text("m2")])),
        YamlValue::Null,
    ]);
    assert_eq!(p.name, "n");
    assert_eq!(p.modules, vec!["m1".to_string(), "m2".to_string()]);
    let p = Profile::from_documents(vec![profile_doc(text(""), YamlValue::Array(vec![]))]);
    assert_eq!(p.name, "");
    assert!(p.modules.is_empty());
}

#[test]
fn lookup_reads_string_keys_only() {
    let doc = YamlValue::Hash(vec![
        (YamlValue::Integer(1), text("one")),
        (text("a"), YamlValue::Boolean(true)),
    ]);
    assert!(matches!(yaml_lookup(&doc, &"a".to_string()), Some(YamlValue::Boolean(true))));
    assert!(yaml_lookup(&doc, &"1".to_string()).is_none());
    assert!(yaml_lookup(&doc, &"b".to_string()).is_none());
    assert!(yaml_lookup(&YamlValue::Null, &"a".to_string()).is_none());
}
