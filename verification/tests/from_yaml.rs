use glenders::config::Config;
use glenders::error::LoadError;
use yaml_rust::{Yaml, YamlLoader};

fn name(s: &str) -> Config {
    Config::String(s.to_owned())
}

fn yaml_text(s: &str) -> Yaml {
    Yaml::String(s.to_owned())
}

#[test]
fn scalars_convert_kind_for_kind() {
    assert_eq!(Config::from_yaml(Yaml::Real("1.5".to_owned())), Config::Real("1.5".to_owned()));
    assert_eq!(Config::from_yaml(Yaml::Integer(-7)), Config::Int(-7));
    assert_eq!(Config::from_yaml(yaml_text("seven")), name("seven"));
    assert_eq!(Config::from_yaml(Yaml::Boolean(true)), Config::Bool(true));
    assert_eq!(Config::from_yaml(Yaml::Null), Config::Null);
}

#[test]
fn bad_value_converts_to_invalid() {
    assert_eq!(Config::from_yaml(Yaml::BadValue), Config::Invalid);
}

#[test]
fn real_keeps_its_text() {
    for text in ["1.50", ".inf", "1e3", "-0.0"] {
        assert_eq!(Config::from_yaml(Yaml::Real(text.to_owned())), Config::Real(text.to_owned()));
    }
}

#[test]
fn sequence_keeps_its_order() {
    let yaml = Yaml::Array(vec![Yaml::Integer(3), Yaml::Integer(1), yaml_text("b"), Yaml::Null]);
    assert_eq!(
        Config::from_yaml(yaml),
        Config::Array(vec![Config::Int(3), Config::Int(1), name("b"), Config::Null])
    );
    assert_eq!(Config::from_yaml(Yaml::Array(vec![])), Config::Array(vec![]));
}

#[test]
fn map_is_held_in_key_order() {
    let mut hash = yaml_rust::yaml::Hash::new();
    hash.insert(yaml_text("z"), Yaml::Integer(1));
    hash.insert(yaml_text("a"), Yaml::Integer(2));
    hash.insert(Yaml::Integer(9), Yaml::Integer(3));
    hash.insert(yaml_text("m"), Yaml::Integer(4));
    let config = Config::from_yaml(Yaml::Hash(hash));
    assert_eq!(
        config,
        Config::Hash(vec![
            (Config::Int(9), Config::Int(3)),
            (name("a"), Config::Int(2)),
            (name("m"), Config::Int(4)),
            (name("z"), Config::Int(1)),
        ])
    );
    assert!(config.is_well_formed());
}

#[test]
fn nested_values_convert() {
    let mut inner = yaml_rust::yaml::Hash::new();
    inner.insert(
        yaml_text("dimensions"),
        Yaml::Array(vec![Yaml::Integer(800), Yaml::Integer(600)]),
    );
    let mut outer = yaml_rust::yaml::Hash::new();
    outer.insert(yaml_text("graphics"), Yaml::Hash(inner));
    let config = Config::from_yaml(Yaml::Hash(outer));
    assert_eq!(
        config,
        Config::Hash(vec![(
            name("graphics"),
            Config::Hash(vec![(
                name("dimensions"),
                Config::Array(vec![Config::Int(800), Config::Int(600)])
            )]),
        )])
    );
}

#[test]
fn keys_that_convert_alike_keep_the_later_value() {
    // Two maps that differ in the order of their entries are two keys of a YAML map,
    // and one key of a configuration.
    let mut first = yaml_rust::yaml::Hash::new();
    first.insert(yaml_text("a"), Yaml::Integer(1));
    first.insert(yaml_text("b"), Yaml::Integer(2));
    let mut second = yaml_rust::yaml::Hash::new();
    second.insert(yaml_text("b"), Yaml::Integer(2));
    second.insert(yaml_text("a"), Yaml::Integer(1));
    let mut hash = yaml_rust::yaml::Hash::new();
    hash.insert(Yaml::Hash(first), yaml_text("first"));
    hash.insert(Yaml::Hash(second), yaml_text("second"));
    assert_eq!(hash.len(), 2);
    let config = Config::from_yaml(Yaml::Hash(hash));
    assert_eq!(
        config,
        Config::Hash(vec![(
            Config::Hash(vec![(name("a"), Config::Int(1)), (name("b"), Config::Int(2))]),
            name("second"),
        )])
    );
}

#[test]
fn try_from_yaml_converts_what_has_no_alias() {
    let yaml = Yaml::Array(vec![Yaml::Integer(1), yaml_text("a")]);
    assert_eq!(
        Config::try_from_yaml(&yaml),
        Some(Config::Array(vec![Config::Int(1), name("a")]))
    );
}

#[test]
fn try_from_yaml_rejects_an_alias_anywhere() {
    assert_eq!(Config::try_from_yaml(&Yaml::Alias(1)), None);
    let in_array = Yaml::Array(vec![Yaml::Integer(1), Yaml::Alias(0)]);
    assert_eq!(Config::try_from_yaml(&in_array), None);
    let mut as_value = yaml_rust::yaml::Hash::new();
    as_value.insert(yaml_text("k"), Yaml::Alias(2));
    assert_eq!(Config::try_from_yaml(&Yaml::Hash(as_value)), None);
    let mut as_key = yaml_rust::yaml::Hash::new();
    as_key.insert(Yaml::Alias(2), yaml_text("v"));
    assert_eq!(Config::try_from_yaml(&Yaml::Hash(as_key)), None);
    let deep = Yaml::Array(vec![Yaml::Array(vec![Yaml::Array(vec![Yaml::Alias(3)])])]);
    assert_eq!(Config::try_from_yaml(&deep), None);
}

#[test]
fn from_documents_takes_the_last_document() {
    let docs = vec![Yaml::Integer(1), Yaml::Integer(2), yaml_text("last")];
    assert_eq!(Config::from_documents(docs), Ok(name("last")));
}

#[test]
fn from_documents_of_nothing_is_null() {
    assert_eq!(Config::from_documents(vec![]), Ok(Config::Null));
}

#[test]
fn from_documents_fails_on_an_alias_in_the_last_document() {
    assert_eq!(Config::from_documents(vec![Yaml::Alias(1)]), Err(LoadError::Alias));
    assert_eq!(
        Config::from_documents(vec![Yaml::Alias(1), Yaml::Integer(1)]),
        Ok(Config::Int(1))
    );
}

#[test]
fn text_parses_to_a_tree() {
    let text = "graphics:\n  dimensions: [1024, 768]\n  fullscreen: true\n  gamma: 2.2\n\
                name: demo\nnothing: ~\n";
    let config = Config::from_yaml_str(text).unwrap();
    assert_eq!(
        config,
        Config::Hash(vec![
            (
                name("graphics"),
                Config::Hash(vec![
                    (name("dimensions"), Config::Array(vec![Config::Int(1024), Config::Int(768)])),
                    (name("fullscreen"), Config::Bool(true)),
                    (name("gamma"), Config::Real("2.2".to_owned())),
                ]),
            ),
            (name("name"), name("demo")),
            (name("nothing"), Config::Null),
        ])
    );
}

#[test]
fn text_agrees_with_the_parser() {
    let text = "a: [1, two, 3.0, true, ~]\nb: {c: d}\n7: seven\n";
    let mut docs = YamlLoader::load_from_str(text).unwrap();
    let expected = Config::from_yaml(docs.pop().unwrap());
    assert_eq!(Config::from_yaml_str(text), Ok(expected));
}

#[test]
fn empty_text_is_the_empty_configuration() {
    assert_eq!(Config::from_yaml_str(""), Ok(Config::Null));
    assert_eq!(Config::from_yaml_str("   \n\n"), Ok(Config::Null));
    assert_eq!(Config::from_yaml_str("# only a comment\n"), Ok(Config::Null));
}

#[test]
fn text_of_several_documents_gives_the_last() {
    assert_eq!(
        Config::from_yaml_str("a: 1\n---\nb: 2\n"),
        Ok(Config::Hash(vec![(name("b"), Config::Int(2))]))
    );
}

#[test]
fn malformed_text_fails_with_the_parser_message() {
    let text = "a: [1, 2\nb: }";
    let error = YamlLoader::load_from_str(text).unwrap_err();
    #[allow(deprecated)]
    let expected = std::error::Error::description(&error).to_owned();
    assert!(!expected.is_empty());
    assert_eq!(Config::from_yaml_str(text), Err(LoadError::Malformed(expected)));
}

#[test]
fn anchors_are_resolved_by_the_parser() {
    let config = Config::from_yaml_str("base: &b {x: 1}\ncopy: *b\n").unwrap();
    assert_eq!(config["copy"], config["base"]);
    assert_eq!(config["copy"]["x"], Config::Int(1));
}

#[test]
fn repeated_key_in_text_keeps_the_later_value() {
    assert_eq!(
        Config::from_yaml_str("a: 1\nb: 2\na: 3\n"),
        Ok(Config::Hash(vec![(name("a"), Config::Int(3)), (name("b"), Config::Int(2))]))
    );
}

#[test]
fn error_messages() {
    assert_eq!(
        LoadError::UnsupportedFileType("a.txt".to_owned()).message(),
        "Unkown filetype, supported: yml"
    );
    assert_eq!(
        LoadError::Malformed("did not find expected node content".to_owned()).message(),
        "did not find expected node content"
    );
    assert_eq!(
        LoadError::MissingInclude("conf/x.yml".to_owned()).message(),
        "Included file not found: conf/x.yml"
    );
    assert_eq!(
        LoadError::Unreadable("permission denied".to_owned()).message(),
        "permission denied"
    );
    assert_eq!(LoadError::Alias.message(), "Aliases in yaml file not supported");
}
