use glenders::config::Config;

fn parse(text: &str) -> Config {
    Config::from_yaml_str(text).unwrap()
}

fn key(s: &str) -> Config {
    Config::String(s.to_owned())
}

#[test]
fn merge_is_recursive_on_maps_and_right_biased() {
    let base = parse("{a: 1, b: {x: 1}}");
    let over = parse("{b: {y: 2}, c: 3}");
    assert_eq!(base.merge(over), parse("{a: 1, b: {x: 1, y: 2}, c: 3}"));
}

#[test]
fn merge_gives_the_exact_entries() {
    let base = Config::Hash(vec![
        (key("a"), Config::Int(1)),
        (key("b"), Config::Hash(vec![(key("x"), Config::Int(1))])),
    ]);
    let over = Config::Hash(vec![
        (key("b"), Config::Hash(vec![(key("y"), Config::Int(2))])),
        (key("c"), Config::Int(3)),
    ]);
    let expected = Config::Hash(vec![
        (key("a"), Config::Int(1)),
        (
            key("b"),
            Config::Hash(vec![(key("x"), Config::Int(1)), (key("y"), Config::Int(2))]),
        ),
        (key("c"), Config::Int(3)),
    ]);
    assert_eq!(base.merge(over), expected);
}

#[test]
fn merge_replaces_sequences() {
    let base = parse("{a: [1, 2]}");
    let over = parse("{a: [3]}");
    assert_eq!(base.merge(over), parse("{a: [3]}"));
}

#[test]
fn merge_with_a_scalar_gives_the_scalar() {
    let base = parse("{a: 1}");
    assert_eq!(base.merge(Config::Int(5)), Config::Int(5));
}

#[test]
fn merge_with_anything_but_a_map_gives_it_back() {
    let overrides = vec![
        Config::Real("2.5".to_owned()),
        Config::Int(5),
        key("text"),
        Config::Bool(false),
        Config::Array(vec![Config::Int(1)]),
        Config::Null,
        Config::Invalid,
    ];
    let bases = vec![
        parse("{a: 1}"),
        Config::Int(1),
        Config::Array(vec![Config::Int(9), Config::Int(8)]),
        Config::Null,
        key("base"),
    ];
    for base in &bases {
        for over in &overrides {
            assert_eq!(base.clone().merge(over.clone()), over.clone());
        }
    }
}

#[test]
fn merge_of_a_map_over_anything_else_gives_the_map() {
    let over = parse("{a: 1}");
    assert_eq!(Config::Int(1).merge(over.clone()), over);
    assert_eq!(Config::Null.merge(over.clone()), over);
    assert_eq!(Config::Array(vec![]).merge(over.clone()), over);
}

#[test]
fn merge_overrides_scalars_under_the_same_key() {
    let base = parse("{a: 1, b: 2}");
    let over = parse("{a: 10}");
    assert_eq!(base.merge(over), parse("{a: 10, b: 2}"));
}

#[test]
fn merge_lets_a_scalar_override_a_map_and_a_map_a_scalar() {
    assert_eq!(parse("{a: {x: 1}}").merge(parse("{a: 5}")), parse("{a: 5}"));
    assert_eq!(parse("{a: 5}").merge(parse("{a: {x: 1}}")), parse("{a: {x: 1}}"));
}

#[test]
fn merge_with_an_empty_map_changes_nothing() {
    let c = parse("{a: 1, b: {x: [1, 2]}}");
    assert_eq!(c.clone().merge(Config::Hash(vec![])), c);
    assert_eq!(Config::Hash(vec![]).merge(c.clone()), c);
}

#[test]
fn merge_with_itself_changes_nothing() {
    let c = parse("{a: 1, b: {x: [1, 2], y: {z: ~}}}");
    assert_eq!(c.clone().merge(c.clone()), c);
}

#[test]
fn merge_goes_down_several_levels() {
    let base = parse("{a: {b: {c: {d: 1, e: 2}}}}");
    let over = parse("{a: {b: {c: {e: 3, f: 4}}}}");
    assert_eq!(base.merge(over), parse("{a: {b: {c: {d: 1, e: 3, f: 4}}}}"));
}

#[test]
fn merge_interleaves_keys_in_order() {
    let base = parse("{a: 1, c: 3, e: 5, g: 7}");
    let over = parse("{b: 2, d: 4, f: 6, h: 8}");
    let merged = base.merge(over);
    assert_eq!(merged, parse("{a: 1, b: 2, c: 3, d: 4, e: 5, f: 6, g: 7, h: 8}"));
    assert!(merged.is_well_formed());
}

#[test]
fn merge_handles_maps_of_different_lengths() {
    let base = parse("{z: 1}");
    let over = parse("{a: 1, b: 2, c: 3}");
    assert_eq!(base.clone().merge(over.clone()), parse("{a: 1, b: 2, c: 3, z: 1}"));
    assert_eq!(over.merge(base), parse("{a: 1, b: 2, c: 3, z: 1}"));
}

#[test]
fn merge_keeps_keys_of_every_kind() {
    let base = Config::Hash(vec![(Config::Int(1), key("one")), (key("1"), key("text one"))]);
    let over = Config::Hash(vec![(Config::Int(1), key("uno")), (Config::Bool(true), Config::Null)]);
    assert_eq!(
        base.merge(over),
        Config::Hash(vec![
            (Config::Int(1), key("uno")),
            (key("1"), key("text one")),
            (Config::Bool(true), Config::Null),
        ])
    );
}

#[test]
fn merged_lookups_follow_the_rule() {
    let base = parse("{only_base: 1, both: {x: 1}, scalar: 1}");
    let over = parse("{only_over: 2, both: {y: 2}, scalar: 2}");
    let merged = base.clone().merge(over.clone());
    assert_eq!(merged["only_base"], base["only_base"]);
    assert_eq!(merged["only_over"], over["only_over"]);
    assert_eq!(merged["both"], base["both"].clone().merge(over["both"].clone()));
    assert_eq!(merged["scalar"], over["scalar"]);
    assert!(merged["neither"].is_invalid());
}
