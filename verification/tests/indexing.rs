use glenders::config::Config;
use glenders::path::Segment;

fn word(s: &str) -> Config {
    Config::String(s.to_owned())
}

fn sample() -> Config {
    // {a: {b: [10, 20, {c: true}]}, n: ~, s: text}
    Config::Hash(vec![
        (
            word("a"),
            Config::Hash(vec![(
                word("b"),
                Config::Array(vec![
                    Config::Int(10),
                    Config::Int(20),
                    Config::Hash(vec![(word("c"), Config::Bool(true))]),
                ]),
            )]),
        ),
        (word("n"), Config::Null),
        (word("s"), word("text")),
    ])
}

#[test]
fn index_by_key_finds_the_value() {
    let c = sample();
    assert_eq!(c.index_by_key("s"), &word("text"));
    assert_eq!(c.index_by_key("n"), &Config::Null);
    assert!(c.index_by_key("a").is_hash());
}

#[test]
fn index_by_key_finds_every_key_of_a_large_map() {
    let mut c = Config::Hash(vec![]);
    for i in 0..200 {
        c.insert(word(&format!("key{}", i)), Config::Int(i));
    }
    for i in 0..200 {
        assert_eq!(c.index_by_key(&format!("key{}", i)), &Config::Int(i));
    }
    assert_eq!(c.index_by_key("key200"), &Config::Invalid);
    assert_eq!(c.index_by_key(""), &Config::Invalid);
    assert_eq!(c.index_by_key("zzz"), &Config::Invalid);
}

#[test]
fn index_by_key_misses_give_invalid() {
    let c = sample();
    assert_eq!(c.index_by_key("missing"), &Config::Invalid);
    assert_eq!(Config::Int(3).index_by_key("a"), &Config::Invalid);
    assert_eq!(Config::Null.index_by_key("a"), &Config::Invalid);
    assert_eq!(Config::Invalid.index_by_key("a"), &Config::Invalid);
    assert_eq!(Config::Array(vec![word("a")]).index_by_key("a"), &Config::Invalid);
}

#[test]
fn null_value_is_found_not_invalid() {
    let c = sample();
    assert!(c.index_by_key("n").is_null());
    assert!(!c.index_by_key("n").is_invalid());
}

#[test]
fn index_by_position_finds_the_element() {
    let a = Config::Array(vec![Config::Int(10), Config::Int(20)]);
    assert_eq!(a.index_by_position(0), &Config::Int(10));
    assert_eq!(a.index_by_position(1), &Config::Int(20));
}

#[test]
fn index_by_position_misses_give_invalid() {
    let a = Config::Array(vec![Config::Int(10), Config::Int(20)]);
    assert_eq!(a.index_by_position(2), &Config::Invalid);
    assert_eq!(a.index_by_position(usize::MAX), &Config::Invalid);
    assert_eq!(Config::Array(vec![]).index_by_position(0), &Config::Invalid);
    assert_eq!(sample().index_by_position(0), &Config::Invalid);
    assert_eq!(word("abc").index_by_position(0), &Config::Invalid);
    assert_eq!(Config::Invalid.index_by_position(0), &Config::Invalid);
}

#[test]
fn brackets_index_like_the_methods() {
    let c = sample();
    assert_eq!(c["s"], word("text"));
    assert_eq!(c["a"]["b"][1], Config::Int(20));
    assert_eq!(c["a"]["b"][2]["c"], Config::Bool(true));
    assert_eq!(c["missing"], Config::Invalid);
    assert_eq!(c["a"]["b"][3], Config::Invalid);
}

#[test]
fn chains_through_missing_parts_give_invalid() {
    let c = sample();
    assert!(c["x"]["y"]["z"].is_invalid());
    assert!(c["a"]["x"][0].is_invalid());
    assert!(c["a"]["b"][9]["c"].is_invalid());
    assert!(c["s"]["inside"].is_invalid());
    assert!(c["s"][0].is_invalid());
    assert!(c["n"]["inside"].is_invalid());
    assert!(c[0]["a"].is_invalid());
    assert!(c["a"]["b"]["c"].is_invalid());
}

#[test]
fn follow_walks_a_path() {
    let c = sample();
    let path = vec![
        Segment::Key("a".to_owned()),
        Segment::Key("b".to_owned()),
        Segment::Position(2),
        Segment::Key("c".to_owned()),
    ];
    assert_eq!(c.follow(&path), &Config::Bool(true));
    assert_eq!(c.follow(&[]), &c);
}

#[test]
fn follow_agrees_with_brackets() {
    let c = sample();
    let hit =
        vec![Segment::Key("a".to_owned()), Segment::Key("b".to_owned()), Segment::Position(0)];
    assert_eq!(c.follow(&hit), &c["a"]["b"][0]);
    let miss =
        vec![Segment::Key("a".to_owned()), Segment::Position(0), Segment::Key("b".to_owned())];
    assert_eq!(c.follow(&miss), &c["a"][0]["b"]);
    assert_eq!(c.follow(&miss), &Config::Invalid);
}

#[test]
fn follow_through_a_scalar_gives_invalid() {
    let c = sample();
    let path = vec![Segment::Key("s".to_owned()), Segment::Position(0)];
    assert_eq!(c.follow(&path), &Config::Invalid);
    let longer = vec![
        Segment::Key("none".to_owned()),
        Segment::Key("a".to_owned()),
        Segment::Position(1),
    ];
    assert_eq!(c.follow(&longer), &Config::Invalid);
}
