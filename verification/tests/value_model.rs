use glenders::config::Config;
use glenders::order::Order;

fn text(s: &str) -> Config {
    Config::String(s.to_owned())
}

fn one_of_each() -> Vec<Config> {
    vec![
        Config::Real("1.5".to_owned()),
        Config::Int(7),
        text("seven"),
        Config::Bool(true),
        Config::Array(vec![Config::Int(1)]),
        Config::Hash(vec![(text("a"), Config::Int(1))]),
        Config::Null,
        Config::Invalid,
    ]
}

#[test]
fn new_is_null() {
    assert_eq!(Config::new(), Config::Null);
    assert!(Config::new().is_null());
    assert!(!Config::new().is_invalid());
}

#[test]
fn each_predicate_holds_of_its_own_kind_only() {
    let all = one_of_each();
    for (i, c) in all.iter().enumerate() {
        assert_eq!(c.is_real(), i == 0);
        assert_eq!(c.is_int(), i == 1);
        assert_eq!(c.is_string(), i == 2);
        assert_eq!(c.is_bool(), i == 3);
        assert_eq!(c.is_array(), i == 4);
        assert_eq!(c.is_hash(), i == 5);
        assert_eq!(c.is_null(), i == 6);
        assert_eq!(c.is_invalid(), i == 7);
        assert_eq!(c.is_numeric(), i == 0 || i == 1);
    }
}

#[test]
fn null_is_not_invalid() {
    assert_ne!(Config::Null, Config::Invalid);
    assert_eq!(Config::Null.compare(&Config::Invalid), Order::Less);
}

#[test]
fn kinds_are_ordered_by_rank() {
    let all = one_of_each();
    for i in 0..all.len() {
        for j in 0..all.len() {
            let expected = if i < j {
                Order::Less
            } else if i > j {
                Order::Greater
            } else {
                Order::Equal
            };
            assert_eq!(all[i].compare(&all[j]), expected);
        }
    }
}

#[test]
fn integers_compare_by_value() {
    assert_eq!(Config::Int(-3).compare(&Config::Int(2)), Order::Less);
    assert_eq!(Config::Int(2).compare(&Config::Int(2)), Order::Equal);
    assert_eq!(Config::Int(i64::MAX).compare(&Config::Int(i64::MIN)), Order::Greater);
}

#[test]
fn booleans_compare_false_first() {
    assert_eq!(Config::Bool(false).compare(&Config::Bool(true)), Order::Less);
    assert_eq!(Config::Bool(true).compare(&Config::Bool(false)), Order::Greater);
    assert_eq!(Config::Bool(true).compare(&Config::Bool(true)), Order::Equal);
}

#[test]
fn strings_compare_byte_by_byte() {
    assert_eq!(text("a").compare(&text("b")), Order::Less);
    assert_eq!(text("ab").compare(&text("a")), Order::Greater);
    assert_eq!(text("").compare(&text("a")), Order::Less);
    assert_eq!(text("abc").compare(&text("abc")), Order::Equal);
    assert_eq!(text("Z").compare(&text("a")), Order::Less);
    // Two bytes against three: the order of the encodings is that of the characters.
    assert_eq!(text("\u{e9}").compare(&text("\u{20ac}")), Order::Less);
    assert_eq!(text("z").compare(&text("\u{e9}")), Order::Less);
}

#[test]
fn string_order_agrees_with_the_standard_order() {
    let words = ["", "a", "A", "ab", "b", "includes", "name", "\u{e9}t\u{e9}", "\u{1f600}", "~"];
    for a in words {
        for b in words {
            let expected = match a.cmp(b) {
                std::cmp::Ordering::Less => Order::Less,
                std::cmp::Ordering::Equal => Order::Equal,
                std::cmp::Ordering::Greater => Order::Greater,
            };
            assert_eq!(text(a).compare(&text(b)), expected);
            assert_eq!(
                Config::Real(a.to_owned()).compare(&Config::Real(b.to_owned())),
                expected
            );
        }
    }
}

#[test]
fn sequences_compare_element_by_element() {
    let a = Config::Array(vec![Config::Int(1), Config::Int(2)]);
    let b = Config::Array(vec![Config::Int(1), Config::Int(3)]);
    let prefix = Config::Array(vec![Config::Int(1)]);
    assert_eq!(a.compare(&b), Order::Less);
    assert_eq!(b.compare(&a), Order::Greater);
    assert_eq!(prefix.compare(&a), Order::Less);
    assert_eq!(a.compare(&prefix), Order::Greater);
    assert_eq!(a.compare(&a.clone()), Order::Equal);
    assert_eq!(Config::Array(vec![]).compare(&prefix), Order::Less);
}

#[test]
fn maps_compare_key_then_value() {
    let a = Config::Hash(vec![(text("a"), Config::Int(1))]);
    let b = Config::Hash(vec![(text("a"), Config::Int(2))]);
    let c = Config::Hash(vec![(text("b"), Config::Int(0))]);
    let longer = Config::Hash(vec![(text("a"), Config::Int(1)), (text("b"), Config::Int(0))]);
    assert_eq!(a.compare(&b), Order::Less);
    assert_eq!(b.compare(&c), Order::Less);
    assert_eq!(c.compare(&a), Order::Greater);
    assert_eq!(a.compare(&longer), Order::Less);
    assert_eq!(longer.compare(&longer.clone()), Order::Equal);
}

#[test]
fn clone_is_equal() {
    for c in one_of_each() {
        assert_eq!(c.clone(), c);
    }
    let nested = Config::Hash(vec![(
        text("a"),
        Config::Array(vec![Config::Hash(vec![(Config::Int(1), Config::Null)])]),
    )]);
    assert_eq!(nested.clone(), nested);
}

#[test]
fn well_formed_maps_ascend() {
    let good = Config::Hash(vec![(text("a"), Config::Int(1)), (text("b"), Config::Int(2))]);
    let unordered = Config::Hash(vec![(text("b"), Config::Int(1)), (text("a"), Config::Int(2))]);
    let twice = Config::Hash(vec![(text("a"), Config::Int(1)), (text("a"), Config::Int(2))]);
    assert!(good.is_well_formed());
    assert!(!unordered.is_well_formed());
    assert!(!twice.is_well_formed());
    assert!(Config::Hash(vec![]).is_well_formed());
    for c in one_of_each() {
        assert!(c.is_well_formed());
    }
}

#[test]
fn well_formedness_is_deep() {
    let bad = Config::Hash(vec![(text("b"), Config::Int(1)), (text("a"), Config::Int(2))]);
    assert!(!Config::Array(vec![Config::Int(1), bad.clone()]).is_well_formed());
    assert!(!Config::Hash(vec![(text("k"), bad.clone())]).is_well_formed());
    assert!(!Config::Hash(vec![(bad, Config::Null)]).is_well_formed());
}

#[test]
fn insert_keeps_keys_ascending() {
    let mut c = Config::Hash(vec![]);
    c.insert(text("m"), Config::Int(1));
    c.insert(text("a"), Config::Int(2));
    c.insert(text("z"), Config::Int(3));
    c.insert(Config::Int(5), Config::Int(4));
    assert_eq!(
        c,
        Config::Hash(vec![
            (Config::Int(5), Config::Int(4)),
            (text("a"), Config::Int(2)),
            (text("m"), Config::Int(1)),
            (text("z"), Config::Int(3)),
        ])
    );
    assert!(c.is_well_formed());
}

#[test]
fn insert_replaces_the_value_under_a_key() {
    let mut c = Config::Hash(vec![]);
    c.insert(text("a"), Config::Int(1));
    c.insert(text("b"), Config::Int(2));
    c.insert(text("a"), Config::Bool(true));
    assert_eq!(
        c,
        Config::Hash(vec![(text("a"), Config::Bool(true)), (text("b"), Config::Int(2))])
    );
}

#[test]
fn insert_leaves_other_kinds_alone() {
    let mut c = Config::Int(3);
    c.insert(text("a"), Config::Int(1));
    assert_eq!(c, Config::Int(3));
}

#[test]
fn remove_key_takes_one_entry_out() {
    let mut c = Config::Hash(vec![
        (text("a"), Config::Int(1)),
        (text("b"), Config::Int(2)),
        (text("c"), Config::Int(3)),
    ]);
    c.remove_key("b");
    assert_eq!(
        c,
        Config::Hash(vec![(text("a"), Config::Int(1)), (text("c"), Config::Int(3))])
    );
    c.remove_key("missing");
    assert_eq!(
        c,
        Config::Hash(vec![(text("a"), Config::Int(1)), (text("c"), Config::Int(3))])
    );
    c.remove_key("a");
    c.remove_key("c");
    assert_eq!(c, Config::Hash(vec![]));
}

#[test]
fn remove_key_leaves_other_kinds_alone() {
    let mut c = Config::Array(vec![text("a")]);
    c.remove_key("a");
    assert_eq!(c, Config::Array(vec![text("a")]));
    let mut n = Config::Null;
    n.remove_key("a");
    assert_eq!(n, Config::Null);
}

#[test]
fn remove_key_only_matches_string_keys() {
    let mut c = Config::Hash(vec![(Config::Int(1), Config::Int(1)), (text("1"), Config::Int(2))]);
    c.remove_key("1");
    assert_eq!(c, Config::Hash(vec![(Config::Int(1), Config::Int(1))]));
}

#[test]
fn operators_agree_with_compare() {
    let mut values = one_of_each();
    values.push(Config::Real("1.25".to_owned()));
    values.push(Config::Int(-7));
    values.push(text("seven and a half"));
    values.push(Config::Bool(false));
    values.push(Config::Array(vec![Config::Int(1), Config::Int(0)]));
    values.push(Config::Array(vec![]));
    values.push(Config::Hash(vec![(text("a"), Config::Int(0))]));
    values.push(Config::Hash(vec![(text("a"), Config::Int(1)), (text("b"), Config::Null)]));
    for a in &values {
        for b in &values {
            let order = a.compare(b);
            assert_eq!(a < b, order == Order::Less);
            assert_eq!(a <= b, order != Order::Greater);
            assert_eq!(a == b, order == Order::Equal);
            assert_eq!(a != b, order != Order::Equal);
            assert_eq!(a > b, order == Order::Greater);
            assert_eq!(a >= b, order != Order::Less);
            let expected = match a.cmp(b) {
                std::cmp::Ordering::Less => Order::Less,
                std::cmp::Ordering::Equal => Order::Equal,
                std::cmp::Ordering::Greater => Order::Greater,
            };
            assert_eq!(order, expected);
            assert_eq!(a.partial_cmp(b), Some(a.cmp(b)));
        }
    }
}

#[test]
fn compare_is_a_total_order_on_samples() {
    let mut values = one_of_each();
    values.push(Config::Int(8));
    values.push(text("eight"));
    values.push(Config::Array(vec![Config::Int(1), Config::Int(2)]));
    values.push(Config::Hash(vec![(text("a"), Config::Int(2))]));
    for a in &values {
        assert_eq!(a.compare(a), Order::Equal);
        for b in &values {
            let ab = a.compare(b);
            let ba = b.compare(a);
            match ab {
                Order::Less => assert_eq!(ba, Order::Greater),
                Order::Equal => assert_eq!(ba, Order::Equal),
                Order::Greater => assert_eq!(ba, Order::Less),
            }
            for c in &values {
                if ab == Order::Less && b.compare(c) == Order::Less {
                    assert_eq!(a.compare(c), Order::Less);
                }
            }
        }
    }
}
