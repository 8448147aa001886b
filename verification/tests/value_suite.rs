//! The value model: decimals, key paths, and value equality.

use metatree::values::Decimal;
use metatree::values::MetaKey;
use metatree::values::MetaVal;

fn i(x: i64) -> MetaVal {
    MetaVal::Int(x)
}

fn d(m: i64, e: u32) -> MetaVal {
    MetaVal::Dec(Decimal::new(m, e))
}

fn sample_number_sequence(int_max: i64, dec_extremes: bool, include_zero: bool) -> MetaVal {
    let mut nums: Vec<MetaVal> = vec![];

    for n in 1..=int_max {
        nums.push(i(n));
        nums.push(i(-n));
        let m = (n - 1) * 10 + 5;
        nums.push(d(m, 1));
        nums.push(d(-m, 1));
    }

    if dec_extremes {
        let m = int_max * 10 + 5;
        nums.push(d(m, 1));
        nums.push(d(-m, 1));
    }

    if include_zero {
        nums.push(i(0));
    }

    MetaVal::Sequence(nums)
}

#[test]
fn test_sample_number_sequence() {
    let test_cases = vec![
        (
            sample_number_sequence(2, false, false),
            MetaVal::Sequence(vec![
                i(1),
                i(-1),
                d(5, 1),
                d(-5, 1),
                i(2),
                i(-2),
                d(15, 1),
                d(-15, 1),
            ]),
        ),
        (
            sample_number_sequence(2, true, false),
            MetaVal::Sequence(vec![
                i(1),
                i(-1),
                d(5, 1),
                d(-5, 1),
                i(2),
                i(-2),
                d(15, 1),
                d(-15, 1),
                d(25, 1),
                d(-25, 1),
            ]),
        ),
        (
            sample_number_sequence(2, false, true),
            MetaVal::Sequence(vec![
                i(1),
                i(-1),
                d(5, 1),
                d(-5, 1),
                i(2),
                i(-2),
                d(15, 1),
                d(-15, 1),
                i(0),
            ]),
        ),
        (
            sample_number_sequence(2, true, true),
            MetaVal::Sequence(vec![
                i(1),
                i(-1),
                d(5, 1),
                d(-5, 1),
                i(2),
                i(-2),
                d(15, 1),
                d(-15, 1),
                d(25, 1),
                d(-25, 1),
                i(0),
            ]),
        ),
    ];

    for (input, expected) in test_cases {
        assert_eq!(input, expected);
    }
}

#[test]
fn decimals_normalize_trailing_zeros() {
    assert_eq!(Decimal::new(1500, 3), Decimal::new(15, 1));
    assert_eq!(Decimal::new(1500, 2), Decimal::new(15, 0));
    assert_eq!(Decimal::new(-200, 2), Decimal::new(-2, 0));
    assert!(Decimal::checked_new(1, 19).is_none());
    assert!(Decimal::checked_new(1, 18).is_some());
}

fn mapping(pairs: Vec<(MetaKey, MetaVal)>) -> MetaVal {
    MetaVal::Mapping(pairs)
}

fn key(name: &str) -> MetaKey {
    MetaKey::Str(name.to_string())
}

#[test]
fn test_get_key_path() {
    let key_str_a = key("key_a");
    let key_str_b = key("key_b");
    let key_str_c = key("key_c");
    let key_str_x = key("key_x");

    let val_nil = MetaVal::Nil;
    let val_str_a = MetaVal::Str("val_a".to_string());
    let val_str_b = MetaVal::Str("val_b".to_string());
    let val_str_c = MetaVal::Str("val_c".to_string());
    let val_seq_a = MetaVal::Sequence(vec![
        val_str_a.clone_by(),
        val_str_a.clone_by(),
        val_str_a.clone_by(),
    ]);
    let val_seq_b = MetaVal::Sequence(vec![
        val_str_b.clone_by(),
        val_str_b.clone_by(),
        val_str_b.clone_by(),
    ]);
    let val_seq_c = MetaVal::Sequence(vec![
        val_str_c.clone_by(),
        val_str_c.clone_by(),
        val_str_c.clone_by(),
    ]);
    let val_map_a = mapping(vec![
        (key_str_a.duplicate(), val_str_a.clone_by()),
        (key_str_b.duplicate(), val_str_b.clone_by()),
        (key_str_c.duplicate(), val_str_c.clone_by()),
    ]);
    let val_map_b = mapping(vec![
        (key_str_a.duplicate(), val_seq_a.clone_by()),
        (key_str_b.duplicate(), val_seq_b.clone_by()),
        (key_str_c.duplicate(), val_seq_c.clone_by()),
    ]);
    let val_map_c = mapping(vec![
        (key_str_a.duplicate(), val_nil.clone_by()),
        (key_str_b.duplicate(), val_nil.clone_by()),
        (key_str_c.duplicate(), val_nil.clone_by()),
    ]);
    let val_map_d = mapping(vec![
        (key_str_a.duplicate(), val_map_a.clone_by()),
        (key_str_b.duplicate(), val_map_b.clone_by()),
        (key_str_c.duplicate(), val_map_c.clone_by()),
    ]);

    // An empty key path always returns the original value.
    assert_eq!(val_nil.get_key_path(&[]), Some(&val_nil));
    assert_eq!(val_str_a.get_key_path(&[]), Some(&val_str_a));
    assert_eq!(val_seq_a.get_key_path(&[]), Some(&val_seq_a));
    assert_eq!(val_map_a.get_key_path(&[]), Some(&val_map_a));

    // A non-empty key path returns no value on non-maps.
    assert_eq!(val_nil.get_key_path(&[&key_str_a]), None);
    assert_eq!(val_str_a.get_key_path(&[&key_str_a]), None);
    assert_eq!(val_seq_a.get_key_path(&[&key_str_a]), None);

    // If the key is not found in a mapping, nothing is returned.
    assert_eq!(val_map_a.get_key_path(&[&key_str_x]), None);
    assert_eq!(val_map_d.get_key_path(&[&key_str_a, &key_str_x]), None);

    // Positive test cases.
    assert_eq!(val_map_a.get_key_path(&[&key_str_a]), Some(&val_str_a));
    assert_eq!(val_map_b.get_key_path(&[&key_str_a]), Some(&val_seq_a));
    assert_eq!(val_map_c.get_key_path(&[&key_str_a]), Some(&val_nil));
    assert_eq!(val_map_d.get_key_path(&[&key_str_a]), Some(&val_map_a));
    assert_eq!(val_map_a.get_key_path(&[&key_str_b]), Some(&val_str_b));
    assert_eq!(val_map_b.get_key_path(&[&key_str_b]), Some(&val_seq_b));
    assert_eq!(val_map_c.get_key_path(&[&key_str_b]), Some(&val_nil));
    assert_eq!(val_map_d.get_key_path(&[&key_str_b]), Some(&val_map_b));
    assert_eq!(val_map_a.get_key_path(&[&key_str_c]), Some(&val_str_c));
    assert_eq!(val_map_b.get_key_path(&[&key_str_c]), Some(&val_seq_c));
    assert_eq!(val_map_c.get_key_path(&[&key_str_c]), Some(&val_nil));
    assert_eq!(val_map_d.get_key_path(&[&key_str_c]), Some(&val_map_c));

    // Nested positive test cases.
    assert_eq!(val_map_d.get_key_path(&[&key_str_a, &key_str_a]), Some(&val_str_a));
    assert_eq!(val_map_d.get_key_path(&[&key_str_b, &key_str_b]), Some(&val_seq_b));
    assert_eq!(val_map_d.get_key_path(&[&key_str_c, &key_str_c]), Some(&val_nil));
}

trait CloneBy {
    fn clone_by(&self) -> MetaVal;
}

impl CloneBy for MetaVal {
    fn clone_by(&self) -> MetaVal {
        self.duplicate()
    }
}
