use rds::hashtable::append_line;
use rds::hashtable::dump_texts;
use rds::hashtable::HashTable;
use rds::key::HashKey;
use rds::model::LoadFactor;
use rds::text::DebugText;
use std::collections::hash_map::DefaultHasher;
use std::hash::Hash;
use std::hash::Hasher;

fn std_digest<H: Hash>(value: &H) -> u64 {
    let mut s = DefaultHasher::new();
    value.hash(&mut s);
    s.finish()
}

#[test]
fn test_put() {
    let mut m: HashTable<char, i32> = HashTable::new();
    m = m.put('a', 1);
    println!("{:?}", m);
    assert_eq!(m.get('a'), Some(&1));
}

#[test]
fn test_rehashing() {
    let mut m: HashTable<char, i32> = HashTable::new();
    let values: Vec<(i32, char)> = (1..26).into_iter().zip('a'..'z').collect();

    for (i, c) in values.into_iter() {
        m = m.put(c, i);
    }

    assert_eq!(m.size, 25);
}

#[test]
fn new_table_is_empty_with_16_buckets() {
    let m: HashTable<char, i32> = HashTable::new();

    assert_eq!(m.size, 0);
    assert_eq!(m.bucket_count(), 16);
    assert_eq!(m.get('a'), None);
    assert_eq!(m.to_string(), "");
}

#[test]
fn with_sets_the_bucket_count() {
    let m: HashTable<u64, u64> = HashTable::with(7, LoadFactor { num: 3, den: 4 });

    assert_eq!(m.size, 0);
    assert_eq!(m.bucket_count(), 7);
    assert_eq!(m.get(1), None);
}

#[test]
fn get_present_and_absent() {
    let mut m: HashTable<char, i32> = HashTable::new();
    m = m.put('a', 1);

    assert_eq!(m.get('a'), Some(&1));
    assert_eq!(m.get('b'), None);
}

#[test]
fn second_put_replaces_the_value() {
    let mut m: HashTable<char, i32> = HashTable::new();
    m = m.put('k', 10);
    let size_after_first = m.size;
    let buckets_after_first = m.bucket_count();
    m = m.put('k', 20);

    assert_eq!(m.get('k'), Some(&20));
    assert_eq!(m.size, size_after_first);
    assert_eq!(m.size, 1);
    assert_eq!(m.bucket_count(), buckets_after_first);
}

#[test]
fn get_gives_the_last_value_put() {
    let mut m: HashTable<u32, i64> = HashTable::new();
    let puts: [(u32, i64); 8] =
        [(1, 10), (2, 20), (3, 30), (1, 11), (4, 40), (2, 22), (1, 12), (5, 50)];
    for (k, v) in puts {
        m = m.put(k, v);
    }

    assert_eq!(m.get(1), Some(&12));
    assert_eq!(m.get(2), Some(&22));
    assert_eq!(m.get(3), Some(&30));
    assert_eq!(m.get(4), Some(&40));
    assert_eq!(m.get(5), Some(&50));
    assert_eq!(m.get(6), None);
    assert_eq!(m.get(0), None);
}

#[test]
fn size_counts_distinct_keys() {
    let mut m: HashTable<i32, i32> = HashTable::new();
    let mut calls = 0;
    for round in 0..5 {
        for k in -3..4 {
            m = m.put(k, round * 100 + k);
            calls += 1;
        }
    }

    assert_eq!(calls, 35);
    assert_eq!(m.size, 7);
    for k in -3..4 {
        assert_eq!(m.get(k), Some(&(400 + k)));
    }
}

#[test]
fn twenty_five_keys_double_sixteen_buckets() {
    let mut m: HashTable<char, i32> = HashTable::new();
    let keys: Vec<char> = ('a'..'z').collect();
    assert_eq!(keys.len(), 25);

    for (i, c) in keys.iter().enumerate() {
        m = m.put(*c, i as i32 + 1);
        if i + 1 < 16 {
            assert_eq!(m.bucket_count(), 16);
        } else {
            assert_eq!(m.bucket_count(), 32);
        }
    }

    assert_eq!(m.size, 25);
    assert_eq!(m.bucket_count(), 32);
    for (i, c) in keys.iter().enumerate() {
        assert_eq!(m.get(*c), Some(&(i as i32 + 1)));
    }
    assert_eq!(m.get('z'), None);
}

#[test]
fn half_load_factor_grows_four_buckets_at_two_keys() {
    let mut m: HashTable<char, i32> = HashTable::with(4, LoadFactor { num: 1, den: 2 });
    m = m.put('x', 1);
    assert_eq!(m.bucket_count(), 4);
    m = m.put('y', 2);

    assert_eq!(m.bucket_count(), 8);
    assert_eq!(m.size, 2);
    assert_eq!(m.get('x'), Some(&1));
    assert_eq!(m.get('y'), Some(&2));
}

#[test]
fn growth_keeps_every_entry() {
    let mut m: HashTable<u64, u64> = HashTable::with(1, LoadFactor { num: 1, den: 1 });
    let mut buckets = m.bucket_count();
    for n in 0..300u64 {
        let k = n * 7919;
        m = m.put(k, n);
        let now = m.bucket_count();
        assert!(now == buckets || now == 2 * buckets);
        if now != buckets {
            for earlier in 0..=n {
                assert_eq!(m.get(earlier * 7919), Some(&earlier));
            }
            assert_eq!(m.size as u64, n + 1);
        }
        buckets = now;
    }

    assert_eq!(m.size, 300);
    assert_eq!(m.bucket_count(), 512);
    assert_eq!(m.get(5), None);
}

#[test]
fn replacing_never_grows() {
    let mut m: HashTable<char, i32> = HashTable::with(2, LoadFactor { num: 0, den: 1 });
    m = m.put('a', 1);
    assert_eq!(m.bucket_count(), 4);
    m = m.put('a', 2);

    assert_eq!(m.bucket_count(), 4);
    assert_eq!(m.size, 1);
    assert_eq!(m.get('a'), Some(&2));
}

#[test]
fn zero_load_factor_doubles_on_every_new_key() {
    let mut m: HashTable<u32, u32> = HashTable::with(1, LoadFactor { num: 0, den: 1 });
    for k in 0..5u32 {
        m = m.put(k, k);
    }

    assert_eq!(m.bucket_count(), 32);
    assert_eq!(m.size, 5);
    for k in 0..5u32 {
        assert_eq!(m.get(k), Some(&k));
    }
}

#[test]
fn zero_denominator_never_grows() {
    let mut m: HashTable<usize, usize> = HashTable::with(2, LoadFactor { num: 1, den: 0 });
    for k in 0..50usize {
        m = m.put(k, k + 1);
    }

    assert_eq!(m.bucket_count(), 2);
    assert_eq!(m.size, 50);
    for k in 0..50usize {
        assert_eq!(m.get(k), Some(&(k + 1)));
    }
}

#[test]
fn table_stays_below_its_load_factor() {
    let lf = LoadFactor { num: 3, den: 4 };
    let mut m: HashTable<i64, i64> = HashTable::with(2, lf);
    for k in 0..100i64 {
        m = m.put(k - 50, k);
        assert!((m.size as u128) * 4 < 3 * (m.bucket_count() as u128));
        assert!(!lf.is_reached_by(m.size, m.bucket_count()));
    }
}

#[test]
fn small_load_factor_can_stay_reached() {
    let lf = LoadFactor { num: 1, den: 10 };
    let mut m: HashTable<char, i32> = HashTable::with(4, lf);
    m = m.put('a', 1);

    assert_eq!(m.bucket_count(), 8);
    assert!(lf.is_reached_by(m.size, m.bucket_count()));
}

#[test]
fn load_factor_is_reached_exactly_at_the_ratio() {
    let half = LoadFactor { num: 1, den: 2 };
    assert!(!half.is_reached_by(1, 4));
    assert!(half.is_reached_by(2, 4));
    assert!(half.is_reached_by(3, 4));
    assert!(!half.is_reached_by(0, 1));

    let one = LoadFactor { num: 1, den: 1 };
    assert!(!one.is_reached_by(15, 16));
    assert!(one.is_reached_by(16, 16));
    assert!(!one.is_reached_by(25, 32));

    let zero = LoadFactor { num: 0, den: 1 };
    assert!(zero.is_reached_by(0, 16));

    let never = LoadFactor { num: 0, den: 0 };
    assert!(!never.is_reached_by(usize::MAX, 1));

    let huge = LoadFactor { num: u64::MAX, den: u64::MAX };
    assert!(huge.is_reached_by(usize::MAX, usize::MAX));
    assert!(!huge.is_reached_by(usize::MAX - 1, usize::MAX));
}

#[test]
fn append_line_joins_key_and_value() {
    let mut s = String::new();
    append_line(&mut s, "k", "v");
    assert_eq!(s, "\nk : v");
    append_line(&mut s, "", "");
    assert_eq!(s, "\nk : v\n : ");
    append_line(&mut s, "'x'", "-12");
    assert_eq!(s, "\nk : v\n : \n'x' : -12");
}

#[test]
fn to_string_of_one_entry() {
    let mut m: HashTable<char, i32> = HashTable::new();
    m = m.put('a', 1);

    assert_eq!(m.to_string(), "\n'a' : 1");
}

#[test]
fn to_string_shows_every_entry_once() {
    let mut m: HashTable<u32, i32> = HashTable::new();
    for k in 0..20u32 {
        m = m.put(k, -(k as i32));
    }
    m = m.put(3, 333);
    let text = m.to_string();
    let mut lines: Vec<&str> = text.split('\n').collect();

    assert_eq!(lines.remove(0), "");
    assert_eq!(lines.len(), 20);
    for k in 0..20u32 {
        let expected = if k == 3 { format!("{} : {}", k, 333) } else { format!("{} : {}", k, -(k as i32)) };
        assert_eq!(lines.iter().filter(|l| **l == expected).count(), 1);
    }
}

#[test]
fn digests_are_those_of_the_default_hasher() {
    assert_eq!('a'.compute_digest(), std_digest(&'a'));
    assert_eq!(7u32.compute_digest(), std_digest(&7u32));
    assert_eq!(7u64.compute_digest(), std_digest(&7u64));
    assert_eq!(7usize.compute_digest(), std_digest(&7usize));
    assert_eq!((-7i32).compute_digest(), std_digest(&-7i32));
    assert_eq!((-7i64).compute_digest(), std_digest(&-7i64));
    assert_ne!('a'.compute_digest(), DefaultHasher::new().finish());
    assert_ne!(0u64.compute_digest(), DefaultHasher::new().finish());
}

#[test]
fn digests_tell_keys_apart() {
    assert_ne!('a'.compute_digest(), 'b'.compute_digest());
    assert_ne!(1u32.compute_digest(), 2u32.compute_digest());
    assert_ne!(1u64.compute_digest(), 2u64.compute_digest());
    assert_ne!(1usize.compute_digest(), 2usize.compute_digest());
    assert_ne!(1i32.compute_digest(), (-1i32).compute_digest());
    assert_ne!(1i64.compute_digest(), (-1i64).compute_digest());
    assert_eq!('a'.compute_digest(), 'a'.compute_digest());
}

#[test]
fn same_is_equality() {
    assert!('a'.same(&'a'));
    assert!(!'a'.same(&'b'));
    assert!(5u64.same(&5u64));
    assert!(!5u64.same(&6u64));
    assert!((-5i32).same(&-5i32));
    assert!(!(-5i32).same(&5i32));
}

#[test]
fn len_is_the_size() {
    let mut m: HashTable<char, i32> = HashTable::new();
    assert_eq!(m.len(), 0);
    m = m.put('a', 1);
    m = m.put('b', 2);
    m = m.put('a', 3);

    assert_eq!(m.len(), 2);
    assert_eq!(m.len(), m.size);
}

#[test]
fn entries_of_an_empty_table() {
    let m: HashTable<u64, u64> = HashTable::new();

    assert!(m.entries().is_empty());
}

#[test]
fn entries_lists_every_entry_once() {
    let mut m: HashTable<u32, i32> = HashTable::with(3, LoadFactor { num: 2, den: 1 });
    for k in 0..40u32 {
        m = m.put(k, k as i32 * 10);
    }
    m = m.put(7, -7);
    let es = m.entries();

    assert_eq!(es.len(), 40);
    for k in 0..40u32 {
        let expected = if k == 7 { -7 } else { k as i32 * 10 };
        assert_eq!(es.iter().filter(|e| *e.0 == k).count(), 1);
        assert_eq!(es.iter().filter(|e| *e.0 == k && *e.1 == expected).count(), 1);
    }
}

#[test]
fn to_string_follows_entries() {
    let mut m: HashTable<char, i64> = HashTable::with(2, LoadFactor { num: 1, den: 0 });
    for (i, c) in ('a'..'k').enumerate() {
        m = m.put(c, i as i64 - 3);
    }
    let mut expected = String::new();
    for (k, v) in m.entries() {
        expected = format!("{}\n{:?} : {:?}", expected, k, v);
    }

    assert_eq!(m.to_string(), expected);
    assert_eq!(m.to_string().matches('\n').count(), 10);
}

#[test]
fn one_bucket_keeps_the_order_of_arrival() {
    let mut m: HashTable<char, i32> = HashTable::with(1, LoadFactor { num: 1, den: 0 });
    m = m.put('b', 2);
    m = m.put('a', 1);
    m = m.put('c', 3);
    m = m.put('a', 10);

    assert_eq!(m.to_string(), "\n'b' : 2\n'a' : 10\n'c' : 3");
    let es = m.entries();
    assert_eq!(es, vec![(&'b', &2), (&'a', &10), (&'c', &3)]);
}

#[test]
fn dump_texts_joins_the_lines() {
    assert_eq!(dump_texts(&Vec::new()), "");
    let texts = vec![
        (String::from("k"), String::from("v")),
        (String::from("'x'"), String::from("-12")),
    ];

    assert_eq!(dump_texts(&texts), "\nk : v\n'x' : -12");
}

#[test]
fn debug_text_is_the_debug_form() {
    assert_eq!('a'.debug_text(), "'a'");
    assert_eq!('\n'.debug_text(), "'\\n'");
    assert_eq!(7u32.debug_text(), "7");
    assert_eq!(u64::MAX.debug_text(), "18446744073709551615");
    assert_eq!(0usize.debug_text(), "0");
    assert_eq!((-7i32).debug_text(), "-7");
    assert_eq!(i64::MIN.debug_text(), "-9223372036854775808");
}

#[test]
fn entries_follow_the_buckets_through_growth() {
    let mut m: HashTable<u64, u64> = HashTable::with(2, LoadFactor { num: 3, den: 2 });
    let mut model: Vec<Vec<(u64, u64)>> = vec![Vec::new(); 2];
    let mut count = 0usize;
    for n in 0..60u64 {
        let k = (n * 37) % 45;
        m = m.put(k, n);

        let buckets = model.len() as u64;
        let slot = (k.compute_digest() % buckets) as usize;
        match model[slot].iter().position(|e| e.0 == k) {
            Some(at) => model[slot][at].1 = n,
            None => {
                model[slot].push((k, n));
                count += 1;
                if count * 2 >= 3 * model.len() {
                    let mut grown: Vec<Vec<(u64, u64)>> = vec![Vec::new(); model.len() * 2];
                    for e in model.iter().flatten() {
                        let to = (e.0.compute_digest() % grown.len() as u64) as usize;
                        grown[to].push(*e);
                    }
                    model = grown;
                }
            }
        }

        let listed: Vec<(u64, u64)> = m.entries().iter().map(|e| (*e.0, *e.1)).collect();
        let expected: Vec<(u64, u64)> = model.iter().flatten().copied().collect();
        assert_eq!(listed, expected);
        assert_eq!(m.bucket_count(), model.len());
        assert_eq!(m.len(), count);
    }
}
