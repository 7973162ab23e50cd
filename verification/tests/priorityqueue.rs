use rds::priorityqueue::MaxPQ;

#[test]
fn heapsort() {
    let mut mpq = MaxPQ::from(vec![5, 4, 3, 2, 1]);

    assert_eq!(vec![1, 2, 3, 4, 5], mpq.heapsort());
}

#[test]
fn top_5() {
    let mut mpq = MaxPQ::from(vec![5, 4, 3, 2, 1]);

    assert_eq!(vec![5, 4, 3, 2, 1], mpq.top_k(5));
}

#[test]
fn insert_then_del_max() {
    let mut mpq = MaxPQ::from(vec![1, 2, 3, 4, 5]);
    mpq.insert(6);

    assert_eq!(6, mpq.del_max());
}

#[test]
fn del_max_twice() {
    let mut mpq = MaxPQ::from(vec![1, 2, 3, 4, 5]);

    assert_eq!(5, mpq.del_max());
    assert_eq!(4, mpq.del_max());
}

#[test]
fn top_3_of_5() {
    let mut mpq = MaxPQ::from(vec![1, 2, 3, 4, 5]);

    assert_eq!(vec![5, 4, 3], mpq.top_k(3));
    assert_eq!(vec![1, 2], mpq.heapsort());
}

#[test]
fn heapsort_unsorted_input() {
    let sorted_values = MaxPQ::from(vec![5, 3, 4, 1, 2]).heapsort();

    assert_eq!(sorted_values, vec![1, 2, 3, 4, 5]);
}

#[test]
fn empty_queue_sorts_to_nothing() {
    let mut mpq = MaxPQ::empty();

    assert_eq!(Vec::<i32>::new(), mpq.heapsort());
    assert_eq!(Vec::<i32>::new(), mpq.top_k(0));
}

#[test]
fn from_nothing_is_empty() {
    let mut mpq = MaxPQ::from(Vec::new());

    assert_eq!(Vec::<i32>::new(), mpq.heapsort());
    mpq.insert(9);
    assert_eq!(9, mpq.del_max());
}

#[test]
fn inserted_values_come_out_largest_first() {
    let mut mpq = MaxPQ::empty();
    for v in [3, -7, 12, 0, 12, i32::MIN, i32::MAX, 5] {
        mpq.insert(v);
    }

    assert_eq!(i32::MAX, mpq.del_max());
    assert_eq!(12, mpq.del_max());
    assert_eq!(12, mpq.del_max());
    assert_eq!(vec![5, 3, 0], mpq.top_k(3));
    assert_eq!(vec![i32::MIN, -7], mpq.heapsort());
}

#[test]
fn duplicates_are_kept() {
    let mut mpq = MaxPQ::from(vec![2, 2, 1, 2, 1]);

    assert_eq!(vec![1, 1, 2, 2, 2], mpq.heapsort());
}

#[test]
fn heapsort_empties_the_queue() {
    let mut mpq = MaxPQ::from(vec![4, 8, 6]);

    assert_eq!(vec![4, 6, 8], mpq.heapsort());
    assert_eq!(Vec::<i32>::new(), mpq.heapsort());
}

#[test]
fn larger_input_is_sorted() {
    let mut input: Vec<i32> = Vec::new();
    let mut x: i32 = 17;
    for _ in 0..200 {
        x = (x.wrapping_mul(1103515245).wrapping_add(12345)) % 1000;
        input.push(x);
    }
    let mut expected = input.clone();
    expected.sort();

    assert_eq!(expected, MaxPQ::from(input).heapsort());
}

#[test]
fn top_k_takes_the_largest_and_leaves_the_rest() {
    let mut mpq = MaxPQ::from(vec![10, 40, 30, 20, 50, 60]);

    assert_eq!(vec![60, 50], mpq.top_k(2));
    assert_eq!(40, mpq.del_max());
    assert_eq!(vec![10, 20, 30], mpq.heapsort());
}
