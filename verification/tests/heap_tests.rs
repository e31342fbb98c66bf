use dsalgo::heaps::{_heapify, get_kth_largest, heapify, Heap, PriorityQueueWithHeap};

fn example() -> Heap {
    let mut heap = Heap::new(10);
    for v in [10, 5, 17, 4, 22] {
        heap.insert(v);
    }
    heap
}

#[test]
fn heap_new_is_empty() {
    let heap = Heap::new(3);
    assert!(heap.is_empty());
    assert_eq!(heap.len(), 0);
    assert_eq!(heap.items(), &vec![0, 0, 0]);
    assert_eq!(heap.max(), -1);
}

#[test]
fn heap_insert_lets_values_rise() {
    let heap = example();
    assert_eq!(heap.len(), 5);
    assert_eq!(heap.items(), &vec![22, 17, 10, 4, 5, 0, 0, 0, 0, 0]);
    assert_eq!(heap.max(), 22);
}

#[test]
fn heap_remove_returns_the_greatest() {
    let mut heap = example();
    assert_eq!(heap.remove(), 22);
    assert_eq!(heap.len(), 4);
    assert_eq!(heap.items(), &vec![17, 5, 10, 4, 5, 0, 0, 0, 0, 0]);
    assert_eq!(heap.max(), 17);
}

#[test]
fn heap_removes_in_descending_order() {
    let mut heap = Heap::new(6);
    for v in [5, 3, 10, 1, 4, 2] {
        heap.insert(v);
    }
    let mut out = Vec::new();
    while !heap.is_empty() {
        out.push(heap.remove());
    }
    assert_eq!(out, vec![10, 5, 4, 3, 2, 1]);
}

#[test]
fn heap_with_equal_values() {
    let mut heap = Heap::new(5);
    for v in [2, 2, 1, 2, 1] {
        heap.insert(v);
    }
    let mut out = Vec::new();
    while !heap.is_empty() {
        out.push(heap.remove());
    }
    assert_eq!(out, vec![2, 2, 2, 1, 1]);
}

#[test]
fn heap_remove_from_empty_gives_minus_one() {
    let mut heap = Heap::new(2);
    assert_eq!(heap.remove(), -1);
    assert!(heap.is_empty());
    let mut none = Heap::new(0);
    assert_eq!(none.remove(), -1);
}

#[test]
fn heap_insert_into_full_heap_changes_nothing() {
    let mut heap = Heap::new(2);
    heap.insert(1);
    heap.insert(2);
    heap.insert(3);
    assert_eq!(heap.len(), 2);
    assert_eq!(heap.items(), &vec![2, 1]);
    let mut none = Heap::new(0);
    none.insert(1);
    assert!(none.is_empty());
}

#[test]
fn heap_refills_after_remove() {
    let mut heap = Heap::new(3);
    heap.insert(1);
    heap.insert(2);
    heap.insert(3);
    assert_eq!(heap.remove(), 3);
    heap.insert(9);
    assert_eq!(heap.remove(), 9);
    assert_eq!(heap.remove(), 2);
    assert_eq!(heap.remove(), 1);
    assert_eq!(heap.remove(), -1);
}

#[test]
fn queue_with_heap_hands_out_greatest_first() {
    let mut queue = PriorityQueueWithHeap::new(4);
    assert!(queue.is_empty());
    queue.enqueue(3);
    queue.enqueue(8);
    queue.enqueue(5);
    assert!(!queue.is_empty());
    assert_eq!(queue.dequeue(), 8);
    assert_eq!(queue.dequeue(), 5);
    assert_eq!(queue.dequeue(), 3);
    assert_eq!(queue.dequeue(), -1);
    assert!(queue.is_empty());
}

#[test]
fn heapify_of_the_example() {
    let mut numbers = vec![5, 3, 8, 4, 1, 2];
    heapify(&mut numbers);
    assert_eq!(numbers, vec![8, 4, 5, 3, 1, 2]);
}

#[test]
fn heapify_makes_a_heap_of_an_ascending_list() {
    let mut numbers = vec![1, 2, 3, 4, 5, 6, 7];
    heapify(&mut numbers);
    assert_eq!(numbers, vec![7, 5, 6, 4, 2, 1, 3]);
}

#[test]
fn heapify_puts_every_value_below_its_parent() {
    let mut numbers = vec![3, 9, 2, 8, 1, 7, 7, 0, 12, 5, 4, 11];
    let mut sorted = numbers.clone();
    heapify(&mut numbers);
    for i in 1..numbers.len() {
        assert!(numbers[(i - 1) / 2] >= numbers[i]);
    }
    let mut after = numbers.clone();
    after.sort();
    sorted.sort();
    assert_eq!(after, sorted);
}

#[test]
fn heapify_of_short_lists() {
    let mut none: Vec<i32> = Vec::new();
    heapify(&mut none);
    assert_eq!(none, Vec::<i32>::new());
    let mut one = vec![4];
    heapify(&mut one);
    assert_eq!(one, vec![4]);
    let mut two = vec![1, 2];
    heapify(&mut two);
    assert_eq!(two, vec![2, 1]);
}

#[test]
fn sinking_one_value() {
    let mut numbers = vec![1, 9, 8, 7, 10];
    _heapify(&mut numbers, 0);
    assert_eq!(numbers, vec![9, 10, 8, 7, 1]);
    let mut equal = vec![1, 5, 5];
    _heapify(&mut equal, 0);
    assert_eq!(equal, vec![5, 1, 5]);
    let mut out_of_range = vec![1, 2];
    _heapify(&mut out_of_range, 5);
    assert_eq!(out_of_range, vec![1, 2]);
}

#[test]
fn kth_largest_of_the_example() {
    let numbers = vec![5, 3, 8, 4, 1, 2];
    assert_eq!(get_kth_largest(&numbers, 1), 8);
    assert_eq!(get_kth_largest(&numbers, 2), 5);
    assert_eq!(get_kth_largest(&numbers, 5), 2);
    assert_eq!(get_kth_largest(&numbers, 6), 1);
}

#[test]
fn kth_largest_out_of_range_gives_minus_one() {
    let numbers = vec![5, 3, 8];
    assert_eq!(get_kth_largest(&numbers, 0), -1);
    assert_eq!(get_kth_largest(&numbers, -2), -1);
    assert_eq!(get_kth_largest(&numbers, 4), -1);
    assert_eq!(get_kth_largest(&Vec::new(), 1), -1);
}

#[test]
fn kth_largest_counts_equal_values_each() {
    let numbers = vec![7, 7, 3];
    assert_eq!(get_kth_largest(&numbers, 1), 7);
    assert_eq!(get_kth_largest(&numbers, 2), 7);
    assert_eq!(get_kth_largest(&numbers, 3), 3);
}

#[test]
fn heap_last_parent() {
    let mut heap = Heap::new(8);
    for v in [1, 2, 3, 4, 5] {
        heap.insert(v);
    }
    assert_eq!(heap.last_parent(), 1);
    heap.insert(6);
    assert_eq!(heap.last_parent(), 2);
}
