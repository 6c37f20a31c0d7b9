use min_heap::heap::{left_child_index, parent_index, right_child_index};
use min_heap::BinaryHeap;

fn drain(heap: &mut BinaryHeap<i32>) -> Vec<i32> {
    let mut out = Vec::new();
    while let Some(v) = heap.pop() {
        out.push(v);
    }
    out
}

fn is_heap_ordered(data: &[i32]) -> bool {
    (2..=data.len()).all(|i| data[i / 2 - 1] <= data[i - 1])
}

#[test]
fn new_heap_is_empty() {
    let heap: BinaryHeap<i32> = BinaryHeap::new();
    assert!(heap.is_empty());
    assert_eq!(heap.size(), 0);
    assert_eq!(heap.min(), None);
}

#[test]
fn pushes_come_out_in_ascending_order() {
    let mut heap = BinaryHeap::new();
    heap.push(5);
    heap.push(3);
    heap.push(8);
    heap.push(1);
    assert_eq!(heap.pop(), Some(1));
    assert_eq!(heap.pop(), Some(3));
    assert_eq!(heap.pop(), Some(5));
    assert_eq!(heap.pop(), Some(8));
    assert!(heap.is_empty());
}

#[test]
fn build_then_pop_in_ascending_order() {
    let mut heap = BinaryHeap::new();
    heap.build_new(&[9, 4, 7, 1, 2]);
    assert_eq!(heap.size(), 5);
    assert_eq!(heap.pop(), Some(1));
    assert_eq!(heap.pop(), Some(2));
    assert_eq!(heap.pop(), Some(4));
    assert_eq!(heap.pop(), Some(7));
    assert_eq!(heap.pop(), Some(9));
}

#[test]
fn pop_on_empty_heap_is_none() {
    let mut heap: BinaryHeap<i32> = BinaryHeap::new();
    assert_eq!(heap.pop(), None);
    assert_eq!(heap.size(), 0);
    assert_eq!(heap.pop(), None);
    assert!(heap.is_empty());
}

#[test]
fn duplicate_keys_are_kept() {
    let mut heap = BinaryHeap::new();
    heap.push(4);
    heap.push(4);
    heap.push(2);
    assert_eq!(heap.pop(), Some(2));
    assert_eq!(heap.pop(), Some(4));
    assert_eq!(heap.pop(), Some(4));
    assert_eq!(heap.pop(), None);
}

#[test]
fn size_follows_push_and_pop() {
    let mut heap = BinaryHeap::new();
    for (k, v) in [7, -3, 12, 0, 7].iter().enumerate() {
        assert_eq!(heap.size(), k);
        heap.push(*v);
        assert_eq!(heap.size(), k + 1);
        assert!(!heap.is_empty());
    }
    for k in (0..5).rev() {
        assert!(heap.pop().is_some());
        assert_eq!(heap.size(), k);
        assert_eq!(heap.is_empty(), k == 0);
    }
    assert_eq!(heap.min(), None);
    assert_eq!(heap.size(), 0);
}

#[test]
fn min_peeks_without_removing() {
    let mut heap = BinaryHeap::new();
    heap.push(10);
    assert_eq!(heap.min(), Some(10));
    heap.push(-4);
    assert_eq!(heap.min(), Some(-4));
    heap.push(3);
    assert_eq!(heap.min(), Some(-4));
    assert_eq!(heap.size(), 3);
    assert_eq!(heap.pop(), Some(-4));
    assert_eq!(heap.min(), Some(3));
    assert_eq!(heap.size(), 2);
}

#[test]
fn min_is_not_greater_than_any_element() {
    let values = [31, -7, 15, 15, 0, 99, -7, 42, 8];
    let mut heap = BinaryHeap::new();
    for (k, v) in values.iter().enumerate() {
        heap.push(*v);
        let least = *values[..=k].iter().min().unwrap();
        assert_eq!(heap.min(), Some(least));
    }
}

#[test]
fn build_replaces_previous_contents() {
    let mut heap = BinaryHeap::new();
    heap.push(100);
    heap.push(-100);
    heap.build_new(&[6, 5]);
    assert_eq!(heap.size(), 2);
    assert_eq!(drain(&mut heap), vec![5, 6]);
    heap.build_new(&[]);
    assert!(heap.is_empty());
    assert_eq!(heap.pop(), None);
    heap.build_new(&[1]);
    assert_eq!(heap.size(), 1);
    assert_eq!(heap.min(), Some(1));
}

#[test]
fn repeated_pop_sorts_any_input() {
    let mut x: u32 = 12345;
    for n in 0..40usize {
        let mut input = Vec::new();
        for _ in 0..n {
            x = x.wrapping_mul(1103515245).wrapping_add(12345);
            input.push(((x >> 16) % 50) as i32 - 25);
        }
        let mut expected = input.clone();
        expected.sort();

        let mut built = BinaryHeap::new();
        built.build_new(&input);
        assert_eq!(built.size(), n);
        assert_eq!(drain(&mut built), expected);

        let mut pushed = BinaryHeap::new();
        for v in &input {
            pushed.push(*v);
        }
        assert_eq!(drain(&mut pushed), expected);
    }
}

#[test]
fn interleaved_push_and_pop() {
    let mut heap = BinaryHeap::new();
    heap.push(5);
    heap.push(9);
    assert_eq!(heap.pop(), Some(5));
    heap.push(1);
    heap.push(7);
    assert_eq!(heap.pop(), Some(1));
    assert_eq!(heap.pop(), Some(7));
    heap.push(8);
    assert_eq!(heap.pop(), Some(8));
    assert_eq!(heap.pop(), Some(9));
    assert_eq!(heap.pop(), None);
}

#[test]
fn index_helpers_follow_the_layout() {
    assert_eq!(parent_index(1), 0);
    assert_eq!(parent_index(2), 1);
    assert_eq!(parent_index(3), 1);
    assert_eq!(parent_index(7), 3);
    assert_eq!(left_child_index(1), 2);
    assert_eq!(left_child_index(5), 10);
    assert_eq!(right_child_index(1), 3);
    assert_eq!(right_child_index(5), 11);
}

#[test]
fn min_child_prefers_left_on_ties() {
    let data = vec![1, 4, 4];
    assert_eq!(BinaryHeap::min_child(&data, 1), 2);
    let data = vec![1, 5, 4];
    assert_eq!(BinaryHeap::min_child(&data, 1), 3);
    let data = vec![1, 3, 4];
    assert_eq!(BinaryHeap::min_child(&data, 1), 2);
    let data = vec![1, 9];
    assert_eq!(BinaryHeap::min_child(&data, 1), 2);
    let data = vec![1, 2, 3, 8, 7, 6];
    assert_eq!(BinaryHeap::min_child(&data, 2), 5);
    assert_eq!(BinaryHeap::min_child(&data, 3), 6);
}

#[test]
fn move_down_restores_order_below_a_position() {
    let mut data = vec![9, 1, 2, 3, 4, 5, 6];
    BinaryHeap::move_down(&mut data, 1);
    assert_eq!(data, vec![1, 3, 2, 9, 4, 5, 6]);
    assert!(is_heap_ordered(&data));

    let mut data = vec![5, 7, 7];
    BinaryHeap::move_down(&mut data, 1);
    assert_eq!(data, vec![5, 7, 7]);

    let mut data = vec![8, 7, 7, 9];
    BinaryHeap::move_down(&mut data, 1);
    assert_eq!(data, vec![7, 8, 7, 9]);

    let mut data = vec![3, 2];
    BinaryHeap::move_down(&mut data, 2);
    assert_eq!(data, vec![3, 2]);
}

#[test]
fn move_up_restores_order_above_a_position() {
    let mut data = vec![1, 3, 2, 9, 4, 5, 0];
    BinaryHeap::move_up(&mut data, 7);
    assert_eq!(data, vec![0, 3, 1, 9, 4, 5, 2]);
    assert!(is_heap_ordered(&data));

    let mut data = vec![1, 3, 2, 3];
    BinaryHeap::move_up(&mut data, 4);
    assert_eq!(data, vec![1, 3, 2, 3]);

    let mut data = vec![4];
    BinaryHeap::move_up(&mut data, 1);
    assert_eq!(data, vec![4]);
}

#[test]
fn clone_is_independent() {
    let mut heap = BinaryHeap::new();
    heap.build_new(&[3, 1, 2]);
    let mut copy = heap.clone();
    assert_eq!(copy.pop(), Some(1));
    assert_eq!(copy.size(), 2);
    assert_eq!(heap.size(), 3);
    assert_eq!(drain(&mut heap), vec![1, 2, 3]);
    assert_eq!(drain(&mut copy), vec![2, 3]);
}

#[test]
fn pairs_come_out_by_priority_then_payload() {
    let mut heap = BinaryHeap::new();
    heap.push((2u32, 7i32));
    heap.push((1u32, 9i32));
    heap.push((2u32, -1i32));
    heap.push((0u32, 5i32));
    assert_eq!(heap.min(), Some((0, 5)));
    assert_eq!(heap.pop(), Some((0, 5)));
    assert_eq!(heap.pop(), Some((1, 9)));
    assert_eq!(heap.pop(), Some((2, -1)));
    assert_eq!(heap.pop(), Some((2, 7)));
    assert_eq!(heap.pop(), None);
}

/// The stored elements by position, read from the heap's debug output.
fn positions(heap: &BinaryHeap<i32>) -> Vec<i32> {
    let text = format!("{:?}", heap);
    let open = text.find('[').unwrap();
    let close = text.rfind(']').unwrap();
    text[open + 1..close]
        .split(',')
        .map(|part| part.trim())
        .filter(|part| !part.is_empty())
        .map(|part| part.parse().unwrap())
        .collect()
}

#[test]
fn heap_order_holds_after_every_operation() {
    let mut heap = BinaryHeap::new();
    assert_eq!(positions(&heap), Vec::<i32>::new());
    let mut x: u32 = 99;
    for step in 0..300 {
        x = x.wrapping_mul(1103515245).wrapping_add(12345);
        let v = ((x >> 16) % 40) as i32 - 20;
        if step % 3 == 2 {
            heap.pop();
        } else {
            heap.push(v);
        }
        let stored = positions(&heap);
        assert_eq!(stored.len(), heap.size());
        assert!(is_heap_ordered(&stored));
    }
    heap.build_new(&[9, 8, 7, 6, 5, 4, 3, 2, 1, 0]);
    let stored = positions(&heap);
    assert_eq!(stored.len(), 10);
    assert!(is_heap_ordered(&stored));
    assert_eq!(stored[0], 0);
}

#[test]
fn push_and_build_place_elements_as_the_sifts_say() {
    let mut heap = BinaryHeap::new();
    heap.push(5);
    heap.push(3);
    heap.push(8);
    heap.push(1);
    // 5 | 3 5 | 3 5 8 | 1 3 8 5
    assert_eq!(positions(&heap), vec![1, 3, 8, 5]);
    assert_eq!(heap.pop(), Some(1));
    // 5 3 8 -> 3 5 8
    assert_eq!(positions(&heap), vec![3, 5, 8]);

    heap.build_new(&[9, 4, 7, 1, 2]);
    // sift from 2: 9 1 7 4 2; sift from 1: 1 9 7 4 2 -> 1 2 7 4 9
    assert_eq!(positions(&heap), vec![1, 2, 7, 4, 9]);
}
