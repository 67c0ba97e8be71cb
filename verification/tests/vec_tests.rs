use celui::vec::{IntoIter, Iter, IterMut, Vec};

fn filled(n: usize) -> Vec<usize> {
    let mut v = Vec::new();
    for i in 0..n {
        v.push(i);
    }
    v
}

fn contents(v: &Vec<usize>) -> std::vec::Vec<usize> {
    v.as_slice().to_vec()
}

/// An iterator that yields more items than it estimates.
struct Understated {
    next: usize,
    end: usize,
}

impl Iterator for Understated {
    type Item = usize;

    fn next(&mut self) -> Option<usize> {
        if self.next >= self.end {
            return None;
        }
        self.next += 1;
        Some(self.next - 1)
    }

    fn size_hint(&self) -> (usize, Option<usize>) {
        (0, Some(2))
    }
}

#[test]
fn new_is_empty_without_slots() {
    let v: Vec<u32> = Vec::new();
    assert_eq!(v.len(), 0);
    assert_eq!(v.capacity(), 0);
    assert!(v.is_empty());
    assert!(v.get(0).is_none());
}

#[test]
fn default_is_new() {
    let v: Vec<u32> = Vec::default();
    assert_eq!(v.len(), 0);
    assert_eq!(v.capacity(), 0);
}

#[test]
fn with_capacity_allocates_exactly() {
    let v: Vec<u32> = Vec::with_capacity(10);
    assert_eq!(v.len(), 0);
    assert_eq!(v.capacity(), 10);
}

#[test]
fn with_capacity_zero_then_push_grows_to_four() {
    let mut v: Vec<u32> = Vec::with_capacity(0);
    assert_eq!(v.capacity(), 0);
    v.push(7);
    assert_eq!(v.len(), 1);
    assert_eq!(v.capacity(), 4);
    assert_eq!(v.get(0), Some(&7));
}

#[test]
fn push_thousand_integers() {
    let mut v: Vec<usize> = Vec::new();
    for i in 0..1000 {
        v.push(i);
    }
    assert_eq!(v.len(), 1000);
    assert_eq!(v.get(999), Some(&999));
    assert!(v.capacity() > 4);
    assert_eq!(v.capacity(), 1024);
    for i in 0..1000 {
        assert_eq!(v.get(i), Some(&i));
    }
    assert!(v.get(1000).is_none());
}

#[test]
fn capacity_doubles_when_full() {
    let mut v: Vec<u8> = Vec::new();
    let mut seen = std::vec::Vec::new();
    for i in 0..17u8 {
        v.push(i);
        seen.push(v.capacity());
    }
    assert_eq!(seen, vec![4, 4, 4, 4, 8, 8, 8, 8, 16, 16, 16, 16, 16, 16, 16, 16, 32]);
}

#[test]
fn growth_from_requested_capacity_doubles() {
    let mut v: Vec<u8> = Vec::with_capacity(3);
    for i in 0..4u8 {
        v.push(i);
    }
    assert_eq!(v.capacity(), 6);
}

#[test]
fn pop_returns_last_then_none() {
    let mut v = filled(3);
    assert_eq!(v.pop(), Some(2));
    assert_eq!(v.pop(), Some(1));
    assert_eq!(v.len(), 1);
    assert_eq!(v.pop(), Some(0));
    assert_eq!(v.pop(), None);
    assert_eq!(v.pop(), None);
    assert_eq!(v.len(), 0);
    assert_eq!(v.capacity(), 4);
}

#[test]
fn push_pop_behaves_as_std_vec() {
    let mut ours: Vec<u64> = Vec::new();
    let mut reference: std::vec::Vec<u64> = std::vec::Vec::new();
    let mut state: u64 = 12345;
    for _ in 0..2000 {
        state = state.wrapping_mul(6364136223846793005).wrapping_add(1442695040888963407);
        if (state >> 33) % 3 == 0 {
            assert_eq!(ours.pop(), reference.pop());
        } else {
            ours.push(state);
            reference.push(state);
        }
        assert_eq!(ours.len(), reference.len());
        assert_eq!(ours.as_slice(), reference.as_slice());
    }
}

#[test]
fn insert_shifts_tail_right() {
    let mut v = filled(4);
    v.insert(1, 99);
    assert_eq!(contents(&v), vec![0, 99, 1, 2, 3]);
    assert_eq!(v.capacity(), 8);
    v.insert(0, 50);
    assert_eq!(contents(&v), vec![50, 0, 99, 1, 2, 3]);
    v.insert(6, 60);
    assert_eq!(contents(&v), vec![50, 0, 99, 1, 2, 3, 60]);
}

#[test]
fn insert_into_empty_without_slots() {
    let mut v: Vec<usize> = Vec::with_capacity(0);
    v.insert(0, 5);
    assert_eq!(contents(&v), vec![5]);
    assert_eq!(v.capacity(), 4);
}

#[test]
fn remove_shifts_tail_left() {
    let mut v = filled(5);
    assert_eq!(v.remove(1), 1);
    assert_eq!(contents(&v), vec![0, 2, 3, 4]);
    assert_eq!(v.remove(3), 4);
    assert_eq!(contents(&v), vec![0, 2, 3]);
    assert_eq!(v.remove(0), 0);
    assert_eq!(contents(&v), vec![2, 3]);
    assert_eq!(v.capacity(), 8);
}

#[test]
fn insert_then_remove_is_a_no_op() {
    for i in 0..=6 {
        let mut v = filled(6);
        let before = contents(&v);
        v.insert(i, 1000);
        assert_eq!(v.get(i), Some(&1000));
        assert_eq!(v.len(), 7);
        assert_eq!(v.remove(i), 1000);
        assert_eq!(contents(&v), before);
        assert_eq!(v.len(), 6);
    }
}

#[test]
fn insert_and_remove_of_owned_values() {
    let mut v: Vec<String> = Vec::new();
    v.push("a".to_string());
    v.push("c".to_string());
    v.insert(1, "b".to_string());
    assert_eq!(v.as_slice(), ["a".to_string(), "b".to_string(), "c".to_string()]);
    assert_eq!(v.remove(0), "a");
    assert_eq!(v.as_slice(), ["b".to_string(), "c".to_string()]);
}

#[test]
fn get_mut_writes_in_place() {
    let mut v = filled(3);
    *v.get_mut(1).unwrap() = 42;
    assert_eq!(contents(&v), vec![0, 42, 2]);
    assert!(v.get_mut(3).is_none());
}

#[test]
fn index_and_index_mut() {
    let mut v = filled(3);
    assert_eq!(*v.index(2), 2);
    *v.index_mut(0) = 9;
    assert_eq!(contents(&v), vec![9, 1, 2]);
}

#[test]
fn as_slice_mut_writes_through() {
    let mut v = filled(3);
    {
        let s = v.as_slice_mut();
        assert_eq!(s.len(), 3);
        s[2] = 77;
        s.swap(0, 1);
    }
    assert_eq!(contents(&v), vec![1, 0, 77]);
    assert_eq!(v.len(), 3);
}

#[test]
fn fill_overwrites_every_element() {
    let mut v = filled(4);
    v.fill(8);
    assert_eq!(contents(&v), vec![8, 8, 8, 8]);
    assert_eq!(v.capacity(), 4);
    let mut empty: Vec<usize> = Vec::new();
    empty.fill(1);
    assert_eq!(empty.len(), 0);
}

#[test]
fn truncate_drops_the_tail() {
    let mut v = filled(5);
    v.truncate(7);
    assert_eq!(v.len(), 5);
    v.truncate(5);
    assert_eq!(v.len(), 5);
    v.truncate(2);
    assert_eq!(contents(&v), vec![0, 1]);
    assert_eq!(v.capacity(), 8);
}

#[test]
fn truncate_destroys_elements() {
    let marker = std::rc::Rc::new(());
    let mut v: Vec<std::rc::Rc<()>> = Vec::new();
    for _ in 0..5 {
        v.push(marker.clone());
    }
    assert_eq!(std::rc::Rc::strong_count(&marker), 6);
    v.truncate(2);
    assert_eq!(std::rc::Rc::strong_count(&marker), 3);
    v.clear();
    assert_eq!(std::rc::Rc::strong_count(&marker), 1);
}

#[test]
fn clear_keeps_the_slots() {
    let mut v = filled(5);
    v.clear();
    assert_eq!(v.len(), 0);
    assert!(v.is_empty());
    assert_eq!(v.capacity(), 8);
}

#[test]
fn set_len_shortens() {
    let mut v = filled(5);
    v.set_len(3);
    assert_eq!(contents(&v), vec![0, 1, 2]);
    assert_eq!(v.capacity(), 8);
    v.set_len(3);
    assert_eq!(v.len(), 3);
}

#[test]
fn reserve_grows_once_to_the_larger_of_double_and_request() {
    let mut v = filled(3);
    assert_eq!(v.capacity(), 4);
    v.reserve(1);
    assert_eq!(v.capacity(), 4);
    v.reserve(2);
    assert_eq!(v.capacity(), 8);
    v.reserve(20);
    assert_eq!(v.capacity(), 23);
    assert_eq!(contents(&v), vec![0, 1, 2]);
    let mut w: Vec<u8> = Vec::new();
    w.reserve(0);
    assert_eq!(w.capacity(), 0);
    w.reserve(1);
    assert_eq!(w.capacity(), 4);
    let mut x: Vec<u8> = Vec::new();
    x.reserve(9);
    assert_eq!(x.capacity(), 9);
}

#[test]
fn extend_appends_in_order() {
    let mut v = filled(2);
    v.extend(vec![10, 11, 12].into_iter());
    assert_eq!(contents(&v), vec![0, 1, 10, 11, 12]);
    assert_eq!(v.capacity(), 8);
    v.extend(std::iter::empty());
    assert_eq!(v.len(), 5);
}

#[test]
fn extend_reserves_for_the_estimate() {
    let mut v: Vec<usize> = Vec::new();
    v.extend(0..100);
    assert_eq!(v.len(), 100);
    assert_eq!(v.capacity(), 100);
    assert_eq!(v.get(99), Some(&99));
}

#[test]
fn extend_takes_more_items_than_estimated() {
    let mut v = filled(1);
    v.extend(Understated { next: 100, end: 110 });
    assert_eq!(contents(&v), vec![0, 100, 101, 102, 103, 104, 105, 106, 107, 108, 109]);
}

#[test]
fn extend_with_estimate_ignores_an_estimate_too_large() {
    let mut v = filled(2);
    v.extend_with_estimate(vec![5, 6].into_iter(), usize::MAX);
    assert_eq!(contents(&v), vec![0, 1, 5, 6]);
    assert_eq!(v.capacity(), 4);
}

#[test]
fn clone_copies_elements_and_capacity() {
    let mut v: Vec<u32> = Vec::with_capacity(7);
    v.push(1);
    v.push(2);
    let mut w = v.clone();
    assert_eq!(w.as_slice(), [1, 2]);
    assert_eq!(w.capacity(), 7);
    w.push(3);
    assert_eq!(v.as_slice(), [1, 2]);
}

#[test]
fn iter_walks_first_to_last() {
    let v = filled(3);
    let mut it = v.iter();
    assert_eq!(it.size_hint(), (3, Some(3)));
    assert_eq!(it.next(), Some(&0));
    assert_eq!(it.next(), Some(&1));
    assert_eq!(it.size_hint(), (1, Some(1)));
    assert_eq!(it.next(), Some(&2));
    assert_eq!(it.next(), None);
    assert_eq!(it.next(), None);
    let mut again = Iter::new(&v);
    assert_eq!(again.next(), Some(&0));
}

#[test]
fn iter_mut_writes_every_element() {
    let mut v = filled(4);
    {
        let mut it = v.iter_mut();
        while let Some(x) = it.next() {
            *x *= 10;
        }
        assert!(it.next().is_none());
    }
    assert_eq!(contents(&v), vec![0, 10, 20, 30]);
    {
        let mut it = IterMut::new(&mut v);
        *it.next().unwrap() = 5;
    }
    assert_eq!(contents(&v), vec![5, 10, 20, 30]);
}

#[test]
fn into_iter_hands_out_ownership() {
    let mut v: Vec<String> = Vec::new();
    v.push("x".to_string());
    v.push("y".to_string());
    v.push("z".to_string());
    let mut it: IntoIter<String> = v.into_iter();
    assert_eq!(it.next(), Some("x".to_string()));
    assert_eq!(it.next(), Some("y".to_string()));
    assert_eq!(it.next(), Some("z".to_string()));
    assert_eq!(it.next(), None);
}

#[test]
fn into_iter_dropped_early_destroys_the_rest() {
    let marker = std::rc::Rc::new(());
    let mut v: Vec<std::rc::Rc<()>> = Vec::new();
    for _ in 0..4 {
        v.push(marker.clone());
    }
    let mut it = v.into_iter();
    let first = it.next();
    assert!(first.is_some());
    assert_eq!(std::rc::Rc::strong_count(&marker), 5);
    drop(it);
    assert_eq!(std::rc::Rc::strong_count(&marker), 2);
}
