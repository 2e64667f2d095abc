use cs_learning::my_vec::MyVec;
use std::sync::atomic::{AtomicUsize, Ordering};
use std::sync::Arc;

struct DropCounter {
    count: Arc<AtomicUsize>,
}

impl Drop for DropCounter {
    fn drop(&mut self) {
        self.count.fetch_add(1, Ordering::SeqCst);
    }
}

#[test]
fn test_new() {
    let vec: MyVec<i32> = MyVec::new();
    assert_eq!(vec.len(), 0);
    assert_eq!(vec.capacity(), 0);
}

#[test]
fn test_with_capacity() {
    let vec: MyVec<usize> = MyVec::with_capacity(8);
    assert_eq!(vec.capacity(), 8);
    assert_eq!(vec.capacity(), 8);
}

#[test]
fn test_push_and_pop() {
    let mut vec = MyVec::new();
    vec.push(1);
    vec.push(2);
    vec.push(3);

    assert_eq!(vec.len(), 3);
    assert_eq!(vec.pop(), Some(3));
    assert_eq!(vec.pop(), Some(2));
    assert_eq!(vec.len(), 1);
}

#[test]
fn test_capacity_growth() {
    let mut vec = MyVec::new();

    for i in 0..10 {
        vec.push(i);
    }

    assert!(vec.capacity() >= 10);
    assert_eq!(vec.len(), 10);
}

#[test]
fn test_get() {
    let mut vec = MyVec::new();
    for i in 0..10 {
        vec.push(i + 1);
    }

    assert_eq!(vec.get(0), Some(&1));
    assert_eq!(vec.get(9), Some(&10));
}

#[test]
fn test_drop_with_many_elements() {
    for _ in 0..100 {
        let mut vec = MyVec::new();
        for i in 0..100 {
            vec.push(format!("String {}", i));
        }
    }
}

#[test]
fn test_drop_count() {
    let drop_count = Arc::new(AtomicUsize::new(0));

    {
        let mut vec = MyVec::new();
        vec.push(DropCounter {
            count: drop_count.clone(),
        });
        vec.push(DropCounter {
            count: drop_count.clone(),
        });
        vec.push(DropCounter {
            count: drop_count.clone(),
        });
        vec.push(DropCounter {
            count: drop_count.clone(),
        });
        vec.push(DropCounter {
            count: drop_count.clone(),
        });
    }

    assert_eq!(drop_count.load(Ordering::SeqCst), 5);
}

#[test]
fn test_drop_after_pop() {
    let drop_count = Arc::new(AtomicUsize::new(0));

    {
        let mut vec = MyVec::new();
        vec.push(DropCounter {
            count: drop_count.clone(),
        });
        vec.push(DropCounter {
            count: drop_count.clone(),
        });
        vec.push(DropCounter {
            count: drop_count.clone(),
        });

        let _popped = vec.pop();
        drop(_popped);

        assert_eq!(drop_count.load(Ordering::SeqCst), 1);
    }

    assert_eq!(drop_count.load(Ordering::SeqCst), 3);
}

#[test]
fn test_drop_empty_vec() {
    let vec: MyVec<i32> = MyVec::new();
    drop(vec);
}

#[test]
fn test_drop_with_capacity_but_no_elements() {
    let vec: MyVec<String> = MyVec::with_capacity(10);
    drop(vec);
}

#[test]
fn test_append_then_remove_scenario() {
    let mut vec: MyVec<i32> = MyVec::new();
    vec.push(1);
    vec.push(2);
    vec.push(3);
    assert_eq!(vec.len(), 3);
    assert_eq!(vec.pop(), Some(3));
    assert_eq!(vec.pop(), Some(2));
    assert_eq!(vec.len(), 1);
    assert_eq!(vec.get(0), Some(&1));
}

#[test]
fn test_order_preserved_after_appends() {
    let mut vec: MyVec<i32> = MyVec::new();
    for i in 0..10 {
        vec.push(i);
    }
    assert!(vec.capacity() >= 10);
    assert_eq!(vec.len(), 10);
    for i in 0..10 {
        assert_eq!(vec.get(i as usize), Some(&i));
    }
    assert_eq!(vec.get(9), Some(&9));
    assert_eq!(vec.get(10), None);
}

#[test]
fn test_capacity_doubles_from_empty() {
    let mut vec: MyVec<u8> = MyVec::new();
    let mut seen = vec![vec.capacity()];
    for _ in 0..33 {
        vec.push(7);
        if seen.last() != Some(&vec.capacity()) {
            seen.push(vec.capacity());
        }
    }
    assert_eq!(seen, vec![0, 1, 2, 4, 8, 16, 32, 64]);
    assert!(vec.len() <= vec.capacity());
}

#[test]
fn test_pop_on_empty_returns_none() {
    let mut vec: MyVec<i32> = MyVec::new();
    assert_eq!(vec.pop(), None);
    assert!(vec.is_empty());
    assert_eq!(vec.get(0), None);
}
