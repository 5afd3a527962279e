use dbprimkit::ringbuffer::RingBuffer;
use dbprimkit::Error;
use std::sync::atomic::{AtomicUsize, Ordering};
use std::sync::Arc;

const ORDER: u8 = 3;
const CAP: usize = 1 << ORDER;

#[test]
fn test_basic_fifo() {
    let mut rb = RingBuffer::<i32>::new(ORDER).unwrap();

    let (val_ref, idx) = rb.push(10).unwrap();
    assert_eq!(*val_ref, 10);
    assert_eq!(idx, 0);

    rb.push(20).unwrap();

    assert_eq!(rb.pop(), Some(10));
    assert_eq!(rb.pop(), Some(20));
    assert_eq!(rb.pop(), None);
}

#[test]
fn test_capacity_bound() {
    let mut rb = RingBuffer::<i32>::new(ORDER).unwrap();

    for i in 0..CAP {
        assert!(rb.push(i as i32).is_ok());
    }

    assert!(rb.push(999).is_err());

    assert_eq!(rb.pop(), Some(0));
    assert!(rb.push(999).is_ok());
}

#[test]
fn test_sp_sc_methods() {
    let mut rb = RingBuffer::<i32>::new(ORDER).unwrap();

    for i in 0..CAP {
        assert!(rb.push_for_sp(i as i32).is_ok());
    }
    assert!(rb.push_for_sp(999).is_err());

    for i in 0..CAP {
        assert_eq!(rb.pop_for_sc(), Some(i as i32));
    }
    assert_eq!(rb.pop_for_sc(), None);
}

struct DropDetector(Arc<AtomicUsize>);
impl Drop for DropDetector {
    fn drop(&mut self) {
        self.0.fetch_add(1, Ordering::Relaxed);
    }
}

#[test]
fn test_element_drop_on_clear_and_destroy() {
    let drop_count = Arc::new(AtomicUsize::new(0));

    {
        let mut rb = RingBuffer::<DropDetector>::new(ORDER).unwrap();

        assert!(rb.push(DropDetector(Arc::clone(&drop_count))).is_ok());
        assert!(rb.push(DropDetector(Arc::clone(&drop_count))).is_ok());
        assert!(rb.push(DropDetector(Arc::clone(&drop_count))).is_ok());

        let popped = rb.pop();
        drop(popped);

        assert_eq!(drop_count.load(Ordering::Relaxed), 1);
    }

    assert_eq!(drop_count.load(Ordering::Relaxed), 3);
}

#[test]
fn ring_slots_wrap_around() {
    let mut rb = RingBuffer::<usize>::new(1).unwrap();
    for i in 0..10 {
        let (_, slot) = rb.push(i).unwrap();
        assert_eq!(slot, i % 2);
        assert_eq!(rb.pop(), Some(i));
    }
}

#[test]
fn ring_of_one_value_holds_one_value() {
    let mut rb = RingBuffer::<char>::new(0).unwrap();
    assert!(rb.push('a').is_ok());
    assert!(matches!(rb.push('b'), Err(Error::RingBufferFull)));
    assert_eq!(rb.pop(), Some('a'));
    assert_eq!(rb.pop(), None);
    assert!(rb.push('c').is_ok());
    assert_eq!(rb.pop(), Some('c'));
}

#[test]
fn ring_value_can_be_changed_in_place() {
    let mut rb = RingBuffer::<String>::new(2).unwrap();
    {
        let (v, _) = rb.push("ab".to_string()).unwrap();
        v.push('c');
    }
    assert_eq!(rb.pop(), Some("abc".to_string()));
}

#[test]
fn ring_too_large() {
    match RingBuffer::<u8>::new((usize::BITS - 1) as u8) {
        Err(Error::InvalidArgument(details)) => assert_eq!(details, "`size_order` is too large"),
        _ => panic!("too large a ring buffer was made"),
    }
}

#[test]
fn ring_gives_back_in_order_under_mixed_calls() {
    let mut rb = RingBuffer::<u32>::new(2).unwrap();
    let mut next: u32 = 0;
    let mut expected: u32 = 0;
    for round in 0..1000u32 {
        for _ in 0..(round % 6) {
            match rb.push(next) {
                Ok(_) => next += 1,
                Err(Error::RingBufferFull) => assert_eq!(next - expected, 4),
                Err(_) => panic!("unexpected error"),
            }
        }
        for _ in 0..(round % 5) {
            match rb.pop() {
                Some(v) => {
                    assert_eq!(v, expected);
                    expected += 1;
                }
                None => assert_eq!(next, expected),
            }
        }
    }
    assert!(expected > 1000);
}
