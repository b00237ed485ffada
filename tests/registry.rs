use std::sync::atomic::AtomicUsize;

use hazard::{AlignVec, BoxMemory, Memory, Pointers, VecMemory};

fn registry(threads: usize, domains: usize, threshold: usize) -> Pointers<u32, BoxMemory<u32>> {
    Pointers::new(BoxMemory::new(), threads, domains, threshold)
}

#[test]
fn new_registry_has_null_slots_and_empty_lists() {
    let p = registry(3, 2, 4);
    assert_eq!(p.thread_count(), 3);
    assert_eq!(p.domain_count(), 2);
    assert_eq!(p.sweep_threshold(), 4);
    for t in 0..3 {
        for d in 0..2 {
            assert_eq!(p.slot(t, d), 0);
        }
        assert!(p.retired(t).is_empty());
    }
}

#[test]
fn mark_ptr_publishes_and_returns_pointer() {
    let mut p = registry(2, 2, 4);
    let a = p.allocate(7);
    assert!(!p.hazardous(a));
    assert_eq!(p.mark_ptr(1, 1, a), a);
    assert_eq!(p.slot(1, 1), a);
    assert_eq!(p.slot(1, 0), 0);
    assert_eq!(p.slot(0, 1), 0);
    assert!(p.hazardous(a));
}

#[test]
fn clear_twice_leaves_slot_null() {
    let mut p = registry(2, 1, 4);
    let a = p.allocate(1);
    p.mark_ptr(0, 0, a);
    p.clear(0, 0);
    assert_eq!(p.slot(0, 0), 0);
    p.clear(0, 0);
    assert_eq!(p.slot(0, 0), 0);
    assert!(!p.hazardous(a));
}

#[test]
fn try_mark_protects_stable_source() {
    let mut p = registry(2, 2, 4);
    let a = p.allocate(5);
    let source = AtomicUsize::new(a);
    assert_eq!(p.try_mark(1, 0, &source), Some(a));
    assert_eq!(p.slot(1, 0), a);
    assert!(p.hazardous(a));
}

#[test]
fn sweep_runs_when_threshold_reached() {
    let mut p = registry(2, 1, 3);
    let p1 = p.allocate(1);
    let p2 = p.allocate(2);
    let p3 = p.allocate(3);
    p.retire(0, p1);
    p.retire(0, p2);
    assert_eq!(p.retired(0), &vec![p1, p2]);
    assert!(p.is_allocated(p1));
    assert!(p.is_allocated(p2));
    p.retire(0, p3);
    assert!(p.retired(0).is_empty());
    assert!(!p.is_allocated(p1));
    assert!(!p.is_allocated(p2));
    assert!(!p.is_allocated(p3));
}

#[test]
fn hazardous_pointer_survives_sweep_until_cleared() {
    let mut p = registry(2, 1, 1);
    let a = p.allocate(10);
    let b = p.allocate(11);
    p.mark_ptr(1, 0, a);
    p.retire(0, a);
    assert!(p.hazardous(a));
    assert_eq!(p.retired(0), &vec![a]);
    assert!(p.is_allocated(a));
    p.clear(1, 0);
    p.retire(0, b);
    assert!(p.retired(0).is_empty());
    assert!(!p.is_allocated(a));
    assert!(!p.is_allocated(b));
}

#[test]
fn sweep_keeps_protected_in_order() {
    let mut p = registry(1, 2, 4);
    let a = p.allocate(1);
    let b = p.allocate(2);
    let c = p.allocate(3);
    let d = p.allocate(4);
    p.mark_ptr(0, 0, c);
    p.mark_ptr(0, 1, a);
    p.retire(0, a);
    p.retire(0, b);
    p.retire(0, c);
    p.retire(0, d);
    assert_eq!(p.retired(0), &vec![a, c]);
    assert!(p.is_allocated(a));
    assert!(!p.is_allocated(b));
    assert!(p.is_allocated(c));
    assert!(!p.is_allocated(d));
}

#[test]
fn threads_do_not_touch_each_other() {
    let mut p = registry(2, 1, 2);
    let a = p.allocate(1);
    let b = p.allocate(2);
    let c = p.allocate(3);
    p.retire(1, a);
    p.mark_ptr(0, 0, c);
    p.retire(0, b);
    p.retire(0, c);
    assert_eq!(p.retired(1), &vec![a]);
    assert!(p.is_allocated(a));
    assert_eq!(p.retired(0), &vec![c]);
    assert!(!p.is_allocated(b));
    assert_eq!(p.slot(1, 0), 0);
    assert_eq!(p.slot(0, 0), c);
}

#[test]
fn teardown_frees_every_retired_pointer() {
    let mut p = registry(2, 1, 10);
    let a = p.allocate(1);
    let b = p.allocate(2);
    let keep = p.allocate(3);
    p.retire(0, a);
    p.retire(1, b);
    p.mark_ptr(1, 0, b);
    let memory = p.teardown();
    assert!(!memory.is_allocated(a));
    assert!(!memory.is_allocated(b));
    assert!(memory.is_allocated(keep));
}

#[test]
fn zero_threshold_sweeps_on_every_retire() {
    let mut p = registry(1, 1, 0);
    let a = p.allocate(1);
    p.retire(0, a);
    assert!(p.retired(0).is_empty());
    assert!(!p.is_allocated(a));
}

#[test]
fn null_is_hazardous_while_a_slot_is_empty() {
    let mut p = registry(1, 1, 1);
    assert!(p.hazardous(0));
    let a = p.allocate(1);
    p.mark_ptr(0, 0, a);
    assert!(!p.hazardous(0));
}

#[test]
fn box_memory_hands_out_fresh_handles() {
    let mut m: BoxMemory<String> = BoxMemory::new();
    let a = m.allocate(String::from("a"));
    let b = m.allocate(String::from("b"));
    assert_ne!(a, 0);
    assert_ne!(b, 0);
    assert_ne!(a, b);
    assert!(m.is_allocated(a));
    m.deallocate(a);
    assert!(!m.is_allocated(a));
    assert!(m.is_allocated(b));
    assert!(!m.is_allocated(0));
    let c = m.allocate(String::from("c"));
    assert_ne!(c, a);
}

#[test]
fn align_vec_wraps_its_vector() {
    let mut v = AlignVec::new(vec![1, 2, 3]);
    assert_eq!(v.as_vec(), &vec![1, 2, 3]);
    v.as_mut_vec().push(4);
    assert_eq!(v.as_vec().len(), 4);
    assert_eq!(std::mem::size_of::<AlignVec<u8>>(), 128);
}

#[test]
fn vec_memory_hands_out_fresh_handles() {
    let mut m: VecMemory<u64> = VecMemory::new();
    let a = m.allocate(1);
    let b = m.allocate(2);
    assert_ne!(a, 0);
    assert_ne!(a, b);
    assert!(m.is_allocated(a));
    assert!(m.is_allocated(b));
    m.deallocate(b);
    assert!(!m.is_allocated(b));
    assert!(m.is_allocated(a));
    assert!(!m.is_allocated(0));
    assert!(!m.is_allocated(99));
}

#[test]
fn registry_over_vec_memory_sweeps_the_same_way() {
    let mut p: Pointers<u64, VecMemory<u64>> = Pointers::new(VecMemory::new(), 2, 1, 3);
    let p1 = p.allocate(1);
    let p2 = p.allocate(2);
    let p3 = p.allocate(3);
    p.retire(0, p1);
    p.retire(0, p2);
    assert_eq!(p.retired(0), &vec![p1, p2]);
    p.retire(0, p3);
    assert!(p.retired(0).is_empty());
    assert!(!p.is_allocated(p1));
    assert!(!p.is_allocated(p2));
    assert!(!p.is_allocated(p3));
}

#[test]
fn settled_holds_only_when_reads_agree() {
    type P = Pointers<u32, BoxMemory<u32>>;
    assert_eq!(P::settled(5, 5), Some(5));
    assert_eq!(P::settled(0, 0), Some(0));
    assert_eq!(P::settled(5, 6), None);
    assert_eq!(P::settled(6, 0), None);
}

#[test]
fn try_mark_protects_null_source() {
    let mut p = registry(1, 1, 4);
    let a = p.allocate(5);
    p.mark_ptr(0, 0, a);
    let source = AtomicUsize::new(0);
    assert_eq!(p.try_mark(0, 0, &source), Some(0));
    assert_eq!(p.slot(0, 0), 0);
    assert!(!p.hazardous(a));
}
