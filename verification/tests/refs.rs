use bevy_realtime::refs::RefAllocator;

#[test]
fn refs_start_at_one_and_never_repeat() {
    let mut refs = RefAllocator::new();
    assert_eq!(refs.peek(), 1);
    let mut seen = Vec::new();
    for _ in 0..100 {
        let r = refs.allocate().unwrap();
        assert!(!seen.contains(&r));
        assert!(refs.is_live(r));
        seen.push(r);
    }
    assert_eq!(seen[0], 1);
    assert_eq!(seen[99], 100);
    assert_eq!(refs.peek(), 101);
}

#[test]
fn a_ref_is_not_live_before_it_is_given_out() {
    let mut refs = RefAllocator::new();
    assert!(!refs.is_live(1));
    assert!(!refs.is_live(0));
    let r = refs.allocate().unwrap();
    assert!(refs.is_live(r));
    assert!(!refs.is_live(r + 1));
}

#[test]
fn new_session_forgets_earlier_refs_and_does_not_reuse_them() {
    let mut refs = RefAllocator::new();
    let a = refs.allocate().unwrap();
    let b = refs.allocate().unwrap();
    refs.new_session();
    assert!(!refs.is_live(a));
    assert!(!refs.is_live(b));
    let c = refs.allocate().unwrap();
    assert!(c != a && c != b);
    assert_eq!(c, 3);
    assert!(refs.is_live(c));
    assert!(!refs.is_live(a));
    assert!(!refs.is_live(b));
}
