use xstream_util::{Limiting, Rotating};

/// Acquires from a limiting pool as the original did: reap the oldest when
/// full, then track a new process. Returns the process taken out, if any.
fn limit_acquire(pool: &mut Limiting<u32>, id: u32) -> Option<u32> {
    let out = pool.make_room();
    assert!(!pool.is_full());
    *pool.track(id) += 0;
    out
}

fn rotate_acquire(pool: &mut Rotating<u32>, next_id: &mut u32) -> u32 {
    if pool.needs_spawn() {
        pool.track(*next_id);
        *next_id += 1;
    }
    *pool.next()
}

#[test]
fn limiting_never_exceeds_bound() {
    let mut pool: Limiting<u32> = Limiting::new(2);
    assert_eq!(limit_acquire(&mut pool, 0), None);
    assert_eq!(limit_acquire(&mut pool, 1), None);
    assert_eq!(pool.len(), 2);
    assert!(pool.is_full());
    assert_eq!(limit_acquire(&mut pool, 2), Some(0));
    assert_eq!(pool.len(), 2);
    assert_eq!(limit_acquire(&mut pool, 3), Some(1));
    assert_eq!(pool.len(), 2);
}

#[test]
fn limiting_drains_newest_first() {
    let mut pool: Limiting<u32> = Limiting::new(3);
    for id in 0..3 {
        limit_acquire(&mut pool, id);
    }
    assert_eq!(pool.take_newest(), Some(2));
    assert_eq!(pool.take_newest(), Some(1));
    assert_eq!(pool.take_newest(), Some(0));
    assert_eq!(pool.take_newest(), None);
}

#[test]
fn limiting_unbounded_keeps_everything() {
    let mut pool: Limiting<u32> = Limiting::new(0);
    for id in 0..50 {
        assert_eq!(limit_acquire(&mut pool, id), None);
    }
    assert_eq!(pool.len(), 50);
    assert_eq!(pool.take_all(), (0..50).collect::<Vec<u32>>());
    assert_eq!(pool.len(), 0);
}

#[test]
fn rotating_reuses_in_turn() {
    let mut pool: Rotating<u32> = Rotating::new(3);
    let mut next_id = 0;
    let got: Vec<u32> = (0..8).map(|_| rotate_acquire(&mut pool, &mut next_id)).collect();
    assert_eq!(got, vec![0, 1, 2, 0, 1, 2, 0, 1]);
    assert_eq!(next_id, 3);
    assert_eq!(pool.take_all(), vec![0, 1, 2]);
}

#[test]
fn rotating_unbounded_spawns_each_time() {
    let mut pool: Rotating<u32> = Rotating::new(0);
    let mut next_id = 0;
    let got: Vec<u32> = (0..5).map(|_| rotate_acquire(&mut pool, &mut next_id)).collect();
    assert_eq!(got, vec![0, 1, 2, 3, 4]);
    assert_eq!(pool.take_newest(), Some(4));
    assert_eq!(pool.take_all(), vec![0, 1, 2, 3]);
}

#[test]
fn rotating_handle_is_lent_mutably() {
    let mut pool: Rotating<u32> = Rotating::new(1);
    pool.track(10);
    *pool.next() += 5;
    assert!(!pool.needs_spawn());
    assert_eq!(*pool.next(), 15);
}
