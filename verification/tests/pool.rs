use ggblas::{plan_pool, share, unit_row, Acquired, Pool};

#[test]
fn one_worker_per_physical_core() {
    let plan = plan_pool(4, Some(vec![0, 1, 2, 3, 4, 5, 6, 7])).unwrap();
    assert_eq!(plan.workers, 4);
    assert_eq!(plan.pins, [0, 1, 2, 3]);
    let plan = plan_pool(4, Some(vec![2, 5])).unwrap();
    assert_eq!(plan.workers, 4);
    assert_eq!(plan.pins, [2, 5]);
    let plan = plan_pool(2, Some(vec![3, 9])).unwrap();
    assert_eq!(plan.pins, [3, 9]);
    let plan = plan_pool(1, Some(vec![])).unwrap();
    assert_eq!(plan.workers, 1);
    assert!(plan.pins.is_empty());
}

#[test]
fn no_pool_without_cores() {
    assert!(plan_pool(4, None).is_none());
    assert!(plan_pool(0, Some(vec![0, 1])).is_none());
    assert!(plan_pool(0, None).is_none());
}

#[test]
fn the_pool_is_laid_out_once() {
    let mut pool = Pool::new();
    assert!(pool.layout().is_none());
    assert!(matches!(pool.acquire_with(2, Some(vec![0, 1, 2, 3])), Acquired::Built));
    assert_eq!(pool.layout().unwrap().workers, 2);
    assert_eq!(pool.layout().unwrap().pins, [0, 1]);
    for round in 0..1000usize {
        let cores = if round % 2 == 0 { None } else { Some(vec![round]) };
        let found = pool.acquire_with(round % 9, cores);
        assert!(matches!(found, Acquired::Reused));
        assert_eq!(pool.layout().unwrap().workers, 2);
        assert_eq!(pool.layout().unwrap().pins, [0, 1]);
    }
    assert!(matches!(pool.acquire(), Acquired::Reused));
    assert_eq!(pool.layout().unwrap().workers, 2);
    assert_eq!(pool.layout().unwrap().pins, [0, 1]);
}

#[test]
fn a_failed_layout_leaves_the_pool_empty() {
    let mut pool = Pool::new();
    assert!(matches!(pool.acquire_with(4, None), Acquired::Failed));
    assert!(pool.layout().is_none());
    assert!(matches!(pool.acquire_with(0, Some(vec![0])), Acquired::Failed));
    assert!(pool.layout().is_none());
    assert!(matches!(pool.acquire_with(1, Some(vec![0])), Acquired::Built));
    assert_eq!(pool.layout().unwrap().workers, 1);
}

#[test]
fn the_pool_of_this_machine() {
    let mut pool = Pool::new();
    match pool.acquire() {
        Acquired::Built => {
            let layout = pool.layout().unwrap();
            assert!(layout.workers >= 1);
            assert!(layout.pins.len() <= layout.workers);
            for pair in layout.pins.windows(2) {
                assert!(pair[0] < pair[1]);
            }
            let workers = layout.workers;
            let pins = layout.pins.clone();
            for _ in 0..1000 {
                assert!(matches!(pool.acquire(), Acquired::Reused));
                assert_eq!(pool.layout().unwrap().workers, workers);
                assert_eq!(pool.layout().unwrap().pins, pins);
            }
        }
        Acquired::Failed => assert!(pool.layout().is_none()),
        Acquired::Reused => panic!("a new pool cannot be reused"),
    }
}

#[test]
fn shares_are_even_and_cover_the_units() {
    assert_eq!(share(10, 3, 0), (0, 4));
    assert_eq!(share(10, 3, 1), (4, 7));
    assert_eq!(share(10, 3, 2), (7, 10));
    assert_eq!(share(2, 4, 0), (0, 1));
    assert_eq!(share(2, 4, 1), (1, 2));
    assert_eq!(share(2, 4, 2), (2, 2));
    assert_eq!(share(2, 4, 3), (2, 2));
    assert_eq!(share(0, 3, 1), (0, 0));
    assert_eq!(share(usize::MAX, 1, 0), (0, usize::MAX));
    for total in 0..60usize {
        for workers in 1..9usize {
            let mut next = 0;
            for w in 0..workers {
                let (start, end) = share(total, workers, w);
                assert_eq!(start, next);
                let size = end - start;
                assert!(size == total / workers || size == total / workers + 1);
                next = end;
            }
            assert_eq!(next, total);
        }
    }
}

#[test]
fn units_are_numbered_item_by_item() {
    assert_eq!(unit_row(0, 3), (0, 0));
    assert_eq!(unit_row(7, 3), (2, 1));
    assert_eq!(unit_row(8, 3), (2, 2));
    assert_eq!(unit_row(9, 1), (9, 0));
}
