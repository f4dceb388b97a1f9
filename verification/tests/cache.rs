use zomboid_map::cache::CellCache;

#[test]
fn cache_get_after_put_finds_the_value() {
    let mut c: CellCache<&str> = CellCache::new(2);
    c.put((1, 1), "a");
    assert_eq!(c.get((1, 1)), Some(&"a"));
    assert_eq!(c.get((2, 2)), None);
}

#[test]
fn cache_put_replaces_a_value() {
    let mut c: CellCache<u32> = CellCache::new(2);
    c.put((1, 1), 10);
    c.put((1, 1), 11);
    c.put((2, 2), 20);
    assert_eq!(c.get((1, 1)), Some(&11));
    assert_eq!(c.get((2, 2)), Some(&20));
}

#[test]
fn cache_drops_the_least_recently_used() {
    let mut c: CellCache<u32> = CellCache::new(2);
    c.put((1, 1), 1);
    c.put((2, 2), 2);
    // using (1, 1) makes (2, 2) the oldest
    assert_eq!(c.get((1, 1)), Some(&1));
    c.put((3, 3), 3);
    assert_eq!(c.get((2, 2)), None);
    assert_eq!(c.get((1, 1)), Some(&1));
    assert_eq!(c.get((3, 3)), Some(&3));
}

#[test]
fn cache_of_zero_capacity_holds_one_cell() {
    let mut c: CellCache<u32> = CellCache::new(0);
    c.put((1, 1), 1);
    assert_eq!(c.get((1, 1)), Some(&1));
    c.put((2, 2), 2);
    assert_eq!(c.get((1, 1)), None);
    assert_eq!(c.get((2, 2)), Some(&2));
}
