use memo_recurrence::{foo1, foo2, Cache};

#[test]
fn foo() {
    // hardcoded, known result
    let n: u32 = 100;
    let res: u32 = 41;
    assert_eq!(foo1(n, n), res);
    assert_eq!(foo2(n, n), res);
}

#[test]
fn base_case_along_either_axis() {
    assert_eq!(foo2(0, 0), 1);
    assert_eq!(foo2(0, 7), 1);
    assert_eq!(foo2(7, 0), 1);
    assert_eq!(foo2(0, 999), 1);
    assert_eq!(foo2(999, 0), 1);
    assert_eq!(foo1(0, 0), 1);
    assert_eq!(foo1(0, 7), 1);
    assert_eq!(foo1(7, 0), 1);
}

#[test]
fn small_values_exact() {
    // f(1,1) = (1 + 1 + 1) % 1000 = 3
    assert_eq!(foo1(1, 1), 3);
    assert_eq!(foo2(1, 1), 3);
    // f(2,1) = (f(1,0) + f(2,0) + f(1,1)) % 1000 = (1 + 1 + 3) % 1000 = 5
    assert_eq!(foo1(2, 1), 5);
    assert_eq!(foo2(2, 1), 5);
    // f(2,2) = (f(1,1) + f(2,1) + f(1,2)) % 1000 = (3 + 5 + 5) % 1000 = 13
    assert_eq!(foo1(2, 2), 13);
    assert_eq!(foo2(2, 2), 13);
}

#[test]
fn recursive_and_iterative_agree_on_a_grid() {
    for x in 0u32..16 {
        for y in 0u32..16 {
            assert_eq!(foo1(x, y), foo2(x, y));
        }
    }
}

#[test]
fn results_stay_below_the_modulus() {
    for &(x, y) in &[(1u32, 1u32), (3, 9), (17, 5), (40, 40), (100, 100)] {
        assert!(foo1(x, y) < 1000);
        assert!(foo2(x, y) < 1000);
    }
}

#[test]
fn repeated_calls_on_fresh_caches_are_identical() {
    assert_eq!(foo1(37, 19), foo1(37, 19));
    assert_eq!(foo2(37, 19), foo2(37, 19));
    assert_eq!(foo1(37, 19), foo2(37, 19));
}

#[test]
fn deep_coordinate_iterative() {
    // deep enough that the native call stack could not hold the recursion's
    // pending frames one-for-one; the stack machine keeps them on the heap
    assert_eq!(foo2(5000, 5000), 609);
}

#[test]
fn deep_coordinate_recursive() {
    assert_eq!(foo1(5000, 5000), 609);
}

#[test]
fn cache_absent_then_present() {
    let mut c = Cache::new(10, 10);
    assert_eq!(c.get((3, 4)), None);
    c.insert((3, 4), 7);
    assert_eq!(c.get((3, 4)), Some(7));
    assert_eq!(c.get((4, 3)), None);
    // overwrite is permitted
    c.insert((3, 4), 8);
    assert_eq!(c.get((3, 4)), Some(8));
}

#[test]
fn cache_stored_zero_is_not_absent() {
    let mut c = Cache::new(2, 2);
    c.insert((1, 1), 0);
    assert_eq!(c.get((1, 1)), Some(0));
    assert_eq!(c.get((0, 0)), None);
}
