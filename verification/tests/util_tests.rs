use sched_sim::util::Ordered;

#[test]
fn order_int() {
    let int_cmp = |a: &i32, b: &i32| a.cmp(b);
    assert_eq!(
        Ordered(5i32, int_cmp).cmp(&Ordered(2i32, int_cmp)),
        std::cmp::Ordering::Greater
    );
}

#[test]
fn order_eq_and_partial_cmp() {
    let int_cmp = |a: &i32, b: &i32| a.cmp(b);
    assert!(Ordered(3i32, int_cmp).eq(&Ordered(3i32, int_cmp)));
    assert!(!Ordered(3i32, int_cmp).eq(&Ordered(4i32, int_cmp)));
    assert_eq!(
        Ordered(1i32, int_cmp).partial_cmp(&Ordered(2i32, int_cmp)),
        Some(std::cmp::Ordering::Less)
    );
}
