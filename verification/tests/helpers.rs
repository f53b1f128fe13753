use alife::helpers::{rand_range, rand_upto, BoundedSignedAdd};

#[test]
fn add_bounded_stops_at_zero() {
    let mut x: usize = 3;
    x.add_bounded(-5);
    assert_eq!(x, 0);
}

#[test]
fn add_bounded_adds_and_subtracts() {
    let mut x: usize = 10;
    x.add_bounded(7);
    assert_eq!(x, 17);
    x.add_bounded(-4);
    assert_eq!(x, 13);
}

#[test]
fn add_bounded_stops_at_the_top() {
    let mut x: usize = usize::MAX - 1;
    x.add_bounded(5);
    assert_eq!(x, usize::MAX);
    let mut y: usize = 5;
    y.add_bounded(isize::MIN);
    assert_eq!(y, 0);
}

#[test]
fn add_bounded_max_caps() {
    let mut x: usize = 250;
    x.add_bounded_max(15, 255);
    assert_eq!(x, 255);
    let mut y: usize = 4;
    y.add_bounded_max(-16, 255);
    assert_eq!(y, 0);
    let mut z: usize = 100;
    z.add_bounded_max(-16, 255);
    assert_eq!(z, 84);
}

#[test]
fn rand_range_stays_in_range() {
    for _ in 0..1000 {
        let r = rand_range(5..9);
        assert!(5 <= r && r < 9);
    }
    let mut seen = [false; 4];
    for _ in 0..1000 {
        seen[rand_range(0..4)] = true;
    }
    assert!(seen.iter().all(|s| *s));
}

#[test]
fn rand_upto_includes_the_bound() {
    let mut top = false;
    for _ in 0..1000 {
        let r = rand_upto(2);
        assert!(r <= 2);
        if r == 2 {
            top = true;
        }
    }
    assert!(top);
    assert_eq!(rand_upto(0), 0);
}
