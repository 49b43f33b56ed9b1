use regex_deriv::{ByteSet, CharSet};

#[test]
fn byte_set_contains() {
    let set1 = ByteSet::range(10, 20);
    let set2 = ByteSet::range(30, 40);
    let set3 = ByteSet::range(50, 60);
    let set4 = ByteSet::range(70, 80);
    let set5 = ByteSet::range(90, 100);
    let set = set1.union(&set2).union(&set3).union(&set4).union(&set5);

    for x in 0..10 { assert!(!set.contains(x), "Set should not contain {:02x}", x); }
    for x in 10..=20 { assert!(set.contains(x), "{:?} Set should contain {:02x}", set, x); }
    for x in 21..30 { assert!(!set.contains(x), "Set should not contain {:02x}", x); }
    for x in 30..=40 { assert!(set.contains(x), "Set should contain {:02x}", x); }
    for x in 41..50 { assert!(!set.contains(x), "Set should not contain {:02x}", x); }
    for x in 50..=60 { assert!(set.contains(x), "Set should contain {:02x}", x); }
    for x in 61..70 { assert!(!set.contains(x), "Set should not contain {:02x}", x); }
    for x in 70..=80 { assert!(set.contains(x), "Set should contain {:02x}", x); }
    for x in 81..90 { assert!(!set.contains(x), "Set should not contain {:02x}", x); }
    for x in 90..=100 { assert!(set.contains(x), "Set should contain {:02x}", x); }
    for x in 101..110 { assert!(!set.contains(x), "Set should not contain {:02x}", x); }
}

#[test]
fn byte_set_intersection() {
    let set1 = ByteSet::range(60, 180);
    let set2 = set1.complement();

    assert_eq!(set2, ByteSet::range(0, 59).union(&ByteSet::range(181, 255)));
    assert_eq!(set2.intersection(&set1), ByteSet::empty());
    assert_eq!(ByteSet::empty(), ByteSet::range(0, 255).complement())
}

#[test]
fn byte_set_union() {
    let set1 = ByteSet::range(60, 180);
    let set2 = ByteSet::range(10, 20);
    let set3 = ByteSet::range(150, 200);

    let union = set1.union(&set2).union(&set3);

    assert_eq!(union, ByteSet::range(10, 20).union(&ByteSet::range(60, 200)));
}

#[test]
fn bytes() {
    let set = ByteSet::range(1, 3).union(&ByteSet::range(5, 7));
    let mut iter = set.bytes();
    assert_eq!(iter.next(), Some(1_u8));
    assert_eq!(iter.next(), Some(2_u8));
    assert_eq!(iter.next(), Some(3_u8));
    assert_eq!(iter.next(), Some(5_u8));
    assert_eq!(iter.next(), Some(6_u8));
    assert_eq!(iter.next(), Some(7_u8));
    assert_eq!(iter.next(), None);
}

#[test]
fn char_set_contains() {
    let set1 = CharSet::range(10, 20);
    let set2 = CharSet::range(30, 40);
    let set3 = CharSet::range(50, 60);
    let set4 = CharSet::range(70, 80);
    let set5 = CharSet::range(90, 100);
    let set = set1.union(&set2).union(&set3).union(&set4).union(&set5);

    for x in 0..10 { assert!(!set.contains(x), "Set should not contain {:02x}", x); }
    for x in 10..=20 { assert!(set.contains(x), "{:?} Set should contain {:02x}", set, x); }
    for x in 21..30 { assert!(!set.contains(x), "Set should not contain {:02x}", x); }
    for x in 30..=40 { assert!(set.contains(x), "Set should contain {:02x}", x); }
    for x in 41..50 { assert!(!set.contains(x), "Set should not contain {:02x}", x); }
    for x in 50..=60 { assert!(set.contains(x), "Set should contain {:02x}", x); }
    for x in 61..70 { assert!(!set.contains(x), "Set should not contain {:02x}", x); }
    for x in 70..=80 { assert!(set.contains(x), "Set should contain {:02x}", x); }
    for x in 81..90 { assert!(!set.contains(x), "Set should not contain {:02x}", x); }
    for x in 90..=100 { assert!(set.contains(x), "Set should contain {:02x}", x); }
    for x in 101..110 { assert!(!set.contains(x), "Set should not contain {:02x}", x); }
}

#[test]
fn char_set_intersection() {
    let set1 = CharSet::range(60, 180);
    let set2 = set1.complement();

    assert_eq!(set2, CharSet::range(0, 59).union(&CharSet::range(181, 255)));
    assert_eq!(set2.intersection(&set1), CharSet::empty());
    assert_eq!(CharSet::empty(), CharSet::range(0, 255).complement())
}

#[test]
fn char_set_union() {
    let set1 = CharSet::range(60, 180);
    let set2 = CharSet::range(10, 20);
    let set3 = CharSet::range(150, 200);

    let union = set1.union(&set2).union(&set3);

    assert_eq!(union, CharSet::range(10, 20).union(&CharSet::range(60, 200)));
}

#[test]
fn chars() {
    let set = CharSet::range(1, 3).union(&CharSet::range(5, 7));
    let mut iter = set.chars();
    assert_eq!(iter.next(), Some(1_u8));
    assert_eq!(iter.next(), Some(2_u8));
    assert_eq!(iter.next(), Some(3_u8));
    assert_eq!(iter.next(), Some(5_u8));
    assert_eq!(iter.next(), Some(6_u8));
    assert_eq!(iter.next(), Some(7_u8));
    assert_eq!(iter.next(), None);
}

#[test]
fn range_reversed_is_empty() {
    assert!(ByteSet::range(9, 3).is_empty());
    assert_eq!(ByteSet::range(9, 3), ByteSet::empty());
    assert_eq!(ByteSet::range(7, 7), ByteSet::point(7));
}

#[test]
fn empty_and_universe() {
    assert!(ByteSet::empty().is_empty());
    assert!(!ByteSet::empty().is_universe());
    assert!(ByteSet::universe().is_universe());
    assert!(!ByteSet::point(0).is_empty());
    assert!(!ByteSet::point(0).is_universe());
    assert_eq!(ByteSet::empty().complement(), ByteSet::universe());
    assert_eq!(ByteSet::range(0, 255), ByteSet::universe());
    let mut iter = ByteSet::empty().bytes();
    assert_eq!(iter.next(), None);
}

#[test]
fn smallest_member() {
    assert_eq!(ByteSet::range(83, 149).smallest(), Some(83));
    assert_eq!(ByteSet::empty().smallest(), None);
    assert_eq!(ByteSet::point(255).smallest(), Some(255));
    assert_eq!(CharSet::range(200, 210).min(), Some(200));
}

#[test]
fn double_complement() {
    for (a, b) in [(0u8, 0u8), (3, 17), (100, 255), (0, 255), (9, 3)] {
        let s = ByteSet::range(a, b);
        assert_eq!(s.complement().complement(), s);
    }
}

#[test]
fn de_morgan() {
    let a = ByteSet::range(10, 50);
    let b = ByteSet::range(40, 90).union(&ByteSet::point(200));
    assert_eq!(a.union(&b).complement(), a.complement().intersection(&b.complement()));
}

#[test]
fn assign_operations() {
    let mut s = ByteSet::range(0, 10);
    s.union_assign(&ByteSet::range(20, 30));
    assert!(s.contains(5) && s.contains(25) && !s.contains(15));
    s.intersection_assign(&ByteSet::range(8, 22));
    assert_eq!(s, ByteSet::range(8, 10).union(&ByteSet::range(20, 22)));
}

#[test]
fn compare_orders_bitmaps() {
    assert_eq!(ByteSet::point(0).compare(&ByteSet::point(1)), std::cmp::Ordering::Less);
    assert_eq!(ByteSet::point(8).compare(&ByteSet::point(0)), std::cmp::Ordering::Less);
    assert_eq!(ByteSet::point(5).compare(&ByteSet::point(5)), std::cmp::Ordering::Equal);
}
