use algorithms::algorithms::sorting::insertion_sort;
use algorithms::math::basic::{SignedInt, GCD, LCM};

#[test]
fn euclid_takes_the_magnitudes() {
    assert_eq!(12i64.gcd_euclidean(18), 6);
    assert_eq!((-12i64).gcd_euclidean(18), 6);
    assert_eq!(12i32.gcd_euclidean(-18), 6);
    assert_eq!((-12i8).gcd_euclidean(-18), 6);
    assert_eq!(17i16.gcd_euclidean(5), 1);
    assert_eq!(0i64.gcd_euclidean(0), 0);
    assert_eq!(0i64.gcd_euclidean(-9), 9);
    assert_eq!(9i128.gcd_euclidean(0), 9);
    assert_eq!(1071isize.gcd_euclidean(462), 21);
}

#[test]
fn euclid_at_the_lowest_number() {
    assert_eq!(i8::MIN.gcd_euclidean(6), 2);
    assert_eq!(6i8.gcd_euclidean(i8::MIN), 2);
    assert_eq!(i64::MIN.gcd_euclidean(1), 1);
    assert_eq!(i32::MIN.gcd_euclidean(i32::MAX), 1);
}

#[test]
fn extended_scheme_gives_the_divisor() {
    assert_eq!(6i32.gcd_euclidean_extended(3), 3);
    assert_eq!(12i32.gcd_euclidean_extended(4), 4);
    assert_eq!(12i64.gcd_euclidean_extended(18), 6);
    assert_eq!((-12i64).gcd_euclidean_extended(18), 6);
    assert_eq!(12i16.gcd_euclidean_extended(-18), 6);
    assert_eq!((-12i8).gcd_euclidean_extended(-18), 6);
    assert_eq!(17i128.gcd_euclidean_extended(5), 1);
    assert_eq!(1071isize.gcd_euclidean_extended(462), 21);
    assert_eq!(0i32.gcd_euclidean_extended(7), 7);
    assert_eq!(0i32.gcd_euclidean_extended(-7), 7);
    assert_eq!(7i32.gcd_euclidean_extended(0), 7);
    assert_eq!(0i32.gcd_euclidean_extended(0), 0);
    assert_eq!(i8::MAX.gcd_euclidean_extended(i8::MAX), 127);
    assert_eq!(i8::MAX.gcd_euclidean_extended(-126), 1);
    assert_eq!(i64::MAX.gcd_euclidean_extended(i64::MAX - 1), 1);
    assert_eq!((-i64::MAX).gcd_euclidean_extended(2), 1);
}

#[test]
fn the_four_ways_agree() {
    for a in 1i32..40 {
        for b in 1i32..40 {
            let g = a.gcd_euclidean(b);
            assert!(g > 0 && a % g == 0 && b % g == 0);
            assert_eq!(a.gcd_euclidean_extended(b), g);
            assert_eq!(a.gcd_dijkstra(b), g);
            assert_eq!(a.gcd_bishop(b), g);
            assert_eq!((-a).gcd_euclidean_extended(b), g);
            assert_eq!(a.gcd_euclidean_extended(-b), g);
        }
    }
}

#[test]
fn dijkstra_by_subtraction() {
    assert_eq!(12i64.gcd_dijkstra(18), 6);
    assert_eq!(18i64.gcd_dijkstra(12), 6);
    assert_eq!(17i32.gcd_dijkstra(5), 1);
    assert_eq!(7i8.gcd_dijkstra(7), 7);
    assert_eq!(0i16.gcd_dijkstra(0), 0);
    assert_eq!(1071i128.gcd_dijkstra(462), 21);
}

#[test]
fn bishop_by_subtraction_and_exchange() {
    assert_eq!(12i64.gcd_bishop(18), 6);
    assert_eq!(18i64.gcd_bishop(12), 6);
    assert_eq!(17i32.gcd_bishop(5), 1);
    assert_eq!(7i8.gcd_bishop(7), 7);
    assert_eq!(0isize.gcd_bishop(0), 0);
    assert_eq!(1071i16.gcd_bishop(462), 21);
}

#[test]
fn least_common_multiple() {
    assert_eq!(4i64.lcm(6), 12);
    assert_eq!((-4i64).lcm(6), 12);
    assert_eq!(4i32.lcm(-6), 12);
    assert_eq!(21i16.lcm(6), 42);
    assert_eq!(0i8.lcm(5), 0);
    assert_eq!(5i8.lcm(0), 0);
    assert_eq!(7i128.lcm(7), 7);
}

#[test]
fn signed_integer_operations() {
    assert_eq!(<i8 as SignedInt>::zero(), 0);
    assert_eq!(<i64 as SignedInt>::one(), 1);
    assert!(SignedInt::is_zero(0i32));
    assert!(!SignedInt::is_zero(3i32));
    assert!(5i16.equals(5));
    assert!(!5i16.equals(-5));
    assert!(5i16.exceeds(-5));
    assert!(!5i16.exceeds(5));
    assert_eq!((-5i64).magnitude(), 5);
    assert_eq!(5i64.magnitude(), 5);
    assert_eq!(5i8.minus(7), -2);
    assert_eq!((-5i128).times(7), -35);
    assert_eq!((-7isize).quotient(2), -3);
    assert_eq!(7isize.quotient(-2), -3);
    assert_eq!((-7i32).remainder(2), -1);
    assert_eq!(7i32.remainder(-2), 1);
}

#[test]
fn insertion_sort_sorts_the_whole_slice() {
    let mut a = [3, 2, 1];
    insertion_sort(&mut a);
    assert_eq!(a, [1, 2, 3]);

    let mut b = [2, 1];
    insertion_sort(&mut b);
    assert_eq!(b, [1, 2]);

    let mut c = vec![5i64, -1, 5, 0, 9, -7, 3, 3];
    insertion_sort(&mut c);
    assert_eq!(c, vec![-7, -1, 0, 3, 3, 5, 5, 9]);

    let mut d: [u8; 0] = [];
    insertion_sort(&mut d);
    assert_eq!(d, []);

    let mut e = ['x'];
    insertion_sort(&mut e);
    assert_eq!(e, ['x']);
}

/// Compares by the first entry alone; the second tells equal ones apart.
#[derive(Clone, Copy, Debug, PartialEq)]
struct Tagged(u8, char);

impl PartialOrd for Tagged {
    fn partial_cmp(&self, other: &Self) -> Option<std::cmp::Ordering> {
        self.0.partial_cmp(&other.0)
    }
}

#[test]
fn insertion_sort_keeps_equal_elements_in_order() {
    let mut a = [Tagged(2, 'a'), Tagged(1, 'b'), Tagged(2, 'c'), Tagged(1, 'd')];
    insertion_sort(&mut a);
    assert_eq!(a, [Tagged(1, 'b'), Tagged(1, 'd'), Tagged(2, 'a'), Tagged(2, 'c')]);
}
