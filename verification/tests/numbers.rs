use raybvh::Ratio;
use raybvh::Vec3;

#[test]
fn ratio_orders_by_cross_products() {
    let third = Ratio::new(1, 3);
    let half = Ratio::new(2, 4);
    assert!(third.is_lt(half));
    assert!(third.is_le(half));
    assert!(!half.is_lt(third));
    assert!(!half.is_le(third));
    assert!(half.is_same(Ratio::new(1, 2)));
    assert!(half.is_le(Ratio::new(1, 2)));
    assert!(!half.is_lt(Ratio::new(1, 2)));
}

#[test]
fn ratio_orders_negative_numbers() {
    let a = Ratio::new(-7, 2);
    let b = Ratio::new(-10, 3);
    assert!(a.is_lt(b));
    assert!(b.is_lt(Ratio::zero()));
    assert!(Ratio::zero().is_lt(Ratio::new(1, i64::MAX)));
}

#[test]
fn ratio_compares_extreme_values_without_overflow() {
    let big = Ratio::new(i64::MAX, 1);
    let small = Ratio::new(i64::MIN, 1);
    let tiny = Ratio::new(1, i64::MAX);
    assert!(small.is_lt(big));
    assert!(tiny.is_lt(big));
    assert!(small.is_lt(tiny));
    assert!(big.is_same(Ratio::max_value()));
    assert!(Ratio::new(i64::MIN, i64::MAX).is_lt(Ratio::new(i64::MAX, i64::MAX)));
}

#[test]
fn ratio_max_and_min_pick_the_second_on_a_tie() {
    let a = Ratio::new(1, 2);
    let b = Ratio::new(2, 4);
    assert_eq!(a.max(b), b);
    assert_eq!(a.min(b), b);
    assert_eq!(b.max(a), a);
    let c = Ratio::new(3, 4);
    assert_eq!(a.max(c), c);
    assert_eq!(c.max(a), c);
    assert_eq!(a.min(c), a);
    assert_eq!(c.min(a), a);
}

#[test]
fn ratio_from_int_has_denominator_one() {
    assert_eq!(Ratio::from_int(-5), Ratio { num: -5, den: 1 });
    assert_eq!(Ratio::zero(), Ratio { num: 0, den: 1 });
}

#[test]
fn vec3_constructors_agree() {
    let v = Vec3::new(1, 2, 3);
    assert_eq!(v.data, [1, 2, 3]);
    assert_eq!(Vec3::from_tuple((1, 2, 3)), v);
    assert_eq!(Vec3::from_array([1, 2, 3]), v);
    assert_eq!(v.into_array(), [1, 2, 3]);
    assert_eq!(v.into_tuple(), (1, 2, 3));
    assert_eq!(Vec3::fill(7u8), Vec3::new(7u8, 7u8, 7u8));
    assert_eq!(v.get(0), 1);
    assert_eq!(v.get(2), 3);
}

#[test]
fn vec3_iter_goes_through_the_components() {
    let v = Vec3::new(4, 5, 6);
    assert_eq!(v.iter().copied().collect::<Vec<i32>>(), vec![4, 5, 6]);
    assert_eq!(v.iter().len(), 3);
    assert_eq!(v.iter().max(), Some(&6));
}

#[test]
fn vec3_from_map_calls_in_index_order() {
    let mut seen = Vec::new();
    let v = Vec3::from_map(|i| {
        seen.push(i);
        i * 10
    });
    assert_eq!(v, Vec3::new(0, 10, 20));
    assert_eq!(seen, vec![0, 1, 2]);
}

#[test]
fn vec3_map_all_any() {
    let v = Vec3::new(1i32, -2, 3);
    assert_eq!(v.map(|x| x * 2), Vec3::new(2, -4, 6));
    assert_eq!(v.map(|x| x > 0), Vec3::new(true, false, true));
    assert!(!v.all(|x| x > 0));
    assert!(v.all(|x| x != 0));
    assert!(v.any(|x| x < 0));
    assert!(!v.any(|x| x > 3));
}

#[test]
fn vec3_all_and_any_ask_every_component() {
    let v = Vec3::new(0i32, 1, 2);
    let mut calls = 0;
    assert!(!v.all(|x| {
        calls += 1;
        x > 0
    }));
    assert_eq!(calls, 3);
    let mut calls = 0;
    assert!(v.any(|x| {
        calls += 1;
        x == 0
    }));
    assert_eq!(calls, 3);
}

#[test]
fn vec3_units_and_zero() {
    assert_eq!(Vec3::<i32>::zero(), Vec3::new(0, 0, 0));
    assert_eq!(Vec3::<i32>::one(), Vec3::new(1, 1, 1));
    assert_eq!(Vec3::<i32>::unit_x(), Vec3::new(1, 0, 0));
    assert_eq!(Vec3::<i32>::unit_y(), Vec3::new(0, 1, 0));
    assert_eq!(Vec3::<i32>::unit_z(), Vec3::new(0, 0, 1));
    assert!(Vec3::<i32>::zero().is_zero());
    assert!(!Vec3::<i32>::unit_y().is_zero());
    assert!(!Vec3::new(0, 0, -1).is_zero());
}

#[test]
fn vec3_dot_cross_and_length() {
    let a = Vec3::new(1, 2, 3);
    let b = Vec3::new(4, -5, 6);
    assert_eq!(a.dot(b), 4 - 10 + 18);
    assert_eq!(a.length_squared(), 14);
    assert_eq!(a.cross(b), Vec3::new(27i128, 6, -13));
    assert_eq!(
        Vec3::<i32>::unit_x().cross(Vec3::unit_y()),
        Vec3::new(0i128, 0, 1)
    );
    assert_eq!(a.cross(a), Vec3::new(0i128, 0, 0));
}

#[test]
fn vec3_products_do_not_overflow_at_the_extremes() {
    let m = i32::MIN;
    let v = Vec3::new(m, m, m);
    let square = (m as i128) * (m as i128);
    assert_eq!(v.dot(v), 3 * square);
    assert_eq!(v.length_squared(), 3 * square);
    let w = Vec3::new(m, i32::MAX, m);
    let mixed = (m as i128) * (i32::MAX as i128);
    assert_eq!(v.cross(w), Vec3::new(square - mixed, 0, mixed - square));
}
