use uinfinite::utils::round_down;
use uinfinite::utils::round_up;

#[test]
fn round_up_to_multiples() {
    assert_eq!(round_up(10, 3), 12);
    assert_eq!(round_up(12, 3), 12);
    assert_eq!(round_up(1, 5), 5);
    assert_eq!(round_up(0, 5), 0);
}

#[test]
fn round_down_to_multiples() {
    assert_eq!(round_down(10, 3), 9);
    assert_eq!(round_down(12, 3), 12);
    assert_eq!(round_down(4, 5), 0);
    assert_eq!(round_down(0, 5), 0);
}

#[test]
fn rounding_with_unit_precision_is_identity() {
    assert_eq!(round_up(7, 1), 7);
    assert_eq!(round_down(7, 1), 7);
}
