use bempp::scale::m2l_scale;

#[test]
fn test_m2l_scale_levels() {
    assert_eq!(m2l_scale(2).exponent, -1);
    assert_eq!(m2l_scale(3).exponent, 0);
    assert_eq!(m2l_scale(4).exponent, 1);
    assert_eq!(m2l_scale(10).exponent, 7);
}
