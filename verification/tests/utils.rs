use simple_png::utils::div_ceil;

#[test]
fn div_ceil_works() {
    assert_eq!(div_ceil(2, 2), 1);
    assert_eq!(div_ceil(2, 4), 1);
    assert_eq!(div_ceil(3, 2), 2);
    assert_eq!(div_ceil(4, 2), 2);
    assert_eq!(div_ceil(17, 8), 3);
}
