use stegosaurust::image_api::get_square_image_width_from_bytes;

#[test]
fn test_get_square_image_width_from_bytes() {
    assert_eq!(get_square_image_width_from_bytes(100), 200)
}

#[test]
fn square_width_between_the_bounds() {
    // sqrt(8 * 30000 / 3) = 282.8...
    assert_eq!(get_square_image_width_from_bytes(30000), 564);
    assert_eq!(get_square_image_width_from_bytes(0), 200);
    assert_eq!(get_square_image_width_from_bytes(100_000_000), 5000);
}
