use openfdap::etag::format_etag;

#[test]
fn etag_of_zero() {
    assert_eq!(format_etag(0), "\"0\"");
}

#[test]
fn etag_of_many_digits() {
    assert_eq!(format_etag(1203), "\"1203\"");
    assert_eq!(format_etag(10), "\"10\"");
    assert_eq!(format_etag(9), "\"9\"");
}
