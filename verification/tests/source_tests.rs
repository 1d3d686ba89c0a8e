use tilemachine::source::{parse_locator, Locator};
use tilemachine::utils::Error;

#[test]
fn test_locator_file_scheme() {
    match parse_locator("file:/data/ortho.tif") {
        Ok(Locator::File(p)) => assert_eq!(p, "/data/ortho.tif"),
        _ => panic!("expected a file locator"),
    }
}

#[test]
fn test_locator_s3_scheme() {
    match parse_locator("s3:bucket/key.tif") {
        Ok(Locator::S3(p)) => assert_eq!(p, "bucket/key.tif"),
        _ => panic!("expected an object-store locator"),
    }
}

#[test]
fn test_locator_splits_at_first_colon_only() {
    match parse_locator("file:c:/data/x.tif") {
        Ok(Locator::File(p)) => assert_eq!(p, "c:/data/x.tif"),
        _ => panic!("expected a file locator"),
    }
}

#[test]
fn test_locator_wms_is_unsupported_not_invalid() {
    match parse_locator("wms:http://upstream/service") {
        Err(Error::UnsupportedScheme(p)) => assert_eq!(p, "http://upstream/service"),
        _ => panic!("expected the explicit unsupported-scheme error"),
    }
}

#[test]
fn test_locator_without_colon_is_invalid() {
    match parse_locator("plainpath.tif") {
        Err(Error::InvalidPath(p)) => assert_eq!(p, "plainpath.tif"),
        _ => panic!("expected an invalid-path error"),
    }
}

#[test]
fn test_locator_unknown_scheme_is_invalid() {
    assert!(matches!(
        parse_locator("ftp:host/x.tif"),
        Err(Error::InvalidPath(_))
    ));
    assert!(matches!(parse_locator(":rest"), Err(Error::InvalidPath(_))));
}
