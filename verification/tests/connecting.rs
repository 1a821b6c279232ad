//! Connections, options and readers.
use tile_clipper::endpoint::{
    partition_of_endpoint, partition_of_region, partition_warning, profile_warning, region_hint,
    selected_endpoint, selected_profile, with_scheme,
};
use tile_clipper::options::{connection_warning, entry_limit, memory_warning, DEFAULT_MAX_ENTRY_MIB};
use tile_clipper::polygon::{choose_polygon, GeoDocument};
use tile_clipper::reader::{ReadCursor, SeekTo};
use tile_clipper::request::{
    default_endpoint, http_error_message, object_location, object_url, range_header, range_len,
};

#[test]
fn regions_and_endpoints_have_their_partitions() {
    assert_eq!(partition_of_region("us-gov-west-1"), "aws-us-gov");
    assert_eq!(partition_of_region("cn-north-1"), "aws-cn");
    assert_eq!(partition_of_region("eu-central-1"), "aws");
    assert_eq!(
        partition_of_endpoint("https://s3.us-gov-west-1.amazonaws.com/x"),
        Some("aws-us-gov")
    );
    assert_eq!(
        partition_of_endpoint("https://s3.cn-north-1.amazonaws.com.cn"),
        Some("aws-cn")
    );
    assert_eq!(partition_of_endpoint("s3.amazonaws.com"), Some("aws"));
    assert_eq!(partition_of_endpoint("https://minio.local/a.amazonaws.com"), None);
    assert_eq!(partition_of_endpoint("https://minio.us-gov-1.example.com"), None);
    assert_eq!(
        partition_of_endpoint("https://us-gov-x.s3.amazonaws.com.cn"),
        Some("aws-us-gov")
    );
}

#[test]
fn partitions_that_differ_give_a_warning() {
    assert!(partition_warning("https://s3.amazonaws.com", "us-east-1", true).is_none());
    assert!(partition_warning("https://minio.local", "us-gov-west-1", true).is_none());
    assert_eq!(
        partition_warning("https://s3.amazonaws.com", "us-gov-west-1", true).unwrap(),
        "[WARN] endpoint https://s3.amazonaws.com serves the 'aws' partition, but requests are signed for region 'us-gov-west-1' in 'aws-us-gov'. S3 will reject these as AuthorizationHeaderMalformed. Pass --endpoint-url https://s3.us-gov-west-1.amazonaws.com to reach a bucket in 'us-gov-west-1'."
    );
    let warning = partition_warning("https://s3.amazonaws.com", "us-gov-west-1", false).unwrap();
    assert!(warning.contains("or clear AWS_S3_ENDPOINT/AWS_ENDPOINT_URL"));
    // Following the advice ends the warning.
    let advised = "https://s3.us-gov-west-1.amazonaws.com";
    assert!(partition_warning(advised, "us-gov-west-1", true).is_none());
}

#[test]
fn rejected_signatures_give_a_hint() {
    let rejection = "AuthorizationHeaderMalformed: the region 'us-gov-west-1' is wrong; expecting 'us-east-1'";
    assert_eq!(
        region_hint(rejection, Some("us-gov-west-1"), None).unwrap(),
        "[HINT] Signed for region 'us-gov-west-1', but S3 expects 'us-east-1'. Pass --region us-east-1 to sign for the bucket's own region (a --profile otherwise signs for the region that profile declares)."
    );
    assert_eq!(
        region_hint(rejection, None, Some("https://e")).unwrap(),
        "[HINT] Signed for region '<unknown>', but endpoint https://e expects 'us-east-1'. If --bucket really is in '<unknown>', the endpoint is what is wrong - pass --endpoint-url https://s3.<unknown>.amazonaws.com (or clear AWS_S3_ENDPOINT/AWS_ENDPOINT_URL). If the bucket is in 'us-east-1', pass --region us-east-1 instead."
    );
    assert!(region_hint("expecting 'us-east-1'", None, None).is_none());
    assert!(region_hint("AuthorizationHeaderMalformed expecting 'us", None, None).is_none());
}

#[test]
fn unreachable_profiles_give_a_warning() {
    assert!(profile_warning("p", true, None).is_none());
    assert!(profile_warning("p", false, Some(true)).is_none());
    let warning = profile_warning("p", false, None).unwrap();
    assert!(warning.starts_with(
        "[WARN] profile 'p' was requested, but no AWS profile file could be found (HOME is not set) - it will"
    ));
    assert!(warning.contains("(`env={**os.environ, \"AWS_PROFILE\": \"p\"}`)"));
    assert!(profile_warning("p", false, Some(false)).unwrap().contains(" under $HOME/.aws - it"));
}

#[test]
fn flags_go_before_the_environment() {
    let some = |s: &str| Some(s.to_string());
    assert_eq!(selected_profile(some("a"), some("b")), some("a"));
    assert_eq!(selected_profile(None, some("b")), some("b"));
    assert_eq!(selected_profile(some(""), some("b")), None);
    assert_eq!(selected_endpoint(some("a"), some("b"), some("c")), some("https://a"));
    assert_eq!(selected_endpoint(None, some("http://b"), some("c")), some("http://b"));
    assert_eq!(selected_endpoint(None, None, some("c")), some("https://c"));
    assert_eq!(selected_endpoint(None, None, None), None);
    assert_eq!(with_scheme(with_scheme("host".to_string())), "https://host");
}

#[test]
fn requests_in_words() {
    assert_eq!(default_endpoint(), "https://s3.amazonaws.com");
    assert_eq!(object_url("https://e", "b", "k/x.3tz"), "https://e/b/k/x.3tz");
    assert_eq!(object_location("b", "k"), "s3://b/k");
    assert_eq!(range_header(0, 1023), "bytes=0-1023");
    assert_eq!(range_len(10, 19), 10);
    assert_eq!(range_len(10, 5), 1);
    assert_eq!(range_len(0, u64::MAX), u64::MAX);
    assert_eq!(
        http_error_message("404 Not Found", "https://e/b/k"),
        "HTTP Error: 404 Not Found for url https://e/b/k"
    );
}

#[test]
fn large_options_give_warnings() {
    assert_eq!(entry_limit(DEFAULT_MAX_ENTRY_MIB), Some(268_435_456));
    assert_eq!(entry_limit(u64::MAX), None);
    assert!(connection_warning(10, 20).is_none());
    assert_eq!(
        connection_warning(10, 21).unwrap(),
        "[WARN] --archive-concurrency (10) * --concurrency (21) allows up to 210 concurrent S3 connections, which may exhaust local sockets or trip S3 rate limits. Consider lowering one of these."
    );
    assert!(connection_warning(usize::MAX, 2).unwrap().contains("18446744073709551615"));
    assert!(memory_warning(256, 32, 268_435_456).is_none());
    assert_eq!(
        memory_warning(256, 40, 268_435_456).unwrap(),
        "[WARN] --max-entry-size (256 MiB) * --concurrency (40) allows up to 10 GiB of decompressed entries in memory at once. Consider lowering one of these."
    );
}

#[test]
fn reads_end_with_the_object() {
    let mut cursor = ReadCursor::new(100);
    assert_eq!(cursor.wanted(0), None);
    assert_eq!(cursor.wanted(40), Some((0, 39)));
    cursor.advance(40);
    assert_eq!(cursor.wanted(60), Some((40, 99)));
    assert_eq!(cursor.wanted(usize::MAX), Some((40, 99)));
    cursor.advance(60);
    assert_eq!(cursor.wanted(1), None);
}

#[test]
fn seeking_counts_from_three_places() {
    let mut cursor = ReadCursor::new(100);
    cursor.seek(SeekTo::End { delta: -10 });
    assert_eq!(cursor.pos, 90);
    cursor.seek(SeekTo::Current { delta: 0 });
    assert_eq!(cursor.pos, 90);
    cursor.seek(SeekTo::Current { delta: -91 });
    assert_eq!(cursor.pos, u64::MAX);
    cursor.seek(SeekTo::Start { offset: 7 });
    assert_eq!(cursor.pos, 7);
    assert!(cursor.can_seek(SeekTo::Current { delta: i64::MIN }));
    assert!(!cursor.can_seek(SeekTo::Current { delta: i64::MAX }));
}

#[test]
fn the_first_polygon_of_a_collection_is_chosen() {
    assert_eq!(choose_polygon(GeoDocument::Collection { features: vec![None, Some(1), Some(2)] }), Some(1));
    assert_eq!(choose_polygon::<i32>(GeoDocument::Collection { features: vec![None] }), None);
    assert_eq!(choose_polygon(GeoDocument::Feature { geometry: Some(3) }), Some(3));
    assert_eq!(choose_polygon::<i32>(GeoDocument::Geometry { geometry: None }), None);
}
