use filmorator::config::{parse_port, Config, ConfigError};
use filmorator::s3::ImageTier;

fn s(x: &str) -> Option<String> {
    Some(x.to_string())
}

#[test]
fn image_tier_round_trips_through_prefix() {
    for tier in [ImageTier::Thumb, ImageTier::Preview, ImageTier::Original] {
        assert_eq!(ImageTier::from_str(tier.as_prefix()), Some(tier));
    }
    assert_eq!(ImageTier::Thumb.as_prefix(), "thumb");
    assert_eq!(ImageTier::Preview.as_prefix(), "preview");
    assert_eq!(ImageTier::Original.as_prefix(), "original");
}

#[test]
fn image_tier_rejects_unknown_names() {
    assert_eq!(ImageTier::from_str("Thumb"), None);
    assert_eq!(ImageTier::from_str(""), None);
    assert_eq!(ImageTier::from_str("originals"), None);
}

#[test]
fn parse_port_accepts_decimal_in_range() {
    assert_eq!(parse_port("3000"), Some(3000));
    assert_eq!(parse_port("+80"), Some(80));
    assert_eq!(parse_port("65535"), Some(65535));
    assert_eq!(parse_port("007"), Some(7));
}

#[test]
fn parse_port_rejects_bad_text() {
    assert_eq!(parse_port("0"), None);
    assert_eq!(parse_port("65536"), None);
    assert_eq!(parse_port(""), None);
    assert_eq!(parse_port("+"), None);
    assert_eq!(parse_port("-1"), None);
    assert_eq!(parse_port("80a"), None);
    assert_eq!(parse_port(" 80"), None);
    assert_eq!(parse_port("８0"), None);
    assert_eq!(parse_port("99999999999"), None);
}

#[test]
fn config_defaults_port_and_keeps_values() {
    let c = Config::from_values(None, s("postgres://db"), s("photos"), None, s("https://cdn")).ok().unwrap();
    assert_eq!(c.port, 3000);
    assert_eq!(c.database_url, "postgres://db");
    assert_eq!(c.bucket, "photos");
    assert_eq!(c.s3_endpoint, None);
    assert_eq!(c.s3_public_url, s("https://cdn"));
    let c = Config::from_values(s("8080"), s("d"), s("b"), s("http://minio"), None).ok().unwrap();
    assert_eq!(c.port, 8080);
    assert_eq!(c.s3_endpoint, s("http://minio"));
}

#[test]
fn config_reports_each_error() {
    match Config::from_values(s("0"), s("d"), s("b"), None, None) {
        Err(ConfigError::InvalidPort(p)) => assert_eq!(p, "0"),
        _ => panic!("expected an invalid port"),
    }
    assert!(matches!(
        Config::from_values(s("abc"), None, None, None, None),
        Err(ConfigError::InvalidPort(_))
    ));
    assert!(matches!(
        Config::from_values(None, None, s("b"), None, None),
        Err(ConfigError::MissingDatabaseUrl)
    ));
    assert!(matches!(
        Config::from_values(s("1"), s("d"), None, None, None),
        Err(ConfigError::MissingBucket)
    ));
}
