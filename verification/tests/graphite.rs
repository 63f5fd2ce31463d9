use sleipnir::graphite::GraphiteMetric;
use sleipnir::graphite::ParseError;

fn value_f64(m: &GraphiteMetric) -> f64 {
    std::str::from_utf8(&m.value).unwrap().parse().unwrap()
}

#[test]
fn test_graphite_parse_no_tags() {
    let line = b"cpu.usage 42.5 1234567890";
    let result = GraphiteMetric::parse(line);

    assert!(result.is_ok());
    let metric = result.unwrap();
    assert_eq!(metric.name, b"cpu.usage".to_vec());
    assert_eq!(value_f64(&metric), 42.5);
    assert_eq!(metric.timestamp, 1234567890);
    assert!(metric.tags.is_empty());
}

#[test]
fn test_graphite_parse_with_tags() {
    let line = b"cpu.usage;host=server1;app=my_server 42.5 1234567890";
    let result = GraphiteMetric::parse(line);

    assert!(result.is_ok());
    let metric = result.unwrap();
    assert_eq!(metric.name, b"cpu.usage".to_vec());
    assert_eq!(value_f64(&metric), 42.5);
    assert_eq!(metric.timestamp, 1234567890);
    assert_eq!(metric.tags.len(), 2);
    assert_eq!(metric.tags[0].0, b"host".to_vec());
    assert_eq!(metric.tags[0].1, b"server1".to_vec());
    assert_eq!(metric.tags[1].0, b"app".to_vec());
    assert_eq!(metric.tags[1].1, b"my_server".to_vec());
}

#[test]
fn test_parse_multiple_spaces() {
    let metric = GraphiteMetric::parse(b"  cpu.usage   42.5    1234567890  ").unwrap();
    assert_eq!(metric.name, b"cpu.usage".to_vec());
    assert_eq!(value_f64(&metric), 42.5);
    assert_eq!(metric.timestamp, 1234567890);
}

#[test]
fn test_parse_wrong_field_counts() {
    assert_eq!(GraphiteMetric::parse(b"").unwrap_err(), ParseError::MalformedLine);
    assert_eq!(GraphiteMetric::parse(b"cpu.usage").unwrap_err(), ParseError::MalformedLine);
    assert_eq!(GraphiteMetric::parse(b"cpu.usage 42.5").unwrap_err(), ParseError::MalformedLine);
    assert_eq!(
        GraphiteMetric::parse(b"cpu.usage 42.5 1234567890 extra").unwrap_err(),
        ParseError::MalformedLine
    );
    assert_eq!(GraphiteMetric::parse(b"   ").unwrap_err(), ParseError::MalformedLine);
}

#[test]
fn test_parse_empty_name() {
    assert_eq!(GraphiteMetric::parse(b";host=a 1.0 2").unwrap_err(), ParseError::MalformedLine);
}

#[test]
fn test_parse_invalid_value() {
    assert_eq!(GraphiteMetric::parse(b"cpu.usage abc 2").unwrap_err(), ParseError::InvalidValue);
    assert_eq!(GraphiteMetric::parse(b"cpu.usage 1.2.3 2").unwrap_err(), ParseError::InvalidValue);
    assert_eq!(GraphiteMetric::parse(b"cpu.usage e5 2").unwrap_err(), ParseError::InvalidValue);
    assert_eq!(GraphiteMetric::parse(b"cpu.usage + 2").unwrap_err(), ParseError::InvalidValue);
}

#[test]
fn test_parse_value_forms() {
    assert_eq!(value_f64(&GraphiteMetric::parse(b"m -1.5e3 0").unwrap()), -1500.0);
    assert_eq!(value_f64(&GraphiteMetric::parse(b"m .5 0").unwrap()), 0.5);
    assert_eq!(value_f64(&GraphiteMetric::parse(b"m 5. 0").unwrap()), 5.0);
    assert_eq!(value_f64(&GraphiteMetric::parse(b"m +2E2 0").unwrap()), 200.0);
    assert!(value_f64(&GraphiteMetric::parse(b"m inf 0").unwrap()).is_infinite());
    assert!(value_f64(&GraphiteMetric::parse(b"m NaN 0").unwrap()).is_nan());
    assert!(value_f64(&GraphiteMetric::parse(b"m -Infinity 0").unwrap()).is_infinite());
}

#[test]
fn test_parse_invalid_timestamp() {
    assert_eq!(GraphiteMetric::parse(b"m 1.0 abc").unwrap_err(), ParseError::InvalidTimestamp);
    assert_eq!(GraphiteMetric::parse(b"m 1.0 1.5").unwrap_err(), ParseError::InvalidTimestamp);
    assert_eq!(GraphiteMetric::parse(b"m 1.0 -").unwrap_err(), ParseError::InvalidTimestamp);
    assert_eq!(
        GraphiteMetric::parse(b"m 1.0 9223372036854775808").unwrap_err(),
        ParseError::InvalidTimestamp
    );
}

#[test]
fn test_parse_timestamp_range() {
    assert_eq!(
        GraphiteMetric::parse(b"m 1.0 9223372036854775807").unwrap().timestamp,
        i64::MAX
    );
    assert_eq!(
        GraphiteMetric::parse(b"m 1.0 -9223372036854775808").unwrap().timestamp,
        i64::MIN
    );
    assert_eq!(GraphiteMetric::parse(b"m 1.0 +42").unwrap().timestamp, 42);
    assert_eq!(GraphiteMetric::parse(b"m 1.0 -0").unwrap().timestamp, 0);
    assert_eq!(GraphiteMetric::parse(b"m 1.0 007").unwrap().timestamp, 7);
}

#[test]
fn test_parse_duplicate_tag_keys_last_wins() {
    let metric = GraphiteMetric::parse(b"m;a=1;b=2;a=3 1.0 5").unwrap();
    assert_eq!(metric.tags.len(), 2);
    assert_eq!(metric.tags[0].0, b"a".to_vec());
    assert_eq!(metric.tags[0].1, b"3".to_vec());
    assert_eq!(metric.tags[1].0, b"b".to_vec());
    assert_eq!(metric.tags[1].1, b"2".to_vec());
}

#[test]
fn test_parse_malformed_tag_segments_skipped() {
    let metric = GraphiteMetric::parse(b"m;noeq;a=b;k=v=w;;c= 1.0 5").unwrap();
    assert_eq!(metric.tags.len(), 2);
    assert_eq!(metric.tags[0].0, b"a".to_vec());
    assert_eq!(metric.tags[0].1, b"b".to_vec());
    assert_eq!(metric.tags[1].0, b"c".to_vec());
    assert_eq!(metric.tags[1].1, b"".to_vec());
}
