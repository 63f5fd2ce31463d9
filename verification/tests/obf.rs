use sleipnir::graphite::GraphiteMetric;
use sleipnir::obf::obfuscate;
use sleipnir::obf::render_path;
use sleipnir::obf::write_hex;

fn obf_to_string(path: Vec<u8>) -> String {
    String::from_utf8(path).unwrap()
}

#[test]
fn test_obf_name_changed() {
    let metric = GraphiteMetric::parse(b"cpu.usage 42.5 1234567890").unwrap();

    let name = obf_to_string(obfuscate(&metric));

    assert!(name.starts_with("obf_"));
    assert!(!name.contains("cpu.usage"));
}

#[test]
fn test_obf_is_continues() {
    let metric = GraphiteMetric::parse(b"memory.used 1024.0 1234567890").unwrap();

    let obfuscated1 = obf_to_string(obfuscate(&metric));
    let obfuscated2 = obf_to_string(obfuscate(&metric));

    assert_eq!(obfuscated1, obfuscated2);
}

#[test]
fn test_obf_with_tags() {
    let metric =
        GraphiteMetric::parse(b"app.requests;host=server01;region=eu-west 150.0 1234567890")
            .unwrap();

    let name = obf_to_string(obfuscate(&metric));

    assert!(name.contains(";host=obf_"));
    assert!(name.contains(";region=obf_"));
    assert!(!name.contains("server01"));
    assert!(!name.contains("eu-west"));
}

#[test]
fn test_write_hex_exact() {
    let mut buf: Vec<u8> = Vec::new();
    write_hex(0, &mut buf);
    assert_eq!(buf, b"0000000000000000".to_vec());

    let mut buf: Vec<u8> = Vec::new();
    write_hex(0x0123456789abcdef, &mut buf);
    assert_eq!(buf, b"0123456789abcdef".to_vec());

    let mut buf: Vec<u8> = b"x".to_vec();
    write_hex(u64::MAX, &mut buf);
    assert_eq!(buf, b"xffffffffffffffff".to_vec());
}

#[test]
fn test_render_path_exact() {
    let tags = vec![(b"host".to_vec(), b"ignored".to_vec())];
    let hashes = vec![0x00000000000000ffu64];
    let path = render_path(1, &tags, &hashes);
    assert_eq!(
        String::from_utf8(path).unwrap(),
        "obf_0000000000000001;host=obf_00000000000000ff"
    );
}

#[test]
fn test_obf_marker_once_per_field() {
    let metric = GraphiteMetric::parse(b"cpu;a=1;b=2 1.0 2").unwrap();
    let path = obf_to_string(obfuscate(&metric));
    assert_eq!(path.matches("obf_").count(), 3);
    assert_eq!(path.len(), "obf_".len() * 3 + 16 * 3 + ";a=".len() + ";b=".len());
}

#[test]
fn test_obf_hex_digits_only() {
    let metric = GraphiteMetric::parse(b"something 1.0 2").unwrap();
    let path = obf_to_string(obfuscate(&metric));
    let digits = &path["obf_".len()..];
    assert_eq!(digits.len(), 16);
    assert!(digits.chars().all(|c| c.is_ascii_hexdigit() && !c.is_ascii_uppercase()));
}
