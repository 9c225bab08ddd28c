use linux_conf_parser::config::Config;
use linux_conf_parser::directory_parser::{conclude_walk, parse_conf_file};
use linux_conf_parser::file_parser::parse_conf_to_map;
use linux_conf_parser::schema::{validate_against_schema, LoadSchema};
use rustc_hash::{FxHashMap, FxHashSet};

fn text_lines(content: &str) -> Vec<String> {
    content.lines().map(String::from).collect()
}

/// 4096文字を超える値が含まれている場合のエラーテスト
#[test]
fn parse_sysctl_conf_tests_test_value_too_long() {
    let long_value = "A".repeat(Config::MAX_VALUE_LENGTH + 1);
    let content = format!("long.key = {}", long_value);
    let result = parse_conf_to_map(&text_lines(&content));
    assert!(result.is_err());
    assert!(result.err().unwrap().message().contains("値が4096文字を超えています"));
}

/// 正常な設定ファイルを読み込むテスト
#[test]
fn parse_sysctl_conf_tests_test_valid_conf_file() {
    let content = "net.ipv4.tcp_syncookies = 1\nfs.file-max = 2097152";
    let result = parse_conf_to_map(&text_lines(content));
    assert!(result.is_ok(), "設定ファイルのパースに失敗しました");

    let map = result.ok().unwrap();
    println!("{:?}", map);

    assert_eq!(
        map.get("net.ipv4.tcp_syncookies")
            .expect("tcp_syncookies が存在しません"),
        "1"
    );
    assert_eq!(
        map.get("fs.file-max").expect("file-max が存在しません"),
        "2097152"
    );
}

/// 再帰的なディレクトリ読み込みのテスト
#[test]
fn test_parse_all_sysctl_files() {
    let content1 = "net.ipv4.tcp_syncookies = 1";
    let content2 = "fs.file-max = 2097152";

    let schema = LoadSchema.load_schema_lines(&text_lines(
        "net.ipv4.tcp_syncookies -> int\nfs.file-max -> int",
    ));

    let mut parsed_files = FxHashSet::default();
    let mut result_map = FxHashMap::default();
    let mut errors = Vec::new();
    for (path, content) in [
        ("test_data/dir1/test1.conf", content1),
        ("test_data/dir1/subdir/test2.conf", content2),
    ] {
        let outcome = parse_conf_to_map(&text_lines(content)).map_err(|e| e.message());
        parse_conf_file(
            path.to_string(),
            outcome,
            &mut parsed_files,
            &mut result_map,
            &mut errors,
        );
    }
    let result = conclude_walk(&result_map, &schema, errors);

    println!("パース結果: {:?}", result_map);
    assert!(result.is_ok(), "Sysctlファイルのパースに失敗しました");
    assert_eq!(
        result_map.get("net.ipv4.tcp_syncookies"),
        Some(&"1".to_string())
    );
    assert_eq!(result_map.get("fs.file-max"), Some(&"2097152".to_string()));
}

/// 正常なスキーマファイルの読み込みテスト
#[test]
fn parse_sysctl_conf_tests_test_load_valid_schema() {
    let schema_content = r#"
        key1 -> string
        key2 -> int
        key3 -> bool
        key4 -> float
        "#;
    let schema = LoadSchema.load_schema_lines(&text_lines(schema_content));
    assert_eq!(schema.get("key1").unwrap(), "string");
    assert_eq!(schema.get("key2").unwrap(), "int");
    assert_eq!(schema.get("key3").unwrap(), "bool");
    assert_eq!(schema.get("key4").unwrap(), "float");
}

/// 不正な形式のスキーマファイルの読み込みテスト
#[test]
fn parse_sysctl_conf_tests_test_load_invalid_schema() {
    let schema_content = r#"
    key1 -> string
    invalid_format_line
    key2 -> int
    key3 -> float
    "#;
    let schema = LoadSchema.load_schema_lines(&text_lines(schema_content));
    assert_eq!(schema.get("key1").unwrap(), "string");
    assert_eq!(schema.get("key2").unwrap(), "int");
    assert_eq!(schema.get("key3").unwrap(), "float");
}

/// 浮動小数点数を含む設定ファイルの検証テスト
#[test]
fn parse_sysctl_conf_tests_test_validate_against_valid_schema_with_float() {
    let mut config = FxHashMap::default();
    config.insert("key1".to_string(), "value".to_string());
    config.insert("key2".to_string(), "42".to_string());
    config.insert("key3".to_string(), "true".to_string());
    config.insert("key4".to_string(), "3.14".to_string());

    let mut schema = FxHashMap::default();
    schema.insert("key1".to_string(), "string".to_string());
    schema.insert("key2".to_string(), "int".to_string());
    schema.insert("key3".to_string(), "bool".to_string());
    schema.insert("key4".to_string(), "float".to_string());

    let result = validate_against_schema(&config, &schema);
    assert!(result.is_ok(), "検証に成功する必要があります");
}

/// スキーマに存在しないキーを含む設定ファイルの検証テスト
#[test]
fn parse_sysctl_conf_tests_test_validate_with_extra_key() {
    let mut config = FxHashMap::default();
    config.insert("key1".to_string(), "value".to_string());
    config.insert("extra_key".to_string(), "value".to_string());

    let mut schema = FxHashMap::default();
    schema.insert("key1".to_string(), "string".to_string());

    let result = validate_against_schema(&config, &schema);
    assert!(result.is_err(), "検証は失敗する必要があります");

    let errors = result.unwrap_err();
    assert!(errors.contains("キー 'extra_key' はスキーマに存在しません"));
}
