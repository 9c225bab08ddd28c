use linux_conf_parser::config::Config;
use linux_conf_parser::directory_parser::{conclude_walk, parse_conf_file};
use linux_conf_parser::file_parser::{parse_conf_to_map, ParseError};
use linux_conf_parser::schema::{validate_against_schema, LoadSchema};
use rustc_hash::{FxHashMap, FxHashSet};

fn lines_of(content: &str) -> Vec<String> {
    content.lines().map(String::from).collect()
}

/// 4096文字を超える値が含まれている場合のエラーテスト
#[test]
fn parse_conf_tests_test_value_too_long() {
    let long_value: String = "A".repeat(Config::MAX_VALUE_LENGTH + 1);
    let content: String = format!("long.key = {}", long_value);
    let result = parse_conf_to_map(&lines_of(&content));
    match result {
        Err(e) => assert!(e.message().contains("値が4096文字を超えています")),
        Ok(_) => panic!("an oversized value must be rejected"),
    }
}

/// 正常な設定ファイルを読み込むテスト
#[test]
fn parse_conf_tests_test_valid_conf_file() {
    let content: &str = "net.ipv4.tcp_syncookies = 1\nfs.file-max = 2097152";
    let result: Result<FxHashMap<String, String>, ParseError> =
        parse_conf_to_map(&lines_of(content));
    assert!(result.is_ok(), "設定ファイルのパースに失敗しました");

    let map: FxHashMap<String, String> = result.ok().unwrap();
    println!("{:?}", map);

    assert_eq!(
        map.get("net.ipv4.tcp_syncookies")
            .expect("tcp_syncookies が存在しません"),
        "1"
    );
    assert_eq!(
        map.get("fs.file-max").expect("file-max が存在しません"),
        "2097152"
    );
}

/// 再帰的なディレクトリ読み込みのテスト
#[test]
fn test_parse_all_conf_files() {
    let content1: &str = "net.ipv4.tcp_syncookies = 1";
    let content2: &str = "fs.file-max = 2097152";

    let schema_loader = LoadSchema;
    let schema: FxHashMap<String, String> = schema_loader.load_schema_lines(&lines_of(
        "net.ipv4.tcp_syncookies -> int\nfs.file-max -> int",
    ));

    let mut parsed_files: FxHashSet<String> = FxHashSet::default();
    let mut result_map: FxHashMap<String, String> = FxHashMap::default();
    let mut errors: Vec<String> = Vec::new();
    for (path, content) in [
        ("test_data/dir1/test1.conf", content1),
        ("test_data/dir1/subdir/test2.conf", content2),
    ] {
        let outcome = parse_conf_to_map(&lines_of(content)).map_err(|e| e.message());
        parse_conf_file(
            path.to_string(),
            outcome,
            &mut parsed_files,
            &mut result_map,
            &mut errors,
        );
    }
    let result = conclude_walk(&result_map, &schema, errors);

    println!("パース結果: {:?}", result_map);
    assert!(result.is_ok(), ".confファイルのパースに失敗しました");
    assert_eq!(
        result_map.get("net.ipv4.tcp_syncookies"),
        Some(&"1".to_string())
    );
    assert_eq!(result_map.get("fs.file-max"), Some(&"2097152".to_string()));
}

/// 正常なスキーマファイルの読み込みテスト
#[test]
fn parse_conf_tests_test_load_valid_schema() {
    let schema_content: &str = r#"
        key1 -> string
        key2 -> int
        key3 -> bool
        key4 -> float
        "#;
    let schema_loader = LoadSchema;
    let schema = schema_loader.load_schema_lines(&lines_of(schema_content));
    assert_eq!(schema.get("key1").unwrap(), "string");
    assert_eq!(schema.get("key2").unwrap(), "int");
    assert_eq!(schema.get("key3").unwrap(), "bool");
    assert_eq!(schema.get("key4").unwrap(), "float");
}

/// 不正な形式のスキーマファイルの読み込みテスト
#[test]
fn parse_conf_tests_test_load_invalid_schema() {
    let schema_content: &str = r#"
        key1 -> string
        invalid_format_line
        key2 -> int
        key3 -> float
        "#;
    let schema_loader = LoadSchema;
    let schema: FxHashMap<String, String> =
        schema_loader.load_schema_lines(&lines_of(schema_content));
    assert_eq!(schema.get("key1").unwrap(), "string");
    assert_eq!(schema.get("key2").unwrap(), "int");
    assert_eq!(schema.get("key3").unwrap(), "float");
    assert_eq!(schema.len(), 3);
}

/// 浮動小数点数を含む設定ファイルの検証テスト
#[test]
fn parse_conf_tests_test_validate_against_valid_schema_with_float() {
    let mut config: FxHashMap<String, String> = FxHashMap::default();
    config.insert("key1".to_string(), "value".to_string());
    config.insert("key2".to_string(), "42".to_string());
    config.insert("key3".to_string(), "true".to_string());
    config.insert("key4".to_string(), "3.14".to_string());

    let mut schema: FxHashMap<String, String> = FxHashMap::default();
    schema.insert("key1".to_string(), "string".to_string());
    schema.insert("key2".to_string(), "int".to_string());
    schema.insert("key3".to_string(), "bool".to_string());
    schema.insert("key4".to_string(), "float".to_string());

    let result: Result<(), String> = validate_against_schema(&config, &schema);
    assert!(result.is_ok(), "検証に成功する必要があります");
}

/// 不正な型が含まれている場合の検証テスト
#[test]
fn parse_conf_tests_test_validate_mixed_invalid_types() {
    let mut config: FxHashMap<String, String> = FxHashMap::default();
    config.insert("key1".to_string(), "3.14".to_string());
    config.insert("key2".to_string(), "value".to_string());
    config.insert("key3".to_string(), "3.14".to_string());
    config.insert("key4".to_string(), "123".to_string());
    config.insert("key5".to_string(), "value".to_string());
    config.insert("key6".to_string(), "true".to_string());
    config.insert("key7".to_string(), "true".to_string());

    let mut schema: FxHashMap<String, String> = FxHashMap::default();
    schema.insert("key1".to_string(), "string".to_string());
    schema.insert("key2".to_string(), "int".to_string());
    schema.insert("key3".to_string(), "int".to_string());
    schema.insert("key4".to_string(), "bool".to_string());
    schema.insert("key5".to_string(), "bool".to_string());
    schema.insert("key6".to_string(), "float".to_string());
    schema.insert("key7".to_string(), "string".to_string());

    let result: Result<(), String> = validate_against_schema(&config, &schema);
    assert!(result.is_err(), "検証は失敗する必要があります");
    let errors: String = result.unwrap_err();

    assert!(errors.contains(
        "Error: キー 'key1' の値 '3.14' の型が一致しません。期待される型は 'string'"
    ));
    assert!(errors
        .contains("Error: キー 'key2' の値 'value' の型が一致しません。期待される型は 'int'"));
    assert!(errors
        .contains("Error: キー 'key3' の値 '3.14' の型が一致しません。期待される型は 'int'"));
    assert!(errors
        .contains("Error: キー 'key4' の値 '123' の型が一致しません。期待される型は 'bool'"));
    assert!(errors
        .contains("Error: キー 'key5' の値 'value' の型が一致しません。期待される型は 'bool'"));
    assert!(errors
        .contains("Error: キー 'key6' の値 'true' の型が一致しません。期待される型は 'float'"));
    assert!(errors.contains(
        "Error: キー 'key7' の値 'true' の型が一致しません。期待される型は 'string'"
    ));
}

/// スキーマに存在しないキーを含む設定ファイルの検証テスト
#[test]
fn parse_conf_tests_test_validate_with_extra_key() {
    let mut config: FxHashMap<String, String> = FxHashMap::default();
    config.insert("key1".to_string(), "value".to_string());
    config.insert("extra_key".to_string(), "value".to_string());

    let mut schema: FxHashMap<String, String> = FxHashMap::default();
    schema.insert("key1".to_string(), "string".to_string());

    let result: Result<(), String> = validate_against_schema(&config, &schema);
    assert!(result.is_err(), "検証は失敗する必要があります");
    let errors: String = result.unwrap_err();
    assert!(errors.contains("キー 'extra_key' はスキーマに存在しません"));
}
