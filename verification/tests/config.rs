use import_squeeze::config::{
    build_include_globset, include_glob_patterns, is_excluded_dir, is_supported_path,
    parse_biome_config, select_files, sort_dedup_paths, ConfigError,
};

#[test]
fn test_parse_basic_config() {
    let json = r#"{
        "files": {
            "include": ["src/**", "lib/**"]
        }
    }"#;
    let config = parse_biome_config(json).unwrap();
    assert_eq!(config.includes, vec!["src/**", "lib/**"]);
    // Default ignores are always present
    assert!(config.excludes.contains(&"node_modules".to_string()));
    assert!(config.excludes.contains(&".git".to_string()));
}

#[test]
fn test_parse_config_with_excludes() {
    let json = r#"{
        "files": {
            "include": ["**", "!dist"],
            "ignore": ["build"]
        }
    }"#;
    let config = parse_biome_config(json).unwrap();
    assert_eq!(config.includes, vec!["**"]);
    assert!(config.excludes.contains(&"node_modules".to_string()));
    assert!(config.excludes.contains(&"dist".to_string()));
    assert!(config.excludes.contains(&"build".to_string()));
}

#[test]
fn test_parse_config_no_files_field() {
    let json = r#"{
        "linter": {}
    }"#;
    let config = parse_biome_config(json).unwrap();
    assert_eq!(config.includes, vec!["**"]);
    assert!(config.excludes.contains(&"node_modules".to_string()));
}

#[test]
fn test_parse_empty_config() {
    let json = "{}";
    let config = parse_biome_config(json).unwrap();
    assert_eq!(config.includes, vec!["**"]);
}

#[test]
fn test_parse_config_with_includes_plural() {
    let json = r#"{
        "files": {
            "includes": ["**", "!dist"]
        }
    }"#;
    let config = parse_biome_config(json).unwrap();
    assert_eq!(config.includes, vec!["**"]);
    assert!(config.excludes.contains(&"dist".to_string()));
}

#[test]
fn test_parse_invalid_json() {
    let r = parse_biome_config("not json at all {");
    assert_eq!(r.unwrap_err(), ConfigError::InvalidJson);
}

#[test]
fn test_include_glob_patterns_expansion() {
    let pats = include_glob_patterns(&vec!["src/**".to_string()]);
    assert_eq!(pats, vec!["src/**/*.ts", "src/**/*.tsx", "src/**/*.js", "src/**/*.jsx"]);
}

#[test]
fn test_include_glob_patterns_dir_and_literal() {
    let pats = include_glob_patterns(&vec!["app/".to_string(), "one.ts".to_string()]);
    assert_eq!(
        pats,
        vec![
            "app/**/*.ts",
            "app/**/*.tsx",
            "app/**/*.js",
            "app/**/*.jsx",
            "one.ts",
            "one.ts",
            "one.ts",
            "one.ts",
        ]
    );
}

#[test]
fn test_is_supported_path() {
    assert!(is_supported_path("src/a.ts"));
    assert!(is_supported_path("src/a.tsx"));
    assert!(is_supported_path("a.js"));
    assert!(is_supported_path("deep/dir/a.jsx"));
    assert!(!is_supported_path("src/a.txt"));
    assert!(!is_supported_path("src/noext"));
    assert!(!is_supported_path("src/.ts"));
    assert!(!is_supported_path("src/a."));
}

#[test]
fn test_is_excluded_dir() {
    let ex = vec!["node_modules".to_string(), ".git".to_string()];
    assert!(is_excluded_dir("node_modules", &ex));
    assert!(is_excluded_dir(".git", &ex));
    assert!(!is_excluded_dir("src", &ex));
}

#[test]
fn test_select_files_matches_includes() {
    let set = build_include_globset(&vec!["src/**".to_string()]).unwrap();
    let paths = vec![
        "src/a.ts".to_string(),
        "src/b.txt".to_string(),
        "other/c.ts".to_string(),
        "src/d.jsx".to_string(),
    ];
    let kept = select_files(&paths, &set);
    assert_eq!(kept, vec!["src/a.ts", "src/d.jsx"]);
}

#[test]
fn test_build_include_globset_rejects_bad_pattern() {
    let r = build_include_globset(&vec!["a{".to_string()]);
    assert!(r.is_err());
}

#[test]
fn test_sort_dedup_paths() {
    let v = vec![
        "b.ts".to_string(),
        "a/x.ts".to_string(),
        "b.ts".to_string(),
        "a.ts".to_string(),
    ];
    let r = sort_dedup_paths(v);
    assert_eq!(r, vec!["a.ts", "a/x.ts", "b.ts"]);
}

#[test]
fn test_sort_dedup_paths_empty() {
    let r = sort_dedup_paths(Vec::new());
    assert!(r.is_empty());
}
