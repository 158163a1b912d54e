use import_squeeze::squeeze_imports;

// The concrete transformations the design promises, on its own literals.

#[test]
fn test_scenario_basic() {
    let input = "import a from 'a'\n\nimport b from 'b'\n\nconst x = 1\n";
    let expected = "import a from 'a'\nimport b from 'b'\n\nconst x = 1\n";
    assert_eq!(squeeze_imports(input), expected);
}

#[test]
fn test_scenario_multiline_brace() {
    let input = "import {\n  a,\n  b,\n} from 'r'\n\nimport c from 'c'\n";
    let expected = "import {\n  a,\n  b,\n} from 'r'\nimport c from 'c'\n";
    assert_eq!(squeeze_imports(input), expected);
}

#[test]
fn test_scenario_leading_comment() {
    let input = "// @ts-nocheck\n\nimport a from 'a'\n\nimport b from 'b'\n\nconst x=1\n";
    let expected = "// @ts-nocheck\n\nimport a from 'a'\nimport b from 'b'\n\nconst x=1\n";
    assert_eq!(squeeze_imports(input), expected);
}

#[test]
fn test_scenario_import_meta_glob_multiline() {
    let input =
        "import a from 'a'\n\nimport.meta.glob(\n  './**/*.ts',\n  { eager: true }\n)\n\nconst x=1\n";
    let expected =
        "import a from 'a'\nimport.meta.glob(\n  './**/*.ts',\n  { eager: true }\n)\n\nconst x=1\n";
    assert_eq!(squeeze_imports(input), expected);
}

#[test]
fn test_scenario_multiple_blanks_collapse() {
    let input = "import a from 'a'\n\n\n\nimport b from 'b'\n";
    let expected = "import a from 'a'\nimport b from 'b'\n";
    assert_eq!(squeeze_imports(input), expected);
}

#[test]
fn test_scenario_no_trailing_newline() {
    let input = "import a from 'a'\n\nimport b from 'b'";
    let expected = "import a from 'a'\nimport b from 'b'";
    assert_eq!(squeeze_imports(input), expected);
}

// Spot checks of the universal properties on concrete inputs.

fn meaningful_lines(text: &str) -> Vec<String> {
    let mut out = Vec::new();
    for line in text.lines() {
        let t = line.trim();
        let blank = t.is_empty();
        let comment =
            t.starts_with("//") || t.starts_with("/*") || t.starts_with("*") || t.ends_with("*/");
        if !blank && !comment {
            out.push(line.to_string());
        }
    }
    out
}

#[test]
fn test_idempotence_on_samples() {
    let samples = [
        "import a from 'a'\n\nimport b from 'b'\n\nconst x = 1\n",
        "// lead\n\nimport a from 'a'\n\n// mid\n\nimport b from 'b'\n\nx\n",
        "import {\n  a,\n} from 'r'\n\nimport c from 'c'",
        "no imports here\n\njust text\n",
        "",
    ];
    for s in samples.iter() {
        let once = squeeze_imports(s);
        let twice = squeeze_imports(&once);
        assert_eq!(twice, once);
    }
}

#[test]
fn test_meaningful_lines_preserved() {
    let input = "import a from 'a'\n\n// note\n\nimport b from 'b'\n\nconst x = 1\n\nconst y = 2\n";
    let output = squeeze_imports(input);
    assert_eq!(meaningful_lines(&output), meaningful_lines(input));
}

#[test]
fn test_trailing_newline_parity_on_samples() {
    let with_nl = "import a from 'a'\n\nimport b from 'b'\n";
    let without_nl = "import a from 'a'\n\nimport b from 'b'";
    assert!(squeeze_imports(with_nl).ends_with('\n'));
    assert!(!squeeze_imports(without_nl).ends_with('\n'));
}

#[test]
fn test_comment_between_imports_kept() {
    let input = "import a from 'a'\n\n// between\n\nimport b from 'b'\n\nconst x = 1\n";
    let expected = "import a from 'a'\n// between\nimport b from 'b'\n\nconst x = 1\n";
    assert_eq!(squeeze_imports(input), expected);
}

#[test]
fn test_trailing_blanks_after_last_import_kept() {
    let input = "import a from 'a'\n\n";
    assert_eq!(squeeze_imports(input), input);
}

#[test]
fn test_blank_with_spaces_is_squeezed() {
    let input = "import a from 'a'\n   \nimport b from 'b'\n";
    let expected = "import a from 'a'\nimport b from 'b'\n";
    assert_eq!(squeeze_imports(input), expected);
}

#[test]
fn test_blank_inside_multiline_kept() {
    let input = "import {\n\n  a,\n} from 'r'\n\nimport b from 'b'\n";
    let expected = "import {\n\n  a,\n} from 'r'\nimport b from 'b'\n";
    assert_eq!(squeeze_imports(input), expected);
}
