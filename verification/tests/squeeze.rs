use import_squeeze::{is_import_line, is_in_multiline_import, squeeze_imports, squeeze_with_status, FileResult};

#[test]
fn test_is_import_line() {
    assert!(is_import_line("import { useState } from 'react'"));
    assert!(is_import_line("import type { FC } from 'react'"));
    assert!(is_import_line("import './styles.css'"));
    assert!(is_import_line("  import { foo } from 'bar'"));
    assert!(!is_import_line("const x = 1"));
    assert!(!is_import_line("// import something"));
    assert!(!is_import_line("import.meta.glob('./**/*.ts')"));
    assert!(!is_import_line(""));
}

#[test]
fn test_basic_squeeze() {
    let input = "\
import { useState } from 'react'

import { Button } from '@/components'

import { api } from '@/lib/api'

const foo = 'bar'
";
    let expected = "\
import { useState } from 'react'
import { Button } from '@/components'
import { api } from '@/lib/api'

const foo = 'bar'
";
    assert_eq!(squeeze_imports(input), expected);
}

#[test]
fn test_multiline_import() {
    let input = "\
import {
  useState,
  useEffect,
} from 'react'

import { Button } from '@/components'

const foo = 'bar'
";
    let expected = "\
import {
  useState,
  useEffect,
} from 'react'
import { Button } from '@/components'

const foo = 'bar'
";
    assert_eq!(squeeze_imports(input), expected);
}

#[test]
fn test_no_imports() {
    let input = "const x = 1\nconst y = 2\n";
    assert_eq!(squeeze_imports(input), input);
}

#[test]
fn test_already_clean() {
    let input = "\
import { a } from 'a'
import { b } from 'b'

const x = 1
";
    assert_eq!(squeeze_imports(input), input);
}

#[test]
fn test_import_type() {
    let input = "\
import type { FC } from 'react'

import { useState } from 'react'

export const App: FC = () => {}
";
    let expected = "\
import type { FC } from 'react'
import { useState } from 'react'

export const App: FC = () => {}
";
    assert_eq!(squeeze_imports(input), expected);
}

#[test]
fn test_import_meta_glob_single_line() {
    let input = "\
import { api } from '@/lib'

import.meta.glob('./**/*.ts')

const x = 1
";
    let expected = "\
import { api } from '@/lib'
import.meta.glob('./**/*.ts')

const x = 1
";
    assert_eq!(squeeze_imports(input), expected);
}

#[test]
fn test_import_meta_glob_multiline() {
    let input = "\
import { api } from '@/lib'

import.meta.glob(
  './**/*.ts',
  { eager: true }
)

const x = 1
";
    let expected = "\
import { api } from '@/lib'
import.meta.glob(
  './**/*.ts',
  { eager: true }
)

const x = 1
";
    assert_eq!(squeeze_imports(input), expected);
}

#[test]
fn test_top_comment_then_imports() {
    let input = "\
// @ts-nocheck

import { a } from 'a'

import { b } from 'b'

const x = 1
";
    let expected = "\
// @ts-nocheck

import { a } from 'a'
import { b } from 'b'

const x = 1
";
    assert_eq!(squeeze_imports(input), expected);
}

#[test]
fn test_side_effect_import() {
    let input = "\
import './polyfill'

import { useState } from 'react'

const x = 1
";
    let expected = "\
import './polyfill'
import { useState } from 'react'

const x = 1
";
    assert_eq!(squeeze_imports(input), expected);
}

#[test]
fn test_multiple_blank_lines_between_imports() {
    let input = "\
import { a } from 'a'



import { b } from 'b'

const x = 1
";
    let expected = "\
import { a } from 'a'
import { b } from 'b'

const x = 1
";
    assert_eq!(squeeze_imports(input), expected);
}

#[test]
fn test_preserves_blank_lines_after_imports() {
    let input = "\
import { a } from 'a'
import { b } from 'b'


const x = 1


const y = 2
";
    assert_eq!(squeeze_imports(input), input);
}

#[test]
fn test_no_trailing_newline() {
    let input = "import { a } from 'a'\n\nimport { b } from 'b'";
    let expected = "import { a } from 'a'\nimport { b } from 'b'";
    assert_eq!(squeeze_imports(input), expected);
}

#[test]
fn test_squeeze_complex_real_world() {
    let input = r#"// @ts-nocheck
/* eslint-disable */

import type { FC } from 'react'

import {
  useState,
  useEffect,
  useCallback,
} from 'react'

import { Button } from '@/components/ui/button'

import { cn } from '@/lib/utils'

import './styles.css'

export const MyComponent: FC = () => {
  const [count, setCount] = useState(0)
  return <Button>{count}</Button>
}
"#;

    let expected = r#"// @ts-nocheck
/* eslint-disable */

import type { FC } from 'react'
import {
  useState,
  useEffect,
  useCallback,
} from 'react'
import { Button } from '@/components/ui/button'
import { cn } from '@/lib/utils'
import './styles.css'

export const MyComponent: FC = () => {
  const [count, setCount] = useState(0)
  return <Button>{count}</Button>
}
"#;

    assert_eq!(squeeze_imports(input), expected);
}

#[test]
fn test_squeeze_with_status_changed() {
    let input = "import a from 'a'\n\nimport b from 'b'\n";
    let (squeezed, status) = squeeze_with_status(input);
    assert_eq!(status, FileResult::Changed);
    assert_eq!(squeezed, "import a from 'a'\nimport b from 'b'\n");
}

#[test]
fn test_squeeze_with_status_unchanged() {
    let input = "import a from 'a'\nimport b from 'b'\n\nconst x = 1\n";
    let (squeezed, status) = squeeze_with_status(input);
    assert_eq!(status, FileResult::Unchanged);
    assert_eq!(squeezed, input);
}

#[test]
fn test_multiline_tracker_transitions() {
    assert!(is_in_multiline_import("import {", false));
    assert!(!is_in_multiline_import("import { a } from 'a'", false));
    assert!(is_in_multiline_import("import.meta.glob(", false));
    assert!(!is_in_multiline_import("import.meta.glob('./x.ts')", false));
    assert!(is_in_multiline_import("  a,", true));
    assert!(!is_in_multiline_import("} from 'react'", true));
    assert!(!is_in_multiline_import(")", true));
    assert!(!is_in_multiline_import(");", true));
    assert!(!is_in_multiline_import("const x = 1", false));
}

#[test]
fn test_empty_input() {
    assert_eq!(squeeze_imports(""), "");
}

#[test]
fn test_single_newline_input() {
    assert_eq!(squeeze_imports("\n"), "\n");
}
