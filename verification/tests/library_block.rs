use laplace::parser::library_block::{parse_library_block, ImportStatement, LibraryBlockError};

#[test]
fn no_library_block_returns_none() {
    let source = "data {\n  int n;\n}\nmodel {\n}\n";
    assert_eq!(parse_library_block(source).unwrap(), None);
}

#[test]
fn library_word_in_comment_without_brace_is_ignored() {
    let source = "// library note: nothing here\ndata {}\n";
    assert_eq!(parse_library_block(source).unwrap(), None);
}

#[test]
fn identifier_containing_library_is_not_matched() {
    let source = "mylibrary { import gps }\n";
    assert_eq!(parse_library_block(source).unwrap(), None);
}

#[test]
fn empty_library_block() {
    let source = "library {}\ndata {}\n";
    let block = parse_library_block(source).unwrap().unwrap();
    assert!(block.imports.is_empty());
    assert_eq!(&source[block.byte_range.clone()], "library {}");
}

#[test]
fn multiple_imports() {
    let source = "library {\n  import gps\n  import splines\n  import utils\n}\n";
    let block = parse_library_block(source).unwrap().unwrap();
    assert_eq!(
        block.imports,
        vec![
            ImportStatement {
                name: "gps".into(),
                version: None
            },
            ImportStatement {
                name: "splines".into(),
                version: None
            },
            ImportStatement {
                name: "utils".into(),
                version: None
            },
        ]
    );
}

#[test]
fn pinned_and_unpinned_mixed() {
    let source =
        "library {\n  import gps@1.0.0\n  import utils\n  import splines@0.3.1\n}\n";
    let block = parse_library_block(source).unwrap().unwrap();
    assert_eq!(
        block.imports,
        vec![
            ImportStatement {
                name: "gps".into(),
                version: Some("1.0.0".into())
            },
            ImportStatement {
                name: "utils".into(),
                version: None
            },
            ImportStatement {
                name: "splines".into(),
                version: Some("0.3.1".into())
            },
        ]
    );
}

#[test]
fn semicolon_separated_imports_on_one_line() {
    let source = "library { import gps@1.0.0; import utils; }\n";
    let block = parse_library_block(source).unwrap().unwrap();
    assert_eq!(
        block.imports,
        vec![
            ImportStatement {
                name: "gps".into(),
                version: Some("1.0.0".into())
            },
            ImportStatement {
                name: "utils".into(),
                version: None
            },
        ]
    );
}

#[test]
fn comment_inside_library_block_is_stripped() {
    let source = "library {\n  import gps // pinned later\n  import utils\n}\n";
    let block = parse_library_block(source).unwrap().unwrap();
    assert_eq!(
        block.imports,
        vec![
            ImportStatement {
                name: "gps".into(),
                version: None
            },
            ImportStatement {
                name: "utils".into(),
                version: None
            },
        ]
    );
}

#[test]
fn byte_range_covers_full_block_for_deletion() {
    let source = "functions {}\nlibrary {\n  import gps\n}\ndata {}\n";
    let block = parse_library_block(source).unwrap().unwrap();
    assert_eq!(
        &source[block.byte_range.clone()],
        "library {\n  import gps\n}"
    );
}

#[test]
fn missing_closing_brace_is_an_error() {
    let source = "library {\n  import gps\ndata {\n  int n;\n}\n";
    let err = parse_library_block(source).unwrap_err();
    assert_eq!(err, LibraryBlockError::UnclosedBlock { start: 0 });
}

#[test]
fn malformed_import_missing_import_keyword() {
    let source = "library {\n  gps\n}\n";
    let err = parse_library_block(source).unwrap_err();
    assert_eq!(
        err,
        LibraryBlockError::MalformedImport {
            statement: "gps".to_string()
        }
    );
}

#[test]
fn malformed_import_concatenated_keyword() {
    let source = "library {\n  importgps\n}\n";
    let err = parse_library_block(source).unwrap_err();
    assert_eq!(
        err,
        LibraryBlockError::MalformedImport {
            statement: "importgps".to_string()
        }
    );
}

#[test]
fn malformed_import_empty_package_name() {
    let source = "library {\n  import\n}\n";
    let err = parse_library_block(source).unwrap_err();
    assert_eq!(
        err,
        LibraryBlockError::EmptyPackageName {
            statement: "import".to_string()
        }
    );
}

#[test]
fn malformed_import_empty_version() {
    let source = "library {\n  import gps@\n}\n";
    let err = parse_library_block(source).unwrap_err();
    assert_eq!(
        err,
        LibraryBlockError::MalformedImport {
            statement: "import gps@".to_string()
        }
    );
}

#[test]
fn braces_in_comments_count_for_the_block() {
    let source = "library {\n  import a // {\n}\n}\n";
    let err = parse_library_block(source).unwrap_err();
    assert_eq!(err, LibraryBlockError::MalformedImport { statement: "}".to_string() });
}

#[test]
fn ranges_are_in_bytes() {
    let source = "\u{3b1}\u{1f600}library\u{a0}{import a}";
    let block = parse_library_block(source).unwrap().unwrap();
    assert_eq!(block.byte_range, 6..25);
    let err = parse_library_block("\u{3b1} library {").unwrap_err();
    assert_eq!(err, LibraryBlockError::UnclosedBlock { start: 3 });
}

#[test]
fn imports_may_have_space_around_their_parts() {
    let block = parse_library_block("library {  import\tgps @ 1.0.0-rc_1 ;; }").unwrap().unwrap();
    assert_eq!(
        block.imports,
        vec![ImportStatement { name: "gps".into(), version: Some("1.0.0-rc_1".into()) }]
    );
    for bad in ["import a b", "import a@1@2", "import a@1+b", "import \u{e9}"] {
        let source = format!("library {{ {bad} }}");
        assert_eq!(
            parse_library_block(&source).unwrap_err(),
            LibraryBlockError::MalformedImport { statement: bad.to_string() }
        );
    }
    assert_eq!(
        parse_library_block("library { import @1.0 }").unwrap_err(),
        LibraryBlockError::EmptyPackageName { statement: "import @1.0".to_string() }
    );
}

#[test]
fn messages_quote_the_statement() {
    assert_eq!(
        LibraryBlockError::UnclosedBlock { start: 120 }.message(),
        "`library {` block opened at byte 120 is never closed with a matching `}`"
    );
    assert_eq!(
        LibraryBlockError::MalformedImport { statement: "x".to_string() }.message(),
        "malformed import statement `x`: expected `import <name>` or `import <name>@<version>`"
    );
    assert_eq!(
        LibraryBlockError::EmptyPackageName { statement: "import".to_string() }.message(),
        "import statement `import` has no package name"
    );
}

#[test]
fn a_written_block_is_read_back() {
    let imports = vec![
        ImportStatement { name: "gps".to_string(), version: None },
        ImportStatement { name: "my-pkg".to_string(), version: Some("1.2.0-rc_1".to_string()) },
        ImportStatement { name: "_9".to_string(), version: Some("v.".to_string()) },
    ];
    let mut text = "library {\n".to_string();
    for import in &imports {
        match &import.version {
            Some(version) => text.push_str(&format!("  import {}@{version}\n", import.name)),
            None => text.push_str(&format!("  import {}\n", import.name)),
        }
    }
    text.push('}');
    let block = parse_library_block(&text).unwrap().unwrap();
    assert_eq!(block.imports, imports);
    assert_eq!(block.byte_range, 0..text.len());
    let empty = parse_library_block("library {\n}").unwrap().unwrap();
    assert!(empty.imports.is_empty());
}

#[test]
fn text_around_a_block_only_moves_it() {
    let source = "library { import gps }\n";
    let alone = parse_library_block(source).unwrap().unwrap();
    for prefix in ["", "\n", "// é { }\ndata { }\n"] {
        for suffix in ["", "}", "library { import x }"] {
            let text = format!("{prefix}{source}{suffix}");
            let block = parse_library_block(&text).unwrap().unwrap();
            assert_eq!(block.imports, alone.imports);
            assert_eq!(block.byte_range.start, alone.byte_range.start + prefix.len());
            assert_eq!(block.byte_range.end, alone.byte_range.end + prefix.len());
        }
    }
}
