use es_module_lexer::{Export, Import, ImportKind, LexResult};

fn span(src: &str, needle: &str) -> (usize, usize) {
    let a = src.find(needle).unwrap();
    (a, a + needle.len())
}

fn import_at<'a>(src: &'a str, spec: &str, statement: &str, dynamic: usize, safe: bool) -> Import<'a> {
    let (s, e) = span(src, spec);
    let (ss, se) = span(src, statement);
    Import::new(src, s, e, ss, se, None, dynamic, safe).unwrap()
}

fn specifiers(res: &LexResult<'_>) -> Vec<(String, ImportKind)> {
    let mut out = Vec::new();
    let mut it = res.imports();
    while let Some(i) = it.next() {
        out.push((i.specifier().as_str().to_string(), i.kind()));
    }
    out
}

fn owned(v: Vec<(&str, ImportKind)>) -> Vec<(String, ImportKind)> {
    v.into_iter().map(|(s, k)| (s.to_string(), k)).collect()
}

const DYNAMIC: usize = 1000;

fn kind_of(dynamic: usize, safe: bool) -> ImportKind {
    let src = "'x'";
    Import::new(src, 0, 3, 0, 3, None, dynamic, safe).unwrap().kind()
}

#[test]
fn kind_follows_marker_and_safe_flag() {
    assert_eq!(kind_of(1, false), ImportKind::Standard);
    assert_eq!(kind_of(1, true), ImportKind::Standard);
    assert_eq!(kind_of(2, true), ImportKind::Meta);
    assert_eq!(kind_of(2, false), ImportKind::Meta);
    assert_eq!(kind_of(0, false), ImportKind::DynamicExpression);
    assert_eq!(kind_of(7, false), ImportKind::DynamicExpression);
    assert_eq!(kind_of(7, true), ImportKind::DynamicString);
}

#[test]
fn records_outside_the_source_are_refused() {
    let src = "import a from 'b';";
    assert!(Import::new(src, 3, 2, 0, 1, None, 1, false).is_none());
    assert!(Import::new(src, 0, 99, 0, 1, None, 1, false).is_none());
    assert!(Import::new(src, 0, 1, 0, 99, None, 1, false).is_none());
    assert!(Import::new(src, 0, 1, 0, 1, Some(99), 1, false).is_none());
    assert!(Import::new(src, 0, 1, 0, 1, None, DYNAMIC, true).is_none());
    assert!(Export::new(src, 0, 99, None).is_none());
    assert!(Export::new(src, 0, 1, Some((2, 1))).is_none());
    let multibyte = "é";
    assert!(Import::new(multibyte, 0, 1, 0, 2, None, 1, false).is_none());
    assert!(Import::new(multibyte, 0, 2, 0, 2, None, 1, false).is_some());
}

#[test]
fn static_import_and_exports() {
    let src = "import bar from \"foo\"; export * as foo from \"yoooo\"; export {test as hi};";
    let imports = vec![
        import_at(src, "foo", "import bar from \"foo\";", 1, false),
        import_at(src, "yoooo", "export * as foo from \"yoooo\";", 1, false),
    ];
    let (fs, fe) = span(src, "as foo");
    let (hs, he) = span(src, "hi");
    let (ts, te) = span(src, "test");
    let exports = vec![
        Export::new(src, fs + 3, fe, None).unwrap(),
        Export::new(src, hs, he, Some((ts, te))).unwrap(),
    ];
    let res = LexResult::from_scan(true, 0, imports, exports).ok().unwrap();
    assert_eq!(
        specifiers(&res),
        owned(vec![("foo", ImportKind::Standard), ("yoooo", ImportKind::Standard)])
    );
    let mut it = res.imports();
    assert_eq!(it.next().unwrap().statement(), "import bar from \"foo\";");
    let mut ex = res.exports();
    let first = ex.next().unwrap();
    assert_eq!(first.exported(), "foo");
    assert_eq!(first.local(), None);
    let second = ex.next().unwrap();
    assert_eq!(second.exported(), "hi");
    assert_eq!(second.local(), Some("test"));
    assert!(ex.next().is_none());
    assert!(ex.next().is_none());
}

#[test]
fn dynamic_imports() {
    let src = "import(\"./bar\"); import('./baz'); import(`./a`); import(hi); import('./test/' + foo);";
    let imports = vec![
        import_at(src, "\"./bar\"", "import(\"./bar\")", DYNAMIC, true),
        import_at(src, "'./baz'", "import('./baz')", DYNAMIC, true),
        import_at(src, "`./a`", "import(`./a`)", DYNAMIC, true),
        import_at(src, "hi", "import(hi)", DYNAMIC, false),
        import_at(src, "'./test/' + foo", "import('./test/' + foo)", DYNAMIC, false),
    ];
    let res = LexResult::from_scan(true, 0, imports, vec![]).ok().unwrap();
    assert_eq!(
        specifiers(&res),
        owned(vec![
            ("./bar", ImportKind::DynamicString),
            ("./baz", ImportKind::DynamicString),
            ("./a", ImportKind::DynamicString),
            ("hi", ImportKind::DynamicExpression),
            ("'./test/' + foo", ImportKind::DynamicExpression),
        ])
    );
    let mut it = res.imports();
    assert_eq!(it.next().unwrap().statement(), "import(\"./bar\")");
    assert!(res.exports().next().is_none());
}

#[test]
fn escaped_require_specifiers() {
    let src = "require('./\\u{20204}.js');\nrequire('./\\x61\\x62\\x63.js');\nrequire('./\\251.js');\nrequire('./foo\\\n.js');";
    let imports = vec![
        import_at(src, "'./\\u{20204}.js'", "require('./\\u{20204}.js')", DYNAMIC, true),
        import_at(src, "'./\\x61\\x62\\x63.js'", "require('./\\x61\\x62\\x63.js')", DYNAMIC, true),
        import_at(src, "'./\\251.js'", "require('./\\251.js')", DYNAMIC, true),
        import_at(src, "'./foo\\\n.js'", "require('./foo\\\n.js')", DYNAMIC, true),
    ];
    let res = LexResult::from_scan(true, 0, imports, vec![]).ok().unwrap();
    assert_eq!(
        specifiers(&res),
        owned(vec![
            ("./\u{20204}.js", ImportKind::DynamicString),
            ("./abc.js", ImportKind::DynamicString),
            ("./\u{a9}.js", ImportKind::DynamicString),
            ("./foo.js", ImportKind::DynamicString),
        ])
    );
}

#[test]
fn malformed_escape_falls_back_to_raw_text() {
    let src = "import a from 'x\\08'; require('y\\u{}');";
    let imports = vec![
        import_at(src, "x\\08", "import a from 'x\\08';", 1, false),
        import_at(src, "'y\\u{}'", "require('y\\u{}')", DYNAMIC, true),
    ];
    let res = LexResult::from_scan(true, 0, imports, vec![]).ok().unwrap();
    let mut it = res.imports();
    let first = it.next().unwrap().specifier();
    assert!(first.is_borrowed());
    assert_eq!(first.as_str(), "x\\08");
    assert_eq!(it.next().unwrap().specifier().as_str(), "y\\u{}");
}

#[test]
fn expression_and_meta_specifiers_are_not_decoded() {
    let src = "import.meta; require(a + '\\x41');";
    let imports = vec![
        import_at(src, "import.meta", "import.meta", 2, false),
        import_at(src, "a + '\\x41'", "require(a + '\\x41')", DYNAMIC, false),
    ];
    let res = LexResult::from_scan(true, 0, imports, vec![]).ok().unwrap();
    assert_eq!(
        specifiers(&res),
        owned(vec![("import.meta", ImportKind::Meta), ("a + '\\x41'", ImportKind::DynamicExpression)])
    );
}

#[test]
fn failed_scan_carries_its_error_code() {
    let src = "import 'a';";
    let imports = vec![import_at(src, "a", "import 'a';", 1, false)];
    let res = LexResult::from_scan(false, 17, imports, vec![]);
    assert_eq!(res.err(), Some(17));
}
