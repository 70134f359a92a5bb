use mkcdoc::merge::merge_functions;
use mkcdoc::model::{DocComment, Function, SourceFile};

fn func(name: &str, file: &str, signature: &str, doc: Option<&str>) -> Function {
    Function {
        name: name.to_string(),
        signature: signature.to_string(),
        doc: doc.map(|brief| DocComment {
            brief: Some(brief.to_string()),
            ..Default::default()
        }),
        file: file.to_string(),
        line: 1,
    }
}

#[test]
fn merges_header_declaration_with_c_definition() {
    let files = vec![
        SourceFile {
            functions: vec![func(
                "mu_add",
                "mathutil.h",
                "int mu_add(int a, int b)",
                Some("Adds two integers."),
            )],
            ..Default::default()
        },
        SourceFile {
            functions: vec![func("mu_add", "mathutil.c", "int mu_add(int a, int b)", None)],
            ..Default::default()
        },
    ];

    let merged = merge_functions(&files);
    assert_eq!(merged.len(), 1);
    assert_eq!(merged[0].file, "mathutil.h");
    assert_eq!(merged[0].doc.as_ref().unwrap().brief.as_deref(), Some("Adds two integers."));
}

#[test]
fn does_not_merge_static_functions_across_files() {
    let files = vec![
        SourceFile {
            functions: vec![func("helper", "a.c", "static int helper(void)", None)],
            ..Default::default()
        },
        SourceFile {
            functions: vec![func("helper", "b.c", "static int helper(void)", None)],
            ..Default::default()
        },
    ];

    let merged = merge_functions(&files);
    assert_eq!(merged.len(), 2);
}

#[test]
fn header_doc_wins_when_both_are_documented() {
    let files = vec![
        SourceFile {
            functions: vec![func(
                "mu_add",
                "mathutil.c",
                "int mu_add(int a, int b)",
                Some("Definition-site brief."),
            )],
            ..Default::default()
        },
        SourceFile {
            functions: vec![func(
                "mu_add",
                "mathutil.h",
                "int mu_add(int a, int b)",
                Some("Header brief."),
            )],
            ..Default::default()
        },
    ];

    let merged = merge_functions(&files);
    assert_eq!(merged.len(), 1);
    assert_eq!(merged[0].doc.as_ref().unwrap().brief.as_deref(), Some("Header brief."));
}

#[test]
fn definition_doc_kept_when_header_undocumented_and_signature_from_header() {
    let files = vec![
        SourceFile {
            functions: vec![func("f", "src/f.c", "int f(int x)", Some("From c."))],
            ..Default::default()
        },
        SourceFile {
            functions: vec![func("f", "include/f.h", "int f(int)", None)],
            ..Default::default()
        },
    ];
    let merged = merge_functions(&files);
    assert_eq!(merged.len(), 1);
    assert_eq!(merged[0].signature, "int f(int)");
    assert_eq!(merged[0].file, "include/f.h");
    assert_eq!(merged[0].doc.as_ref().unwrap().brief.as_deref(), Some("From c."));
}

#[test]
fn result_sorted_by_name_then_file_statics_kept_in_order() {
    let mut s1 = func("b", "z.c", "static void b(void)", Some("first"));
    s1.line = 1;
    let mut s2 = func("b", "z.c", "static void b(void)", Some("second"));
    s2.line = 9;
    let files = vec![
        SourceFile { functions: vec![s1, func("c", "a.c", "void c(void)", None)], ..Default::default() },
        SourceFile { functions: vec![s2, func("a", "a.c", "  static int a;", None), func("b", "y.h", "void b(int)", None)], ..Default::default() },
    ];
    let merged = merge_functions(&files);
    let keys: Vec<(String, String, usize)> =
        merged.iter().map(|f| (f.name.clone(), f.file.clone(), f.line)).collect();
    assert_eq!(
        keys,
        vec![
            ("a".to_string(), "a.c".to_string(), 1),
            ("b".to_string(), "y.h".to_string(), 1),
            ("b".to_string(), "z.c".to_string(), 1),
            ("b".to_string(), "z.c".to_string(), 9),
            ("c".to_string(), "a.c".to_string(), 1),
        ]
    );
}

#[test]
fn files_order_by_path_components() {
    let files = vec![SourceFile {
        functions: vec![
            func("g", "a.b", "static void g(void)", None),
            func("g", "a/b", "static void g(void)", None),
        ],
        ..Default::default()
    }];
    let merged = merge_functions(&files);
    assert_eq!(merged[0].file, "a/b");
    assert_eq!(merged[1].file, "a.b");
}

#[test]
fn header_and_source_merge_the_same_in_either_file_order() {
    let h = func("f", "inc/f.h", "int f(int)", None);
    let c = func("f", "src/f.c", "int f(int x)", Some("Does f."));
    let a = vec![
        SourceFile { functions: vec![h.clone()], ..Default::default() },
        SourceFile { functions: vec![c.clone()], ..Default::default() },
    ];
    let b = vec![
        SourceFile { functions: vec![c], ..Default::default() },
        SourceFile { functions: vec![h], ..Default::default() },
    ];
    for merged in [merge_functions(&a), merge_functions(&b)] {
        assert_eq!(merged.len(), 1);
        assert_eq!(merged[0].signature, "int f(int)");
        assert_eq!(merged[0].file, "inc/f.h");
        assert_eq!(merged[0].doc.as_ref().unwrap().brief.as_deref(), Some("Does f."));
    }
}
