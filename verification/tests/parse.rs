use mkcdoc::model::SourceFile;

fn parse(source: &str) -> SourceFile {
    mkcdoc::parse::parse_source(source, "test.c").unwrap()
}

#[test]
fn extracts_typedef_struct_with_trailing_field_docs() {
    let sf = parse(
        r#"
/** A 2D point. */
typedef struct {
    int x; /**< X coordinate. */
    int y; /**< Y coordinate. */
} Point;
"#,
    );
    assert_eq!(sf.structs.len(), 1);
    let s = &sf.structs[0];
    assert_eq!(s.name, "Point");
    assert_eq!(s.doc.as_ref().unwrap().brief.as_deref(), Some("A 2D point."));
    assert_eq!(s.fields.len(), 2);
    assert_eq!(s.fields[0].name, "x");
    assert_eq!(
        s.fields[0].doc.as_ref().unwrap().brief.as_deref(),
        Some("X coordinate.")
    );
}

#[test]
fn extracts_standalone_struct_and_enum() {
    let sf = parse(
        r#"
struct Named {
    int a;
};

/** Color channel. */
typedef enum {
    RED,   /**< Red. */
    GREEN, /**< Green. */
    BLUE = 5
} Color;
"#,
    );
    assert_eq!(sf.structs.len(), 1);
    assert_eq!(sf.structs[0].name, "Named");
    assert_eq!(sf.enums.len(), 1);
    let e = &sf.enums[0];
    assert_eq!(e.name, "Color");
    assert_eq!(e.variants.len(), 3);
    assert_eq!(e.variants[0].name, "RED");
    assert_eq!(e.variants[0].doc.as_ref().unwrap().brief.as_deref(), Some("Red."));
    assert_eq!(e.variants[2].name, "BLUE");
    assert_eq!(e.variants[2].value.as_deref(), Some("5"));
}

#[test]
fn extracts_macros() {
    let sf = parse(
        r#"
/** Max buffer size. */
#define MAX_SIZE 128

/** Squares x. */
#define SQUARE(x) ((x) * (x))
"#,
    );
    assert_eq!(sf.macros.len(), 2);
    assert_eq!(sf.macros[0].name, "MAX_SIZE");
    assert_eq!(sf.macros[0].params, None);
    assert_eq!(sf.macros[0].value.as_deref(), Some("128"));
    assert_eq!(sf.macros[1].name, "SQUARE");
    assert_eq!(sf.macros[1].params.as_deref(), Some(&["x".to_string()][..]));
}

#[test]
fn skips_header_include_guard() {
    let sf = parse(
        r#"
#ifndef POINT_H
#define POINT_H

/** Max coordinate. */
#define POINT_MAX_COORD 10000

#endif
"#,
    );
    assert_eq!(sf.macros.len(), 1);
    assert_eq!(sf.macros[0].name, "POINT_MAX_COORD");
}

#[test]
fn extracts_function_pointer_typedef() {
    let sf = parse("typedef int (*Callback)(int, int);");
    assert_eq!(sf.typedefs.len(), 1);
    assert_eq!(sf.typedefs[0].name, "Callback");
    assert_eq!(sf.typedefs[0].underlying, "typedef int (*Callback)(int, int)");
}

#[test]
fn extracts_functions_with_docs_and_lines() {
    let sf = parse(
        "/** Adds. @param a A. */\nint add(int a, int b);\n\nstatic char *name(void) {\n  int local = 1;\n  return 0;\n}\n",
    );
    assert_eq!(sf.functions.len(), 2);
    assert_eq!(sf.functions[0].name, "add");
    assert_eq!(sf.functions[0].signature, "int add(int a, int b)");
    assert_eq!(sf.functions[0].line, 2);
    assert_eq!(sf.functions[0].file, "test.c");
    let doc = sf.functions[0].doc.as_ref().unwrap();
    // a tag only starts a block at the start of a line
    assert_eq!(doc.brief.as_deref(), Some("Adds. @param a A."));
    assert_eq!(doc.params.len(), 0);
    assert_eq!(sf.functions[1].name, "name");
    assert_eq!(sf.functions[1].signature, "static char *name(void)");
    assert_eq!(sf.functions[1].line, 4);
    assert!(sf.functions[1].doc.is_none());
}

#[test]
fn plain_variable_declaration_is_not_a_function() {
    let sf = parse("int counter;\nstruct Tag { int v; } instance;\n");
    assert!(sf.functions.is_empty());
    assert_eq!(sf.structs.len(), 1);
    assert_eq!(sf.structs[0].name, "Tag");
    assert_eq!(sf.structs[0].fields[0].type_text, "int v");
}

#[test]
fn extract_items_on_the_syntax_tree_gives_what_parse_source_gives() {
    let source = "/** Adds. */\nint add(int a, int b) { return a + b; }\n#define LIMIT 3\n";
    let tree = mkcdoc::syntax::syntax_tree(source).unwrap();
    let direct = mkcdoc::parse::extract_items(&tree, source, "x.c");
    let via = mkcdoc::parse::parse_source(source, "x.c").unwrap();
    assert_eq!(direct.functions.len(), 1);
    assert_eq!(via.functions.len(), 1);
    assert_eq!(direct.functions[0].name, "add");
    assert_eq!(direct.functions[0].signature, via.functions[0].signature);
    assert_eq!(direct.functions[0].file, "x.c");
    assert_eq!(direct.functions[0].line, 2);
    assert_eq!(direct.macros.len(), 1);
    assert_eq!(direct.macros[0].name, "LIMIT");
    assert_eq!(direct.macros[0].value.as_deref(), Some("3"));
}

#[test]
fn syntax_tree_nodes_point_back_to_their_parents() {
    let tree = mkcdoc::syntax::syntax_tree("int x;\nstruct P { int a; };\n").unwrap();
    assert!(tree.nodes[0].parent.is_none());
    for (i, node) in tree.nodes.iter().enumerate().skip(1) {
        let p = node.parent.unwrap();
        assert!(p < i);
        assert_eq!(tree.children[p][node.slot], i);
    }
    assert_eq!(tree.nodes[0].kind, "translation_unit");
}

#[test]
fn declaration_of_struct_with_function_pointer_member_falls_through() {
    let sf = parse("struct S { int (*cb)(int); } s;");
    assert!(sf.functions.is_empty());
    assert_eq!(sf.structs.len(), 1);
    assert_eq!(sf.structs[0].name, "S");
}

#[test]
fn function_pointer_variable_and_pointer_returning_prototype_are_functions() {
    let sf = parse("char *name(void);\nint (*handler)(int);\nint x = 3;");
    let names: Vec<&str> = sf.functions.iter().map(|f| f.name.as_str()).collect();
    assert_eq!(names, vec!["name", "handler"]);
}

#[test]
fn a_later_declarator_can_declare_the_function() {
    let sf = parse("int a, f(void);");
    assert_eq!(sf.functions.len(), 1);
    assert_eq!(sf.functions[0].name, "f");
    assert_eq!(sf.functions[0].signature, "int a, f(void)");
}
