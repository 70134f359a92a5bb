use mkcdoc::model::{Document, Enum, Field, Function, Macro, Struct, Typedef};
use mkcdoc::render::{
    anchor_for, build_symbol_table, group_by_file, linkify, page_slug, type_anchor, SymbolTable,
};

#[test]
fn linkifies_whole_word_matches_only() {
    let mut symbols = SymbolTable::new();
    symbols.insert("Point".to_string(), "type-Point".to_string());

    // Whole-word match gets linked.
    assert_eq!(
        linkify("void f(const Point *p)", &symbols, None),
        "void f(const <a href=\"#type-Point\">Point</a> *p)"
    );

    // Substring inside a longer identifier must NOT be linked.
    assert_eq!(linkify("PointStyle s", &symbols, None), "PointStyle s");

    // No match at all: text passes through unchanged.
    assert_eq!(linkify("int x", &symbols, None), "int x");
}

#[test]
fn linkify_excludes_a_symbols_own_defining_occurrence() {
    let mut symbols = SymbolTable::new();
    symbols.insert("PointVisitor".to_string(), "type-PointVisitor".to_string());
    symbols.insert("Point".to_string(), "type-Point".to_string());

    let out = linkify(
        "typedef void (*PointVisitor)(const Point *p)",
        &symbols,
        Some("PointVisitor"),
    );
    assert_eq!(
        out,
        "typedef void (*PointVisitor)(const <a href=\"#type-Point\">Point</a> *p)"
    );
}

#[test]
fn linkify_escapes_html_special_characters() {
    let symbols = SymbolTable::new();
    assert_eq!(linkify("a < b && b > c", &symbols, None), "a &lt; b &amp;&amp; b &gt; c");
}

#[test]
fn symbol_table_reads_back_writes() {
    let mut t = SymbolTable::new();
    assert_eq!(t.insert("A".to_string(), "x".to_string()), None);
    assert_eq!(t.insert("A".to_string(), "y".to_string()), Some("x".to_string()));
    assert_eq!(t.get("A").map(|s| s.as_str()), Some("y"));
    assert_eq!(t.get("B"), None);
    t.insert_if_absent("A".to_string(), "z".to_string());
    assert_eq!(t.get("A").map(|s| s.as_str()), Some("y"));
}

#[test]
fn identifier_after_digits_is_still_a_word() {
    let mut symbols = SymbolTable::new();
    symbols.insert("abc".to_string(), "type-abc".to_string());
    assert_eq!(linkify("1abc abc1", &symbols, None), "1<a href=\"#type-abc\">abc</a> abc1");
}

#[test]
fn anchors_and_slugs() {
    assert_eq!(anchor_for("src/mathutil.h"), "src-mathutil-h");
    assert_eq!(anchor_for("Src/Ab_1.C"), "src-ab-1-c");
    assert_eq!(type_anchor("Point"), "type-Point");
    assert_eq!(page_slug("guide/install.md"), "guide-install.html");
    assert_eq!(page_slug("api.html"), "api.html");
    assert_eq!(page_slug("intro"), "intro.html");
    assert_eq!(page_slug("./a/.hidden"), ".-a-.html");
    assert_eq!(page_slug(".hidden"), ".hidden.html");
    assert_eq!(page_slug("a//b/./c.tar.gz"), "a-b-c.tar.html");
}

fn sample_document() -> Document {
    Document {
        functions: vec![Function {
            name: "area".to_string(),
            signature: "int area(const Point *p)".to_string(),
            doc: None,
            file: "src/shape.c".to_string(),
            line: 10,
        }],
        structs: vec![Struct {
            name: "Point".to_string(),
            fields: vec![Field { name: "x".to_string(), type_text: "Coord".to_string(), doc: None }],
            doc: None,
            file: "include/shape.h".to_string(),
            line: 3,
        }],
        enums: vec![Enum {
            name: "Color".to_string(),
            variants: vec![],
            doc: None,
            file: "include/shape.h".to_string(),
            line: 8,
        }],
        typedefs: vec![Typedef {
            name: "Coord".to_string(),
            underlying: "typedef int Coord".to_string(),
            doc: None,
            file: "include/types.h".to_string(),
            line: 1,
        }],
        macros: vec![Macro {
            name: "MAX".to_string(),
            params: None,
            value: Some("4".to_string()),
            doc: None,
            file: "src/shape.c".to_string(),
            line: 2,
        }],
    }
}

#[test]
fn symbol_table_links_type_names_only() {
    let t = build_symbol_table(&sample_document());
    assert_eq!(t.get("Point").map(|s| s.as_str()), Some("type-Point"));
    assert_eq!(t.get("Color").map(|s| s.as_str()), Some("type-Color"));
    assert_eq!(t.get("Coord").map(|s| s.as_str()), Some("type-Coord"));
    assert_eq!(t.get("area"), None);
    assert_eq!(t.get("MAX"), None);
}

#[test]
fn groups_items_by_file_in_path_order() {
    let groups = group_by_file(&sample_document());
    let files: Vec<&str> = groups.iter().map(|g| g.file.as_str()).collect();
    assert_eq!(files, vec!["include/shape.h", "include/types.h", "src/shape.c"]);
    assert_eq!(groups[0].anchor, "include-shape-h");
    assert_eq!(groups[0].structs.len(), 1);
    assert_eq!(groups[0].enums.len(), 1);
    assert_eq!(
        groups[0].structs[0].fields[0].type_text.as_deref(),
        Some("<a href=\"#type-Coord\">Coord</a>")
    );
    assert_eq!(groups[1].typedefs[0].underlying, "typedef int Coord");
    assert_eq!(groups[2].functions.len(), 1);
    assert_eq!(
        groups[2].functions[0].signature,
        "int area(const <a href=\"#type-Point\">Point</a> *p)"
    );
    assert_eq!(groups[2].macros[0].value.as_deref(), Some("4"));
}

#[test]
fn relative_paths_give_flat_page_names() {
    for p in ["guide/install.md", "a/b/c/d.md", "./x/../y.md", "deep/no_ext"] {
        assert!(!page_slug(p).contains('/'), "{p}");
    }
    assert_eq!(page_slug("/abs/page.md"), "/-abs-page.html");
}

fn shown(html: &str) -> String {
    let mut out = String::new();
    let mut rest = html;
    while !rest.is_empty() {
        if let Some(after) = rest.strip_prefix("<a href=\"#") {
            let end = after.find('"').unwrap();
            rest = &after[end + 2..];
        } else if let Some(after) = rest.strip_prefix("</a>") {
            rest = after;
        } else if let Some(after) = rest.strip_prefix("&lt;") {
            out.push('<');
            rest = after;
        } else if let Some(after) = rest.strip_prefix("&gt;") {
            out.push('>');
            rest = after;
        } else if let Some(after) = rest.strip_prefix("&amp;") {
            out.push('&');
            rest = after;
        } else {
            let c = rest.chars().next().unwrap();
            out.push(c);
            rest = &rest[c.len_utf8()..];
        }
    }
    out
}

#[test]
fn removing_links_and_escapes_gives_back_the_text() {
    let mut symbols = SymbolTable::new();
    symbols.insert("Point".to_string(), "type-Point".to_string());
    symbols.insert("Cb".to_string(), "type-Cb".to_string());
    for text in [
        "void f(const Point *p, Cb cb) /* a < b && c > d */",
        "typedef int (*Cb)(Point);",
        "&lt; is not decoded twice",
        "",
    ] {
        assert_eq!(shown(&linkify(text, &symbols, None)), text);
        assert_eq!(shown(&linkify(text, &symbols, Some("Cb"))), text);
    }
}
