use mkcdoc::config::{
    count_nav_pages, default_api_path, default_content_dir, Config, ContentConfig, NavEntry,
    SiteConfig, SourceConfig,
};
use mkcdoc::model::{Enum, Function, Macro, SourceFile, Struct, Typedef};
use mkcdoc::pipeline::{assemble_document, build, plan_pages, PagePlan};
use mkcdoc::render::{build_nav, NavView};

fn func(name: &str, file: &str, signature: &str) -> Function {
    Function {
        name: name.to_string(),
        signature: signature.to_string(),
        doc: None,
        file: file.to_string(),
        line: 1,
    }
}

fn strukt(name: &str, file: &str) -> Struct {
    Struct { name: name.to_string(), fields: vec![], doc: None, file: file.to_string(), line: 2 }
}

fn page(title: &str, path: &str) -> NavEntry {
    NavEntry::Page { title: title.to_string(), path: path.to_string() }
}

fn nav() -> Vec<NavEntry> {
    vec![
        page("Home", "index.md"),
        NavEntry::Section {
            title: "Guide".to_string(),
            items: vec![
                page("Install", "guide/install.md"),
                NavEntry::Section { title: "Deep".to_string(), items: vec![page("More", "guide/more.md")] },
            ],
        },
        NavEntry::ApiReference { title: "API".to_string(), path: default_api_path() },
    ]
}

fn config() -> Config {
    Config {
        site: SiteConfig { name: "Demo".to_string(), output_dir: "site".to_string() },
        source: SourceConfig { dirs: vec!["src".to_string()] },
        content: ContentConfig::default(),
        nav: nav(),
    }
}

#[test]
fn config_defaults() {
    assert_eq!(default_content_dir(), "content");
    assert_eq!(default_api_path(), "api.html");
    assert_eq!(ContentConfig::default().dir, "content");
}

#[test]
fn counts_pages_through_nested_sections() {
    assert_eq!(count_nav_pages(&nav()), 4);
    assert_eq!(count_nav_pages(&[]), 0);
    let empty_section = vec![NavEntry::Section { title: "Empty".to_string(), items: vec![] }];
    assert_eq!(count_nav_pages(&empty_section), 0);
}

#[test]
fn plans_one_page_per_leaf_entry_in_tree_order() {
    let plan = plan_pages(&nav());
    assert_eq!(plan.len(), count_nav_pages(&nav()));
    let paths: Vec<(bool, &str)> = plan
        .iter()
        .map(|p| match p {
            PagePlan::Content { path, .. } => (false, path.as_str()),
            PagePlan::Api { path, .. } => (true, path.as_str()),
        })
        .collect();
    assert_eq!(
        paths,
        vec![
            (false, "index.md"),
            (false, "guide/install.md"),
            (false, "guide/more.md"),
            (true, "api.html"),
        ]
    );
}

#[test]
fn nav_links_are_flattened_page_names() {
    let views = build_nav(&nav());
    assert_eq!(views.len(), 3);
    match &views[0] {
        NavView::Page { title, href } => {
            assert_eq!(title, "Home");
            assert_eq!(href, "index.html");
        }
        other => panic!("unexpected {:?}", other),
    }
    match &views[1] {
        NavView::Section { title, items } => {
            assert_eq!(title, "Guide");
            assert_eq!(items.len(), 2);
            match &items[0] {
                NavView::Page { href, .. } => assert_eq!(href, "guide-install.html"),
                other => panic!("unexpected {:?}", other),
            }
        }
        other => panic!("unexpected {:?}", other),
    }
    match &views[2] {
        NavView::Page { title, href } => {
            assert_eq!(title, "API");
            assert_eq!(href, "api.html");
        }
        other => panic!("unexpected {:?}", other),
    }
}

fn files() -> Vec<SourceFile> {
    vec![
        SourceFile {
            functions: vec![func("mu_add", "mathutil.h", "int mu_add(int a, int b)")],
            structs: vec![strukt("Point", "mathutil.h")],
            ..Default::default()
        },
        SourceFile {
            functions: vec![
                func("mu_add", "mathutil.c", "int mu_add(int a, int b)"),
                func("helper", "mathutil.c", "static int helper(void)"),
            ],
            structs: vec![strukt("Pair", "mathutil.c")],
            enums: vec![Enum {
                name: "Color".to_string(),
                variants: vec![],
                doc: None,
                file: "mathutil.c".to_string(),
                line: 3,
            }],
            typedefs: vec![Typedef {
                name: "Cb".to_string(),
                underlying: "typedef int (*Cb)(void)".to_string(),
                doc: None,
                file: "mathutil.c".to_string(),
                line: 4,
            }],
            macros: vec![Macro {
                name: "MAX".to_string(),
                params: None,
                value: Some("8".to_string()),
                doc: None,
                file: "mathutil.c".to_string(),
                line: 5,
            }],
        },
    ]
}

#[test]
fn document_flattens_items_in_file_order() {
    let doc = assemble_document(&files());
    assert_eq!(doc.functions.len(), 2);
    let names: Vec<&str> = doc.structs.iter().map(|s| s.name.as_str()).collect();
    assert_eq!(names, vec!["Point", "Pair"]);
    assert_eq!(doc.enums.len(), 1);
    assert_eq!(doc.typedefs[0].name, "Cb");
    assert_eq!(doc.macros[0].value.as_deref(), Some("8"));
}

#[test]
fn build_reports_raw_and_merged_counts() {
    let b = build(&config(), &files());
    assert_eq!(b.raw_functions, 3);
    assert_eq!(b.document.functions.len(), 2);
    assert_eq!(b.pages.len(), 4);
    assert_eq!(b.document.structs.len(), 2);
}
