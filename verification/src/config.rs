//! The site configuration: its name and output directory, where sources and
//! hand-written pages live, and the navigation tree.
use vstd::prelude::*;

verus! {

#[derive(Debug)]
pub struct Config {
    pub site: SiteConfig,
    pub source: SourceConfig,
    pub content: ContentConfig,
    pub nav: Vec<NavEntry>,
}

#[derive(Debug)]
pub struct SiteConfig {
    pub name: String,
    /// Directory the site is written to.
    pub output_dir: String,
}

#[derive(Debug)]
pub struct SourceConfig {
    /// Directories to scan (recursively) for `.c`/`.h` files.
    pub dirs: Vec<String>,
}

#[derive(Debug)]
pub struct ContentConfig {
    /// Directory hand-written Markdown pages are resolved against.
    pub dir: String,
}

pub open spec fn content_dir_name() -> Seq<char> {
    seq!['c', 'o', 'n', 't', 'e', 'n', 't']
}

pub open spec fn api_page_name() -> Seq<char> {
    seq!['a', 'p', 'i', '.', 'h', 't', 'm', 'l']
}

impl Default for ContentConfig {
    fn default() -> (r: Self)
        ensures
            r.dir@ == content_dir_name(),
    {
        ContentConfig { dir: default_content_dir() }
    }
}

/// The content directory used when the configuration names none: `content`.
pub fn default_content_dir() -> (r: String)
    ensures
        r@ == content_dir_name(),
{
    let v: Vec<char> = vec!['c', 'o', 'n', 't', 'e', 'n', 't'];
    crate::text::string_of(&v)
}

/// The page an API reference entry is written to when it names none: `api.html`.
pub fn default_api_path() -> (r: String)
    ensures
        r@ == api_page_name(),
{
    let v: Vec<char> = vec!['a', 'p', 'i', '.', 'h', 't', 'm', 'l'];
    crate::text::string_of(&v)
}

/// One entry of the explicit `nav` tree. A `Page` is a hand-written Markdown file; `Section`
/// groups entries under a heading; `ApiReference` marks where the generated API docs go.
#[derive(Debug)]
pub enum NavEntry {
    Page {
        title: String,
        /// Path to a Markdown file, relative to `content.dir`.
        path: String,
    },
    Section { title: String, items: Vec<NavEntry> },
    ApiReference { title: String, path: String },
}

/// Number of pages an entry makes: a section makes those of its items, any other entry one.
pub open spec fn entry_pages(e: NavEntry) -> nat
    decreases e,
{
    match e {
        NavEntry::Section { items, .. } => entries_pages(items@),
        _ => 1,
    }
}

/// Number of pages a list of entries makes.
pub open spec fn entries_pages(es: Seq<NavEntry>) -> nat
    decreases es,
{
    if es.len() == 0 {
        0
    } else {
        entries_pages(es.drop_last()) + entry_pages(es.last())
    }
}

/// Number of pages the navigation tree `entries` makes.
pub fn count_nav_pages(entries: &[NavEntry]) -> (r: usize)
    requires
        entries_pages(entries@) <= usize::MAX,
    ensures
        r == entries_pages(entries@),
    decreases entries@,
{
    let mut total: usize = 0;
    let mut i: usize = 0;
    while i < entries.len()
        invariant
            i <= entries@.len(),
            entries_pages(entries@) <= usize::MAX,
            total == entries_pages(entries@.take(i as int)),
        decreases entries@.len() - i,
    {
        assert(entries@.take(i + 1).drop_last() =~= entries@.take(i as int));
        proof {
            lemma_entries_pages_prefix(entries@, i + 1);
            assert(entries@.take(i + 1).last() == entries@[i as int]);
            assert(entries_pages(entries@.take(i + 1)) == total + entry_pages(entries@[i as int]));
        }
        let n = match &entries[i] {
            NavEntry::Section { items, .. } => {
                assert(decreases_to!(entries@ => entries@[i as int]));
                count_nav_pages(items.as_slice())
            },
            _ => 1,
        };
        total = total + n;
        i += 1;
    }
    assert(entries@.take(entries@.len() as int) =~= entries@);
    total
}

proof fn lemma_entries_pages_prefix(es: Seq<NavEntry>, k: int)
    requires
        0 <= k <= es.len(),
    ensures
        entries_pages(es.take(k)) <= entries_pages(es),
    decreases es.len() - k,
{
    if k < es.len() {
        lemma_entries_pages_prefix(es, k + 1);
        assert(es.take(k + 1).drop_last() =~= es.take(k));
    } else {
        assert(es.take(k) =~= es);
    }
}

} // verus!
