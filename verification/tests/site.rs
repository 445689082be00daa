use didactic::file_map::FileMap;
use didactic::meta::collect_page_meta;
use didactic::paths::{LogicalPath, LogicalPrefix, PhysicalPath};
use didactic::render::{collect_render_jobs, RenderError, RenderJob};
use didactic::store::{logical_path_eq, DocCache};
use typst_as_lib::TypstEngine;

fn lp(dirs: &[&str], stem: &str, ext: &str) -> LogicalPath {
    LogicalPath {
        dirs: dirs.iter().map(|s| s.to_string()).collect(),
        stem: stem.to_string(),
        ext: ext.to_string(),
    }
}

fn prefix(segs: &[&str]) -> LogicalPrefix {
    LogicalPrefix { segs: segs.iter().map(|s| s.to_string()).collect() }
}

fn root_dir() -> PhysicalPath {
    PhysicalPath { absolute: false, segs: vec![] }
}

fn blog_engine() -> TypstEngine {
    TypstEngine::builder()
        .fonts(typst_assets::fonts())
        .with_static_source_file_resolver([
            (
                "blog/index.typ",
                "#set document(title: \"Blog\", date: datetime(year: 2024, month: 1, day: 15))\nWelcome",
            ),
            ("blog/a.typ", "A post"),
            ("index.typ", "#set document(title: \"Root\")\nHome"),
        ])
        .build()
}

#[test]
fn round_trip_blog() {
    let engine = blog_engine();
    let mut fm = FileMap::new();
    fm.add_directory(
        &root_dir(),
        &vec![lp(&["blog"], "index", "typ"), lp(&["blog"], "a", "typ")],
        None,
    );
    let mut cache = DocCache::new();
    let mut warnings = Vec::new();
    let pages = collect_page_meta(&prefix(&[]), &fm, &engine, &mut cache, &mut warnings, true)
        .expect("build should succeed");
    assert_eq!(pages.len(), 1);
    let blog = &pages[0];
    assert_eq!(blog.title, "Blog");
    assert_eq!(blog.url, "/blog/index.html");
    assert_eq!(blog.section, "blog");
    assert_eq!(blog.date.as_deref(), Some("Mon, 15 Jan 2024 00:00:00 +0000"));
    assert_eq!(blog.children.len(), 1);
    let child = &blog.children[0];
    assert_eq!(child.title, "A");
    assert_eq!(child.url, "/blog/a.html");
    assert_eq!(child.section, "");
    assert_eq!(child.date, None);
    assert!(warnings.is_empty());

    // the cache can be taken at each page's path exactly once
    assert!(cache.take(&blog.path).is_some());
    assert!(cache.take(&blog.path).is_none());
    assert!(cache.take(&child.path).is_some());
    assert!(cache.take(&child.path).is_none());
}

#[test]
fn directory_without_index_is_gated() {
    let engine = TypstEngine::builder().build();
    let mut fm = FileMap::new();
    fm.add_directory(&root_dir(), &vec![lp(&["empty"], "only-asset", "png")], None);
    assert!(fm.contains(&lp(&["empty"], "only-asset", "png")));
    let mut cache: DocCache<typst_html::HtmlDocument> = DocCache::new();
    let mut warnings = Vec::new();
    let pages = collect_page_meta(&prefix(&[]), &fm, &engine, &mut cache, &mut warnings, true)
        .expect("a gated subtree is not an error");
    assert!(pages.is_empty());
    assert!(cache.take(&lp(&["empty"], "index", "typ")).is_none());
    assert!(cache.take(&lp(&["empty"], "only-asset", "png")).is_none());
    assert_eq!(warnings.len(), 1);
    assert_eq!(warnings[0].segs, vec!["empty".to_string()]);
}

#[test]
fn root_index_depends_on_walk_kind() {
    let engine = blog_engine();
    let mut fm = FileMap::new();
    fm.add_directory(&root_dir(), &vec![lp(&[], "index", "typ")], None);

    let mut cache = DocCache::new();
    let mut warnings = Vec::new();
    let pages = collect_page_meta(&prefix(&[]), &fm, &engine, &mut cache, &mut warnings, true)
        .expect("build should succeed");
    assert_eq!(pages.len(), 1);
    assert_eq!(pages[0].title, "Root");
    assert_eq!(pages[0].url, "/index.html");
    assert!(cache.take(&lp(&[], "index", "typ")).is_some());

    let mut cache2: DocCache<typst_html::HtmlDocument> = DocCache::new();
    let mut warnings2 = Vec::new();
    let pages2 = collect_page_meta(&prefix(&[]), &fm, &engine, &mut cache2, &mut warnings2, false)
        .expect("build should succeed");
    assert!(pages2.is_empty());
    assert!(cache2.take(&lp(&[], "index", "typ")).is_none());
}

#[test]
fn render_pass_takes_each_document_once() {
    let engine = blog_engine();
    let mut fm = FileMap::new();
    fm.add_directory(
        &root_dir(),
        &vec![
            lp(&["blog"], "index", "typ"),
            lp(&["blog"], "a", "typ"),
            lp(&[], "index", "typ"),
        ],
        None,
    );
    let mut cache = DocCache::new();
    let mut warnings = Vec::new();
    collect_page_meta(&prefix(&[]), &fm, &engine, &mut cache, &mut warnings, true)
        .expect("build should succeed");

    let mut jobs: Vec<RenderJob> = Vec::new();
    collect_render_jobs(&prefix(&[]), &fm, &mut cache, &mut jobs).expect("render should succeed");
    assert_eq!(jobs.len(), 3);
    for job in &jobs {
        if job.path.dirs.is_empty() {
            assert_eq!(job.current_section, "");
        } else {
            assert_eq!(job.current_section, "blog");
        }
        assert!(!job.body.is_empty());
        // the body region was extracted, not the whole document echoed
        assert!(!job.body.contains("<html"));
        assert!(!job.body.contains("<body"));
    }
    let mut paths: Vec<String> = jobs.iter().map(|j| j.path.stem.clone()).collect();
    paths.sort();
    assert_eq!(paths, vec!["a".to_string(), "index".to_string(), "index".to_string()]);

    // a second pass finds the cache already drained: the fatal
    // internal-consistency error, never a silent skip
    let mut jobs2: Vec<RenderJob> = Vec::new();
    let again = collect_render_jobs(&prefix(&[]), &fm, &mut cache, &mut jobs2);
    assert!(matches!(again, Err(RenderError::MissingDocument(_))));
}

#[test]
fn compile_failure_aborts_the_build() {
    let engine = TypstEngine::builder()
        .fonts(typst_assets::fonts())
        .with_static_source_file_resolver([("bad.typ", "#set documen(title: \"x\")")])
        .build();
    let mut fm = FileMap::new();
    fm.add_directory(&root_dir(), &vec![lp(&[], "bad", "typ")], None);
    let mut cache: DocCache<typst_html::HtmlDocument> = DocCache::new();
    let mut warnings = Vec::new();
    let r = collect_page_meta(&prefix(&[]), &fm, &engine, &mut cache, &mut warnings, true);
    let err = match r {
        Err(e) => e,
        Ok(_) => panic!("a broken document must fail the whole build"),
    };
    assert!(logical_path_eq(&err.path, &lp(&[], "bad", "typ")));
    assert!(!err.message.is_empty());
}
