use didactic::assets::{bust_image_urls, collect_asset_hashes, content_hash, hex_string, is_copied_asset, is_hashed_asset};
use didactic::config::SiteConfig;
use didactic::meta::{format_date, index_path, title_or_default, url_for, PageMeta};
use didactic::paths::{to_display, LogicalPath, LogicalPrefix, PhysicalPath};
use didactic::rss::{escape_xml, generate_rss, undated_pages};
use didactic::sort::{le_meta_exec, sort_meta, url_ends_index};
use didactic::store::{logical_path_eq, DocCache};
use didactic::text::{dec_string, str_eq, str_lex_le, trim_end_slashes, two_digit_string};
use didactic::file_map::FileMap;

fn lp(dirs: &[&str], stem: &str, ext: &str) -> LogicalPath {
    LogicalPath {
        dirs: dirs.iter().map(|s| s.to_string()).collect(),
        stem: stem.to_string(),
        ext: ext.to_string(),
    }
}

fn prefix(segs: &[&str]) -> LogicalPrefix {
    LogicalPrefix { segs: segs.iter().map(|s| s.to_string()).collect() }
}

fn phys(absolute: bool, segs: &[&str]) -> PhysicalPath {
    PhysicalPath { absolute, segs: segs.iter().map(|s| s.to_string()).collect() }
}

fn pm(title: &str, url: &str, date: Option<&str>, children: Vec<PageMeta>) -> PageMeta {
    PageMeta {
        title: title.to_string(),
        url: url.to_string(),
        section: String::new(),
        date: date.map(|d| d.to_string()),
        path: lp(&[], "x", "typ"),
        children,
    }
}

#[test]
fn text_rendering() {
    assert_eq!(dec_string(0), "0");
    assert_eq!(dec_string(1234), "1234");
    assert_eq!(two_digit_string(7), "07");
    assert_eq!(two_digit_string(42), "42");
    assert_eq!(hex_string(0), "0");
    assert_eq!(hex_string(255), "ff");
    assert_eq!(hex_string(4886718345), "123456789");
    assert_eq!(trim_end_slashes("https://x.y///"), "https://x.y");
    assert_eq!(trim_end_slashes("abc"), "abc");
    assert!(str_eq("abc", "abc"));
    assert!(!str_eq("abc", "abd"));
    assert!(str_lex_le("abc", "abd"));
    assert!(str_lex_le("ab", "abc"));
    assert!(!str_lex_le("b", "abc"));
}

#[test]
fn date_formatting() {
    assert_eq!(format_date(2024, 1, 15, 1), "Mon, 15 Jan 2024 00:00:00 +0000");
    assert_eq!(format_date(1999, 12, 5, 7), "Sun, 05 Dec 1999 00:00:00 +0000");
    assert_eq!(format_date(-44, 3, 15, 5), "Fri, 15 Mar -44 00:00:00 +0000");
}

#[test]
fn xml_escaping() {
    assert_eq!(escape_xml("a<b&c>'\""), "a&lt;b&amp;c&gt;&apos;&quot;");
    assert_eq!(escape_xml("plain"), "plain");
}

#[test]
fn urls() {
    assert_eq!(url_for(&lp(&["blog"], "a", "typ")), "/blog/a.html");
    assert_eq!(url_for(&lp(&[], "index", "typ")), "/index.html");
    assert!(url_ends_index("/blog/index.html"));
    assert!(!url_ends_index("/blog/a.html"));
    assert_eq!(
        didactic::assets::asset_url(&lp(&["img"], "logo", "png")),
        "/img/logo.png"
    );
}

#[test]
fn title_fallback() {
    let t = title_or_default(None, "A".to_string());
    assert_eq!(t, "A");
    let t2 = title_or_default(Some("Given".to_string()), "A".to_string());
    assert_eq!(t2, "Given");
}

#[test]
fn mounting_and_lookup() {
    let mut fm = FileMap::with_resolver_base(phys(true, &["home", "site"]));
    let dir = phys(true, &["home", "site", "content"]);
    let files = vec![lp(&["blog"], "a", "typ"), lp(&[], "top", "typ"), lp(&["blog"], "pic", "png")];
    fm.add_directory(&dir, &files, None);

    let got = fm.get_real(&lp(&["blog"], "a", "typ")).expect("mounted file must resolve");
    assert_eq!(to_display(got), "./content/blog/a.typ");
    assert!(fm.contains(&lp(&[], "top", "typ")));
    assert!(!fm.contains(&lp(&[], "absent", "typ")));

    // a second mount under a prefix composes additively
    let linked = phys(true, &["elsewhere"]);
    fm.add_directory(&linked, &vec![lp(&[], "note", "typ")], Some(&prefix(&["ext"])));
    let got2 = fm.get_real(&lp(&["ext"], "note", "typ")).expect("linked file must resolve");
    assert_eq!(to_display(got2), "/elsewhere/note.typ");

    let subs = fm.subdirs_at(&prefix(&[]));
    let names: Vec<String> = subs.iter().map(|s| s.segs.join("/")).collect();
    assert!(names.contains(&"blog".to_string()));
    assert!(names.contains(&"ext".to_string()));
    assert_eq!(names.len(), 2);

    let leaves = fm.typ_files_at(&prefix(&[]));
    assert_eq!(leaves.len(), 1);
    assert!(logical_path_eq(&leaves[0], &lp(&[], "top", "typ")));

    let under = fm.typ_files_under(&prefix(&["blog"]));
    assert_eq!(under.len(), 1);
    assert!(logical_path_eq(&under[0], &lp(&["blog"], "a", "typ")));
}

#[test]
fn shadowing_is_last_writer_wins() {
    let mut fm = FileMap::new();
    let d1 = phys(true, &["one"]);
    let d2 = phys(true, &["two"]);
    fm.add_directory(&d1, &vec![lp(&[], "a", "typ")], None);
    fm.add_directory(&d2, &vec![lp(&[], "a", "typ")], None);
    let got = fm.get_real(&lp(&[], "a", "typ")).unwrap();
    assert_eq!(to_display(got), "/two/a.typ");
}

#[test]
fn cache_take_exactly_once() {
    let mut cache: DocCache<i32> = DocCache::new();
    cache.put(lp(&["blog"], "a", "typ"), 7);
    let first = cache.take(&lp(&["blog"], "a", "typ"));
    assert_eq!(first, Some(7));
    let second = cache.take(&lp(&["blog"], "a", "typ"));
    assert_eq!(second, None);
    assert_eq!(cache.take(&lp(&[], "never", "typ")), None);
}

fn titles(v: &Vec<PageMeta>) -> Vec<String> {
    v.iter().map(|p| p.title.clone()).collect()
}

#[test]
fn sorting_orders_and_is_idempotent() {
    let mut v = vec![
        pm("Zeta", "/zeta.html", None, vec![]),
        pm("Blog", "/blog/index.html", None, vec![
            pm("B", "/blog/b.html", None, vec![]),
            pm("A", "/blog/a.html", None, vec![]),
        ]),
        pm("Alpha", "/alpha.html", None, vec![]),
    ];
    sort_meta(&mut v);
    assert_eq!(titles(&v), vec!["Blog", "Alpha", "Zeta"]);
    assert_eq!(titles(&v[0].children), vec!["A", "B"]);
    let before = titles(&v);
    let before_kids = titles(&v[0].children);
    sort_meta(&mut v);
    assert_eq!(titles(&v), before);
    assert_eq!(titles(&v[0].children), before_kids);
    // an index page precedes its siblings regardless of title
    assert!(le_meta_exec(&v[0], &v[1]));
}

#[test]
fn rss_document() {
    let pages = vec![
        pm("A&B", "/a.html", Some("Mon, 15 Jan 2024 00:00:00 +0000"), vec![]),
        pm("C", "/c.html", None, vec![]),
    ];
    let site = SiteConfig {
        title: "T".to_string(),
        author: "me".to_string(),
        base_url: "https://x.y/".to_string(),
        description: String::new(),
    };
    let feed = generate_rss(&pages, &site);
    let expected = "<?xml version=\"1.0\" encoding=\"UTF-8\"?>\n<rss version=\"2.0\">\n  <channel>\n    <title>T</title>\n    <link>https://x.y</link>\n    <description>T</description>\n    <language>en-us</language>\n    <item>\n      <title>A&amp;B</title>\n      <link>https://x.y/a.html</link>\n      <guid>https://x.y/a.html</guid>\n      <pubDate>Mon, 15 Jan 2024 00:00:00 +0000</pubDate>\n    </item>\n\n  </channel>\n</rss>";
    assert_eq!(feed, expected);
}

#[test]
fn undated_pages_are_reported() {
    let pages = vec![
        pm("A", "/a.html", Some("Mon, 15 Jan 2024 00:00:00 +0000"), vec![
            pm("K1", "/k1.html", None, vec![]),
            pm("K2", "/k2.html", Some("Tue, 16 Jan 2024 00:00:00 +0000"), vec![]),
        ]),
        pm("B", "/b.html", None, vec![]),
    ];
    let undated = undated_pages(&pages);
    assert_eq!(undated, vec!["/b.html".to_string(), "/k1.html".to_string()]);
}

#[test]
fn asset_hashing_and_busting() {
    assert!(is_hashed_asset("png"));
    assert!(!is_hashed_asset("html"));
    assert!(!is_hashed_asset("typ"));
    assert!(is_copied_asset("png"));
    assert!(!is_copied_asset("scss"));
    assert!(!is_copied_asset("toml"));

    let files = vec![
        (lp(&["img"], "logo", "png"), b"abc".to_vec()),
        (lp(&[], "index", "html"), b"x".to_vec()),
        (lp(&[], "post", "typ"), b"y".to_vec()),
    ];
    let hashes = collect_asset_hashes(&files);
    assert_eq!(hashes.len(), 1);
    assert_eq!(hashes[0].0, "/img/logo.png");
    assert_eq!(hashes[0].1, content_hash(&b"abc".to_vec()));
    assert_ne!(content_hash(&b"abc".to_vec()), content_hash(&b"abd".to_vec()));

    let html = "<p><img class=\"x\" src=\"/img/logo.png\"></p>";
    let pairs = vec![("/img/logo.png".to_string(), "h1".to_string())];
    let busted = bust_image_urls(html, &pairs);
    assert_eq!(busted, "<p><img class=\"x\" src=\"/img/logo.png?v=h1\"></p>");
    let other = "<p><img src=\"/other.png\"></p>";
    assert_eq!(bust_image_urls(other, &pairs), other);
}

#[test]
fn index_paths() {
    let ip = index_path(&prefix(&["blog"]));
    assert!(logical_path_eq(&ip, &lp(&["blog"], "index", "typ")));
}
