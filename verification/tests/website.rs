use website::blog::{blog_source, newest_first, parse_blog_date, BlogDateFormat, BlogPost, BlogPostTemplate, ParsedBlogPost};
use website::cli::deploy_arg;
use website::csv::Csv;
use website::cv::CvConfig;
use website::datetime::DateFormat;
use website::deployment::{
    deployment_sections, flat_mappings, DEPLOYED_SECTION, LEFT_OUT_SECTION,
    latest_per_source, mapping_pairs_of, paths_equal, DeploymentFile, DeploymentFileType, DeploymentMap,
    DeploymentMapInner, PatternMapping,
};
use website::homepage::{all_tabs, SocialTabLink, Tab, TabBodyType, TabHead};
use website::markdown::{join_path, MarkdownDocument};
use website::notes::{note_has_page, note_link, sort_categories, sort_notes, sort_topics};
use website::other::{sort_ideas, sort_links, IdeaEntry, LolEntry};
use website::pathpattern::{PathPattern, PathPatternError};
use website::posts::{newest_first as posts_newest_first, ParsedPost, Post, PostDateFormat, PostTemplate};
use website::prelude::{Render, SourcePath};
use website::primitives::{Link, SidebarType, SourceType};
use website::projects::{
    empty_as_none, group_by_category, project_display_title, project_source, project_url,
    sort_categories_by_name, sort_category_projects, ProjectCategory, ProjectHeader, ProjectTemplate,
};
use website::sorting::lex_less;
use website::titles::{title_from_slug, SidebarTitle};

fn strings(items: &[&str]) -> Vec<String> {
    items.iter().map(|s| s.to_string()).collect()
}

// --------------------------------------------------
// dates
// --------------------------------------------------
#[test]
fn date_from_path_parts_example() {
    let date = DateFormat::from_path_parts("2026", "03", "29").unwrap();
    assert_eq!(date.as_key(), "20260329");
    assert_eq!(date.to_string(), "March 29, 2026");
    assert_eq!(date.year(), 2026);
    assert_eq!(date.month(), 3);
    assert_eq!(date.day(), 29);
}

#[test]
fn date_from_csv_with_zone() {
    let date = DateFormat::from_csv("2026-06-11 13:45:30 -0400");
    assert_eq!(date.as_key(), "20260611134530");
    assert_eq!(date.to_string(), "June 11, 2026 13:45:30 -0400");
    assert_eq!(date.date_label(), "June 11, 2026");
    assert_eq!(date.time_label(), "13:45:30 -0400");
}

#[test]
fn date_from_csv_minutes() {
    let date = DateFormat::from_csv("2026-06-11 13:45");
    assert_eq!(date.as_key(), "202606111345");
    assert_eq!(date.to_string(), "June 11, 2026 13:45");
}

#[test]
fn date_zone_needs_seconds() {
    assert!(DateFormat::parse_csv("2026-06-11 13:45 -0400").is_err());
}

#[test]
fn date_parse_csv_date_only() {
    let date = DateFormat::parse_csv("2026-06-11").unwrap();
    assert_eq!(date.as_key(), "20260611");
    assert_eq!(date.time_label(), "");
}

#[test]
fn date_parse_csv_hour_only() {
    let date = DateFormat::parse_csv("2026-06-11 13").unwrap();
    assert_eq!(date.as_key(), "2026061113");
    assert_eq!(date.to_string(), "June 11, 2026 13");
}

#[test]
fn date_component_parsers() {
    assert_eq!(DateFormat::parse_year("2026").unwrap(), 2026);
    assert!(DateFormat::parse_year("26").is_err());
    assert_eq!(DateFormat::parse_month("06").unwrap(), 6);
    assert!(DateFormat::parse_month("13").is_err());
    assert_eq!(DateFormat::parse_day("11").unwrap(), 11);
    assert!(DateFormat::parse_day("32").is_err());
    assert_eq!(DateFormat::parse_hour("13").unwrap(), 13);
    assert!(DateFormat::parse_hour("24").is_err());
    assert_eq!(DateFormat::parse_minute("45").unwrap(), 45);
    assert!(DateFormat::parse_minute("60").is_err());
    assert_eq!(DateFormat::parse_second("30").unwrap(), 30);
    assert!(DateFormat::parse_second("60").is_err());
    assert_eq!(DateFormat::parse_zone("-0400").unwrap(), "-0400");
    assert!(DateFormat::parse_zone("-2460").is_err());
}

#[test]
fn date_path_parts_errors() {
    assert!(DateFormat::from_path_parts("2026", "00", "01").is_err());
    assert!(DateFormat::from_path_parts("2026", "01", "1").is_err());
}

#[test]
fn date_keys_order_chronologically() {
    let earlier = DateFormat::parse_csv("2025-12-31 23:59").unwrap();
    let later = DateFormat::parse_csv("2026-01-01 00:00").unwrap();
    assert!(earlier.as_key() < later.as_key());
}

// --------------------------------------------------
// blog
// --------------------------------------------------
#[test]
fn blog_date_from_filename() {
    let d = BlogDateFormat::from_str("20260329-1415-hello-world").unwrap();
    assert_eq!((d.year, d.month, d.day, d.hour, d.minute), (2026, 3, 29, 14, 15));
    assert_eq!(d.sort_key(), "202603291415");
    assert_eq!(d.to_string(), "March 29, 2026");
}

#[test]
fn blog_date_errors() {
    assert_eq!(
        BlogDateFormat::from_str("2026").err().unwrap(),
        "Blog filename `2026` too short \u{2014} expected YYYYMMDD-HHMM prefix"
    );
    assert_eq!(
        BlogDateFormat::from_str("20260329x1415-post").err().unwrap(),
        "Blog filename `20260329x1415-post` missing hyphen after YYYYMMDD"
    );
    assert_eq!(
        BlogDateFormat::from_str("2026ab29-1415-post").err().unwrap(),
        "Invalid month in blog filename `2026ab29-1415-post`"
    );
    assert_eq!(
        BlogDateFormat::from_str("20261329-1415-post").err().unwrap(),
        "Month out of range in blog filename `20261329-1415-post`"
    );
    assert_eq!(
        BlogDateFormat::from_str("20260332-1415-post").err().unwrap(),
        "Day out of range in blog filename `20260332-1415-post`"
    );
    assert_eq!(
        BlogDateFormat::from_str("20260329-2460-post").err().unwrap(),
        "Hour out of range in blog filename `20260329-2460-post`"
    );
    assert_eq!(
        BlogDateFormat::from_str("20260329-2360-post").err().unwrap(),
        "Minute out of range in blog filename `20260329-2360-post`"
    );
    assert_eq!(
        BlogDateFormat::from_str("20260329-1+15-post").err().unwrap(),
        "Invalid hour in blog filename `20260329-1+15-post`"
    );
    let latest = BlogDateFormat::from_str("20261231-2359-post").unwrap();
    assert_eq!(latest.sort_key(), "202612312359");
    assert_eq!(BlogDateFormat::PREFIX_LEN, 13);
}

#[test]
fn blog_parse_date_pair() {
    let (raw, display) = parse_blog_date("20260329-1415-hello");
    assert_eq!(raw, "202603291415");
    assert_eq!(display, "March 29, 2026");
}

#[test]
fn blog_sources() {
    assert_eq!(
        blog_source("20260101-1200-a", "/blog/20260101-1200-a", true, true),
        Some(("/blog/20260101-1200-a/index.md".to_string(), "20260101-1200-a".to_string()))
    );
    assert_eq!(blog_source("20260101-1200-a", "/blog/20260101-1200-a", true, false), None);
    assert_eq!(
        blog_source("20260101-1200-a.md", "/blog/20260101-1200-a.md", false, false),
        Some(("/blog/20260101-1200-a.md".to_string(), "20260101-1200-a".to_string()))
    );
    assert_eq!(blog_source("notes.txt", "/blog/notes.txt", false, false), None);
}

#[test]
fn blog_parsed_post_titles() {
    let p = ParsedBlogPost::new(
        "20260101-1200-my-first-post.md".to_string(),
        "/blog/20260101-1200-my-first-post.md".to_string(),
        false,
        false,
        Some("no heading here\n".to_string()),
    )
    .unwrap();
    assert_eq!(p.title, "My First Post");
    assert_eq!(p.filestem, "20260101-1200-my-first-post");
    let meta = p.to_meta();
    assert_eq!(meta.url, "/blog/20260101-1200-my-first-post");
    assert_eq!(meta.date_raw, "202601011200");
    assert_eq!(meta.date, "January 1, 2026");

    let q = ParsedBlogPost::new(
        "20260101-1200-x".to_string(),
        "/blog/20260101-1200-x".to_string(),
        true,
        true,
        Some("intro\n#  Real Title  \nbody".to_string()),
    )
    .unwrap();
    assert_eq!(q.title, "Real Title");
    assert_eq!(q.src, "/blog/20260101-1200-x/index.md");
    assert!(ParsedBlogPost::new("bad.md".to_string(), "/blog/bad.md".to_string(), false, false, Some(String::new())).is_none());
    assert!(ParsedBlogPost::new(
        "20260101-1200-x.md".to_string(),
        "/blog/20260101-1200-x.md".to_string(),
        false,
        false,
        None
    )
    .is_none());
}

fn blog_post(title: &str, raw: &str) -> BlogPost {
    BlogPost { title: title.to_string(), date: String::new(), date_raw: raw.to_string(), url: String::new() }
}

#[test]
fn blog_posts_newest_first() {
    let posts = vec![
        blog_post("a", "202601010000"),
        blog_post("b", "202603010000"),
        blog_post("c", "202601010000"),
        blog_post("d", "202602010000"),
    ];
    let sorted: Vec<String> = newest_first(posts).into_iter().map(|p| p.title).collect();
    assert_eq!(sorted, strings(&["b", "d", "a", "c"]));
}

// --------------------------------------------------
// posts
// --------------------------------------------------
#[test]
fn post_date_from_dirs() {
    let d = PostDateFormat::from_path_parts("2026", "05", "08").unwrap();
    assert_eq!(d.as_key(), "20260508");
    assert_eq!(d.to_string(), "May 8, 2026");
}

#[test]
fn post_date_errors() {
    assert_eq!(PostDateFormat::from_path_parts("26", "05", "08").err().unwrap(), "Year dir `26` must be 4 digits");
    assert_eq!(PostDateFormat::from_path_parts("2026", "5", "08").err().unwrap(), "Month dir `5` must be 2 digits");
    assert_eq!(PostDateFormat::from_path_parts("2026", "05", "8").err().unwrap(), "Day dir `8` must be 2 digits");
    assert_eq!(PostDateFormat::from_path_parts("20x6", "05", "08").err().unwrap(), "Invalid year `20x6`");
    assert_eq!(PostDateFormat::from_path_parts("+026", "05", "08").err().unwrap(), "Invalid year `+026`");
    assert_eq!(PostDateFormat::from_path_parts("2026", "+5", "08").err().unwrap(), "Invalid month `+5`");
    assert_eq!(PostDateFormat::from_path_parts("2026", "13", "08").err().unwrap(), "Month 13 out of range 1-12");
    assert_eq!(PostDateFormat::from_path_parts("2026", "05", "32").err().unwrap(), "Day 32 out of range 1-31");
}

#[test]
fn post_parsed_and_listed() {
    let date = PostDateFormat::from_path_parts("2026", "05", "05").unwrap();
    let p = ParsedPost::new(
        "speeding-up-builds".to_string(),
        "/posts/2026/05/05/speeding-up-builds".to_string(),
        true,
        true,
        Some("text only".to_string()),
        date,
    )
    .unwrap();
    assert_eq!(p.title, "Speeding Up Builds");
    assert_eq!(p.src, "/posts/2026/05/05/speeding-up-builds/index.md");
    let meta = p.to_meta();
    assert_eq!(meta.url, "/posts/speeding-up-builds");
    assert_eq!(meta.date_raw, "20260505");
    assert_eq!(meta.date, "May 5, 2026");
    let d2 = PostDateFormat::from_path_parts("2026", "05", "05").unwrap();
    assert!(ParsedPost::new("x".to_string(), "/p/x".to_string(), false, true, Some(String::new()), d2).is_none());
}

#[test]
fn posts_listed_newest_first() {
    let mk = |t: &str, raw: &str| Post { title: t.to_string(), date: String::new(), date_raw: raw.to_string(), url: String::new() };
    let sorted: Vec<String> = posts_newest_first(vec![mk("old", "20250101"), mk("new", "20260101")])
        .into_iter()
        .map(|p| p.title)
        .collect();
    assert_eq!(sorted, strings(&["new", "old"]));
}

// --------------------------------------------------
// csv and entries
// --------------------------------------------------
#[test]
fn csv_reads_rows() {
    let csv = Csv::from_contents(
        "lol.csv".to_string(),
        "date,url,title\n2026-01-02,https://a.example,\"A, quoted\"\"title\"\"\"\n\n2026-01-03,https://b.example,B\n".to_string(),
        vec!["date", "url", "title"],
    );
    let rows = csv.read_rows().unwrap();
    assert_eq!(rows.len(), 2);
    assert_eq!(rows[0].fields, strings(&["2026-01-02", "https://a.example", "A, quoted\"title\""]));
    let entry = LolEntry::try_from(rows[1].clone()).unwrap();
    assert_eq!(entry.url, "https://b.example");
    assert_eq!(entry.title, "B");
    assert_eq!(entry.date.as_key(), "20260103");
}

#[test]
fn csv_width_error() {
    let csv = Csv::from_contents("x.csv".to_string(), "a,b\n1,2\n3\n".to_string(), vec!["a", "b"]);
    assert_eq!(csv.read_rows().err().unwrap(), "`x.csv` row 3 has 1 fields, expected 2");
}

#[test]
fn csv_header_error() {
    let csv = Csv::from_contents("x.csv".to_string(), "a,c\n1,2\n".to_string(), vec!["a", "b"]);
    assert_eq!(csv.read_rows().err().unwrap(), "`x.csv` has headers [\"a\", \"c\"], expected [\"a\", \"b\"]");
}

#[test]
fn csv_row_into_array_error() {
    let csv = Csv::from_contents("x.csv".to_string(), "a,b\n1,2\n".to_string(), vec!["a", "b"]);
    let row = csv.read_rows().unwrap().remove(0);
    assert_eq!(row.into_array::<3>("lol entry").err().unwrap(), "lol entry has 2 fields, expected 3");
    let csv = Csv::from_contents("x.csv".to_string(), "a,b\n1,2\n".to_string(), vec!["a", "b"]);
    let row = csv.read_rows().unwrap().remove(0);
    assert!(LolEntry::try_from(row).is_err());
}

#[test]
fn entries_sorted_newest_then_name() {
    let idea = |d: &str, n: &str| IdeaEntry { date: DateFormat::parse_csv(d).unwrap(), name: n.to_string(), description: String::new() };
    let sorted: Vec<String> = sort_ideas(vec![idea("2026-01-01", "b"), idea("2026-02-01", "z"), idea("2026-01-01", "a")])
        .into_iter()
        .map(|e| e.name)
        .collect();
    assert_eq!(sorted, strings(&["z", "a", "b"]));
    let lol = |d: &str, u: &str| LolEntry { date: DateFormat::parse_csv(d).unwrap(), url: u.to_string(), title: String::new() };
    let sorted: Vec<String> = sort_links(vec![lol("2026-01-01 10", "y"), lol("2026-01-01 10", "x"), lol("2026-01-01 11", "w")])
        .into_iter()
        .map(|e| e.url)
        .collect();
    assert_eq!(sorted, strings(&["w", "x", "y"]));
}

// --------------------------------------------------
// markdown
// --------------------------------------------------
#[test]
fn markdown_extract_h1() {
    assert_eq!(MarkdownDocument::extract_h1("intro\n# Hello World \nrest"), Some("Hello World".to_string()));
    assert_eq!(MarkdownDocument::extract_h1("## not\n#nope"), None);
}

#[test]
fn markdown_strip_first_h1() {
    assert_eq!(
        MarkdownDocument::strip_first_h1("<p>a</p><h1 id=\"t\">Title</h1><h1>Two</h1>"),
        "<p>a</p><h1>Two</h1>"
    );
    assert_eq!(MarkdownDocument::strip_first_h1("<h1>open"), "<h1>open");
}

#[test]
fn markdown_quotes_and_pandoc_body() {
    let doc = MarkdownDocument::from_html("\u{201c}hi\u{201d} it\u{2019}s");
    assert_eq!(doc.html, "\"hi\" it's");
    assert_eq!(
        MarkdownDocument::pandoc_body("<!DOCTYPE html><head><style>x</style></head><body>b</body></html></html>"),
        "<head><style>x</style></head><body>b</body>"
    );
    assert_eq!(MarkdownDocument::from_pandoc_output("no style \u{2018}q\u{2019}").html, "<head>no style 'q'");
}

#[test]
fn markdown_resolve_source() {
    assert_eq!(
        MarkdownDocument::resolve_source("/notes/a", "a", false, true),
        ("/notes/a/index.md".to_string(), SourceType::Markdown)
    );
    assert_eq!(
        MarkdownDocument::resolve_source("/notes/a", "a", true, true),
        ("/notes/a/index.html".to_string(), SourceType::Html)
    );
    assert_eq!(
        MarkdownDocument::resolve_source("/notes/a.html", "a", false, false),
        ("/notes/a.html".to_string(), SourceType::Html)
    );
    assert_eq!(join_path("/a/b", "/c"), "/c");
    assert_eq!(join_path("/a/b/", "c"), "/a/b/c");
}

#[test]
fn markdown_toc_and_anchors() {
    let html = "<h2 id=\"intro\">Intro <em>x</em></h2><p>t</p><h3 id=\"more\">More</h3>";
    let toc = MarkdownDocument::extract_toc(html);
    assert_eq!(toc.len(), 2);
    assert_eq!((toc[0].level, toc[0].id.as_str(), toc[0].text.as_str()), (2, "intro", "Intro x"));
    assert_eq!((toc[1].level, toc[1].id.as_str(), toc[1].text.as_str()), (3, "more", "More"));
    assert_eq!(
        MarkdownDocument::inject_anchor_links("<h3 id=\"more\">More</h3>"),
        "<h3 id=\"more\"><a href=\"#more\" class=\"header-anchor\">More<span class=\"anchor-icon\" title=\"Copy link\">#</span></a></h3>"
    );
    assert!(MarkdownDocument::try_extract_toc(html).is_some());
    assert_eq!(MarkdownDocument::try_inject_anchor_links("<p>none</p>"), Some("<p>none</p>".to_string()));
}

// --------------------------------------------------
// titles, projects, navigation
// --------------------------------------------------
#[test]
fn titles_from_slugs() {
    assert_eq!(title_from_slug("hello-world"), "Hello World");
    assert_eq!(title_from_slug("--a--b-"), "A B");
    assert_eq!(title_from_slug("émile-zola"), "Émile Zola");
}

#[test]
fn sidebar_titles() {
    assert_eq!("short".sidebar_title(), "short");
    let long = "x".repeat(49);
    assert_eq!(long.as_str().sidebar_title(), format!("{}...", "x".repeat(45)));
    let exact = "é".repeat(48);
    assert_eq!(exact.as_str().sidebar_title(), exact);
}

#[test]
fn project_categories_and_titles() {
    let c = ProjectCategory::new("1. Rust Crates".to_string());
    assert_eq!(c.name, "Rust Crates");
    assert_eq!(c.id, "rust-crates");
    let d = ProjectCategory::new("personal".to_string());
    assert_eq!(d.name, "personal");
    assert_eq!(project_display_title("2024-some-project", "Some Project"), "2024 - Some Project");
    assert_eq!(project_url("proj"), "/projects/proj/");
    assert_eq!(empty_as_none(Some(String::new())), None);
    assert_eq!(empty_as_none(Some("x".to_string())), Some("x".to_string()));
}

#[test]
fn tab_heads_render() {
    let head = TabHead::default("about");
    assert_eq!(head.render_title(), "<h2>about</h2>");
    assert_eq!(head.render(), "<h2>about</h2>");
    let linked = TabHead { id: "cv".to_string(), link: Some("/cv.pdf".to_string()), tag: "h3".to_string(), title: "CV".to_string() };
    assert_eq!(linked.render(), "<a href=\"/cv.pdf\"><h3>CV</h3></a>");
    let tab = Tab::from(linked);
    assert!(tab.body.is_none());
    assert_eq!(SidebarType::default(), SidebarType::GatorOnly);
}

#[test]
fn page_source_paths() {
    assert_eq!(
        <website::blog::BlogHomepage as SourcePath<website::blog::BlogHomepage>>::src_path("/t"),
        "/t/blog/blog.html"
    );
    assert_eq!(
        <website::notes::NotesHomepage as SourcePath<website::notes::NotesHomepage>>::src_path("/t"),
        "/t/notes.html"
    );
}

// --------------------------------------------------
// cv
// --------------------------------------------------
#[test]
fn cv_switches() {
    let cfg = |findable: bool, servable: bool| CvConfig {
        cv_findable: findable,
        cv_url_servable: servable,
        id: "cv".to_string(),
        deploy_path: "cv.pdf".to_string(),
    };
    assert!(CvConfig::enabled());
    cfg(true, true).validate();
    cfg(false, true).validate();
    cfg(false, false).validate();
    assert_eq!(cfg(true, true).contradiction(), None);
    assert_eq!(cfg(false, true).contradiction(), None);
    assert_eq!(cfg(false, false).contradiction(), None);
    assert_eq!(
        cfg(true, false).contradiction().unwrap(),
        "`cv.json`: `cv_findable` is true while `cv_url_servable` is false, which would link `/cv.pdf` from the site without deploying it"
    );
    assert!(cfg(false, true).suppresses("cv"));
    assert!(!cfg(false, true).suppresses("other"));
    assert!(!cfg(true, true).suppresses("cv"));
    assert_eq!(cfg(false, false).unservable_copy("/deploy"), Some("/deploy/cv.pdf".to_string()));
    assert_eq!(cfg(true, true).unservable_copy("/deploy"), None);
}

// --------------------------------------------------
// notes
// --------------------------------------------------
#[test]
fn notes_links_and_order() {
    let l = note_link("/static/notes", "personal", "algorithms", "timeseries.md");
    assert_eq!(l.name, "timeseries.md");
    assert_eq!(l.url, "/static/notes/personal/algorithms/timeseries.md");
    assert!(note_has_page("/a/b.md"));
    assert!(!note_has_page("/a/b.pdf"));
    let link = |n: &str| Link { name: n.to_string(), url: String::new() };
    let names: Vec<String> = sort_notes(vec![link("a"), link("c"), link("b")]).into_iter().map(|l| l.name).collect();
    assert_eq!(names, strings(&["c", "b", "a"]));
    let topics: Vec<String> = sort_topics(vec![("math".to_string(), vec![]), ("ece".to_string(), vec![])])
        .into_iter()
        .map(|t| t.0)
        .collect();
    assert_eq!(topics, strings(&["math", "ece"]));
    let cats: Vec<String> = sort_categories(vec![("academic".to_string(), vec![]), ("personal".to_string(), vec![])])
        .into_iter()
        .map(|c| c.0)
        .collect();
    assert_eq!(cats, strings(&["personal", "academic"]));
}

// --------------------------------------------------
// deployment
// --------------------------------------------------
#[test]
fn deployment_paths_compare_by_components() {
    assert!(paths_equal("/a//b/./c", "/a/b/c/"));
    assert!(!paths_equal("a/b", "/a/b"));
    assert!(!paths_equal("/a/b", "/a/c"));
}

#[test]
fn deployment_map_queries() {
    let pairs = vec![
        ("/src/a.html".to_string(), "/out/a.html".to_string()),
        ("/src/b".to_string(), "/out/b".to_string()),
    ];
    let mut map = DeploymentMapInner::from_pairs(pairs);
    let a = "/src/a.html".to_string();
    let missing = "/src/zzz".to_string();
    assert_eq!(map.pop(DeploymentFileType::Source(&a)), Some(&"/out/a.html".to_string()));
    assert_eq!(map.pop(DeploymentFileType::Source(&missing)), None);
    assert!(map.file_exists(DeploymentFileType::Source(&a)));
    assert!(!map.file_exists(DeploymentFileType::Source(&missing)));
    assert_eq!(map.not_deployed(), vec![0, 1]);
    map.mark("/out/a.html".to_string());
    assert_eq!(map.not_deployed(), vec![1]);
    assert!(map.files()[0].deployed);
    assert!(!map.files()[0].copies_directory());
    assert!(map.files()[1].copies_directory());
}

#[test]
fn deployment_map_difference() {
    let all = DeploymentMapInner::from_pairs(vec![
        ("/s/a".to_string(), "/d/a".to_string()),
        ("/s/b".to_string(), "/d/b".to_string()),
    ]);
    let drop = DeploymentMapInner::from_pairs(vec![("/s/b".to_string(), "/d/b".to_string())]);
    let left = all.sub(drop);
    assert_eq!(left.files().len(), 1);
    assert_eq!(left.files()[0].src, "/s/a");
    let one = DeploymentMapInner::new(vec![DeploymentFile::new("/x".to_string(), "/y".to_string())]);
    assert_eq!(one.files().len(), 1);
}

#[test]
fn deployment_later_mapping_wins() {
    let pairs = vec![
        ("/s/a".to_string(), "/d/general/a".to_string()),
        ("/s/b".to_string(), "/d/b".to_string()),
        ("/s/./a".to_string(), "/d/specific/a".to_string()),
    ];
    let kept = latest_per_source(pairs);
    assert_eq!(
        kept,
        vec![("/s/b".to_string(), "/d/b".to_string()), ("/s/./a".to_string(), "/d/specific/a".to_string())]
    );
}

#[test]
fn deployment_map_from_patterns() {
    let mappings = vec![
        PatternMapping {
            src: "content/<cat>/<name>.md".to_string(),
            dst: "notes/<cat>/<name>.md".to_string(),
            matches: strings(&["/site/content/math/algebra.md", "/site/content/ece/signals.md"]),
        },
        PatternMapping {
            src: "content/math/algebra.md".to_string(),
            dst: "special/algebra.md".to_string(),
            matches: strings(&["/site/content/math/algebra.md"]),
        },
    ];
    let map = DeploymentMapInner::from_mappings("/site", "/deploy", mappings);
    let files: Vec<(String, String)> = map.files().iter().map(|f| (f.src.clone(), f.dst.clone())).collect();
    assert_eq!(
        files,
        vec![
            ("/site/content/ece/signals.md".to_string(), "/deploy/notes/ece/signals.md".to_string()),
            ("/site/content/math/algebra.md".to_string(), "/deploy/special/algebra.md".to_string()),
        ]
    );
    assert!(map.files().iter().all(|f| !f.deployed));
}

// --------------------------------------------------
// path patterns
// --------------------------------------------------
#[test]
fn pattern_names_unique_in_order() {
    assert_eq!(PathPattern::get_uniq_bracketized("/a/<cat>/<name>.<ext>/<cat>"), strings(&["cat", "name", "ext"]));
    assert!(PathPattern::get_uniq_bracketized("/plain/path").is_empty());
}

#[test]
fn pattern_glob() {
    assert_eq!(PathPattern::init_glob("/a/<cat>/<name>.md"), Some("/a/*/*.md".to_string()));
    assert_eq!(PathPattern::init_glob("/a/<x><y>/z"), Some("/a/*/z".to_string()));
}

#[test]
fn pattern_regex() {
    let (names, re) = PathPattern::init_regex("/n/<cat>/<title>.<ext>").unwrap();
    assert_eq!(names, strings(&["cat", "title", "ext"]));
    assert_eq!(re, "/n/(?P<cat>.[^/]+)/(?P<title>.[^/]+)\\.(?P<ext>.[^/]+)");
    let (_, re) = PathPattern::init_regex("/x/<a>/*/<a>").unwrap();
    assert_eq!(re, "/x/(?P<a>.[^/]+)/[^/]+/\\k<a>");
}

#[test]
fn pattern_captures_and_map() {
    let p = PathPattern::new("/n/<cat>/<title>.<ext>", strings(&["/n/academic/proj3.pdf", "/m/none"])).unwrap();
    assert_eq!(p.captures[0].0, "/n/academic/proj3.pdf");
    assert_eq!(
        p.captures[0].1,
        vec![
            ("cat".to_string(), "academic".to_string()),
            ("title".to_string(), "proj3".to_string()),
            ("ext".to_string(), "pdf".to_string())
        ]
    );
    assert!(p.captures[1].1.is_empty());
    let mapped = p.map("/d/<cat>/<title>.html");
    assert_eq!(mapped[0], ("/n/academic/proj3.pdf".to_string(), "/d/academic/proj3.html".to_string()));
    assert_eq!(mapped[1], ("/m/none".to_string(), "/d/<cat>/<title>.html".to_string()));
    assert!(matches!(PathPattern::new("/n/<(>/x", vec![]), Err(PathPatternError::Unbuildable)));
    assert!(matches!(PathPattern::new("/n/(/x", vec![]), Err(PathPatternError::Invalid)));
}

#[test]
fn match_escape_period() {
    let regex_str = r"/home/arpadav/repos/website/content/notes/(?P<cat>.*)/(?P<typ>.*)/(?P<title>.*)\.(?P<ext>.*)";
    let path = "/home/arpadav/repos/website/content/notes/academic/2021 - ECE 558/Voros_Arpad_ECE558_proj3.pdf";
    let regex = fancy_regex::Regex::new(regex_str).unwrap();
    let captures = regex.captures(path).unwrap().unwrap();
    println!("{:?}:", captures.name("cat").unwrap().as_str());
    println!("{:?}:", captures.name("typ").unwrap().as_str());
    println!("{:?}:", captures.name("title").unwrap().as_str());
    println!("{:?}:", captures.name("ext").unwrap().as_str());
}

// --------------------------------------------------
// command line and ordering
// --------------------------------------------------
#[test]
fn cli_deploy_argument() {
    assert_eq!(deploy_arg(&strings(&["prog", "--deploy", "out"])), Some("out".to_string()));
    assert_eq!(deploy_arg(&strings(&["prog", "-d", "x", "--deploy", "y"])), Some("y".to_string()));
    assert_eq!(deploy_arg(&strings(&["prog", "-d"])), None);
    assert_eq!(deploy_arg(&strings(&["prog"])), None);
}

#[test]
fn strings_compare_lexicographically() {
    assert!(lex_less("a", "b"));
    assert!(lex_less("ab", "abc"));
    assert!(!lex_less("b", "a"));
    assert!(!lex_less("a", "a"));
}

// --------------------------------------------------
// projects listing, home tabs, shared map
// --------------------------------------------------
fn header(title: &str) -> ProjectHeader {
    ProjectHeader {
        title: title.to_string(),
        collab_type: "Individual".to_string(),
        status: "Completed".to_string(),
        desc: None,
        date: None,
        location: None,
        repos: vec![],
    }
}

#[test]
fn projects_grouped_and_sorted() {
    let page = |name: &str| ProjectTemplate::new(name, header("T"), String::new());
    let p = page("2021-tool");
    assert_eq!(p.header.title, "2021 - T");
    assert_eq!(p.url, "/projects/2021-tool/");
    assert_eq!(p.sidebar, SidebarType::Projects);
    let items = vec![
        ("2. personal".to_string(), "/p/a".to_string(), page("2019-a")),
        ("1. rust crates".to_string(), "/p/b".to_string(), page("2020-b")),
        ("2. personal".to_string(), "/p/c".to_string(), page("2023-c")),
    ];
    let grouped = group_by_category(items);
    assert_eq!(grouped.len(), 2);
    assert_eq!(grouped[0].0.raw_name, "2. personal");
    assert_eq!(grouped[0].0.id, "personal");
    assert_eq!(grouped[0].1.len(), 2);
    let sorted = sort_category_projects(sort_categories_by_name(grouped));
    assert_eq!(sorted[0].0.name, "rust crates");
    let names: Vec<String> = sorted[1].1.iter().map(|(_, t)| t.name.clone()).collect();
    assert_eq!(names, strings(&["2023-c", "2019-a"]));
    assert_eq!(project_source(true, false), Some(SourceType::Html));
    assert_eq!(project_source(false, true), Some(SourceType::Markdown));
    assert_eq!(project_source(false, false), None);
}

#[test]
fn home_tabs_in_order() {
    let socials = vec![SocialTabLink {
        name: "gh".to_string(),
        url: "https://github.com".to_string(),
        img_src: "a.svg".to_string(),
        img_hvr_src: "b.svg".to_string(),
    }];
    let cv = TabHead { id: "cv".to_string(), link: Some("/cv.pdf".to_string()), tag: "h2".to_string(), title: "cv".to_string() };
    let tabs = all_tabs(socials, vec![cv]);
    assert_eq!(tabs.len(), 4);
    assert_eq!(tabs[0].head.id, "about");
    assert!(matches!(tabs[0].body, Some(TabBodyType::AboutMe)));
    assert!(matches!(tabs[1].body, Some(TabBodyType::Contact)));
    assert!(matches!(&tabs[2].body, Some(TabBodyType::Socials(v)) if v.len() == 1));
    assert_eq!(tabs[3].head.id, "cv");
    assert!(tabs[3].body.is_none());
}

#[test]
fn shared_map_read_and_write() {
    let mut map = DeploymentMap {
        inner: DeploymentMapInner::from_pairs(vec![("/s/a".to_string(), "/d/a".to_string())]),
    };
    assert_eq!(map.r().not_deployed(), vec![0]);
    map.w().mark("/d/a".to_string());
    assert!(map.r().not_deployed().is_empty());
}

// --------------------------------------------------
// laws on concrete values
// --------------------------------------------------
#[test]
fn blog_keys_order_and_match_written_digits() {
    let names = ["20251231-2359-a", "20260101-0000-b", "20260101-0001-c"];
    let keys: Vec<String> = names.iter().map(|n| BlogDateFormat::from_str(n).unwrap().sort_key()).collect();
    assert!(keys[0] < keys[1] && keys[1] < keys[2]);
    for n in names.iter() {
        assert_eq!(BlogDateFormat::from_str(n).unwrap().sort_key(), parse_blog_date(n).0);
    }
    assert_eq!(
        BlogDateFormat::from_str("2026+3+1-1200-x").err().unwrap(),
        "Invalid month in blog filename `2026+3+1-1200-x`"
    );
}

#[test]
fn post_keys_order_chronologically() {
    let a = PostDateFormat::from_path_parts("2025", "12", "31").unwrap();
    let b = PostDateFormat::from_path_parts("2026", "01", "01").unwrap();
    assert!(a.as_key() < b.as_key());
}

#[test]
fn sorting_a_sorted_listing_keeps_it() {
    let posts = vec![blog_post("x", "3"), blog_post("y", "2"), blog_post("z", "2"), blog_post("w", "1")];
    let once: Vec<String> = newest_first(posts).into_iter().map(|p| p.title).collect();
    let again_input: Vec<BlogPost> = once.iter().zip(["3", "2", "2", "1"]).map(|(t, r)| blog_post(t, r)).collect();
    let twice: Vec<String> = newest_first(again_input).into_iter().map(|p| p.title).collect();
    assert_eq!(once, twice);
}

#[test]
fn deployment_pairs_of_mappings() {
    let mappings = vec![PatternMapping {
        src: "/abs/<f>.txt".to_string(),
        dst: "out/<f>.txt".to_string(),
        matches: strings(&["/abs/one.txt"]),
    }];
    assert_eq!(
        mapping_pairs_of("/root", "/deploy", mappings),
        vec![("/abs/one.txt".to_string(), "/deploy/out/one.txt".to_string())]
    );
    let broken = vec![PatternMapping { src: "a/(".to_string(), dst: "b".to_string(), matches: strings(&["a/("]) }];
    assert!(mapping_pairs_of("/root", "/deploy", broken).is_empty());
}

#[test]
fn post_pages_built_from_html() {
    let post = ParsedBlogPost::new(
        "20260329-1415-hello.md".to_string(),
        "/blog/20260329-1415-hello.md".to_string(),
        false,
        false,
        Some("# Hello\n".to_string()),
    )
    .unwrap();
    let html = "<h1 id=\"hello\">Hello</h1><h2 id=\"a\">A <b>b</b></h2><p>x</p>";
    let page = BlogPostTemplate::new("Hello | site".to_string(), &post, html).unwrap();
    assert_eq!(page.post_title, "Hello");
    assert_eq!(page.date, "March 29, 2026");
    assert_eq!(page.sidebar, SidebarType::Blog);
    assert_eq!(page.toc.len(), 1);
    assert_eq!((page.toc[0].level, page.toc[0].id.as_str(), page.toc[0].text.as_str()), (2, "a", "A b"));
    assert_eq!(
        page.content,
        "<h2 id=\"a\"><a href=\"#a\" class=\"header-anchor\">A <b>b</b><span class=\"anchor-icon\" title=\"Copy link\">#</span></a></h2><p>x</p>"
    );
    let date = PostDateFormat::from_path_parts("2026", "05", "08").unwrap();
    let p = ParsedPost::new("talk".to_string(), "/p/talk".to_string(), true, true, Some("# Talk".to_string()), date).unwrap();
    let page = PostTemplate::new("Talk".to_string(), &p, "<p>plain</p>").unwrap();
    assert_eq!(page.content, "<p>plain</p>");
    assert!(page.toc.is_empty());
    assert_eq!(page.date, "May 8, 2026");
}

#[test]
fn csv_key_lengths_follow_precision() {
    let lengths: Vec<usize> = ["2026-06-11", "2026-06-11 13", "2026-06-11 13:45", "2026-06-11 13:45:30", "2026-06-11 13:45:30 -0400"]
        .iter()
        .map(|s| DateFormat::parse_csv(s).unwrap().as_key().len())
        .collect();
    assert_eq!(lengths, vec![8, 10, 12, 14, 14]);
}

#[test]
fn csv_accepted_exactly_when_pieces_are() {
    assert!(DateFormat::parse_year("2026").is_ok() && DateFormat::parse_month("06").is_ok());
    assert!(DateFormat::parse_csv("2026-06-11 13:45:30 -0400").is_ok());
    assert_eq!(DateFormat::parse_csv("2026-13-11").err().unwrap(), DateFormat::parse_month("13").err().unwrap());
    assert_eq!(DateFormat::parse_csv("2026-06-11 24").err().unwrap(), DateFormat::parse_hour("24").err().unwrap());
    assert_eq!(
        DateFormat::parse_csv("2026-06-11 13:45:30 +2400").err().unwrap(),
        DateFormat::parse_zone("+2400").err().unwrap()
    );
    assert_eq!(DateFormat::parse_csv("2026-06-11 13:45 -0400").err().unwrap(), "Time zone cannot exist without second");
    assert!(DateFormat::parse_csv("2026-06").is_err());
}

#[test]
fn deployment_file_sections() {
    let text = r#"{"include": {"b": "y", "a": "x"}, "exclude": {"c": "z"}}"#;
    let pairs = |v: &[(&str, &str)]| v.iter().map(|(a, b)| (a.to_string(), b.to_string())).collect::<Vec<_>>();
    assert_eq!(
        deployment_sections(text, DEPLOYED_SECTION, LEFT_OUT_SECTION),
        Ok(Some((pairs(&[("a", "x"), ("b", "y")]), pairs(&[("c", "z")]))))
    );
    assert_eq!(deployment_sections(r#"{"include": {"a": "x"}}"#, DEPLOYED_SECTION, LEFT_OUT_SECTION), Ok(None));
    assert_eq!(
        deployment_sections(r#"{"include": {"a": 1}, "exclude": {}}"#, DEPLOYED_SECTION, LEFT_OUT_SECTION),
        Ok(None)
    );
    assert_eq!(
        deployment_sections(r#"{"include": {}, "exclude": {}, "other": 3}"#, DEPLOYED_SECTION, LEFT_OUT_SECTION),
        Ok(None)
    );
    assert!(deployment_sections("not json", DEPLOYED_SECTION, LEFT_OUT_SECTION).is_err());
    assert_eq!(
        flat_mappings(r#"{"z/<a>.md": "<a>.html", "b.css": "b.css"}"#),
        Ok(Some(pairs(&[("b.css", "b.css"), ("z/<a>.md", "<a>.html")])))
    );
    assert_eq!(flat_mappings(r#"{"a": {"b": "c"}}"#), Ok(None));
    assert!(flat_mappings("[1, 2]").is_err());
}

#[test]
fn map_fills_captured_placeholders_only() {
    let p = PathPattern::new("/n/<cat>/<title>.pdf", strings(&["/n/ab/cd.pdf"])).unwrap();
    let mapped = p.map("/d/<cat>/<other>/<title><cat>.html");
    assert_eq!(mapped, vec![("/n/ab/cd.pdf".to_string(), "/d/ab/<other>/cdab.html".to_string())]);
    assert_eq!(p.map("/d/plain.html")[0].1, "/d/plain.html");
}
