use mdbook_sitemap::{
    build_sitemap, collect_urls, date_of_clock_reading, epoch_secs_to_date, escape_xml, generate_sitemap, get_today,
    normalize_base_url, path_to_html, render_sitemap, BookItem, ChangeFreq, Chapter,
    SitemapConfig, SitemapError,
};

fn chapter(name: &str, path: Option<&str>, sub_items: Vec<BookItem>, is_draft: bool) -> BookItem {
    BookItem::Chapter(Chapter {
        name: name.to_string(),
        path: path.map(|p| p.to_string()),
        sub_items,
        is_draft,
    })
}

#[test]
fn test_path_to_html_md() {
    assert_eq!(path_to_html("chapter_1.md"), "chapter_1.html");
}

#[test]
fn test_path_to_html_readme() {
    assert_eq!(path_to_html("sub/README.md"), "sub/index.html");
    assert_eq!(path_to_html("README.md"), "index.html");
}

#[test]
fn test_path_to_html_root_readme() {
    assert_eq!(path_to_html("README.md"), "index.html");
}

#[test]
fn test_path_to_html_nested() {
    assert_eq!(path_to_html("intro/overview.md"), "intro/overview.html");
}

#[test]
fn test_escape_xml() {
    assert_eq!(
        escape_xml("https://example.com/foo&bar"),
        "https://example.com/foo&amp;bar"
    );
    assert_eq!(escape_xml("normal-url"), "normal-url");
}

#[test]
fn test_epoch_secs_to_date() {
    // 2024-01-01 00:00:00 UTC = 1704067200
    assert_eq!(epoch_secs_to_date(1704067200), "2024-01-01");
    // 2000-01-01 = 946684800
    assert_eq!(epoch_secs_to_date(946684800), "2000-01-01");
    // Unix epoch
    assert_eq!(epoch_secs_to_date(0), "1970-01-01");
}

#[test]
fn test_build_sitemap() {
    let urls = vec![
        "https://example.com/docs/index.html".to_string(),
        "https://example.com/docs/chapter_1.html".to_string(),
    ];
    let cfg = SitemapConfig {
        base_url: Some("https://example.com/docs/".into()),
        include_lastmod: false,
        ..Default::default()
    };
    let xml = build_sitemap(&urls, &cfg);
    assert!(xml.contains(r#"<?xml version="1.0" encoding="UTF-8"?>"#));
    assert!(xml.contains(r#"xmlns="http://www.sitemaps.org/schemas/sitemap/0.9""#));
    assert!(xml.contains("<loc>https://example.com/docs/index.html</loc>"));
    assert!(xml.contains("<loc>https://example.com/docs/chapter_1.html</loc>"));
    assert!(xml.contains("<changefreq>weekly</changefreq>"));
    assert!(xml.contains("<priority>0.7</priority>"));
    assert!(!xml.contains("<lastmod>"));
}

#[test]
fn test_collect_urls_basic() {
    let items = vec![
        chapter("Introduction", Some("intro.md"), vec![], false),
        BookItem::Separator,
        chapter(
            "Chapter 1",
            Some("chapter1.md"),
            vec![chapter("Sub Chapter", Some("chapter1/sub.md"), vec![], false)],
            false,
        ),
    ];
    let mut urls = Vec::new();
    collect_urls(&items, "https://example.com/", false, &mut urls);
    assert_eq!(urls.len(), 3);
    assert_eq!(urls[0], "https://example.com/intro.html");
    assert_eq!(urls[1], "https://example.com/chapter1.html");
    assert_eq!(urls[2], "https://example.com/chapter1/sub.html");
}

#[test]
fn test_collect_urls_skips_draft() {
    let items = vec![
        chapter("Real Chapter", Some("real.md"), vec![], false),
        chapter("Draft Chapter", None, vec![], true),
    ];
    let mut urls = Vec::new();
    collect_urls(&items, "https://example.com/", false, &mut urls);
    assert_eq!(urls.len(), 1);
    assert_eq!(urls[0], "https://example.com/real.html");
}

#[test]
fn test_collect_urls_includes_draft_when_configured() {
    let items = vec![chapter("Draft Chapter", Some("draft.md"), vec![], true)];
    let mut urls_without = Vec::new();
    collect_urls(&items, "https://example.com/", false, &mut urls_without);
    assert_eq!(urls_without.len(), 0);

    let mut urls_with = Vec::new();
    collect_urls(&items, "https://example.com/", true, &mut urls_with);
    assert_eq!(urls_with.len(), 1);
}

#[test]
fn test_change_freq_display() {
    assert_eq!(ChangeFreq::Weekly.to_string(), "weekly");
    assert_eq!(ChangeFreq::Daily.to_string(), "daily");
    assert_eq!(ChangeFreq::Monthly.to_string(), "monthly");
}

// ----- further cases -----

#[test]
fn change_freq_names_and_default() {
    assert_eq!(ChangeFreq::Always.to_string(), "always");
    assert_eq!(ChangeFreq::Hourly.to_string(), "hourly");
    assert_eq!(ChangeFreq::Yearly.to_string(), "yearly");
    assert_eq!(ChangeFreq::Never.to_string(), "never");
    assert_eq!(ChangeFreq::default(), ChangeFreq::Weekly);
}

#[test]
fn sitemap_config_defaults() {
    let cfg = SitemapConfig::default();
    assert!(cfg.base_url.is_none());
    assert_eq!(cfg.change_freq, ChangeFreq::Weekly);
    assert_eq!(cfg.priority, "0.7");
    assert_eq!(cfg.output_filename, "sitemap.xml");
    assert!(!cfg.include_draft);
    assert!(cfg.include_lastmod);
}

#[test]
fn path_to_html_other_cases() {
    assert_eq!(path_to_html("sub\\README.md"), "sub/index.html");
    assert_eq!(path_to_html("a\\b\\c.md"), "a/b/c.html");
    assert_eq!(path_to_html("image.png"), "image.png");
    assert_eq!(path_to_html("MYREADME.md"), "MYREADME.html");
    assert_eq!(path_to_html("notes.md.md"), "notes.md.html");
    assert_eq!(path_to_html(".md"), ".html");
    assert_eq!(path_to_html(""), "");
}

#[test]
fn path_to_html_twice_is_once() {
    for p in ["README.md", "a/README.md", "x.md", "x\\y.md", "plain"] {
        let once = path_to_html(p);
        assert_eq!(path_to_html(&once), once);
    }
}

#[test]
fn escape_xml_all_specials() {
    assert_eq!(escape_xml("a&b<c>d\"e'f"), "a&amp;b&lt;c&gt;d&quot;e&apos;f");
    assert_eq!(escape_xml("&amp;"), "&amp;amp;");
    assert_eq!(escape_xml(""), "");
    assert_eq!(escape_xml("é<ü"), "é&lt;ü");
}

#[test]
fn epoch_secs_to_date_more_days() {
    // last second of 1970-01-01
    assert_eq!(epoch_secs_to_date(86399), "1970-01-01");
    assert_eq!(epoch_secs_to_date(86400), "1970-01-02");
    // leap days
    assert_eq!(epoch_secs_to_date(951782400), "2000-02-29");
    assert_eq!(epoch_secs_to_date(1709164800), "2024-02-29");
    assert_eq!(epoch_secs_to_date(1709251200), "2024-03-01");
    // 2100 is not a leap year
    assert_eq!(epoch_secs_to_date(4107456000), "2100-02-28");
    assert_eq!(epoch_secs_to_date(4107542400), "2100-03-01");
    assert_eq!(epoch_secs_to_date(1735689599), "2024-12-31");
    // years past 9999 get more digits
    assert_eq!(epoch_secs_to_date(253402300800), "10000-01-01");
    assert_eq!(epoch_secs_to_date(u64::MAX), "584554051223-11-09");
}

#[test]
fn today_is_a_date() {
    let today = get_today();
    assert_eq!(today.len(), 10);
    assert_eq!(&today[4..5], "-");
    assert_eq!(&today[7..8], "-");
    assert!(today.as_str() >= "2024-01-01");
}

#[test]
fn render_sitemap_exact_text() {
    let urls = vec!["https://example.com/a&b.html".to_string()];
    let cfg = SitemapConfig {
        base_url: Some("https://example.com/".into()),
        change_freq: ChangeFreq::Daily,
        priority: "1.0".into(),
        ..Default::default()
    };
    let xml = render_sitemap(&urls, &cfg, "2024-05-06");
    assert_eq!(
        xml,
        "<?xml version=\"1.0\" encoding=\"UTF-8\"?>\n\
         <urlset xmlns=\"http://www.sitemaps.org/schemas/sitemap/0.9\">\n  \
         <url>\n    <loc>https://example.com/a&amp;b.html</loc>\n    \
         <lastmod>2024-05-06</lastmod>\n    <changefreq>daily</changefreq>\n    \
         <priority>1.0</priority>\n  </url>\n</urlset>\n"
    );
    let empty = render_sitemap(&[], &cfg, "2024-05-06");
    assert_eq!(
        empty,
        "<?xml version=\"1.0\" encoding=\"UTF-8\"?>\n\
         <urlset xmlns=\"http://www.sitemaps.org/schemas/sitemap/0.9\">\n</urlset>\n"
    );
}

#[test]
fn render_sitemap_priorities() {
    for text in ["0.0", "0.5", "0.7", "1.0", "-0.0", "100000000000000000000.0"] {
        let cfg = SitemapConfig { priority: text.to_string(), include_lastmod: false, ..Default::default() };
        let xml = render_sitemap(&["u".to_string()], &cfg, "");
        assert!(xml.contains(&format!("<priority>{}</priority>", text)));
    }
}

#[test]
fn build_sitemap_with_lastmod_writes_today() {
    let cfg = SitemapConfig::default();
    let xml = build_sitemap(&["https://e.com/x.html".to_string()], &cfg);
    let today = get_today();
    assert!(xml.contains(&format!("<lastmod>{}</lastmod>", today)));
}

#[test]
fn normalize_base_url_cases() {
    assert_eq!(normalize_base_url(&None), Err(SitemapError::MissingBaseUrl));
    assert_eq!(normalize_base_url(&Some("".into())), Err(SitemapError::EmptyBaseUrl));
    assert_eq!(normalize_base_url(&Some(" \t\n\u{3000}".into())), Err(SitemapError::EmptyBaseUrl));
    assert_eq!(
        normalize_base_url(&Some("https://example.com/docs".into())),
        Ok("https://example.com/docs/".to_string())
    );
    assert_eq!(
        normalize_base_url(&Some("  https://example.com/docs/ \n".into())),
        Ok("https://example.com/docs/".to_string())
    );
    let once = normalize_base_url(&Some(" https://e.com ".into())).unwrap();
    assert_eq!(normalize_base_url(&Some(once.clone())), Ok(once));
}

#[test]
fn collect_urls_appends_in_order_and_nests() {
    let items = vec![
        BookItem::PartTitle("Part".into()),
        chapter(
            "Top",
            Some("top/README.md"),
            vec![
                chapter("Draft", Some("top/draft.md"), vec![], true),
                chapter("Deep", None, vec![chapter("Deeper", Some("top/deeper.md"), vec![], false)], false),
            ],
            false,
        ),
    ];
    let mut urls = vec!["existing".to_string()];
    collect_urls(&items, "https://e.com/", false, &mut urls);
    assert_eq!(urls, vec!["existing", "https://e.com/top/index.html", "https://e.com/top/deeper.html"]);

    let mut with_drafts = Vec::new();
    collect_urls(&items, "https://e.com/", true, &mut with_drafts);
    assert_eq!(
        with_drafts,
        vec!["https://e.com/top/index.html", "https://e.com/top/draft.html", "https://e.com/top/deeper.html"]
    );
    for u in &urls[1..] {
        assert!(with_drafts.contains(u));
        assert!(u.starts_with("https://e.com/"));
    }
}

#[test]
fn generate_sitemap_cases() {
    let items = vec![chapter("Home", Some("README.md"), vec![], false), chapter("First", Some("first.md"), vec![], false)];
    let missing = SitemapConfig::default();
    assert_eq!(generate_sitemap(&items, &missing).err(), Some(SitemapError::MissingBaseUrl));
    let blank = SitemapConfig { base_url: Some("   ".into()), ..Default::default() };
    assert_eq!(generate_sitemap(&items, &blank).err(), Some(SitemapError::EmptyBaseUrl));

    let cfg = SitemapConfig {
        base_url: Some("https://example.com/docs".into()),
        include_lastmod: false,
        ..Default::default()
    };
    let sitemap = generate_sitemap(&items, &cfg).ok().unwrap();
    assert_eq!(sitemap.urls, vec!["https://example.com/docs/index.html", "https://example.com/docs/first.html"]);
    assert!(sitemap.xml.contains("<loc>https://example.com/docs/index.html</loc>"));
    assert!(sitemap.xml.contains("<loc>https://example.com/docs/first.html</loc>"));
    assert!(sitemap.xml.contains("<urlset"));
    assert_eq!(sitemap.xml, render_sitemap(&sitemap.urls, &cfg, "ignored"));
}

#[test]
fn clock_reading_dates() {
    assert_eq!(date_of_clock_reading(None), "1970-01-01");
    assert_eq!(date_of_clock_reading(Some(0)), "1970-01-01");
    assert_eq!(date_of_clock_reading(Some(1704067200)), "2024-01-01");
    assert_eq!(date_of_clock_reading(Some(u64::MAX)), "584554051223-11-09");
}

fn unescape(s: &str) -> String {
    let mut out = String::new();
    let mut rest = s;
    while !rest.is_empty() {
        let mut matched = false;
        for (entity, c) in [("&amp;", '&'), ("&lt;", '<'), ("&gt;", '>'), ("&quot;", '"'), ("&apos;", '\'')] {
            if let Some(tail) = rest.strip_prefix(entity) {
                out.push(c);
                rest = tail;
                matched = true;
                break;
            }
        }
        if !matched {
            let c = rest.chars().next().unwrap();
            out.push(c);
            rest = &rest[c.len_utf8()..];
        }
    }
    out
}

#[test]
fn unescaping_undoes_escaping() {
    for s in ["", "plain", "a&b", "&amp;", "<&lt;>", "\"'\"", "&&&;", "é&ü<"] {
        let e = escape_xml(s);
        assert_eq!(unescape(&e), s);
        assert!(!e.contains('<') && !e.contains('>') && !e.contains('"') && !e.contains('\''));
    }
}

#[test]
fn date_texts_sort_like_seconds() {
    let secs = [0u64, 86399, 86400, 951782400, 1704067200, 1709164800, 4107456000, 253402300799];
    for w in secs.windows(2) {
        assert!(epoch_secs_to_date(w[0]) <= epoch_secs_to_date(w[1]));
    }
    assert_eq!(epoch_secs_to_date(253402300799), "9999-12-31");
}

#[test]
fn drafts_only_add_in_order_and_change_nothing_without_drafts() {
    let with_drafts = vec![
        chapter("A", Some("a.md"), vec![chapter("A1", Some("a1.md"), vec![], true)], false),
        chapter("B", Some("b.md"), vec![], true),
        chapter("C", Some("c.md"), vec![], false),
    ];
    let mut u1 = vec!["start".to_string()];
    let mut u2 = vec!["start".to_string()];
    collect_urls(&with_drafts, "https://e.com/", false, &mut u1);
    collect_urls(&with_drafts, "https://e.com/", true, &mut u2);
    let mut it = u2.iter();
    for u in &u1 {
        assert!(it.any(|v| v == u));
    }
    let no_drafts = vec![chapter("A", Some("a.md"), vec![chapter("A1", Some("a1.md"), vec![], false)], false)];
    let mut v1 = Vec::new();
    let mut v2 = Vec::new();
    collect_urls(&no_drafts, "https://e.com/", false, &mut v1);
    collect_urls(&no_drafts, "https://e.com/", true, &mut v2);
    assert_eq!(v1, v2);
}
