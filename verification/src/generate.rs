//! The sitemap of a whole book, from its table of contents and settings.

use vstd::prelude::*;
use crate::book::{collect_urls, items_urls, BookItem};
use crate::calendar::date_text_of_day;
use crate::clock::day_of_clock_reading;
use crate::config::{normalize_base_url, normalized_base_url, SitemapConfig, SitemapError};
use crate::xml::{build_sitemap, sitemap_xml};

verus! {

/// The pages of a book and the sitemap document that lists them.
pub struct Sitemap {
    pub urls: Vec<String>,
    pub xml: String,
}

/// What a generated sitemap holds for `sections` under `cfg`, given the date it was written on.
pub open spec fn is_sitemap_of(s: Sitemap, sections: Seq<BookItem>, cfg: SitemapConfig, base: Seq<char>, today: Seq<char>) -> bool {
    &&& s.urls.deep_view() == items_urls(sections, base, cfg.include_draft)
    &&& s.xml@ == sitemap_xml(s.urls.deep_view(), cfg, today)
}

/// Computes the sitemap of a book: checks the base URL, collects the URL of every page and
/// renders the XML document, dated today.
pub fn generate_sitemap(sections: &[BookItem], cfg: &SitemapConfig) -> (r: Result<Sitemap, SitemapError>)
    ensures
        match r {
            Err(e) => normalized_base_url(cfg.base_url) == Err::<Seq<char>, SitemapError>(e),
            Ok(s) => {
                &&& normalized_base_url(cfg.base_url) is Ok
                &&& exists|reading: Option<u64>| is_sitemap_of(s, sections@, *cfg,
                    normalized_base_url(cfg.base_url)->Ok_0, #[trigger] date_text_of_day(day_of_clock_reading(reading)))
                &&& !cfg.include_lastmod ==> is_sitemap_of(s, sections@, *cfg,
                    normalized_base_url(cfg.base_url)->Ok_0, Seq::empty())
            },
        },
{
    let base_url = match normalize_base_url(&cfg.base_url) {
        Ok(b) => b,
        Err(e) => {
            return Err(e);
        },
    };
    let mut urls: Vec<String> = Vec::new();
    collect_urls(sections, base_url.as_str(), cfg.include_draft, &mut urls);
    assert(urls.deep_view() =~= items_urls(sections@, base_url@, cfg.include_draft));
    let xml = build_sitemap(urls.as_slice(), cfg);
    Ok(Sitemap { urls, xml })
}

} // verus!
