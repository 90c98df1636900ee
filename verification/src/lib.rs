//! Builds the `sitemap.xml` of an mdBook: the URL of every chapter page, rendered as a
//! sitemap document, with the calendar arithmetic that dates it.

pub mod book;
pub mod calendar;
pub mod clock;
pub mod config;
pub mod generate;
pub mod paths;
pub mod text;
pub mod xml;

pub use book::{collect_urls, BookItem, Chapter};
pub use calendar::epoch_secs_to_date;
pub use clock::{date_of_clock_reading, get_today};
pub use config::{normalize_base_url, ChangeFreq, SitemapConfig, SitemapError};
pub use generate::{generate_sitemap, Sitemap};
pub use paths::path_to_html;
pub use xml::{build_sitemap, escape_xml, render_sitemap};
