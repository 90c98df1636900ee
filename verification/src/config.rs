//! The sitemap's settings and the base URL they give.

use vstd::prelude::*;
use crate::text::{is_white_space, push_char, trim, trim_end, trim_start, trimmed};

verus! {

/// How often the pages of the book are expected to change, as the sitemap protocol names it.
#[derive(Clone, Copy, Debug, PartialEq, Eq, Structural)]
pub enum ChangeFreq {
    Always,
    Hourly,
    Daily,
    Weekly,
    Monthly,
    Yearly,
    Never,
}

/// The lower-case name that the sitemap protocol uses for `f`.
pub open spec fn change_freq_text(f: ChangeFreq) -> Seq<char> {
    match f {
        ChangeFreq::Always => "always"@,
        ChangeFreq::Hourly => "hourly"@,
        ChangeFreq::Daily => "daily"@,
        ChangeFreq::Weekly => "weekly"@,
        ChangeFreq::Monthly => "monthly"@,
        ChangeFreq::Yearly => "yearly"@,
        ChangeFreq::Never => "never"@,
    }
}

impl ChangeFreq {
    /// The name written in `<changefreq>`.
    pub fn to_string(&self) -> (s: String)
        ensures
            s@ == change_freq_text(*self),
    {
        match self {
            ChangeFreq::Always => String::from_str("always"),
            ChangeFreq::Hourly => String::from_str("hourly"),
            ChangeFreq::Daily => String::from_str("daily"),
            ChangeFreq::Weekly => String::from_str("weekly"),
            ChangeFreq::Monthly => String::from_str("monthly"),
            ChangeFreq::Yearly => String::from_str("yearly"),
            ChangeFreq::Never => String::from_str("never"),
        }
    }
}

impl Default for ChangeFreq {
    fn default() -> (f: Self)
        ensures
            f == ChangeFreq::Weekly,
    {
        ChangeFreq::Weekly
    }
}

/// Settings of the `[output.sitemap]` table of book.toml.
pub struct SitemapConfig {
    /// Base URL of the published book; a trailing slash is added when it is missing.
    pub base_url: Option<String>,
    /// Change frequency written for every page.
    pub change_freq: ChangeFreq,
    /// Priority written for every page, as its text with one decimal (e.g. `0.7`).
    pub priority: String,
    /// Name of the file that the sitemap is written to.
    pub output_filename: String,
    /// Whether draft chapters are listed too.
    pub include_draft: bool,
    /// Whether each entry carries today's date as `<lastmod>`.
    pub include_lastmod: bool,
}

impl Default for SitemapConfig {
    fn default() -> (c: Self)
        ensures
            c.base_url is None,
            c.change_freq == ChangeFreq::Weekly,
            c.priority@ == "0.7"@,
            c.output_filename@ == "sitemap.xml"@,
            !c.include_draft,
            c.include_lastmod,
    {
        SitemapConfig {
            base_url: None,
            change_freq: ChangeFreq::Weekly,
            priority: String::from_str("0.7"),
            output_filename: String::from_str("sitemap.xml"),
            include_draft: false,
            include_lastmod: true,
        }
    }
}

/// Why a configuration cannot give the sitemap's base URL.
#[derive(Clone, Copy, Debug, PartialEq, Eq, Structural)]
pub enum SitemapError {
    /// `base-url` is not set.
    MissingBaseUrl,
    /// `base-url` is set but holds only white space.
    EmptyBaseUrl,
}

/// `u` with a slash at its end.
pub open spec fn with_trailing_slash(u: Seq<char>) -> Seq<char> {
    if u.len() > 0 && u.last() == '/' {
        u
    } else {
        u.push('/')
    }
}

/// The base URL that a configured `base-url` stands for: trimmed, with a trailing slash.
pub open spec fn normalized_base_url(base_url: Option<String>) -> Result<Seq<char>, SitemapError> {
    match base_url {
        None => Err(SitemapError::MissingBaseUrl),
        Some(u) => if trimmed(u@).len() == 0 {
            Err(SitemapError::EmptyBaseUrl)
        } else {
            Ok(with_trailing_slash(trimmed(u@)))
        },
    }
}

/// Checks the configured `base-url` and puts it in the form that page paths are appended to.
pub fn normalize_base_url(base_url: &Option<String>) -> (r: Result<String, SitemapError>)
    ensures
        match r {
            Ok(s) => normalized_base_url(*base_url) == Ok::<Seq<char>, SitemapError>(s@),
            Err(e) => normalized_base_url(*base_url) == Err::<Seq<char>, SitemapError>(e),
        },
{
    match base_url {
        None => Err(SitemapError::MissingBaseUrl),
        Some(u) => {
            let mut t = trim(u.as_str());
            let n = t.as_str().unicode_len();
            if n == 0 {
                Err(SitemapError::EmptyBaseUrl)
            } else if t.as_str().get_char(n - 1) == '/' {
                Ok(t)
            } else {
                push_char(&mut t, '/');
                Ok(t)
            }
        },
    }
}

proof fn lemma_trim_start_shape(s: Seq<char>)
    ensures
        trim_start(s).len() <= s.len(),
        trim_start(s) == s.subrange(s.len() - trim_start(s).len(), s.len() as int),
        trim_start(s).len() > 0 ==> !is_white_space(trim_start(s)[0]),
    decreases s.len(),
{
    if s.len() > 0 && is_white_space(s[0]) {
        lemma_trim_start_shape(s.drop_first());
        assert(s.drop_first().subrange(s.drop_first().len() - trim_start(s).len(), s.drop_first().len() as int)
            =~= s.subrange(s.len() - trim_start(s).len(), s.len() as int));
    } else {
        assert(s.subrange(0, s.len() as int) =~= s);
    }
}

proof fn lemma_trim_end_shape(s: Seq<char>)
    ensures
        trim_end(s).len() <= s.len(),
        trim_end(s) == s.subrange(0, trim_end(s).len() as int),
        trim_end(s).len() > 0 ==> !is_white_space(trim_end(s).last()),
    decreases s.len(),
{
    if s.len() > 0 && is_white_space(s.last()) {
        lemma_trim_end_shape(s.drop_last());
        assert(s.drop_last().subrange(0, trim_end(s).len() as int)
            =~= s.subrange(0, trim_end(s).len() as int));
    } else {
        assert(s.subrange(0, s.len() as int) =~= s);
    }
}

proof fn lemma_trimmed_fixed(s: Seq<char>)
    requires
        s.len() > 0,
        !is_white_space(s[0]),
        !is_white_space(s.last()),
    ensures
        trimmed(s) == s,
{
}

/// Normalizing a base URL that is already normalized gives it back unchanged.
pub proof fn lemma_normalize_base_url_idempotent(base_url: Option<String>, again: String)
    requires
        normalized_base_url(base_url) is Ok,
        again@ == normalized_base_url(base_url)->Ok_0,
    ensures
        normalized_base_url(Some(again)) == normalized_base_url(base_url),
{
    let u = base_url->0@;
    let t = trimmed(u);
    lemma_trim_start_shape(u);
    lemma_trim_end_shape(trim_start(u));
    assert(t[0] == trim_start(u)[0]);
    let w = with_trailing_slash(t);
    assert(w[0] == t[0]);
    assert(w.last() == '/');
    lemma_trimmed_fixed(w);
}

/// A set base URL with some text besides white space is accepted; the result is that text,
/// trimmed, ending with exactly one added slash when it did not end with one already.
pub proof fn lemma_base_url_gets_trailing_slash(u: String)
    requires
        trimmed(u@).len() > 0,
    ensures
        normalized_base_url(Some(u)) is Ok,
        normalized_base_url(Some(u))->Ok_0.last() == '/',
        trimmed(u@).last() == '/' ==> normalized_base_url(Some(u))->Ok_0 == trimmed(u@),
        trimmed(u@).last() != '/' ==> normalized_base_url(Some(u))->Ok_0 == trimmed(u@).push('/'),
{
}

/// A base URL that is not set, or holds only white space, is refused.
pub proof fn lemma_base_url_refused(u: Option<String>)
    requires
        u is None || trimmed(u->0@).len() == 0,
    ensures
        u is None ==> normalized_base_url(u) == Err::<Seq<char>, SitemapError>(SitemapError::MissingBaseUrl),
        u is Some ==> normalized_base_url(u) == Err::<Seq<char>, SitemapError>(SitemapError::EmptyBaseUrl),
{
}

} // verus!
