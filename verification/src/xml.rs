//! The sitemap document: XML escaping and rendering.

use vstd::prelude::*;
use crate::calendar::date_text_of_day;
use crate::clock::{day_of_clock_reading, get_today};
use crate::config::{change_freq_text, SitemapConfig};
use crate::text::push_char;

verus! {

/// The XML text that stands for the character `c` in the sitemap.
pub open spec fn escape_char(c: char) -> Seq<char> {
    if c == '&' {
        seq!['&', 'a', 'm', 'p', ';']
    } else if c == '<' {
        seq!['&', 'l', 't', ';']
    } else if c == '>' {
        seq!['&', 'g', 't', ';']
    } else if c == '"' {
        seq!['&', 'q', 'u', 'o', 't', ';']
    } else if c == '\'' {
        seq!['&', 'a', 'p', 'o', 's', ';']
    } else {
        seq![c]
    }
}

/// `s` with each XML special character replaced by its entity.
pub open spec fn escaped(s: Seq<char>) -> Seq<char>
    decreases s.len(),
{
    if s.len() == 0 {
        seq![]
    } else {
        escaped(s.drop_last()) + escape_char(s.last())
    }
}

/// Characters that XML escaping replaces.
pub open spec fn is_xml_special(c: char) -> bool {
    c == '&' || c == '<' || c == '>' || c == '"' || c == '\''
}

/// Characters that may not appear raw inside the sitemap's text.
pub open spec fn is_markup_char(c: char) -> bool {
    c == '<' || c == '>' || c == '"' || c == '\''
}

/// Escaped text holds no raw `<`, `>`, `"` or `'`.
pub proof fn lemma_escaped_has_no_markup(s: Seq<char>)
    ensures
        forall|i: int| 0 <= i < escaped(s).len() ==> !is_markup_char(#[trigger] escaped(s)[i]),
    decreases s.len(),
{
    if s.len() > 0 {
        lemma_escaped_has_no_markup(s.drop_last());
        let init = escaped(s.drop_last());
        let tail = escape_char(s.last());
        assert forall|i: int| 0 <= i < escaped(s).len() implies !is_markup_char(#[trigger] escaped(s)[i]) by {
            if i < init.len() {
                assert(escaped(s)[i] == init[i]);
            } else {
                assert(escaped(s)[i] == tail[i - init.len()]);
            }
        }
    }
}

/// Text without XML special characters is left as it is.
pub proof fn lemma_escape_keeps_plain_text(s: Seq<char>)
    requires
        forall|i: int| 0 <= i < s.len() ==> !is_xml_special(#[trigger] s[i]),
    ensures
        escaped(s) == s,
    decreases s.len(),
{
    if s.len() > 0 {
        lemma_escape_keeps_plain_text(s.drop_last());
        assert(!is_xml_special(s[s.len() - 1]));
        assert(escaped(s) =~= s);
    }
}

/// `s` begins with `prefix`.
pub open spec fn starts_with(s: Seq<char>, prefix: Seq<char>) -> bool {
    prefix.len() <= s.len() && s.subrange(0, prefix.len() as int) == prefix
}

/// Replaces, in one left-to-right pass, each entity that escaping writes by its character.
pub open spec fn unescaped(s: Seq<char>) -> Seq<char>
    decreases s.len(),
{
    if s.len() == 0 {
        seq![]
    } else if starts_with(s, escape_char('&')) {
        seq!['&'] + unescaped(s.skip(5))
    } else if starts_with(s, escape_char('<')) {
        seq!['<'] + unescaped(s.skip(4))
    } else if starts_with(s, escape_char('>')) {
        seq!['>'] + unescaped(s.skip(4))
    } else if starts_with(s, escape_char('"')) {
        seq!['"'] + unescaped(s.skip(6))
    } else if starts_with(s, escape_char('\'')) {
        seq!['\''] + unescaped(s.skip(6))
    } else {
        seq![s[0]] + unescaped(s.drop_first())
    }
}

proof fn lemma_escaped_concat(a: Seq<char>, b: Seq<char>)
    ensures
        escaped(a + b) == escaped(a) + escaped(b),
    decreases b.len(),
{
    if b.len() > 0 {
        lemma_escaped_concat(a, b.drop_last());
        assert((a + b).drop_last() =~= a + b.drop_last());
        assert(escaped(a + b) =~= escaped(a) + escaped(b));
    } else {
        assert(a + b =~= a);
        assert(escaped(a) + escaped(b) =~= escaped(a));
    }
}

proof fn lemma_unescape_step(c: char, t: Seq<char>)
    ensures
        unescaped(escape_char(c) + t) == seq![c] + unescaped(t),
{
    let e = escape_char(c);
    let s = e + t;
    assert(s.skip(e.len() as int) =~= t);
    assert(s.drop_first() =~= t || is_xml_special(c));
    assert(s[0] == e[0]);
    assert(e.len() >= 2 ==> s[1] == e[1]);
    if starts_with(s, escape_char('&')) { assert(s.subrange(0, 5)[0] == s[0] && s.subrange(0, 5)[1] == s[1]); }
    if starts_with(s, escape_char('<')) { assert(s.subrange(0, 4)[0] == s[0] && s.subrange(0, 4)[1] == s[1]); }
    if starts_with(s, escape_char('>')) { assert(s.subrange(0, 4)[0] == s[0] && s.subrange(0, 4)[1] == s[1]); }
    if starts_with(s, escape_char('"')) { assert(s.subrange(0, 6)[0] == s[0] && s.subrange(0, 6)[1] == s[1]); }
    if starts_with(s, escape_char('\'')) { assert(s.subrange(0, 6)[0] == s[0] && s.subrange(0, 6)[1] == s[1]); }
    if is_xml_special(c) {
        assert(s.subrange(0, e.len() as int) =~= e);
    }
}

/// Un-escaping gives back the escaped text.
pub proof fn lemma_unescape_escaped(s: Seq<char>)
    ensures
        unescaped(escaped(s)) == s,
    decreases s.len(),
{
    if s.len() > 0 {
        let rest = s.drop_first();
        assert(s =~= seq![s[0]] + rest);
        lemma_escaped_concat(seq![s[0]], rest);
        assert(seq![s[0]].drop_last() =~= Seq::<char>::empty());
        assert(escaped(seq![s[0]]) =~= escaped(Seq::<char>::empty()) + escape_char(s[0]));
        lemma_unescape_step(s[0], escaped(rest));
        lemma_unescape_escaped(rest);
    }
}

/// Escapes XML special characters in a URL.
pub fn escape_xml(s: &str) -> (r: String)
    ensures
        r@ == escaped(s@),
{
    let mut out = String::new();
    for c in it: s.chars()
        invariant
            it.seq() == s@,
            out@ == escaped(s@.take(it.index() as int)),
    {
        let ghost i = it.index();
        assert(c == s@[i as int]);
        assert(s@.take(i + 1).drop_last() == s@.take(i as int));
        proof {
            reveal_strlit("&amp;");
            reveal_strlit("&lt;");
            reveal_strlit("&gt;");
            reveal_strlit("&quot;");
            reveal_strlit("&apos;");
            assert("&amp;"@ =~= escape_char('&'));
            assert("&lt;"@ =~= escape_char('<'));
            assert("&gt;"@ =~= escape_char('>'));
            assert("&quot;"@ =~= escape_char('"'));
            assert("&apos;"@ =~= escape_char('\''));
        }
        if c == '&' {
            out.append("&amp;");
        } else if c == '<' {
            out.append("&lt;");
        } else if c == '>' {
            out.append("&gt;");
        } else if c == '"' {
            out.append("&quot;");
        } else if c == '\'' {
            out.append("&apos;");
        } else {
            push_char(&mut out, c);
        }
    }
    assert(s@.take(s@.len() as int) == s@);
    out
}

/// The first two lines of every sitemap.
pub open spec fn sitemap_header() -> Seq<char> {
    "<?xml version=\"1.0\" encoding=\"UTF-8\"?>"@ + seq!['\n']
        + "<urlset xmlns=\"http://www.sitemaps.org/schemas/sitemap/0.9\">"@ + seq!['\n']
}

/// The `<url>` element of one page; `today` fills `<lastmod>` when the configuration asks for it.
pub open spec fn url_entry(url: Seq<char>, cfg: SitemapConfig, today: Seq<char>) -> Seq<char> {
    "  <url>\n"@
        + "    <loc>"@ + escaped(url) + "</loc>\n"@
        + (if cfg.include_lastmod { "    <lastmod>"@ + today + "</lastmod>\n"@ } else { seq![] })
        + "    <changefreq>"@ + change_freq_text(cfg.change_freq) + "</changefreq>\n"@
        + "    <priority>"@ + cfg.priority@ + "</priority>\n"@
        + "  </url>\n"@
}

/// The `<url>` elements of `urls`, in order.
pub open spec fn url_entries(urls: Seq<Seq<char>>, cfg: SitemapConfig, today: Seq<char>) -> Seq<char>
    decreases urls.len(),
{
    if urls.len() == 0 {
        seq![]
    } else {
        url_entries(urls.drop_last(), cfg, today) + url_entry(urls.last(), cfg, today)
    }
}

/// The whole sitemap document for `urls`.
pub open spec fn sitemap_xml(urls: Seq<Seq<char>>, cfg: SitemapConfig, today: Seq<char>) -> Seq<char> {
    sitemap_header() + url_entries(urls, cfg, today) + "</urlset>\n"@
}

/// Appends the `<url>` element of one page.
fn append_url_entry(xml: &mut String, url: &str, cfg: &SitemapConfig, freq: &str, today: &str)
    requires
        freq@ == change_freq_text(cfg.change_freq),
    ensures
        final(xml)@ == old(xml)@ + url_entry(url@, *cfg, today@),
{
    xml.append("  <url>\n");
    xml.append("    <loc>");
    let loc = escape_xml(url);
    xml.append(loc.as_str());
    xml.append("</loc>\n");
    let ghost mid = xml@;
    if cfg.include_lastmod {
        xml.append("    <lastmod>");
        xml.append(today);
        xml.append("</lastmod>\n");
    }
    assert(xml@ =~= mid + (if cfg.include_lastmod { "    <lastmod>"@ + today@ + "</lastmod>\n"@ } else { seq![] }));
    xml.append("    <changefreq>");
    xml.append(freq);
    xml.append("</changefreq>\n");
    xml.append("    <priority>");
    xml.append(cfg.priority.as_str());
    xml.append("</priority>\n");
    xml.append("  </url>\n");
    assert(xml@ =~= old(xml)@ + url_entry(url@, *cfg, today@));
}

/// Renders the sitemap for `urls`, writing `today` as the last-modified date.
pub fn render_sitemap(urls: &[String], cfg: &SitemapConfig, today: &str) -> (xml: String)
    ensures
        xml@ == sitemap_xml(urls.deep_view(), *cfg, today@),
{
    let mut xml = String::new();
    xml.append("<?xml version=\"1.0\" encoding=\"UTF-8\"?>");
    push_char(&mut xml, '\n');
    xml.append("<urlset xmlns=\"http://www.sitemaps.org/schemas/sitemap/0.9\">");
    push_char(&mut xml, '\n');
    let freq = cfg.change_freq.to_string();
    let ghost dv = urls.deep_view();
    assert(xml@ =~= sitemap_header() + url_entries(dv.take(0), *cfg, today@));
    for i in 0..urls.len()
        invariant
            dv == urls.deep_view(),
            freq@ == change_freq_text(cfg.change_freq),
            xml@ =~= sitemap_header() + url_entries(dv.take(i as int), *cfg, today@),
    {
        let ghost before = xml@;
        append_url_entry(&mut xml, urls[i].as_str(), cfg, freq.as_str(), today);
        assert(xml@ =~= before + url_entry(dv[i as int], *cfg, today@));
        assert(dv.take(i + 1).drop_last() =~= dv.take(i as int));
    }
    xml.append("</urlset>\n");
    assert(dv.take(urls.len() as int) =~= dv);
    xml
}

/// Without `<lastmod>` the sitemap does not depend on the date it is written on.
pub proof fn lemma_sitemap_ignores_date_without_lastmod(
    urls: Seq<Seq<char>>,
    cfg: SitemapConfig,
    today1: Seq<char>,
    today2: Seq<char>,
)
    requires
        !cfg.include_lastmod,
    ensures
        sitemap_xml(urls, cfg, today1) == sitemap_xml(urls, cfg, today2),
{
    lemma_entries_ignore_date_without_lastmod(urls, cfg, today1, today2);
}

proof fn lemma_entries_ignore_date_without_lastmod(
    urls: Seq<Seq<char>>,
    cfg: SitemapConfig,
    today1: Seq<char>,
    today2: Seq<char>,
)
    requires
        !cfg.include_lastmod,
    ensures
        url_entries(urls, cfg, today1) == url_entries(urls, cfg, today2),
    decreases urls.len(),
{
    if urls.len() > 0 {
        lemma_entries_ignore_date_without_lastmod(urls.drop_last(), cfg, today1, today2);
        assert(url_entry(urls.last(), cfg, today1) == url_entry(urls.last(), cfg, today2));
    }
}

/// Renders the sitemap XML for `urls`, dated today.
pub fn build_sitemap(urls: &[String], cfg: &SitemapConfig) -> (xml: String)
    ensures
        exists|reading: Option<u64>| xml@ == sitemap_xml(urls.deep_view(), *cfg, #[trigger] date_text_of_day(day_of_clock_reading(reading))),
        !cfg.include_lastmod ==> xml@ == sitemap_xml(urls.deep_view(), *cfg, Seq::empty()),
{
    let today = get_today();
    let xml = render_sitemap(urls, cfg, today.as_str());
    proof {
        if !cfg.include_lastmod {
            lemma_sitemap_ignores_date_without_lastmod(urls.deep_view(), *cfg, today@, Seq::empty());
        }
    }
    xml
}

/// Each URL is rendered on its own, whatever its place in the list: the entries of `a`
/// followed by `b` are the entries of `a` followed by the entries of `b`.
pub proof fn lemma_url_entries_concat(a: Seq<Seq<char>>, b: Seq<Seq<char>>, cfg: SitemapConfig, today: Seq<char>)
    ensures
        url_entries(a + b, cfg, today) == url_entries(a, cfg, today) + url_entries(b, cfg, today),
    decreases b.len(),
{
    if b.len() == 0 {
        assert(a + b =~= a);
        assert(url_entries(a, cfg, today) + url_entries(b, cfg, today) =~= url_entries(a, cfg, today));
    } else {
        lemma_url_entries_concat(a, b.drop_last(), cfg, today);
        assert((a + b).drop_last() =~= a + b.drop_last());
        assert((a + b).last() == b.last());
        assert(url_entries(a + b, cfg, today) =~= url_entries(a, cfg, today) + url_entries(b, cfg, today));
    }
}

/// `part` occurs in `s` at position `k`.
pub open spec fn occurs_at(s: Seq<char>, part: Seq<char>, k: int) -> bool {
    0 <= k && k + part.len() <= s.len() && s.subrange(k, k + part.len()) == part
}

proof fn lemma_occurs_extend(s: Seq<char>, part: Seq<char>, k: int, t: Seq<char>)
    requires
        occurs_at(s, part, k),
    ensures
        occurs_at(s + t, part, k),
{
    assert((s + t).subrange(k, k + part.len()) =~= s.subrange(k, k + part.len()));
}

proof fn lemma_occurs_tagged(a: Seq<char>, open: Seq<char>, body: Seq<char>, close: Seq<char>)
    ensures
        occurs_at(a + (seq![' ', ' ', ' ', ' '] + open) + body + (close + seq!['\n']),
            open + body + close, a.len() as int + 4),
{
    let s = a + (seq![' ', ' ', ' ', ' '] + open) + body + (close + seq!['\n']);
    let part = open + body + close;
    assert(s.subrange(a.len() + 4int, a.len() + 4int + part.len()) =~= part);
}

proof fn lemma_entry_lines(cfg: SitemapConfig)
    ensures
        "    <loc>"@ == seq![' ', ' ', ' ', ' '] + "<loc>"@,
        "</loc>\n"@ == "</loc>"@ + seq!['\n'],
        "    <lastmod>"@ == seq![' ', ' ', ' ', ' '] + "<lastmod>"@,
        "</lastmod>\n"@ == "</lastmod>"@ + seq!['\n'],
        "    <changefreq>"@ == seq![' ', ' ', ' ', ' '] + "<changefreq>"@,
        "</changefreq>\n"@ == "</changefreq>"@ + seq!['\n'],
        "    <priority>"@ == seq![' ', ' ', ' ', ' '] + "<priority>"@,
        "</priority>\n"@ == "</priority>"@ + seq!['\n'],
{
    reveal_strlit("    <loc>");
    reveal_strlit("</loc>\n");
    reveal_strlit("<loc>");
    reveal_strlit("</loc>");
    reveal_strlit("    <lastmod>");
    reveal_strlit("</lastmod>\n");
    reveal_strlit("<lastmod>");
    reveal_strlit("</lastmod>");
    reveal_strlit("    <changefreq>");
    reveal_strlit("</changefreq>\n");
    reveal_strlit("<changefreq>");
    reveal_strlit("</changefreq>");
    reveal_strlit("    <priority>");
    reveal_strlit("</priority>\n");
    reveal_strlit("<priority>");
    reveal_strlit("</priority>");
    assert("    <loc>"@ =~= seq![' ', ' ', ' ', ' '] + "<loc>"@);
    assert("</loc>\n"@ =~= "</loc>"@ + seq!['\n']);
    assert("    <lastmod>"@ =~= seq![' ', ' ', ' ', ' '] + "<lastmod>"@);
    assert("</lastmod>\n"@ =~= "</lastmod>"@ + seq!['\n']);
    assert("    <changefreq>"@ =~= seq![' ', ' ', ' ', ' '] + "<changefreq>"@);
    assert("</changefreq>\n"@ =~= "</changefreq>"@ + seq!['\n']);
    assert("    <priority>"@ =~= seq![' ', ' ', ' ', ' '] + "<priority>"@);
    assert("</priority>\n"@ =~= "</priority>"@ + seq!['\n']);
}

proof fn lemma_single_entry(url: Seq<char>, cfg: SitemapConfig, today: Seq<char>)
    ensures
        url_entries(seq![url], cfg, today) == url_entry(url, cfg, today),
{
    assert(seq![url].drop_last() =~= Seq::<Seq<char>>::empty());
    assert(url_entries(Seq::<Seq<char>>::empty(), cfg, today) + url_entry(url, cfg, today)
        =~= url_entry(url, cfg, today));
}

/// The entry of one URL holds its escaped location, its change frequency, its priority and,
/// when the configuration asks for it, today's date.
pub proof fn lemma_url_entry_fields(url: Seq<char>, cfg: SitemapConfig, today: Seq<char>)
    ensures
        occurs_at(url_entries(seq![url], cfg, today), "<loc>"@ + escaped(url) + "</loc>"@, 12),
        exists|k: int| occurs_at(url_entries(seq![url], cfg, today),
            "<changefreq>"@ + change_freq_text(cfg.change_freq) + "</changefreq>"@, k),
        exists|k: int| occurs_at(url_entries(seq![url], cfg, today), "<priority>"@ + cfg.priority@ + "</priority>"@, k),
        cfg.include_lastmod ==> exists|k: int| occurs_at(url_entries(seq![url], cfg, today),
            "<lastmod>"@ + today + "</lastmod>"@, k),
{
    reveal_strlit("  <url>\n");
    lemma_entry_lines(cfg);
    lemma_single_entry(url, cfg, today);
    let head = "  <url>\n"@;
    let a0 = head + "    <loc>"@ + escaped(url) + "</loc>\n"@;
    let lastmod: Seq<char> = if cfg.include_lastmod { "    <lastmod>"@ + today + "</lastmod>\n"@ } else { seq![] };
    let a1 = a0 + lastmod;
    let a2 = a1 + "    <changefreq>"@ + change_freq_text(cfg.change_freq) + "</changefreq>\n"@;
    let a3 = a2 + "    <priority>"@ + cfg.priority@ + "</priority>\n"@;
    let tail = "  </url>\n"@;
    assert(url_entry(url, cfg, today) == a3 + tail);
    // location
    lemma_occurs_tagged(head, "<loc>"@, escaped(url), "</loc>"@);
    lemma_occurs_extend(a0, "<loc>"@ + escaped(url) + "</loc>"@, 12, lastmod);
    lemma_occurs_extend(a1, "<loc>"@ + escaped(url) + "</loc>"@, 12,
        "    <changefreq>"@ + change_freq_text(cfg.change_freq) + "</changefreq>\n"@);
    assert(a2 == a1 + ("    <changefreq>"@ + change_freq_text(cfg.change_freq) + "</changefreq>\n"@));
    lemma_occurs_extend(a2, "<loc>"@ + escaped(url) + "</loc>"@, 12,
        "    <priority>"@ + cfg.priority@ + "</priority>\n"@);
    assert(a3 == a2 + ("    <priority>"@ + cfg.priority@ + "</priority>\n"@));
    lemma_occurs_extend(a3, "<loc>"@ + escaped(url) + "</loc>"@, 12, tail);
    // last modification date
    if cfg.include_lastmod {
        lemma_occurs_tagged(a0, "<lastmod>"@, today, "</lastmod>"@);
        let k = a0.len() as int + 4;
        let part = "<lastmod>"@ + today + "</lastmod>"@;
        assert(a1 =~= a0 + (seq![' ', ' ', ' ', ' '] + "<lastmod>"@) + today + ("</lastmod>"@ + seq!['\n']));
        lemma_occurs_extend(a1, part, k, "    <changefreq>"@ + change_freq_text(cfg.change_freq) + "</changefreq>\n"@);
        lemma_occurs_extend(a2, part, k, "    <priority>"@ + cfg.priority@ + "</priority>\n"@);
        lemma_occurs_extend(a3, part, k, tail);
    }
    // change frequency
    let fpart = "<changefreq>"@ + change_freq_text(cfg.change_freq) + "</changefreq>"@;
    lemma_occurs_tagged(a1, "<changefreq>"@, change_freq_text(cfg.change_freq), "</changefreq>"@);
    lemma_occurs_extend(a2, fpart, a1.len() as int + 4, "    <priority>"@ + cfg.priority@ + "</priority>\n"@);
    lemma_occurs_extend(a3, fpart, a1.len() as int + 4, tail);
    // priority
    let ppart = "<priority>"@ + cfg.priority@ + "</priority>"@;
    lemma_occurs_tagged(a2, "<priority>"@, cfg.priority@, "</priority>"@);
    lemma_occurs_extend(a3, ppart, a2.len() as int + 4, tail);
}

/// The `i`-th URL of the list gets the same entry it would get alone, between the entries of
/// the URLs before it and those after it.
pub proof fn lemma_each_url_has_its_entry(urls: Seq<Seq<char>>, i: int, cfg: SitemapConfig, today: Seq<char>)
    requires
        0 <= i < urls.len(),
    ensures
        url_entries(urls, cfg, today) == url_entries(urls.take(i), cfg, today)
            + url_entries(seq![urls[i]], cfg, today) + url_entries(urls.skip(i + 1), cfg, today),
{
    assert(urls =~= urls.take(i) + seq![urls[i]] + urls.skip(i + 1));
    lemma_url_entries_concat(urls.take(i) + seq![urls[i]], urls.skip(i + 1), cfg, today);
    lemma_url_entries_concat(urls.take(i), seq![urls[i]], cfg, today);
}

} // verus!
