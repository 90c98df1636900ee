//! Source paths of chapters and the pages mdBook renders for them.

use vstd::prelude::*;
use crate::text::string_of_range;

verus! {

/// `p` with every backslash turned into a forward slash.
pub open spec fn with_forward_slashes(p: Seq<char>) -> Seq<char> {
    p.map_values(|c: char| if c == '\\' { '/' } else { c })
}

/// `s` ends with `suffix`.
pub open spec fn ends_with(s: Seq<char>, suffix: Seq<char>) -> bool {
    suffix.len() <= s.len() && s.subrange(s.len() - suffix.len(), s.len() as int) == suffix
}

/// The page that mdBook renders for the source file `p`: `README.md` becomes `index.html`,
/// any other `.md` file its `.html` twin, and other paths stay as they are (with forward slashes).
pub open spec fn html_path(p: Seq<char>) -> Seq<char> {
    let n = with_forward_slashes(p);
    if ends_with(n, "/README.md"@) || n == "README.md"@ {
        n.subrange(0, n.len() - 9) + "index.html"@
    } else if ends_with(n, ".md"@) {
        n.subrange(0, n.len() - 3) + ".html"@
    } else {
        n
    }
}

/// The characters of `p`, with backslashes turned into forward slashes.
fn forward_slash_chars(p: &str) -> (r: Vec<char>)
    ensures
        r@ == with_forward_slashes(p@),
{
    let mut out: Vec<char> = Vec::new();
    for c in it: p.chars()
        invariant
            it.seq() == p@,
            out@ == with_forward_slashes(p@.take(it.index() as int)),
    {
        let ghost i = it.index();
        assert(c == p@[i as int]);
        if c == '\\' {
            out.push('/');
        } else {
            out.push(c);
        }
        assert(out@ =~= with_forward_slashes(p@.take(i + 1)));
    }
    assert(p@.take(p@.len() as int) == p@);
    out
}

/// Whether the characters `v` end with `suffix`.
fn chars_end_with(v: &Vec<char>, suffix: &str) -> (r: bool)
    ensures
        r == ends_with(v@, suffix@),
{
    let n = suffix.unicode_len();
    if n > v.len() {
        return false;
    }
    let start = v.len() - n;
    for i in 0..n
        invariant
            n == suffix@.len(),
            start + n == v.len(),
            forall|j: int| 0 <= j < i ==> v@[start + j] == suffix@[j],
    {
        if v[start + i] != suffix.get_char(i) {
            assert(v@.subrange(start as int, v@.len() as int)[i as int] != suffix@[i as int]);
            return false;
        }
    }
    assert(v@.subrange(start as int, v@.len() as int) =~= suffix@);
    true
}

/// The first `n` characters of `v` as a string, followed by `tail`.
fn prefix_then(v: &Vec<char>, n: usize, tail: &str) -> (r: String)
    requires
        n <= v@.len(),
    ensures
        r@ == v@.subrange(0, n as int) + tail@,
{
    let mut out = string_of_range(v, 0, n);
    out.append(tail);
    out
}

/// Converts a `.md` source path to the `.html` path that mdBook writes for it,
/// e.g. `chapter_1.md` to `chapter_1.html` and `sub/README.md` to `sub/index.html`.
pub fn path_to_html(path: &str) -> (r: String)
    ensures
        r@ == html_path(path@),
{
    let normalized = forward_slash_chars(path);
    proof {
        reveal_strlit("README.md");
        reveal_strlit("/README.md");
        reveal_strlit(".md");
    }
    let is_readme = chars_end_with(&normalized, "/README.md")
        || (normalized.len() == 9 && chars_end_with(&normalized, "README.md"));
    proof {
        if normalized@.len() == 9 && ends_with(normalized@, "README.md"@) {
            assert(normalized@.subrange(0, 9) =~= normalized@);
        }
        if normalized@ == "README.md"@ {
            assert(normalized@.subrange(0, 9) =~= normalized@);
        }
    }
    if is_readme {
        prefix_then(&normalized, normalized.len() - 9, "index.html")
    } else if chars_end_with(&normalized, ".md") {
        prefix_then(&normalized, normalized.len() - 3, ".html")
    } else {
        let r = string_of_range(&normalized, 0, normalized.len());
        assert(r@ =~= normalized@);
        r
    }
}

/// The page path of a source path holds no backslash.
pub proof fn lemma_html_path_has_no_backslash(p: Seq<char>)
    ensures
        !html_path(p).contains('\\'),
{
    reveal_strlit("index.html");
    reveal_strlit(".html");
    reveal_strlit(".md");
    reveal_strlit("README.md");
    reveal_strlit("/README.md");
    let n = with_forward_slashes(p);
    let r = html_path(p);
    if r.contains('\\') {
        let k = choose|k: int| 0 <= k < r.len() && r[k] == '\\';
        if ends_with(n, "/README.md"@) || n == "README.md"@ {
            if k < n.len() - 9 {
                assert(r[k] == n[k]);
            } else {
                assert(r[k] == "index.html"@[k - (n.len() - 9)]);
            }
        } else if ends_with(n, ".md"@) {
            if k < n.len() - 3 {
                assert(r[k] == n[k]);
            } else {
                assert(r[k] == ".html"@[k - (n.len() - 3)]);
            }
        } else {
            assert(r[k] == n[k]);
        }
    }
}

/// A Markdown source (`.md`) always maps to an HTML page (`.html`).
pub proof fn lemma_markdown_becomes_html(p: Seq<char>)
    requires
        ends_with(p, ".md"@),
    ensures
        ends_with(html_path(p), ".html"@),
{
    reveal_strlit(".md");
    reveal_strlit(".html");
    reveal_strlit("index.html");
    reveal_strlit("README.md");
    reveal_strlit("/README.md");
    let n = with_forward_slashes(p);
    let r = html_path(p);
    assert(n.len() == p.len());
    assert(ends_with(n, ".md"@)) by {
        assert(n.subrange(n.len() - 3, n.len() as int) =~= ".md"@);
    }
    if ends_with(n, "/README.md"@) || n == "README.md"@ {
        assert(r.subrange(r.len() - 5, r.len() as int) =~= ".html"@);
    } else {
        assert(r.subrange(r.len() - 5, r.len() as int) =~= ".html"@);
    }
}

/// Converting a page path again leaves it as it is.
pub proof fn lemma_html_path_idempotent(p: Seq<char>)
    ensures
        html_path(html_path(p)) == html_path(p),
{
    reveal_strlit("index.html");
    reveal_strlit(".html");
    reveal_strlit(".md");
    reveal_strlit("README.md");
    reveal_strlit("/README.md");
    let r = html_path(p);
    lemma_html_path_has_no_backslash(p);
    assert(with_forward_slashes(r) =~= r) by {
        assert forall|k: int| 0 <= k < r.len() implies r[k] != '\\' by {
            if r[k] == '\\' {
                assert(r.contains('\\'));
            }
        }
    }
    let n = with_forward_slashes(p);
    if ends_with(n, "/README.md"@) || n == "README.md"@ || ends_with(n, ".md"@) {
        assert(r[r.len() - 1] == 'l');
        assert(!ends_with(r, ".md"@)) by {
            if ends_with(r, ".md"@) {
                assert(r.subrange(r.len() - 3, r.len() as int)[2] == 'd');
            }
        }
        assert(!ends_with(r, "/README.md"@)) by {
            if ends_with(r, "/README.md"@) {
                assert(r.subrange(r.len() - 10, r.len() as int)[9] == 'd');
            }
        }
        assert(r != "README.md"@) by {
            if r == "README.md"@ {
                assert(r[8] == 'd');
            }
        }
    }
}

proof fn lemma_forward_slashes_concat(a: Seq<char>, b: Seq<char>)
    ensures
        with_forward_slashes(a + b) == with_forward_slashes(a) + with_forward_slashes(b),
{
    assert(with_forward_slashes(a + b) =~= with_forward_slashes(a) + with_forward_slashes(b));
}

/// A `README.md` in any directory, however deep, becomes that directory's `index.html`.
pub proof fn lemma_readme_in_any_directory(dir: Seq<char>)
    ensures
        html_path(dir + "/README.md"@) == with_forward_slashes(dir) + "/index.html"@,
{
    reveal_strlit("/README.md");
    reveal_strlit("README.md");
    reveal_strlit("index.html");
    reveal_strlit("/index.html");
    lemma_forward_slashes_concat(dir, "/README.md"@);
    assert(with_forward_slashes("/README.md"@) =~= "/README.md"@);
    let n = with_forward_slashes(dir + "/README.md"@);
    let w = with_forward_slashes(dir);
    assert(n.subrange(n.len() - 10, n.len() as int) =~= "/README.md"@);
    assert(n.subrange(0, n.len() - 9) =~= w.push('/'));
    assert(w.push('/') + "index.html"@ =~= w + "/index.html"@);
}

/// A directory without backslashes keeps its name: `dir/README.md` becomes `dir/index.html`.
pub proof fn lemma_readme_page(dir: Seq<char>)
    requires
        !dir.contains('\\'),
    ensures
        html_path(dir + "/README.md"@) == dir + "/index.html"@,
{
    lemma_readme_in_any_directory(dir);
    assert(with_forward_slashes(dir) =~= dir) by {
        assert forall|i: int| 0 <= i < dir.len() implies dir[i] != '\\' by {
            if dir[i] == '\\' {
                assert(dir.contains('\\'));
            }
        }
    }
}

/// The book's top-level `README.md` becomes `index.html`.
pub proof fn lemma_root_readme_page()
    ensures
        html_path("README.md"@) == "index.html"@,
{
    reveal_strlit("README.md");
    reveal_strlit("index.html");
    assert(with_forward_slashes("README.md"@) =~= "README.md"@);
    let n = "README.md"@;
    assert(n.subrange(0, n.len() - 9) =~= Seq::<char>::empty());
    assert(Seq::<char>::empty() + "index.html"@ =~= "index.html"@);
}

/// Any other Markdown source `stem.md` becomes `stem.html` (with forward slashes).
pub proof fn lemma_markdown_page(stem: Seq<char>)
    requires
        !ends_with(with_forward_slashes(stem + ".md"@), "/README.md"@),
        with_forward_slashes(stem + ".md"@) != "README.md"@,
    ensures
        html_path(stem + ".md"@) == with_forward_slashes(stem) + ".html"@,
{
    reveal_strlit(".md");
    lemma_forward_slashes_concat(stem, ".md"@);
    assert(with_forward_slashes(".md"@) =~= ".md"@);
    let n = with_forward_slashes(stem + ".md"@);
    assert(n.subrange(n.len() - 3, n.len() as int) =~= ".md"@);
    assert(n.subrange(0, n.len() - 3) =~= with_forward_slashes(stem));
}

/// A path that is no Markdown source keeps its text (with forward slashes).
pub proof fn lemma_other_path_kept(p: Seq<char>)
    requires
        !ends_with(with_forward_slashes(p), ".md"@),
    ensures
        html_path(p) == with_forward_slashes(p),
{
    reveal_strlit(".md");
    reveal_strlit("/README.md");
    reveal_strlit("README.md");
    let n = with_forward_slashes(p);
    if ends_with(n, "/README.md"@) {
        assert(n.subrange(n.len() - 3, n.len() as int) =~= ".md"@) by {
            assert forall|k: int| 0 <= k < 3 implies n.subrange(n.len() - 3, n.len() as int)[k] == ".md"@[k] by {
                assert(n.subrange(n.len() - 10, n.len() as int)[7 + k] == n[n.len() - 3 + k]);
            }
        }
    }
    if n == "README.md"@ {
        assert(n.subrange(n.len() - 3, n.len() as int) =~= ".md"@);
    }
}

} // verus!
