//! The table of contents of a book and the page URLs it yields.

use vstd::prelude::*;
use crate::paths::{html_path, path_to_html};

verus! {

/// A chapter of the book, as mdBook describes it to its backends.
pub struct Chapter {
    pub name: String,
    /// Source file of the chapter, relative to the book's source directory (e.g. `chapter_1.md`);
    /// `None` for a chapter that has no file yet.
    pub path: Option<String>,
    /// Nested sub-chapters.
    pub sub_items: Vec<BookItem>,
    pub is_draft: bool,
}

/// An entry of the book's table of contents.
pub enum BookItem {
    Chapter(Chapter),
    Separator,
    PartTitle(String),
}

/// Whether chapter `ch` gets its own URL in the sitemap.
pub open spec fn is_listed(ch: Chapter, include_draft: bool) -> bool {
    (!ch.is_draft || include_draft) && ch.path is Some
}

/// The URLs of `item` and of its sub-chapters, in table-of-contents order.
pub open spec fn item_urls(item: BookItem, base: Seq<char>, include_draft: bool) -> Seq<Seq<char>>
    decreases item, 1int,
{
    match item {
        BookItem::Chapter(ch) => {
            let own: Seq<Seq<char>> = if is_listed(ch, include_draft) {
                seq![base + html_path(ch.path->0@)]
            } else {
                seq![]
            };
            own + items_urls(ch.sub_items@, base, include_draft)
        },
        _ => seq![],
    }
}

/// The URLs of `items` and of all their sub-chapters, in table-of-contents order.
pub open spec fn items_urls(items: Seq<BookItem>, base: Seq<char>, include_draft: bool) -> Seq<Seq<char>>
    decreases items, 0int,
{
    if items.len() == 0 {
        seq![]
    } else {
        items_urls(items.drop_last(), base, include_draft) + item_urls(items.last(), base, include_draft)
    }
}

/// Appends to `urls` the URL of every chapter of `items` (sub-chapters included) that has a
/// source file, skipping drafts unless `include_draft` is set.
pub fn collect_urls(items: &[BookItem], base_url: &str, include_draft: bool, urls: &mut Vec<String>)
    ensures
        final(urls).deep_view() == old(urls).deep_view() + items_urls(items@, base_url@, include_draft),
    decreases items@,
{
    let ghost start = urls.deep_view();
    for i in 0..items.len()
        invariant
            urls.deep_view() == start + items_urls(items@.take(i as int), base_url@, include_draft),
    {
        let ghost before = urls.deep_view();
        match &items[i] {
            BookItem::Chapter(ch) => {
                if !ch.is_draft || include_draft {
                    if let Some(path) = &ch.path {
                        let html = path_to_html(path.as_str());
                        let mut url = String::from_str(base_url);
                        url.append(html.as_str());
                        urls.push(url);
                    }
                }
                collect_urls(ch.sub_items.as_slice(), base_url, include_draft, urls);
            },
            _ => {},
        }
        assert(items@.take(i + 1).drop_last() =~= items@.take(i as int));
        assert(urls.deep_view() =~= before + item_urls(items@[i as int], base_url@, include_draft));
    }
    assert(items@.take(items@.len() as int) =~= items@);
}

/// Every URL collected from `item` begins with the base URL.
pub proof fn lemma_item_urls_start_with_base(item: BookItem, base: Seq<char>, include_draft: bool)
    ensures
        forall|i: int| 0 <= i < item_urls(item, base, include_draft).len()
            ==> base.is_prefix_of(#[trigger] item_urls(item, base, include_draft)[i]),
    decreases item, 1int,
{
    if let BookItem::Chapter(ch) = item {
        lemma_items_urls_start_with_base(ch.sub_items@, base, include_draft);
        let own: Seq<Seq<char>> = if is_listed(ch, include_draft) { seq![base + html_path(ch.path->0@)] } else { seq![] };
        let sub = items_urls(ch.sub_items@, base, include_draft);
        assert forall|i: int| 0 <= i < item_urls(item, base, include_draft).len()
            implies base.is_prefix_of(#[trigger] item_urls(item, base, include_draft)[i]) by {
            if i < own.len() {
                let u = base + html_path(ch.path->0@);
                assert(u.subrange(0, base.len() as int) =~= base);
            } else {
                assert(item_urls(item, base, include_draft)[i] == sub[i - own.len()]);
            }
        }
    }
}

/// Every URL collected from `items` begins with the base URL.
pub proof fn lemma_items_urls_start_with_base(items: Seq<BookItem>, base: Seq<char>, include_draft: bool)
    ensures
        forall|i: int| 0 <= i < items_urls(items, base, include_draft).len()
            ==> base.is_prefix_of(#[trigger] items_urls(items, base, include_draft)[i]),
    decreases items, 0int,
{
    if items.len() > 0 {
        lemma_items_urls_start_with_base(items.drop_last(), base, include_draft);
        lemma_item_urls_start_with_base(items.last(), base, include_draft);
        let init = items_urls(items.drop_last(), base, include_draft);
        let last = item_urls(items.last(), base, include_draft);
        assert forall|i: int| 0 <= i < items_urls(items, base, include_draft).len()
            implies base.is_prefix_of(#[trigger] items_urls(items, base, include_draft)[i]) by {
            if i < init.len() {
                assert(items_urls(items, base, include_draft)[i] == init[i]);
            } else {
                assert(items_urls(items, base, include_draft)[i] == last[i - init.len()]);
            }
        }
    }
}

/// Listing drafts only adds URLs: every URL collected without drafts is collected with them.
pub proof fn lemma_item_drafts_only_add(item: BookItem, base: Seq<char>, u: Seq<char>)
    requires
        item_urls(item, base, false).contains(u),
    ensures
        item_urls(item, base, true).contains(u),
    decreases item, 1int,
{
    if let BookItem::Chapter(ch) = item {
        let own_f: Seq<Seq<char>> = if is_listed(ch, false) { seq![base + html_path(ch.path->0@)] } else { seq![] };
        let own_t: Seq<Seq<char>> = if is_listed(ch, true) { seq![base + html_path(ch.path->0@)] } else { seq![] };
        let sub_f = items_urls(ch.sub_items@, base, false);
        let sub_t = items_urls(ch.sub_items@, base, true);
        let k = choose|k: int| 0 <= k < item_urls(item, base, false).len() && item_urls(item, base, false)[k] == u;
        if k < own_f.len() {
            assert(item_urls(item, base, true)[0] == u);
        } else {
            assert(sub_f[k - own_f.len()] == u);
            lemma_items_drafts_only_add(ch.sub_items@, base, u);
            let j = choose|j: int| 0 <= j < sub_t.len() && sub_t[j] == u;
            assert(item_urls(item, base, true)[own_t.len() + j] == u);
        }
    }
}

/// Listing drafts only adds URLs: every URL collected without drafts is collected with them.
pub proof fn lemma_items_drafts_only_add(items: Seq<BookItem>, base: Seq<char>, u: Seq<char>)
    requires
        items_urls(items, base, false).contains(u),
    ensures
        items_urls(items, base, true).contains(u),
    decreases items, 0int,
{
    if items.len() > 0 {
        let init_f = items_urls(items.drop_last(), base, false);
        let init_t = items_urls(items.drop_last(), base, true);
        let last_t = item_urls(items.last(), base, true);
        let k = choose|k: int| 0 <= k < items_urls(items, base, false).len() && items_urls(items, base, false)[k] == u;
        if k < init_f.len() {
            assert(init_f[k] == u);
            lemma_items_drafts_only_add(items.drop_last(), base, u);
            let j = choose|j: int| 0 <= j < init_t.len() && init_t[j] == u;
            assert(items_urls(items, base, true)[j] == u);
        } else {
            assert(item_urls(items.last(), base, false)[k - init_f.len()] == u);
            lemma_item_drafts_only_add(items.last(), base, u);
            let j = choose|j: int| 0 <= j < last_t.len() && last_t[j] == u;
            assert(items_urls(items, base, true)[init_t.len() + j] == u);
        }
    }
}

/// `idx` picks, in increasing order, positions of `b` that hold the elements of `a`.
pub open spec fn is_embedding<A>(idx: Seq<int>, a: Seq<A>, b: Seq<A>) -> bool {
    &&& idx.len() == a.len()
    &&& forall|i: int| 0 <= i < idx.len() ==> 0 <= #[trigger] idx[i] < b.len() && b[idx[i]] == a[i]
    &&& forall|i: int, j: int| 0 <= i < j < idx.len() ==> #[trigger] idx[i] < #[trigger] idx[j]
}

/// `a` is `b` with some elements left out (in the same order).
pub open spec fn is_subsequence<A>(a: Seq<A>, b: Seq<A>) -> bool {
    exists|idx: Seq<int>| is_embedding(idx, a, b)
}

proof fn lemma_embedding_identity<A>(a: Seq<A>) -> (idx: Seq<int>)
    ensures
        is_embedding(idx, a, a),
{
    Seq::new(a.len(), |i: int| i)
}

proof fn lemma_embedding_concat<A>(i1: Seq<int>, a1: Seq<A>, b1: Seq<A>, i2: Seq<int>, a2: Seq<A>, b2: Seq<A>) -> (idx: Seq<int>)
    requires
        is_embedding(i1, a1, b1),
        is_embedding(i2, a2, b2),
    ensures
        is_embedding(idx, a1 + a2, b1 + b2),
{
    let shifted = i2.map_values(|k: int| k + b1.len());
    let idx = i1 + shifted;
    assert forall|i: int| 0 <= i < idx.len() implies 0 <= #[trigger] idx[i] < (b1 + b2).len()
        && (b1 + b2)[idx[i]] == (a1 + a2)[i] by {
        if i < i1.len() {
            assert(idx[i] == i1[i]);
        } else {
            assert(idx[i] == i2[i - i1.len()] + b1.len());
        }
    }
    assert forall|i: int, j: int| 0 <= i < j < idx.len() implies #[trigger] idx[i] < #[trigger] idx[j] by {
        if j < i1.len() {
            assert(idx[i] == i1[i] && idx[j] == i1[j]);
        } else if i < i1.len() {
            assert(idx[i] == i1[i]);
            assert(idx[j] == i2[j - i1.len()] + b1.len());
        } else {
            assert(idx[i] == i2[i - i1.len()] + b1.len());
            assert(idx[j] == i2[j - i1.len()] + b1.len());
        }
    }
    idx
}

proof fn lemma_item_drafts_subsequence(item: BookItem, base: Seq<char>) -> (idx: Seq<int>)
    ensures
        is_embedding(idx, item_urls(item, base, false), item_urls(item, base, true)),
    decreases item, 1int,
{
    match item {
        BookItem::Chapter(ch) => {
            let own_f: Seq<Seq<char>> = if is_listed(ch, false) { seq![base + html_path(ch.path->0@)] } else { seq![] };
            let own_t: Seq<Seq<char>> = if is_listed(ch, true) { seq![base + html_path(ch.path->0@)] } else { seq![] };
            let own_idx: Seq<int> = if is_listed(ch, false) { seq![0int] } else { seq![] };
            assert(is_embedding(own_idx, own_f, own_t));
            let sub_idx = lemma_items_drafts_subsequence(ch.sub_items@, base);
            lemma_embedding_concat(own_idx, own_f, own_t, sub_idx,
                items_urls(ch.sub_items@, base, false), items_urls(ch.sub_items@, base, true))
        },
        _ => seq![],
    }
}

proof fn lemma_items_drafts_subsequence(items: Seq<BookItem>, base: Seq<char>) -> (idx: Seq<int>)
    ensures
        is_embedding(idx, items_urls(items, base, false), items_urls(items, base, true)),
    decreases items, 0int,
{
    if items.len() == 0 {
        seq![]
    } else {
        let i1 = lemma_items_drafts_subsequence(items.drop_last(), base);
        let i2 = lemma_item_drafts_subsequence(items.last(), base);
        lemma_embedding_concat(i1, items_urls(items.drop_last(), base, false),
            items_urls(items.drop_last(), base, true), i2,
            item_urls(items.last(), base, false), item_urls(items.last(), base, true))
    }
}

/// Listing drafts only adds URLs: what `collect_urls` appends without drafts, it also appends,
/// in the same order, with drafts (to the same starting list).
pub proof fn lemma_drafts_only_add_in_order(items: Seq<BookItem>, base: Seq<char>, start: Seq<Seq<char>>)
    ensures
        is_subsequence(start + items_urls(items, base, false), start + items_urls(items, base, true)),
{
    let i0 = lemma_embedding_identity(start);
    let i1 = lemma_items_drafts_subsequence(items, base);
    let idx = lemma_embedding_concat(i0, start, start, i1, items_urls(items, base, false),
        items_urls(items, base, true));
    assert(is_embedding(idx, start + items_urls(items, base, false), start + items_urls(items, base, true)));
}

/// No chapter of `item`, at any depth, is a draft.
pub open spec fn item_has_no_drafts(item: BookItem) -> bool
    decreases item, 1int,
{
    match item {
        BookItem::Chapter(ch) => !ch.is_draft && items_have_no_drafts(ch.sub_items@),
        _ => true,
    }
}

/// No chapter of `items`, at any depth, is a draft.
pub open spec fn items_have_no_drafts(items: Seq<BookItem>) -> bool
    decreases items, 0int,
{
    if items.len() == 0 {
        true
    } else {
        items_have_no_drafts(items.drop_last()) && item_has_no_drafts(items.last())
    }
}

/// Without drafts in the book, listing drafts changes nothing.
pub proof fn lemma_item_no_drafts_same_urls(item: BookItem, base: Seq<char>)
    requires
        item_has_no_drafts(item),
    ensures
        item_urls(item, base, false) == item_urls(item, base, true),
    decreases item, 1int,
{
    if let BookItem::Chapter(ch) = item {
        lemma_items_no_drafts_same_urls(ch.sub_items@, base);
    }
}

/// Without drafts in the book, listing drafts changes nothing.
pub proof fn lemma_items_no_drafts_same_urls(items: Seq<BookItem>, base: Seq<char>)
    requires
        items_have_no_drafts(items),
    ensures
        items_urls(items, base, false) == items_urls(items, base, true),
    decreases items, 0int,
{
    if items.len() > 0 {
        lemma_items_no_drafts_same_urls(items.drop_last(), base);
        lemma_item_no_drafts_same_urls(items.last(), base);
    }
}

/// A chapter contributes its own URL (when it is listed) followed by all the URLs of its
/// sub-chapters, whether or not the chapter itself is a draft or has a source file.
pub proof fn lemma_chapter_urls(ch: Chapter, base: Seq<char>, include_draft: bool)
    ensures
        ({
            let all = item_urls(BookItem::Chapter(ch), base, include_draft);
            let sub = items_urls(ch.sub_items@, base, include_draft);
            &&& all.len() == sub.len() + if (!ch.is_draft || include_draft) && ch.path is Some { 1int } else { 0int }
            &&& all.subrange(all.len() - sub.len(), all.len() as int) == sub
            &&& ((!ch.is_draft || include_draft) && ch.path is Some ==> all[0] == base + html_path(ch.path->0@))
        }),
{
    let all = item_urls(BookItem::Chapter(ch), base, include_draft);
    let sub = items_urls(ch.sub_items@, base, include_draft);
    assert(all.subrange(all.len() - sub.len(), all.len() as int) =~= sub);
}

/// Separators and part titles contribute no URL.
pub proof fn lemma_non_chapter_urls(title: String, base: Seq<char>, include_draft: bool)
    ensures
        item_urls(BookItem::Separator, base, include_draft).len() == 0,
        item_urls(BookItem::PartTitle(title), base, include_draft).len() == 0,
{
}

/// The URLs of a list of items are those of each item in turn: collecting from `a` followed by
/// `b` gives the URLs of `a` followed by those of `b`.
pub proof fn lemma_items_urls_concat(a: Seq<BookItem>, b: Seq<BookItem>, base: Seq<char>, include_draft: bool)
    ensures
        items_urls(a + b, base, include_draft) == items_urls(a, base, include_draft) + items_urls(b, base, include_draft),
    decreases b.len(),
{
    if b.len() == 0 {
        assert(a + b =~= a);
        assert(items_urls(a, base, include_draft) + items_urls(b, base, include_draft) =~= items_urls(a, base, include_draft));
    } else {
        lemma_items_urls_concat(a, b.drop_last(), base, include_draft);
        assert((a + b).drop_last() =~= a + b.drop_last());
        assert((a + b).last() == b.last());
        assert(items_urls(a + b, base, include_draft) =~= items_urls(a, base, include_draft) + items_urls(b, base, include_draft));
    }
}

} // verus!
