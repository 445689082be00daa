//! Ordering of page sequences: pages whose url ends in `/index.html`
//! come first, the rest follow by title, and the same ordering is applied
//! to every level of children.

use vstd::prelude::*;
use vstd::multiset::Multiset;
use vstd::string::StrSliceExecFns;

use crate::meta::{page_paths, page_tree_distinct, page_view, pages_tree_distinct,
    seq_page_paths, lemma_seq_page_paths_member, lemma_views_of_pages, page_wf, pages_wf,
    views_of_pages, PageMeta, PageMetaView};
use crate::paths::LogicalPathView;
use crate::text::{lemma_lex_le_total, lemma_lex_le_trans, lex_le, str_eq, str_lex_le};

verus! {

broadcast use vstd::seq::group_seq_axioms, vstd::std_specs::vec::group_vec_axioms,
    vstd::seq_lib::group_to_multiset_ensures;

/// Whether a url names a directory's `index` page.
pub open spec fn ends_index_html(u: Seq<char>) -> bool {
    u.len() >= "/index.html"@.len() && u.skip(u.len() - "/index.html"@.len()) == "/index.html"@
}

/// Decides whether a url ends in `/index.html`.
pub fn url_ends_index(u: &str) -> (r: bool)
    ensures
        r == ends_index_html(u@),
{
    let pat = "/index.html";
    let plen = pat.unicode_len();
    let ulen = u.unicode_len();
    if ulen < plen {
        return false;
    }
    let tail = u.substring_char(ulen - plen, ulen);
    let r = str_eq(tail, pat);
    proof {
        assert(tail@ =~= u@.skip(u@.len() - pat@.len()));
    }
    r
}

/// The sort order: `index` pages first, the rest by title.
pub open spec fn le_meta(a: PageMetaView, b: PageMetaView) -> bool {
    if ends_index_html(a.url) {
        true
    } else if ends_index_html(b.url) {
        false
    } else {
        lex_le(a.title, b.title)
    }
}

pub proof fn lemma_le_meta_total(a: PageMetaView, b: PageMetaView)
    ensures
        le_meta(a, b) || le_meta(b, a),
{
    lemma_lex_le_total(a.title, b.title);
}

pub proof fn lemma_le_meta_trans(a: PageMetaView, b: PageMetaView, c: PageMetaView)
    requires
        le_meta(a, b),
        le_meta(b, c),
    ensures
        le_meta(a, c),
{
    if !ends_index_html(a.url) && !ends_index_html(b.url) && !ends_index_html(c.url) {
        lemma_lex_le_trans(a.title, b.title, c.title);
    }
}

/// Decides the sort order of two pages.
pub fn le_meta_exec(a: &PageMeta, b: &PageMeta) -> (r: bool)
    ensures
        r == le_meta(a@, b@),
{
    if url_ends_index(a.url.as_str()) {
        true
    } else if url_ends_index(b.url.as_str()) {
        false
    } else {
        str_lex_le(a.title.as_str(), b.title.as_str())
    }
}

/// Stable insertion of a page into a sorted sequence: after every page
/// that does not come strictly after it.
pub open spec fn spec_insert(s: Seq<PageMetaView>, x: PageMetaView) -> Seq<PageMetaView>
    decreases s.len(),
{
    if s.len() == 0 {
        seq![x]
    } else if le_meta(s[0], x) {
        seq![s[0]] + spec_insert(s.drop_first(), x)
    } else {
        seq![x] + s
    }
}

/// One level sorted by insertion, stably.
pub open spec fn spec_sort_level(s: Seq<PageMetaView>) -> Seq<PageMetaView>
    decreases s.len(),
{
    if s.len() == 0 {
        s
    } else {
        spec_insert(spec_sort_level(s.drop_last()), s.last())
    }
}

/// A page with its descendants sorted at every level.
pub open spec fn spec_sort_page(p: PageMetaView) -> PageMetaView
    decreases p, 0int,
{
    PageMetaView { children: spec_sort_pages(p.children), ..p }
}

/// Each page's descendants sorted, order of the sequence kept.
pub open spec fn map_sorted(s: Seq<PageMetaView>) -> Seq<PageMetaView>
    decreases s, 0int,
{
    if s.len() == 0 {
        Seq::empty()
    } else {
        map_sorted(s.drop_last()).push(spec_sort_page(s.last()))
    }
}

/// The whole ordering pass: every page's descendants sorted, then the
/// level itself.
pub open spec fn spec_sort_pages(s: Seq<PageMetaView>) -> Seq<PageMetaView>
    decreases s, 1int,
{
    spec_sort_level(map_sorted(s))
}

/// Sorted at one level.
pub open spec fn level_sorted(s: Seq<PageMetaView>) -> bool {
    forall|i: int, j: int| 0 <= i < j < s.len() ==> le_meta(s[i], s[j])
}

/// Sorted at every level.
pub open spec fn deep_sorted(s: Seq<PageMetaView>) -> bool
    decreases s,
{
    level_sorted(s) && forall|i: int| 0 <= i < s.len() ==> deep_sorted(#[trigger] s[i].children)
}

pub proof fn lemma_map_sorted_index(s: Seq<PageMetaView>)
    ensures
        map_sorted(s).len() == s.len(),
        forall|i: int| 0 <= i < s.len() ==> map_sorted(s)[i] == spec_sort_page(#[trigger] s[i]),
    decreases s.len(),
{
    if s.len() > 0 {
        lemma_map_sorted_index(s.drop_last());
        assert forall|i: int| 0 <= i < s.len() implies map_sorted(s)[i] == spec_sort_page(
            #[trigger] s[i],
        ) by {
            if i < s.len() - 1 {
                assert(s.drop_last()[i] == s[i]);
                assert(map_sorted(s)[i] == map_sorted(s.drop_last())[i]);
            }
        }
    }
}

/// Where the insertion lands: after the longest run of pages not after it.
pub proof fn lemma_spec_insert_at(s: Seq<PageMetaView>, x: PageMetaView, pos: int)
    requires
        0 <= pos <= s.len(),
        forall|j: int| 0 <= j < pos ==> le_meta(#[trigger] s[j], x),
        pos < s.len() ==> !le_meta(s[pos], x),
    ensures
        spec_insert(s, x) == s.take(pos) + seq![x] + s.skip(pos),
    decreases pos,
{
    if pos == 0 {
        if s.len() == 0 {
            assert(spec_insert(s, x) =~= s.take(0) + seq![x] + s.skip(0));
        } else {
            assert(!le_meta(s[0], x));
            assert(spec_insert(s, x) =~= s.take(0) + seq![x] + s.skip(0));
        }
    } else {
        assert(le_meta(s[0], x));
        assert forall|j: int| 0 <= j < pos - 1 implies le_meta(#[trigger] s.drop_first()[j], x) by {
            assert(s.drop_first()[j] == s[j + 1]);
        }
        if pos - 1 < s.drop_first().len() {
            assert(s.drop_first()[pos - 1] == s[pos]);
        }
        lemma_spec_insert_at(s.drop_first(), x, pos - 1);
        assert(s.drop_first().take(pos - 1) =~= s.take(pos).drop_first());
        assert(s.drop_first().skip(pos - 1) =~= s.skip(pos));
        assert(spec_insert(s, x) =~= s.take(pos) + seq![x] + s.skip(pos));
    }
}

pub proof fn lemma_spec_insert_multiset(s: Seq<PageMetaView>, x: PageMetaView)
    ensures
        spec_insert(s, x).to_multiset() == s.to_multiset().insert(x),
    decreases s.len(),
{
    if s.len() == 0 {
        assert(spec_insert(s, x) =~= Seq::<PageMetaView>::empty().push(x));
        assert(s.to_multiset() =~= Multiset::<PageMetaView>::empty());
    } else if le_meta(s[0], x) {
        lemma_spec_insert_multiset(s.drop_first(), x);
        assert(spec_insert(s, x) =~= spec_insert(s.drop_first(), x).insert(0, s[0]));
        lemma_multiset_insert_front(spec_insert(s.drop_first(), x), s[0]);
        lemma_multiset_insert_front(s.drop_first(), s[0]);
        assert(s.drop_first().insert(0, s[0]) =~= s);
        assert(spec_insert(s, x).to_multiset() =~= s.to_multiset().insert(x));
    } else {
        assert(spec_insert(s, x) =~= s.insert(0, x));
        lemma_multiset_insert_front(s, x);
    }
}

/// Inserting at the front adds one occurrence, like pushing at the back.
proof fn lemma_multiset_insert_front(s: Seq<PageMetaView>, x: PageMetaView)
    ensures
        s.insert(0, x).to_multiset() == s.to_multiset().insert(x),
    decreases s.len(),
{
    let t = s.insert(0, x);
    assert(t =~= seq![x] + s);
    lemma_prepend_multiset(x, s);
}

proof fn lemma_prepend_multiset(x: PageMetaView, s: Seq<PageMetaView>)
    ensures
        (seq![x] + s).to_multiset() == s.to_multiset().insert(x),
    decreases s.len(),
{
    if s.len() == 0 {
        assert(seq![x] + s =~= Seq::<PageMetaView>::empty().push(x));
        assert((seq![x] + s).to_multiset() =~= s.to_multiset().insert(x));
    } else {
        lemma_prepend_multiset(x, s.drop_last());
        assert(seq![x] + s =~= (seq![x] + s.drop_last()).push(s.last()));
        assert(s =~= s.drop_last().push(s.last()));
        assert((seq![x] + s).to_multiset() =~= s.to_multiset().insert(x)) by {
            assert((seq![x] + s.drop_last()).push(s.last()).to_multiset()
                =~= (seq![x] + s.drop_last()).to_multiset().insert(s.last()));
            assert(s.drop_last().push(s.last()).to_multiset() =~= s.drop_last().to_multiset().insert(
                s.last(),
            ));
            assert(s.drop_last().to_multiset().insert(x).insert(s.last())
                =~= s.drop_last().to_multiset().insert(s.last()).insert(x));
        }
    }
}

pub proof fn lemma_spec_sort_level_multiset(s: Seq<PageMetaView>)
    ensures
        spec_sort_level(s).to_multiset() == s.to_multiset(),
    decreases s.len(),
{
    if s.len() > 0 {
        lemma_spec_sort_level_multiset(s.drop_last());
        lemma_spec_insert_multiset(spec_sort_level(s.drop_last()), s.last());
        assert(s =~= s.drop_last().push(s.last()));
        assert(s.drop_last().push(s.last()).to_multiset() =~= s.drop_last().to_multiset().insert(
            s.last(),
        ));
    }
}

/// A level sort holds exactly the pages it was given.
pub proof fn lemma_spec_sort_level_contains(s: Seq<PageMetaView>, p: PageMetaView)
    ensures
        spec_sort_level(s).contains(p) == s.contains(p),
{
    lemma_spec_sort_level_multiset(s);
    assert(spec_sort_level(s).contains(p) <==> spec_sort_level(s).to_multiset().count(p) > 0);
    assert(s.contains(p) <==> s.to_multiset().count(p) > 0);
}

pub proof fn lemma_spec_insert_sorted(s: Seq<PageMetaView>, x: PageMetaView)
    requires
        level_sorted(s),
    ensures
        level_sorted(spec_insert(s, x)),
    decreases s.len(),
{
    if s.len() == 0 {
    } else if le_meta(s[0], x) {
        assert(level_sorted(s.drop_first())) by {
            assert forall|i: int, j: int|
                0 <= i < j < s.drop_first().len() implies le_meta(
                #[trigger] s.drop_first()[i],
                #[trigger] s.drop_first()[j],
            ) by {
                assert(s.drop_first()[i] == s[i + 1]);
                assert(s.drop_first()[j] == s[j + 1]);
            }
        }
        lemma_spec_insert_sorted(s.drop_first(), x);
        let t = seq![s[0]] + spec_insert(s.drop_first(), x);
        lemma_spec_insert_multiset(s.drop_first(), x);
        assert forall|i: int, j: int| 0 <= i < j < t.len() implies le_meta(
            #[trigger] t[i],
            #[trigger] t[j],
        ) by {
            if i == 0 {
                let u = spec_insert(s.drop_first(), x);
                assert(u.contains(u[j - 1]));
                assert(u.to_multiset().count(u[j - 1]) > 0);
                if u[j - 1] == x {
                    assert(le_meta(s[0], x));
                } else {
                    assert(s.drop_first().to_multiset().insert(x).count(u[j - 1]) > 0);
                    assert(s.drop_first().to_multiset().count(u[j - 1]) > 0);
                    assert(s.drop_first().contains(u[j - 1]));
                    let w = choose|w: int|
                        0 <= w < s.drop_first().len() && s.drop_first()[w] == u[j - 1];
                    assert(s.drop_first()[w] == s[w + 1]);
                    assert(le_meta(s[0], s[w + 1]));
                }
            } else {
                assert(spec_insert(s.drop_first(), x)[i - 1] == t[i]);
                assert(spec_insert(s.drop_first(), x)[j - 1] == t[j]);
            }
        }
    } else {
        lemma_le_meta_total(s[0], x);
        assert(le_meta(x, s[0]));
        let t = seq![x] + s;
        assert forall|i: int, j: int| 0 <= i < j < t.len() implies le_meta(
            #[trigger] t[i],
            #[trigger] t[j],
        ) by {
            if i == 0 {
                assert(t[j] == s[j - 1]);
                if j == 1 {
                    lemma_le_meta_total(s[0], s[0]);
                }
                lemma_le_meta_trans(x, s[0], s[j - 1]);
            } else {
                assert(t[i] == s[i - 1]);
                assert(t[j] == s[j - 1]);
            }
        }
    }
}

pub proof fn lemma_spec_sort_level_sorted(s: Seq<PageMetaView>)
    ensures
        level_sorted(spec_sort_level(s)),
    decreases s.len(),
{
    if s.len() > 0 {
        lemma_spec_sort_level_sorted(s.drop_last());
        lemma_spec_insert_sorted(spec_sort_level(s.drop_last()), s.last());
    }
}

/// Sorting a sequence that is already sorted at its own level keeps it.
pub proof fn lemma_spec_sort_level_id(s: Seq<PageMetaView>)
    requires
        level_sorted(s),
    ensures
        spec_sort_level(s) == s,
    decreases s.len(),
{
    if s.len() > 0 {
        assert(level_sorted(s.drop_last()));
        lemma_spec_sort_level_id(s.drop_last());
        assert forall|j: int| 0 <= j < s.drop_last().len() implies le_meta(
            #[trigger] s.drop_last()[j],
            s.last(),
        ) by {
            assert(s.drop_last()[j] == s[j]);
        }
        lemma_spec_insert_at(s.drop_last(), s.last(), s.drop_last().len() as int);
        assert(s.drop_last().take(s.drop_last().len() as int) =~= s.drop_last());
        assert(s.drop_last().skip(s.drop_last().len() as int) =~= Seq::<PageMetaView>::empty());
        assert(spec_sort_level(s) =~= s);
    }
}

/// Law: sorting is idempotent — sorting a sequence that is sorted at
/// every level returns it unchanged.
pub proof fn lemma_sort_pages_id(s: Seq<PageMetaView>)
    requires
        deep_sorted(s),
    ensures
        spec_sort_pages(s) == s,
    decreases s,
{
    lemma_map_sorted_index(s);
    assert forall|i: int| 0 <= i < s.len() implies map_sorted(s)[i] == s[i] by {
        assert(deep_sorted(s[i].children));
        lemma_sort_page_id(s[i]);
    }
    assert(map_sorted(s) =~= s);
    lemma_spec_sort_level_id(s);
}

/// A page whose descendants are sorted at every level is unchanged.
pub proof fn lemma_sort_page_id(p: PageMetaView)
    requires
        deep_sorted(p.children),
    ensures
        spec_sort_page(p) == p,
    decreases p,
{
    lemma_sort_pages_id(p.children);
    assert(spec_sort_page(p) =~= p);
}

/// Law: among sorted pages, every page whose url ends in `/index.html`
/// precedes every page whose url does not, regardless of titles.
pub proof fn lemma_index_pages_first(s: Seq<PageMetaView>, i: int, j: int)
    requires
        level_sorted(s),
        0 <= i < j < s.len(),
        ends_index_html(s[j].url),
    ensures
        ends_index_html(s[i].url),
{
    assert(le_meta(s[i], s[j]));
}


/// How many pages the ordering pass returns: as many as it was given.
pub proof fn lemma_sort_pages_len(s: Seq<PageMetaView>)
    ensures
        spec_sort_pages(s).len() == s.len(),
{
    lemma_map_sorted_index(s);
    lemma_spec_sort_level_multiset(map_sorted(s));
    assert(spec_sort_level(map_sorted(s)).to_multiset().len() == spec_sort_level(
        map_sorted(s),
    ).len());
    assert(map_sorted(s).to_multiset().len() == map_sorted(s).len());
}

/// The collected paths do not depend on the order of the pages.
proof fn lemma_seq_page_paths_perm(t1: Seq<PageMetaView>, t2: Seq<PageMetaView>)
    requires
        forall|p: PageMetaView| t1.contains(p) == t2.contains(p),
    ensures
        seq_page_paths(t1) == seq_page_paths(t2),
{
    assert forall|k: LogicalPathView| seq_page_paths(t1).contains(k) == seq_page_paths(
        t2,
    ).contains(k) by {
        lemma_seq_page_paths_member(t1, k);
        lemma_seq_page_paths_member(t2, k);
        if exists|i: int| 0 <= i < t1.len() && #[trigger] page_paths(t1[i]).contains(k) {
            let i = choose|i: int| 0 <= i < t1.len() && #[trigger] page_paths(t1[i]).contains(k);
            assert(t1.contains(t1[i]));
            assert(t2.contains(t1[i]));
            let j = choose|j: int| 0 <= j < t2.len() && t2[j] == t1[i];
            assert(page_paths(t2[j]).contains(k));
        }
        if exists|i: int| 0 <= i < t2.len() && #[trigger] page_paths(t2[i]).contains(k) {
            let i = choose|i: int| 0 <= i < t2.len() && #[trigger] page_paths(t2[i]).contains(k);
            assert(t2.contains(t2[i]));
            assert(t1.contains(t2[i]));
            let j = choose|j: int| 0 <= j < t1.len() && t1[j] == t2[i];
            assert(page_paths(t1[j]).contains(k));
        }
    }
    assert(seq_page_paths(t1) =~= seq_page_paths(t2));
}

/// Sorting a page keeps the paths it and its descendants came from.
pub proof fn lemma_sort_page_keeps_paths(p: PageMetaView)
    ensures
        page_paths(spec_sort_page(p)) == page_paths(p),
    decreases p, 0int,
{
    lemma_sort_pages_keeps_paths(p.children);
}

/// The ordering pass keeps the paths the pages came from.
pub proof fn lemma_sort_pages_keeps_paths(s: Seq<PageMetaView>)
    ensures
        seq_page_paths(spec_sort_pages(s)) == seq_page_paths(s),
    decreases s, 1int,
{
    lemma_map_sorted_index(s);
    assert forall|k: LogicalPathView| seq_page_paths(map_sorted(s)).contains(k)
        == seq_page_paths(s).contains(k) by {
        lemma_seq_page_paths_member(map_sorted(s), k);
        lemma_seq_page_paths_member(s, k);
        if exists|i: int| 0 <= i < map_sorted(s).len() && #[trigger] page_paths(
            map_sorted(s)[i],
        ).contains(k) {
            let i = choose|i: int|
                0 <= i < map_sorted(s).len() && #[trigger] page_paths(map_sorted(s)[i]).contains(
                    k,
                );
            lemma_sort_page_keeps_paths(s[i]);
            assert(page_paths(s[i]).contains(k));
        }
        if exists|i: int| 0 <= i < s.len() && #[trigger] page_paths(s[i]).contains(k) {
            let i = choose|i: int| 0 <= i < s.len() && #[trigger] page_paths(s[i]).contains(k);
            lemma_sort_page_keeps_paths(s[i]);
            assert(page_paths(map_sorted(s)[i]).contains(k));
        }
    }
    assert(seq_page_paths(map_sorted(s)) =~= seq_page_paths(s));
    assert forall|p: PageMetaView| spec_sort_pages(s).contains(p) == map_sorted(s).contains(
        p,
    ) by {
        lemma_spec_sort_level_contains(map_sorted(s), p);
    }
    lemma_seq_page_paths_perm(spec_sort_pages(s), map_sorted(s));
}

/// Sorting a page keeps it well-formed for its level.
pub proof fn lemma_sort_page_keeps_wf(
    dom: Set<LogicalPathView>,
    prefix: Seq<Seq<char>>,
    p: PageMetaView,
)
    requires
        page_wf(dom, prefix, p),
    ensures
        page_wf(dom, prefix, spec_sort_page(p)),
    decreases p, 0int,
{
    if p.path.dirs == prefix {
        lemma_sort_pages_len(p.children);
    } else {
        lemma_sort_pages_keeps_wf(dom, p.path.dirs, p.children);
    }
}

/// The ordering pass keeps every page well-formed for its level.
pub proof fn lemma_sort_pages_keeps_wf(
    dom: Set<LogicalPathView>,
    prefix: Seq<Seq<char>>,
    s: Seq<PageMetaView>,
)
    requires
        pages_wf(dom, prefix, s),
    ensures
        pages_wf(dom, prefix, spec_sort_pages(s)),
    decreases s, 1int,
{
    lemma_map_sorted_index(s);
    let t = spec_sort_pages(s);
    assert forall|i: int| 0 <= i < t.len() implies page_wf(dom, prefix, #[trigger] t[i]) by {
        assert(t.contains(t[i]));
        lemma_spec_sort_level_contains(map_sorted(s), t[i]);
        assert(map_sorted(s).contains(t[i]));
        let j = choose|j: int| 0 <= j < map_sorted(s).len() && map_sorted(s)[j] == t[i];
        assert(page_wf(dom, prefix, s[j]));
        lemma_sort_page_keeps_wf(dom, prefix, s[j]);
    }
}

/// The ordering pass leaves every level sorted.
pub proof fn lemma_sort_pages_deep_sorted(s: Seq<PageMetaView>)
    ensures
        deep_sorted(spec_sort_pages(s)),
    decreases s, 1int,
{
    lemma_map_sorted_index(s);
    let t = spec_sort_pages(s);
    lemma_spec_sort_level_sorted(map_sorted(s));
    assert forall|i: int| 0 <= i < t.len() implies deep_sorted(#[trigger] t[i].children) by {
        assert(t.contains(t[i]));
        lemma_spec_sort_level_contains(map_sorted(s), t[i]);
        assert(map_sorted(s).contains(t[i]));
        let j = choose|j: int| 0 <= j < map_sorted(s).len() && map_sorted(s)[j] == t[i];
        lemma_sort_page_deep_sorted(s[j]);
    }
}

proof fn lemma_sort_page_deep_sorted(p: PageMetaView)
    ensures
        deep_sorted(spec_sort_page(p).children),
    decreases p, 0int,
{
    lemma_sort_pages_deep_sorted(p.children);
}


/// A page's own path is always among the paths it came from.
proof fn lemma_page_paths_own(p: PageMetaView)
    ensures
        page_paths(p).contains(p.path),
{
}

/// Sorting a page keeps its tree free of repeated paths.
pub proof fn lemma_sort_page_keeps_distinct(p: PageMetaView)
    requires
        page_tree_distinct(p),
    ensures
        page_tree_distinct(spec_sort_page(p)),
    decreases p, 0int,
{
    lemma_sort_pages_keeps_paths(p.children);
    lemma_sort_pages_keeps_distinct(p.children);
}

/// The ordering pass keeps a level free of repeated paths.
pub proof fn lemma_sort_pages_keeps_distinct(s: Seq<PageMetaView>)
    requires
        pages_tree_distinct(s),
    ensures
        pages_tree_distinct(spec_sort_pages(s)),
    decreases s, 1int,
{
    lemma_map_sorted_index(s);
    let m = map_sorted(s);
    let t = spec_sort_pages(s);
    assert forall|a: int| 0 <= a < m.len() implies page_paths(#[trigger] m[a]) == page_paths(
        s[a],
    ) by {
        lemma_sort_page_keeps_paths(s[a]);
    }
    assert(m.no_duplicates()) by {
        assert forall|a: int, b: int| 0 <= a < b < m.len() implies m[a] != m[b] by {
            if m[a] == m[b] {
                lemma_page_paths_own(s[a]);
                assert(page_paths(s[a]).contains(s[a].path));
                assert(page_paths(m[a]) == page_paths(m[b]));
                assert(page_paths(s[b]).contains(s[a].path));
                assert(page_paths(s[a]).disjoint(page_paths(s[b])));
            }
        }
    }
    lemma_spec_sort_level_multiset(m);
    m.lemma_multiset_has_no_duplicates();
    t.lemma_multiset_has_no_duplicates_conv();
    assert forall|i: int, j: int| 0 <= i < j < t.len() implies page_paths(
        #[trigger] t[i],
    ).disjoint(page_paths(#[trigger] t[j])) by {
        assert(t[i] != t[j]);
        assert(t.contains(t[i]));
        assert(t.contains(t[j]));
        lemma_spec_sort_level_contains(m, t[i]);
        lemma_spec_sort_level_contains(m, t[j]);
        let a = choose|a: int| 0 <= a < m.len() && m[a] == t[i];
        let b = choose|b: int| 0 <= b < m.len() && m[b] == t[j];
        assert(a != b);
        assert(page_paths(t[i]) == page_paths(s[a]));
        assert(page_paths(t[j]) == page_paths(s[b]));
        if a < b {
            assert(page_paths(s[a]).disjoint(page_paths(s[b])));
        } else {
            assert(page_paths(s[b]).disjoint(page_paths(s[a])));
            assert forall|k: LogicalPathView| page_paths(s[a]).contains(k) implies !page_paths(
                s[b],
            ).contains(k) by {
                if page_paths(s[b]).contains(k) {
                    assert(!page_paths(s[a]).contains(k));
                }
            }
        }
    }
    assert forall|i: int| 0 <= i < t.len() implies page_tree_distinct(#[trigger] t[i]) by {
        assert(t.contains(t[i]));
        lemma_spec_sort_level_contains(m, t[i]);
        let a = choose|a: int| 0 <= a < m.len() && m[a] == t[i];
        assert(page_tree_distinct(s[a]));
        lemma_sort_page_keeps_distinct(s[a]);
    }
}

/// Clones an optional date string.
fn clone_opt_string(d: &Option<String>) -> (r: Option<String>)
    ensures
        r == *d,
{
    match d {
        Option::Some(s) => Option::Some(s.clone()),
        Option::None => Option::None,
    }
}

/// Inserts a page into a level kept sorted, after every page that does
/// not come strictly after it.
fn insert_sorted(out: &mut Vec<PageMeta>, x: PageMeta)
    ensures
        views_of_pages(final(out)@) == spec_insert(views_of_pages(old(out)@), x@),
{
    proof {
        lemma_views_of_pages(out@);
    }
    let ghost sv = views_of_pages(out@);
    let mut pos: usize = 0;
    while pos < out.len() && le_meta_exec(&out[pos], &x)
        invariant
            *out == *old(out),
            pos <= out@.len(),
            forall|j: int| 0 <= j < pos ==> le_meta(#[trigger] sv[j], x@),
        decreases out@.len() - pos,
    {
        proof {
            assert(sv[pos as int] == out@[pos as int]@);
        }
        pos = pos + 1;
    }
    proof {
        if pos < out@.len() {
            assert(sv[pos as int] == out@[pos as int]@);
        }
        lemma_spec_insert_at(sv, x@, pos as int);
    }
    let ghost pre = out@;
    out.insert(pos, x);
    proof {
        lemma_views_of_pages(out@);
        lemma_views_of_pages(pre);
        assert forall|j: int| 0 <= j < out@.len() implies views_of_pages(out@)[j] == (sv.take(
            pos as int,
        ) + seq![x@] + sv.skip(pos as int))[j] by {
            if j < pos {
                assert(out@[j] == pre[j]);
            } else if j == pos {
                assert(out@[j]@ == x@);
            } else {
                assert(out@[j] == pre[j - 1]);
            }
        }
        assert(views_of_pages(out@) =~= spec_insert(sv, x@));
    }
}

/// Returns the pages ordered: every page's descendants sorted, then the
/// level itself, stably.
fn sort_pages(items: &Vec<PageMeta>) -> (r: Vec<PageMeta>)
    ensures
        views_of_pages(r@) == spec_sort_pages(views_of_pages(items@)),
    decreases *items,
{
    proof {
        lemma_views_of_pages(items@);
    }
    let ghost sv = views_of_pages(items@);
    let mut out: Vec<PageMeta> = Vec::new();
    proof {
        assert(views_of_pages(out@) =~= spec_sort_level(map_sorted(sv.take(0))));
    }
    let mut i: usize = 0;
    while i < items.len()
        invariant
            i <= items@.len(),
            views_of_pages(out@) == spec_sort_level(map_sorted(sv.take(i as int))),
        decreases items@.len() - i,
    {
        let p = &items[i];
        let kids = sort_pages(&p.children);
        proof {
            lemma_views_of_pages(p.children@);
        }
        let q = PageMeta {
            title: p.title.clone(),
            url: p.url.clone(),
            section: p.section.clone(),
            date: clone_opt_string(&p.date),
            path: p.path.clone(),
            children: kids,
        };
        proof {
            assert(q@ =~= spec_sort_page(sv[i as int]));
        }
        insert_sorted(&mut out, q);
        proof {
            assert(sv.take(i + 1).drop_last() =~= sv.take(i as int));
            assert(sv.take(i + 1).last() == sv[i as int]);
            assert(map_sorted(sv.take(i + 1)) == map_sorted(sv.take(i as int)).push(
                spec_sort_page(sv[i as int]),
            ));
            let m = map_sorted(sv.take(i + 1));
            assert(m.drop_last() =~= map_sorted(sv.take(i as int)));
            assert(m.last() == spec_sort_page(sv[i as int]));
            assert(spec_sort_level(m) == spec_insert(
                spec_sort_level(map_sorted(sv.take(i as int))),
                spec_sort_page(sv[i as int]),
            ));
        }
        i = i + 1;
    }
    proof {
        assert(sv.take(items@.len() as int) =~= sv);
    }
    out
}

/// Sorts the page tree in place: pages whose url ends in `/index.html`
/// first, the rest ascending by title, stably, and the same ordering
/// applied to each page's children.
pub fn sort_meta(items: &mut Vec<PageMeta>)
    ensures
        views_of_pages(final(items)@) == spec_sort_pages(views_of_pages(old(items)@)),
{
    let mut tmp: Vec<PageMeta> = Vec::new();
    core::mem::swap(items, &mut tmp);
    let sorted = sort_pages(&tmp);
    *items = sorted;
}

} // verus!
