//! Page metadata: the unit of navigation, and the specification of the
//! single depth-first walk that compiles every document exactly once.

use vstd::prelude::*;
use vstd::string::StringExecFns;
use vstd::string::StrSliceExecFns;

use crate::compile::{compile_document, doc_date, doc_title};
use crate::file_map::{is_subdir, FileMap};
use crate::paths::{clone_string_vec, seg_prefix_of, to_display, LogicalPath, LogicalPathView,
    LogicalPrefix};
use crate::sort::{deep_sorted, lemma_sort_pages_deep_sorted, lemma_sort_pages_keeps_distinct,
    lemma_sort_pages_keeps_paths, lemma_sort_pages_keeps_wf, sort_meta};
use crate::store::DocCache;
use crate::text::to_upper;
use crate::text::{dec_chars, dec_string, two_digit_chars, two_digit_string};

verus! {

broadcast use vstd::seq::group_seq_axioms, vstd::std_specs::vec::group_vec_axioms;

/// One navigable unit of output: a leaf document, or a section backed by
/// its directory's `index` document, with its ordered children. `path` is
/// the logical source path the page was compiled from — the key under
/// which its compiled document sits in the cache.
pub struct PageMeta {
    pub title: String,
    pub url: String,
    pub section: String,
    pub date: Option<String>,
    pub path: LogicalPath,
    pub children: Vec<PageMeta>,
}

/// Mathematical shape of a page.
#[verifier::ext_equal]
pub struct PageMetaView {
    pub title: Seq<char>,
    pub url: Seq<char>,
    pub section: Seq<char>,
    pub date: Option<Seq<char>>,
    pub path: LogicalPathView,
    pub children: Seq<PageMetaView>,
}

/// The view of one page.
pub open spec fn page_view(p: PageMeta) -> PageMetaView
    decreases p,
{
    PageMetaView {
        title: p.title@,
        url: p.url@,
        section: p.section@,
        date: match p.date {
            Option::Some(d) => Option::Some(d@),
            Option::None => Option::None,
        },
        path: p.path@,
        children: views_of_pages(p.children@),
    }
}

/// The views of a sequence of pages, in order.
pub open spec fn views_of_pages(v: Seq<PageMeta>) -> Seq<PageMetaView>
    decreases v,
{
    if v.len() == 0 {
        Seq::empty()
    } else {
        views_of_pages(v.drop_last()).push(page_view(v.last()))
    }
}

pub proof fn lemma_views_of_pages(v: Seq<PageMeta>)
    ensures
        views_of_pages(v).len() == v.len(),
        forall|i: int| 0 <= i < v.len() ==> views_of_pages(v)[i] == (#[trigger] v[i])@,
    decreases v.len(),
{
    if v.len() > 0 {
        lemma_views_of_pages(v.drop_last());
        assert forall|i: int| 0 <= i < v.len() implies views_of_pages(v)[i] == (
        #[trigger] v[i])@ by {
            if i < v.len() - 1 {
                assert(v.drop_last()[i] == v[i]);
                assert(views_of_pages(v)[i] == views_of_pages(v.drop_last())[i]);
            } else {
                assert(views_of_pages(v)[i] == page_view(v.last()));
            }
        }
    }
}

impl View for PageMeta {
    type V = PageMetaView;

    open spec fn view(&self) -> PageMetaView {
        page_view(*self)
    }
}

impl DeepView for PageMeta {
    type V = PageMetaView;

    open spec fn deep_view(&self) -> PageMetaView {
        self.view()
    }
}

/// The slash-joined directory run of a url, each segment followed by `/`.
pub open spec fn dirs_url_chars(dirs: Seq<Seq<char>>) -> Seq<char>
    decreases dirs.len(),
{
    if dirs.len() == 0 {
        Seq::empty()
    } else {
        dirs.first() + "/"@ + dirs_url_chars(dirs.drop_first())
    }
}

pub proof fn lemma_dirs_url_push(dirs: Seq<Seq<char>>, c: Seq<char>)
    ensures
        dirs_url_chars(dirs.push(c)) == dirs_url_chars(dirs) + c + "/"@,
    decreases dirs.len(),
{
    if dirs.len() == 0 {
        assert(dirs.push(c).drop_first() =~= Seq::<Seq<char>>::empty());
        assert(dirs.push(c).first() == c);
        assert(dirs_url_chars(dirs.push(c)) == c + "/"@ + dirs_url_chars(
            Seq::<Seq<char>>::empty(),
        ));
        assert(dirs_url_chars(Seq::<Seq<char>>::empty()) == Seq::<char>::empty());
        assert(dirs_url_chars(dirs.push(c)) =~= dirs_url_chars(dirs) + c + "/"@);
    } else {
        lemma_dirs_url_push(dirs.drop_first(), c);
        assert(dirs.push(c).drop_first() =~= dirs.drop_first().push(c));
        assert(dirs.push(c).first() == dirs.first());
        assert(dirs_url_chars(dirs.push(c)) =~= dirs_url_chars(dirs) + c + "/"@);
    }
}

/// The url a logical path is published under: a leading `/`, the directory
/// run, and the stem with its source extension replaced by `.html`.
pub open spec fn url_of(k: LogicalPathView) -> Seq<char> {
    "/"@ + dirs_url_chars(k.dirs) + k.stem + ".html"@
}

/// Renders the url of a logical path.
pub fn url_for(path: &LogicalPath) -> (r: String)
    ensures
        r@ == url_of(path@),
{
    let mut s = String::from_str("/");
    proof {
        assert(path@.dirs.take(0) =~= Seq::<Seq<char>>::empty());
        assert(s@ =~= "/"@ + dirs_url_chars(path@.dirs.take(0)));
    }
    let mut i: usize = 0;
    while i < path.dirs.len()
        invariant
            i <= path.dirs@.len(),
            s@ == "/"@ + dirs_url_chars(path@.dirs.take(i as int)),
        decreases path.dirs@.len() - i,
    {
        s.append(path.dirs[i].as_str());
        s.append("/");
        proof {
            lemma_dirs_url_push(path@.dirs.take(i as int), path@.dirs[i as int]);
            assert(path@.dirs.take(i + 1) =~= path@.dirs.take(i as int).push(path@.dirs[i as int]));
            assert(path@.dirs[i as int] == path.dirs@[i as int]@);
            assert(s@ =~= "/"@ + dirs_url_chars(path@.dirs.take(i + 1)));
        }
        i = i + 1;
    }
    s.append(path.stem.as_str());
    s.append(".html");
    proof {
        assert(path@.dirs.take(path.dirs@.len() as int) =~= path@.dirs);
        assert(s@ =~= url_of(path@));
    }
    s
}

/// The logical path of the `index` document of directory `d`.
pub open spec fn index_view(d: Seq<Seq<char>>) -> LogicalPathView {
    LogicalPathView { dirs: d, stem: "index"@, ext: "typ"@ }
}

/// Builds the logical path of the `index` document of a directory.
pub fn index_path(dir: &LogicalPrefix) -> (r: LogicalPath)
    ensures
        r@ == index_view(dir@),
{
    let r = LogicalPath {
        dirs: clone_string_vec(&dir.segs),
        stem: String::from_str("index"),
        ext: String::from_str("typ"),
    };
    proof {
        assert(r@ =~= index_view(dir@));
    }
    r
}

/// A directory is live when every directory on the way down from the walk
/// root to it (itself included, the root excluded) has an `index` document
/// in the map: only live directories are visited by the metadata walk.
pub open spec fn dir_live(
    dom: Set<LogicalPathView>,
    prefix: Seq<Seq<char>>,
    d: Seq<Seq<char>>,
) -> bool
    decreases d.len(),
{
    if !seg_prefix_of(prefix, d) {
        false
    } else if d.len() == prefix.len() {
        true
    } else {
        dir_live(dom, prefix, d.drop_last()) && dom.contains(index_view(d))
    }
}

/// A document is compiled by the walk exactly when it carries the
/// compiler's extension, sits in a live directory, and is not the `index`
/// of the walk root itself unless the walk was started as the root walk.
pub open spec fn compiled_here(
    dom: Set<LogicalPathView>,
    prefix: Seq<Seq<char>>,
    is_root: bool,
    k: LogicalPathView,
) -> bool {
    dom.contains(k) && k.ext == "typ"@ && dir_live(dom, prefix, k.dirs) && !(k.dirs == prefix
        && k.stem == "index"@ && !is_root)
}

/// Everything the walk from `prefix` compiles.
pub open spec fn compiled_set(
    dom: Set<LogicalPathView>,
    prefix: Seq<Seq<char>>,
    is_root: bool,
) -> Set<LogicalPathView> {
    Set::new(|k: LogicalPathView| compiled_here(dom, prefix, is_root, k))
}

/// A directory the walk discovers but skips with a warning: its parent is
/// live, some entry lies below it, and it has no `index` document.
pub open spec fn warned_dir(
    dom: Set<LogicalPathView>,
    prefix: Seq<Seq<char>>,
    d: Seq<Seq<char>>,
) -> bool {
    d.len() > prefix.len() && seg_prefix_of(prefix, d) && dir_live(dom, prefix, d.drop_last())
        && crate::file_map::is_subdir(dom, d.drop_last(), d.last()) && !dom.contains(index_view(d))
}

pub proof fn lemma_seg_prefix_trans(a: Seq<Seq<char>>, b: Seq<Seq<char>>, c: Seq<Seq<char>>)
    requires
        seg_prefix_of(a, b),
        seg_prefix_of(b, c),
    ensures
        seg_prefix_of(a, c),
{
    assert(a =~= c.take(a.len() as int)) by {
        assert forall|j: int| 0 <= j < a.len() implies a[j] == c[j] by {
            assert(a[j] == b.take(a.len() as int)[j]);
            assert(b[j] == c.take(b.len() as int)[j]);
        }
    }
}

pub proof fn lemma_dir_live_refl(dom: Set<LogicalPathView>, prefix: Seq<Seq<char>>)
    ensures
        dir_live(dom, prefix, prefix),
{
    assert(prefix.take(prefix.len() as int) =~= prefix);
}

/// Liveness below an immediate subdirectory factors through it.
pub proof fn lemma_dir_live_split(
    dom: Set<LogicalPathView>,
    prefix: Seq<Seq<char>>,
    sub: Seq<Seq<char>>,
    d: Seq<Seq<char>>,
)
    requires
        sub.len() == prefix.len() + 1,
        seg_prefix_of(prefix, sub),
        seg_prefix_of(sub, d),
    ensures
        dir_live(dom, prefix, d) == (dir_live(dom, prefix, sub) && dir_live(dom, sub, d)),
    decreases d.len(),
{
    lemma_seg_prefix_trans(prefix, sub, d);
    if d.len() == sub.len() {
        assert(d =~= sub);
        lemma_dir_live_refl(dom, sub);
    } else {
        assert(seg_prefix_of(sub, d.drop_last())) by {
            assert(d.drop_last().take(sub.len() as int) =~= d.take(sub.len() as int));
        }
        lemma_dir_live_split(dom, prefix, sub, d.drop_last());
    }
}

/// What the walk at `prefix` compiles decomposes into the leaves directly
/// at `prefix` and, for every indexed immediate subdirectory, its `index`
/// document together with what the walk of that subdirectory compiles.
pub proof fn lemma_compiled_decompose(
    dom: Set<LogicalPathView>,
    prefix: Seq<Seq<char>>,
    is_root: bool,
    k: LogicalPathView,
)
    ensures
        compiled_here(dom, prefix, is_root, k) == {
            ||| (dom.contains(k) && k.ext == "typ"@ && k.dirs == prefix && (k.stem == "index"@
                ==> is_root))
            ||| (k.dirs.len() > prefix.len() && seg_prefix_of(prefix, k.dirs) && {
                let sub = prefix.push(k.dirs[prefix.len() as int]);
                crate::file_map::is_subdir(dom, prefix, k.dirs[prefix.len() as int])
                    && dom.contains(index_view(sub)) && (k == index_view(sub) || compiled_here(
                    dom,
                    sub,
                    false,
                    k,
                ))
            })
        },
{
    lemma_dir_live_refl(dom, prefix);
    if dom.contains(k) && k.ext == "typ"@ && k.dirs.len() > prefix.len() && seg_prefix_of(
        prefix,
        k.dirs,
    ) {
        let c = k.dirs[prefix.len() as int];
        let sub = prefix.push(c);
        assert(seg_prefix_of(prefix, sub)) by {
            assert(sub.take(prefix.len() as int) =~= prefix);
        }
        assert(seg_prefix_of(sub, k.dirs)) by {
            assert(k.dirs.take(sub.len() as int) =~= sub);
        }
        lemma_dir_live_split(dom, prefix, sub, k.dirs);
        assert(dir_live(dom, prefix, sub) == dom.contains(index_view(sub)));
        if dir_live(dom, prefix, k.dirs) {
            assert(crate::file_map::is_subdir(dom, prefix, c));
        }
        if k.dirs == sub && k.stem == "index"@ {
            assert(k =~= index_view(sub));
        }
        if k == index_view(sub) {
            assert(dir_live(dom, sub, k.dirs)) by {
                lemma_dir_live_refl(dom, sub);
            }
        }
    }
    if compiled_here(dom, prefix, is_root, k) && k.dirs.len() == prefix.len() {
        assert(k.dirs =~= prefix);
    }
}

/// What the walk at `prefix` warns about decomposes likewise: the
/// indexless immediate subdirectories, and the warnings of the walks of
/// the indexed ones.
pub proof fn lemma_warned_decompose(
    dom: Set<LogicalPathView>,
    prefix: Seq<Seq<char>>,
    d: Seq<Seq<char>>,
)
    ensures
        warned_dir(dom, prefix, d) == {
            ||| (d.len() == prefix.len() + 1 && seg_prefix_of(prefix, d) && crate::file_map::is_subdir(
                dom,
                prefix,
                d.last(),
            ) && !dom.contains(index_view(d)))
            ||| (d.len() > prefix.len() + 1 && seg_prefix_of(prefix, d) && {
                let sub = prefix.push(d[prefix.len() as int]);
                crate::file_map::is_subdir(dom, prefix, d[prefix.len() as int]) && dom.contains(
                    index_view(sub),
                ) && warned_dir(dom, sub, d)
            })
        },
{
    lemma_dir_live_refl(dom, prefix);
    if d.len() == prefix.len() + 1 && seg_prefix_of(prefix, d) {
        assert(d.drop_last() =~= prefix);
    }
    if d.len() > prefix.len() + 1 && seg_prefix_of(prefix, d) {
        let c = d[prefix.len() as int];
        let sub = prefix.push(c);
        assert(seg_prefix_of(prefix, sub)) by {
            assert(sub.take(prefix.len() as int) =~= prefix);
        }
        assert(seg_prefix_of(sub, d)) by {
            assert(d.take(sub.len() as int) =~= sub);
        }
        assert(seg_prefix_of(sub, d.drop_last())) by {
            assert(d.drop_last().take(sub.len() as int) =~= d.take(sub.len() as int));
        }
        lemma_dir_live_split(dom, prefix, sub, d.drop_last());
        if warned_dir(dom, prefix, d) {
            assert(dir_live(dom, prefix, d.drop_last()));
            assert(dom.contains(index_view(sub))) by {
                if d.drop_last().len() == sub.len() {
                    assert(d.drop_last() =~= sub);
                } else {
                }
            }
            assert(crate::file_map::is_subdir(dom, prefix, c)) by {
                assert(dom.contains(index_view(sub)));
                assert(index_view(sub).dirs.len() > prefix.len());
                assert(seg_prefix_of(prefix, index_view(sub).dirs));
                assert(index_view(sub).dirs[prefix.len() as int] == c);
            }
        }
    }
    if warned_dir(dom, prefix, d) && d.len() == prefix.len() + 1 {
        assert(d.drop_last() =~= prefix);
    }
}

/// The logical paths a page and its descendants were compiled from.
pub open spec fn page_paths(p: PageMetaView) -> Set<LogicalPathView>
    decreases p,
{
    seq_page_paths(p.children).insert(p.path)
}

/// The logical paths a page sequence and all descendants were compiled from.
pub open spec fn seq_page_paths(s: Seq<PageMetaView>) -> Set<LogicalPathView>
    decreases s,
{
    if s.len() == 0 {
        Set::empty()
    } else {
        page_paths(s.first()).union(seq_page_paths(s.drop_first()))
    }
}

pub proof fn lemma_seq_page_paths_push(s: Seq<PageMetaView>, p: PageMetaView)
    ensures
        seq_page_paths(s.push(p)) == seq_page_paths(s).union(page_paths(p)),
    decreases s.len(),
{
    if s.len() == 0 {
        assert(s.push(p).first() == p);
        assert(s.push(p).drop_first() =~= Seq::<PageMetaView>::empty());
        assert(seq_page_paths(s.push(p)) == page_paths(p).union(seq_page_paths(
            Seq::<PageMetaView>::empty(),
        )));
        assert(seq_page_paths(Seq::<PageMetaView>::empty()) == Set::<LogicalPathView>::empty());
        assert(seq_page_paths(s.push(p)) =~= seq_page_paths(s).union(page_paths(p)));
    } else {
        lemma_seq_page_paths_push(s.drop_first(), p);
        assert(s.push(p).first() == s.first());
        assert(s.push(p).drop_first() =~= s.drop_first().push(p));
        assert(seq_page_paths(s.push(p)) =~= seq_page_paths(s).union(page_paths(p)));
    }
}

/// Membership in the collected paths of a sequence is membership in the
/// paths of one of its pages.
pub proof fn lemma_seq_page_paths_member(s: Seq<PageMetaView>, k: LogicalPathView)
    ensures
        seq_page_paths(s).contains(k) == exists|i: int|
            0 <= i < s.len() && #[trigger] page_paths(s[i]).contains(k),
    decreases s.len(),
{
    if s.len() > 0 {
        lemma_seq_page_paths_member(s.drop_first(), k);
        if page_paths(s.first()).contains(k) {
            assert(page_paths(s[0]).contains(k));
        }
        if exists|i: int| 0 <= i < s.drop_first().len() && #[trigger] page_paths(
            s.drop_first()[i],
        ).contains(k) {
            let i = choose|i: int|
                0 <= i < s.drop_first().len() && #[trigger] page_paths(s.drop_first()[i]).contains(
                    k,
                );
            assert(page_paths(s[i + 1]).contains(k));
        }
        if exists|i: int| 0 <= i < s.len() && #[trigger] page_paths(s[i]).contains(k) {
            let i = choose|i: int| 0 <= i < s.len() && #[trigger] page_paths(s[i]).contains(k);
            if i > 0 {
                assert(page_paths(s.drop_first()[i - 1]).contains(k));
            }
        }
    }
}

/// A page is well-formed for a walk level: either a leaf directly at the
/// level, or the section page of an immediate subdirectory, with
/// well-formed children one level down.
pub open spec fn page_wf(
    dom: Set<LogicalPathView>,
    prefix: Seq<Seq<char>>,
    p: PageMetaView,
) -> bool
    decreases p,
{
    &&& p.url == url_of(p.path)
    &&& dom.contains(p.path)
    &&& p.path.ext == "typ"@
    &&& if p.path.dirs == prefix {
        p.section == Seq::<char>::empty() && p.children.len() == 0
    } else {
        &&& p.path.dirs.len() == prefix.len() + 1
        &&& seg_prefix_of(prefix, p.path.dirs)
        &&& p.path.stem == "index"@
        &&& p.section == p.path.dirs.last()
        &&& pages_wf(dom, p.path.dirs, p.children)
    }
}

/// Every page of the sequence is well-formed for the level.
pub open spec fn pages_wf(
    dom: Set<LogicalPathView>,
    prefix: Seq<Seq<char>>,
    s: Seq<PageMetaView>,
) -> bool
    decreases s,
{
    forall|i: int| 0 <= i < s.len() ==> page_wf(dom, prefix, #[trigger] s[i])
}


/// The three-letter day name, Monday counted as 1.
pub open spec fn day_name(w: nat) -> Seq<char> {
    if w == 1 {
        "Mon"@
    } else if w == 2 {
        "Tue"@
    } else if w == 3 {
        "Wed"@
    } else if w == 4 {
        "Thu"@
    } else if w == 5 {
        "Fri"@
    } else if w == 6 {
        "Sat"@
    } else {
        "Sun"@
    }
}

/// The three-letter month name, January counted as 1.
pub open spec fn month_name(m: nat) -> Seq<char> {
    if m == 1 {
        "Jan"@
    } else if m == 2 {
        "Feb"@
    } else if m == 3 {
        "Mar"@
    } else if m == 4 {
        "Apr"@
    } else if m == 5 {
        "May"@
    } else if m == 6 {
        "Jun"@
    } else if m == 7 {
        "Jul"@
    } else if m == 8 {
        "Aug"@
    } else if m == 9 {
        "Sep"@
    } else if m == 10 {
        "Oct"@
    } else if m == 11 {
        "Nov"@
    } else {
        "Dec"@
    }
}

/// A year in decimal, a leading minus for negative years.
pub open spec fn year_chars(y: int) -> Seq<char> {
    if y < 0 {
        "-"@ + dec_chars((-y) as nat)
    } else {
        dec_chars(y as nat)
    }
}

/// A declared date as a publication timestamp: day name, two-digit day,
/// month name, year, and a fixed midnight UTC time.
pub open spec fn date_chars(y: int, m: nat, d: nat, w: nat) -> Seq<char> {
    day_name(w) + ", "@ + two_digit_chars(d) + " "@ + month_name(m) + " "@ + year_chars(y)
        + " 00:00:00 +0000"@
}

fn day_name_str(w: u8) -> (r: &'static str)
    requires
        1 <= w <= 7,
    ensures
        r@ == day_name(w as nat),
{
    if w == 1 {
        "Mon"
    } else if w == 2 {
        "Tue"
    } else if w == 3 {
        "Wed"
    } else if w == 4 {
        "Thu"
    } else if w == 5 {
        "Fri"
    } else if w == 6 {
        "Sat"
    } else {
        "Sun"
    }
}

fn month_name_str(m: u8) -> (r: &'static str)
    requires
        1 <= m <= 12,
    ensures
        r@ == month_name(m as nat),
{
    if m == 1 {
        "Jan"
    } else if m == 2 {
        "Feb"
    } else if m == 3 {
        "Mar"
    } else if m == 4 {
        "Apr"
    } else if m == 5 {
        "May"
    } else if m == 6 {
        "Jun"
    } else if m == 7 {
        "Jul"
    } else if m == 8 {
        "Aug"
    } else if m == 9 {
        "Sep"
    } else if m == 10 {
        "Oct"
    } else if m == 11 {
        "Nov"
    } else {
        "Dec"
    }
}

/// Renders a declared date as the publication timestamp text.
pub fn format_date(y: i32, m: u8, d: u8, w: u8) -> (r: String)
    requires
        1 <= m <= 12,
        1 <= d <= 31,
        1 <= w <= 7,
    ensures
        r@ == date_chars(y as int, m as nat, d as nat, w as nat),
{
    let mut s = String::from_str(day_name_str(w));
    s.append(", ");
    let dd = two_digit_string(d as u64);
    s.append(dd.as_str());
    s.append(" ");
    s.append(month_name_str(m));
    s.append(" ");
    if y < 0 {
        s.append("-");
        let yy = dec_string((-(y as i64)) as u64);
        s.append(yy.as_str());
        proof {
            reveal_strlit("-");
            assert("-"@ =~= seq!['-']);
        }
    } else {
        let yy = dec_string(y as u64);
        s.append(yy.as_str());
    }
    s.append(" 00:00:00 +0000");
    proof {
        assert(s@ =~= date_chars(y as int, m as nat, d as nat, w as nat));
    }
    s
}

/// The page title: the document's declared title when there is one, else
/// the given fallback.
pub fn title_or_default(declared: Option<String>, fallback: String) -> (r: String)
    ensures
        r@ == match declared {
            Option::Some(t) => t@,
            Option::None => fallback@,
        },
{
    match declared {
        Option::Some(t) => t,
        Option::None => fallback,
    }
}

/// A fatal build error: a document failed to compile. The build aborts,
/// and the message carries the compiler's own account.
#[derive(Debug)]
pub struct BuildError {
    pub path: LogicalPath,
    pub message: String,
}



/// No document path appears twice below a page: its own path is not among
/// its descendants' and the descendants are distinct among themselves.
pub open spec fn page_tree_distinct(p: PageMetaView) -> bool
    decreases p,
{
    &&& !seq_page_paths(p.children).contains(p.path)
    &&& pages_tree_distinct(p.children)
}

/// No document path appears twice in a page tree: the pages of one level
/// draw on pairwise disjoint path sets, each internally distinct.
pub open spec fn pages_tree_distinct(s: Seq<PageMetaView>) -> bool
    decreases s,
{
    &&& forall|i: int, j: int|
        0 <= i < j < s.len() ==> page_paths(#[trigger] s[i]).disjoint(page_paths(
            #[trigger] s[j],
        ))
    &&& forall|i: int| 0 <= i < s.len() ==> page_tree_distinct(#[trigger] s[i])
}

/// What one discovered subdirectory contributes to the cache and pages:
/// nothing when it lacks an `index`, else its `index` document and the
/// whole yield of its own walk.
pub open spec fn sub_contrib(dom: Set<LogicalPathView>, sub: Seq<Seq<char>>) -> Set<
    LogicalPathView,
> {
    if dom.contains(index_view(sub)) {
        compiled_set(dom, sub, false).insert(index_view(sub))
    } else {
        Set::empty()
    }
}

/// The union of the contributions of the first `i` subdirectories.
pub open spec fn level_partial(
    dom: Set<LogicalPathView>,
    subs: Seq<Seq<Seq<char>>>,
    i: int,
) -> Set<LogicalPathView>
    decreases i,
{
    if i <= 0 {
        Set::empty()
    } else {
        level_partial(dom, subs, i - 1).union(sub_contrib(dom, subs[i - 1]))
    }
}

pub proof fn lemma_level_partial_member(
    dom: Set<LogicalPathView>,
    subs: Seq<Seq<Seq<char>>>,
    i: int,
    k: LogicalPathView,
)
    requires
        0 <= i <= subs.len(),
    ensures
        level_partial(dom, subs, i).contains(k) <==> exists|a: int|
            0 <= a < i && #[trigger] sub_contrib(dom, subs[a]).contains(k),
    decreases i,
{
    if i > 0 {
        lemma_level_partial_member(dom, subs, i - 1, k);
        if level_partial(dom, subs, i).contains(k) {
            if sub_contrib(dom, subs[i - 1]).contains(k) {
            } else {
                let a = choose|a: int|
                    0 <= a < i - 1 && #[trigger] sub_contrib(dom, subs[a]).contains(k);
                assert(sub_contrib(dom, subs[a]).contains(k));
            }
        }
        if exists|a: int| 0 <= a < i && #[trigger] sub_contrib(dom, subs[a]).contains(k) {
            let a = choose|a: int| 0 <= a < i && #[trigger] sub_contrib(dom, subs[a]).contains(k);
            if a < i - 1 {
                assert(level_partial(dom, subs, i - 1).contains(k));
            }
        }
    }
}

/// Whether the leaf loop takes a document: a root walk takes every leaf,
/// a section walk leaves the section's own `index` to its parent.
pub open spec fn leaf_taken(is_root: bool, k: LogicalPathView) -> bool {
    is_root || k.stem != "index"@
}

/// The set of the first `i` listed leaves that the leaf loop takes.
pub open spec fn leaf_partial(
    is_root: bool,
    leaves: Seq<LogicalPathView>,
    i: int,
) -> Set<LogicalPathView>
    decreases i,
{
    if i <= 0 {
        Set::empty()
    } else if leaf_taken(is_root, leaves[i - 1]) {
        leaf_partial(is_root, leaves, i - 1).insert(leaves[i - 1])
    } else {
        leaf_partial(is_root, leaves, i - 1)
    }
}

pub proof fn lemma_leaf_partial_member(
    is_root: bool,
    leaves: Seq<LogicalPathView>,
    i: int,
    k: LogicalPathView,
)
    requires
        0 <= i <= leaves.len(),
    ensures
        leaf_partial(is_root, leaves, i).contains(k) <==> exists|a: int|
            0 <= a < i && #[trigger] leaves[a] == k && leaf_taken(is_root, k),
    decreases i,
{
    if i > 0 {
        lemma_leaf_partial_member(is_root, leaves, i - 1, k);
        if leaf_partial(is_root, leaves, i).contains(k) {
            if leaf_taken(is_root, leaves[i - 1]) && leaves[i - 1] == k {
                assert(leaves[i - 1] == k);
            }
        }
        if exists|a: int| 0 <= a < i && #[trigger] leaves[a] == k && leaf_taken(is_root, k) {
            let a = choose|a: int| 0 <= a < i && #[trigger] leaves[a] == k && leaf_taken(is_root, k);
            if a < i - 1 {
                assert(leaf_partial(is_root, leaves, i - 1).contains(k));
            }
        }
    }
}

/// Covering of one subdirectory by the warning record: an indexless one
/// is itself warned about, an indexed one passes on the warnings of its
/// own walk.
pub open spec fn sub_warn_covers(
    dom: Set<LogicalPathView>,
    sub: Seq<Seq<char>>,
    d: Seq<Seq<char>>,
) -> bool {
    if dom.contains(index_view(sub)) {
        warned_dir(dom, sub, d)
    } else {
        d == sub
    }
}


/// Everything one subdirectory contributes is compiled by the walk that
/// discovered it.
pub proof fn lemma_sub_in_level(
    dom: Set<LogicalPathView>,
    pv: Seq<Seq<char>>,
    sub: Seq<Seq<char>>,
    is_root: bool,
)
    requires
        sub.len() == pv.len() + 1,
        seg_prefix_of(pv, sub),
        is_subdir(dom, pv, sub.last()),
    ensures
        forall|k: LogicalPathView|
            #[trigger] sub_contrib(dom, sub).contains(k) ==> compiled_here(dom, pv, is_root, k)
                && seg_prefix_of(sub, k.dirs),
{
    assert forall|k: LogicalPathView| #[trigger] sub_contrib(dom, sub).contains(k) implies
        compiled_here(dom, pv, is_root, k) && seg_prefix_of(sub, k.dirs) by {
        assert(dom.contains(index_view(sub)));
        assert(pv.push(sub.last()) =~= sub);
        lemma_compiled_decompose(dom, pv, is_root, k);
        if k == index_view(sub) {
            assert(seg_prefix_of(sub, k.dirs)) by {
                assert(k.dirs.take(sub.len() as int) =~= sub);
            }
            assert(k.dirs[pv.len() as int] == sub.last());
            assert(compiled_here(dom, pv, is_root, k));
        } else {
            assert(compiled_here(dom, sub, false, k));
            assert(seg_prefix_of(sub, k.dirs)) by {
                if !seg_prefix_of(sub, k.dirs) {
                    assert(!dir_live(dom, sub, k.dirs));
                }
            }
            assert(k.dirs.len() > pv.len());
            lemma_seg_prefix_trans(pv, sub, k.dirs);
            assert(k.dirs[pv.len() as int] == sub[pv.len() as int]) by {
                assert(k.dirs.take(sub.len() as int)[pv.len() as int] == sub[pv.len() as int]);
            }
            assert(sub[pv.len() as int] == sub.last());
            assert(compiled_here(dom, pv, is_root, k));
        }
    }
}

/// Contributions of two different subdirectories of one level share no
/// path.
pub proof fn lemma_contrib_disjoint(
    dom: Set<LogicalPathView>,
    s1: Seq<Seq<char>>,
    s2: Seq<Seq<char>>,
)
    requires
        s1.len() == s2.len(),
        s1 != s2,
    ensures
        forall|k: LogicalPathView|
            #[trigger] sub_contrib(dom, s1).contains(k) ==> !sub_contrib(dom, s2).contains(k),
{
    assert forall|k: LogicalPathView| #[trigger] sub_contrib(dom, s1).contains(k) implies
        !sub_contrib(dom, s2).contains(k) by {
        lemma_contrib_prefix(dom, s1, k);
        if sub_contrib(dom, s2).contains(k) {
            lemma_contrib_prefix(dom, s2, k);
            assert(k.dirs.take(s1.len() as int) == s1);
            assert(k.dirs.take(s2.len() as int) == s2);
        }
    }
}

/// Every contributed path lies inside its subdirectory.
pub proof fn lemma_contrib_prefix(
    dom: Set<LogicalPathView>,
    sub: Seq<Seq<char>>,
    k: LogicalPathView,
)
    requires
        sub_contrib(dom, sub).contains(k),
    ensures
        seg_prefix_of(sub, k.dirs),
        dom.contains(k),
        k.ext == "typ"@,
{
    if k == index_view(sub) {
        assert(k.dirs.take(sub.len() as int) =~= sub);
    } else {
        assert(compiled_here(dom, sub, false, k));
        if !seg_prefix_of(sub, k.dirs) {
            assert(!dir_live(dom, sub, k.dirs));
        }
    }
}

/// A warning of a subdirectory walk is a warning of the walk that
/// discovered the subdirectory.
pub proof fn lemma_warned_lift(
    dom: Set<LogicalPathView>,
    pv: Seq<Seq<char>>,
    sub: Seq<Seq<char>>,
    d: Seq<Seq<char>>,
)
    requires
        sub.len() == pv.len() + 1,
        seg_prefix_of(pv, sub),
        is_subdir(dom, pv, sub.last()),
        dom.contains(index_view(sub)),
        warned_dir(dom, sub, d),
    ensures
        warned_dir(dom, pv, d),
{
    lemma_warned_decompose(dom, pv, d);
    lemma_seg_prefix_trans(pv, sub, d);
    assert(d.len() > pv.len() + 1);
    assert(d[pv.len() as int] == sub.last()) by {
        assert(d.take(sub.len() as int)[pv.len() as int] == sub[pv.len() as int]);
        assert(sub[pv.len() as int] == sub.last());
    }
    assert(pv.push(d[pv.len() as int]) =~= sub);
}

/// The metadata walk: one depth-first pass over the logical namespace
/// from `prefix`. Every immediate subdirectory with an `index` document
/// becomes a section page whose children come from walking it; one
/// without is skipped whole, with a warning recorded. Every document
/// directly at `prefix` becomes a leaf page — a non-root walk leaves its
/// own `index` to the parent. Each compiled document is cached under its
/// logical path, exactly once, and the resulting pages are sorted with
/// `index` pages first, then by title, at every level. The first compile
/// failure aborts the whole walk.
#[verifier::rlimit(100)]
pub fn collect_page_meta(
    prefix: &LogicalPrefix,
    file_map: &FileMap,
    engine: &typst_as_lib::TypstEngine,
    cache: &mut DocCache<typst_html::HtmlDocument>,
    warnings: &mut Vec<LogicalPrefix>,
    is_root: bool,
) -> (r: Result<Vec<PageMeta>, BuildError>)
    requires
        file_map.wf(),
        old(cache).wf(),
        old(cache)@.dom().disjoint(compiled_set(file_map@.dom(), prefix@, is_root)),
    ensures
        final(cache).wf(),
        forall|k: LogicalPathView|
            old(cache)@.dom().contains(k) ==> final(cache)@.dom().contains(k) && final(cache)@[k]
                == old(cache)@[k],
        final(warnings)@.len() >= old(warnings)@.len(),
        final(warnings)@.take(old(warnings)@.len() as int) == old(warnings)@,
        match r {
            Result::Ok(pages) => {
                &&& final(cache)@.dom() == old(cache)@.dom().union(
                    compiled_set(file_map@.dom(), prefix@, is_root),
                )
                &&& seq_page_paths(views_of_pages(pages@)) == compiled_set(
                    file_map@.dom(),
                    prefix@,
                    is_root,
                )
                &&& pages_wf(file_map@.dom(), prefix@, views_of_pages(pages@))
                &&& deep_sorted(views_of_pages(pages@))
                &&& pages_tree_distinct(views_of_pages(pages@))
                &&& forall|w: int|
                    old(warnings)@.len() <= w < final(warnings)@.len() ==> warned_dir(
                        file_map@.dom(),
                        prefix@,
                        (#[trigger] final(warnings)@[w])@,
                    )
                &&& forall|d: Seq<Seq<char>>|
                    #[trigger] warned_dir(file_map@.dom(), prefix@, d) ==> exists|w: int|
                        old(warnings)@.len() <= w < final(warnings)@.len()
                            && (final(warnings)@[w])@ == d
            },
            Result::Err(e) => compiled_set(file_map@.dom(), prefix@, is_root).contains(e.path@),
        },
    decreases file_map.depth_bound() + 1 - prefix.segs@.len(),
{
    let ghost dom = file_map@.dom();
    let ghost pv = prefix@;
    let ghost cache0 = cache@;
    let ghost warn0 = warnings@;
    proof {
        assert(warnings@.take(warn0.len() as int) =~= warn0);
    }

    let mut pages: Vec<PageMeta> = Vec::new();
    let subs = file_map.subdirs_at(prefix);
    let ghost subsv = Seq::new(subs@.len(), |a: int| subs@[a]@);
    proof {
        assert(seq_page_paths(views_of_pages(pages@)) =~= level_partial(dom, subsv, 0));
    }

    let mut i: usize = 0;
    while i < subs.len()
        invariant
            i <= subs@.len(),
            cache.wf(),
            cache@.dom() == cache0.dom().union(level_partial(dom, subsv, i as int)),
            forall|k: LogicalPathView|
                cache0.dom().contains(k) ==> cache@.dom().contains(k) && cache@[k] == cache0[k],
            warnings@.len() >= warn0.len(),
            warnings@.take(warn0.len() as int) == warn0,
            forall|w: int|
                warn0.len() <= w < warnings@.len() ==> warned_dir(
                    dom,
                    pv,
                    (#[trigger] warnings@[w])@,
                ),
            forall|a: int, d: Seq<Seq<char>>|
                0 <= a < i && #[trigger] sub_warn_covers(dom, subsv[a], d) ==> exists|w: int|
                    warn0.len() <= w < warnings@.len() && (warnings@[w])@ == d,
            seq_page_paths(views_of_pages(pages@)) == level_partial(dom, subsv, i as int),
            pages_wf(dom, pv, views_of_pages(pages@)),
            pages_tree_distinct(views_of_pages(pages@)),
            forall|a: int|
                0 <= a < views_of_pages(pages@).len() ==> deep_sorted(
                    (#[trigger] views_of_pages(pages@)[a]).children,
                ),
        decreases subs@.len() - i,
    {
        let sub = &subs[i];
        proof {
            assert(subsv[i as int] == sub@);
            assert(sub@.len() == pv.len() + 1);
            assert(sub@.take(pv.len() as int) == pv);
            assert(is_subdir(dom, pv, sub@.last()));
            assert(sub.segs@.len() == sub@.len());
            assert(pv.push(sub@.last()) =~= sub@);
        }
        let index = index_path(sub);
        if file_map.contains(&index) {
            proof {
                lemma_sub_in_level(dom, pv, sub@, is_root);
                // what the recursion may touch is disjoint from the cache
                assert forall|k: LogicalPathView|
                    cache@.dom().contains(k) implies !compiled_set(dom, sub@, false).contains(
                    k,
                ) by {
                    if compiled_set(dom, sub@, false).contains(k) {
                        assert(sub_contrib(dom, sub@).contains(k));
                        assert(compiled_here(dom, pv, is_root, k));
                        if cache0.dom().contains(k) {
                            assert(cache0.dom().disjoint(compiled_set(dom, pv, is_root)));
                            assert(compiled_set(dom, pv, is_root).contains(k));
                        } else {
                            lemma_level_partial_member(dom, subsv, i as int, k);
                            let a = choose|a: int|
                                0 <= a < i && #[trigger] sub_contrib(dom, subsv[a]).contains(k);
                            assert(subsv[a] == subs@[a]@);
                            assert(subsv[a].len() == pv.len() + 1);
                            lemma_contrib_disjoint(dom, subsv[a], sub@);
                        }
                    }
                }
                // the walk may recurse: some entry is deeper than this level
                let kw = choose|kw: LogicalPathView|
                    #[trigger] dom.contains(kw) && kw.dirs.len() > pv.len() && seg_prefix_of(
                        pv,
                        kw.dirs,
                    ) && kw.dirs[pv.len() as int] == sub@.last();
                file_map.lemma_depth_bound();
                assert(sub.segs@.len() <= file_map.depth_bound());
            }
            let real_str = match file_map.get_real(&index) {
                Option::Some(p) => to_display(p),
                Option::None => {
                    proof {
                        assert(false);
                    }
                    return Result::Err(BuildError { path: index, message: String::new() });
                },
            };
            let doc = match compile_document(engine, real_str.as_str()) {
                Result::Ok(d) => d,
                Result::Err(message) => {
                    proof {
                        assert(sub_contrib(dom, sub@).contains(index@));
                    }
                    return Result::Err(BuildError { path: index, message });
                },
            };
            let ghost cache_pre = cache@;
            let ghost warn_pre = warnings@;
            let children = match collect_page_meta(sub, file_map, engine, cache, warnings, false) {
                Result::Ok(c) => c,
                Result::Err(e) => {
                    proof {
                        assert forall|j: int| 0 <= j < warn0.len() implies warnings@.take(
                            warn0.len() as int,
                        )[j] == warn0[j] by {
                            assert(warnings@.take(warn_pre.len() as int)[j] == warn_pre[j]);
                            assert(warn_pre.take(warn0.len() as int)[j] == warn0[j]);
                        }
                        assert(warnings@.take(warn0.len() as int) =~= warn0);
                        assert(cache0 == old(cache)@);
                        assert forall|k: LogicalPathView|
                            #[trigger] cache0.dom().contains(k) implies cache@.dom().contains(k)
                            && cache@[k] == cache0[k] by {
                            assert(cache_pre.dom().contains(k) && cache_pre[k] == cache0[k]);
                            assert(cache@.dom().contains(k));
                            assert(cache@[k] == cache_pre[k]);
                        }
                        assert(sub_contrib(dom, sub@).contains(e.path@));
                    }
                    return Result::Err(e);
                },
            };
            let dirname = sub.segs[sub.segs.len() - 1].clone();
            let title = title_or_default(doc_title(&doc), to_upper(dirname.as_str()));
            let date = match doc_date(&doc) {
                Option::Some((y, m, d, w)) => Option::Some(format_date(y, m, d, w)),
                Option::None => Option::None,
            };
            let url = url_for(&index);
            let path_key = index.clone();
            proof {
                // the index document itself is not yet cached
                assert(!cache@.dom().contains(index@)) by {
                    assert(index@ == index_view(sub@));
                    assert(sub_contrib(dom, sub@).contains(index@));
                    if cache0.dom().contains(index@) {
                        assert(compiled_here(dom, pv, is_root, index@));
                        assert(compiled_set(dom, pv, is_root).contains(index@));
                    }
                    if level_partial(dom, subsv, i as int).contains(index@) {
                        lemma_level_partial_member(dom, subsv, i as int, index@);
                        let a = choose|a: int|
                            0 <= a < i && #[trigger] sub_contrib(dom, subsv[a]).contains(index@);
                        lemma_contrib_disjoint(dom, subsv[a], sub@);
                    }
                    if compiled_set(dom, sub@, false).contains(index@) {
                        assert(compiled_here(dom, sub@, false, index@));
                        assert(index@.dirs == sub@ && index@.stem == "index"@);
                    }
                }
            }
            cache.put(index, doc);
            let q = PageMeta {
                title,
                url,
                section: dirname,
                date,
                path: path_key,
                children,
            };
            let ghost pages_pre = pages@;
            let ghost qg = q@;
            pages.push(q);
            proof {
                // the new cache holds exactly one more subdirectory contribution
                assert(cache@.dom() =~= cache0.dom().union(
                    level_partial(dom, subsv, i + 1),
                ));
                // the new page accounts for exactly that contribution
                assert(pages@.drop_last() =~= pages_pre);
                assert(pages@.last()@ == qg);
                assert(views_of_pages(pages@) == views_of_pages(pages@.drop_last()).push(
                    page_view(pages@.last()),
                ));
                assert(views_of_pages(pages@) =~= views_of_pages(pages_pre).push(qg));
                crate::meta::lemma_seq_page_paths_push(views_of_pages(pages_pre), qg);
                assert(page_paths(qg) =~= sub_contrib(dom, sub@)) by {
                    assert(qg.path == index_view(sub@));
                    assert(qg.children == views_of_pages(children@));
                    assert(seq_page_paths(qg.children) == compiled_set(dom, sub@, false));
                }
                assert(seq_page_paths(views_of_pages(pages@)) =~= level_partial(
                    dom,
                    subsv,
                    i + 1,
                ));
                // the new page is well-formed
                assert(page_wf(dom, pv, qg)) by {
                    assert(qg.path.dirs == sub@);
                    assert(qg.path.dirs != pv);
                    assert(qg.section == sub@.last()) by {
                        assert(sub.segs@[sub.segs@.len() - 1]@ == sub@.last());
                    }
                    assert(pages_wf(dom, sub@, qg.children));
                }
                assert forall|a: int| 0 <= a < views_of_pages(pages@).len() implies page_wf(
                    dom,
                    pv,
                    #[trigger] views_of_pages(pages@)[a],
                ) by {
                    if a < views_of_pages(pages_pre).len() {
                        assert(views_of_pages(pages@)[a] == views_of_pages(pages_pre)[a]);
                    } else {
                        assert(views_of_pages(pages@)[a] == qg);
                    }
                }
                assert forall|a: int| 0 <= a < views_of_pages(pages@).len() implies deep_sorted(
                    (#[trigger] views_of_pages(pages@)[a]).children,
                ) by {
                    if a < views_of_pages(pages_pre).len() {
                        assert(views_of_pages(pages@)[a] == views_of_pages(pages_pre)[a]);
                    } else {
                        assert(views_of_pages(pages@)[a] == qg);
                        assert(deep_sorted(qg.children));
                    }
                }
                // the new page's paths are fresh: no earlier page drew on
                // this subdirectory's contribution
                assert forall|a: int|
                    0 <= a < views_of_pages(pages_pre).len() implies page_paths(
                    #[trigger] views_of_pages(pages_pre)[a],
                ).disjoint(page_paths(qg)) by {
                    assert forall|k: LogicalPathView|
                        page_paths(views_of_pages(pages_pre)[a]).contains(k) implies !page_paths(
                        qg,
                    ).contains(k) by {
                        lemma_seq_page_paths_member(views_of_pages(pages_pre), k);
                        assert(seq_page_paths(views_of_pages(pages_pre)).contains(k));
                        if page_paths(qg).contains(k) {
                            assert(sub_contrib(dom, sub@).contains(k));
                            lemma_level_partial_member(dom, subsv, i as int, k);
                            let a2 = choose|a2: int|
                                0 <= a2 < i && #[trigger] sub_contrib(dom, subsv[a2]).contains(k);
                            assert(subsv[a2] == subs@[a2]@);
                            assert(subsv[a2].len() == pv.len() + 1);
                            lemma_contrib_disjoint(dom, subsv[a2], sub@);
                        }
                    }
                }
                assert(page_tree_distinct(qg)) by {
                    assert(seq_page_paths(qg.children) == compiled_set(dom, sub@, false));
                    assert(!compiled_set(dom, sub@, false).contains(qg.path));
                    assert(pages_tree_distinct(qg.children));
                }
                assert(pages_tree_distinct(views_of_pages(pages@))) by {
                    assert forall|a: int, b: int|
                        0 <= a < b < views_of_pages(pages@).len() implies page_paths(
                        #[trigger] views_of_pages(pages@)[a],
                    ).disjoint(page_paths(#[trigger] views_of_pages(pages@)[b])) by {
                        if b < views_of_pages(pages_pre).len() {
                            assert(views_of_pages(pages@)[a] == views_of_pages(pages_pre)[a]);
                            assert(views_of_pages(pages@)[b] == views_of_pages(pages_pre)[b]);
                        } else {
                            assert(views_of_pages(pages@)[a] == views_of_pages(pages_pre)[a]);
                            assert(views_of_pages(pages@)[b] == qg);
                        }
                    }
                    assert forall|a: int|
                        0 <= a < views_of_pages(pages@).len() implies page_tree_distinct(
                        #[trigger] views_of_pages(pages@)[a],
                    ) by {
                        if a < views_of_pages(pages_pre).len() {
                            assert(views_of_pages(pages@)[a] == views_of_pages(pages_pre)[a]);
                        } else {
                            assert(views_of_pages(pages@)[a] == qg);
                        }
                    }
                }
                // warnings: the recursion's records cover the subdirectory
                assert forall|a: int, d: Seq<Seq<char>>|
                    0 <= a < i + 1 && #[trigger] sub_warn_covers(dom, subsv[a], d) implies exists|
                    w: int,
                |
                    warn0.len() <= w < warnings@.len() && (warnings@[w])@ == d by {
                    if a < i {
                        let w = choose|w: int|
                            warn0.len() <= w < warn_pre.len() && (warn_pre[w])@ == d;
                        assert(warnings@.take(warn_pre.len() as int)[w] == warn_pre[w]);
                        assert((warnings@[w])@ == d);
                    } else {
                        assert(subsv[a] == sub@);
                        assert(dom.contains(index_view(sub@)));
                        assert(warned_dir(dom, sub@, d));
                        let w = choose|w: int|
                            warn_pre.len() <= w < warnings@.len() && (warnings@[w])@ == d;
                    }
                }
                assert forall|w: int| warn0.len() <= w < warnings@.len() implies warned_dir(
                    dom,
                    pv,
                    (#[trigger] warnings@[w])@,
                ) by {
                    if w < warn_pre.len() {
                        assert(warnings@.take(warn_pre.len() as int)[w] == warn_pre[w]);
                        assert(warnings@[w] == warn_pre[w]);
                    } else {
                        lemma_warned_lift(dom, pv, sub@, (warnings@[w])@);
                    }
                }
                assert forall|j: int| 0 <= j < warn0.len() implies warnings@.take(
                    warn0.len() as int,
                )[j] == warn0[j] by {
                    assert(warnings@.take(warn_pre.len() as int)[j] == warn_pre[j]);
                    assert(warn_pre.take(warn0.len() as int)[j] == warn0[j]);
                }
                assert(warnings@.take(warn0.len() as int) =~= warn0);
                // cached values of earlier keys are untouched
                assert forall|k: LogicalPathView| cache0.dom().contains(k) implies
                    cache@.dom().contains(k) && cache@[k] == cache0[k] by {
                    assert(cache_pre.dom().contains(k));
                    assert(index@ != k);
                }
            }
        } else {
            proof {
                assert(!dom.contains(index_view(sub@)));
            }
            let ghost warn_pre = warnings@;
            warnings.push(sub.clone());
            proof {
                lemma_dir_live_refl(dom, pv);
                assert(warned_dir(dom, pv, sub@)) by {
                    assert(sub@.drop_last() =~= pv);
                }
                assert forall|w: int| warn0.len() <= w < warnings@.len() implies warned_dir(
                    dom,
                    pv,
                    (#[trigger] warnings@[w])@,
                ) by {
                    if w < warn_pre.len() {
                        assert(warnings@[w] == warn_pre[w]);
                    } else {
                        assert(warnings@[w]@ == sub@);
                    }
                }
                assert forall|a: int, d: Seq<Seq<char>>|
                    0 <= a < i + 1 && #[trigger] sub_warn_covers(dom, subsv[a], d) implies exists|
                    w: int,
                |
                    warn0.len() <= w < warnings@.len() && (warnings@[w])@ == d by {
                    if a < i {
                        let w = choose|w: int|
                            warn0.len() <= w < warn_pre.len() && (warn_pre[w])@ == d;
                        assert((warnings@[w])@ == d);
                    } else {
                        assert(subsv[a] == sub@);
                        assert(d == sub@);
                        assert((warnings@[warn_pre.len() as int])@ == d);
                    }
                }
                assert(warnings@.take(warn0.len() as int) =~= warn0);
                assert(level_partial(dom, subsv, i + 1) =~= level_partial(dom, subsv, i as int))
                    by {
                    assert(sub_contrib(dom, subsv[i as int]) =~= Set::<LogicalPathView>::empty());
                }
                assert(cache@.dom() =~= cache0.dom().union(level_partial(dom, subsv, i + 1)));
            }
        }
        i = i + 1;
    }

    let ghost level_full = level_partial(dom, subsv, subs@.len() as int);
    let ghost warn_mid = warnings@;

    let leaves = file_map.typ_files_at(prefix);
    let ghost leavesv = Seq::new(leaves@.len(), |a: int| leaves@[a]@);

    let mut j: usize = 0;
    while j < leaves.len()
        invariant
            j <= leaves@.len(),
            cache.wf(),
            cache@.dom() == cache0.dom().union(level_full).union(
                leaf_partial(is_root, leavesv, j as int),
            ),
            forall|k: LogicalPathView|
                cache0.dom().contains(k) ==> cache@.dom().contains(k) && cache@[k] == cache0[k],
            warnings@ == warn_mid,
            seq_page_paths(views_of_pages(pages@)) == level_full.union(
                leaf_partial(is_root, leavesv, j as int),
            ),
            pages_wf(dom, pv, views_of_pages(pages@)),
            pages_tree_distinct(views_of_pages(pages@)),
            forall|a: int|
                0 <= a < views_of_pages(pages@).len() ==> deep_sorted(
                    (#[trigger] views_of_pages(pages@)[a]).children,
                ),
        decreases leaves@.len() - j,
    {
        let leaf = &leaves[j];
        proof {
            assert(leavesv[j as int] == leaf@);
            assert(dom.contains(leaf@));
            assert(leaf@.dirs == pv);
            assert(leaf@.ext == "typ"@);
        }
        if is_root || !crate::text::str_eq(leaf.stem.as_str(), "index") {
            proof {
                assert(leaf_taken(is_root, leaf@));
                lemma_dir_live_refl(dom, pv);
                assert(compiled_here(dom, pv, is_root, leaf@));
                assert(!level_full.contains(leaf@)) by {
                    if level_full.contains(leaf@) {
                        lemma_level_partial_member(dom, subsv, subs@.len() as int, leaf@);
                        let a = choose|a: int|
                            0 <= a < subs@.len() && #[trigger] sub_contrib(dom, subsv[a]).contains(
                                leaf@,
                            );
                        assert(subsv[a] == subs@[a]@);
                        lemma_contrib_prefix(dom, subsv[a], leaf@);
                    }
                }
                assert(!leaf_partial(is_root, leavesv, j as int).contains(leaf@)) by {
                    if leaf_partial(is_root, leavesv, j as int).contains(leaf@) {
                        lemma_leaf_partial_member(is_root, leavesv, j as int, leaf@);
                        let a = choose|a: int|
                            0 <= a < j && #[trigger] leavesv[a] == leaf@ && leaf_taken(
                                is_root,
                                leaf@,
                            );
                        assert(leaves@[a]@ == leaves@[j as int]@);
                    }
                }
                assert(!cache@.dom().contains(leaf@)) by {
                    if cache0.dom().contains(leaf@) {
                        assert(compiled_set(dom, pv, is_root).contains(leaf@));
                    }
                }
            }
            let real_str = match file_map.get_real(leaf) {
                Option::Some(p) => to_display(p),
                Option::None => {
                    proof {
                        assert(false);
                    }
                    return Result::Err(BuildError { path: leaf.clone(), message: String::new() });
                },
            };
            let doc = match compile_document(engine, real_str.as_str()) {
                Result::Ok(d) => d,
                Result::Err(message) => {
                    proof {
                        assert(compiled_set(dom, pv, is_root).contains(leaf@));
                    }
                    return Result::Err(BuildError { path: leaf.clone(), message });
                },
            };
            let title = title_or_default(doc_title(&doc), to_upper(leaf.stem.as_str()));
            let date = match doc_date(&doc) {
                Option::Some((y, m, d, w)) => Option::Some(format_date(y, m, d, w)),
                Option::None => Option::None,
            };
            let url = url_for(leaf);
            let key = leaf.clone();
            let path_key = leaf.clone();
            cache.put(key, doc);
            let q = PageMeta {
                title,
                url,
                section: String::new(),
                date,
                path: path_key,
                children: Vec::new(),
            };
            let ghost pages_pre = pages@;
            let ghost qg = q@;
            pages.push(q);
            proof {
                assert(cache@.dom() =~= cache0.dom().union(level_full).union(
                    leaf_partial(is_root, leavesv, j + 1),
                ));
                assert(pages@.drop_last() =~= pages_pre);
                assert(pages@.last()@ == qg);
                assert(views_of_pages(pages@) == views_of_pages(pages@.drop_last()).push(
                    page_view(pages@.last()),
                ));
                assert(views_of_pages(pages@) =~= views_of_pages(pages_pre).push(qg));
                lemma_seq_page_paths_push(views_of_pages(pages_pre), qg);
                assert(page_paths(qg) =~= Set::<LogicalPathView>::empty().insert(leaf@)) by {
                    assert(qg.children =~= Seq::<PageMetaView>::empty());
                    assert(seq_page_paths(qg.children) =~= Set::<LogicalPathView>::empty());
                }
                assert(seq_page_paths(views_of_pages(pages@)) =~= level_full.union(
                    leaf_partial(is_root, leavesv, j + 1),
                ));
                assert(page_wf(dom, pv, qg)) by {
                    assert(qg.path == leaf@);
                    assert(qg.section =~= Seq::<char>::empty());
                }
                assert forall|a: int| 0 <= a < views_of_pages(pages@).len() implies page_wf(
                    dom,
                    pv,
                    #[trigger] views_of_pages(pages@)[a],
                ) by {
                    if a < views_of_pages(pages_pre).len() {
                        assert(views_of_pages(pages@)[a] == views_of_pages(pages_pre)[a]);
                    } else {
                        assert(views_of_pages(pages@)[a] == qg);
                    }
                }
                assert forall|a: int| 0 <= a < views_of_pages(pages@).len() implies deep_sorted(
                    (#[trigger] views_of_pages(pages@)[a]).children,
                ) by {
                    if a < views_of_pages(pages_pre).len() {
                        assert(views_of_pages(pages@)[a] == views_of_pages(pages_pre)[a]);
                    } else {
                        assert(views_of_pages(pages@)[a] == qg);
                        assert(qg.children =~= Seq::<PageMetaView>::empty());
                        assert(deep_sorted(qg.children));
                    }
                }
                // the new leaf's path is fresh among the gathered pages
                assert forall|a: int|
                    0 <= a < views_of_pages(pages_pre).len() implies page_paths(
                    #[trigger] views_of_pages(pages_pre)[a],
                ).disjoint(page_paths(qg)) by {
                    assert forall|k: LogicalPathView|
                        page_paths(views_of_pages(pages_pre)[a]).contains(k) implies !page_paths(
                        qg,
                    ).contains(k) by {
                        lemma_seq_page_paths_member(views_of_pages(pages_pre), k);
                        assert(seq_page_paths(views_of_pages(pages_pre)).contains(k));
                        if page_paths(qg).contains(k) {
                            assert(k == leaf@);
                        }
                    }
                }
                assert(page_tree_distinct(qg)) by {
                    assert(seq_page_paths(qg.children) =~= Set::<LogicalPathView>::empty());
                    assert(pages_tree_distinct(qg.children));
                }
                assert(pages_tree_distinct(views_of_pages(pages@))) by {
                    assert forall|a: int, b: int|
                        0 <= a < b < views_of_pages(pages@).len() implies page_paths(
                        #[trigger] views_of_pages(pages@)[a],
                    ).disjoint(page_paths(#[trigger] views_of_pages(pages@)[b])) by {
                        if b < views_of_pages(pages_pre).len() {
                            assert(views_of_pages(pages@)[a] == views_of_pages(pages_pre)[a]);
                            assert(views_of_pages(pages@)[b] == views_of_pages(pages_pre)[b]);
                        } else {
                            assert(views_of_pages(pages@)[a] == views_of_pages(pages_pre)[a]);
                            assert(views_of_pages(pages@)[b] == qg);
                        }
                    }
                    assert forall|a: int|
                        0 <= a < views_of_pages(pages@).len() implies page_tree_distinct(
                        #[trigger] views_of_pages(pages@)[a],
                    ) by {
                        if a < views_of_pages(pages_pre).len() {
                            assert(views_of_pages(pages@)[a] == views_of_pages(pages_pre)[a]);
                        } else {
                            assert(views_of_pages(pages@)[a] == qg);
                        }
                    }
                }
                assert forall|k: LogicalPathView| cache0.dom().contains(k) implies
                    cache@.dom().contains(k) && cache@[k] == cache0[k] by {
                    assert(leaf@ != k);
                }
            }
        } else {
            proof {
                assert(!leaf_taken(is_root, leaf@));
                assert(leaf_partial(is_root, leavesv, j + 1) =~= leaf_partial(
                    is_root,
                    leavesv,
                    j as int,
                ));
            }
        }
        j = j + 1;
    }

    proof {
        // everything gathered is exactly what the walk is specified to compile
        let gathered = level_full.union(leaf_partial(is_root, leavesv, leaves@.len() as int));
        assert forall|k: LogicalPathView| gathered.contains(k) implies compiled_here(
            dom,
            pv,
            is_root,
            k,
        ) by {
            if level_full.contains(k) {
                lemma_level_partial_member(dom, subsv, subs@.len() as int, k);
                let a = choose|a: int|
                    0 <= a < subs@.len() && #[trigger] sub_contrib(dom, subsv[a]).contains(k);
                assert(subsv[a] == subs@[a]@);
                assert(subs@[a]@.len() == pv.len() + 1);
                assert(subs@[a]@.take(pv.len() as int) == pv);
                assert(is_subdir(dom, pv, subs@[a]@.last()));
                lemma_sub_in_level(dom, pv, subsv[a], is_root);
            } else {
                lemma_leaf_partial_member(is_root, leavesv, leaves@.len() as int, k);
                let a = choose|a: int|
                    0 <= a < leaves@.len() && #[trigger] leavesv[a] == k && leaf_taken(is_root, k);
                assert(leaves@[a]@ == k);
                lemma_dir_live_refl(dom, pv);
            }
        }
        assert forall|k: LogicalPathView| compiled_here(dom, pv, is_root, k) implies
            gathered.contains(k) by {
            lemma_compiled_decompose(dom, pv, is_root, k);
            if k.dirs == pv {
                lemma_leaf_partial_member(is_root, leavesv, leaves@.len() as int, k);
                let a = choose|a: int|
                    0 <= a < leaves@.len() && #[trigger] leaves@[a]@ == k;
                assert(leavesv[a] == k);
                assert(leaf_taken(is_root, k));
            } else {
                let c = k.dirs[pv.len() as int];
                let sub = pv.push(c);
                assert(is_subdir(dom, pv, c));
                let a = choose|a: int| 0 <= a < subs@.len() && #[trigger] subs@[a]@ == pv.push(c);
                assert(subsv[a] == sub);
                assert(sub_contrib(dom, subsv[a]).contains(k)) by {
                    if k == index_view(sub) {
                    } else {
                        assert(compiled_here(dom, sub, false, k));
                    }
                }
                lemma_level_partial_member(dom, subsv, subs@.len() as int, k);
                assert(level_full.contains(k));
            }
        }
        assert(gathered =~= compiled_set(dom, pv, is_root));
        assert(cache@.dom() =~= cache0.dom().union(compiled_set(dom, pv, is_root)));

        // every warned directory has its record
        assert forall|d: Seq<Seq<char>>| #[trigger] warned_dir(dom, pv, d) implies exists|w: int|
            warn0.len() <= w < warnings@.len() && (warnings@[w])@ == d by {
            lemma_warned_decompose(dom, pv, d);
            if d.len() == pv.len() + 1 {
                let a = choose|a: int| 0 <= a < subs@.len() && #[trigger] subs@[a]@ == pv.push(
                    d.last(),
                );
                assert(subsv[a] == pv.push(d.last()));
                assert(subsv[a] =~= d);
                assert(sub_warn_covers(dom, subsv[a], d));
            } else {
                let c = d[pv.len() as int];
                let a = choose|a: int| 0 <= a < subs@.len() && #[trigger] subs@[a]@ == pv.push(c);
                assert(subsv[a] == pv.push(c));
                assert(sub_warn_covers(dom, subsv[a], d));
            }
        }
    }

    let ghost pre_sort = views_of_pages(pages@);
    sort_meta(&mut pages);
    proof {
        lemma_sort_pages_keeps_paths(pre_sort);
        lemma_sort_pages_keeps_wf(dom, pv, pre_sort);
        lemma_sort_pages_deep_sorted(pre_sort);
        lemma_sort_pages_keeps_distinct(pre_sort);
    }

    Result::Ok(pages)
}

} // verus!
