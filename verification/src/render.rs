//! The render pass's half of the compile-once/render-once handshake: the
//! walk that takes each cached document out exactly once and turns it
//! into a unit the templating layer can finish.

use vstd::prelude::*;

use crate::compile::render_html;
use crate::file_map::FileMap;
use crate::paths::{seg_prefix_of, LogicalPath, LogicalPathView, LogicalPrefix};
use crate::store::DocCache;

verus! {

broadcast use vstd::seq::group_seq_axioms, vstd::std_specs::vec::group_vec_axioms;

/// What the body-extraction of a rendered page yields: a function of the
/// markup alone.
pub uninterp spec fn body_content_of(s: Seq<char>) -> Seq<char>;

/// Relies on scraper's Html::parse_document and Selector: the inner
/// markup of the document's body element, or the whole markup when no
/// body element is found; determined by the input text alone.
#[verifier::external_body]
pub(crate) fn extract_body_content(html: &str) -> (r: String)
    ensures
        r@ == body_content_of(html@),
{
    let document = scraper::Html::parse_document(html);
    let selector = scraper::Selector::parse("body").unwrap();
    document.select(&selector).next().map(|body| body.inner_html()).unwrap_or_else(
        || html.to_string(),
    )
}

/// One page ready for templating: its logical source path, the extracted
/// body markup, and the section the page sits in.
pub struct RenderJob {
    pub path: LogicalPath,
    pub body: String,
    pub current_section: String,
}

/// A fatal error of the render pass. A missing document is an internal
/// inconsistency between the two walks, never skipped silently.
#[derive(Debug)]
pub enum RenderError {
    MissingDocument(LogicalPath),
    RenderFailed(LogicalPath, String),
}

/// The section a rendered page sits in: the first directory segment of
/// its logical path, or empty for a page at the top level.
pub open spec fn section_of(k: LogicalPathView) -> Seq<char> {
    if k.dirs.len() == 0 {
        Seq::empty()
    } else {
        k.dirs[0]
    }
}

/// Every document path the render pass visits below `prefix`.
pub open spec fn walked_set(
    dom: Set<LogicalPathView>,
    prefix: Seq<Seq<char>>,
) -> Set<LogicalPathView> {
    Set::new(
        |k: LogicalPathView|
            dom.contains(k) && seg_prefix_of(prefix, k.dirs) && k.ext == "typ"@,
    )
}

/// The set of the first `i` listed documents.
pub open spec fn taken_partial(paths: Seq<LogicalPathView>, i: int) -> Set<LogicalPathView>
    decreases i,
{
    if i <= 0 {
        Set::empty()
    } else {
        taken_partial(paths, i - 1).insert(paths[i - 1])
    }
}

pub proof fn lemma_taken_partial_member(paths: Seq<LogicalPathView>, i: int, k: LogicalPathView)
    requires
        0 <= i <= paths.len(),
    ensures
        taken_partial(paths, i).contains(k) <==> exists|a: int|
            0 <= a < i && #[trigger] paths[a] == k,
    decreases i,
{
    if i > 0 {
        lemma_taken_partial_member(paths, i - 1, k);
        if taken_partial(paths, i).contains(k) && k != paths[i - 1] {
            let a = choose|a: int| 0 <= a < i - 1 && #[trigger] paths[a] == k;
            assert(paths[a] == k);
        }
        if exists|a: int| 0 <= a < i && #[trigger] paths[a] == k {
            let a = choose|a: int| 0 <= a < i && #[trigger] paths[a] == k;
            if a < i - 1 {
                assert(taken_partial(paths, i - 1).contains(k));
            }
        }
    }
}

/// The render walk below `prefix`: takes the cached document of every
/// document path in the map, exactly once each, and appends one render
/// job per document. A path the metadata pass never cached is a fatal
/// internal error; so every job comes from the cache, and afterwards the
/// cache no longer holds any walked path.
pub fn collect_render_jobs(
    prefix: &LogicalPrefix,
    file_map: &FileMap,
    cache: &mut DocCache<typst_html::HtmlDocument>,
    out: &mut Vec<RenderJob>,
) -> (r: Result<(), RenderError>)
    requires
        file_map.wf(),
        old(cache).wf(),
    ensures
        final(cache).wf(),
        match r {
            Result::Ok(_) => {
                &&& walked_set(file_map@.dom(), prefix@).subset_of(old(cache)@.dom())
                &&& final(cache)@.dom() == old(cache)@.dom().difference(
                    walked_set(file_map@.dom(), prefix@),
                )
                &&& forall|k: LogicalPathView|
                    final(cache)@.dom().contains(k) ==> final(cache)@[k] == old(cache)@[k]
                &&& final(out)@.len() >= old(out)@.len()
                &&& forall|a: int|
                    0 <= a < old(out)@.len() ==> final(out)@[a] == old(out)@[a]
                &&& forall|a: int|
                    old(out)@.len() <= a < final(out)@.len() ==> walked_set(
                        file_map@.dom(),
                        prefix@,
                    ).contains((#[trigger] final(out)@[a]).path@)
                        && (final(out)@[a]).current_section@
                        == section_of((final(out)@[a]).path@)
                &&& forall|k: LogicalPathView|
                    #[trigger] walked_set(file_map@.dom(), prefix@).contains(k) ==> exists|a: int|
                        old(out)@.len() <= a < final(out)@.len() && (final(out)@[a]).path@ == k
            },
            Result::Err(RenderError::MissingDocument(p)) => walked_set(
                file_map@.dom(),
                prefix@,
            ).contains(p@) && !old(cache)@.dom().contains(p@),
            Result::Err(RenderError::RenderFailed(p, _)) => walked_set(
                file_map@.dom(),
                prefix@,
            ).contains(p@),
        },
{
    let ghost dom = file_map@.dom();
    let ghost cache0 = cache@;
    let ghost out0 = out@;
    let paths = file_map.typ_files_under(prefix);
    let ghost pathsv = Seq::new(paths@.len(), |a: int| paths@[a]@);

    let mut i: usize = 0;
    while i < paths.len()
        invariant
            i <= paths@.len(),
            cache.wf(),
            cache@.dom() == cache0.dom().difference(taken_partial(pathsv, i as int)),
            taken_partial(pathsv, i as int).subset_of(cache0.dom()),
            forall|k: LogicalPathView| cache@.dom().contains(k) ==> cache@[k] == cache0[k],
            out@.len() == out0.len() + i,
            forall|a: int| 0 <= a < out0.len() ==> out@[a] == out0[a],
            forall|a: int|
                out0.len() <= a < out@.len() ==> (#[trigger] out@[a]).path@ == pathsv[a
                    - out0.len()] && (#[trigger] out@[a]).current_section@ == section_of(
                    (out@[a]).path@,
                ),
        decreases paths@.len() - i,
    {
        let p = &paths[i];
        proof {
            assert(pathsv[i as int] == p@);
            assert(dom.contains(p@) && seg_prefix_of(prefix@, p@.dirs) && p@.ext == "typ"@);
        }
        let doc = match cache.take(p) {
            Option::Some(d) => d,
            Option::None => {
                proof {
                    assert(!cache0.dom().contains(p@)) by {
                        if cache0.dom().contains(p@) {
                            lemma_taken_partial_member(pathsv, i as int, p@);
                            let a = choose|a: int| 0 <= a < i && #[trigger] pathsv[a] == p@;
                            assert(paths@[a]@ == paths@[i as int]@);
                        }
                    }
                    assert(walked_set(dom, prefix@).contains(p@));
                }
                return Result::Err(RenderError::MissingDocument(p.clone()));
            },
        };
        let markup = match render_html(&doc) {
            Result::Ok(m) => m,
            Result::Err(message) => {
                proof {
                    assert(walked_set(dom, prefix@).contains(p@));
                }
                return Result::Err(RenderError::RenderFailed(p.clone(), message));
            },
        };
        let body = extract_body_content(markup.as_str());
        let current_section = if p.dirs.len() == 0 {
            String::new()
        } else {
            p.dirs[0].clone()
        };
        proof {
            if p.dirs@.len() > 0 {
                assert(p@.dirs[0] == p.dirs@[0]@);
            }
            assert(current_section@ == section_of(p@));
        }
        let ghost pre_out = out@;
        out.push(RenderJob { path: p.clone(), body, current_section });
        proof {
            assert(cache@.dom() =~= cache0.dom().difference(taken_partial(pathsv, i + 1)));
            assert(forall|a: int| 0 <= a < pre_out.len() ==> out@[a] == pre_out[a]);
            assert((out@[pre_out.len() as int]).path@ == pathsv[i as int]);
            assert((out@[pre_out.len() as int]).current_section@ == section_of(
                (out@[pre_out.len() as int]).path@,
            ));
        }
        i = i + 1;
    }
    proof {
        assert forall|k: LogicalPathView| taken_partial(pathsv, paths@.len() as int).contains(
            k,
        ) <==> walked_set(dom, prefix@).contains(k) by {
            lemma_taken_partial_member(pathsv, paths@.len() as int, k);
            if walked_set(dom, prefix@).contains(k) {
                let a = choose|a: int| 0 <= a < paths@.len() && #[trigger] paths@[a]@ == k;
                assert(pathsv[a] == k);
            }
            if exists|a: int| 0 <= a < paths@.len() && #[trigger] pathsv[a] == k {
                let a = choose|a: int| 0 <= a < paths@.len() && #[trigger] pathsv[a] == k;
                assert(paths@[a]@ == k);
            }
        }
        assert(taken_partial(pathsv, paths@.len() as int) =~= walked_set(dom, prefix@));
        assert(cache@.dom() =~= cache0.dom().difference(walked_set(dom, prefix@)));
        assert forall|k: LogicalPathView| #[trigger] walked_set(dom, prefix@).contains(k) implies
            exists|a: int| out0.len() <= a < out@.len() && (out@[a]).path@ == k by {
            lemma_taken_partial_member(pathsv, paths@.len() as int, k);
            let a = choose|a: int| 0 <= a < paths@.len() && #[trigger] pathsv[a] == k;
            assert((out@[out0.len() + a]).path@ == k);
        }
    }
    Result::Ok(())
}

} // verus!
