//! The syndication feed: XML escaping and the exact text of the feed a
//! build emits for its dated pages.

use vstd::prelude::*;
use vstd::string::StringExecFns;
use vstd::string::StrSliceExecFns;

use crate::config::SiteConfig;
use crate::meta::{views_of_pages, PageMeta, PageMetaView};
use crate::text::{trim_end_slashes, trim_slashes};

verus! {

broadcast use vstd::seq::group_seq_axioms, vstd::std_specs::vec::group_vec_axioms;

/// What one character becomes under XML escaping.
pub open spec fn xml_escaped_char(c: char) -> Seq<char> {
    if c == '&' {
        "&amp;"@
    } else if c == '<' {
        "&lt;"@
    } else if c == '>' {
        "&gt;"@
    } else if c == '"' {
        "&quot;"@
    } else if c == '\'' {
        "&apos;"@
    } else {
        seq![c]
    }
}

/// A text with its XML-special characters escaped.
pub open spec fn xml_escape_chars(s: Seq<char>) -> Seq<char>
    decreases s.len(),
{
    if s.len() == 0 {
        Seq::empty()
    } else {
        xml_escaped_char(s.first()) + xml_escape_chars(s.drop_first())
    }
}

pub proof fn lemma_xml_escape_push(s: Seq<char>, c: char)
    ensures
        xml_escape_chars(s.push(c)) == xml_escape_chars(s) + xml_escaped_char(c),
    decreases s.len(),
{
    if s.len() == 0 {
        assert(s.push(c).drop_first() =~= Seq::<char>::empty());
        assert(s.push(c).first() == c);
        assert(xml_escape_chars(s.push(c)) == xml_escaped_char(c) + xml_escape_chars(
            Seq::<char>::empty(),
        ));
        assert(xml_escape_chars(Seq::<char>::empty()) == Seq::<char>::empty());
        assert(xml_escape_chars(s) == Seq::<char>::empty());
        assert(xml_escape_chars(s.push(c)) =~= xml_escape_chars(s) + xml_escaped_char(c));
    } else {
        lemma_xml_escape_push(s.drop_first(), c);
        assert(s.push(c).drop_first() =~= s.drop_first().push(c));
        assert(s.push(c).first() == s.first());
        assert(xml_escape_chars(s.push(c)) =~= xml_escape_chars(s) + xml_escaped_char(c));
    }
}

/// Escapes the XML-special characters of a text.
pub fn escape_xml(s: &str) -> (r: String)
    ensures
        r@ == xml_escape_chars(s@),
{
    let len = s.unicode_len();
    let mut out = String::new();
    proof {
        assert(s@.take(0) =~= Seq::<char>::empty());
        assert(out@ =~= xml_escape_chars(s@.take(0)));
    }
    let mut i: usize = 0;
    while i < len
        invariant
            i <= len,
            len == s@.len(),
            out@ == xml_escape_chars(s@.take(i as int)),
        decreases len - i,
    {
        let c = s.get_char(i);
        if c == '&' {
            out.append("&amp;");
        } else if c == '<' {
            out.append("&lt;");
        } else if c == '>' {
            out.append("&gt;");
        } else if c == '"' {
            out.append("&quot;");
        } else if c == '\'' {
            out.append("&apos;");
        } else {
            let one = s.substring_char(i, i + 1);
            proof {
                assert(one@ =~= seq![s@[i as int]]);
            }
            out.append(one);
        }
        proof {
            lemma_xml_escape_push(s@.take(i as int), s@[i as int]);
            assert(s@.take(i + 1) =~= s@.take(i as int).push(s@[i as int]));
            assert(out@ =~= xml_escape_chars(s@.take(i + 1)));
        }
        i = i + 1;
    }
    proof {
        assert(s@.take(len as int) =~= s@);
    }
    out
}

/// The date text of a page, empty when none is declared. The feed only
/// renders pages that declare one.
pub open spec fn date_of(p: PageMetaView) -> Seq<char> {
    match p.date {
        Option::Some(d) => d,
        Option::None => Seq::empty(),
    }
}

/// The text of one feed item.
pub open spec fn rss_item_chars(p: PageMetaView, base: Seq<char>) -> Seq<char> {
    "    <item>\n      <title>"@ + xml_escape_chars(p.title) + "</title>\n      <link>"@ + base
        + p.url + "</link>\n      <guid>"@ + base + p.url + "</guid>\n      <pubDate>"@ + date_of(
        p,
    ) + "</pubDate>\n    </item>"@
}

/// Whether a page appears in the feed's top run: it has a date and no
/// children.
pub open spec fn top_item(p: PageMetaView) -> bool {
    p.date is Some && p.children.len() == 0
}

/// The item texts of the dated childless pages, in order.
pub open spec fn item_strs(pages: Seq<PageMetaView>, base: Seq<char>) -> Seq<Seq<char>>
    decreases pages.len(),
{
    if pages.len() == 0 {
        Seq::empty()
    } else if top_item(pages.last()) {
        item_strs(pages.drop_last(), base).push(rss_item_chars(pages.last(), base))
    } else {
        item_strs(pages.drop_last(), base)
    }
}

/// The item texts of the dated pages of one child run, in order.
pub open spec fn kid_strs(kids: Seq<PageMetaView>, base: Seq<char>) -> Seq<Seq<char>>
    decreases kids.len(),
{
    if kids.len() == 0 {
        Seq::empty()
    } else if kids.last().date is Some {
        kid_strs(kids.drop_last(), base).push(rss_item_chars(kids.last(), base))
    } else {
        kid_strs(kids.drop_last(), base)
    }
}

/// The item texts of all dated children of the pages, in order.
pub open spec fn child_item_strs(pages: Seq<PageMetaView>, base: Seq<char>) -> Seq<Seq<char>>
    decreases pages.len(),
{
    if pages.len() == 0 {
        Seq::empty()
    } else {
        child_item_strs(pages.drop_last(), base) + kid_strs(pages.last().children, base)
    }
}

/// Texts joined by a line break.
pub open spec fn join_lines(items: Seq<Seq<char>>) -> Seq<char>
    decreases items.len(),
{
    if items.len() == 0 {
        Seq::empty()
    } else if items.len() == 1 {
        items.last()
    } else {
        join_lines(items.drop_last()) + "\n"@ + items.last()
    }
}

/// The whole feed document for a page tree.
pub open spec fn rss_chars(
    pages: Seq<PageMetaView>,
    title: Seq<char>,
    base_url: Seq<char>,
) -> Seq<char> {
    let base = trim_slashes(base_url);
    "<?xml version=\"1.0\" encoding=\"UTF-8\"?>\n<rss version=\"2.0\">\n  <channel>\n    <title>"@
        + xml_escape_chars(title) + "</title>\n    <link>"@ + base + "</link>\n    <description>"@
        + xml_escape_chars(title) + "</description>\n    <language>en-us</language>\n"@
        + join_lines(item_strs(pages, base)) + "\n"@ + join_lines(child_item_strs(pages, base))
        + "\n  </channel>\n</rss>"@
}

/// Renders one feed item.
fn render_item(p: &PageMeta, base: &str) -> (r: String)
    requires
        p.date is Some,
    ensures
        r@ == rss_item_chars(p@, base@),
{
    let mut s = String::from_str("    <item>\n      <title>");
    let t = escape_xml(p.title.as_str());
    s.append(t.as_str());
    s.append("</title>\n      <link>");
    s.append(base);
    s.append(p.url.as_str());
    s.append("</link>\n      <guid>");
    s.append(base);
    s.append(p.url.as_str());
    s.append("</guid>\n      <pubDate>");
    match &p.date {
        Option::Some(d) => {
            s.append(d.as_str());
        },
        Option::None => {},
    }
    s.append("</pubDate>\n    </item>");
    proof {
        assert(s@ =~= rss_item_chars(p@, base@));
    }
    s
}

/// Joins rendered items with line breaks.
fn join_rendered(items: &Vec<String>) -> (r: String)
    ensures
        r@ == join_lines(Seq::new(items@.len(), |i: int| items@[i]@)),
{
    let ghost iv = Seq::new(items@.len(), |i: int| items@[i]@);
    let mut s = String::new();
    proof {
        assert(iv.take(0) =~= Seq::<Seq<char>>::empty());
        assert(s@ =~= join_lines(iv.take(0)));
    }
    let mut i: usize = 0;
    while i < items.len()
        invariant
            i <= items@.len(),
            s@ == join_lines(iv.take(i as int)),
        decreases items@.len() - i,
    {
        if i > 0 {
            s.append("\n");
        }
        s.append(items[i].as_str());
        proof {
            assert(iv.take(i + 1).drop_last() =~= iv.take(i as int));
            assert(iv.take(i + 1).last() == iv[i as int]);
            assert(s@ =~= join_lines(iv.take(i + 1)));
        }
        i = i + 1;
    }
    proof {
        assert(iv.take(items@.len() as int) =~= iv);
    }
    s
}

/// Renders the feed for a page tree: the site's title as channel title
/// and description, the base url with trailing slashes removed, one item
/// per dated childless top page, then one per dated child page.
pub fn generate_rss(pages: &Vec<PageMeta>, site: &SiteConfig) -> (r: String)
    ensures
        r@ == rss_chars(views_of_pages(pages@), site.title@, site.base_url@),
{
    let base = trim_end_slashes(site.base_url.as_str());
    let ghost pv = views_of_pages(pages@);
    proof {
        crate::meta::lemma_views_of_pages(pages@);
    }

    let mut items: Vec<String> = Vec::new();
    proof {
        assert(pv.take(0) =~= Seq::<PageMetaView>::empty());
        assert(Seq::new(items@.len(), |a: int| items@[a]@) =~= item_strs(pv.take(0), base@));
    }
    let mut i: usize = 0;
    while i < pages.len()
        invariant
            i <= pages@.len(),
            pv.len() == pages@.len(),
            forall|a: int| 0 <= a < pages@.len() ==> pv[a] == (#[trigger] pages@[a])@,
            Seq::new(items@.len(), |a: int| items@[a]@) == item_strs(pv.take(i as int), base@),
        decreases pages@.len() - i,
    {
        let p = &pages[i];
        proof {
            assert(pv.take(i + 1).drop_last() =~= pv.take(i as int));
            assert(pv.take(i + 1).last() == pv[i as int]);
        }
        if p.date.is_some() && p.children.len() == 0 {
            proof {
                assert(top_item(pv[i as int]));
            }
            let it = render_item(p, base.as_str());
            let ghost pre = items@;
            items.push(it);
            proof {
                assert forall|a: int| #![trigger items@[a]] 0 <= a < items@.len() implies Seq::new(
                    items@.len(),
                    |a2: int| items@[a2]@,
                )[a] == item_strs(pv.take(i + 1), base@)[a] by {
                    if a < pre.len() {
                        assert(items@[a] == pre[a]);
                        assert(Seq::new(pre.len(), |a2: int| pre[a2]@)[a] == item_strs(
                            pv.take(i as int),
                            base@,
                        )[a]);
                    }
                }
                assert(Seq::new(items@.len(), |a: int| items@[a]@) =~= item_strs(
                    pv.take(i + 1),
                    base@,
                ));
            }
        } else {
            proof {
                assert(!top_item(pv[i as int]));
                assert(Seq::new(items@.len(), |a: int| items@[a]@) =~= item_strs(
                    pv.take(i + 1),
                    base@,
                ));
            }
        }
        i = i + 1;
    }
    proof {
        assert(pv.take(pages@.len() as int) =~= pv);
    }
    let items_text = join_rendered(&items);

    let mut kids: Vec<String> = Vec::new();
    proof {
        assert(Seq::new(kids@.len(), |a: int| kids@[a]@) =~= child_item_strs(pv.take(0), base@));
    }
    let mut i2: usize = 0;
    while i2 < pages.len()
        invariant
            i2 <= pages@.len(),
            pv.len() == pages@.len(),
            forall|a: int| 0 <= a < pages@.len() ==> pv[a] == (#[trigger] pages@[a])@,
            Seq::new(kids@.len(), |a: int| kids@[a]@) == child_item_strs(pv.take(i2 as int), base@),
        decreases pages@.len() - i2,
    {
        let p = &pages[i2];
        let ghost kv = views_of_pages(p.children@);
        proof {
            crate::meta::lemma_views_of_pages(p.children@);
            assert(pv.take(i2 + 1).drop_last() =~= pv.take(i2 as int));
            assert(pv.take(i2 + 1).last() == pv[i2 as int]);
            assert(pv[i2 as int].children == kv);
            assert(Seq::new(kids@.len(), |a: int| kids@[a]@) + kid_strs(kv.take(0), base@)
                =~= Seq::new(kids@.len(), |a: int| kids@[a]@));
            assert(kv.take(0) =~= Seq::<PageMetaView>::empty());
        }
        let mut j: usize = 0;
        while j < p.children.len()
            invariant
                j <= p.children@.len(),
                kv.len() == p.children@.len(),
                forall|a: int| 0 <= a < p.children@.len() ==> kv[a] == (#[trigger] p.children@[a])@,
                Seq::new(kids@.len(), |a: int| kids@[a]@) == child_item_strs(
                    pv.take(i2 as int),
                    base@,
                ) + kid_strs(kv.take(j as int), base@),
            decreases p.children@.len() - j,
        {
            let k = &p.children[j];
            proof {
                assert(kv.take(j + 1).drop_last() =~= kv.take(j as int));
                assert(kv.take(j + 1).last() == kv[j as int]);
            }
            if k.date.is_some() {
                let it = render_item(k, base.as_str());
                let ghost pre = kids@;
                kids.push(it);
                proof {
                    assert forall|a: int| #![trigger kids@[a]] 0 <= a < kids@.len() implies Seq::new(
                        kids@.len(),
                        |a2: int| kids@[a2]@,
                    )[a] == (child_item_strs(pv.take(i2 as int), base@) + kid_strs(
                        kv.take(j + 1),
                        base@,
                    ))[a] by {
                        if a < pre.len() {
                            assert(kids@[a] == pre[a]);
                            assert(Seq::new(pre.len(), |a2: int| pre[a2]@)[a] == (child_item_strs(
                                pv.take(i2 as int),
                                base@,
                            ) + kid_strs(kv.take(j as int), base@))[a]);
                        }
                    }
                    assert(Seq::new(kids@.len(), |a: int| kids@[a]@) =~= child_item_strs(
                        pv.take(i2 as int),
                        base@,
                    ) + kid_strs(kv.take(j + 1), base@));
                }
            } else {
                proof {
                    assert(Seq::new(kids@.len(), |a: int| kids@[a]@) =~= child_item_strs(
                        pv.take(i2 as int),
                        base@,
                    ) + kid_strs(kv.take(j + 1), base@));
                }
            }
            j = j + 1;
        }
        proof {
            assert(kv.take(p.children@.len() as int) =~= kv);
            assert(Seq::new(kids@.len(), |a: int| kids@[a]@) =~= child_item_strs(
                pv.take(i2 + 1),
                base@,
            ));
        }
        i2 = i2 + 1;
    }
    proof {
        assert(pv.take(pages@.len() as int) =~= pv);
    }
    let kids_text = join_rendered(&kids);

    let mut s = String::from_str(
        "<?xml version=\"1.0\" encoding=\"UTF-8\"?>\n<rss version=\"2.0\">\n  <channel>\n    <title>",
    );
    let t = escape_xml(site.title.as_str());
    s.append(t.as_str());
    s.append("</title>\n    <link>");
    s.append(base.as_str());
    s.append("</link>\n    <description>");
    s.append(t.as_str());
    s.append("</description>\n    <language>en-us</language>\n");
    s.append(items_text.as_str());
    s.append("\n");
    s.append(kids_text.as_str());
    s.append("\n  </channel>\n</rss>");
    proof {
        assert(s@ =~= rss_chars(views_of_pages(pages@), site.title@, site.base_url@));
    }
    s
}


/// The urls of the undated pages of the top run, in order.
pub open spec fn undated_top_urls(pages: Seq<PageMetaView>) -> Seq<Seq<char>>
    decreases pages.len(),
{
    if pages.len() == 0 {
        Seq::empty()
    } else if pages.last().date is None {
        undated_top_urls(pages.drop_last()).push(pages.last().url)
    } else {
        undated_top_urls(pages.drop_last())
    }
}

/// The urls of the undated pages of one child run, in order.
pub open spec fn undated_kid_urls(kids: Seq<PageMetaView>) -> Seq<Seq<char>>
    decreases kids.len(),
{
    if kids.len() == 0 {
        Seq::empty()
    } else if kids.last().date is None {
        undated_kid_urls(kids.drop_last()).push(kids.last().url)
    } else {
        undated_kid_urls(kids.drop_last())
    }
}

/// The urls of all undated children of the pages, in order.
pub open spec fn undated_child_urls(pages: Seq<PageMetaView>) -> Seq<Seq<char>>
    decreases pages.len(),
{
    if pages.len() == 0 {
        Seq::empty()
    } else {
        undated_child_urls(pages.drop_last()) + undated_kid_urls(pages.last().children)
    }
}

/// Every page the feed leaves out for lacking a date: the top-level run,
/// then each page's children, in page order.
pub open spec fn undated_page_urls(pages: Seq<PageMetaView>) -> Seq<Seq<char>> {
    undated_top_urls(pages) + undated_child_urls(pages)
}

/// The urls of the pages the feed excludes for lacking a date, for the
/// caller to warn about: the top-level pages first, then the children.
pub fn undated_pages(pages: &Vec<PageMeta>) -> (r: Vec<String>)
    ensures
        Seq::new(r@.len(), |i: int| r@[i]@) == undated_page_urls(views_of_pages(pages@)),
{
    let ghost pv = views_of_pages(pages@);
    proof {
        crate::meta::lemma_views_of_pages(pages@);
    }
    let mut out: Vec<String> = Vec::new();
    proof {
        assert(pv.take(0) =~= Seq::<PageMetaView>::empty());
        assert(Seq::new(out@.len(), |a: int| out@[a]@) =~= undated_top_urls(pv.take(0)));
    }
    let mut i: usize = 0;
    while i < pages.len()
        invariant
            i <= pages@.len(),
            pv.len() == pages@.len(),
            forall|a: int| 0 <= a < pages@.len() ==> pv[a] == (#[trigger] pages@[a])@,
            Seq::new(out@.len(), |a: int| out@[a]@) == undated_top_urls(pv.take(i as int)),
        decreases pages@.len() - i,
    {
        let p = &pages[i];
        proof {
            assert(pv.take(i + 1).drop_last() =~= pv.take(i as int));
            assert(pv.take(i + 1).last() == pv[i as int]);
        }
        if p.date.is_none() {
            let ghost pre = out@;
            out.push(p.url.clone());
            proof {
                assert forall|a: int| #![trigger out@[a]] 0 <= a < out@.len() implies Seq::new(
                    out@.len(),
                    |a2: int| out@[a2]@,
                )[a] == undated_top_urls(pv.take(i + 1))[a] by {
                    if a < pre.len() {
                        assert(out@[a] == pre[a]);
                        assert(Seq::new(pre.len(), |a2: int| pre[a2]@)[a] == undated_top_urls(
                            pv.take(i as int),
                        )[a]);
                    }
                }
                assert(Seq::new(out@.len(), |a: int| out@[a]@) =~= undated_top_urls(
                    pv.take(i + 1),
                ));
            }
        } else {
            proof {
                assert(Seq::new(out@.len(), |a: int| out@[a]@) =~= undated_top_urls(
                    pv.take(i + 1),
                ));
            }
        }
        i = i + 1;
    }
    proof {
        assert(pv.take(pages@.len() as int) =~= pv);
    }
    let ghost top_done = Seq::new(out@.len(), |a: int| out@[a]@);
    proof {
        assert(top_done == undated_top_urls(pv));
        assert(undated_child_urls(pv.take(0)) =~= Seq::<Seq<char>>::empty());
        assert(Seq::new(out@.len(), |a: int| out@[a]@) =~= top_done + undated_child_urls(
            pv.take(0),
        ));
    }
    let mut i2: usize = 0;
    while i2 < pages.len()
        invariant
            i2 <= pages@.len(),
            pv.len() == pages@.len(),
            forall|a: int| 0 <= a < pages@.len() ==> pv[a] == (#[trigger] pages@[a])@,
            top_done == undated_top_urls(pv),
            Seq::new(out@.len(), |a: int| out@[a]@) == top_done + undated_child_urls(
                pv.take(i2 as int),
            ),
        decreases pages@.len() - i2,
    {
        let p = &pages[i2];
        let ghost kv = views_of_pages(p.children@);
        proof {
            crate::meta::lemma_views_of_pages(p.children@);
            assert(pv.take(i2 + 1).drop_last() =~= pv.take(i2 as int));
            assert(pv.take(i2 + 1).last() == pv[i2 as int]);
            assert(pv[i2 as int].children == kv);
            assert(kv.take(0) =~= Seq::<PageMetaView>::empty());
            assert(undated_kid_urls(kv.take(0)) =~= Seq::<Seq<char>>::empty());
            assert(Seq::new(out@.len(), |a: int| out@[a]@) =~= top_done + undated_child_urls(
                pv.take(i2 as int),
            ) + undated_kid_urls(kv.take(0)));
        }
        let mut j: usize = 0;
        while j < p.children.len()
            invariant
                j <= p.children@.len(),
                kv.len() == p.children@.len(),
                forall|a: int| 0 <= a < p.children@.len() ==> kv[a] == (#[trigger] p.children@[a])@,
                Seq::new(out@.len(), |a: int| out@[a]@) == top_done + undated_child_urls(
                    pv.take(i2 as int),
                ) + undated_kid_urls(kv.take(j as int)),
            decreases p.children@.len() - j,
        {
            let k = &p.children[j];
            proof {
                assert(kv.take(j + 1).drop_last() =~= kv.take(j as int));
                assert(kv.take(j + 1).last() == kv[j as int]);
            }
            if k.date.is_none() {
                let ghost pre = out@;
                out.push(k.url.clone());
                proof {
                    assert forall|a: int| #![trigger out@[a]] 0 <= a < out@.len() implies Seq::new(
                        out@.len(),
                        |a2: int| out@[a2]@,
                    )[a] == (top_done + undated_child_urls(pv.take(i2 as int)) + undated_kid_urls(
                        kv.take(j + 1),
                    ))[a] by {
                        if a < pre.len() {
                            assert(out@[a] == pre[a]);
                            assert(Seq::new(pre.len(), |a2: int| pre[a2]@)[a] == (top_done
                                + undated_child_urls(pv.take(i2 as int)) + undated_kid_urls(
                                kv.take(j as int),
                            ))[a]);
                        }
                    }
                    assert(Seq::new(out@.len(), |a: int| out@[a]@) =~= top_done
                        + undated_child_urls(pv.take(i2 as int)) + undated_kid_urls(
                        kv.take(j + 1),
                    ));
                }
            } else {
                proof {
                    assert(Seq::new(out@.len(), |a: int| out@[a]@) =~= top_done
                        + undated_child_urls(pv.take(i2 as int)) + undated_kid_urls(
                        kv.take(j + 1),
                    ));
                }
            }
            j = j + 1;
        }
        proof {
            assert(kv.take(p.children@.len() as int) =~= kv);
            assert(Seq::new(out@.len(), |a: int| out@[a]@) =~= top_done + undated_child_urls(
                pv.take(i2 + 1),
            ));
        }
        i2 = i2 + 1;
    }
    proof {
        assert(pv.take(pages@.len() as int) =~= pv);
        assert(Seq::new(out@.len(), |a: int| out@[a]@) =~= undated_page_urls(pv));
    }
    out
}

} // verus!
