//! Cache-busting of static assets: content hashes, their hex form, the
//! url an asset is served under, and the rewriting of image references.

use vstd::prelude::*;
use vstd::string::StringExecFns;
use vstd::string::StrSliceExecFns;

use crate::meta::dirs_url_chars;
use crate::paths::{LogicalPath, LogicalPathView};
use crate::text::{spec_digit, str_eq};

verus! {

broadcast use vstd::seq::group_seq_axioms, vstd::std_specs::vec::group_vec_axioms;

/// What the content hash of a byte string is: a function of the bytes
/// alone, the same in every process.
pub uninterp spec fn xxh3_of(bytes: Seq<u8>) -> u64;

/// Relies on xxhash_rust's xxh3_64: a pure 64-bit digest of the bytes.
#[verifier::external_body]
fn xxh3_hash(data: &Vec<u8>) -> (r: u64)
    ensures
        r == xxh3_of(data@),
{
    xxhash_rust::xxh3::xxh3_64(data)
}

/// The character for one hexadecimal digit, lower case.
pub open spec fn hex_digit(d: nat) -> char {
    if d < 10 {
        spec_digit(d)
    } else {
        ((87 + d) as u8) as char
    }
}

/// The hexadecimal digits of a number, most significant first, no
/// leading zeroes.
pub open spec fn hex_chars(n: nat) -> Seq<char>
    decreases n,
{
    if n < 16 {
        seq![hex_digit(n)]
    } else {
        hex_chars(n / 16).push(hex_digit(n % 16))
    }
}

fn hex_digit_str(d: u64) -> (r: &'static str)
    requires
        d < 16,
    ensures
        r@ =~= seq![hex_digit(d as nat)],
{
    let table = "0123456789abcdef";
    proof {
        reveal_strlit("0123456789abcdef");
    }
    let r = table.substring_char(d as usize, d as usize + 1);
    proof {
        assert(r@ =~= seq![table@[d as int]]);
        assert(table@[d as int] == hex_digit(d as nat));
    }
    r
}

/// Renders a number in lower-case hexadecimal.
pub fn hex_string(n: u64) -> (r: String)
    ensures
        r@ == hex_chars(n as nat),
    decreases n,
{
    if n < 16 {
        String::from_str(hex_digit_str(n))
    } else {
        let s = hex_string(n / 16);
        let r = s.concat(hex_digit_str(n % 16));
        proof {
            assert(r@ =~= hex_chars(n as nat));
        }
        r
    }
}

/// The hex digest a build stamps an asset's content with.
pub open spec fn content_hash_of(bytes: Seq<u8>) -> Seq<char> {
    hex_chars(xxh3_of(bytes) as nat)
}

/// Hashes an asset's content for cache busting.
pub fn content_hash(data: &Vec<u8>) -> (r: String)
    ensures
        r@ == content_hash_of(data@),
{
    hex_string(xxh3_hash(data))
}

/// The url an asset is served under: a leading `/`, the directory run,
/// and its file name with its own extension.
pub open spec fn asset_url_of(k: LogicalPathView) -> Seq<char> {
    "/"@ + dirs_url_chars(k.dirs) + k.stem + "."@ + k.ext
}

/// Renders the url of an asset.
pub fn asset_url(path: &LogicalPath) -> (r: String)
    ensures
        r@ == asset_url_of(path@),
{
    let mut s = String::from_str("/");
    proof {
        assert(path@.dirs.take(0) =~= Seq::<Seq<char>>::empty());
        assert(s@ =~= "/"@ + dirs_url_chars(path@.dirs.take(0)));
    }
    let mut i: usize = 0;
    while i < path.dirs.len()
        invariant
            i <= path.dirs@.len(),
            s@ == "/"@ + dirs_url_chars(path@.dirs.take(i as int)),
        decreases path.dirs@.len() - i,
    {
        s.append(path.dirs[i].as_str());
        s.append("/");
        proof {
            crate::meta::lemma_dirs_url_push(path@.dirs.take(i as int), path@.dirs[i as int]);
            assert(path@.dirs.take(i + 1) =~= path@.dirs.take(i as int).push(path@.dirs[i as int]));
            assert(s@ =~= "/"@ + dirs_url_chars(path@.dirs.take(i + 1)));
        }
        i = i + 1;
    }
    s.append(path.stem.as_str());
    s.append(".");
    s.append(path.ext.as_str());
    proof {
        assert(path@.dirs.take(path.dirs@.len() as int) =~= path@.dirs);
        assert(s@ =~= asset_url_of(path@));
    }
    s
}

/// Whether a generated or source file is skipped by the hash pass.
pub open spec fn hashed_asset(ext: Seq<char>) -> bool {
    ext != "html"@ && ext != "typ"@
}

/// Decides whether the hash pass takes a file of this extension.
pub fn is_hashed_asset(ext: &str) -> (r: bool)
    ensures
        r == hashed_asset(ext@),
{
    !str_eq(ext, "html") && !str_eq(ext, "typ")
}

/// Whether the asset copier carries a file over: sources, manifests and
/// style sources stay behind.
pub open spec fn copied_asset(ext: Seq<char>) -> bool {
    ext != "typ"@ && ext != "toml"@ && ext != "scss"@
}

/// Decides whether the asset copier carries a file of this extension.
pub fn is_copied_asset(ext: &str) -> (r: bool)
    ensures
        r == copied_asset(ext@),
{
    !str_eq(ext, "typ") && !str_eq(ext, "toml") && !str_eq(ext, "scss")
}

/// The url-to-hash table of a listing of assets with their contents, in
/// listing order, generated and source files skipped.
pub open spec fn asset_entries_of(files: Seq<(LogicalPathView, Seq<u8>)>) -> Seq<
    (Seq<char>, Seq<char>),
>
    decreases files.len(),
{
    if files.len() == 0 {
        Seq::empty()
    } else if hashed_asset(files.last().0.ext) {
        asset_entries_of(files.drop_last()).push(
            (asset_url_of(files.last().0), content_hash_of(files.last().1)),
        )
    } else {
        asset_entries_of(files.drop_last())
    }
}

/// The views of an asset listing.
pub open spec fn asset_listing_view(files: Seq<(LogicalPath, Vec<u8>)>) -> Seq<
    (LogicalPathView, Seq<u8>),
> {
    Seq::new(files.len(), |i: int| (files[i].0@, files[i].1@))
}

/// The views of a url-to-hash table.
pub open spec fn pairs_view(v: Seq<(String, String)>) -> Seq<(Seq<char>, Seq<char>)> {
    Seq::new(v.len(), |i: int| (v[i].0@, v[i].1@))
}

/// Computes the url-to-hash table of the listed assets: one entry per
/// regular file that is neither generated output nor a document source.
pub fn collect_asset_hashes(files: &Vec<(LogicalPath, Vec<u8>)>) -> (r: Vec<(String, String)>)
    ensures
        pairs_view(r@) == asset_entries_of(asset_listing_view(files@)),
{
    let ghost fv = asset_listing_view(files@);
    let mut out: Vec<(String, String)> = Vec::new();
    proof {
        assert(pairs_view(out@) =~= asset_entries_of(fv.take(0)));
    }
    let mut i: usize = 0;
    while i < files.len()
        invariant
            i <= files@.len(),
            pairs_view(out@) == asset_entries_of(fv.take(i as int)),
        decreases files@.len() - i,
    {
        proof {
            assert(fv.take(i + 1).drop_last() =~= fv.take(i as int));
            assert(fv.take(i + 1).last() == fv[i as int]);
        }
        let entry = &files[i];
        if is_hashed_asset(entry.0.ext.as_str()) {
            let url = asset_url(&entry.0);
            let hash = content_hash(&entry.1);
            let ghost pre = out@;
            out.push((url, hash));
            proof {
                assert forall|j: int| 0 <= j < out@.len() implies pairs_view(out@)[j]
                    == asset_entries_of(fv.take(i + 1))[j] by {
                    if j < pre.len() {
                        assert(out@[j] == pre[j]);
                        assert(pairs_view(pre)[j] == asset_entries_of(fv.take(i as int))[j]);
                    }
                }
                assert(pairs_view(out@) =~= asset_entries_of(fv.take(i + 1)));
            }
        } else {
            proof {
                assert(pairs_view(out@) =~= asset_entries_of(fv.take(i + 1)));
            }
        }
        i = i + 1;
    }
    proof {
        assert(fv.take(files@.len() as int) =~= fv);
    }
    out
}

/// The first hash recorded for a url, if any.
pub open spec fn spec_lookup(
    pairs: Seq<(Seq<char>, Seq<char>)>,
    key: Seq<char>,
) -> Option<Seq<char>>
    decreases pairs.len(),
{
    if pairs.len() == 0 {
        Option::None
    } else if pairs.first().0 == key {
        Option::Some(pairs.first().1)
    } else {
        spec_lookup(pairs.drop_first(), key)
    }
}

/// Finds the hash recorded for an asset url.
pub fn lookup_hash<'a>(pairs: &'a Vec<(String, String)>, key: &str) -> (r: Option<&'a String>)
    ensures
        match r {
            Option::Some(v) => spec_lookup(pairs_view(pairs@), key@) == Option::Some(v@),
            Option::None => spec_lookup(pairs_view(pairs@), key@) == Option::<Seq<char>>::None,
        },
{
    let ghost pv = pairs_view(pairs@);
    proof {
        assert(pv.skip(0) =~= pv);
    }
    let mut i: usize = 0;
    while i < pairs.len()
        invariant
            i <= pairs@.len(),
            spec_lookup(pv, key@) == spec_lookup(pv.skip(i as int), key@),
        decreases pairs@.len() - i,
    {
        proof {
            assert(pv.skip(i as int).first() == pv[i as int]);
            assert(pv.skip(i as int).drop_first() =~= pv.skip(i + 1));
        }
        if str_eq(pairs[i].0.as_str(), key) {
            return Option::Some(&pairs[i].1);
        }
        i = i + 1;
    }
    proof {
        assert(pv.skip(pairs@.len() as int).len() == 0);
    }
    Option::None
}

/// The tag an image reference is rewritten to: the hash appended as a
/// version parameter when the source url has one, the whole match kept
/// as it stands otherwise.
pub open spec fn busted_tag(
    whole: Seq<char>,
    before: Seq<char>,
    src: Seq<char>,
    after: Seq<char>,
    pairs: Seq<(Seq<char>, Seq<char>)>,
) -> Seq<char> {
    match spec_lookup(pairs, src) {
        Option::Some(h) => "<img"@ + before + "src=\""@ + src + "?v="@ + h + "\""@ + after + ">"@,
        Option::None => whole,
    }
}

/// Rewrites one matched image tag, versioning its source url by the
/// recorded content hash.
pub fn img_replacement(
    whole: &str,
    before: &str,
    src: &str,
    after: &str,
    pairs: &Vec<(String, String)>,
) -> (r: String)
    ensures
        r@ == busted_tag(whole@, before@, src@, after@, pairs_view(pairs@)),
{
    match lookup_hash(pairs, src) {
        Option::Some(h) => {
            let mut s = String::from_str("<img");
            s.append(before);
            s.append("src=\"");
            s.append(src);
            s.append("?v=");
            s.append(h.as_str());
            s.append("\"");
            s.append(after);
            s.append(">");
            proof {
                assert(s@ =~= busted_tag(whole@, before@, src@, after@, pairs_view(pairs@)));
            }
            s
        },
        Option::None => {
            let r = String::from_str(whole);
            r
        },
    }
}

/// What the image-reference rewriting of a whole page yields: a function
/// of the markup and the hash table alone.
pub uninterp spec fn img_busted_of(
    html: Seq<char>,
    pairs: Seq<(Seq<char>, Seq<char>)>,
) -> Seq<char>;

/// Relies on the regex crate's Regex::replace_all over the image-tag
/// pattern: every matched `img` tag is replaced by what `img_replacement`
/// returns for its capture groups; the rest of the markup is kept.
#[verifier::external_body]
pub fn bust_image_urls(html: &str, pairs: &Vec<(String, String)>) -> (r: String)
    ensures
        r@ == img_busted_of(html@, pairs_view(pairs@)),
{
    let re = regex::Regex::new(r#"<img([^>]*?)src="(/[^"?]+)"([^>]*?)>"#).unwrap();
    re.replace_all(html, |caps: &regex::Captures| {
        img_replacement(&caps[0], &caps[1], &caps[2], &caps[3], pairs)
    }).to_string()
}

} // verus!
