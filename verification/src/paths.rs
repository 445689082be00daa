//! Logical and physical path values.
//!
//! Logical paths address documents inside the unified site namespace;
//! physical paths name real files on disk. The two are kept as distinct
//! types so that one can never be used where the other is meant.

use vstd::prelude::*;

verus! {

/// Mathematical shape of a logical document address: the directory
/// segments from the site root, then the file's stem and extension.
#[verifier::ext_equal]
pub struct LogicalPathView {
    pub dirs: Seq<Seq<char>>,
    pub stem: Seq<char>,
    pub ext: Seq<char>,
}

/// Mathematical shape of a physical file-system path.
#[verifier::ext_equal]
pub struct PhysicalPathView {
    pub absolute: bool,
    pub segs: Seq<Seq<char>>,
}

/// A logical file address: where a document lives in the site namespace.
#[derive(Debug)]
pub struct LogicalPath {
    pub dirs: Vec<String>,
    pub stem: String,
    pub ext: String,
}

/// A logical directory address: a prefix of the site namespace.
#[derive(Debug)]
pub struct LogicalPrefix {
    pub segs: Vec<String>,
}

/// A physical path: a real file or directory on disk, as path segments.
#[derive(Debug)]
pub struct PhysicalPath {
    pub absolute: bool,
    pub segs: Vec<String>,
}

impl View for LogicalPath {
    type V = LogicalPathView;

    open spec fn view(&self) -> LogicalPathView {
        LogicalPathView { dirs: self.dirs.deep_view(), stem: self.stem@, ext: self.ext@ }
    }
}

impl DeepView for LogicalPath {
    type V = LogicalPathView;

    open spec fn deep_view(&self) -> LogicalPathView {
        self.view()
    }
}

impl View for LogicalPrefix {
    type V = Seq<Seq<char>>;

    open spec fn view(&self) -> Seq<Seq<char>> {
        self.segs.deep_view()
    }
}

impl View for PhysicalPath {
    type V = PhysicalPathView;

    open spec fn view(&self) -> PhysicalPathView {
        PhysicalPathView { absolute: self.absolute, segs: self.segs.deep_view() }
    }
}

/// `p` is a (not necessarily proper) leading run of `d`'s segments.
pub open spec fn seg_prefix_of(p: Seq<Seq<char>>, d: Seq<Seq<char>>) -> bool {
    p.len() <= d.len() && p =~= d.take(p.len() as int)
}

/// The file name a logical path carries, as characters: `stem.ext`.
pub open spec fn file_name_chars(f: LogicalPathView) -> Seq<char> {
    f.stem + "."@ + f.ext
}

/// Physical location of the file at relative address `f` inside `dir`.
pub open spec fn join_file_view(dir: PhysicalPathView, f: LogicalPathView) -> PhysicalPathView {
    PhysicalPathView { absolute: dir.absolute, segs: dir.segs + f.dirs + seq![file_name_chars(f)] }
}

/// Re-expression of a physical path relative to an optional resolver base:
/// when the base leads the path, the base is replaced by a `.` segment,
/// otherwise the path is kept as it is.
pub open spec fn rebase_view(p: PhysicalPathView, base: Option<PhysicalPathView>) -> PhysicalPathView {
    match base {
        Option::None => p,
        Option::Some(b) => {
            if b.absolute == p.absolute && seg_prefix_of(b.segs, p.segs) {
                PhysicalPathView {
                    absolute: false,
                    segs: seq!["."@] + p.segs.skip(b.segs.len() as int),
                }
            } else {
                p
            }
        },
    }
}

/// Clones a vector of strings, keeping its contents.
pub fn clone_string_vec(v: &Vec<String>) -> (r: Vec<String>)
    ensures
        r.deep_view() == v.deep_view(),
{
    let mut r: Vec<String> = Vec::new();
    let mut i: usize = 0;
    while i < v.len()
        invariant
            i <= v.len(),
            r@.len() == i,
            forall|j: int| 0 <= j < i ==> r.deep_view()[j] == v.deep_view()[j],
        decreases v.len() - i,
    {
        r.push(v[i].clone());
        i = i + 1;
    }
    proof {
        assert(r.deep_view() =~= v.deep_view());
    }
    r
}

impl Clone for LogicalPath {
    fn clone(&self) -> (r: Self)
        ensures
            r@ == self@,
    {
        let r = LogicalPath {
            dirs: clone_string_vec(&self.dirs),
            stem: self.stem.clone(),
            ext: self.ext.clone(),
        };
        proof {
            assert(r@ =~= self@);
        }
        r
    }
}

impl Clone for LogicalPrefix {
    fn clone(&self) -> (r: Self)
        ensures
            r@ == self@,
    {
        LogicalPrefix { segs: clone_string_vec(&self.segs) }
    }
}

impl Clone for PhysicalPath {
    fn clone(&self) -> (r: Self)
        ensures
            r@ == self@,
    {
        let r = PhysicalPath { absolute: self.absolute, segs: clone_string_vec(&self.segs) };
        proof {
            assert(r@ =~= self@);
        }
        r
    }
}

/// Decides whether `p` names a leading run of `d`'s segments.
pub fn is_seg_prefix(p: &Vec<String>, d: &Vec<String>) -> (r: bool)
    ensures
        r == seg_prefix_of(p.deep_view(), d.deep_view()),
{
    if p.len() > d.len() {
        return false;
    }
    let mut i: usize = 0;
    while i < p.len()
        invariant
            p.len() <= d.len(),
            i <= p.len(),
            forall|j: int| 0 <= j < i ==> p.deep_view()[j] == d.deep_view()[j],
        decreases p.len() - i,
    {
        if !(p[i] == d[i]) {
            assert(p.deep_view()[i as int] != d.deep_view()[i as int]);
            assert(!seg_prefix_of(p.deep_view(), d.deep_view())) by {
                if seg_prefix_of(p.deep_view(), d.deep_view()) {
                    assert(p.deep_view()[i as int] == d.deep_view().take(p.len() as int)[i as int]);
                }
            }
            return false;
        }
        i = i + 1;
    }
    proof {
        assert(p.deep_view() =~= d.deep_view().take(p.len() as int));
    }
    true
}

/// Joins a relative file address onto a physical directory.
pub fn join_file(dir: &PhysicalPath, f: &LogicalPath) -> (r: PhysicalPath)
    ensures
        r@ == join_file_view(dir@, f@),
{
    let mut segs = clone_string_vec(&dir.segs);
    proof {
        assert(segs.deep_view().len() == dir.segs.deep_view().len());
        assert(segs@.len() == dir.segs@.len());
        assert forall|j: int| 0 <= j < segs@.len() implies segs@[j]@ == dir.segs@[j]@ by {
            assert(segs.deep_view()[j] == dir.segs.deep_view()[j]);
        }
    }
    let mut i: usize = 0;
    while i < f.dirs.len()
        invariant
            i <= f.dirs.len(),
            segs@.len() == dir.segs@.len() + i,
            forall|j: int| 0 <= j < dir.segs@.len() ==> segs@[j]@ == dir.segs@[j]@,
            forall|j: int|
                dir.segs@.len() <= j < segs@.len() ==> segs@[j]@ == f.dirs@[j - dir.segs@.len()]@,
        decreases f.dirs.len() - i,
    {
        segs.push(f.dirs[i].clone());
        i = i + 1;
    }
    let name = f.stem.clone().concat(".").concat(f.ext.as_str());
    assert(name@ == file_name_chars(f@));
    segs.push(name);
    let r = PhysicalPath { absolute: dir.absolute, segs };
    proof {
        let rhs = dir.segs.deep_view() + f.dirs.deep_view() + seq![file_name_chars(f@)];
        assert forall|j: int| 0 <= j < r.segs@.len() implies r.segs.deep_view()[j] == rhs[j] by {
            assert(r.segs.deep_view()[j] == r.segs@[j]@);
            if j < dir.segs@.len() {
                assert(dir.segs.deep_view()[j] == dir.segs@[j]@);
            } else if j < dir.segs@.len() + f.dirs@.len() {
                assert(f.dirs.deep_view()[j - dir.segs@.len()] == f.dirs@[j - dir.segs@.len()]@);
            }
        }
        assert(r@.segs =~= rhs);
        assert(r@ =~= join_file_view(dir@, f@));
    }
    r
}

/// Re-expresses a physical path relative to the resolver base, if one is
/// set and leads the path.
pub fn rebase(p: PhysicalPath, base: &Option<PhysicalPath>) -> (r: PhysicalPath)
    ensures
        r@ == rebase_view(p@, match base {
            Option::Some(b) => Option::Some(b@),
            Option::None => Option::None,
        }),
{
    match base {
        Option::None => p,
        Option::Some(b) => {
            if b.absolute == p.absolute && is_seg_prefix(&b.segs, &p.segs) {
                let mut segs: Vec<String> = Vec::new();
                segs.push(String::from_str("."));
                let mut i: usize = b.segs.len();
                while i < p.segs.len()
                    invariant
                        b.segs@.len() <= i <= p.segs@.len(),
                        segs@.len() == 1 + i - b.segs@.len(),
                        segs@[0]@ == "."@,
                        forall|j: int|
                            1 <= j < segs@.len() ==> segs@[j]@ == p.segs@[j - 1 + b.segs@.len()]@,
                    decreases p.segs.len() - i,
                {
                    segs.push(p.segs[i].clone());
                    i = i + 1;
                }
                let r = PhysicalPath { absolute: false, segs };
                proof {
                    let rhs = seq!["."@] + p.segs.deep_view().skip(b.segs@.len() as int);
                    assert forall|j: int| 0 <= j < r.segs@.len() implies r.segs.deep_view()[j]
                        == rhs[j] by {
                        assert(r.segs.deep_view()[j] == r.segs@[j]@);
                        if j >= 1 {
                            assert(p.segs.deep_view()[j - 1 + b.segs@.len()]
                                == p.segs@[j - 1 + b.segs@.len()]@);
                        }
                    }
                    assert(r@.segs =~= rhs);
                    assert(r@ =~= rebase_view(p@, Option::Some(b@)));
                }
                r
            } else {
                p
            }
        },
    }
}


/// The tail of a path rendering: a `/` before each further segment.
pub open spec fn slash_segs_chars(segs: Seq<Seq<char>>) -> Seq<char>
    decreases segs.len(),
{
    if segs.len() == 0 {
        Seq::empty()
    } else {
        "/"@ + segs.first() + slash_segs_chars(segs.drop_first())
    }
}

pub proof fn lemma_slash_segs_push(segs: Seq<Seq<char>>, c: Seq<char>)
    ensures
        slash_segs_chars(segs.push(c)) == slash_segs_chars(segs) + "/"@ + c,
    decreases segs.len(),
{
    if segs.len() == 0 {
        assert(segs.push(c).drop_first() =~= Seq::<Seq<char>>::empty());
        assert(segs.push(c).first() == c);
        assert(slash_segs_chars(segs.push(c)) == "/"@ + c + slash_segs_chars(
            Seq::<Seq<char>>::empty(),
        ));
        assert(slash_segs_chars(Seq::<Seq<char>>::empty()) == Seq::<char>::empty());
        assert(slash_segs_chars(segs) == Seq::<char>::empty());
        assert(slash_segs_chars(segs.push(c)) =~= slash_segs_chars(segs) + "/"@ + c);
    } else {
        lemma_slash_segs_push(segs.drop_first(), c);
        assert(segs.push(c).drop_first() =~= segs.drop_first().push(c));
        assert(segs.push(c).first() == segs.first());
        assert(slash_segs_chars(segs.push(c)) == "/"@ + segs.first() + slash_segs_chars(
            segs.drop_first().push(c),
        ));
        assert(slash_segs_chars(segs.drop_first().push(c)) == slash_segs_chars(segs.drop_first())
            + "/"@ + c);
        assert(slash_segs_chars(segs.push(c)) =~= slash_segs_chars(segs) + "/"@ + c);
    }
}

/// A physical path as text: segments joined by `/`, a leading `/` when
/// the path is absolute.
pub open spec fn phys_chars(p: PhysicalPathView) -> Seq<char> {
    if p.segs.len() == 0 {
        if p.absolute {
            "/"@
        } else {
            Seq::empty()
        }
    } else {
        if p.absolute {
            "/"@ + p.segs.first() + slash_segs_chars(p.segs.drop_first())
        } else {
            p.segs.first() + slash_segs_chars(p.segs.drop_first())
        }
    }
}

/// Renders a physical path as text for the file-system interfaces.
pub fn to_display(p: &PhysicalPath) -> (r: String)
    ensures
        r@ == phys_chars(p@),
{
    let mut s = if p.absolute {
        String::from_str("/")
    } else {
        String::from_str("")
    };
    proof {
        reveal_strlit("");
        assert("".view() =~= Seq::<char>::empty());
    }
    if p.segs.len() == 0 {
        return s;
    }
    s.append(p.segs[0].as_str());
    let ghost lead = s@;
    proof {
        assert(p@.segs.drop_first().take(0) =~= Seq::<Seq<char>>::empty());
        assert(s@ =~= lead + slash_segs_chars(p@.segs.drop_first().take(0)));
    }
    let mut i: usize = 1;
    while i < p.segs.len()
        invariant
            1 <= i <= p.segs@.len(),
            p.segs@.len() == p@.segs.len(),
            s@ == lead + slash_segs_chars(p@.segs.drop_first().take(i - 1)),
        decreases p.segs@.len() - i,
    {
        s.append("/");
        s.append(p.segs[i].as_str());
        proof {
            lemma_slash_segs_push(p@.segs.drop_first().take(i - 1), p@.segs[i as int]);
            assert(p@.segs.drop_first().take(i as int) =~= p@.segs.drop_first().take(i - 1).push(
                p@.segs[i as int],
            ));
            assert(s@ =~= lead + slash_segs_chars(p@.segs.drop_first().take(i as int)));
        }
        i = i + 1;
    }
    proof {
        assert(p@.segs.drop_first().take(p.segs@.len() - 1) =~= p@.segs.drop_first());
        assert(lead =~= if p.absolute {
            "/"@ + p@.segs.first()
        } else {
            p@.segs.first()
        });
        assert(s@ =~= phys_chars(p@));
    }
    s
}

} // verus!
