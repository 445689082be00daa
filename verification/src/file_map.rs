//! The logical file map: several physical directory trees merged into one
//! addressable namespace, with conflict-free path rewriting.

use vstd::prelude::*;

use crate::paths::{
    join_file, join_file_view, rebase, rebase_view, clone_string_vec, is_seg_prefix,
    seg_prefix_of, LogicalPath, LogicalPathView, LogicalPrefix, PhysicalPath, PhysicalPathView,
};
use crate::store::{
    assoc_map, lemma_assoc_map_dom, lemma_assoc_map_get, lemma_assoc_map_push,
    lemma_assoc_map_remove, logical_path_eq, unique_keys,
};

verus! {

/// Decides whether two segment vectors are equal.
pub fn string_vecs_eq(a: &Vec<String>, b: &Vec<String>) -> (r: bool)
    ensures
        r == (a.deep_view() == b.deep_view()),
{
    if a.len() != b.len() {
        assert(a.deep_view().len() != b.deep_view().len());
        return false;
    }
    if is_seg_prefix(a, b) {
        proof {
            assert(b.deep_view().take(a.deep_view().len() as int) =~= b.deep_view());
        }
        true
    } else {
        proof {
            if a.deep_view() == b.deep_view() {
                assert(b.deep_view().take(a.deep_view().len() as int) =~= a.deep_view());
            }
        }
        false
    }
}

/// The logical view the prefix argument of a mount denotes: its segments,
/// or the empty prefix when none is given.
pub open spec fn prefix_view_of(prefix: Option<&LogicalPrefix>) -> Seq<Seq<char>> {
    match prefix {
        Option::Some(p) => p@,
        Option::None => Seq::empty(),
    }
}

/// The logical address a mounted file ends up at: its relative path
/// joined onto the mount prefix.
pub open spec fn mounted_key(prefix: Seq<Seq<char>>, f: LogicalPathView) -> LogicalPathView {
    LogicalPathView { dirs: prefix + f.dirs, stem: f.stem, ext: f.ext }
}

/// The physical address recorded for a mounted file: its location inside
/// the mounted directory, re-expressed relative to the resolver base.
pub open spec fn mounted_val(
    dir: PhysicalPathView,
    f: LogicalPathView,
    base: Option<PhysicalPathView>,
) -> PhysicalPathView {
    rebase_view(join_file_view(dir, f), base)
}

/// The map one mount call contributes: every listed file under its
/// prefixed logical address, later entries winning on duplicates.
pub open spec fn mount_map(
    dir: PhysicalPathView,
    files: Seq<LogicalPathView>,
    prefix: Seq<Seq<char>>,
    base: Option<PhysicalPathView>,
) -> Map<LogicalPathView, PhysicalPathView>
    decreases files.len(),
{
    if files.len() == 0 {
        Map::empty()
    } else {
        mount_map(dir, files.drop_last(), prefix, base).insert(
            mounted_key(prefix, files.last()),
            mounted_val(dir, files.last(), base),
        )
    }
}

/// `c` names an immediate logical subdirectory of `prefix`: some entry
/// lies more than one segment below `prefix`, starting with `c`.
pub open spec fn is_subdir(
    dom: Set<LogicalPathView>,
    prefix: Seq<Seq<char>>,
    c: Seq<char>,
) -> bool {
    exists|k: LogicalPathView|
        #[trigger] dom.contains(k) && k.dirs.len() > prefix.len() && seg_prefix_of(prefix, k.dirs)
            && k.dirs[prefix.len() as int] == c
}

/// The deepest directory nesting among the listed entries.
pub open spec fn dirs_depth_max(s: Seq<(LogicalPathView, PhysicalPathView)>) -> nat
    decreases s.len(),
{
    if s.len() == 0 {
        0
    } else if s.last().0.dirs.len() > dirs_depth_max(s.drop_last()) {
        s.last().0.dirs.len()
    } else {
        dirs_depth_max(s.drop_last())
    }
}

pub proof fn lemma_dirs_depth_max(s: Seq<(LogicalPathView, PhysicalPathView)>, i: int)
    requires
        0 <= i < s.len(),
    ensures
        s[i].0.dirs.len() <= dirs_depth_max(s),
    decreases s.len(),
{
    if i < s.len() - 1 {
        lemma_dirs_depth_max(s.drop_last(), i);
        assert(s.drop_last()[i] == s[i]);
    }
}

/// One logical namespace assembled from several mounted physical trees.
/// Each logical path resolves to exactly one physical path; the resolver
/// base, when set, is the directory physical paths are re-expressed
/// against.
pub struct FileMap {
    entries: Vec<(LogicalPath, PhysicalPath)>,
    resolver_base: Option<PhysicalPath>,
}

impl View for FileMap {
    type V = Map<LogicalPathView, PhysicalPathView>;

    closed spec fn view(&self) -> Map<LogicalPathView, PhysicalPathView> {
        assoc_map(self.entries_view())
    }
}

impl FileMap {
    /// The entries as view pairs, in insertion order.
    pub closed spec fn entries_view(&self) -> Seq<(LogicalPathView, PhysicalPathView)> {
        Seq::new(self.entries@.len(), |i: int| (self.entries@[i].0@, self.entries@[i].1@))
    }

    /// Well-formed: each logical path appears at most once.
    pub closed spec fn wf(&self) -> bool {
        unique_keys(self.entries_view())
    }

    /// The resolver base, as a view.
    pub closed spec fn base_view(&self) -> Option<PhysicalPathView> {
        match self.resolver_base {
            Option::Some(ref b) => Option::Some(b@),
            Option::None => Option::None,
        }
    }

    /// An upper bound on how deeply any entry is nested.
    pub closed spec fn depth_bound(&self) -> nat {
        dirs_depth_max(self.entries_view())
    }

    /// Every logical path in the map is nested no deeper than the bound.
    pub proof fn lemma_depth_bound(&self)
        ensures
            forall|k: LogicalPathView|
                self@.dom().contains(k) ==> k.dirs.len() <= self.depth_bound(),
    {
        lemma_assoc_map_dom(self.entries_view());
        assert forall|k: LogicalPathView| self@.dom().contains(k) implies k.dirs.len()
            <= self.depth_bound() by {
            let i = choose|i: int|
                0 <= i < self.entries_view().len() && self.entries_view()[i].0 == k;
            lemma_dirs_depth_max(self.entries_view(), i);
        }
    }

    /// An empty map with no resolver base.
    pub fn new() -> (r: Self)
        ensures
            r.wf(),
            r@ == Map::<LogicalPathView, PhysicalPathView>::empty(),
            r.base_view() == Option::<PhysicalPathView>::None,
    {
        let r = FileMap { entries: Vec::new(), resolver_base: Option::None };
        proof {
            assert(r.entries_view() =~= Seq::<(LogicalPathView, PhysicalPathView)>::empty());
        }
        r
    }

    /// An empty map whose physical paths will be re-expressed relative
    /// to `base`.
    pub fn with_resolver_base(base: PhysicalPath) -> (r: Self)
        ensures
            r.wf(),
            r@ == Map::<LogicalPathView, PhysicalPathView>::empty(),
            r.base_view() == Option::Some(base@),
    {
        let r = FileMap { entries: Vec::new(), resolver_base: Option::Some(base) };
        proof {
            assert(r.entries_view() =~= Seq::<(LogicalPathView, PhysicalPathView)>::empty());
        }
        r
    }

    /// Records one logical-to-physical association, shadowing any earlier
    /// entry at the same logical path.
    fn insert_entry(&mut self, k: LogicalPath, v: PhysicalPath)
        requires
            old(self).wf(),
        ensures
            final(self).wf(),
            final(self)@ == old(self)@.insert(k@, v@),
            final(self).base_view() == old(self).base_view(),
    {
        let mut i: usize = 0;
        while i < self.entries.len()
            invariant
                *self == *old(self),
                i <= self.entries@.len(),
                forall|j: int| 0 <= j < i ==> self.entries_view()[j].0 != k@,
            decreases self.entries@.len() - i,
        {
            if logical_path_eq(&self.entries[i].0, &k) {
                proof {
                    lemma_assoc_map_remove(self.entries_view(), i as int);
                    lemma_assoc_map_dom(self.entries_view().remove(i as int));
                }
                let ghost pre = self.entries_view();
                self.entries.remove(i);
                proof {
                    assert(self.entries_view() =~= pre.remove(i as int));
                    assert(unique_keys(self.entries_view()));
                    lemma_assoc_map_push(self.entries_view(), (k@, v@));
                    assert(!assoc_map(self.entries_view()).dom().contains(k@)) by {
                        lemma_assoc_map_dom(self.entries_view());
                        if exists|j: int|
                            0 <= j < self.entries_view().len() && self.entries_view()[j].0 == k@ {
                            let j = choose|j: int|
                                0 <= j < self.entries_view().len() && self.entries_view()[j].0
                                    == k@;
                            if j < i {
                                assert(pre[j].0 == k@);
                            } else {
                                assert(pre[j + 1].0 == k@);
                                assert(pre[i as int].0 == k@);
                            }
                        }
                    }
                }
                let ghost mid = self.entries_view();
                self.entries.push((k, v));
                proof {
                    assert(self.entries_view() =~= mid.push((k@, v@)));
                    assert(unique_keys(self.entries_view())) by {
                        lemma_assoc_map_dom(mid);
                    }
                    assert(assoc_map(self.entries_view()) =~= assoc_map(pre).insert(k@, v@));
                }
                return ;
            }
            i = i + 1;
        }
        proof {
            lemma_assoc_map_dom(self.entries_view());
            lemma_assoc_map_push(self.entries_view(), (k@, v@));
        }
        let ghost pre = self.entries_view();
        self.entries.push((k, v));
        proof {
            assert(self.entries_view() =~= pre.push((k@, v@)));
        }
    }

    /// Mounts one physical directory: every listed file, given by its
    /// path relative to `dir`, becomes a logical entry under `prefix`
    /// resolving to its physical location re-expressed against the
    /// resolver base. Later mounts shadow earlier entries at identical
    /// logical paths.
    pub fn add_directory(
        &mut self,
        dir: &PhysicalPath,
        files: &Vec<LogicalPath>,
        prefix: Option<&LogicalPrefix>,
    )
        requires
            old(self).wf(),
        ensures
            final(self).wf(),
            final(self)@ == old(self)@.union_prefer_right(
                mount_map(dir@, files.deep_view(), prefix_view_of(prefix), old(self).base_view()),
            ),
            final(self).base_view() == old(self).base_view(),
    {
        let prefix_segs: Vec<String> = match prefix {
            Option::Some(p) => clone_string_vec(&p.segs),
            Option::None => Vec::new(),
        };
        proof {
            assert(prefix_segs.deep_view() =~= prefix_view_of(prefix));
        }
        let ghost base = self.base_view();
        let mut i: usize = 0;
        while i < files.len()
            invariant
                i <= files@.len(),
                self.wf(),
                self.base_view() == base,
                prefix_segs.deep_view() == prefix_view_of(prefix),
                self@ == old(self)@.union_prefer_right(
                    mount_map(
                        dir@,
                        files.deep_view().take(i as int),
                        prefix_view_of(prefix),
                        base,
                    ),
                ),
            decreases files@.len() - i,
        {
            let f = &files[i];
            let mut dirs = clone_string_vec(&prefix_segs);
            proof {
                assert(dirs.deep_view().len() == prefix_segs.deep_view().len());
                assert(dirs@.len() == prefix_segs@.len());
                assert forall|a: int| 0 <= a < prefix_segs@.len() implies dirs@[a]@
                    == prefix_segs@[a]@ by {
                    assert(dirs.deep_view()[a] == prefix_segs.deep_view()[a]);
                    assert(dirs.deep_view()[a] == dirs@[a]@);
                    assert(prefix_segs.deep_view()[a] == prefix_segs@[a]@);
                }
            }
            let mut j: usize = 0;
            while j < f.dirs.len()
                invariant
                    j <= f.dirs@.len(),
                    dirs@.len() == prefix_segs@.len() + j,
                    forall|a: int| 0 <= a < prefix_segs@.len() ==> dirs@[a]@ == prefix_segs@[a]@,
                    forall|a: int|
                        prefix_segs@.len() <= a < dirs@.len() ==> dirs@[a]@ == f.dirs@[a
                            - prefix_segs@.len()]@,
                decreases f.dirs@.len() - j,
            {
                dirs.push(f.dirs[j].clone());
                j = j + 1;
            }
            proof {
                assert forall|a: int| 0 <= a < dirs@.len() implies dirs.deep_view()[a]
                    == (prefix_segs.deep_view() + f.dirs.deep_view())[a] by {
                    assert(dirs.deep_view()[a] == dirs@[a]@);
                    if a < prefix_segs@.len() {
                        assert(prefix_segs.deep_view()[a] == prefix_segs@[a]@);
                    } else {
                        assert(f.dirs.deep_view()[a - prefix_segs@.len()] == f.dirs@[a
                            - prefix_segs@.len()]@);
                    }
                }
                assert(dirs.deep_view() =~= prefix_view_of(prefix) + f.dirs.deep_view());
            }
            let logical = LogicalPath { dirs, stem: f.stem.clone(), ext: f.ext.clone() };
            proof {
                assert(logical@ =~= mounted_key(prefix_view_of(prefix), f@));
            }
            let physical = rebase(join_file(dir, f), &self.resolver_base);
            proof {
                assert(physical@ == mounted_val(dir@, f@, base));
            }
            self.insert_entry(logical, physical);
            proof {
                assert(files.deep_view().take(i + 1).drop_last() =~= files.deep_view().take(
                    i as int,
                ));
                assert(files.deep_view().take(i + 1).last() == f.deep_view());
                assert(self@ =~= old(self)@.union_prefer_right(
                    mount_map(
                        dir@,
                        files.deep_view().take(i + 1),
                        prefix_view_of(prefix),
                        base,
                    ),
                ));
            }
            i = i + 1;
        }
        proof {
            assert(files.deep_view().take(files@.len() as int) =~= files.deep_view());
        }
    }

    /// Exact lookup: the physical path recorded for a logical path, or
    /// nothing when the path is not in the logical tree.
    pub fn get_real(&self, logical: &LogicalPath) -> (r: Option<&PhysicalPath>)
        requires
            self.wf(),
        ensures
            match r {
                Option::Some(p) => self@.dom().contains(logical@) && p@ == self@[logical@],
                Option::None => !self@.dom().contains(logical@),
            },
    {
        proof {
            lemma_assoc_map_dom(self.entries_view());
        }
        let mut i: usize = 0;
        while i < self.entries.len()
            invariant
                i <= self.entries@.len(),
                forall|j: int| 0 <= j < i ==> self.entries_view()[j].0 != logical@,
            decreases self.entries@.len() - i,
        {
            if logical_path_eq(&self.entries[i].0, logical) {
                proof {
                    lemma_assoc_map_get(self.entries_view(), i as int);
                }
                return Option::Some(&self.entries[i].1);
            }
            i = i + 1;
        }
        Option::None
    }

    /// The immediate logical subdirectories under `prefix`: every first
    /// segment that some entry lies more than one segment below `prefix`
    /// under, each joined onto `prefix`, without repetition.
    pub fn subdirs_at(&self, prefix: &LogicalPrefix) -> (r: Vec<LogicalPrefix>)
        requires
            self.wf(),
        ensures
            forall|a: int|
                0 <= a < r@.len() ==> (#[trigger] r@[a]@).len() == prefix@.len() + 1 && r@[a]@.take(
                    prefix@.len() as int,
                ) == prefix@ && is_subdir(self@.dom(), prefix@, r@[a]@.last()),
            forall|a: int, b: int| 0 <= a < b < r@.len() ==> r@[a]@ != r@[b]@,
            forall|c: Seq<char>|
                is_subdir(self@.dom(), prefix@, c) ==> exists|a: int|
                    0 <= a < r@.len() && #[trigger] r@[a]@ == prefix@.push(c),
    {
        proof {
            lemma_assoc_map_dom(self.entries_view());
        }
        let plen = prefix.segs.len();
        let mut out: Vec<LogicalPrefix> = Vec::new();
        let mut i: usize = 0;
        while i < self.entries.len()
            invariant
                i <= self.entries@.len(),
                forall|a: int| 0 <= a < out@.len() ==> (#[trigger] out@[a]).segs@.len() == plen + 1,
                forall|a: int|
                    0 <= a < out@.len() ==> (#[trigger] out@[a]@).len() == prefix@.len() + 1
                        && out@[a]@.take(prefix@.len() as int) == prefix@ && is_subdir(
                        self@.dom(),
                        prefix@,
                        out@[a]@.last(),
                    ),
                forall|a: int, b: int|
                    0 <= a < b < out@.len() ==> (#[trigger] out@[a]@).last() != (#[trigger] out@[b]@).last(),
                forall|idx: int|
                    0 <= idx < i ==> {
                        let k = #[trigger] self.entries_view()[idx].0;
                        k.dirs.len() > prefix@.len() && seg_prefix_of(prefix@, k.dirs)
                            ==> exists|a: int|
                            0 <= a < out@.len() && (#[trigger] out@[a]@).last() == k.dirs[prefix@.len() as int]
                    },
            decreases self.entries@.len() - i,
        {
            let k = &self.entries[i].0;
            proof {
                assert(self.entries_view()[i as int].0 == k@);
                assert(k@.dirs.len() == k.dirs@.len());
                assert(prefix@.len() == prefix.segs@.len());
            }
            if k.dirs.len() > plen && is_seg_prefix(&prefix.segs, &k.dirs) {
                let c = k.dirs[plen].clone();
                proof {
                    assert(c@ == k.dirs.deep_view()[plen as int]);
                    assert(self@.dom().contains(k@));
                    assert(is_subdir(self@.dom(), prefix@, c@));
                }
                let mut found = false;
                let mut a: usize = 0;
                while a < out.len() && !found
                    invariant
                        a <= out@.len(),
                        found ==> exists|b: int|
                            0 <= b < out@.len() && (#[trigger] out@[b]@).last() == c@,
                        !found ==> forall|b: int|
                            0 <= b < a ==> (#[trigger] out@[b]@).last() != c@,
                    decreases out@.len() - a + (if found { 0int } else { 1int }),
                {
                    proof {
                        assert(out@[a as int]@.last() == out@[a as int].segs@[plen as int]@);
                    }
                    if out[a].segs[plen] == c {
                        found = true;
                    } else {
                        a = a + 1;
                    }
                }
                if !found {
                    let mut segs = clone_string_vec(&prefix.segs);
                    proof {
                        assert(segs.deep_view().len() == prefix.segs.deep_view().len());
                    }
                    segs.push(c);
                    let d = LogicalPrefix { segs };
                    proof {
                        assert(d@.len() == prefix@.len() + 1);
                        assert forall|j: int| 0 <= j < prefix@.len() implies d@[j]
                            == prefix@[j] by {
                            assert(d.segs@[j] == segs@[j]);
                            assert(d@[j] == d.segs@[j]@);
                        }
                        assert(d@.last() == c@);
                        assert(d@.take(prefix@.len() as int) =~= prefix@);
                    }
                    let ghost pre = out@;
                    out.push(d);
                    proof {
                        assert(out@.len() == pre.len() + 1);
                        assert(out@[pre.len() as int] == d);
                        assert(forall|b: int| 0 <= b < pre.len() ==> out@[b] == pre[b]);
                        assert forall|idx: int| 0 <= idx < i + 1 implies {
                            let k2 = #[trigger] self.entries_view()[idx].0;
                            k2.dirs.len() > prefix@.len() && seg_prefix_of(prefix@, k2.dirs)
                                ==> exists|b: int|
                                0 <= b < out@.len() && (#[trigger] out@[b]@).last() == k2.dirs[prefix@.len() as int]
                        } by {
                            let k2 = self.entries_view()[idx].0;
                            if k2.dirs.len() > prefix@.len() && seg_prefix_of(prefix@, k2.dirs) {
                                if idx == i {
                                    assert(out@[pre.len() as int]@.last() == c@);
                                } else {
                                    let b = choose|b: int|
                                        0 <= b < pre.len() && (#[trigger] pre[b]@).last()
                                            == k2.dirs[prefix@.len() as int];
                                    assert(out@[b]@.last() == k2.dirs[prefix@.len() as int]);
                                }
                            }
                        }
                    }
                } else {
                    proof {
                        let b = choose|b: int|
                            0 <= b < out@.len() && (#[trigger] out@[b]@).last() == c@;
                        assert forall|idx: int| 0 <= idx < i + 1 implies {
                            let k2 = #[trigger] self.entries_view()[idx].0;
                            k2.dirs.len() > prefix@.len() && seg_prefix_of(prefix@, k2.dirs)
                                ==> exists|a2: int|
                                0 <= a2 < out@.len() && (#[trigger] out@[a2]@).last() == k2.dirs[prefix@.len() as int]
                        } by {
                            let k2 = self.entries_view()[idx].0;
                            if idx == i {
                                assert(out@[b]@.last() == c@);
                            }
                        }
                    }
                }
            }
            i = i + 1;
        }
        proof {
            assert forall|c: Seq<char>| is_subdir(self@.dom(), prefix@, c) implies exists|a: int|
                0 <= a < out@.len() && #[trigger] out@[a]@ == prefix@.push(c) by {
                let k = choose|k: LogicalPathView|
                    #[trigger] self@.dom().contains(k) && k.dirs.len() > prefix@.len()
                        && seg_prefix_of(prefix@, k.dirs) && k.dirs[prefix@.len() as int] == c;
                let idx = choose|idx: int|
                    0 <= idx < self.entries_view().len() && self.entries_view()[idx].0 == k;
                let a = choose|a: int|
                    0 <= a < out@.len() && (#[trigger] out@[a]@).last() == k.dirs[prefix@.len() as int];
                assert(out@[a]@ =~= prefix@.push(c));
            }
        }
        out
    }

    /// The documents carrying the compiler's extension that sit directly
    /// under `prefix`: exactly one remaining path segment, no repetition.
    pub fn typ_files_at(&self, prefix: &LogicalPrefix) -> (r: Vec<LogicalPath>)
        requires
            self.wf(),
        ensures
            forall|a: int|
                0 <= a < r@.len() ==> self@.dom().contains(#[trigger] r@[a]@) && r@[a]@.dirs
                    == prefix@ && r@[a]@.ext == "typ"@,
            forall|a: int, b: int| 0 <= a < b < r@.len() ==> r@[a]@ != r@[b]@,
            forall|k: LogicalPathView|
                #[trigger] self@.dom().contains(k) && k.dirs == prefix@ && k.ext == "typ"@
                    ==> exists|a: int| 0 <= a < r@.len() && #[trigger] r@[a]@ == k,
    {
        proof {
            lemma_assoc_map_dom(self.entries_view());
        }
        let typ = String::from_str("typ");
        let mut out: Vec<LogicalPath> = Vec::new();
        let mut i: usize = 0;
        while i < self.entries.len()
            invariant
                i <= self.entries@.len(),
                typ@ == "typ"@,
                forall|a: int|
                    0 <= a < out@.len() ==> (#[trigger] out@[a]@).dirs == prefix@ && out@[a]@.ext
                        == "typ"@,
                forall|a: int|
                    0 <= a < out@.len() ==> exists|idx: int|
                        0 <= idx < i && #[trigger] out@[a]@ == self.entries_view()[idx].0,
                forall|a: int, b: int| 0 <= a < b < out@.len() ==> out@[a]@ != out@[b]@,
                forall|idx: int|
                    0 <= idx < i ==> {
                        let k = #[trigger] self.entries_view()[idx].0;
                        k.dirs == prefix@ && k.ext == "typ"@ ==> exists|a: int|
                            0 <= a < out@.len() && #[trigger] out@[a]@ == k
                    },
            decreases self.entries@.len() - i,
        {
            let k = &self.entries[i].0;
            proof {
                assert(self.entries_view()[i as int].0 == k@);
            }
            if k.ext == typ && string_vecs_eq(&k.dirs, &prefix.segs) {
                proof {
                    assert forall|a: int| 0 <= a < out@.len() implies out@[a]@ != k@ by {
                        let idx = choose|idx: int|
                            0 <= idx < i && #[trigger] out@[a]@ == self.entries_view()[idx].0;
                        assert(self.entries_view()[idx].0 != self.entries_view()[i as int].0);
                    }
                }
                let ghost pre = out@;
                out.push(k.clone());
                proof {
                    assert(out@.len() == pre.len() + 1);
                    assert(forall|b: int| 0 <= b < pre.len() ==> out@[b] == pre[b]);
                    assert(out@[pre.len() as int]@ == k@);
                    assert forall|idx: int| 0 <= idx < i + 1 implies {
                        let k2 = #[trigger] self.entries_view()[idx].0;
                        k2.dirs == prefix@ && k2.ext == "typ"@ ==> exists|a: int|
                            0 <= a < out@.len() && #[trigger] out@[a]@ == k2
                    } by {
                        let k2 = self.entries_view()[idx].0;
                        if k2.dirs == prefix@ && k2.ext == "typ"@ {
                            if idx == i {
                                assert(out@[pre.len() as int]@ == k2);
                            } else {
                                let a = choose|a: int|
                                    0 <= a < pre.len() && #[trigger] pre[a]@
                                        == self.entries_view()[idx].0;
                                assert(out@[a]@ == k2);
                            }
                        }
                    }
                }
            }
            i = i + 1;
        }
        proof {
            assert forall|k: LogicalPathView|
                #[trigger] self@.dom().contains(k) && k.dirs == prefix@ && k.ext == "typ"@
                    implies exists|a: int| 0 <= a < out@.len() && #[trigger] out@[a]@ == k by {
                let idx = choose|idx: int|
                    0 <= idx < self.entries_view().len() && self.entries_view()[idx].0 == k;
            }
            assert forall|a: int| 0 <= a < out@.len() implies self@.dom().contains(
                #[trigger] out@[a]@,
            ) by {
                let idx = choose|idx: int|
                    0 <= idx < self.entries@.len() && #[trigger] out@[a]@
                        == self.entries_view()[idx].0;
            }
        }
        out
    }


    /// Every document carrying the compiler's extension anywhere at or
    /// below `prefix`, without repetition.
    pub fn typ_files_under(&self, prefix: &LogicalPrefix) -> (r: Vec<LogicalPath>)
        requires
            self.wf(),
        ensures
            forall|a: int|
                0 <= a < r@.len() ==> self@.dom().contains(#[trigger] r@[a]@) && seg_prefix_of(
                    prefix@,
                    r@[a]@.dirs,
                ) && r@[a]@.ext == "typ"@,
            forall|a: int, b: int| 0 <= a < b < r@.len() ==> r@[a]@ != r@[b]@,
            forall|k: LogicalPathView|
                #[trigger] self@.dom().contains(k) && seg_prefix_of(prefix@, k.dirs) && k.ext
                    == "typ"@ ==> exists|a: int| 0 <= a < r@.len() && #[trigger] r@[a]@ == k,
    {
        proof {
            lemma_assoc_map_dom(self.entries_view());
        }
        let typ = String::from_str("typ");
        let mut out: Vec<LogicalPath> = Vec::new();
        let mut i: usize = 0;
        while i < self.entries.len()
            invariant
                i <= self.entries@.len(),
                typ@ == "typ"@,
                forall|a: int|
                    0 <= a < out@.len() ==> seg_prefix_of(prefix@, (#[trigger] out@[a]@).dirs)
                        && out@[a]@.ext == "typ"@,
                forall|a: int|
                    0 <= a < out@.len() ==> exists|idx: int|
                        0 <= idx < i && #[trigger] out@[a]@ == self.entries_view()[idx].0,
                forall|a: int| 0 <= a < out@.len() ==> self@.dom().contains(#[trigger] out@[a]@),
                forall|a: int, b: int| 0 <= a < b < out@.len() ==> out@[a]@ != out@[b]@,
                forall|idx: int|
                    0 <= idx < i ==> {
                        let k = #[trigger] self.entries_view()[idx].0;
                        seg_prefix_of(prefix@, k.dirs) && k.ext == "typ"@ ==> exists|a: int|
                            0 <= a < out@.len() && #[trigger] out@[a]@ == k
                    },
            decreases self.entries@.len() - i,
        {
            let k = &self.entries[i].0;
            proof {
                assert(self.entries_view()[i as int].0 == k@);
            }
            if k.ext == typ && is_seg_prefix(&prefix.segs, &k.dirs) {
                proof {
                    assert(self@.dom().contains(k@));
                    assert forall|a: int| 0 <= a < out@.len() implies out@[a]@ != k@ by {
                        let idx = choose|idx: int|
                            0 <= idx < i && #[trigger] out@[a]@ == self.entries_view()[idx].0;
                        assert(self.entries_view()[idx].0 != self.entries_view()[i as int].0);
                    }
                }
                let ghost pre = out@;
                out.push(k.clone());
                proof {
                    assert(out@.len() == pre.len() + 1);
                    assert(forall|b: int| 0 <= b < pre.len() ==> out@[b] == pre[b]);
                    assert(out@[pre.len() as int]@ == k@);
                    assert forall|idx: int| 0 <= idx < i + 1 implies {
                        let k2 = #[trigger] self.entries_view()[idx].0;
                        seg_prefix_of(prefix@, k2.dirs) && k2.ext == "typ"@ ==> exists|a: int|
                            0 <= a < out@.len() && #[trigger] out@[a]@ == k2
                    } by {
                        let k2 = self.entries_view()[idx].0;
                        if seg_prefix_of(prefix@, k2.dirs) && k2.ext == "typ"@ {
                            if idx == i {
                                assert(out@[pre.len() as int]@ == k2);
                            } else {
                                let a = choose|a: int|
                                    0 <= a < pre.len() && #[trigger] pre[a]@
                                        == self.entries_view()[idx].0;
                                assert(out@[a]@ == k2);
                            }
                        }
                    }
                }
            }
            i = i + 1;
        }
        proof {
            assert forall|k: LogicalPathView|
                #[trigger] self@.dom().contains(k) && seg_prefix_of(prefix@, k.dirs) && k.ext
                    == "typ"@ implies exists|a: int| 0 <= a < out@.len() && #[trigger] out@[a]@
                == k by {
                let idx = choose|idx: int|
                    0 <= idx < self.entries_view().len() && self.entries_view()[idx].0 == k;
            }
        }
        out
    }

    /// Whether the logical tree holds an entry at exactly this path.
    pub fn contains(&self, logical: &LogicalPath) -> (r: bool)
        requires
            self.wf(),
        ensures
            r == self@.dom().contains(logical@),
    {
        match self.get_real(logical) {
            Option::Some(_) => true,
            Option::None => false,
        }
    }
}


/// Law: mounting a directory tree makes every listed file resolvable.
/// After a mount of `files` from `dir` under `prefix`, any listed file
/// whose mounted address no later listed file shadows is an entry of the
/// map, resolving to its physical location inside `dir` re-expressed
/// against the resolver base.
pub proof fn lemma_mount_resolves(
    m0: Map<LogicalPathView, PhysicalPathView>,
    dir: PhysicalPathView,
    files: Seq<LogicalPathView>,
    prefix: Seq<Seq<char>>,
    base: Option<PhysicalPathView>,
    i: int,
)
    requires
        0 <= i < files.len(),
        forall|j: int|
            i < j < files.len() ==> mounted_key(prefix, #[trigger] files[j]) != mounted_key(
                prefix,
                files[i],
            ),
    ensures
        m0.union_prefer_right(mount_map(dir, files, prefix, base)).dom().contains(
            mounted_key(prefix, files[i]),
        ),
        m0.union_prefer_right(mount_map(dir, files, prefix, base))[mounted_key(prefix, files[i])]
            == mounted_val(dir, files[i], base),
    decreases files.len(),
{
    let ki = mounted_key(prefix, files[i]);
    if i == files.len() - 1 {
        assert(mount_map(dir, files, prefix, base).dom().contains(ki));
        assert(mount_map(dir, files, prefix, base)[ki] == mounted_val(dir, files[i], base));
    } else {
        assert forall|j: int|
            i < j < files.drop_last().len() implies mounted_key(
            prefix,
            #[trigger] files.drop_last()[j],
        ) != mounted_key(prefix, files.drop_last()[i]) by {
            assert(files.drop_last()[j] == files[j]);
        }
        assert(files.drop_last()[i] == files[i]);
        lemma_mount_resolves(m0, dir, files.drop_last(), prefix, base, i);
        assert(mounted_key(prefix, files.last()) != ki);
        assert(mount_map(dir, files, prefix, base)[ki] == mount_map(
            dir,
            files.drop_last(),
            prefix,
            base,
        )[ki]);
    }
}

} // verus!
