//! The deployment map: which source file is deployed where, and which
//! have been deployed so far.
use vstd::prelude::*;

use crate::markdown::{extension, extension_of, join, join_path, named_components};
use crate::pathpattern::{
    bracket_names, fill, path_captures, spec_init_regex, strings_view, PathPattern,
};
use crate::regex::regex_compiles;
use crate::text::{chars_of, split_char, split_chars, string_from_chars};

verus! {

// --------------------------------------------------
// paths
// --------------------------------------------------
/// Whether a path starts at the root.
pub open spec fn has_root(p: Seq<char>) -> bool {
    p.len() > 0 && p[0] == '/'
}

/// Whether a relative path starts with a `.` component.
pub open spec fn leading_cur_dir(p: Seq<char>) -> bool {
    !has_root(p) && p.len() > 0 && p[0] == '.' && (p.len() == 1 || p[1] == '/')
}

/// Whether two paths name the same components (`Path`'s `==`): the same
/// root, the same leading `.`, and the same named components, empty and
/// inner `.` components skipped.
pub open spec fn same_path(a: Seq<char>, b: Seq<char>) -> bool {
    &&& has_root(a) == has_root(b)
    &&& leading_cur_dir(a) == leading_cur_dir(b)
    &&& named_components(a) == named_components(b)
}

/// The components of a path: root, leading `.`, named components.
fn path_components(p: &Vec<char>) -> (r: (bool, bool, Vec<Vec<char>>))
    ensures
        r.0 == has_root(p@),
        r.1 == leading_cur_dir(p@),
        r.2@.len() == named_components(p@).len(),
        forall|k: int| 0 <= k < r.2@.len() ==> #[trigger] r.2@[k]@ == named_components(p@)[k],
{
    let root = p.len() > 0 && p[0] == '/';
    let cur = !root && p.len() > 0 && p[0] == '.' && (p.len() == 1 || p[1] == '/');
    let parts = split_chars(p, '/');
    let ghost sp = split_char(p@, '/');
    let ghost pred = |c: Seq<char>| c.len() > 0 && c != "."@;
    let dot = chars_of(".");
    let mut out: Vec<Vec<char>> = Vec::new();
    let mut i: usize = 0;
    while i < parts.len()
        invariant
            i <= parts.len(),
            parts@.len() == sp.len(),
            forall|k: int| 0 <= k < parts@.len() ==> #[trigger] parts@[k]@ == sp[k],
            dot@ == "."@,
            pred == (|c: Seq<char>| c.len() > 0 && c != "."@),
            out@.len() == sp.subrange(0, i as int).filter(pred).len(),
            forall|k: int|
                0 <= k < out@.len() ==> #[trigger] out@[k]@ == sp.subrange(0, i as int).filter(
                    pred,
                )[k],
        decreases parts.len() - i,
    {
        reveal_with_fuel(Seq::<_>::filter, 1);
        assert(sp.subrange(0, i + 1).drop_last() =~= sp.subrange(0, i as int));
        if parts[i].len() > 0 && !crate::csv::same_chars(&parts[i], &dot) {
            out.push(parts[i].clone());
        }
        i = i + 1;
    }
    assert(sp.subrange(0, parts.len() as int) =~= sp);
    (root, cur, out)
}

/// Whether two paths name the same components (`Path`'s `==`).
pub fn paths_equal(a: &str, b: &str) -> (r: bool)
    ensures
        r == same_path(a@, b@),
{
    let (ra, ca, na) = path_components(&chars_of(a));
    let (rb, cb, nb) = path_components(&chars_of(b));
    if ra != rb || ca != cb || na.len() != nb.len() {
        return false;
    }
    let mut i: usize = 0;
    while i < na.len()
        invariant
            i <= na.len() == nb.len(),
            na@.len() == named_components(a@).len(),
            nb@.len() == named_components(b@).len(),
            forall|k: int| 0 <= k < na@.len() ==> #[trigger] na@[k]@ == named_components(a@)[k],
            forall|k: int| 0 <= k < nb@.len() ==> #[trigger] nb@[k]@ == named_components(b@)[k],
            forall|k: int| 0 <= k < i ==> named_components(a@)[k] == named_components(b@)[k],
        decreases na.len() - i,
    {
        if !crate::csv::same_chars(&na[i], &nb[i]) {
            assert(named_components(a@)[i as int] != named_components(b@)[i as int]);
            return false;
        }
        i = i + 1;
    }
    assert(named_components(a@) =~= named_components(b@));
    true
}

// --------------------------------------------------
// deployment map
// --------------------------------------------------
/// A file of the deployment map: where it comes from, where it goes, and
/// whether it has been deployed.
pub struct DeploymentFile {
    pub src: String,
    pub dst: String,
    pub deployed: bool,
}

/// A deployment file as plain values.
pub struct FileView {
    pub src: Seq<char>,
    pub dst: Seq<char>,
    pub deployed: bool,
}

/// A deployment file as plain values.
pub open spec fn file_view(f: DeploymentFile) -> FileView {
    FileView { src: f.src@, dst: f.dst@, deployed: f.deployed }
}

/// Deployment files as plain values.
pub open spec fn files_view(v: Seq<DeploymentFile>) -> Seq<FileView> {
    v.map_values(|f: DeploymentFile| file_view(f))
}

/// Two deployment files are equal (`==`): same source and destination
/// paths, same deployed flag.
pub open spec fn same_file(a: FileView, b: FileView) -> bool {
    same_path(a.src, b.src) && same_path(a.dst, b.dst) && a.deployed == b.deployed
}

/// The first file whose source is `src`.
pub open spec fn first_with_src(files: Seq<FileView>, src: Seq<char>) -> Option<nat>
    decreases files.len(),
{
    if files.len() == 0 {
        None
    } else if same_path(files[0].src, src) {
        Some(0)
    } else {
        crate::text::shift_index(first_with_src(files.drop_first(), src), 1)
    }
}

/// The first file whose destination is `dst`.
pub open spec fn first_with_dst(files: Seq<FileView>, dst: Seq<char>) -> Option<nat>
    decreases files.len(),
{
    if files.len() == 0 {
        None
    } else if same_path(files[0].dst, dst) {
        Some(0)
    } else {
        crate::text::shift_index(first_with_dst(files.drop_first(), dst), 1)
    }
}

impl DeploymentFile {
    /// Whether deploying this file copies a whole directory: its
    /// destination has no extension (else it is a single file).
    pub fn copies_directory(&self) -> (b: bool)
        ensures
            b == (extension(self.dst@) is None),
    {
        extension_of(&chars_of(self.dst.as_str())).is_none()
    }

    /// A file from `src` to `dst`, not deployed yet.
    pub fn new(src: String, dst: String) -> (r: DeploymentFile)
        ensures
            file_view(r) == (FileView { src: src@, dst: dst@, deployed: false }),
    {
        DeploymentFile { src, dst, deployed: false }
    }
}

/// For querying the deployment map.
pub enum DeploymentFileType<'a> {
    Source(&'a String),
}

impl<'a> DeploymentFileType<'a> {
    /// The path a query names.
    pub open spec fn queried(&self) -> Seq<char> {
        match *self {
            DeploymentFileType::Source(s) => s@,
        }
    }

    /// The path a query names.
    pub fn path(&self) -> (r: &'a String)
        ensures
            r@ == self.queried(),
    {
        match *self {
            DeploymentFileType::Source(s) => s,
        }
    }
}

/// The deployment map: the files to deploy, in order.
pub struct DeploymentMapInner {
    files: Vec<DeploymentFile>,
}

impl View for DeploymentMapInner {
    type V = Seq<FileView>;

    closed spec fn view(&self) -> Seq<FileView> {
        files_view(self.files@)
    }
}

/// Where `first_with_src` finds a file, it is one with that source, and
/// none before it is.
proof fn lemma_first_with_src(files: Seq<FileView>, src: Seq<char>)
    ensures
        match first_with_src(files, src) {
            Some(i) => i < files.len() && same_path(files[i as int].src, src) && forall|j: int|
                0 <= j < i ==> !same_path(#[trigger] files[j].src, src),
            None => forall|j: int| 0 <= j < files.len() ==> !same_path(#[trigger] files[j].src, src),
        },
    decreases files.len(),
{
    if files.len() > 0 && !same_path(files[0].src, src) {
        lemma_first_with_src(files.drop_first(), src);
        assert forall|j: int| 0 < j < files.len() implies files[j] == files.drop_first()[j - 1] by {}
    }
}

/// Where `first_with_dst` finds a file, it is one with that destination,
/// and none before it is.
proof fn lemma_first_with_dst(files: Seq<FileView>, dst: Seq<char>)
    ensures
        match first_with_dst(files, dst) {
            Some(i) => i < files.len() && same_path(files[i as int].dst, dst) && forall|j: int|
                0 <= j < i ==> !same_path(#[trigger] files[j].dst, dst),
            None => forall|j: int| 0 <= j < files.len() ==> !same_path(#[trigger] files[j].dst, dst),
        },
    decreases files.len(),
{
    if files.len() > 0 && !same_path(files[0].dst, dst) {
        lemma_first_with_dst(files.drop_first(), dst);
        assert forall|j: int| 0 < j < files.len() implies files[j] == files.drop_first()[j - 1] by {}
    }
}

impl DeploymentMapInner {
    /// A deployment map of these files, in order.
    pub fn new(files: Vec<DeploymentFile>) -> (r: DeploymentMapInner)
        ensures
            r@ == files_view(files@),
    {
        DeploymentMapInner { files }
    }

    /// A deployment map from `(source, destination)` pairs, none deployed.
    pub fn from_pairs(pairs: Vec<(String, String)>) -> (r: DeploymentMapInner)
        ensures
            r@.len() == pairs@.len(),
            forall|i: int|
                0 <= i < pairs@.len() ==> #[trigger] r@[i] == (FileView {
                    src: pairs@[i].0@,
                    dst: pairs@[i].1@,
                    deployed: false,
                }),
    {
        let mut files: Vec<DeploymentFile> = Vec::new();
        let mut pairs = pairs;
        let ghost orig = pairs@;
        let mut rev: Vec<(String, String)> = Vec::new();
        while pairs.len() > 0
            invariant
                orig.len() == pairs@.len() + rev@.len(),
                forall|i: int| 0 <= i < pairs@.len() ==> #[trigger] pairs@[i] == orig[i],
                forall|i: int| 0 <= i < rev@.len() ==> #[trigger] rev@[i] == orig[orig.len() - 1 - i],
            decreases pairs.len(),
        {
            let p = pairs.pop().unwrap();
            rev.push(p);
        }
        while rev.len() > 0
            invariant
                orig.len() == files@.len() + rev@.len(),
                forall|i: int| 0 <= i < rev@.len() ==> #[trigger] rev@[i] == orig[orig.len() - 1 - i],
                forall|i: int|
                    0 <= i < files@.len() ==> #[trigger] file_view(files@[i]) == (FileView {
                        src: orig[i].0@,
                        dst: orig[i].1@,
                        deployed: false,
                    }),
            decreases rev.len(),
        {
            let (src, dst) = rev.pop().unwrap();
            files.push(DeploymentFile::new(src, dst));
        }
        DeploymentMapInner { files }
    }

    /// The files, in order.
    pub fn files(&self) -> (r: &Vec<DeploymentFile>)
        ensures
            files_view(r@) == self@,
    {
        &self.files
    }

    /// The destination of the first file with the given source.
    pub fn pop(&self, f: DeploymentFileType) -> (r: Option<&String>)
        ensures
            match first_with_src(self@, f.queried()) {
                Some(i) => r matches Some(d) && d@ == self@[i as int].dst,
                None => r is None,
            },
    {
        let src = f.path();
        {
            {
                proof {
                    lemma_first_with_src(self@, src@);
                }
                let mut i: usize = 0;
                while i < self.files.len()
                    invariant
                        i <= self.files@.len(),
                        self@ == files_view(self.files@),
                        self@.len() == self.files@.len(),
                        src@ == f.queried(),
                        forall|j: int| 0 <= j < i ==> !same_path(#[trigger] self@[j].src, src@),
                        match first_with_src(self@, src@) {
                            Some(k) => k < self@.len() && same_path(self@[k as int].src, src@)
                                && forall|j: int|
                                0 <= j < k ==> !same_path(#[trigger] self@[j].src, src@),
                            None => forall|j: int|
                                0 <= j < self@.len() ==> !same_path(#[trigger] self@[j].src, src@),
                        },
                    decreases self.files.len() - i,
                {
                    assert(self@[i as int] == file_view(self.files@[i as int]));
                    if paths_equal(self.files[i].src.as_str(), src.as_str()) {
                        proof {
                            if first_with_src(self@, src@) != Some(i as nat) {
                                match first_with_src(self@, src@) {
                                    Some(k) => {
                                        if k < i {
                                            assert(!same_path(self@[k as int].src, src@));
                                        } else {
                                            assert(self@[i as int].src == self.files@[i as int].src@);
                                        }
                                    },
                                    None => {
                                        assert(self@[i as int].src == self.files@[i as int].src@);
                                    },
                                }
                            }
                        }
                        return Some(&self.files[i].dst);
                    }
                    i = i + 1;
                }
                None
            }
        }
    }

    /// Whether a file with the given source is in the map.
    pub fn file_exists(&self, f: DeploymentFileType) -> (r: bool)
        ensures
            r == exists|j: int| 0 <= j < self@.len() && same_path(#[trigger] self@[j].src, f.queried()),
    {
        let src = f.path();
        {
            {
                let mut i: usize = 0;
                while i < self.files.len()
                    invariant
                        i <= self.files@.len(),
                        self@ == files_view(self.files@),
                        self@.len() == self.files@.len(),
                        src@ == f.queried(),
                        forall|j: int| 0 <= j < i ==> !same_path(#[trigger] self@[j].src, src@),
                    decreases self.files.len() - i,
                {
                    assert(self@[i as int] == file_view(self.files@[i as int]));
                    if paths_equal(self.files[i].src.as_str(), src.as_str()) {
                        assert(same_path(self@[i as int].src, src@));
                        return true;
                    }
                    i = i + 1;
                }
                false
            }
        }
    }

    /// Marks the first file with the given destination as deployed.
    pub fn mark(&mut self, dst: String)
        ensures
            match first_with_dst(old(self)@, dst@) {
                Some(i) => final(self)@ == old(self)@.update(
                    i as int,
                    FileView { deployed: true, ..old(self)@[i as int] },
                ),
                None => final(self)@ == old(self)@,
            },
    {
        proof {
            lemma_first_with_dst(self@, dst@);
        }
        let ghost start = self@;
        let mut i: usize = 0;
        while i < self.files.len()
            invariant
                i <= self.files@.len(),
                self@ == start,
                start == old(self)@,
                self@ == files_view(self.files@),
                forall|j: int| 0 <= j < i ==> !same_path(#[trigger] self@[j].dst, dst@),
                match first_with_dst(self@, dst@) {
                    Some(k) => k < self@.len() && same_path(self@[k as int].dst, dst@) && forall|j: int|
                        0 <= j < k ==> !same_path(#[trigger] self@[j].dst, dst@),
                    None => forall|j: int|
                        0 <= j < self@.len() ==> !same_path(#[trigger] self@[j].dst, dst@),
                },
            decreases self.files.len() - i,
        {
            assert(self@[i as int] == file_view(self.files@[i as int]));
            if paths_equal(self.files[i].dst.as_str(), dst.as_str()) {
                proof {
                    assert(self@[i as int].dst == self.files@[i as int].dst@);
                    if first_with_dst(self@, dst@) != Some(i as nat) {
                        match first_with_dst(self@, dst@) {
                            Some(k) => {
                                if k < i {
                                    assert(!same_path(self@[k as int].dst, dst@));
                                }
                            },
                            None => {},
                        }
                    }
                }
                let ghost before = self@;
                self.set_deployed(i);
                assert(self@ =~= before.update(i as int, FileView { deployed: true, ..before[i as int] }));
                return;
            }
            i = i + 1;
        }
    }

    /// Marks the file at `i` as deployed.
    pub fn set_deployed(&mut self, i: usize)
        requires
            i < old(self)@.len(),
        ensures
            final(self)@ == old(self)@.update(i as int, FileView { deployed: true, ..old(self)@[i as int] }),
    {
        let mut f = self.files.remove(i);
        f.deployed = true;
        self.files.insert(i, f);
        assert(self@ =~= old(self)@.update(i as int, FileView { deployed: true, ..old(self)@[i as int] }));
    }

    /// The positions of the files not deployed yet, in order.
    pub fn not_deployed(&self) -> (r: Vec<usize>)
        ensures
            forall|k: int| 0 <= k < r@.len() ==> r@[k] < self@.len() && !self@[r@[k] as int].deployed,
            forall|j: int| 0 <= j < self@.len() && !self@[j].deployed ==> r@.contains(j as usize),
            forall|a: int, b: int| 0 <= a < b < r@.len() ==> r@[a] < r@[b],
    {
        let mut r: Vec<usize> = Vec::new();
        let mut i: usize = 0;
        while i < self.files.len()
            invariant
                i <= self.files@.len(),
                self@ == files_view(self.files@),
                forall|k: int| 0 <= k < r@.len() ==> r@[k] < i && !self@[r@[k] as int].deployed,
                forall|j: int| 0 <= j < i && !self@[j].deployed ==> r@.contains(j as usize),
                forall|a: int, b: int| 0 <= a < b < r@.len() ==> r@[a] < r@[b],
            decreases self.files.len() - i,
        {
            assert(self@[i as int] == file_view(self.files@[i as int]));
            let ghost before = r@;
            if !self.files[i].deployed {
                r.push(i);
                assert(r@[r@.len() - 1] == i);
            }
            assert forall|j: int| 0 <= j < i + 1 && !self@[j].deployed implies r@.contains(
                j as usize,
            ) by {
                if j < i {
                    let w = choose|w: int| 0 <= w < before.len() && before[w] == j as usize;
                    assert(r@[w] == before[w]);
                } else {
                    assert(r@[r@.len() - 1] == i);
                }
            }
            i = i + 1;
        }
        r
    }
}

// --------------------------------------------------
// combining maps
// --------------------------------------------------
/// Whether a file equal to `f` is among `files`.
pub open spec fn has_file(files: Seq<FileView>, f: FileView) -> bool {
    exists|j: int| 0 <= j < files.len() && same_file(#[trigger] files[j], f)
}

/// The files of `a` that are not in `b`, in order.
pub open spec fn files_minus(a: Seq<FileView>, b: Seq<FileView>) -> Seq<FileView> {
    a.filter(|f: FileView| !has_file(b, f))
}

/// Whether two files are equal (`==`).
fn files_equal(a: &DeploymentFile, b: &DeploymentFile) -> (r: bool)
    ensures
        r == same_file(file_view(*a), file_view(*b)),
{
    a.deployed == b.deployed && paths_equal(a.src.as_str(), b.src.as_str()) && paths_equal(
        a.dst.as_str(),
        b.dst.as_str(),
    )
}

impl DeploymentMapInner {
    /// The files of this map that `rhs` does not hold, in order (the
    /// map of the files to deploy less the map of those to leave out).
    pub fn sub(self, rhs: DeploymentMapInner) -> (r: DeploymentMapInner)
        ensures
            r@ == files_minus(self@, rhs@),
    {
        let ghost pred = |f: FileView| !has_file(rhs@, f);
        let mut files = self.files;
        let ghost orig = files@;
        let n = files.len();
        let mut reversed: Vec<DeploymentFile> = Vec::new();
        while files.len() > 0
            invariant
                files@.len() + reversed@.len() == orig.len(),
                orig.len() == n,
                forall|k: int| 0 <= k < files@.len() ==> #[trigger] files@[k] == orig[k],
                forall|k: int|
                    0 <= k < reversed@.len() ==> #[trigger] reversed@[k] == orig[orig.len() - 1 - k],
            decreases files.len(),
        {
            let f = files.pop().unwrap();
            reversed.push(f);
        }
        let mut out: Vec<DeploymentFile> = Vec::new();
        let mut i: usize = 0;
        while reversed.len() > 0
            invariant
                i + reversed@.len() == orig.len(),
                orig.len() == n,
                forall|k: int|
                    0 <= k < reversed@.len() ==> #[trigger] reversed@[k] == orig[orig.len() - 1 - k],
                pred == (|f: FileView| !has_file(rhs@, f)),
                files_view(out@) == files_view(orig.subrange(0, i as int)).filter(pred),
            decreases reversed.len(),
        {
            let f = reversed.pop().unwrap();
            assert(f == orig[i as int]);
            let mut found = false;
            let mut j: usize = 0;
            while j < rhs.files.len()
                invariant
                    j <= rhs.files@.len(),
                    found == exists|k: int| 0 <= k < j && same_file(#[trigger] rhs@[k], file_view(f)),
                decreases rhs.files.len() - j,
            {
                if files_equal(&rhs.files[j], &f) {
                    found = true;
                }
                proof {
                    assert(rhs@[j as int] == file_view(rhs.files@[j as int]));
                }
                j = j + 1;
            }
            proof {
                let pre = files_view(orig.subrange(0, i + 1));
                assert(pre.drop_last() =~= files_view(orig.subrange(0, i as int)));
                assert(pre.last() == file_view(f));
                reveal_with_fuel(Seq::<_>::filter, 1);
            }
            if !found {
                out.push(f);
            }
            i = i + 1;
            proof {
                assert(files_view(out@) =~= files_view(orig.subrange(0, i as int)).filter(pred));
            }
        }
        assert(orig.subrange(0, orig.len() as int) =~= orig);
        DeploymentMapInner { files: out }
    }
}

// --------------------------------------------------
// later mappings override earlier ones
// --------------------------------------------------
/// `(source, destination)` pairs as plain values.
pub open spec fn pairs_view(p: Seq<(String, String)>) -> Seq<(Seq<char>, Seq<char>)> {
    p.map_values(|x: (String, String)| (x.0@, x.1@))
}

/// Whether the source of pair `i` is mapped again by a later pair.
pub open spec fn remapped_later(p: Seq<(Seq<char>, Seq<char>)>, i: int) -> bool {
    exists|j: int| i < j < p.len() && same_path(#[trigger] p[j].0, p[i].0)
}

/// The pairs whose source no later pair maps again, in order.
pub open spec fn latest_mappings(p: Seq<(Seq<char>, Seq<char>)>) -> Seq<(Seq<char>, Seq<char>)>
    decreases p.len(),
{
    if p.len() == 0 {
        Seq::empty()
    } else if remapped_later(p, 0) {
        latest_mappings(p.drop_first())
    } else {
        seq![p[0]] + latest_mappings(p.drop_first())
    }
}

/// For pairs after the first, being mapped again later reads the same in
/// the list without its first pair.
proof fn lemma_remapped_later_tail(p: Seq<(Seq<char>, Seq<char>)>, i: int)
    requires
        0 < i < p.len(),
    ensures
        remapped_later(p, i) == remapped_later(p.drop_first(), i - 1),
{
    let q = p.drop_first();
    if remapped_later(p, i) {
        let j = choose|j: int| i < j < p.len() && same_path(#[trigger] p[j].0, p[i].0);
        assert(q[j - 1] == p[j]);
    }
    if remapped_later(q, i - 1) {
        let j = choose|j: int| i - 1 < j < q.len() && same_path(#[trigger] q[j].0, q[i - 1].0);
        assert(q[j] == p[j + 1]);
    }
}

/// Entry `k` of the kept pairs is pair `i` of `p`, which no later pair
/// remaps.
pub open spec fn kept_as(p: Seq<(Seq<char>, Seq<char>)>, k: int, i: int) -> bool {
    0 <= i < p.len() && !remapped_later(p, i) && latest_mappings(p)[k] == p[i]
}

/// Entry `k` of the kept pairs is a pair of `p` that no later pair remaps.
pub open spec fn kept_unremapped(p: Seq<(Seq<char>, Seq<char>)>, k: int) -> bool {
    exists|i: int| #[trigger] kept_as(p, k, i)
}

/// Pair `j` is the last pair for the source of pair `i`, and it is kept.
pub open spec fn last_kept(p: Seq<(Seq<char>, Seq<char>)>, i: int, j: int) -> bool {
    &&& i <= j < p.len()
    &&& same_path(p[j].0, p[i].0)
    &&& !remapped_later(p, j)
    &&& latest_mappings(p).contains(p[j])
}

/// The source of pair `i` keeps its last pair.
pub open spec fn source_kept(p: Seq<(Seq<char>, Seq<char>)>, i: int) -> bool {
    exists|j: int| #[trigger] last_kept(p, i, j)
}

/// No two pairs map the same source.
pub open spec fn sources_distinct(r: Seq<(Seq<char>, Seq<char>)>) -> bool {
    forall|a: int, b: int| #![trigger r[a], r[b]] 0 <= a < b < r.len() ==> !same_path(r[a].0, r[b].0)
}

/// Every kept pair is one that no later pair remaps.
proof fn lemma_latest_kept(p: Seq<(Seq<char>, Seq<char>)>)
    ensures
        forall|k: int| 0 <= k < latest_mappings(p).len() ==> #[trigger] kept_unremapped(p, k),
    decreases p.len(),
{
    if p.len() > 0 {
        let q = p.drop_first();
        let rest = latest_mappings(q);
        let r = latest_mappings(p);
        lemma_latest_kept(q);
        assert forall|k: int| 0 <= k < r.len() implies #[trigger] kept_unremapped(p, k) by {
            if !remapped_later(p, 0) && k == 0 {
                assert(kept_as(p, 0, 0));
            } else {
                let k2 = if remapped_later(p, 0) {
                    k
                } else {
                    k - 1
                };
                assert(r[k] == rest[k2]);
                assert(kept_unremapped(q, k2));
                let i2 = choose|i: int| #[trigger] kept_as(q, k2, i);
                assert(q[i2] == p[i2 + 1]);
                lemma_remapped_later_tail(p, i2 + 1);
                assert(kept_as(p, k, i2 + 1));
            }
        }
    }
}

/// No two kept pairs map the same source.
proof fn lemma_latest_distinct(p: Seq<(Seq<char>, Seq<char>)>)
    ensures
        sources_distinct(latest_mappings(p)),
    decreases p.len(),
{
    if p.len() > 0 {
        let q = p.drop_first();
        let rest = latest_mappings(q);
        let r = latest_mappings(p);
        lemma_latest_distinct(q);
        lemma_latest_kept(q);
        if !remapped_later(p, 0) {
            assert forall|a: int, b: int| #![trigger r[a], r[b]] 0 <= a < b < r.len() implies !same_path(
                r[a].0,
                r[b].0,
            ) by {
                if a == 0 {
                    assert(r[b] == rest[b - 1]);
                    assert(kept_unremapped(q, b - 1));
                    let i2 = choose|i: int| #[trigger] kept_as(q, b - 1, i);
                    assert(q[i2] == p[i2 + 1]);
                } else {
                    assert(r[a] == rest[a - 1] && r[b] == rest[b - 1]);
                }
            }
        }
    }
}

/// Every source keeps its last pair.
proof fn lemma_latest_last(p: Seq<(Seq<char>, Seq<char>)>)
    ensures
        forall|i: int| 0 <= i < p.len() ==> #[trigger] source_kept(p, i),
    decreases p.len(),
{
    if p.len() > 0 {
        let q = p.drop_first();
        let rest = latest_mappings(q);
        let r = latest_mappings(p);
        lemma_latest_last(q);
        assert forall|w: int| 0 <= w < rest.len() implies r.contains(#[trigger] rest[w]) by {
            if !remapped_later(p, 0) {
                assert(r[w + 1] == rest[w]);
            } else {
                assert(r[w] == rest[w]);
            }
        }
        assert forall|i: int| 0 <= i < p.len() implies #[trigger] source_kept(p, i) by {
            let start = if i > 0 {
                i
            } else if remapped_later(p, 0) {
                choose|j: int| 0 < j < p.len() && same_path(#[trigger] p[j].0, p[0].0)
            } else {
                0
            };
            if start == 0 {
                assert(r[0] == p[0]);
                assert(last_kept(p, 0, 0));
            } else {
                assert(q[start - 1] == p[start]);
                assert(source_kept(q, start - 1));
                let j2 = choose|j: int| #[trigger] last_kept(q, start - 1, j);
                assert(q[j2] == p[j2 + 1]);
                lemma_remapped_later_tail(p, j2 + 1);
                let w = choose|w: int| 0 <= w < rest.len() && rest[w] == q[j2];
                assert(r.contains(rest[w]));
                assert(last_kept(p, i, j2 + 1));
            }
        }
    }
}

/// The mappings with, for each source, only its last pair kept, in order:
/// later (more specific) patterns override earlier (general) ones.
pub fn latest_per_source(pairs: Vec<(String, String)>) -> (r: Vec<(String, String)>)
    ensures
        pairs_view(r@) == latest_mappings(pairs_view(pairs@)),
{
    let ghost pv = pairs_view(pairs@);
    let n = pairs.len();
    let mut pairs = pairs;
    let mut out: Vec<(String, String)> = Vec::new();
    let mut i: usize = n;
    assert(pv.subrange(n as int, n as int) =~= Seq::<(Seq<char>, Seq<char>)>::empty());
    while i > 0
        invariant
            i <= n,
            pv.len() == n,
            pairs@.len() == i,
            forall|k: int| 0 <= k < i ==> (#[trigger] pairs@[k]).0@ == pv[k].0 && pairs@[k].1@ == pv[k].1,
            pairs_view(out@) == latest_mappings(pv.subrange(i as int, n as int)),
        decreases i,
    {
        let (src, dst) = pairs.pop().unwrap();
        // is this source mapped again by a later pair?
        let mut again = false;
        let mut j: usize = 0;
        while j < out.len()
            invariant
                j <= out@.len(),
                again == exists|k: int| 0 <= k < j && same_path(#[trigger] pairs_view(out@)[k].0, src@),
            decreases out.len() - j,
        {
            if paths_equal(out[j].0.as_str(), src.as_str()) {
                again = true;
            }
            assert(pairs_view(out@)[j as int].0 == out@[j as int].0@);
            j = j + 1;
        }
        let ghost sub = pv.subrange(i - 1, n as int);
        proof {
            let tail = sub.drop_first();
            assert(tail =~= pv.subrange(i as int, n as int));
            assert(sub[0] == pv[i - 1]);
            let rest = latest_mappings(tail);
            if again {
                lemma_latest_kept(tail);
                let k = choose|k: int| 0 <= k < out@.len() && same_path(#[trigger] pairs_view(out@)[k].0, src@);
                assert(kept_unremapped(tail, k));
                let w = choose|w: int| #[trigger] kept_as(tail, k, w);
                assert(sub[w + 1] == tail[w]);
                assert(remapped_later(sub, 0));
            } else {
                lemma_latest_last(tail);
                assert forall|jj: int| 0 < jj < sub.len() implies !same_path(#[trigger] sub[jj].0, sub[0].0) by {
                    assert(sub[jj] == tail[jj - 1]);
                    assert(source_kept(tail, jj - 1));
                    let w = choose|w: int| #[trigger] last_kept(tail, jj - 1, w);
                    let k = choose|k: int| 0 <= k < rest.len() && rest[k] == tail[w];
                    assert(pairs_view(out@)[k] == rest[k]);
                }
                assert(!remapped_later(sub, 0));
            }
        }
        if !again {
            out.insert(0, (src, dst));
        }
        i = i - 1;
        proof {
            assert(pairs_view(out@) =~= latest_mappings(pv.subrange(i as int, n as int)));
        }
    }
    assert(pv.subrange(0, n as int) =~= pv);
    out
}

/// Law: after later mappings override earlier ones, every source is
/// mapped once, every kept pair is one that no later pair overrides, and
/// every source mapped at all keeps its last pair.
pub proof fn law_latest_mapping_wins(pairs: Seq<(Seq<char>, Seq<char>)>)
    ensures
        sources_distinct(latest_mappings(pairs)),
        forall|k: int| 0 <= k < latest_mappings(pairs).len() ==> #[trigger] kept_unremapped(pairs, k),
        forall|i: int| 0 <= i < pairs.len() ==> #[trigger] source_kept(pairs, i),
{
    lemma_latest_distinct(pairs);
    lemma_latest_kept(pairs);
    lemma_latest_last(pairs);
}

// --------------------------------------------------
// maps built from path patterns
// --------------------------------------------------
/// One entry of the deployment map file: a source path pattern and a
/// destination pattern, each relative to its root (absolute ones stand
/// alone), and the files the source pattern's glob matched.
pub struct PatternMapping {
    pub src: String,
    pub dst: String,
    pub matches: Vec<String>,
}

/// The `(source, destination)` pairs one entry gives, its patterns joined
/// onto `src_root` and `dst_root`: each matched file mapped to the
/// destination pattern filled in from what it captured; none where the
/// source pattern cannot be built.
pub open spec fn mapping_pairs(
    src_root: Seq<char>,
    dst_root: Seq<char>,
    src: Seq<char>,
    dst: Seq<char>,
    matches: Seq<Seq<char>>,
) -> Seq<(Seq<char>, Seq<char>)> {
    let input = join(src_root, src);
    let dest = join(dst_root, dst);
    match spec_init_regex(input) {
        None => Seq::empty(),
        Some((names, re)) => if !regex_compiles(re) {
            Seq::empty()
        } else {
            matches.map_values(
                |path: Seq<char>| (path, fill(dest, bracket_names(dest), path_captures(names, re, path))),
            )
        },
    }
}

/// An entry as plain values.
pub open spec fn mapping_view(m: PatternMapping) -> (Seq<char>, Seq<char>, Seq<Seq<char>>) {
    (m.src@, m.dst@, strings_view(m.matches@))
}

/// The pairs of all entries, in order.
pub open spec fn all_mapping_pairs(
    src_root: Seq<char>,
    dst_root: Seq<char>,
    ms: Seq<(Seq<char>, Seq<char>, Seq<Seq<char>>)>,
) -> Seq<(Seq<char>, Seq<char>)>
    decreases ms.len(),
{
    if ms.len() == 0 {
        Seq::empty()
    } else {
        all_mapping_pairs(src_root, dst_root, ms.drop_last()) + mapping_pairs(
            src_root,
            dst_root,
            ms.last().0,
            ms.last().1,
            ms.last().2,
        )
    }
}

/// Pairs as files not deployed yet.
pub open spec fn undeployed(p: Seq<(Seq<char>, Seq<char>)>) -> Seq<FileView> {
    p.map_values(|x: (Seq<char>, Seq<char>)| FileView { src: x.0, dst: x.1, deployed: false })
}

/// The `(source, destination)` pairs of all entries, in order (sources
/// under `src_root`, destinations under `dst_root`); entries whose pattern
/// cannot be built give none.
pub fn mapping_pairs_of(src_root: &str, dst_root: &str, mappings: Vec<PatternMapping>) -> (r: Vec<(String, String)>)
    ensures
        pairs_view(r@) == all_mapping_pairs(
            src_root@,
            dst_root@,
            mappings@.map_values(|m: PatternMapping| mapping_view(m)),
        ),
{
    let ghost mv = mappings@.map_values(|m: PatternMapping| mapping_view(m));
    let mut all: Vec<(String, String)> = Vec::new();
    let mut ms = mappings;
    let mut rev: Vec<PatternMapping> = Vec::new();
    let ghost orig = ms@;
    let n = ms.len();
    while ms.len() > 0
        invariant
            ms@.len() + rev@.len() == orig.len(),
            orig.len() == n,
            forall|k: int| 0 <= k < ms@.len() ==> #[trigger] ms@[k] == orig[k],
            forall|k: int| 0 <= k < rev@.len() ==> #[trigger] rev@[k] == orig[orig.len() - 1 - k],
        decreases ms.len(),
    {
        let m = ms.pop().unwrap();
        rev.push(m);
    }
    let mut i: usize = 0;
    assert(mv.take(0) =~= Seq::<(Seq<char>, Seq<char>, Seq<Seq<char>>)>::empty());
    while rev.len() > 0
        invariant
            i + rev@.len() == orig.len(),
            orig.len() == n,
            mv == orig.map_values(|m: PatternMapping| mapping_view(m)),
            forall|k: int| 0 <= k < rev@.len() ==> #[trigger] rev@[k] == orig[orig.len() - 1 - k],
            pairs_view(all@) == all_mapping_pairs(src_root@, dst_root@, mv.take(i as int)),
        decreases rev.len(),
    {
        let m = rev.pop().unwrap();
        assert(m == orig[i as int]);
        let ghost pre = mv.take(i + 1);
        assert(pre.drop_last() =~= mv.take(i as int));
        assert(pre.last() == mapping_view(m));
        let input = join_path(src_root, m.src.as_str());
        let dest = join_path(dst_root, m.dst.as_str());
        let ghost matches = strings_view(m.matches@);
        match PathPattern::new(input.as_str(), m.matches) {
            Ok(pattern) => {
                let mut mapped = pattern.map(dest.as_str());
                let ghost before = all@;
                proof {
                    let (names, re) = spec_init_regex(input@)->Some_0;
                    assert(pairs_view(mapped@) =~= matches.map_values(
                        |path: Seq<char>|
                            (path, fill(dest@, bracket_names(dest@), path_captures(names, re, path))),
                    ));
                }
                all.append(&mut mapped);
                assert(pairs_view(all@) =~= pairs_view(before) + mapping_pairs(
                    src_root@,
                    dst_root@,
                    m.src@,
                    m.dst@,
                    matches,
                ));
            },
            Err(_) => {
                assert(mapping_pairs(src_root@, dst_root@, m.src@, m.dst@, matches) =~= Seq::<
                    (Seq<char>, Seq<char>),
                >::empty());
                assert(pairs_view(all@) =~= pairs_view(all@) + Seq::<(Seq<char>, Seq<char>)>::empty());
            },
        }
        i = i + 1;
    }
    assert(mv.take(orig.len() as int) =~= mv);
    all
}

impl DeploymentMapInner {
    /// The deployment map of the file's entries: sources under `src_root`
    /// (the project directory), destinations under `dst_root` (the deploy
    /// directory); where several entries map one source, the last wins.
    pub fn from_mappings(src_root: &str, dst_root: &str, mappings: Vec<PatternMapping>) -> (r: DeploymentMapInner)
        ensures
            r@ == undeployed(
                latest_mappings(
                    all_mapping_pairs(src_root@, dst_root@, mappings@.map_values(|m: PatternMapping| mapping_view(m))),
                ),
            ),
    {
        let all = mapping_pairs_of(src_root, dst_root, mappings);
        let latest = latest_per_source(all);
        let r = DeploymentMapInner::from_pairs(latest);
        assert(r@ =~= undeployed(latest_mappings(pairs_view(all@))));
        r
    }

    /// The deployment map: the first entries' files less those of the
    /// second ones.
    pub fn from_kept_and_skipped(
        src_root: &str,
        dst_root: &str,
        kept: Vec<PatternMapping>,
        skipped: Vec<PatternMapping>,
    ) -> (r: DeploymentMapInner)
        ensures
            r@ == files_minus(
                undeployed(
                    latest_mappings(
                        all_mapping_pairs(src_root@, dst_root@, kept@.map_values(|m: PatternMapping| mapping_view(m))),
                    ),
                ),
                undeployed(
                    latest_mappings(
                        all_mapping_pairs(src_root@, dst_root@, skipped@.map_values(|m: PatternMapping| mapping_view(m))),
                    ),
                ),
            ),
    {
        let inc = DeploymentMapInner::from_mappings(src_root, dst_root, kept);
        let exc = DeploymentMapInner::from_mappings(src_root, dst_root, skipped);
        inc.sub(exc)
    }
}

/// Law: the deployment map built from entries
/// ([`DeploymentMapInner::from_mappings`]) holds the pairs the entries give,
/// in entry order, less each pair whose source a later pair maps again:
/// every source is mapped once, to the destination of its last pair, and
/// no file is marked deployed yet.
pub proof fn law_map_from_mappings(
    src_root: Seq<char>,
    dst_root: Seq<char>,
    entries: Seq<(Seq<char>, Seq<char>, Seq<Seq<char>>)>,
)
    ensures
        ({
            let all = all_mapping_pairs(src_root, dst_root, entries);
            let files = undeployed(latest_mappings(all));
            &&& files.len() == latest_mappings(all).len()
            &&& forall|k: int|
                0 <= k < files.len() ==> !(#[trigger] files[k]).deployed && (files[k].src, files[k].dst)
                    == latest_mappings(all)[k]
            &&& forall|a: int, b: int|
                #![trigger files[a], files[b]]
                0 <= a < b < files.len() ==> !same_path(files[a].src, files[b].src)
            &&& forall|k: int| 0 <= k < files.len() ==> #[trigger] kept_unremapped(all, k)
            &&& forall|i: int| 0 <= i < all.len() ==> #[trigger] source_kept(all, i)
        }),
{
    let all = all_mapping_pairs(src_root, dst_root, entries);
    let l = latest_mappings(all);
    law_latest_mapping_wins(all);
    let files = undeployed(l);
    assert forall|a: int, b: int| #![trigger files[a], files[b]] 0 <= a < b < files.len() implies !same_path(
        files[a].src,
        files[b].src,
    ) by {
        assert(files[a].src == l[a].0);
        assert(files[b].src == l[b].0);
    }
}

// --------------------------------------------------
// the deployment map file
// --------------------------------------------------
/// A JSON object's members as plain values: each key with its value's
/// string, or `None` where the value is not a string.
pub type ObjectView = Seq<(Seq<char>, Option<Seq<char>>)>;

/// A top-level JSON member as plain values: its key, its value's text
/// where the value is a string, and its value's members where the value is
/// an object.
pub type MemberView = (Seq<char>, Option<Seq<char>>, Option<ObjectView>);

/// What `serde_json` reads from the text `contents` as a top-level object
/// (its `Map` keeps keys in sorted order): each member as a
/// [`MemberView`]; or the error's text where the text is not a JSON object.
pub uninterp spec fn json_sections(contents: Seq<char>) -> Result<Seq<MemberView>, Seq<char>>;

/// An object's members as plain values.
pub open spec fn object_view(o: Seq<(String, Option<String>)>) -> ObjectView {
    o.map_values(
        |m: (String, Option<String>)|
            (
                m.0@,
                match m.1 {
                    Some(t) => Some(t@),
                    None => None,
                },
            ),
    )
}

/// The sections as plain values.
pub open spec fn sections_view(v: Seq<(String, Option<String>, Option<Vec<(String, Option<String>)>>)>) -> Seq<
    MemberView,
> {
    v.map_values(
        |x: (String, Option<String>, Option<Vec<(String, Option<String>)>>)|
            (
                x.0@,
                match x.1 {
                    Some(t) => Some(t@),
                    None => None,
                },
                match x.2 {
                    Some(o) => Some(object_view(o@)),
                    None => None,
                },
            ),
    )
}

/// `serde_json::from_str` of `contents` as a `Map<String, Value>`, each
/// member's value read with `Value::as_str` and `Value::as_object`, and
/// each of an object's members' values with `Value::as_str` (see
/// [`json_sections`]); the error's `Display` text where parsing fails.
#[verifier::external_body]
fn parse_json_sections(contents: &str) -> (r: Result<Vec<(String, Option<String>, Option<Vec<(String, Option<String>)>>)>, String>)
    ensures
        match r {
            Ok(v) => json_sections(contents@) == Ok::<_, Seq<char>>(sections_view(v@)),
            Err(e) => json_sections(contents@) == Err::<Seq<MemberView>, _>(e@),
        },
{
    let top = serde_json::from_str::<serde_json::Map<String, serde_json::Value>>(contents).map_err(
        |e| e.to_string(),
    )?;
    Ok(top.iter().map(|(k, v)| (k.clone(), v.as_str().map(|t| t.to_string()), v.as_object().map(|o| {
        o.iter().map(|(k2, v2)| (k2.clone(), v2.as_str().map(|t| t.to_string()))).collect()
    }))).collect())
}

/// The `(key, value)` pairs of an object whose values are all strings, in
/// order; `None` where one is not.
pub open spec fn string_members(o: ObjectView) -> Option<Seq<(Seq<char>, Seq<char>)>>
    decreases o.len(),
{
    if o.len() == 0 {
        Some(Seq::empty())
    } else {
        match (string_members(o.drop_last()), o.last().1) {
            (Some(r), Some(v)) => Some(r.push((o.last().0, v))),
            _ => None,
        }
    }
}

/// Whether every section is an object of strings.
pub open spec fn sections_well_formed(secs: Seq<MemberView>) -> bool {
    forall|i: int|
        0 <= i < secs.len() ==> (#[trigger] secs[i]).2 is Some && string_members(secs[i].2->Some_0)
            is Some
}

/// The pairs of the first section named `name`, if any.
pub open spec fn section_pairs(secs: Seq<MemberView>, name: Seq<char>) -> Option<
    Seq<(Seq<char>, Seq<char>)>,
>
    decreases secs.len(),
{
    if secs.len() == 0 {
        None
    } else if secs[0].0 == name {
        match secs[0].2 {
            Some(o) => string_members(o),
            None => None,
        }
    } else {
        section_pairs(secs.drop_first(), name)
    }
}

/// What the deployment map file gives: the error's text where it is not a
/// JSON object; `None` where a section is not an object of strings or the
/// two sections named are not both there; else the pairs of those two
/// sections, in key order.
pub open spec fn spec_deployment_sections(contents: Seq<char>, kept: Seq<char>, skipped: Seq<char>) -> Result<
    Option<(Seq<(Seq<char>, Seq<char>)>, Seq<(Seq<char>, Seq<char>)>)>,
    Seq<char>,
> {
    match json_sections(contents) {
        Err(e) => Err(e),
        Ok(secs) => if sections_well_formed(secs) && section_pairs(secs, kept) is Some
            && section_pairs(secs, skipped) is Some {
            Ok(Some((section_pairs(secs, kept)->Some_0, section_pairs(secs, skipped)->Some_0)))
        } else {
            Ok(None)
        },
    }
}

/// The pairs of an object view whose values are all strings.
fn object_strings(o: &Vec<(String, Option<String>)>) -> (r: Option<Vec<(String, String)>>)
    ensures
        match string_members(object_view(o@)) {
            Some(p) => r matches Some(v) && pairs_view(v@) == p,
            None => r is None,
        },
{
    let ghost ov = object_view(o@);
    let mut out: Vec<(String, String)> = Vec::new();
    let mut i: usize = 0;
    assert(ov.take(0) =~= ObjectView::empty());
    while i < o.len()
        invariant
            i <= o@.len(),
            ov == object_view(o@),
            ov.len() == o@.len(),
            forall|k: int| 0 <= k < o@.len() ==> #[trigger] ov[k] == (o@[k].0@, match o@[k].1 {
                Some(t) => Some(t@),
                None => None,
            }),
            string_members(ov.take(i as int)) == Some(pairs_view(out@)),
        decreases o.len() - i,
    {
        let ghost pre = ov.take(i + 1);
        assert(pre.drop_last() =~= ov.take(i as int));
        assert(pre.last() == ov[i as int]);
        match &o[i].1 {
            Some(t) => {
                let ghost before = out@;
                out.push((string_from_chars(&chars_of(o[i].0.as_str())), string_from_chars(&chars_of(t.as_str()))));
                assert(pairs_view(out@) =~= pairs_view(before).push((o@[i as int].0@, t@)));
            },
            None => {
                proof {
                    assert(ov[i as int].1 is None);
                    lemma_string_members_none(ov, i as int);
                }
                return None;
            },
        }
        i = i + 1;
    }
    assert(ov.take(o.len() as int) =~= ov);
    Some(out)
}

/// Once a prefix has a non-string value, the whole object has.
proof fn lemma_string_members_none(o: ObjectView, j: int)
    requires
        0 <= j < o.len(),
        o[j].1 is None,
    ensures
        string_members(o) is None,
    decreases o.len(),
{
    if j < o.len() - 1 {
        assert(o.drop_last()[j] == o[j]);
        lemma_string_members_none(o.drop_last(), j);
    }
}

/// The deployment map file's section of the mappings to deploy.
pub const DEPLOYED_SECTION: &'static str = "include";

/// The deployment map file's section of the mappings to leave out.
pub const LEFT_OUT_SECTION: &'static str = "exclude";

/// Converted sections: each name with its string pairs.
pub open spec fn converted_view(c: Seq<(String, Vec<(String, String)>)>) -> Seq<
    (Seq<char>, Seq<(Seq<char>, Seq<char>)>),
> {
    c.map_values(|x: (String, Vec<(String, String)>)| (x.0@, pairs_view(x.1@)))
}

/// The pairs of the first converted section named `name`.
pub open spec fn first_pairs(cv: Seq<(Seq<char>, Seq<(Seq<char>, Seq<char>)>)>, name: Seq<char>) -> Option<
    Seq<(Seq<char>, Seq<char>)>,
>
    decreases cv.len(),
{
    if cv.len() == 0 {
        None
    } else if cv[0].0 == name {
        Some(cv[0].1)
    } else {
        first_pairs(cv.drop_first(), name)
    }
}

/// For well-formed sections, looking a section up in the converted ones
/// gives the same pairs.
proof fn lemma_first_pairs(
    secs: Seq<MemberView>,
    cv: Seq<(Seq<char>, Seq<(Seq<char>, Seq<char>)>)>,
    name: Seq<char>,
)
    requires
        secs.len() == cv.len(),
        forall|k: int|
            0 <= k < secs.len() ==> (#[trigger] secs[k]).2 is Some && string_members(secs[k].2->Some_0)
                == Some(cv[k].1) && cv[k].0 == secs[k].0,
    ensures
        section_pairs(secs, name) == first_pairs(cv, name),
    decreases secs.len(),
{
    if secs.len() > 0 && secs[0].0 != name {
        assert forall|k: int| 0 <= k < secs.drop_first().len() implies (#[trigger] secs.drop_first()[k]).2 is Some
            && string_members(secs.drop_first()[k].2->Some_0) == Some(cv.drop_first()[k].1)
            && cv.drop_first()[k].0 == secs.drop_first()[k].0 by {
            assert(secs.drop_first()[k] == secs[k + 1]);
            assert(cv.drop_first()[k] == cv[k + 1]);
        }
        lemma_first_pairs(secs.drop_first(), cv.drop_first(), name);
    }
}

/// A copy of string pairs.
fn copy_pairs(v: &Vec<(String, String)>) -> (r: Vec<(String, String)>)
    ensures
        pairs_view(r@) == pairs_view(v@),
{
    let mut out: Vec<(String, String)> = Vec::new();
    let mut i: usize = 0;
    while i < v.len()
        invariant
            i <= v@.len(),
            out@.len() == i,
            forall|k: int| 0 <= k < i ==> #[trigger] pairs_view(out@)[k] == pairs_view(v@)[k],
        decreases v.len() - i,
    {
        let ghost before = out@;
        out.push((string_from_chars(&chars_of(v[i].0.as_str())), string_from_chars(&chars_of(v[i].1.as_str()))));
        assert forall|k: int| 0 <= k < i + 1 implies #[trigger] pairs_view(out@)[k] == pairs_view(v@)[k] by {
            if k < i {
                assert(out@[k] == before[k]);
                assert(pairs_view(before)[k] == pairs_view(out@)[k]);
            }
        }
        i = i + 1;
    }
    assert(pairs_view(out@) =~= pairs_view(v@));
    out
}

/// The pairs of the first converted section named `name`.
fn find_pairs(c: &Vec<(String, Vec<(String, String)>)>, name: &str) -> (r: Option<Vec<(String, String)>>)
    ensures
        match first_pairs(converted_view(c@), name@) {
            Some(p) => r matches Some(v) && pairs_view(v@) == p,
            None => r is None,
        },
{
    let ghost cv = converted_view(c@);
    let n = chars_of(name);
    let mut i: usize = 0;
    assert(cv.skip(0) =~= cv);
    while i < c.len()
        invariant
            i <= c@.len(),
            cv == converted_view(c@),
            n@ == name@,
            first_pairs(cv, name@) == first_pairs(cv.skip(i as int), name@),
        decreases c.len() - i,
    {
        let ghost rest = cv.skip(i as int);
        assert(rest[0] == cv[i as int]);
        assert(cv[i as int] == (c@[i as int].0@, pairs_view(c@[i as int].1@)));
        if crate::csv::same_chars(&chars_of(c[i].0.as_str()), &n) {
            return Some(copy_pairs(&c[i].1));
        }
        assert(rest.drop_first() =~= cv.skip(i + 1));
        i = i + 1;
    }
    None
}

/// Reads the two sections named `kept` and `skipped` of the deployment map
/// file's text (see [`spec_deployment_sections`]).
pub fn deployment_sections(contents: &str, kept: &str, skipped: &str) -> (r: Result<
    Option<(Vec<(String, String)>, Vec<(String, String)>)>,
    String,
>)
    ensures
        match spec_deployment_sections(contents@, kept@, skipped@) {
            Err(e) => r matches Err(m) && m@ == e,
            Ok(None) => r matches Ok(None),
            Ok(Some((a, b))) => r matches Ok(Some(p)) && pairs_view(p.0@) == a && pairs_view(p.1@) == b,
        },
{
    let secs = match parse_json_sections(contents) {
        Ok(v) => v,
        Err(e) => {
            return Err(e);
        },
    };
    let ghost sv = sections_view(secs@);
    let mut converted: Vec<(String, Vec<(String, String)>)> = Vec::new();
    let mut i: usize = 0;
    while i < secs.len()
        invariant
            i <= secs@.len(),
            sv == sections_view(secs@),
            json_sections(contents@) == Ok::<_, Seq<char>>(sv),
            converted@.len() == i,
            forall|k: int|
                0 <= k < i ==> (#[trigger] sv[k]).2 is Some && string_members(sv[k].2->Some_0) == Some(
                    converted_view(converted@)[k].1,
                ) && converted_view(converted@)[k].0 == sv[k].0,
        decreases secs.len() - i,
    {
        assert(sv[i as int].0 == secs@[i as int].0@);
        let members = match &secs[i].2 {
            Some(o) => o,
            None => {
                assert(sv[i as int].2 is None);
                assert(!sections_well_formed(sv));
                return Ok(None);
            },
        };
        let pairs = match object_strings(members) {
            Some(p) => p,
            None => {
                assert(sv[i as int].2 == Some(object_view(members@)));
                assert(!sections_well_formed(sv));
                return Ok(None);
            },
        };
        let ghost before = converted@;
        converted.push((string_from_chars(&chars_of(secs[i].0.as_str())), pairs));
        assert forall|k: int|
            0 <= k < i + 1 implies (#[trigger] sv[k]).2 is Some && string_members(sv[k].2->Some_0) == Some(
                converted_view(converted@)[k].1,
            ) && converted_view(converted@)[k].0 == sv[k].0 by {
            if k < i {
                assert(converted@[k] == before[k]);
                assert(converted_view(before)[k] == converted_view(converted@)[k]);
            }
        }
        i = i + 1;
    }
    proof {
        lemma_first_pairs(sv, converted_view(converted@), kept@);
        lemma_first_pairs(sv, converted_view(converted@), skipped@);
    }
    let a = match find_pairs(&converted, kept) {
        Some(p) => p,
        None => {
            return Ok(None);
        },
    };
    let b = match find_pairs(&converted, skipped) {
        Some(p) => p,
        None => {
            return Ok(None);
        },
    };
    Ok(Some((a, b)))
}

/// The top-level members as an object view: each key with its value's
/// text where the value is a string.
pub open spec fn top_level_view(secs: Seq<MemberView>) -> ObjectView {
    secs.map_values(|m: MemberView| (m.0, m.1))
}

/// What a deployment map file written as one flat object of
/// `source pattern: destination pattern` gives: the error's text where it
/// is not a JSON object; `None` where a value is not a string; else its
/// pairs in key order.
pub open spec fn spec_flat_mappings(contents: Seq<char>) -> Result<
    Option<Seq<(Seq<char>, Seq<char>)>>,
    Seq<char>,
> {
    match json_sections(contents) {
        Err(e) => Err(e),
        Ok(secs) => Ok(string_members(top_level_view(secs))),
    }
}

/// Reads a deployment map file written as one flat object of
/// `source pattern: destination pattern` (see [`spec_flat_mappings`]).
pub fn flat_mappings(contents: &str) -> (r: Result<Option<Vec<(String, String)>>, String>)
    ensures
        match spec_flat_mappings(contents@) {
            Err(e) => r matches Err(m) && m@ == e,
            Ok(None) => r matches Ok(None),
            Ok(Some(p)) => r matches Ok(Some(v)) && pairs_view(v@) == p,
        },
{
    let secs = match parse_json_sections(contents) {
        Ok(v) => v,
        Err(e) => {
            return Err(e);
        },
    };
    let ghost tv = top_level_view(sections_view(secs@));
    let mut top: Vec<(String, Option<String>)> = Vec::new();
    let mut i: usize = 0;
    while i < secs.len()
        invariant
            i <= secs@.len(),
            tv == top_level_view(sections_view(secs@)),
            top@.len() == i,
            forall|k: int| 0 <= k < i ==> #[trigger] object_view(top@)[k] == tv[k],
        decreases secs.len() - i,
    {
        let value = match &secs[i].1 {
            Some(t) => Some(string_from_chars(&chars_of(t.as_str()))),
            None => None,
        };
        let ghost before = top@;
        top.push((string_from_chars(&chars_of(secs[i].0.as_str())), value));
        assert forall|k: int| 0 <= k < i + 1 implies #[trigger] object_view(top@)[k] == tv[k] by {
            if k < i {
                assert(top@[k] == before[k]);
                assert(object_view(before)[k] == object_view(top@)[k]);
            }
        }
        i = i + 1;
    }
    assert(object_view(top@) =~= tv);
    Ok(object_strings(&top))
}

// --------------------------------------------------
// shared map
// --------------------------------------------------
/// The deployment map the site build reads and updates.
pub struct DeploymentMap {
    pub inner: DeploymentMapInner,
}

impl DeploymentMap {
    /// Read access.
    pub fn r(&self) -> (r: &DeploymentMapInner)
        ensures
            r@ == self.inner@,
    {
        &self.inner
    }

    /// Write access: changes made through the result are changes to the map.
    pub fn w(&mut self) -> (r: &mut DeploymentMapInner)
        ensures
            *r == old(self).inner,
            final(self).inner == *final(r),
    {
        &mut self.inner
    }
}

// --------------------------------------------------
// laws
// --------------------------------------------------
/// The files after `mark(dst)`: the first file deployed to `dst` marked
/// deployed, the rest unchanged.
pub open spec fn marked(files: Seq<FileView>, dst: Seq<char>) -> Seq<FileView> {
    match first_with_dst(files, dst) {
        Some(i) => files.update(i as int, FileView { deployed: true, ..files[i as int] }),
        None => files,
    }
}

/// Law: once a destination is marked, the files still waiting to be
/// deployed (`not_deployed`) are those that waited before, less the file
/// marked; nothing else changes.
pub proof fn law_mark_leaves_pending(files: Seq<FileView>, dst: Seq<char>)
    ensures
        marked(files, dst).len() == files.len(),
        forall|j: int|
            0 <= j < files.len() ==> (!(#[trigger] marked(files, dst)[j]).deployed <==> (!files[j].deployed
                && first_with_dst(files, dst) != Some(j as nat))),
        forall|j: int|
            0 <= j < files.len() ==> (#[trigger] marked(files, dst)[j]).src == files[j].src
                && marked(files, dst)[j].dst == files[j].dst,
{
    lemma_first_with_dst(files, dst);
}

/// Law: a source has a destination to look up (`pop`) exactly when the
/// map holds a file from it (`file_exists`).
pub proof fn law_lookup_agrees_with_exists(files: Seq<FileView>, src: Seq<char>)
    ensures
        first_with_src(files, src) is Some <==> exists|j: int|
            0 <= j < files.len() && same_path(#[trigger] files[j].src, src),
{
    lemma_first_with_src(files, src);
}

/// Law: the difference of two maps keeps, in order, exactly the files of
/// the first that the second does not hold.
pub proof fn law_difference(a: Seq<FileView>, b: Seq<FileView>)
    ensures
        forall|f: FileView| #[trigger] files_minus(a, b).contains(f) <==> (a.contains(f) && !has_file(b, f)),
        files_minus(a, b).len() <= a.len(),
{
    let pred = |f: FileView| !has_file(b, f);
    assert forall|f: FileView| #[trigger] files_minus(a, b).contains(f) <==> (a.contains(f) && !has_file(b, f)) by {
        if files_minus(a, b).contains(f) {
            a.lemma_filter_contains_rev(pred, f);
        }
        if a.contains(f) && pred(f) {
            let i = choose|i: int| 0 <= i < a.len() && a[i] == f;
            a.lemma_filter_contains(pred, i);
        }
    }
    a.lemma_filter_len(pred);
}

} // verus!
