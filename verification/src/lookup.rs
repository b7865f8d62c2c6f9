//! Path lookup over a parsed tree: splitting a slash-separated path into
//! components, resolving it to a node, listing all paths, and opening a
//! virtual file over a resolved entry.

use vstd::prelude::*;

use crate::types::{Archive, File, FileV};
use crate::vfile::VirtualFile;

verus! {

/// The index of the first slash at or after `i`, or the length of `p`
/// when none follows.
pub open spec fn next_slash(p: Seq<u8>, i: int) -> int
    recommends
        0 <= i <= p.len(),
    decreases p.len() - i,
{
    if i < 0 || i >= p.len() {
        p.len() as int
    } else if p[i] == 47 {
        i
    } else {
        next_slash(p, i + 1)
    }
}

/// The first slash at or after `i` lies between `i` and the end, and no
/// slash lies before it.
pub proof fn lemma_next_slash(p: Seq<u8>, i: int)
    requires
        0 <= i <= p.len(),
    ensures
        i <= next_slash(p, i) <= p.len(),
        next_slash(p, i) < p.len() ==> p[next_slash(p, i)] == 47,
        forall|k: int| i <= k < next_slash(p, i) ==> p[k] != 47,
    decreases p.len() - i,
{
    if i < p.len() && p[i] != 47 {
        lemma_next_slash(p, i + 1);
    }
}

/// The slash-separated components of `p` from position `i` on: maximal
/// runs of non-slash bytes, with empty components dropped.
pub open spec fn spec_components_from(p: Seq<u8>, i: int) -> Seq<Seq<u8>>
    recommends
        0 <= i <= p.len(),
    decreases p.len() - i,
{
    if i < 0 || i >= p.len() {
        Seq::empty()
    } else if p[i] == 47 {
        spec_components_from(p, i + 1)
    } else {
        let j = next_slash(p, i);
        let jc = if j <= i {
            i + 1
        } else if j > p.len() {
            p.len() as int
        } else {
            j
        };
        seq![p.subrange(i, jc)] + spec_components_from(p, jc)
    }
}

/// The slash-separated components of the whole of `p`.
pub open spec fn spec_components(p: Seq<u8>) -> Seq<Seq<u8>> {
    spec_components_from(p, 0)
}

/// Split a path into its slash-separated components, dropping empty
/// ones: a trailing slash, as a directory path carries, adds nothing.
pub fn split_path(path: &[u8]) -> (out: Vec<Vec<u8>>)
    ensures
        out.deep_view() == spec_components(path@),
{
    let n = path.len();
    let mut out: Vec<Vec<u8>> = Vec::new();
    let mut i: usize = 0;
    proof {
        assert(out.deep_view() =~~= Seq::<Seq<u8>>::empty());
    }
    while i < n
        invariant
            0 <= i <= n,
            n == path@.len(),
            spec_components(path@) == out.deep_view() + spec_components_from(path@, i as int),
        decreases n - i,
    {
        let ghost prev = i as int;
        if path[i] == 47 {
            i = i + 1;
            proof {
                assert(spec_components_from(path@, prev) == spec_components_from(
                    path@,
                    i as int,
                ));
            }
        } else {
            proof {
                lemma_next_slash(path@, prev);
            }
            let mut j: usize = i;
            while j < n && path[j] != 47
                invariant
                    0 <= i <= j <= n,
                    n == path@.len(),
                    forall|k: int| i <= k < j ==> path@[k] != 47,
                decreases n - j,
            {
                j = j + 1;
            }
            proof {
                assert(j == next_slash(path@, prev)) by {
                    lemma_next_slash(path@, prev);
                    let ns = next_slash(path@, prev);
                    if j < ns {
                        assert(path@[j as int] == 47 || j == n);
                        assert(false);
                    }
                    if ns < j {
                        assert(path@[ns] != 47);
                        assert(false);
                    }
                }
            }
            let comp = vstd::slice::slice_to_vec(vstd::slice::slice_subrange(path, i, j));
            let ghost old_dv = out.deep_view();
            out.push(comp);
            proof {
                assert(out.deep_view() =~~= old_dv.push(path@.subrange(prev, j as int)));
                assert(old_dv + (seq![path@.subrange(prev, j as int)] + spec_components_from(
                    path@,
                    j as int,
                )) =~= out.deep_view() + spec_components_from(path@, j as int));
            }
            i = j;
        }
    }
    proof {
        assert(spec_components_from(path@, i as int) =~~= Seq::<Seq<u8>>::empty());
        assert(out.deep_view() + Seq::<Seq<u8>>::empty() =~= out.deep_view());
    }
    out
}

/// The last node of `fs` named `name`, as the walk that checks every
/// child and keeps the latest match finds it.
pub open spec fn find_match(fs: Seq<FileV>, name: Seq<u8>) -> Option<FileV>
    decreases fs,
{
    if fs.len() == 0 {
        None
    } else if fs.last().header.filename == name {
        Some(fs.last())
    } else {
        find_match(fs.drop_last(), name)
    }
}

/// The node the component list denotes, walked from the nodes of `fs`:
/// the first component picks among `fs` by exact filename equality, each
/// further component among the children of the node so far; an empty
/// component list, or any component without a match, denotes nothing.
pub open spec fn resolve_components(fs: Seq<FileV>, comps: Seq<Seq<u8>>) -> Option<FileV>
    decreases comps.len(),
{
    if comps.len() == 0 {
        None
    } else {
        match find_match(fs, comps[0]) {
            None => None,
            Some(f) => if comps.len() == 1 {
                Some(f)
            } else {
                resolve_components(f.childs, comps.drop_first())
            },
        }
    }
}

/// Compare two byte strings for equality.
pub fn bytes_eq(a: &[u8], b: &[u8]) -> (out: bool)
    ensures
        out == (a@ == b@),
{
    if a.len() != b.len() {
        proof {
            assert(a@.len() != b@.len());
        }
        return false;
    }
    let n = a.len();
    let mut i: usize = 0;
    while i < n
        invariant
            0 <= i <= n,
            n == a@.len() == b@.len(),
            forall|k: int| 0 <= k < i ==> a@[k] == b@[k],
        decreases n - i,
    {
        if *vstd::slice::slice_index_get(a, i) != *vstd::slice::slice_index_get(b, i) {
            return false;
        }
        i = i + 1;
    }
    proof {
        assert(a@ =~= b@);
    }
    true
}

/// The last entry of `files` whose name is `name`, if any.
fn find_in<'a>(files: &'a Vec<File>, name: &Vec<u8>) -> (out: Option<&'a File>)
    ensures
        match out {
            Some(f) => find_match(crate::types::files_view(files@), name@) == Some(f@),
            None => find_match(crate::types::files_view(files@), name@) is None,
        },
{
    let ghost fv = crate::types::files_view(files@);
    proof {
        crate::types::lemma_files_view(files@);
    }
    let n = files.len();
    let mut best: Option<usize> = None;
    let mut i: usize = 0;
    proof {
        assert(fv.take(0) =~= Seq::<FileV>::empty());
    }
    while i < n
        invariant
            0 <= i <= n,
            n == files@.len(),
            fv == crate::types::files_view(files@),
            fv.len() == n,
            forall|k: int| 0 <= k < n ==> fv[k] == crate::types::file_view(files@[k]),
            match best {
                Some(b) => b < i && find_match(fv.take(i as int), name@) == Some(fv[b as int]),
                None => find_match(fv.take(i as int), name@) is None,
            },
        decreases n - i,
    {
        proof {
            assert(fv.take(i as int + 1).drop_last() =~= fv.take(i as int));
            assert(fv.take(i as int + 1).last() == fv[i as int]);
        }
        if bytes_eq(files[i].header.filename.as_slice(), name.as_slice()) {
            best = Some(i);
        }
        i = i + 1;
    }
    proof {
        assert(fv.take(n as int) =~= fv);
    }
    match best {
        Some(b) => Some(&files[b]),
        None => None,
    }
}

impl Archive {
    /// The node a slash-separated path denotes in this archive, if any:
    /// the path's first component must name a top-level entry, each
    /// further component a child of the node so far.
    pub fn get_with_path(&self, path: &[u8]) -> (out: Option<&File>)
        ensures
            match out {
                Some(f) => resolve_components(self@.files, spec_components(path@)) == Some(f@),
                None => resolve_components(self@.files, spec_components(path@)) is None,
            },
    {
        let comps = split_path(path);
        let ghost cv = spec_components(path@);
        proof {
            assert forall|k: int| 0 <= k < comps@.len() implies cv[k] == comps@[k]@ by {
                assert(comps@[k].deep_view() =~= comps@[k]@);
            }
            assert(cv.len() == comps@.len());
        }
        if comps.len() == 0 {
            return None;
        }
        let mut cur: &File = match find_in(&self.files, &comps[0]) {
            None => {
                return None;
            },
            Some(f) => f,
        };
        let mut i: usize = 1;
        proof {
            assert(cv.drop_first() =~= cv.skip(1));
        }
        while i < comps.len()
            invariant
                1 <= i <= comps@.len(),
                cv == spec_components(path@),
                comps.deep_view() == cv,
                cv.len() == comps@.len(),
                forall|k: int| 0 <= k < comps@.len() ==> cv[k] == comps@[k]@,
                if i < comps@.len() {
                    resolve_components(self@.files, cv) == resolve_components(
                        crate::types::file_view(*cur).childs,
                        cv.skip(i as int),
                    )
                } else {
                    resolve_components(self@.files, cv) == Some(crate::types::file_view(*cur))
                },
            decreases comps@.len() - i,
        {
            proof {
                assert(cv.skip(i as int)[0] == cv[i as int]);
                assert(cv.skip(i as int).drop_first() =~= cv.skip(i as int + 1));
                assert(crate::types::file_view(*cur).childs == crate::types::files_view(
                    cur.childs@,
                ));
            }
            let next = match find_in(&cur.childs, &comps[i]) {
                None => {
                    proof {
                        assert(find_match(
                            crate::types::file_view(*cur).childs,
                            cv.skip(i as int)[0],
                        ) is None);
                        assert(resolve_components(
                            crate::types::file_view(*cur).childs,
                            cv.skip(i as int),
                        ) is None);
                    }
                    return None;
                },
                Some(f) => f,
            };
            cur = next;
            i = i + 1;
        }
        Some(cur)
    }

    /// Whether a slash-separated path denotes a node of this archive.
    pub fn path_exist(&self, path: &[u8]) -> (out: bool)
        ensures
            out == (resolve_components(self@.files, spec_components(path@)) is Some),
    {
        match self.get_with_path(path) {
            Some(_) => true,
            None => false,
        }
    }

    /// A virtual file over the entry a path denotes: its byte range is
    /// the entry's absolute offset and declared size.  Nothing is
    /// returned when the path denotes no entry, or when the entry's
    /// range would exceed the integer limit.
    pub fn get_virtual(&self, path: &[u8]) -> (out: Option<VirtualFile>)
        ensures
            match resolve_components(self@.files, spec_components(path@)) {
                Some(f) => if f.absolute_offset + f.header.filesize <= u64::MAX {
                    out == Some(
                        VirtualFile {
                            start_offset: f.absolute_offset,
                            end_offset: (f.absolute_offset + f.header.filesize) as u64,
                            current_offset: 0,
                        },
                    )
                } else {
                    out is None
                },
                None => out is None,
            },
    {
        match self.get_with_path(path) {
            None => None,
            Some(f) => {
                if f.header.filesize <= u64::MAX - f.absolute_offset {
                    Some(VirtualFile::from_sizes((f.absolute_offset, f.header.filesize)))
                } else {
                    None
                }
            },
        }
    }
}

/// The path entries one node contributes: its own slash-joined path,
/// with a trailing slash for a directory, followed by its descendants'.
pub open spec fn entry_paths(f: FileV, base: Seq<u8>) -> Seq<Seq<u8>>
    decreases f, 0int,
{
    if f.header.is_file {
        seq![base + f.header.filename]
    } else {
        seq![base + f.header.filename + seq![47u8]] + list_paths(
            f.childs,
            base + f.header.filename + seq![47u8],
        )
    }
}

/// The path entries of a node list, in order.
pub open spec fn list_paths(fs: Seq<FileV>, base: Seq<u8>) -> Seq<Seq<u8>>
    decreases fs, 1int,
{
    if fs.len() == 0 {
        Seq::empty()
    } else {
        entry_paths(fs[0], base) + list_paths(fs.drop_first(), base)
    }
}

/// The path entries of a list extended by one node decompose into the
/// list's entries followed by the node's.
pub proof fn lemma_list_paths_push(fs: Seq<FileV>, f: FileV, base: Seq<u8>)
    ensures
        list_paths(fs.push(f), base) == list_paths(fs, base) + entry_paths(f, base),
    decreases fs,
{
    if fs.len() == 0 {
        assert(fs.push(f).drop_first() =~= Seq::<FileV>::empty());
        assert(fs.push(f)[0] == f);
        assert(list_paths(fs.push(f).drop_first(), base) == Seq::<Seq<u8>>::empty());
        assert(list_paths(fs, base) == Seq::<Seq<u8>>::empty());
        assert(list_paths(fs.push(f), base) =~= list_paths(fs, base) + entry_paths(f, base));
    } else {
        let p = fs.push(f);
        assert(p.drop_first() =~= fs.drop_first().push(f));
        assert(p[0] == fs[0]);
        lemma_list_paths_push(fs.drop_first(), f, base);
        assert(list_paths(p, base) == entry_paths(p[0], base) + list_paths(p.drop_first(), base));
        assert(list_paths(fs, base) == entry_paths(fs[0], base) + list_paths(
            fs.drop_first(),
            base,
        ));
        assert(entry_paths(fs[0], base) + (list_paths(fs.drop_first(), base) + entry_paths(
            f,
            base,
        )) =~= (entry_paths(fs[0], base) + list_paths(fs.drop_first(), base)) + entry_paths(
            f,
            base,
        ));
    }
}

/// Append to `v` the path entries of the nodes of `files`, each under
/// `base`.
fn paths_into(files: &Vec<File>, v: &mut Vec<Vec<u8>>, base: &[u8])
    ensures
        final(v).deep_view() == old(v).deep_view() + list_paths(
            crate::types::files_view(files@),
            base@,
        ),
    decreases files@,
{
    let ghost orig = v.deep_view();
    let ghost fv = crate::types::files_view(files@);
    proof {
        crate::types::lemma_files_view(files@);
        assert(fv.take(0) =~= Seq::<FileV>::empty());
        assert(orig + list_paths(fv.take(0), base@) =~= orig);
    }
    let n = files.len();
    let mut i: usize = 0;
    while i < n
        invariant
            0 <= i <= n,
            n == files@.len(),
            fv == crate::types::files_view(files@),
            fv.len() == n,
            forall|k: int| 0 <= k < n ==> fv[k] == crate::types::file_view(files@[k]),
            v.deep_view() == orig + list_paths(fv.take(i as int), base@),
        decreases n - i,
    {
        proof {
            lemma_list_paths_push(fv.take(i as int), fv[i as int], base@);
            assert(fv.take(i as int).push(fv[i as int]) =~= fv.take(i as int + 1));
        }
        let f = &files[i];
        let mut p: Vec<u8> = vstd::slice::slice_to_vec(base);
        crate::utils::push_bytes(&mut p, f.header.filename.as_slice());
        if f.header.is_file {
            let ghost old_dv = v.deep_view();
            proof {
                assert(p@ == base@ + crate::types::file_view(files@[i as int]).header.filename);
            }
            v.push(p);
            proof {
                assert(v.deep_view() =~~= old_dv.push(
                    base@ + crate::types::file_view(files@[i as int]).header.filename,
                ));
                assert(old_dv + entry_paths(fv[i as int], base@) =~= v.deep_view());
                assert(v.deep_view() =~= orig + list_paths(fv.take(i as int + 1), base@));
            }
        } else {
            p.push(47);
            let p2 = vstd::slice::slice_to_vec(p.as_slice());
            let ghost dir_path = base@ + crate::types::file_view(
                files@[i as int],
            ).header.filename + seq![47u8];
            proof {
                assert(p@ =~= dir_path);
            }
            let ghost old_dv = v.deep_view();
            v.push(p);
            proof {
                assert(v.deep_view() =~~= old_dv.push(dir_path));
            }
            paths_into(&f.childs, v, p2.as_slice());
            proof {
                assert(crate::types::file_view(files@[i as int]).childs
                    == crate::types::files_view(f.childs@));
                assert(v.deep_view() == old_dv.push(dir_path) + list_paths(
                    fv[i as int].childs,
                    dir_path,
                ));
                assert(old_dv + entry_paths(fv[i as int], base@) =~= old_dv.push(dir_path)
                    + list_paths(fv[i as int].childs, dir_path));
                assert(v.deep_view() =~= orig + list_paths(fv.take(i as int + 1), base@));
            }
        }
        i = i + 1;
    }
    proof {
        assert(fv.take(n as int) =~= fv);
    }
}

impl File {
    /// Append to `v` the slash-joined paths of this node's descendants,
    /// each under `base`: directories with a trailing slash, files
    /// without.
    pub fn paths(&self, v: &mut Vec<Vec<u8>>, base: &[u8])
        ensures
            final(v).deep_view() == old(v).deep_view() + list_paths(
                crate::types::file_view(*self).childs,
                base@,
            ),
    {
        paths_into(&self.childs, v, base);
        proof {
            assert(crate::types::file_view(*self).childs == crate::types::files_view(
                self.childs@,
            ));
        }
    }
}

impl Archive {
    /// Every path inside the archive, in header-list order, depth first:
    /// the slash-joined path of each entry, directories with a trailing
    /// slash.
    pub fn paths(&self) -> (out: Vec<Vec<u8>>)
        ensures
            out.deep_view() == list_paths(self@.files, Seq::empty()),
    {
        let mut v: Vec<Vec<u8>> = Vec::new();
        let base: Vec<u8> = Vec::new();
        proof {
            assert(v.deep_view() =~~= Seq::<Seq<u8>>::empty());
        }
        paths_into(&self.files, &mut v, base.as_slice());
        proof {
            assert(Seq::<Seq<u8>>::empty() + list_paths(self@.files, Seq::empty()) =~= list_paths(
                self@.files,
                Seq::empty(),
            ));
            assert(base@ =~= Seq::<u8>::empty());
        }
        v
    }
}

} // verus!
