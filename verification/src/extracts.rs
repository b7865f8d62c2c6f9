//! Extraction planning: the ordered list of filesystem actions that
//! materialize a parsed tree under a destination directory.
//!
//! The plan pairs each directory with the path to create and each file
//! with its path and the byte range of its payload inside the archive;
//! the caller performs the filesystem work and streams the ranges.

use vstd::prelude::*;

use crate::types::{ArchiveFile, ExtractOption, File, FileV};

verus! {

/// Error of an extraction: the taxonomy a caller reports when the
/// filesystem refuses the plan.
#[derive(Debug, PartialEq, Eq)]
pub enum ExtractError {
    /// The destination directory does not exist; holds its path.
    DoNotExist(Vec<u8>),
    /// An I/O failure, carried as its message.
    IoError(String),
    /// The destination entry already exists; holds its path.
    AlreadyExist(Vec<u8>),
    /// The destination is not a directory; holds its path.
    NotDir(Vec<u8>),
}

/// One step of an extraction plan: create the directory at `path`, or
/// write to the file at `path` the `size` archive bytes found at
/// absolute offset `offset`.
#[derive(Debug, PartialEq, Eq)]
pub struct ExtractAction {
    pub path: Vec<u8>,
    pub is_file: bool,
    pub offset: u64,
    pub size: u64,
}

/// Mathematical view of an [`ExtractAction`].
pub ghost struct ActionV {
    pub path: Seq<u8>,
    pub is_file: bool,
    pub offset: u64,
    pub size: u64,
}

impl View for ExtractAction {
    type V = ActionV;

    open spec fn view(&self) -> ActionV {
        ActionV {
            path: self.path@,
            is_file: self.is_file,
            offset: self.offset,
            size: self.size,
        }
    }
}

impl DeepView for ExtractAction {
    type V = ActionV;

    open spec fn deep_view(&self) -> ActionV {
        self@
    }
}

/// The actions one node contributes: its own, then its descendants', in
/// header-list order.
pub open spec fn entry_actions(f: FileV, base: Seq<u8>) -> Seq<ActionV>
    decreases f, 0int,
{
    let p = base + f.header.filename;
    if f.header.is_file {
        seq![
            ActionV {
                path: p,
                is_file: true,
                offset: f.absolute_offset,
                size: f.header.filesize,
            }
        ]
    } else {
        seq![
            ActionV {
                path: p,
                is_file: false,
                offset: f.absolute_offset,
                size: f.header.filesize,
            }
        ] + tree_actions(f.childs, p + seq![47u8])
    }
}

/// The actions of a node list, in order.
pub open spec fn tree_actions(fs: Seq<FileV>, base: Seq<u8>) -> Seq<ActionV>
    decreases fs, 1int,
{
    if fs.len() == 0 {
        Seq::empty()
    } else {
        entry_actions(fs[0], base) + tree_actions(fs.drop_first(), base)
    }
}

/// The actions of a list extended by one node decompose into the list's
/// actions followed by the node's.
pub proof fn lemma_tree_actions_push(fs: Seq<FileV>, f: FileV, base: Seq<u8>)
    ensures
        tree_actions(fs.push(f), base) == tree_actions(fs, base) + entry_actions(f, base),
    decreases fs,
{
    if fs.len() == 0 {
        assert(fs.push(f).drop_first() =~= Seq::<FileV>::empty());
        assert(fs.push(f)[0] == f);
        assert(tree_actions(fs.push(f).drop_first(), base) == Seq::<ActionV>::empty());
        assert(tree_actions(fs, base) == Seq::<ActionV>::empty());
        assert(tree_actions(fs.push(f), base) =~= tree_actions(fs, base) + entry_actions(
            f,
            base,
        ));
    } else {
        let p = fs.push(f);
        assert(p.drop_first() =~= fs.drop_first().push(f));
        assert(p[0] == fs[0]);
        lemma_tree_actions_push(fs.drop_first(), f, base);
        assert(tree_actions(p, base) == entry_actions(p[0], base) + tree_actions(
            p.drop_first(),
            base,
        ));
        assert(tree_actions(fs, base) == entry_actions(fs[0], base) + tree_actions(
            fs.drop_first(),
            base,
        ));
        assert(entry_actions(fs[0], base) + (tree_actions(fs.drop_first(), base) + entry_actions(
            f,
            base,
        )) =~= (entry_actions(fs[0], base) + tree_actions(fs.drop_first(), base))
            + entry_actions(f, base));
    }
}

/// Append to `v` the actions of the nodes of `files`, each under `base`.
fn actions_into(files: &Vec<File>, v: &mut Vec<ExtractAction>, base: &[u8])
    ensures
        final(v).deep_view() == old(v).deep_view() + tree_actions(
            crate::types::files_view(files@),
            base@,
        ),
    decreases files@,
{
    let ghost orig = v.deep_view();
    let ghost fv = crate::types::files_view(files@);
    proof {
        crate::types::lemma_files_view(files@);
        assert(fv.take(0) =~= Seq::<FileV>::empty());
        assert(orig + tree_actions(fv.take(0), base@) =~= orig);
    }
    let n = files.len();
    let mut i: usize = 0;
    while i < n
        invariant
            0 <= i <= n,
            n == files@.len(),
            fv == crate::types::files_view(files@),
            fv.len() == n,
            forall|k: int| 0 <= k < n ==> fv[k] == crate::types::file_view(files@[k]),
            v.deep_view() == orig + tree_actions(fv.take(i as int), base@),
        decreases n - i,
    {
        proof {
            lemma_tree_actions_push(fv.take(i as int), fv[i as int], base@);
            assert(fv.take(i as int).push(fv[i as int]) =~= fv.take(i as int + 1));
        }
        let f = &files[i];
        let mut p: Vec<u8> = vstd::slice::slice_to_vec(base);
        crate::utils::push_bytes(&mut p, f.header.filename.as_slice());
        let ghost joined = base@ + crate::types::file_view(files@[i as int]).header.filename;
        if f.header.is_file {
            let ghost old_dv = v.deep_view();
            let act = ExtractAction {
                path: p,
                is_file: true,
                offset: f.absolute_offset,
                size: f.header.filesize,
            };
            proof {
                assert(act@ == entry_actions(fv[i as int], base@)[0]);
            }
            v.push(act);
            proof {
                assert(v.deep_view() =~~= old_dv + entry_actions(fv[i as int], base@));
                assert(v.deep_view() =~= orig + tree_actions(fv.take(i as int + 1), base@));
            }
        } else {
            let act = ExtractAction {
                path: p,
                is_file: false,
                offset: f.absolute_offset,
                size: f.header.filesize,
            };
            let ghost old_dv = v.deep_view();
            v.push(act);
            proof {
                assert(v.deep_view() =~~= old_dv.push(
                    ActionV {
                        path: joined,
                        is_file: false,
                        offset: fv[i as int].absolute_offset,
                        size: fv[i as int].header.filesize,
                    },
                ));
            }
            let mut p2 = vstd::slice::slice_to_vec(base);
            crate::utils::push_bytes(&mut p2, f.header.filename.as_slice());
            p2.push(47);
            proof {
                assert(p2@ =~= joined + seq![47u8]);
            }
            actions_into(&f.childs, v, p2.as_slice());
            proof {
                assert(crate::types::file_view(files@[i as int]).childs
                    == crate::types::files_view(f.childs@));
                assert(old_dv + entry_actions(fv[i as int], base@) =~= v.deep_view());
                assert(v.deep_view() =~= orig + tree_actions(fv.take(i as int + 1), base@));
            }
        }
        i = i + 1;
    }
    proof {
        assert(fv.take(n as int) =~= fv);
    }
}

impl ArchiveFile {
    /// The extraction plan of this archive under the destination
    /// `base_path`: for each entry, depth first in header-list order, a
    /// directory to create or a file to fill from its byte range.
    pub fn extract(&self, base_path: &[u8]) -> (out: Vec<ExtractAction>)
        ensures
            out.deep_view() == tree_actions(self@.files, base_path@ + seq![47u8]),
    {
        self.extract_with_options(ExtractOption::new(vstd::slice::slice_to_vec(base_path)))
    }

    /// The extraction plan under the destination of `options`.  The
    /// replace flag does not change the plan; it tells the caller
    /// whether an already-present entry is an error.
    pub fn extract_with_options(&self, options: ExtractOption) -> (out: Vec<ExtractAction>)
        ensures
            out.deep_view() == tree_actions(self@.files, options.base_path@ + seq![47u8]),
    {
        let mut v: Vec<ExtractAction> = Vec::new();
        let ghost orig_base = options.base_path@;
        let mut base = options.base_path;
        base.push(47);
        proof {
            assert(base@ =~= orig_base + seq![47u8]);
            assert(v.deep_view() =~~= Seq::<ActionV>::empty());
            assert(self@.files == crate::types::files_view(self.archive.files@));
        }
        actions_into(&self.archive.files, &mut v, base.as_slice());
        proof {
            assert(Seq::<ActionV>::empty() + tree_actions(self@.files, base@) =~= tree_actions(
                self@.files,
                base@,
            ));
        }
        v
    }
}

/// The actions that materialize one resolved node at exactly `path`: the
/// node itself there, and a directory's descendants under it.
pub open spec fn subtree_actions(f: FileV, path: Seq<u8>) -> Seq<ActionV> {
    seq![
        ActionV {
            path: path,
            is_file: f.header.is_file,
            offset: f.absolute_offset,
            size: f.header.filesize,
        }
    ] + if f.header.is_file {
        Seq::empty()
    } else {
        tree_actions(f.childs, path + seq![47u8])
    }
}

impl crate::types::Archive {
    /// The extraction plan of the single entry a slash-separated path
    /// denotes, materialized at `out`: nothing when the path denotes no
    /// entry.
    pub fn extract_file(&self, path: &[u8], out: &[u8]) -> (r: Option<Vec<ExtractAction>>)
        ensures
            match crate::lookup::resolve_components(
                self@.files,
                crate::lookup::spec_components(path@),
            ) {
                Some(f) => r matches Some(acts) && acts.deep_view() == subtree_actions(f, out@),
                None => r is None,
            },
    {
        let f = match self.get_with_path(path) {
            None => {
                return None;
            },
            Some(f) => f,
        };
        let mut v: Vec<ExtractAction> = Vec::new();
        let act = ExtractAction {
            path: vstd::slice::slice_to_vec(out),
            is_file: f.header.is_file,
            offset: f.absolute_offset,
            size: f.header.filesize,
        };
        v.push(act);
        let ghost fv = crate::types::file_view(*f);
        proof {
            assert(v.deep_view() =~~= seq![
                ActionV {
                    path: out@,
                    is_file: fv.header.is_file,
                    offset: fv.absolute_offset,
                    size: fv.header.filesize,
                }
            ]);
        }
        if !f.header.is_file {
            let mut base = vstd::slice::slice_to_vec(out);
            base.push(47);
            proof {
                assert(base@ =~= out@ + seq![47u8]);
                assert(fv.childs == crate::types::files_view(f.childs@));
            }
            actions_into(&f.childs, &mut v, base.as_slice());
            proof {
                assert(v.deep_view() =~= subtree_actions(fv, out@));
            }
        } else {
            proof {
                assert(v.deep_view() =~= subtree_actions(fv, out@));
            }
        }
        Some(v)
    }
}

} // verus!
