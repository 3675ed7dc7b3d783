//! The repository path resolver: it owns the working-tree root and the
//! control directory derived from it, maps repository-relative names to
//! paths under the control directory, and creates directories relative to it.

use vstd::prelude::*;
use vstd::string::*;

use crate::fsmodel::{dir_at, dir_chain_ok, with_dir_chain, FsModel, NodeView};
use crate::paths::{
    is_abs, is_absolute, join_path, join_paths, lemma_join_last, lemma_parent_of_append,
    lemma_reduce_wf, lemma_split_slash_free, norm_comps_of, norm_path, parent_path, parent_str,
    reduce_path, render_path, slash_free, split_path,
};

verus! {

/// The fixed name of the control directory under the working tree.
pub open spec fn control_dir_name() -> Seq<char> {
    ".git"@
}

/// How initialization can fail.
#[derive(Debug)]
pub enum InitError {
    /// The target root exists and is a regular file; the path is held.
    InvalidTarget(String),
    /// A directory could not be created at the held (normalized) path.
    CreateDir(String),
    /// A seed file resolved while its parent directory was still missing;
    /// holds the repository-relative name.
    NotReady(String),
    /// The held path for a seed file is occupied by a directory.
    FileConflict(String),
}

pub struct Repository {
    worktree: String,
    gitdir: String,
}

impl Repository {
    /// The working-tree root this repository was constructed from.
    pub closed spec fn worktree_view(&self) -> Seq<char> {
        self.worktree@
    }

    /// The control directory path.
    pub closed spec fn gitdir_view(&self) -> Seq<char> {
        self.gitdir@
    }

    /// The control directory never diverges from the worktree it was derived
    /// from.
    pub open spec fn wf(&self) -> bool {
        self.gitdir_view() == join_path(self.worktree_view(), control_dir_name())
    }

    /// Pure construction: derives the control directory, touches nothing.
    pub fn new(path: &str) -> (r: Repository)
        ensures
            r.worktree_view() == path@,
            r.gitdir_view() == join_path(path@, control_dir_name()),
            r.wf(),
    {
        let gitdir = join_paths(path, ".git");
        Repository { worktree: String::from_str(path), gitdir }
    }

    /// The control directory joined with a repository-relative name.
    pub fn path(&self, relative: &str) -> (r: String)
        ensures
            r@ == join_path(self.gitdir_view(), relative@),
    {
        join_paths(self.gitdir.as_str(), relative)
    }

    /// What `file` answers over a filesystem model.
    pub open spec fn file_spec(
        &self,
        m: Map<Seq<char>, NodeView>,
        rel: Seq<char>,
    ) -> Option<Seq<char>> {
        match parent_path(join_path(self.gitdir_view(), rel)) {
            Option::None => Option::None,
            Option::Some(par) => if m.contains_key(norm_path(par)) {
                Option::Some(join_path(self.gitdir_view(), rel))
            } else {
                Option::None
            },
        }
    }

    /// Pre-flight probe: the resolved path, but only when its parent
    /// directory already exists; "not ready" is an expected answer, not an
    /// error.
    pub fn file(&self, fs: &FsModel, relative: &str) -> (r: Option<String>)
        ensures
            r is Some <==> self.file_spec(fs@, relative@) is Some,
            r matches Some(p) ==> self.file_spec(fs@, relative@) matches Some(q) && p@ == q,
    {
        let p = self.path(relative);
        match parent_str(p.as_str()) {
            None => None,
            Some(par) => {
                if fs.contains_path(par.as_str()) {
                    Some(p)
                } else {
                    None
                }
            },
        }
    }

    /// What `dir` answers over a filesystem model.
    pub open spec fn dir_spec(
        &self,
        m: Map<Seq<char>, NodeView>,
        rel: Seq<char>,
    ) -> Option<Seq<char>> {
        if dir_at(m, norm_path(join_path(self.gitdir_view(), rel))) {
            Option::Some(join_path(self.gitdir_view(), rel))
        } else {
            Option::None
        }
    }

    /// Read-only probe: the resolved path, but only when it exists and is a
    /// directory.
    pub fn dir(&self, fs: &FsModel, relative: &str) -> (r: Option<String>)
        ensures
            r is Some <==> self.dir_spec(fs@, relative@) is Some,
            r matches Some(p) ==> self.dir_spec(fs@, relative@) matches Some(q) && p@ == q,
    {
        let p = self.path(relative);
        if fs.is_dir(p.as_str()) {
            Some(p)
        } else {
            None
        }
    }

    /// Resolve a repository-relative name, rebuild the result component by
    /// component, and create the whole directory chain, succeeding silently
    /// where it already exists.
    pub fn mkdir(&self, fs: &mut FsModel, relative: &str) -> (r: Result<(), InitError>)
        ensures
            ({
                let target = join_path(self.gitdir_view(), relative@);
                let cs = norm_comps_of(target);
                let abs = is_abs(target);
                &&& (r is Ok <==> dir_chain_ok(old(fs)@, cs, abs))
                &&& (r is Ok ==> final(fs)@ == with_dir_chain(old(fs)@, cs, abs))
                &&& (r matches Err(e) ==> e matches InitError::CreateDir(p) && p@ == norm_path(
                    target,
                ) && exists|j: int|
                    0 <= j <= cs.len() && final(fs)@ == with_dir_chain(
                        old(fs)@,
                        #[trigger] cs.take(j),
                        abs,
                    ))
            }),
    {
        let p = self.path(relative);
        let abs = is_absolute(p.as_str());
        let comps = split_path(p.as_str());
        let red = reduce_path(&comps, abs);
        proof {
            lemma_split_slash_free(p@);
            lemma_reduce_wf(comps@.map_values(|c: String| c@), abs);
        }
        if fs.create_dir_chain(&red, abs) {
            Ok(())
        } else {
            Err(InitError::CreateDir(render_path(&red, abs)))
        }
    }
}

/// Path containment: for every relative name, the resolved path begins with
/// the control-directory path.
pub proof fn lemma_path_containment(repo: Repository, n: Seq<char>)
    requires
        repo.wf(),
        !is_abs(n),
    ensures
        repo.gitdir_view().is_prefix_of(join_path(repo.gitdir_view(), n)),
{
    reveal_strlit(".git");
    assert(".git"@.len() == 4);
    assert(".git"@[0] == '.' && ".git"@[3] == 't');
    assert(!is_abs(".git"@));
    lemma_join_last(repo.worktree_view(), ".git"@);
    let g = repo.gitdir_view();
    assert(g.len() > 0 && g.last() == 't');
    assert(join_path(g, n) == g + seq!['/'] + n);
    assert(g.is_prefix_of(g + seq!['/'] + n));
}

/// The resolved path of `description` under a root without a trailing
/// separator is exactly the root followed by `/.git/description`.
pub proof fn lemma_path_description(repo: Repository)
    requires
        repo.wf(),
        repo.worktree_view().len() > 0,
        repo.worktree_view().last() != '/',
    ensures
        join_path(repo.gitdir_view(), "description"@) == repo.worktree_view()
            + "/.git/description"@,
{
    reveal_strlit(".git");
    reveal_strlit("description");
    reveal_strlit("/.git/description");
    let wt = repo.worktree_view();
    let g = repo.gitdir_view();
    assert(".git"@.len() == 4 && "description"@.len() == 11 && "/.git/description"@.len() == 17);
    assert(".git"@[0] == '.' && ".git"@[3] == 't');
    assert(!is_abs(".git"@));
    assert("description"@[0] == 'd');
    assert(!is_abs("description"@));
    assert(g == wt + seq!['/'] + ".git"@);
    assert(g.len() == wt.len() + 5);
    assert(g.last() == 't');
    assert(join_path(g, "description"@) == g + seq!['/'] + "description"@);
    assert(g + seq!['/'] + "description"@ =~= wt + "/.git/description"@);
}

/// Readiness gating: the pre-flight probe for a plain relative name answers
/// nothing while the control directory is missing from the model, and
/// answers the resolved path once it is there.
pub proof fn lemma_readiness_gating(repo: Repository, m: Map<Seq<char>, NodeView>, n: Seq<char>)
    requires
        repo.wf(),
        n.len() > 0,
        slash_free(n),
    ensures
        (!m.contains_key(norm_path(repo.gitdir_view()))) ==> repo.file_spec(m, n) is None,
        m.contains_key(norm_path(repo.gitdir_view())) ==> repo.file_spec(m, n) == Some(
            join_path(repo.gitdir_view(), n),
        ),
{
    reveal_strlit(".git");
    assert(".git"@.len() == 4);
    assert(".git"@[0] == '.' && ".git"@[3] == 't');
    assert(!is_abs(".git"@));
    lemma_join_last(repo.worktree_view(), ".git"@);
    let g = repo.gitdir_view();
    assert(g.len() > 0 && g.last() == 't');
    assert(!is_abs(n));
    assert(join_path(g, n) == g + seq!['/'] + n);
    lemma_parent_of_append(g, n);
}

} // verus!
