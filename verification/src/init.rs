//! The initializer: validates the target root, creates the standard
//! directory skeleton and writes the three seed files, all over the
//! filesystem model, with an all-or-nothing contract per step and idempotent
//! re-invocation.

use vstd::prelude::*;
use vstd::string::*;

use crate::config::{default_config, default_config_view, ini_text_of, serialize_config};
use crate::fsmodel::{
    chain_keys_ok, dir_at, dir_chain_ok, file_at, lemma_chain_all_dirs, lemma_chain_file_at,
    lemma_chain_keeps_dirs, lemma_chain_no_new_files, lemma_chain_noop, FsModel, NodeView,
};
use crate::fsmodel::with_dir_chain;
use crate::paths::{
    comp_plain, comp_wf, comps_wf, is_abs, is_absolute, join_path, lemma_join_last,
    lemma_join_norm_comps,
    lemma_parent_of_append, lemma_reduce_wf, lemma_render_inj, lemma_split_nosep,
    lemma_split_concat, lemma_split_slash_free, norm_comps_of, norm_path, parent_path,
    reduce_path, render_comps, render_path, slash_free, split_comps, split_path,
};
use crate::repository::{control_dir_name, InitError, Repository};

verus! {

/// The fixed text of the `description` seed file.
pub open spec fn description_text() -> Seq<char> {
    "Unnamed repository; edit this file 'description' to name the repository.\n"@
}

/// The fixed text of the `HEAD` seed file: the default branch is `main`.
pub open spec fn head_text() -> Seq<char> {
    "ref: refs/heads/main\n"@
}

/// The control directory derived from a root.
pub open spec fn gitdir_of(root: Seq<char>) -> Seq<char> {
    join_path(root, control_dir_name())
}

/// One idempotent directory-creation step over the model: the path is
/// normalized component-by-component and the whole chain is created.
pub open spec fn mkdir_step(m: Map<Seq<char>, NodeView>, p: Seq<char>) -> Map<Seq<char>, NodeView> {
    with_dir_chain(m, norm_comps_of(p), is_abs(p))
}

/// When such a step succeeds.
pub open spec fn mkdir_step_ok(m: Map<Seq<char>, NodeView>, p: Seq<char>) -> bool {
    dir_chain_ok(m, norm_comps_of(p), is_abs(p))
}

/// The model after the initializer's five directory creations: the root
/// itself, then `branches`, `objects`, `refs/heads` and `refs/tags` under
/// the control directory.
pub open spec fn dirs_map(m: Map<Seq<char>, NodeView>, root: Seq<char>) -> Map<Seq<char>, NodeView> {
    let g = gitdir_of(root);
    let m1 = mkdir_step(m, root);
    let m2 = mkdir_step(m1, join_path(g, "branches"@));
    let m3 = mkdir_step(m2, join_path(g, "objects"@));
    let m4 = mkdir_step(m3, join_path(g, "refs/heads"@));
    mkdir_step(m4, join_path(g, "refs/tags"@))
}

/// When all five directory creations succeed.
pub open spec fn dirs_ok(m: Map<Seq<char>, NodeView>, root: Seq<char>) -> bool {
    let g = gitdir_of(root);
    let m1 = mkdir_step(m, root);
    let m2 = mkdir_step(m1, join_path(g, "branches"@));
    let m3 = mkdir_step(m2, join_path(g, "objects"@));
    let m4 = mkdir_step(m3, join_path(g, "refs/heads"@));
    &&& mkdir_step_ok(m, root)
    &&& mkdir_step_ok(m1, join_path(g, "branches"@))
    &&& mkdir_step_ok(m2, join_path(g, "objects"@))
    &&& mkdir_step_ok(m3, join_path(g, "refs/heads"@))
    &&& mkdir_step_ok(m4, join_path(g, "refs/tags"@))
}

pub open spec fn description_key(root: Seq<char>) -> Seq<char> {
    norm_path(join_path(gitdir_of(root), "description"@))
}

pub open spec fn head_key(root: Seq<char>) -> Seq<char> {
    norm_path(join_path(gitdir_of(root), "HEAD"@))
}

pub open spec fn config_key(root: Seq<char>) -> Seq<char> {
    norm_path(join_path(gitdir_of(root), "config"@))
}

/// When writing the three seed files succeeds: none of their paths is
/// occupied by a directory, checked in the order they are written.
pub open spec fn seeds_ok(m: Map<Seq<char>, NodeView>, root: Seq<char>) -> bool {
    let md = dirs_map(m, root);
    let m6 = md.insert(description_key(root), NodeView::File(description_text()));
    let m7 = m6.insert(head_key(root), NodeView::File(head_text()));
    &&& !dir_at(md, description_key(root))
    &&& !dir_at(m6, head_key(root))
    &&& !dir_at(m7, config_key(root))
}

/// When initialization of `root` succeeds: the root is not a regular file,
/// every directory can be created, and no seed file path is blocked.
pub open spec fn create_ok(m: Map<Seq<char>, NodeView>, root: Seq<char>) -> bool {
    &&& !file_at(m, norm_path(root))
    &&& dirs_ok(m, root)
    &&& seeds_ok(m, root)
}

/// The model after successful initialization of `root`.
pub open spec fn create_map(m: Map<Seq<char>, NodeView>, root: Seq<char>) -> Map<
    Seq<char>,
    NodeView,
> {
    dirs_map(m, root).insert(description_key(root), NodeView::File(description_text())).insert(
        head_key(root),
        NodeView::File(head_text()),
    ).insert(config_key(root), NodeView::File(ini_text_of(default_config_view())))
}

/// No regular file of `m2` is new with respect to `m1`.
pub open spec fn no_new_files(m1: Map<Seq<char>, NodeView>, m2: Map<Seq<char>, NodeView>) -> bool {
    forall|k: Seq<char>| #[trigger] file_at(m2, k) ==> file_at(m1, k)
}

/// Shape facts about the control directory path of any root.
proof fn lemma_gitdir_shape(root: Seq<char>)
    ensures
        gitdir_of(root).len() > 0,
        gitdir_of(root).last() != '/',
        is_abs(gitdir_of(root)) == is_abs(root),
        norm_comps_of(gitdir_of(root)) == norm_comps_of(root).push(".git"@),
        norm_comps_of(gitdir_of(root)).len() >= 1,
{
    reveal_strlit(".git");
    assert(".git"@.len() == 4);
    assert(slash_free(".git"@)) by {
        assert(".git"@[0] == '.' && ".git"@[1] == 'g' && ".git"@[2] == 'i' && ".git"@[3]
            == 't');
    }
    assert(!is_abs(".git"@));
    assert(comp_plain(".git"@));
    lemma_join_last(root, ".git"@);
    lemma_split_nosep(".git"@);
    lemma_join_norm_comps(root, ".git"@);
    assert(norm_comps_of(root) + seq![".git"@] =~= norm_comps_of(root).push(".git"@));
}

/// Joining a plain seed-file name under the control directory appends one
/// separator and the name; the parent of the result is the control
/// directory itself.
proof fn lemma_seed_rel(root: Seq<char>, rel: Seq<char>)
    requires
        comp_plain(rel),
        slash_free(rel),
    ensures
        join_path(gitdir_of(root), rel) == gitdir_of(root) + seq!['/'] + rel,
        parent_path(join_path(gitdir_of(root), rel)) == Some(gitdir_of(root)),
{
    lemma_gitdir_shape(root);
    let g = gitdir_of(root);
    assert(!is_abs(rel));
    assert(join_path(g, rel) == g + seq!['/'] + rel);
    lemma_parent_of_append(g, rel);
}

/// After the last of the five directory creations, the control directory
/// itself exists as a directory.
proof fn lemma_gitdir_created(m4: Map<Seq<char>, NodeView>, root: Seq<char>)
    ensures
        dir_at(
            mkdir_step(m4, join_path(gitdir_of(root), "refs/tags"@)),
            norm_path(gitdir_of(root)),
        ),
{
    lemma_gitdir_shape(root);
    let g = gitdir_of(root);
    let gc = norm_comps_of(g);
    reveal_strlit("refs/tags");
    reveal_strlit("refs");
    reveal_strlit("tags");
    assert("refs/tags"@ =~= "refs"@ + seq!['/'] + "tags"@) by {
        assert("refs/tags"@.len() == 9 && "refs"@.len() == 4 && "tags"@.len() == 4);
        assert("refs/tags"@[0] == 'r' && "refs"@[0] == 'r');
        assert("refs/tags"@[1] == 'e' && "refs"@[1] == 'e');
        assert("refs/tags"@[2] == 'f' && "refs"@[2] == 'f');
        assert("refs/tags"@[3] == 's' && "refs"@[3] == 's');
        assert("refs/tags"@[4] == '/');
        assert("refs/tags"@[5] == 't' && "tags"@[0] == 't');
        assert("refs/tags"@[6] == 'a' && "tags"@[1] == 'a');
        assert("refs/tags"@[7] == 'g' && "tags"@[2] == 'g');
        assert("refs/tags"@[8] == 's' && "tags"@[3] == 's');
    }
    assert(slash_free("refs"@)) by {
        assert("refs"@[0] == 'r' && "refs"@[1] == 'e' && "refs"@[2] == 'f' && "refs"@[3]
            == 's');
    }
    assert(slash_free("tags"@)) by {
        assert("tags"@[0] == 't' && "tags"@[1] == 'a' && "tags"@[2] == 'g' && "tags"@[3]
            == 's');
    }
    lemma_split_nosep("refs"@);
    lemma_split_nosep("tags"@);
    lemma_split_concat("refs"@, "tags"@);
    assert(split_comps("refs/tags"@) =~= seq!["refs"@, "tags"@]);
    assert(comp_plain("refs"@) && comp_plain("tags"@));
    assert(!is_abs("refs/tags"@));
    lemma_join_norm_comps(g, "refs/tags"@);
    let cs = norm_comps_of(join_path(g, "refs/tags"@));
    assert(cs == gc + seq!["refs"@, "tags"@]);
    let abs = is_abs(join_path(g, "refs/tags"@));
    lemma_chain_all_dirs(m4, cs, abs);
    assert(1 <= gc.len() <= cs.len());
    assert(cs.take(gc.len() as int) =~= gc);
    assert(dir_at(with_dir_chain(m4, cs, abs), render_comps(cs.take(gc.len() as int), abs)));
    assert(render_comps(gc, abs) == norm_path(g));
}

/// Idempotent directory creation: when a creation step succeeds, running
/// the very same step again succeeds too and changes nothing, and the target
/// location holds exactly one entry, a directory.
pub proof fn lemma_mkdir_idempotent(m: Map<Seq<char>, NodeView>, p: Seq<char>)
    requires
        mkdir_step_ok(m, p),
    ensures
        mkdir_step_ok(mkdir_step(m, p), p),
        mkdir_step(mkdir_step(m, p), p) == mkdir_step(m, p),
        norm_comps_of(p).len() > 0 ==> dir_at(mkdir_step(m, p), norm_path(p)),
{
    let cs = norm_comps_of(p);
    let abs = is_abs(p);
    lemma_chain_all_dirs(m, cs, abs);
    assert(chain_keys_ok(mkdir_step(m, p), cs, abs)) by {
        assert forall|j: int| 1 <= j <= cs.len() implies !file_at(
            mkdir_step(m, p),
            render_comps(#[trigger] cs.take(j), abs),
        ) by {
            assert(dir_at(with_dir_chain(m, cs, abs), render_comps(cs.take(j), abs)));
        }
    }
    lemma_chain_noop(mkdir_step(m, p), cs, abs);
    if cs.len() > 0 {
        assert(cs.take(cs.len() as int) =~= cs);
        assert(dir_at(with_dir_chain(m, cs, abs), render_comps(cs.take(cs.len() as int), abs)));
        assert(render_comps(cs, abs) == norm_path(p));
    }
}

/// Disequality of a rendered key from every prefix of a strictly longer
/// chain.
proof fn lemma_prefix_ne_short(cs: Seq<Seq<char>>, abs: bool, fc: Seq<Seq<char>>)
    requires
        comps_wf(cs),
        comps_wf(fc),
        cs.len() < fc.len(),
    ensures
        forall|j: int|
            1 <= j <= cs.len() ==> render_comps(#[trigger] cs.take(j), abs) != render_comps(
                fc,
                abs,
            ),
{
    assert forall|j: int| 1 <= j <= cs.len() implies render_comps(#[trigger] cs.take(j), abs)
        != render_comps(fc, abs) by {
        if render_comps(cs.take(j), abs) == render_comps(fc, abs) {
            assert(comps_wf(cs.take(j)));
            lemma_render_inj(cs.take(j), fc, abs);
            assert(cs.take(j).len() == fc.len());
        }
    }
}

/// Disequality of the key `gc` + `x` from every prefix of the chain `gc` +
/// `tail`, as long as the first tail component is not `x`.
proof fn lemma_prefix_ne_child(gc: Seq<Seq<char>>, abs: bool, tail: Seq<Seq<char>>, x: Seq<char>)
    requires
        comps_wf(gc),
        comps_wf(tail),
        comp_wf(x),
        tail.len() >= 1,
        tail[0] != x,
    ensures
        forall|j: int|
            1 <= j <= (gc + tail).len() ==> render_comps(#[trigger] (gc + tail).take(j), abs)
                != render_comps(gc.push(x), abs),
{
    let cs = gc + tail;
    let fc = gc.push(x);
    assert(comps_wf(cs));
    assert(comps_wf(fc));
    assert forall|j: int| 1 <= j <= cs.len() implies render_comps(#[trigger] cs.take(j), abs)
        != render_comps(fc, abs) by {
        if render_comps(cs.take(j), abs) == render_comps(fc, abs) {
            assert(comps_wf(cs.take(j)));
            lemma_render_inj(cs.take(j), fc, abs);
            assert(cs.take(j).len() == fc.len());
            assert(j == gc.len() + 1);
            assert(cs.take(j)[gc.len() as int] == tail[0]);
            assert(fc[gc.len() as int] == x);
            assert(false);
        }
    }
}

/// The component shape of everything the initializer creates under a root.
proof fn lemma_layout(root: Seq<char>)
    ensures
        ({
            let g = gitdir_of(root);
            let gc = norm_comps_of(g);
            let abs = is_abs(root);
            &&& comps_wf(norm_comps_of(root))
            &&& norm_comps_of(root).len() + 1 == gc.len()
            &&& gc == norm_comps_of(root).push(".git"@)
            &&& comps_wf(gc)
            &&& gc.len() >= 1
            &&& is_abs(g) == abs
            &&& norm_comps_of(join_path(g, "branches"@)) == gc.push("branches"@)
            &&& is_abs(join_path(g, "branches"@)) == abs
            &&& norm_comps_of(join_path(g, "objects"@)) == gc.push("objects"@)
            &&& is_abs(join_path(g, "objects"@)) == abs
            &&& norm_comps_of(join_path(g, "refs/heads"@)) == gc + seq!["refs"@, "heads"@]
            &&& is_abs(join_path(g, "refs/heads"@)) == abs
            &&& norm_comps_of(join_path(g, "refs/tags"@)) == gc + seq!["refs"@, "tags"@]
            &&& is_abs(join_path(g, "refs/tags"@)) == abs
            &&& description_key(root) == render_comps(gc.push("description"@), abs)
            &&& head_key(root) == render_comps(gc.push("HEAD"@), abs)
            &&& config_key(root) == render_comps(gc.push("config"@), abs)
            &&& norm_path(root) == render_comps(norm_comps_of(root), abs)
            &&& comp_plain("branches"@) && comp_wf("branches"@) && "branches"@.len() == 8
            &&& comp_plain("objects"@) && comp_wf("objects"@) && "objects"@.len() == 7
            &&& comp_plain("refs"@) && comp_wf("refs"@) && "refs"@.len() == 4 && "refs"@[0]
                == 'r'
            &&& comp_plain("heads"@) && comp_wf("heads"@) && "heads"@.len() == 5
            &&& comp_plain("tags"@) && comp_wf("tags"@) && "tags"@.len() == 4
            &&& comp_plain("description"@) && comp_wf("description"@) && "description"@.len()
                == 11
            &&& comp_plain("HEAD"@) && comp_wf("HEAD"@) && "HEAD"@.len() == 4 && "HEAD"@[0]
                == 'H'
            &&& comp_plain("config"@) && comp_wf("config"@) && "config"@.len() == 6
        }),
{
    lemma_gitdir_shape(root);
    lemma_split_slash_free(root);
    lemma_reduce_wf(split_comps(root), is_abs(root));
    let g = gitdir_of(root);
    let gc = norm_comps_of(g);
    let rc = norm_comps_of(root);
    assert(comps_wf(gc)) by {
        reveal_strlit(".git");
        assert(".git"@.len() == 4);
        assert(slash_free(".git"@)) by {
            assert(".git"@[0] == '.' && ".git"@[1] == 'g' && ".git"@[2] == 'i' && ".git"@[3]
                == 't');
        }
        assert(forall|i: int| 0 <= i < gc.len() - 1 ==> gc[i] == rc[i]);
        assert(gc.last() == ".git"@);
    }
    reveal_strlit("branches");
    assert(slash_free("branches"@) && "branches"@.len() == 8) by {
        assert("branches"@[0] == 'b' && "branches"@[1] == 'r' && "branches"@[2] == 'a'
            && "branches"@[3] == 'n' && "branches"@[4] == 'c' && "branches"@[5] == 'h'
            && "branches"@[6] == 'e' && "branches"@[7] == 's');
    }
    assert(comp_plain("branches"@));
    lemma_split_nosep("branches"@);
    lemma_join_norm_comps(g, "branches"@);
    assert(gc + seq!["branches"@] =~= gc.push("branches"@));
    reveal_strlit("objects");
    assert(slash_free("objects"@) && "objects"@.len() == 7) by {
        assert("objects"@[0] == 'o' && "objects"@[1] == 'b' && "objects"@[2] == 'j'
            && "objects"@[3] == 'e' && "objects"@[4] == 'c' && "objects"@[5] == 't'
            && "objects"@[6] == 's');
    }
    assert(comp_plain("objects"@));
    lemma_split_nosep("objects"@);
    lemma_join_norm_comps(g, "objects"@);
    assert(gc + seq!["objects"@] =~= gc.push("objects"@));
    reveal_strlit("refs");
    reveal_strlit("heads");
    reveal_strlit("tags");
    reveal_strlit("refs/heads");
    reveal_strlit("refs/tags");
    assert(slash_free("refs"@) && "refs"@.len() == 4 && "refs"@[0] == 'r') by {
        assert("refs"@[0] == 'r' && "refs"@[1] == 'e' && "refs"@[2] == 'f' && "refs"@[3]
            == 's');
    }
    assert(slash_free("heads"@) && "heads"@.len() == 5) by {
        assert("heads"@[0] == 'h' && "heads"@[1] == 'e' && "heads"@[2] == 'a' && "heads"@[3]
            == 'd' && "heads"@[4] == 's');
    }
    assert(slash_free("tags"@) && "tags"@.len() == 4) by {
        assert("tags"@[0] == 't' && "tags"@[1] == 'a' && "tags"@[2] == 'g' && "tags"@[3]
            == 's');
    }
    assert(comp_plain("refs"@) && comp_plain("heads"@) && comp_plain("tags"@));
    lemma_split_nosep("refs"@);
    lemma_split_nosep("heads"@);
    lemma_split_nosep("tags"@);
    assert("refs/heads"@ =~= "refs"@ + seq!['/'] + "heads"@) by {
        assert("refs/heads"@.len() == 10);
        assert("refs/heads"@[0] == 'r' && "refs/heads"@[1] == 'e' && "refs/heads"@[2] == 'f'
            && "refs/heads"@[3] == 's' && "refs/heads"@[4] == '/' && "refs/heads"@[5] == 'h'
            && "refs/heads"@[6] == 'e' && "refs/heads"@[7] == 'a' && "refs/heads"@[8] == 'd'
            && "refs/heads"@[9] == 's');
    }
    lemma_split_concat("refs"@, "heads"@);
    assert(split_comps("refs/heads"@) =~= seq!["refs"@, "heads"@]);
    assert(!is_abs("refs/heads"@));
    lemma_join_norm_comps(g, "refs/heads"@);
    assert("refs/tags"@ =~= "refs"@ + seq!['/'] + "tags"@) by {
        assert("refs/tags"@.len() == 9);
        assert("refs/tags"@[0] == 'r' && "refs/tags"@[1] == 'e' && "refs/tags"@[2] == 'f'
            && "refs/tags"@[3] == 's' && "refs/tags"@[4] == '/' && "refs/tags"@[5] == 't'
            && "refs/tags"@[6] == 'a' && "refs/tags"@[7] == 'g' && "refs/tags"@[8] == 's');
    }
    lemma_split_concat("refs"@, "tags"@);
    assert(split_comps("refs/tags"@) =~= seq!["refs"@, "tags"@]);
    assert(!is_abs("refs/tags"@));
    lemma_join_norm_comps(g, "refs/tags"@);
    reveal_strlit("description");
    assert(slash_free("description"@) && "description"@.len() == 11) by {
        assert("description"@[0] == 'd' && "description"@[1] == 'e' && "description"@[2] == 's'
            && "description"@[3] == 'c' && "description"@[4] == 'r' && "description"@[5] == 'i'
            && "description"@[6] == 'p' && "description"@[7] == 't' && "description"@[8] == 'i'
            && "description"@[9] == 'o' && "description"@[10] == 'n');
    }
    assert(comp_plain("description"@));
    lemma_split_nosep("description"@);
    lemma_join_norm_comps(g, "description"@);
    assert(gc + seq!["description"@] =~= gc.push("description"@));
    reveal_strlit("HEAD");
    assert(slash_free("HEAD"@) && "HEAD"@.len() == 4 && "HEAD"@[0] == 'H') by {
        assert("HEAD"@[0] == 'H' && "HEAD"@[1] == 'E' && "HEAD"@[2] == 'A' && "HEAD"@[3]
            == 'D');
    }
    assert(comp_plain("HEAD"@));
    lemma_split_nosep("HEAD"@);
    lemma_join_norm_comps(g, "HEAD"@);
    assert(gc + seq!["HEAD"@] =~= gc.push("HEAD"@));
    reveal_strlit("config");
    assert(slash_free("config"@) && "config"@.len() == 6) by {
        assert("config"@[0] == 'c' && "config"@[1] == 'o' && "config"@[2] == 'n' && "config"@[3]
            == 'f' && "config"@[4] == 'i' && "config"@[5] == 'g');
    }
    assert(comp_plain("config"@));
    lemma_split_nosep("config"@);
    lemma_join_norm_comps(g, "config"@);
    assert(gc + seq!["config"@] =~= gc.push("config"@));
}

/// Re-running initialization on an already-initialized root succeeds again
/// and leaves the model exactly as it was: the directories already exist and
/// the three seed files are overwritten with the same fixed content.
pub proof fn lemma_create_rerun(m: Map<Seq<char>, NodeView>, root: Seq<char>)
    requires
        create_ok(m, root),
    ensures
        create_ok(create_map(m, root), root),
        create_map(create_map(m, root), root) == create_map(m, root),
{
    lemma_layout(root);
    let abs = is_abs(root);
    let g = gitdir_of(root);
    let rc = norm_comps_of(root);
    let gc = norm_comps_of(g);
    let c2 = norm_comps_of(join_path(g, "branches"@));
    let c3 = norm_comps_of(join_path(g, "objects"@));
    let c4 = norm_comps_of(join_path(g, "refs/heads"@));
    let c5 = norm_comps_of(join_path(g, "refs/tags"@));
    let m1 = mkdir_step(m, root);
    let m2 = mkdir_step(m1, join_path(g, "branches"@));
    let m3 = mkdir_step(m2, join_path(g, "objects"@));
    let m4 = mkdir_step(m3, join_path(g, "refs/heads"@));
    let m5 = mkdir_step(m4, join_path(g, "refs/tags"@));
    assert(m5 == dirs_map(m, root));
    let dk = description_key(root);
    let hk = head_key(root);
    let ck = config_key(root);
    let mm = create_map(m, root);
    let gcd = gc.push("description"@);
    let gch = gc.push("HEAD"@);
    let gcc = gc.push("config"@);
    assert(comps_wf(c2) && comps_wf(c3) && comps_wf(c4) && comps_wf(c5) && comps_wf(gcd)
        && comps_wf(gch) && comps_wf(gcc)) by {
        assert(forall|i: int| 0 <= i < gc.len() ==> comp_wf(#[trigger] gc[i]));
    }

    // regular files in the first-run stage maps are those of the original map
    assert(chain_keys_ok(m, rc, abs));
    lemma_chain_file_at(m, rc, abs);
    assert(chain_keys_ok(m1, c2, abs));
    lemma_chain_file_at(m1, c2, abs);
    assert(chain_keys_ok(m2, c3, abs));
    lemma_chain_file_at(m2, c3, abs);
    assert(chain_keys_ok(m3, c4, abs));
    lemma_chain_file_at(m3, c4, abs);
    assert(chain_keys_ok(m4, c5, abs));
    lemma_chain_file_at(m4, c5, abs);
    assert forall|k: Seq<char>| #[trigger] file_at(m5, k) == file_at(m, k) by {
        assert(file_at(m5, k) == file_at(m4, k));
        assert(file_at(m4, k) == file_at(m3, k));
        assert(file_at(m3, k) == file_at(m2, k));
        assert(file_at(m2, k) == file_at(m1, k));
        assert(file_at(m1, k) == file_at(m, k));
    }

    // every chain key is a directory in the fully built directory map
    lemma_chain_all_dirs(m, rc, abs);
    lemma_chain_all_dirs(m1, c2, abs);
    lemma_chain_all_dirs(m2, c3, abs);
    lemma_chain_all_dirs(m3, c4, abs);
    lemma_chain_all_dirs(m4, c5, abs);
    lemma_chain_keeps_dirs(m1, c2, abs);
    lemma_chain_keeps_dirs(m2, c3, abs);
    lemma_chain_keeps_dirs(m3, c4, abs);
    lemma_chain_keeps_dirs(m4, c5, abs);
    assert forall|j: int| 1 <= j <= rc.len() implies dir_at(
        m5,
        render_comps(#[trigger] rc.take(j), abs),
    ) by {
        assert(dir_at(m1, render_comps(rc.take(j), abs)));
        assert(dir_at(m2, render_comps(rc.take(j), abs)));
        assert(dir_at(m3, render_comps(rc.take(j), abs)));
        assert(dir_at(m4, render_comps(rc.take(j), abs)));
    }
    assert forall|j: int| 1 <= j <= c2.len() implies dir_at(
        m5,
        render_comps(#[trigger] c2.take(j), abs),
    ) by {
        assert(dir_at(m2, render_comps(c2.take(j), abs)));
        assert(dir_at(m3, render_comps(c2.take(j), abs)));
        assert(dir_at(m4, render_comps(c2.take(j), abs)));
    }
    assert forall|j: int| 1 <= j <= c3.len() implies dir_at(
        m5,
        render_comps(#[trigger] c3.take(j), abs),
    ) by {
        assert(dir_at(m3, render_comps(c3.take(j), abs)));
        assert(dir_at(m4, render_comps(c3.take(j), abs)));
    }
    assert forall|j: int| 1 <= j <= c4.len() implies dir_at(
        m5,
        render_comps(#[trigger] c4.take(j), abs),
    ) by {
        assert(dir_at(m4, render_comps(c4.take(j), abs)));
    }

    // the seed-file keys stand apart from every chain key
    lemma_prefix_ne_short(rc, abs, gcd);
    lemma_prefix_ne_short(rc, abs, gch);
    lemma_prefix_ne_short(rc, abs, gcc);
    assert(c2 =~= gc + seq!["branches"@]);
    assert(c3 =~= gc + seq!["objects"@]);
    lemma_prefix_ne_child(gc, abs, seq!["branches"@], "description"@);
    lemma_prefix_ne_child(gc, abs, seq!["branches"@], "HEAD"@);
    lemma_prefix_ne_child(gc, abs, seq!["branches"@], "config"@);
    lemma_prefix_ne_child(gc, abs, seq!["objects"@], "description"@);
    lemma_prefix_ne_child(gc, abs, seq!["objects"@], "HEAD"@);
    lemma_prefix_ne_child(gc, abs, seq!["objects"@], "config"@);
    assert("refs"@ != "HEAD"@) by {
        assert("refs"@[0] != "HEAD"@[0]);
    }
    lemma_prefix_ne_child(gc, abs, seq!["refs"@, "heads"@], "description"@);
    lemma_prefix_ne_child(gc, abs, seq!["refs"@, "heads"@], "HEAD"@);
    lemma_prefix_ne_child(gc, abs, seq!["refs"@, "heads"@], "config"@);
    lemma_prefix_ne_child(gc, abs, seq!["refs"@, "tags"@], "description"@);
    lemma_prefix_ne_child(gc, abs, seq!["refs"@, "tags"@], "HEAD"@);
    lemma_prefix_ne_child(gc, abs, seq!["refs"@, "tags"@], "config"@);
    assert(dk != hk) by {
        if dk == hk {
            lemma_render_inj(gcd, gch, abs);
            assert(gcd.last() == gch.last());
            assert(false);
        }
    }
    assert(dk != ck) by {
        if dk == ck {
            lemma_render_inj(gcd, gcc, abs);
            assert(gcd.last() == gcc.last());
            assert(false);
        }
    }
    assert(hk != ck) by {
        if hk == ck {
            lemma_render_inj(gch, gcc, abs);
            assert(gch.last() == gcc.last());
            assert(false);
        }
    }
    assert(render_comps(rc, abs) != dk && render_comps(rc, abs) != hk && render_comps(rc, abs)
        != ck) by {
        if render_comps(rc, abs) == dk {
            lemma_render_inj(rc, gcd, abs);
        }
        if render_comps(rc, abs) == hk {
            lemma_render_inj(rc, gch, abs);
        }
        if render_comps(rc, abs) == ck {
            lemma_render_inj(rc, gcc, abs);
        }
    }

    // the model after the first run: seed files present, chain keys still
    // directories, nothing else a new file
    assert(mm[dk] == NodeView::File(description_text()));
    assert(mm[hk] == NodeView::File(head_text()));
    assert(mm[ck] == NodeView::File(ini_text_of(default_config_view())));
    assert(file_at(mm, dk) && file_at(mm, hk) && file_at(mm, ck));
    assert forall|j: int| 1 <= j <= rc.len() implies dir_at(
        mm,
        render_comps(#[trigger] rc.take(j), abs),
    ) by {
        assert(dir_at(m5, render_comps(rc.take(j), abs)));
    }
    assert forall|j: int| 1 <= j <= c2.len() implies dir_at(
        mm,
        render_comps(#[trigger] c2.take(j), abs),
    ) by {
        assert(dir_at(m5, render_comps(c2.take(j), abs)));
    }
    assert forall|j: int| 1 <= j <= c3.len() implies dir_at(
        mm,
        render_comps(#[trigger] c3.take(j), abs),
    ) by {
        assert(dir_at(m5, render_comps(c3.take(j), abs)));
    }
    assert forall|j: int| 1 <= j <= c4.len() implies dir_at(
        mm,
        render_comps(#[trigger] c4.take(j), abs),
    ) by {
        assert(dir_at(m5, render_comps(c4.take(j), abs)));
    }
    assert forall|j: int| 1 <= j <= c5.len() implies dir_at(
        mm,
        render_comps(#[trigger] c5.take(j), abs),
    ) by {
        assert(dir_at(m5, render_comps(c5.take(j), abs)));
    }

    // the second run's directory steps change nothing
    assert(chain_keys_ok(mm, rc, abs));
    lemma_chain_noop(mm, rc, abs);
    assert(mkdir_step(mm, root) == mm);
    assert(chain_keys_ok(mm, c2, abs));
    lemma_chain_noop(mm, c2, abs);
    assert(mkdir_step(mm, join_path(g, "branches"@)) == mm);
    assert(chain_keys_ok(mm, c3, abs));
    lemma_chain_noop(mm, c3, abs);
    assert(mkdir_step(mm, join_path(g, "objects"@)) == mm);
    assert(chain_keys_ok(mm, c4, abs));
    lemma_chain_noop(mm, c4, abs);
    assert(mkdir_step(mm, join_path(g, "refs/heads"@)) == mm);
    assert(chain_keys_ok(mm, c5, abs));
    lemma_chain_noop(mm, c5, abs);
    assert(mkdir_step(mm, join_path(g, "refs/tags"@)) == mm);
    assert(dirs_map(mm, root) == mm);
    assert(dirs_ok(mm, root));

    // the seed writes find files, never directories, and rewrite the same
    // content
    assert(!dir_at(mm, dk) && !dir_at(mm, hk) && !dir_at(mm, ck));
    assert(mm.insert(dk, NodeView::File(description_text())) =~= mm);
    assert(mm.insert(hk, NodeView::File(head_text())) =~= mm);
    assert(mm.insert(ck, NodeView::File(ini_text_of(default_config_view()))) =~= mm);
    assert(seeds_ok(mm, root));
    assert(!file_at(mm, norm_path(root))) by {
        assert(norm_path(root) == render_comps(rc, abs));
        assert(file_at(m5, norm_path(root)) == file_at(m, norm_path(root)));
    }
    assert(create_ok(mm, root));
    assert(create_map(mm, root) =~= mm);
}

pub struct Command {}

impl Command {
    /// Initialize a fresh repository at `root` over the filesystem model:
    /// validate the target, create the standard directories, write the three
    /// seed files, and hand back the repository.
    pub fn create(fs: &mut FsModel, root: &str) -> (r: Result<Repository, InitError>)
        ensures
            r is Ok <==> create_ok(old(fs)@, root@),
            r matches Ok(repo) ==> repo.wf() && repo.worktree_view() == root@ && repo.gitdir_view()
                == gitdir_of(root@) && final(fs)@ == create_map(old(fs)@, root@),
            r matches Err(e) ==> match e {
                InitError::InvalidTarget(p) => file_at(old(fs)@, norm_path(root@)) && p@ == root@
                    && final(fs)@ == old(fs)@ && final(fs).entries@ == old(fs).entries@,
                InitError::CreateDir(_) => !file_at(old(fs)@, norm_path(root@)) && !dirs_ok(
                    old(fs)@,
                    root@,
                ) && no_new_files(old(fs)@, final(fs)@),
                InitError::FileConflict(_) => !file_at(old(fs)@, norm_path(root@)) && dirs_ok(
                    old(fs)@,
                    root@,
                ) && !seeds_ok(old(fs)@, root@) && (forall|k: Seq<char>|
                    #[trigger] file_at(final(fs)@, k) ==> file_at(old(fs)@, k) || k
                        == description_key(root@) || k == head_key(root@)),
                InitError::NotReady(_) => false,
            },
    {
        let ghost m0 = fs@;
        let repo = Repository::new(root);
        if fs.is_file(root) {
            return Err(InitError::InvalidTarget(String::from_str(root)));
        }
        // the root working-tree directory itself, idempotent if present
        let rabs = is_absolute(root);
        let rcomps = split_path(root);
        let rred = reduce_path(&rcomps, rabs);
        proof {
            lemma_split_slash_free(root@);
            lemma_reduce_wf(rcomps@.map_values(|c: String| c@), rabs);
        }
        if !fs.create_dir_chain(&rred, rabs) {
            proof {
                let j = choose|j: int|
                    0 <= j <= norm_comps_of(root@).len() && fs@ == with_dir_chain(
                        m0,
                        #[trigger] norm_comps_of(root@).take(j),
                        rabs,
                    );
                lemma_chain_no_new_files(m0, norm_comps_of(root@).take(j), rabs);
            }
            return Err(InitError::CreateDir(render_path(&rred, rabs)));
        }
        let ghost m1 = fs@;
        proof {
            lemma_chain_no_new_files(m0, norm_comps_of(root@), rabs);
            assert(no_new_files(m0, m1));
        }
        match repo.mkdir(fs, "branches") {
            Err(e) => {
                proof {
                    Self::lemma_mkdir_err_no_new_files(m0, m1, fs@, repo, "branches"@);
                }
                return Err(e);
            },
            Ok(()) => {},
        }
        let ghost m2 = fs@;
        proof {
            lemma_chain_no_new_files(
                m1,
                norm_comps_of(join_path(repo.gitdir_view(), "branches"@)),
                is_abs(join_path(repo.gitdir_view(), "branches"@)),
            );
            assert(no_new_files(m1, m2));
            assert(no_new_files(m0, m2));
        }
        match repo.mkdir(fs, "objects") {
            Err(e) => {
                proof {
                    Self::lemma_mkdir_err_no_new_files(m0, m2, fs@, repo, "objects"@);
                }
                return Err(e);
            },
            Ok(()) => {},
        }
        let ghost m3 = fs@;
        proof {
            lemma_chain_no_new_files(
                m2,
                norm_comps_of(join_path(repo.gitdir_view(), "objects"@)),
                is_abs(join_path(repo.gitdir_view(), "objects"@)),
            );
            assert(no_new_files(m2, m3));
            assert(no_new_files(m0, m3));
        }
        match repo.mkdir(fs, "refs/heads") {
            Err(e) => {
                proof {
                    Self::lemma_mkdir_err_no_new_files(m0, m3, fs@, repo, "refs/heads"@);
                }
                return Err(e);
            },
            Ok(()) => {},
        }
        let ghost m4 = fs@;
        proof {
            lemma_chain_no_new_files(
                m3,
                norm_comps_of(join_path(repo.gitdir_view(), "refs/heads"@)),
                is_abs(join_path(repo.gitdir_view(), "refs/heads"@)),
            );
            assert(no_new_files(m3, m4));
            assert(no_new_files(m0, m4));
        }
        match repo.mkdir(fs, "refs/tags") {
            Err(e) => {
                proof {
                    Self::lemma_mkdir_err_no_new_files(m0, m4, fs@, repo, "refs/tags"@);
                }
                return Err(e);
            },
            Ok(()) => {},
        }
        let ghost m5 = fs@;
        proof {
            lemma_chain_no_new_files(
                m4,
                norm_comps_of(join_path(repo.gitdir_view(), "refs/tags"@)),
                is_abs(join_path(repo.gitdir_view(), "refs/tags"@)),
            );
            assert(no_new_files(m4, m5));
            assert(no_new_files(m0, m5));
        }
        proof {
            assert(m5 == dirs_map(m0, root@));
            lemma_gitdir_created(m4, root@);
            reveal_strlit("description");
            assert(slash_free("description"@) && comp_plain("description"@)) by {
                assert("description"@.len() == 11);
                assert("description"@[0] == 'd' && "description"@[1] == 'e' && "description"@[2]
                    == 's' && "description"@[3] == 'c' && "description"@[4] == 'r'
                    && "description"@[5] == 'i' && "description"@[6] == 'p' && "description"@[7]
                    == 't' && "description"@[8] == 'i' && "description"@[9] == 'o'
                    && "description"@[10] == 'n');
            }
            lemma_seed_rel(root@, "description"@);
            reveal_strlit("HEAD");
            assert(slash_free("HEAD"@) && comp_plain("HEAD"@)) by {
                assert("HEAD"@.len() == 4);
                assert("HEAD"@[0] == 'H' && "HEAD"@[1] == 'E' && "HEAD"@[2] == 'A' && "HEAD"@[3]
                    == 'D');
            }
            lemma_seed_rel(root@, "HEAD"@);
            reveal_strlit("config");
            assert(slash_free("config"@) && comp_plain("config"@)) by {
                assert("config"@.len() == 6);
                assert("config"@[0] == 'c' && "config"@[1] == 'o' && "config"@[2] == 'n'
                    && "config"@[3] == 'f' && "config"@[4] == 'i' && "config"@[5] == 'g');
            }
            lemma_seed_rel(root@, "config"@);
        }
        let description = match repo.file(fs, "description") {
            None => {
                return Err(InitError::NotReady(String::from_str("description")));
            },
            Some(p) => p,
        };
        if !fs.write_file(
            description.as_str(),
            String::from_str(
                "Unnamed repository; edit this file 'description' to name the repository.\n",
            ),
        ) {
            return Err(InitError::FileConflict(description));
        }
        let ghost m6 = fs@;
        let head = match repo.file(fs, "HEAD") {
            None => {
                return Err(InitError::NotReady(String::from_str("HEAD")));
            },
            Some(p) => p,
        };
        if !fs.write_file(head.as_str(), String::from_str("ref: refs/heads/main\n")) {
            proof {
                assert forall|k: Seq<char>| #[trigger] file_at(m6, k) implies file_at(m0, k) || k
                    == description_key(root@) || k == head_key(root@) by {
                    if k != description_key(root@) {
                        assert(file_at(m5, k));
                    }
                }
            }
            return Err(InitError::FileConflict(head));
        }
        let ghost m7 = fs@;
        let config = match repo.file(fs, "config") {
            None => {
                return Err(InitError::NotReady(String::from_str("config")));
            },
            Some(p) => p,
        };
        let cfg = default_config();
        let text = serialize_config(&cfg);
        if !fs.write_file(config.as_str(), text) {
            proof {
                assert forall|k: Seq<char>| #[trigger] file_at(m7, k) implies file_at(m0, k) || k
                    == description_key(root@) || k == head_key(root@) by {
                    if k != description_key(root@) && k != head_key(root@) {
                        assert(file_at(m6, k));
                        assert(file_at(m5, k));
                    }
                }
            }
            return Err(InitError::FileConflict(config));
        }
        proof {
            assert(fs@ == create_map(m0, root@));
        }
        Ok(repo)
    }

    /// On a failed directory creation nothing new holds a regular file: the
    /// chain only added directories.
    proof fn lemma_mkdir_err_no_new_files(
        m0: Map<Seq<char>, NodeView>,
        mpre: Map<Seq<char>, NodeView>,
        mpost: Map<Seq<char>, NodeView>,
        repo: Repository,
        rel: Seq<char>,
    )
        requires
            no_new_files(m0, mpre),
            exists|j: int|
                0 <= j <= norm_comps_of(join_path(repo.gitdir_view(), rel)).len() && mpost
                    == with_dir_chain(
                    mpre,
                    #[trigger] norm_comps_of(join_path(repo.gitdir_view(), rel)).take(j),
                    is_abs(join_path(repo.gitdir_view(), rel)),
                ),
        ensures
            no_new_files(m0, mpost),
    {
        let target = join_path(repo.gitdir_view(), rel);
        let j = choose|j: int|
            0 <= j <= norm_comps_of(target).len() && mpost == with_dir_chain(
                mpre,
                #[trigger] norm_comps_of(target).take(j),
                is_abs(target),
            );
        lemma_chain_no_new_files(mpre, norm_comps_of(target).take(j), is_abs(target));
    }
}

} // verus!
