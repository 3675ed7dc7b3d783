//! A lexical model of the filesystem: a record of which normalized paths
//! exist and whether each holds a directory or a file with some text.  The
//! resolver and the initializer are verified against this model; a thin
//! unverified shell replays the recorded entries onto a real disk.

use vstd::prelude::*;
use vstd::string::*;

use crate::paths::{
    comps_wf, join_comps, lemma_render_snoc, norm_path, normalize, render_comps,
};

verus! {

/// What one path currently holds.
pub enum Node {
    Dir,
    File(String),
}

pub enum NodeView {
    Dir,
    File(Seq<char>),
}

impl View for Node {
    type V = NodeView;

    open spec fn view(&self) -> NodeView {
        match self {
            Node::Dir => NodeView::Dir,
            Node::File(c) => NodeView::File(c@),
        }
    }
}

pub struct FsEntry {
    pub path: String,
    pub node: Node,
}

/// The model: entries in the order they were recorded; a later entry for the
/// same path supersedes an earlier one.
pub struct FsModel {
    pub entries: Vec<FsEntry>,
}

pub open spec fn map_of(es: Seq<FsEntry>) -> Map<Seq<char>, NodeView>
    decreases es.len(),
{
    if es.len() == 0 {
        Map::<Seq<char>, NodeView>::empty()
    } else {
        map_of(es.drop_last()).insert(es.last().path@, es.last().node@)
    }
}

impl View for FsModel {
    type V = Map<Seq<char>, NodeView>;

    open spec fn view(&self) -> Map<Seq<char>, NodeView> {
        map_of(self.entries@)
    }
}

pub open spec fn file_at(m: Map<Seq<char>, NodeView>, k: Seq<char>) -> bool {
    m.contains_key(k) && m[k] is File
}

pub open spec fn dir_at(m: Map<Seq<char>, NodeView>, k: Seq<char>) -> bool {
    m.contains_key(k) && m[k] is Dir
}

proof fn lemma_map_of_skip(es: Seq<FsEntry>, key: Seq<char>, i: int)
    requires
        0 <= i <= es.len(),
        forall|j: int| i <= j < es.len() ==> (#[trigger] es[j]).path@ != key,
    ensures
        map_of(es).contains_key(key) == map_of(es.take(i)).contains_key(key),
        map_of(es).contains_key(key) ==> map_of(es)[key] == map_of(es.take(i))[key],
    decreases es.len() - i,
{
    if i == es.len() {
        assert(es.take(i) =~= es);
    } else {
        assert(es.drop_last() =~= es.take(es.len() - 1));
        lemma_map_of_skip(es.drop_last(), key, i);
        assert(es.drop_last().take(i) =~= es.take(i));
        assert(es.last().path@ != key);
    }
}

/// The map a chain of directory creations leaves behind: every prefix of the
/// components becomes a directory entry.
pub open spec fn with_dir_chain(
    m: Map<Seq<char>, NodeView>,
    cs: Seq<Seq<char>>,
    abs: bool,
) -> Map<Seq<char>, NodeView>
    decreases cs.len(),
{
    if cs.len() == 0 {
        m
    } else {
        with_dir_chain(m, cs.drop_last(), abs).insert(render_comps(cs, abs), NodeView::Dir)
    }
}

/// No prefix of the chain is occupied by a regular file.
pub open spec fn chain_keys_ok(m: Map<Seq<char>, NodeView>, cs: Seq<Seq<char>>, abs: bool) -> bool {
    forall|j: int| 1 <= j <= cs.len() ==> !file_at(m, render_comps(#[trigger] cs.take(j), abs))
}

/// When a chain of directory creations succeeds: the path is not empty and no
/// prefix of it is occupied by a regular file.
pub open spec fn dir_chain_ok(m: Map<Seq<char>, NodeView>, cs: Seq<Seq<char>>, abs: bool) -> bool {
    (abs || cs.len() > 0) && chain_keys_ok(m, cs, abs)
}

pub proof fn lemma_chain_monotone(m: Map<Seq<char>, NodeView>, cs: Seq<Seq<char>>, abs: bool, k: Seq<char>)
    requires
        m.contains_key(k),
    ensures
        with_dir_chain(m, cs, abs).contains_key(k),
    decreases cs.len(),
{
    if cs.len() > 0 {
        lemma_chain_monotone(m, cs.drop_last(), abs, k);
    }
}

pub proof fn lemma_chain_no_new_files(m: Map<Seq<char>, NodeView>, cs: Seq<Seq<char>>, abs: bool)
    ensures
        forall|k: Seq<char>| #[trigger] file_at(with_dir_chain(m, cs, abs), k) ==> file_at(m, k),
    decreases cs.len(),
{
    if cs.len() > 0 {
        lemma_chain_no_new_files(m, cs.drop_last(), abs);
        assert forall|k: Seq<char>| #[trigger] file_at(
            with_dir_chain(m, cs, abs),
            k,
        ) implies file_at(m, k) by {
            if k == render_comps(cs, abs) {
                assert(with_dir_chain(m, cs, abs)[k] is Dir);
            } else {
                assert(file_at(with_dir_chain(m, cs.drop_last(), abs), k));
            }
        }
    }
}

pub proof fn lemma_chain_all_dirs(m: Map<Seq<char>, NodeView>, cs: Seq<Seq<char>>, abs: bool)
    ensures
        forall|j: int|
            1 <= j <= cs.len() ==> dir_at(
                with_dir_chain(m, cs, abs),
                render_comps(#[trigger] cs.take(j), abs),
            ),
    decreases cs.len(),
{
    if cs.len() > 0 {
        lemma_chain_all_dirs(m, cs.drop_last(), abs);
        assert(forall|j: int|
            1 <= j <= cs.drop_last().len() ==> cs.drop_last().take(j) =~= cs.take(j));
        assert(cs.take(cs.len() as int) =~= cs);
    }
}

pub proof fn lemma_chain_file_at(m: Map<Seq<char>, NodeView>, cs: Seq<Seq<char>>, abs: bool)
    requires
        chain_keys_ok(m, cs, abs),
    ensures
        forall|k: Seq<char>| #[trigger] file_at(with_dir_chain(m, cs, abs), k) == file_at(m, k),
    decreases cs.len(),
{
    if cs.len() > 0 {
        assert(chain_keys_ok(m, cs.drop_last(), abs)) by {
            assert forall|j: int| 1 <= j <= cs.drop_last().len() implies !file_at(
                m,
                render_comps(#[trigger] cs.drop_last().take(j), abs),
            ) by {
                assert(cs.drop_last().take(j) =~= cs.take(j));
                assert(!file_at(m, render_comps(cs.take(j), abs)));
            }
        }
        lemma_chain_file_at(m, cs.drop_last(), abs);
        assert(cs.take(cs.len() as int) =~= cs);
        assert(!file_at(m, render_comps(cs, abs)));
        assert forall|k: Seq<char>| #[trigger] file_at(with_dir_chain(m, cs, abs), k)
            == file_at(m, k) by {
            if k == render_comps(cs, abs) {
                assert(with_dir_chain(m, cs, abs)[k] is Dir);
            } else {
                assert(file_at(with_dir_chain(m, cs, abs), k) == file_at(
                    with_dir_chain(m, cs.drop_last(), abs),
                    k,
                ));
            }
        }
    }
}

pub proof fn lemma_chain_keeps_dirs(m: Map<Seq<char>, NodeView>, cs: Seq<Seq<char>>, abs: bool)
    ensures
        forall|k: Seq<char>| dir_at(m, k) ==> #[trigger] dir_at(with_dir_chain(m, cs, abs), k),
    decreases cs.len(),
{
    if cs.len() > 0 {
        lemma_chain_keeps_dirs(m, cs.drop_last(), abs);
        assert forall|k: Seq<char>| dir_at(m, k) implies #[trigger] dir_at(
            with_dir_chain(m, cs, abs),
            k,
        ) by {
            assert(dir_at(with_dir_chain(m, cs.drop_last(), abs), k));
        }
    }
}

pub proof fn lemma_chain_noop(m: Map<Seq<char>, NodeView>, cs: Seq<Seq<char>>, abs: bool)
    requires
        forall|j: int|
            1 <= j <= cs.len() ==> dir_at(m, render_comps(#[trigger] cs.take(j), abs)),
    ensures
        with_dir_chain(m, cs, abs) == m,
    decreases cs.len(),
{
    if cs.len() > 0 {
        assert forall|j: int| 1 <= j <= cs.drop_last().len() implies dir_at(
            m,
            render_comps(#[trigger] cs.drop_last().take(j), abs),
        ) by {
            assert(cs.drop_last().take(j) =~= cs.take(j));
            assert(dir_at(m, render_comps(cs.take(j), abs)));
        }
        lemma_chain_noop(m, cs.drop_last(), abs);
        assert(cs.take(cs.len() as int) =~= cs);
        assert(dir_at(m, render_comps(cs, abs)));
        assert(m.insert(render_comps(cs, abs), NodeView::Dir) =~= m);
    }
}

impl FsModel {
    pub fn new() -> (r: FsModel)
        ensures
            r@ == Map::<Seq<char>, NodeView>::empty(),
    {
        let r = FsModel { entries: Vec::new() };
        proof {
            assert(r.entries@.len() == 0);
        }
        r
    }

    /// The index of the entry that currently decides `key`, scanning from the
    /// most recent entry back.
    fn lookup_at(&self, key: &String) -> (r: Option<usize>)
        ensures
            match r {
                None => !self@.contains_key(key@),
                Some(ix) => ix < self.entries@.len() && self.entries@[ix as int].path@ == key@
                    && self@.contains_key(key@) && self@[key@] == self.entries@[
                    ix as int
                ].node@,
            },
    {
        let n = self.entries.len();
        let mut i: usize = n;
        while i > 0
            invariant
                i <= n,
                n == self.entries@.len(),
                forall|j: int| i <= j < n ==> (#[trigger] self.entries@[j]).path@ != key@,
            decreases i,
        {
            i = i - 1;
            if self.entries[i].path == *key {
                proof {
                    lemma_map_of_skip(self.entries@, key@, i + 1);
                    assert(self.entries@.take(i + 1).drop_last() =~= self.entries@.take(
                        i as int,
                    ));
                    assert(self.entries@.take(i + 1).last() == self.entries@[i as int]);
                }
                return Some(i);
            }
        }
        proof {
            lemma_map_of_skip(self.entries@, key@, 0);
            assert(self.entries@.take(0) =~= Seq::<FsEntry>::empty());
            assert(!map_of(Seq::<FsEntry>::empty()).contains_key(key@));
        }
        None
    }

    fn node_is_dir_at(&self, ix: usize) -> (r: bool)
        requires
            ix < self.entries@.len(),
        ensures
            r == (self.entries@[ix as int].node@ is Dir),
    {
        match &self.entries[ix].node {
            Node::Dir => true,
            Node::File(_) => false,
        }
    }

    fn push_node(&mut self, path: String, node: Node)
        ensures
            final(self)@ == old(self)@.insert(path@, node@),
    {
        let ghost pv = path@;
        let ghost nv = node@;
        self.entries.push(FsEntry { path, node });
        proof {
            assert(self.entries@.drop_last() =~= old(self).entries@);
            assert(self.entries@.last().path@ == pv);
            assert(self.entries@.last().node@ == nv);
        }
    }

    /// Whether anything exists at the given path (after normalization).
    pub fn contains_path(&self, path: &str) -> (r: bool)
        ensures
            r == self@.contains_key(norm_path(path@)),
    {
        let np = normalize(path);
        self.lookup_at(&np).is_some()
    }

    /// Whether the given path currently holds a directory.
    pub fn is_dir(&self, path: &str) -> (r: bool)
        ensures
            r == dir_at(self@, norm_path(path@)),
    {
        let np = normalize(path);
        match self.lookup_at(&np) {
            None => false,
            Some(ix) => self.node_is_dir_at(ix),
        }
    }

    /// Whether the given path currently holds a regular file.
    pub fn is_file(&self, path: &str) -> (r: bool)
        ensures
            r == file_at(self@, norm_path(path@)),
    {
        let np = normalize(path);
        match self.lookup_at(&np) {
            None => false,
            Some(ix) => !self.node_is_dir_at(ix),
        }
    }

    /// The text of the file at the given path, when there is one.
    pub fn file_content(&self, path: &str) -> (r: Option<String>)
        ensures
            match r {
                Some(c) => file_at(self@, norm_path(path@)) && self@[norm_path(path@)]
                    == NodeView::File(c@),
                None => !file_at(self@, norm_path(path@)),
            },
    {
        let np = normalize(path);
        match self.lookup_at(&np) {
            None => None,
            Some(ix) => {
                match &self.entries[ix].node {
                    Node::Dir => None,
                    Node::File(c) => Some(c.clone()),
                }
            },
        }
    }

    /// Record that a directory exists at the given path.
    pub fn record_dir(&mut self, path: &str)
        ensures
            final(self)@ == old(self)@.insert(norm_path(path@), NodeView::Dir),
    {
        let np = normalize(path);
        self.push_node(np, Node::Dir);
    }

    /// Record that a regular file with the given text exists at the path.
    pub fn record_file(&mut self, path: &str, content: String)
        ensures
            final(self)@ == old(self)@.insert(norm_path(path@), NodeView::File(content@)),
    {
        let ghost cv = content@;
        let np = normalize(path);
        self.push_node(np, Node::File(content));
    }

    /// Create-or-truncate the file at the given path with the given text;
    /// refused when the path currently holds a directory.
    pub fn write_file(&mut self, path: &str, content: String) -> (r: bool)
        ensures
            r == !dir_at(old(self)@, norm_path(path@)),
            r ==> final(self)@ == old(self)@.insert(
                norm_path(path@),
                NodeView::File(content@),
            ),
            (!r) ==> final(self)@ == old(self)@ && final(self).entries@ == old(self).entries@,
    {
        let np = normalize(path);
        let hit = self.lookup_at(&np);
        match hit {
            Some(ix) => {
                if self.node_is_dir_at(ix) {
                    return false;
                }
                self.push_node(np, Node::File(content));
                true
            },
            None => {
                self.push_node(np, Node::File(content));
                true
            },
        }
    }

    /// Create a directory and all missing ancestors from its normalized
    /// components, create-if-absent: existing directories are kept, and an
    /// ancestor occupied by a regular file stops the chain.
    pub fn create_dir_chain(&mut self, comps: &Vec<String>, abs: bool) -> (r: bool)
        requires
            comps_wf(comps@.map_values(|c: String| c@)),
        ensures
            ({
                let cm = comps@.map_values(|c: String| c@);
                &&& r == dir_chain_ok(old(self)@, cm, abs)
                &&& (r ==> final(self)@ == with_dir_chain(old(self)@, cm, abs))
                &&& ((!r) ==> exists|j: int|
                    0 <= j <= cm.len() && final(self)@ == with_dir_chain(
                        old(self)@,
                        #[trigger] cm.take(j),
                        abs,
                    ))
            }),
    {
        let ghost cm = comps@.map_values(|c: String| c@);
        let ghost m0 = self@;
        if !abs && comps.len() == 0 {
            proof {
                assert(cm.take(0) =~= cm);
                assert(self@ == with_dir_chain(m0, cm.take(0), abs));
            }
            return false;
        }
        let mut cur: String = if abs {
            String::from_str("/")
        } else {
            String::new()
        };
        proof {
            reveal_strlit("/");
            assert("/"@ =~= seq!['/']);
            assert(cm.take(0) =~= Seq::<Seq<char>>::empty());
            if abs {
                assert(seq!['/'] + join_comps(Seq::<Seq<char>>::empty()) =~= seq!['/']);
            }
            assert(cur@ == render_comps(cm.take(0), abs));
        }
        let mut i: usize = 0;
        while i < comps.len()
            invariant
                i <= comps@.len(),
                cm == comps@.map_values(|c: String| c@),
                comps_wf(cm),
                abs || comps@.len() > 0,
                m0 == old(self)@,
                cur@ == render_comps(cm.take(i as int), abs),
                self@ == with_dir_chain(m0, cm.take(i as int), abs),
                chain_keys_ok(m0, cm.take(i as int), abs),
            decreases comps@.len() - i,
        {
            let ghost mprev = self@;
            if i == 0 {
                if abs {
                    cur.append(comps[0].as_str());
                } else {
                    cur = comps[0].clone();
                }
            } else {
                cur.append("/");
                cur.append(comps[i].as_str());
            }
            proof {
                reveal_strlit("/");
                assert("/"@ =~= seq!['/']);
                assert(cm.take(i + 1).drop_last() =~= cm.take(i as int));
                assert(cm.take(i + 1).last() == cm[i as int]);
                if i == 0 {
                    assert(cm.take(1) =~= seq![cm[0]]);
                    if abs {
                        assert(cur@ =~= seq!['/'] + join_comps(seq![cm[0]]));
                    }
                } else {
                    lemma_render_snoc(cm.take(i as int), abs, cm[i as int]);
                    assert(cm.take(i as int).push(cm[i as int]) =~= cm.take(i + 1));
                }
                assert(cur@ == render_comps(cm.take(i + 1), abs));
            }
            let hit = self.lookup_at(&cur);
            match hit {
                None => {
                    self.push_node(cur.clone(), Node::Dir);
                    proof {
                        assert(self@ == with_dir_chain(m0, cm.take(i + 1), abs));
                        // the key was absent, so nothing in the original map
                        // holds a file there either
                        if file_at(m0, cur@) {
                            lemma_chain_monotone(m0, cm.take(i as int), abs, cur@);
                            assert(false);
                        }
                        assert(chain_keys_ok(m0, cm.take(i + 1), abs)) by {
                            assert forall|j: int| 1 <= j <= cm.take(i + 1).len() implies !file_at(
                                m0,
                                render_comps(#[trigger] cm.take(i + 1).take(j), abs),
                            ) by {
                                if j <= i {
                                    assert(cm.take(i + 1).take(j) =~= cm.take(i as int).take(j));
                                    assert(!file_at(
                                        m0,
                                        render_comps(cm.take(i as int).take(j), abs),
                                    ));
                                } else {
                                    assert(cm.take(i + 1).take(j) =~= cm.take(i + 1));
                                }
                            }
                        }
                    }
                },
                Some(ix) => {
                    if self.node_is_dir_at(ix) {
                        proof {
                            assert(dir_at(mprev, cur@));
                            assert(with_dir_chain(m0, cm.take(i + 1), abs) == mprev.insert(
                                cur@,
                                NodeView::Dir,
                            ));
                            assert(mprev.insert(cur@, NodeView::Dir) =~= mprev);
                            lemma_chain_file_at(m0, cm.take(i as int), abs);
                            assert(!file_at(with_dir_chain(m0, cm.take(i as int), abs), cur@));
                            assert(!file_at(m0, cur@));
                            assert(chain_keys_ok(m0, cm.take(i + 1), abs)) by {
                                assert forall|j: int| 1 <= j <= cm.take(i + 1).len() implies !file_at(
                                    m0,
                                    render_comps(#[trigger] cm.take(i + 1).take(j), abs),
                                ) by {
                                    if j <= i {
                                        assert(cm.take(i + 1).take(j) =~= cm.take(
                                            i as int,
                                        ).take(j));
                                        assert(!file_at(
                                            m0,
                                            render_comps(cm.take(i as int).take(j), abs),
                                        ));
                                    } else {
                                        assert(cm.take(i + 1).take(j) =~= cm.take(i + 1));
                                    }
                                }
                            }
                        }
                    } else {
                        proof {
                            assert(file_at(mprev, cur@));
                            lemma_chain_file_at(m0, cm.take(i as int), abs);
                            assert(file_at(with_dir_chain(m0, cm.take(i as int), abs), cur@));
                            assert(file_at(m0, cur@));
                            assert(cm.take(cm.len() as int) =~= cm);
                            assert(cm.take(i + 1) == cm.take(cm.len() as int).take(i + 1));
                            assert(cm.take(cm.len() as int).take(i + 1) =~= cm.take(i + 1));
                            assert(!chain_keys_ok(m0, cm, abs)) by {
                                assert(file_at(m0, render_comps(cm.take(i + 1), abs)));
                            }
                            assert(exists|j: int|
                                0 <= j <= cm.len() && self@ == with_dir_chain(
                                    m0,
                                    #[trigger] cm.take(j),
                                    abs,
                                )) by {
                                assert(self@ == with_dir_chain(m0, cm.take(i as int), abs));
                            }
                        }
                        return false;
                    }
                },
            }
            i = i + 1;
        }
        proof {
            assert(cm.take(comps@.len() as int) =~= cm);
        }
        true
    }
}

} // verus!
