//! Lexical path algebra: splitting into components, collapsing `.`/`..` and
//! redundant separators, joining, and parent computation, all over `Seq<char>`
//! models of path strings.

use vstd::prelude::*;
use vstd::string::*;

verus! {

/// An absolute path starts with the separator.
pub open spec fn is_abs(s: Seq<char>) -> bool {
    s.len() > 0 && s[0] == '/'
}

/// The component that stands for the current directory.
pub open spec fn is_cur_comp(c: Seq<char>) -> bool {
    c.len() == 1 && c[0] == '.'
}

/// The component that stands for the parent directory.
pub open spec fn is_parent_comp(c: Seq<char>) -> bool {
    c.len() == 2 && c[0] == '.' && c[1] == '.'
}

pub open spec fn slash_free(c: Seq<char>) -> bool {
    forall|i: int| 0 <= i < c.len() ==> c[i] != '/'
}

/// A component as it comes out of normalization: nonempty and without
/// separators.
pub open spec fn comp_wf(c: Seq<char>) -> bool {
    c.len() > 0 && slash_free(c)
}

pub open spec fn comps_wf(cs: Seq<Seq<char>>) -> bool {
    forall|i: int| 0 <= i < cs.len() ==> comp_wf(#[trigger] cs[i])
}

/// A component that survives collapsing: neither empty nor `.` nor `..`.
pub open spec fn comp_plain(c: Seq<char>) -> bool {
    c.len() > 0 && !is_cur_comp(c) && !is_parent_comp(c)
}

/// Split a path at every separator; `a//b` yields an empty middle component.
/// The result always has at least one component.
pub open spec fn split_comps(s: Seq<char>) -> Seq<Seq<char>>
    decreases s.len(),
{
    if s.len() == 0 {
        seq![Seq::<char>::empty()]
    } else if s.last() == '/' {
        split_comps(s.drop_last()).push(Seq::<char>::empty())
    } else {
        let r = split_comps(s.drop_last());
        r.update(r.len() - 1, r.last().push(s.last()))
    }
}

/// Collapse components: drop empty and `.` ones; `..` removes the component
/// before it where one is there to remove (at the root of an absolute path it
/// vanishes, at the front of a relative path it is kept).
pub open spec fn reduce_comps(cs: Seq<Seq<char>>, abs: bool) -> Seq<Seq<char>>
    decreases cs.len(),
{
    if cs.len() == 0 {
        Seq::<Seq<char>>::empty()
    } else {
        let pre = reduce_comps(cs.drop_last(), abs);
        let c = cs.last();
        if c.len() == 0 || is_cur_comp(c) {
            pre
        } else if is_parent_comp(c) {
            if pre.len() > 0 && !is_parent_comp(pre.last()) {
                pre.drop_last()
            } else if pre.len() == 0 && abs {
                pre
            } else {
                pre.push(c)
            }
        } else {
            pre.push(c)
        }
    }
}

/// Join components with separators, without a root.
pub open spec fn join_comps(cs: Seq<Seq<char>>) -> Seq<char>
    decreases cs.len(),
{
    if cs.len() == 0 {
        Seq::<char>::empty()
    } else if cs.len() == 1 {
        cs[0]
    } else {
        join_comps(cs.drop_last()) + seq!['/'] + cs.last()
    }
}

/// Rebuild a path from components, rooting it when `abs` holds.
pub open spec fn render_comps(cs: Seq<Seq<char>>, abs: bool) -> Seq<char> {
    if abs {
        seq!['/'] + join_comps(cs)
    } else {
        join_comps(cs)
    }
}

/// The components of a path after splitting and collapsing.
pub open spec fn norm_comps_of(s: Seq<char>) -> Seq<Seq<char>> {
    reduce_comps(split_comps(s), is_abs(s))
}

/// The path rebuilt component-by-component: redundant separators and
/// `.`/`..` segments are collapsed away.
pub open spec fn norm_path(s: Seq<char>) -> Seq<char> {
    render_comps(norm_comps_of(s), is_abs(s))
}

/// Joining with the usual semantics: an absolute right side replaces the
/// result entirely.
pub open spec fn join_path(a: Seq<char>, b: Seq<char>) -> Seq<char> {
    if is_abs(b) {
        b
    } else if a.len() == 0 {
        b
    } else if a.last() == '/' {
        a + b
    } else {
        a + seq!['/'] + b
    }
}

/// Everything before the last separator; a path without a separator has no
/// parent.
pub open spec fn parent_path(s: Seq<char>) -> Option<Seq<char>>
    decreases s.len(),
{
    if s.len() == 0 {
        None
    } else if s.last() == '/' {
        Some(s.drop_last())
    } else {
        parent_path(s.drop_last())
    }
}

pub proof fn lemma_split_len(s: Seq<char>)
    ensures
        split_comps(s).len() >= 1,
    decreases s.len(),
{
    if s.len() > 0 {
        lemma_split_len(s.drop_last());
    }
}

pub fn is_absolute(s: &str) -> (r: bool)
    ensures
        r == is_abs(s@),
{
    let n = s.unicode_len();
    if n == 0 {
        false
    } else {
        s.get_char(0) == '/'
    }
}

pub fn join_paths(base: &str, rel: &str) -> (r: String)
    ensures
        r@ == join_path(base@, rel@),
{
    let bn = base.unicode_len();
    let rn = rel.unicode_len();
    if rn > 0 && rel.get_char(0) == '/' {
        String::from_str(rel)
    } else if bn == 0 {
        String::from_str(rel)
    } else if base.get_char(bn - 1) == '/' {
        let mut out = String::from_str(base);
        out.append(rel);
        out
    } else {
        let mut out = String::from_str(base);
        out.append("/");
        out.append(rel);
        proof {
            reveal_strlit("/");
            assert("/"@ =~= seq!['/']);
            assert(out@ =~= base@ + seq!['/'] + rel@);
        }
        out
    }
}

pub proof fn lemma_join_comps_snoc(cs: Seq<Seq<char>>, c: Seq<char>)
    requires
        cs.len() > 0,
    ensures
        join_comps(cs.push(c)) == join_comps(cs) + seq!['/'] + c,
{
    assert(cs.push(c).drop_last() =~= cs);
    assert(cs.push(c).last() == c);
}

pub proof fn lemma_render_snoc(cs: Seq<Seq<char>>, abs: bool, c: Seq<char>)
    requires
        cs.len() > 0,
    ensures
        render_comps(cs.push(c), abs) == render_comps(cs, abs) + seq!['/'] + c,
{
    lemma_join_comps_snoc(cs, c);
    if abs {
        assert(seq!['/'] + (join_comps(cs) + seq!['/'] + c) =~= (seq!['/'] + join_comps(cs))
            + seq!['/'] + c);
    }
}

pub fn split_path(s: &str) -> (r: Vec<String>)
    ensures
        r@.map_values(|c: String| c@) == split_comps(s@),
        r@.len() >= 1,
{
    let n = s.unicode_len();
    let mut comps: Vec<String> = Vec::new();
    comps.push(String::new());
    proof {
        assert(s@.take(0) =~= Seq::<char>::empty());
        assert(comps@.map_values(|c: String| c@) =~= split_comps(s@.take(0)));
    }
    let mut i: usize = 0;
    while i < n
        invariant
            i <= n,
            n == s@.len(),
            comps@.len() >= 1,
            comps@.map_values(|c: String| c@) == split_comps(s@.take(i as int)),
        decreases n - i,
    {
        let ghost prev = comps@.map_values(|c: String| c@);
        proof {
            lemma_split_len(s@.take(i as int));
            assert(s@.take(i + 1).drop_last() =~= s@.take(i as int));
            assert(s@.take(i + 1).last() == s@[i as int]);
        }
        let c = s.get_char(i);
        if c == '/' {
            comps.push(String::new());
            proof {
                assert(comps@.map_values(|c: String| c@) =~= prev.push(Seq::<char>::empty()));
            }
        } else {
            let piece = s.substring_char(i, i + 1);
            let mut last = comps.pop().unwrap();
            last.append(piece);
            proof {
                assert(last@ =~= prev.last().push(s@[i as int]));
            }
            comps.push(last);
            proof {
                assert(comps@.map_values(|c: String| c@) =~= prev.update(
                    prev.len() - 1,
                    prev.last().push(s@[i as int]),
                ));
            }
        }
        i = i + 1;
    }
    proof {
        assert(s@.take(n as int) =~= s@);
    }
    comps
}

fn comp_is_cur(c: &str) -> (r: bool)
    ensures
        r == is_cur_comp(c@),
{
    let n = c.unicode_len();
    n == 1 && c.get_char(0) == '.'
}

fn comp_is_parent(c: &str) -> (r: bool)
    ensures
        r == is_parent_comp(c@),
{
    let n = c.unicode_len();
    n == 2 && c.get_char(0) == '.' && c.get_char(1) == '.'
}

pub fn reduce_path(comps: &Vec<String>, abs: bool) -> (r: Vec<String>)
    ensures
        r@.map_values(|c: String| c@) == reduce_comps(comps@.map_values(|c: String| c@), abs),
{
    let ghost cm = comps@.map_values(|c: String| c@);
    let mut out: Vec<String> = Vec::new();
    proof {
        assert(cm.take(0) =~= Seq::<Seq<char>>::empty());
        assert(out@.map_values(|c: String| c@) =~= reduce_comps(cm.take(0), abs));
    }
    let mut i: usize = 0;
    while i < comps.len()
        invariant
            i <= comps@.len(),
            cm == comps@.map_values(|c: String| c@),
            out@.map_values(|c: String| c@) == reduce_comps(cm.take(i as int), abs),
        decreases comps@.len() - i,
    {
        let ghost prev = out@.map_values(|c: String| c@);
        proof {
            assert(cm.take(i + 1).drop_last() =~= cm.take(i as int));
            assert(cm.take(i + 1).last() == cm[i as int]);
        }
        let c = &comps[i];
        let n = c.as_str().unicode_len();
        if n == 0 || comp_is_cur(c.as_str()) {
            // dropped
        } else if comp_is_parent(c.as_str()) {
            let m = out.len();
            if m > 0 && !comp_is_parent(out[m - 1].as_str()) {
                let _ = out.pop();
                proof {
                    assert(out@.map_values(|c: String| c@) =~= prev.drop_last());
                }
            } else if m == 0 && abs {
                // `..` at the root vanishes
            } else {
                out.push(c.clone());
                proof {
                    assert(out@.map_values(|c: String| c@) =~= prev.push(cm[i as int]));
                }
            }
        } else {
            out.push(c.clone());
            proof {
                assert(out@.map_values(|c: String| c@) =~= prev.push(cm[i as int]));
            }
        }
        i = i + 1;
    }
    proof {
        assert(cm.take(comps@.len() as int) =~= cm);
    }
    out
}

pub fn render_path(comps: &Vec<String>, abs: bool) -> (r: String)
    ensures
        r@ == render_comps(comps@.map_values(|c: String| c@), abs),
{
    let ghost cm = comps@.map_values(|c: String| c@);
    let mut out = String::new();
    if abs {
        out.append("/");
    }
    proof {
        reveal_strlit("/");
        assert("/"@ =~= seq!['/']);
        assert(cm.take(0) =~= Seq::<Seq<char>>::empty());
        assert(out@ =~= render_comps(cm.take(0), abs));
    }
    let mut i: usize = 0;
    while i < comps.len()
        invariant
            i <= comps@.len(),
            cm == comps@.map_values(|c: String| c@),
            out@ == render_comps(cm.take(i as int), abs),
        decreases comps@.len() - i,
    {
        let ghost prev = out@;
        proof {
            reveal_strlit("/");
            assert("/"@ =~= seq!['/']);
            assert(cm.take(i + 1).drop_last() =~= cm.take(i as int));
            assert(cm.take(i + 1).last() == cm[i as int]);
        }
        if i > 0 {
            out.append("/");
        }
        out.append(comps[i].as_str());
        proof {
            if i == 0 {
                if abs {
                    assert(cm.take(1) =~= seq![cm[0]]);
                    assert(join_comps(seq![cm[0]]) == cm[0]);
                    assert(out@ =~= seq!['/'] + cm[0]);
                } else {
                    assert(cm.take(1) =~= seq![cm[0]]);
                    assert(out@ =~= cm[0]);
                }
            } else {
                lemma_render_snoc(cm.take(i as int), abs, cm[i as int]);
                assert(cm.take(i as int).push(cm[i as int]) =~= cm.take(i + 1));
                assert(out@ =~= prev + seq!['/'] + cm[i as int]);
            }
        }
        i = i + 1;
    }
    proof {
        assert(cm.take(comps@.len() as int) =~= cm);
    }
    out
}

/// Rebuild a path component-by-component, collapsing redundant separators
/// and `.`/`..` segments.
pub fn normalize(s: &str) -> (r: String)
    ensures
        r@ == norm_path(s@),
{
    let abs = is_absolute(s);
    let comps = split_path(s);
    let red = reduce_path(&comps, abs);
    render_path(&red, abs)
}

pub proof fn lemma_split_concat(a: Seq<char>, b: Seq<char>)
    ensures
        split_comps(a + seq!['/'] + b) == split_comps(a) + split_comps(b),
    decreases b.len(),
{
    lemma_split_len(a);
    let s = a + seq!['/'] + b;
    if b.len() == 0 {
        assert(s =~= a.push('/'));
        assert(s.last() == '/');
        assert(s.drop_last() =~= a);
        assert(split_comps(s) =~= split_comps(a) + split_comps(b));
    } else {
        lemma_split_concat(a, b.drop_last());
        lemma_split_len(b.drop_last());
        assert(s.drop_last() =~= a + seq!['/'] + b.drop_last());
        assert(s.last() == b.last());
        let p = split_comps(a);
        let q = split_comps(b.drop_last());
        if b.last() == '/' {
            assert(split_comps(s) =~= p + split_comps(b));
        } else {
            let r = p + q;
            assert(r.last() == q.last());
            assert(split_comps(s) == r.update(r.len() - 1, r.last().push(b.last())));
            assert(split_comps(b) == q.update(q.len() - 1, q.last().push(b.last())));
            assert(r.update(r.len() - 1, r.last().push(b.last())) =~= p + q.update(
                q.len() - 1,
                q.last().push(b.last()),
            ));
        }
    }
}

pub proof fn lemma_split_nosep(s: Seq<char>)
    requires
        slash_free(s),
    ensures
        split_comps(s) == seq![s],
    decreases s.len(),
{
    if s.len() == 0 {
        assert(split_comps(s) =~~= seq![s]);
    } else {
        lemma_split_nosep(s.drop_last());
        assert(s.last() != '/');
        assert(seq![s.drop_last()].update(0, s.drop_last().push(s.last())) =~= seq![
            s.drop_last().push(s.last()),
        ]);
        assert(s.drop_last().push(s.last()) =~= s);
    }
}

pub proof fn lemma_split_slash_free(s: Seq<char>)
    ensures
        forall|i: int|
            0 <= i < split_comps(s).len() ==> slash_free(#[trigger] split_comps(s)[i]),
    decreases s.len(),
{
    if s.len() > 0 {
        lemma_split_slash_free(s.drop_last());
        lemma_split_len(s.drop_last());
        if s.last() != '/' {
            let r = split_comps(s.drop_last());
            assert(slash_free(r.last().push(s.last())));
        }
    }
}

pub proof fn lemma_reduce_wf(cs: Seq<Seq<char>>, abs: bool)
    requires
        forall|i: int| 0 <= i < cs.len() ==> slash_free(#[trigger] cs[i]),
    ensures
        comps_wf(reduce_comps(cs, abs)),
    decreases cs.len(),
{
    if cs.len() > 0 {
        lemma_reduce_wf(cs.drop_last(), abs);
        assert(cs.drop_last() =~= cs.take(cs.len() - 1));
        assert(forall|i: int|
            0 <= i < cs.drop_last().len() ==> slash_free(#[trigger] cs.drop_last()[i]));
        let pre = reduce_comps(cs.drop_last(), abs);
        let c = cs.last();
        if c.len() == 0 || is_cur_comp(c) {
        } else {
            assert(comp_wf(c));
        }
    }
}

pub proof fn lemma_reduce_snoc_plain(cs: Seq<Seq<char>>, abs: bool, c: Seq<char>)
    requires
        comp_plain(c),
    ensures
        reduce_comps(cs.push(c), abs) == reduce_comps(cs, abs).push(c),
{
    assert(cs.push(c).drop_last() =~= cs);
    assert(cs.push(c).last() == c);
}

pub proof fn lemma_reduce_snoc_empty(cs: Seq<Seq<char>>, abs: bool)
    ensures
        reduce_comps(cs.push(Seq::<char>::empty()), abs) == reduce_comps(cs, abs),
{
    assert(cs.push(Seq::<char>::empty()).drop_last() =~= cs);
}

pub proof fn lemma_reduce_concat_plain(p: Seq<Seq<char>>, q: Seq<Seq<char>>, abs: bool)
    requires
        forall|i: int| 0 <= i < q.len() ==> comp_plain(#[trigger] q[i]),
    ensures
        reduce_comps(p + q, abs) == reduce_comps(p, abs) + q,
    decreases q.len(),
{
    if q.len() == 0 {
        assert(p + q =~= p);
        assert(reduce_comps(p, abs) + q =~= reduce_comps(p, abs));
    } else {
        lemma_reduce_concat_plain(p, q.drop_last(), abs);
        assert(p + q =~= (p + q.drop_last()).push(q.last()));
        lemma_reduce_snoc_plain(p + q.drop_last(), abs, q.last());
        assert(reduce_comps(p, abs) + q =~= (reduce_comps(p, abs) + q.drop_last()).push(
            q.last(),
        ));
    }
}

pub proof fn lemma_join_last(a: Seq<char>, b: Seq<char>)
    requires
        b.len() > 0,
        !is_abs(b),
    ensures
        join_path(a, b).len() > 0,
        join_path(a, b).last() == b.last(),
        is_abs(join_path(a, b)) == if a.len() == 0 {
            is_abs(b)
        } else {
            is_abs(a)
        },
{
}

/// Joining a path whose components are all plain appends those components to
/// the normalized form of the left side.
pub proof fn lemma_join_norm_comps(a: Seq<char>, b: Seq<char>)
    requires
        !is_abs(b),
        b.len() > 0,
        forall|i: int|
            0 <= i < split_comps(b).len() ==> comp_plain(#[trigger] split_comps(b)[i]),
    ensures
        is_abs(join_path(a, b)) == is_abs(a),
        norm_comps_of(join_path(a, b)) == norm_comps_of(a) + split_comps(b),
{
    if a.len() == 0 {
        assert(join_path(a, b) == b);
        assert(split_comps(a) =~~= seq![Seq::<char>::empty()]);
        assert(seq![Seq::<char>::empty()].drop_last() =~= Seq::<Seq<char>>::empty());
        assert(seq![Seq::<char>::empty()].last().len() == 0);
        assert(reduce_comps(Seq::<Seq<char>>::empty(), false) =~= Seq::<Seq<char>>::empty());
        assert(reduce_comps(seq![Seq::<char>::empty()], false) =~= Seq::<Seq<char>>::empty());
        lemma_reduce_concat_plain(Seq::<Seq<char>>::empty(), split_comps(b), false);
        assert(Seq::<Seq<char>>::empty() + split_comps(b) =~= split_comps(b));
        assert(norm_comps_of(a) + split_comps(b) =~= split_comps(b));
    } else if a.last() == '/' {
        let a0 = a.drop_last();
        assert(join_path(a, b) == a + b);
        assert(a + b =~= a0 + seq!['/'] + b);
        lemma_split_concat(a0, b);
        assert(is_abs(a + b) == is_abs(a));
        lemma_reduce_concat_plain(split_comps(a0), split_comps(b), is_abs(a));
        assert(split_comps(a) == split_comps(a0).push(Seq::<char>::empty()));
        lemma_reduce_snoc_empty(split_comps(a0), is_abs(a));
    } else {
        assert(join_path(a, b) == a + seq!['/'] + b);
        lemma_split_concat(a, b);
        assert(is_abs(a + seq!['/'] + b) == is_abs(a));
        lemma_reduce_concat_plain(split_comps(a), split_comps(b), is_abs(a));
    }
}

pub proof fn lemma_parent_of_append(a: Seq<char>, b: Seq<char>)
    requires
        b.len() > 0,
        slash_free(b),
    ensures
        parent_path(a + seq!['/'] + b) == Some(a),
    decreases b.len(),
{
    let s = a + seq!['/'] + b;
    if b.len() == 1 {
        assert(s.last() == b[0]);
        assert(s.last() != '/');
        assert(s.drop_last() =~= a.push('/'));
        assert(a.push('/').last() == '/');
        assert(parent_path(a.push('/')) == Some(a.push('/').drop_last()));
        assert(a.push('/').drop_last() =~= a);
    } else {
        assert(s.last() == b.last());
        assert(s.last() != '/');
        assert(s.drop_last() =~= a + seq!['/'] + b.drop_last());
        lemma_parent_of_append(a, b.drop_last());
    }
}

pub proof fn lemma_join_comps_len(cs: Seq<Seq<char>>)
    requires
        comps_wf(cs),
        cs.len() > 0,
    ensures
        join_comps(cs).len() > 0,
    decreases cs.len(),
{
    if cs.len() > 1 {
        assert(cs.drop_last() =~= cs.take(cs.len() - 1));
        lemma_join_comps_len(cs.drop_last());
    } else {
        assert(comp_wf(cs[0]));
    }
}

proof fn lemma_join_comps_inj(cs1: Seq<Seq<char>>, cs2: Seq<Seq<char>>)
    requires
        comps_wf(cs1),
        comps_wf(cs2),
        join_comps(cs1) == join_comps(cs2),
    ensures
        cs1 == cs2,
    decreases cs1.len(),
{
    let s = join_comps(cs1);
    if cs1.len() == 0 {
        if cs2.len() > 0 {
            lemma_join_comps_len(cs2);
        }
        assert(cs1 =~= cs2);
    } else if cs2.len() == 0 {
        lemma_join_comps_len(cs1);
    } else if cs1.len() == 1 && cs2.len() == 1 {
        assert(cs1 =~= cs2);
    } else if cs1.len() == 1 {
        // cs2.len() >= 2: its join holds a separator, cs1[0] holds none
        let j2 = join_comps(cs2.drop_last());
        assert(s == j2 + seq!['/'] + cs2.last());
        assert(s[j2.len() as int] == '/');
        assert(comp_wf(cs1[0]));
        assert(s == cs1[0]);
        assert(false);
    } else if cs2.len() == 1 {
        let j1 = join_comps(cs1.drop_last());
        assert(s == j1 + seq!['/'] + cs1.last());
        assert(s[j1.len() as int] == '/');
        assert(comp_wf(cs2[0]));
        assert(s == cs2[0]);
        assert(false);
    } else {
        let j1 = join_comps(cs1.drop_last());
        let j2 = join_comps(cs2.drop_last());
        let l1 = cs1.last();
        let l2 = cs2.last();
        assert(comp_wf(l1) && comp_wf(l2));
        assert(s == j1 + seq!['/'] + l1);
        assert(s == j2 + seq!['/'] + l2);
        assert(s.len() == j1.len() + 1 + l1.len());
        assert(s.len() == j2.len() + 1 + l2.len());
        if l1.len() < l2.len() {
            let p = j1.len() as int;
            assert(s[p] == '/');
            assert(p > j2.len());
            assert(s[p] == l2[p - j2.len() - 1]);
            assert(false);
        }
        if l2.len() < l1.len() {
            let p = j2.len() as int;
            assert(s[p] == '/');
            assert(p > j1.len());
            assert(s[p] == l1[p - j1.len() - 1]);
            assert(false);
        }
        assert(l1.len() == l2.len());
        assert(j1.len() == j2.len());
        assert(j1 =~= j2) by {
            assert(forall|k: int| 0 <= k < j1.len() ==> j1[k] == s[k] && j2[k] == s[k]);
        }
        assert(l1 =~= l2) by {
            assert(forall|k: int|
                0 <= k < l1.len() ==> l1[k] == s[j1.len() + 1 + k] && l2[k] == s[j2.len() + 1
                    + k]);
        }
        assert(cs1.drop_last() =~= cs1.take(cs1.len() - 1));
        assert(cs2.drop_last() =~= cs2.take(cs2.len() - 1));
        lemma_join_comps_inj(cs1.drop_last(), cs2.drop_last());
        assert(cs1 =~= cs1.drop_last().push(l1));
        assert(cs2 =~= cs2.drop_last().push(l2));
    }
}

/// Rendering is injective over well-formed component sequences.
pub proof fn lemma_render_inj(cs1: Seq<Seq<char>>, cs2: Seq<Seq<char>>, abs: bool)
    requires
        comps_wf(cs1),
        comps_wf(cs2),
        render_comps(cs1, abs) == render_comps(cs2, abs),
    ensures
        cs1 == cs2,
{
    if abs {
        let j1 = join_comps(cs1);
        let j2 = join_comps(cs2);
        let pre = seq!['/'];
        assert(pre + j1 == pre + j2);
        assert(j1.len() == j2.len()) by {
            assert((pre + j1).len() == (pre + j2).len());
        }
        assert forall|k: int| 0 <= k < j1.len() implies j1[k] == j2[k] by {
            assert((pre + j1)[k + 1] == j1[k]);
            assert((pre + j2)[k + 1] == j2[k]);
        }
        assert(j1 =~= j2);
    }
    lemma_join_comps_inj(cs1, cs2);
}

proof fn lemma_parent_at(s: Seq<char>, j: int)
    requires
        0 <= j < s.len(),
        s[j] == '/',
        forall|k: int| j < k < s.len() ==> s[k] != '/',
    ensures
        parent_path(s) == Some(s.take(j)),
    decreases s.len(),
{
    if j == s.len() - 1 {
        assert(s.last() == '/');
        assert(s.drop_last() =~= s.take(j));
    } else {
        assert(s.last() != '/');
        lemma_parent_at(s.drop_last(), j);
        assert(s.drop_last().take(j) =~= s.take(j));
    }
}

proof fn lemma_parent_none(s: Seq<char>)
    requires
        slash_free(s),
    ensures
        parent_path(s) is None,
    decreases s.len(),
{
    if s.len() > 0 {
        lemma_parent_none(s.drop_last());
    }
}

pub fn parent_str(s: &str) -> (r: Option<String>)
    ensures
        r is Some <==> parent_path(s@) is Some,
        r matches Some(p) ==> parent_path(s@) matches Some(q) && p@ == q,
{
    let n = s.unicode_len();
    let mut last_slash: usize = 0;
    let mut has: bool = false;
    let mut i: usize = 0;
    while i < n
        invariant
            i <= n,
            n == s@.len(),
            has ==> last_slash < i <= n && s@[last_slash as int] == '/' && forall|k: int|
                last_slash < k < i ==> s@[k] != '/',
            (!has) ==> forall|k: int| 0 <= k < i ==> s@[k] != '/',
        decreases n - i,
    {
        if s.get_char(i) == '/' {
            last_slash = i;
            has = true;
        }
        i = i + 1;
    }
    if has {
        proof {
            lemma_parent_at(s@, last_slash as int);
        }
        Some(String::from_str(s.substring_char(0, last_slash)))
    } else {
        proof {
            lemma_parent_none(s@);
        }
        None
    }
}

} // verus!
