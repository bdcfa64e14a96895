//! Lookup of chunk records by identifier, and the set of identifiers that a
//! version's root reaches over child and dependency links.

use vstd::prelude::*;
use crate::codec::{Id, Error};
use crate::meta::{Chunk, ChunkView, views};
use crate::mask::{mask_bits, mask_repeat, mask_get, mask_set, max_bits};

verus! {

/// Position of the first record with identifier `id`, or -1 when none has it.
pub open spec fn find(t: Seq<ChunkView>, id: Id) -> int
    decreases t.len(),
{
    if t.len() == 0 {
        -1
    } else if t[0].id == id {
        0
    } else {
        let r = find(t.drop_first(), id);
        if r < 0 {
            -1
        } else {
            r + 1
        }
    }
}

/// Whether record `c` names `b` as a child or a dependency.
pub open spec fn links(c: ChunkView, b: Id) -> bool {
    c.children.contains(b) || c.dependencies.contains(b)
}

/// Whether the record for `a` in `t` names `b`.
pub open spec fn edge(t: Seq<ChunkView>, a: Id, b: Id) -> bool {
    find(t, a) >= 0 && links(t[find(t, a)], b)
}

/// Whether `p` walks from `root` to `x` along links of `t`.
pub open spec fn is_path(t: Seq<ChunkView>, root: Id, x: Id, p: Seq<Id>) -> bool {
    &&& p.len() >= 1
    &&& p[0] == root
    &&& p.last() == x
    &&& forall|i: int| 0 <= i < p.len() - 1 ==> edge(t, #[trigger] p[i], p[i + 1])
}

/// Whether `root` reaches `x` in `t` (every identifier reaches itself).
pub open spec fn reaches(t: Seq<ChunkView>, root: Id, x: Id) -> bool {
    exists|p: Seq<Id>| is_path(t, root, x, p)
}

/// Whether every identifier that `root` reaches has a record in `t`.
pub open spec fn closed(t: Seq<ChunkView>, root: Id) -> bool {
    forall|x: Id| reaches(t, root, x) ==> find(t, x) >= 0
}

pub proof fn lemma_find(t: Seq<ChunkView>, id: Id)
    ensures
        -1 <= find(t, id) < t.len(),
        find(t, id) >= 0 ==> t[find(t, id)].id == id,
        forall|j: int| 0 <= j < t.len() && (find(t, id) < 0 || j < find(t, id)) ==> t[j].id != id,
    decreases t.len(),
{
    if t.len() > 0 && t[0].id != id {
        lemma_find(t.drop_first(), id);
        assert forall|j: int|
            0 <= j < t.len() && (find(t, id) < 0 || j < find(t, id)) implies t[j].id != id by {
            if j > 0 {
                assert(t[j] == t.drop_first()[j - 1]);
            }
        }
    }
}

/// The first record with identifier `id` is the one at `k`.
pub proof fn lemma_find_at(t: Seq<ChunkView>, id: Id, k: int)
    requires
        0 <= k < t.len(),
        t[k].id == id,
        forall|j: int| 0 <= j < k ==> t[j].id != id,
    ensures
        find(t, id) == k,
{
    lemma_find(t, id);
}

pub proof fn lemma_reaches_self(t: Seq<ChunkView>, root: Id)
    ensures
        reaches(t, root, root),
{
    assert(is_path(t, root, root, seq![root]));
}

/// A path extended by one link is a path.
pub proof fn lemma_reaches_step(t: Seq<ChunkView>, root: Id, a: Id, b: Id)
    requires
        reaches(t, root, a),
        edge(t, a, b),
    ensures
        reaches(t, root, b),
{
    let p = choose|p: Seq<Id>| is_path(t, root, a, p);
    let q = p.push(b);
    assert forall|i: int| 0 <= i < q.len() - 1 implies edge(t, #[trigger] q[i], q[i + 1]) by {
        if i < p.len() - 1 {
            assert(q[i] == p[i] && q[i + 1] == p[i + 1]);
        } else {
            assert(q[i] == a && q[i + 1] == b);
        }
    }
    assert(is_path(t, root, b, q));
}

/// Marks closed under links that include the root's record cover every
/// identifier the root reaches.
pub proof fn lemma_marks_cover(t: Seq<ChunkView>, root: Id, m: Seq<bool>, x: Id)
    requires
        m.len() == t.len(),
        find(t, root) >= 0,
        m[find(t, root)],
        forall|k: int, d: Id|
            0 <= k < t.len() && m[k] && #[trigger] links(t[k], d) ==> find(t, d) >= 0 && m[find(t, d)],
        reaches(t, root, x),
    ensures
        find(t, x) >= 0 && m[find(t, x)],
{
    let p = choose|p: Seq<Id>| is_path(t, root, x, p);
    lemma_path_marked(t, root, m, p);
}

proof fn lemma_path_marked(t: Seq<ChunkView>, root: Id, m: Seq<bool>, p: Seq<Id>)
    requires
        m.len() == t.len(),
        find(t, root) >= 0,
        m[find(t, root)],
        forall|k: int, d: Id|
            0 <= k < t.len() && m[k] && #[trigger] links(t[k], d) ==> find(t, d) >= 0 && m[find(t, d)],
        is_path(t, root, p.last(), p),
    ensures
        find(t, p.last()) >= 0 && m[find(t, p.last())],
    decreases p.len(),
{
    if p.len() > 1 {
        let q = p.drop_last();
        assert forall|i: int| 0 <= i < q.len() - 1 implies edge(t, #[trigger] q[i], q[i + 1]) by {
            assert(q[i] == p[i] && q[i + 1] == p[i + 1]);
        }
        assert(q[0] == p[0]);
        lemma_path_marked(t, root, m, q);
        let a = q.last();
        assert(edge(t, p[p.len() - 2], p[p.len() - 1]));
        assert(a == p[p.len() - 2]);
        lemma_find(t, a);
    }
}

proof fn lemma_count_none(s: Seq<bool>)
    requires
        forall|j: int| 0 <= j < s.len() ==> !s[j],
    ensures
        count_true(s) == 0,
    decreases s.len(),
{
    if s.len() > 0 {
        lemma_count_none(s.drop_last());
    }
}

pub open spec fn count_true(s: Seq<bool>) -> nat
    decreases s.len(),
{
    if s.len() == 0 {
        0
    } else {
        count_true(s.drop_last()) + if s.last() {
            1nat
        } else {
            0nat
        }
    }
}

pub proof fn lemma_count_le(s: Seq<bool>)
    ensures
        count_true(s) <= s.len(),
    decreases s.len(),
{
    if s.len() > 0 {
        lemma_count_le(s.drop_last());
    }
}

proof fn lemma_count_update(s: Seq<bool>, j: int)
    requires
        0 <= j < s.len(),
        !s[j],
    ensures
        count_true(s.update(j, true)) == count_true(s) + 1,
    decreases s.len(),
{
    let u = s.update(j, true);
    if j == s.len() - 1 {
        assert(u.drop_last() =~= s.drop_last());
    } else {
        assert(u.drop_last() =~= s.drop_last().update(j, true));
        lemma_count_update(s.drop_last(), j);
    }
}

/// Position of the first record with identifier `id`.
pub fn find_chunk(t: &Vec<Chunk>, id: Id) -> (r: Option<usize>)
    ensures
        match r {
            Some(k) => find(views(t@), id) == k,
            None => find(views(t@), id) == -1,
        },
{
    let ghost v = views(t@);
    let mut i: usize = 0;
    while i < t.len()
        invariant
            i <= t@.len(),
            v == views(t@),
            forall|j: int| 0 <= j < i ==> v[j].id != id,
        decreases t@.len() - i,
    {
        if t[i].id == id {
            proof {
                lemma_find_at(v, id, i as int);
            }
            return Some(i);
        }
        i = i + 1;
    }
    proof {
        lemma_find(v, id);
    }
    None
}

/// Marks the records that `root` reaches, or fails with `NotFound` when some
/// identifier that `root` reaches has no record.
pub fn mark_reachable(t: &Vec<Chunk>, root: Id) -> (r: Result<Vec<bool>, Error>)
    requires
        t@.len() <= max_bits(),
    ensures
        match r {
            Ok(m) => {
                &&& closed(views(t@), root)
                &&& m@.len() == t@.len()
                &&& forall|k: int|
                    0 <= k < t@.len() ==> m@[k] == (find(views(t@), t@[k].id) == k && reaches(
                        views(t@),
                        root,
                        t@[k].id,
                    ))
            },
            Err(e) => e == Error::NotFound && !closed(views(t@), root),
        },
{
    let ghost v = views(t@);
    let n = t.len();
    assert(v.len() == n);
    let k0 = match find_chunk(t, root) {
        Some(k) => k,
        None => {
            proof {
                lemma_reaches_self(v, root);
            }
            return Err(Error::NotFound);
        },
    };
    proof {
        lemma_find(v, root);
        lemma_reaches_self(v, root);
    }
    let mut marks = mask_repeat(false, n);
    proof {
        assert(count_true(mask_bits(marks)) == 0) by {
            assert forall|j: int| 0 <= j < n implies !mask_bits(marks)[j] by {}
            lemma_count_none(mask_bits(marks));
        }
        lemma_count_update(mask_bits(marks), k0 as int);
    }
    let ghost m_init = mask_bits(marks);
    mask_set(&mut marks, k0, true);
    let mut pushed: usize = 1;
    let mut stack: Vec<usize> = Vec::new();
    stack.push(k0);
    proof {
        assert(stack@[0] == k0);
        assert forall|k: int| 0 <= k < n && #[trigger] mask_bits(marks)[k] implies k == k0 by {
            if k != k0 {
                assert(!m_init[k]);
            }
        }
    }
    while stack.len() > 0
        invariant
            v == views(t@),
            n == t@.len() == v.len() == mask_bits(marks).len(),
            0 <= k0 < n,
            find(v, root) == k0,
            mask_bits(marks)[k0 as int],
            count_true(mask_bits(marks)) == pushed,
            pushed <= n,
            forall|k: int| 0 <= k < n && #[trigger] mask_bits(marks)[k] ==> find(v, v[k].id) == k && reaches(v, root, v[k].id),
            forall|k: int, d: Id|
                0 <= k < n && mask_bits(marks)[k] && !stack@.contains(k as usize) && #[trigger] links(v[k], d) ==> find(v, d) >= 0
                    && mask_bits(marks)[find(v, d)],
            forall|i: int| 0 <= i < stack@.len() ==> #[trigger] stack@[i] < n && mask_bits(marks)[stack@[i] as int],
            forall|i: int, i2: int| 0 <= i < i2 < stack@.len() ==> stack@[i] != stack@[i2],
        decreases 2 * (n - pushed) + stack@.len(),
    {
        proof {
            lemma_count_le(mask_bits(marks));
        }
        let ghost measure = 2 * (n - pushed) + stack@.len();
        let ghost st0 = stack@;
        let k = stack.pop().unwrap();
        proof {
            assert(stack@ =~= st0.drop_last());
            assert(k == st0[st0.len() - 1]);
            assert(!stack@.contains(k)) by {
                if stack@.contains(k) {
                    let i = choose|i: int| 0 <= i < stack@.len() && stack@[i] == k;
                    assert(st0[i] == k);
                }
            }
        }
        let mut succ: Vec<Id> = Vec::new();
        let mut j: usize = 0;
        while j < t[k].children.len()
            invariant
                v == views(t@),
                0 <= k < n == t@.len(),
                j <= v[k as int].children.len(),
                succ@ == v[k as int].children.subrange(0, j as int),
            decreases v[k as int].children.len() - j,
        {
            succ.push(t[k].children[j]);
            assert(succ@ =~= v[k as int].children.subrange(0, j + 1));
            j = j + 1;
        }
        let mut j: usize = 0;
        while j < t[k].dependencies.len()
            invariant
                v == views(t@),
                0 <= k < n == t@.len(),
                j <= v[k as int].dependencies.len(),
                succ@ == v[k as int].children + v[k as int].dependencies.subrange(0, j as int),
            decreases v[k as int].dependencies.len() - j,
        {
            succ.push(t[k].dependencies[j]);
            assert(succ@ =~= v[k as int].children + v[k as int].dependencies.subrange(0, j + 1));
            j = j + 1;
        }
        assert(succ@ =~= v[k as int].children + v[k as int].dependencies);
        proof {
            assert forall|a: int| 0 <= a < n && a != k && #[trigger] st0.contains(a as usize) implies stack@.contains(a as usize) by {
                let i = choose|i: int| 0 <= i < st0.len() && st0[i] == a as usize;
                assert(i < st0.len() - 1);
                assert(stack@[i] == st0[i]);
            }
        }
        let mut j: usize = 0;
        while j < succ.len()
            invariant
                v == views(t@),
                n == t@.len() == v.len() == mask_bits(marks).len(),
                0 <= k0 < n,
                0 <= k < n,
                mask_bits(marks)[k as int],
                find(v, root) == k0,
                mask_bits(marks)[k0 as int],
                count_true(mask_bits(marks)) == pushed,
                pushed <= n,
                succ@ == v[k as int].children + v[k as int].dependencies,
                j <= succ@.len(),
                2 * (n - pushed) + stack@.len() < measure,
                forall|a: int| 0 <= a < n && #[trigger] mask_bits(marks)[a] ==> find(v, v[a].id) == a && reaches(v, root, v[a].id),
                forall|a: int, d: Id|
                    0 <= a < n && a != k && mask_bits(marks)[a] && !stack@.contains(a as usize) && #[trigger] links(v[a], d) ==> find(v, d) >= 0
                        && mask_bits(marks)[find(v, d)],
                forall|i: int| 0 <= i < j ==> find(v, #[trigger] succ@[i]) >= 0 && mask_bits(marks)[find(v, succ@[i])],
                forall|i: int| 0 <= i < stack@.len() ==> #[trigger] stack@[i] < n && mask_bits(marks)[stack@[i] as int],
                forall|i: int, i2: int| 0 <= i < i2 < stack@.len() ==> stack@[i] != stack@[i2],
                !stack@.contains(k),
            decreases succ@.len() - j,
        {
            let d = succ[j];
            let ghost m_pre = mask_bits(marks);
            let ghost s_pre = stack@;
            proof {
                assert(links(v[k as int], d)) by {
                    if j < v[k as int].children.len() {
                        assert(v[k as int].children[j as int] == d);
                    } else {
                        assert(v[k as int].dependencies[j - v[k as int].children.len()] == d);
                    }
                }
                lemma_find(v, v[k as int].id);
                assert(edge(v, v[k as int].id, d));
                lemma_reaches_step(v, root, v[k as int].id, d);
            }
            match find_chunk(t, d) {
                None => {
                    return Err(Error::NotFound);
                },
                Some(e) => {
                    proof {
                        lemma_find(v, d);
                    }
                    if !mask_get(&marks, e) {
                        let ghost m0 = mask_bits(marks);
                        let ghost s0 = stack@;
                        proof {
                            lemma_count_update(mask_bits(marks), e as int);
                            lemma_count_le(mask_bits(marks).update(e as int, true));
                            assert forall|i: int| 0 <= i < s0.len() implies s0[i] != e by {}
                        }
                        mask_set(&mut marks, e, true);
                        pushed = pushed + 1;
                        stack.push(e);
                        proof {
                            assert(stack@ =~= s0.push(e));
                            assert(stack@[s0.len() as int] == e);
                            assert forall|x: int| 0 <= x < n && #[trigger] mask_bits(marks)[x] && !m0[x] implies stack@.contains(x as usize) by {
                                assert(x == e);
                                assert(stack@[s0.len() as int] == e);
                            }
                            assert forall|x: int| 0 <= x < n && m0[x] implies mask_bits(marks)[x] by {}
                            assert forall|a: int| 0 <= a < n && !#[trigger] stack@.contains(a as usize) implies !s0.contains(a as usize) by {
                                if s0.contains(a as usize) {
                                    let i = choose|i: int| 0 <= i < s0.len() && s0[i] == a as usize;
                                    assert(stack@[i] == s0[i]);
                                }
                            }
                            assert(!stack@.contains(k)) by {
                                if stack@.contains(k) {
                                    let i = choose|i: int| 0 <= i < stack@.len() && stack@[i] == k;
                                    if i < s0.len() {
                                        assert(s0[i] == k);
                                    }
                                }
                            }
                        }
                    }
                    assert(find(v, d) == e && mask_bits(marks)[e as int]);
                },
            }
            proof {
                assert forall|x: int| 0 <= x < n && m_pre[x] implies #[trigger] mask_bits(marks)[x] by {}
                assert(forall|x: int| 0 <= x < n && #[trigger] mask_bits(marks)[x] && !m_pre[x] ==> stack@.contains(x as usize));
                assert forall|a: int| 0 <= a < n && !#[trigger] stack@.contains(a as usize) implies !s_pre.contains(a as usize) by {
                    if s_pre.contains(a as usize) {
                        let i = choose|i: int| 0 <= i < s_pre.len() && s_pre[i] == a as usize;
                        assert(stack@[i] == s_pre[i]);
                    }
                }
                assert forall|a: int, dd: Id|
                    0 <= a < n && a != k && mask_bits(marks)[a] && !stack@.contains(a as usize) && #[trigger] links(v[a], dd) implies find(v, dd) >= 0
                        && mask_bits(marks)[find(v, dd)] by {
                    assert(m_pre[a]);
                    assert(!s_pre.contains(a as usize));
                    assert(find(v, dd) >= 0 && m_pre[find(v, dd)]);
                    lemma_find(v, dd);
                }
                assert forall|i: int| 0 <= i < j + 1 implies find(v, #[trigger] succ@[i]) >= 0 && mask_bits(marks)[find(v, succ@[i])] by {
                    lemma_find(v, succ@[i]);
                    if i < j {
                        assert(find(v, succ@[i]) >= 0 && m_pre[find(v, succ@[i])]);
                    } else {
                        assert(succ@[i] == d);
                    }
                }
            }
            j = j + 1;
        }
        let ghost cc = v[k as int].children.len();
        let ghost dc = v[k as int].dependencies.len();
        proof {
            assert forall|d: Id| #[trigger] links(v[k as int], d) implies find(v, d) >= 0 && mask_bits(marks)[find(v, d)] by {
                if v[k as int].children.contains(d) {
                    let i = choose|i: int| 0 <= i < cc && v[k as int].children[i] == d;
                    assert(succ@[i] == d);
                } else {
                    let i = choose|i: int| 0 <= i < dc && v[k as int].dependencies[i] == d;
                    assert(succ@[cc + i] == d);
                }
            }
        }
    }
    proof {
        assert forall|a: int| 0 <= a < n implies mask_bits(marks)[a] == (find(v, t@[a].id) == a && reaches(v, root, t@[a].id)) by {
            assert(v[a] == t@[a]@);
            if reaches(v, root, v[a].id) && find(v, v[a].id) == a {
                lemma_marks_cover(v, root, mask_bits(marks), v[a].id);
            }
        }
        assert forall|x: Id| reaches(v, root, x) implies find(v, x) >= 0 by {
            lemma_marks_cover(v, root, mask_bits(marks), x);
        }
    }
    let m = marks.to_bits();
    Ok(m)
}

} // verus!
