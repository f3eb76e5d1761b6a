use vstd::prelude::*;
use crate::order::{cmp_var, equivalent, lemma_total_order, less};
use crate::value::Variable;

verus! {

/// A value is well formed when its own contents are in the order that its
/// variant keeps: map keys and set elements strictly ascending, packet fields
/// strictly ascending.
pub open spec fn well_formed(v: Variable) -> bool {
    match v {
        Variable::Mapping(m) => keys_ascending(m@),
        Variable::Collection(s) => ascending(s@),
        Variable::Packet(p) => p.wf(),
        _ => true,
    }
}

/// Elements in strictly ascending order.
pub open spec fn ascending(s: Seq<Variable>) -> bool {
    forall|i: int, j: int| 0 <= i < j < s.len() ==> cmp_var(s[i], s[j]) < 0
}

/// Borrowed elements in strictly ascending order.
pub open spec fn ascending_refs(s: Seq<&Variable>) -> bool {
    forall|i: int, j: int| 0 <= i < j < s.len() ==> cmp_var(*s[i], *s[j]) < 0
}

/// Entries in strictly ascending key order.
pub open spec fn keys_ascending(s: Seq<(Variable, Variable)>) -> bool {
    forall|i: int, j: int| 0 <= i < j < s.len() ==> cmp_var(s[i].0, s[j].0) < 0
}

/// Whether some element of `s` is equal to `x` in the total order.
pub open spec fn holds(s: Seq<Variable>, x: Variable) -> bool {
    exists|k: int| 0 <= k < s.len() && cmp_var(s[k], x) == 0
}

/// `new` is `old` with `x` added where it belongs, unless an equal element is there.
pub open spec fn set_put(old: Seq<Variable>, new: Seq<Variable>, x: Variable) -> bool {
    &&& ascending(new)
    &&& holds(old, x) ==> new == old
    &&& !holds(old, x) ==> exists|p: int| 0 <= p <= old.len() && new == old.insert(p, x)
}

/// `new` is `old` where the entry whose key equals `k` now holds `v` (its key
/// kept), or, with no such entry, `(k, v)` added where it belongs.
pub open spec fn map_put(
    old: Seq<(Variable, Variable)>,
    new: Seq<(Variable, Variable)>,
    k: Variable,
    v: Variable,
) -> bool {
    &&& keys_ascending(new)
    &&& forall|j: int| 0 <= j < old.len() && cmp_var(old[j].0, k) == 0 ==> new == old.update(j, (old[j].0, v))
    &&& (forall|j: int| 0 <= j < old.len() ==> cmp_var(old[j].0, k) != 0) ==> exists|p: int|
        0 <= p <= old.len() && new == old.insert(p, (k, v))
}

/// In an ascending sequence no two elements are equal in the total order.
pub proof fn lemma_set_unique(s: Seq<Variable>)
    requires
        ascending(s),
    ensures
        forall|i: int, j: int| 0 <= i < s.len() && 0 <= j < s.len() && i != j ==> cmp_var(s[i], s[j]) != 0,
{
    assert forall|i: int, j: int| 0 <= i < s.len() && 0 <= j < s.len() && i != j implies cmp_var(s[i], s[j]) != 0 by {
        lemma_total_order(s[i], s[j], s[j]);
    }
}

/// Adding an element keeps a set's elements pairwise unequal.
pub proof fn lemma_set_put_unique(old: Seq<Variable>, new: Seq<Variable>, x: Variable)
    requires
        ascending(old),
        set_put(old, new, x),
    ensures
        forall|i: int, j: int| 0 <= i < new.len() && 0 <= j < new.len() && i != j ==> cmp_var(new[i], new[j]) != 0,
        holds(new, x),
{
    lemma_set_unique(new);
    if !holds(old, x) {
        let p = choose|p: int| 0 <= p <= old.len() && new == old.insert(p, x);
        lemma_total_order(x, x, x);
        assert(new[p] == x);
    }
}

/// Two puts under keys that are equal in the total order leave exactly one entry
/// for that key, holding the second value.
pub proof fn lemma_map_overwrite(
    m0: Seq<(Variable, Variable)>,
    m1: Seq<(Variable, Variable)>,
    m2: Seq<(Variable, Variable)>,
    k: Variable,
    v1: Variable,
    v2: Variable,
)
    requires
        keys_ascending(m0),
        map_put(m0, m1, k, v1),
        map_put(m1, m2, k, v2),
    ensures
        exists|j: int| 0 <= j < m2.len() && cmp_var(m2[j].0, k) == 0 && m2[j].1 == v2,
        forall|i: int, j: int|
            0 <= i < m2.len() && 0 <= j < m2.len() && cmp_var(m2[i].0, k) == 0 && cmp_var(m2[j].0, k) == 0
                ==> i == j,
{
    lemma_total_order(k, k, k);
    let j1 = if exists|j: int| 0 <= j < m0.len() && cmp_var(m0[j].0, k) == 0 {
        let j = choose|j: int| 0 <= j < m0.len() && cmp_var(m0[j].0, k) == 0;
        assert(m1[j].0 == m0[j].0);
        j
    } else {
        let p = choose|p: int| 0 <= p <= m0.len() && m1 == m0.insert(p, (k, v1));
        assert(m1[p].0 == k);
        p
    };
    assert(0 <= j1 < m1.len() && cmp_var(m1[j1].0, k) == 0);
    assert(m2 == m1.update(j1, (m1[j1].0, v2)));
    assert(m2[j1].1 == v2);
    assert forall|i: int, j: int|
        0 <= i < m2.len() && 0 <= j < m2.len() && cmp_var(m2[i].0, k) == 0 && cmp_var(m2[j].0, k) == 0
        implies i == j by {
        lemma_total_order(m2[i].0, k, m2[j].0);
        lemma_total_order(m2[j].0, k, m2[i].0);
        lemma_total_order(k, m2[j].0, m2[j].0);
        lemma_total_order(m2[i].0, m2[j].0, m2[j].0);
    }
}

/// Whether some borrowed element of `r` is equal to `x` in the total order.
pub open spec fn covers(r: Seq<&Variable>, x: Variable) -> bool {
    exists|k: int| 0 <= k < r.len() && cmp_var(*r[k], x) == 0
}

/// Adds `x` to an ascending vector unless an equal element is there.
pub fn set_insert(s: &mut Vec<Variable>, x: Variable)
    requires
        ascending(old(s)@),
    ensures
        set_put(old(s)@, final(s)@, x),
{
    let ghost s0 = s@;
    let mut i: usize = 0;
    while i < s.len() && less(&s[i], &x)
        invariant
            s@ == s0,
            ascending(s0),
            i <= s0.len(),
            forall|k: int| 0 <= k < i ==> cmp_var(s0[k], x) < 0,
        decreases s0.len() - i,
    {
        i = i + 1;
    }
    if i < s.len() && equivalent(&s[i], &x) {
        return;
    }
    proof {
        if i < s0.len() {
            lemma_total_order(s0[i as int], x, x);
        }
        assert forall|k: int| 0 <= k < s0.len() implies cmp_var(s0[k], x) != 0 by {
            if k > i {
                lemma_total_order(x, s0[i as int], s0[k]);
                lemma_total_order(s0[k], x, x);
            }
        }
    }
    s.insert(i, x);
    proof {
        let s1 = s@;
        assert(s1 == s0.insert(i as int, x));
        assert forall|a: int, b: int| 0 <= a < b < s1.len() implies cmp_var(s1[a], s1[b]) < 0 by {
            if b < i {
            } else if b == i {
            } else if a < i {
                assert(s1[b] == s0[b - 1]);
            } else if a == i {
                assert(s1[b] == s0[b - 1]);
                lemma_total_order(x, s0[i as int], s0[b - 1]);
                lemma_total_order(s0[i as int], x, x);
            } else {
                assert(s1[a] == s0[a - 1]);
                assert(s1[b] == s0[b - 1]);
            }
        }
    }
}

/// Puts `v` under key `k` in a vector of entries in ascending key order: an entry
/// with an equal key keeps its key and takes `v`; otherwise `(k, v)` is added.
pub fn map_insert(m: &mut Vec<(Variable, Variable)>, k: Variable, v: Variable)
    requires
        keys_ascending(old(m)@),
    ensures
        map_put(old(m)@, final(m)@, k, v),
{
    let ghost m0 = m@;
    let mut i: usize = 0;
    while i < m.len() && less(&m[i].0, &k)
        invariant
            m@ == m0,
            keys_ascending(m0),
            i <= m0.len(),
            forall|a: int| 0 <= a < i ==> cmp_var(m0[a].0, k) < 0,
        decreases m0.len() - i,
    {
        i = i + 1;
    }
    if i < m.len() && equivalent(&m[i].0, &k) {
        let (key, _old) = m.remove(i);
        m.insert(i, (key, v));
        proof {
            assert(m@ =~= m0.update(i as int, (m0[i as int].0, v)));
            assert forall|j: int| 0 <= j < m0.len() && cmp_var(m0[j].0, k) == 0 implies j == i by {
                lemma_total_order(m0[j].0, k, m0[i as int].0);
                lemma_total_order(m0[i as int].0, k, m0[j].0);
                lemma_total_order(k, m0[i as int].0, m0[i as int].0);
                lemma_total_order(m0[j].0, m0[i as int].0, m0[i as int].0);
            }
            let m1 = m@;
            assert forall|a: int, b: int| 0 <= a < b < m1.len() implies cmp_var(m1[a].0, m1[b].0) < 0 by {
                assert(m1[a].0 == m0[a].0);
                assert(m1[b].0 == m0[b].0);
            }
        }
        return;
    }
    proof {
        if i < m0.len() {
            lemma_total_order(m0[i as int].0, k, k);
        }
        assert forall|a: int| 0 <= a < m0.len() implies cmp_var(m0[a].0, k) != 0 by {
            if a > i {
                lemma_total_order(k, m0[i as int].0, m0[a].0);
                lemma_total_order(m0[a].0, k, k);
            }
        }
    }
    m.insert(i, (k, v));
    proof {
        let m1 = m@;
        assert(m1 == m0.insert(i as int, (k, v)));
        assert forall|a: int, b: int| 0 <= a < b < m1.len() implies cmp_var(m1[a].0, m1[b].0) < 0 by {
            if b < i {
            } else if b == i {
            } else if a < i {
                assert(m1[b] == m0[b - 1]);
            } else if a == i {
                assert(m1[b] == m0[b - 1]);
                lemma_total_order(k, m0[i as int].0, m0[b - 1].0);
                lemma_total_order(m0[i as int].0, k, k);
            } else {
                assert(m1[a] == m0[a - 1]);
                assert(m1[b] == m0[b - 1]);
            }
        }
    }
}

/// The elements of two ascending vectors, in ascending order, each element once:
/// of two equal elements, the one from `f` is kept.
pub fn merge_union<'a>(f: &'a Vec<Variable>, s: &'a Vec<Variable>) -> (r: Vec<&'a Variable>)
    requires
        ascending(f@),
        ascending(s@),
    ensures
        ascending_refs(r@),
        forall|k: int| 0 <= k < r@.len() ==> f@.contains(*r@[k]) || s@.contains(*r@[k]),
        forall|j: int| 0 <= j < f@.len() ==> covers(r@, f@[j]),
        forall|j: int| 0 <= j < s@.len() ==> covers(r@, s@[j]),
{
    let mut out: Vec<&'a Variable> = Vec::new();
    let mut i: usize = 0;
    let mut j: usize = 0;
    while i < f.len() || j < s.len()
        invariant
            ascending(f@),
            ascending(s@),
            i <= f@.len(),
            j <= s@.len(),
            ascending_refs(out@),
            forall|k: int| 0 <= k < out@.len() ==> f@.contains(*out@[k]) || s@.contains(*out@[k]),
            forall|a: int| 0 <= a < i ==> covers(out@, f@[a]),
            forall|b: int| 0 <= b < j ==> covers(out@, s@[b]),
            i < f@.len() ==> forall|k: int| 0 <= k < out@.len() ==> cmp_var(*out@[k], f@[i as int]) < 0,
            j < s@.len() ==> forall|k: int| 0 <= k < out@.len() ==> cmp_var(*out@[k], s@[j as int]) < 0,
        decreases f@.len() - i + s@.len() - j,
    {
        let ghost o0 = out@;
        let ghost (i0, j0) = (i as int, j as int);
        let take_f = j >= s.len() || (i < f.len() && !less(&s[j], &f[i]));
        if take_f {
            let same = j < s.len() && equivalent(&f[i], &s[j]);
            out.push(&f[i]);
            i = i + 1;
            if same {
                j = j + 1;
            }
            proof {
                let x = f@[i0];
                lemma_total_order(x, x, x);
                assert(*out@[o0.len() as int] == x);
                assert forall|k: int| 0 <= k < o0.len() implies out@[k] == o0[k] by {}
                if j0 < s@.len() {
                    lemma_total_order(s@[j0], x, x);
                }
                if i < f@.len() {
                    assert forall|k: int| 0 <= k < out@.len() implies cmp_var(*out@[k], f@[i as int]) < 0 by {
                        if k < o0.len() {
                            lemma_total_order(*o0[k], x, f@[i as int]);
                        }
                    }
                }
                if j < s@.len() {
                    assert forall|k: int| 0 <= k < out@.len() implies cmp_var(*out@[k], s@[j as int]) < 0 by {
                        lemma_total_order(x, s@[j0], s@[j as int]);
                        if k < o0.len() {
                            lemma_total_order(*o0[k], x, s@[j as int]);
                        }
                    }
                }
                assert forall|b: int| 0 <= b < j implies covers(out@, s@[b]) by {
                    if b < j0 {
                        let k = choose|k: int| 0 <= k < o0.len() && cmp_var(*o0[k], s@[b]) == 0;
                        assert(out@[k] == o0[k]);
                    } else {
                        assert(cmp_var(*out@[o0.len() as int], s@[b]) == 0);
                    }
                }
                assert forall|a: int| 0 <= a < i implies covers(out@, f@[a]) by {
                    if a < i0 {
                        let k = choose|k: int| 0 <= k < o0.len() && cmp_var(*o0[k], f@[a]) == 0;
                        assert(out@[k] == o0[k]);
                    } else {
                        assert(cmp_var(*out@[o0.len() as int], f@[a]) == 0);
                    }
                }
            }
        } else {
            out.push(&s[j]);
            j = j + 1;
            proof {
                let x = s@[j0];
                lemma_total_order(x, x, x);
                assert(*out@[o0.len() as int] == x);
                assert forall|k: int| 0 <= k < o0.len() implies out@[k] == o0[k] by {}
                if i0 < f@.len() {
                    lemma_total_order(f@[i0], x, x);
                }
                if j < s@.len() {
                    assert forall|k: int| 0 <= k < out@.len() implies cmp_var(*out@[k], s@[j as int]) < 0 by {
                        if k < o0.len() {
                            lemma_total_order(*o0[k], x, s@[j as int]);
                        }
                    }
                }
                if i < f@.len() {
                    assert forall|k: int| 0 <= k < out@.len() implies cmp_var(*out@[k], f@[i as int]) < 0 by {
                        if k < o0.len() {
                            lemma_total_order(*o0[k], x, f@[i as int]);
                        }
                    }
                }
                assert forall|b: int| 0 <= b < j implies covers(out@, s@[b]) by {
                    if b < j0 {
                        let k = choose|k: int| 0 <= k < o0.len() && cmp_var(*o0[k], s@[b]) == 0;
                        assert(out@[k] == o0[k]);
                    } else {
                        assert(cmp_var(*out@[o0.len() as int], s@[b]) == 0);
                    }
                }
                assert forall|a: int| 0 <= a < i implies covers(out@, f@[a]) by {
                    let k = choose|k: int| 0 <= k < o0.len() && cmp_var(*o0[k], f@[a]) == 0;
                    assert(out@[k] == o0[k]);
                }
            }
        }
    }
    out
}

} // verus!
