//! The environment the interpreter runs in: nested scopes of variables.
//!
//! A variable is known by an integer key (the precomputed hash of its interned
//! name). Every key has a stack of values, the last one visible; the history
//! of scopes records, scope by scope, which keys each scope pushed a value for,
//! so that leaving a scope pops exactly those values.

use crate::expr::{model_of, model_seq, Expr, ExprModel};
use crate::intmap::{
    intmap_entries, intmap_get, intmap_insert, intmap_into_entries, intmap_remove,
    intmap_with_capacity,
};
use nohash_hasher::IntMap;
use std::collections::BTreeMap;
use ustr::Ustr;
use vstd::prelude::*;

verus! {

broadcast use vstd::std_specs::btree::group_btree_axioms, vstd::laws_cmp::group_laws_cmp;

#[verifier::external_type_specification]
#[verifier::external_body]
pub struct ExUstr(Ustr);

/// Calls `Ustr::precomputed_hash`, the key under which the environment keeps a
/// name. The hash is seeded once per process, so the contract says nothing of
/// its value.
#[verifier::external_body]
pub(crate) fn name_key(name: &Ustr) -> (r: u64) {
    name.precomputed_hash()
}

pub struct Env {
    values: IntMap<u64, Vec<Expr>>,
    scopes_history: Vec<Vec<u64>>,
}

/// A scope: the values of the variables it introduces, by key.
pub type Scope = IntMap<u64, Expr>;

/// What an environment holds: the stack of values of every key that has one
/// (the last value is the visible one), and the keys each scope pushed a value
/// for, from the outermost scope to the innermost.
pub struct EnvModel {
    pub stacks: Map<u64, Seq<ExprModel>>,
    pub layers: Seq<Seq<u64>>,
}

/// How often `k` occurs in `l`.
pub open spec fn occ(l: Seq<u64>, k: u64) -> nat
    decreases l.len(),
{
    if l.len() == 0 {
        0
    } else {
        occ(l.drop_last(), k) + if l.last() == k {
            1nat
        } else {
            0nat
        }
    }
}

/// How often `k` occurs in all the layers.
pub open spec fn total_occ(h: Seq<Seq<u64>>, k: u64) -> nat
    decreases h.len(),
{
    if h.len() == 0 {
        0
    } else {
        total_occ(h.drop_last(), k) + occ(h.last(), k)
    }
}

/// The stack of values of `k` (empty where it has none).
pub open spec fn stack_of(m: EnvModel, k: u64) -> Seq<ExprModel> {
    if m.stacks.contains_key(k) {
        m.stacks[k]
    } else {
        Seq::empty()
    }
}

/// The visible value of `k`.
pub open spec fn lookup(m: EnvModel, k: u64) -> Option<ExprModel> {
    if stack_of(m, k).len() > 0 {
        Some(stack_of(m, k).last())
    } else {
        None
    }
}

/// The stacks with a value pushed on the stack of `k`.
pub open spec fn push_stack(
    stacks: Map<u64, Seq<ExprModel>>,
    k: u64,
    v: ExprModel,
) -> Map<u64, Seq<ExprModel>> {
    stacks.insert(
        k,
        if stacks.contains_key(k) {
            stacks[k]
        } else {
            Seq::empty()
        }.push(v),
    )
}

/// The stacks with the values of a scope pushed.
pub open spec fn push_scope(
    stacks: Map<u64, Seq<ExprModel>>,
    scope: Map<u64, ExprModel>,
) -> Map<u64, Seq<ExprModel>> {
    Map::new(
        |k: u64| stacks.contains_key(k) || scope.contains_key(k),
        |k: u64|
            if scope.contains_key(k) {
                if stacks.contains_key(k) {
                    stacks[k]
                } else {
                    Seq::empty()
                }.push(scope[k])
            } else {
                stacks[k]
            },
    )
}

/// The stacks with, for every key, as many values popped as it occurs in `l`;
/// stacks that become empty are dropped.
pub open spec fn pop_layer(stacks: Map<u64, Seq<ExprModel>>, l: Seq<u64>) -> Map<
    u64,
    Seq<ExprModel>,
> {
    Map::new(
        |k: u64| stacks.contains_key(k) && stacks[k].len() > occ(l, k),
        |k: u64| stacks[k].take(stacks[k].len() - occ(l, k)),
    )
}

/// The model of the values of a scope.
pub open spec fn scope_model(s: Map<u64, Expr>) -> Map<u64, ExprModel> {
    s.map_values(|e: Expr| model_of(e))
}

/// `l` holds each key of `keys` once, and nothing else.
pub open spec fn lists_keys(l: Seq<u64>, keys: Set<u64>) -> bool {
    &&& forall|i: int, j: int| 0 <= i < j < l.len() ==> l[i] != l[j]
    &&& forall|k: u64| keys.contains(k) <==> l.contains(k)
}

impl View for Env {
    type V = EnvModel;

    closed spec fn view(&self) -> EnvModel {
        EnvModel {
            stacks: Map::new(
                |k: u64| self.values@.contains_key(k) && self.values@[k].len() > 0,
                |k: u64| model_seq(self.values@[k]@),
            ),
            layers: self.scopes_history@.map_values(|l: Vec<u64>| l@),
        }
    }
}

impl Env {
    /// Every key has as many values as the scopes pushed for it.
    pub closed spec fn wf(&self) -> bool {
        forall|k: u64|
            total_occ(self.hist(), k) == #[trigger] self.depth(k)
    }

    /// The keys of each scope, from the outermost scope to the innermost.
    closed spec fn hist(&self) -> Seq<Seq<u64>> {
        self.scopes_history@.map_values(|l: Vec<u64>| l@)
    }

    /// The number of values on the stack of `k`.
    closed spec fn depth(&self, k: u64) -> nat {
        if self.values@.contains_key(k) {
            self.values@[k]@.len()
        } else {
            0
        }
    }

    /// A copy of the environment with the same contents.
    #[verifier::loop_isolation(false)]
    pub fn duplicate(&self) -> (r: Env)
        requires
            self.wf(),
        ensures
            r.wf(),
            r@ == self@,
    {
        let mut values: IntMap<u64, Vec<Expr>> = intmap_with_capacity(50);
        let entries = intmap_entries(&self.values);
        let mut i: usize = 0;
        while i < entries.len()
            invariant
                i <= entries.len(),
                forall|k: u64| values@.contains_key(k) <==> exists|a: int| 0 <= a < i && #[trigger] entries@[a].0 == k,
                forall|k: u64| #[trigger] values@.contains_key(k) ==> values@[k]@.len() == self.values@[k]@.len()
                    && model_seq(values@[k]@) == model_seq(self.values@[k]@),
            decreases entries.len() - i,
        {
            let (k, stack) = entries[i];
            assert(self.values@.contains_key(entries@[i as int].0));
            assert(self.values@[k] == *stack);
            let copy = crate::expr::duplicate_all(stack);
            proof {
                crate::expr::lemma_model_seq_index(copy@);
                crate::expr::lemma_model_seq_index(stack@);
            }
            intmap_insert(&mut values, k, copy);
            proof {
                assert forall|k2: u64| values@.contains_key(k2) implies exists|a: int| 0 <= a < i + 1 && #[trigger] entries@[a].0 == k2 by {
                    if k2 != k {
                        assert(exists|a: int| 0 <= a < i && #[trigger] entries@[a].0 == k2);
                    } else {
                        assert(entries@[i as int].0 == k2);
                    }
                }
            }
            i = i + 1;
        }
        let mut history: Vec<Vec<u64>> = Vec::new();
        let mut j: usize = 0;
        while j < self.scopes_history.len()
            invariant
                j <= self.scopes_history.len(),
                history@.map_values(|l: Vec<u64>| l@) == self.scopes_history@.subrange(0, j as int).map_values(|l: Vec<u64>| l@),
            decreases self.scopes_history.len() - j,
        {
            let layer = copy_keys(&self.scopes_history[j]);
            let ghost prev = history@;
            history.push(layer);
            proof {
                let a = history@.map_values(|l: Vec<u64>| l@);
                let b = self.scopes_history@.subrange(0, j + 1).map_values(|l: Vec<u64>| l@);
                let c = self.scopes_history@.subrange(0, j as int).map_values(|l: Vec<u64>| l@);
                assert(prev.map_values(|l: Vec<u64>| l@) == c);
                assert forall|x: int| 0 <= x < a.len() implies a[x] == b[x] by {
                    if x < j {
                        assert(a[x] == prev.map_values(|l: Vec<u64>| l@)[x]);
                        assert(b[x] == c[x]);
                    }
                }
                assert(a =~= b);
            }
            j = j + 1;
        }
        assert(self.scopes_history@.subrange(0, j as int) =~= self.scopes_history@);
        let r = Env { values, scopes_history: history };
        proof {
            assert forall|k: u64| self.values@.contains_key(k) implies #[trigger] values@.contains_key(k) by {
                let a = choose|a: int| 0 <= a < entries@.len() && #[trigger] entries@[a].0 == k;
                assert(entries@[a].0 == k);
            }
            assert forall|k: u64| values@.contains_key(k) implies self.values@.contains_key(k) by {
                let a = choose|a: int| 0 <= a < i && #[trigger] entries@[a].0 == k;
                assert(self.values@.contains_key(entries@[a].0));
            }
            assert forall|k: u64| #[trigger] r@.stacks.contains_key(k) == self@.stacks.contains_key(k) by {
                if self.values@.contains_key(k) {
                    assert(values@.contains_key(k));
                }
            }
            assert forall|k: u64| #[trigger] r@.stacks.contains_key(k) implies r@.stacks[k] == self@.stacks[k] by {
                assert(values@.contains_key(k));
            }
            assert(r@.stacks =~= self@.stacks);
            assert(r@.layers =~= self@.layers);
            assert(r.hist() =~= self.hist());
            assert forall|k: u64| total_occ(r.hist(), k) == #[trigger] r.depth(k) by {
                assert(total_occ(self.hist(), k) == self.depth(k));
            }
        }
        r
    }
}

/// A copy of a list of keys.
fn copy_keys(v: &Vec<u64>) -> (r: Vec<u64>)
    ensures
        r@ == v@,
{
    let mut r: Vec<u64> = Vec::new();
    let mut i: usize = 0;
    while i < v.len()
        invariant
            i <= v.len(),
            r@ == v@.subrange(0, i as int),
        decreases v.len() - i,
    {
        r.push(v[i]);
        assert(r@ =~= v@.subrange(0, i + 1));
        i = i + 1;
    }
    assert(r@ =~= v@);
    r
}

/// An environment with no variables and no scopes.
pub fn env_empty() -> (r: Env)
    ensures
        r.wf(),
        r@.stacks == Map::<u64, Seq<ExprModel>>::empty(),
        r@.layers == Seq::<Seq<u64>>::empty(),
{
    let r = Env { values: intmap_with_capacity(50), scopes_history: Vec::with_capacity(10) };
    assert(r@.stacks =~= Map::<u64, Seq<ExprModel>>::empty());
    assert(r@.layers =~= Seq::<Seq<u64>>::empty());
    r
}

/// A scope with no variables.
pub fn env_create_scope() -> (r: Scope)
    ensures
        r@ == Map::<u64, Expr>::empty(),
{
    intmap_with_capacity(5)
}

/// The visible value of the variable with key `key`.
pub fn env_lookup_key(env: &Env, key: u64) -> (r: Option<Expr>)
    ensures
        match r {
            None => lookup(env@, key) is None,
            Some(v) => lookup(env@, key) == Some(v@),
        },
{
    match intmap_get(&env.values, key) {
        None => None,
        Some(stack) => {
            if stack.len() == 0 {
                None
            } else {
                proof {
                    crate::expr::lemma_model_seq_index(stack@);
                }
                Some(stack[stack.len() - 1].duplicate())
            }
        },
    }
}

/// The visible value of the variable `name`.
pub fn env_lookup(env: &Env, name: &Ustr) -> (r: Option<Expr>)
    ensures
        exists|k: u64|
            match r {
                None => lookup(env@, k) is None,
                Some(v) => lookup(env@, k) == Some(v@),
            },
{
    let k = name_key(name);
    env_lookup_key(env, k)
}

/// Pushes `val` on the stack of `key`, without touching the scope history.
fn push_value(env: &mut Env, key: u64, val: Expr)
    ensures
        final(env).scopes_history == old(env).scopes_history,
        final(env).values@.contains_key(key),
        final(env).values@[key]@ == if old(env).values@.contains_key(key) {
            old(env).values@[key]@
        } else {
            Seq::empty()
        }.push(val),
        forall|k: u64|
            k != key ==> (#[trigger] final(env).values@.contains_key(k) == old(env).values@.contains_key(k)
                && (old(env).values@.contains_key(k) ==> final(env).values@[k] == old(env).values@[k])),
{
    let mut stack = match intmap_remove(&mut env.values, key) {
        None => Vec::new(),
        Some(s) => s,
    };
    stack.push(val);
    intmap_insert(&mut env.values, key, stack);
}

/// Enters a scope that holds the variables of `scope`.
#[verifier::loop_isolation(false)]
pub fn env_add_scope(env: &mut Env, scope: Scope)
    requires
        old(env).wf(),
    ensures
        final(env).wf(),
        final(env)@.stacks == push_scope(old(env)@.stacks, scope_model(scope@)),
        final(env)@.layers.len() == old(env)@.layers.len() + 1,
        final(env)@.layers.drop_last() == old(env)@.layers,
        lists_keys(final(env)@.layers.last(), scope@.dom()),
{
    let ghost old_values = env.values@;
    let ghost smap = scope@;
    let entries = intmap_into_entries(scope);
    let mut current: Vec<u64> = Vec::with_capacity(entries.len());
    let mut entries = entries;
    let ghost all = entries@;
    assert(all.subrange(0, all.len() as int) =~= all);
    let n = entries.len();
    while entries.len() > 0
        invariant
            entries@ == all.subrange(0, entries@.len() as int),
            entries@.len() <= n,
            n == all.len(),
            env.scopes_history == old(env).scopes_history,
            current@.len() == n - entries@.len(),
            forall|j: int| 0 <= j < current@.len() ==> current@[j] == all[n - 1 - j].0,
            forall|k: u64|
                #[trigger] env.values@.contains_key(k) <==> (old_values.contains_key(k) || exists|a: int|
                    entries@.len() <= a < n && all[a].0 == k),
            forall|k: u64|
                #[trigger] env.values@.contains_key(k) ==> env.values@[k]@ == if (exists|a: int| entries@.len() <= a < n && all[a].0 == k) {
                    if old_values.contains_key(k) {
                        old_values[k]@
                    } else {
                        Seq::empty()
                    }.push(smap[k])
                } else {
                    old_values[k]@
                },
        decreases entries.len(),
    {
        let ghost len0 = entries@.len();
        let ghost prev = env.values@;
        let (k, v) = entries.pop().unwrap();
        proof {
            assert(all[len0 - 1] == (k, v));
            assert(smap.contains_key(all[len0 - 1].0));
            if exists|a: int| len0 <= a < n && all[a].0 == k {
                let a = choose|a: int| len0 <= a < n && all[a].0 == k;
                assert(all[a].0 != all[len0 - 1].0);
            }
        }
        push_value(env, k, v);
        current.push(k);
        proof {
            assert forall|k2: u64| #[trigger] env.values@.contains_key(k2) <==> (old_values.contains_key(k2) || exists|a: int|
                    entries@.len() <= a < n && all[a].0 == k2) by {
                if k2 == k {
                    assert(all[len0 - 1].0 == k2);
                } else if exists|a: int| entries@.len() <= a < n && all[a].0 == k2 {
                    let a = choose|a: int| entries@.len() <= a < n && all[a].0 == k2;
                    assert(a != len0 - 1);
                    assert(len0 <= a < n && all[a].0 == k2);
                }
            }
            assert forall|k2: u64| #[trigger] env.values@.contains_key(k2) implies env.values@[k2]@ == if (exists|a: int| entries@.len() <= a < n && all[a].0 == k2) {
                    if old_values.contains_key(k2) {
                        old_values[k2]@
                    } else {
                        Seq::empty()
                    }.push(smap[k2])
                } else {
                    old_values[k2]@
                } by {
                if k2 == k {
                    assert(all[len0 - 1].0 == k2);
                    assert(exists|a: int| entries@.len() <= a < n && all[a].0 == k2);
                } else {
                    if exists|a: int| entries@.len() <= a < n && all[a].0 == k2 {
                        let a = choose|a: int| entries@.len() <= a < n && all[a].0 == k2;
                        assert(a != len0 - 1);
                        assert(len0 <= a < n && all[a].0 == k2);
                    } else {
                        assert(!(exists|a: int| len0 <= a < n && all[a].0 == k2));
                    }
                }
            }
        }
    }
    let i: usize = n;
    let ghost old_hist = env.scopes_history@;
    env.scopes_history.push(current);
    proof {
        let cur = current@;
        assert forall|a: int, b: int| 0 <= a < b < cur.len() implies cur[a] != cur[b] by {
            assert(cur[a] == all[n - 1 - a].0 && cur[b] == all[n - 1 - b].0);
        }
        assert forall|k: u64| smap.dom().contains(k) <==> cur.contains(k) by {
            if smap.contains_key(k) {
                let a = choose|a: int| 0 <= a < all.len() && #[trigger] all[a].0 == k;
                assert(cur[n - 1 - a] == k);
            }
            if cur.contains(k) {
                let a = choose|a: int| 0 <= a < cur.len() && cur[a] == k;
                assert(all[n - 1 - a].0 == k);
            }
        }
        let hv = env.hist();
        let ohv = old(env).hist();
        assert(hv.drop_last() =~= ohv);
        assert(hv.last() == cur);
        assert forall|k: u64| total_occ(hv, k) == #[trigger] env.depth(k) by {
            lemma_occ_distinct(cur, k);
            assert(total_occ(ohv, k) == old(env).depth(k));
            if smap.contains_key(k) {
                let a = choose|a: int| 0 <= a < all.len() && #[trigger] all[a].0 == k;
                assert(exists|a: int| entries@.len() <= a < n && all[a].0 == k);
            } else {
                if exists|a: int| entries@.len() <= a < n && all[a].0 == k {
                    let a = choose|a: int| entries@.len() <= a < n && all[a].0 == k;
                    assert(smap.contains_key(all[a].0));
                }
            }
        }
        let target = push_scope(old(env)@.stacks, scope_model(smap));
        assert forall|k: u64| env@.stacks.contains_key(k) <==> target.contains_key(k) by {
            if smap.contains_key(k) {
                let a = choose|a: int| 0 <= a < all.len() && #[trigger] all[a].0 == k;
                assert(exists|a: int| entries@.len() <= a < n && all[a].0 == k);
                assert(env.values@.contains_key(k));
                assert(env.values@[k]@.len() > 0);
            } else {
                if exists|a: int| entries@.len() <= a < n && all[a].0 == k {
                    let a = choose|a: int| entries@.len() <= a < n && all[a].0 == k;
                    assert(smap.contains_key(all[a].0));
                }
                if env.values@.contains_key(k) {
                    assert(env.values@[k]@ == old_values[k]@);
                }
                if old_values.contains_key(k) {
                    assert(env.values@.contains_key(k));
                }
            }
        }
        assert forall|k: u64| #[trigger] env@.stacks.contains_key(k) implies env@.stacks[k] == target[k] by {
            if smap.contains_key(k) {
                let a = choose|a: int| 0 <= a < all.len() && #[trigger] all[a].0 == k;
                assert(exists|a: int| entries@.len() <= a < n && all[a].0 == k);
                let base = if old_values.contains_key(k) {
                    old_values[k]@
                } else {
                    Seq::empty()
                };
                crate::expr::lemma_model_seq_push(base, smap[k]);
                if !old_values.contains_key(k) || old_values[k]@.len() == 0 {
                    crate::expr::lemma_model_seq_index(base);
                    assert(model_seq(base) =~= Seq::<ExprModel>::empty());
                }
            } else {
                if exists|a: int| entries@.len() <= a < n && all[a].0 == k {
                    let a = choose|a: int| entries@.len() <= a < n && all[a].0 == k;
                    assert(smap.contains_key(all[a].0));
                }
            }
        }
        assert(env@.stacks =~= target);
    }
}

/// Occurrences after appending a key.
pub proof fn lemma_occ_push(l: Seq<u64>, x: u64, k: u64)
    ensures
        occ(l.push(x), k) == occ(l, k) + if x == k {
            1nat
        } else {
            0nat
        },
{
    assert(l.push(x).drop_last() =~= l);
}

/// Occurrences after appending a layer.
pub proof fn lemma_total_occ_push(h: Seq<Seq<u64>>, l: Seq<u64>, k: u64)
    ensures
        total_occ(h.push(l), k) == total_occ(h, k) + occ(l, k),
{
    assert(h.push(l).drop_last() =~= h);
}

/// Occurrences in a prefix one element longer.
pub proof fn lemma_occ_prefix(l: Seq<u64>, i: int, k: u64)
    requires
        0 <= i < l.len(),
    ensures
        occ(l.subrange(0, i + 1), k) == occ(l.subrange(0, i), k) + if l[i] == k {
            1nat
        } else {
            0nat
        },
{
    assert(l.subrange(0, i + 1).drop_last() =~= l.subrange(0, i));
}

/// Occurrences in a prefix are at most those in the whole list.
pub proof fn lemma_occ_prefix_le(l: Seq<u64>, i: int, k: u64)
    requires
        0 <= i <= l.len(),
    ensures
        occ(l.subrange(0, i), k) <= occ(l, k),
    decreases l.len() - i,
{
    if i < l.len() {
        lemma_occ_prefix(l, i, k);
        lemma_occ_prefix_le(l, i + 1, k);
    } else {
        assert(l.subrange(0, i) =~= l);
    }
}

/// In a list without repeats a key occurs once if it is there at all.
pub proof fn lemma_occ_distinct(l: Seq<u64>, k: u64)
    requires
        forall|i: int, j: int| 0 <= i < j < l.len() ==> l[i] != l[j],
    ensures
        occ(l, k) == if l.contains(k) {
            1nat
        } else {
            0nat
        },
    decreases l.len(),
{
    if l.len() > 0 {
        let p = l.drop_last();
        assert forall|i: int, j: int| 0 <= i < j < p.len() implies p[i] != p[j] by {
            assert(p[i] == l[i] && p[j] == l[j]);
        }
        lemma_occ_distinct(p, k);
        if l.last() == k {
            if p.contains(k) {
                let i = choose|i: int| 0 <= i < p.len() && p[i] == k;
                assert(l[i] == l[l.len() - 1]);
            }
        }
        if l.contains(k) && l.last() != k {
            let i = choose|i: int| 0 <= i < l.len() && l[i] == k;
            assert(p[i] == k);
        }
        if p.contains(k) {
            let i = choose|i: int| 0 <= i < p.len() && p[i] == k;
            assert(l[i] == k);
        }
    }
}

/// Leaves the innermost scope: pops, for every key, as many values as that
/// scope pushed. Without scopes, nothing changes.
#[verifier::loop_isolation(false)]
pub fn env_remove_scope(env: &mut Env)
    requires
        old(env).wf(),
    ensures
        final(env).wf(),
        old(env)@.layers.len() == 0 ==> final(env)@ == old(env)@,
        old(env)@.layers.len() > 0 ==> final(env)@.layers == old(env)@.layers.drop_last()
            && final(env)@.stacks == pop_layer(old(env)@.stacks, old(env)@.layers.last()),
{
    let ghost old_values = env.values@;
    let ghost oh = env.hist();
    let ghost old_vecs = env.scopes_history@;
    match env.scopes_history.pop() {
        None => {
            proof {
                assert(env@.layers =~= old(env)@.layers);
                assert(env@.stacks =~= old(env)@.stacks);
                assert(env.hist() =~= oh);
                assert forall|k: u64| total_occ(env.hist(), k) == #[trigger] env.depth(k) by {
                    assert(total_occ(oh, k) == old(env).depth(k));
                }
            }
        },
        Some(vars) => {
            let ghost l = vars@;
            proof {
                assert(env.scopes_history@ =~= old_vecs.drop_last());
                assert(env.hist() =~= oh.drop_last());
                assert(oh.last() == l);
                assert forall|k: u64| old_values.contains_key(k) implies occ(l, k) <= #[trigger] old_values[k]@.len() by {
                    assert(total_occ(oh, k) == old(env).depth(k));
                }
                assert forall|k: u64| occ(l, k) > 0 implies #[trigger] old_values.contains_key(k) by {
                    assert(total_occ(oh, k) == old(env).depth(k));
                }
            }
            let mut i: usize = 0;
            while i < vars.len()
                invariant
                    i <= vars.len(),
                    vars@ == l,
                    env.scopes_history@ == old_vecs.drop_last(),
                    forall|k: u64| #[trigger] env.values@.contains_key(k) == old_values.contains_key(k),
                    forall|k: u64|
                        #[trigger] env.values@.contains_key(k) ==> env.values@[k]@ == old_values[k]@.take(
                            old_values[k]@.len() - occ(l.subrange(0, i as int), k),
                        ),
                    forall|k: u64|
                        old_values.contains_key(k) ==> occ(l, k) <= #[trigger] old_values[k]@.len(),
                    forall|k: u64| occ(l, k) > 0 ==> #[trigger] old_values.contains_key(k),
                decreases vars.len() - i,
            {
                let name = vars[i];
                proof {
                    lemma_occ_prefix(l, i as int, name);
                    lemma_occ_prefix_le(l, i + 1, name);
                }
                match intmap_remove(&mut env.values, name) {
                    None => {},
                    Some(stack) => {
                        let mut stack = stack;
                        stack.pop();
                        intmap_insert(&mut env.values, name, stack);
                    },
                }
                proof {
                    assert forall|k: u64| #[trigger] env.values@.contains_key(k) implies env.values@[k]@ == old_values[k]@.take(
                            old_values[k]@.len() - occ(l.subrange(0, i + 1), k),
                        ) by {
                        lemma_occ_prefix(l, i as int, k);
                        if k == name {
                            assert(old_values[k]@.take(old_values[k]@.len() - occ(l.subrange(0, i as int), k)).drop_last()
                                =~= old_values[k]@.take(old_values[k]@.len() - occ(l.subrange(0, i + 1), k)));
                        }
                    }
                }
                i = i + 1;
            }
            proof {
                assert(l.subrange(0, i as int) =~= l);
                assert forall|k: u64| total_occ(env.hist(), k) == #[trigger] env.depth(k) by {
                    assert(env.hist() =~= oh.drop_last());
                    assert(total_occ(oh, k) == old(env).depth(k));
                    assert(total_occ(oh, k) == total_occ(oh.drop_last(), k) + occ(l, k));
                    if old_values.contains_key(k) {
                        assert(env.values@.contains_key(k));
                        assert(env.values@[k]@.len() == old_values[k]@.len() - occ(l, k));
                    } else {
                        assert(!env.values@.contains_key(k));
                    }
                }
                let target = pop_layer(old(env)@.stacks, l);
                assert forall|k: u64| #[trigger] env@.stacks.contains_key(k) == target.contains_key(k) by {
                    if old_values.contains_key(k) {
                        crate::expr::lemma_model_seq_index(old_values[k]@);
                        assert(env.values@.contains_key(k));
                        assert(env.values@[k]@.len() == old_values[k]@.len() - occ(l, k));
                    } else {
                        assert(!env.values@.contains_key(k));
                    }
                }
                assert forall|k: u64| #[trigger] env@.stacks.contains_key(k) implies env@.stacks[k] == target[k] by {
                    crate::expr::lemma_model_seq_index(old_values[k]@);
                    crate::expr::lemma_model_seq_index(env.values@[k]@);
                    assert(env@.stacks[k] =~= target[k]);
                }
                assert(env@.stacks =~= target);
                assert(env@.layers =~= old(env)@.layers.drop_last());
            }
        },
    }
}

/// Binds the variable with key `key` to `val` in the innermost scope (opening
/// a scope first if there is none).
pub fn env_declare_key(env: &mut Env, key: u64, val: Expr)
    requires
        old(env).wf(),
    ensures
        final(env).wf(),
        final(env)@.stacks == push_stack(old(env)@.stacks, key, val@),
        final(env)@.layers == if old(env)@.layers.len() == 0 {
            seq![seq![key]]
        } else {
            old(env)@.layers.update(
                old(env)@.layers.len() - 1,
                old(env)@.layers.last().push(key),
            )
        },
{
    let ghost old_values = env.values@;
    let ghost oh = env.hist();
    let ghost vm = val@;
    if env.scopes_history.len() == 0 {
        env.scopes_history.push(Vec::new());
    }
    let ghost h1 = env.hist();
    push_value(env, key, val);
    let mut last = env.scopes_history.pop().unwrap();
    last.push(key);
    env.scopes_history.push(last);
    proof {
        let h = env.hist();
        if oh.len() == 0 {
            assert(h =~= seq![seq![key]]);
            assert(h1 =~= seq![Seq::<u64>::empty()]);
        } else {
            assert(h =~= oh.update(oh.len() - 1, oh.last().push(key)));
            assert(h1 =~= oh);
        }
        assert(h.drop_last() =~= h1.drop_last());
        assert(h.last() =~= h1.last().push(key));
        assert forall|k: u64| total_occ(h, k) == #[trigger] env.depth(k) by {
            assert(total_occ(oh, k) == old(env).depth(k));
            if oh.len() == 0 {
                let e = Seq::<Seq<u64>>::empty();
                assert(h =~= e.push(Seq::<u64>::empty().push(key)));
                lemma_total_occ_push(e, Seq::<u64>::empty().push(key), k);
                lemma_occ_push(Seq::<u64>::empty(), key, k);
            } else {
                assert(h =~= oh.drop_last().push(oh.last().push(key)));
                assert(oh =~= oh.drop_last().push(oh.last()));
                lemma_total_occ_push(oh.drop_last(), oh.last().push(key), k);
                lemma_total_occ_push(oh.drop_last(), oh.last(), k);
                lemma_occ_push(oh.last(), key, k);
            }
        }
        let base = if old_values.contains_key(key) {
            old_values[key]@
        } else {
            Seq::empty()
        };
        crate::expr::lemma_model_seq_push(base, val);
        crate::expr::lemma_model_seq_index(base);
        assert forall|k: u64| #[trigger] env@.stacks.contains_key(k) == push_stack(old(env)@.stacks, key, vm).contains_key(k) by {
            if k != key {
                assert(env.values@.contains_key(k) == old_values.contains_key(k));
                if old_values.contains_key(k) {
                    assert(env.values@[k] == old_values[k]);
                }
            }
        }
        assert forall|k: u64| #[trigger] env@.stacks.contains_key(k) implies env@.stacks[k] == push_stack(old(env)@.stacks, key, vm)[k] by {
            if k != key {
                assert(env.values@[k] == old_values[k]);
            }
            if k == key {
                if !(old_values.contains_key(key) && old_values[key]@.len() > 0) {
                    assert(model_seq(base) =~= Seq::<ExprModel>::empty());
                }
            }
        }
        assert(env@.stacks =~= push_stack(old(env)@.stacks, key, vm));
    }
}

/// Binds the variable `name` to `val` in the innermost scope (opening a scope
/// first if there is none).
pub fn env_declare(env: &mut Env, name: &Ustr, val: Expr)
    requires
        old(env).wf(),
    ensures
        final(env).wf(),
        exists|key: u64|
            #[trigger] push_stack(old(env)@.stacks, key, val@) == final(env)@.stacks && final(env)@.layers == if old(
                env,
            )@.layers.len() == 0 {
                seq![seq![key]]
            } else {
                old(env)@.layers.update(old(env)@.layers.len() - 1, old(env)@.layers.last().push(key))
            },
{
    let k = name_key(name);
    env_declare_key(env, k, val);
}

/// Replaces the visible value of the variable with key `key` by `val`; false,
/// with nothing changed, where it has none.
pub fn env_assign_key(env: &mut Env, key: u64, val: Expr) -> (r: bool)
    requires
        old(env).wf(),
    ensures
        final(env).wf(),
        r == (lookup(old(env)@, key) is Some),
        r ==> final(env)@.layers == old(env)@.layers && final(env)@.stacks == old(env)@.stacks.insert(
            key,
            old(env)@.stacks[key].update(old(env)@.stacks[key].len() - 1, val@),
        ),
        !r ==> final(env)@ == old(env)@,
{
    let ghost old_values = env.values@;
    let ghost vm = val@;
    match intmap_remove(&mut env.values, key) {
        None => {
            proof {
                assert(env.values@ =~= old_values);
                assert forall|k: u64| total_occ(env.hist(), k) == #[trigger] env.depth(k) by {
                    assert(total_occ(old(env).hist(), k) == old(env).depth(k));
                }
            }
            false
        },
        Some(stack) => {
            let mut stack = stack;
            if stack.len() == 0 {
                intmap_insert(&mut env.values, key, stack);
                proof {
                    assert(env.values@ =~= old_values);
                    assert forall|k: u64| total_occ(env.hist(), k) == #[trigger] env.depth(k) by {
                        assert(total_occ(old(env).hist(), k) == old(env).depth(k));
                    }
                }
                false
            } else {
                let ghost s0 = stack@;
                let n = stack.len();
                stack.set(n - 1, val);
                intmap_insert(&mut env.values, key, stack);
                proof {
                    assert forall|k: u64| total_occ(env.hist(), k) == #[trigger] env.depth(k) by {
                        assert(total_occ(old(env).hist(), k) == old(env).depth(k));
                    }
                    crate::expr::lemma_model_seq_index(s0);
                    crate::expr::lemma_model_seq_index(env.values@[key]@);
                    let target = old(env)@.stacks.insert(
                        key,
                        old(env)@.stacks[key].update(old(env)@.stacks[key].len() - 1, vm),
                    );
                    assert(env@.stacks[key] =~= target[key]);
                    assert(env@.stacks =~= target);
                }
                true
            }
        },
    }
}

/// Replaces the visible value of the variable `name` by `val`; false, with
/// nothing changed, where it has none.
pub fn env_assign(env: &mut Env, name: &Ustr, val: Expr) -> (r: bool)
    requires
        old(env).wf(),
    ensures
        final(env).wf(),
        exists|key: u64|
            #![trigger lookup(old(env)@, key)]
            {
                &&& r == (lookup(old(env)@, key) is Some)
                &&& r ==> final(env)@.layers == old(env)@.layers && final(env)@.stacks == old(env)@.stacks.insert(
                    key,
                    old(env)@.stacks[key].update(old(env)@.stacks[key].len() - 1, val@),
                )
            },
        !r ==> final(env)@ == old(env)@,
{
    let k = name_key(name);
    env_assign_key(env, k, val)
}

/// A number or a boolean.
pub open spec fn is_scalar(e: ExprModel) -> bool {
    e is Number || e is Bool
}

/// The visible value of `k` is a number or a boolean.
pub open spec fn visible_scalar(m: EnvModel, k: u64) -> bool {
    lookup(m, k) matches Some(v) && is_scalar(v)
}

/// The visible values that are numbers or booleans, by key.
#[verifier::loop_isolation(false)]
pub fn env_get_all_visible(env: &Env) -> (r: BTreeMap<u64, Expr>)
    ensures
        forall|k: u64| #[trigger] r@.contains_key(k) <==> visible_scalar(env@, k),
        forall|k: u64| #[trigger] r@.contains_key(k) ==> lookup(env@, k) == Some(r@[k]@),
{
    let mut visible: BTreeMap<u64, Expr> = BTreeMap::new();
    let entries = intmap_entries(&env.values);
    let mut i: usize = 0;
    while i < entries.len()
        invariant
            i <= entries.len(),
            forall|k: u64|
                #[trigger] visible@.contains_key(k) <==> (exists|a: int| 0 <= a < i && entries@[a].0 == k)
                    && visible_scalar(env@, k),
            forall|k: u64| #[trigger] visible@.contains_key(k) ==> lookup(env@, k) == Some(visible@[k]@),
        decreases entries.len() - i,
    {
        let (k, stack) = entries[i];
        assert(env.values@.contains_key(entries@[i as int].0));
        assert(env.values@[k] == *stack);
        proof {
            crate::expr::lemma_model_seq_index(stack@);
        }
        if stack.len() > 0 {
            let scalar = match &stack[stack.len() - 1] {
                Expr::Number(_) | Expr::Bool(_) => true,
                _ => false,
            };
            if scalar {
                visible.insert(k, stack[stack.len() - 1].duplicate());
            }
        }
        proof {
            assert forall|k2: u64| #[trigger] visible@.contains_key(k2) <==> (exists|a: int| 0 <= a < i + 1 && entries@[a].0 == k2)
                    && visible_scalar(env@, k2) by {
                if k2 == k {
                    assert(entries@[i as int].0 == k2);
                } else if exists|a: int| 0 <= a < i + 1 && entries@[a].0 == k2 {
                    let a = choose|a: int| 0 <= a < i + 1 && entries@[a].0 == k2;
                    assert(a != i);
                }
            }
            assert forall|k2: u64| #[trigger] visible@.contains_key(k2) implies lookup(env@, k2) == Some(visible@[k2]@) by {
                if k2 == k {
                }
            }
        }
        i = i + 1;
    }
    proof {
        assert forall|k: u64| #[trigger] visible@.contains_key(k) <==> visible_scalar(env@, k) by {
            if lookup(env@, k) is Some {
                assert(env.values@.contains_key(k));
                let a = choose|a: int| 0 <= a < entries@.len() && #[trigger] entries@[a].0 == k;
                assert(exists|a: int| 0 <= a < i && entries@[a].0 == k);
            }
        }
    }
    visible
}

// ---------------------------------------------------------------------------
// Merging the environments of two tasks
// ---------------------------------------------------------------------------

/// How often `k` occurs in the layers before layer `i`.
pub open spec fn before(m: EnvModel, i: int, k: u64) -> nat {
    total_occ(m.layers.take(i), k)
}

/// The value that the first occurrence of `k` in layer `i` pushed.
pub open spec fn first_in_layer(m: EnvModel, i: int, k: u64) -> ExprModel {
    m.stacks[k][before(m, i, k) as int]
}

/// The value that the last occurrence of `k` in layer `i` pushed.
pub open spec fn last_in_layer(m: EnvModel, i: int, k: u64) -> ExprModel {
    m.stacks[k][before(m, i, k) + occ(m.layers[i], k) - 1]
}

/// `k` occurs in layer `i`.
pub open spec fn in_layer(m: EnvModel, i: int, k: u64) -> bool {
    0 <= i < m.layers.len() && occ(m.layers[i], k) > 0
}

/// Layer `i` of the merge of `x` and `y`: a key of `x`'s layer keeps its last
/// value there, unless `y` wins (`y_wins`) and its layer has the key too, where
/// `y`'s last value is kept; a key only in `y`'s layer keeps `y`'s last value
/// where `y` wins, and else its first.
pub open spec fn merged_layer(x: EnvModel, y: EnvModel, i: int, y_wins: bool) -> Map<u64, ExprModel> {
    Map::new(
        |k: u64| in_layer(x, i, k) || in_layer(y, i, k),
        |k: u64|
            if in_layer(x, i, k) {
                if y_wins && in_layer(y, i, k) {
                    last_in_layer(y, i, k)
                } else {
                    last_in_layer(x, i, k)
                }
            } else if y_wins {
                last_in_layer(y, i, k)
            } else {
                first_in_layer(y, i, k)
            },
    )
}

/// The value of `k` in layer `i` of the merge once `c` of its occurrences in
/// `y`'s layer `i` have been replayed over `x`'s layer.
pub open spec fn partial_merged(x: EnvModel, y: EnvModel, i: int, k: u64, y_wins: bool, c: nat) -> ExprModel {
    if in_layer(x, i, k) && !(y_wins && c > 0) {
        last_in_layer(x, i, k)
    } else if y_wins {
        y.stacks[k][before(y, i, k) + c - 1]
    } else {
        first_in_layer(y, i, k)
    }
}

/// The stacks of the merge: its first `n` layers pushed in order.
pub open spec fn merged_stacks(x: EnvModel, y: EnvModel, y_wins: bool, n: int) -> Map<
    u64,
    Seq<ExprModel>,
>
    decreases n,
{
    if n <= 0 {
        Map::empty()
    } else {
        push_scope(merged_stacks(x, y, y_wins, n - 1), merged_layer(x, y, n - 1, y_wins))
    }
}

pub proof fn lemma_before_next(m: EnvModel, i: int, k: u64)
    requires
        0 <= i < m.layers.len(),
    ensures
        before(m, i + 1, k) == before(m, i, k) + occ(m.layers[i], k),
{
    assert(m.layers.take(i + 1) =~= m.layers.take(i).push(m.layers[i]));
    lemma_total_occ_push(m.layers.take(i), m.layers[i], k);
}

/// The occurrences of `k` before layer `i`, plus those in it, are at most its
/// number of values.
proof fn lemma_before_bound(e: &Env, i: int, k: u64)
    requires
        e.wf(),
        0 <= i < e@.layers.len(),
    ensures
        before(e@, i, k) + occ(e@.layers[i], k) <= e.depth(k),
    decreases e@.layers.len() - i,
{
    lemma_before_next(e@, i, k);
    if i + 1 < e@.layers.len() {
        lemma_before_bound(e, i + 1, k);
        lemma_before_next(e@, i + 1, k);
    } else {
        assert(e@.layers.take(i + 1) =~= e@.layers);
        assert(e@.layers == e.hist());
        assert(total_occ(e.hist(), k) == e.depth(k));
    }
}

/// Merges the environments that two tasks produced, layer by layer (see
/// `merged_layer`); `y` wins where `id2 > id1`. The merged environment comes
/// with the larger of the two ids.
#[verifier::loop_isolation(false)]
pub fn merge_scope(a: (usize, &Env), b: (usize, &Env)) -> (r: (usize, Env))
    requires
        a.1.wf(),
        b.1.wf(),
    ensures
        r.0 == if a.0 >= b.0 {
            a.0
        } else {
            b.0
        },
        r.1.wf(),
        r.1@.layers.len() == if a.1@.layers.len() >= b.1@.layers.len() {
            a.1@.layers.len()
        } else {
            b.1@.layers.len()
        },
        forall|i: int|
            0 <= i < r.1@.layers.len() ==> lists_keys(
                #[trigger] r.1@.layers[i],
                merged_layer(a.1@, b.1@, i, b.0 > a.0).dom(),
            ),
        r.1@.stacks == merged_stacks(a.1@, b.1@, b.0 > a.0, r.1@.layers.len() as int),
{
    let (id1, x) = a;
    let (id2, y) = b;
    let ghost xm = x@;
    let ghost ym = y@;
    let y_wins = id2 > id1;
    let max_len = if x.scopes_history.len() >= y.scopes_history.len() {
        x.scopes_history.len()
    } else {
        y.scopes_history.len()
    };
    let mut merged = env_empty();
    let mut x_counters: IntMap<u64, usize> = intmap_with_capacity(0);
    let mut y_counters: IntMap<u64, usize> = intmap_with_capacity(0);
    let mut i: usize = 0;
    while i < max_len
        invariant
            i <= max_len,
            merged.wf(),
            merged@.layers.len() == i,
            forall|j: int|
                0 <= j < i ==> lists_keys(
                    #[trigger] merged@.layers[j],
                    merged_layer(xm, ym, j, y_wins).dom(),
                ),
            merged@.stacks == merged_stacks(xm, ym, y_wins, i as int),
            i <= xm.layers.len() ==> forall|k: u64|
                #[trigger] before(xm, i as int, k) == if x_counters@.contains_key(k) {
                    x_counters@[k] as nat
                } else {
                    0
                },
            i <= ym.layers.len() ==> forall|k: u64|
                #[trigger] before(ym, i as int, k) == if y_counters@.contains_key(k) {
                    y_counters@[k] as nat
                } else {
                    0
                },
        decreases max_len - i,
    {
        let mut map = env_create_scope();
        if i < x.scopes_history.len() {
            let layer = &x.scopes_history[i];
            let ghost l = layer@;
            assert(l == xm.layers[i as int]);
            let mut p: usize = 0;
            while p < layer.len()
                invariant
                    p <= layer.len(),
                    forall|k: u64|
                        #[trigger] x_counters@.contains_key(k) ==> x_counters@[k] as nat == before(xm, i as int, k) + occ(l.take(p as int), k),
                    forall|k: u64|
                        !#[trigger] x_counters@.contains_key(k) ==> before(xm, i as int, k) + occ(l.take(p as int), k) == 0,
                    forall|k: u64| #[trigger] map@.contains_key(k) <==> occ(l.take(p as int), k) > 0,
                    forall|k: u64|
                        #[trigger] map@.contains_key(k) ==> map@[k]@ == xm.stacks[k][before(xm, i as int, k) + occ(l.take(p as int), k) - 1],
                decreases layer.len() - p,
            {
                let name = layer[p];
                proof {
                    lemma_occ_prefix(l, p as int, name);
                    lemma_occ_prefix_le(l, p + 1, name);
                    lemma_before_bound(x, i as int, name);
                    assert(l.take(p + 1) == l.subrange(0, p + 1));
                    assert(l.take(p as int) == l.subrange(0, p as int));
                }
                let idx = match intmap_get(&x_counters, name) {
                    None => 0,
                    Some(c) => *c,
                };
                match intmap_get(&x.values, name) {
                    None => {},
                    Some(stack) => {
                        if idx < stack.len() {
                            proof {
                                crate::expr::lemma_model_seq_index(stack@);
                            }
                            intmap_insert(&mut map, name, stack[idx].duplicate());
                        }
                    },
                }
                intmap_insert(&mut x_counters, name, idx + 1);
                proof {
                    assert forall|k: u64| #[trigger] map@.contains_key(k) <==> occ(l.take(p + 1), k) > 0 by {
                        lemma_occ_prefix(l, p as int, k);
                        assert(l.take(p + 1) == l.subrange(0, p + 1));
                        assert(l.take(p as int) == l.subrange(0, p as int));
                    }
                    assert forall|k: u64| #[trigger] map@.contains_key(k) implies map@[k]@ == xm.stacks[k][before(xm, i as int, k) + occ(l.take(p + 1), k) - 1] by {
                        lemma_occ_prefix(l, p as int, k);
                        assert(l.take(p + 1) == l.subrange(0, p + 1));
                        assert(l.take(p as int) == l.subrange(0, p as int));
                    }
                    assert forall|k: u64| #[trigger] x_counters@.contains_key(k) implies x_counters@[k] as nat == before(xm, i as int, k) + occ(l.take(p + 1), k) by {
                        lemma_occ_prefix(l, p as int, k);
                        assert(l.take(p + 1) == l.subrange(0, p + 1));
                        assert(l.take(p as int) == l.subrange(0, p as int));
                    }
                    assert forall|k: u64| !#[trigger] x_counters@.contains_key(k) implies before(xm, i as int, k) + occ(l.take(p + 1), k) == 0 by {
                        lemma_occ_prefix(l, p as int, k);
                        assert(l.take(p + 1) == l.subrange(0, p + 1));
                        assert(l.take(p as int) == l.subrange(0, p as int));
                    }
                }
                p = p + 1;
            }
            proof {
                assert(l.take(p as int) =~= l);
                assert forall|k: u64| #[trigger] map@.contains_key(k) <==> in_layer(xm, i as int, k) by {}
                assert forall|k: u64| #[trigger] map@.contains_key(k) implies map@[k]@ == last_in_layer(xm, i as int, k) by {}
                assert forall|k: u64|
                    #[trigger] before(xm, i + 1, k) == if x_counters@.contains_key(k) {
                        x_counters@[k] as nat
                    } else {
                        0
                    } by {
                    lemma_before_next(xm, i as int, k);
                }
            }
        } else {
            assert forall|k: u64| #[trigger] map@.contains_key(k) <==> in_layer(xm, i as int, k) by {}
        }
        if i < y.scopes_history.len() {
            let layer = &y.scopes_history[i];
            let ghost l = layer@;
            assert(l == ym.layers[i as int]);
            let mut p: usize = 0;
            while p < layer.len()
                invariant
                    p <= layer.len(),
                    forall|k: u64|
                        #[trigger] y_counters@.contains_key(k) ==> y_counters@[k] as nat == before(ym, i as int, k) + occ(l.take(p as int), k),
                    forall|k: u64|
                        !#[trigger] y_counters@.contains_key(k) ==> before(ym, i as int, k) + occ(l.take(p as int), k) == 0,
                    forall|k: u64|
                        #[trigger] map@.contains_key(k) <==> (in_layer(xm, i as int, k) || occ(l.take(p as int), k) > 0),
                    forall|k: u64|
                        #[trigger] map@.contains_key(k) ==> map@[k]@ == partial_merged(xm, ym, i as int, k, y_wins, occ(l.take(p as int), k)),
                decreases layer.len() - p,
            {
                let name = layer[p];
                proof {
                    lemma_occ_prefix(l, p as int, name);
                    lemma_occ_prefix_le(l, p + 1, name);
                    lemma_before_bound(y, i as int, name);
                    assert(l.take(p + 1) == l.subrange(0, p + 1));
                    assert(l.take(p as int) == l.subrange(0, p as int));
                }
                let idx = match intmap_get(&y_counters, name) {
                    None => 0,
                    Some(c) => *c,
                };
                match intmap_get(&y.values, name) {
                    None => {},
                    Some(stack) => {
                        if idx < stack.len() {
                            proof {
                                crate::expr::lemma_model_seq_index(stack@);
                            }
                            let present = match intmap_get(&map, name) {
                                None => false,
                                Some(_) => true,
                            };
                            if !present || y_wins {
                                intmap_insert(&mut map, name, stack[idx].duplicate());
                            }
                        }
                    },
                }
                intmap_insert(&mut y_counters, name, idx + 1);
                proof {
                    assert forall|k: u64| #[trigger] map@.contains_key(k) <==> (in_layer(xm, i as int, k) || occ(l.take(p + 1), k) > 0) by {
                        lemma_occ_prefix(l, p as int, k);
                        assert(l.take(p + 1) == l.subrange(0, p + 1));
                        assert(l.take(p as int) == l.subrange(0, p as int));
                    }
                    assert forall|k: u64| #[trigger] map@.contains_key(k) implies map@[k]@ == partial_merged(xm, ym, i as int, k, y_wins, occ(l.take(p + 1), k)) by {
                        lemma_occ_prefix(l, p as int, k);
                        assert(l.take(p + 1) == l.subrange(0, p + 1));
                        assert(l.take(p as int) == l.subrange(0, p as int));
                    }
                    assert forall|k: u64| #[trigger] y_counters@.contains_key(k) implies y_counters@[k] as nat == before(ym, i as int, k) + occ(l.take(p + 1), k) by {
                        lemma_occ_prefix(l, p as int, k);
                        assert(l.take(p + 1) == l.subrange(0, p + 1));
                        assert(l.take(p as int) == l.subrange(0, p as int));
                    }
                    assert forall|k: u64| !#[trigger] y_counters@.contains_key(k) implies before(ym, i as int, k) + occ(l.take(p + 1), k) == 0 by {
                        lemma_occ_prefix(l, p as int, k);
                        assert(l.take(p + 1) == l.subrange(0, p + 1));
                        assert(l.take(p as int) == l.subrange(0, p as int));
                    }
                }
                p = p + 1;
            }
            proof {
                assert(l.take(p as int) =~= l);
                assert forall|k: u64| #[trigger] map@.contains_key(k) <==> merged_layer(xm, ym, i as int, y_wins).contains_key(k) by {}
                assert forall|k: u64| #[trigger] map@.contains_key(k) implies map@[k]@ == merged_layer(xm, ym, i as int, y_wins)[k] by {}
                assert forall|k: u64|
                    #[trigger] before(ym, i + 1, k) == if y_counters@.contains_key(k) {
                        y_counters@[k] as nat
                    } else {
                        0
                    } by {
                    lemma_before_next(ym, i as int, k);
                }
            }
        } else {
            proof {
                assert forall|k: u64| #[trigger] map@.contains_key(k) <==> merged_layer(xm, ym, i as int, y_wins).contains_key(k) by {}
                assert forall|k: u64| #[trigger] map@.contains_key(k) implies map@[k]@ == merged_layer(xm, ym, i as int, y_wins)[k] by {}
            }
        }
        let ghost layer_map = scope_model(map@);
        let ghost before_add = merged@;
        proof {
            assert(layer_map =~= merged_layer(xm, ym, i as int, y_wins));
        }
        env_add_scope(&mut merged, map);
        proof {
            assert(merged_stacks(xm, ym, y_wins, i + 1) == push_scope(
                merged_stacks(xm, ym, y_wins, i as int),
                merged_layer(xm, ym, i as int, y_wins),
            ));
            assert forall|j: int|
                0 <= j < i + 1 implies lists_keys(
                    #[trigger] merged@.layers[j],
                    merged_layer(xm, ym, j, y_wins).dom(),
                ) by {
                if j < i {
                    assert(merged@.layers[j] == merged@.layers.drop_last()[j]);
                }
            }
        }
        i = i + 1;
    }
    (if id1 >= id2 { id1 } else { id2 }, merged)
}

// ---------------------------------------------------------------------------
// Laws
// ---------------------------------------------------------------------------

/// Every key the view of an environment has a stack for has at least one value.
pub proof fn lemma_view_stacks_nonempty(e: &Env)
    ensures
        forall|k: u64| #[trigger] e@.stacks.contains_key(k) ==> e@.stacks[k].len() > 0,
{
    assert forall|k: u64| #[trigger] e@.stacks.contains_key(k) implies e@.stacks[k].len() > 0 by {
        crate::expr::lemma_model_seq_index(e.values@[k]@);
    }
}

/// Entering a scope and leaving it again gives back the stacks of the
/// environment: the values the scope pushed are exactly those popped.
pub proof fn law_enter_then_leave_scope(e: &Env, scope: Map<u64, ExprModel>, l: Seq<u64>)
    requires
        lists_keys(l, scope.dom()),
    ensures
        pop_layer(push_scope(e@.stacks, scope), l) == e@.stacks,
        e@.layers.push(l).drop_last() == e@.layers,
{
    lemma_view_stacks_nonempty(e);
    let pushed = push_scope(e@.stacks, scope);
    let popped = pop_layer(pushed, l);
    assert forall|k: u64| #[trigger] popped.contains_key(k) <==> e@.stacks.contains_key(k) by {
        lemma_occ_distinct(l, k);
    }
    assert forall|k: u64| #[trigger] popped.contains_key(k) implies popped[k] == e@.stacks[k] by {
        lemma_occ_distinct(l, k);
        assert(popped[k] =~= e@.stacks[k]);
    }
    assert(popped =~= e@.stacks);
    assert(e@.layers.push(l).drop_last() =~= e@.layers);
}

/// After a scope is entered, a variable the scope binds is seen with the
/// scope's value; any other variable is seen as before.
pub proof fn law_lookup_after_enter_scope(
    m: EnvModel,
    scope: Map<u64, ExprModel>,
    layers: Seq<Seq<u64>>,
    k: u64,
)
    ensures
        lookup(EnvModel { stacks: push_scope(m.stacks, scope), layers }, k) == if scope.contains_key(k) {
            Some(scope[k])
        } else {
            lookup(m, k)
        },
{
}

/// After a declaration, the declared variable is seen with its new value and
/// every other variable as before.
pub proof fn law_lookup_after_declare(m: EnvModel, layers: Seq<Seq<u64>>, key: u64, v: ExprModel, k: u64)
    ensures
        lookup(EnvModel { stacks: push_stack(m.stacks, key, v), layers }, k) == if k == key {
            Some(v)
        } else {
            lookup(m, k)
        },
{
}

/// After an assignment to a visible variable, it is seen with the assigned
/// value and every other variable as before.
pub proof fn law_lookup_after_assign(m: EnvModel, key: u64, v: ExprModel, k: u64)
    requires
        lookup(m, key) is Some,
    ensures
        lookup(
            EnvModel {
                stacks: m.stacks.insert(key, m.stacks[key].update(m.stacks[key].len() - 1, v)),
                layers: m.layers,
            },
            k,
        ) == if k == key {
            Some(v)
        } else {
            lookup(m, k)
        },
{
}

/// Equal stacks show every variable alike.
pub proof fn lemma_same_stacks_same_lookups(m1: EnvModel, m2: EnvModel)
    requires
        m1.stacks == m2.stacks,
    ensures
        forall|k: u64| #[trigger] lookup(m1, k) == lookup(m2, k),
{
}

/// A declaration made in a scope goes with it: entering a scope, declaring a
/// variable in it (see `env_declare_key`) and leaving the scope gives back the
/// stacks, and so the visible values, of the environment before.
pub proof fn law_declare_in_scope_then_leave(e: &Env, scope: Map<u64, ExprModel>, l: Seq<u64>, key: u64, v: ExprModel)
    requires
        lists_keys(l, scope.dom()),
    ensures
        pop_layer(push_stack(push_scope(e@.stacks, scope), key, v), l.push(key)) == e@.stacks,
        forall|k: u64|
            #[trigger] lookup(
                EnvModel {
                    stacks: pop_layer(push_stack(push_scope(e@.stacks, scope), key, v), l.push(key)),
                    layers: e@.layers,
                },
                k,
            ) == lookup(e@, k),
{
    lemma_view_stacks_nonempty(e);
    let pushed = push_stack(push_scope(e@.stacks, scope), key, v);
    let popped = pop_layer(pushed, l.push(key));
    assert forall|k: u64| #[trigger] popped.contains_key(k) <==> e@.stacks.contains_key(k) by {
        lemma_occ_distinct(l, k);
        lemma_occ_push(l, key, k);
    }
    assert forall|k: u64| #[trigger] popped.contains_key(k) implies popped[k] == e@.stacks[k] by {
        lemma_occ_distinct(l, k);
        lemma_occ_push(l, key, k);
        assert(popped[k] =~= e@.stacks[k]);
    }
    assert(popped =~= e@.stacks);
    lemma_same_stacks_same_lookups(EnvModel { stacks: popped, layers: e@.layers }, e@);
}

/// Entering a scope and leaving it again shows every variable as before.
pub proof fn law_lookup_after_enter_then_leave(e: &Env, scope: Map<u64, ExprModel>, l: Seq<u64>, k: u64)
    requires
        lists_keys(l, scope.dom()),
    ensures
        lookup(EnvModel { stacks: pop_layer(push_scope(e@.stacks, scope), l), layers: e@.layers }, k) == lookup(
            e@,
            k,
        ),
{
    law_enter_then_leave_scope(e, scope, l);
}

/// An assignment reaches only the innermost value: entering a scope that binds
/// `key`, assigning `key` (see `env_assign_key`) and leaving the scope gives
/// back the stacks, and so the visible values, of the environment before.
pub proof fn law_assign_in_scope_then_leave(e: &Env, scope: Map<u64, ExprModel>, l: Seq<u64>, key: u64, v: ExprModel)
    requires
        lists_keys(l, scope.dom()),
        scope.contains_key(key),
    ensures
        ({
            let inner = push_scope(e@.stacks, scope);
            pop_layer(inner.insert(key, inner[key].update(inner[key].len() - 1, v)), l) == e@.stacks
        }),
{
    lemma_view_stacks_nonempty(e);
    let inner = push_scope(e@.stacks, scope);
    let assigned = inner.insert(key, inner[key].update(inner[key].len() - 1, v));
    let popped = pop_layer(assigned, l);
    assert forall|k: u64| #[trigger] popped.contains_key(k) <==> e@.stacks.contains_key(k) by {
        lemma_occ_distinct(l, k);
    }
    assert forall|k: u64| #[trigger] popped.contains_key(k) implies popped[k] == e@.stacks[k] by {
        lemma_occ_distinct(l, k);
        assert(popped[k] =~= e@.stacks[k]);
    }
    assert(popped =~= e@.stacks);
}

/// Merging the environments of two tasks (see `merge_scope`) in either order
/// gives the same stacks, and so the same visible values, wherever a variable
/// that only the environment of the task with the smaller index, `x`, binds in
/// a scope has the same first and last value there: in particular where `x`
/// binds it once in that scope. (Where the two differ, one order keeps the
/// first value and the other the last, and the merged layers differ.)
pub proof fn law_merge_either_order(x: EnvModel, y: EnvModel, n: int)
    requires
        forall|i: int, k: u64|
            0 <= i < n && #[trigger] in_layer(x, i, k) && !in_layer(y, i, k) ==> first_in_layer(x, i, k)
                == last_in_layer(x, i, k),
    ensures
        merged_stacks(x, y, true, n) == merged_stacks(y, x, false, n),
        forall|i: int| 0 <= i < n ==> #[trigger] merged_layer(x, y, i, true) == merged_layer(y, x, i, false),
    decreases n,
{
    if n > 0 {
        law_merge_either_order(x, y, n - 1);
        let i = n - 1;
        let a = merged_layer(x, y, i, true);
        let b = merged_layer(y, x, i, false);
        assert forall|k: u64| #[trigger] a.contains_key(k) implies a[k] == b[k] by {
            if in_layer(x, i, k) && !in_layer(y, i, k) {
                assert(first_in_layer(x, i, k) == last_in_layer(x, i, k));
            }
        }
        assert(a =~= b);
    }
}

/// A variable that the environment of the smaller task binds at most once in
/// a scope has the same first and last value there, so the merge in either
/// order agrees on it (see `law_merge_either_order`).
pub proof fn lemma_single_binding(x: EnvModel, i: int, k: u64)
    requires
        in_layer(x, i, k),
        occ(x.layers[i], k) <= 1,
    ensures
        first_in_layer(x, i, k) == last_in_layer(x, i, k),
{
}

} // verus!
