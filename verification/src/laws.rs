//! Conservation of codes across the pool and the registry.
//!
//! While the system runs over a fixed universe of codes, every code is
//! either unclaimed (in the pool) or in use (a registry key) — never both,
//! never neither.  Each shared-state step a leg performs preserves this, so
//! at any quiescent point the pool and the registry partition the universe.

use vstd::prelude::*;

use crate::game_leg::close_post;
use crate::pool::CodePool;
use crate::pool::claim_post;
use crate::registry::PairingRegistry;
use crate::registry::register_post;

verus! {

/// The conservation invariant: the unclaimed codes and the registered
/// codes partition the universe.
pub open spec fn conserved(pool: CodePool, reg: PairingRegistry, universe: Set<Seq<char>>) -> bool {
    &&& forall|c: Seq<char>|
        #[trigger] universe.contains(c) <==> pool.has(c) || reg.contains_code(c)
    &&& forall|c: Seq<char>| !(#[trigger] pool.has(c) && reg.contains_code(c))
}

/// At startup the invariant holds: a pool stocked from the configured
/// universe, beside an empty registry, partitions that universe.
pub proof fn lemma_initial_conservation(pool: CodePool, reg: PairingRegistry, u: Seq<Seq<char>>)
    requires
        forall|c: Seq<char>| #[trigger] pool.has(c) <==> u.contains(c),
        forall|c: Seq<char>| !#[trigger] reg.contains_code(c),
    ensures
        conserved(pool, reg, u.to_set()),
{
    broadcast use vstd::set::group_set_axioms;

}

/// A partition of a finite universe splits its cardinality: the sizes of
/// two disjoint finite sets add up to the size of their union.
proof fn lemma_disjoint_union_len<A>(s1: Set<A>, s2: Set<A>)
    requires
        s1.finite(),
        s2.finite(),
        forall|x: A| !(#[trigger] s1.contains(x) && s2.contains(x)),
    ensures
        s1.union(s2).finite(),
        s1.union(s2).len() == s1.len() + s2.len(),
    decreases s1.len(),
{
    broadcast use vstd::set::group_set_axioms;

    if s1.len() == 0 {
        assert(s1 =~= Set::<A>::empty()) by {
            if exists|x: A| s1.contains(x) {
                let x = choose|x: A| s1.contains(x);
                assert(s1.remove(x).len() + 1 == s1.len());
            }
        }
        assert(s1.union(s2) =~= s2);
    } else {
        let a = s1.choose();
        assert(s1.contains(a)) by {
            if forall|x: A| !#[trigger] s1.contains(x) {
                assert(s1 =~= Set::<A>::empty());
            }
        }
        let s1r = s1.remove(a);
        assert(s1r.union(s2) =~= s1.union(s2).remove(a));
        lemma_disjoint_union_len(s1r, s2);
        assert(s1.union(s2).contains(a));
        assert(s1.union(s2) =~= s1r.union(s2).insert(a));
    }
}

/// Conservation counted: at any point where the invariant holds,
/// `|pool| + |registry keys| == |universe|`.
pub proof fn lemma_conservation_count(
    pool: CodePool,
    reg: PairingRegistry,
    universe: Set<Seq<char>>,
)
    requires
        pool.wf(),
        reg.wf(),
        conserved(pool, reg, universe),
    ensures
        universe.finite(),
        pool@.len() + reg.num_codes() == universe.len(),
{
    pool.lemma_as_set_facts();
    reg.lemma_key_set_facts();
    let ps = pool.as_set();
    let ks = reg.key_set();
    assert(universe =~= ps.union(ks));
    lemma_disjoint_union_len(ps, ks);
}

/// Opening a game leg conserves the codes: a claim followed by the
/// registration of the claimed code moves one code from the pool to the
/// registry and touches nothing else.
pub proof fn lemma_open_conserves(
    p0: CodePool,
    p1: CodePool,
    r: Option<String>,
    g0: PairingRegistry,
    g1: PairingRegistry,
    universe: Set<Seq<char>>,
)
    requires
        p0.wf(),
        g0.wf(),
        conserved(p0, g0, universe),
        claim_post(p0, p1, r),
        r is Some,
        register_post(g0, g1, r->0@),
    ensures
        conserved(p1, g1, universe),
{
    let c = r->0@;
    assert(p0@.len() > 0);
    assert(p0.has(c)) by {
        assert(p0@[p0@.len() - 1] == c);
    }
    assert(!p1.has(c)) by {
        assert(p1@ == p0@.drop_last());
        if exists|j: int| 0 <= j < p1@.len() && p1@[j] == c {
            let j = choose|j: int| 0 <= j < p1@.len() && p1@[j] == c;
            assert(p1@[j] == p0@[j]);
            assert(p0@.no_duplicates());
            assert(0 <= j < p0@.len() && 0 <= p0@.len() - 1 < p0@.len() && j != p0@.len() - 1);
            assert(p0@[j] != p0@[p0@.len() - 1]);
        }
        assert(forall|j: int| 0 <= j < p1@.len() ==> p1@[j] != c);
    }
    assert forall|d: Seq<char>| d != c implies (#[trigger] p1.has(d) <==> p0.has(d)) by {
        if p1.has(d) {
            let j = choose|j: int| 0 <= j < p1@.len() && p1@[j] == d;
            assert(p0@[j] == d);
        }
        if p0.has(d) {
            let j = choose|j: int| 0 <= j < p0@.len() && p0@[j] == d;
            assert(j != p0@.len() - 1);
            assert(p1@[j] == d);
        }
    }
    assert forall|d: Seq<char>| d != c implies (#[trigger] g1.contains_code(d)
        <==> g0.contains_code(d)) by {
        assert(g1.entry(d) == g0.entry(d));
    }
    assert(g1.contains_code(c));
}

/// Closing a game leg conserves the codes: removing the entry and
/// releasing its code moves the code from the registry back to the pool
/// and touches nothing else.  The code must belong to the universe — it
/// does, having once been claimed from the pool.
pub proof fn lemma_close_conserves(
    p0: CodePool,
    p1: CodePool,
    g0: PairingRegistry,
    g1: PairingRegistry,
    c: Seq<char>,
    universe: Set<Seq<char>>,
)
    requires
        p0.wf(),
        g0.wf(),
        conserved(p0, g0, universe),
        close_post(p0, p1, g0, g1, c),
        universe.contains(c),
    ensures
        conserved(p1, g1, universe),
{
    assert forall|d: Seq<char>| d != c implies (#[trigger] g1.contains_code(d)
        <==> g0.contains_code(d)) by {
        assert(g1.entry(d) == g0.entry(d));
    }
}

} // verus!
