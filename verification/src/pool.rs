//! The code pool: the set of correlation codes that are not currently
//! claimed by any game connection.
//!
//! A code is an opaque short string token drawn from a fixed universe fixed
//! at startup.  The pool supports an atomic take (`claim`) and an atomic
//! reinsert (`release`); a claimed code lives in the pairing registry until
//! its game leg disconnects.

use vstd::prelude::*;

verus! {

/// The set of currently unclaimed codes, held as a duplicate-free vector.
///
/// `claim` removes an arbitrary element (the callers treat codes as
/// interchangeable), `release` reinserts one.  The surrounding process wraps
/// the pool in one exclusion mechanism, so each method call is one atomic
/// step of the shared state.
pub struct CodePool {
    codes: Vec<String>,
}

impl View for CodePool {
    type V = Seq<Seq<char>>;

    closed spec fn view(&self) -> Seq<Seq<char>> {
        self.codes@.map_values(|s: String| s@)
    }
}

/// Relates a pool before a `claim`, the pool after it, and the result:
/// exactly the contract of `claim`, written once so that laws about
/// successive claims can quantify over it.
pub open spec fn claim_post(pre: CodePool, post: CodePool, r: Option<String>) -> bool {
    &&& post.wf()
    &&& if pre@.len() == 0 {
        r is None && post@ == pre@
    } else {
        &&& r is Some
        &&& r->0@ == pre@.last()
        &&& post@ == pre@.drop_last()
    }
}

impl CodePool {
    /// No code occurs twice.
    pub open spec fn wf(&self) -> bool {
        self@.no_duplicates()
    }

    /// Whether `c` is an unclaimed code.
    pub open spec fn has(&self, c: Seq<char>) -> bool {
        self@.contains(c)
    }

    /// The unclaimed codes as a set.
    pub open spec fn as_set(&self) -> Set<Seq<char>> {
        self@.to_set()
    }

    /// An empty pool.
    pub fn empty() -> (pool: CodePool)
        ensures
            pool.wf(),
            pool@ == Seq::<Seq<char>>::empty(),
    {
        CodePool { codes: Vec::new() }
    }

    /// Builds the pool from the configured universe of codes, dropping
    /// duplicates so that the pool invariant holds whatever was configured.
    pub fn from_universe(universe: Vec<String>) -> (pool: CodePool)
        ensures
            pool.wf(),
            forall|c: Seq<char>| pool.has(c) <==> universe@.map_values(|s: String| s@).contains(c),
    {
        let ghost uni = universe@.map_values(|s: String| s@);
        let mut pool = CodePool { codes: Vec::new() };
        let mut i: usize = 0;
        while i < universe.len()
            invariant
                i <= universe@.len(),
                uni == universe@.map_values(|s: String| s@),
                pool.wf(),
                forall|c: Seq<char>| pool.has(c) <==> uni.subrange(0, i as int).contains(c),
            decreases universe@.len() - i,
        {
            let code = universe[i].clone();
            let ghost prefix = uni.subrange(0, i as int);
            let ghost pool_pre = pool;
            assert(code@ == uni[i as int]);
            let present = pool.contains_code(&code);
            if !present {
                pool.release(code);
            }
            assert forall|c: Seq<char>| pool.has(c) <==> pool_pre.has(c) || c == uni[i as int] by {
                if !present {
                    let post = pool_pre@.push(code@);
                    assert(pool@ == post);
                    if pool_pre.has(c) {
                        let j = choose|j: int| 0 <= j < pool_pre@.len() && pool_pre@[j] == c;
                        assert(post[j] == c);
                    }
                    if c == uni[i as int] {
                        assert(post[post.len() - 1] == c);
                    }
                    if pool.has(c) {
                        let j = choose|j: int| 0 <= j < post.len() && post[j] == c;
                        if j < pool_pre@.len() {
                            assert(pool_pre@[j] == c);
                        }
                    }
                }
            }
            assert forall|c: Seq<char>| pool.has(c) <==> uni.subrange(0, i + 1 as int).contains(c) by {
                let next = uni.subrange(0, i + 1 as int);
                if pool.has(c) {
                    if c == uni[i as int] {
                        assert(next[i as int] == c);
                    } else {
                        assert(prefix.contains(c));
                        let j = choose|j: int| 0 <= j < prefix.len() && prefix[j] == c;
                        assert(next[j] == c);
                    }
                }
                if next.contains(c) {
                    let j = choose|j: int| 0 <= j < next.len() && next[j] == c;
                    if j < i as int {
                        assert(prefix[j] == c);
                    } else {
                        assert(c == uni[i as int]);
                    }
                }
            }
            i = i + 1;
        }
        assert(uni.subrange(0, uni.len() as int) == uni);
        pool
    }

    /// How many codes are unclaimed.
    pub fn len(&self) -> (n: usize)
        ensures
            n == self@.len(),
    {
        self.codes.len()
    }

    /// Whether the pool currently holds `code`.
    pub fn contains_code(&self, code: &String) -> (r: bool)
        ensures
            r == self.has(code@),
    {
        let mut i: usize = 0;
        while i < self.codes.len()
            invariant
                i <= self.codes@.len(),
                forall|j: int| 0 <= j < i ==> self.codes@[j]@ != code@,
            decreases self.codes@.len() - i,
        {
            if self.codes[i] == *code {
                assert(self@[i as int] == code@);
                return true;
            }
            i = i + 1;
        }
        assert forall|j: int| 0 <= j < self@.len() implies self@[j] != code@ by {
            assert(self@[j] == self.codes@[j]@);
        }
        false
    }

    /// Atomically removes and returns an arbitrary unclaimed code, or `None`
    /// if every code is claimed.  `None` signals exhaustion, not an error:
    /// the caller must refuse the new game connection.
    pub fn claim(&mut self) -> (r: Option<String>)
        requires
            old(self).wf(),
        ensures
            claim_post(*old(self), *final(self), r),
            r is Some ==> old(self).has(r->0@) && !final(self).has(r->0@),
    {
        let ghost pre = self@;
        let ghost pre_codes = self.codes@;
        let r = self.codes.pop();
        match r {
            Some(code) => {
                assert(self@ =~= pre.drop_last()) by {
                    assert(forall|j: int|
                        0 <= j < self@.len() ==> self@[j] == self.codes@[j]@ && pre[j]
                            == pre_codes[j]@);
                }
                assert(pre.last() == code@) by {
                    assert(pre[pre.len() - 1] == pre_codes[pre.len() - 1]@);
                }
                assert(pre.contains(code@)) by {
                    assert(pre[pre.len() - 1] == code@);
                }
                assert(!self@.contains(code@)) by {
                    if self@.contains(code@) {
                        let j = choose|j: int| 0 <= j < self@.len() && self@[j] == code@;
                        assert(pre[j] == pre[pre.len() - 1]);
                    }
                }
                Some(code)
            },
            None => {
                assert(self@ == pre);
                None
            },
        }
    }

    /// Atomically reinserts a released code.  The caller must not release a
    /// code that is still unclaimed (under the conservation invariant, a
    /// code is released only while absent from the pool).
    pub fn release(&mut self, code: String)
        requires
            old(self).wf(),
            !old(self).has(code@),
        ensures
            final(self).wf(),
            final(self)@ == old(self)@.push(code@),
    {
        let ghost pre = self@;
        self.codes.push(code);
        assert(self@ == pre.push(code@)) by {
            assert(self.codes@.drop_last() == old(self).codes@);
            assert forall|j: int| 0 <= j < self@.len() implies self@[j] == pre.push(code@)[j] by {
                assert(self@[j] == self.codes@[j]@);
            }
            assert(self@ =~= pre.push(code@));
        }
        assert(final(self)@.no_duplicates()) by {
            let post = pre.push(code@);
            assert forall|i: int, j: int|
                0 <= i < post.len() && 0 <= j < post.len() && i != j implies post[i] != post[j] by {
                if i < pre.len() && j < pre.len() {
                } else if i < pre.len() {
                    assert(post[j] == code@ && post[i] == pre[i]);
                    assert(pre.contains(pre[i]));
                } else {
                    assert(post[i] == code@ && post[j] == pre[j]);
                    assert(pre.contains(pre[j]));
                }
            }
        }
    }
}

impl CodePool {
    /// The set view agrees with the sequence view: same members, and — the
    /// pool being duplicate-free — the same count.
    pub proof fn lemma_as_set_facts(&self)
        requires
            self.wf(),
        ensures
            self.as_set().finite(),
            self.as_set().len() == self@.len(),
            forall|c: Seq<char>| #[trigger] self.as_set().contains(c) <==> self.has(c),
    {
        broadcast use vstd::seq_lib::seq_to_set_is_finite;

        self@.unique_seq_to_set();
    }
}

/// Uniqueness of claims: while unclaimed codes remain, no two claims on the
/// pool return the same code.  Claims are serialized by the pool's exclusion
/// mechanism, so any two concurrent successful claims are two successive
/// `claim` steps, and the first removes the code it returns.
pub proof fn lemma_claim_uniqueness(
    p0: CodePool,
    p1: CodePool,
    r1: Option<String>,
    p2: CodePool,
    r2: Option<String>,
)
    requires
        p0.wf(),
        claim_post(p0, p1, r1),
        claim_post(p1, p2, r2),
        r1 is Some,
        r2 is Some,
    ensures
        r1->0@ != r2->0@,
{
    let c1 = r1->0@;
    let c2 = r2->0@;
    assert(p1@ == p0@.drop_last());
    assert(c1 == p0@.last());
    assert(p1@.len() > 0);
    assert(c2 == p1@.last());
    assert(p1@.contains(c2)) by {
        assert(p1@[p1@.len() - 1] == c2);
    }
    if c1 == c2 {
        let j = choose|j: int| 0 <= j < p1@.len() && p1@[j] == c2;
        assert(p0@[j] == p0@[p0@.len() - 1]);
    }
}

} // verus!
