//! The pairing registry: the shared map from an in-use code to the two
//! relay endpoints associated with it.
//!
//! A game leg inserts a half-open entry (game channel only) at claim time;
//! the recognition bridge completes the pairing by attaching the telephony
//! leg's reverse channel, at most once per entry; the game leg removes the
//! entry on disconnect.  The surrounding process serializes every operation
//! through one exclusion mechanism, so each method call is one atomic step.

use vstd::prelude::*;

use crate::channels::try_send_game;
use crate::channels::try_send_telephony;
use crate::relay::RelayMessage;

verus! {

/// One pairing entry: the sender halves of the relay channels of the two
/// legs sharing a code.  The game channel is present from creation and
/// immutable; the telephony channel is absent until a spoken-code match
/// attaches it, and is never cleared while the entry lives.
pub struct GameTwilioTxs {
    pub game_tx: async_channel::Sender<RelayMessage>,
    pub twilio_tx: Option<crossbeam_channel::Sender<RelayMessage>>,
}

/// The registry itself: an association list keyed by code, with no key
/// occurring twice.  The map stays small (tens of codes), so linear
/// operations are the simple, race-free choice.
pub struct PairingRegistry {
    entries: Vec<(String, GameTwilioTxs)>,
}

/// The keys of an entry sequence, in entry order.
pub open spec fn keys_of(s: Seq<(String, GameTwilioTxs)>) -> Seq<Seq<char>> {
    s.map_values(|e: (String, GameTwilioTxs)| e.0@)
}

/// First-match association lookup; with duplicate-free keys, the match.
pub open spec fn lookup(s: Seq<(String, GameTwilioTxs)>, c: Seq<char>) -> Option<GameTwilioTxs>
    decreases s.len(),
{
    if s.len() == 0 {
        None
    } else if s[0].0@ == c {
        Some(s[0].1)
    } else {
        lookup(s.drop_first(), c)
    }
}

impl PairingRegistry {
    /// The registered codes, in entry order.
    pub closed spec fn keys(&self) -> Seq<Seq<char>> {
        keys_of(self.entries@)
    }

    /// The entry registered under `c`, if any.
    pub closed spec fn entry(&self, c: Seq<char>) -> Option<GameTwilioTxs> {
        lookup(self.entries@, c)
    }

    /// No code is registered twice.
    pub open spec fn wf(&self) -> bool {
        self.keys().no_duplicates()
    }

    /// Whether an entry exists for `c`.
    pub open spec fn contains_code(&self, c: Seq<char>) -> bool {
        self.entry(c) is Some
    }

    /// Whether the entry for `c` exists and has its telephony channel.
    pub open spec fn attached(&self, c: Seq<char>) -> bool {
        self.entry(c) is Some && self.entry(c)->0.twilio_tx is Some
    }

    /// The telephony channel attached under `c`, if any.
    pub open spec fn telephony_of(&self, c: Seq<char>) -> Option<
        crossbeam_channel::Sender<RelayMessage>,
    > {
        if self.entry(c) is Some {
            self.entry(c)->0.twilio_tx
        } else {
            None
        }
    }

    /// The game channel registered under `c`, if any.
    pub open spec fn game_of(&self, c: Seq<char>) -> Option<async_channel::Sender<RelayMessage>> {
        if self.entry(c) is Some {
            Some(self.entry(c)->0.game_tx)
        } else {
            None
        }
    }

    /// How many codes are registered.
    pub open spec fn num_codes(&self) -> nat {
        self.keys().len()
    }

    /// The registered codes as a set.
    pub open spec fn key_set(&self) -> Set<Seq<char>> {
        self.keys().to_set()
    }
}

/// Dropping the first entry drops the first key and keeps the keys
/// duplicate-free.
proof fn lemma_keys_drop_first(s: Seq<(String, GameTwilioTxs)>)
    requires
        s.len() > 0,
        keys_of(s).no_duplicates(),
    ensures
        keys_of(s.drop_first()) =~= keys_of(s).drop_first(),
        keys_of(s.drop_first()).no_duplicates(),
{
    assert(keys_of(s.drop_first()) =~= keys_of(s).drop_first());
    let d = keys_of(s).drop_first();
    assert forall|a: int, b: int|
        0 <= a < d.len() && 0 <= b < d.len() && a != b implies d[a] != d[b] by {
        assert(d[a] == keys_of(s)[a + 1] && d[b] == keys_of(s)[b + 1]);
    }
}

/// Lookup finds exactly the keys: an entry exists for `c` iff `c` occurs in
/// the key sequence.
proof fn lemma_lookup_contains(s: Seq<(String, GameTwilioTxs)>, c: Seq<char>)
    ensures
        (lookup(s, c) is Some) <==> keys_of(s).contains(c),
    decreases s.len(),
{
    if s.len() == 0 {
        assert(!keys_of(s).contains(c)) by {
            if keys_of(s).contains(c) {
                let j = choose|j: int| 0 <= j < keys_of(s).len() && keys_of(s)[j] == c;
            }
        }
    } else if s[0].0@ == c {
        assert(keys_of(s)[0] == c);
    } else {
        lemma_lookup_contains(s.drop_first(), c);
        assert(keys_of(s.drop_first()) =~= keys_of(s).drop_first());
        if keys_of(s).contains(c) {
            let j = choose|j: int| 0 <= j < keys_of(s).len() && keys_of(s)[j] == c;
            assert(j != 0);
            assert(keys_of(s).drop_first()[j - 1] == c);
        }
        if keys_of(s).drop_first().contains(c) {
            let j = choose|j: int|
                0 <= j < keys_of(s).drop_first().len() && keys_of(s).drop_first()[j] == c;
            assert(keys_of(s)[j + 1] == c);
        }
    }
}

/// With duplicate-free keys, lookup of the `i`-th key yields the `i`-th
/// entry.
proof fn lemma_lookup_index(s: Seq<(String, GameTwilioTxs)>, i: int)
    requires
        0 <= i < s.len(),
        keys_of(s).no_duplicates(),
    ensures
        lookup(s, s[i].0@) == Some(s[i].1),
    decreases s.len(),
{
    if i == 0 {
    } else {
        assert(keys_of(s)[0] != keys_of(s)[i]);
        assert(s[0].0@ != s[i].0@);
        lemma_keys_drop_first(s);
        lemma_lookup_index(s.drop_first(), i - 1);
        assert(s.drop_first()[i - 1] == s[i]);
    }
}

/// Appending a fresh entry leaves every other lookup unchanged and makes
/// the new key found.
proof fn lemma_lookup_push(
    s: Seq<(String, GameTwilioTxs)>,
    e: (String, GameTwilioTxs),
    c: Seq<char>,
)
    ensures
        lookup(s.push(e), c) == if lookup(s, c) is Some {
            lookup(s, c)
        } else if e.0@ == c {
            Some(e.1)
        } else {
            None
        },
    decreases s.len(),
{
    if s.len() == 0 {
        assert(s.push(e)[0] == e);
        let emp = Seq::<(String, GameTwilioTxs)>::empty();
        assert(lookup(s, c) is None);
        if e.0@ == c {
            assert(lookup(s.push(e), c) == Some(e.1));
        } else {
            assert(s.push(e).drop_first() =~= emp);
            assert(lookup(emp, c) is None);
            assert(lookup(s.push(e), c) is None);
        }
    } else {
        assert(s.push(e)[0] == s[0]);
        if s[0].0@ == c {
        } else {
            assert(s.push(e).drop_first() =~= s.drop_first().push(e));
            lemma_lookup_push(s.drop_first(), e, c);
        }
    }
}

/// A key-preserving update at index `i` changes only the lookup of that
/// key.
proof fn lemma_lookup_update(
    s: Seq<(String, GameTwilioTxs)>,
    i: int,
    e: (String, GameTwilioTxs),
    c: Seq<char>,
)
    requires
        0 <= i < s.len(),
        keys_of(s).no_duplicates(),
        e.0@ == s[i].0@,
    ensures
        lookup(s.update(i, e), c) == if s[i].0@ == c {
            Some(e.1)
        } else {
            lookup(s, c)
        },
    decreases s.len(),
{
    lemma_keys_drop_first(s);
    if i == 0 {
        assert(s.update(0, e)[0] == e);
        if s[0].0@ == c {
        } else {
            assert(s.update(0, e).drop_first() =~= s.drop_first());
        }
    } else {
        assert(s.update(i, e)[0] == s[0]);
        assert(keys_of(s)[0] != keys_of(s)[i]);
        if s[0].0@ == c {
            assert(s[i].0@ != c);
        } else {
            assert(s.update(i, e).drop_first() =~= s.drop_first().update(i - 1, e));
            assert(s.drop_first()[i - 1] == s[i]);
            lemma_lookup_update(s.drop_first(), i - 1, e, c);
        }
    }
}

/// Removing the entry at index `i` removes exactly the lookup of its key.
proof fn lemma_lookup_remove(s: Seq<(String, GameTwilioTxs)>, i: int, c: Seq<char>)
    requires
        0 <= i < s.len(),
        keys_of(s).no_duplicates(),
    ensures
        lookup(s.remove(i), c) == if s[i].0@ == c {
            None
        } else {
            lookup(s, c)
        },
    decreases s.len(),
{
    lemma_keys_drop_first(s);
    if i == 0 {
        assert(s.remove(0) =~= s.drop_first());
        if s[0].0@ == c {
            lemma_lookup_contains(s.drop_first(), c);
            assert(!keys_of(s.drop_first()).contains(c)) by {
                if keys_of(s.drop_first()).contains(c) {
                    let j = choose|j: int|
                        0 <= j < keys_of(s.drop_first()).len() && keys_of(s.drop_first())[j] == c;
                    assert(keys_of(s)[j + 1] == c);
                    assert(keys_of(s)[0] == c);
                }
            }
        }
    } else {
        assert(s.remove(i)[0] == s[0]);
        assert(keys_of(s)[0] != keys_of(s)[i]);
        if s[0].0@ == c {
            assert(s[i].0@ != c);
        } else {
            assert(s.remove(i).drop_first() =~= s.drop_first().remove(i - 1));
            assert(s.drop_first()[i - 1] == s[i]);
            lemma_lookup_remove(s.drop_first(), i - 1, c);
        }
    }
}

/// Relates a registry before `register(code, tx)` to the one after it.
pub open spec fn register_post(
    pre: PairingRegistry,
    post: PairingRegistry,
    c: Seq<char>,
) -> bool {
    &&& post.wf()
    &&& post.keys() == pre.keys().push(c)
    &&& forall|d: Seq<char>| d != c ==> post.entry(d) == pre.entry(d)
    &&& post.contains_code(c)
    &&& !post.attached(c)
}

/// Relates a registry before `attach_telephony(code, tx)` to the one after
/// it, together with the attached channel and the result.  The attach
/// succeeds iff the entry exists and is still half-open: the linearization
/// point that completes a pairing.
pub open spec fn attach_post(
    pre: PairingRegistry,
    post: PairingRegistry,
    c: Seq<char>,
    tx: crossbeam_channel::Sender<RelayMessage>,
    r: bool,
) -> bool {
    &&& post.wf()
    &&& r == (pre.contains_code(c) && !pre.attached(c))
    &&& post.keys() == pre.keys()
    &&& forall|d: Seq<char>| d != c ==> post.entry(d) == pre.entry(d)
    &&& r ==> post.attached(c) && post.telephony_of(c) == Some(tx) && post.game_of(c) == pre.game_of(c)
    &&& !r ==> post == pre
}

/// Relates a registry before `remove(code)` to the one after it.
pub open spec fn remove_post(pre: PairingRegistry, post: PairingRegistry, c: Seq<char>) -> bool {
    &&& post.wf()
    &&& !post.contains_code(c)
    &&& forall|d: Seq<char>| d != c ==> post.entry(d) == pre.entry(d)
    &&& pre.contains_code(c) ==> post.num_codes() == pre.num_codes() - 1
    &&& !pre.contains_code(c) ==> post == pre
}

impl PairingRegistry {
    /// An empty registry.
    pub fn empty() -> (reg: PairingRegistry)
        ensures
            reg.wf(),
            reg.keys() == Seq::<Seq<char>>::empty(),
            forall|c: Seq<char>| !reg.contains_code(c),
    {
        let reg = PairingRegistry { entries: Vec::new() };
        proof {
            assert forall|c: Seq<char>| !reg.contains_code(c) by {
                lemma_lookup_contains(reg.entries@, c);
            }
            assert(reg.keys() =~= Seq::<Seq<char>>::empty());
        }
        reg
    }

    /// The index of the entry for `code`, if one exists.
    fn find_idx(&self, code: &String) -> (r: Option<usize>)
        requires
            self.wf(),
        ensures
            match r {
                Some(i) => i < self.entries@.len() && self.entries@[i as int].0@ == code@
                    && self.entry(code@) == Some(self.entries@[i as int].1),
                None => !self.contains_code(code@),
            },
    {
        let mut i: usize = 0;
        while i < self.entries.len()
            invariant
                i <= self.entries@.len(),
                self.wf(),
                forall|j: int| 0 <= j < i ==> self.entries@[j].0@ != code@,
            decreases self.entries@.len() - i,
        {
            if self.entries[i].0 == *code {
                proof {
                    lemma_lookup_index(self.entries@, i as int);
                }
                return Some(i);
            }
            i = i + 1;
        }
        proof {
            lemma_lookup_contains(self.entries@, code@);
            assert(!keys_of(self.entries@).contains(code@)) by {
                if keys_of(self.entries@).contains(code@) {
                    let j = choose|j: int|
                        0 <= j < self.keys().len() && keys_of(self.entries@)[j] == code@;
                    assert(self.entries@[j].0@ == code@);
                }
            }
        }
        None
    }

    /// Inserts a new half-open entry.  Callers guarantee the code is fresh
    /// (it was just claimed from the pool), so a present key would be an
    /// invariant violation, not a condition to recover from.
    pub fn register(&mut self, code: String, game_tx: async_channel::Sender<RelayMessage>)
        requires
            old(self).wf(),
            !old(self).contains_code(code@),
        ensures
            register_post(*old(self), *final(self), code@),
            final(self).game_of(code@) == Some(game_tx),
    {
        let ghost pre = self.entries@;
        let ghost e = (code, GameTwilioTxs { game_tx, twilio_tx: None });
        let entry = GameTwilioTxs { game_tx, twilio_tx: None };
        self.entries.push((code, entry));
        proof {
            assert(self.entries@ == pre.push(e));
            assert(keys_of(self.entries@) =~= keys_of(pre).push(e.0@));
            lemma_lookup_contains(pre, e.0@);
            assert(!keys_of(pre).contains(e.0@));
            assert(keys_of(self.entries@).no_duplicates()) by {
                let post = keys_of(pre).push(e.0@);
                assert forall|a: int, b: int|
                    0 <= a < post.len() && 0 <= b < post.len() && a != b implies post[a]
                    != post[b] by {
                    if a < keys_of(pre).len() && b < keys_of(pre).len() {
                    } else if a < keys_of(pre).len() {
                        assert(keys_of(pre).contains(keys_of(pre)[a]));
                    } else {
                        assert(keys_of(pre).contains(keys_of(pre)[b]));
                    }
                }
            }
            assert forall|d: Seq<char>| lookup(self.entries@, d) == if lookup(pre, d) is Some {
                lookup(pre, d)
            } else if e.0@ == d {
                Some(e.1)
            } else {
                None
            } by {
                lemma_lookup_push(pre, e, d);
            }
        }
    }

    /// Attaches the telephony leg's reverse channel to the entry for
    /// `code`, iff the entry exists and has none yet; otherwise a no-op
    /// returning `false`.  First match wins: later attaches on the same
    /// code leave the first channel in place.
    pub fn attach_telephony(
        &mut self,
        code: &String,
        tx: crossbeam_channel::Sender<RelayMessage>,
    ) -> (r: bool)
        requires
            old(self).wf(),
        ensures
            attach_post(*old(self), *final(self), code@, tx, r),
    {
        let ghost pre = self.entries@;
        match self.find_idx(code) {
            None => false,
            Some(i) => {
                if self.entries[i].1.twilio_tx.is_some() {
                    false
                } else {
                    let ghost old_e = pre[i as int];
                    self.entries[i].1.twilio_tx = Some(tx);
                    proof {
                        let e = self.entries@[i as int];
                        assert(self.entries@ == pre.update(i as int, e));
                        assert(e.0 == old_e.0 && e.1.game_tx == old_e.1.game_tx);
                        assert(keys_of(self.entries@) =~= keys_of(pre));
                        assert forall|d: Seq<char>| lookup(self.entries@, d) == if pre[i as int].0@
                            == d {
                            Some(e.1)
                        } else {
                            lookup(pre, d)
                        } by {
                            lemma_lookup_update(pre, i as int, e, d);
                        }
                        lemma_lookup_index(pre, i as int);
                    }
                    true
                }
            },
        }
    }

    /// If an entry exists for `code`, hands `m` to its game channel and
    /// reports whether the channel accepted it; `false` when no entry
    /// exists.
    pub fn forward_to_game(&self, code: &String, m: RelayMessage) -> (r: bool)
        requires
            self.wf(),
        ensures
            r ==> self.contains_code(code@),
            !self.contains_code(code@) ==> r == false,
    {
        match self.find_idx(code) {
            None => false,
            Some(i) => try_send_game(&self.entries[i].1.game_tx, m),
        }
    }

    /// If an entry exists for `code` and a telephony channel is attached,
    /// hands `m` to that channel and reports whether it accepted it;
    /// `false` otherwise.
    pub fn forward_to_telephony(&self, code: &String, m: RelayMessage) -> (r: bool)
        requires
            self.wf(),
        ensures
            r ==> self.attached(code@),
            !self.attached(code@) ==> r == false,
    {
        match self.find_idx(code) {
            None => false,
            Some(i) => {
                match &self.entries[i].1.twilio_tx {
                    None => false,
                    Some(tx) => try_send_telephony(tx, m),
                }
            },
        }
    }

    /// Deletes the entry for `code` unconditionally; safe to call when it
    /// is already gone.
    pub fn remove(&mut self, code: &String)
        requires
            old(self).wf(),
        ensures
            remove_post(*old(self), *final(self), code@),
    {
        let ghost pre = self.entries@;
        match self.find_idx(code) {
            None => {},
            Some(i) => {
                self.entries.remove(i);
                proof {
                    assert(self.entries@ == pre.remove(i as int));
                    assert(keys_of(self.entries@) =~= keys_of(pre).remove(i as int));
                    assert(keys_of(self.entries@).no_duplicates()) by {
                        let post = keys_of(pre).remove(i as int);
                        assert forall|a: int, b: int|
                            0 <= a < post.len() && 0 <= b < post.len() && a != b implies post[a]
                            != post[b] by {
                            let ka = if a < i as int {
                                a
                            } else {
                                a + 1
                            };
                            let kb = if b < i as int {
                                b
                            } else {
                                b + 1
                            };
                            assert(post[a] == keys_of(pre)[ka] && post[b] == keys_of(pre)[kb]);
                        }
                    }
                    assert forall|d: Seq<char>| lookup(self.entries@, d) == if pre[i as int].0@
                        == d {
                        None
                    } else {
                        lookup(pre, d)
                    } by {
                        lemma_lookup_remove(pre, i as int, d);
                    }
                }
            },
        }
    }

    /// A consistent snapshot of the currently registered codes, in entry
    /// order; the recognition bridge scans it for a spoken match.
    pub fn codes(&self) -> (r: Vec<String>)
        ensures
            r@.map_values(|s: String| s@) == self.keys(),
    {
        let mut r: Vec<String> = Vec::new();
        let mut i: usize = 0;
        while i < self.entries.len()
            invariant
                i <= self.entries@.len(),
                r@.map_values(|s: String| s@) =~= keys_of(self.entries@).subrange(0, i as int),
            decreases self.entries@.len() - i,
        {
            let ghost prev = r@;
            let code = self.entries[i].0.clone();
            let ghost cv = code@;
            proof {
                assert(cv == keys_of(self.entries@)[i as int]);
            }
            r.push(code);
            proof {
                assert(prev.len() == i as int) by {
                    assert(prev.map_values(|s: String| s@).len() == prev.len());
                }
                assert(r@.len() == i as int + 1);
                assert forall|j: int| 0 <= j < r@.len() implies #[trigger] r@[j]@ == keys_of(
                    self.entries@,
                ).subrange(0, i as int + 1)[j] by {
                    if j < i as int {
                        assert(r@[j] == prev[j]);
                        assert(prev.map_values(|s: String| s@)[j] == prev[j]@);
                    } else {
                        assert(r@[j]@ == cv);
                    }
                }
                assert(r@.map_values(|s: String| s@) =~= keys_of(self.entries@).subrange(
                    0,
                    i as int + 1,
                ));
            }
            i = i + 1;
        }
        proof {
            assert(keys_of(self.entries@).subrange(0, self.entries@.len() as int) =~= keys_of(
                self.entries@,
            ));
        }
        r
    }

    /// How many codes are registered, as a machine integer.
    pub fn len(&self) -> (n: usize)
        ensures
            n == self.num_codes(),
    {
        self.entries.len()
    }
}

impl PairingRegistry {
    /// The key set agrees with the lookup: same members, and — the keys
    /// being duplicate-free — one per entry.
    pub proof fn lemma_key_set_facts(&self)
        requires
            self.wf(),
        ensures
            self.key_set().finite(),
            self.key_set().len() == self.num_codes(),
            forall|c: Seq<char>| #[trigger] self.key_set().contains(c) <==> self.contains_code(c),
    {
        broadcast use vstd::seq_lib::seq_to_set_is_finite;

        self.keys().unique_seq_to_set();
        assert forall|c: Seq<char>| #[trigger] self.key_set().contains(c) <==> self.contains_code(
            c,
        ) by {
            lemma_lookup_contains(self.entries@, c);
        }
    }
}

/// At-most-once attach: once an attach on a code has succeeded, every
/// further attach on that code fails, whatever channel it offers, until the
/// entry is removed.
pub proof fn lemma_attach_at_most_once(
    g0: PairingRegistry,
    g1: PairingRegistry,
    g2: PairingRegistry,
    c: Seq<char>,
    tx1: crossbeam_channel::Sender<RelayMessage>,
    tx2: crossbeam_channel::Sender<RelayMessage>,
    r2: bool,
)
    requires
        g0.wf(),
        attach_post(g0, g1, c, tx1, true),
        attach_post(g1, g2, c, tx2, r2),
    ensures
        r2 == false,
        g2.telephony_of(c) == Some(tx1),
{
}

} // verus!
