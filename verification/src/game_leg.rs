//! The shared-state steps of a game leg's lifetime.
//!
//! On connection open the leg claims a code, sends the two handshake
//! frames, and registers a half-open pairing entry; on disconnect it
//! removes the entry and releases the code.  The event loops themselves
//! live with the sockets, outside the library; these functions are the
//! atomic steps they drive the shared structures with.

use vstd::prelude::*;

use crate::pool::CodePool;
use crate::pool::claim_post;
use crate::registry::PairingRegistry;
use crate::registry::register_post;
use crate::registry::remove_post;
use crate::relay::RelayMessage;

verus! {

/// The two handshake frames a new game connection is sent, in order: the
/// callback phone number to dial, then the code to speak.
pub fn handshake_frames(phone_number: &String, code: &String) -> (frames: Vec<String>)
    ensures
        frames@.len() == 2,
        frames@[0]@ == phone_number@,
        frames@[1]@ == code@,
{
    let mut frames: Vec<String> = Vec::new();
    frames.push(phone_number.clone());
    frames.push(code.clone());
    frames
}

/// Relates the pool and registry before a `game_close` to those after it.
pub open spec fn close_post(
    p0: CodePool,
    p1: CodePool,
    g0: PairingRegistry,
    g1: PairingRegistry,
    c: Seq<char>,
) -> bool {
    &&& p1.wf()
    &&& remove_post(g0, g1, c)
    &&& forall|d: Seq<char>| d != c ==> (#[trigger] p1.has(d) <==> p0.has(d))
    &&& p1.has(c)
    &&& p1@ == p0@ || p1@ == p0@.push(c)
}

/// Opens a game leg: claims a code and registers a half-open pairing entry
/// whose game channel is `game_tx`.  Returns the claimed code, or `None`
/// when every code is in use — resource exhaustion, upon which the caller
/// refuses the connection.  The pool and the registry must be disjoint
/// (the conservation invariant), which the claimed code's freshness rests
/// on; the call preserves that disjointness.
pub fn game_open(
    pool: &mut CodePool,
    registry: &mut PairingRegistry,
    game_tx: async_channel::Sender<RelayMessage>,
) -> (r: Option<String>)
    requires
        old(pool).wf(),
        old(registry).wf(),
        forall|c: Seq<char>| old(pool).has(c) ==> !old(registry).contains_code(c),
    ensures
        final(pool).wf(),
        final(registry).wf(),
        claim_post(*old(pool), *final(pool), r),
        old(pool)@.len() == 0 ==> r is None && *final(registry) == *old(registry),
        old(pool)@.len() > 0 ==> (r matches Some(code) && register_post(
            *old(registry),
            *final(registry),
            code@,
        ) && final(registry).game_of(code@) == Some(game_tx)),
        forall|c: Seq<char>| final(pool).has(c) ==> !final(registry).contains_code(c),
{
    let claimed = pool.claim();
    match claimed {
        None => None,
        Some(code) => {
            proof {
                assert(!registry.contains_code(code@));
            }
            registry.register(code.clone(), game_tx);
            proof {
                assert forall|c: Seq<char>| pool.has(c) implies !registry.contains_code(c) by {
                    assert(old(pool).has(c)) by {
                        let j = choose|j: int| 0 <= j < pool@.len() && pool@[j] == c;
                        assert(old(pool)@[j] == c);
                    }
                    assert(c != code@);
                }
            }
            Some(code)
        },
    }
}

/// Closes a game leg: removes its pairing entry and releases its code back
/// to the pool.  Safe to repeat — the removal tolerates an absent entry
/// and the release is skipped when the code is already back — so the two
/// exit paths of a handler may both run it.
pub fn game_close(pool: &mut CodePool, registry: &mut PairingRegistry, code: &String)
    requires
        old(pool).wf(),
        old(registry).wf(),
    ensures
        close_post(*old(pool), *final(pool), *old(registry), *final(registry), code@),
{
    registry.remove(code);
    if !pool.contains_code(code) {
        pool.release(code.clone());
        proof {
            assert(pool.has(code@)) by {
                assert(pool@[pool@.len() - 1] == code@);
            }
            assert forall|d: Seq<char>| d != code@ implies (#[trigger] pool.has(d) <==> old(
                pool,
            ).has(d)) by {
                if pool.has(d) {
                    let j = choose|j: int| 0 <= j < pool@.len() && pool@[j] == d;
                    assert(old(pool)@[j] == d);
                }
                if old(pool).has(d) {
                    let j = choose|j: int| 0 <= j < old(pool)@.len() && old(pool)@[j] == d;
                    assert(pool@[j] == d);
                }
            }
        }
    }
}

} // verus!
