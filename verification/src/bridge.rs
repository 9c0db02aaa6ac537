//! The recognition bridge: the per-call state machine that watches
//! recognizer transcripts and completes a pairing the first time the
//! caller speaks a registered code.
//!
//! Per telephony connection the bridge holds one slot, absent until a
//! spoken code matches: Unmatched, then Matched, terminal for the life of
//! the connection.  While unmatched, each parsed response is scanned
//! against a snapshot of the registered codes; on a match the bridge
//! attaches the leg's reverse channel to the registry entry.  Once matched,
//! every transcript alternative is forwarded to the game leg through the
//! registry.

use vstd::prelude::*;

use crate::registry::PairingRegistry;
use crate::registry::attach_post;
use crate::relay::RelayMessage;

verus! {

/// Whether `needle` occurs as a contiguous substring of `hay`.
pub open spec fn seq_contains_sub(hay: Seq<char>, needle: Seq<char>) -> bool {
    exists|i: int|
        0 <= i && i + needle.len() <= hay.len() && #[trigger] hay.subrange(
            i,
            i + needle.len() as int,
        ) == needle
}

/// Relies on `str::contains`: reports whether the needle occurs as a
/// contiguous substring.  (Byte-level search on UTF-8 finds exactly the
/// character-level substrings: a match cannot begin inside a multi-byte
/// character, since the needle starts with a leading byte.)
#[verifier::external_body]
fn str_contains(hay: &String, needle: &String) -> (r: bool)
    ensures
        r == seq_contains_sub(hay@, needle@),
{
    hay.as_str().contains(needle.as_str())
}

/// The scan of one transcript alternative over the code snapshot, in
/// order, carrying the best match so far: the last code in `codes` that
/// the alternative contains wins, else the carried value stands.
pub open spec fn scan_codes(alt: Seq<char>, codes: Seq<Seq<char>>, acc: Option<Seq<char>>) -> Option<
    Seq<char>,
>
    decreases codes.len(),
{
    if codes.len() == 0 {
        acc
    } else if seq_contains_sub(alt, codes.last()) {
        Some(codes.last())
    } else {
        scan_codes(alt, codes.drop_last(), acc)
    }
}

/// The scan of a whole response: every alternative against every code, in
/// iteration order, the last match found winning — the fixed tie-break
/// policy on simultaneous matches.
pub open spec fn scan_response(
    alts: Seq<Seq<char>>,
    codes: Seq<Seq<char>>,
    acc: Option<Seq<char>>,
) -> Option<Seq<char>>
    decreases alts.len(),
{
    if alts.len() == 0 {
        acc
    } else {
        scan_codes(alts.last(), codes, scan_response(alts.drop_last(), codes, acc))
    }
}

/// The scan finds a match iff one exists: starting from nothing, it comes
/// back empty iff no alternative contains any code, and what it returns is
/// one of the codes, contained in one of the alternatives.
pub proof fn lemma_scan_finds_matches(alts: Seq<Seq<char>>, codes: Seq<Seq<char>>)
    ensures
        (scan_response(alts, codes, None) is None) <==> (forall|i: int, j: int|
            0 <= i < alts.len() && 0 <= j < codes.len() ==> !seq_contains_sub(alts[i], codes[j])),
        scan_response(alts, codes, None) matches Some(c) ==> codes.contains(c) && exists|i: int|
            0 <= i < alts.len() && seq_contains_sub(alts[i], c),
{
    lemma_scan_response_rec(alts, codes, None);
    if scan_response(alts, codes, None) is None {
        assert forall|i: int, j: int|
            0 <= i < alts.len() && 0 <= j < codes.len() implies !seq_contains_sub(
            alts[i],
            codes[j],
        ) by {
            if seq_contains_sub(alts[i], codes[j]) {
                assert(alts.contains(alts[i]) && codes.contains(codes[j]));
            }
        }
    }
    if scan_response(alts, codes, None) is Some {
        let c = scan_response(alts, codes, None)->0;
        let i = choose|i: int| 0 <= i < alts.len() && seq_contains_sub(#[trigger] alts[i], c);
    }
}

/// The shape of the scan's result for any carried value: it answers the
/// carried value exactly when no pair matches, and otherwise one of the
/// codes contained in one of the alternatives.
proof fn lemma_scan_response_rec(alts: Seq<Seq<char>>, codes: Seq<Seq<char>>, acc: Option<Seq<char>>)
    ensures
        scan_response(alts, codes, acc) == acc || (scan_response(alts, codes, acc) matches Some(c)
            && codes.contains(c) && exists|i: int|
            0 <= i < alts.len() && seq_contains_sub(#[trigger] alts[i], c)),
        (exists|i: int, j: int|
            0 <= i < alts.len() && 0 <= j < codes.len() && seq_contains_sub(
                #[trigger] alts[i],
                #[trigger] codes[j],
            )) ==> scan_response(alts, codes, acc) is Some,
    decreases alts.len(),
{
    if alts.len() == 0 {
    } else {
        let prior = scan_response(alts.drop_last(), codes, acc);
        lemma_scan_response_rec(alts.drop_last(), codes, acc);
        lemma_scan_codes_rec(alts.last(), codes, prior);
        assert forall|i: int|
            0 <= i < alts.drop_last().len() && seq_contains_sub(
                #[trigger] alts.drop_last()[i],
                scan_response(alts, codes, acc)->0,
            ) implies exists|k: int|
            0 <= k < alts.len() && seq_contains_sub(
                #[trigger] alts[k],
                scan_response(alts, codes, acc)->0,
            ) by {
            assert(alts[i] == alts.drop_last()[i]);
        }
        if exists|i: int, j: int|
            0 <= i < alts.len() && 0 <= j < codes.len() && seq_contains_sub(
                #[trigger] alts[i],
                #[trigger] codes[j],
            ) {
            let (i, j) = choose|i: int, j: int|
                0 <= i < alts.len() && 0 <= j < codes.len() && seq_contains_sub(
                    #[trigger] alts[i],
                    #[trigger] codes[j],
                );
            if i < alts.len() - 1 {
                assert(alts.drop_last()[i] == alts[i]);
                assert(prior is Some);
            } else {
                assert(alts.last() == alts[i]);
            }
        }
    }
}

/// As `lemma_scan_response_rec`, for the scan of one alternative.
proof fn lemma_scan_codes_rec(alt: Seq<char>, codes: Seq<Seq<char>>, acc: Option<Seq<char>>)
    ensures
        scan_codes(alt, codes, acc) == acc || (scan_codes(alt, codes, acc) matches Some(c)
            && codes.contains(c) && seq_contains_sub(alt, c)),
        (exists|j: int| 0 <= j < codes.len() && seq_contains_sub(alt, #[trigger] codes[j]))
            ==> scan_codes(alt, codes, acc) is Some,
    decreases codes.len(),
{
    if codes.len() == 0 {
    } else if seq_contains_sub(alt, codes.last()) {
        assert(codes.contains(codes.last())) by {
            assert(codes[codes.len() - 1] == codes.last());
        }
    } else {
        lemma_scan_codes_rec(alt, codes.drop_last(), acc);
        if scan_codes(alt, codes, acc) is Some && scan_codes(alt, codes, acc) != acc {
            let c = scan_codes(alt, codes, acc)->0;
            assert(codes.drop_last().contains(c));
            let j = choose|j: int|
                0 <= j < codes.drop_last().len() && codes.drop_last()[j] == c;
            assert(codes[j] == c);
        }
        if exists|j: int| 0 <= j < codes.len() && seq_contains_sub(alt, #[trigger] codes[j]) {
            let j = choose|j: int| 0 <= j < codes.len() && seq_contains_sub(alt, #[trigger] codes[j]);
            assert(j < codes.len() - 1);
            assert(codes.drop_last()[j] == codes[j]);
        }
    }
}

/// Runs the scan over a response's transcript alternatives and a snapshot
/// of the registered codes, both in iteration order.
pub fn scan_for_code(alternatives: &Vec<String>, codes: &Vec<String>) -> (r: Option<String>)
    ensures
        ({
            let spec_r = scan_response(
                alternatives@.map_values(|s: String| s@),
                codes@.map_values(|s: String| s@),
                None,
            );
            match r {
                Some(c) => spec_r == Some(c@),
                None => spec_r is None,
            }
        }),
{
    let ghost alts = alternatives@.map_values(|s: String| s@);
    let ghost cods = codes@.map_values(|s: String| s@);
    let mut best: Option<String> = None;
    let ghost best_spec = scan_response(alts.subrange(0, 0), cods, None);
    proof {
        assert(alts.subrange(0, 0) =~= Seq::<Seq<char>>::empty());
    }
    let mut i: usize = 0;
    while i < alternatives.len()
        invariant
            i <= alternatives@.len(),
            alts == alternatives@.map_values(|s: String| s@),
            cods == codes@.map_values(|s: String| s@),
            match best {
                Some(c) => scan_response(alts.subrange(0, i as int), cods, None) == Some(c@),
                None => scan_response(alts.subrange(0, i as int), cods, None) is None,
            },
        decreases alternatives@.len() - i,
    {
        let ghost prior = scan_response(alts.subrange(0, i as int), cods, None);
        let alt = &alternatives[i];
        let mut j: usize = 0;
        while j < codes.len()
            invariant
                j <= codes@.len(),
                i < alternatives@.len(),
                alts == alternatives@.map_values(|s: String| s@),
                cods == codes@.map_values(|s: String| s@),
                alt == &alternatives[i as int],
                prior == scan_response(alts.subrange(0, i as int), cods, None),
                match best {
                    Some(c) => scan_codes(alt@, cods.subrange(0, j as int), prior) == Some(c@),
                    None => scan_codes(alt@, cods.subrange(0, j as int), prior) is None,
                },
            decreases codes@.len() - j,
        {
            let ghost before = cods.subrange(0, j as int);
            if str_contains(alt, &codes[j]) {
                best = Some(codes[j].clone());
            }
            proof {
                let now = cods.subrange(0, j as int + 1);
                assert(now.drop_last() =~= before);
                assert(now.last() == cods[j as int]);
                assert(cods[j as int] == codes@[j as int]@);
            }
            j = j + 1;
        }
        proof {
            assert(cods.subrange(0, cods.len() as int) =~= cods);
            let next = alts.subrange(0, i as int + 1);
            assert(next.drop_last() =~= alts.subrange(0, i as int));
            assert(next.last() == alts[i as int]);
            assert(alts[i as int] == alt@);
        }
        i = i + 1;
    }
    proof {
        assert(alts.subrange(0, alts.len() as int) =~= alts);
    }
    best
}

/// The matching slot of one telephony connection: `None` while unmatched,
/// then the matched code, never cleared for the life of the connection.
pub struct RecognitionBridge {
    pub matched_code: Option<String>,
}

impl RecognitionBridge {
    /// A fresh, unmatched bridge for one telephony connection.
    pub fn new() -> (b: RecognitionBridge)
        ensures
            b.matched_code is None,
    {
        RecognitionBridge { matched_code: None }
    }

    /// Consumes one recognition response, parsed by the caller into its
    /// transcript alternatives (`None` when the body failed to parse —
    /// non-fatal, ignored).
    ///
    /// Matched: every alternative is forwarded to the game leg through the
    /// registry; nothing else changes.  Unmatched: the alternatives are
    /// scanned against the snapshot of registered codes; on a match the
    /// reverse channel is attached — if the entry was still half-open the
    /// bridge transitions to Matched, otherwise it stays unmatched and
    /// keeps scanning on later responses.  Returns how many alternatives
    /// were forwarded and accepted by the game channel.
    pub fn on_response(
        &mut self,
        registry: &mut PairingRegistry,
        alternatives: Option<Vec<String>>,
        reverse_tx: crossbeam_channel::Sender<RelayMessage>,
    ) -> (delivered: usize)
        requires
            old(registry).wf(),
        ensures
            final(registry).wf(),
            alternatives is None ==> delivered == 0,
            old(self).matched_code is None ==> delivered == 0,
            old(self).matched_code is Some && alternatives is Some ==> delivered
                <= alternatives->0@.len(),
            old(self).matched_code matches Some(c) && !old(registry).contains_code(c@)
                ==> delivered == 0,
            delivered > 0 ==> old(self).matched_code is Some && old(registry).contains_code(
                old(self).matched_code->0@,
            ),
            old(self).matched_code is Some ==> *final(self) == *old(self) && *final(registry)
                == *old(registry),
            old(self).matched_code is None && alternatives is None ==> *final(self) == *old(self)
                && *final(registry) == *old(registry),
            old(self).matched_code is None && alternatives is Some ==> ({
                let m = scan_response(
                    alternatives->0@.map_values(|s: String| s@),
                    old(registry).keys(),
                    None,
                );
                match m {
                    None => *final(self) == *old(self) && *final(registry) == *old(registry),
                    Some(c) => {
                        &&& attach_post(
                            *old(registry),
                            *final(registry),
                            c,
                            reverse_tx,
                            old(registry).contains_code(c) && !old(registry).attached(c),
                        )
                        &&& (old(registry).contains_code(c) && !old(registry).attached(c))
                            ==> (final(self).matched_code matches Some(mc) && mc@ == c)
                        &&& !(old(registry).contains_code(c) && !old(registry).attached(c))
                            ==> *final(self) == *old(self)
                    },
                }
            }),
    {
        match &self.matched_code {
            Some(code) => {
                let mut delivered: usize = 0;
                match alternatives {
                    None => {},
                    Some(alts) => {
                        let mut i: usize = 0;
                        while i < alts.len()
                            invariant
                                registry.wf(),
                                delivered <= i,
                                i <= alts@.len(),
                                *registry == *old(registry),
                                old(self).matched_code == Some(*code),
                                delivered > 0 ==> registry.contains_code(code@),
                            decreases alts@.len() - i,
                        {
                            let m = RelayMessage::Text(alts[i].clone());
                            if registry.forward_to_game(code, m) {
                                delivered = delivered + 1;
                            }
                            i = i + 1;
                        }
                    },
                }
                delivered
            },
            None => {
                match alternatives {
                    None => 0,
                    Some(alts) => {
                        let snapshot = registry.codes();
                        match scan_for_code(&alts, &snapshot) {
                            None => 0,
                            Some(code) => {
                                if registry.attach_telephony(&code, reverse_tx) {
                                    self.matched_code = Some(code);
                                }
                                0
                            },
                        }
                    },
                }
            },
        }
    }
}

} // verus!
