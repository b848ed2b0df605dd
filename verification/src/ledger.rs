use crate::player::PlayerId;
use vstd::pervasive::VecAdditionalExecFns;
use vstd::prelude::*;

verus! {

/// Why a ledger operation was refused.
#[derive(Clone, Copy, PartialEq, Eq, Structural, Debug)]
pub enum LedgerError {
    /// `create` found a record already stored for the identity.
    AlreadyExists,
    /// `submit` found no record stored for the identity.
    NotFound,
    /// `submit` came from a caller other than the record's owner.
    Unauthorized,
}

/// One score record: the identity that owns it, and the best score
/// submitted for it so far.
#[derive(Clone, Copy, PartialEq, Eq, Debug)]
pub struct ScoreRecord {
    pub owner: PlayerId,
    pub score: u32,
}

/// The score a record holds after one submission: a candidate replaces the
/// current score exactly when it is strictly greater; a tie changes nothing.
pub open spec fn next_score(current: u32, candidate: u32) -> u32 {
    if candidate > current {
        candidate
    } else {
        current
    }
}

impl ScoreRecord {
    /// A fresh record for `owner`, starting at score zero.
    pub fn new(owner: PlayerId) -> (r: ScoreRecord)
        ensures
            r.owner == owner,
            r.score == 0,
    {
        ScoreRecord { owner, score: 0 }
    }

    /// Offer `candidate` for this record: the score rises to `candidate`
    /// exactly when `candidate` beats the current score, and never falls.
    /// The owner is untouched.
    pub fn submit_score(&mut self, candidate: u32)
        ensures
            final(self).owner == old(self).owner,
            final(self).score == next_score(old(self).score, candidate),
            old(self).score <= final(self).score,
            candidate <= old(self).score ==> final(self).score == old(self).score,
    {
        if candidate > self.score {
            self.score = candidate;
        }
    }
}

/// The record stored for identity `p`, read off the first record whose owner
/// is `p`, scanning `s` from position `i` on.
spec fn lookup_from(s: Seq<ScoreRecord>, p: Seq<u8>, i: int) -> Option<u32>
    decreases s.len() - i,
{
    if i < 0 || i >= s.len() {
        None
    } else if s[i].owner@ == p {
        Some(s[i].score)
    } else {
        lookup_from(s, p, i + 1)
    }
}

proof fn lemma_lookup_absent(s: Seq<ScoreRecord>, p: Seq<u8>, k: int)
    requires
        0 <= k,
        forall|j: int| k <= j < s.len() ==> s[j].owner@ != p,
    ensures
        lookup_from(s, p, k) is None,
    decreases s.len() - k,
{
    if k < s.len() {
        lemma_lookup_absent(s, p, k + 1);
    }
}

proof fn lemma_lookup_first(s: Seq<ScoreRecord>, p: Seq<u8>, k: int, i: int)
    requires
        0 <= k <= i < s.len(),
        s[i].owner@ == p,
        forall|j: int| k <= j < i ==> s[j].owner@ != p,
    ensures
        lookup_from(s, p, k) == Some(s[i].score),
    decreases i - k,
{
    if k < i {
        lemma_lookup_first(s, p, k + 1, i);
    }
}

proof fn lemma_lookup_push(s: Seq<ScoreRecord>, r: ScoreRecord, q: Seq<u8>, k: int)
    requires
        0 <= k <= s.len(),
    ensures
        lookup_from(s.push(r), q, k) == (if lookup_from(s, q, k) is Some {
            lookup_from(s, q, k)
        } else if r.owner@ == q {
            Some(r.score)
        } else {
            None::<u32>
        }),
    decreases s.len() - k,
{
    let t = s.push(r);
    assert(t.len() == s.len() + 1);
    if k < s.len() {
        assert(t[k] == s[k]);
        lemma_lookup_push(s, r, q, k + 1);
        assert(lookup_from(t, q, k) == (if t[k].owner@ == q {
            Some(t[k].score)
        } else {
            lookup_from(t, q, k + 1)
        }));
        assert(lookup_from(s, q, k) == (if s[k].owner@ == q {
            Some(s[k].score)
        } else {
            lookup_from(s, q, k + 1)
        }));
    } else {
        assert(t[k] == r);
        assert(lookup_from(t, q, k + 1) is None);
        assert(lookup_from(s, q, k) is None);
        assert(lookup_from(t, q, k) == (if r.owner@ == q {
            Some(r.score)
        } else {
            None::<u32>
        }));
    }
}

proof fn lemma_lookup_update(s: Seq<ScoreRecord>, i: int, r: ScoreRecord, q: Seq<u8>, k: int)
    requires
        0 <= k <= s.len(),
        0 <= i < s.len(),
        r.owner@ == s[i].owner@,
        forall|j: int| 0 <= j < s.len() && j != i ==> s[j].owner@ != s[i].owner@,
    ensures
        q != s[i].owner@ ==> lookup_from(s.update(i, r), q, k) == lookup_from(s, q, k),
        q == s[i].owner@ ==> lookup_from(s.update(i, r), q, k) == (if lookup_from(s, q, k) is Some {
            Some(r.score)
        } else {
            None::<u32>
        }),
    decreases s.len() - k,
{
    if k < s.len() {
        if k != i {
            assert(s.update(i, r)[k] == s[k]);
        } else {
            assert(s.update(i, r)[k] == r);
        }
        lemma_lookup_update(s, i, r, q, k + 1);
    }
}

/// The ledger: the stored score records, at most one per identity.
///
/// A record's storage key is the identity it was created for, so a record's
/// key and its owner are the same value; that is what makes one record per
/// identity an invariant rather than a rule to enforce separately.
pub struct Ledger {
    records: Vec<ScoreRecord>,
}

impl Ledger {
    /// Whether a record is stored for identity `p`.
    pub closed spec fn spec_has(&self, p: Seq<u8>) -> bool {
        lookup_from(self.records@, p, 0) is Some
    }

    /// The score stored for identity `p`; meaningful only when
    /// `spec_has(p)` holds.
    pub closed spec fn spec_score(&self, p: Seq<u8>) -> u32 {
        lookup_from(self.records@, p, 0)->Some_0
    }

    /// Well-formed: no identity owns two records.
    pub closed spec fn wf(&self) -> bool {
        forall|i: int, j: int|
            0 <= i < j < self.records@.len() ==> self.records@[i].owner@ != self.records@[j].owner@
    }

    /// An empty ledger: no record stored for any identity.
    pub fn new() -> (r: Ledger)
        ensures
            r.wf(),
            forall|p: Seq<u8>| !r.spec_has(p),
    {
        Ledger { records: Vec::new() }
    }

    /// The position of the record owned by `player`, if one is stored.
    fn find(&self, player: &PlayerId) -> (r: Option<usize>)
        ensures
            match r {
                Some(i) => {
                    &&& i < self.records@.len()
                    &&& self.records@[i as int].owner@ == player@
                    &&& forall|j: int| 0 <= j < i ==> self.records@[j].owner@ != player@
                },
                None => forall|j: int|
                    0 <= j < self.records@.len() ==> self.records@[j].owner@ != player@,
            },
    {
        let n: usize = self.records.len();
        let mut i: usize = 0;
        while i < n
            invariant
                n == self.records@.len(),
                i <= n,
                forall|j: int| 0 <= j < i ==> self.records@[j].owner@ != player@,
            decreases n - i,
        {
            if self.records[i].owner.is_same(player) {
                return Some(i);
            }
            i = i + 1;
        }
        None
    }

    /// Create the record for `player`: owned by `player`, score zero.
    /// Fails with `AlreadyExists`, changing nothing, exactly when a record
    /// for `player` is already stored. No other identity's record changes.
    pub fn create(&mut self, player: &PlayerId) -> (r: Result<ScoreRecord, LedgerError>)
        requires
            old(self).wf(),
        ensures
            final(self).wf(),
            old(self).spec_has(player@) ==> r == Err::<ScoreRecord, LedgerError>(
                LedgerError::AlreadyExists,
            ) && *final(self) == *old(self),
            !old(self).spec_has(player@) ==> {
                &&& r matches Ok(rec)
                &&& rec.owner == *player
                &&& rec.score == 0
                &&& final(self).spec_has(player@)
                &&& final(self).spec_score(player@) == 0
            },
            forall|q: Seq<u8>| q != player@ ==> final(self).spec_has(q) == old(self).spec_has(q),
            forall|q: Seq<u8>|
                q != player@ ==> final(self).spec_score(q) == old(self).spec_score(q),
    {
        match self.find(player) {
            Some(i) => {
                proof {
                    lemma_lookup_first(self.records@, player@, 0, i as int);
                }
                Err(LedgerError::AlreadyExists)
            },
            None => {
                proof {
                    lemma_lookup_absent(self.records@, player@, 0);
                }
                let ghost s0 = self.records@;
                let rec = ScoreRecord::new(*player);
                self.records.push(rec);
                proof {
                    assert forall|q: Seq<u8>|
                        lookup_from(self.records@, q, 0) == (if lookup_from(s0, q, 0) is Some {
                            lookup_from(s0, q, 0)
                        } else if rec.owner@ == q {
                            Some(rec.score)
                        } else {
                            None::<u32>
                        }) by {
                        lemma_lookup_push(s0, rec, q, 0);
                    }
                    assert forall|i2: int, j2: int|
                        0 <= i2 < j2 < self.records@.len() implies self.records@[i2].owner@
                        != self.records@[j2].owner@ by {
                        if j2 < s0.len() {
                            assert(self.records@[i2] == s0[i2]);
                            assert(self.records@[j2] == s0[j2]);
                        } else {
                            assert(self.records@[i2] == s0[i2]);
                            assert(self.records@[j2] == rec);
                        }
                    }
                }
                Ok(rec)
            },
        }
    }

    /// Submit `candidate` for the record of `player`, on behalf of the
    /// authenticated identity `caller`. Fails with `NotFound` when no record
    /// for `player` is stored, else with `Unauthorized` when `caller` is not
    /// the record's owner; either failure changes nothing. On success the
    /// record's score becomes the greater of its current score and
    /// `candidate`: it never falls, and a candidate at or below the current
    /// score leaves it exactly as it was. No record appears, disappears, or
    /// changes under any other identity.
    pub fn submit(&mut self, player: &PlayerId, caller: &PlayerId, candidate: u32) -> (r: Result<
        (),
        LedgerError,
    >)
        requires
            old(self).wf(),
        ensures
            final(self).wf(),
            !old(self).spec_has(player@) ==> r == Err::<(), LedgerError>(LedgerError::NotFound)
                && *final(self) == *old(self),
            old(self).spec_has(player@) && caller@ != player@ ==> r == Err::<(), LedgerError>(
                LedgerError::Unauthorized,
            ) && *final(self) == *old(self),
            old(self).spec_has(player@) && caller@ == player@ ==> {
                &&& r == Ok::<(), LedgerError>(())
                &&& final(self).spec_score(player@) == next_score(
                    old(self).spec_score(player@),
                    candidate,
                )
            },
            old(self).spec_has(player@) ==> old(self).spec_score(player@)
                <= final(self).spec_score(player@),
            old(self).spec_has(player@) && caller@ == player@ && candidate <= old(self).spec_score(
                player@,
            ) ==> final(self).spec_score(player@) == old(self).spec_score(player@),
            forall|q: Seq<u8>| final(self).spec_has(q) == old(self).spec_has(q),
            forall|q: Seq<u8>|
                q != player@ ==> final(self).spec_score(q) == old(self).spec_score(q),
    {
        match self.find(player) {
            None => {
                proof {
                    lemma_lookup_absent(self.records@, player@, 0);
                }
                Err(LedgerError::NotFound)
            },
            Some(i) => {
                proof {
                    lemma_lookup_first(self.records@, player@, 0, i as int);
                }
                if !caller.is_same(&self.records[i].owner) {
                    Err(LedgerError::Unauthorized)
                } else {
                    let ghost s0 = self.records@;
                    let mut rec = self.records[i];
                    rec.submit_score(candidate);
                    self.records.set(i, rec);
                    proof {
                        assert forall|j: int| 0 <= j < s0.len() && j != i as int implies s0[j].owner@
                            != s0[i as int].owner@ by {}
                        assert forall|q: Seq<u8>| #[trigger] lookup_from(self.records@, q, 0)
                            == (if q == player@ {
                            if lookup_from(s0, q, 0) is Some {
                                Some(rec.score)
                            } else {
                                None::<u32>
                            }
                        } else {
                            lookup_from(s0, q, 0)
                        }) by {
                            lemma_lookup_update(s0, i as int, rec, q, 0);
                        }
                        assert forall|i2: int, j2: int|
                            0 <= i2 < j2 < self.records@.len() implies self.records@[i2].owner@
                            != self.records@[j2].owner@ by {
                            assert(self.records@[i2].owner@ == s0[i2].owner@);
                            assert(self.records@[j2].owner@ == s0[j2].owner@);
                        }
                    }
                    Ok(())
                }
            },
        }
    }

    /// The score stored for `player`, if a record exists.
    pub fn get_score(&self, player: &PlayerId) -> (r: Option<u32>)
        ensures
            self.spec_has(player@) ==> r == Some(self.spec_score(player@)),
            !self.spec_has(player@) ==> r is None,
    {
        match self.find(player) {
            Some(i) => {
                proof {
                    lemma_lookup_first(self.records@, player@, 0, i as int);
                }
                Some(self.records[i].score)
            },
            None => {
                proof {
                    lemma_lookup_absent(self.records@, player@, 0);
                }
                None
            },
        }
    }
}

} // verus!
