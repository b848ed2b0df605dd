use vstd::prelude::*;

verus! {

/// A player identity: 32 bytes, compared only for equality.
///
/// The host environment that authenticates callers hands identities to the
/// ledger as plain bytes. A record's storage key is derived from the identity
/// of the player it was created for; the ledger keeps that derivation trivial
/// and uses the identity itself as the key, which is what gives it one record
/// per identity.
#[derive(Clone, Copy, PartialEq, Eq, Debug)]
pub struct PlayerId {
    pub bytes: [u8; 32],
}

impl View for PlayerId {
    type V = Seq<u8>;

    open spec fn view(&self) -> Seq<u8> {
        self.bytes@
    }
}

impl PlayerId {
    /// Whether two identities are the same, byte for byte.
    pub fn is_same(&self, other: &PlayerId) -> (r: bool)
        ensures
            r == (self@ == other@),
    {
        let mut i: usize = 0;
        while i < 32
            invariant
                i <= 32,
                forall|j: int| 0 <= j < i ==> self.bytes@[j] == other.bytes@[j],
            decreases 32 - i,
        {
            if self.bytes[i] != other.bytes[i] {
                assert(self@[i as int] != other@[i as int]);
                return false;
            }
            i = i + 1;
        }
        assert(self@ =~= other@);
        true
    }
}

} // verus!
