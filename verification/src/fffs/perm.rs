use vstd::prelude::*;

verus! {

/// Who is given a right.
#[derive(Copy, Clone, Debug, PartialEq, Eq, Structural)]
pub enum Accessor {
    User,
    Group,
    Other,
}

/// A right.
#[derive(Copy, Clone, Debug, PartialEq, Eq, Structural)]
pub enum Access {
    Read,
    Write,
    Execute,
}

/// The rights of the owner of a file, of the owner's groups and of everybody else to read,
/// write and execute the file.
#[derive(Copy, Clone, Debug)]
pub struct Permission {
    /// bitmap of the rights
    perm: u16,
}

/// The place of a right in the bitmap: three bits for each accessor.
pub open spec fn right_bit(accessor: Accessor, access: Access) -> u16 {
    (3 * (match accessor {
        Accessor::User => 0int,
        Accessor::Group => 1int,
        Accessor::Other => 2int,
    }) + (match access {
        Access::Read => 0int,
        Access::Write => 1int,
        Access::Execute => 2int,
    })) as u16
}

/// Whether a bit of the bitmap is set.
pub open spec fn word_bit(word: u16, bit: u16) -> bool {
    (word >> bit) & 1 == 1
}

proof fn lemma_set_word_bit(word: u16, bit: u16, other: u16)
    requires
        bit < 9,
        other < 9,
    ensures
        word_bit(word | (1u16 << bit), other) == (other == bit || word_bit(word, other)),
        word_bit(word & !(1u16 << bit), other) == (other != bit && word_bit(word, other)),
{
    assert(((word | (1u16 << bit)) >> other) & 1 == 1 <==> (other == bit || (word >> other) & 1
        == 1)) by (bit_vector)
        requires
            bit < 9,
            other < 9,
    ;
    assert(((word & !(1u16 << bit)) >> other) & 1 == 1 <==> (other != bit && (word >> other) & 1
        == 1)) by (bit_vector)
        requires
            bit < 9,
            other < 9,
    ;
}

/// Giving or taking a right a second time changes nothing.
pub proof fn law_set_twice(word: u16, bit: u16)
    ensures
        (word | (1u16 << bit)) | (1u16 << bit) == word | (1u16 << bit),
        (word & !(1u16 << bit)) & !(1u16 << bit) == word & !(1u16 << bit),
{
    assert((word | (1u16 << bit)) | (1u16 << bit) == word | (1u16 << bit)) by (bit_vector);
    assert((word & !(1u16 << bit)) & !(1u16 << bit) == word & !(1u16 << bit)) by (bit_vector);
}

impl Permission {
    /// The bitmap of the rights: sixteen bits, of which the lowest nine are rights.
    pub closed spec fn bits(&self) -> u16 {
        self.perm
    }

    /// Whether `accessor` has the right `access`.
    pub open spec fn allows(&self, accessor: Accessor, access: Access) -> bool {
        word_bit(self.bits(), right_bit(accessor, access))
    }

    /// Gives or takes one right: its bit of the bitmap is set or cleared. Every other bit,
    /// and so every other right, stays as it is.
    pub fn set(&mut self, accessor: Accessor, access: Access, enabled: bool)
        ensures
            final(self).bits() == (if enabled {
                old(self).bits() | (1u16 << right_bit(accessor, access))
            } else {
                old(self).bits() & !(1u16 << right_bit(accessor, access))
            }),
            forall|who: Accessor, what: Access| #[trigger]
                final(self).allows(who, what) == (if who == accessor && what == access {
                    enabled
                } else {
                    old(self).allows(who, what)
                }),
    {
        let who: u16 = match accessor {
            Accessor::User => 0,
            Accessor::Group => 1,
            Accessor::Other => 2,
        };
        let what: u16 = match access {
            Access::Read => 0,
            Access::Write => 1,
            Access::Execute => 2,
        };
        let place: u16 = 3 * who + what;
        let bit: u16 = 1u16 << place;
        let before = self.perm;
        if enabled {
            self.perm = before | bit;
        } else {
            self.perm = before & !bit;
        }
        proof {
            assert forall|w: Accessor, a: Access| #[trigger]
                self.allows(w, a) == (if w == accessor && a == access {
                    enabled
                } else {
                    old(self).allows(w, a)
                }) by {
                lemma_set_word_bit(before, place, right_bit(w, a));
            }
        }
    }

    /// Whether `accessor` has the right `access`.
    pub fn get(&self, accessor: Accessor, access: Access) -> (allowed: bool)
        ensures
            allowed == self.allows(accessor, access),
    {
        let who: u16 = match accessor {
            Accessor::User => 0,
            Accessor::Group => 1,
            Accessor::Other => 2,
        };
        let what: u16 = match access {
            Access::Read => 0,
            Access::Write => 1,
            Access::Execute => 2,
        };
        let place: u16 = 3 * who + what;
        let shifted = self.perm >> place;
        shifted & 1 == 1
    }
}

impl Default for Permission {
    /// The owner may read and write; nobody may do anything else.
    fn default() -> (perm: Self)
        ensures
            perm.bits() == 3,
            forall|who: Accessor, what: Access| #[trigger]
                perm.allows(who, what) == (who == Accessor::User && (what == Access::Read || what
                    == Access::Write)),
    {
        let mut perm = Permission { perm: 0 };
        assert forall|who: Accessor, what: Access| !#[trigger] perm.allows(who, what) by {
            let bit = right_bit(who, what);
            assert((0u16 >> bit) & 1 == 0) by (bit_vector);
        }
        perm.set(Accessor::User, Access::Read, true);
        perm.set(Accessor::User, Access::Write, true);
        assert((0u16 | (1u16 << 0u16)) | (1u16 << 1u16) == 3u16) by (bit_vector);
        perm
    }
}

} // verus!
