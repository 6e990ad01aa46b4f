//! A fingerprint of the characters occurring in a path, consumed by the
//! external fuzzy matcher: one bit per lowercase letter and per digit.

use vstd::prelude::*;

verus! {

#[derive(Clone, Copy, Debug, PartialEq, Eq, Structural)]
pub struct CharBag(pub u64);

/// The bit a byte contributes: letters fold to lower case, digits have their
/// own bits, every other byte contributes nothing.
pub open spec fn char_bit(c: u8) -> u64 {
    if 97 <= c <= 122 {
        1u64 << ((c - 97) as u64)
    } else if 65 <= c <= 90 {
        1u64 << ((c - 65) as u64)
    } else if 48 <= c <= 57 {
        1u64 << ((c - 48 + 26) as u64)
    } else {
        0u64
    }
}

/// The bag `acc` extended with every byte of `s`.
pub open spec fn bag_of_bytes(acc: u64, s: Seq<u8>) -> u64
    decreases s.len(),
{
    if s.len() == 0 {
        acc
    } else {
        bag_of_bytes(acc | char_bit(s[0]), s.drop_first())
    }
}

/// The bag `acc` extended with every byte of every component of `p`.
pub open spec fn bag_of_path(acc: u64, p: Seq<Seq<u8>>) -> u64
    decreases p.len(),
{
    if p.len() == 0 {
        acc
    } else {
        bag_of_path(bag_of_bytes(acc, p[0]), p.drop_first())
    }
}

fn add_byte(bag: u64, c: u8) -> (r: u64)
    ensures
        r == bag | char_bit(c),
{
    if 97 <= c && c <= 122 {
        bag | (1u64 << ((c - 97) as u64))
    } else if 65 <= c && c <= 90 {
        bag | (1u64 << ((c - 65) as u64))
    } else if 48 <= c && c <= 57 {
        bag | (1u64 << ((c - 48 + 26) as u64))
    } else {
        proof {
            assert(bag | 0u64 == bag) by (bit_vector);
        }
        bag
    }
}

fn add_bytes(bag: u64, s: &Vec<u8>) -> (r: u64)
    ensures
        r == bag_of_bytes(bag, s@),
{
    let mut acc = bag;
    let mut i: usize = 0;
    proof {
        assert(s@.skip(0) =~= s@);
    }
    while i < s.len()
        invariant
            i <= s@.len(),
            bag_of_bytes(acc, s@.skip(i as int)) == bag_of_bytes(bag, s@),
        decreases s@.len() - i,
    {
        proof {
            assert(s@.skip(i as int)[0] == s@[i as int]);
            assert(s@.skip(i as int).drop_first() =~= s@.skip(i + 1 as int));
        }
        acc = add_byte(acc, s[i]);
        i += 1;
    }
    proof {
        assert(s@.skip(s@.len() as int).len() == 0);
    }
    acc
}

impl CharBag {
    pub fn empty() -> (r: CharBag)
        ensures
            r.0 == 0u64,
    {
        CharBag(0)
    }

    /// The bag extended with every byte of `s`.
    pub fn extend_bytes(&self, s: &Vec<u8>) -> (r: CharBag)
        ensures
            r.0 == bag_of_bytes(self.0, s@),
    {
        CharBag(add_bytes(self.0, s))
    }

    /// The bag extended with every byte of every component of `p`.
    pub fn extend_path(&self, p: &crate::paths::TreePath) -> (r: CharBag)
        ensures
            r.0 == bag_of_path(self.0, p@),
    {
        let mut acc = self.0;
        let mut i: usize = 0;
        proof {
            assert(p@.skip(0) =~= p@);
        }
        while i < p.components.len()
            invariant
                i <= p@.len(),
                bag_of_path(acc, p@.skip(i as int)) == bag_of_path(self.0, p@),
        decreases p@.len() - i,
        {
            proof {
                assert(p@.skip(i as int)[0] == p@[i as int]);
                assert(p@.skip(i as int).drop_first() =~= p@.skip(i + 1 as int));
                crate::paths::lemma_deep_index(p.components, i as int);
            }
            acc = add_bytes(acc, &p.components[i]);
            i += 1;
        }
        proof {
            assert(p@.skip(p@.len() as int).len() == 0);
        }
        CharBag(acc)
    }
}

} // verus!
