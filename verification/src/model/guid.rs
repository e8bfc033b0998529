//! 128-bit identifiers and the deterministic derivation used for
//! content-derived identity.
//!
//! Node identity is the payload's own key; edge identity is derived by
//! mixing (source, target, payload key); path identity is a rolling mix
//! over the ordered steps.  The derivation is a pure function, so two
//! structurally identical values always collide to the same identifier.

use vstd::prelude::*;

verus! {

/// The 64-bit multiplier of the mixing rounds.
pub const MIX_PRIME: u64 = 0x100000001b3;

/// The seed of the first 64-bit half of a derived identifier.
pub const MIX_SEED_LO: u64 = 0xcbf29ce484222325;

/// The seed of the second 64-bit half of a derived identifier.
pub const MIX_SEED_HI: u64 = 0x84222325cbf29ce4;

/// The seed for the identity of an empty path.
pub const PATH_SEED: u128 = 0x9e3779b97f4a7c15f39cc0605cedc834;

/// A 128-bit identifier for nodes, edges, paths and sets.
///
/// For nodes and edges the value is derived deterministically from content,
/// so structurally identical values collide to the same identifier.
#[derive(Clone, Copy, Debug, PartialEq, Eq, Structural, Hash)]
pub struct Guid {
    pub bits: u128,
}

/// One mixing round: fold a 64-bit word into a 64-bit state.
#[verifier::opaque]
pub open spec fn spec_mix(h: u64, x: u64) -> u64 {
    (((h ^ x) * MIX_PRIME) % 0x10000000000000000) as u64
}

/// Fold a full identifier (two 64-bit words) into a 64-bit state.
#[verifier::opaque]
pub open spec fn spec_mix_guid(h: u64, g: Guid) -> u64 {
    spec_mix(spec_mix(h, (g.bits / 0x10000000000000000) as u64), (g.bits % 0x10000000000000000) as u64)
}

/// The identifier derived from two identifiers, used as the rolling step of
/// a path's identity.
#[verifier::opaque]
pub open spec fn spec_guid2(a: Guid, b: Guid) -> Guid {
    Guid {
        bits: (spec_mix_guid(spec_mix_guid(MIX_SEED_LO, a), b) * 0x10000000000000000
            + spec_mix_guid(spec_mix_guid(MIX_SEED_HI, a), b)) as u128,
    }
}

/// The identifier derived from three identifiers, used for edge identity.
#[verifier::opaque]
pub open spec fn spec_guid3(a: Guid, b: Guid, c: Guid) -> Guid {
    Guid {
        bits: (spec_mix_guid(spec_mix_guid(spec_mix_guid(MIX_SEED_LO, a), b), c) * 0x10000000000000000
            + spec_mix_guid(spec_mix_guid(spec_mix_guid(MIX_SEED_HI, a), b), c)) as u128,
    }
}

/// One mixing round, executable.
fn mix(h: u64, x: u64) -> (r: u64)
    ensures
        r == spec_mix(h, x),
{
    let w: u128 = (h ^ x) as u128;
    proof {
        reveal(spec_mix);
        assert(w * (MIX_PRIME as u128) <= 0xffffffffffffffffu128 * 0x100000001b3u128)
            by (nonlinear_arith)
            requires
                w <= 0xffffffffffffffffu128,
        ;
    }
    let p: u128 = w * (MIX_PRIME as u128);
    let r: u64 = (p % 0x10000000000000000u128) as u64;
    r
}

/// Fold a full identifier into a 64-bit state, executable.
fn mix_guid(h: u64, g: Guid) -> (r: u64)
    ensures
        r == spec_mix_guid(h, g),
{
    proof {
        reveal(spec_mix_guid);
    }
    let hi: u64 = (g.bits / 0x10000000000000000u128) as u64;
    let lo: u64 = (g.bits % 0x10000000000000000u128) as u64;
    mix(mix(h, hi), lo)
}

impl Guid {
    /// The nil identifier, reserved for the unit entity.
    pub fn nil() -> (r: Guid)
        ensures
            r.bits == 0,
    {
        Guid { bits: 0 }
    }

    /// A fresh random identifier, for set identity that is not derived from
    /// content.
    pub fn fresh() -> Guid {
        Guid { bits: random_bits() }
    }

    /// Derive an identifier from an ordered pair, as a path's rolling step.
    pub fn derive2(a: Guid, b: Guid) -> (r: Guid)
        ensures
            r == spec_guid2(a, b),
    {
        proof {
            reveal(spec_guid2);
        }
        let lo: u64 = mix_guid(mix_guid(MIX_SEED_LO, a), b);
        let hi: u64 = mix_guid(mix_guid(MIX_SEED_HI, a), b);
        Guid { bits: (lo as u128) * 0x10000000000000000u128 + (hi as u128) }
    }

    /// Derive an identifier from an ordered triple, as an edge's identity.
    pub fn derive3(a: Guid, b: Guid, c: Guid) -> (r: Guid)
        ensures
            r == spec_guid3(a, b, c),
    {
        proof {
            reveal(spec_guid3);
        }
        let lo: u64 = mix_guid(mix_guid(mix_guid(MIX_SEED_LO, a), b), c);
        let hi: u64 = mix_guid(mix_guid(mix_guid(MIX_SEED_HI, a), b), c);
        Guid { bits: (lo as u128) * 0x10000000000000000u128 + (hi as u128) }
    }
}

/// Relies on uuid::Uuid::new_v4, a randomly generated identifier; nothing is
/// assumed of the value that comes back.
#[verifier::external_body]
fn random_bits() -> u128 {
    uuid::Uuid::new_v4().as_u128()
}

} // verus!
