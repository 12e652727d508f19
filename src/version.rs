//! Bolt protocol version negotiation.
use vstd::prelude::*;

verus! {

/// The magic preamble a client sends before its version proposals.
pub const BOLT_MAGIC: [u8; 4] = [0x60, 0x60, 0xB0, 0x17];

/// The reply sent when no proposal can be honoured.
pub const NO_VERSION: [u8; 4] = [0, 0, 0, 0];

/// The versions this library speaks, newest first.
pub open spec fn supported_versions() -> Seq<(u8, u8)> {
    seq![(5u8, 4u8), (5u8, 3u8), (5u8, 2u8), (5u8, 1u8)]
}

/// Whether the supported version `sup` lies within a proposal of
/// `(major, minor)` with `range` earlier minors.
pub open spec fn proposal_covers(major: u8, minor: u8, range: u8, sup: (u8, u8)) -> bool {
    &&& sup.0 == major
    &&& sup.1 <= minor
    &&& sup.1 as int >= if range >= minor { 0 } else { minor - range }
}

/// The first supported version (in preference order) that the proposal
/// covers, searching from index `j`.
pub open spec fn first_covered(major: u8, minor: u8, range: u8, j: int) -> Option<(u8, u8)>
    decreases supported_versions().len() - j,
{
    if j < 0 || j >= supported_versions().len() {
        None
    } else if proposal_covers(major, minor, range, supported_versions()[j]) {
        Some(supported_versions()[j])
    } else {
        first_covered(major, minor, range, j + 1)
    }
}

/// The version negotiated from the proposals in slots `k..4` of the
/// sixteen proposal bytes.
pub open spec fn negotiate_from(p: Seq<u8>, k: int) -> Option<(u8, u8)>
    recommends
        p.len() == 16,
    decreases 4 - k,
{
    if k < 0 || k >= 4 {
        None
    } else {
        let range = p[4 * k + 1];
        let minor = p[4 * k + 2];
        let major = p[4 * k + 3];
        if major == 0 && minor == 0 {
            negotiate_from(p, k + 1)
        } else {
            match first_covered(major, minor, range, 0) {
                Some(v) => Some(v),
                None => negotiate_from(p, k + 1),
            }
        }
    }
}

/// Picks the version to speak from a client's sixteen proposal bytes: the
/// proposals are tried in order, and for each the supported versions newest
/// first; an all-zero proposal is a placeholder and is skipped.
pub fn negotiate_version(proposals: &[u8; 16]) -> (r: Option<(u8, u8)>)
    ensures
        r == negotiate_from(proposals@, 0),
{
    let supported: [(u8, u8); 4] = [(5, 4), (5, 3), (5, 2), (5, 1)];
    assert(supported@ == supported_versions());
    let mut k: usize = 0;
    while k < 4
        invariant
            k <= 4,
            proposals@.len() == 16,
            supported@ == supported_versions(),
            negotiate_from(proposals@, 0) == negotiate_from(proposals@, k as int),
        decreases 4 - k,
    {
        let range = proposals[4 * k + 1];
        let minor = proposals[4 * k + 2];
        let major = proposals[4 * k + 3];
        if !(major == 0 && minor == 0) {
            let low: u8 = minor.saturating_sub(range);
            let mut j: usize = 0;
            while j < 4
                invariant
                    j <= 4,
                    k < 4,
                    proposals@.len() == 16,
                    supported@ == supported_versions(),
                    range == proposals@[4 * k + 1],
                    minor == proposals@[4 * k + 2],
                    major == proposals@[4 * k + 3],
                    low as int == if range >= minor { 0 } else { minor - range },
                    first_covered(major, minor, range, 0) == first_covered(major, minor, range, j as int),
                    negotiate_from(proposals@, 0) == negotiate_from(proposals@, k as int),
                decreases 4 - j,
            {
                let (sup_major, sup_minor) = supported[j];
                if sup_major == major && sup_minor <= minor && sup_minor >= low {
                    return Some((sup_major, sup_minor));
                }
                j += 1;
            }
        }
        k += 1;
    }
    None
}

/// The four reply bytes announcing the negotiated version.
pub fn encode_version(major: u8, minor: u8) -> (r: [u8; 4])
    ensures
        r@ == seq![0u8, 0u8, minor, major],
{
    [0, 0, minor, major]
}

/// The proposals a client of this library sends: version 5.4 together
/// with its three predecessors, then three empty slots.
pub fn default_client_proposals() -> (r: [u8; 16])
    ensures
        r@ == seq![0u8, 3u8, 4u8, 5u8] + Seq::new(12, |i: int| 0u8),
        negotiate_from(r@, 0) == Some((5u8, 4u8)),
{
    let mut proposals: [u8; 16] = [0u8; 16];
    proposals[1] = 3;
    proposals[2] = 4;
    proposals[3] = 5;
    assert(proposals@ =~= seq![0u8, 3u8, 4u8, 5u8] + Seq::new(12, |i: int| 0u8));
    proposals
}

} // verus!
