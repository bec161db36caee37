//! Facts about the bit patterns of descriptors and implication flags.
//!
//! Everything here is arithmetic on fixed-width integers, settled by the
//! bit-vector solver once so that the rest of the crate can reason with
//! plain equalities.

use vstd::prelude::*;

verus! {

/// The four fields of a packed descriptor can be read back.
pub proof fn lemma_pack_fields(own: u32, succ: u32, alive: u32, dead: u32)
    by (bit_vector)
    requires
        own < 4,
        succ < 4,
        alive < 256,
        dead < 256,
    ensures
        (dead << 12 | alive << 4 | succ << 2 | own) < 0x100000,
        (dead << 12 | alive << 4 | succ << 2 | own) & 3 == own,
        ((dead << 12 | alive << 4 | succ << 2 | own) >> 2) & 3 == succ,
        ((dead << 12 | alive << 4 | succ << 2 | own) >> 4) & 0xff == alive,
        ((dead << 12 | alive << 4 | succ << 2 | own) >> 12) & 0xff == dead,
{
}

/// The fields of a descriptor are in range.
pub proof fn lemma_field_ranges(d: u32)
    by (bit_vector)
    ensures
        d & 3 < 4,
        (d >> 2) & 3 < 4,
        (d >> 4) & 0xff < 256,
        (d >> 12) & 0xff < 256,
{
}

/// Two descriptors with the same four fields are the same descriptor.
pub proof fn lemma_fields_determine(x: u32, y: u32)
    by (bit_vector)
    requires
        x < 0x100000,
        y < 0x100000,
        x & 3 == y & 3,
        (x >> 2) & 3 == (y >> 2) & 3,
        (x >> 4) & 0xff == (y >> 4) & 0xff,
        (x >> 12) & 0xff == (y >> 12) & 0xff,
    ensures
        x == y,
{
}

/// The two panes of a descriptor are the two bytes of its neighbourhood part.
pub proof fn lemma_panes_of_nbhd(d: u32)
    by (bit_vector)
    ensures
        (d >> 4) & 0xff == ((d >> 4) & 0xffff) & 0xff,
        (d >> 12) & 0xff == ((d >> 4) & 0xffff) >> 8,
        (d >> 4) & 0xffff < 0x10000,
        ((d >> 4) & 0xffff == 0xffff) ==> ((d >> 4) & 0xff) & ((d >> 12) & 0xff) != 0,
{
}

/// A neighbourhood part and an own state pack like the four fields do.
pub proof fn lemma_pack_nbhd(nbhd: u32, succ: u32, own: u32)
    by (bit_vector)
    requires
        nbhd < 0x10000,
        succ < 4,
        own < 4,
    ensures
        (nbhd >> 8) < 256,
        (nbhd & 0xff) < 256,
        (nbhd >> 8) << 12 | (nbhd & 0xff) << 4 | succ << 2 | own == nbhd << 4 | succ << 2 | own,
        ((nbhd << 4 | succ << 2 | own) >> 4) & 0xffff == nbhd,
{
}

/// With `unknown` the set of unknown neighbours and `alive` the set of
/// living ones, the remaining neighbours are dead, and the three sets
/// partition the eight positions.
pub proof fn lemma_dead_pane(alive: u32, unknown: u32)
    by (bit_vector)
    requires
        alive < 256,
        unknown < 256,
        alive & unknown == 0,
    ensures
        (0xff & !alive & !unknown) < 256,
        alive & (0xff & !alive & !unknown) == 0,
        0xff & !(alive | (0xff & !alive & !unknown)) == unknown,
{
}

/// The set of unknown neighbours determines the dead pane from the alive one.
pub proof fn lemma_unknown_pane(alive: u32, dead: u32)
    by (bit_vector)
    requires
        alive < 256,
        dead < 256,
        alive & dead == 0,
    ensures
        (0xff & !(alive | dead)) < 256,
        alive & (0xff & !(alive | dead)) == 0,
        0xff & !alive & !(0xff & !(alive | dead)) == dead,
{
}

/// Settling one unknown neighbour, either way, leaves a valid pair of panes
/// with a smaller set of unknown neighbours.
pub proof fn lemma_settle_neighbour(alive: u32, dead: u32, i: u32)
    by (bit_vector)
    requires
        alive < 256,
        dead < 256,
        alive & dead == 0,
        i < 8,
        (alive | dead) & (1u32 << i) == 0,
    ensures
        (alive | (1u32 << i)) < 256,
        (dead | (1u32 << i)) < 256,
        (alive | (1u32 << i)) & dead == 0,
        alive & (dead | (1u32 << i)) == 0,
        0xff & !((alive | (1u32 << i)) | dead) == (0xff & !(alive | dead)) & !(1u32 << i),
        0xff & !(alive | (dead | (1u32 << i))) == (0xff & !(alive | dead)) & !(1u32 << i),
        (0xff & !(alive | dead)) & !(1u32 << i) < 0xff & !(alive | dead),
        (0xff & !(alive | dead)) & (1u32 << i) != 0,
{
}

/// A full assignment of the neighbours either has neighbour `i` alive or not.
pub proof fn lemma_completion_cases(full: u32, alive: u32, dead: u32, i: u32)
    by (bit_vector)
    requires
        i < 8,
        (alive | dead) & (1u32 << i) == 0,
    ensures
        (full & alive == alive && full & dead == 0) <==> ((full & (alive | (1u32 << i)) == (alive
            | (1u32 << i)) && full & dead == 0) || (full & alive == alive && full & (dead | (1u32
            << i)) == 0)),
{
}

/// When no neighbour is unknown the only full assignment is the alive pane.
pub proof fn lemma_completion_known(full: u32, alive: u32, dead: u32)
    by (bit_vector)
    requires
        full < 256,
        alive < 256,
        dead < 256,
        alive & dead == 0,
        0xff & !(alive | dead) == 0,
    ensures
        (full & alive == alive && full & dead == 0) <==> full == alive,
{
}

/// The alive pane itself is a full assignment.
pub proof fn lemma_completion_exists(alive: u32, dead: u32)
    by (bit_vector)
    requires
        alive & dead == 0,
    ensures
        alive & alive == alive,
{
}

/// A set of unknown neighbours fits in eight bits.
pub proof fn lemma_unknown_range(alive: u32, dead: u32)
    by (bit_vector)
    ensures
        0xff & !(alive | dead) < 256,
{
}

/// An unknown neighbour is in neither pane.
pub proof fn lemma_unknown_bit(alive: u32, dead: u32, i: u32)
    by (bit_vector)
    requires
        i < 8,
        (0xff & !(alive | dead)) & (1u32 << i) != 0,
    ensures
        (alive | dead) & (1u32 << i) == 0,
{
}

/// A neighbour that is not unknown is in one of the panes.
pub proof fn lemma_known_bit(alive: u32, dead: u32, i: u32)
    by (bit_vector)
    requires
        i < 8,
        (0xff & !(alive | dead)) & (1u32 << i) == 0,
    ensures
        (alive | dead) & (1u32 << i) != 0,
{
}

/// The implication flags are single bits, each at a place of its own.
pub proof fn lemma_flag_bits(i: u32, j: u32)
    by (bit_vector)
    requires
        i < 8,
        j < 8,
    ensures
        (1u32 << (2 * i + 6)) != 0,
        (1u32 << (2 * i + 7)) != 0,
        (1u32 << (2 * i + 6)) != (1u32 << (2 * i + 7)),
        (1u32 << (2 * i + 6)) & 0x3d == 0,
        (1u32 << (2 * i + 7)) & 0x3d == 0,
        (1u32 << (2 * i + 6)) & ((1u32 << (2 * i + 6)) | (1u32 << (2 * i + 7))) != 0,
        (1u32 << (2 * i + 7)) & ((1u32 << (2 * i + 6)) | (1u32 << (2 * i + 7))) != 0,
        (1u32 << (2 * i + 6)) & (1u32 << (2 * i + 7)) == 0,
        (1u32 << (2 * i + 7)) & (1u32 << (2 * i + 7)) != 0,
        0x10u32 & ((1u32 << (2 * i + 6)) | (1u32 << (2 * i + 7))) == 0,
        0x20u32 & ((1u32 << (2 * i + 6)) | (1u32 << (2 * i + 7))) == 0,
        0x10u32 & (1u32 << (2 * i + 7)) == 0,
        0x20u32 & (1u32 << (2 * i + 7)) == 0,
        i != j ==> (1u32 << (2 * j + 6)) & ((1u32 << (2 * i + 6)) | (1u32 << (2 * i + 7))) == 0,
        i != j ==> (1u32 << (2 * j + 7)) & ((1u32 << (2 * i + 6)) | (1u32 << (2 * i + 7))) == 0,
        i != j ==> (1u32 << (2 * j + 6)) & (1u32 << (2 * i + 7)) == 0,
        i != j ==> (1u32 << (2 * j + 7)) & (1u32 << (2 * i + 7)) == 0,
        0x10u32 & 0x0d == 0,
        0x20u32 & 0x0d == 0,
        0x10u32 & 0x30 != 0,
        0x20u32 & 0x30 != 0,
        0x10u32 & 0x20 == 0,
        0x20u32 & 0x20 != 0,
        0x04u32 & 0x01 == 0,
        0x08u32 & 0x01 == 0,
        0x04u32 & 0x0c != 0,
        0x08u32 & 0x0c != 0,
        0x04u32 & 0x08 == 0,
        0x08u32 & 0x08 != 0,
        0x08u32 | 0x04 == 0x0c,
        0x20u32 | 0x10 == 0x30,
{
}

/// A flag is set in the union of two sets of flags when it is set in one of
/// them; the empty set has no flag.
pub proof fn lemma_or_mask(x: u32, y: u32, mask: u32)
    by (bit_vector)
    ensures
        ((x | y) & mask != 0) == (x & mask != 0 || y & mask != 0),
        0u32 & mask == 0,
{
}

/// What a full assignment says of neighbour `i` once that neighbour is set
/// in a pane.
pub proof fn lemma_completion_bit(full: u32, alive: u32, dead: u32, i: u32)
    by (bit_vector)
    requires
        i < 8,
    ensures
        full & (alive | (1u32 << i)) == (alive | (1u32 << i)) ==> full & (1u32 << i) != 0,
        full & (dead | (1u32 << i)) == 0 ==> full & (1u32 << i) == 0,
{
}

/// A set of neighbours below position `k` that lacks position `k - 1` lies
/// below that position, and only the empty set lies below position 0.
pub proof fn lemma_below_bit(set: u32, k: u32)
    by (bit_vector)
    requires
        1 <= k <= 8,
    ensures
        k == 8 ==> (1u32 << k) == 256,
        set < (1u32 << k) && set & (1u32 << ((k - 1) as u32)) == 0 ==> set < (1u32 << ((k
            - 1) as u32)),
        k == 1 && set < (1u32 << ((k - 1) as u32)) ==> set == 0,
{
}

} // verus!
