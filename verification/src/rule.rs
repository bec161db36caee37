//! Non-totalistic life-like rules.

use crate::bits::{
    lemma_below_bit, lemma_dead_pane, lemma_field_ranges, lemma_fields_determine, lemma_pack_fields,
    lemma_pack_nbhd, lemma_panes_of_nbhd, lemma_settle_neighbour, lemma_unknown_bit,
    lemma_unknown_pane, lemma_unknown_range,
};
use crate::deduce::{
    after_conflict, after_trans, alive_of, dead_of, desc_valid, implied_upto,
    lemma_forced_all_known, lemma_forced_known_neighbour, lemma_split_neighbour, lemma_split_own,
    lemma_succ_flags_known, lemma_succ_flags_meaning, lemma_succ_flags_split, own_of, pack_spec,
    succ_of, table_entry, unknown_of, ALIVE, CONFLICT, DEAD, SELF_ALIVE, SELF_DEAD, SUCC_ALIVE,
    SUCC_DEAD, TABLE_SIZE, UNKNOWN,
};
use crate::desc::Desc;
use crate::error::Error;
use vstd::prelude::*;

verus! {

/// The `b` and `s` data that the parser hands over.
pub struct BsData {
    /// The neighbourhoods in which a dead cell is born.
    pub b: Vec<u8>,
    /// The neighbourhoods in which a living cell survives.
    pub s: Vec<u8>,
}

impl ca_rules::ParseNtLife for BsData {
    /// Keeps the `b` and `s` data as the parser hands them over.
    fn from_bs(b: Vec<u8>, s: Vec<u8>) -> (data: Self)
        ensures
            data.b == b,
            data.s == s,
    {
        BsData { b, s }
    }
}

/// The `b` and `s` data that the parser of non-totalistic life-like rules
/// reads from a rule string, or `None` where it refuses the string.
pub uninterp spec fn parsed_nt_life(input: Seq<char>) -> Option<(Seq<u8>, Seq<u8>)>;

/// Calls `ca_rules::ParseNtLife::parse_rule`. The parser reads nothing but
/// its argument, so what it returns is a function of the string; the
/// contract gives that function a name and claims nothing else.
#[verifier::external_body]
fn parse_nt_life(input: &str) -> (res: Result<BsData, ca_rules::ParseRuleError>)
    ensures
        match res {
            Ok(data) => parsed_nt_life(input@) == Some((data.b@, data.s@)),
            Err(_) => parsed_nt_life(input@).is_none(),
        },
{
    ca_rules::ParseNtLife::parse_rule(input)
}

/// Packs four fields into a descriptor.
fn pack(own: u32, succ: u32, alive: u32, dead: u32) -> (d: u32)
    requires
        own < 4,
        succ < 4,
        alive < 256,
        dead < 256,
    ensures
        d == pack_spec(own, succ, alive, dead),
        d < 0x100000,
        own_of(d) == own,
        succ_of(d) == succ,
        alive_of(d) == alive,
        dead_of(d) == dead,
{
    proof {
        lemma_pack_fields(own, succ, alive, dead);
    }
    dead << 12 | alive << 4 | succ << 2 | own
}

/// The dead pane that goes with a set of living and a set of unknown
/// neighbours.
fn dead_pane(alive: u32, unknown: u32) -> (dead: u32)
    requires
        alive < 256,
        unknown < 256,
        alive & unknown == 0,
    ensures
        dead == 0xff & !alive & !unknown,
        dead < 256,
        alive & dead == 0,
        unknown_of(alive, dead) == unknown,
{
    proof {
        lemma_dead_pane(alive, unknown);
    }
    0xff & !alive & !unknown
}

/// Adds flags to a table entry.
fn with_flags(entry: u32, flags: u32) -> (r: u32)
    ensures
        r == entry | flags,
        entry == 0 ==> r == flags,
        flags == 0 ==> r == entry,
{
    assert(0u32 | flags == flags) by (bit_vector);
    assert(entry | 0u32 == entry) by (bit_vector);
    entry | flags
}

/// Whether a byte occurs in a list.
fn contains_byte(list: &Vec<u8>, byte: u8) -> (found: bool)
    ensures
        found == list@.contains(byte),
{
    let mut i: usize = 0;
    while i < list.len()
        invariant
            i <= list.len(),
            forall|j: int| 0 <= j < i ==> list@[j] != byte,
        decreases list.len() - i,
    {
        if list[i] == byte {
            return true;
        }
        i += 1;
    }
    false
}

/// The highest neighbour in a non-empty set, as a position.
fn top_neighbour(set: u32) -> (i: u32)
    requires
        0 < set < 256,
    ensures
        i < 8,
        set & (1u32 << i) != 0,
{
    let mut k: u32 = 8;
    proof {
        lemma_below_bit(set, k);
    }
    while set & (1u32 << (k - 1)) == 0
        invariant
            1 <= k <= 8,
            0 < set < (1u32 << k),
        decreases k,
    {
        proof {
            lemma_below_bit(set, k);
        }
        k -= 1;
    }
    k - 1
}

/// Non-totalistic life-like rules.
///
/// This includes any rule that can be converted to a non-totalistic
/// life-like rule: isotropic non-totalistic rules, non-isotropic rules,
/// hexagonal rules, rules with von Neumann neighbourhoods, etc.
pub struct Rule {
    /// Whether the rule contains `B0`.
    pub(crate) b0: bool,
    /// An array of actions for all neighbourhood descriptors.
    impl_table: Vec<u32>,
    /// The neighbourhoods in which a dead cell is born.
    b: Ghost<Seq<u8>>,
    /// The neighbourhoods in which a living cell survives.
    s: Ghost<Seq<u8>>,
}

impl Rule {
    /// The neighbourhoods in which a dead cell is born.
    pub closed spec fn birth(&self) -> Seq<u8> {
        self.b@
    }

    /// The neighbourhoods in which a living cell survives.
    pub closed spec fn survival(&self) -> Seq<u8> {
        self.s@
    }

    /// The implication table.
    pub closed spec fn table(&self) -> Seq<u32> {
        self.impl_table@
    }

    /// Whether the rule contains `B0`.
    pub closed spec fn contains_b0(&self) -> bool {
        self.b0
    }

    /// The table holds, for every descriptor, the implication flags that the
    /// rule gives it.
    pub open spec fn wf(&self) -> bool {
        &&& self.table().len() == TABLE_SIZE
        &&& forall|d: u32|
            d < 0x100000 ==> #[trigger] self.table()[d as int] == table_entry(
                self.birth(),
                self.survival(),
                d,
            )
        &&& self.contains_b0() == self.birth().contains(0u8)
    }

    /// Constructs a new rule from the `b` and `s` data.
    pub fn new(b: Vec<u8>, s: Vec<u8>) -> (rule: Rule)
        ensures
            rule.wf(),
            rule.birth() == b@,
            rule.survival() == s@,
    {
        let b0 = contains_byte(&b, 0);
        let impl_table = vec![0u32; TABLE_SIZE];
        let mut rule = Rule { b0, impl_table, b: Ghost(b@), s: Ghost(s@) };
        rule.init_trans(&b, &s);
        rule.init_conflict();
        rule.init_impl();
        rule.init_impl_nbhd();
        rule
    }

    /// Parses a rule string and builds the rule that it denotes.
    ///
    /// The string is accepted exactly when the parser accepts it, and the
    /// rule is then built from the parser's `b` and `s` data.
    pub fn parse_rule(input: &str) -> (res: Result<Rule, Error>)
        ensures
            match parsed_nt_life(input@) {
                Some((b, s)) => res is Ok && res->Ok_0.wf() && res->Ok_0.birth() == b
                    && res->Ok_0.survival() == s,
                None => res is Err && res->Err_0 is ParseRuleError,
            },
    {
        match parse_nt_life(input) {
            Ok(data) => Ok(Rule::new(data.b, data.s)),
            Err(e) => Err(Error::ParseRuleError(e)),
        }
    }

    /// Whether the rule contains `B0`: whether a dead cell with no living
    /// neighbour is born.
    pub fn has_b0(&self) -> (b0: bool)
        requires
            self.wf(),
        ensures
            b0 == self.birth().contains(0u8),
    {
        self.b0
    }

    /// Looks up the implication flags of a descriptor.
    pub fn implication(&self, desc: Desc) -> (flags: u32)
        requires
            self.wf(),
            desc.bits() < 0x100000,
        ensures
            flags == table_entry(self.birth(), self.survival(), desc.bits()),
    {
        self.impl_table[desc.0 as usize]
    }

    /// Two rules built from the same `b` and `s` data have the same table:
    /// the table is a function of the data.
    pub proof fn lemma_table_determined(&self, other: &Rule)
        requires
            self.wf(),
            other.wf(),
            self.birth() == other.birth(),
            self.survival() == other.survival(),
        ensures
            self.table() == other.table(),
            self.contains_b0() == other.contains_b0(),
    {
        assert forall|i: int| 0 <= i < self.table().len() implies self.table()[i]
            == other.table()[i] by {
            let d = i as u32;
            assert(self.table()[d as int] == other.table()[d as int]);
        }
        assert(self.table() =~= other.table());
    }

    /// Deduces the implication for the successor.
    fn init_trans(&mut self, b: &Vec<u8>, s: &Vec<u8>)
        requires
            old(self).impl_table@.len() == TABLE_SIZE,
            forall|d: u32| d < 0x100000 ==> #[trigger] old(self).impl_table@[d as int] == 0,
        ensures
            final(self).impl_table@.len() == TABLE_SIZE,
            forall|d: u32|
                d < 0x100000 ==> #[trigger] final(self).impl_table@[d as int] == after_trans(
                    b@,
                    s@,
                    d,
                ),
            final(self).b0 == old(self).b0,
            final(self).b == old(self).b,
            final(self).s == old(self).s,
    {
        // Fills in the positions of the neighbourhood descriptors
        // that have no unknown neighbours.
        let ghost start = *self;
        let mut alives: u32 = 0;
        while alives < 256
            invariant
                alives <= 256,
                self.impl_table@.len() == TABLE_SIZE,
                self.b0 == start.b0,
                self.b == start.b,
                self.s == start.s,
                forall|d: u32|
                    d < 0x100000 ==> #[trigger] self.impl_table@[d as int] == if unknown_of(
                        alive_of(d),
                        dead_of(d),
                    ) == 0 && alive_of(d) < alives {
                        after_trans(b@, s@, d)
                    } else {
                        0
                    },
            decreases 256 - alives,
        {
            assert(alives & 0 == 0) by (bit_vector);
            let dead = dead_pane(alives, 0);
            let in_b = contains_byte(b, alives as u8);
            let in_s = contains_byte(s, alives as u8);
            let d_dead = pack(DEAD, UNKNOWN, alives, dead);
            let d_alive = pack(ALIVE, UNKNOWN, alives, dead);
            let d_unknown = pack(UNKNOWN, UNKNOWN, alives, dead);
            let ghost before = self.impl_table@;
            self.impl_table.set(d_dead as usize, if in_b { SUCC_ALIVE } else { SUCC_DEAD });
            self.impl_table.set(d_alive as usize, if in_s { SUCC_ALIVE } else { SUCC_DEAD });
            self.impl_table.set(
                d_unknown as usize,
                if in_b && in_s {
                    SUCC_ALIVE
                } else if !in_b && !in_s {
                    SUCC_DEAD
                } else {
                    0
                },
            );
            proof {
                lemma_succ_flags_known(b@, s@, alives, dead);
                assert forall|d: u32| d < 0x100000 implies #[trigger] self.impl_table@[d as int]
                    == if unknown_of(alive_of(d), dead_of(d)) == 0 && alive_of(d) < alives + 1 {
                    after_trans(b@, s@, d)
                } else {
                    0
                } by {
                    lemma_field_ranges(d);
                    if unknown_of(alive_of(d), dead_of(d)) == 0 && alive_of(d) == alives {
                        if desc_valid(d) && succ_of(d) == UNKNOWN {
                            lemma_unknown_pane(alive_of(d), dead_of(d));
                            if own_of(d) == DEAD {
                                lemma_fields_determine(d, d_dead);
                            } else if own_of(d) == ALIVE {
                                lemma_fields_determine(d, d_alive);
                            } else {
                                lemma_fields_determine(d, d_unknown);
                            }
                        }
                    }
                }
            }
            alives += 1;
        }

        // Fills in the other positions.
        let mut unknowns: u32 = 1;
        while unknowns < 256
            invariant
                1 <= unknowns <= 256,
                self.impl_table@.len() == TABLE_SIZE,
                self.b0 == start.b0,
                self.b == start.b,
                self.s == start.s,
                forall|d: u32|
                    d < 0x100000 ==> #[trigger] self.impl_table@[d as int] == if unknown_of(
                        alive_of(d),
                        dead_of(d),
                    ) < unknowns {
                        after_trans(b@, s@, d)
                    } else {
                        0
                    },
            decreases 256 - unknowns,
        {
            // `i` is the position of the highest unknown neighbour.
            let i = top_neighbour(unknowns);
            let mut alives: u32 = 0;
            while alives < 256
                invariant
                    alives <= 256,
                    1 <= unknowns < 256,
                    i < 8,
                    unknowns & (1u32 << i) != 0,
                    self.impl_table@.len() == TABLE_SIZE,
                    self.b0 == start.b0,
                    self.b == start.b,
                    self.s == start.s,
                    forall|d: u32|
                        d < 0x100000 ==> #[trigger] self.impl_table@[d as int] == if unknown_of(
                            alive_of(d),
                            dead_of(d),
                        ) < unknowns || (unknown_of(alive_of(d), dead_of(d)) == unknowns
                            && alive_of(d) < alives) {
                            after_trans(b@, s@, d)
                        } else {
                            0
                        },
                decreases 256 - alives,
            {
                if alives & unknowns == 0 {
                    let dead = dead_pane(alives, unknowns);
                    proof {
                        lemma_unknown_bit(alives, dead, i);
                        lemma_settle_neighbour(alives, dead, i);
                    }
                    let mut k: u32 = 0;
                    while k < 3
                        invariant
                            k <= 3,
                            alives < 256,
                            1 <= unknowns < 256,
                            i < 8,
                            dead < 256,
                            dead == 0xff & !alives & !unknowns,
                            alives & dead == 0,
                            unknown_of(alives, dead) == unknowns,
                            (alives | dead) & (1u32 << i) == 0,
                            self.impl_table@.len() == TABLE_SIZE,
                            self.b0 == start.b0,
                            self.b == start.b,
                            self.s == start.s,
                            forall|d: u32|
                                d < 0x100000 ==> #[trigger] self.impl_table@[d as int]
                                    == if unknown_of(alive_of(d), dead_of(d)) < unknowns || (
                                unknown_of(alive_of(d), dead_of(d)) == unknowns && (alive_of(d)
                                    < alives || (alive_of(d) == alives && own_of(d) + k > 2))) {
                                    after_trans(b@, s@, d)
                                } else {
                                    0
                                },
                        decreases 3 - k,
                    {
                        let state = 2 - k;
                        proof {
                            lemma_settle_neighbour(alives, dead, i);
                        }
                        let d = pack(state, UNKNOWN, alives, dead);
                        let d0 = pack(state, UNKNOWN, alives, dead | (1u32 << i));
                        let d1 = pack(state, UNKNOWN, alives | (1u32 << i), dead);
                        let trans0 = self.impl_table[d0 as usize];
                        let trans1 = self.impl_table[d1 as usize];
                        if trans0 == trans1 {
                            let entry = self.impl_table[d as usize];
                            self.impl_table.set(d as usize, with_flags(entry, trans0));
                        }
                        proof {
                            lemma_succ_flags_split(b@, s@, state, alives, dead, i);
                            assert forall|e: u32| e < 0x100000 implies #[trigger]
                                self.impl_table@[e as int] == if unknown_of(
                                alive_of(e),
                                dead_of(e),
                            ) < unknowns || (unknown_of(alive_of(e), dead_of(e)) == unknowns && (
                            alive_of(e) < alives || (alive_of(e) == alives && own_of(e) + (k + 1)
                                > 2))) {
                                after_trans(b@, s@, e)
                            } else {
                                0
                            } by {
                                lemma_field_ranges(e);
                                if unknown_of(alive_of(e), dead_of(e)) == unknowns && alive_of(e)
                                    == alives && own_of(e) == state && desc_valid(e) && succ_of(e)
                                    == UNKNOWN {
                                    lemma_unknown_pane(alive_of(e), dead_of(e));
                                    lemma_fields_determine(e, d);
                                }
                            }
                        }
                        k += 1;
                    }
                } else {
                    proof {
                        assert forall|e: u32| e < 0x100000 && unknown_of(alive_of(e), dead_of(e))
                            == unknowns && alive_of(e) == alives implies !desc_valid(e) by {
                            lemma_field_ranges(e);
                            if desc_valid(e) {
                                lemma_unknown_pane(alive_of(e), dead_of(e));
                            }
                        }
                    }
                }
                alives += 1;
            }
            unknowns += 1;
        }
        proof {
            assert forall|d: u32| d < 0x100000 implies unknown_of(alive_of(d), dead_of(d))
                < 256 by {
                lemma_unknown_range(alive_of(d), dead_of(d));
            }
        }
    }

    /// Deduces the conflicts.
    fn init_conflict(&mut self)
        requires
            old(self).impl_table@.len() == TABLE_SIZE,
            forall|d: u32|
                d < 0x100000 ==> #[trigger] old(self).impl_table@[d as int] == after_trans(
                    old(self).b@,
                    old(self).s@,
                    d,
                ),
        ensures
            final(self).impl_table@.len() == TABLE_SIZE,
            forall|d: u32|
                d < 0x100000 ==> #[trigger] final(self).impl_table@[d as int] == after_conflict(
                    old(self).b@,
                    old(self).s@,
                    d,
                ),
            final(self).b0 == old(self).b0,
            final(self).b == old(self).b,
            final(self).s == old(self).s,
    {
        let ghost start = *self;
        let ghost b = self.b@;
        let ghost s = self.s@;
        let mut nbhd: u32 = 0;
        while nbhd < 0xffff
            invariant
                nbhd <= 0xffff,
                self.impl_table@.len() == TABLE_SIZE,
                self.b0 == start.b0,
                self.b == start.b,
                self.s == start.s,
                b == start.b@,
                s == start.s@,
                forall|d: u32|
                    d < 0x100000 ==> #[trigger] self.impl_table@[d as int] == if nbhd_of(d)
                        < nbhd {
                        after_conflict(b, s, d)
                    } else {
                        after_trans(b, s, d)
                    },
            decreases 0xffff - nbhd,
        {
            let mut k: u32 = 0;
            while k < 3
                invariant
                    k <= 3,
                    nbhd < 0xffff,
                    self.impl_table@.len() == TABLE_SIZE,
                    self.b0 == start.b0,
                    self.b == start.b,
                    self.s == start.s,
                    b == start.b@,
                    s == start.s@,
                    forall|d: u32|
                        d < 0x100000 ==> #[trigger] self.impl_table@[d as int] == if nbhd_of(d)
                            < nbhd || (nbhd_of(d) == nbhd && own_of(d) + k > 2) {
                            after_conflict(b, s, d)
                        } else {
                            after_trans(b, s, d)
                        },
                decreases 3 - k,
            {
                let state = 2 - k;
                proof {
                    lemma_pack_nbhd(nbhd, UNKNOWN, state);
                    lemma_pack_nbhd(nbhd, DEAD, state);
                    lemma_pack_nbhd(nbhd, ALIVE, state);
                }
                let alives = nbhd & 0xff;
                let dead = nbhd >> 8;
                let desc = pack(state, UNKNOWN, alives, dead);
                let flags = self.impl_table[desc as usize];
                proof {
                    lemma_pack_fields(state, DEAD, alives, dead);
                    lemma_pack_fields(state, ALIVE, alives, dead);
                    if desc_valid(desc) {
                        lemma_succ_flags_meaning(b, s, state, alives, dead);
                    }
                }
                if excluded(flags, DEAD) {
                    let conflict = pack(state, DEAD, alives, dead);
                    self.impl_table.set(conflict as usize, CONFLICT);
                } else if excluded(flags, ALIVE) {
                    let conflict = pack(state, ALIVE, alives, dead);
                    self.impl_table.set(conflict as usize, CONFLICT);
                }
                proof {
                    assert forall|e: u32| e < 0x100000 implies #[trigger]
                        self.impl_table@[e as int] == if nbhd_of(e) < nbhd || (nbhd_of(e) == nbhd
                        && own_of(e) + (k + 1) > 2) {
                        after_conflict(b, s, e)
                    } else {
                        after_trans(b, s, e)
                    } by {
                        lemma_field_ranges(e);
                        lemma_panes_of_nbhd(e);
                        if nbhd_of(e) == nbhd && own_of(e) == state {
                            if succ_of(e) == UNKNOWN {
                                lemma_fields_determine(e, desc);
                            } else if succ_of(e) == DEAD {
                                lemma_fields_determine(e, pack_spec(state, DEAD, alives, dead));
                            } else if succ_of(e) == ALIVE {
                                lemma_fields_determine(e, pack_spec(state, ALIVE, alives, dead));
                            }
                        }
                    }
                }
                k += 1;
            }
            nbhd += 1;
        }
        proof {
            assert forall|d: u32| d < 0x100000 implies #[trigger] self.impl_table@[d as int]
                == after_conflict(b, s, d) by {
                lemma_panes_of_nbhd(d);
            }
        }
    }

    /// Deduces the implication for the cell itself.
    fn init_impl(&mut self)
        requires
            old(self).impl_table@.len() == TABLE_SIZE,
            forall|d: u32|
                d < 0x100000 ==> #[trigger] old(self).impl_table@[d as int] == after_conflict(
                    old(self).b@,
                    old(self).s@,
                    d,
                ),
        ensures
            final(self).impl_table@.len() == TABLE_SIZE,
            forall|d: u32|
                d < 0x100000 ==> #[trigger] final(self).impl_table@[d as int] == implied_upto(
                    old(self).b@,
                    old(self).s@,
                    own_of(d),
                    succ_of(d),
                    alive_of(d),
                    dead_of(d),
                    0,
                ),
            final(self).b0 == old(self).b0,
            final(self).b == old(self).b,
            final(self).s == old(self).s,
    {
        let ghost start = *self;
        let ghost b = self.b@;
        let ghost s = self.s@;
        let mut unknowns: u32 = 0;
        while unknowns < 256
            invariant
                unknowns <= 256,
                self.impl_table@.len() == TABLE_SIZE,
                self.b0 == start.b0,
                self.b == start.b,
                self.s == start.s,
                b == start.b@,
                s == start.s@,
                forall|d: u32|
                    d < 0x100000 ==> #[trigger] self.impl_table@[d as int] == if unknown_of(
                        alive_of(d),
                        dead_of(d),
                    ) < unknowns {
                        implied_upto(b, s, own_of(d), succ_of(d), alive_of(d), dead_of(d), 0)
                    } else {
                        after_conflict(b, s, d)
                    },
            decreases 256 - unknowns,
        {
            let mut alives: u32 = 0;
            while alives < 256
                invariant
                    alives <= 256,
                    unknowns < 256,
                    self.impl_table@.len() == TABLE_SIZE,
                    self.b0 == start.b0,
                    self.b == start.b,
                    self.s == start.s,
                    b == start.b@,
                    s == start.s@,
                    forall|d: u32|
                        d < 0x100000 ==> #[trigger] self.impl_table@[d as int] == if unknown_of(
                            alive_of(d),
                            dead_of(d),
                        ) < unknowns || (unknown_of(alive_of(d), dead_of(d)) == unknowns
                            && alive_of(d) < alives) {
                            implied_upto(b, s, own_of(d), succ_of(d), alive_of(d), dead_of(d), 0)
                        } else {
                            after_conflict(b, s, d)
                        },
                decreases 256 - alives,
            {
                if alives & unknowns == 0 {
                    let dead = dead_pane(alives, unknowns);
                    let mut k: u32 = 0;
                    while k < 2
                        invariant
                            k <= 2,
                            alives < 256,
                            unknowns < 256,
                            dead < 256,
                            dead == 0xff & !alives & !unknowns,
                            alives & dead == 0,
                            unknown_of(alives, dead) == unknowns,
                            self.impl_table@.len() == TABLE_SIZE,
                            self.b0 == start.b0,
                            self.b == start.b,
                            self.s == start.s,
                            b == start.b@,
                            s == start.s@,
                            forall|d: u32|
                                d < 0x100000 ==> #[trigger] self.impl_table@[d as int]
                                    == if unknown_of(alive_of(d), dead_of(d)) < unknowns || (
                                unknown_of(alive_of(d), dead_of(d)) == unknowns && (alive_of(d)
                                    < alives || (alive_of(d) == alives && succ_of(d) + k > 2))) {
                                    implied_upto(
                                        b,
                                        s,
                                        own_of(d),
                                        succ_of(d),
                                        alive_of(d),
                                        dead_of(d),
                                        0,
                                    )
                                } else {
                                    after_conflict(b, s, d)
                                },
                        decreases 2 - k,
                    {
                        let succ_state = 2 - k;
                        let d_dead = pack(DEAD, UNKNOWN, alives, dead);
                        let d_alive = pack(ALIVE, UNKNOWN, alives, dead);
                        proof {
                            lemma_succ_flags_meaning(b, s, DEAD, alives, dead);
                            lemma_succ_flags_meaning(b, s, ALIVE, alives, dead);
                            lemma_split_own(b, s, succ_state, alives, dead);
                        }
                        let possibly_dead = !excluded(self.impl_table[d_dead as usize], succ_state);
                        let possibly_alive = !excluded(
                            self.impl_table[d_alive as usize],
                            succ_state,
                        );
                        let index = pack(UNKNOWN, succ_state, alives, dead);
                        if possibly_dead && !possibly_alive {
                            let entry = self.impl_table[index as usize];
                            self.impl_table.set(index as usize, with_flags(entry, SELF_DEAD));
                        } else if !possibly_dead && possibly_alive {
                            let entry = self.impl_table[index as usize];
                            self.impl_table.set(index as usize, with_flags(entry, SELF_ALIVE));
                        } else if !possibly_dead && !possibly_alive {
                            self.impl_table.set(index as usize, CONFLICT);
                        }
                        proof {
                            assert forall|e: u32| e < 0x100000 implies #[trigger]
                                self.impl_table@[e as int] == if unknown_of(
                                alive_of(e),
                                dead_of(e),
                            ) < unknowns || (unknown_of(alive_of(e), dead_of(e)) == unknowns && (
                            alive_of(e) < alives || (alive_of(e) == alives && succ_of(e) + (k + 1)
                                > 2))) {
                                implied_upto(
                                    b,
                                    s,
                                    own_of(e),
                                    succ_of(e),
                                    alive_of(e),
                                    dead_of(e),
                                    0,
                                )
                            } else {
                                after_conflict(b, s, e)
                            } by {
                                lemma_field_ranges(e);
                                if unknown_of(alive_of(e), dead_of(e)) == unknowns && alive_of(e)
                                    == alives && succ_of(e) == succ_state && desc_valid(e) {
                                    lemma_unknown_pane(alive_of(e), dead_of(e));
                                    if own_of(e) == UNKNOWN {
                                        lemma_fields_determine(e, index);
                                    }
                                }
                            }
                        }
                        k += 1;
                    }
                } else {
                    proof {
                        assert forall|e: u32| e < 0x100000 && unknown_of(alive_of(e), dead_of(e))
                            == unknowns && alive_of(e) == alives implies !desc_valid(e) by {
                            lemma_field_ranges(e);
                            if desc_valid(e) {
                                lemma_unknown_pane(alive_of(e), dead_of(e));
                            }
                        }
                    }
                }
                alives += 1;
            }
            unknowns += 1;
        }
        proof {
            assert forall|d: u32| d < 0x100000 implies unknown_of(alive_of(d), dead_of(d))
                < 256 by {
                lemma_unknown_range(alive_of(d), dead_of(d));
            }
        }
    }

    /// Deduces the implication for the neighbours.
    fn init_impl_nbhd(&mut self)
        requires
            old(self).impl_table@.len() == TABLE_SIZE,
            forall|d: u32|
                d < 0x100000 ==> #[trigger] old(self).impl_table@[d as int] == implied_upto(
                    old(self).b@,
                    old(self).s@,
                    own_of(d),
                    succ_of(d),
                    alive_of(d),
                    dead_of(d),
                    0,
                ),
        ensures
            final(self).impl_table@.len() == TABLE_SIZE,
            forall|d: u32|
                d < 0x100000 ==> #[trigger] final(self).impl_table@[d as int] == table_entry(
                    old(self).b@,
                    old(self).s@,
                    d,
                ),
            final(self).b0 == old(self).b0,
            final(self).b == old(self).b,
            final(self).s == old(self).s,
    {
        let ghost start = *self;
        let ghost b = self.b@;
        let ghost s = self.s@;
        proof {
            assert forall|d: u32| d < 0x100000 implies #[trigger] self.impl_table@[d as int]
                == implied_upto(
                b,
                s,
                own_of(d),
                succ_of(d),
                alive_of(d),
                dead_of(d),
                positions_done(d, 1, 0, 0, 0, 0),
            ) by {
                if unknown_of(alive_of(d), dead_of(d)) == 0 {
                    lemma_forced_all_known(
                        b,
                        s,
                        own_of(d),
                        succ_of(d),
                        alive_of(d),
                        dead_of(d),
                        8,
                    );
                }
            }
        }
        let mut unknowns: u32 = 1;
        while unknowns < 256
            invariant
                1 <= unknowns <= 256,
                self.impl_table@.len() == TABLE_SIZE,
                self.b0 == start.b0,
                self.b == start.b,
                self.s == start.s,
                b == start.b@,
                s == start.s@,
                forall|d: u32|
                    d < 0x100000 ==> #[trigger] self.impl_table@[d as int] == implied_upto(
                        b,
                        s,
                        own_of(d),
                        succ_of(d),
                        alive_of(d),
                        dead_of(d),
                        positions_done(d, unknowns, 0, 0, 0, 0),
                    ),
            decreases 256 - unknowns,
        {
            // `i` runs through the positions of all unknown neighbours.
            let mut i: u32 = 0;
            while i < 8
                invariant
                    i <= 8,
                    1 <= unknowns < 256,
                    self.impl_table@.len() == TABLE_SIZE,
                    self.b0 == start.b0,
                    self.b == start.b,
                    self.s == start.s,
                    b == start.b@,
                    s == start.s@,
                    forall|d: u32|
                        d < 0x100000 ==> #[trigger] self.impl_table@[d as int] == implied_upto(
                            b,
                            s,
                            own_of(d),
                            succ_of(d),
                            alive_of(d),
                            dead_of(d),
                            positions_done(d, unknowns, i, 0, 0, 0),
                        ),
                decreases 8 - i,
            {
                if unknowns & (1u32 << i) != 0 {
                    let mut alives: u32 = 0;
                    while alives < 256
                        invariant
                            alives <= 256,
                            i < 8,
                            1 <= unknowns < 256,
                            unknowns & (1u32 << i) != 0,
                            self.impl_table@.len() == TABLE_SIZE,
                            self.b0 == start.b0,
                            self.b == start.b,
                            self.s == start.s,
                            b == start.b@,
                            s == start.s@,
                            forall|d: u32|
                                d < 0x100000 ==> #[trigger] self.impl_table@[d as int]
                                    == implied_upto(
                                    b,
                                    s,
                                    own_of(d),
                                    succ_of(d),
                                    alive_of(d),
                                    dead_of(d),
                                    positions_done(d, unknowns, i, alives, 0, 0),
                                ),
                        decreases 256 - alives,
                    {
                        if alives & unknowns == 0 {
                            let dead = dead_pane(alives, unknowns);
                            proof {
                                lemma_unknown_bit(alives, dead, i);
                                lemma_settle_neighbour(alives, dead, i);
                            }
                            let mut k2: u32 = 0;
                            while k2 < 2
                                invariant
                                    k2 <= 2,
                                    alives < 256,
                                    i < 8,
                                    1 <= unknowns < 256,
                                    dead < 256,
                                    dead == 0xff & !alives & !unknowns,
                                    alives & dead == 0,
                                    unknown_of(alives, dead) == unknowns,
                                    (alives | dead) & (1u32 << i) == 0,
                                    self.impl_table@.len() == TABLE_SIZE,
                                    self.b0 == start.b0,
                                    self.b == start.b,
                                    self.s == start.s,
                                    b == start.b@,
                                    s == start.s@,
                                    forall|d: u32|
                                        d < 0x100000 ==> #[trigger] self.impl_table@[d as int]
                                            == implied_upto(
                                            b,
                                            s,
                                            own_of(d),
                                            succ_of(d),
                                            alive_of(d),
                                            dead_of(d),
                                            positions_done(d, unknowns, i, alives, k2, 0),
                                        ),
                                decreases 2 - k2,
                            {
                                let succ_state = 2 - k2;
                                let mut k3: u32 = 0;
                                while k3 < 3
                                    invariant
                                        k3 <= 3,
                                        k2 < 2,
                                        succ_state == 2 - k2,
                                        alives < 256,
                                        i < 8,
                                        1 <= unknowns < 256,
                                        dead < 256,
                                        dead == 0xff & !alives & !unknowns,
                                        alives & dead == 0,
                                        unknown_of(alives, dead) == unknowns,
                                        (alives | dead) & (1u32 << i) == 0,
                                        self.impl_table@.len() == TABLE_SIZE,
                                        self.b0 == start.b0,
                                        self.b == start.b,
                                        self.s == start.s,
                                        b == start.b@,
                                        s == start.s@,
                                        forall|d: u32|
                                            d < 0x100000 ==> #[trigger] self.impl_table@[d as int]
                                                == implied_upto(
                                                b,
                                                s,
                                                own_of(d),
                                                succ_of(d),
                                                alive_of(d),
                                                dead_of(d),
                                                positions_done(d, unknowns, i, alives, k2, k3),
                                            ),
                                    decreases 3 - k3,
                                {
                                    let state = 2 - k3;
                                    proof {
                                        lemma_settle_neighbour(alives, dead, i);
                                        lemma_succ_flags_meaning(
                                            b,
                                            s,
                                            state,
                                            alives,
                                            dead | (1u32 << i),
                                        );
                                        lemma_succ_flags_meaning(
                                            b,
                                            s,
                                            state,
                                            alives | (1u32 << i),
                                            dead,
                                        );
                                        lemma_split_neighbour(
                                            b,
                                            s,
                                            state,
                                            succ_state,
                                            alives,
                                            dead,
                                            i,
                                        );
                                    }
                                    let d0 = pack(state, UNKNOWN, alives, dead | (1u32 << i));
                                    let d1 = pack(state, UNKNOWN, alives | (1u32 << i), dead);
                                    let possibly_dead = !excluded(
                                        self.impl_table[d0 as usize],
                                        succ_state,
                                    );
                                    let possibly_alive = !excluded(
                                        self.impl_table[d1 as usize],
                                        succ_state,
                                    );
                                    let index = pack(state, succ_state, alives, dead);
                                    let ghost entry_before = self.impl_table@[index as int];
                                    if possibly_dead && !possibly_alive {
                                        let entry = self.impl_table[index as usize];
                                        self.impl_table.set(
                                            index as usize,
                                            with_flags(entry, 1u32 << (2 * i + 7)),
                                        );
                                    } else if !possibly_dead && possibly_alive {
                                        let entry = self.impl_table[index as usize];
                                        self.impl_table.set(
                                            index as usize,
                                            with_flags(entry, 1u32 << (2 * i + 6)),
                                        );
                                    } else if !possibly_dead && !possibly_alive {
                                        self.impl_table.set(index as usize, CONFLICT);
                                    }
                                    proof {
                                        assert(entry_before | 0u32 == entry_before)
                                            by (bit_vector);
                                        assert forall|e: u32| e < 0x100000 implies #[trigger]
                                            self.impl_table@[e as int] == implied_upto(
                                            b,
                                            s,
                                            own_of(e),
                                            succ_of(e),
                                            alive_of(e),
                                            dead_of(e),
                                            positions_done(e, unknowns, i, alives, k2, (k3
                                                + 1) as u32),
                                        ) by {
                                            lemma_field_ranges(e);
                                            if unknown_of(alive_of(e), dead_of(e)) == unknowns
                                                && alive_of(e) == alives && succ_of(e)
                                                == succ_state && own_of(e) == state
                                                && desc_valid(e) {
                                                lemma_unknown_pane(alive_of(e), dead_of(e));
                                                lemma_fields_determine(e, index);
                                            }
                                        }
                                    }
                                    k3 += 1;
                                }
                                k2 += 1;
                            }
                        } else {
                            proof {
                                assert forall|e: u32|
                                    e < 0x100000 && unknown_of(alive_of(e), dead_of(e))
                                        == unknowns && alive_of(e)
                                        == alives implies !desc_valid(e) by {
                                    lemma_field_ranges(e);
                                    if desc_valid(e) {
                                        lemma_unknown_pane(alive_of(e), dead_of(e));
                                    }
                                }
                            }
                        }
                        alives += 1;
                    }
                    proof {
                        assert forall|e: u32| e < 0x100000 implies alive_of(e) < 256 by {
                            lemma_field_ranges(e);
                        }
                    }
                } else {
                    proof {
                        assert forall|e: u32| e < 0x100000 implies #[trigger]
                            self.impl_table@[e as int] == implied_upto(
                            b,
                            s,
                            own_of(e),
                            succ_of(e),
                            alive_of(e),
                            dead_of(e),
                            positions_done(e, unknowns, (i + 1) as u32, 0, 0, 0),
                        ) by {
                            if unknown_of(alive_of(e), dead_of(e)) == unknowns {
                                lemma_forced_known_neighbour(
                                    b,
                                    s,
                                    own_of(e),
                                    succ_of(e),
                                    alive_of(e),
                                    dead_of(e),
                                    i,
                                );
                            }
                        }
                    }
                }
                i += 1;
            }
            unknowns += 1;
        }
        proof {
            assert forall|d: u32| d < 0x100000 implies unknown_of(alive_of(d), dead_of(d))
                < 256 by {
                lemma_unknown_range(alive_of(d), dead_of(d));
            }
        }
    }
}

/// The neighbourhood part of a descriptor: both panes.
pub open spec fn nbhd_of(d: u32) -> u32 {
    (d >> 4) & 0xffff
}

/// How many neighbour positions of the descriptor `d` the last pass has dealt
/// with, when its loops stand at the given counters.
pub open spec fn positions_done(d: u32, unknowns: u32, i: u32, alives: u32, k2: u32,
    k3: u32) -> nat {
    let u = unknown_of(alive_of(d), dead_of(d));
    if u < unknowns {
        8
    } else if u > unknowns {
        0
    } else if alive_of(d) < alives || (alive_of(d) == alives && (succ_of(d) + k2 > 2 || (succ_of(d)
        + k2 == 2 && own_of(d) + k3 > 2))) {
        (i + 1) as nat
    } else {
        i as nat
    }
}

/// Whether what is forced on an unknown successor rules out the state
/// `succ`.
fn excluded(trans: u32, succ: u32) -> (r: bool)
    requires
        trans == 0 || trans == SUCC_ALIVE || trans == SUCC_DEAD,
        succ == DEAD || succ == ALIVE,
    ensures
        r == if succ == DEAD {
            trans == SUCC_ALIVE
        } else {
            trans == SUCC_DEAD
        },
{
    let flag = if succ == DEAD {
        SUCC_ALIVE | CONFLICT
    } else {
        SUCC_DEAD | CONFLICT
    };
    assert((trans & (4u32 | 1u32) != 0) == (trans == 4) && (trans & (8u32 | 1u32) != 0) == (trans
        == 8)) by (bit_vector)
        requires
            trans == 0 || trans == 4 || trans == 8,
    ;
    trans & flag != 0
}

} // verus!
