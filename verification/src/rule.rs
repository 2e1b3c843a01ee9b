//! The rule of the automaton: parsed to the neighbourhoods that give birth
//! and survival, laid out as a table over 3x3 neighbourhoods, and compiled
//! to a table over leaves.

use vstd::prelude::*;
use crate::bits::popcount;
use ca_rules::{ParseNtLife, ParseRuleError};

verus! {

/// `ParseRuleError` of ca_rules: why a string is no rule. Nothing is said of
/// what it holds.
#[verifier::external_type_specification]
#[verifier::external_body]
pub struct ExParseRuleError(ParseRuleError);

/// Why a rule string gives no rule.
#[derive(Debug)]
pub enum RuleError {
    /// The string is no isotropic non-totalistic rule.
    Parse(ParseRuleError),
    /// The rule gives birth in an empty neighbourhood.
    Unsupported,
}

/// The neighbourhoods of a rule: those in which a dead cell is born, and
/// those in which a live cell survives. A neighbourhood is the states of the
/// 8 neighbours as a byte, top-left first.
pub struct NeighborSets {
    /// The neighbourhoods in which a dead cell is born.
    pub b: Vec<u8>,
    /// The neighbourhoods in which a live cell survives.
    pub s: Vec<u8>,
}

impl ParseNtLife for NeighborSets {
    fn from_bs(b: Vec<u8>, s: Vec<u8>) -> (sets: Self)
        ensures
            sets.b == b,
            sets.s == s,
    {
        NeighborSets { b, s }
    }
}

/// The birth and survival neighbourhoods that a rule string stands for, if
/// it is a rule string.
pub uninterp spec fn rule_sets(input: Seq<char>) -> Option<(Seq<u8>, Seq<u8>)>;

/// `ParseNtLife::parse_rule` of ca_rules: parses a rule string, Life-like or
/// isotropic non-totalistic, in B/S, S/B or MAP notation, and hands the two
/// lists of neighbourhoods to `from_bs`.
#[verifier::external_body]
pub(crate) fn parse_sets(input: &str) -> (sets: Result<NeighborSets, ParseRuleError>)
    ensures
        sets matches Ok(v) ==> rule_sets(input@) == Some((v.b@, v.s@)),
        sets is Err ==> rule_sets(input@) is None,
{
    NeighborSets::parse_rule(input)
}

/// The states of the 8 neighbours in the 3x3 neighbourhood `n`, whose 9
/// bits are the rows from the top, the most significant bit first.
pub open spec fn neighbors(n: u16) -> u8 {
    (((n & 0x1e0) >> 1) | (n & 0x0f)) as u8
}

/// Whether the centre cell of the 3x3 neighbourhood `n` is alive.
pub open spec fn center_alive(n: u16) -> bool {
    n & 0x10 != 0
}

/// The 3x3 neighbourhood with the neighbours `code` and a dead centre.
pub open spec fn birth_index(code: u8) -> u16 {
    (((code & 0xf0) as u16) << 1) | ((code & 0x0f) as u16)
}

/// The next state of the centre cell of the 3x3 neighbourhood `n` under the
/// rule with the birth neighbourhoods `b` and the survival neighbourhoods
/// `s`.
pub open spec fn next_state(b: Seq<u8>, s: Seq<u8>, n: u16) -> bool {
    if center_alive(n) {
        s.contains(neighbors(n))
    } else {
        b.contains(neighbors(n))
    }
}

/// A neighbourhood and its index in the table determine each other.
pub proof fn lemma_index(code: u8, n: u16)
    requires
        n < 512,
    ensures
        birth_index(code) < 512,
        !center_alive(birth_index(code)),
        neighbors(birth_index(code)) == code,
        (birth_index(code) | 0x10) < 512,
        center_alive(birth_index(code) | 0x10),
        neighbors(birth_index(code) | 0x10) == code,
        !center_alive(n) ==> birth_index(neighbors(n)) == n,
        center_alive(n) ==> (birth_index(neighbors(n)) | 0x10) == n,
{
    assert(birth_index(code) < 512 && !center_alive(birth_index(code)) && neighbors(
        birth_index(code),
    ) == code && (birth_index(code) | 0x10) < 512 && center_alive(birth_index(code) | 0x10)
        && neighbors(birth_index(code) | 0x10) == code) by (bit_vector);
    assert(n < 512 ==> (!center_alive(n) ==> birth_index(neighbors(n)) == n) && (center_alive(n)
        ==> (birth_index(neighbors(n)) | 0x10) == n)) by (bit_vector);
}

/// A rule without birth in the empty neighbourhood leaves an empty
/// neighbourhood empty.
pub proof fn lemma_nothing_from_nothing(b: Seq<u8>, s: Seq<u8>)
    requires
        !b.contains(0u8),
    ensures
        !next_state(b, s, 0),
{
    assert(neighbors(0) == 0 && !center_alive(0)) by (bit_vector);
}

/// A rule as a table over the 512 neighbourhoods of 3x3 cells: whether the
/// centre cell is alive in the next generation.
pub struct Rule3x3 {
    /// For each 3x3 neighbourhood, whether its centre is alive in the next
    /// generation.
    pub rule_table: [bool; 512],
}

impl Rule3x3 {
    /// The table is that of the rule with the birth neighbourhoods `b` and
    /// the survival neighbourhoods `s`.
    pub open spec fn is_rule(&self, b: Seq<u8>, s: Seq<u8>) -> bool {
        forall|n: u16| n < 512 ==> #[trigger] self.rule_table@[n as int] == next_state(b, s, n)
    }

    /// The table of the rule with the birth neighbourhoods `b` and the
    /// survival neighbourhoods `s`. A rule that gives birth in the empty
    /// neighbourhood is not supported.
    pub fn from_bs(b: Vec<u8>, s: Vec<u8>) -> (rule: Result<Rule3x3, RuleError>)
        ensures
            b@.contains(0u8) <==> rule is Err,
            rule matches Err(e) ==> e is Unsupported,
            rule matches Ok(r) ==> r.is_rule(b@, s@) && !r.rule_table@[0],
    {
        let mut i: usize = 0;
        while i < b.len()
            invariant
                i <= b.len(),
                forall|j: int| 0 <= j < i ==> b@[j] != 0,
            decreases b.len() - i,
        {
            if b[i] == 0 {
                return Err(RuleError::Unsupported);
            }
            i += 1;
        }
        let mut rule_table = [false;512];
        i = 0;
        while i < b.len()
            invariant
                i <= b.len(),
                forall|n: u16|
                    n < 512 ==> #[trigger] rule_table@[n as int] == (!center_alive(n)
                        && b@.subrange(0, i as int).contains(neighbors(n))),
            decreases b.len() - i,
        {
            let code = b[i];
            let index = ((code & 0xf0) as usize) << 1 | (code & 0x0f) as usize;
            proof {
                lemma_index(code, 0);
                assert(index == birth_index(code)) by (bit_vector)
                    requires
                        index == ((code & 0xf0) as usize) << 1 | (code & 0x0f) as usize,
                ;
            }
            rule_table[index] = true;
            proof {
                let before = b@.subrange(0, i as int);
                let after = b@.subrange(0, i + 1);
                assert(after =~= before.push(code));
                assert forall|n: u16| n < 512 implies #[trigger] rule_table@[n as int] == (
                !center_alive(n) && after.contains(neighbors(n))) by {
                    lemma_index(code, n);
                    if after.contains(neighbors(n)) && !before.contains(neighbors(n)) {
                        let j = choose|j: int|
                            0 <= j < after.len() && after[j] == neighbors(n);
                        if j < before.len() {
                            assert(before[j] == neighbors(n));
                        }
                    }
                    if before.contains(neighbors(n)) {
                        let j = choose|j: int|
                            0 <= j < before.len() && before[j] == neighbors(n);
                        assert(after[j] == neighbors(n));
                    }
                    if neighbors(n) == code {
                        assert(after[i as int] == code);
                    }
                }
            }
            i += 1;
        }
        proof {
            assert(b@.subrange(0, b.len() as int) =~= b@);
        }
        i = 0;
        while i < s.len()
            invariant
                i <= s.len(),
                forall|n: u16|
                    n < 512 ==> #[trigger] rule_table@[n as int] == (if center_alive(n) {
                        s@.subrange(0, i as int).contains(neighbors(n))
                    } else {
                        b@.contains(neighbors(n))
                    }),
            decreases s.len() - i,
        {
            let code = s[i];
            let index = ((code & 0xf0) as usize) << 1 | 0x10 | (code & 0x0f) as usize;
            proof {
                lemma_index(code, 0);
                assert(index == (birth_index(code) | 0x10)) by (bit_vector)
                    requires
                        index == ((code & 0xf0) as usize) << 1 | 0x10 | (code & 0x0f) as usize,
                ;
            }
            rule_table[index] = true;
            proof {
                let before = s@.subrange(0, i as int);
                let after = s@.subrange(0, i + 1);
                assert(after =~= before.push(code));
                assert forall|n: u16| n < 512 implies #[trigger] rule_table@[n as int] == (
                if center_alive(n) {
                    after.contains(neighbors(n))
                } else {
                    b@.contains(neighbors(n))
                }) by {
                    lemma_index(code, n);
                    if after.contains(neighbors(n)) && !before.contains(neighbors(n)) {
                        let j = choose|j: int|
                            0 <= j < after.len() && after[j] == neighbors(n);
                        if j < before.len() {
                            assert(before[j] == neighbors(n));
                        }
                    }
                    if before.contains(neighbors(n)) {
                        let j = choose|j: int|
                            0 <= j < before.len() && before[j] == neighbors(n);
                        assert(after[j] == neighbors(n));
                    }
                    if neighbors(n) == code {
                        assert(after[i as int] == code);
                    }
                }
            }
            i += 1;
        }
        proof {
            assert(s@.subrange(0, s.len() as int) =~= s@);
            lemma_nothing_from_nothing(b@, s@);
            assert(rule_table@[0u16 as int] == next_state(b@, s@, 0));
        }
        Ok(Rule3x3 { rule_table })
    }

    /// The table of the rule that `input` stands for.
    pub fn parse_rule(input: &str) -> (rule: Result<Rule3x3, RuleError>)
        ensures
            rule is Ok <==> (rule_sets(input@) matches Some(sets) && !sets.0.contains(0u8)),
            rule matches Ok(r) ==> r.is_rule(
                rule_sets(input@)->Some_0.0,
                rule_sets(input@)->Some_0.1,
            ) && !r.rule_table@[0],
            rule matches Err(e) ==> (e is Parse <==> rule_sets(input@) is None),
    {
        match parse_sets(input) {
            Ok(sets) => Rule3x3::from_bs(sets.b, sets.s),
            Err(e) => Err(RuleError::Parse(e)),
        }
    }
}

/// The 3x3 neighbourhood of the cell at `(-1, -1)` of a leaf.
pub open spec fn window_nw(leaf: u16) -> u16 {
    ((leaf & 0xe000) >> 7) | ((leaf & 0x0e00) >> 6) | ((leaf & 0x00e0) >> 5)
}

/// The 3x3 neighbourhood of the cell at `(0, -1)` of a leaf.
pub open spec fn window_ne(leaf: u16) -> u16 {
    ((leaf & 0x7000) >> 6) | ((leaf & 0x0700) >> 5) | ((leaf & 0x0070) >> 4)
}

/// The 3x3 neighbourhood of the cell at `(-1, 0)` of a leaf.
pub open spec fn window_sw(leaf: u16) -> u16 {
    ((leaf & 0x0e00) >> 3) | ((leaf & 0x00e0) >> 2) | ((leaf & 0x000e) >> 1)
}

/// The 3x3 neighbourhood of the cell at `(0, 0)` of a leaf.
pub open spec fn window_se(leaf: u16) -> u16 {
    ((leaf & 0x0700) >> 2) | ((leaf & 0x0070) >> 1) | (leaf & 0x0007)
}

/// One for a live cell, zero for a dead one.
pub open spec fn flag(alive: bool) -> u8 {
    if alive {
        1
    } else {
        0
    }
}

/// The next state of the inner 2x2 cells of a leaf, in bits 5, 4, 1 and 0,
/// under the rule with the 3x3 table `r`.
pub open spec fn leaf_successor(r: Seq<bool>, leaf: u16) -> u8 {
    (flag(r[window_nw(leaf) as int]) << 5) | (flag(r[window_ne(leaf) as int]) << 4) | (flag(
        r[window_sw(leaf) as int],
    ) << 1) | flag(r[window_se(leaf) as int])
}

/// The four 3x3 neighbourhoods in a leaf are indices of the 3x3 table.
pub proof fn lemma_windows_fit(leaf: u16)
    ensures
        window_nw(leaf) < 512,
        window_ne(leaf) < 512,
        window_sw(leaf) < 512,
        window_se(leaf) < 512,
{
    assert(window_nw(leaf) < 512 && window_ne(leaf) < 512 && window_sw(leaf) < 512 && window_se(
        leaf,
    ) < 512) by (bit_vector);
}

/// Whether the centre of the 3x3 neighbourhood `n` is alive in the next
/// generation of Conway's Game of Life: born with three live neighbours,
/// surviving with two or three.
pub open spec fn life_state(n: u16) -> bool {
    let count = popcount(neighbors(n) as u16);
    if center_alive(n) {
        count == 2 || count == 3
    } else {
        count == 3
    }
}

/// A transition rule as a table over the 65,536 leaves: the entry of a leaf
/// holds, in bits 5, 4, 1 and 0, the next state of the leaf's inner 2x2
/// cells.
#[derive(Clone, Debug)]
pub struct Rule {
    /// For each leaf, the next state of its inner 2x2 cells.
    pub rule_table: [u8; 65536],
}

impl Rule {
    /// The table as a sequence of 65,536 bytes.
    pub open spec fn table(&self) -> Seq<u8> {
        self.rule_table@
    }

    /// The table is compiled from the 3x3 table `r`.
    pub open spec fn compiles(&self, r: Seq<bool>) -> bool {
        forall|leaf: u16| #[trigger] self.rule_table@[leaf as int] == leaf_successor(r, leaf)
    }

    /// The table is that of the rule with the birth neighbourhoods `b` and
    /// the survival neighbourhoods `s`, which gives no birth in the empty
    /// neighbourhood.
    pub open spec fn is_rule(&self, b: Seq<u8>, s: Seq<u8>) -> bool {
        exists|r: Rule3x3|
            r.is_rule(b, s) && !r.rule_table@[0] && #[trigger] self.compiles(r.rule_table@)
    }

    /// The table is that of Conway's Game of Life.
    pub open spec fn is_life(&self) -> bool {
        exists|r: Rule3x3|
            (forall|n: u16| n < 512 ==> #[trigger] r.rule_table@[n as int] == life_state(n))
                && !r.rule_table@[0] && #[trigger] self.compiles(r.rule_table@)
    }

    /// Compiles a table over 3x3 neighbourhoods to a table over leaves.
    pub fn from(rule_3x3: Rule3x3) -> (rule: Rule)
        ensures
            rule.compiles(rule_3x3.rule_table@),
    {
        let mut rule_table = [0u8;65536];
        let mut i: usize = 0;
        while i < 65536
            invariant
                i <= 65536,
                forall|leaf: u16|
                    leaf < i ==> #[trigger] rule_table@[leaf as int] == leaf_successor(
                        rule_3x3.rule_table@,
                        leaf,
                    ),
            decreases 65536 - i,
        {
            let leaf = i as u16;
            proof {
                lemma_windows_fit(leaf);
            }
            let nw_3x3 = ((leaf & 0xe000) >> 7 | (leaf & 0x0e00) >> 6 | (leaf & 0x00e0)
                >> 5) as usize;
            let ne_3x3 = ((leaf & 0x7000) >> 6 | (leaf & 0x0700) >> 5 | (leaf & 0x0070)
                >> 4) as usize;
            let sw_3x3 = ((leaf & 0x0e00) >> 3 | (leaf & 0x00e0) >> 2 | (leaf & 0x000e)
                >> 1) as usize;
            let se_3x3 = ((leaf & 0x0700) >> 2 | (leaf & 0x0070) >> 1 | (leaf & 0x0007)) as usize;
            let nw: u8 = if rule_3x3.rule_table[nw_3x3] {
                1
            } else {
                0
            };
            let ne: u8 = if rule_3x3.rule_table[ne_3x3] {
                1
            } else {
                0
            };
            let sw: u8 = if rule_3x3.rule_table[sw_3x3] {
                1
            } else {
                0
            };
            let se: u8 = if rule_3x3.rule_table[se_3x3] {
                1
            } else {
                0
            };
            rule_table[i] = nw << 5 | ne << 4 | sw << 1 | se;
            i += 1;
        }
        Rule { rule_table }
    }

    /// The table over leaves of the rule with the birth neighbourhoods `b`
    /// and the survival neighbourhoods `s`. A rule that gives birth in the
    /// empty neighbourhood is not supported.
    pub fn from_bs(b: Vec<u8>, s: Vec<u8>) -> (rule: Result<Rule, RuleError>)
        ensures
            b@.contains(0u8) <==> rule is Err,
            rule matches Err(e) ==> e is Unsupported,
            rule matches Ok(r) ==> r.is_rule(b@, s@),
    {
        match Rule3x3::from_bs(b, s) {
            Ok(rule_3x3) => Ok(Rule::from(rule_3x3)),
            Err(e) => Err(e),
        }
    }

    /// The table over leaves of the rule that `input` stands for: a parse
    /// error if it stands for none, unsupported if the rule gives birth in
    /// the empty neighbourhood.
    pub fn parse_rule(input: &str) -> (rule: Result<Rule, RuleError>)
        ensures
            rule is Ok <==> (rule_sets(input@) matches Some(sets) && !sets.0.contains(0u8)),
            rule matches Ok(r) ==> r.is_rule(
                rule_sets(input@)->Some_0.0,
                rule_sets(input@)->Some_0.1,
            ),
            rule matches Err(e) ==> (e is Parse <==> rule_sets(input@) is None),
    {
        match Rule3x3::parse_rule(input) {
            Ok(rule_3x3) => Ok(Rule::from(rule_3x3)),
            Err(e) => Err(e),
        }
    }

    /// The rule of Conway's Game of Life, `B3/S23`.
    pub fn life() -> (rule: Rule)
        ensures
            rule.is_life(),
    {
        let mut rule_table = [false;512];
        let mut i: usize = 0;
        while i < 512
            invariant
                i <= 512,
                forall|n: u16| n < i ==> #[trigger] rule_table@[n as int] == life_state(n),
            decreases 512 - i,
        {
            let n = i as u16;
            let count = ((n & 0x1e0) >> 1 | (n & 0x0f)).count_ones();
            proof {
                assert(neighbors(n) as u16 == ((n & 0x1e0) >> 1 | (n & 0x0f))) by (bit_vector)
                    requires
                        n < 512,
                ;
            }
            rule_table[i] = if n & 0x10 != 0 {
                count == 2 || count == 3
            } else {
                count == 3
            };
            i += 1;
        }
        proof {
            assert(!life_state(0)) by {
                assert(neighbors(0) == 0 && !center_alive(0)) by (bit_vector);
                crate::bits::lemma_leaf_zero(0);
            }
            assert(rule_table@[0u16 as int] == life_state(0));
        }
        Rule::from(Rule3x3 { rule_table })
    }
}

impl std::str::FromStr for Rule {
    type Err = RuleError;

    fn from_str(s: &str) -> (rule: Result<Self, Self::Err>)
        ensures
            rule is Ok <==> (rule_sets(s@) matches Some(sets) && !sets.0.contains(0u8)),
            rule matches Ok(r) ==> r.is_rule(rule_sets(s@)->Some_0.0, rule_sets(s@)->Some_0.1),
            rule matches Err(e) ==> (e is Parse <==> rule_sets(s@) is None),
    {
        Rule::parse_rule(s)
    }
}

} // verus!
