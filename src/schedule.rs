use vstd::prelude::*;
use vstd::string::*;
use crate::error::{ConfigFault, ScheduleEntry, SeirdError};

verus! {

/// Number of characters in the fixed prefix `age_grp_` of a group's schedule key.
pub const GROUP_KEY_PREFIX_LEN: usize = 8;

pub open spec fn group_key_prefix() -> Seq<char> {
    seq!['a', 'g', 'e', '_', 'g', 'r', 'p', '_']
}

/// The key under which the global efficacy is stored: `eff`.
pub open spec fn efficacy_key() -> Seq<char> {
    seq!['e', 'f', 'f']
}

pub open spec fn is_digit(ch: char) -> bool {
    '0' <= ch && ch <= '9'
}

pub open spec fn digit_value(ch: char) -> nat {
    (ch as int - '0' as int) as nat
}

/// The number that a string of decimal digits denotes.
pub open spec fn decimal_value(s: Seq<char>) -> nat
    decreases s.len(),
{
    if s.len() == 0 {
        0
    } else {
        decimal_value(s.drop_last()) * 10 + digit_value(s.last())
    }
}

/// `key` is `age_grp_` followed by the decimal numeral, without leading zeros, of `g + 1`:
/// the key of group `g` (groups are numbered from 1 in keys, from 0 elsewhere).
pub open spec fn names_group(key: Seq<char>, g: nat) -> bool {
    let digits = key.subrange(GROUP_KEY_PREFIX_LEN as int, key.len() as int);
    &&& key.len() > GROUP_KEY_PREFIX_LEN
    &&& key.subrange(0, GROUP_KEY_PREFIX_LEN as int) == group_key_prefix()
    &&& forall|i: int| 0 <= i < digits.len() ==> is_digit(#[trigger] digits[i])
    &&& digits[0] != '0'
    &&& decimal_value(digits) == g + 1
}

proof fn lemma_decimal_value_grows(s: Seq<char>, k: int)
    requires
        0 <= k <= s.len(),
    ensures
        decimal_value(s.take(k)) <= decimal_value(s),
    decreases s.len(),
{
    if k < s.len() {
        lemma_decimal_value_grows(s.drop_last(), k);
        assert(s.drop_last().take(k) =~= s.take(k));
    } else {
        assert(s.take(k) =~= s);
    }
}

/// The group, among the first `groups`, whose schedule key is `key`, if any.
pub fn group_of_key(key: &str, groups: usize) -> (r: Option<usize>)
    ensures
        match r {
            Some(g) => g < groups && names_group(key@, g as nat),
            None => forall|g: nat| g < groups ==> !names_group(key@, g),
        },
{
    proof {
        reveal_strlit("age_grp_");
    }
    let prefix = "age_grp_";
    let n = key.unicode_len();
    if n <= GROUP_KEY_PREFIX_LEN {
        return None;
    }
    let mut i: usize = 0;
    while i < GROUP_KEY_PREFIX_LEN
        invariant
            n == key@.len(),
            n > GROUP_KEY_PREFIX_LEN,
            prefix@ == group_key_prefix(),
            i <= GROUP_KEY_PREFIX_LEN,
            key@.subrange(0, i as int) == group_key_prefix().take(i as int),
        decreases GROUP_KEY_PREFIX_LEN - i,
    {
        if key.get_char(i) != prefix.get_char(i) {
            proof {
                assert(key@.subrange(0, GROUP_KEY_PREFIX_LEN as int)[i as int] != group_key_prefix()[i as int]);
            }
            return None;
        }
        assert(key@.subrange(0, i + 1) =~= group_key_prefix().take(i + 1));
        i = i + 1;
    }
    assert(group_key_prefix().take(GROUP_KEY_PREFIX_LEN as int) =~= group_key_prefix());
    let ghost digits = key@.subrange(GROUP_KEY_PREFIX_LEN as int, n as int);
    if key.get_char(GROUP_KEY_PREFIX_LEN) == '0' {
        assert(digits[0] == '0');
        return None;
    }
    let mut value: usize = 0;
    while i < n
        invariant
            n == key@.len(),
            GROUP_KEY_PREFIX_LEN <= i <= n,
            digits == key@.subrange(GROUP_KEY_PREFIX_LEN as int, n as int),
            digits[0] != '0',
            key@.subrange(0, GROUP_KEY_PREFIX_LEN as int) == group_key_prefix(),
            forall|j: int| 0 <= j < i - GROUP_KEY_PREFIX_LEN ==> is_digit(#[trigger] digits[j]),
            value == decimal_value(digits.take(i - GROUP_KEY_PREFIX_LEN)),
            value <= groups,
        decreases n - i,
    {
        let ch = key.get_char(i);
        let k = i - GROUP_KEY_PREFIX_LEN;
        assert(digits[k as int] == ch);
        if ch < '0' || ch > '9' {
            return None;
        }
        assert(digits.take(k + 1).drop_last() =~= digits.take(k as int));
        let d = (ch as u32 - '0' as u32) as usize;
        proof {
            lemma_decimal_value_grows(digits, k + 1);
        }
        if d > groups || value > (groups - d) / 10 {
            proof {
                assert(value * 10 + d > groups) by (nonlinear_arith)
                    requires
                        d > groups || value > (groups - d) / 10,
                ;
            }
            return None;
        }
        proof {
            assert(value * 10 + d <= groups) by (nonlinear_arith)
                requires
                    value <= (groups - d) / 10,
                    d <= groups,
            ;
        }
        value = value * 10 + d;
        i = i + 1;
    }
    assert(digits.take(n - GROUP_KEY_PREFIX_LEN) =~= digits);
    if value == 0 {
        return None;
    }
    Some(value - 1)
}

/// Whether `key` is the efficacy key `eff`.
pub fn is_efficacy_key(key: &str) -> (r: bool)
    ensures
        r == (key@ == efficacy_key()),
{
    proof {
        reveal_strlit("eff");
    }
    let eff = "eff";
    if key.unicode_len() != 3 {
        return false;
    }
    let mut i: usize = 0;
    while i < 3
        invariant
            key@.len() == 3,
            eff@ == efficacy_key(),
            i <= 3,
            key@.take(i as int) == efficacy_key().take(i as int),
        decreases 3 - i,
    {
        if key.get_char(i) != eff.get_char(i) {
            return false;
        }
        assert(key@.take(i + 1) =~= efficacy_key().take(i + 1));
        i = i + 1;
    }
    assert(key@ =~= key@.take(3));
    assert(efficacy_key() =~= efficacy_key().take(3));
    true
}

/// `p` is the first position of `keys` that holds the key of group `g`.
pub open spec fn first_group_entry(keys: Seq<String>, g: nat, p: nat) -> bool {
    &&& p < keys.len()
    &&& names_group(keys[p as int]@, g)
    &&& forall|q: nat| q < p ==> !names_group(#[trigger] keys[q as int]@, g)
}

/// `p` is the first position of `keys` that holds the efficacy key.
pub open spec fn first_efficacy_entry(keys: Seq<String>, p: nat) -> bool {
    &&& p < keys.len()
    &&& keys[p as int]@ == efficacy_key()
    &&& forall|q: nat| q < p ==> #[trigger] keys[q as int]@ != efficacy_key()
}

pub open spec fn has_group_entry(keys: Seq<String>, g: nat) -> bool {
    exists|p: nat| p < keys.len() && names_group(#[trigger] keys[p as int]@, g)
}

pub open spec fn has_efficacy_entry(keys: Seq<String>) -> bool {
    exists|p: nat| p < keys.len() && #[trigger] keys[p as int]@ == efficacy_key()
}

/// Every one of the first `groups` groups, and the efficacy, has an entry.
pub open spec fn schedule_complete(keys: Seq<String>, groups: nat) -> bool {
    &&& forall|g: nat| g < groups ==> has_group_entry(keys, g)
    &&& has_efficacy_entry(keys)
}

/// Some entry that a lookup would use holds the wrong number of values: a group's entry
/// must hold a rate, a window start and a window end; the efficacy entry one value.
pub open spec fn schedule_misshapen(keys: Seq<String>, lens: Seq<usize>, groups: nat) -> bool {
    ||| exists|g: nat, p: nat| g < groups && #[trigger] first_group_entry(keys, g, p) && lens[p as int] != 3
    ||| exists|p: nat| #[trigger] first_efficacy_entry(keys, p) && lens[p as int] != 1
}

/// Where each entry of a vaccination schedule stands in its list of keys.
pub struct ScheduleIndex {
    group_entries: Vec<usize>,
    efficacy_entry: usize,
}

impl ScheduleIndex {
    pub closed spec fn spec_group_entries(&self) -> Seq<usize> {
        self.group_entries@
    }

    pub closed spec fn spec_efficacy_entry(&self) -> nat {
        self.efficacy_entry as nat
    }

    /// Position of the entry of group `g`.
    pub fn group_entry(&self, g: usize) -> (r: usize)
        requires
            g < self.spec_group_entries().len(),
        ensures
            r == self.spec_group_entries()[g as int],
    {
        self.group_entries[g]
    }

    /// Position of the efficacy entry.
    pub fn efficacy_entry(&self) -> (r: usize)
        ensures
            r == self.spec_efficacy_entry(),
    {
        self.efficacy_entry
    }
}

fn find_group_entry(keys: &Vec<String>, g: usize, groups: usize) -> (r: Option<usize>)
    requires
        g < groups,
    ensures
        match r {
            Some(p) => first_group_entry(keys@, g as nat, p as nat),
            None => !has_group_entry(keys@, g as nat),
        },
{
    let mut p: usize = 0;
    while p < keys.len()
        invariant
            g < groups,
            p <= keys@.len(),
            forall|q: nat| q < p ==> !names_group(#[trigger] keys@[q as int]@, g as nat),
        decreases keys@.len() - p,
    {
        if group_of_key(keys[p].as_str(), groups) == Some(g) {
            return Some(p);
        }
        p = p + 1;
    }
    None
}

fn find_efficacy_entry(keys: &Vec<String>) -> (r: Option<usize>)
    ensures
        match r {
            Some(p) => first_efficacy_entry(keys@, p as nat),
            None => !has_efficacy_entry(keys@),
        },
{
    let mut p: usize = 0;
    while p < keys.len()
        invariant
            p <= keys@.len(),
            forall|q: nat| q < p ==> #[trigger] keys@[q as int]@ != efficacy_key(),
        decreases keys@.len() - p,
    {
        if is_efficacy_key(keys[p].as_str()) {
            return Some(p);
        }
        p = p + 1;
    }
    None
}

/// Finds, for a vaccination schedule given as parallel lists of keys and of the number of
/// values under each key, the entry of each of the first `groups` groups and of the
/// efficacy. The first missing group entry is reported first, then a missing efficacy,
/// then an entry of the wrong size; where a key occurs twice its first occurrence counts.
pub fn locate_schedule(keys: &Vec<String>, lens: &Vec<usize>, groups: usize) -> (r: Result<ScheduleIndex, SeirdError>)
    requires
        lens@.len() == keys@.len(),
    ensures
        r is Ok <==> schedule_complete(keys@, groups as nat) && !schedule_misshapen(keys@, lens@, groups as nat),
        match r {
            Ok(index) => {
                &&& index.spec_group_entries().len() == groups
                &&& forall|g: nat| g < groups ==> first_group_entry(keys@, g, #[trigger] index.spec_group_entries()[g as int] as nat)
                &&& first_efficacy_entry(keys@, index.spec_efficacy_entry())
            },
            Err(SeirdError::MissingScheduleEntry(ScheduleEntry::Group(g))) => {
                &&& g < groups
                &&& !has_group_entry(keys@, g as nat)
                &&& forall|h: nat| h < g ==> has_group_entry(keys@, h)
            },
            Err(SeirdError::MissingScheduleEntry(ScheduleEntry::Efficacy)) => {
                &&& forall|g: nat| g < groups ==> has_group_entry(keys@, g)
                &&& !has_efficacy_entry(keys@)
            },
            Err(SeirdError::InvalidConfiguration(ConfigFault::ScheduleEntryShape)) => {
                &&& schedule_complete(keys@, groups as nat)
                &&& schedule_misshapen(keys@, lens@, groups as nat)
            },
            Err(_) => false,
        },
{
    let mut entries: Vec<usize> = Vec::with_capacity(groups);
    let mut g: usize = 0;
    while g < groups
        invariant
            g <= groups,
            entries@.len() == g,
            forall|h: nat| h < g ==> first_group_entry(keys@, h, #[trigger] entries@[h as int] as nat),
        decreases groups - g,
    {
        match find_group_entry(keys, g, groups) {
            Some(p) => entries.push(p),
            None => {
                assert forall|h: nat| h < g implies has_group_entry(keys@, h) by {
                    assert(first_group_entry(keys@, h, entries@[h as int] as nat));
                }
                return Err(SeirdError::MissingScheduleEntry(ScheduleEntry::Group(g)));
            },
        }
        g = g + 1;
    }
    assert forall|h: nat| h < groups implies has_group_entry(keys@, h) by {
        assert(first_group_entry(keys@, h, entries@[h as int] as nat));
    }
    let eff = match find_efficacy_entry(keys) {
        Some(p) => p,
        None => return Err(SeirdError::MissingScheduleEntry(ScheduleEntry::Efficacy)),
    };
    proof {
        assert(keys@[eff as int]@ == efficacy_key());
    }
    let mut g: usize = 0;
    while g < groups
        invariant
            g <= groups,
            entries@.len() == groups,
            lens@.len() == keys@.len(),
            forall|h: nat| h < groups ==> first_group_entry(keys@, h, #[trigger] entries@[h as int] as nat),
            forall|h: nat| h < g ==> lens@[#[trigger] entries@[h as int] as int] == 3,
            schedule_complete(keys@, groups as nat),
            first_efficacy_entry(keys@, eff as nat),
        decreases groups - g,
    {
        if lens[entries[g]] != 3 {
            assert(first_group_entry(keys@, g as nat, entries@[g as int] as nat));
            assert(schedule_misshapen(keys@, lens@, groups as nat));
            return Err(SeirdError::InvalidConfiguration(ConfigFault::ScheduleEntryShape));
        }
        g = g + 1;
    }
    if lens[eff] != 1 {
        assert(first_efficacy_entry(keys@, eff as nat));
        assert(schedule_complete(keys@, groups as nat));
        assert(schedule_misshapen(keys@, lens@, groups as nat));
        return Err(SeirdError::InvalidConfiguration(ConfigFault::ScheduleEntryShape));
    }
    proof {
        assert forall|h: nat, p: nat| h < groups && #[trigger] first_group_entry(keys@, h, p) implies lens@[p as int] == 3 by {
            assert(first_group_entry(keys@, h, entries@[h as int] as nat));
            let e = entries@[h as int] as nat;
            if p < e {
                assert(!names_group(keys@[p as int]@, h));
            } else if e < p {
                assert(!names_group(keys@[e as int]@, h));
            }
        }
        assert forall|p: nat| #[trigger] first_efficacy_entry(keys@, p) implies lens@[p as int] == 1 by {
            if p < eff {
                assert(keys@[p as int]@ != efficacy_key());
            } else if eff < p {
                assert(keys@[eff as int]@ != efficacy_key());
            }
        }
    }
    Ok(ScheduleIndex { group_entries: entries, efficacy_entry: eff })
}

} // verus!
