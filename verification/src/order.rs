//! How two entries of one directory stand to each other under a sort key.

use crate::args::SortArgs;
use crate::entry::{Entry, Slot};
use vstd::prelude::*;

verus! {

/// How one value stands to another in an order.
#[derive(Debug, Clone, Copy, PartialEq, Eq, Structural)]
pub enum Rank {
    Less,
    Equal,
    Greater,
}

impl Rank {
    /// The rank of the same two values taken the other way round.
    pub open spec fn flipped(self) -> Rank {
        match self {
            Rank::Less => Rank::Greater,
            Rank::Equal => Rank::Equal,
            Rank::Greater => Rank::Less,
        }
    }

    /// The rank of the same two values taken the other way round.
    pub fn flip(self) -> (r: Rank)
        ensures
            r == self.flipped(),
    {
        match self {
            Rank::Less => Rank::Greater,
            Rank::Equal => Rank::Equal,
            Rank::Greater => Rank::Less,
        }
    }
}

/// How two integers stand to each other.
pub open spec fn rank_of(a: int, b: int) -> Rank {
    if a < b {
        Rank::Less
    } else if a > b {
        Rank::Greater
    } else {
        Rank::Equal
    }
}

/// Lexicographic order of two byte strings: the first byte that differs
/// decides, and a proper prefix comes first.
pub open spec fn lex(a: Seq<u8>, b: Seq<u8>) -> Rank
    decreases a.len(),
{
    if a.len() == 0 {
        if b.len() == 0 {
            Rank::Equal
        } else {
            Rank::Less
        }
    } else if b.len() == 0 {
        Rank::Greater
    } else if a[0] < b[0] {
        Rank::Less
    } else if a[0] > b[0] {
        Rank::Greater
    } else {
        lex(a.skip(1), b.skip(1))
    }
}

/// Taking two byte strings the other way round flips their rank.
pub proof fn lemma_lex_flips(a: Seq<u8>, b: Seq<u8>)
    ensures
        lex(b, a) == lex(a, b).flipped(),
    decreases a.len(),
{
    if a.len() > 0 && b.len() > 0 && a[0] == b[0] {
        lemma_lex_flips(a.skip(1), b.skip(1));
    }
}

/// The lexicographic order is transitive, strictly so where one step is
/// strict.
pub proof fn lemma_lex_chains(a: Seq<u8>, b: Seq<u8>, c: Seq<u8>)
    requires
        lex(a, b) != Rank::Greater,
        lex(b, c) != Rank::Greater,
    ensures
        lex(a, c) != Rank::Greater,
        lex(a, b) == Rank::Less || lex(b, c) == Rank::Less ==> lex(a, c) == Rank::Less,
    decreases a.len(),
{
    if a.len() > 0 && b.len() > 0 && c.len() > 0 && a[0] == b[0] && b[0] == c[0] {
        lemma_lex_chains(a.skip(1), b.skip(1), c.skip(1));
    }
}

/// Only equal byte strings rank equal.
pub proof fn lemma_lex_equal(a: Seq<u8>, b: Seq<u8>)
    ensures
        lex(a, b) == Rank::Equal <==> a == b,
    decreases a.len(),
{
    if a.len() > 0 && b.len() > 0 && a[0] == b[0] {
        lemma_lex_equal(a.skip(1), b.skip(1));
        if a.skip(1) == b.skip(1) {
            assert(a =~= seq![a[0]] + a.skip(1));
            assert(b =~= seq![b[0]] + b.skip(1));
        }
    } else if a.len() == 0 && b.len() == 0 {
        assert(a =~= b);
    }
}

/// Compares two byte strings lexicographically.
pub fn compare_bytes(a: &[u8], b: &[u8]) -> (r: Rank)
    ensures
        r == lex(a@, b@),
{
    let mut i: usize = 0;
    assert(a@.skip(0) =~= a@ && b@.skip(0) =~= b@);
    while i < a.len() && i < b.len()
        invariant
            i <= a.len(),
            i <= b.len(),
            lex(a@, b@) == lex(a@.skip(i as int), b@.skip(i as int)),
        decreases a.len() - i,
    {
        if a[i] < b[i] {
            return Rank::Less;
        }
        if a[i] > b[i] {
            return Rank::Greater;
        }
        assert(a@.skip(i as int).skip(1) =~= a@.skip(i + 1));
        assert(b@.skip(i as int).skip(1) =~= b@.skip(i + 1));
        i += 1;
    }
    if i < b.len() {
        Rank::Less
    } else if i < a.len() {
        Rank::Greater
    } else {
        Rank::Equal
    }
}

/// The order asked for: a key, taken upwards or downwards.
#[derive(Debug, Clone, Copy, PartialEq, Eq, Structural)]
pub struct Sorter {
    pub key: SortArgs,
    pub reverse: bool,
}

/// The number that a numeric key reads from an entry: its size in bytes or a
/// timestamp. There is none where the metadata, or the timestamp in it, is
/// missing.
pub open spec fn quantity(entry: Entry, key: SortArgs) -> Option<int> {
    match entry.metadata {
        None => None,
        Some(metadata) => match key {
            SortArgs::Filename => None,
            SortArgs::Size => Some(metadata.size as int),
            SortArgs::CreatedTime => match metadata.created {
                Some(t) => Some(t as int),
                None => None,
            },
            SortArgs::ModifiedTime => match metadata.modified {
                Some(t) => Some(t as int),
                None => None,
            },
        },
    }
}

/// Whether the key can be read from the slot. It cannot from an enumeration
/// error, nor from an entry that lacks what a numeric key reads.
pub open spec fn sortable(slot: Slot, key: SortArgs) -> bool {
    match slot {
        Err(_) => false,
        Ok(entry) => key == SortArgs::Filename || quantity(entry, key) is Some,
    }
}

/// How two entries stand to each other by the key alone: names by their
/// bytes, numbers by size.
pub open spec fn natural(a: Entry, b: Entry, key: SortArgs) -> Rank {
    if key == SortArgs::Filename {
        lex(a.name@, b.name@)
    } else {
        rank_of(quantity(a, key).unwrap(), quantity(b, key).unwrap())
    }
}

/// How two slots stand to each other under a sorter.
///
/// Two slots that the key can be read from go by the key, the other way
/// round when the sorter is reversed. A slot that it cannot be read from
/// comes after every slot that it can be read from, reversed or not, and
/// two such slots rank equal.
pub open spec fn compare(sorter: Sorter, a: Slot, b: Slot) -> Rank {
    if sortable(a, sorter.key) && sortable(b, sorter.key) {
        let rank = natural(a.unwrap(), b.unwrap(), sorter.key);
        if sorter.reverse {
            rank.flipped()
        } else {
            rank
        }
    } else if sortable(a, sorter.key) {
        Rank::Less
    } else if sortable(b, sorter.key) {
        Rank::Greater
    } else {
        Rank::Equal
    }
}

/// Reads the number of a numeric key from an entry.
fn measure(entry: &Entry, key: SortArgs) -> (q: Option<i128>)
    ensures
        match q {
            Some(n) => quantity(*entry, key) == Some(n as int),
            None => quantity(*entry, key) is None,
        },
{
    match &entry.metadata {
        None => None,
        Some(metadata) => match key {
            SortArgs::Filename => None,
            SortArgs::Size => Some(metadata.size as i128),
            SortArgs::CreatedTime => metadata.created,
            SortArgs::ModifiedTime => metadata.modified,
        },
    }
}

impl Sorter {
    /// The rank as this sorter's direction has it.
    fn orient(&self, rank: Rank) -> (r: Rank)
        ensures
            r == if self.reverse {
                rank.flipped()
            } else {
                rank
            },
    {
        if self.reverse {
            rank.flip()
        } else {
            rank
        }
    }

    /// Compares two slots of one enumeration.
    pub fn compare(&self, a: &Slot, b: &Slot) -> (r: Rank)
        ensures
            r == compare(*self, *a, *b),
    {
        match (a, b) {
            (Ok(x), Ok(y)) => match self.key {
                SortArgs::Filename => {
                    let rank = compare_bytes(x.name.as_slice(), y.name.as_slice());
                    self.orient(rank)
                },
                _ => match (measure(x, self.key), measure(y, self.key)) {
                    (Some(p), Some(q)) => {
                        let rank = if p < q {
                            Rank::Less
                        } else if p > q {
                            Rank::Greater
                        } else {
                            Rank::Equal
                        };
                        self.orient(rank)
                    },
                    (Some(_), None) => Rank::Less,
                    (None, Some(_)) => Rank::Greater,
                    (None, None) => Rank::Equal,
                },
            },
            (Ok(x), Err(_)) => match self.key {
                SortArgs::Filename => Rank::Less,
                _ => match measure(x, self.key) {
                    Some(_) => Rank::Less,
                    None => Rank::Equal,
                },
            },
            (Err(_), Ok(y)) => match self.key {
                SortArgs::Filename => Rank::Greater,
                _ => match measure(y, self.key) {
                    Some(_) => Rank::Greater,
                    None => Rank::Equal,
                },
            },
            (Err(_), Err(_)) => Rank::Equal,
        }
    }
}

/// Taking two slots the other way round flips their rank.
pub proof fn lemma_compare_flips(sorter: Sorter, a: Slot, b: Slot)
    ensures
        compare(sorter, b, a) == compare(sorter, a, b).flipped(),
{
    if sortable(a, sorter.key) && sortable(b, sorter.key) && sorter.key == SortArgs::Filename {
        lemma_lex_flips(a.unwrap().name@, b.unwrap().name@);
    }
}

/// The order of a sorter is transitive, strictly so where one step is strict.
pub proof fn lemma_compare_chains(sorter: Sorter, a: Slot, b: Slot, c: Slot)
    requires
        compare(sorter, a, b) != Rank::Greater,
        compare(sorter, b, c) != Rank::Greater,
    ensures
        compare(sorter, a, c) != Rank::Greater,
        compare(sorter, a, b) == Rank::Less || compare(sorter, b, c) == Rank::Less ==> compare(
            sorter,
            a,
            c,
        ) == Rank::Less,
{
    let key = sorter.key;
    if sortable(a, key) && sortable(b, key) && sortable(c, key) && key == SortArgs::Filename {
        let x = a.unwrap().name@;
        let y = b.unwrap().name@;
        let z = c.unwrap().name@;
        if sorter.reverse {
            lemma_lex_flips(x, y);
            lemma_lex_flips(y, z);
            lemma_lex_flips(x, z);
            lemma_lex_chains(z, y, x);
        } else {
            lemma_lex_chains(x, y, z);
        }
    }
}

} // verus!
