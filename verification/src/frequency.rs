//! Counting how often each property name occurs, in first-seen order.

use crate::block::{
    census_keys, direct_property_keys, lemma_census_keys_prefix, lemma_property_keys_prefix,
    property_keys, Block,
};
use crate::ranking::{lemma_rank_order, rank_order, ranked, slot_for};
use vstd::prelude::*;

verus! {

/// A property name with the number of times it was seen.
#[derive(Debug, Eq, Ord, PartialEq, PartialOrd, Clone)]
pub struct PropertyEntity {
    pub property: String,
    pub count: u64,
}

impl View for PropertyEntity {
    type V = (Seq<char>, nat);

    open spec fn view(&self) -> (Seq<char>, nat) {
        (self.property@, self.count as nat)
    }
}

/// Whether some entry of `entries` carries `name`.
pub open spec fn has_name(entries: Seq<(Seq<char>, nat)>, name: Seq<char>) -> bool {
    exists|i: int| 0 <= i < entries.len() && #[trigger] entries[i].0 == name
}

/// The index of an entry that carries `name`, where there is one.
pub open spec fn index_of_name(entries: Seq<(Seq<char>, nat)>, name: Seq<char>) -> int {
    choose|i: int| 0 <= i < entries.len() && #[trigger] entries[i].0 == name
}

/// The count recorded for `name`; zero for a name never seen.
pub open spec fn count_of(entries: Seq<(Seq<char>, nat)>, name: Seq<char>) -> nat {
    if has_name(entries, name) {
        entries[index_of_name(entries, name)].1
    } else {
        0
    }
}

/// The sum of all counts.
pub open spec fn total_count(entries: Seq<(Seq<char>, nat)>) -> nat
    decreases entries.len(),
{
    if entries.len() == 0 {
        0
    } else {
        total_count(entries.drop_last()) + entries.last().1
    }
}

/// The entries of a table: no name occurs twice, and every name that
/// occurs was seen at least once.
pub open spec fn is_table(entries: Seq<(Seq<char>, nat)>) -> bool {
    &&& forall|i: int, j: int|
        0 <= i < j < entries.len() ==> #[trigger] entries[i].0 != #[trigger] entries[j].0
    &&& forall|i: int| 0 <= i < entries.len() ==> (#[trigger] entries[i]).1 >= 1
}

/// The entries after one more sighting of `name`: its count goes up by
/// one where it stands, and a name not seen before goes to the end with
/// count one.
pub open spec fn bump(entries: Seq<(Seq<char>, nat)>, name: Seq<char>) -> Seq<(Seq<char>, nat)> {
    if has_name(entries, name) {
        let i = index_of_name(entries, name);
        entries.update(i, (name, entries[i].1 + 1))
    } else {
        entries.push((name, 1))
    }
}

/// The entries after the sightings `keys`, taken in order.
pub open spec fn tally(entries: Seq<(Seq<char>, nat)>, keys: Seq<Seq<char>>) -> Seq<(Seq<char>, nat)>
    decreases keys.len(),
{
    if keys.len() == 0 {
        entries
    } else {
        bump(tally(entries, keys.drop_last()), keys.last())
    }
}

/// How often `name` occurs in `keys`.
pub open spec fn occurrences(keys: Seq<Seq<char>>, name: Seq<char>) -> nat
    decreases keys.len(),
{
    if keys.len() == 0 {
        0
    } else if keys.last() == name {
        occurrences(keys.drop_last(), name) + 1
    } else {
        occurrences(keys.drop_last(), name)
    }
}

/// The place at which `name` first occurs in `keys`; the length of `keys`
/// where it does not occur.
pub open spec fn first_seen(keys: Seq<Seq<char>>, name: Seq<char>) -> int
    decreases keys.len(),
{
    if keys.len() == 0 {
        0
    } else if first_seen(keys.drop_last(), name) < keys.len() - 1 {
        first_seen(keys.drop_last(), name)
    } else if keys.last() == name {
        keys.len() - 1
    } else {
        keys.len() as int
    }
}

/// In a table, the entry that carries a name is found by that name.
pub proof fn lemma_index_of_name(entries: Seq<(Seq<char>, nat)>, i: int)
    requires
        is_table(entries),
        0 <= i < entries.len(),
    ensures
        has_name(entries, entries[i].0),
        index_of_name(entries, entries[i].0) == i,
        count_of(entries, entries[i].0) == entries[i].1,
{
    let j = index_of_name(entries, entries[i].0);
    assert(0 <= j < entries.len() && entries[j].0 == entries[i].0);
    if j < i {
        assert(entries[j].0 != entries[i].0);
    }
    if i < j {
        assert(entries[i].0 != entries[j].0);
    }
}

/// Replacing one entry changes the sum by the difference of the counts.
proof fn lemma_total_update(entries: Seq<(Seq<char>, nat)>, i: int, entry: (Seq<char>, nat))
    requires
        0 <= i < entries.len(),
    ensures
        total_count(entries.update(i, entry)) == total_count(entries) - entries[i].1 + entry.1,
        entries[i].1 <= total_count(entries),
    decreases entries.len(),
{
    let changed = entries.update(i, entry);
    if i == entries.len() - 1 {
        assert(changed.drop_last() =~= entries.drop_last());
    } else {
        assert(changed.drop_last() =~= entries.drop_last().update(i, entry));
        lemma_total_update(entries.drop_last(), i, entry);
    }
}

/// One more sighting keeps a table a table.
proof fn lemma_bump_keeps_table(entries: Seq<(Seq<char>, nat)>, name: Seq<char>)
    requires
        is_table(entries),
    ensures
        is_table(bump(entries, name)),
        bump(entries, name).len() >= entries.len(),
        forall|k: int|
            0 <= k < entries.len() ==> (#[trigger] bump(entries, name)[k]).0 == entries[k].0,
{
    let after = bump(entries, name);
    if !has_name(entries, name) {
        assert forall|a: int, b: int| 0 <= a < b < after.len() implies #[trigger] after[a].0
            != #[trigger] after[b].0 by {
            if b == entries.len() {
                assert(entries[a].0 != name);
            }
        }
    }
}

/// A sighting of one name leaves the count of any other as it was.
proof fn lemma_bump_other(entries: Seq<(Seq<char>, nat)>, name: Seq<char>, other: Seq<char>)
    requires
        is_table(entries),
        other != name,
    ensures
        count_of(bump(entries, name), other) == count_of(entries, other),
{
    let after = bump(entries, name);
    lemma_bump_keeps_table(entries, name);
    if has_name(entries, other) {
        let k = index_of_name(entries, other);
        assert(after[k].0 == other);
        assert(after[k].1 == entries[k].1);
        lemma_index_of_name(after, k);
    } else if has_name(after, other) {
        let k = index_of_name(after, other);
        if k < entries.len() {
            assert(entries[k].0 == other);
        }
    }
}

/// One more sighting keeps a table a table, adds one to the count of the
/// name seen and to the sum, and changes no other count. A name not seen
/// before goes behind all the others.
pub proof fn lemma_bump(entries: Seq<(Seq<char>, nat)>, name: Seq<char>)
    requires
        is_table(entries),
    ensures
        is_table(bump(entries, name)),
        total_count(bump(entries, name)) == total_count(entries) + 1,
        count_of(bump(entries, name), name) == count_of(entries, name) + 1,
        forall|other: Seq<char>|
            other != name ==> #[trigger] count_of(bump(entries, name), other) == count_of(
                entries,
                other,
            ),
{
    let after = bump(entries, name);
    lemma_bump_keeps_table(entries, name);
    if has_name(entries, name) {
        let i = index_of_name(entries, name);
        lemma_total_update(entries, i, (name, entries[i].1 + 1));
        lemma_index_of_name(after, i);
    } else {
        assert(after.drop_last() =~= entries);
        lemma_index_of_name(after, entries.len() as int);
    }
    assert forall|other: Seq<char>| other != name implies #[trigger] count_of(after, other)
        == count_of(entries, other) by {
        lemma_bump_other(entries, name, other);
    }
}

/// Counting `keys` one by one keeps a table a table, adds their number to
/// the sum, and adds to the count of each name the number of times that it
/// occurs in `keys`.
pub proof fn lemma_tally(entries: Seq<(Seq<char>, nat)>, keys: Seq<Seq<char>>)
    requires
        is_table(entries),
    ensures
        is_table(tally(entries, keys)),
        total_count(tally(entries, keys)) == total_count(entries) + keys.len(),
        forall|name: Seq<char>| #[trigger]
            count_of(tally(entries, keys), name) == count_of(entries, name) + occurrences(
                keys,
                name,
            ),
    decreases keys.len(),
{
    if keys.len() > 0 {
        let before = tally(entries, keys.drop_last());
        lemma_tally(entries, keys.drop_last());
        lemma_bump(before, keys.last());
        assert forall|name: Seq<char>| #[trigger]
            count_of(tally(entries, keys), name) == count_of(entries, name) + occurrences(
                keys,
                name,
            ) by {
            assert(count_of(before, name) == count_of(entries, name) + occurrences(
                keys.drop_last(),
                name,
            ));
        }
    }
}

/// Where a name first occurs lies within the keys, or just behind them.
proof fn lemma_first_seen_bounds(keys: Seq<Seq<char>>, name: Seq<char>)
    ensures
        0 <= first_seen(keys, name) <= keys.len(),
        first_seen(keys, name) < keys.len() ==> keys[first_seen(keys, name)] == name,
    decreases keys.len(),
{
    if keys.len() > 0 {
        lemma_first_seen_bounds(keys.drop_last(), name);
    }
}

/// A count started from nothing holds the names that occur in `keys`,
/// each once, in the order in which they first occur.
pub proof fn lemma_first_seen_order(keys: Seq<Seq<char>>)
    ensures
        forall|name: Seq<char>| #[trigger]
            has_name(tally(Seq::empty(), keys), name) <==> first_seen(keys, name) < keys.len(),
        forall|i: int, j: int|
            0 <= i < j < tally(Seq::empty(), keys).len() ==> first_seen(
                keys,
                #[trigger] tally(Seq::empty(), keys)[i].0,
            ) < first_seen(keys, #[trigger] tally(Seq::empty(), keys)[j].0),
    decreases keys.len(),
{
    let table = tally(Seq::empty(), keys);
    if keys.len() > 0 {
        let init = keys.drop_last();
        let last = keys.last();
        let before = tally(Seq::empty(), init);
        lemma_first_seen_order(init);
        lemma_tally(Seq::empty(), init);
        lemma_bump_keeps_table(before, last);
        lemma_first_seen_bounds(init, last);
        assert forall|name: Seq<char>| #[trigger]
            has_name(table, name) <==> first_seen(keys, name) < keys.len() by {
            lemma_first_seen_bounds(init, name);
            if has_name(before, name) {
                let k = index_of_name(before, name);
                assert(table[k].0 == name);
            } else if has_name(table, name) {
                let k = index_of_name(table, name);
                if k < before.len() {
                    assert(before[k].0 == name);
                }
            } else if name == last {
                assert(table[before.len() as int].0 == last);
            }
        }
        assert forall|i: int, j: int| 0 <= i < j < table.len() implies first_seen(
            keys,
            #[trigger] table[i].0,
        ) < first_seen(keys, #[trigger] table[j].0) by {
            lemma_first_seen_bounds(init, table[i].0);
            lemma_first_seen_bounds(init, table[j].0);
            assert(before[i].0 == table[i].0);
            assert(has_name(before, table[i].0));
            if j < before.len() {
                assert(before[j].0 == table[j].0);
                assert(has_name(before, table[j].0));
            }
        }
    } else {
        assert forall|name: Seq<char>| #[trigger]
            has_name(table, name) <==> first_seen(keys, name) < keys.len() by {}
    }
}

/// Counting two runs of keys one after the other is counting their
/// concatenation.
pub proof fn lemma_tally_concat(
    entries: Seq<(Seq<char>, nat)>,
    first: Seq<Seq<char>>,
    second: Seq<Seq<char>>,
)
    ensures
        tally(tally(entries, first), second) == tally(entries, first + second),
    decreases second.len(),
{
    if second.len() == 0 {
        assert(first + second =~= first);
    } else {
        assert((first + second).drop_last() =~= first + second.drop_last());
        lemma_tally_concat(entries, first, second.drop_last());
    }
}

/// Property names with their counts, in the order in which the names were
/// first seen.
#[derive(Debug, PartialEq, Eq)]
pub struct FrequencyTable {
    entries: Vec<PropertyEntity>,
    total: u64,
}

impl View for FrequencyTable {
    type V = Seq<(Seq<char>, nat)>;

    closed spec fn view(&self) -> Seq<(Seq<char>, nat)> {
        entity_views(self.entries@)
    }
}

/// The views of `entities`, in order.
pub open spec fn entity_views(entities: Seq<PropertyEntity>) -> Seq<(Seq<char>, nat)> {
    Seq::new(entities.len(), |i: int| entities[i]@)
}

impl FrequencyTable {
    #[verifier::type_invariant]
    spec fn well_formed(self) -> bool {
        &&& is_table(self@)
        &&& self.total as nat == total_count(self@)
    }

    /// A table in which nothing has been counted.
    pub fn new() -> (table: Self)
        ensures
            table@ == Seq::<(Seq<char>, nat)>::empty(),
    {
        let table = FrequencyTable { entries: Vec::new(), total: 0 };
        assert(table@ =~= Seq::<(Seq<char>, nat)>::empty());
        table
    }

    /// The number of distinct names.
    pub fn len(&self) -> (n: usize)
        ensures
            n == self@.len(),
    {
        self.entries.len()
    }

    /// The names with their counts, in the order in which the names were
    /// first seen.
    pub fn entries(&self) -> (entries: &Vec<PropertyEntity>)
        ensures
            entity_views(entries@) == self@,
    {
        &self.entries
    }

    /// The number of sightings counted so far.
    pub fn total(&self) -> (sum: u64)
        ensures
            sum == total_count(self@),
            is_table(self@),
    {
        proof {
            use_type_invariant(self);
        }
        self.total
    }

    /// The position of the entry for `name`, where it has one.
    fn find(&self, name: &String) -> (found: Option<usize>)
        ensures
            is_table(self@),
            match found {
                Some(i) => i < self@.len() && self@[i as int].0 == name@ && has_name(self@, name@)
                    && index_of_name(self@, name@) == i,
                None => !has_name(self@, name@),
            },
    {
        proof {
            use_type_invariant(self);
        }
        let n = self.entries.len();
        let mut i: usize = 0;
        while i < n
            invariant
                n == self.entries@.len(),
                n == self@.len(),
                i <= n,
                is_table(self@),
                forall|k: int| 0 <= k < i ==> (#[trigger] self@[k]).0 != name@,
            decreases n - i,
        {
            if self.entries[i].property == *name {
                proof {
                    lemma_index_of_name(self@, i as int);
                }
                return Some(i);
            }
            i += 1;
        }
        None
    }

    /// The count recorded for `name`; zero for a name never seen.
    pub fn count(&self, name: &str) -> (count: u64)
        ensures
            count == count_of(self@, name@),
    {
        let key = name.to_owned();
        match self.find(&key) {
            Some(i) => self.entries[i].count,
            None => 0,
        }
    }

    /// Counts one more sighting of `name`.
    pub fn record(&mut self, name: &str)
        requires
            total_count(old(self)@) < u64::MAX,
        ensures
            final(self)@ == bump(old(self)@, name@),
            is_table(final(self)@),
    {
        proof {
            use_type_invariant(&*self);
            lemma_bump(self@, name@);
        }
        let key = name.to_owned();
        let found = self.find(&key);
        let mut taken = FrequencyTable::new();
        std::mem::swap(self, &mut taken);
        let mut entries = taken.entries;
        match found {
            Some(i) => {
                proof {
                    lemma_total_update(old(self)@, i as int, (name@, old(self)@[i as int].1 + 1));
                }
                let count = entries[i].count;
                entries.set(i, PropertyEntity { property: key, count: count + 1 });
            },
            None => {
                entries.push(PropertyEntity { property: key, count: 1 });
            },
        }
        assert(entity_views(entries@) =~= bump(old(self)@, name@));
        *self = FrequencyTable { entries, total: taken.total + 1 };
        assert(self@ =~= bump(old(self)@, name@));
    }

    /// Whether the direct properties of `block` can still be counted
    /// without the sum of all counts leaving the range of `u64`.
    pub fn has_room_for(&self, block: &Block) -> (fits: bool)
        ensures
            fits == (total_count(self@) + direct_property_keys(*block).len() <= u64::MAX),
    {
        let extra = block.direct_property_count();
        let room = u64::MAX - self.total();
        extra as u64 <= room
    }

    /// Counts the properties that are direct children of `block`, where
    /// `block` is a resource. Blocks nested more deeply are not looked at,
    /// and a block of any other kind adds nothing.
    pub fn record_block(&mut self, block: &Block)
        requires
            total_count(old(self)@) + direct_property_keys(*block).len() <= u64::MAX,
        ensures
            final(self)@ == tally(old(self)@, direct_property_keys(*block)),
            is_table(final(self)@),
    {
        proof {
            use_type_invariant(&*self);
        }
        match block {
            Block::Resource(resource) => {
                let n = resource.contents.len();
                let mut i: usize = 0;
                while i < n
                    invariant
                        n == resource.contents@.len(),
                        i <= n,
                        is_table(old(self)@),
                        self@ == tally(old(self)@, property_keys(resource.contents@.take(i as int))),
                        total_count(old(self)@) + property_keys(resource.contents@).len()
                            <= u64::MAX,
                    decreases n - i,
                {
                    proof {
                        assert(resource.contents@.take(i + 1).drop_last() =~= resource.contents@.take(
                            i as int,
                        ));
                        assert(resource.contents@.take(i + 1).last() == resource.contents@[i as int]);
                        lemma_tally(old(self)@, property_keys(resource.contents@.take(i as int)));
                        lemma_property_keys_prefix(resource.contents@, i + 1);
                    }
                    match &resource.contents[i] {
                        Block::Property(property) => {
                            proof {
                                let seen = property_keys(resource.contents@.take(i as int));
                                assert(seen.push(property.property@).drop_last() =~= seen);
                            }
                            self.record(property.property.as_str());
                        },
                        Block::Statement(_)
                        | Block::Resource(_)
                        | Block::Case(_)
                        | Block::If(_)
                        | Block::When(_)
                        | Block::Elsif(_)
                        | Block::Unknown(_) => {},
                    }
                    i += 1;
                }
                proof {
                    assert(resource.contents@.take(n as int) =~= resource.contents@);
                    lemma_tally(old(self)@, property_keys(resource.contents@));
                }
            },
            Block::Statement(_)
            | Block::Property(_)
            | Block::Case(_)
            | Block::If(_)
            | Block::When(_)
            | Block::Elsif(_)
            | Block::Unknown(_) => {},
        }
    }

    /// Counts the direct properties of every block of `blocks`, block
    /// after block.
    pub fn record_all(&mut self, blocks: &Vec<Block>)
        requires
            total_count(old(self)@) + census_keys(blocks@).len() <= u64::MAX,
        ensures
            final(self)@ == tally(old(self)@, census_keys(blocks@)),
            is_table(final(self)@),
    {
        proof {
            use_type_invariant(&*self);
        }
        let n = blocks.len();
        let mut i: usize = 0;
        while i < n
            invariant
                n == blocks@.len(),
                i <= n,
                is_table(old(self)@),
                self@ == tally(old(self)@, census_keys(blocks@.take(i as int))),
                total_count(old(self)@) + census_keys(blocks@).len() <= u64::MAX,
            decreases n - i,
        {
            proof {
                assert(blocks@.take(i + 1).drop_last() =~= blocks@.take(i as int));
                lemma_tally(old(self)@, census_keys(blocks@.take(i as int)));
                lemma_census_keys_prefix(blocks@, i + 1);
                lemma_tally_concat(
                    old(self)@,
                    census_keys(blocks@.take(i as int)),
                    direct_property_keys(blocks@[i as int]),
                );
            }
            self.record_block(&blocks[i]);
            i += 1;
        }
        proof {
            assert(blocks@.take(n as int) =~= blocks@);
            lemma_tally(old(self)@, census_keys(blocks@));
        }
    }

    /// The entries ranked by count, largest first; entries with the same
    /// count stay in the order in which their names were first seen.
    pub fn ranked(&self) -> (ranking: Vec<PropertyEntity>)
        ensures
            entity_views(ranking@) == ranked(self@),
    {
        let n = self.entries.len();
        let mut ranking: Vec<PropertyEntity> = Vec::new();
        let ghost mut order: Seq<int> = Seq::empty();
        let mut i: usize = 0;
        while i < n
            invariant
                n == self.entries@.len(),
                n == self@.len(),
                i <= n,
                ranking@.len() == i,
                order.len() == i,
                order == rank_order(self@.take(i as int)),
                forall|a: int| 0 <= a < i ==> 0 <= #[trigger] order[a] < i,
                forall|a: int| 0 <= a < i ==> (#[trigger] ranking@[a])@ == self@[order[a]],
            decreases n - i,
        {
            let ghost seen = self@.take(i + 1);
            let count = self.entries[i].count;
            let mut slot: usize = i;
            proof {
                assert(order.take(i as int) =~= order);
                assert(seen.drop_last() =~= self@.take(i as int));
                assert(seen.last() == self@[i as int]);
            }
            while slot > 0 && ranking[slot - 1].count < count
                invariant
                    slot <= i,
                    i < n,
                    n == self@.len(),
                    ranking@.len() == i,
                    order.len() == i,
                    seen == self@.take(i + 1),
                    forall|a: int| 0 <= a < i ==> 0 <= #[trigger] order[a] < i,
                    forall|a: int| 0 <= a < i ==> (#[trigger] ranking@[a])@ == self@[order[a]],
                    slot_for(seen, order, count as nat) == slot_for(
                        seen,
                        order.take(slot as int),
                        count as nat,
                    ),
                decreases slot,
            {
                proof {
                    assert(order.take(slot as int).drop_last() =~= order.take(slot - 1));
                    assert(order.take(slot as int).last() == order[slot - 1]);
                    assert(ranking@[slot - 1]@ == self@[order[slot - 1]]);
                }
                slot -= 1;
            }
            proof {
                if slot > 0 {
                    assert(order.take(slot as int).last() == order[slot - 1]);
                    assert(ranking@[slot - 1]@ == self@[order[slot - 1]]);
                }
                assert(slot_for(seen, order, count as nat) == slot);
            }
            let entity = PropertyEntity { property: self.entries[i].property.clone(), count };
            ranking.insert(slot, entity);
            proof {
                order = order.insert(slot as int, i as int);
                assert(order == rank_order(seen));
                lemma_rank_order(seen);
            }
            i += 1;
        }
        proof {
            assert(self@.take(n as int) =~= self@);
            assert(entity_views(ranking@) =~= ranked(self@));
        }
        ranking
    }
}

impl Clone for FrequencyTable {
    /// A table with the same names and counts in the same order.
    fn clone(&self) -> (copy: Self)
        ensures
            copy@ == self@,
    {
        proof {
            use_type_invariant(self);
        }
        let n = self.entries.len();
        let mut entries: Vec<PropertyEntity> = Vec::new();
        let mut i: usize = 0;
        while i < n
            invariant
                n == self.entries@.len(),
                i <= n,
                entries@.len() == i,
                forall|k: int| 0 <= k < i ==> (#[trigger] entries@[k])@ == self.entries@[k]@,
            decreases n - i,
        {
            entries.push(
                PropertyEntity {
                    property: self.entries[i].property.clone(),
                    count: self.entries[i].count,
                },
            );
            i += 1;
        }
        proof {
            assert(entity_views(entries@) =~= self@);
        }
        FrequencyTable { entries, total: self.total }
    }
}

} // verus!
