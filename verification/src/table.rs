//! The usage table: how often each identifier has been chosen.

use crate::text::same_text;
use vstd::prelude::*;

verus! {

/// One identifier with the number of times it was chosen.
pub(crate) struct Entry {
    pub(crate) name: String,
    pub(crate) count: i32,
}

/// No identifier is the name of two entries.
pub(crate) open spec fn distinct_names(entries: Seq<Entry>) -> bool {
    forall|i: int, j: int|
        0 <= i < entries.len() && 0 <= j < entries.len() && i != j ==> entries[i].name@
            != entries[j].name@
}

/// Whether some entry is named `name`.
pub(crate) open spec fn has_name(entries: Seq<Entry>, name: Seq<char>) -> bool {
    exists|i: int| 0 <= i < entries.len() && #[trigger] entries[i].name@ == name
}

/// The position of an entry named `name`.
pub(crate) open spec fn position_of(entries: Seq<Entry>, name: Seq<char>) -> int {
    choose|i: int| 0 <= i < entries.len() && #[trigger] entries[i].name@ == name
}

/// The mapping that a sequence of entries stands for.
pub(crate) open spec fn entries_map(entries: Seq<Entry>) -> Map<Seq<char>, int> {
    Map::new(
        |name: Seq<char>| has_name(entries, name),
        |name: Seq<char>| entries[position_of(entries, name)].count as int,
    )
}

/// Under distinct names the mapping holds each entry's count at its name.
pub(crate) proof fn lemma_entry_in_map(entries: Seq<Entry>, i: int)
    requires
        distinct_names(entries),
        0 <= i < entries.len(),
    ensures
        entries_map(entries).contains_key(entries[i].name@),
        entries_map(entries)[entries[i].name@] == entries[i].count,
{
    let name = entries[i].name@;
    assert(has_name(entries, name));
    assert(position_of(entries, name) == i);
}

/// Every key of the mapping is the name of an entry, which holds its count.
pub(crate) proof fn lemma_key_has_entry(entries: Seq<Entry>, name: Seq<char>) -> (i: int)
    requires
        distinct_names(entries),
        entries_map(entries).contains_key(name),
    ensures
        0 <= i < entries.len(),
        entries[i].name@ == name,
        entries_map(entries)[name] == entries[i].count,
{
    let i = position_of(entries, name);
    lemma_entry_in_map(entries, i);
    i
}

/// A new entry under a name that no entry has adds that key.
pub(crate) proof fn lemma_map_after_push(entries: Seq<Entry>, entry: Entry)
    requires
        distinct_names(entries),
        !has_name(entries, entry.name@),
    ensures
        distinct_names(entries.push(entry)),
        entries_map(entries.push(entry)) == entries_map(entries).insert(
            entry.name@,
            entry.count as int,
        ),
{
    let after = entries.push(entry);
    assert(distinct_names(after));
    assert forall|name: Seq<char>| #[trigger]
        has_name(after, name) == (has_name(entries, name) || name == entry.name@) by {
        if has_name(after, name) {
            let i = position_of(after, name);
            if i < entries.len() {
                assert(entries[i].name@ == name);
            }
        }
        if has_name(entries, name) {
            let i = position_of(entries, name);
            assert(after[i].name@ == name);
        }
        if name == entry.name@ {
            assert(after[entries.len() as int].name@ == name);
        }
    }
    assert forall|name: Seq<char>| has_name(after, name) implies #[trigger] entries_map(after)[name]
        == entries_map(entries).insert(entry.name@, entry.count as int)[name] by {
        let i = lemma_key_has_entry(after, name);
        if i < entries.len() {
            lemma_entry_in_map(entries, i);
        }
    }
    assert(entries_map(after) =~= entries_map(entries).insert(entry.name@, entry.count as int));
}

/// An entry put in the place of one with the same name sets that key.
pub(crate) proof fn lemma_map_after_update(entries: Seq<Entry>, i: int, entry: Entry)
    requires
        distinct_names(entries),
        0 <= i < entries.len(),
        entry.name@ == entries[i].name@,
    ensures
        distinct_names(entries.update(i, entry)),
        entries_map(entries.update(i, entry)) == entries_map(entries).insert(
            entry.name@,
            entry.count as int,
        ),
{
    let after = entries.update(i, entry);
    assert(distinct_names(after));
    assert forall|name: Seq<char>| #[trigger] has_name(after, name) == has_name(entries, name) by {
        if has_name(after, name) {
            let j = position_of(after, name);
            assert(entries[j].name@ == name);
        }
        if has_name(entries, name) {
            let j = position_of(entries, name);
            assert(after[j].name@ == name);
        }
    }
    assert(has_name(entries, entry.name@));
    assert forall|name: Seq<char>| has_name(after, name) implies #[trigger] entries_map(after)[name]
        == entries_map(entries).insert(entry.name@, entry.count as int)[name] by {
        let j = lemma_key_has_entry(after, name);
        if j != i {
            lemma_entry_in_map(entries, j);
        }
    }
    assert(entries_map(after) =~= entries_map(entries).insert(entry.name@, entry.count as int));
}

/// Without the entry at `i` the mapping is without that entry's name.
pub(crate) proof fn lemma_map_after_remove(entries: Seq<Entry>, i: int)
    requires
        distinct_names(entries),
        0 <= i < entries.len(),
    ensures
        distinct_names(entries.remove(i)),
        entries_map(entries.remove(i)) == entries_map(entries).remove(entries[i].name@),
{
    let after = entries.remove(i);
    let gone = entries[i].name@;
    assert forall|a: int, b: int| 0 <= a < after.len() && 0 <= b < after.len() && a != b implies after[a].name@
        != after[b].name@ by {
        let a0 = if a < i { a } else { a + 1 };
        let b0 = if b < i { b } else { b + 1 };
        assert(after[a] == entries[a0]);
        assert(after[b] == entries[b0]);
    }
    assert forall|name: Seq<char>| #[trigger]
        has_name(after, name) == (has_name(entries, name) && name != gone) by {
        if has_name(after, name) {
            let j = position_of(after, name);
            let j0 = if j < i { j } else { j + 1 };
            assert(entries[j0].name@ == name);
        }
        if has_name(entries, name) && name != gone {
            let j = position_of(entries, name);
            let j1 = if j < i { j } else { j - 1 };
            assert(after[j1].name@ == name);
        }
    }
    assert forall|name: Seq<char>| has_name(after, name) implies #[trigger] entries_map(after)[name]
        == entries_map(entries).remove(gone)[name] by {
        let j = lemma_key_has_entry(after, name);
        let j0 = if j < i { j } else { j + 1 };
        assert(after[j] == entries[j0]);
        lemma_entry_in_map(entries, j0);
    }
    assert(entries_map(after) =~= entries_map(entries).remove(gone));
}

/// The mapping has as many keys as there are entries.
pub(crate) proof fn lemma_map_size(entries: Seq<Entry>)
    requires
        distinct_names(entries),
    ensures
        entries_map(entries).dom().finite(),
        entries_map(entries).dom().len() == entries.len(),
    decreases entries.len(),
{
    if entries.len() == 0 {
        assert(entries_map(entries).dom() =~= Set::<Seq<char>>::empty());
    } else {
        let front = entries.drop_last();
        let last = entries.last();
        assert(distinct_names(front));
        assert(!has_name(front, last.name@)) by {
            if has_name(front, last.name@) {
                let i = position_of(front, last.name@);
                assert(entries[i].name@ == entries[entries.len() - 1].name@);
            }
        }
        lemma_map_size(front);
        lemma_map_after_push(front, last);
        assert(front.push(last) =~= entries);
        assert(entries_map(entries).dom() =~= entries_map(front).dom().insert(last.name@));
        assert(!entries_map(front).dom().contains(last.name@));
    }
}

/// The mapping from identifier to usage count. An identifier is a key once it
/// has been chosen, and stays one until it is removed.
pub struct UsageTable {
    entries: Vec<Entry>,
}

impl View for UsageTable {
    type V = Map<Seq<char>, int>;

    closed spec fn view(&self) -> Map<Seq<char>, int> {
        entries_map(self.entries@)
    }
}

impl UsageTable {
    #[verifier::type_invariant]
    closed spec fn well_formed(&self) -> bool {
        distinct_names(self.entries@)
    }

    /// The table with no entry.
    pub fn new() -> (table: UsageTable)
        ensures
            table@ == Map::<Seq<char>, int>::empty(),
    {
        let table = UsageTable { entries: Vec::new() };
        assert(table@ =~= Map::<Seq<char>, int>::empty());
        table
    }

    /// The entries behind the table.
    pub(crate) fn entries(&self) -> (entries: &Vec<Entry>)
        ensures
            distinct_names(entries@),
            entries_map(entries@) == self@,
    {
        proof {
            use_type_invariant(self);
        }
        &self.entries
    }

    /// The table that entries with distinct names stand for.
    pub(crate) fn from_entries(entries: Vec<Entry>) -> (table: UsageTable)
        requires
            distinct_names(entries@),
        ensures
            table@ == entries_map(entries@),
    {
        UsageTable { entries }
    }

    /// The usage count of `name`, if it is a key.
    pub fn get(&self, name: &str) -> (r: Option<i32>)
        ensures
            match r {
                Some(count) => self@.contains_key(name@) && self@[name@] == count,
                None => !self@.contains_key(name@),
            },
    {
        proof {
            use_type_invariant(self);
        }
        match find_entry(&self.entries, name) {
            Some(i) => {
                proof {
                    lemma_entry_in_map(self.entries@, i as int);
                }
                Some(self.entries[i].count)
            },
            None => None,
        }
    }

    /// Whether `name` is a key.
    pub fn contains_key(&self, name: &str) -> (r: bool)
        ensures
            r == self@.contains_key(name@),
    {
        find_entry(&self.entries, name).is_some()
    }

    /// The number of keys.
    pub fn len(&self) -> (r: usize)
        ensures
            self@.dom().finite(),
            r == self@.dom().len(),
    {
        proof {
            use_type_invariant(self);
            lemma_map_size(self.entries@);
        }
        self.entries.len()
    }

    /// Takes the key `name` out, with the count it had. A name that is no key
    /// leaves the table as it is.
    pub fn remove(&mut self, name: &str) -> (r: Option<i32>)
        ensures
            final(self)@ == old(self)@.remove(name@),
            match r {
                Some(count) => old(self)@.contains_key(name@) && old(self)@[name@] == count,
                None => !old(self)@.contains_key(name@),
            },
    {
        let mut entries = take_entries(self);
        let r = match find_entry(&entries, name) {
            Some(i) => {
                proof {
                    lemma_entry_in_map(entries@, i as int);
                    lemma_map_after_remove(entries@, i as int);
                }
                let entry = entries.remove(i);
                Some(entry.count)
            },
            None => {
                assert(entries_map(entries@) =~= entries_map(entries@).remove(name@));
                None
            },
        };
        *self = UsageTable { entries };
        r
    }
}

/// The position of the entry named `name`, if there is one.
pub(crate) fn find_entry(entries: &Vec<Entry>, name: &str) -> (r: Option<usize>)
    ensures
        match r {
            Some(i) => i < entries@.len() && entries@[i as int].name@ == name@,
            None => !has_name(entries@, name@),
        },
{
    let mut i: usize = 0;
    while i < entries.len()
        invariant
            i <= entries@.len(),
            forall|j: int| 0 <= j < i ==> entries@[j].name@ != name@,
        decreases entries@.len() - i,
    {
        if same_text(entries[i].name.as_str(), name) {
            return Some(i);
        }
        i = i + 1;
    }
    None
}

/// Moves the entries out of a table, which is left empty.
pub(crate) fn take_entries(table: &mut UsageTable) -> (entries: Vec<Entry>)
    ensures
        distinct_names(entries@),
        entries_map(entries@) == old(table)@,
        final(table)@ == Map::<Seq<char>, int>::empty(),
{
    let mut taken = UsageTable::new();
    core::mem::swap(table, &mut taken);
    proof {
        use_type_invariant(&taken);
    }
    taken.entries
}

/// The count of `name` after one more use: a new key starts at 1, a known
/// one goes up by one and stays at `i32::MAX` once it is there.
pub open spec fn count_after_use(table: Map<Seq<char>, int>, name: Seq<char>) -> int {
    if !table.contains_key(name) {
        1
    } else if table[name] < i32::MAX {
        table[name] + 1
    } else {
        i32::MAX as int
    }
}

/// The table after one more use of `name`.
pub open spec fn recorded(table: Map<Seq<char>, int>, name: Seq<char>) -> Map<Seq<char>, int> {
    table.insert(name, count_after_use(table, name))
}

/// The first use of an identifier makes it a key with count 1 and leaves
/// every other entry as it was.
pub proof fn lemma_first_use(table: Map<Seq<char>, int>, name: Seq<char>)
    requires
        !table.contains_key(name),
    ensures
        recorded(table, name).contains_key(name),
        recorded(table, name)[name] == 1,
        recorded(table, name).remove(name) == table,
{
    assert(recorded(table, name).remove(name) =~= table);
}

/// One more use of a key raises its count by one, as long as the count is
/// below `i32::MAX`, and leaves every other entry as it was.
pub proof fn lemma_further_use(table: Map<Seq<char>, int>, name: Seq<char>)
    requires
        table.contains_key(name),
        table[name] < i32::MAX,
    ensures
        recorded(table, name).contains_key(name),
        recorded(table, name)[name] == table[name] + 1,
        recorded(table, name).remove(name) == table.remove(name),
{
    assert(recorded(table, name).remove(name) =~= table.remove(name));
}

/// A use takes no key away and lowers no count.
pub proof fn lemma_use_keeps_counts(table: Map<Seq<char>, int>, name: Seq<char>, other: Seq<char>)
    requires
        table.contains_key(other),
        table[other] <= i32::MAX,
    ensures
        recorded(table, name).contains_key(other),
        recorded(table, name)[other] >= table[other],
{
}

/// Counts one more use of `used`.
pub fn update_used(prog_map: &mut UsageTable, used: &str)
    ensures
        final(prog_map)@ == recorded(old(prog_map)@, used@),
{
    let mut entries = take_entries(prog_map);
    match find_entry(&entries, used) {
        Some(i) => {
            let count = entries[i].count;
            let next = if count < i32::MAX {
                count + 1
            } else {
                i32::MAX
            };
            let ghost before = entries@;
            proof {
                lemma_entry_in_map(before, i as int);
                lemma_map_after_update(
                    before,
                    i as int,
                    Entry { name: before[i as int].name, count: next },
                );
            }
            entries[i].count = next;
            assert(entries@ =~= before.update(
                i as int,
                Entry { name: before[i as int].name, count: next },
            ));
        },
        None => {
            let entry = Entry { name: used.to_owned(), count: 1 };
            proof {
                lemma_map_after_push(entries@, entry);
            }
            entries.push(entry);
        },
    }
    *prog_map = UsageTable { entries };
}

} // verus!
