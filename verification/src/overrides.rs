//! The table of overrides: translations that are supplied beforehand and
//! bypass the completion service.
use vstd::prelude::*;
use crate::text::{
    first_index_of, is_first_index_of, lex_lt, lowercase_text, normalized, occurs_in,
    split_at_first, text_contains, trim_text, trimmed,
};
use crate::text_map::{ascending, TextMap};

verus! {

/// The sign that parts a key from its translation in a line of the table's
/// source: an en dash.
pub const SEPARATOR: char = '\u{2013}';

/// A key with its translation.
pub type Entry = (Seq<char>, Seq<char>);

/// The texts of a sequence of pairs of strings.
pub open spec fn pair_views(pairs: Seq<(String, String)>) -> Seq<Entry> {
    Seq::new(pairs.len(), |i: int| (pairs[i].0@, pairs[i].1@))
}

/// The texts of a sequence of strings.
pub open spec fn line_views(lines: Seq<String>) -> Seq<Seq<char>> {
    Seq::new(lines.len(), |i: int| lines[i]@)
}

/// What a line of the table's source says: the normalized text before the
/// first separator as key, and the trimmed text behind it as translation.
/// A line without a separator says nothing.
pub open spec fn entry_of(line: Seq<char>) -> Option<Entry> {
    match first_index_of(line, SEPARATOR) {
        Some(i) => Some(
            (normalized(line.subrange(0, i)), trimmed(line.subrange(i + 1, line.len() as int))),
        ),
        None => None,
    }
}

/// The table that a sequence of lines builds, one entry after the other: a
/// later entry replaces an earlier one under the same key.
pub open spec fn table_of(lines: Seq<Seq<char>>) -> Map<Seq<char>, Seq<char>>
    decreases lines.len(),
{
    if lines.len() == 0 {
        Map::empty()
    } else {
        let before = table_of(lines.drop_last());
        match entry_of(lines.last()) {
            Some((key, value)) => before.insert(key, value),
            None => before,
        }
    }
}

/// Those of `entries` whose key is a contiguous part of `key`, in the order of
/// `entries`.
pub open spec fn hints_in(entries: Seq<Entry>, key: Seq<char>) -> Seq<Entry>
    decreases entries.len(),
{
    if entries.len() == 0 {
        Seq::empty()
    } else {
        let before = hints_in(entries.drop_last(), key);
        if occurs_in(entries.last().0, key) {
            before.push(entries.last())
        } else {
            before
        }
    }
}

/// The keys of a sequence of entries.
pub open spec fn entry_keys(entries: Seq<Entry>) -> Seq<Seq<char>> {
    Seq::new(entries.len(), |i: int| entries[i].0)
}

/// The hints among entries are those entries whose key is a contiguous part
/// of `key`, all of them, and they keep the order of the entries.
pub proof fn lemma_hints_in(entries: Seq<Entry>, key: Seq<char>)
    ensures
        forall|j: int|
            0 <= j < hints_in(entries, key).len() ==> {
                &&& occurs_in((#[trigger] hints_in(entries, key)[j]).0, key)
                &&& entries.contains(hints_in(entries, key)[j])
            },
        forall|i: int|
            0 <= i < entries.len() && occurs_in((#[trigger] entries[i]).0, key) ==> hints_in(
                entries,
                key,
            ).contains(entries[i]),
        ascending(entry_keys(entries)) ==> ascending(entry_keys(hints_in(entries, key))),
    decreases entries.len(),
{
    if entries.len() > 0 {
        let shorter = entries.drop_last();
        let last = entries.last();
        let before = hints_in(shorter, key);
        let hints = hints_in(entries, key);
        let n = entries.len() - 1;
        lemma_hints_in(shorter, key);
        assert forall|j: int| 0 <= j < hints.len() implies {
            &&& occurs_in((#[trigger] hints[j]).0, key)
            &&& entries.contains(hints[j])
        } by {
            if j < before.len() {
                assert(hints[j] == before[j]);
                let i = choose|i: int| 0 <= i < shorter.len() && shorter[i] == before[j];
                assert(entries[i] == hints[j]);
            } else {
                assert(entries[n] == hints[j]);
            }
        }
        assert forall|i: int| 0 <= i < entries.len() && occurs_in(
            (#[trigger] entries[i]).0,
            key,
        ) implies hints.contains(entries[i]) by {
            if i < n {
                assert(shorter[i] == entries[i]);
                let j = choose|j: int| 0 <= j < before.len() && before[j] == shorter[i];
                assert(hints[j] == entries[i]);
            } else {
                assert(hints[before.len() as int] == entries[i]);
            }
        }
        if ascending(entry_keys(entries)) {
            assert(ascending(entry_keys(shorter))) by {
                assert forall|a: int, b: int| 0 <= a < b < shorter.len() implies lex_lt(
                    #[trigger] entry_keys(shorter)[a],
                    #[trigger] entry_keys(shorter)[b],
                ) by {
                    assert(lex_lt(entry_keys(entries)[a], entry_keys(entries)[b]));
                }
            }
            assert forall|a: int, b: int| 0 <= a < b < hints.len() implies lex_lt(
                #[trigger] entry_keys(hints)[a],
                #[trigger] entry_keys(hints)[b],
            ) by {
                if b < before.len() {
                    assert(lex_lt(entry_keys(before)[a], entry_keys(before)[b]));
                } else {
                    let i = choose|i: int| 0 <= i < shorter.len() && shorter[i] == before[a];
                    assert(lex_lt(entry_keys(entries)[i], entry_keys(entries)[n]));
                }
            }
        }
    }
}

/// A line of the table's source that holds no separator.
#[derive(Clone, Copy, PartialEq, Eq, Structural, Debug)]
pub struct InvalidEntry {
    /// The number of the line, the first line being line 1.
    pub line: usize,
}

/// The table of overrides. It is filled once and only read afterwards.
pub struct Dictionary {
    pub table: TextMap<String>,
}

impl Dictionary {
    pub open spec fn wf(&self) -> bool {
        self.table.wf()
    }

    /// The table as a map from keys to translations.
    pub open spec fn view(&self) -> Map<Seq<char>, Seq<char>> {
        Map::new(
            |key: Seq<char>| self.table@.contains_key(key),
            |key: Seq<char>| self.table@[key]@,
        )
    }

    /// The entries in ascending order of their keys.
    pub open spec fn entries(&self) -> Seq<Entry> {
        Seq::new(
            self.table.keys().len(),
            |i: int| (self.table.keys()[i], self.table.values()[i]@),
        )
    }

    /// The hints for `key`: every entry whose key is a contiguous part of
    /// `key`, in ascending order of the entries' keys.
    pub open spec fn hints_for(&self, key: Seq<char>) -> Seq<Entry> {
        hints_in(self.entries(), key)
    }

    /// The entries are the map, listed in ascending order of the keys.
    pub proof fn lemma_entries(&self)
        requires
            self.wf(),
        ensures
            ascending(self.table.keys()),
            self.entries().len() == self.table.keys().len(),
            forall|i: int|
                0 <= i < self.entries().len() ==> {
                    &&& (#[trigger] self.entries()[i]).0 == self.table.keys()[i]
                    &&& self@.contains_key(self.entries()[i].0)
                    &&& self@[self.entries()[i].0] == self.entries()[i].1
                },
            forall|key: Seq<char>| #[trigger]
                self@.contains_key(key) ==> exists|i: int|
                    0 <= i < self.entries().len() && (#[trigger] self.entries()[i]).0 == key,
    {
        assert forall|i: int| 0 <= i < self.entries().len() implies {
            &&& (#[trigger] self.entries()[i]).0 == self.table.keys()[i]
            &&& self@.contains_key(self.entries()[i].0)
            &&& self@[self.entries()[i].0] == self.entries()[i].1
        } by {
            self.table.lemma_rank(i);
        }
        assert forall|key: Seq<char>| #[trigger] self@.contains_key(key) implies exists|i: int|
            0 <= i < self.entries().len() && (#[trigger] self.entries()[i]).0 == key by {
            self.table.lemma_rank_of_key(key);
            assert(self.entries()[self.table.rank(key)].0 == key);
        }
    }

    /// The hints for a key stand in ascending order of their keys; each of
    /// them is an entry of the table whose key is a contiguous part of the
    /// key; and no such entry is missing among them.
    pub proof fn law_hints(&self, key: Seq<char>)
        requires
            self.wf(),
        ensures
            ascending(entry_keys(self.hints_for(key))),
            forall|j: int|
                0 <= j < self.hints_for(key).len() ==> {
                    &&& occurs_in((#[trigger] self.hints_for(key)[j]).0, key)
                    &&& self@.contains_key(self.hints_for(key)[j].0)
                    &&& self@[self.hints_for(key)[j].0] == self.hints_for(key)[j].1
                },
            forall|subkey: Seq<char>|
                #![trigger self@.contains_key(subkey)]
                self@.contains_key(subkey) && occurs_in(subkey, key) ==> self.hints_for(
                    key,
                ).contains((subkey, self@[subkey])),
    {
        let entries = self.entries();
        let hints = self.hints_for(key);
        self.lemma_entries();
        lemma_hints_in(entries, key);
        assert(entry_keys(entries) =~= self.table.keys());
        assert forall|j: int| 0 <= j < hints.len() implies {
            &&& occurs_in((#[trigger] hints[j]).0, key)
            &&& self@.contains_key(hints[j].0)
            &&& self@[hints[j].0] == hints[j].1
        } by {
            let i = choose|i: int| 0 <= i < entries.len() && entries[i] == hints[j];
            assert(self@[entries[i].0] == entries[i].1);
        }
        assert forall|subkey: Seq<char>|
            #![trigger self@.contains_key(subkey)]
            self@.contains_key(subkey) && occurs_in(subkey, key) implies hints.contains(
            (subkey, self@[subkey]),
        ) by {
            let i = choose|i: int| 0 <= i < entries.len() && (#[trigger] entries[i]).0 == subkey;
            assert(self@[entries[i].0] == entries[i].1);
            assert(entries[i] == (subkey, self@[subkey]));
        }
    }

    /// The empty table.
    pub fn new() -> (r: Self)
        ensures
            r.wf(),
            r@ == Map::<Seq<char>, Seq<char>>::empty(),
            r.entries() == Seq::<Entry>::empty(),
    {
        let r = Dictionary { table: TextMap::new() };
        assert(r@ =~= Map::<Seq<char>, Seq<char>>::empty());
        assert(r.entries() =~= Seq::<Entry>::empty());
        r
    }

    /// The number of entries.
    pub fn len(&self) -> (n: usize)
        requires
            self.wf(),
        ensures
            n == self.entries().len(),
    {
        self.table.len()
    }

    /// Puts `value` under `key`. A translation that stood under `key` before
    /// is replaced.
    pub fn insert(&mut self, key: String, value: String)
        requires
            old(self).wf(),
        ensures
            final(self).wf(),
            final(self)@ == old(self)@.insert(key@, value@),
    {
        self.table.insert(key, value);
        assert(self@ =~= old(self)@.insert(key@, value@));
    }

    /// The translation that stands under exactly `key`, if there is one.
    pub fn lookup(&self, key: &str) -> (r: Option<&String>)
        requires
            self.wf(),
        ensures
            match r {
                Some(value) => self@.contains_key(key@) && value@ == self@[key@],
                None => !self@.contains_key(key@),
            },
    {
        self.table.get(key)
    }

    /// The hints for `key`: every entry whose key is a contiguous part of
    /// `key`, in ascending order of the entries' keys.
    pub fn hints(&self, key: &str) -> (r: Vec<(String, String)>)
        requires
            self.wf(),
        ensures
            pair_views(r@) == self.hints_for(key@),
    {
        let mut found: Vec<(String, String)> = Vec::new();
        let n: usize = self.table.len();
        let mut i: usize = 0;
        assert(self.entries().take(0) =~= Seq::<Entry>::empty());
        assert(pair_views(found@) =~= Seq::<Entry>::empty());
        while i < n
            invariant
                self.wf(),
                n == self.entries().len(),
                n == self.table.keys().len(),
                i <= n,
                pair_views(found@) == hints_in(self.entries().take(i as int), key@),
            decreases n - i,
        {
            let subkey = self.table.key_at(i);
            let translation = self.table.value_at(i);
            proof {
                let upto = self.entries().take(i as int + 1);
                assert(upto.drop_last() =~= self.entries().take(i as int));
                assert(upto.last() == (subkey@, translation@));
            }
            if text_contains(key, subkey.as_str()) {
                let ghost earlier = found@;
                found.push((subkey.clone(), translation.clone()));
                assert(pair_views(found@) =~= pair_views(earlier).push((subkey@, translation@)));
            }
            i = i + 1;
        }
        assert(self.entries().take(n as int) =~= self.entries());
        found
    }

    /// Reads one line of the table's source.
    pub fn parse_entry(line: &str) -> (r: Option<(String, String)>)
        ensures
            match r {
                Some((key, value)) => entry_of(line@) == Some((key@, value@)),
                None => entry_of(line@) is None,
            },
    {
        match split_at_first(line, SEPARATOR) {
            Some((head, tail)) => {
                proof {
                    let at = head@.len() as int;
                    assert(line@.contains(SEPARATOR));
                    let chosen = first_index_of(line@, SEPARATOR).unwrap();
                    assert(is_first_index_of(line@, SEPARATOR, chosen));
                    assert(chosen == at);
                }
                let key = lowercase_text(trim_text(head));
                let value = trim_text(tail).to_owned();
                Some((key, value))
            },
            None => None,
        }
    }

    /// Builds the table from the lines of its source. The first line that
    /// holds no separator ends the reading, and its number is reported.
    pub fn from_lines(lines: &Vec<String>) -> (r: Result<Dictionary, InvalidEntry>)
        ensures
            match r {
                Ok(table) => {
                    &&& table.wf()
                    &&& forall|i: int| 0 <= i < lines.len() ==> entry_of(#[trigger] lines[i]@) is Some
                    &&& table@ == table_of(line_views(lines@))
                },
                Err(e) => {
                    &&& 1 <= e.line <= lines.len()
                    &&& entry_of(lines[e.line - 1]@) is None
                    &&& forall|i: int| 0 <= i < e.line - 1 ==> entry_of(#[trigger] lines[i]@) is Some
                },
            },
    {
        let mut table = Dictionary::new();
        let mut i: usize = 0;
        assert(line_views(lines@).take(0) =~= Seq::<Seq<char>>::empty());
        while i < lines.len()
            invariant
                i <= lines.len(),
                table.wf(),
                forall|j: int| 0 <= j < i ==> entry_of(#[trigger] lines[j]@) is Some,
                table@ == table_of(line_views(lines@).take(i as int)),
            decreases lines.len() - i,
        {
            proof {
                let upto = line_views(lines@).take(i as int + 1);
                assert(upto.drop_last() =~= line_views(lines@).take(i as int));
                assert(upto.last() == lines[i as int]@);
            }
            match Dictionary::parse_entry(lines[i].as_str()) {
                Some((key, value)) => {
                    table.insert(key, value);
                },
                None => {
                    return Err(InvalidEntry { line: i + 1 });
                },
            }
            i = i + 1;
        }
        assert(line_views(lines@).take(lines.len() as int) =~= line_views(lines@));
        Ok(table)
    }
}

} // verus!
