//! Connectivity lines, kept as they were read and written out again for the
//! records that remain.
//!
//! A connectivity line is stored under the serial number in its columns six
//! to ten. It is never decoded further. A later line with the same number
//! takes the place of an earlier one.

use crate::atom::AtomView;
use crate::collection::{texts, AtomCollection};
use crate::numeral::{parse_u32, parse_u32_text};
use crate::text::{column, get_column, has_column, trim, trimmed};
use std::collections::HashMap;
use vstd::prelude::*;
use vstd::string::*;
use vstd::utf8::*;

verus! {

/// The first byte of the serial number of a connectivity line.
pub const CONECT_ID_START: usize = 6;

/// The byte behind the serial number of a connectivity line.
pub const CONECT_ID_END: usize = 11;

/// The serial number that a connectivity line, given by its bytes, is stored
/// under; none where the line is too short or its columns hold no number.
pub open spec fn conect_id(line: Seq<u8>) -> Option<u32> {
    if has_column(line, CONECT_ID_START as int, CONECT_ID_END as int) {
        parse_u32_text(trimmed(column(line, CONECT_ID_START as int, CONECT_ID_END as int)))
    } else {
        None
    }
}

/// The lines written for the first `n` records: for each record, in order,
/// the line stored under its serial number, where there is one.
pub open spec fn connections_upto(
    table: Map<u32, Seq<char>>,
    entries: Seq<AtomView>,
    n: int,
) -> Seq<Seq<char>>
    decreases n,
{
    if n <= 0 {
        Seq::empty()
    } else if table.contains_key(entries[n - 1].id) {
        connections_upto(table, entries, n - 1).push(table[entries[n - 1].id])
    } else {
        connections_upto(table, entries, n - 1)
    }
}

/// The connectivity lines written for the records.
pub open spec fn connection_lines(table: Map<u32, Seq<char>>, entries: Seq<AtomView>) -> Seq<
    Seq<char>,
> {
    connections_upto(table, entries, entries.len() as int)
}

/// Whether every line of the table is stored under the serial number that it carries.
pub open spec fn keyed_by_id(table: Map<u32, Seq<char>>) -> bool {
    forall|id: u32| #[trigger]
        table.contains_key(id) ==> conect_id(encode_utf8(table[id])) == Some(id)
}

/// Connectivity lines by serial number.
pub struct Connections {
    lines: HashMap<u32, String>,
}

impl Connections {
    /// The stored lines as a mathematical map.
    pub closed spec fn table(&self) -> Map<u32, Seq<char>> {
        self.lines@.map_values(|s: String| s@)
    }

    /// No lines.
    pub fn new() -> (r: Self)
        ensures
            r.table() == Map::<u32, Seq<char>>::empty(),
            keyed_by_id(r.table()),
    {
        let r = Connections { lines: HashMap::new() };
        proof {
            assert(r.table() =~= Map::<u32, Seq<char>>::empty());
        }
        r
    }

    /// Stores a line under its serial number and says whether it did: a line
    /// without one is dropped.
    pub fn add_line(&mut self, line: &str) -> (kept: bool)
        ensures
            kept == conect_id(line.spec_bytes()) is Some,
            final(self).table() == match conect_id(line.spec_bytes()) {
                Some(id) => old(self).table().insert(id, line@),
                None => old(self).table(),
            },
            keyed_by_id(old(self).table()) ==> keyed_by_id(final(self).table()),
    {
        broadcast use vstd::std_specs::hash::group_hash_axioms;

        let id = match get_column(line, CONECT_ID_START, CONECT_ID_END) {
            Some(text) => match parse_u32(trim(text)) {
                Some(id) => id,
                None => {
                    return false;
                },
            },
            None => {
                return false;
            },
        };
        let stored = line.to_owned();
        self.lines.insert(id, stored);
        proof {
            assert(self.table() =~= old(self).table().insert(id, line@));
        }
        true
    }

    /// The line stored under a serial number.
    pub fn get(&self, id: u32) -> (r: Option<&String>)
        ensures
            r is Some == self.table().contains_key(id),
            r matches Some(line) ==> line@ == self.table()[id],
    {
        broadcast use vstd::std_specs::hash::group_hash_axioms;

        self.lines.get(&id)
    }

    /// The connectivity lines of the records of a collection, in the order of
    /// the records.
    pub fn lines_for(&self, atoms: &AtomCollection) -> (lines: Vec<String>)
        ensures
            texts(lines@) == connection_lines(self.table(), atoms.records()),
    {
        let mut lines: Vec<String> = Vec::new();
        let n = atoms.entries.len();
        let mut i: usize = 0;
        proof {
            assert(texts(lines@) =~= connections_upto(self.table(), atoms.records(), 0));
        }
        while i < n
            invariant
                i <= n == atoms.entries@.len(),
                texts(lines@) == connections_upto(self.table(), atoms.records(), i as int),
            decreases n - i,
        {
            let ghost before = texts(lines@);
            proof {
                assert(atoms.records()[i as int] == atoms.entries@[i as int]@);
            }
            match self.get(atoms.entries[i].id) {
                Some(line) => {
                    lines.push(line.clone());
                    proof {
                        assert(texts(lines@) =~= before.push(line@));
                    }
                },
                None => {},
            }
            i += 1;
        }
        lines
    }
}

/// Every connectivity line written is the line stored under the serial
/// number of one of the records.
pub proof fn lemma_connections_belong_to_records(
    table: Map<u32, Seq<char>>,
    entries: Seq<AtomView>,
    n: int,
    j: int,
)
    requires
        0 <= n <= entries.len(),
        0 <= j < connections_upto(table, entries, n).len(),
    ensures
        exists|i: int|
            0 <= i < n && table.contains_key(#[trigger] entries[i].id) && connections_upto(
                table,
                entries,
                n,
            )[j] == table[entries[i].id],
    decreases n,
{
    if n > 0 {
        let shorter = connections_upto(table, entries, n - 1);
        if j < shorter.len() {
            lemma_connections_belong_to_records(table, entries, n - 1, j);
            let i = choose|i: int|
                0 <= i < n - 1 && table.contains_key(#[trigger] entries[i].id) && shorter[j]
                    == table[entries[i].id];
            assert(0 <= i < n && table.contains_key(entries[i].id) && connections_upto(
                table,
                entries,
                n,
            )[j] == table[entries[i].id]);
        } else {
            assert(table.contains_key(entries[n - 1].id));
            assert(connections_upto(table, entries, n)[j] == table[entries[n - 1].id]);
        }
    }
}

/// The line of a serial number that no record carries is never written.
pub proof fn lemma_unreferenced_connection_not_written(
    table: Map<u32, Seq<char>>,
    entries: Seq<AtomView>,
    id: u32,
)
    requires
        keyed_by_id(table),
        table.contains_key(id),
        forall|i: int| 0 <= i < entries.len() ==> (#[trigger] entries[i]).id != id,
    ensures
        !connection_lines(table, entries).contains(table[id]),
{
    let written = connection_lines(table, entries);
    if written.contains(table[id]) {
        let j = choose|j: int| 0 <= j < written.len() && written[j] == table[id];
        lemma_connections_belong_to_records(table, entries, entries.len() as int, j);
        let i = choose|i: int|
            0 <= i < entries.len() && table.contains_key(#[trigger] entries[i].id) && written[j]
                == table[entries[i].id];
        assert(entries[i].id != id);
        assert(conect_id(encode_utf8(table[entries[i].id])) == Some(entries[i].id));
        assert(conect_id(encode_utf8(table[id])) == Some(id));
    }
}

} // verus!
