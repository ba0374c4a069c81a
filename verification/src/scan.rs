//! The pass over the lines of a structure file: which lines are records of
//! the kind asked for, which are connectivity lines, and what is written in
//! the end.

use crate::atom::{atom_marker, decode, DecodeError, RecordType};
use crate::collection::{output_lines, texts, AtomCollection};
use crate::connect::{conect_id, connection_lines, keyed_by_id, Connections};
use crate::filter::Filter;
use crate::text::{ascii_bytes, has_prefix, starts_with};
use vstd::prelude::*;
use vstd::string::*;

verus! {

/// What a line of a structure file is taken for.
#[derive(Debug, Copy, Clone, PartialEq, Eq, Structural)]
pub enum LineClass {
    /// A record of the kind asked for.
    Record,
    /// A connectivity line, taken only along with hetero atoms.
    Connection,
    /// Any other line.
    Other,
}

/// The marker of a hetero-atom line together with the blank that follows it.
pub open spec fn hetatm_lead() -> Seq<char> {
    seq!['H', 'E', 'T', 'A', 'T', 'M', ' ']
}

/// The marker of a connectivity line.
pub open spec fn conect_marker() -> Seq<char> {
    seq!['C', 'O', 'N', 'E', 'C', 'T']
}

/// The bytes that a record line of a kind begins with. A hetero-atom line is
/// known by its marker and the blank behind it.
pub open spec fn record_lead(kind: RecordType) -> Seq<char> {
    match kind {
        RecordType::Atom => atom_marker(),
        RecordType::Hetatm => hetatm_lead(),
    }
}

/// What a line, given by its bytes, is taken for when records of `kind` are
/// asked for.
pub open spec fn line_class(line: Seq<u8>, kind: RecordType) -> LineClass {
    if starts_with(line, ascii_bytes(record_lead(kind))) {
        LineClass::Record
    } else if starts_with(line, ascii_bytes(conect_marker())) && kind == RecordType::Hetatm {
        LineClass::Connection
    } else {
        LineClass::Other
    }
}

/// Tells what a line is taken for when records of `kind` are asked for.
pub fn classify(line: &str, kind: RecordType) -> (r: LineClass)
    ensures
        r == line_class(line.spec_bytes(), kind),
{
    proof {
        reveal_strlit("ATOM  ");
        reveal_strlit("HETATM ");
        reveal_strlit("CONECT");
        is_ascii_spec_bytes("ATOM  ");
        is_ascii_spec_bytes("HETATM ");
        is_ascii_spec_bytes("CONECT");
        assert("ATOM  ".spec_bytes() =~= ascii_bytes(atom_marker()));
        assert("HETATM ".spec_bytes() =~= ascii_bytes(hetatm_lead()));
        assert("CONECT".spec_bytes() =~= ascii_bytes(conect_marker()));
    }
    let lead = match kind {
        RecordType::Atom => "ATOM  ",
        RecordType::Hetatm => "HETATM ",
    };
    if has_prefix(line, lead) {
        LineClass::Record
    } else if has_prefix(line, "CONECT") {
        match kind {
            RecordType::Hetatm => LineClass::Connection,
            RecordType::Atom => LineClass::Other,
        }
    } else {
        LineClass::Other
    }
}

/// Takes one line of a structure file: a record line is decoded and added
/// where the filter keeps it, a connectivity line is stored, any other line
/// is passed over. A record line that does not decode is an error, and
/// nothing is changed: whether to stop there or to go on with the next line
/// is for the caller to say.
pub fn scan_line(
    atoms: &mut AtomCollection,
    connections: &mut Connections,
    filter: &Filter,
    line: &str,
) -> (r: Result<(), DecodeError>)
    ensures
        final(atoms).record_type == old(atoms).record_type,
        keyed_by_id(old(connections).table()) ==> keyed_by_id(final(connections).table()),
        match line_class(line.spec_bytes(), old(atoms).record_type) {
            LineClass::Record => {
                &&& final(connections).table() == old(connections).table()
                &&& match decode(line.spec_bytes()) {
                    Ok(atom) => r is Ok && final(atoms).records() == if filter.accepts(atom) {
                        old(atoms).records().push(atom)
                    } else {
                        old(atoms).records()
                    },
                    Err(e) => r == Err::<(), DecodeError>(e) && final(atoms).records() == old(
                        atoms,
                    ).records(),
                }
            },
            LineClass::Connection => {
                &&& r is Ok
                &&& final(atoms).records() == old(atoms).records()
                &&& final(connections).table() == match conect_id(line.spec_bytes()) {
                    Some(id) => old(connections).table().insert(id, line@),
                    None => old(connections).table(),
                }
            },
            LineClass::Other => {
                &&& r is Ok
                &&& final(atoms).records() == old(atoms).records()
                &&& final(connections).table() == old(connections).table()
            },
        },
{
    match classify(line, atoms.record_type) {
        LineClass::Record => atoms.add_atom(line, filter),
        LineClass::Connection => {
            connections.add_line(line);
            Ok(())
        },
        LineClass::Other => Ok(()),
    }
}

/// What is written for a collection and the connectivity lines stored with
/// it: the lines of the collection, and behind them, for hetero atoms, the
/// connectivity lines of its records.
pub open spec fn report_lines(atoms: AtomCollection, table: Map<u32, Seq<char>>) -> Seq<
    Seq<char>,
> {
    output_lines(atoms.record_type, atoms.records()) + (if atoms.record_type
        == RecordType::Hetatm {
        connection_lines(table, atoms.records())
    } else {
        Seq::empty()
    })
}

/// All the lines to write, in order.
pub fn report(atoms: &AtomCollection, connections: &Connections) -> (lines: Vec<String>)
    ensures
        texts(lines@) == report_lines(*atoms, connections.table()),
{
    let mut lines = atoms.output();
    match atoms.record_type {
        RecordType::Hetatm => {
            let mut extra = connections.lines_for(atoms);
            let ghost first = lines@;
            let ghost second = extra@;
            lines.append(&mut extra);
            proof {
                assert(texts(lines@) =~= texts(first) + texts(second));
            }
        },
        RecordType::Atom => {
            proof {
                assert(texts(lines@) + Seq::<Seq<char>>::empty() =~= texts(lines@));
            }
        },
    }
    lines
}

} // verus!
