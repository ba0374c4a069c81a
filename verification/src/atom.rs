//! The atom record and its fixed-column codec.
//!
//! A record line is eighty bytes wide. Decoding takes each field from its
//! byte columns; encoding writes the fields back into the same columns.
//! Coordinates are held in thousandths and the occupancy and temperature
//! factor in hundredths, each as a sign and a magnitude, which is exactly
//! what their columns can carry: the sign of a zero too.
//!
//! The numbers that are read are plain decimal numerals, and they are kept
//! exactly. The serial number and the residue sequence number are an
//! optional `+` and digits. A coordinate, the occupancy and the temperature
//! factor are an optional sign, digits, and optionally a point and more
//! digits, with at least one digit; behind the point the column format has
//! three digits for a coordinate and two for the other two, and what stands
//! beyond them must be zeros. A numeral that could not be kept exactly
//! (`1.0005` as a coordinate), one with an exponent (`1.0e1`), and `inf` and
//! `NaN` are malformed numbers.

use crate::numeral::{
    can_subtract, checked_difference, decimal, difference, fixed_text, parse_fixed,
    parse_fixed_text, parse_u32, parse_u32_text, push_fixed, push_number, Fixed,
};
use crate::text::{
    ascii_bytes, blanks, column, get_column, has_column, has_prefix, pad_left, pad_right,
    push_blanks, push_left, push_right, put, starts_with, trim, trimmed,
};
use vstd::prelude::*;
use vstd::string::*;
use vstd::utf8::*;

verus! {

/// Fractional digits of a coordinate.
pub const COORD_SCALE: u8 = 3;

/// Fractional digits of the occupancy and of the temperature factor.
pub const FACTOR_SCALE: u8 = 2;

/// Width of an encoded line whose fields fit their columns.
pub const LINE_WIDTH: usize = 80;

/// Width of the record marker.
pub const MARKER_WIDTH: usize = 6;

/// Least width of a serial number or of a residue sequence number.
pub const NUMBER_WIDTH: usize = 4;

/// Least width of an atom name or of a residue name.
pub const NAME_WIDTH: usize = 3;

/// Least width of a coordinate.
pub const COORD_WIDTH: usize = 8;

/// Least width of the occupancy and of the temperature factor.
pub const FACTOR_WIDTH: usize = 6;

/// Least width of the element symbol and of the charge.
pub const SYMBOL_WIDTH: usize = 2;

/// Blanks between the insertion code and the first coordinate.
pub const COORD_GAP: usize = 3;

/// Blanks between the temperature factor and the element symbol.
pub const SYMBOL_GAP: usize = 10;

/// The two kinds of coordinate record.
#[derive(Debug, Copy, Clone, PartialEq, Eq, Structural)]
pub enum RecordType {
    /// An atom of a standard residue.
    Atom,
    /// An atom of a hetero group.
    Hetatm,
}

/// The fields of a record line, in column order.
#[derive(Debug, Copy, Clone, PartialEq, Eq, Structural)]
pub enum Field {
    Id,
    Name,
    AltLoc,
    ResName,
    Chain,
    ResId,
    Icode,
    X,
    Y,
    Z,
    Occupancy,
    TempFactor,
    Element,
    Charge,
}

/// Why a line gives no record.
#[derive(Debug, Copy, Clone, PartialEq, Eq, Structural)]
pub enum DecodeError {
    /// The line does not begin with a record marker.
    UnrecognizedRecordPrefix,
    /// The line does not hold the columns of the field.
    MissingField(Field),
    /// The columns of the field do not hold a number of its type.
    MalformedNumeric(Field),
}

/// One atom of a structure.
#[derive(Debug, Clone)]
pub struct Atom {
    pub record_type: RecordType,
    /// Serial number.
    pub id: u32,
    pub name: String,
    /// Alternate location indicator.
    pub alt_loc: char,
    pub res_name: String,
    pub chain: char,
    /// Residue sequence number.
    pub res_id: u32,
    /// Insertion code.
    pub icode: char,
    /// Coordinates, in thousandths.
    pub x: Fixed,
    pub y: Fixed,
    pub z: Fixed,
    /// Occupancy, in hundredths.
    pub occupancy: Fixed,
    /// Temperature factor, in hundredths.
    pub temp_factor: Fixed,
    pub element: String,
    pub charge: String,
}

/// An atom as a mathematical value.
pub struct AtomView {
    pub record_type: RecordType,
    pub id: u32,
    pub name: Seq<char>,
    pub alt_loc: char,
    pub res_name: Seq<char>,
    pub chain: char,
    pub res_id: u32,
    pub icode: char,
    pub x: Fixed,
    pub y: Fixed,
    pub z: Fixed,
    pub occupancy: Fixed,
    pub temp_factor: Fixed,
    pub element: Seq<char>,
    pub charge: Seq<char>,
}

impl View for Atom {
    type V = AtomView;

    open spec fn view(&self) -> AtomView {
        AtomView {
            record_type: self.record_type,
            id: self.id,
            name: self.name@,
            alt_loc: self.alt_loc,
            res_name: self.res_name@,
            chain: self.chain,
            res_id: self.res_id,
            icode: self.icode,
            x: self.x,
            y: self.y,
            z: self.z,
            occupancy: self.occupancy,
            temp_factor: self.temp_factor,
            element: self.element@,
            charge: self.charge@,
        }
    }
}

impl Field {
    /// The first byte of the field's columns.
    pub open spec fn start(self) -> int {
        match self {
            Field::Id => 6,
            Field::Name => 12,
            Field::AltLoc => 16,
            Field::ResName => 17,
            Field::Chain => 21,
            Field::ResId => 22,
            Field::Icode => 26,
            Field::X => 30,
            Field::Y => 38,
            Field::Z => 46,
            Field::Occupancy => 54,
            Field::TempFactor => 60,
            Field::Element => 76,
            Field::Charge => 78,
        }
    }

    /// The byte behind the field's columns.
    pub open spec fn end(self) -> int {
        match self {
            Field::Id => 11,
            Field::Name => 16,
            Field::AltLoc => 17,
            Field::ResName => 20,
            Field::Chain => 22,
            Field::ResId => 26,
            Field::Icode => 27,
            Field::X => 38,
            Field::Y => 46,
            Field::Z => 54,
            Field::Occupancy => 60,
            Field::TempFactor => 66,
            Field::Element => 78,
            Field::Charge => 80,
        }
    }

    /// The fractional digits of a fixed-point field: two for the occupancy
    /// and the temperature factor, three for a coordinate and for any other field.
    pub open spec fn scale(self) -> nat {
        match self {
            Field::Occupancy | Field::TempFactor => FACTOR_SCALE as nat,
            _ => COORD_SCALE as nat,
        }
    }

    /// The field's columns: its first byte and the byte behind its last.
    pub fn columns(self) -> (r: (usize, usize))
        ensures
            r.0 == self.start(),
            r.1 == self.end(),
    {
        match self {
            Field::Id => (6, 11),
            Field::Name => (12, 16),
            Field::AltLoc => (16, 17),
            Field::ResName => (17, 20),
            Field::Chain => (21, 22),
            Field::ResId => (22, 26),
            Field::Icode => (26, 27),
            Field::X => (30, 38),
            Field::Y => (38, 46),
            Field::Z => (46, 54),
            Field::Occupancy => (54, 60),
            Field::TempFactor => (60, 66),
            Field::Element => (76, 78),
            Field::Charge => (78, 80),
        }
    }
}

/// The marker of an atom line.
pub open spec fn atom_marker() -> Seq<char> {
    seq!['A', 'T', 'O', 'M', ' ', ' ']
}

/// The marker of a hetero-atom line.
pub open spec fn hetatm_marker() -> Seq<char> {
    seq!['H', 'E', 'T', 'A', 'T', 'M']
}

/// The marker that stands for a kind of record.
pub open spec fn marker(kind: RecordType) -> Seq<char> {
    match kind {
        RecordType::Atom => atom_marker(),
        RecordType::Hetatm => hetatm_marker(),
    }
}

/// The kind of record that the first six bytes of a line announce.
pub open spec fn record_kind(line: Seq<u8>) -> Option<RecordType> {
    if starts_with(line, ascii_bytes(atom_marker())) {
        Some(RecordType::Atom)
    } else if starts_with(line, ascii_bytes(hetatm_marker())) {
        Some(RecordType::Hetatm)
    } else {
        None
    }
}

/// Whether the line holds the columns of `field`.
pub open spec fn has_field(line: Seq<u8>, field: Field) -> bool {
    has_column(line, field.start(), field.end())
}

/// The characters in the columns of `field`.
pub open spec fn raw(line: Seq<u8>, field: Field) -> Seq<char> {
    column(line, field.start(), field.end())
}

/// The trimmed text in the columns of `field`.
pub open spec fn text_of(line: Seq<u8>, field: Field) -> Seq<char> {
    trimmed(raw(line, field))
}

/// The unsigned integer in the columns of `field`.
pub open spec fn integer_of(line: Seq<u8>, field: Field) -> Option<u32> {
    parse_u32_text(text_of(line, field))
}

/// The fixed-point number in the columns of `field`.
pub open spec fn fixed_of(line: Seq<u8>, field: Field) -> Option<Fixed> {
    parse_fixed_text(text_of(line, field), field.scale())
}

/// Whether the columns of `field`, taken that the line holds them, hold a value of its type.
pub open spec fn well_typed(line: Seq<u8>, field: Field) -> bool {
    match field {
        Field::Id | Field::ResId => integer_of(line, field) is Some,
        Field::X | Field::Y | Field::Z | Field::Occupancy | Field::TempFactor => fixed_of(
            line,
            field,
        ) is Some,
        _ => true,
    }
}

/// What is wrong with `field` in the line, if anything.
pub open spec fn field_fault(line: Seq<u8>, field: Field) -> Option<DecodeError> {
    if !has_field(line, field) {
        Some(DecodeError::MissingField(field))
    } else if !well_typed(line, field) {
        Some(DecodeError::MalformedNumeric(field))
    } else {
        None
    }
}

/// The first of two faults.
pub open spec fn or_else(first: Option<DecodeError>, second: Option<DecodeError>) -> Option<
    DecodeError,
> {
    if first is Some {
        first
    } else {
        second
    }
}

/// The fault of the first field, in column order, with which something is wrong.
pub open spec fn first_fault(line: Seq<u8>) -> Option<DecodeError> {
    or_else(
        field_fault(line, Field::Id),
        or_else(
            field_fault(line, Field::Name),
            or_else(
                field_fault(line, Field::AltLoc),
                or_else(
                    field_fault(line, Field::ResName),
                    or_else(
                        field_fault(line, Field::Chain),
                        or_else(
                            field_fault(line, Field::ResId),
                            or_else(
                                field_fault(line, Field::Icode),
                                or_else(
                                    field_fault(line, Field::X),
                                    or_else(
                                        field_fault(line, Field::Y),
                                        or_else(
                                            field_fault(line, Field::Z),
                                            or_else(
                                                field_fault(line, Field::Occupancy),
                                                or_else(
                                                    field_fault(line, Field::TempFactor),
                                                    or_else(
                                                        field_fault(line, Field::Element),
                                                        field_fault(line, Field::Charge),
                                                    ),
                                                ),
                                            ),
                                        ),
                                    ),
                                ),
                            ),
                        ),
                    ),
                ),
            ),
        ),
    )
}

/// The record of kind `kind` that the fields of a faultless line make up.
pub open spec fn fields_of(line: Seq<u8>, kind: RecordType) -> AtomView {
    AtomView {
        record_type: kind,
        id: integer_of(line, Field::Id)->0,
        name: text_of(line, Field::Name),
        alt_loc: raw(line, Field::AltLoc)[0],
        res_name: text_of(line, Field::ResName),
        chain: raw(line, Field::Chain)[0],
        res_id: integer_of(line, Field::ResId)->0,
        icode: raw(line, Field::Icode)[0],
        x: fixed_of(line, Field::X)->0,
        y: fixed_of(line, Field::Y)->0,
        z: fixed_of(line, Field::Z)->0,
        occupancy: fixed_of(line, Field::Occupancy)->0,
        temp_factor: fixed_of(line, Field::TempFactor)->0,
        element: text_of(line, Field::Element),
        charge: text_of(line, Field::Charge),
    }
}

/// What a line, given by its bytes, decodes to.
///
/// A line that does not begin with a record marker is no record. Otherwise
/// the fields are taken in column order, and the first one whose columns the
/// line does not hold, or whose columns hold no number of its type, is the
/// error.
///
/// The numbers of a line are plain decimal numerals, read exactly. An integer
/// is an optional `+` and digits. A fixed-point number is an optional sign,
/// digits, and optionally a point and more digits; three digits behind the
/// point count for a coordinate and two for the occupancy and the
/// temperature factor, and any digit beyond them must be a zero. The sign is
/// kept, before a zero too. A numeral with a digit that would be lost
/// (`1.0005` as a coordinate), with an exponent (`1.0e1`), or one of `inf`
/// and `NaN` is malformed.
pub open spec fn decode(line: Seq<u8>) -> Result<AtomView, DecodeError> {
    match record_kind(line) {
        None => Err(DecodeError::UnrecognizedRecordPrefix),
        Some(kind) => match first_fault(line) {
            Some(fault) => Err(fault),
            None => Ok(fields_of(line, kind)),
        },
    }
}

/// The columns of the atom name: the name starts one column later where the
/// element symbol is a single byte.
pub open spec fn name_field(name: Seq<char>, element: Seq<char>) -> Seq<char> {
    if encode_utf8(element).len() == 1 {
        seq![' '] + pad_right(name, NAME_WIDTH as int)
    } else {
        pad_right(name, NAME_WIDTH as int) + seq![' ']
    }
}

/// The line that a record encodes to.
#[verifier::opaque]
pub open spec fn encode(a: AtomView) -> Seq<char> {
    marker(a.record_type) + seq![' '] + pad_left(decimal(a.id as nat), NUMBER_WIDTH as int)
        + seq![' '] + name_field(a.name, a.element) + seq![a.alt_loc] + pad_right(
        a.res_name,
        NAME_WIDTH as int,
    ) + seq![' '] + seq![a.chain] + pad_left(decimal(a.res_id as nat), NUMBER_WIDTH as int) + seq![
        a.icode,
    ] + blanks(COORD_GAP as int) + pad_left(
        fixed_text(a.x, COORD_SCALE as nat),
        COORD_WIDTH as int,
    ) + pad_left(fixed_text(a.y, COORD_SCALE as nat), COORD_WIDTH as int) + pad_left(
        fixed_text(a.z, COORD_SCALE as nat),
        COORD_WIDTH as int,
    ) + pad_left(fixed_text(a.occupancy, FACTOR_SCALE as nat), FACTOR_WIDTH as int)
        + pad_left(fixed_text(a.temp_factor, FACTOR_SCALE as nat), FACTOR_WIDTH as int)
        + blanks(SYMBOL_GAP as int) + pad_left(a.element, SYMBOL_WIDTH as int) + pad_left(
        a.charge,
        SYMBOL_WIDTH as int,
    )
}

/// The columns of `field`, or the error of a line too short for them.
fn take<'a>(line: &'a str, field: Field) -> (r: Result<&'a str, DecodeError>)
    ensures
        match r {
            Ok(text) => has_field(line.spec_bytes(), field) && text@ == raw(
                line.spec_bytes(),
                field,
            ) && text.spec_bytes() == line.spec_bytes().subrange(field.start(), field.end()),
            Err(e) => !has_field(line.spec_bytes(), field) && e == DecodeError::MissingField(
                field,
            ),
        },
{
    let (from, to) = field.columns();
    match get_column(line, from, to) {
        Some(text) => Ok(text),
        None => Err(DecodeError::MissingField(field)),
    }
}

/// The trimmed text of a text field.
fn take_text(line: &str, field: Field) -> (r: Result<String, DecodeError>)
    requires
        well_typed(line.spec_bytes(), field),
    ensures
        match r {
            Ok(text) => field_fault(line.spec_bytes(), field) is None && text@ == text_of(
                line.spec_bytes(),
                field,
            ),
            Err(e) => field_fault(line.spec_bytes(), field) == Some(e),
        },
{
    match take(line, field) {
        Ok(text) => Ok(trim(text).to_owned()),
        Err(e) => Err(e),
    }
}

/// The character of a field one byte wide.
fn take_char(line: &str, field: Field) -> (r: Result<char, DecodeError>)
    requires
        field.end() == field.start() + 1,
        well_typed(line.spec_bytes(), field),
    ensures
        match r {
            Ok(c) => field_fault(line.spec_bytes(), field) is None && c == raw(
                line.spec_bytes(),
                field,
            )[0],
            Err(e) => field_fault(line.spec_bytes(), field) == Some(e),
        },
{
    match take(line, field) {
        Ok(text) => {
            proof {
                assert(encode_utf8(text@).len() == 1);
                assert(text@.len() > 0);
            }
            Ok(text.get_char(0))
        },
        Err(e) => Err(e),
    }
}

/// The number of an unsigned integer field.
fn take_integer(line: &str, field: Field) -> (r: Result<u32, DecodeError>)
    requires
        field == Field::Id || field == Field::ResId,
    ensures
        match r {
            Ok(v) => field_fault(line.spec_bytes(), field) is None && integer_of(
                line.spec_bytes(),
                field,
            ) == Some(v),
            Err(e) => field_fault(line.spec_bytes(), field) == Some(e),
        },
{
    match take(line, field) {
        Ok(text) => match parse_u32(trim(text)) {
            Some(v) => Ok(v),
            None => Err(DecodeError::MalformedNumeric(field)),
        },
        Err(e) => Err(e),
    }
}

/// The number of a fixed-point field.
fn take_fixed(line: &str, field: Field, scale: u8) -> (r: Result<Fixed, DecodeError>)
    requires
        field == Field::X || field == Field::Y || field == Field::Z || field == Field::Occupancy
            || field == Field::TempFactor,
        scale == field.scale(),
    ensures
        match r {
            Ok(v) => field_fault(line.spec_bytes(), field) is None && fixed_of(
                line.spec_bytes(),
                field,
            ) == Some(v),
            Err(e) => field_fault(line.spec_bytes(), field) == Some(e),
        },
{
    match take(line, field) {
        Ok(text) => match parse_fixed(trim(text), scale) {
            Some(v) => Ok(v),
            None => Err(DecodeError::MalformedNumeric(field)),
        },
        Err(e) => Err(e),
    }
}

/// The kind of record that the line announces.
fn take_kind(line: &str) -> (r: Option<RecordType>)
    ensures
        r == record_kind(line.spec_bytes()),
{
    proof {
        reveal_strlit("ATOM  ");
        reveal_strlit("HETATM");
        is_ascii_spec_bytes("ATOM  ");
        is_ascii_spec_bytes("HETATM");
        assert("ATOM  ".spec_bytes() =~= ascii_bytes(atom_marker()));
        assert("HETATM".spec_bytes() =~= ascii_bytes(hetatm_marker()));
    }
    if has_prefix(line, "ATOM  ") {
        Some(RecordType::Atom)
    } else if has_prefix(line, "HETATM") {
        Some(RecordType::Hetatm)
    } else {
        None
    }
}

/// Appends the columns of the atom name.
fn push_name(out: &mut String, name: &str, element: &str)
    ensures
        final(out)@ == old(out)@ + name_field(name@, element@),
{
    if element.as_bytes().len() == 1 {
        put(out, ' ');
        push_left(out, name, NAME_WIDTH);
    } else {
        push_left(out, name, NAME_WIDTH);
        put(out, ' ');
    }
    proof {
        assert(out@ =~= old(out)@ + name_field(name@, element@));
    }
}

impl Atom {
    /// Decodes one line.
    ///
    /// The numbers are read as plain decimal numerals and kept exactly, the
    /// sign of a zero included. A numeral with an exponent, with another
    /// digit than zero beyond the digits that the column format has behind
    /// the point, or one of `inf` and `NaN` gives `MalformedNumeric`.
    pub fn from_line(line: &str) -> (r: Result<Atom, DecodeError>)
        ensures
            match r {
                Ok(atom) => decode(line.spec_bytes()) == Ok::<AtomView, DecodeError>(atom@),
                Err(e) => decode(line.spec_bytes()) == Err::<AtomView, DecodeError>(e),
            },
    {
        let record_type = match take_kind(line) {
            Some(kind) => kind,
            None => {
                return Err(DecodeError::UnrecognizedRecordPrefix);
            },
        };
        let id = match take_integer(line, Field::Id) {
            Ok(v) => v,
            Err(e) => {
                return Err(e);
            },
        };
        let name = match take_text(line, Field::Name) {
            Ok(v) => v,
            Err(e) => {
                return Err(e);
            },
        };
        let alt_loc = match take_char(line, Field::AltLoc) {
            Ok(v) => v,
            Err(e) => {
                return Err(e);
            },
        };
        let res_name = match take_text(line, Field::ResName) {
            Ok(v) => v,
            Err(e) => {
                return Err(e);
            },
        };
        let chain = match take_char(line, Field::Chain) {
            Ok(v) => v,
            Err(e) => {
                return Err(e);
            },
        };
        let res_id = match take_integer(line, Field::ResId) {
            Ok(v) => v,
            Err(e) => {
                return Err(e);
            },
        };
        let icode = match take_char(line, Field::Icode) {
            Ok(v) => v,
            Err(e) => {
                return Err(e);
            },
        };
        let x = match take_fixed(line, Field::X, COORD_SCALE) {
            Ok(v) => v,
            Err(e) => {
                return Err(e);
            },
        };
        let y = match take_fixed(line, Field::Y, COORD_SCALE) {
            Ok(v) => v,
            Err(e) => {
                return Err(e);
            },
        };
        let z = match take_fixed(line, Field::Z, COORD_SCALE) {
            Ok(v) => v,
            Err(e) => {
                return Err(e);
            },
        };
        let occupancy = match take_fixed(line, Field::Occupancy, FACTOR_SCALE) {
            Ok(v) => v,
            Err(e) => {
                return Err(e);
            },
        };
        let temp_factor = match take_fixed(line, Field::TempFactor, FACTOR_SCALE) {
            Ok(v) => v,
            Err(e) => {
                return Err(e);
            },
        };
        let element = match take_text(line, Field::Element) {
            Ok(v) => v,
            Err(e) => {
                return Err(e);
            },
        };
        let charge = match take_text(line, Field::Charge) {
            Ok(v) => v,
            Err(e) => {
                return Err(e);
            },
        };
        Ok(
            Atom {
                record_type,
                id,
                name,
                alt_loc,
                res_name,
                chain,
                res_id,
                icode,
                x,
                y,
                z,
                occupancy,
                temp_factor,
                element,
                charge,
            },
        )
    }
    /// Encodes the record as one line.
    pub fn to_string(&self) -> (r: String)
        ensures
            r@ == encode(self@),
    {
        let mut out = String::new();
        proof {
            reveal(encode);
            reveal_strlit("ATOM  ");
            reveal_strlit("HETATM");
            assert("ATOM  "@ =~= atom_marker());
            assert("HETATM"@ =~= hetatm_marker());
            assert(Seq::<char>::empty() + marker(self.record_type) =~= marker(self.record_type));
        }
        match self.record_type {
            RecordType::Atom => out.append("ATOM  "),
            RecordType::Hetatm => out.append("HETATM"),
        }
        put(&mut out, ' ');
        push_number(&mut out, self.id as u64, NUMBER_WIDTH);
        put(&mut out, ' ');
        push_name(&mut out, self.name.as_str(), self.element.as_str());
        put(&mut out, self.alt_loc);
        push_left(&mut out, self.res_name.as_str(), NAME_WIDTH);
        put(&mut out, ' ');
        put(&mut out, self.chain);
        push_number(&mut out, self.res_id as u64, NUMBER_WIDTH);
        put(&mut out, self.icode);
        push_blanks(&mut out, COORD_GAP);
        push_fixed(&mut out, self.x, COORD_SCALE, COORD_WIDTH);
        push_fixed(&mut out, self.y, COORD_SCALE, COORD_WIDTH);
        push_fixed(&mut out, self.z, COORD_SCALE, COORD_WIDTH);
        push_fixed(&mut out, self.occupancy, FACTOR_SCALE, FACTOR_WIDTH);
        push_fixed(&mut out, self.temp_factor, FACTOR_SCALE, FACTOR_WIDTH);
        push_blanks(&mut out, SYMBOL_GAP);
        push_right(&mut out, self.element.as_str(), SYMBOL_WIDTH);
        push_right(&mut out, self.charge.as_str(), SYMBOL_WIDTH);
        out
    }

    /// Moves the atom by the negative of `vec`, given in thousandths: each
    /// coordinate is lessened by its component of `vec`.
    pub fn translate(&mut self, vec: &[Fixed; 3])
        requires
            can_subtract(old(self).x, vec[0]),
            can_subtract(old(self).y, vec[1]),
            can_subtract(old(self).z, vec[2]),
        ensures
            final(self)@ == (AtomView {
                x: difference(old(self).x, vec[0]),
                y: difference(old(self).y, vec[1]),
                z: difference(old(self).z, vec[2]),
                ..old(self)@
            }),
    {
        match checked_difference(self.x, vec[0]) {
            Some(v) => {
                self.x = v;
            },
            None => {},
        }
        match checked_difference(self.y, vec[1]) {
            Some(v) => {
                self.y = v;
            },
            None => {},
        }
        match checked_difference(self.z, vec[2]) {
            Some(v) => {
                self.z = v;
            },
            None => {},
        }
    }
}

} // verus!
