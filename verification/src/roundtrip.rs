//! Decoding and encoding are inverse to each other.
//!
//! Decoding a line and encoding the record again gives the line back, for
//! the lines that are laid out as the encoder lays them out: eighty ASCII
//! characters, blanks between the fields, text fields justified, and numbers
//! written the way their type writes them. Encoding a record and decoding
//! the line again gives the record back, for the records whose fields fit
//! their columns; and the lines encoded for such records are laid out as
//! the first law asks.
//!
//! The layout is described twice: by what the codec makes of each field
//! (`is_canonical`), and by the characters of the line alone
//! (`is_plainly_written`). A zero with a minus sign, `-0.000`, is a plainly
//! written number like any other and comes back as it was.

use crate::atom::{
    atom_marker, decode, encode, field_fault, fields_of, first_fault, has_field, hetatm_marker,
    integer_of,
    fixed_of, marker, name_field, raw, record_kind, text_of, AtomView, DecodeError, Field,
    RecordType, COORD_GAP, COORD_SCALE, COORD_WIDTH, FACTOR_SCALE, FACTOR_WIDTH, LINE_WIDTH,
    MARKER_WIDTH, NAME_WIDTH, NUMBER_WIDTH, SYMBOL_GAP, SYMBOL_WIDTH,
};
use crate::numeral::{
    Fixed, decimal, digits_value, fixed_text, is_digit, is_plain_fixed, is_plain_integer,
    lemma_decimal_len, lemma_decimal_parses, lemma_decimal_writes_number,
    lemma_decimal_is_plain, lemma_few_digits_are_small, lemma_fixed_text_is_plain,
    lemma_fixed_text_parses, lemma_fixed_text_shape,
    lemma_plain_fixed_digits, lemma_plain_fixed_round_trips, lemma_plain_integer_round_trips,
    parse_fixed_text, parse_u32_text, plain_fixed_digits, pow10,
};
use crate::text::{
    ascii_bytes, blanks, is_whitespace, lemma_ascii_column, lemma_nothing_to_trim,
    lemma_trimmed_after_blank, lemma_trimmed_among_blanks, lemma_trimmed_before_blank,
    lemma_trimmed_is_piece, pad_left, pad_right, trimmed,
};
use vstd::prelude::*;
use vstd::utf8::*;

verus! {

/// Whether the text stands at the left of its field, blanks filling the rest.
pub open spec fn left_justified(field: Seq<char>) -> bool {
    field == pad_right(trimmed(field), field.len() as int)
}

/// Whether the text stands at the right of its field, blanks filling the rest.
pub open spec fn right_justified(field: Seq<char>) -> bool {
    field == pad_left(trimmed(field), field.len() as int)
}

/// Whether the field holds an unsigned integer, right-justified and written
/// as the integer is written.
pub open spec fn holds_plain_integer(field: Seq<char>) -> bool {
    &&& right_justified(field)
    &&& parse_u32_text(trimmed(field)) is Some
    &&& decimal(parse_u32_text(trimmed(field))->0 as nat) == trimmed(field)
}

/// Whether the field holds a fixed-point number, right-justified and written
/// as the number is written with `scale` fractional digits.
pub open spec fn holds_plain_fixed(field: Seq<char>, scale: nat) -> bool {
    &&& right_justified(field)
    &&& parse_fixed_text(trimmed(field), scale) is Some
    &&& fixed_text(parse_fixed_text(trimmed(field), scale)->0, scale) == trimmed(field)
}

/// The characters of the line in the columns of a field.
pub open spec fn cut(line: Seq<char>, field: Field) -> Seq<char> {
    line.subrange(field.start(), field.end())
}

/// Whether the atom name is laid out as the encoder lays it out: behind one
/// blank where the element symbol is a single character, before one blank
/// otherwise.
pub open spec fn name_in_place(line: Seq<char>) -> bool {
    if trimmed(cut(line, Field::Element)).len() == 1 {
        line[Field::Name.start()] == ' ' && left_justified(
            line.subrange(Field::Name.start() + 1, Field::Name.end()),
        )
    } else {
        left_justified(line.subrange(Field::Name.start(), Field::Name.end() - 1))
            && line[Field::Name.end() - 1] == ' '
    }
}

/// Whether the line is laid out as the encoder lays a record out: eighty
/// ASCII characters, a record marker, a blank in each column between two
/// fields, text fields justified, and numbers written as their values are
/// written.
pub open spec fn is_canonical(line: Seq<char>) -> bool {
    &&& line.len() == LINE_WIDTH
    &&& is_ascii_chars(line)
    &&& (line.subrange(0, MARKER_WIDTH as int) == atom_marker() || line.subrange(
        0,
        MARKER_WIDTH as int,
    ) == hetatm_marker())
    &&& line[Field::Id.start()] == ' '
    &&& holds_plain_integer(line.subrange(Field::Id.start() + 1, Field::Id.end()))
    &&& line[Field::Id.end()] == ' '
    &&& name_in_place(line)
    &&& left_justified(cut(line, Field::ResName))
    &&& line[Field::ResName.end()] == ' '
    &&& holds_plain_integer(cut(line, Field::ResId))
    &&& line.subrange(Field::Icode.end(), Field::X.start()) == blanks(COORD_GAP as int)
    &&& holds_plain_fixed(cut(line, Field::X), COORD_SCALE as nat)
    &&& holds_plain_fixed(cut(line, Field::Y), COORD_SCALE as nat)
    &&& holds_plain_fixed(cut(line, Field::Z), COORD_SCALE as nat)
    &&& holds_plain_fixed(cut(line, Field::Occupancy), FACTOR_SCALE as nat)
    &&& holds_plain_fixed(cut(line, Field::TempFactor), FACTOR_SCALE as nat)
    &&& line.subrange(Field::TempFactor.end(), Field::Element.start()) == blanks(
        SYMBOL_GAP as int,
    )
    &&& right_justified(cut(line, Field::Element))
    &&& right_justified(cut(line, Field::Charge))
}

/// The kind of record that a canonical line announces.
pub open spec fn kind_of(line: Seq<char>) -> RecordType {
    if line.subrange(0, 6) == atom_marker() {
        RecordType::Atom
    } else {
        RecordType::Hetatm
    }
}

/// Whether what the encoder writes for each field of the record is what
/// stands in the columns of the field.
spec fn fields_in_place(line: Seq<char>, a: AtomView) -> bool {
    &&& pad_left(decimal(a.id as nat), NUMBER_WIDTH as int) == line.subrange(7, 11)
    &&& name_field(a.name, a.element) == cut(line, Field::Name)
    &&& seq![a.alt_loc] == cut(line, Field::AltLoc)
    &&& pad_right(a.res_name, NAME_WIDTH as int) == cut(line, Field::ResName)
    &&& seq![a.chain] == cut(line, Field::Chain)
    &&& pad_left(decimal(a.res_id as nat), NUMBER_WIDTH as int) == cut(line, Field::ResId)
    &&& seq![a.icode] == cut(line, Field::Icode)
    &&& pad_left(fixed_text(a.x, COORD_SCALE as nat), COORD_WIDTH as int) == cut(
        line,
        Field::X,
    )
    &&& pad_left(fixed_text(a.y, COORD_SCALE as nat), COORD_WIDTH as int) == cut(
        line,
        Field::Y,
    )
    &&& pad_left(fixed_text(a.z, COORD_SCALE as nat), COORD_WIDTH as int) == cut(
        line,
        Field::Z,
    )
    &&& pad_left(fixed_text(a.occupancy, FACTOR_SCALE as nat), FACTOR_WIDTH as int) == cut(
        line,
        Field::Occupancy,
    )
    &&& pad_left(fixed_text(a.temp_factor, FACTOR_SCALE as nat), FACTOR_WIDTH as int)
        == cut(line, Field::TempFactor)
    &&& pad_left(a.element, SYMBOL_WIDTH as int) == cut(line, Field::Element)
    &&& pad_left(a.charge, SYMBOL_WIDTH as int) == cut(line, Field::Charge)
}

/// Whether a text can stand in a field of `width` columns and be read back
/// from it: it is short enough, made of ASCII characters, and has no white
/// space at its ends.
pub open spec fn plain_text(text: Seq<char>, width: int) -> bool {
    &&& text.len() <= width
    &&& is_ascii_chars(text)
    &&& trimmed(text) == text
}

/// Whether a coordinate is no wider than its eight columns: from `-999.999`
/// to `9999.999`, either zero included.
pub open spec fn coordinate_fits(v: Fixed) -> bool {
    v.magnitude <= (if v.negative {
        999_999u64
    } else {
        9_999_999u64
    })
}

/// Whether an occupancy or a temperature factor is no wider than its six
/// columns: from `-99.99` to `999.99`, either zero included.
pub open spec fn factor_fits(v: Fixed) -> bool {
    v.magnitude <= (if v.negative {
        9_999u64
    } else {
        99_999u64
    })
}

/// Whether every field of the record can stand in its columns: the numbers
/// are no wider than their fields, the texts are plain, and the single
/// characters are ASCII.
pub open spec fn fits_columns(a: AtomView) -> bool {
    &&& a.id <= 9_999
    &&& plain_text(a.name, NAME_WIDTH as int)
    &&& a.alt_loc <= '\u{7f}'
    &&& plain_text(a.res_name, NAME_WIDTH as int)
    &&& a.chain <= '\u{7f}'
    &&& a.res_id <= 9_999
    &&& a.icode <= '\u{7f}'
    &&& coordinate_fits(a.x)
    &&& coordinate_fits(a.y)
    &&& coordinate_fits(a.z)
    &&& factor_fits(a.occupancy)
    &&& factor_fits(a.temp_factor)
    &&& plain_text(a.element, SYMBOL_WIDTH as int)
    &&& plain_text(a.charge, SYMBOL_WIDTH as int)
}

/// A field that holds a plainly written integer of 32 bits at its right
/// holds a plain integer.
pub proof fn lemma_plain_integer_holds(field: Seq<char>)
    requires
        right_justified(field),
        is_plain_integer(trimmed(field)),
        digits_value(trimmed(field)) <= u32::MAX,
    ensures
        holds_plain_integer(field),
{
    lemma_plain_integer_round_trips(trimmed(field));
}

/// A field that holds a plainly written fixed-point number with a magnitude
/// of 64 bits at its right holds a plain fixed-point number: `-0.000` too.
pub proof fn lemma_plain_fixed_holds(field: Seq<char>, scale: nat)
    requires
        right_justified(field),
        is_plain_fixed(trimmed(field), scale),
        digits_value(plain_fixed_digits(trimmed(field), scale)) <= u64::MAX,
    ensures
        holds_plain_fixed(field, scale),
{
    lemma_plain_fixed_round_trips(trimmed(field), scale);
}

/// Whether the field holds a plainly written unsigned integer at its right.
pub open spec fn plain_integer_field(field: Seq<char>) -> bool {
    right_justified(field) && is_plain_integer(trimmed(field))
}

/// Whether the field holds a plainly written fixed-point number with `scale`
/// fractional digits at its right: a zero with a minus sign too.
pub open spec fn plain_fixed_field(field: Seq<char>, scale: nat) -> bool {
    right_justified(field) && is_plain_fixed(trimmed(field), scale)
}

/// Whether the line is laid out as the encoder lays a record out, said of
/// its characters alone: eighty ASCII characters, a record marker, a blank in
/// each column between two fields, text fields justified, and numbers
/// plainly written at the right of their fields.
pub open spec fn is_plainly_written(line: Seq<char>) -> bool {
    &&& line.len() == LINE_WIDTH
    &&& is_ascii_chars(line)
    &&& (line.subrange(0, MARKER_WIDTH as int) == atom_marker() || line.subrange(
        0,
        MARKER_WIDTH as int,
    ) == hetatm_marker())
    &&& line[Field::Id.start()] == ' '
    &&& plain_integer_field(line.subrange(Field::Id.start() + 1, Field::Id.end()))
    &&& line[Field::Id.end()] == ' '
    &&& name_in_place(line)
    &&& left_justified(cut(line, Field::ResName))
    &&& line[Field::ResName.end()] == ' '
    &&& plain_integer_field(cut(line, Field::ResId))
    &&& line.subrange(Field::Icode.end(), Field::X.start()) == blanks(COORD_GAP as int)
    &&& plain_fixed_field(cut(line, Field::X), COORD_SCALE as nat)
    &&& plain_fixed_field(cut(line, Field::Y), COORD_SCALE as nat)
    &&& plain_fixed_field(cut(line, Field::Z), COORD_SCALE as nat)
    &&& plain_fixed_field(cut(line, Field::Occupancy), FACTOR_SCALE as nat)
    &&& plain_fixed_field(cut(line, Field::TempFactor), FACTOR_SCALE as nat)
    &&& line.subrange(Field::TempFactor.end(), Field::Element.start()) == blanks(
        SYMBOL_GAP as int,
    )
    &&& right_justified(cut(line, Field::Element))
    &&& right_justified(cut(line, Field::Charge))
}

/// A plainly written integer in a field of at most nine columns is a plain
/// integer of the field.
proof fn lemma_plain_integer_in_field(field: Seq<char>)
    requires
        plain_integer_field(field),
        field.len() <= 9,
    ensures
        holds_plain_integer(field),
{
    let text = trimmed(field);
    let ends = lemma_trimmed_is_piece(field);
    assert(text.len() <= field.len());
    lemma_few_digits_are_small(text);
    lemma_plain_integer_holds(field);
}

/// A plainly written fixed-point number in a field of at most nineteen
/// columns is a plain fixed-point number of the field.
proof fn lemma_plain_fixed_in_field(field: Seq<char>, scale: nat)
    requires
        plain_fixed_field(field, scale),
        field.len() <= 19,
    ensures
        holds_plain_fixed(field, scale),
{
    let text = trimmed(field);
    let ends = lemma_trimmed_is_piece(field);
    assert(text.len() <= field.len());
    lemma_plain_fixed_digits(text, scale);
    lemma_few_digits_are_small(plain_fixed_digits(text, scale));
    lemma_plain_fixed_holds(field, scale);
}

/// A plainly written line is canonical.
pub proof fn lemma_plainly_written_is_canonical(line: Seq<char>)
    requires
        is_plainly_written(line),
    ensures
        is_canonical(line),
{
    lemma_plain_integer_in_field(line.subrange(Field::Id.start() + 1, Field::Id.end()));
    lemma_plain_integer_in_field(cut(line, Field::ResId));
    lemma_plain_fixed_in_field(cut(line, Field::X), COORD_SCALE as nat);
    lemma_plain_fixed_in_field(cut(line, Field::Y), COORD_SCALE as nat);
    lemma_plain_fixed_in_field(cut(line, Field::Z), COORD_SCALE as nat);
    lemma_plain_fixed_in_field(cut(line, Field::Occupancy), FACTOR_SCALE as nat);
    lemma_plain_fixed_in_field(cut(line, Field::TempFactor), FACTOR_SCALE as nat);
}

proof fn lemma_field_of_ascii(line: Seq<char>, field: Field)
    requires
        line.len() == 80,
        is_ascii_chars(line),
    ensures
        has_field(encode_utf8(line), field),
        raw(encode_utf8(line), field) == cut(line, field),
{
    lemma_ascii_column(line, field.start(), field.end());
}

proof fn lemma_kind_of_marked(line: Seq<char>, kind: RecordType)
    requires
        line.len() >= 6,
        is_ascii_chars(line),
        line.subrange(0, 6) == marker(kind),
    ensures
        record_kind(encode_utf8(line)) == Some(kind),
{
    let bytes = encode_utf8(line);
    is_ascii_chars_encode_utf8(line);
    let head = line.subrange(0, 6);
    assert forall|i: int| 0 <= i < 6 implies bytes.subrange(0, 6)[i] == (#[trigger] head[i])
        as u8 by {
        assert(head[i] == line[i]);
        assert(bytes[i] == line[i] as u8);
    }
    if kind == RecordType::Atom {
        assert(bytes.subrange(0, 6) =~= ascii_bytes(atom_marker()));
    } else {
        assert(bytes.subrange(0, 6) =~= ascii_bytes(hetatm_marker()));
        assert(head[0] == 'H');
        assert(bytes.subrange(0, 6)[0] != ascii_bytes(atom_marker())[0]);
    }
}

proof fn lemma_kind_of_canonical(line: Seq<char>)
    requires
        is_canonical(line),
    ensures
        record_kind(encode_utf8(line)) == Some(kind_of(line)),
        marker(kind_of(line)) == line.subrange(0, 6),
{
    lemma_kind_of_marked(line, kind_of(line));
}

proof fn lemma_canonical_serial(line: Seq<char>)
    requires
        line.len() == 80,
        is_ascii_chars(line),
        line[6] == ' ',
        holds_plain_integer(line.subrange(7, 11)),
    ensures
        field_fault(encode_utf8(line), Field::Id) is None,
        pad_left(
            decimal(integer_of(encode_utf8(line), Field::Id)->0 as nat),
            NUMBER_WIDTH as int,
        ) == line.subrange(7, 11),
{
    lemma_field_of_ascii(line, Field::Id);
    let wide = cut(line, Field::Id);
    assert(wide.first() == line[6]);
    assert(wide.drop_first() =~= line.subrange(7, 11));
    lemma_trimmed_after_blank(wide);
}

proof fn lemma_canonical_integer(line: Seq<char>, field: Field)
    requires
        line.len() == 80,
        is_ascii_chars(line),
        field == Field::ResId,
        holds_plain_integer(cut(line, field)),
    ensures
        field_fault(encode_utf8(line), field) is None,
        pad_left(decimal(integer_of(encode_utf8(line), field)->0 as nat), NUMBER_WIDTH as int)
            == cut(line, field),
{
    lemma_field_of_ascii(line, field);
}

proof fn lemma_canonical_fixed(line: Seq<char>, field: Field)
    requires
        line.len() == 80,
        is_ascii_chars(line),
        field == Field::X || field == Field::Y || field == Field::Z || field == Field::Occupancy
            || field == Field::TempFactor,
        holds_plain_fixed(cut(line, field), field.scale()),
    ensures
        field_fault(encode_utf8(line), field) is None,
        pad_left(
            fixed_text(fixed_of(encode_utf8(line), field)->0, field.scale()),
            field.end() - field.start(),
        ) == cut(line, field),
{
    lemma_field_of_ascii(line, field);
}

proof fn lemma_canonical_text(line: Seq<char>, field: Field)
    requires
        line.len() == 80,
        is_ascii_chars(line),
        field == Field::Name || field == Field::ResName || field == Field::Element || field
            == Field::Charge,
    ensures
        field_fault(encode_utf8(line), field) is None,
        text_of(encode_utf8(line), field) == trimmed(cut(line, field)),
        left_justified(cut(line, field)) ==> pad_right(
            text_of(encode_utf8(line), field),
            field.end() - field.start(),
        ) == cut(line, field),
        right_justified(cut(line, field)) ==> pad_left(
            text_of(encode_utf8(line), field),
            field.end() - field.start(),
        ) == cut(line, field),
{
    lemma_field_of_ascii(line, field);
}

proof fn lemma_canonical_character(line: Seq<char>, field: Field)
    requires
        line.len() == 80,
        is_ascii_chars(line),
        field == Field::AltLoc || field == Field::Chain || field == Field::Icode,
    ensures
        field_fault(encode_utf8(line), field) is None,
        seq![raw(encode_utf8(line), field)[0]] == cut(line, field),
{
    lemma_field_of_ascii(line, field);
    assert(seq![raw(encode_utf8(line), field)[0]] =~= cut(line, field));
}

/// The trimmed text of an ASCII field takes as many bytes as it has characters.
proof fn lemma_trimmed_ascii(field: Seq<char>)
    requires
        is_ascii_chars(field),
    ensures
        is_ascii_chars(trimmed(field)),
        encode_utf8(trimmed(field)).len() == trimmed(field).len(),
{
    let text = trimmed(field);
    let ends = lemma_trimmed_is_piece(field);
    assert forall|i: int| 0 <= i < text.len() implies '\0' <= #[trigger] text[i] <= '\u{7f}' by {
        assert(text[i] == field[ends.0 + i]);
    }
    is_ascii_chars_encode_utf8(text);
}

proof fn lemma_canonical_name(line: Seq<char>)
    requires
        line.len() == 80,
        is_ascii_chars(line),
        name_in_place(line),
    ensures
        name_field(
            text_of(encode_utf8(line), Field::Name),
            text_of(encode_utf8(line), Field::Element),
        ) == cut(line, Field::Name),
{
    lemma_field_of_ascii(line, Field::Name);
    lemma_field_of_ascii(line, Field::Element);
    let element = trimmed(cut(line, Field::Element));
    assert(is_ascii_chars(cut(line, Field::Element))) by {
        assert forall|i: int| 0 <= i < 2 implies '\0' <= #[trigger] cut(line, Field::Element)[i]
            <= '\u{7f}' by {
            assert(cut(line, Field::Element)[i] == line[76 + i]);
        }
    }
    lemma_trimmed_ascii(cut(line, Field::Element));
    let wide = cut(line, Field::Name);
    if element.len() == 1 {
        let narrow = line.subrange(13, 16);
        assert(wide.first() == line[12]);
        assert(wide.drop_first() =~= narrow);
        lemma_trimmed_after_blank(wide);
        assert(seq![' '] + narrow =~= wide);
    } else {
        let narrow = line.subrange(12, 15);
        assert(narrow.push(line[15]) =~= wide);
        lemma_trimmed_before_blank(narrow, line[15]);
        assert(narrow + seq![' '] =~= wide);
    }
}

/// A line in which no field has a fault has no fault.
proof fn lemma_no_fault(line: Seq<u8>)
    requires
        field_fault(line, Field::Id) is None,
        field_fault(line, Field::Name) is None,
        field_fault(line, Field::AltLoc) is None,
        field_fault(line, Field::ResName) is None,
        field_fault(line, Field::Chain) is None,
        field_fault(line, Field::ResId) is None,
        field_fault(line, Field::Icode) is None,
        field_fault(line, Field::X) is None,
        field_fault(line, Field::Y) is None,
        field_fault(line, Field::Z) is None,
        field_fault(line, Field::Occupancy) is None,
        field_fault(line, Field::TempFactor) is None,
        field_fault(line, Field::Element) is None,
        field_fault(line, Field::Charge) is None,
    ensures
        first_fault(line) is None,
{
}

/// The decoder finds no fault in a canonical line.
proof fn lemma_canonical_has_no_fault(line: Seq<char>)
    requires
        is_canonical(line),
    ensures
        first_fault(encode_utf8(line)) is None,
{
    lemma_canonical_serial(line);
    lemma_canonical_text(line, Field::Name);
    lemma_canonical_character(line, Field::AltLoc);
    lemma_canonical_text(line, Field::ResName);
    lemma_canonical_character(line, Field::Chain);
    lemma_canonical_integer(line, Field::ResId);
    lemma_canonical_character(line, Field::Icode);
    lemma_canonical_fixed(line, Field::X);
    lemma_canonical_fixed(line, Field::Y);
    lemma_canonical_fixed(line, Field::Z);
    lemma_canonical_fixed(line, Field::Occupancy);
    lemma_canonical_fixed(line, Field::TempFactor);
    lemma_canonical_text(line, Field::Element);
    lemma_canonical_text(line, Field::Charge);
    lemma_no_fault(encode_utf8(line));
}

/// What the decoder finds in each field of a canonical line, written out
/// again, is what stands in the columns of the field.
#[verifier::rlimit(40)]
proof fn lemma_fields_of_canonical(line: Seq<char>)
    requires
        is_canonical(line),
    ensures
        fields_in_place(line, fields_of(encode_utf8(line), kind_of(line))),
{
    lemma_canonical_serial(line);
    lemma_canonical_name(line);
    lemma_canonical_character(line, Field::AltLoc);
    lemma_canonical_text(line, Field::ResName);
    lemma_canonical_character(line, Field::Chain);
    lemma_canonical_integer(line, Field::ResId);
    lemma_canonical_character(line, Field::Icode);
    lemma_canonical_fixed(line, Field::X);
    lemma_canonical_fixed(line, Field::Y);
    lemma_canonical_fixed(line, Field::Z);
    lemma_canonical_fixed(line, Field::Occupancy);
    lemma_canonical_fixed(line, Field::TempFactor);
    lemma_canonical_text(line, Field::Element);
    lemma_canonical_text(line, Field::Charge);
}

/// The columns of a line, put one behind the other, are the line.
proof fn lemma_columns_make_line(line: Seq<char>)
    requires
        line.len() == 80,
    ensures
        line == line.subrange(0, 6) + seq![line[6]] + line.subrange(7, 11) + seq![line[11]] + cut(
            line,
            Field::Name,
        ) + cut(line, Field::AltLoc) + cut(line, Field::ResName) + seq![line[20]] + cut(
            line,
            Field::Chain,
        ) + cut(line, Field::ResId) + cut(line, Field::Icode) + line.subrange(27, 30) + cut(
            line,
            Field::X,
        ) + cut(line, Field::Y) + cut(line, Field::Z) + cut(line, Field::Occupancy) + cut(
            line,
            Field::TempFactor,
        ) + line.subrange(66, 76) + cut(line, Field::Element) + cut(line, Field::Charge),
{
    let h7 = line.subrange(0, 6) + seq![line[6]];
    assert(h7 =~= line.subrange(0, 7));
    let h11 = h7 + line.subrange(7, 11);
    assert(h11 =~= line.subrange(0, 11));
    let h12 = h11 + seq![line[11]];
    assert(h12 =~= line.subrange(0, 12));
    let h16 = h12 + cut(line, Field::Name);
    assert(h16 =~= line.subrange(0, 16));
    let h17 = h16 + cut(line, Field::AltLoc);
    assert(h17 =~= line.subrange(0, 17));
    let h20 = h17 + cut(line, Field::ResName);
    assert(h20 =~= line.subrange(0, 20));
    let h21 = h20 + seq![line[20]];
    assert(h21 =~= line.subrange(0, 21));
    let h22 = h21 + cut(line, Field::Chain);
    assert(h22 =~= line.subrange(0, 22));
    let h26 = h22 + cut(line, Field::ResId);
    assert(h26 =~= line.subrange(0, 26));
    let h27 = h26 + cut(line, Field::Icode);
    assert(h27 =~= line.subrange(0, 27));
    let h30 = h27 + line.subrange(27, 30);
    assert(h30 =~= line.subrange(0, 30));
    let h38 = h30 + cut(line, Field::X);
    assert(h38 =~= line.subrange(0, 38));
    let h46 = h38 + cut(line, Field::Y);
    assert(h46 =~= line.subrange(0, 46));
    let h54 = h46 + cut(line, Field::Z);
    assert(h54 =~= line.subrange(0, 54));
    let h60 = h54 + cut(line, Field::Occupancy);
    assert(h60 =~= line.subrange(0, 60));
    let h66 = h60 + cut(line, Field::TempFactor);
    assert(h66 =~= line.subrange(0, 66));
    let h76 = h66 + line.subrange(66, 76);
    assert(h76 =~= line.subrange(0, 76));
    let h78 = h76 + cut(line, Field::Element);
    assert(h78 =~= line.subrange(0, 78));
    let h80 = h78 + cut(line, Field::Charge);
    assert(h80 =~= line);
}

/// A line whose columns hold what the encoder writes for the record is the
/// line that the record encodes to.
proof fn lemma_encoded_from_columns(line: Seq<char>, a: AtomView)
    requires
        line.len() == 80,
        line.subrange(0, 6) == marker(a.record_type),
        line[6] == ' ',
        line[11] == ' ',
        line[20] == ' ',
        line.subrange(27, 30) == blanks(COORD_GAP as int),
        line.subrange(66, 76) == blanks(SYMBOL_GAP as int),
        fields_in_place(line, a),
    ensures
        encode(a) == line,
{
    reveal(encode);
    lemma_columns_make_line(line);
}

/// Decoding a canonical line succeeds, and encoding the record that it gives
/// reproduces the line character for character.
#[verifier::rlimit(40)]
pub proof fn lemma_encode_decode(line: Seq<char>)
    requires
        is_canonical(line),
    ensures
        decode(encode_utf8(line)) is Ok,
        encode(decode(encode_utf8(line))->Ok_0) == line,
{
    let bytes = encode_utf8(line);
    let a = fields_of(bytes, kind_of(line));
    lemma_kind_of_canonical(line);
    lemma_canonical_has_no_fault(line);
    assert(decode(bytes) == Ok::<AtomView, DecodeError>(a));
    lemma_fields_of_canonical(line);
    lemma_encoded_from_columns(line, a);
}

/// Decoding a plainly written line succeeds, and encoding the record that it
/// gives reproduces the line character for character: a line with `-0.000`
/// in a coordinate as well as any other.
pub proof fn lemma_plain_line_round_trips(line: Seq<char>)
    requires
        is_plainly_written(line),
    ensures
        decode(encode_utf8(line)) is Ok,
        encode(decode(encode_utf8(line))->Ok_0) == line,
{
    lemma_plainly_written_is_canonical(line);
    lemma_encode_decode(line);
}

proof fn lemma_blanks_are_ascii(n: int)
    ensures
        is_ascii_chars(blanks(n)),
{
}

proof fn lemma_joined_ascii(first: Seq<char>, second: Seq<char>)
    requires
        is_ascii_chars(first),
        is_ascii_chars(second),
    ensures
        is_ascii_chars(first + second),
{
    let both = first + second;
    assert forall|i: int| 0 <= i < both.len() implies '\0' <= #[trigger] both[i] <= '\u{7f}' by {
        if i < first.len() {
            assert(both[i] == first[i]);
        } else {
            assert(both[i] == second[i - first.len()]);
        }
    }
}

/// A serial number of at most four digits, right-justified in four columns.
proof fn lemma_integer_in_field(n: u32)
    requires
        n <= 9_999,
    ensures
        pad_left(decimal(n as nat), NUMBER_WIDTH as int).len() == NUMBER_WIDTH,
        is_ascii_chars(pad_left(decimal(n as nat), NUMBER_WIDTH as int)),
        trimmed(pad_left(decimal(n as nat), NUMBER_WIDTH as int)) == decimal(n as nat),
        trimmed(seq![' '] + pad_left(decimal(n as nat), NUMBER_WIDTH as int)) == decimal(
            n as nat,
        ),
        parse_u32_text(decimal(n as nat)) == Some(n),
{
    let text = decimal(n as nat);
    let field = pad_left(text, NUMBER_WIDTH as int);
    assert(pow10(4) == 10_000) by {
        reveal_with_fuel(pow10, 5);
    }
    lemma_decimal_len(n as nat, 4);
    lemma_decimal_writes_number(n as nat);
    lemma_decimal_parses(n);
    assert(is_digit(text.first()) && is_digit(text.last()));
    lemma_nothing_to_trim(text);
    lemma_trimmed_among_blanks(text, NUMBER_WIDTH - text.len(), 0);
    assert(blanks(NUMBER_WIDTH - text.len()) + text + blanks(0) =~= field);
    lemma_trimmed_among_blanks(text, NUMBER_WIDTH - text.len() + 1, 0);
    assert(blanks(NUMBER_WIDTH - text.len() + 1) + text + blanks(0) =~= seq![' '] + field);
    assert forall|i: int| 0 <= i < field.len() implies '\0' <= #[trigger] field[i]
        <= '\u{7f}' by {
        if i >= NUMBER_WIDTH - text.len() {
            assert(field[i] == text[i - (NUMBER_WIDTH - text.len())]);
            assert(is_digit(text[i - (NUMBER_WIDTH - text.len())]));
        }
    }
}

/// A fixed-point number no wider than its field, right-justified in it.
proof fn lemma_fixed_in_field(v: Fixed, scale: nat, width: int, k: nat)
    requires
        scale < k,
        k + 1 == width,
        v.magnitude < (if v.negative {
            pow10((k - 1) as nat)
        } else {
            pow10(k)
        }),
        k - 1 > scale,
    ensures
        pad_left(fixed_text(v, scale), width).len() == width,
        is_ascii_chars(pad_left(fixed_text(v, scale), width)),
        trimmed(pad_left(fixed_text(v, scale), width)) == fixed_text(v, scale),
        parse_fixed_text(fixed_text(v, scale), scale) == Some(v),
{
    let text = fixed_text(v, scale);
    let field = pad_left(text, width);
    if v.negative {
        lemma_fixed_text_shape(v, scale, (k - 1) as nat);
    } else {
        lemma_fixed_text_shape(v, scale, k);
    }
    lemma_fixed_text_parses(v, scale);
    assert(!is_whitespace(text.first()) && !is_whitespace(text.last())) by {
        let first = text[0];
        let last = text[text.len() - 1];
        assert(is_digit(first) || first == '.' || first == '-');
        assert(is_digit(last) || last == '.' || last == '-');
    }
    lemma_nothing_to_trim(text);
    lemma_trimmed_among_blanks(text, width - text.len(), 0);
    assert(blanks(width - text.len()) + text + blanks(0) =~= field);
    assert forall|i: int| 0 <= i < field.len() implies '\0' <= #[trigger] field[i]
        <= '\u{7f}' by {
        if i >= width - text.len() {
            let c = text[i - (width - text.len())];
            assert(field[i] == c);
            assert(is_digit(c) || c == '.' || c == '-');
        }
    }
}

/// A plain text, justified in its field.
proof fn lemma_text_in_field(text: Seq<char>, width: int)
    requires
        plain_text(text, width),
    ensures
        pad_left(text, width).len() == width,
        pad_right(text, width).len() == width,
        is_ascii_chars(pad_left(text, width)),
        is_ascii_chars(pad_right(text, width)),
        trimmed(pad_left(text, width)) == text,
        trimmed(pad_right(text, width)) == text,
        trimmed(seq![' '] + pad_right(text, width)) == text,
        trimmed(pad_right(text, width) + seq![' ']) == text,
{
    let gap = width - text.len();
    lemma_blanks_are_ascii(gap);
    lemma_joined_ascii(blanks(gap), text);
    lemma_joined_ascii(text, blanks(gap));
    lemma_trimmed_among_blanks(text, gap, 0);
    assert(blanks(gap) + text + blanks(0) =~= pad_left(text, width));
    lemma_trimmed_among_blanks(text, 0, gap);
    assert(blanks(0) + text + blanks(gap) =~= pad_right(text, width));
    lemma_trimmed_among_blanks(text, 1, gap);
    assert(blanks(1) + text + blanks(gap) =~= seq![' '] + pad_right(text, width));
    lemma_trimmed_among_blanks(text, 0, gap + 1);
    assert(blanks(0) + text + blanks(gap + 1) =~= pad_right(text, width) + seq![' ']);
}

/// The columns of the name hold four ASCII characters, and the name is read
/// back from them.
proof fn lemma_name_in_field(name: Seq<char>, element: Seq<char>)
    requires
        plain_text(name, NAME_WIDTH as int),
    ensures
        name_field(name, element).len() == 4,
        is_ascii_chars(name_field(name, element)),
        trimmed(name_field(name, element)) == name,
{
    lemma_text_in_field(name, NAME_WIDTH as int);
    lemma_blanks_are_ascii(1);
    assert(blanks(1) =~= seq![' ']);
    lemma_joined_ascii(seq![' '], pad_right(name, NAME_WIDTH as int));
    lemma_joined_ascii(pad_right(name, NAME_WIDTH as int), seq![' ']);
}

/// What the encoder writes for a record, piece by piece: the marker, the
/// fields, and the blanks between them.
spec fn pieces(a: AtomView) -> Seq<Seq<char>> {
    seq![
        marker(a.record_type),
        seq![' '],
        pad_left(decimal(a.id as nat), NUMBER_WIDTH as int),
        seq![' '],
        name_field(a.name, a.element),
        seq![a.alt_loc],
        pad_right(a.res_name, NAME_WIDTH as int),
        seq![' '],
        seq![a.chain],
        pad_left(decimal(a.res_id as nat), NUMBER_WIDTH as int),
        seq![a.icode],
        blanks(COORD_GAP as int),
        pad_left(fixed_text(a.x, COORD_SCALE as nat), COORD_WIDTH as int),
        pad_left(fixed_text(a.y, COORD_SCALE as nat), COORD_WIDTH as int),
        pad_left(fixed_text(a.z, COORD_SCALE as nat), COORD_WIDTH as int),
        pad_left(fixed_text(a.occupancy, FACTOR_SCALE as nat), FACTOR_WIDTH as int),
        pad_left(fixed_text(a.temp_factor, FACTOR_SCALE as nat), FACTOR_WIDTH as int),
        blanks(SYMBOL_GAP as int),
        pad_left(a.element, SYMBOL_WIDTH as int),
        pad_left(a.charge, SYMBOL_WIDTH as int),
    ]
}

/// The widths of the pieces of a line whose fields fit their columns.
spec fn widths() -> Seq<int> {
    seq![6, 1, 4, 1, 4, 1, 3, 1, 1, 4, 1, 3, 8, 8, 8, 6, 6, 10, 2, 2]
}

/// The first `n` of the parts, one behind the other.
spec fn joined(parts: Seq<Seq<char>>, n: int) -> Seq<char>
    decreases n,
{
    if n <= 0 {
        Seq::empty()
    } else {
        joined(parts, n - 1) + parts[n - 1]
    }
}

/// The place of the part `k` among the first `n` parts put one behind the other.
proof fn lemma_part_in_place(parts: Seq<Seq<char>>, n: int, k: int)
    requires
        0 <= k < n <= parts.len(),
    ensures
        joined(parts, k).len() + parts[k].len() == joined(parts, k + 1).len(),
        joined(parts, k + 1).len() <= joined(parts, n).len(),
        joined(parts, n).subrange(
            joined(parts, k).len() as int,
            joined(parts, k + 1).len() as int,
        ) == parts[k],
    decreases n,
{
    let whole = joined(parts, n);
    let from = joined(parts, k).len() as int;
    let to = joined(parts, k + 1).len() as int;
    if k == n - 1 {
        assert(whole.subrange(from, to) =~= parts[k]);
    } else {
        lemma_part_in_place(parts, n - 1, k);
        assert(whole.subrange(from, to) =~= joined(parts, n - 1).subrange(from, to));
    }
}

/// Parts made of ASCII characters, put one behind the other, are made of
/// ASCII characters.
proof fn lemma_joined_parts_ascii(parts: Seq<Seq<char>>, n: int)
    requires
        0 <= n <= parts.len(),
        forall|k: int| 0 <= k < parts.len() ==> is_ascii_chars(#[trigger] parts[k]),
    ensures
        is_ascii_chars(joined(parts, n)),
    decreases n,
{
    if n > 0 {
        lemma_joined_parts_ascii(parts, n - 1);
        lemma_joined_ascii(joined(parts, n - 1), parts[n - 1]);
    }
}

/// Whether a piece is `width` ASCII characters long.
spec fn fills(piece: Seq<char>, width: int) -> bool {
    piece.len() == width && is_ascii_chars(piece)
}

proof fn lemma_integer_fills(n: u32)
    requires
        n <= 9_999,
    ensures
        fills(pad_left(decimal(n as nat), NUMBER_WIDTH as int), 4),
{
    lemma_integer_in_field(n);
}

proof fn lemma_coordinate_fills(v: Fixed)
    requires
        coordinate_fits(v),
    ensures
        fills(pad_left(fixed_text(v, COORD_SCALE as nat), COORD_WIDTH as int), 8),
{
    assert(pow10(6) == 1_000_000 && pow10(7) == 10_000_000) by {
        reveal_with_fuel(pow10, 8);
    }
    lemma_fixed_in_field(v, COORD_SCALE as nat, COORD_WIDTH as int, 7);
}

proof fn lemma_factor_fills(v: Fixed)
    requires
        factor_fits(v),
    ensures
        fills(pad_left(fixed_text(v, FACTOR_SCALE as nat), FACTOR_WIDTH as int), 6),
{
    assert(pow10(4) == 10_000 && pow10(5) == 100_000) by {
        reveal_with_fuel(pow10, 6);
    }
    lemma_fixed_in_field(v, FACTOR_SCALE as nat, FACTOR_WIDTH as int, 5);
}

proof fn lemma_text_fills(text: Seq<char>, width: int)
    requires
        plain_text(text, width),
    ensures
        fills(pad_left(text, width), width),
        fills(pad_right(text, width), width),
{
    lemma_text_in_field(text, width);
}

proof fn lemma_name_fills(name: Seq<char>, element: Seq<char>)
    requires
        plain_text(name, NAME_WIDTH as int),
    ensures
        fills(name_field(name, element), 4),
{
    lemma_name_in_field(name, element);
}

proof fn lemma_small_pieces_fill(c: char, n: int)
    requires
        c <= '\u{7f}',
        n >= 0,
    ensures
        fills(seq![c], 1),
        fills(blanks(n), n),
        fills(atom_marker(), 6),
        fills(hetatm_marker(), 6),
{
}

/// The pieces of a record whose fields fit their columns have the widths of
/// the layout and are made of ASCII characters.
proof fn lemma_pieces_fit(a: AtomView)
    requires
        fits_columns(a),
    ensures
        pieces(a).len() == 20,
        forall|k: int| 0 <= k < 20 ==> (#[trigger] pieces(a)[k]).len() == widths()[k],
        forall|k: int| 0 <= k < 20 ==> is_ascii_chars(#[trigger] pieces(a)[k]),
{
    let parts = pieces(a);
    lemma_small_pieces_fill(' ', COORD_GAP as int);
    lemma_small_pieces_fill(a.alt_loc, SYMBOL_GAP as int);
    lemma_small_pieces_fill(a.chain, 0);
    lemma_small_pieces_fill(a.icode, 0);
    lemma_integer_fills(a.id);
    lemma_name_fills(a.name, a.element);
    lemma_text_fills(a.res_name, NAME_WIDTH as int);
    lemma_integer_fills(a.res_id);
    lemma_coordinate_fills(a.x);
    lemma_coordinate_fills(a.y);
    lemma_coordinate_fills(a.z);
    lemma_factor_fills(a.occupancy);
    lemma_factor_fills(a.temp_factor);
    lemma_text_fills(a.element, SYMBOL_WIDTH as int);
    lemma_text_fills(a.charge, SYMBOL_WIDTH as int);
    assert forall|k: int| 0 <= k < 20 implies fills(#[trigger] parts[k], widths()[k]) by {
    }
}

/// The encoded line is its pieces, one behind the other.
proof fn lemma_encoded_is_joined(a: AtomView)
    ensures
        encode(a) == joined(pieces(a), 20),
{
    let parts = pieces(a);
    reveal(encode);
    reveal_with_fuel(joined, 21);
    assert(Seq::<char>::empty() + parts[0] =~= parts[0]);
}

/// Where the parts have the widths of the layout, each stands in its columns.
proof fn lemma_parts_in_columns(parts: Seq<Seq<char>>)
    requires
        parts.len() == 20,
        forall|k: int| 0 <= k < 20 ==> (#[trigger] parts[k]).len() == widths()[k],
    ensures
        joined(parts, 20).len() == 80,
        ({
            let line = joined(parts, 20);
            &&& line.subrange(0, 6) == parts[0]
            &&& line.subrange(6, 7) == parts[1]
            &&& line.subrange(7, 11) == parts[2]
            &&& line.subrange(11, 12) == parts[3]
            &&& line.subrange(12, 16) == parts[4]
            &&& line.subrange(16, 17) == parts[5]
            &&& line.subrange(17, 20) == parts[6]
            &&& line.subrange(20, 21) == parts[7]
            &&& line.subrange(21, 22) == parts[8]
            &&& line.subrange(22, 26) == parts[9]
            &&& line.subrange(26, 27) == parts[10]
            &&& line.subrange(27, 30) == parts[11]
            &&& line.subrange(30, 38) == parts[12]
            &&& line.subrange(38, 46) == parts[13]
            &&& line.subrange(46, 54) == parts[14]
            &&& line.subrange(54, 60) == parts[15]
            &&& line.subrange(60, 66) == parts[16]
            &&& line.subrange(66, 76) == parts[17]
            &&& line.subrange(76, 78) == parts[18]
            &&& line.subrange(78, 80) == parts[19]
        }),
{
    assert(joined(parts, 0).len() == 0);
    lemma_part_in_place(parts, 20, 0);
    lemma_part_in_place(parts, 20, 1);
    lemma_part_in_place(parts, 20, 2);
    lemma_part_in_place(parts, 20, 3);
    lemma_part_in_place(parts, 20, 4);
    lemma_part_in_place(parts, 20, 5);
    lemma_part_in_place(parts, 20, 6);
    lemma_part_in_place(parts, 20, 7);
    lemma_part_in_place(parts, 20, 8);
    lemma_part_in_place(parts, 20, 9);
    lemma_part_in_place(parts, 20, 10);
    lemma_part_in_place(parts, 20, 11);
    lemma_part_in_place(parts, 20, 12);
    lemma_part_in_place(parts, 20, 13);
    lemma_part_in_place(parts, 20, 14);
    lemma_part_in_place(parts, 20, 15);
    lemma_part_in_place(parts, 20, 16);
    lemma_part_in_place(parts, 20, 17);
    lemma_part_in_place(parts, 20, 18);
    lemma_part_in_place(parts, 20, 19);
}

/// Where the fields of a record fit their columns, the encoded line is eighty
/// ASCII characters long and every field stands in its own columns.
proof fn lemma_layout_of_encoded(a: AtomView)
    requires
        fits_columns(a),
    ensures
        encode(a).len() == 80,
        is_ascii_chars(encode(a)),
        ({
            let line = encode(a);
            &&& line.subrange(0, 6) == marker(a.record_type)
            &&& line.subrange(6, 7) == seq![' ']
            &&& line.subrange(7, 11) == pad_left(decimal(a.id as nat), NUMBER_WIDTH as int)
            &&& line.subrange(11, 12) == seq![' ']
            &&& cut(line, Field::Name) == name_field(a.name, a.element)
            &&& cut(line, Field::AltLoc) == seq![a.alt_loc]
            &&& cut(line, Field::ResName) == pad_right(a.res_name, NAME_WIDTH as int)
            &&& line.subrange(20, 21) == seq![' ']
            &&& cut(line, Field::Chain) == seq![a.chain]
            &&& cut(line, Field::ResId) == pad_left(
                decimal(a.res_id as nat),
                NUMBER_WIDTH as int,
            )
            &&& cut(line, Field::Icode) == seq![a.icode]
            &&& line.subrange(27, 30) == blanks(COORD_GAP as int)
            &&& cut(line, Field::X) == pad_left(
                fixed_text(a.x, COORD_SCALE as nat),
                COORD_WIDTH as int,
            )
            &&& cut(line, Field::Y) == pad_left(
                fixed_text(a.y, COORD_SCALE as nat),
                COORD_WIDTH as int,
            )
            &&& cut(line, Field::Z) == pad_left(
                fixed_text(a.z, COORD_SCALE as nat),
                COORD_WIDTH as int,
            )
            &&& cut(line, Field::Occupancy) == pad_left(
                fixed_text(a.occupancy, FACTOR_SCALE as nat),
                FACTOR_WIDTH as int,
            )
            &&& cut(line, Field::TempFactor) == pad_left(
                fixed_text(a.temp_factor, FACTOR_SCALE as nat),
                FACTOR_WIDTH as int,
            )
            &&& line.subrange(66, 76) == blanks(SYMBOL_GAP as int)
            &&& cut(line, Field::Element) == pad_left(a.element, SYMBOL_WIDTH as int)
            &&& cut(line, Field::Charge) == pad_left(a.charge, SYMBOL_WIDTH as int)
        }),
{
    let parts = pieces(a);
    lemma_encoded_is_joined(a);
    lemma_pieces_fit(a);
    lemma_joined_parts_ascii(parts, 20);
    lemma_parts_in_columns(parts);
}

proof fn lemma_reads_serial(line: Seq<char>, n: u32)
    requires
        line.len() == 80,
        is_ascii_chars(line),
        n <= 9_999,
        line.subrange(6, 7) == seq![' '],
        line.subrange(7, 11) == pad_left(decimal(n as nat), NUMBER_WIDTH as int),
    ensures
        has_field(encode_utf8(line), Field::Id),
        integer_of(encode_utf8(line), Field::Id) == Some(n),
{
    lemma_field_of_ascii(line, Field::Id);
    lemma_integer_in_field(n);
    assert(cut(line, Field::Id) =~= line.subrange(6, 7) + line.subrange(7, 11));
}

proof fn lemma_reads_integer(line: Seq<char>, field: Field, n: u32)
    requires
        line.len() == 80,
        is_ascii_chars(line),
        n <= 9_999,
        field == Field::ResId,
        cut(line, field) == pad_left(decimal(n as nat), NUMBER_WIDTH as int),
    ensures
        has_field(encode_utf8(line), field),
        integer_of(encode_utf8(line), field) == Some(n),
{
    lemma_field_of_ascii(line, field);
    lemma_integer_in_field(n);
}

proof fn lemma_reads_coordinate(line: Seq<char>, field: Field, v: Fixed)
    requires
        line.len() == 80,
        is_ascii_chars(line),
        field == Field::X || field == Field::Y || field == Field::Z,
        coordinate_fits(v),
        cut(line, field) == pad_left(fixed_text(v, COORD_SCALE as nat), COORD_WIDTH as int),
    ensures
        has_field(encode_utf8(line), field),
        fixed_of(encode_utf8(line), field) == Some(v),
{
    lemma_field_of_ascii(line, field);
    assert(pow10(6) == 1_000_000 && pow10(7) == 10_000_000) by {
        reveal_with_fuel(pow10, 8);
    }
    lemma_fixed_in_field(v, COORD_SCALE as nat, COORD_WIDTH as int, 7);
}

proof fn lemma_reads_factor(line: Seq<char>, field: Field, v: Fixed)
    requires
        line.len() == 80,
        is_ascii_chars(line),
        field == Field::Occupancy || field == Field::TempFactor,
        factor_fits(v),
        cut(line, field) == pad_left(
            fixed_text(v, FACTOR_SCALE as nat),
            FACTOR_WIDTH as int,
        ),
    ensures
        has_field(encode_utf8(line), field),
        fixed_of(encode_utf8(line), field) == Some(v),
{
    lemma_field_of_ascii(line, field);
    assert(pow10(4) == 10_000 && pow10(5) == 100_000) by {
        reveal_with_fuel(pow10, 6);
    }
    lemma_fixed_in_field(v, FACTOR_SCALE as nat, FACTOR_WIDTH as int, 5);
}

proof fn lemma_reads_text(line: Seq<char>, field: Field, text: Seq<char>)
    requires
        line.len() == 80,
        is_ascii_chars(line),
        trimmed(cut(line, field)) == text,
    ensures
        has_field(encode_utf8(line), field),
        text_of(encode_utf8(line), field) == text,
{
    lemma_field_of_ascii(line, field);
}

proof fn lemma_reads_character(line: Seq<char>, field: Field, c: char)
    requires
        line.len() == 80,
        is_ascii_chars(line),
        cut(line, field) == seq![c],
    ensures
        has_field(encode_utf8(line), field),
        raw(encode_utf8(line), field)[0] == c,
{
    lemma_field_of_ascii(line, field);
}

/// What the decoder reads in the fields of the line encoded for a record
/// whose fields fit their columns.
proof fn lemma_fields_of_encoded(a: AtomView)
    requires
        fits_columns(a),
    ensures
        first_fault(encode_utf8(encode(a))) is None,
        fields_of(encode_utf8(encode(a)), a.record_type) == a,
{
    let line = encode(a);
    let bytes = encode_utf8(line);
    lemma_layout_of_encoded(a);
    lemma_reads_serial(line, a.id);
    assert(text_of(bytes, Field::Name) == a.name) by {
        lemma_name_in_field(a.name, a.element);
        lemma_reads_text(line, Field::Name, a.name);
    }
    lemma_reads_character(line, Field::AltLoc, a.alt_loc);
    assert(text_of(bytes, Field::ResName) == a.res_name) by {
        lemma_text_in_field(a.res_name, NAME_WIDTH as int);
        lemma_reads_text(line, Field::ResName, a.res_name);
    }
    lemma_reads_character(line, Field::Chain, a.chain);
    lemma_reads_integer(line, Field::ResId, a.res_id);
    lemma_reads_character(line, Field::Icode, a.icode);
    lemma_reads_coordinate(line, Field::X, a.x);
    lemma_reads_coordinate(line, Field::Y, a.y);
    lemma_reads_coordinate(line, Field::Z, a.z);
    lemma_reads_factor(line, Field::Occupancy, a.occupancy);
    lemma_reads_factor(line, Field::TempFactor, a.temp_factor);
    assert(text_of(bytes, Field::Element) == a.element) by {
        lemma_text_in_field(a.element, SYMBOL_WIDTH as int);
        lemma_reads_text(line, Field::Element, a.element);
    }
    assert(text_of(bytes, Field::Charge) == a.charge) by {
        lemma_text_in_field(a.charge, SYMBOL_WIDTH as int);
        lemma_reads_text(line, Field::Charge, a.charge);
    }
    lemma_field_of_ascii(line, Field::Name);
    lemma_field_of_ascii(line, Field::ResName);
    lemma_field_of_ascii(line, Field::Element);
    lemma_field_of_ascii(line, Field::Charge);
}

/// Encoding a record whose fields fit their columns gives a line of eighty
/// ASCII characters, and decoding that line gives the record back.
pub proof fn lemma_decode_encode(a: AtomView)
    requires
        fits_columns(a),
    ensures
        encode(a).len() == 80,
        is_ascii_chars(encode(a)),
        decode(encode_utf8(encode(a))) == Ok::<AtomView, DecodeError>(a),
{
    lemma_layout_of_encoded(a);
    lemma_kind_of_marked(encode(a), a.record_type);
    lemma_fields_of_encoded(a);
}

proof fn lemma_plain_integer_field(n: u32)
    requires
        n <= 9_999,
    ensures
        holds_plain_integer(pad_left(decimal(n as nat), NUMBER_WIDTH as int)),
        plain_integer_field(pad_left(decimal(n as nat), NUMBER_WIDTH as int)),
{
    lemma_integer_in_field(n);
    lemma_decimal_is_plain(n as nat);
}

proof fn lemma_plain_coordinate_field(v: Fixed)
    requires
        coordinate_fits(v),
    ensures
        holds_plain_fixed(
            pad_left(fixed_text(v, COORD_SCALE as nat), COORD_WIDTH as int),
            COORD_SCALE as nat,
        ),
        plain_fixed_field(
            pad_left(fixed_text(v, COORD_SCALE as nat), COORD_WIDTH as int),
            COORD_SCALE as nat,
        ),
{
    lemma_fixed_text_is_plain(v, COORD_SCALE as nat);
    assert(pow10(6) == 1_000_000 && pow10(7) == 10_000_000) by {
        reveal_with_fuel(pow10, 8);
    }
    lemma_fixed_in_field(v, COORD_SCALE as nat, COORD_WIDTH as int, 7);
}

proof fn lemma_plain_factor_field(v: Fixed)
    requires
        factor_fits(v),
    ensures
        holds_plain_fixed(
            pad_left(fixed_text(v, FACTOR_SCALE as nat), FACTOR_WIDTH as int),
            FACTOR_SCALE as nat,
        ),
        plain_fixed_field(
            pad_left(fixed_text(v, FACTOR_SCALE as nat), FACTOR_WIDTH as int),
            FACTOR_SCALE as nat,
        ),
{
    lemma_fixed_text_is_plain(v, FACTOR_SCALE as nat);
    assert(pow10(4) == 10_000 && pow10(5) == 100_000) by {
        reveal_with_fuel(pow10, 6);
    }
    lemma_fixed_in_field(v, FACTOR_SCALE as nat, FACTOR_WIDTH as int, 5);
}

proof fn lemma_justified_fields(text: Seq<char>, width: int)
    requires
        plain_text(text, width),
    ensures
        left_justified(pad_right(text, width)),
        right_justified(pad_left(text, width)),
{
    lemma_text_in_field(text, width);
}

proof fn lemma_name_of_encoded_in_place(line: Seq<char>, name: Seq<char>, element: Seq<char>)
    requires
        line.len() == 80,
        plain_text(name, NAME_WIDTH as int),
        plain_text(element, SYMBOL_WIDTH as int),
        cut(line, Field::Name) == name_field(name, element),
        cut(line, Field::Element) == pad_left(element, SYMBOL_WIDTH as int),
    ensures
        name_in_place(line),
{
    lemma_text_in_field(name, NAME_WIDTH as int);
    lemma_text_in_field(element, SYMBOL_WIDTH as int);
    is_ascii_chars_encode_utf8(element);
    let wide = cut(line, Field::Name);
    let field = pad_right(name, NAME_WIDTH as int);
    if element.len() == 1 {
        assert(wide[0] == line[12]);
        assert(line.subrange(13, 16) =~= wide.subrange(1, 4));
        assert(wide.subrange(1, 4) =~= field);
    } else {
        assert(wide[3] == line[15]);
        assert(line.subrange(12, 15) =~= wide.subrange(0, 3));
        assert(wide.subrange(0, 3) =~= field);
    }
}

/// The line encoded for a record whose fields fit their columns is canonical
/// and plainly written.
pub proof fn lemma_encoded_is_canonical(a: AtomView)
    requires
        fits_columns(a),
    ensures
        is_canonical(encode(a)),
        is_plainly_written(encode(a)),
{
    let line = encode(a);
    lemma_layout_of_encoded(a);
    assert(line[6] == line.subrange(6, 7)[0]);
    assert(line[11] == line.subrange(11, 12)[0]);
    assert(line[20] == line.subrange(20, 21)[0]);
    lemma_plain_integer_field(a.id);
    lemma_name_of_encoded_in_place(line, a.name, a.element);
    lemma_justified_fields(a.res_name, NAME_WIDTH as int);
    lemma_plain_integer_field(a.res_id);
    lemma_plain_coordinate_field(a.x);
    lemma_plain_coordinate_field(a.y);
    lemma_plain_coordinate_field(a.z);
    lemma_plain_factor_field(a.occupancy);
    lemma_plain_factor_field(a.temp_factor);
    lemma_justified_fields(a.element, SYMBOL_WIDTH as int);
    lemma_justified_fields(a.charge, SYMBOL_WIDTH as int);
}

} // verus!
