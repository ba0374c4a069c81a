//! An ordered collection of records of one kind: filling it, writing it out
//! with chain terminators, and moving it onto its centroid.
//!
//! The centroid is counted in whole thousandths, as the coordinates are: it
//! is the mean of each coordinate rounded down. After centring the mean of
//! each coordinate is therefore at least zero and less than one thousandth,
//! and exactly zero for a single record. The sign of a zero does not count
//! in a sum; a record that is not moved keeps it.

use crate::atom::{
    decode, encode, Atom, AtomView, DecodeError, RecordType, NAME_WIDTH, NUMBER_WIDTH,
};
use crate::filter::Filter;
use crate::numeral::{
    can_subtract, checked_difference, decimal, difference, lemma_difference_of_zero, push_number,
    signed, Fixed,
};
use crate::text::{blanks, pad_left, pad_right, push_blanks, push_left, put};
use vstd::arithmetic::div_mod::{
    lemma_fundamental_div_mod, lemma_fundamental_div_mod_converse, lemma_mod_bound,
};
use vstd::prelude::*;
use vstd::string::*;

verus! {

/// Blanks between the serial number and the residue name of a terminator.
pub const TER_GAP: usize = 6;

/// Blanks that end a terminator.
pub const TER_TAIL: usize = 54;

/// Records of one kind, in the order in which they were added.
#[derive(Debug, Clone)]
pub struct AtomCollection {
    pub record_type: RecordType,
    pub entries: Vec<Atom>,
}

/// The records as mathematical values.
pub open spec fn views(entries: Seq<Atom>) -> Seq<AtomView> {
    entries.map_values(|a: Atom| a@)
}

/// The lines as mathematical values.
pub open spec fn texts(lines: Seq<String>) -> Seq<Seq<char>> {
    lines.map_values(|s: String| s@)
}

/// The marker of a terminator line.
pub open spec fn ter_marker() -> Seq<char> {
    seq!['T', 'E', 'R', ' ', ' ', ' ']
}

/// The terminator that follows the record `last`: its serial number is the
/// one after that of the record, its residue and chain are those of the record.
#[verifier::opaque]
pub open spec fn terminator(last: AtomView) -> Seq<char> {
    ter_marker() + seq![' '] + pad_left(decimal((last.id + 1) as nat), NUMBER_WIDTH as int)
        + blanks(TER_GAP as int) + pad_right(last.res_name, NAME_WIDTH as int) + seq![' '] + seq![
        last.chain,
    ] + pad_left(decimal(last.res_id as nat), NUMBER_WIDTH as int) + blanks(TER_TAIL as int)
}

/// Whether a terminator follows the record at `i`: only among standard atoms,
/// after the last record and after each record whose successor is of another chain.
pub open spec fn ends_chain(kind: RecordType, entries: Seq<AtomView>, i: int) -> bool {
    kind == RecordType::Atom && (i == entries.len() - 1 || entries[i].chain != entries[i
        + 1].chain)
}

/// The lines written for the record at `i`.
pub open spec fn lines_of(kind: RecordType, entries: Seq<AtomView>, i: int) -> Seq<Seq<char>> {
    if ends_chain(kind, entries, i) {
        seq![encode(entries[i]), terminator(entries[i])]
    } else {
        seq![encode(entries[i])]
    }
}

/// The lines written for the first `n` records.
pub open spec fn lines_upto(kind: RecordType, entries: Seq<AtomView>, n: int) -> Seq<Seq<char>>
    decreases n,
{
    if n <= 0 {
        Seq::empty()
    } else {
        lines_upto(kind, entries, n - 1) + lines_of(kind, entries, n - 1)
    }
}

/// The lines written for a collection.
pub open spec fn output_lines(kind: RecordType, entries: Seq<AtomView>) -> Seq<Seq<char>> {
    lines_upto(kind, entries, entries.len() as int)
}

/// One coordinate of a record as a count of thousandths: `x` for axis 0, `y`
/// for axis 1, `z` for any other.
pub open spec fn coordinate(a: AtomView, axis: int) -> int {
    if axis == 0 {
        a.x.value()
    } else if axis == 1 {
        a.y.value()
    } else {
        a.z.value()
    }
}

/// The sum of one coordinate over the first `n` records.
pub open spec fn coordinate_sum(entries: Seq<AtomView>, axis: int, n: int) -> int
    decreases n,
{
    if n <= 0 {
        0
    } else {
        coordinate_sum(entries, axis, n - 1) + coordinate(entries[n - 1], axis)
    }
}

/// The mean of one coordinate, rounded down to a whole unit; zero for no records.
pub open spec fn mean(entries: Seq<AtomView>, axis: int) -> int {
    if entries.len() == 0 {
        0
    } else {
        coordinate_sum(entries, axis, entries.len() as int) / (entries.len() as int)
    }
}

/// The record moved by the negative of `by`.
pub open spec fn moved(a: AtomView, by: Seq<Fixed>) -> AtomView {
    AtomView {
        x: difference(a.x, by[0]),
        y: difference(a.y, by[1]),
        z: difference(a.z, by[2]),
        ..a
    }
}

/// Whether the record moved by the negative of `by` still has coordinates
/// with magnitudes of 64 bits.
pub open spec fn can_move(a: AtomView, by: Seq<Fixed>) -> bool {
    &&& can_subtract(a.x, by[0])
    &&& can_subtract(a.y, by[1])
    &&& can_subtract(a.z, by[2])
}

/// The three means of a collection. A mean of zero has no minus sign.
pub open spec fn centroid(entries: Seq<AtomView>) -> Seq<Fixed> {
    seq![signed(mean(entries, 0)), signed(mean(entries, 1)), signed(mean(entries, 2))]
}

/// The origin.
pub open spec fn origin() -> Seq<Fixed> {
    seq![signed(0), signed(0), signed(0)]
}

/// To move a record by the origin leaves it as it is.
pub proof fn lemma_moved_by_origin(a: AtomView)
    ensures
        can_move(a, origin()),
        moved(a, origin()) == a,
{
    lemma_difference_of_zero(a.x);
    lemma_difference_of_zero(a.y);
    lemma_difference_of_zero(a.z);
}

/// The sum of `n` numbers lies within `n` times the greatest magnitude.
proof fn lemma_sum_bounds(entries: Seq<AtomView>, axis: int, n: int)
    requires
        0 <= n <= entries.len(),
    ensures
        -n * (u64::MAX as int) <= coordinate_sum(entries, axis, n) <= n * (u64::MAX as int),
    decreases n,
{
    if n > 0 {
        lemma_sum_bounds(entries, axis, n - 1);
        assert(-(u64::MAX as int) <= coordinate(entries[n - 1], axis) <= u64::MAX);
        assert(n * (u64::MAX as int) == (n - 1) * (u64::MAX as int) + (u64::MAX as int))
            by (nonlinear_arith);
    }
}

/// The mean of numbers with magnitudes of 64 bits has a magnitude of 64 bits.
proof fn lemma_mean_bounds(sum: int, n: int)
    requires
        n > 0,
        -n * (u64::MAX as int) <= sum <= n * (u64::MAX as int),
    ensures
        -(u64::MAX as int) <= sum / n <= u64::MAX,
{
    lemma_fundamental_div_mod(sum, n);
    lemma_mod_bound(sum, n);
    let q = sum / n;
    let high = u64::MAX as int;
    assert(q <= high) by (nonlinear_arith)
        requires
            n > 0,
            n * q <= n * high,
    ;
    assert(q >= -high) by (nonlinear_arith)
        requires
            n > 0,
            n * q > -n * high - n,
    ;
}

/// The centroid counts what the means count.
proof fn lemma_centroid_counts(entries: Seq<AtomView>, axis: int)
    requires
        0 <= axis < 3,
    ensures
        centroid(entries)[axis].value() == mean(entries, axis),
        -(u64::MAX as int) <= mean(entries, axis) <= u64::MAX,
{
    if entries.len() > 0 {
        lemma_sum_bounds(entries, axis, entries.len() as int);
        lemma_mean_bounds(coordinate_sum(entries, axis, entries.len() as int), entries.len() as int);
    }
}

/// Moving every record by the negative of `by` takes `by` as often from the
/// sum of a coordinate as there are records.
proof fn lemma_sum_moved(
    entries: Seq<AtomView>,
    after: Seq<AtomView>,
    by: Seq<Fixed>,
    axis: int,
    n: int,
)
    requires
        0 <= axis < 3,
        by.len() == 3,
        0 <= n <= entries.len() == after.len(),
        forall|i: int|
            0 <= i < entries.len() ==> can_move(#[trigger] entries[i], by) && after[i] == moved(
                entries[i],
                by,
            ),
    ensures
        coordinate_sum(after, axis, n) == coordinate_sum(entries, axis, n) - n * by[axis].value(),
    decreases n,
{
    let step = by[axis].value();
    if n > 0 {
        lemma_sum_moved(entries, after, by, axis, n - 1);
        assert(can_move(entries[n - 1], by));
        assert(coordinate(after[n - 1], axis) == coordinate(entries[n - 1], axis) - step);
        assert(n * step == (n - 1) * step + step) by (nonlinear_arith);
    } else {
        assert(n * step == 0) by (nonlinear_arith)
            requires
                n == 0,
        ;
    }
}

/// The quotient by `n`, rounded down, of what is left of `plus` when `minus`
/// is taken from it.
fn floor_mean(plus: u128, minus: u128, n: usize) -> (r: Fixed)
    requires
        n > 0,
        plus <= n * (u64::MAX as int),
        minus <= n * (u64::MAX as int),
    ensures
        r == signed((plus - minus) / (n as int)),
{
    let ghost sum = plus - minus;
    proof {
        assert(-n * (u64::MAX as int) <= sum <= n * (u64::MAX as int));
        lemma_mean_bounds(sum, n as int);
    }
    if plus >= minus {
        let q: u128 = (plus - minus) / (n as u128);
        Fixed { negative: false, magnitude: q as u64 }
    } else {
        let t: u128 = minus - plus - 1;
        let k: u128 = t / (n as u128);
        proof {
            let r = t as int % n as int;
            lemma_fundamental_div_mod(t as int, n as int);
            lemma_mod_bound(t as int, n as int);
            assert(sum == (-(k as int) - 1) * (n as int) + (n as int - 1 - r)) by (nonlinear_arith)
                requires
                    t as int == (n as int) * (k as int) + r,
                    sum == -(t as int) - 1,
            ;
            lemma_fundamental_div_mod_converse(sum, n as int, -(k as int) - 1, n as int - 1 - r);
        }
        Fixed { negative: true, magnitude: (k + 1) as u64 }
    }
}

proof fn lemma_views_push(entries: Seq<Atom>, atom: Atom)
    ensures
        views(entries.push(atom)) == views(entries).push(atom@),
{
    assert(views(entries.push(atom)) =~= views(entries).push(atom@));
}

impl AtomCollection {
    /// The records as mathematical values.
    pub open spec fn records(&self) -> Seq<AtomView> {
        views(self.entries@)
    }

    /// An empty collection of records of one kind.
    pub fn new(record: RecordType) -> (r: Self)
        ensures
            r.record_type == record,
            r.records() == Seq::<AtomView>::empty(),
    {
        let r = Self { record_type: record, entries: Vec::<Atom>::new() };
        proof {
            assert(r.records() =~= Seq::<AtomView>::empty());
        }
        r
    }

    /// Decodes a line and adds the record where the filter keeps it.
    ///
    /// A line that does not decode leaves the collection as it was and hands
    /// out the error. The kind of the record is not held against the kind of
    /// the collection.
    pub fn add_atom(&mut self, line: &str, filter: &Filter) -> (r: Result<(), DecodeError>)
        ensures
            final(self).record_type == old(self).record_type,
            match decode(line.spec_bytes()) {
                Ok(atom) => r is Ok && final(self).records() == if filter.accepts(atom) {
                    old(self).records().push(atom)
                } else {
                    old(self).records()
                },
                Err(e) => r == Err::<(), DecodeError>(e) && final(self).records() == old(
                    self,
                ).records(),
            },
    {
        match Atom::from_line(line) {
            Ok(atom) => {
                if filter.matches(&atom) {
                    proof {
                        lemma_views_push(self.entries@, atom);
                    }
                    self.entries.push(atom);
                }
                Ok(())
            },
            Err(e) => Err(e),
        }
    }

    /// The terminator line that follows a record.
    pub fn ter_line(last_line: &Atom) -> (r: String)
        ensures
            r@ == terminator(last_line@),
    {
        let mut out = String::new();
        proof {
            reveal(terminator);
            reveal_strlit("TER   ");
            assert("TER   "@ =~= ter_marker());
            assert(Seq::<char>::empty() + ter_marker() =~= ter_marker());
        }
        out.append("TER   ");
        put(&mut out, ' ');
        push_number(&mut out, last_line.id as u64 + 1, NUMBER_WIDTH);
        push_blanks(&mut out, TER_GAP);
        push_left(&mut out, last_line.res_name.as_str(), NAME_WIDTH);
        put(&mut out, ' ');
        put(&mut out, last_line.chain);
        push_number(&mut out, last_line.res_id as u64, NUMBER_WIDTH);
        push_blanks(&mut out, TER_TAIL);
        out
    }

    /// The lines of the collection: each record in order, and among standard
    /// atoms a terminator after the last record of each run of one chain.
    pub fn output(&self) -> (lines: Vec<String>)
        ensures
            texts(lines@) == output_lines(self.record_type, self.records()),
    {
        let mut lines: Vec<String> = Vec::new();
        let n = self.entries.len();
        let mut i: usize = 0;
        proof {
            assert(texts(lines@) =~= lines_upto(self.record_type, self.records(), 0));
        }
        while i < n
            invariant
                i <= n == self.entries@.len(),
                texts(lines@) == lines_upto(self.record_type, self.records(), i as int),
            decreases n - i,
        {
            let ghost before = texts(lines@);
            let ghost entries = self.records();
            let atom = &self.entries[i];
            proof {
                assert(entries[i as int] == atom@);
            }
            lines.push(atom.to_string());
            let last = i + 1 == n;
            let closes = match self.record_type {
                RecordType::Atom => last || atom.chain != self.entries[i + 1].chain,
                RecordType::Hetatm => false,
            };
            proof {
                if !last {
                    assert(entries[i + 1] == self.entries@[i + 1]@);
                }
                assert(closes == ends_chain(self.record_type, entries, i as int));
            }
            if closes {
                lines.push(Self::ter_line(atom));
            }
            proof {
                assert(texts(lines@) =~= before + lines_of(self.record_type, entries, i as int));
            }
            i += 1;
        }
        lines
    }

    /// The mean of one coordinate over the records, rounded down.
    fn mean_of(&self, axis: u8) -> (r: Fixed)
        requires
            axis < 3,
            self.entries@.len() > 0,
        ensures
            r == signed(mean(self.records(), axis as int)),
    {
        let n = self.entries.len();
        let mut plus: u128 = 0;
        let mut minus: u128 = 0;
        let mut i: usize = 0;
        let ghost entries = self.records();
        while i < n
            invariant
                i <= n == self.entries@.len(),
                axis < 3,
                entries == self.records(),
                plus - minus == coordinate_sum(entries, axis as int, i as int),
                plus <= i * (u64::MAX as int),
                minus <= i * (u64::MAX as int),
            decreases n - i,
        {
            let atom = &self.entries[i];
            let c = if axis == 0 {
                atom.x
            } else if axis == 1 {
                atom.y
            } else {
                atom.z
            };
            proof {
                assert(entries[i as int] == atom@);
                assert(c.value() == coordinate(entries[i as int], axis as int));
                assert((i + 1) * (u64::MAX as int) == i * (u64::MAX as int) + (u64::MAX as int))
                    by (nonlinear_arith);
                assert((i + 1) * (u64::MAX as int) <= u128::MAX) by (nonlinear_arith)
                    requires
                        0 <= i + 1 <= 0xffff_ffff_ffff_ffff,
                ;
            }
            if c.negative {
                minus = minus + c.magnitude as u128;
            } else {
                plus = plus + c.magnitude as u128;
            }
            i += 1;
        }
        floor_mean(plus, minus, n)
    }

    /// The centroid of the records: the mean of each coordinate, rounded down
    /// to a whole thousandth. The centroid of no records is the origin. A
    /// mean of zero has no minus sign.
    pub fn center_of_mass(&self) -> (r: [Fixed; 3])
        ensures
            r[0] == centroid(self.records())[0],
            r[1] == centroid(self.records())[1],
            r[2] == centroid(self.records())[2],
    {
        if self.entries.len() == 0 {
            [Fixed::from_units(0), Fixed::from_units(0), Fixed::from_units(0)]
        } else {
            [self.mean_of(0), self.mean_of(1), self.mean_of(2)]
        }
    }

    /// Whether every record can be moved onto the centroid without leaving
    /// the range of its coordinates.
    pub open spec fn can_center(&self) -> bool {
        forall|i: int|
            0 <= i < self.records().len() ==> can_move(
                #[trigger] self.records()[i],
                centroid(self.records()),
            )
    }

    /// Tells whether the collection can be moved onto its centroid.
    pub fn can_be_centered(&self) -> (r: bool)
        ensures
            r == self.can_center(),
    {
        let com = self.center_of_mass();
        let n = self.entries.len();
        let ghost by = centroid(self.records());
        let mut i: usize = 0;
        while i < n
            invariant
                i <= n == self.entries@.len(),
                by == centroid(self.records()),
                com[0] == by[0],
                com[1] == by[1],
                com[2] == by[2],
                forall|j: int| 0 <= j < i ==> can_move(#[trigger] self.records()[j], by),
            decreases n - i,
        {
            let atom = &self.entries[i];
            proof {
                assert(self.records()[i as int] == atom@);
            }
            if checked_difference(atom.x, com[0]).is_none() || checked_difference(
                atom.y,
                com[1],
            ).is_none() || checked_difference(atom.z, com[2]).is_none() {
                proof {
                    assert(!can_move(self.records()[i as int], by));
                }
                return false;
            }
            i += 1;
        }
        true
    }

    /// Moves every record by the negative of the centroid, so that the
    /// centroid of the collection comes to lie at the origin: afterwards the
    /// sum of each coordinate is at least zero and less than the number of
    /// records, which puts each mean at less than one thousandth from zero,
    /// and the centroid, rounded down, is the origin. Centring a second time
    /// therefore moves nothing, and a single record comes to lie at the
    /// origin exactly.
    pub fn center_to_origin(&mut self)
        requires
            old(self).can_center(),
        ensures
            final(self).record_type == old(self).record_type,
            final(self).records().len() == old(self).records().len(),
            forall|i: int|
                0 <= i < old(self).records().len() ==> #[trigger] final(self).records()[i]
                    == moved(old(self).records()[i], centroid(old(self).records())),
            forall|axis: int|
                0 <= axis < 3 && old(self).records().len() > 0 ==> 0 <= #[trigger] coordinate_sum(
                    final(self).records(),
                    axis,
                    final(self).records().len() as int,
                ) < old(self).records().len(),
            centroid(final(self).records()) == origin(),
            forall|axis: int|
                0 <= axis < 3 && old(self).records().len() == 1 ==> #[trigger] coordinate(
                    final(self).records()[0],
                    axis,
                ) == 0,
    {
        let com = self.center_of_mass();
        let n = self.entries.len();
        let ghost before = self.records();
        let ghost by = centroid(before);
        let mut i: usize = 0;
        while i < n
            invariant
                i <= n == self.entries@.len() == before.len(),
                self.record_type == old(self).record_type,
                by == centroid(before),
                by.len() == 3,
                com[0] == by[0],
                com[1] == by[1],
                com[2] == by[2],
                forall|j: int| 0 <= j < n ==> can_move(#[trigger] before[j], by),
                forall|j: int| 0 <= j < i ==> #[trigger] self.records()[j] == moved(before[j], by),
                forall|j: int| i <= j < n ==> #[trigger] self.records()[j] == before[j],
            decreases n - i,
        {
            let ghost during = self.records();
            proof {
                assert(during[i as int] == before[i as int]);
                assert(can_move(before[i as int], by));
                assert(self.entries@[i as int]@ == during[i as int]);
            }
            self.entries[i].translate(&com);
            proof {
                assert forall|j: int| 0 <= j < n implies #[trigger] self.records()[j] == (if j
                    == i {
                    moved(before[j], by)
                } else {
                    during[j]
                }) by {
                    assert(self.records()[j] == self.entries@[j]@);
                }
            }
            i += 1;
        }
        proof {
            let after = self.records();
            assert forall|axis: int| 0 <= axis < 3 && n > 0 implies 0 <= #[trigger] coordinate_sum(
                after,
                axis,
                after.len() as int,
            ) < n by {
                let sum = coordinate_sum(before, axis, n as int);
                lemma_sum_moved(before, after, by, axis, n as int);
                lemma_centroid_counts(before, axis);
                lemma_fundamental_div_mod(sum, n as int);
                lemma_mod_bound(sum, n as int);
                assert(by[axis].value() == sum / (n as int));
            }
            assert forall|axis: int| 0 <= axis < 3 implies mean(after, axis) == 0 by {
                if n > 0 {
                    let sum = coordinate_sum(after, axis, after.len() as int);
                    lemma_fundamental_div_mod_converse(sum, n as int, 0, sum);
                }
            }
            assert(centroid(after) =~= origin());
            assert forall|axis: int| 0 <= axis < 3 && n == 1 implies #[trigger] coordinate(
                after[0],
                axis,
            ) == 0 by {
                assert(coordinate_sum(after, axis, 1) == coordinate_sum(after, axis, 0)
                    + coordinate(after[0], axis));
            }
        }
    }
}

/// Whether all records are of one chain.
pub open spec fn one_chain(entries: Seq<AtomView>) -> bool {
    forall|i: int, j: int|
        0 <= i < entries.len() && 0 <= j < entries.len() ==> (#[trigger] entries[i]).chain == (
        #[trigger] entries[j]).chain
}

/// The encoded lines of the first `n` records, without any terminator.
pub open spec fn encoded_upto(entries: Seq<AtomView>, n: int) -> Seq<Seq<char>> {
    Seq::new(
        if n > 0 {
            n as nat
        } else {
            0
        },
        |i: int| encode(entries[i]),
    )
}

/// The number of records among the first `n` that a terminator follows.
pub open spec fn terminators_upto(kind: RecordType, entries: Seq<AtomView>, n: int) -> nat
    decreases n,
{
    if n <= 0 {
        0
    } else if ends_chain(kind, entries, n - 1) {
        terminators_upto(kind, entries, n - 1) + 1
    } else {
        terminators_upto(kind, entries, n - 1)
    }
}

/// As many lines are written as there are records and terminators.
pub proof fn lemma_output_line_count(kind: RecordType, entries: Seq<AtomView>, n: int)
    requires
        0 <= n <= entries.len(),
    ensures
        lines_upto(kind, entries, n).len() == n + terminators_upto(kind, entries, n),
    decreases n,
{
    if n > 0 {
        lemma_output_line_count(kind, entries, n - 1);
    }
}

proof fn lemma_no_terminator_inside_run(kind: RecordType, entries: Seq<AtomView>, n: int)
    requires
        0 <= n <= entries.len(),
        forall|i: int| 0 <= i < n ==> !ends_chain(kind, entries, i),
    ensures
        lines_upto(kind, entries, n) == encoded_upto(entries, n),
        terminators_upto(kind, entries, n) == 0,
    decreases n,
{
    if n > 0 {
        lemma_no_terminator_inside_run(kind, entries, n - 1);
        assert(!ends_chain(kind, entries, n - 1));
        assert(encoded_upto(entries, n - 1) + seq![encode(entries[n - 1])] =~= encoded_upto(
            entries,
            n,
        ));
    } else {
        assert(lines_upto(kind, entries, n) =~= encoded_upto(entries, n));
    }
}

/// Standard atoms of one chain are written as their encoded lines followed
/// by a single terminator, which is that of the last record.
pub proof fn lemma_one_chain_one_terminator(entries: Seq<AtomView>)
    requires
        entries.len() > 0,
        one_chain(entries),
    ensures
        output_lines(RecordType::Atom, entries) == encoded_upto(entries, entries.len() as int).push(
            terminator(entries.last()),
        ),
        terminators_upto(RecordType::Atom, entries, entries.len() as int) == 1,
{
    let n = entries.len() as int;
    assert forall|i: int| 0 <= i < n - 1 implies !ends_chain(RecordType::Atom, entries, i) by {
        assert(entries[i].chain == entries[i + 1].chain);
    }
    lemma_no_terminator_inside_run(RecordType::Atom, entries, n - 1);
    assert(ends_chain(RecordType::Atom, entries, n - 1));
    assert(encoded_upto(entries, n - 1) + seq![
        encode(entries[n - 1]),
        terminator(entries[n - 1]),
    ] =~= encoded_upto(entries, n).push(terminator(entries.last())));
}

proof fn lemma_record_of_prefix(first: Seq<AtomView>, second: Seq<AtomView>, i: int)
    requires
        second.len() > 0,
        first.last().chain != second.first().chain,
        0 <= i < first.len(),
    ensures
        (first + second)[i] == first[i],
        ends_chain(RecordType::Atom, first + second, i) == ends_chain(RecordType::Atom, first, i),
{
    let both = first + second;
    if i + 1 < first.len() {
        assert(both[i + 1] == first[i + 1]);
    } else {
        assert(both[i + 1] == second[0]);
    }
}

proof fn lemma_record_of_suffix(first: Seq<AtomView>, second: Seq<AtomView>, i: int)
    requires
        0 <= i < second.len(),
    ensures
        (first + second)[first.len() + i] == second[i],
        ends_chain(RecordType::Atom, first + second, first.len() + i) == ends_chain(
            RecordType::Atom,
            second,
            i,
        ),
{
    let both = first + second;
    if i + 1 < second.len() {
        assert(both[first.len() + i + 1] == second[i + 1]);
    }
}

proof fn lemma_lines_of_prefix(first: Seq<AtomView>, second: Seq<AtomView>, n: int)
    requires
        second.len() > 0,
        first.last().chain != second.first().chain,
        0 <= n <= first.len(),
    ensures
        lines_upto(RecordType::Atom, first + second, n) == lines_upto(RecordType::Atom, first, n),
        terminators_upto(RecordType::Atom, first + second, n) == terminators_upto(
            RecordType::Atom,
            first,
            n,
        ),
    decreases n,
{
    if n > 0 {
        lemma_lines_of_prefix(first, second, n - 1);
        lemma_record_of_prefix(first, second, n - 1);
    }
}

proof fn lemma_joined(head: Seq<Seq<char>>, tail: Seq<Seq<char>>, step: Seq<Seq<char>>)
    ensures
        (head + tail) + step == head + (tail + step),
        head + Seq::<Seq<char>>::empty() == head,
{
    assert((head + tail) + step =~= head + (tail + step));
    assert(head + Seq::<Seq<char>>::empty() =~= head);
}

proof fn lemma_lines_of_suffix(first: Seq<AtomView>, second: Seq<AtomView>, n: int)
    requires
        second.len() > 0,
        first.last().chain != second.first().chain,
        0 <= n <= second.len(),
    ensures
        lines_upto(RecordType::Atom, first + second, first.len() + n) == lines_upto(
            RecordType::Atom,
            first,
            first.len() as int,
        ) + lines_upto(RecordType::Atom, second, n),
        terminators_upto(RecordType::Atom, first + second, first.len() + n) == terminators_upto(
            RecordType::Atom,
            first,
            first.len() as int,
        ) + terminators_upto(RecordType::Atom, second, n),
    decreases n,
{
    let head = lines_upto(RecordType::Atom, first, first.len() as int);
    if n > 0 {
        lemma_lines_of_suffix(first, second, n - 1);
        lemma_record_of_suffix(first, second, n - 1);
        lemma_joined(
            head,
            lines_upto(RecordType::Atom, second, n - 1),
            lines_of(RecordType::Atom, second, n - 1),
        );
    } else {
        lemma_lines_of_prefix(first, second, first.len() as int);
        lemma_joined(head, Seq::empty(), Seq::empty());
    }
}

/// Where the chain changes between two runs of standard atoms, the two runs
/// are written one after the other, each as it would be written alone: every
/// run of one chain ends in its own terminator.
pub proof fn lemma_output_splits_at_chain_change(first: Seq<AtomView>, second: Seq<AtomView>)
    requires
        first.len() > 0,
        second.len() > 0,
        first.last().chain != second.first().chain,
    ensures
        output_lines(RecordType::Atom, first + second) == output_lines(RecordType::Atom, first)
            + output_lines(RecordType::Atom, second),
        terminators_upto(RecordType::Atom, first + second, (first + second).len() as int)
            == terminators_upto(RecordType::Atom, first, first.len() as int) + terminators_upto(
            RecordType::Atom,
            second,
            second.len() as int,
        ),
{
    lemma_lines_of_suffix(first, second, second.len() as int);
}

/// Hetero atoms are written as their encoded lines and nothing else: no
/// terminator follows any of them, whatever their chains.
pub proof fn lemma_hetero_atoms_have_no_terminator(entries: Seq<AtomView>)
    ensures
        output_lines(RecordType::Hetatm, entries) == encoded_upto(entries, entries.len() as int),
        terminators_upto(RecordType::Hetatm, entries, entries.len() as int) == 0,
{
    lemma_no_terminator_inside_run(RecordType::Hetatm, entries, entries.len() as int);
}

} // verus!
