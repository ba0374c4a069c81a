//! Selection of records by chain and residue name.
//!
//! The selected chains are kept as a set of thirty-two bits, one for each
//! remainder that a chain identifier's character code leaves on division by
//! thirty-two. Two identifiers with the same remainder are therefore selected
//! together: `A` and `a` share a bit.

use crate::atom::{Atom, AtomView};
use vstd::prelude::*;
use vstd::string::*;

verus! {

/// The chains selected where none is asked for: the bits one to twenty-six,
/// which are those of the capital letters.
pub const ALL_CHAINS: u32 = 134217726;

/// The place of a chain identifier among the thirty-two bits.
pub open spec fn chain_slot(c: char) -> u32 {
    (c as u32) % 32
}

/// The bit that stands for a chain identifier.
pub open spec fn chain_bit(c: char) -> u32 {
    1u32 << chain_slot(c)
}

/// Whether the mask selects the chain identifier.
pub open spec fn chain_selected(mask: u32, c: char) -> bool {
    mask & chain_bit(c) != 0
}

/// The mask with the bits of all identifiers of the list.
pub open spec fn mask_of_list(list: Seq<char>) -> u32
    decreases list.len(),
{
    if list.len() == 0 {
        0
    } else {
        mask_of_list(list.drop_last()) | chain_bit(list.last())
    }
}

/// The mask for a request: that of the list, or all chains where there is no list.
pub open spec fn chain_mask(chain: Option<Seq<char>>) -> u32 {
    match chain {
        Some(list) => mask_of_list(list),
        None => ALL_CHAINS,
    }
}

/// Whether some identifier of the list has the place of `c`.
pub open spec fn shares_slot(list: Seq<char>, c: char) -> bool {
    exists|i: int| 0 <= i < list.len() && chain_slot(#[trigger] list[i]) == chain_slot(c)
}

/// Whether a request selects the chain identifier: a list selects the
/// identifiers that share their place with one of its own, and no list selects
/// those whose place is one of one to twenty-six.
pub open spec fn request_selects(chain: Option<Seq<char>>, c: char) -> bool {
    match chain {
        Some(list) => shares_slot(list, c),
        None => 1 <= chain_slot(c) <= 26,
    }
}

/// The request as a mathematical value.
pub open spec fn requested(chain: &Option<Vec<char>>) -> Option<Seq<char>> {
    match chain {
        Some(list) => Some(list@),
        None => None,
    }
}

proof fn lemma_bit_union(mask: u32, bit: u32, probe: u32)
    by (bit_vector)
    ensures
        ((mask | bit) & probe != 0) <==> (mask & probe != 0 || bit & probe != 0),
{
}

proof fn lemma_bits_meet(j: u32, k: u32)
    by (bit_vector)
    requires
        j < 32,
        k < 32,
    ensures
        ((1u32 << j) & (1u32 << k) != 0) <==> j == k,
{
}

proof fn lemma_all_chains(k: u32)
    by (bit_vector)
    requires
        k < 32,
    ensures
        (134217726u32 & (1u32 << k) != 0) <==> (1 <= k && k <= 26),
{
}

proof fn lemma_shift_test(mask: u32, k: u32)
    by (bit_vector)
    requires
        k < 32,
    ensures
        (mask & (1u32 << k) != 0) <==> ((mask >> k) & 1 == 1),
{
}

proof fn lemma_no_bits(probe: u32)
    by (bit_vector)
    ensures
        0u32 & probe == 0,
{
}

/// A mask made from a list selects exactly the identifiers that share their
/// place with an identifier of the list; every listed identifier is among them.
pub proof fn lemma_listed_chains_selected(list: Seq<char>, c: char)
    ensures
        chain_selected(mask_of_list(list), c) <==> shares_slot(list, c),
        list.contains(c) ==> chain_selected(mask_of_list(list), c),
    decreases list.len(),
{
    if list.len() == 0 {
        lemma_no_bits(chain_bit(c));
    } else {
        let shorter = list.drop_last();
        lemma_listed_chains_selected(shorter, c);
        lemma_bit_union(mask_of_list(shorter), chain_bit(list.last()), chain_bit(c));
        lemma_bits_meet(chain_slot(list.last()), chain_slot(c));
        if shares_slot(shorter, c) {
            let i = choose|i: int|
                0 <= i < shorter.len() && chain_slot(#[trigger] shorter[i]) == chain_slot(c);
            assert(list[i] == shorter[i]);
        }
        if shares_slot(list, c) {
            let i = choose|i: int|
                0 <= i < list.len() && chain_slot(#[trigger] list[i]) == chain_slot(c);
            if i < shorter.len() {
                assert(shorter[i] == list[i]);
            }
        }
        if chain_slot(list.last()) == chain_slot(c) {
            assert(list[list.len() - 1] == list.last());
        }
    }
    if list.contains(c) {
        let i = choose|i: int| 0 <= i < list.len() && list[i] == c;
        assert(chain_slot(list[i]) == chain_slot(c));
    }
}

/// Where no chain is asked for, the identifiers selected are those whose
/// place is one of one to twenty-six; the capital letters are among them.
pub proof fn lemma_default_chains_selected(c: char)
    ensures
        chain_selected(chain_mask(None), c) <==> 1 <= chain_slot(c) <= 26,
        'A' <= c <= 'Z' ==> chain_selected(chain_mask(None), c),
{
    lemma_all_chains(chain_slot(c));
}

/// Selection tests one bit: the mask shifted right by the identifier's place
/// has its lowest bit set exactly where the identifier is selected.
pub proof fn lemma_selected_by_shift(mask: u32, c: char)
    ensures
        chain_selected(mask, c) <==> (mask >> chain_slot(c)) & 1 == 1,
{
    lemma_shift_test(mask, chain_slot(c));
}

/// A mask made for a request selects exactly the identifiers that the
/// request selects.
pub proof fn lemma_mask_selects_request(chain: Option<Seq<char>>, c: char)
    ensures
        chain_selected(chain_mask(chain), c) <==> request_selects(chain, c),
{
    match chain {
        Some(list) => lemma_listed_chains_selected(list, c),
        None => lemma_default_chains_selected(c),
    }
}

/// The mask with the bits of the listed chains.
fn mask_of(list: &Vec<char>) -> (mask: u32)
    ensures
        mask == mask_of_list(list@),
{
    let mut mask: u32 = 0;
    let mut i: usize = 0;
    while i < list.len()
        invariant
            i <= list@.len(),
            mask == mask_of_list(list@.subrange(0, i as int)),
        decreases list.len() - i,
    {
        let c = list[i];
        proof {
            assert(list@.subrange(0, i + 1).drop_last() =~= list@.subrange(0, i as int));
        }
        mask = mask | (1u32 << ((c as u32) % 32));
        i += 1;
    }
    proof {
        assert(list@.subrange(0, list@.len() as int) =~= list@);
    }
    mask
}

/// The mask of the chains asked for. It selects exactly the identifiers that
/// the request selects.
pub fn get_chain_mask(chain: &Option<Vec<char>>) -> (mask: u32)
    ensures
        mask == chain_mask(requested(chain)),
        forall|c: char| chain_selected(mask, c) <==> #[trigger] request_selects(
            requested(chain),
            c,
        ),
{
    let mask = match chain {
        None => ALL_CHAINS,
        Some(list) => mask_of(list),
    };
    proof {
        assert forall|c: char| chain_selected(mask, c) <==> #[trigger] request_selects(
            requested(chain),
            c,
        ) by {
            lemma_mask_selects_request(requested(chain), c);
        }
    }
    mask
}

/// Which records to keep.
#[derive(Debug, Clone)]
pub struct Filter {
    /// The selected chains, one bit for each place.
    pub chains: u32,
    /// The residue name that a record must have, if any.
    pub residue: Option<String>,
}

impl Filter {
    /// Whether the filter keeps the record: its chain must be selected, and
    /// its residue name must be the one asked for where one is.
    pub open spec fn accepts(&self, atom: AtomView) -> bool {
        chain_selected(self.chains, atom.chain) && match self.residue {
            Some(name) => atom.res_name == name@,
            None => true,
        }
    }

    /// The filter for the chains and the residue name asked for.
    pub fn new(chain: &Option<Vec<char>>, residue: Option<String>) -> (r: Filter)
        ensures
            r.chains == chain_mask(requested(chain)),
            r.residue == residue,
    {
        Filter { chains: get_chain_mask(chain), residue }
    }

    /// Whether the filter keeps the record.
    pub fn matches(&self, atom: &Atom) -> (r: bool)
        ensures
            r == self.accepts(atom@),
    {
        let chain_ok = (self.chains & (1u32 << ((atom.chain as u32) % 32))) != 0;
        match &self.residue {
            Some(name) => chain_ok && atom.res_name == *name,
            None => chain_ok,
        }
    }
}

/// A record is kept only where both tests pass: one whose chain is selected
/// but whose residue name is not the one asked for is dropped, and so is one
/// with the residue name asked for whose chain is not selected.
pub proof fn lemma_filter_is_conjunction(filter: Filter, atom: AtomView)
    requires
        filter.residue is Some,
    ensures
        filter.accepts(atom) <==> chain_selected(filter.chains, atom.chain) && atom.res_name
            == filter.residue->0@,
        atom.res_name != filter.residue->0@ ==> !filter.accepts(atom),
        !chain_selected(filter.chains, atom.chain) ==> !filter.accepts(atom),
{
}

} // verus!
