//! The label table: label names and the byte offsets at which they were defined.

use crate::bits::{
    binary_digits, bits_value, get_bin, is_bit_string, lemma_binary_digits_denote,
    lemma_binary_digits_exceed, lemma_binary_digits_fit, lemma_zero_padded, zero_pad,
    zero_padded, zeros,
};
use vstd::arithmetic::power2::lemma2_to64;
use vstd::hash_map::StringHashMap;
use vstd::prelude::*;

verus! {

/// The width of the operand field of a branch, in bits.
pub const LABEL_FIELD_WIDTH: usize = 13;

/// The offset that `name` resolves to: the one it was last defined with, and 0 for
/// a name that has no definition.
pub open spec fn resolve(labels: Map<Seq<char>, u32>, name: Seq<char>) -> u32 {
    if labels.contains_key(name) {
        labels[name]
    } else {
        0
    }
}

/// The operand field of a branch to `offset`: the offset in base 2, padded with
/// zeros to thirteen digits.
pub open spec fn label_field(offset: nat) -> Seq<char> {
    zero_padded(binary_digits(offset), LABEL_FIELD_WIDTH as nat)
}

/// Label names with their byte offsets.
pub struct LabelTable {
    map: StringHashMap<u32>,
}

impl View for LabelTable {
    type V = Map<Seq<char>, u32>;

    closed spec fn view(&self) -> Map<Seq<char>, u32> {
        self.map@
    }
}

impl LabelTable {
    /// A table without labels.
    pub fn new() -> (t: Self)
        ensures
            t@ == Map::<Seq<char>, u32>::empty(),
    {
        LabelTable { map: StringHashMap::new() }
    }

    /// Binds `name` to `offset`. An earlier definition of the name is replaced.
    pub fn define_label(&mut self, name: String, offset: u32)
        ensures
            final(self)@ == old(self)@.insert(name@, offset),
    {
        self.map.insert(name, offset);
    }

    /// The offset of `name`, or 0 where the name has no definition.
    pub fn resolve_label(&self, name: &str) -> (r: u32)
        ensures
            r == resolve(self@, name@),
    {
        match self.map.get(name) {
            Some(offset) => *offset,
            None => 0,
        }
    }
}

/// The operand field of a branch to the label `x`.
pub fn get_label(x: &str, labels: &LabelTable) -> (r: String)
    ensures
        r@ == label_field(resolve(labels@, x@) as nat),
{
    let digits = get_bin(labels.resolve_label(x));
    zero_pad(digits.as_str(), LABEL_FIELD_WIDTH)
}

/// A name resolves to the offset it was last defined with, and defining it
/// changes what no other name resolves to.
pub proof fn lemma_define_resolve(
    labels: Map<Seq<char>, u32>,
    name: Seq<char>,
    offset: u32,
    other: Seq<char>,
)
    ensures
        resolve(labels.insert(name, offset), name) == offset,
        other != name ==> resolve(labels.insert(name, offset), other) == resolve(labels, other),
{
}

/// A name without a definition resolves to 0.
pub proof fn lemma_resolve_undefined(name: Seq<char>)
    ensures
        resolve(Map::<Seq<char>, u32>::empty(), name) == 0,
{
}

/// The operand field of a branch to an offset below `2^13` has exactly thirteen
/// binary digits and denotes the offset; for offset 0 all thirteen are zeros.
pub proof fn lemma_label_field(offset: nat)
    ensures
        is_bit_string(label_field(offset)),
        bits_value(label_field(offset)) == offset,
        offset < 8192 <==> label_field(offset).len() == 13,
        label_field(0) == zeros(13),
{
    lemma2_to64();
    lemma_binary_digits_denote(offset);
    lemma_zero_padded(binary_digits(offset), 13);
    if offset < 8192 {
        lemma_binary_digits_fit(offset, 13);
    } else {
        lemma_binary_digits_exceed(offset, 13);
    }
    assert(label_field(0) =~= zeros(13));
}

} // verus!
