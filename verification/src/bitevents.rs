//! Bit-transition events and the change detector.
//!
//! A register snapshot is a 16-bit word. The change detector compares two
//! snapshots and emits one event per changed bit, enumerating bit positions
//! in ascending order from the least significant bit ([`ENUMERATION_LSB_FIRST`]).

use vstd::prelude::*;

verus! {

/// Number of pins in one device's register word.
pub const WORD_BITS: u8 = 16;

/// The change detector enumerates bit positions in ascending order, starting
/// at the least significant bit of the register word. This is a fixed
/// convention of the crate, pinned by tests, not an accident of iteration.
pub const ENUMERATION_LSB_FIRST: bool = true;

/// One observed or requested bit transition on a named device.
#[derive(Clone, Debug, PartialEq)]
pub struct BitEvent {
    pub dev_name: String,
    pub bit: u8,
    pub value: u8,
}

/// Mathematical image of a [`BitEvent`].
pub struct BitEventModel {
    pub dev_name: Seq<char>,
    pub bit: u8,
    pub value: u8,
}

impl View for BitEvent {
    type V = BitEventModel;

    open spec fn view(&self) -> BitEventModel {
        BitEventModel { dev_name: self.dev_name@, bit: self.bit, value: self.value }
    }
}

/// The models of a sequence of events.
pub open spec fn models_of(s: Seq<BitEvent>) -> Seq<BitEventModel> {
    s.map_values(|e: BitEvent| e@)
}

impl BitEvent {
    /// The event rendered for logs, as the `Display` form of an event type
    /// would be.
    pub fn display_string(&self) -> (r: String)
        ensures
            r@ == "{ dev: "@ + self@.dev_name + ", bit "@ + crate::parse::spec_u8_digits(self.bit)
                + ": "@ + crate::parse::spec_u8_digits(self.value) + " }"@,
    {
        let mut out = String::new();
        out.append("{ dev: ");
        out.append(self.dev_name.as_str());
        out.append(", bit ");
        let bit_digits = crate::parse::u8_to_string(self.bit);
        out.append(bit_digits.as_str());
        out.append(": ");
        let value_digits = crate::parse::u8_to_string(self.value);
        out.append(value_digits.as_str());
        out.append(" }");
        proof {
            assert(out@ =~= "{ dev: "@ + self@.dev_name + ", bit "@
                + crate::parse::spec_u8_digits(self.bit) + ": "@ + crate::parse::spec_u8_digits(
                self.value,
            ) + " }"@);
        }
        out
    }
}

/// The bit of `data` at position `shift`, as 0 or 1.
pub open spec fn spec_bit_value(data: u16, shift: u8) -> u8 {
    ((data >> (shift as u16)) & 0x01) as u8
}

/// Extracts one bit of a register word.
pub fn bit_value(data: u16, shift: u8) -> (r: u8)
    requires
        shift < WORD_BITS,
    ensures
        r == spec_bit_value(data, shift),
        r == 0 || r == 1,
{
    proof {
        let s = shift as u16;
        assert((data >> s) & 0x01 == 0 || (data >> s) & 0x01 == 1) by (bit_vector);
    }
    ((data >> (shift as u16)) & 0x01) as u8
}

/// The events that the change detector owes for the bits of `previous` and
/// `current` at positions `from..WORD_BITS`, in ascending bit order.
pub open spec fn spec_diff_from(dev_name: Seq<char>, previous: u16, current: u16, from: u8) -> Seq<
    BitEventModel,
>
    decreases WORD_BITS - from,
{
    if from >= WORD_BITS {
        Seq::empty()
    } else {
        let rest = spec_diff_from(dev_name, previous, current, (from + 1) as u8);
        if spec_bit_value(previous, from) != spec_bit_value(current, from) {
            seq![
                BitEventModel {
                    dev_name: dev_name,
                    bit: from,
                    value: spec_bit_value(current, from),
                },
            ] + rest
        } else {
            rest
        }
    }
}

/// The full ordered event list owed for a transition from `previous` to
/// `current` on the device called `dev_name`.
pub open spec fn spec_diff(dev_name: Seq<char>, previous: u16, current: u16) -> Seq<
    BitEventModel,
> {
    spec_diff_from(dev_name, previous, current, 0)
}

proof fn lemma_diff_from_exact(dev_name: Seq<char>, previous: u16, current: u16, from: u8)
    ensures
        forall|k: int|
            #![trigger spec_diff_from(dev_name, previous, current, from)[k]]
            0 <= k < spec_diff_from(dev_name, previous, current, from).len() ==> {
                let e = spec_diff_from(dev_name, previous, current, from)[k];
                &&& e.dev_name == dev_name
                &&& from <= e.bit < WORD_BITS
                &&& e.value == spec_bit_value(current, e.bit)
                &&& spec_bit_value(previous, e.bit) != spec_bit_value(current, e.bit)
            },
        forall|k1: int, k2: int|
            #![auto]
            0 <= k1 < k2 < spec_diff_from(dev_name, previous, current, from).len()
                ==> spec_diff_from(dev_name, previous, current, from)[k1].bit < spec_diff_from(
                dev_name,
                previous,
                current,
                from,
            )[k2].bit,
        forall|b: u8|
            from <= b < WORD_BITS && spec_bit_value(previous, b) != #[trigger] spec_bit_value(
                current,
                b,
            ) ==> exists|k: int|
                #![auto]
                0 <= k < spec_diff_from(dev_name, previous, current, from).len()
                    && spec_diff_from(dev_name, previous, current, from)[k].bit == b,
    decreases WORD_BITS - from,
{
    if from < WORD_BITS {
        lemma_diff_from_exact(dev_name, previous, current, (from + 1) as u8);
        let rest = spec_diff_from(dev_name, previous, current, (from + 1) as u8);
        let whole = spec_diff_from(dev_name, previous, current, from);
        if spec_bit_value(previous, from) != spec_bit_value(current, from) {
            assert(whole[0].bit == from);
            assert forall|k: int| 1 <= k < whole.len() implies #[trigger] whole[k] == rest[k
                - 1] by {}
            assert forall|b: u8|
                from <= b < WORD_BITS && spec_bit_value(previous, b) != #[trigger] spec_bit_value(
                    current,
                    b,
                ) implies exists|k: int|
                #![auto]
                0 <= k < whole.len() && whole[k].bit == b by {
                if b == from {
                    assert(whole[0].bit == b);
                } else {
                    let k0 = choose|k: int| 0 <= k < rest.len() && #[trigger] rest[k].bit == b;
                    assert(whole[k0 + 1].bit == b);
                }
            }
        }
    }
}

/// Law of the change detector: for any two same-width words, the diff holds
/// exactly the bit positions where the words differ, each event carrying the
/// corresponding bit of `current` and the caller's device name, enumerated in
/// strictly ascending bit order.
pub proof fn lemma_diff_exact(dev_name: Seq<char>, previous: u16, current: u16)
    ensures
        forall|k: int|
            #![trigger spec_diff(dev_name, previous, current)[k]]
            0 <= k < spec_diff(dev_name, previous, current).len() ==> {
                let e = spec_diff(dev_name, previous, current)[k];
                &&& e.dev_name == dev_name
                &&& e.bit < WORD_BITS
                &&& e.value == spec_bit_value(current, e.bit)
                &&& spec_bit_value(previous, e.bit) != spec_bit_value(current, e.bit)
            },
        forall|k1: int, k2: int|
            #![auto]
            0 <= k1 < k2 < spec_diff(dev_name, previous, current).len() ==> spec_diff(
                dev_name,
                previous,
                current,
            )[k1].bit < spec_diff(dev_name, previous, current)[k2].bit,
        forall|b: u8|
            b < WORD_BITS && spec_bit_value(previous, b) != #[trigger] spec_bit_value(current, b)
                ==> exists|k: int|
                #![auto]
                0 <= k < spec_diff(dev_name, previous, current).len() && spec_diff(
                    dev_name,
                    previous,
                    current,
                )[k].bit == b,
{
    lemma_diff_from_exact(dev_name, previous, current, 0);
    let sd = spec_diff(dev_name, previous, current);
    assert forall|b: u8|
        b < WORD_BITS && spec_bit_value(previous, b) != #[trigger] spec_bit_value(
            current,
            b,
        ) implies exists|k: int| #![auto] 0 <= k < sd.len() && sd[k].bit == b by {
        let sdf = spec_diff_from(dev_name, previous, current, 0);
        let k0 = choose|k: int| 0 <= k < sdf.len() && #[trigger] sdf[k].bit == b;
        assert(0 <= k0 < sd.len() && sd[k0].bit == b);
    }
}

/// Law of the change detector: diffing a word against itself yields no event.
pub proof fn lemma_diff_self(dev_name: Seq<char>, word: u16)
    ensures
        spec_diff(dev_name, word, word) == Seq::<BitEventModel>::empty(),
{
    lemma_diff_from_self(dev_name, word, 0);
}

proof fn lemma_diff_from_self(dev_name: Seq<char>, word: u16, from: u8)
    ensures
        spec_diff_from(dev_name, word, word, from) == Seq::<BitEventModel>::empty(),
    decreases WORD_BITS - from,
{
    if from < WORD_BITS {
        lemma_diff_from_self(dev_name, word, (from + 1) as u8);
    }
}

/// Compares two register snapshots of one device, emitting one event per
/// changed bit, in ascending bit order starting at the least significant bit.
pub fn bit_compare(dev_name: &str, previous: u16, current: u16) -> (r: Vec<BitEvent>)
    ensures
        models_of(r@) == spec_diff(dev_name@, previous, current),
{
    let mut events: Vec<BitEvent> = Vec::new();
    let delta = previous ^ current;
    let mut bit_index: u8 = 0;
    while bit_index < WORD_BITS
        invariant
            bit_index <= WORD_BITS,
            delta == previous ^ current,
            models_of(events@) + spec_diff_from(dev_name@, previous, current, bit_index)
                =~= spec_diff(dev_name@, previous, current),
        decreases WORD_BITS - bit_index,
    {
        proof {
            let s = bit_index as u16;
            assert((((previous ^ current) >> s) & 0x01 != 0) == (((previous >> s) & 0x01) != ((
            current >> s) & 0x01))) by (bit_vector);
            assert((previous >> s) & 0x01 == 0 || (previous >> s) & 0x01 == 1) by (bit_vector);
            assert((current >> s) & 0x01 == 0 || (current >> s) & 0x01 == 1) by (bit_vector);
            assert(((previous ^ current) >> s) & 0x01 == 0 || ((previous ^ current) >> s) & 0x01
                == 1) by (bit_vector);
        }
        let ghost d = dev_name@;
        let ghost i = bit_index;
        if bit_value(delta, bit_index) != 0 {
            let ghost pre = events@;
            events.push(
                BitEvent {
                    dev_name: dev_name.to_owned(),
                    bit: bit_index,
                    value: bit_value(current, bit_index),
                },
            );
            proof {
                let m = BitEventModel { dev_name: d, bit: i, value: spec_bit_value(current, i) };
                assert(spec_bit_value(previous, i) != spec_bit_value(current, i));
                assert(spec_diff_from(d, previous, current, i) == seq![m] + spec_diff_from(
                    d,
                    previous,
                    current,
                    (i + 1) as u8,
                ));
                assert(models_of(events@) =~= models_of(pre) + seq![m]);
                assert(models_of(events@) + spec_diff_from(d, previous, current, (i + 1) as u8)
                    =~= models_of(pre) + spec_diff_from(d, previous, current, i));
            }
        } else {
            proof {
                assert(spec_bit_value(previous, i) == spec_bit_value(current, i));
                assert(spec_diff_from(d, previous, current, i) == spec_diff_from(
                    d,
                    previous,
                    current,
                    (i + 1) as u8,
                ));
            }
        }
        bit_index = bit_index + 1;
    }
    proof {
        assert(models_of(events@) + spec_diff_from(dev_name@, previous, current, WORD_BITS)
            =~= models_of(events@));
    }
    events
}

} // verus!
