//! Decision logic for MCP23017 port-expander devices.
//!
//! A device exposes sixteen pins through paired 8-bit registers, low byte
//! first. This module holds what the engine decides about such a device: the
//! register words written at setup, the assembly of a register word from two
//! byte reads, the output word computed from requested bit changes, and the
//! per-device poll step that diffs a fresh snapshot against the kept baseline.
//! The bus transactions themselves are carried out by the embedding program.

use vstd::prelude::*;

use crate::bitevents::{
    bit_compare, models_of, spec_bit_value, spec_diff, BitEvent, BitEventModel, WORD_BITS,
};
use crate::input::{ErrorKind, InputError};

verus! {

/// I/O direction register offset (IOCON.BANK = 0 layout).
pub const IODIR: u8 = 0x00;

/// Input polarity inversion register offset.
pub const IPOL: u8 = 0x02;

/// Pull-up enable register offset.
pub const GPPU: u8 = 0x0C;

/// Port value register offset.
pub const GPIO: u8 = 0x12;

/// One requested or observed state of a single bit after normalization:
/// a nonzero event value drives the bit to 1.
pub open spec fn normalized(value: u8) -> u8 {
    if value == 0 {
        0
    } else {
        1
    }
}

/// The word `word` with one event applied: the addressed bit is set when the
/// event's value is nonzero and cleared when it is zero.
pub open spec fn spec_apply_one(word: u16, ev: BitEventModel) -> u16 {
    if ev.value == 0 {
        word & !(1u16 << (ev.bit as u16))
    } else {
        word | (1u16 << (ev.bit as u16))
    }
}

/// The word `word` with a batch of events applied in order.
pub open spec fn spec_apply(word: u16, evs: Seq<BitEventModel>) -> u16
    decreases evs.len(),
{
    if evs.len() == 0 {
        word
    } else {
        spec_apply_one(spec_apply(word, evs.drop_last()), evs.last())
    }
}

/// The value most recently requested for `bit` by a batch of events, if any.
pub open spec fn last_requested(evs: Seq<BitEventModel>, bit: u8) -> Option<u8>
    decreases evs.len(),
{
    if evs.len() == 0 {
        Option::None
    } else if evs.last().bit == bit {
        Option::Some(evs.last().value)
    } else {
        last_requested(evs.drop_last(), bit)
    }
}

proof fn lemma_set_bit(w: u16, t: u16, b: u16)
    by (bit_vector)
    requires
        t < 16,
        b < 16,
    ensures
        t == b ==> ((w | (1u16 << t)) >> b) & 0x01 == 1,
        t != b ==> ((w | (1u16 << t)) >> b) & 0x01 == (w >> b) & 0x01,
{
}

proof fn lemma_clear_bit(w: u16, t: u16, b: u16)
    by (bit_vector)
    requires
        t < 16,
        b < 16,
    ensures
        t == b ==> ((w & !(1u16 << t)) >> b) & 0x01 == 0,
        t != b ==> ((w & !(1u16 << t)) >> b) & 0x01 == (w >> b) & 0x01,
{
}

/// How one bit of the output word relates to the batch that produced it: the
/// last event addressed to the bit decides its value, and a bit no event
/// addresses keeps the value it had in the starting word.
pub proof fn lemma_apply_bits(word: u16, evs: Seq<BitEventModel>, b: u8)
    requires
        forall|i: int| 0 <= i < evs.len() ==> (#[trigger] evs[i]).bit < WORD_BITS,
        b < WORD_BITS,
    ensures
        last_requested(evs, b) is None ==> spec_bit_value(spec_apply(word, evs), b)
            == spec_bit_value(word, b),
        last_requested(evs, b) is Some ==> spec_bit_value(spec_apply(word, evs), b) == normalized(
            last_requested(evs, b)->Some_0,
        ),
    decreases evs.len(),
{
    if evs.len() > 0 {
        lemma_apply_bits(word, evs.drop_last(), b);
        let prev = spec_apply(word, evs.drop_last());
        let e = evs.last();
        if e.value == 0 {
            lemma_clear_bit(prev, e.bit as u16, b as u16);
        } else {
            lemma_set_bit(prev, e.bit as u16, b as u16);
        }
    }
}

/// Law of the output path: applying a batch of events to a base word and then
/// diffing the result against the base reproduces exactly the requested bits.
/// Bits no event addresses keep their base value; every diff event is a
/// requested bit carrying the last value requested for it, normalized to 0 or
/// 1; and every requested bit whose normalized value differs from the base
/// appears in the diff.
pub proof fn lemma_apply_then_diff(dev_name: Seq<char>, base: u16, evs: Seq<BitEventModel>)
    requires
        forall|i: int| 0 <= i < evs.len() ==> (#[trigger] evs[i]).bit < WORD_BITS,
    ensures
        forall|b: u8|
            b < WORD_BITS && #[trigger] last_requested(evs, b) is None ==> spec_bit_value(
                spec_apply(base, evs),
                b,
            ) == spec_bit_value(base, b),
        forall|k: int|
            #![trigger spec_diff(dev_name, base, spec_apply(base, evs))[k]]
            0 <= k < spec_diff(dev_name, base, spec_apply(base, evs)).len() ==> {
                let e = spec_diff(dev_name, base, spec_apply(base, evs))[k];
                &&& last_requested(evs, e.bit) is Some
                &&& e.value == normalized(last_requested(evs, e.bit)->Some_0)
            },
        forall|b: u8|
            b < WORD_BITS && #[trigger] last_requested(evs, b) is Some && normalized(
                last_requested(evs, b)->Some_0,
            ) != spec_bit_value(base, b) ==> exists|k: int|
                #![auto]
                0 <= k < spec_diff(dev_name, base, spec_apply(base, evs)).len() && spec_diff(
                    dev_name,
                    base,
                    spec_apply(base, evs),
                )[k].bit == b && spec_diff(dev_name, base, spec_apply(base, evs))[k].value
                    == normalized(last_requested(evs, b)->Some_0),
{
    let out = spec_apply(base, evs);
    let d = spec_diff(dev_name, base, out);
    crate::bitevents::lemma_diff_exact(dev_name, base, out);
    assert forall|b: u8| b < WORD_BITS implies {
        &&& (last_requested(evs, b) is None ==> spec_bit_value(out, b) == spec_bit_value(base, b))
        &&& (last_requested(evs, b) is Some ==> spec_bit_value(out, b) == normalized(
            last_requested(evs, b)->Some_0,
        ))
    } by {
        lemma_apply_bits(base, evs, b);
    }
    assert forall|k: int| 0 <= k < d.len() implies {
        let e = #[trigger] d[k];
        &&& last_requested(evs, e.bit) is Some
        &&& e.value == normalized(last_requested(evs, e.bit)->Some_0)
    } by {
        let e = d[k];
        assert(spec_bit_value(base, e.bit) != spec_bit_value(out, e.bit));
    }
    assert forall|b: u8|
        b < WORD_BITS && #[trigger] last_requested(evs, b) is Some && normalized(
            last_requested(evs, b)->Some_0,
        ) != spec_bit_value(base, b) implies exists|k: int|
        #![auto]
        0 <= k < d.len() && d[k].bit == b && d[k].value == normalized(
            last_requested(evs, b)->Some_0,
        ) by {
        assert(spec_bit_value(out, b) == normalized(last_requested(evs, b)->Some_0));
        assert(spec_bit_value(base, b) != spec_bit_value(out, b));
        let k0 = choose|k: int| 0 <= k < d.len() && #[trigger] d[k].bit == b;
        assert(d[k0].value == spec_bit_value(out, b));
        assert(0 <= k0 < d.len() && d[k0].bit == b && d[k0].value == normalized(
            last_requested(evs, b)->Some_0,
        ));
    }
}

/// Applies a batch of requested bit changes to a register word read from a
/// device, against that single snapshot: later events win over earlier ones
/// on the same bit, and unaddressed bits keep their snapshot value.
pub fn compute_new_values(current_value: u16, bits: &[BitEvent]) -> (r: u16)
    requires
        forall|i: int| 0 <= i < bits@.len() ==> (#[trigger] bits@[i]).bit < WORD_BITS,
    ensures
        r == spec_apply(current_value, models_of(bits@)),
{
    let mut value = current_value;
    let mut i: usize = 0;
    while i < bits.len()
        invariant
            i <= bits@.len(),
            forall|k: int| 0 <= k < bits@.len() ==> (#[trigger] bits@[k]).bit < WORD_BITS,
            value == spec_apply(current_value, models_of(bits@).take(i as int)),
        decreases bits@.len() - i,
    {
        let ghost pre = models_of(bits@).take(i as int);
        let bit = bits[i].bit;
        let event_value = bits[i].value;
        if event_value == 0 {
            value = value & !(1u16 << (bit as u16));
        } else {
            value = value | (1u16 << (bit as u16));
        }
        proof {
            assert(models_of(bits@).take(i + 1).drop_last() =~= pre);
            assert(models_of(bits@).take(i + 1).last() == bits@[i as int]@);
        }
        i = i + 1;
    }
    proof {
        assert(models_of(bits@).take(bits@.len() as int) =~= models_of(bits@));
    }
    value
}

/// Static description of one device: where it sits on the bus and how its
/// pins are configured. Built from external configuration before setup and
/// never changed afterwards.
#[derive(Clone, Debug)]
pub struct DeviceConfig {
    pub dev_path: String,
    pub dev_name: String,
    pub address: u16,
    pub polarity_mask: u16,
    pub direction_mask: u16,
}

/// A device configuration record that could not be understood.
#[derive(Debug)]
pub struct DeviceConfigParseErr(pub String);

/// The register writes that configure one device, in order: direction mask
/// to the direction register, direction mask to the pull-up register (so
/// every input pin is pulled up), and the complement of the polarity mask to
/// the polarity register (so bits marked active-low read as logical-active
/// when physically asserted).
pub fn setup_writes(config: &DeviceConfig) -> (r: Vec<(u8, u16)>)
    ensures
        r@.len() == 3,
        r@[0] == (IODIR, config.direction_mask),
        r@[1] == (GPPU, config.direction_mask),
        r@[2] == (IPOL, !config.polarity_mask),
{
    let mut writes: Vec<(u8, u16)> = Vec::new();
    writes.push((IODIR, config.direction_mask));
    writes.push((GPPU, config.direction_mask));
    writes.push((IPOL, !config.polarity_mask));
    writes
}

/// Assembles one 16-bit register word from the two 8-bit port reads, low
/// byte first.
pub fn word_from_bytes(low: u8, high: u8) -> (r: u16)
    ensures
        r == (low as u16) | ((high as u16) << 8u16),
        r == low + high * 256,
{
    proof {
        let l = low as u16;
        let h = high as u16;
        assert(l < 256 && h < 256 ==> (l | (h << 8u16)) == l + h * 256) by (bit_vector);
    }
    (low as u16) | ((high as u16) << 8u16)
}

/// What the engine keeps per device between poll cycles: the device's name
/// and the last snapshot it saw, the baseline of the next diff.
#[derive(Clone, Debug)]
pub struct DeviceState {
    pub dev_name: String,
    pub previous: u16,
}

/// Mathematical image of a [`DeviceState`].
pub struct DeviceStateModel {
    pub dev_name: Seq<char>,
    pub previous: u16,
}

impl View for DeviceState {
    type V = DeviceStateModel;

    open spec fn view(&self) -> DeviceStateModel {
        DeviceStateModel { dev_name: self.dev_name@, previous: self.previous }
    }
}

/// The models of a sequence of device states.
pub open spec fn device_models(s: Seq<DeviceState>) -> Seq<DeviceStateModel> {
    s.map_values(|d: DeviceState| d@)
}

impl DeviceState {
    /// A device state seeded with a baseline snapshot, as read once at setup
    /// so that a restart never reports inputs that were already asserted.
    pub fn new(dev_name: String, baseline: u16) -> (r: DeviceState)
        ensures
            r@.dev_name == dev_name@,
            r@.previous == baseline,
    {
        DeviceState { dev_name, previous: baseline }
    }

    /// One poll step of this device: diffs a fresh snapshot against the kept
    /// baseline and replaces the baseline with the snapshot.
    pub fn poll_input(&mut self, current: u16) -> (r: Vec<BitEvent>)
        ensures
            models_of(r@) == spec_diff(old(self)@.dev_name, old(self)@.previous, current),
            final(self)@.dev_name == old(self)@.dev_name,
            final(self)@.previous == current,
    {
        let events = bit_compare(self.dev_name.as_str(), self.previous, current);
        self.previous = current;
        events
    }
}

/// The events one whole poll cycle owes: each device's diff against its
/// baseline, concatenated in device enumeration order.
pub open spec fn spec_cycle_events(devs: Seq<DeviceStateModel>, currents: Seq<u16>) -> Seq<
    BitEventModel,
>
    decreases devs.len(),
{
    if devs.len() == 0 {
        Seq::empty()
    } else {
        let j = devs.len() - 1;
        spec_cycle_events(devs.drop_last(), currents.drop_last()) + spec_diff(
            devs[j].dev_name,
            devs[j].previous,
            currents[j],
        )
    }
}

/// The poll-and-output engine's view of a panel: the ordered devices with
/// their baselines. The embedding program owns the bus handles in the same
/// order and feeds snapshots in and register words out.
pub struct PanelState {
    devices: Vec<DeviceState>,
}

impl View for PanelState {
    type V = Seq<DeviceStateModel>;

    closed spec fn view(&self) -> Seq<DeviceStateModel> {
        device_models(self.devices@)
    }
}

impl PanelState {
    /// A panel over the given devices, in enumeration order.
    pub fn new(devices: Vec<DeviceState>) -> (r: PanelState)
        ensures
            r@ == device_models(devices@),
    {
        PanelState { devices }
    }

    /// The number of devices on the panel.
    pub fn device_count(&self) -> (r: usize)
        ensures
            r == self@.len(),
    {
        self.devices.len()
    }

    /// The name of one device.
    pub fn device_name(&self, dev_index: usize) -> (r: &str)
        requires
            dev_index < self@.len(),
        ensures
            r@ == self@[dev_index as int].dev_name,
    {
        self.devices[dev_index].dev_name.as_str()
    }

    /// The baseline snapshot currently kept for one device.
    pub fn baseline(&self, dev_index: usize) -> (r: u16)
        requires
            dev_index < self@.len(),
        ensures
            r == self@[dev_index as int].previous,
    {
        self.devices[dev_index].previous
    }

    /// One whole poll cycle's decision step: given a successful read of every
    /// device, emits each device's transitions in device order then bit
    /// order, and replaces every baseline with the snapshot just read. The
    /// caller must not hand over a partially failed read: on a bus failure
    /// the cycle is abandoned and no baseline moves.
    pub fn process_snapshots(&mut self, currents: &[u16]) -> (r: Vec<BitEvent>)
        requires
            currents@.len() == old(self)@.len(),
        ensures
            models_of(r@) == spec_cycle_events(old(self)@, currents@),
            final(self)@.len() == old(self)@.len(),
            forall|k: int|
                0 <= k < final(self)@.len() ==> #[trigger] final(self)@[k].dev_name == old(
                    self,
                )@[k].dev_name && final(self)@[k].previous == currents@[k],
    {
        let ghost orig = self@;
        let mut events: Vec<BitEvent> = Vec::new();
        let mut i: usize = 0;
        while i < self.devices.len()
            invariant
                i <= self.devices@.len(),
                self.devices@.len() == orig.len(),
                currents@.len() == orig.len(),
                forall|k: int|
                    i <= k < orig.len() ==> #[trigger] self.devices@[k]@ == orig[k],
                forall|k: int|
                    0 <= k < i ==> #[trigger] self.devices@[k]@.dev_name == orig[k].dev_name
                        && self.devices@[k]@.previous == currents@[k],
                models_of(events@) =~= spec_cycle_events(orig.take(i as int), currents@.take(i as int)),
            decreases self.devices@.len() - i,
        {
            let ghost pre = models_of(events@);
            let current = currents[i];
            let mut batch = self.devices[i].poll_input(current);
            events.append(&mut batch);
            proof {
                let t1 = orig.take(i + 1);
                assert(t1.drop_last() =~= orig.take(i as int));
                assert(currents@.take(i + 1).drop_last() =~= currents@.take(i as int));
                assert(t1[i as int] == orig[i as int]);
                assert(models_of(events@) =~= pre + spec_diff(
                    orig[i as int].dev_name,
                    orig[i as int].previous,
                    current,
                ));
            }
            i = i + 1;
        }
        proof {
            assert(orig.take(orig.len() as int) =~= orig);
            assert(currents@.take(orig.len() as int) =~= currents@);
        }
        events
    }

    /// Checks an output request before any bus transaction: the addressed
    /// device must exist and every requested bit must lie inside the register
    /// word. A request that fails the check causes no bus read or write.
    pub fn check_output_request(&self, dev_index: usize, bits: &[BitEvent]) -> (r: Result<
        (),
        InputError,
    >)
        ensures
            r is Ok <==> (dev_index < self@.len() && forall|k: int|
                0 <= k < bits@.len() ==> (#[trigger] bits@[k]).bit < WORD_BITS),
            r is Err ==> r->Err_0@.kind == ErrorKind::InvalidIndex,
            dev_index >= self@.len() ==> r is Err,
    {
        if dev_index >= self.devices.len() {
            return Err(
                InputError::with_kind(ErrorKind::InvalidIndex, "invalid device index".to_owned()),
            );
        }
        let mut k: usize = 0;
        while k < bits.len()
            invariant
                k <= bits@.len(),
                forall|j: int| 0 <= j < k ==> (#[trigger] bits@[j]).bit < WORD_BITS,
            decreases bits@.len() - k,
        {
            if bits[k].bit >= WORD_BITS {
                return Err(
                    InputError::with_kind(
                        ErrorKind::InvalidIndex,
                        "bit event outside the register word".to_owned(),
                    ),
                );
            }
            k = k + 1;
        }
        Ok(())
    }
}

} // verus!
