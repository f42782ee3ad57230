//! The event dispatcher: routing batches of events to registered handlers.
//!
//! A handler is registered under a (device name, bit) key; a reserved default
//! key catches events with no exact match. Handlers here are explicit data —
//! a name and the sounds to play on each transition direction — exposing a
//! pure decision per event; carrying the decisions out (playing the sound) is
//! the embedding program's part. Dispatch is synchronous and keeps batch
//! order: device enumeration order, then bit order within a device.

use vstd::prelude::*;

use crate::bitevents::{models_of, BitEvent, BitEventModel};

verus! {

/// The key under which the fallback handler is registered: the reserved
/// device name and bit 0.
pub fn default_handler_event() -> (r: (String, u8))
    ensures
        r.0@ == crate::DEFAULT_NAME@,
        r.1 == 0,
{
    (crate::DEFAULT_NAME.to_owned(), 0)
}

/// The handler map key that catches events with no exact match.
pub open spec fn spec_default_key() -> (Seq<char>, u8) {
    (crate::DEFAULT_NAME@, 0)
}

/// A sound file to play: its path and the volume to play it at.
#[derive(Debug, PartialEq)]
pub struct SoundFile {
    pub path: String,
    pub volume: i32,
}

/// Mathematical image of a [`SoundFile`].
pub struct SoundFileModel {
    pub path: Seq<char>,
    pub volume: int,
}

impl View for SoundFile {
    type V = SoundFileModel;

    open spec fn view(&self) -> SoundFileModel {
        SoundFileModel { path: self.path@, volume: self.volume as int }
    }
}

impl SoundFile {
    /// An owned copy of this sound file record.
    pub fn duplicate(&self) -> (r: SoundFile)
        ensures
            r@ == self@,
    {
        SoundFile { path: self.path.clone(), volume: self.volume }
    }
}

/// One registered handler: its name and the sound, if any, for each
/// transition direction.
#[derive(Debug)]
pub struct EventHandler {
    pub name: String,
    pub on_sound: Option<SoundFile>,
    pub off_sound: Option<SoundFile>,
}

/// Mathematical image of an [`EventHandler`].
pub struct EventHandlerModel {
    pub name: Seq<char>,
    pub on_sound: Option<SoundFileModel>,
    pub off_sound: Option<SoundFileModel>,
}

/// The model of an optional sound file.
pub open spec fn sound_model(s: Option<SoundFile>) -> Option<SoundFileModel> {
    match s {
        Option::None => Option::None,
        Option::Some(f) => Option::Some(f@),
    }
}

impl View for EventHandler {
    type V = EventHandlerModel;

    open spec fn view(&self) -> EventHandlerModel {
        EventHandlerModel {
            name: self.name@,
            on_sound: sound_model(self.on_sound),
            off_sound: sound_model(self.off_sound),
        }
    }
}

/// The sound a handler plays for an event value: the on-sound for 1, the
/// off-sound for 0, nothing for any other value.
pub open spec fn spec_sound_for(h: EventHandlerModel, value: u8) -> Option<SoundFileModel> {
    if value == 1 {
        h.on_sound
    } else if value == 0 {
        h.off_sound
    } else {
        Option::None
    }
}

impl EventHandler {
    /// A handler playing `on_sound` when its input turns on and `off_sound`
    /// when it turns off.
    pub fn new(name: String, on_sound: Option<SoundFile>, off_sound: Option<SoundFile>) -> (r:
        EventHandler)
        ensures
            r@.name == name@,
            r@.on_sound == sound_model(on_sound),
            r@.off_sound == sound_model(off_sound),
    {
        EventHandler { name, on_sound, off_sound }
    }

    /// The sound this handler plays for an event value, if any.
    pub fn sound_for(&self, value: u8) -> (r: Option<&SoundFile>)
        ensures
            r is Some <==> spec_sound_for(self@, value) is Some,
            r is Some ==> r->Some_0@ == spec_sound_for(self@, value)->Some_0,
    {
        if value == 1 {
            self.on_sound.as_ref()
        } else if value == 0 {
            self.off_sound.as_ref()
        } else {
            None
        }
    }
}

#[derive(Debug)]
struct HandlerEntry {
    name: String,
    bit: u8,
    handler: EventHandler,
}

spec fn entry_key(e: HandlerEntry) -> (Seq<char>, u8) {
    (e.name@, e.bit)
}

spec fn map_of(entries: Seq<HandlerEntry>) -> Map<(Seq<char>, u8), EventHandlerModel>
    decreases entries.len(),
{
    if entries.len() == 0 {
        Map::empty()
    } else {
        map_of(entries.drop_last()).insert(entry_key(entries.last()), entries.last().handler@)
    }
}

proof fn lemma_map_of_contains(entries: Seq<HandlerEntry>, k: (Seq<char>, u8))
    ensures
        map_of(entries).contains_key(k) <==> exists|i: int|
            0 <= i < entries.len() && entry_key(#[trigger] entries[i]) == k,
    decreases entries.len(),
{
    if entries.len() > 0 {
        lemma_map_of_contains(entries.drop_last(), k);
        if entry_key(entries.last()) == k {
            assert(entry_key(entries[entries.len() - 1]) == k);
        } else if map_of(entries).contains_key(k) {
            let i = choose|i: int|
                0 <= i < entries.drop_last().len() && entry_key(
                    #[trigger] entries.drop_last()[i],
                ) == k;
            assert(entry_key(entries[i]) == k);
        } else {
            assert forall|i: int|
                0 <= i < entries.len() && entry_key(#[trigger] entries[i]) == k implies false by {
                if i < entries.len() - 1 {
                    assert(entry_key(entries.drop_last()[i]) == k);
                }
            }
        }
    }
}

proof fn lemma_map_of_index(entries: Seq<HandlerEntry>, i: int)
    requires
        0 <= i < entries.len(),
        forall|j: int| i < j < entries.len() ==> entry_key(#[trigger] entries[j]) != entry_key(
            entries[i],
        ),
    ensures
        map_of(entries).contains_key(entry_key(entries[i])),
        map_of(entries)[entry_key(entries[i])] == entries[i].handler@,
    decreases entries.len(),
{
    if i == entries.len() - 1 {
    } else {
        assert(entries.drop_last()[i] == entries[i]);
        assert forall|j: int|
            i < j < entries.drop_last().len() implies entry_key(
            #[trigger] entries.drop_last()[j],
        ) != entry_key(entries.drop_last()[i]) by {
            assert(entries.drop_last()[j] == entries[j]);
        }
        lemma_map_of_index(entries.drop_last(), i);
        assert(entry_key(entries.last()) != entry_key(entries[i]));
    }
}

/// The registry mapping a (device name, bit) key to its handler. Built once
/// at startup and read-only during the run; registering a key twice is
/// permitted, and the last registration wins.
#[derive(Debug)]
pub struct HandlerMap {
    entries: Vec<HandlerEntry>,
}

impl View for HandlerMap {
    type V = Map<(Seq<char>, u8), EventHandlerModel>;

    closed spec fn view(&self) -> Map<(Seq<char>, u8), EventHandlerModel> {
        map_of(self.entries@)
    }
}

impl HandlerMap {
    /// An empty registry.
    pub fn new() -> (r: HandlerMap)
        ensures
            r@ == Map::<(Seq<char>, u8), EventHandlerModel>::empty(),
    {
        HandlerMap { entries: Vec::new() }
    }

    /// Registers `handler` under `(name, bit)`, replacing any earlier
    /// registration of that key. Returns whether the key was already
    /// registered, so that the loader can warn about a redefinition.
    pub fn insert(&mut self, name: String, bit: u8, handler: EventHandler) -> (replaced: bool)
        ensures
            final(self)@ == old(self)@.insert((name@, bit), handler@),
            replaced == old(self)@.contains_key((name@, bit)),
    {
        let replaced = self.contains_key(&name, bit);
        self.entries.push(HandlerEntry { name, bit, handler });
        proof {
            assert(self.entries@.drop_last() =~= old(self).entries@);
        }
        replaced
    }

    /// Whether a handler is registered under `(name, bit)`.
    pub fn contains_key(&self, name: &String, bit: u8) -> (r: bool)
        ensures
            r == self@.contains_key((name@, bit)),
    {
        proof {
            lemma_map_of_contains(self.entries@, (name@, bit));
        }
        let mut i: usize = 0;
        while i < self.entries.len()
            invariant
                i <= self.entries@.len(),
                forall|k: int|
                    0 <= k < i ==> entry_key(#[trigger] self.entries@[k]) != (name@, bit),
            decreases self.entries@.len() - i,
        {
            if self.entries[i].name == *name && self.entries[i].bit == bit {
                proof {
                    lemma_map_of_contains(self.entries@, (name@, bit));
                    assert(entry_key(self.entries@[i as int]) == (name@, bit));
                }
                return true;
            }
            i = i + 1;
        }
        false
    }

    /// The handler registered under `(name, bit)`, if any: the latest
    /// registration of the key.
    pub fn get(&self, name: &String, bit: u8) -> (r: Option<&EventHandler>)
        ensures
            r is Some <==> self@.contains_key((name@, bit)),
            r is Some ==> r->Some_0@ == self@[(name@, bit)],
    {
        proof {
            lemma_map_of_contains(self.entries@, (name@, bit));
        }
        let mut i: usize = self.entries.len();
        while i > 0
            invariant
                i <= self.entries@.len(),
                forall|k: int|
                    i <= k < self.entries@.len() ==> entry_key(#[trigger] self.entries@[k]) != (
                    name@,
                    bit,
                ),
            decreases i,
        {
            i = i - 1;
            if self.entries[i].name == *name && self.entries[i].bit == bit {
                proof {
                    lemma_map_of_contains(self.entries@, (name@, bit));
                    lemma_map_of_index(self.entries@, i as int);
                }
                return Some(&self.entries[i].handler);
            }
        }
        None
    }
}

/// The handler an event resolves to: the exact key if registered, else the
/// default key if registered, else none.
pub open spec fn spec_lookup(
    m: Map<(Seq<char>, u8), EventHandlerModel>,
    dev_name: Seq<char>,
    bit: u8,
) -> Option<EventHandlerModel> {
    if m.contains_key((dev_name, bit)) {
        Option::Some(m[(dev_name, bit)])
    } else if m.contains_key(spec_default_key()) {
        Option::Some(m[spec_default_key()])
    } else {
        Option::None
    }
}

/// One handler invocation: which handler fired, with what event value, and
/// the sound it asks the embedding program to play.
#[derive(Debug)]
pub struct Firing {
    pub handler_name: String,
    pub value: u8,
    pub sound: Option<SoundFile>,
}

/// Mathematical image of a [`Firing`].
pub struct FiringModel {
    pub handler_name: Seq<char>,
    pub value: u8,
    pub sound: Option<SoundFileModel>,
}

impl View for Firing {
    type V = FiringModel;

    open spec fn view(&self) -> FiringModel {
        FiringModel {
            handler_name: self.handler_name@,
            value: self.value,
            sound: sound_model(self.sound),
        }
    }
}

/// The models of a sequence of firings.
pub open spec fn firing_models(s: Seq<Firing>) -> Seq<FiringModel> {
    s.map_values(|f: Firing| f@)
}

/// The firing one resolved handler owes one event.
pub open spec fn firing_of(h: EventHandlerModel, e: BitEventModel) -> FiringModel {
    FiringModel { handler_name: h.name, value: e.value, sound: spec_sound_for(h, e.value) }
}

/// The firings a batch of events owes, in batch order: one per event that
/// resolves to a handler, none for an event that resolves to nothing.
pub open spec fn spec_firings(
    m: Map<(Seq<char>, u8), EventHandlerModel>,
    evs: Seq<BitEventModel>,
) -> Seq<FiringModel>
    decreases evs.len(),
{
    if evs.len() == 0 {
        Seq::empty()
    } else {
        spec_firings(m, evs.drop_last()) + match spec_lookup(
            m,
            evs.last().dev_name,
            evs.last().bit,
        ) {
            Option::None => Seq::empty(),
            Option::Some(h) => seq![firing_of(h, evs.last())],
        }
    }
}

/// The dispatcher: owns the handler registry and routes each batch through
/// it, synchronously and in batch order.
pub struct Simulator {
    handlers: HandlerMap,
}

impl View for Simulator {
    type V = Map<(Seq<char>, u8), EventHandlerModel>;

    closed spec fn view(&self) -> Map<(Seq<char>, u8), EventHandlerModel> {
        self.handlers@
    }
}

impl Simulator {
    /// A dispatcher over a registry built at startup.
    pub fn new(handlers: HandlerMap) -> (r: Simulator)
        ensures
            r@ == handlers@,
    {
        Simulator { handlers }
    }

    /// Routes one batch: for each event in order, the exact handler if its
    /// key is registered, else the default handler, else nothing — a missing
    /// mapping skips the event and never aborts the batch. Returns the
    /// firings for the embedding program to carry out.
    pub fn process(&self, events: &[BitEvent]) -> (r: Vec<Firing>)
        ensures
            firing_models(r@) == spec_firings(self@, models_of(events@)),
    {
        let mut firings: Vec<Firing> = Vec::new();
        let mut i: usize = 0;
        while i < events.len()
            invariant
                i <= events@.len(),
                firing_models(firings@) =~= spec_firings(self@, models_of(events@).take(i as int)),
            decreases events@.len() - i,
        {
            let event = &events[i];
            let exact = self.handlers.get(&event.dev_name, event.bit);
            let target = match exact {
                Some(h) => Some(h),
                None => {
                    let (default_name, default_bit) = default_handler_event();
                    self.handlers.get(&default_name, default_bit)
                },
            };
            let ghost pre = firing_models(firings@);
            let ghost contribution = match spec_lookup(self@, event@.dev_name, event@.bit) {
                Option::None => Seq::<FiringModel>::empty(),
                Option::Some(h) => seq![firing_of(h, event@)],
            };
            if let Some(handler) = target {
                let sound = match handler.sound_for(event.value) {
                    None => None,
                    Some(s) => Some(s.duplicate()),
                };
                firings.push(
                    Firing { handler_name: handler.name.clone(), value: event.value, sound },
                );
                proof {
                    assert(firings@.last()@ == firing_of(
                        spec_lookup(self@, event@.dev_name, event@.bit)->Some_0,
                        event@,
                    ));
                    assert(firing_models(firings@) =~= pre + contribution);
                }
            }
            proof {
                assert(models_of(events@).take(i + 1).drop_last() =~= models_of(events@).take(
                    i as int,
                ));
                assert(models_of(events@).take(i + 1).last() == event@);
                assert(firing_models(firings@) =~= spec_firings(
                    self@,
                    models_of(events@).take(i + 1),
                ));
            }
            i = i + 1;
        }
        proof {
            assert(models_of(events@).take(events@.len() as int) =~= models_of(events@));
        }
        firings
    }
}

/// Law of dispatch resolution, for a single event: an event whose exact key
/// is registered fires exactly that handler with the event's value; an event
/// with no exact key but a registered default fires the default handler; an
/// event with neither fires nothing.
pub proof fn lemma_dispatch_single(m: Map<(Seq<char>, u8), EventHandlerModel>, e: BitEventModel)
    ensures
        m.contains_key((e.dev_name, e.bit)) ==> spec_firings(m, seq![e]) == seq![
            firing_of(m[(e.dev_name, e.bit)], e),
        ],
        !m.contains_key((e.dev_name, e.bit)) && m.contains_key(spec_default_key())
            ==> spec_firings(m, seq![e]) == seq![firing_of(m[spec_default_key()], e)],
        !m.contains_key((e.dev_name, e.bit)) && !m.contains_key(spec_default_key())
            ==> spec_firings(m, seq![e]) == Seq::<FiringModel>::empty(),
{
    let s = seq![e];
    assert(s.last() == e);
    assert(s.drop_last() =~= Seq::<BitEventModel>::empty());
    assert(spec_firings(m, Seq::<BitEventModel>::empty()) == Seq::<FiringModel>::empty());
    assert(spec_firings(m, s.drop_last()) == Seq::<FiringModel>::empty());
    if m.contains_key((e.dev_name, e.bit)) {
        assert(spec_firings(m, s) =~= seq![firing_of(m[(e.dev_name, e.bit)], e)]);
    } else if m.contains_key(spec_default_key()) {
        assert(spec_firings(m, s) =~= seq![firing_of(m[spec_default_key()], e)]);
    } else {
        assert(spec_firings(m, s) =~= Seq::<FiringModel>::empty());
    }
}

/// Law of batch order: dispatching a concatenation of batches yields the
/// firings of the first batch followed by those of the second, so handlers
/// fire strictly in the order their events appear.
pub proof fn lemma_dispatch_concat(
    m: Map<(Seq<char>, u8), EventHandlerModel>,
    evs1: Seq<BitEventModel>,
    evs2: Seq<BitEventModel>,
)
    ensures
        spec_firings(m, evs1 + evs2) == spec_firings(m, evs1) + spec_firings(m, evs2),
    decreases evs2.len(),
{
    if evs2.len() == 0 {
        assert(evs1 + evs2 =~= evs1);
        assert(spec_firings(m, evs1) + spec_firings(m, evs2) =~= spec_firings(m, evs1));
    } else {
        lemma_dispatch_concat(m, evs1, evs2.drop_last());
        let whole = evs1 + evs2;
        assert(whole.drop_last() =~= evs1 + evs2.drop_last());
        assert(whole.last() == evs2.last());
        assert(spec_firings(m, evs1 + evs2) =~= spec_firings(m, evs1) + spec_firings(m, evs2));
    }
}

} // verus!
