//! The line-oriented text simulation protocol.
//!
//! Without hardware attached, the engine is driven by text lines instead of
//! bus reads. One line carries one batch: comma-separated transitions, each
//! written `device_name:bit_index:value` with `bit_index` a decimal byte and
//! `value` 0 or 1. A malformed line is rejected as a whole and rejects
//! nothing else: the background reader that feeds lines in (owned by the
//! embedding program) keeps running. No diffing happens here; every parsed
//! transition is emitted directly as an event.

use vstd::prelude::*;

use crate::bitevents::{models_of, BitEvent, BitEventModel};
use crate::input::{ErrorKind, InputError};
use crate::parse::{digits_val, is_digits, parse_u8, spec_split, split_on, views_of};

verus! {

/// Whether one `device:bit:value` field group is well-formed: exactly three
/// colon-separated fields, a bit index that fits in a byte, and a value of 0
/// or 1.
pub open spec fn spec_transition_ok(t: Seq<char>) -> bool {
    let p = spec_split(t, ':');
    &&& p.len() == 3
    &&& is_digits(p[1])
    &&& digits_val(p[1]) <= 255
    &&& is_digits(p[2])
    &&& digits_val(p[2]) <= 1
}

/// The event a well-formed transition denotes.
pub open spec fn spec_transition_event(t: Seq<char>) -> BitEventModel {
    let p = spec_split(t, ':');
    BitEventModel {
        dev_name: p[0],
        bit: digits_val(p[1]) as u8,
        value: digits_val(p[2]) as u8,
    }
}

/// Whether a whole line is well-formed: every comma-separated transition is.
pub open spec fn spec_line_ok(l: Seq<char>) -> bool {
    forall|i: int|
        0 <= i < spec_split(l, ',').len() ==> spec_transition_ok(#[trigger] spec_split(l, ',')[i])
}

/// The batch of events a well-formed line denotes, in line order.
pub open spec fn spec_line_events(l: Seq<char>) -> Seq<BitEventModel> {
    spec_split(l, ',').map_values(|t: Seq<char>| spec_transition_event(t))
}

/// Parses one line of the simulation protocol into a batch of events.
/// Succeeds exactly on well-formed lines; a failure carries a parse error and
/// rejects only this line.
pub fn parse_event_line(line: &str) -> (r: Result<Vec<BitEvent>, InputError>)
    ensures
        r is Ok <==> spec_line_ok(line@),
        r is Ok ==> models_of(r->Ok_0@) == spec_line_events(line@),
        r is Err ==> r->Err_0@.kind == ErrorKind::Parse,
{
    let transitions = split_on(line, ',');
    let ghost split = spec_split(line@, ',');
    let mut events: Vec<BitEvent> = Vec::new();
    let mut i: usize = 0;
    while i < transitions.len()
        invariant
            views_of(transitions@) == split,
            split == spec_split(line@, ','),
            i <= transitions@.len(),
            forall|k: int| 0 <= k < i ==> spec_transition_ok(#[trigger] split[k]),
            models_of(events@) =~= spec_line_events(line@).take(i as int),
        decreases transitions@.len() - i,
    {
        let t = transitions[i];
        proof {
            assert(t@ == split[i as int]);
        }
        let parts = split_on(t, ':');
        if parts.len() != 3 {
            proof {
                assert(!spec_transition_ok(split[i as int]));
            }
            return Err(InputError::from_str("transition needs device, bit and value fields"));
        }
        let bit = match parse_u8(parts[1]) {
            Ok(b) => b,
            Err(e) => {
                proof {
                    assert(!spec_transition_ok(split[i as int]));
                }
                return Err(e);
            },
        };
        let value = match parse_u8(parts[2]) {
            Ok(v) => v,
            Err(e) => {
                proof {
                    assert(!spec_transition_ok(split[i as int]));
                }
                return Err(e);
            },
        };
        if value > 1 {
            proof {
                assert(!spec_transition_ok(split[i as int]));
            }
            return Err(InputError::from_str("transition value must be 0 or 1"));
        }
        let ghost pre = models_of(events@);
        events.push(BitEvent { dev_name: parts[0].to_owned(), bit, value });
        proof {
            assert(events@.last()@ == spec_transition_event(split[i as int]));
            assert(models_of(events@) =~= pre + seq![events@.last()@]);
            assert(spec_line_events(line@).take(i + 1) =~= spec_line_events(line@).take(i as int)
                + seq![spec_line_events(line@)[i as int]]);
        }
        i = i + 1;
    }
    proof {
        assert(spec_line_events(line@).take(transitions@.len() as int) =~= spec_line_events(
            line@,
        ));
    }
    Ok(events)
}

} // verus!
