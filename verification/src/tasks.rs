//! The steady-state task programs of the controller: the LED blinker and the
//! display refresher, written as operation sequences for the cooperative
//! scheduler. Each endless loop holds a suspension point in every iteration,
//! as every task of this system must.

use vstd::prelude::*;
use crate::partition::Bundle;
use crate::sched::{prog_confined, Op};

verus! {

/// How long each blink phase (LED held high, LED held low) lasts.
pub const BLINK_PHASE_TICKS: u64 = 1000;

/// How long the display shows each color before the next clear.
pub const DISPLAY_PHASE_TICKS: u64 = 1000;

/// Diagnostic codes for the log lines the tasks emit.
pub const NOTE_LED_ON: u32 = 1;

pub const NOTE_LED_OFF: u32 = 2;

pub const NOTE_SHOW_RED: u32 = 3;

pub const NOTE_SHOW_BLUE: u32 = 4;

pub const NOTE_SHOW_GREEN: u32 = 5;

/// Packed 16-bit colors the display task cycles through.
pub const COLOR_BLUE: u16 = 0x001F;

pub const COLOR_GREEN: u16 = 0x07E0;

/// The blink task's loop body: drive the pin high, log the transition, hold
/// one phase, drive it low, log the transition, hold one phase; repeated
/// forever by the scheduler.
pub open spec fn blink_program_spec(pin: u32) -> Seq<Op> {
    seq![
        Op::SetHigh { pin },
        Op::Note { code: NOTE_LED_ON },
        Op::Await { ticks: BLINK_PHASE_TICKS },
        Op::SetLow { pin },
        Op::Note { code: NOTE_LED_OFF },
        Op::Await { ticks: BLINK_PHASE_TICKS },
    ]
}

/// Build the blink program for the given output pin.
pub fn blink_program(pin: u32) -> (p: Vec<Op>)
    ensures
        p@ == blink_program_spec(pin),
        p@.len() > 0,
{
    let mut p: Vec<Op> = Vec::new();
    p.push(Op::SetHigh { pin });
    p.push(Op::Note { code: NOTE_LED_ON });
    p.push(Op::Await { ticks: BLINK_PHASE_TICKS });
    p.push(Op::SetLow { pin });
    p.push(Op::Note { code: NOTE_LED_OFF });
    p.push(Op::Await { ticks: BLINK_PHASE_TICKS });
    proof {
        assert(p@ =~= blink_program_spec(pin));
    }
    p
}

/// The blink program touches no resource but its own pin, so it is legal for
/// any bundle that owns that pin as a digital output.
pub proof fn lemma_blink_confined(pin: u32, b: Bundle)
    requires
        b.owns_output(pin),
    ensures
        prog_confined(blink_program_spec(pin), b),
{
}

/// The display task's loop body: log the current color, hold one phase, then
/// clear to the next color and log it; cycling red, blue, green forever.
pub open spec fn display_program_spec() -> Seq<Op> {
    seq![
        Op::Note { code: NOTE_SHOW_RED },
        Op::Await { ticks: DISPLAY_PHASE_TICKS },
        Op::ClearDisplay { color: COLOR_BLUE },
        Op::Note { code: NOTE_SHOW_BLUE },
        Op::Await { ticks: DISPLAY_PHASE_TICKS },
        Op::ClearDisplay { color: COLOR_GREEN },
        Op::Note { code: NOTE_SHOW_GREEN },
        Op::Await { ticks: DISPLAY_PHASE_TICKS },
    ]
}

/// Build the display refresher program.
pub fn display_program() -> (p: Vec<Op>)
    ensures
        p@ == display_program_spec(),
        p@.len() > 0,
{
    let mut p: Vec<Op> = Vec::new();
    p.push(Op::Note { code: NOTE_SHOW_RED });
    p.push(Op::Await { ticks: DISPLAY_PHASE_TICKS });
    p.push(Op::ClearDisplay { color: COLOR_BLUE });
    p.push(Op::Note { code: NOTE_SHOW_BLUE });
    p.push(Op::Await { ticks: DISPLAY_PHASE_TICKS });
    p.push(Op::ClearDisplay { color: COLOR_GREEN });
    p.push(Op::Note { code: NOTE_SHOW_GREEN });
    p.push(Op::Await { ticks: DISPLAY_PHASE_TICKS });
    proof {
        assert(p@ =~= display_program_spec());
    }
    p
}

/// The display program drives no pins at all, so it is legal for any bundle.
pub proof fn lemma_display_confined(b: Bundle)
    ensures
        prog_confined(display_program_spec(), b),
{
}

} // verus!
