//! The display bring-up sequence: a fixed, timing-sensitive order of hardware
//! initialization steps that must be completed before steady-state operation.
//!
//! The external panel requires its power and control lines asserted before
//! any bus activity, the data bus constructed before the reset pulse, the
//! reset line held for a minimum time, and only then the protocol-level
//! configuration commands. The order is enforced by the state machine below:
//! each step is only accepted in the one state where it is legal, and the
//! observable event log provably lists the steps in the required order.

use vstd::prelude::*;

verus! {

/// The minimum number of ticks the reset line must be held asserted before
/// the panel accepts protocol commands.
pub const RESET_HOLD_MIN_TICKS: u64 = 10;

/// Build-time panel parameters handed to the configuration step: pixel
/// dimensions, pixel offset, color channel ordering, rotation, inversion.
#[derive(Clone, Copy, PartialEq, Eq, Structural, Debug)]
pub struct PanelParams {
    pub width: u16,
    pub height: u16,
    pub offset_x: u16,
    pub offset_y: u16,
    pub rgb_order: bool,
    pub rotation_deg: u16,
    pub invert_colors: bool,
}

/// The parameters of the panel this controller drives.
pub fn panel_params() -> (p: PanelParams)
    ensures
        p.width == 170,
        p.height == 320,
        p.offset_x == 35,
        p.offset_y == 0,
        p.rgb_order,
        p.rotation_deg == 90,
        p.invert_colors,
{
    PanelParams {
        width: 170,
        height: 320,
        offset_x: 35,
        offset_y: 0,
        rgb_order: true,
        rotation_deg: 90,
        invert_colors: true,
    }
}

/// The levels of the panel's control, bus and reset lines, `true` for high.
#[derive(Clone, Copy, PartialEq, Eq, Structural, Debug)]
pub struct LineLevels {
    pub power_high: bool,
    pub backlight_high: bool,
    pub read_high: bool,
    pub chip_select_high: bool,
    pub data_bus_high: bool,
    pub data_command_high: bool,
    pub write_high: bool,
    pub reset_high: bool,
}

/// The idle levels this panel requires before its configuration commands:
/// power, backlight and read driven high, chip select low (selected), all
/// eight data-bus pins low, data/command high, write high, reset high.
pub open spec fn nominal_levels() -> LineLevels {
    LineLevels {
        power_high: true,
        backlight_high: true,
        read_high: true,
        chip_select_high: false,
        data_bus_high: false,
        data_command_high: true,
        write_high: true,
        reset_high: true,
    }
}

/// The levels the control-line step drives: power rail, backlight and read
/// high, chip select low.
pub open spec fn control_lines_set(l: LineLevels) -> bool {
    l.power_high && l.backlight_high && l.read_high && !l.chip_select_high
}

/// The levels the bus step drives: the eight data-bus pins low, data/command
/// high, write high.
pub open spec fn bus_lines_set(l: LineLevels) -> bool {
    !l.data_bus_high && l.data_command_high && l.write_high
}

/// What a test double observes during bring-up, in the order it happened.
#[derive(Clone, Copy, PartialEq, Eq, Structural, Debug)]
pub enum BringUpEvent {
    /// Power rail, backlight and control lines driven to their idle levels.
    ControlAsserted,
    /// The parallel data bus and its interface constructed.
    BusConstructed,
    /// The reset line pulsed and held for `hold_ticks`.
    ResetPulsed { hold_ticks: u64 },
    /// The protocol-level configuration commands issued.
    ConfigIssued,
}

/// The position of an event in the required bring-up order.
pub open spec fn event_rank(e: BringUpEvent) -> int {
    match e {
        BringUpEvent::ControlAsserted => 0,
        BringUpEvent::BusConstructed => 1,
        BringUpEvent::ResetPulsed { .. } => 2,
        BringUpEvent::ConfigIssued => 3,
    }
}

/// Where the bring-up stands.
#[derive(Clone, Copy, PartialEq, Eq, Structural, Debug)]
pub enum BringUpPhase {
    Idle,
    ControlUp,
    BusUp,
    ResetHeld,
    Configured,
    Steady,
}

/// The display bring-up state machine. Created idle; each step method is
/// accepted only in the single phase where the hardware allows it, so the
/// steps cannot be reordered, skipped or repeated.
pub struct DisplayBringUp {
    phase: BringUpPhase,
    events: Vec<BringUpEvent>,
    params: PanelParams,
    lines: LineLevels,
}

impl DisplayBringUp {
    pub closed spec fn phase_spec(self) -> BringUpPhase {
        self.phase
    }

    pub closed spec fn events_spec(self) -> Seq<BringUpEvent> {
        self.events@
    }

    pub closed spec fn params_spec(self) -> PanelParams {
        self.params
    }

    /// The line levels as driven so far.
    pub closed spec fn lines_spec(self) -> LineLevels {
        self.lines
    }

    /// The events recorded so far are exactly the prefix of the required
    /// sequence that the current phase says has happened, with every reset
    /// pulse held at least the minimum time.
    pub open spec fn wf(self) -> bool {
        match self.phase_spec() {
            BringUpPhase::Idle => self.events_spec() =~= Seq::<BringUpEvent>::empty(),
            BringUpPhase::ControlUp => self.events_spec() =~= seq![
                BringUpEvent::ControlAsserted,
            ] && control_lines_set(self.lines_spec()),
            BringUpPhase::BusUp => self.events_spec() =~= seq![
                BringUpEvent::ControlAsserted,
                BringUpEvent::BusConstructed,
            ] && control_lines_set(self.lines_spec()) && bus_lines_set(self.lines_spec()),
            BringUpPhase::ResetHeld => (exists|h: u64|
                h >= RESET_HOLD_MIN_TICKS && self.events_spec() =~= seq![
                    BringUpEvent::ControlAsserted,
                    BringUpEvent::BusConstructed,
                    BringUpEvent::ResetPulsed { hold_ticks: h },
                ]) && self.lines_spec() == nominal_levels(),
            BringUpPhase::Configured | BringUpPhase::Steady => (exists|h: u64|
                h >= RESET_HOLD_MIN_TICKS && self.events_spec() =~= seq![
                    BringUpEvent::ControlAsserted,
                    BringUpEvent::BusConstructed,
                    BringUpEvent::ResetPulsed { hold_ticks: h },
                    BringUpEvent::ConfigIssued,
                ]) && self.lines_spec() == nominal_levels(),
        }
    }

    /// Start a bring-up for a panel with the given parameters.
    pub fn new(params: PanelParams) -> (d: DisplayBringUp)
        ensures
            d.wf(),
            d.phase_spec() is Idle,
            d.events_spec() == Seq::<BringUpEvent>::empty(),
            d.params_spec() == params,
    {
        DisplayBringUp {
            phase: BringUpPhase::Idle,
            events: Vec::new(),
            params,
            lines: LineLevels {
                power_high: false,
                backlight_high: false,
                read_high: false,
                chip_select_high: false,
                data_bus_high: false,
                data_command_high: false,
                write_high: false,
                reset_high: false,
            },
        }
    }

    /// First step: assert the power rail, backlight and control lines.
    pub fn assert_control(&mut self)
        requires
            old(self).wf(),
            old(self).phase_spec() is Idle,
        ensures
            final(self).wf(),
            final(self).phase_spec() is ControlUp,
            final(self).events_spec() == old(self).events_spec().push(
                BringUpEvent::ControlAsserted,
            ),
            final(self).params_spec() == old(self).params_spec(),
            final(self).lines_spec() == (LineLevels {
                power_high: true,
                backlight_high: true,
                read_high: true,
                chip_select_high: false,
                ..old(self).lines_spec()
            }),
    {
        self.lines.power_high = true;
        self.lines.backlight_high = true;
        self.lines.read_high = true;
        self.lines.chip_select_high = false;
        self.events.push(BringUpEvent::ControlAsserted);
        self.phase = BringUpPhase::ControlUp;
        proof {
            assert(self.events_spec() =~= seq![BringUpEvent::ControlAsserted]);
        }
    }

    /// Second step: construct the data bus and the display interface. Only
    /// legal once the control lines are up.
    pub fn construct_bus(&mut self)
        requires
            old(self).wf(),
            old(self).phase_spec() is ControlUp,
        ensures
            final(self).wf(),
            final(self).phase_spec() is BusUp,
            final(self).events_spec() == old(self).events_spec().push(
                BringUpEvent::BusConstructed,
            ),
            final(self).params_spec() == old(self).params_spec(),
            final(self).lines_spec() == (LineLevels {
                data_bus_high: false,
                data_command_high: true,
                write_high: true,
                ..old(self).lines_spec()
            }),
    {
        self.lines.data_bus_high = false;
        self.lines.data_command_high = true;
        self.lines.write_high = true;
        self.events.push(BringUpEvent::BusConstructed);
        self.phase = BringUpPhase::BusUp;
        proof {
            assert(self.events_spec() =~= seq![
                BringUpEvent::ControlAsserted,
                BringUpEvent::BusConstructed,
            ]);
        }
    }

    /// Third step: pulse the reset line and hold it. The task suspends for
    /// the hold time, which must be at least the panel's minimum.
    pub fn pulse_reset(&mut self, hold_ticks: u64)
        requires
            old(self).wf(),
            old(self).phase_spec() is BusUp,
            hold_ticks >= RESET_HOLD_MIN_TICKS,
        ensures
            final(self).wf(),
            final(self).phase_spec() is ResetHeld,
            final(self).events_spec() == old(self).events_spec().push(
                BringUpEvent::ResetPulsed { hold_ticks },
            ),
            final(self).params_spec() == old(self).params_spec(),
            final(self).lines_spec() == nominal_levels(),
    {
        self.lines.reset_high = true;
        self.events.push(BringUpEvent::ResetPulsed { hold_ticks });
        self.phase = BringUpPhase::ResetHeld;
        proof {
            assert(self.events_spec() =~= seq![
                BringUpEvent::ControlAsserted,
                BringUpEvent::BusConstructed,
                BringUpEvent::ResetPulsed { hold_ticks },
            ]);
        }
    }

    /// Fourth step: issue the protocol-level configuration commands, legal
    /// only after the reset pulse has been held.
    pub fn issue_config(&mut self)
        requires
            old(self).wf(),
            old(self).phase_spec() is ResetHeld,
        ensures
            final(self).wf(),
            final(self).phase_spec() is Configured,
            final(self).events_spec() == old(self).events_spec().push(BringUpEvent::ConfigIssued),
            final(self).params_spec() == old(self).params_spec(),
            final(self).lines_spec() == nominal_levels(),
    {
        self.events.push(BringUpEvent::ConfigIssued);
        self.phase = BringUpPhase::Configured;
        proof {
            let h = choose|h: u64|
                h >= RESET_HOLD_MIN_TICKS && old(self).events_spec() =~= seq![
                    BringUpEvent::ControlAsserted,
                    BringUpEvent::BusConstructed,
                    BringUpEvent::ResetPulsed { hold_ticks: h },
                ];
            assert(self.events_spec() =~= seq![
                BringUpEvent::ControlAsserted,
                BringUpEvent::BusConstructed,
                BringUpEvent::ResetPulsed { hold_ticks: h },
                BringUpEvent::ConfigIssued,
            ]);
        }
    }

    /// Enter steady-state operation; the display task's loop may now run.
    pub fn enter_steady(&mut self)
        requires
            old(self).wf(),
            old(self).phase_spec() is Configured,
        ensures
            final(self).wf(),
            final(self).phase_spec() is Steady,
            final(self).events_spec() == old(self).events_spec(),
            final(self).params_spec() == old(self).params_spec(),
            final(self).lines_spec() == nominal_levels(),
    {
        self.phase = BringUpPhase::Steady;
    }

    /// Read back the line levels as driven so far, for a test double.
    pub fn line_levels(&self) -> (l: LineLevels)
        ensures
            l == self.lines_spec(),
    {
        self.lines
    }

    /// Read back the observed events, for a test double.
    pub fn events(&self) -> (r: &Vec<BringUpEvent>)
        ensures
            r@ == self.events_spec(),
    {
        &self.events
    }
}

/// Idle line levels: once the reset pulse has been held — so before any
/// configuration command can be issued, and ever after — the lines stand at
/// the panel's required idle levels: power, backlight and read high, chip
/// select low, all eight data-bus pins low, data/command high, write high,
/// reset high.
pub proof fn lemma_bringup_levels(d: DisplayBringUp)
    requires
        d.wf(),
        d.phase_spec() is ResetHeld || d.phase_spec() is Configured || d.phase_spec() is Steady,
    ensures
        d.lines_spec() == nominal_levels(),
{
}

/// Ordering of bring-up: in every well-formed bring-up, the observed events
/// are strictly ordered — control assertion precedes bus construction, bus
/// construction precedes the reset pulse, and the reset pulse (held at least
/// the minimum time) precedes any configuration command.
pub proof fn lemma_bringup_ordered(d: DisplayBringUp)
    requires
        d.wf(),
    ensures
        forall|i: int, j: int|
            0 <= i < j < d.events_spec().len() ==> event_rank(d.events_spec()[i]) < event_rank(
                d.events_spec()[j],
            ),
        forall|i: int|
            0 <= i < d.events_spec().len() ==> ((#[trigger] d.events_spec()[i]) matches
                BringUpEvent::ResetPulsed { hold_ticks } ==> hold_ticks >= RESET_HOLD_MIN_TICKS),
{
    let es = d.events_spec();
    assert forall|i: int, j: int| 0 <= i < j < es.len() implies event_rank(es[i]) < event_rank(
        es[j],
    ) by {
        assert(event_rank(es[i]) == i && event_rank(es[j]) == j) by {
            lemma_bringup_ranks(d);
        }
    }
    lemma_bringup_ranks(d);
}

/// In a well-formed bring-up the event at position `i` has rank `i`, and any
/// reset pulse was held at least the minimum time.
proof fn lemma_bringup_ranks(d: DisplayBringUp)
    requires
        d.wf(),
    ensures
        forall|i: int|
            0 <= i < d.events_spec().len() ==> event_rank(#[trigger] d.events_spec()[i]) == i,
        forall|i: int|
            0 <= i < d.events_spec().len() ==> ((#[trigger] d.events_spec()[i]) matches
                BringUpEvent::ResetPulsed { hold_ticks } ==> hold_ticks >= RESET_HOLD_MIN_TICKS),
{
    match d.phase_spec() {
        BringUpPhase::Idle => {
        },
        BringUpPhase::ControlUp => {
        },
        BringUpPhase::BusUp => {
        },
        BringUpPhase::ResetHeld => {
            let h = choose|h: u64|
                h >= RESET_HOLD_MIN_TICKS && d.events_spec() =~= seq![
                    BringUpEvent::ControlAsserted,
                    BringUpEvent::BusConstructed,
                    BringUpEvent::ResetPulsed { hold_ticks: h },
                ];
            assert(d.events_spec()[2] == (BringUpEvent::ResetPulsed { hold_ticks: h }));
        },
        BringUpPhase::Configured | BringUpPhase::Steady => {
            let h = choose|h: u64|
                h >= RESET_HOLD_MIN_TICKS && d.events_spec() =~= seq![
                    BringUpEvent::ControlAsserted,
                    BringUpEvent::BusConstructed,
                    BringUpEvent::ResetPulsed { hold_ticks: h },
                    BringUpEvent::ConfigIssued,
                ];
            assert(d.events_spec()[2] == (BringUpEvent::ResetPulsed { hold_ticks: h }));
        },
    }
}

} // verus!
