use coopsched::bringup::{
    panel_params, BringUpEvent, DisplayBringUp, RESET_HOLD_MIN_TICKS,
};

#[test]
fn lines_reach_idle_levels_before_configuration() {
    // Before the configuration commands the lines stand at the panel's
    // required idle levels: power, backlight and read high, chip select low,
    // data bus low, data/command high, write high, reset high.
    let mut d = DisplayBringUp::new(panel_params());
    d.assert_control();
    let l = d.line_levels();
    assert!(l.power_high && l.backlight_high && l.read_high);
    assert!(!l.chip_select_high);
    d.construct_bus();
    let l = d.line_levels();
    assert!(!l.data_bus_high && l.data_command_high && l.write_high);
    d.pulse_reset(RESET_HOLD_MIN_TICKS);
    let l = d.line_levels();
    assert!(l.power_high && l.backlight_high && l.read_high);
    assert!(!l.chip_select_high);
    assert!(!l.data_bus_high && l.data_command_high && l.write_high);
    assert!(l.reset_high);
    d.issue_config();
    assert_eq!(d.line_levels(), l);
}

#[test]
fn bringup_steps_are_observed_in_order() {
    // A test double observes: control assertion, then bus construction,
    // then the reset pulse held at least the minimum, then configuration.
    let mut d = DisplayBringUp::new(panel_params());
    d.assert_control();
    d.construct_bus();
    d.pulse_reset(RESET_HOLD_MIN_TICKS + 2);
    d.issue_config();
    d.enter_steady();
    let events = d.events();
    assert_eq!(events.len(), 4);
    assert_eq!(events[0], BringUpEvent::ControlAsserted);
    assert_eq!(events[1], BringUpEvent::BusConstructed);
    assert_eq!(
        events[2],
        BringUpEvent::ResetPulsed { hold_ticks: RESET_HOLD_MIN_TICKS + 2 }
    );
    assert_eq!(events[3], BringUpEvent::ConfigIssued);
    match events[2] {
        BringUpEvent::ResetPulsed { hold_ticks } => {
            assert!(hold_ticks >= RESET_HOLD_MIN_TICKS);
        }
        _ => panic!("reset pulse missing"),
    }
}

#[test]
fn panel_parameters_match_the_board() {
    let p = panel_params();
    assert_eq!(p.width, 170);
    assert_eq!(p.height, 320);
    assert_eq!(p.offset_x, 35);
    assert_eq!(p.offset_y, 0);
    assert!(p.rgb_order);
    assert_eq!(p.rotation_deg, 90);
    assert!(p.invert_colors);
}
