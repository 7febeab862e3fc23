use rust_governor::system::{
    another_instance_running, boost_label, cooling_label, is_confirmation, is_yes_answer,
    on_mains_power, plan_name_matches, plan_name_units, read_outcome, select_mode, source_label,
    same_text, write_outcome, Mode, ReadFailure, TooManyFlags,
};

#[test]
fn one_flag_at_a_time() {
    assert_eq!(select_mode(true, false, false, false), Ok(Mode::Install));
    assert_eq!(select_mode(false, true, false, false), Ok(Mode::Uninstall));
    assert_eq!(select_mode(false, false, true, false), Ok(Mode::Run));
    assert_eq!(select_mode(false, false, false, true), Ok(Mode::Monitor));
    assert_eq!(select_mode(false, false, false, false), Ok(Mode::ActivateOnly));
    assert_eq!(select_mode(true, false, true, false), Err(TooManyFlags));
    assert_eq!(select_mode(false, false, true, true), Err(TooManyFlags));
    assert_eq!(select_mode(true, true, true, true), Err(TooManyFlags));
}

#[test]
fn mains_power_is_line_status_one_or_unknown() {
    assert!(on_mains_power(Some(1)));
    assert!(!on_mains_power(Some(0)));
    assert!(!on_mains_power(Some(255)));
    assert!(on_mains_power(None));
}

#[test]
fn read_codes() {
    assert_eq!(read_outcome(0, 77), Ok(77));
    assert_eq!(read_outcome(2, 77), Err(ReadFailure::NotSupported));
    assert_eq!(read_outcome(5, 77), Err(ReadFailure::Api(5)));
    assert_eq!(write_outcome(0), Ok(()));
    assert_eq!(write_outcome(87), Err(87));
}

#[test]
fn labels() {
    assert_eq!(boost_label(0), Some("Disabled"));
    assert_eq!(boost_label(1), Some("Enabled"));
    assert_eq!(boost_label(2), Some("Aggressive"));
    assert_eq!(boost_label(3), None);
    assert_eq!(cooling_label(0), "Passive");
    assert_eq!(cooling_label(1), "Active");
    assert_eq!(cooling_label(7), "Active");
    assert_eq!(source_label(true), "AC");
    assert_eq!(source_label(false), "DC");
}

#[test]
fn another_instance_is_one_with_another_id() {
    assert!(!another_instance_running(&vec![], 10));
    assert!(!another_instance_running(&vec![10, 10], 10));
    assert!(another_instance_running(&vec![10, 11], 10));
}

#[test]
fn confirmations() {
    for yes in ["y", "Y", "yes", "YES", "Yes", "  yes\n", "y\r\n"] {
        assert!(is_confirmation(yes), "{yes:?}");
    }
    for no in ["", "n", "no", "ye", "yess", "y e s", "\n"] {
        assert!(!is_confirmation(no), "{no:?}");
    }
    assert!(is_yes_answer("yes"));
    assert!(!is_yes_answer("YES"));
}

#[test]
fn plan_name_is_written_with_a_nul() {
    let u = plan_name_units("RustGovernorPlan");
    let mut want: Vec<u16> = "RustGovernorPlan".encode_utf16().collect();
    want.push(0);
    assert_eq!(u, want);
    // outside the basic plane: a surrogate pair
    assert_eq!(plan_name_units("a\u{1F600}"), vec![0x61, 0xD83D, 0xDE00, 0]);
}

#[test]
fn a_named_plan_is_found_again() {
    let mut buf = [0u16; 256];
    let u = plan_name_units("RustGovernorPlan");
    buf[..u.len()].copy_from_slice(&u);
    let bytes = (u.len() * 2) as u32;
    assert!(plan_name_matches(0, &buf, bytes, "RustGovernorPlan"));
    assert!(plan_name_matches(0, &buf, bytes, "rustgovernorplan"));
    assert!(!plan_name_matches(0, &buf, bytes, "Balanced"));
    assert!(!plan_name_matches(1, &buf, bytes, "RustGovernorPlan"));
    assert!(!plan_name_matches(0, &buf, 0, "RustGovernorPlan"));
}

#[test]
fn plan_names_are_compared_without_case_and_nuls() {
    let mut buf = [0u16; 256];
    let name: Vec<u16> = "\0BALANCED\0\0".encode_utf16().collect();
    buf[..name.len()].copy_from_slice(&name);
    assert!(plan_name_matches(0, &buf, (name.len() * 2) as u32, "balanced"));
    // the byte count decides how much is read
    assert!(!plan_name_matches(0, &buf, 8, "balanced"));
    // an unpaired surrogate reads as U+FFFD
    let odd = [0x61u16, 0xD800, 0x62];
    assert!(plan_name_matches(0, &odd, 6, "a\u{FFFD}b"));
}

#[test]
fn plan_names_read_back_in_any_plane() {
    for name in ["RustGovernorPlan", "Plan \u{1F600}", "É"] {
        let mut buf = [0u16; 256];
        let u = plan_name_units(name);
        buf[..u.len()].copy_from_slice(&u);
        assert!(plan_name_matches(0, &buf, (u.len() * 2) as u32, name), "{name:?}");
    }
    assert!(plan_name_matches(0, &[0x45u16, 0], 4, "e"));
}

#[test]
fn lowercase_comparison_is_exact_text() {
    assert!(same_text(&"abc".to_string(), &"abc".to_string()));
    assert!(!same_text(&"abc".to_string(), &"abd".to_string()));
}
