use rust_governor::config::{default_content, read_config, unsliceable_line, ConfigError, RawConfig};

fn lines(text: &str) -> Vec<String> {
    text.lines().map(String::from).collect()
}

fn table(t: &[rust_governor::config::Entry]) -> Vec<(String, u32)> {
    t.iter().map(|e| (e.threshold.clone(), e.value)).collect()
}

fn pairs(items: &[(&str, u32)]) -> Vec<(String, u32)> {
    items.iter().map(|(t, v)| (t.to_string(), *v)).collect()
}

fn read(text: &str) -> Result<RawConfig, ConfigError> {
    let ls = lines(text);
    assert_eq!(unsliceable_line(&ls), None);
    read_config(&ls)
}

#[test]
fn default_configuration_is_read_in_file_order() {
    let cfg = read(default_content()).unwrap();
    assert_eq!(
        table(&cfg.ac_max),
        pairs(&[
            ("15", 80),
            ("20", 100),
            ("30", 100),
            ("40", 100),
            ("50", 100),
            ("60", 100),
            ("70", 100),
            ("80", 100),
            ("90", 100),
            ("100", 100)
        ])
    );
    assert_eq!(table(&cfg.ac_turbo), pairs(&[("15", 0), ("50", 0), ("100", 2)]));
    assert_eq!(
        table(&cfg.ac_epp),
        pairs(&[
            ("1", 100),
            ("5", 90),
            ("10", 80),
            ("15", 70),
            ("20", 60),
            ("40", 50),
            ("60", 33),
            ("80", 20),
            ("100", 0)
        ])
    );
    assert_eq!(cfg.ac_cooling, 45);
    assert_eq!(cfg.dc_max_cap, 70);
    assert_eq!(table(&cfg.dc_max), pairs(&[("15", 50), ("40", 60), ("60", 70), ("100", 70)]));
    assert_eq!(
        table(&cfg.dc_epp),
        pairs(&[("1", 100), ("15", 90), ("40", 80), ("60", 70), ("100", 60)])
    );
    assert_eq!(cfg.dc_cooling, 60);
}

#[test]
fn empty_file_keeps_the_initial_values() {
    let cfg = read("").unwrap();
    assert!(cfg.ac_max.is_empty() && cfg.ac_turbo.is_empty() && cfg.ac_epp.is_empty());
    assert!(cfg.dc_max.is_empty() && cfg.dc_epp.is_empty());
    assert_eq!((cfg.ac_cooling, cfg.dc_max_cap, cfg.dc_cooling), (45, 70, 60));
}

#[test]
fn blank_lines_and_comments_are_skipped() {
    let cfg = read("# a comment = with = signs\n\n   \t\nac_10_max = 55 \n#dc_max_cap=1").unwrap();
    assert_eq!(table(&cfg.ac_max), pairs(&[("10", 55)]));
    assert_eq!(cfg.dc_max_cap, 70);
}

#[test]
fn a_comment_must_start_the_line() {
    // a '#' after leading spaces is no comment: the line has no '='
    match read("ac_10_max=5\n  # note") {
        Err(ConfigError::InvalidFormat { line }) => assert_eq!(line, 2),
        _ => panic!("expected a format error"),
    }
}

#[test]
fn a_line_without_one_separator_is_refused() {
    match read("dc_max_cap=50\nac_10_max") {
        Err(ConfigError::InvalidFormat { line }) => assert_eq!(line, 2),
        _ => panic!("expected a format error"),
    }
    match read("a=b=c") {
        Err(ConfigError::InvalidFormat { line }) => assert_eq!(line, 1),
        _ => panic!("expected a format error"),
    }
}

#[test]
fn a_value_that_is_no_u32_is_refused_with_its_key() {
    for bad in ["ac_10_max = -5", " ac_10_max =", "ac_10_max=4294967296", "ac_10_max=1.5", "ac_10_max=+"] {
        match read(bad) {
            Err(ConfigError::InvalidNumber { line, key }) => {
                assert_eq!(line, 1);
                assert_eq!(key, "ac_10_max");
            }
            _ => panic!("expected a number error for {bad:?}"),
        }
    }
}

#[test]
fn values_accept_a_plus_sign_and_leading_zeros() {
    let cfg = read("dc_max_cap=+0042\nac_cooling_threshold=4294967295").unwrap();
    assert_eq!(cfg.dc_max_cap, 42);
    assert_eq!(cfg.ac_cooling, 4294967295);
}

#[test]
fn the_first_bad_line_decides() {
    match read("x\ny=z") {
        Err(ConfigError::InvalidFormat { line }) => assert_eq!(line, 1),
        _ => panic!("expected a format error"),
    }
}

#[test]
fn unknown_keys_are_ignored() {
    let cfg = read("foo=1\nac_cooling=3\n=7\nAC_10_MAX=9").unwrap();
    assert!(cfg.ac_max.is_empty());
    assert_eq!(cfg.ac_cooling, 45);
}

#[test]
fn later_single_settings_win() {
    let cfg = read("dc_cooling_threshold=10\ndc_cooling_threshold=20").unwrap();
    assert_eq!(cfg.dc_cooling, 20);
}

#[test]
fn load_text_is_what_lies_between_prefix_and_suffix() {
    let cfg = read("ac__max=1\nac_x_y_turbo=2\ndc_ 7 _epp=3\ndc_2.5_max=4").unwrap();
    assert_eq!(table(&cfg.ac_max), pairs(&[("", 1)]));
    assert_eq!(table(&cfg.ac_turbo), pairs(&[("x_y", 2)]));
    assert_eq!(table(&cfg.dc_epp), pairs(&[(" 7 ", 3)]));
    assert_eq!(table(&cfg.dc_max), pairs(&[("2.5", 4)]));
}

#[test]
fn overlapping_affixes_are_found_where_reading_reaches_them() {
    assert_eq!(unsliceable_line(&lines("ac_10_max=1\nac_max=5")), Some(2));
    assert_eq!(unsliceable_line(&lines("ac_turbo=1")), Some(1));
    assert_eq!(unsliceable_line(&lines("x\nac_epp=1")), None);
    assert_eq!(unsliceable_line(&lines("dc_max_cap=1\ndc_epp=2")), Some(2));
}
