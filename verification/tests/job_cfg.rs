use vyges_buffer_insert::job::{apply_key, finish_keys, glob_match, parse_cfg, CfgKeys};
use vyges_buffer_insert::text::lower_case;

fn quoted(s: &str) -> String {
    format!("{s:?}")
}

#[test]
fn cfg_defaults_with_only_a_buffer() {
    let c = parse_cfg("buffer: BUF_X2\n").unwrap();
    assert_eq!(c.buffer, "BUF_X2");
    assert_eq!(c.max_slew, "0.15");
    assert_eq!(c.min_fanout, 2);
    assert_eq!(c.effort, 100);
    assert!(c.dont_touch.is_empty());
}

#[test]
fn cfg_full_job_with_comments_and_timing_keys() {
    let text = "design:     top\nnetlist:    top.v\nlib:        tt.lib\nclock: clk 1.2\n\
                buffer:     BUF_X2            # the buffer cell\n\
                max_slew:   0.15             # transition limit\n\
                min_fanout: 3\n\
                effort:     high\n\
                dont_touch: clk_* *scan*\n";
    let c = parse_cfg(text).unwrap();
    assert_eq!(c.buffer, "BUF_X2");
    assert_eq!(c.max_slew, "0.15");
    assert_eq!(c.min_fanout, 3);
    assert_eq!(c.effort, 500);
    assert_eq!(c.dont_touch, vec!["clk_*".to_string(), "*scan*".to_string()]);
}

#[test]
fn cfg_effort_words() {
    assert_eq!(parse_cfg("buffer: B\neffort: low").unwrap().effort, 20);
    assert_eq!(parse_cfg("buffer: B\neffort: Medium").unwrap().effort, 100);
    assert_eq!(parse_cfg("buffer: B\neffort: HIGH").unwrap().effort, 500);
}

#[test]
fn cfg_bad_effort() {
    let e = parse_cfg("buffer: B\neffort: Extreme\n").unwrap_err();
    assert_eq!(e, format!("effort must be low|medium|high, got {}", quoted("extreme")));
}

#[test]
fn cfg_buffer_required() {
    assert_eq!(parse_cfg("max_slew: 0.2\n").unwrap_err(), "a `buffer:` cell is required");
    assert_eq!(parse_cfg("").unwrap_err(), "a `buffer:` cell is required");
    assert_eq!(parse_cfg("buffer:   # none\n").unwrap_err(), "a `buffer:` cell is required");
}

#[test]
fn cfg_bad_max_slew() {
    let e = parse_cfg("buffer: B\nmax_slew: fast\n").unwrap_err();
    assert_eq!(e, format!("max_slew must be a number, got {}", quoted("fast")));
    // the first bad value stops the reading, before the missing buffer is noticed
    let e = parse_cfg("max_slew: 1..2\n").unwrap_err();
    assert_eq!(e, format!("max_slew must be a number, got {}", quoted("1..2")));
}

#[test]
fn cfg_bad_min_fanout() {
    let e = parse_cfg("buffer: B\nmin_fanout: -1\n").unwrap_err();
    assert_eq!(e, format!("min_fanout must be an integer, got {}", quoted("-1")));
    let e = parse_cfg("buffer: B\nmin_fanout: 2.5\n").unwrap_err();
    assert_eq!(e, format!("min_fanout must be an integer, got {}", quoted("2.5")));
    let e = parse_cfg("buffer: B\nmin_fanout: 99999999999999999999999\n").unwrap_err();
    assert_eq!(e, format!("min_fanout must be an integer, got {}", quoted("99999999999999999999999")));
    assert_eq!(parse_cfg("buffer: B\nmin_fanout: +7\n").unwrap().min_fanout, 7);
}

#[test]
fn cfg_float_forms_accepted_as_f64_accepts_them() {
    for v in ["1", "1.", ".5", "1e-3", "2E+2", "-0.2", "+3.5", "inf", "-Infinity", "NaN", "007"] {
        let c = parse_cfg(&format!("buffer: B\nmax_slew: {v}\n")).unwrap();
        assert_eq!(c.max_slew, v);
        assert!(v.parse::<f64>().is_ok());
    }
    for v in ["", ".", "e5", "1e", "1.2.3", "0x10", "1_000", "--1", "in f"] {
        assert!(parse_cfg(&format!("buffer: B\nmax_slew: {v}\n")).is_err(), "{v}");
        assert!(v.parse::<f64>().is_err(), "{v}");
    }
}

#[test]
fn cfg_keys_ignore_case_and_later_lines_win() {
    let c = parse_cfg("BUFFER: A\r\nBuffer: B\r\nMAX_SLEW: 0.3\r\nunknown: x\r\nno colon here\r\n").unwrap();
    assert_eq!(c.buffer, "B");
    assert_eq!(c.max_slew, "0.3");
}

#[test]
fn cfg_dont_touch_accumulates() {
    let c = parse_cfg("buffer: B\ndont_touch: a, b  c\ndont_touch: ,d,,\n").unwrap();
    assert_eq!(c.dont_touch, vec!["a", "b", "c", "d"]);
}

#[test]
fn cfg_value_holds_colons() {
    let c = parse_cfg("buffer: lib:BUF\n").unwrap();
    assert_eq!(c.buffer, "lib:BUF");
}

#[test]
fn glob_edge_cases() {
    assert!(glob_match("*", "anything"));
    assert!(glob_match("**", ""));
    assert!(glob_match("*a**", "xay"));
    assert!(glob_match("clk_*", "clk_"));
    assert!(!glob_match("clk_*", "xclk_a"));
    assert!(!glob_match("*_reg", "x_reg1"));
    assert!(glob_match("u1", "u1"));
    assert!(!glob_match("", "u1"));
    assert!(glob_match("", ""));
}

#[test]
fn keys_applied_one_by_one() {
    let mut k = CfgKeys::new();
    assert_eq!(apply_key(&mut k, "buffer", "BUF_X2"), Ok(()));
    assert_eq!(apply_key(&mut k, "min_fanout", "4"), Ok(()));
    assert_eq!(apply_key(&mut k, "dont_touch", "a*, *b"), Ok(()));
    assert_eq!(apply_key(&mut k, "dont_touch", "c"), Ok(()));
    assert_eq!(apply_key(&mut k, "effort", "High"), Ok(()));
    assert_eq!(apply_key(&mut k, "clock", "clk 1.2"), Ok(()));
    // the key is taken as given: an upper-case key is none of the five
    assert_eq!(apply_key(&mut k, "BUFFER", "X"), Ok(()));
    assert_eq!(k.buffer, "BUF_X2");
    assert_eq!(k.min_fanout, 4);
    assert_eq!(k.effort_word, "High");
    assert_eq!(k.dont_touch, vec!["a*".to_string(), "*b".to_string(), "c".to_string()]);
    assert_eq!(
        apply_key(&mut k, "max_slew", "fast"),
        Err(format!("max_slew must be a number, got {}", quoted("fast")))
    );
    assert_eq!(k.max_slew, "0.15");
    let c = finish_keys(k, "high").unwrap();
    assert_eq!(c.effort, 500);
    assert_eq!(c.buffer, "BUF_X2");
}

#[test]
fn keys_finished_with_the_effort_word() {
    let mut k = CfgKeys::new();
    assert_eq!(finish_keys(CfgKeys::new(), "medium").unwrap_err(), "a `buffer:` cell is required");
    assert_eq!(apply_key(&mut k, "buffer", "B"), Ok(()));
    assert_eq!(
        finish_keys(k, "High").unwrap_err(),
        format!("effort must be low|medium|high, got {}", quoted("High"))
    );
    let mut k = CfgKeys::new();
    assert_eq!(apply_key(&mut k, "buffer", "B"), Ok(()));
    assert_eq!(finish_keys(k, "low").unwrap().effort, 20);
}

#[test]
fn timing_keys_around_a_job_are_ignored() {
    let job = "buffer: B\nmax_slew: 0.2\neffort: low";
    let base = parse_cfg(job).unwrap();
    for extra in ["clock: clk 1.2", "spef: top.spef", "just words", "# a comment"] {
        let before = parse_cfg(&format!("{extra}\n{job}")).unwrap();
        let after = parse_cfg(&format!("{job}\n{extra}")).unwrap();
        for c in [before, after] {
            assert_eq!(c.buffer, base.buffer);
            assert_eq!(c.max_slew, base.max_slew);
            assert_eq!(c.effort, base.effort);
            assert_eq!(c.min_fanout, base.min_fanout);
            assert_eq!(c.dont_touch, base.dont_touch);
        }
    }
}

#[test]
fn keys_lower_cased() {
    assert_eq!(lower_case("Max_Slew"), "max_slew");
    assert_eq!(lower_case("EFFORT"), "effort");
    assert_eq!(lower_case("dont_touch"), "dont_touch");
    assert_eq!(lower_case("ÄÖ"), "äö");
}
