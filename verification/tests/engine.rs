use vyges_buffer_insert::emit::to_verilog;
use vyges_buffer_insert::engine::{
    buffer_pins, decimal_string, sinks_of, split_net, worst_overslew, worst_slew, Cand,
};
use vyges_buffer_insert::job::parse_cfg;
use vyges_buffer_insert::netlist::{check_library, CellDef, Inst, Library, Netlist, PinDef, PinDir, Timing};
use vyges_buffer_insert::optimize::{accept_trial, optimize, BufResult, TOLERANCE};

/// One tenth of a nanosecond, in zeptoseconds.
const TENTH_NS: i64 = 100_000_000_000;

fn s(x: &str) -> String {
    x.to_string()
}

fn pin(name: &str, dir: PinDir, clock: bool) -> PinDef {
    PinDef { name: s(name), dir, clock }
}

fn lib() -> Library {
    Library {
        cells: vec![
            CellDef { name: s("INV"), pins: vec![pin("A", PinDir::Input, false), pin("Y", PinDir::Output, false)] },
            CellDef { name: s("BUF"), pins: vec![pin("A", PinDir::Input, false), pin("Y", PinDir::Output, false)] },
        ],
    }
}

fn inst(cell: &str, name: &str, conns: &[(&str, &str)]) -> Inst {
    Inst { cell: s(cell), name: s(name), conns: conns.iter().map(|(p, n)| (s(p), s(n))).collect() }
}

/// u0 fans out to four sinks on net `w`; each sink drives an output.
fn fanout_netlist() -> Netlist {
    Netlist {
        insts: vec![
            inst("INV", "u0", &[("A", "a"), ("Y", "w")]),
            inst("INV", "u1", &[("A", "w"), ("Y", "o1")]),
            inst("INV", "u2", &[("A", "w"), ("Y", "o2")]),
            inst("INV", "u3", &[("A", "w"), ("Y", "o3")]),
            inst("INV", "u4", &[("A", "w"), ("Y", "o4")]),
        ],
    }
}

/// A stand-in timer: an output pin's transition is 0.1 ns per input pin on its net, an input
/// pin's is 0.02 ns, and the slack is 2 ns less 0.1 ns per instance.
fn fake_timing(nl: &Netlist) -> Timing {
    let load = |net: &str| -> i64 {
        nl.insts.iter().flat_map(|i| i.conns.iter()).filter(|(p, n)| p == "A" && n == net).count() as i64
    };
    let slews = nl
        .insts
        .iter()
        .map(|i| {
            i.conns
                .iter()
                .map(|(p, n)| if p == "Y" { Some(TENTH_NS * load(n)) } else { Some(TENTH_NS / 5) })
                .collect()
        })
        .collect();
    Timing { wns: 20 * TENTH_NS - TENTH_NS * nl.insts.len() as i64, slews }
}

fn run(cfg_text: &str, limit: i64) -> BufResult {
    let cfg = parse_cfg(cfg_text).unwrap();
    let l = lib();
    optimize(fanout_netlist(), &l, &cfg, limit, |m: &Netlist| Ok(fake_timing(m))).unwrap()
}

#[test]
fn sinks_are_sorted() {
    let mut nl = fanout_netlist();
    nl.insts.reverse();
    nl.insts.push(inst("BUF", "__buf_0", &[("A", "w"), ("Y", "n")]));
    nl.insts.push(inst("NOPE", "x", &[("A", "w")]));
    let sinks = sinks_of(&nl, &lib(), &s("w"));
    let names: Vec<&str> = sinks.iter().map(|(i, _)| i.as_str()).collect();
    assert_eq!(names, vec!["__buf_0", "u1", "u2", "u3", "u4"]);
    assert!(sinks.iter().all(|(_, p)| p == "A"));
}

#[test]
fn worst_slew_of_fanout() {
    let nl = fanout_netlist();
    assert_eq!(worst_slew(&fake_timing(&nl), &nl, &lib()), 4 * TENTH_NS);
    let empty = Netlist { insts: vec![] };
    assert_eq!(worst_slew(&fake_timing(&empty), &empty, &lib()), 0);
}

#[test]
fn candidate_is_the_fanout_net() {
    let nl = fanout_netlist();
    let cfg = parse_cfg("buffer: BUF\nmin_fanout: 2\n").unwrap();
    let c = worst_overslew(&fake_timing(&nl), &nl, &lib(), &cfg, 18 * TENTH_NS / 10, &vec![]).unwrap();
    assert_eq!(c.net, "w");
    assert_eq!(c.slew, 4 * TENTH_NS);
    assert_eq!(c.sinks.len(), 4);
    assert!(worst_overslew(&fake_timing(&nl), &nl, &lib(), &cfg, 18 * TENTH_NS / 10, &vec![s("w")]).is_none());
    assert!(worst_overslew(&fake_timing(&nl), &nl, &lib(), &cfg, 4 * TENTH_NS, &vec![]).is_none());
}

#[test]
fn split_moves_half_the_sinks() {
    let mut nl = fanout_netlist();
    let cfg = parse_cfg("buffer: BUF\n").unwrap();
    let cand = Cand { net: s("w"), sinks: sinks_of(&nl, &lib(), &s("w")), slew: 0 };
    split_net(&mut nl, &cand, &cfg, "A", "Y", "__buf_0", "__bufn_0");
    assert_eq!(nl.insts.len(), 6);
    assert_eq!(nl.insts[1].conns[0].1, "__bufn_0");
    assert_eq!(nl.insts[2].conns[0].1, "__bufn_0");
    assert_eq!(nl.insts[3].conns[0].1, "w");
    assert_eq!(nl.insts[4].conns[0].1, "w");
    assert_eq!(nl.insts[0].conns[1].1, "w");
    let b = &nl.insts[5];
    assert_eq!((b.cell.as_str(), b.name.as_str()), ("BUF", "__buf_0"));
    assert_eq!(b.conns, vec![(s("A"), s("w")), (s("Y"), s("__bufn_0"))]);
}

#[test]
fn split_of_a_single_sink_moves_it() {
    let mut nl = Netlist { insts: vec![inst("INV", "d", &[("Y", "n")]), inst("INV", "k", &[("A", "n")])] };
    let cfg = parse_cfg("buffer: BUF\n").unwrap();
    let cand = Cand { net: s("n"), sinks: sinks_of(&nl, &lib(), &s("n")), slew: 0 };
    split_net(&mut nl, &cand, &cfg, "A", "Y", "b", "bn");
    assert_eq!(nl.insts[1].conns[0].1, "bn");
}

#[test]
fn buffer_pin_errors() {
    let l = lib();
    assert_eq!(buffer_pins(&l, &s("BUF")).unwrap(), (s("A"), s("Y")));
    assert_eq!(buffer_pins(&l, &s("BUFX")).unwrap_err(), format!("buffer cell {:?} not in any .lib", "BUFX"));
    let only_out = Library { cells: vec![CellDef { name: s("T"), pins: vec![pin("CK", PinDir::Input, true), pin("Q", PinDir::Output, false)] }] };
    assert_eq!(buffer_pins(&only_out, &s("T")).unwrap_err(), format!("buffer {:?} has no input pin", "T"));
    let only_in = Library { cells: vec![CellDef { name: s("T"), pins: vec![pin("A", PinDir::Input, false)] }] };
    assert_eq!(buffer_pins(&only_in, &s("T")).unwrap_err(), format!("buffer {:?} has no output pin", "T"));
}

#[test]
fn names_of_buffers() {
    assert_eq!(decimal_string(0), "0");
    assert_eq!(decimal_string(7), "7");
    assert_eq!(decimal_string(10), "10");
    assert_eq!(decimal_string(4096), "4096");
}

#[test]
fn acceptance_rule() {
    // the worst transition must drop by more than the tolerance
    assert!(accept_trial(10_000, 8_999, 5, 5));
    assert!(!accept_trial(10_000, 9_000, 5, 5));
    assert!(accept_trial(10_000, 10_000 - TOLERANCE - 1, 5, 5));
    assert!(!accept_trial(10_000, 10_000 - TOLERANCE, 5, 5));
    // a met design may use slack while it stays met
    assert!(accept_trial(10_000, 0, 5, 0));
    assert!(!accept_trial(10_000, 0, 5, -1));
    // a violating design must not get worse
    assert!(accept_trial(10_000, 0, -50_000, -50_000));
    assert!(accept_trial(10_000, 0, -50_000, -49_000));
    assert!(!accept_trial(10_000, 0, -50_000, -50_001));
}

#[test]
fn fake_timer_relieves_fanout_net() {
    let r = run("buffer: BUF\nmax_slew: 0.18\nmin_fanout: 2\neffort: high\n", 18 * TENTH_NS / 10);
    assert!(r.before_slew > r.max_slew_limit);
    assert_eq!(r.inserted, vec![(s("__buf_0"), s("w"))]);
    assert_eq!(r.before_slew, 4 * TENTH_NS);
    assert_eq!(r.after_slew, 3 * TENTH_NS);
    assert_eq!(r.before_wns, 15 * TENTH_NS);
    assert_eq!(r.after_wns, 14 * TENTH_NS);
    assert_eq!(r.netlist.insts.len(), 6);
    let buf = &r.netlist.insts[5];
    assert_eq!(buf.cell, "BUF");
    let moved = r.netlist.insts.iter().filter(|i| i.conns.iter().any(|(p, n)| p == "A" && n == "__bufn_0")).count();
    assert_eq!(moved, 2);
}

#[test]
fn fake_timer_nothing_under_a_loose_limit() {
    let r = run("buffer: BUF\nmax_slew: 1.0\nmin_fanout: 2\neffort: high\n", 10 * TENTH_NS);
    assert!(r.inserted.is_empty());
    assert_eq!(r.before_slew, r.after_slew);
    assert_eq!(r.netlist.insts.len(), 5);
}

#[test]
fn fake_timer_dont_touch_blocks_insertion() {
    let r = run("buffer: BUF\nmax_slew: 0.18\nmin_fanout: 2\neffort: high\ndont_touch: u0\n", 18 * TENTH_NS / 10);
    assert!(r.inserted.is_empty());
}

#[test]
fn fake_timer_fanout_threshold_skips_small_nets() {
    let r = run("buffer: BUF\nmax_slew: 0.18\nmin_fanout: 5\neffort: high\n", 18 * TENTH_NS / 10);
    assert!(r.inserted.is_empty());
}

#[test]
fn optimize_reports_missing_buffer_and_timer_errors() {
    let l = lib();
    let cfg = parse_cfg("buffer: NOPE\n").unwrap();
    let e = optimize(fanout_netlist(), &l, &cfg, 0, |m: &Netlist| Ok(fake_timing(m))).err().unwrap();
    assert_eq!(e, format!("buffer cell {:?} not in any .lib", "NOPE"));
    let cfg = parse_cfg("buffer: BUF\n").unwrap();
    let e = optimize(fanout_netlist(), &l, &cfg, 0, |_: &Netlist| Err(s("timer failed"))).err().unwrap();
    assert_eq!(e, "timer failed");
    let e = optimize(fanout_netlist(), &l, &cfg, 0, |_: &Netlist| Ok(Timing { wns: 0, slews: vec![] })).err().unwrap();
    assert_eq!(e, "timing snapshot does not match the netlist");
}

#[test]
fn effort_bounds_the_rounds() {
    // effort 1: a single round, one buffer at most
    let l = lib();
    let mut cfg = parse_cfg("buffer: BUF\nmax_slew: 0.05\nmin_fanout: 1\n").unwrap();
    cfg.effort = 1;
    let r = optimize(fanout_netlist(), &l, &cfg, TENTH_NS / 2, |m: &Netlist| Ok(fake_timing(m))).unwrap();
    assert_eq!(r.inserted.len(), 1);
    cfg.effort = 0;
    let r = optimize(fanout_netlist(), &l, &cfg, TENTH_NS / 2, |m: &Netlist| Ok(fake_timing(m))).unwrap();
    assert!(r.inserted.is_empty());
}

#[test]
fn met_setup_stays_met() {
    // the split would make a met design violate: the trial is turned down
    let l = lib();
    let cfg = parse_cfg("buffer: BUF\nmax_slew: 0.18\nmin_fanout: 2\neffort: high\n").unwrap();
    let timer = |m: &Netlist| {
        let mut t = fake_timing(m);
        t.wns = if m.insts.len() == 5 { 0 } else { -1 };
        Ok(t)
    };
    let r = optimize(fanout_netlist(), &l, &cfg, 18 * TENTH_NS / 10, timer).unwrap();
    assert!(r.inserted.is_empty());
    assert_eq!(r.after_wns, 0);
    assert_eq!(r.netlist.insts.len(), 5);
}

#[test]
fn trial_timing_errors_are_reported() {
    let l = lib();
    let cfg = parse_cfg("buffer: BUF\nmax_slew: 0.18\nmin_fanout: 2\neffort: high\n").unwrap();
    let failing = |m: &Netlist| if m.insts.len() == 5 { Ok(fake_timing(m)) } else { Err(s("trial failed")) };
    assert_eq!(optimize(fanout_netlist(), &l, &cfg, 18 * TENTH_NS / 10, failing).err().unwrap(), "trial failed");
    let short = |m: &Netlist| {
        if m.insts.len() == 5 {
            Ok(fake_timing(m))
        } else {
            Ok(Timing { wns: 0, slews: vec![] })
        }
    };
    assert_eq!(
        optimize(fanout_netlist(), &l, &cfg, 18 * TENTH_NS / 10, short).err().unwrap(),
        "timing snapshot does not match the netlist"
    );
}

#[test]
fn only_relieved_net_sinks_move() {
    let r = run("buffer: BUF\nmax_slew: 0.18\nmin_fanout: 2\neffort: high\n", 18 * TENTH_NS / 10);
    let orig = fanout_netlist();
    for (a, b) in orig.insts.iter().zip(r.netlist.insts.iter()) {
        assert_eq!(a.name, b.name);
        assert_eq!(a.cell, b.cell);
        for (ca, cb) in a.conns.iter().zip(b.conns.iter()) {
            assert_eq!(ca.0, cb.0);
            if ca.1 != "w" {
                assert_eq!(ca.1, cb.1);
            }
        }
    }
}

#[test]
fn library_must_have_cells() {
    assert_eq!(check_library(&Library { cells: vec![] }), Err(s("no cells in any .lib")));
    assert_eq!(check_library(&lib()), Ok(()));
}

#[test]
fn verilog_of_a_netlist() {
    let nl = Netlist {
        insts: vec![
            inst("INV", "u0", &[("A", "a"), ("Y", "w")]),
            inst("BUF", "b", &[]),
            inst("INV", "u1", &[("A", "w")]),
        ],
    };
    assert_eq!(
        to_verilog(&nl),
        "module top;\n  INV u0 ( .A(a), .Y(w) );\n  BUF b (  );\n  INV u1 ( .A(w) );\nendmodule\n"
    );
    assert_eq!(to_verilog(&Netlist { insts: vec![] }), "module top;\nendmodule\n");
}
