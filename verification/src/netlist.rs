//! The data the insertion rules read: the instances of a gate-level netlist, the pins of the
//! library cells, and a timing snapshot taken on a netlist. Times are whole numbers of
//! zeptoseconds (10^-21 s; 1 ns is 10^12 of them).

use vstd::prelude::*;

use crate::order::{pair_view, pair_views, Pair};

verus! {

/// The direction of a library pin.
#[derive(PartialEq, Eq, Structural, Clone, Copy, Debug)]
pub enum PinDir {
    Input,
    Output,
    Other,
}

/// A pin of a library cell.
#[derive(Debug)]
pub struct PinDef {
    pub name: String,
    pub dir: PinDir,
    /// Whether the pin is a clock pin.
    pub clock: bool,
}

/// A library cell: its name and its pins, in the library's order.
#[derive(Debug)]
pub struct CellDef {
    pub name: String,
    pub pins: Vec<PinDef>,
}

/// The cells of the loaded libraries.
#[derive(Debug)]
pub struct Library {
    pub cells: Vec<CellDef>,
}

/// An instance of a netlist: its cell, its name, and its `(pin, net)` connections.
#[derive(Debug)]
pub struct Inst {
    pub cell: String,
    pub name: String,
    pub conns: Vec<(String, String)>,
}

/// The instances of a netlist, in order.
#[derive(Debug)]
pub struct Netlist {
    pub insts: Vec<Inst>,
}

/// What a timer built on a netlist reports: the worst negative slack, and for every connection
/// of every instance (`slews[i][j]` for `insts[i].conns[j]`) the transition at that pin, where
/// the timer knows the pin.
#[derive(Debug)]
pub struct Timing {
    pub wns: i64,
    pub slews: Vec<Vec<Option<i64>>>,
}

pub struct PinView {
    pub name: Seq<char>,
    pub dir: PinDir,
    pub clock: bool,
}

pub struct CellView {
    pub name: Seq<char>,
    pub pins: Seq<PinView>,
}

pub struct InstView {
    pub cell: Seq<char>,
    pub name: Seq<char>,
    pub conns: Seq<Pair>,
}

pub struct TimingView {
    pub wns: int,
    pub slews: Seq<Seq<Option<i64>>>,
}

impl View for PinDef {
    type V = PinView;

    open spec fn view(&self) -> PinView {
        PinView { name: self.name@, dir: self.dir, clock: self.clock }
    }
}

impl View for CellDef {
    type V = CellView;

    open spec fn view(&self) -> CellView {
        CellView { name: self.name@, pins: self.pins@.map_values(|p: PinDef| p@) }
    }
}

impl View for Library {
    type V = Seq<CellView>;

    open spec fn view(&self) -> Seq<CellView> {
        self.cells@.map_values(|c: CellDef| c@)
    }
}

impl View for Inst {
    type V = InstView;

    open spec fn view(&self) -> InstView {
        InstView { cell: self.cell@, name: self.name@, conns: pair_views(self.conns@) }
    }
}

impl View for Netlist {
    type V = Seq<InstView>;

    open spec fn view(&self) -> Seq<InstView> {
        self.insts@.map_values(|i: Inst| i@)
    }
}

impl View for Timing {
    type V = TimingView;

    open spec fn view(&self) -> TimingView {
        TimingView { wns: self.wns as int, slews: self.slews@.map_values(|r: Vec<Option<i64>>| r@) }
    }
}

/// Cell `k` is the first cell named `name`.
pub open spec fn finds_cell(lib: Seq<CellView>, name: Seq<char>, k: int) -> bool {
    &&& 0 <= k < lib.len()
    &&& lib[k].name == name
    &&& forall|j: int| 0 <= j < k ==> #[trigger] lib[j].name != name
}

/// The cell named `name` (the first, should the library hold two).
pub open spec fn cell_named(lib: Seq<CellView>, name: Seq<char>) -> Option<CellView> {
    if exists|k: int| finds_cell(lib, name, k) {
        Some(lib[choose|k: int| finds_cell(lib, name, k)])
    } else {
        None
    }
}

/// Pin `k` is the first pin named `name`.
pub open spec fn finds_pin(c: CellView, name: Seq<char>, k: int) -> bool {
    &&& 0 <= k < c.pins.len()
    &&& c.pins[k].name == name
    &&& forall|j: int| 0 <= j < k ==> #[trigger] c.pins[j].name != name
}

/// The direction of the pin `name` of a cell, if the cell has such a pin.
pub open spec fn pin_dir(c: CellView, name: Seq<char>) -> Option<PinDir> {
    if exists|k: int| finds_pin(c, name, k) {
        Some(c.pins[choose|k: int| finds_pin(c, name, k)].dir)
    } else {
        None
    }
}

/// The direction of connection `j` of an instance, by its cell's pin of that name.
pub open spec fn conn_dir(lib: Seq<CellView>, inst: InstView, j: int) -> Option<PinDir> {
    match cell_named(lib, inst.cell) {
        Some(c) => pin_dir(c, inst.conns[j].0),
        None => None,
    }
}

/// The snapshot has a row per instance and an entry per connection.
pub open spec fn fits(t: TimingView, nl: Seq<InstView>) -> bool {
    &&& t.slews.len() == nl.len()
    &&& forall|i: int| 0 <= i < nl.len() ==> #[trigger] t.slews[i].len() == nl[i].conns.len()
}

/// The transition at connection `j` of instance `i` when it drives its net (an output pin
/// the timer knows).
pub open spec fn driver_slew(lib: Seq<CellView>, nl: Seq<InstView>, t: TimingView, i: int, j: int) -> Option<i64> {
    if 0 <= i < nl.len() && 0 <= j < nl[i].conns.len() && conn_dir(lib, nl[i], j) == Some(
        PinDir::Output,
    ) {
        t.slews[i][j]
    } else {
        None
    }
}

/// `w` is the worst driver transition of the design: the largest, and 0 when none is larger.
pub open spec fn is_worst_slew(lib: Seq<CellView>, nl: Seq<InstView>, t: TimingView, w: int) -> bool {
    &&& w >= 0
    &&& forall|i: int, j: int| #[trigger] driver_slew(lib, nl, t, i, j) matches Some(s) ==> s <= w
    &&& (w == 0 || exists|i: int, j: int|
        #[trigger] driver_slew(lib, nl, t, i, j) matches Some(s) && s == w)
}

/// The sinks on `net` among the first `m` connections of `inst`: `(instance, pin)` for each
/// input pin connected to `net`.
pub open spec fn inst_sinks(lib: Seq<CellView>, inst: InstView, net: Seq<char>, m: int) -> Seq<Pair>
    decreases m,
{
    if m <= 0 {
        Seq::empty()
    } else {
        let prev = inst_sinks(lib, inst, net, m - 1);
        if inst.conns[m - 1].1 == net && conn_dir(lib, inst, m - 1) == Some(PinDir::Input) {
            prev.push((inst.name, inst.conns[m - 1].0))
        } else {
            prev
        }
    }
}

/// The sinks on `net` among the first `n` instances, in netlist order.
pub open spec fn sinks_upto(lib: Seq<CellView>, nl: Seq<InstView>, net: Seq<char>, n: int) -> Seq<Pair>
    decreases n,
{
    if n <= 0 {
        Seq::empty()
    } else {
        sinks_upto(lib, nl, net, n - 1) + inst_sinks(lib, nl[n - 1], net, nl[n - 1].conns.len() as int)
    }
}

/// Every instance input pin on `net`, in netlist order.
pub open spec fn sink_list(lib: Seq<CellView>, nl: Seq<InstView>, net: Seq<char>) -> Seq<Pair> {
    sinks_upto(lib, nl, net, nl.len() as int)
}

/// The index of the first cell named `name`.
pub fn find_cell(lib: &Library, name: &String) -> (r: Option<usize>)
    ensures
        match r {
            Some(k) => finds_cell(lib@, name@, k as int) && cell_named(lib@, name@) == Some(lib@[k as int]),
            None => cell_named(lib@, name@) is None,
        },
{
    let mut k: usize = 0;
    while k < lib.cells.len()
        invariant
            k <= lib.cells.len(),
            forall|j: int| 0 <= j < k ==> #[trigger] lib@[j].name != name@,
        decreases lib.cells.len() - k,
    {
        assert(lib@[k as int] == lib.cells@[k as int]@);
        if lib.cells[k].name == *name {
            proof {
                assert(finds_cell(lib@, name@, k as int));
                let c = choose|c: int| finds_cell(lib@, name@, c);
                if c < k {
                    assert(lib@[c].name != name@);
                }
                if c > k {
                    assert(lib@[k as int].name != name@);
                }
            }
            return Some(k);
        }
        k = k + 1;
    }
    proof {
        if exists|c: int| finds_cell(lib@, name@, c) {
            let c = choose|c: int| finds_cell(lib@, name@, c);
            assert(lib@[c].name != name@);
        }
    }
    None
}

/// The direction of the pin `name` of `cell`.
pub fn find_pin_dir(cell: &CellDef, name: &String) -> (r: Option<PinDir>)
    ensures
        r == pin_dir(cell@, name@),
{
    let mut k: usize = 0;
    while k < cell.pins.len()
        invariant
            k <= cell.pins.len(),
            forall|j: int| 0 <= j < k ==> #[trigger] cell@.pins[j].name != name@,
        decreases cell.pins.len() - k,
    {
        assert(cell@.pins[k as int] == cell.pins@[k as int]@);
        if cell.pins[k].name == *name {
            proof {
                assert(finds_pin(cell@, name@, k as int));
                let c = choose|c: int| finds_pin(cell@, name@, c);
                if c < k {
                    assert(cell@.pins[c].name != name@);
                }
                if c > k {
                    assert(cell@.pins[k as int].name != name@);
                }
            }
            return Some(cell.pins[k].dir);
        }
        k = k + 1;
    }
    proof {
        if exists|c: int| finds_pin(cell@, name@, c) {
            let c = choose|c: int| finds_pin(cell@, name@, c);
            assert(cell@.pins[c].name != name@);
        }
    }
    None
}

/// The direction of connection `j` of `inst`.
pub fn connection_dir(lib: &Library, inst: &Inst, j: usize) -> (r: Option<PinDir>)
    requires
        j < inst.conns.len(),
    ensures
        r == conn_dir(lib@, inst@, j as int),
{
    match find_cell(lib, &inst.cell) {
        Some(k) => {
            assert(inst@.conns[j as int] == pair_view(inst.conns@[j as int]));
            find_pin_dir(&lib.cells[k], &inst.conns[j].0)
        },
        None => None,
    }
}

/// Whether a timing snapshot has a row per instance and an entry per connection of `nl`.
pub fn timing_fits(t: &Timing, nl: &Netlist) -> (r: bool)
    ensures
        r == fits(t@, nl@),
{
    if t.slews.len() != nl.insts.len() {
        return false;
    }
    let mut i: usize = 0;
    while i < nl.insts.len()
        invariant
            i <= nl.insts.len(),
            t.slews.len() == nl.insts.len(),
            forall|k: int| 0 <= k < i ==> #[trigger] t@.slews[k].len() == nl@[k].conns.len(),
        decreases nl.insts.len() - i,
    {
        assert(t@.slews[i as int] == t.slews@[i as int]@);
        assert(nl@[i as int] == nl.insts@[i as int]@);
        if t.slews[i].len() != nl.insts[i].conns.len() {
            return false;
        }
        i = i + 1;
    }
    true
}


/// The direction of pin `pin` of the cell named `cell`: what `conn_dir` reads.
pub open spec fn cell_pin_dir(lib: Seq<CellView>, cell: Seq<char>, pin: Seq<char>) -> Option<PinDir> {
    match cell_named(lib, cell) {
        Some(c) => pin_dir(c, pin),
        None => None,
    }
}

/// Each sink among the first `m` connections of `inst` is one of its input pins on `net`.
proof fn lemma_inst_sink_is_input(lib: Seq<CellView>, inst: InstView, net: Seq<char>, m: int, p: Pair)
    requires
        0 <= m <= inst.conns.len(),
        inst_sinks(lib, inst, net, m).contains(p),
    ensures
        exists|j: int|
            0 <= j < m && p == (inst.name, inst.conns[j].0) && #[trigger] conn_dir(lib, inst, j)
                == Some(PinDir::Input),
    decreases m,
{
    let prev = inst_sinks(lib, inst, net, m - 1);
    if inst.conns[m - 1].1 == net && conn_dir(lib, inst, m - 1) == Some(PinDir::Input) {
        let full = prev.push((inst.name, inst.conns[m - 1].0));
        let q = choose|q: int| 0 <= q < full.len() && #[trigger] full[q] == p;
        if q < prev.len() {
            assert(prev.contains(p));
            lemma_inst_sink_is_input(lib, inst, net, m - 1, p);
        } else {
            assert(conn_dir(lib, inst, m - 1) == Some(PinDir::Input));
        }
    } else {
        lemma_inst_sink_is_input(lib, inst, net, m - 1, p);
    }
}

/// Each sink on `net` is an input pin of some instance connected to `net`.
pub proof fn lemma_sink_is_input(lib: Seq<CellView>, nl: Seq<InstView>, net: Seq<char>, n: int, p: Pair)
    requires
        0 <= n <= nl.len(),
        sinks_upto(lib, nl, net, n).contains(p),
    ensures
        exists|i: int, j: int|
            0 <= i < nl.len() && 0 <= j < nl[i].conns.len() && p == (nl[i].name, nl[i].conns[j].0)
                && #[trigger] conn_dir(lib, nl[i], j) == Some(PinDir::Input),
    decreases n,
{
    let a = sinks_upto(lib, nl, net, n - 1);
    let b = inst_sinks(lib, nl[n - 1], net, nl[n - 1].conns.len() as int);
    let ab = a + b;
    let q = choose|q: int| 0 <= q < ab.len() && #[trigger] ab[q] == p;
    if q < a.len() {
        assert(a[q] == p);
        assert(a.contains(p));
        lemma_sink_is_input(lib, nl, net, n - 1, p);
    } else {
        assert(b[q - a.len()] == p);
        assert(b.contains(p));
        lemma_inst_sink_is_input(lib, nl[n - 1], net, nl[n - 1].conns.len() as int, p);
        let j = choose|j: int|
            0 <= j < nl[n - 1].conns.len() && p == (nl[n - 1].name, nl[n - 1].conns[j].0)
                && #[trigger] conn_dir(lib, nl[n - 1], j) == Some(PinDir::Input);
        assert(conn_dir(lib, nl[n - 1], j) == Some(PinDir::Input));
    }
}

/// A run needs at least one library cell: the libraries read together must not be empty.
pub fn check_library(lib: &Library) -> (r: Result<(), String>)
    ensures
        match r {
            Ok(_) => lib@.len() > 0,
            Err(e) => lib@.len() == 0 && e@ == "no cells in any .lib"@,
        },
{
    if lib.cells.len() == 0 {
        Err(String::from_str("no cells in any .lib"))
    } else {
        Ok(())
    }
}

} // verus!
