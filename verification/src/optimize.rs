//! The greedy insertion loop as a state machine: the caller times each netlist the machine
//! hands out (the timer is outside this crate) and hands the snapshot back.

use vstd::prelude::*;

use crate::engine::{
    buf_name, buf_net_name, buffer_pins, buffer_pins_of, copy_netlist, decimal_string, is_best,
    moved_sinks, split_net, split_netlist, worst_overslew, worst_slew,
};
use crate::job::BufCfg;
use crate::netlist::{fits, is_worst_slew, sink_list, InstView, Library, Netlist, Timing, TimingView};
use crate::order::{pair_order, pair_view, pair_views};
use crate::text::views;

verus! {

/// The margin by which a trial must lower the worst transition, 10^-9 ns, in zeptoseconds.
pub const TOLERANCE: i64 = 1000;

/// `x` when negative, else 0.
pub open spec fn min0(x: int) -> int {
    if x < 0 {
        x
    } else {
        0
    }
}

/// Setup stays acceptable: on a met design (`cur_wns >= 0`) the trial may use slack as long
/// as timing stays met; on a violating one it must not get worse.
pub open spec fn setup_holds(cur_wns: int, trial_wns: int) -> bool {
    if cur_wns >= 0 {
        trial_wns >= 0
    } else {
        trial_wns >= cur_wns
    }
}

/// A trial is kept iff its worst transition dropped and setup stays acceptable.
pub open spec fn accepts(cur_slew: int, trial_slew: int, cur_wns: int, trial_wns: int) -> bool {
    trial_slew < cur_slew - TOLERANCE && setup_holds(cur_wns, trial_wns)
}

/// Whether a trial is kept.
pub fn accept_trial(cur_slew: i64, trial_slew: i64, cur_wns: i64, trial_wns: i64) -> (r: bool)
    ensures
        r == accepts(cur_slew as int, trial_slew as int, cur_wns as int, trial_wns as int),
{
    let setup_ok = if cur_wns >= 0 {
        trial_wns >= 0
    } else {
        trial_wns >= cur_wns
    };
    (trial_slew as i128) < (cur_slew as i128) - (TOLERANCE as i128) && setup_ok
}

/// Two worst transitions of one design are the same.
pub proof fn lemma_worst_unique(
    lib: Seq<crate::netlist::CellView>,
    nl: Seq<InstView>,
    t: TimingView,
    w1: int,
    w2: int,
)
    requires
        is_worst_slew(lib, nl, t, w1),
        is_worst_slew(lib, nl, t, w2),
    ensures
        w1 == w2,
{
    if w1 < w2 {
        let (i, j) = choose|i: int, j: int|
            #[trigger] crate::netlist::driver_slew(lib, nl, t, i, j) matches Some(s) && s == w2;
        assert(crate::netlist::driver_slew(lib, nl, t, i, j) matches Some(s) && s == w2);
    }
    if w2 < w1 {
        let (i, j) = choose|i: int, j: int|
            #[trigger] crate::netlist::driver_slew(lib, nl, t, i, j) matches Some(s) && s == w1;
        assert(crate::netlist::driver_slew(lib, nl, t, i, j) matches Some(s) && s == w1);
    }
}

/// Connection `j` of instance `i` drives a net the loop could relieve in its current state.
pub(crate) open spec fn is_eligible_now(o: &Optimizer, i: int, j: int) -> bool {
    crate::engine::eligible(
        o.lib@,
        o.nl@,
        o.timing@,
        o.cfg@,
        o.limit as int,
        views(o.tried@),
        i,
        j,
    )
}

/// The state a kept buffer was chosen in: the netlist, its timing, the nets tried since the
/// previous insertion.
pub struct StepView {
    pub before: Seq<InstView>,
    pub timing: TimingView,
    pub tried: Seq<Seq<char>>,
}

/// What a run went through: the first and the last timing, the rounds run, the nets tried
/// since the last insertion, and the state before each kept buffer.
pub struct RunTrace {
    pub first_timing: TimingView,
    pub final_timing: TimingView,
    pub rounds: nat,
    pub tried: Seq<Seq<char>>,
    pub steps: Seq<StepView>,
}

/// The rounds the recorded states account for: for each kept buffer, the rounds of the nets
/// turned down in the state it was chosen in, and its own round.
pub open spec fn steps_rounds(steps: Seq<StepView>) -> nat
    decreases steps.len(),
{
    if steps.len() == 0 {
        0
    } else {
        steps_rounds(steps.drop_last()) + steps.last().tried.len() + 1
    }
}

/// `a` is instance `b` with at most its nets changed: same name, cell and pins.
pub open spec fn keeps_instance(a: InstView, b: InstView) -> bool {
    &&& a.name == b.name
    &&& a.cell == b.cell
    &&& a.conns.len() == b.conns.len()
    &&& forall|j: int| 0 <= j < a.conns.len() ==> #[trigger] a.conns[j].0 == b.conns[j].0
}

/// `net` is the net chosen to relieve in state `s`: the best candidate there.
pub open spec fn is_step(
    lib: Seq<crate::netlist::CellView>,
    cfg: crate::job::CfgView,
    limit: int,
    s: StepView,
    net: Seq<char>,
) -> bool {
    exists|i: int, j: int|
        #[trigger] is_best(lib, s.before, s.timing, cfg, limit, s.tried, i, j) && net
            == s.before[i].conns[j].1
}

/// The netlist after the `k`-th buffer relieves `net` in state `s`.
pub open spec fn step_result(
    lib: Seq<crate::netlist::CellView>,
    buffer: Seq<char>,
    bin: Seq<char>,
    bout: Seq<char>,
    s: StepView,
    net: Seq<char>,
    k: nat,
) -> Seq<InstView> {
    trial_of(lib, buffer, bin, bout, s.before, net, k)
}

/// The kept buffers chain from `start` (timed `start_timing`) to `last`: buffer `k` relieved
/// `nets[k]`, the best candidate of `steps[k]`, and its split gives the next state.
pub open spec fn chain_ok(
    lib: Seq<crate::netlist::CellView>,
    cfg: crate::job::CfgView,
    limit: int,
    bin: Seq<char>,
    bout: Seq<char>,
    start: Seq<InstView>,
    start_timing: TimingView,
    steps: Seq<StepView>,
    nets: Seq<Seq<char>>,
    last: Seq<InstView>,
) -> bool {
    &&& steps.len() == nets.len()
    &&& steps.len() > 0 ==> steps[0].before == start && steps[0].timing == start_timing
    &&& forall|k: int| 0 <= k < steps.len() ==> is_step(lib, cfg, limit, #[trigger] steps[k], nets[k])
    &&& forall|k: int|
        0 <= k < steps.len() ==> (if k + 1 < steps.len() {
            steps[k + 1].before
        } else {
            last
        }) == step_result(lib, cfg.buffer, bin, bout, #[trigger] steps[k], nets[k], k as nat)
}

/// The nets of the kept buffers.
pub open spec fn relieved_nets(inserted: Seq<(String, String)>) -> Seq<Seq<char>> {
    inserted.map_values(|p: (String, String)| p.1@)
}

/// The state that follows the `k`-th kept buffer: the state the next buffer was chosen in, or
/// `last` (timed `last_timing`) after the final one.
pub open spec fn after_step(
    steps: Seq<StepView>,
    k: int,
    last: Seq<InstView>,
    last_timing: TimingView,
) -> StepView {
    if k + 1 < steps.len() {
        steps[k + 1]
    } else {
        StepView { before: last, timing: last_timing, tried: Seq::empty() }
    }
}

/// The `k`-th kept buffer passed the rule of its round: against the state it was chosen in,
/// the state it gave has a lower worst transition and setup that is still acceptable.
pub open spec fn step_accepted(
    lib: Seq<crate::netlist::CellView>,
    steps: Seq<StepView>,
    k: int,
    last: Seq<InstView>,
    last_timing: TimingView,
) -> bool {
    let next = after_step(steps, k, last, last_timing);
    forall|w1: int, w2: int|
        #[trigger] is_worst_slew(lib, steps[k].before, steps[k].timing, w1) && #[trigger] is_worst_slew(
            lib,
            next.before,
            next.timing,
            w2,
        ) ==> accepts(w1, w2, steps[k].timing.wns as int, next.timing.wns as int)
}

/// Recording one more kept buffer, chosen in state `last` and accepted against the state it
/// gave, keeps every recorded buffer accepted.
proof fn lemma_accepted_push(
    lib: Seq<crate::netlist::CellView>,
    steps: Seq<StepView>,
    step: StepView,
    last: Seq<InstView>,
    last_timing: TimingView,
    next: Seq<InstView>,
    next_timing: TimingView,
)
    requires
        forall|k: int| 0 <= k < steps.len() ==> #[trigger] step_accepted(lib, steps, k, last, last_timing),
        step.before == last,
        step.timing == last_timing,
        forall|w1: int, w2: int|
            #[trigger] is_worst_slew(lib, last, last_timing, w1) && #[trigger] is_worst_slew(
                lib,
                next,
                next_timing,
                w2,
            ) ==> accepts(w1, w2, last_timing.wns as int, next_timing.wns as int),
    ensures
        forall|k: int|
            0 <= k < steps.len() + 1 ==> #[trigger] step_accepted(
                lib,
                steps.push(step),
                k,
                next,
                next_timing,
            ),
{
    let ns = steps.push(step);
    assert forall|k: int| 0 <= k < steps.len() + 1 implies #[trigger] step_accepted(
        lib,
        ns,
        k,
        next,
        next_timing,
    ) by {
        let nx = after_step(ns, k, next, next_timing);
        assert forall|w1: int, w2: int|
            #[trigger] is_worst_slew(lib, ns[k].before, ns[k].timing, w1) && #[trigger] is_worst_slew(
                lib,
                nx.before,
                nx.timing,
                w2,
            ) implies accepts(w1, w2, ns[k].timing.wns as int, nx.timing.wns as int) by {
            if k < steps.len() {
                assert(ns[k] == steps[k]);
                let ox = after_step(steps, k, last, last_timing);
                if k + 1 < steps.len() {
                    assert(ns[k + 1] == steps[k + 1]);
                } else {
                    assert(ns[k + 1] == step);
                }
                assert(ox.before == nx.before && ox.timing == nx.timing);
                assert(step_accepted(lib, steps, k, last, last_timing));
                assert(is_worst_slew(lib, steps[k].before, steps[k].timing, w1));
                assert(is_worst_slew(lib, ox.before, ox.timing, w2));
            } else {
                assert(ns[k] == step);
                assert(is_worst_slew(lib, last, last_timing, w1));
                assert(is_worst_slew(lib, next, next_timing, w2));
            }
        }
    }
}

/// A kept trial leaves the loop well formed: the new state is the trial, timed `t` with worst
/// transition `tw`, the buffer and the state it was chosen in are recorded.
proof fn lemma_keep_wf<'a>(o: Optimizer<'a>, n: Optimizer<'a>, t: Timing, tw: int)
    requires
        o.wf(),
        o.pending matches Some(p) && fits(t@, p.netlist@),
        n.same_setup(&o),
        n.pending is None,
        n.rounds == o.rounds + 1,
        n.stopped == o.stopped,
        n.nl@ == o.pending->Some_0.netlist@,
        n.timing@ == t@,
        n.tried@.len() == 0,
        n.worst_now@ == tw,
        is_worst_slew(o.lib@, o.pending->Some_0.netlist@, t@, tw),
        accepts(o.pending->Some_0.cur_slew as int, tw, o.timing.wns as int, t.wns as int),
        n.inserted@ == o.inserted@.push((o.pending->Some_0.bufname, o.pending->Some_0.net)),
        n.history@ == o.history@.push(
            StepView { before: o.nl@, timing: o.timing@, tried: views(o.tried@) },
        ),
    ensures
        n.wf(),
{
    let step = StepView { before: o.nl@, timing: o.timing@, tried: views(o.tried@) };
    let nn = o.inserted@.len();
    let pv = pair_views(o.inserted@);
    lemma_worst_unique(o.lib@, o.nl@, o.timing@, o.worst_now@, o.pending->Some_0.cur_slew as int);
    assert(n.history@.drop_last() =~= o.history@);
    assert(pair_views(n.inserted@) =~= pv.push(pair_view(n.inserted@[nn as int])));
    let init = n.initial@.len();
    assert forall|k: int| 0 <= k < n.inserted@.len() implies {
        &&& (#[trigger] n.inserted@[k]).0@ == buf_name(k as nat)
        &&& n.nl@[init + k].name == buf_name(k as nat)
        &&& n.nl@[init + k].cell == n.cfg.buffer@
    } by {
        if k < nn {
            assert(n.inserted@[k] == o.inserted@[k]);
            assert(o.inserted@[k] == o.inserted@[k]);
            assert(n.nl@[init + k] == crate::engine::rewired_inst(
                o.nl@[init + k],
                o.pending->Some_0.net@,
                moved_sinks(
                    sink_list(n.lib@, o.nl@, o.pending->Some_0.net@).sort_by(
                        pair_order(),
                    ),
                ),
                buf_net_name(nn as nat),
            ));
        }
    }
    let lim = n.limit as int;
    let net = o.pending->Some_0.net@;
    let moved = moved_sinks(sink_list(n.lib@, o.nl@, net).sort_by(pair_order()));
    let nets_old = relieved_nets(o.inserted@);
    let nets = relieved_nets(n.inserted@);
    assert(nets =~= nets_old.push(net));
    assert(n.history@ =~= o.history@.push(step));
    assert forall|k: int| 0 <= k < n.history@.len() implies is_step(
        n.lib@,
        n.cfg@,
        lim,
        #[trigger] n.history@[k],
        nets[k],
    ) by {
        if k < nn {
            assert(n.history@[k] == o.history@[k]);
            assert(nets[k] == nets_old[k]);
        } else {
            let (bi, bj) = choose|i: int, j: int|
                #[trigger] is_best(
                    n.lib@,
                    o.nl@,
                    step.timing,
                    n.cfg@,
                    lim,
                    step.tried,
                    i,
                    j,
                ) && net == o.nl@[i].conns[j].1;
            assert(is_best(
                n.lib@,
                step.before,
                step.timing,
                n.cfg@,
                lim,
                step.tried,
                bi,
                bj,
            ));
        }
    }
    assert forall|k: int| 0 <= k < n.history@.len() implies (if k + 1
        < n.history@.len() {
        n.history@[k + 1].before
    } else {
        n.nl@
    }) == step_result(
        n.lib@,
        n.cfg.buffer@,
        n.bin@,
        n.bout@,
        #[trigger] n.history@[k],
        nets[k],
        k as nat,
    ) by {
        if k < nn {
            assert(n.history@[k] == o.history@[k]);
            assert(nets[k] == nets_old[k]);
            if k + 1 < nn {
                assert(n.history@[k + 1] == o.history@[k + 1]);
            }
        }
    }
    assert forall|w1: int, w2: int|
        #[trigger] is_worst_slew(n.lib@, o.nl@, step.timing, w1) && #[trigger] is_worst_slew(
            n.lib@,
            n.nl@,
            n.timing@,
            w2,
        ) implies accepts(w1, w2, step.timing.wns as int, n.timing.wns as int) by {
        lemma_worst_unique(n.lib@, o.nl@, step.timing, w1, o.pending->Some_0.cur_slew as int);
        lemma_worst_unique(n.lib@, n.nl@, n.timing@, w2, tw);
    }
    lemma_accepted_push(
        n.lib@,
        o.history@,
        step,
        o.nl@,
        step.timing,
        n.nl@,
        n.timing@,
    );
    assert forall|i: int| 0 <= i < n.initial@.len() implies keeps_instance(
        #[trigger] n.nl@[i],
        n.initial@[i],
    ) by {
        assert(n.nl@[i] == crate::engine::rewired_inst(
            o.nl@[i],
            net,
            moved,
            buf_net_name(nn as nat),
        ));
        assert(keeps_instance(o.nl@[i], n.initial@[i]));
        assert forall|j: int| 0 <= j < n.nl@[i].conns.len() implies #[trigger] n.nl@[
            i].conns[j].0 == n.initial@[i].conns[j].0 by {
            assert(o.nl@[i].conns[j].0 == n.initial@[i].conns[j].0);
        }
    }
}

/// A job ready to run: the buffer cell checked, the netlist waiting for its first timing.
pub(crate) struct Prepared<'a> {
    pub lib: &'a Library,
    pub cfg: &'a BufCfg,
    /// The transition limit, in zeptoseconds.
    pub limit: i64,
    pub nl: Netlist,
    pub bin: String,
    pub bout: String,
}

/// A split netlist waiting for its timing.
#[derive(Debug)]
pub(crate) struct Trial {
    /// The net the buffer relieves.
    pub net: String,
    /// The buffer instance's name.
    pub bufname: String,
    /// The netlist with the buffer inserted.
    pub netlist: Netlist,
    /// The worst transition of the current netlist, which the trial must beat.
    pub cur_slew: i64,
}

/// The insertion loop between rounds.
pub(crate) struct Optimizer<'a> {
    pub lib: &'a Library,
    pub cfg: &'a BufCfg,
    pub limit: i64,
    pub bin: String,
    pub bout: String,
    /// The netlist with every buffer kept so far, and its timing.
    pub nl: Netlist,
    pub timing: Timing,
    pub before_wns: i64,
    pub before_slew: i64,
    /// Nets that could not be helped since the last insertion.
    pub tried: Vec<String>,
    /// `(buffer instance, net it relieves)` for every buffer kept, in order.
    pub inserted: Vec<(String, String)>,
    /// Rounds run so far (at most `cfg.effort`).
    pub rounds: usize,
    /// No net was left to try.
    pub stopped: bool,
    pub pending: Option<Trial>,
    /// The netlist and timing the loop started from.
    pub initial: Ghost<Seq<InstView>>,
    pub first_timing: Ghost<TimingView>,
    /// The worst transition of `nl` under `timing`.
    pub worst_now: Ghost<int>,
    /// The state before each kept buffer.
    pub history: Ghost<Seq<StepView>>,
}

/// The outcome of a run.
pub struct BufResult {
    pub before_wns: i64,
    pub after_wns: i64,
    /// Worst driver output transition before and after.
    pub before_slew: i64,
    pub after_slew: i64,
    pub max_slew_limit: i64,
    /// `(buffer instance, net it relieved)` for every inserted buffer, in order.
    pub inserted: Vec<(String, String)>,
    /// The buffered netlist.
    pub netlist: Netlist,
    /// How the run got there.
    pub trace: Ghost<RunTrace>,
}

/// Checks the buffer cell of `cfg` against the library; the netlist then waits for its
/// first timing.
pub(crate) fn prepare<'a>(nl: Netlist, lib: &'a Library, cfg: &'a BufCfg, limit: i64) -> (r: Result<
    Prepared<'a>,
    String,
>)
    ensures
        match r {
            Ok(p) => {
                &&& buffer_pins_of(lib@, cfg.buffer@) == Ok::<(Seq<char>, Seq<char>), Seq<char>>(
                    (p.bin@, p.bout@),
                )
                &&& p.nl == nl
                &&& p.lib == lib
                &&& p.cfg == cfg
                &&& p.limit == limit
            },
            Err(e) => buffer_pins_of(lib@, cfg.buffer@) == Err::<(Seq<char>, Seq<char>), Seq<char>>(
                e@,
            ),
        },
{
    match buffer_pins(lib, &cfg.buffer) {
        Ok((bin, bout)) => Ok(Prepared { lib, cfg, limit, nl, bin, bout }),
        Err(e) => Err(e),
    }
}

impl<'a> Prepared<'a> {
    /// The buffer pins were taken from the library.
    pub(crate) open spec fn wf(&self) -> bool {
        buffer_pins_of(self.lib@, self.cfg.buffer@) == Ok::<(Seq<char>, Seq<char>), Seq<char>>(
            (self.bin@, self.bout@),
        )
    }

    /// Starts the loop from the timing of the unbuffered netlist.
    pub(crate) fn start(self, timing: Timing) -> (r: Optimizer<'a>)
        requires
            self.wf(),
            fits(timing@, self.nl@),
        ensures
            r.wf(),
            r.pending is None,
            r.inserted@.len() == 0,
            r.rounds == 0,
            !r.stopped,
            r.tried@.len() == 0,
            r.history@.len() == 0,
            r.nl@ == self.nl@,
            r.timing@ == timing@,
            r.initial@ == self.nl@,
            r.first_timing@ == timing@,
            r.before_wns == timing.wns,
            is_worst_slew(self.lib@, self.nl@, timing@, r.before_slew as int),
            r.lib == self.lib,
            r.cfg == self.cfg,
            r.limit == self.limit,
            r.bin == self.bin,
            r.bout == self.bout,
    {
        let before_slew = worst_slew(&timing, &self.nl, self.lib);
        let ghost nv = self.nl@;
        let ghost tv = timing@;
        Optimizer {
            lib: self.lib,
            cfg: self.cfg,
            limit: self.limit,
            bin: self.bin,
            bout: self.bout,
            nl: self.nl,
            before_wns: timing.wns,
            timing,
            before_slew,
            tried: Vec::new(),
            inserted: Vec::new(),
            rounds: 0,
            stopped: false,
            pending: None,
            initial: Ghost(nv),
            first_timing: Ghost(tv),
            worst_now: Ghost(before_slew as int),
            history: Ghost(Seq::empty()),
        }
    }
}

impl<'a> Optimizer<'a> {
    /// The loop's invariant: what every round keeps.
    pub(crate) open spec fn wf(&self) -> bool {
        &&& fits(self.timing@, self.nl@)
        &&& buffer_pins_of(self.lib@, self.cfg.buffer@) == Ok::<(Seq<char>, Seq<char>), Seq<char>>(
            (self.bin@, self.bout@),
        )
        &&& self.inserted@.len() <= self.rounds <= self.cfg.effort
        &&& self.rounds == steps_rounds(self.history@) + self.tried@.len()
        &&& self.nl@.len() == self.initial@.len() + self.inserted@.len()
        &&& forall|k: int|
            0 <= k < self.inserted@.len() ==> {
                &&& (#[trigger] self.inserted@[k]).0@ == buf_name(k as nat)
                &&& self.nl@[self.initial@.len() + k].name == buf_name(k as nat)
                &&& self.nl@[self.initial@.len() + k].cell == self.cfg.buffer@
            }
        &&& is_worst_slew(self.lib@, self.initial@, self.first_timing@, self.before_slew as int)
        &&& self.before_wns == self.first_timing@.wns
        &&& is_worst_slew(self.lib@, self.nl@, self.timing@, self.worst_now@)
        &&& self.worst_now@ + (TOLERANCE + 1) * self.inserted@.len() <= self.before_slew
        &&& self.timing.wns >= min0(self.before_wns as int)
        &&& chain_ok(
            self.lib@,
            self.cfg@,
            self.limit as int,
            self.bin@,
            self.bout@,
            self.initial@,
            self.first_timing@,
            self.history@,
            relieved_nets(self.inserted@),
            self.nl@,
        )
        &&& forall|k: int|
            0 <= k < self.history@.len() ==> #[trigger] step_accepted(
                self.lib@,
                self.history@,
                k,
                self.nl@,
                self.timing@,
            )
        &&& forall|i: int|
            0 <= i < self.initial@.len() ==> keeps_instance(#[trigger] self.nl@[i], self.initial@[i])
        &&& self.inserted@.len() == 0 ==> self.nl@ == self.initial@ && self.timing@
            == self.first_timing@
        &&& self.stopped ==> forall|i: int, j: int|
            !#[trigger] is_eligible_now(self, i, j)
        &&& match self.pending {
            Some(p) => !self.stopped && self.pending_is_next(p),
            None => true,
        }
    }

    /// `p` is the trial of this round: the best candidate's net split with the next buffer.
    pub(crate) open spec fn pending_is_next(&self, p: Trial) -> bool {
        &&& self.rounds < self.cfg.effort
        &&& p.bufname@ == buf_name(self.inserted@.len())
        &&& is_worst_slew(self.lib@, self.nl@, self.timing@, p.cur_slew as int)
        &&& exists|i: int, j: int|
            #[trigger] is_best(
                self.lib@,
                self.nl@,
                self.timing@,
                self.cfg@,
                self.limit as int,
                views(self.tried@),
                i,
                j,
            ) && p.net@ == self.nl@[i].conns[j].1
        &&& p.netlist@ == split_netlist(
            self.nl@,
            p.net@,
            moved_sinks(sink_list(self.lib@, self.nl@, p.net@).sort_by(pair_order())),
            self.cfg.buffer@,
            self.bin@,
            self.bout@,
            buf_name(self.inserted@.len()),
            buf_net_name(self.inserted@.len()),
        )
    }

    /// The rest of the state is as it was.
    pub(crate) open spec fn same_setup(&self, other: &Optimizer<'a>) -> bool {
        &&& self.lib == other.lib
        &&& self.cfg == other.cfg
        &&& self.limit == other.limit
        &&& self.bin == other.bin
        &&& self.bout == other.bout
        &&& self.before_wns == other.before_wns
        &&& self.before_slew == other.before_slew
        &&& self.initial == other.initial
        &&& self.first_timing == other.first_timing
    }

    /// Starts a round: returns `false` when the loop is over (the effort is spent or no net
    /// is eligible), else sets `pending` to the best candidate's net split with a fresh buffer,
    /// which the caller is to time and hand to `settle`.
    pub(crate) fn propose(&mut self) -> (r: bool)
        requires
            old(self).wf(),
            old(self).pending is None,
        ensures
            final(self).wf(),
            final(self).same_setup(old(self)),
            final(self).nl@ == old(self).nl@,
            final(self).timing@ == old(self).timing@,
            pair_views(final(self).inserted@) == pair_views(old(self).inserted@),
            views(final(self).tried@) == views(old(self).tried@),
            final(self).rounds == old(self).rounds,
            final(self).history@ == old(self).history@,
            final(self).worst_now@ == old(self).worst_now@,
            final(self).tried@ == old(self).tried@,
            final(self).inserted@ == old(self).inserted@,
            r == final(self).pending is Some,
            (old(self).stopped || old(self).rounds == old(self).cfg.effort) ==> !r,
            !old(self).stopped && old(self).rounds < old(self).cfg.effort ==> (r <==> exists|
                i: int,
                j: int,
            |
                #[trigger] is_best(
                    old(self).lib@,
                    old(self).nl@,
                    old(self).timing@,
                    old(self).cfg@,
                    old(self).limit as int,
                    views(old(self).tried@),
                    i,
                    j,
                )),
            final(self).stopped == (old(self).stopped || (!r && old(self).rounds
                < old(self).cfg.effort)),
    {
        if self.stopped || self.rounds >= self.cfg.effort {
            return false;
        }
        let cur = worst_slew(&self.timing, &self.nl, self.lib);
        match worst_overslew(&self.timing, &self.nl, self.lib, self.cfg, self.limit, &self.tried) {
            None => {
                self.stopped = true;
                false
            },
            Some(cand) => {
                let mut trial = copy_netlist(&self.nl);
                let num = decimal_string(self.inserted.len());
                let bufname = String::from_str("__buf_").concat(num.as_str());
                let bufnet = String::from_str("__bufn_").concat(num.as_str());
                split_net(
                    &mut trial,
                    &cand,
                    self.cfg,
                    self.bin.as_str(),
                    self.bout.as_str(),
                    bufname.as_str(),
                    bufnet.as_str(),
                );
                let ghost cnet = cand.net@;
                let ghost lv = self.lib@;
                let ghost nv = self.nl@;
                let ghost tv = self.timing@;
                let ghost cv = self.cfg@;
                let ghost trv = views(self.tried@);
                let ghost lim = self.limit as int;
                self.pending = Some(Trial { net: cand.net, bufname, netlist: trial, cur_slew: cur });
                proof {
                    let p = self.pending->Some_0;
                    let (bi, bj) = choose|i: int, j: int|
                        #[trigger] is_best(lv, nv, tv, cv, lim, trv, i, j) && cnet == nv[i].conns[j].1;
                    assert(is_best(
                        self.lib@,
                        self.nl@,
                        self.timing@,
                        self.cfg@,
                        self.limit as int,
                        views(self.tried@),
                        bi,
                        bj,
                    ));
                    assert(self.pending_is_next(p));
                }
                true
            },
        }
    }

    /// The netlist of the pending trial.
    pub(crate) fn trial_netlist(&self) -> (r: &Netlist)
        requires
            self.pending is Some,
        ensures
            *r == self.pending->Some_0.netlist,
    {
        &self.pending.as_ref().unwrap().netlist
    }

    /// Ends a round with the timing of the pending trial: the trial is kept iff
    /// `accepts(cur_slew, its worst transition, current WNS, its WNS)`; a kept trial becomes
    /// the current netlist and clears `tried`, a rejected one adds its net to `tried`.
    pub(crate) fn settle(&mut self, t: Timing)
        requires
            old(self).wf(),
            old(self).pending matches Some(p) && fits(t@, p.netlist@),
        ensures
            final(self).wf(),
            final(self).same_setup(old(self)),
            final(self).pending is None,
            final(self).rounds == old(self).rounds + 1,
            final(self).stopped == old(self).stopped,
            exists|w: int| is_worst_slew(old(self).lib@, old(self).pending->Some_0.netlist@, t@, w),
            ({
                let p = old(self).pending->Some_0;
                let kept = final(self).inserted@.len() == old(self).inserted@.len() + 1;
                &&& forall|w: int|
                    is_worst_slew(old(self).lib@, p.netlist@, t@, w) ==> (kept <==> accepts(
                        p.cur_slew as int,
                        w,
                        old(self).timing.wns as int,
                        t.wns as int,
                    ))
                &&& kept ==> {
                    &&& final(self).nl@ == p.netlist@
                    &&& final(self).timing@ == t@
                    &&& final(self).tried@.len() == 0
                    &&& pair_views(final(self).inserted@) == pair_views(old(self).inserted@).push(
                        (p.bufname@, p.net@),
                    )
                    &&& final(self).history@ == old(self).history@.push(
                        StepView {
                            before: old(self).nl@,
                            timing: old(self).timing@,
                            tried: views(old(self).tried@),
                        },
                    )
                }
                &&& !kept ==> {
                    &&& final(self).nl@ == old(self).nl@
                    &&& final(self).timing@ == old(self).timing@
                    &&& views(final(self).tried@) == views(old(self).tried@).push(p.net@)
                    &&& pair_views(final(self).inserted@) == pair_views(old(self).inserted@)
                    &&& final(self).history@ == old(self).history@
                }
            }),
    {
        let ghost old_self = *self;
        let p = self.pending.take().unwrap();
        let tw = worst_slew(&t, &p.netlist, self.lib);
        let n = self.inserted.len();
        proof {
            lemma_worst_unique(self.lib@, self.nl@, self.timing@, self.worst_now@, p.cur_slew as int);
        }
        if accept_trial(p.cur_slew, tw, self.timing.wns, t.wns) {
            let ghost old_hist = self.history@;
            let ghost step = StepView {
                before: self.nl@,
                timing: self.timing@,
                tried: views(self.tried@),
            };
            self.inserted.push((p.bufname, p.net));
            self.nl = p.netlist;
            self.timing = t;
            self.tried = Vec::new();
            self.worst_now = Ghost(tw as int);
            self.history = Ghost(self.history@.push(step));
            self.rounds = self.rounds + 1;
            proof {
                lemma_keep_wf(old_self, *self, t, tw as int);
            }
        } else {
            let ghost tv = views(self.tried@);
            self.tried.push(p.net);
            assert(views(self.tried@) =~= tv.push(self.tried@[self.tried@.len() - 1]@));
            self.rounds = self.rounds + 1;
        }
        proof {
            assert forall|w: int|
                is_worst_slew(old_self.lib@, old_self.pending->Some_0.netlist@, t@, w) implies w
                == tw by {
                lemma_worst_unique(old_self.lib@, old_self.pending->Some_0.netlist@, t@, w, tw as int);
            }
        }
    }

    /// Ends the loop and reports the outcome.
    pub(crate) fn finish(self) -> (r: BufResult)
        requires
            self.wf(),
            self.pending is None,
        ensures
            r.before_wns == self.before_wns,
            r.before_slew == self.before_slew,
            r.after_wns == self.timing.wns,
            is_worst_slew(self.lib@, self.nl@, self.timing@, r.after_slew as int),
            r.max_slew_limit == self.limit,
            r.netlist@ == self.nl@,
            pair_views(r.inserted@) == pair_views(self.inserted@),
            // the worst transition before and after: unchanged when no buffer was kept, and
            // every kept buffer lowered it by more than the tolerance
            r.inserted@.len() == 0 ==> r.after_slew == r.before_slew && r.after_wns
                == r.before_wns && r.netlist@ == self.initial@,
            r.after_slew + (TOLERANCE + 1) * r.inserted@.len() <= r.before_slew,
            // setup: a met design stays met and a violating one gets no worse
            r.after_wns >= min0(r.before_wns as int),
            r.trace@ == (RunTrace {
                first_timing: self.first_timing@,
                final_timing: self.timing@,
                rounds: self.rounds as nat,
                tried: views(self.tried@),
                steps: self.history@,
            }),
            // a loop that stopped early found no net left to relieve
            self.stopped ==> forall|i: int, j: int| !#[trigger] is_eligible_now(&self, i, j),
            // the netlist grew by exactly the kept buffers, named `__buf_0`, `__buf_1`, ...
            r.inserted@.len() <= self.cfg.effort,
            r.netlist@.len() == self.initial@.len() + r.inserted@.len(),
            forall|k: int|
                0 <= k < r.inserted@.len() ==> {
                    &&& (#[trigger] r.inserted@[k]).0@ == buf_name(k as nat)
                    &&& r.netlist@[self.initial@.len() + k].name == buf_name(k as nat)
                    &&& r.netlist@[self.initial@.len() + k].cell == self.cfg.buffer@
                },
    {
        let after_slew = worst_slew(&self.timing, &self.nl, self.lib);
        proof {
            lemma_worst_unique(self.lib@, self.nl@, self.timing@, self.worst_now@, after_slew as int);
            if self.inserted@.len() == 0 {
                lemma_worst_unique(
                    self.lib@,
                    self.initial@,
                    self.first_timing@,
                    self.before_slew as int,
                    after_slew as int,
                );
            }
        }
        BufResult {
            before_wns: self.before_wns,
            after_wns: self.timing.wns,
            before_slew: self.before_slew,
            after_slew,
            max_slew_limit: self.limit,
            inserted: self.inserted,
            netlist: self.nl,
            trace: Ghost(
                RunTrace {
                    first_timing: self.first_timing@,
                    final_timing: self.timing@,
                    rounds: self.rounds as nat,
                    tried: views(self.tried@),
                    steps: self.history@,
                },
            ),
        }
    }
}


/// The error given when a timing snapshot does not match the netlist it was taken on.
pub open spec fn snapshot_mismatch() -> Seq<char> {
    "timing snapshot does not match the netlist"@
}

/// `time` may give `t` for a netlist that views as `n`.
pub open spec fn timed_by<F: Fn(&Netlist) -> Result<Timing, String>>(
    time: F,
    n: Seq<InstView>,
    t: TimingView,
) -> bool {
    exists|nr: &Netlist, tt: Timing|
        #[trigger] call_ensures(time, (nr,), Ok::<Timing, String>(tt)) && nr@ == n && tt@ == t
}

/// The netlist a trial of `net` builds on `nl` with the buffer numbered `k`: the first half
/// of the net's sorted sinks moved onto the buffer's fresh net.
pub open spec fn trial_of(
    lib: Seq<crate::netlist::CellView>,
    buffer: Seq<char>,
    bin: Seq<char>,
    bout: Seq<char>,
    nl: Seq<InstView>,
    net: Seq<char>,
    k: nat,
) -> Seq<InstView> {
    split_netlist(
        nl,
        net,
        moved_sinks(sink_list(lib, nl, net).sort_by(pair_order())),
        buffer,
        bin,
        bout,
        buf_name(k),
        buf_net_name(k),
    )
}

/// A netlist the run may hand to the timer: `nl` itself, or, with fewer than `cfg.effort`
/// buffers kept, the trial of the best candidate of a netlist that `time` timed, built with the
/// buffer cell of `cfg` and its pins in `lib`.
pub open spec fn handed<F: Fn(&Netlist) -> Result<Timing, String>>(
    time: F,
    lib: Seq<crate::netlist::CellView>,
    cfg: crate::job::CfgView,
    limit: int,
    nl: Seq<InstView>,
    n: Seq<InstView>,
) -> bool {
    let (bin, bout) = buffer_pins_of(lib, cfg.buffer)->Ok_0;
    ||| n == nl
    ||| exists|m: Seq<InstView>, mt: TimingView, tried: Seq<Seq<char>>, i: int, j: int, k: nat|
        #[trigger] timed_by(time, m, mt) && #[trigger] is_best(lib, m, mt, cfg, limit, tried, i, j)
            && k < cfg.effort && n == #[trigger] trial_of(
            lib,
            cfg.buffer,
            bin,
            bout,
            m,
            m[i].conns[j].1,
            k,
        )
}

/// `tried[k]` was tried on `nl` (timed `timing`, worst transition `cur`, `kept` buffers so
/// far) and turned down: it was the best candidate once `tried[..k]` were set aside, `time`
/// timed its trial, and that trial was not accepted.
pub open spec fn turned_down<F: Fn(&Netlist) -> Result<Timing, String>>(
    time: F,
    lib: Seq<crate::netlist::CellView>,
    cfg: crate::job::CfgView,
    limit: int,
    bin: Seq<char>,
    bout: Seq<char>,
    nl: Seq<InstView>,
    timing: TimingView,
    cur: int,
    tried: Seq<Seq<char>>,
    kept: nat,
    k: int,
) -> bool {
    let trial = trial_of(lib, cfg.buffer, bin, bout, nl, tried[k], kept);
    &&& is_step(lib, cfg, limit, StepView { before: nl, timing, tried: tried.take(k) }, tried[k])
    &&& exists|tt: TimingView, w: int|
        #[trigger] timed_by(time, trial, tt) && fits(tt, trial) && #[trigger] is_worst_slew(
            lib,
            trial,
            tt,
            w,
        ) && !accepts(cur, w, timing.wns, tt.wns)
}

/// What `time` did for the loop so far: it timed the current netlist, and the state before
/// each kept buffer; each net set aside since the last kept buffer was turned down.
pub(crate) open spec fn recorded<'a, F: Fn(&Netlist) -> Result<Timing, String>>(
    time: F,
    o: Optimizer<'a>,
) -> bool {
    &&& timed_by(time, o.nl@, o.timing@)
    &&& forall|k: int|
        0 <= k < o.history@.len() ==> timed_by(
            time,
            (#[trigger] o.history@[k]).before,
            o.history@[k].timing,
        )
    &&& forall|k: int|
        0 <= k < o.tried@.len() ==> #[trigger] turned_down(
            time,
            o.lib@,
            o.cfg@,
            o.limit as int,
            o.bin@,
            o.bout@,
            o.nl@,
            o.timing@,
            o.worst_now@,
            views(o.tried@),
            o.inserted@.len(),
            k,
        )
    &&& forall|k: int, q: int, c: int|
        0 <= k < o.history@.len() && 0 <= q < o.history@[k].tried.len() && is_worst_slew(
            o.lib@,
            o.history@[k].before,
            o.history@[k].timing,
            c,
        ) ==> #[trigger] turned_down(
            time,
            o.lib@,
            o.cfg@,
            o.limit as int,
            o.bin@,
            o.bout@,
            o.history@[k].before,
            o.history@[k].timing,
            c,
            o.history@[k].tried,
            k as nat,
            q,
        )
}

/// A net turned down stays so when another is set aside after it.
proof fn lemma_turned_down_kept<F: Fn(&Netlist) -> Result<Timing, String>>(
    time: F,
    lib: Seq<crate::netlist::CellView>,
    cfg: crate::job::CfgView,
    limit: int,
    bin: Seq<char>,
    bout: Seq<char>,
    nl: Seq<InstView>,
    timing: TimingView,
    cur: int,
    tried: Seq<Seq<char>>,
    x: Seq<char>,
    kept: nat,
    k: int,
)
    requires
        0 <= k < tried.len(),
        turned_down(time, lib, cfg, limit, bin, bout, nl, timing, cur, tried, kept, k),
    ensures
        turned_down(time, lib, cfg, limit, bin, bout, nl, timing, cur, tried.push(x), kept, k),
{
    assert(tried.push(x).take(k) =~= tried.take(k));
    assert(tried.push(x)[k] == tried[k]);
}

/// What a settled round adds to the record of a run: the state a kept buffer was chosen in
/// was timed by `time`, and a net turned down was the best candidate and its trial failed.
proof fn lemma_round_recorded<'a, F: Fn(&Netlist) -> Result<Timing, String>>(
    time: F,
    mid: Optimizer<'a>,
    opt: Optimizer<'a>,
    t: Timing,
)
    requires
        is_worst_slew(mid.lib@, mid.nl@, mid.timing@, mid.worst_now@),
        is_worst_slew(opt.lib@, opt.nl@, opt.timing@, opt.worst_now@),
        opt.same_setup(&mid),
        mid.pending matches Some(p) && mid.pending_is_next(p) && fits(t@, p.netlist@) && timed_by(
            time,
            p.netlist@,
            t@,
        ),
        exists|w: int| is_worst_slew(mid.lib@, mid.pending->Some_0.netlist@, t@, w),
        mid.history@.len() == mid.inserted@.len(),
        recorded(time, mid),
        ({
            let p = mid.pending->Some_0;
            let kept = opt.inserted@.len() == mid.inserted@.len() + 1;
            &&& forall|w: int|
                is_worst_slew(mid.lib@, p.netlist@, t@, w) ==> (kept <==> accepts(
                    p.cur_slew as int,
                    w,
                    mid.timing.wns as int,
                    t.wns as int,
                ))
            &&& kept ==> {
                &&& opt.nl@ == p.netlist@
                &&& opt.timing@ == t@
                &&& opt.tried@.len() == 0
                &&& opt.history@ == mid.history@.push(
                    StepView { before: mid.nl@, timing: mid.timing@, tried: views(mid.tried@) },
                )
            }
            &&& !kept ==> {
                &&& opt.nl@ == mid.nl@
                &&& opt.timing@ == mid.timing@
                &&& views(opt.tried@) == views(mid.tried@).push(p.net@)
                &&& pair_views(opt.inserted@) == pair_views(mid.inserted@)
                &&& opt.history@ == mid.history@
            }
        }),
    ensures
        recorded(time, opt),
{
    let lv = mid.lib@;
    let cv = mid.cfg@;
    let lim = mid.limit as int;
    let bin = mid.bin@;
    let bout = mid.bout@;
    let p = mid.pending->Some_0;
    let n = mid.inserted@.len();
    assert(pair_views(mid.inserted@).len() == n);
    assert(pair_views(opt.inserted@).len() == opt.inserted@.len());
    lemma_worst_unique(lv, mid.nl@, mid.timing@, mid.worst_now@, p.cur_slew as int);
    if opt.inserted@.len() == n + 1 {
        assert forall|k: int| 0 <= k < opt.history@.len() implies timed_by(
            time,
            (#[trigger] opt.history@[k]).before,
            opt.history@[k].timing,
        ) by {
            if k < mid.history@.len() {
                assert(opt.history@[k] == mid.history@[k]);
            }
        }
        assert(mid.history@.len() == n);
        assert forall|k: int, q: int, c: int|
            0 <= k < opt.history@.len() && 0 <= q < opt.history@[k].tried.len() && is_worst_slew(
                lv,
                opt.history@[k].before,
                opt.history@[k].timing,
                c,
            ) implies #[trigger] turned_down(
            time,
            lv,
            cv,
            lim,
            bin,
            bout,
            opt.history@[k].before,
            opt.history@[k].timing,
            c,
            opt.history@[k].tried,
            k as nat,
            q,
        ) by {
            if k < n {
                assert(opt.history@[k] == mid.history@[k]);
            } else {
                assert(opt.history@[k].before == mid.nl@);
                assert(opt.history@[k].timing == mid.timing@);
                lemma_worst_unique(lv, mid.nl@, mid.timing@, mid.worst_now@, c);
                assert(turned_down(
                    time,
                    lv,
                    cv,
                    lim,
                    bin,
                    bout,
                    mid.nl@,
                    mid.timing@,
                    mid.worst_now@,
                    views(mid.tried@),
                    n,
                    q,
                ));
            }
        }
    } else {
        lemma_worst_unique(lv, mid.nl@, mid.timing@, mid.worst_now@, opt.worst_now@);
        let old_tried = views(mid.tried@);
        let new_tried = views(opt.tried@);
        assert(new_tried == old_tried.push(p.net@));
        assert(new_tried.len() == opt.tried@.len());
        assert(old_tried.len() == mid.tried@.len());
        assert(opt.inserted@.len() == n);
        assert forall|k: int| 0 <= k < opt.tried@.len() implies #[trigger] turned_down(
            time,
            lv,
            cv,
            lim,
            bin,
            bout,
            opt.nl@,
            opt.timing@,
            opt.worst_now@,
            new_tried,
            opt.inserted@.len(),
            k,
        ) by {
            if k < mid.tried@.len() {
                assert(turned_down(
                    time,
                    lv,
                    cv,
                    lim,
                    bin,
                    bout,
                    mid.nl@,
                    mid.timing@,
                    mid.worst_now@,
                    old_tried,
                    n,
                    k,
                ));
                lemma_turned_down_kept(
                    time,
                    lv,
                    cv,
                    lim,
                    bin,
                    bout,
                    mid.nl@,
                    mid.timing@,
                    mid.worst_now@,
                    old_tried,
                    p.net@,
                    n,
                    k,
                );
                assert(turned_down(
                    time,
                    lv,
                    cv,
                    lim,
                    bin,
                    bout,
                    mid.nl@,
                    mid.timing@,
                    mid.worst_now@,
                    new_tried,
                    n,
                    k,
                ));
            } else {
                assert(new_tried.take(k) =~= old_tried);
                assert(new_tried[k] == p.net@);
                let (bi, bj) = choose|i: int, j: int|
                    #[trigger] is_best(
                        lv,
                        mid.nl@,
                        mid.timing@,
                        cv,
                        lim,
                        old_tried,
                        i,
                        j,
                    ) && p.net@ == mid.nl@[i].conns[j].1;
                assert(is_best(
                    lv,
                    mid.nl@,
                    mid.timing@,
                    cv,
                    lim,
                    new_tried.take(k),
                    bi,
                    bj,
                ));
                assert(p.net@ == mid.nl@[bi].conns[bj].1);
                let st = StepView { before: mid.nl@, timing: mid.timing@, tried: new_tried.take(k) };
                assert(is_best(lv, st.before, st.timing, cv, lim, st.tried, bi, bj));
                let trial = trial_of(lv, cv.buffer, bin, bout, mid.nl@, p.net@, n);
                assert(trial == p.netlist@);
                let w = choose|w: int| is_worst_slew(lv, p.netlist@, t@, w);
                assert(timed_by(time, trial, t@) && fits(t@, trial) && is_worst_slew(
                    lv,
                    trial,
                    t@,
                    w,
                ) && !accepts(mid.worst_now@, w, mid.timing.wns as int, t.wns as int));
                assert(is_step(
                    lv,
                    cv,
                    lim,
                    StepView { before: mid.nl@, timing: mid.timing@, tried: new_tried.take(k) },
                    new_tried[k],
                ));
                assert(exists|tt: TimingView, w2: int|
                    #[trigger] timed_by(time, trial, tt) && fits(tt, trial) && #[trigger] is_worst_slew(
                        lv,
                        trial,
                        tt,
                        w2,
                    ) && !accepts(mid.worst_now@, w2, mid.timing.wns as int, tt.wns as int));
                assert(turned_down(
                    time,
                    lv,
                    cv,
                    lim,
                    bin,
                    bout,
                    mid.nl@,
                    mid.timing@,
                    mid.worst_now@,
                    new_tried,
                    n,
                    k,
                ));
            }
        }
    }
}

/// Runs rounds until the effort is spent or no net is left, having `time` time each trial.
/// Fails with the first error `time` returns or when a snapshot does not match its netlist;
/// succeeds whenever `time` succeeds, with a matching snapshot, on every trial it may be
/// handed.
fn run_rounds<'a, F: Fn(&Netlist) -> Result<Timing, String>>(init: Optimizer<'a>, time: F) -> (r:
    Result<Optimizer<'a>, String>)
    requires
        init.wf(),
        init.pending is None,
        recorded(time, init),
        forall|n: &Netlist| call_requires(time, (n,)),
    ensures
        r matches Err(e) ==> {
            ||| exists|n: &Netlist|
                call_ensures(time, (n,), Err::<Timing, String>(e)) && handed(
                    time,
                    init.lib@,
                    init.cfg@,
                    init.limit as int,
                    init.initial@,
                    n@,
                )
            ||| e@ == snapshot_mismatch() && exists|n: &Netlist, t: Timing|
                call_ensures(time, (n,), Ok::<Timing, String>(t)) && !fits(t@, n@) && handed(
                    time,
                    init.lib@,
                    init.cfg@,
                    init.limit as int,
                    init.initial@,
                    n@,
                )
        },
        (forall|n: &Netlist, x: Result<Timing, String>|
            call_ensures(time, (n,), x) && handed(time, init.lib@, init.cfg@, init.limit as int, init.initial@, n@) ==> (
            x matches Ok(t) && fits(t@, n@))) ==> r is Ok,
        r matches Ok(o) ==> {
            &&& o.wf()
            &&& o.pending is None
            &&& o.same_setup(&init)
            &&& recorded(time, o)
            &&& o.rounds < o.cfg.effort ==> o.stopped
        },
{
    let ghost start = init;
    let mut opt = init;
    loop
        invariant
            opt.wf(),
            opt.pending is None,
            opt.same_setup(&start),
            start == init,
            recorded(time, opt),
            forall|n: &Netlist| call_requires(time, (n,)),
        ensures
            opt.wf(),
            opt.pending is None,
            opt.same_setup(&start),
            recorded(time, opt),
            opt.rounds < opt.cfg.effort ==> opt.stopped,
        decreases opt.cfg.effort - opt.rounds,
    {
        if !opt.propose() {
            break;
        }
        let ghost pn = opt.pending->Some_0.netlist;
        proof {
            let (bin, bout) = buffer_pins_of(opt.lib@, opt.cfg.buffer@)->Ok_0;
            let k = opt.inserted@.len();
            let net = opt.pending->Some_0.net@;
            let lim = opt.limit as int;
            let (bi, bj) = choose|i: int, j: int|
                #[trigger] is_best(
                    opt.lib@,
                    opt.nl@,
                    opt.timing@,
                    opt.cfg@,
                    lim,
                    views(opt.tried@),
                    i,
                    j,
                ) && net == opt.nl@[i].conns[j].1;
            assert(k < opt.cfg.effort);
            assert(pn@ == trial_of(opt.lib@, opt.cfg.buffer@, bin, bout, opt.nl@, opt.nl@[bi].conns[bj].1, k));
            assert(timed_by(time, opt.nl@, opt.timing@));
            assert(handed(time, opt.lib@, opt.cfg@, opt.limit as int, opt.initial@, pn@));
        }
        let tn = opt.trial_netlist();
        let t = match time(tn) {
            Ok(t) => t,
            Err(e) => {
                assert(call_ensures(time, (tn,), Err::<Timing, String>(e)) && handed(
                    time,
                    init.lib@,
                    init.cfg@,
                    init.limit as int,
                    init.initial@,
                    tn@,
                ));
                return Err(e);
            },
        };
        assert(call_ensures(time, (&pn,), Ok::<Timing, String>(t)));
        if !crate::netlist::timing_fits(&t, tn) {
            assert(call_ensures(time, (tn,), Ok::<Timing, String>(t)) && !fits(t@, tn@) && handed(
                time,
                init.lib@,
                init.cfg@,
                init.limit as int,
                init.initial@,
                tn@,
            ));
            return Err(String::from_str("timing snapshot does not match the netlist"));
        }

        let ghost mid = opt;
        opt.settle(t);
        proof {
            assert(timed_by(time, pn@, t@));
            lemma_round_recorded(time, mid, opt, t);
        }
    }
    Ok(opt)
}

/// The timings a successful run rests on, with `time` the timer it ran with: the first of
/// `nl`, the last of the result, and one of the state before each kept buffer.
pub open spec fn run_timed<F: Fn(&Netlist) -> Result<Timing, String>>(
    time: F,
    nl: Seq<InstView>,
    lib: Seq<crate::netlist::CellView>,
    res: BufResult,
) -> bool {
    let tr = res.trace@;
    &&& timed_by(time, nl, tr.first_timing)
    &&& res.before_wns == tr.first_timing.wns
    &&& is_worst_slew(lib, nl, tr.first_timing, res.before_slew as int)
    &&& timed_by(time, res.netlist@, tr.final_timing)
    &&& fits(tr.final_timing, res.netlist@)
    &&& res.after_wns == tr.final_timing.wns
    &&& is_worst_slew(lib, res.netlist@, tr.final_timing, res.after_slew as int)
    &&& forall|k: int|
        0 <= k < tr.steps.len() ==> timed_by(
            time,
            (#[trigger] tr.steps[k]).before,
            tr.steps[k].timing,
        )
}

/// The rounds of a successful run, each recorded: each kept buffer relieved the best
/// candidate of its round and passed the acceptance rule against the state it was chosen in;
/// each net turned down, in the state of any kept buffer or in the final one, was the best
/// candidate of its round and its trial, timed by `time`, was not accepted. The rounds are
/// exactly these, at most the effort. A net turned down is not tried again until a buffer is
/// kept (nothing changed for it), so the rounds stop short of the effort exactly when every
/// net still over the limit has been tried and turned down.
pub open spec fn run_rounds_ok<F: Fn(&Netlist) -> Result<Timing, String>>(
    time: F,
    nl: Seq<InstView>,
    lib: Seq<crate::netlist::CellView>,
    cfg: crate::job::CfgView,
    limit: int,
    res: BufResult,
) -> bool {
    let tr = res.trace@;
    let (bin, bout) = buffer_pins_of(lib, cfg.buffer)->Ok_0;
    &&& chain_ok(
        lib,
        cfg,
        limit,
        bin,
        bout,
        nl,
        tr.first_timing,
        tr.steps,
        relieved_nets(res.inserted@),
        res.netlist@,
    )
    &&& forall|k: int|
        0 <= k < tr.tried.len() ==> #[trigger] turned_down(
            time,
            lib,
            cfg,
            limit,
            bin,
            bout,
            res.netlist@,
            tr.final_timing,
            res.after_slew as int,
            tr.tried,
            res.inserted@.len(),
            k,
        )
    &&& forall|k: int|
        0 <= k < tr.steps.len() ==> #[trigger] step_accepted(
            lib,
            tr.steps,
            k,
            res.netlist@,
            tr.final_timing,
        )
    &&& forall|k: int, q: int, c: int|
        0 <= k < tr.steps.len() && 0 <= q < tr.steps[k].tried.len() && is_worst_slew(
            lib,
            tr.steps[k].before,
            tr.steps[k].timing,
            c,
        ) ==> #[trigger] turned_down(
            time,
            lib,
            cfg,
            limit,
            bin,
            bout,
            tr.steps[k].before,
            tr.steps[k].timing,
            c,
            tr.steps[k].tried,
            k as nat,
            q,
        )
    &&& tr.rounds == steps_rounds(tr.steps) + tr.tried.len()
    &&& res.inserted@.len() <= tr.rounds <= cfg.effort
    &&& tr.rounds < cfg.effort ==> forall|i: int, j: int|
        !#[trigger] crate::engine::eligible(
            lib,
            res.netlist@,
            tr.final_timing,
            cfg,
            limit,
            tr.tried,
            i,
            j,
        )
}

/// The netlist and numbers of a successful run: the instances of `nl` keep their names,
/// cells and pins, the kept buffers follow them, each lowered the worst transition, and setup
/// stays met (or no worse).
pub open spec fn run_result(nl: Seq<InstView>, cfg: crate::job::CfgView, limit: int, res: BufResult) -> bool {
    &&& res.max_slew_limit == limit
    &&& forall|i: int| 0 <= i < nl.len() ==> keeps_instance(#[trigger] res.netlist@[i], nl[i])
    &&& res.inserted@.len() == 0 ==> res.after_slew == res.before_slew && res.after_wns
        == res.before_wns && res.netlist@ == nl
    &&& res.after_slew + (TOLERANCE + 1) * res.inserted@.len() <= res.before_slew
    &&& res.after_wns >= min0(res.before_wns as int)
    &&& res.netlist@.len() == nl.len() + res.inserted@.len()
    &&& forall|k: int|
        0 <= k < res.inserted@.len() ==> {
            &&& (#[trigger] res.inserted@[k]).0@ == buf_name(k as nat)
            &&& res.netlist@[nl.len() + k].name == buf_name(k as nat)
            &&& res.netlist@[nl.len() + k].cell == cfg.buffer
        }
}

/// A finished run reports what the loop kept and recorded, read off its result.
proof fn lemma_outcome<'a, F: Fn(&Netlist) -> Result<Timing, String>>(
    time: F,
    opt: Optimizer<'a>,
    res: BufResult,
)
    requires
        opt.wf(),
        recorded(time, opt),
        timed_by(time, opt.initial@, opt.first_timing@),
        opt.rounds < opt.cfg.effort ==> opt.stopped,
        res.before_wns == opt.before_wns,
        res.before_slew == opt.before_slew,
        res.after_wns == opt.timing.wns,
        is_worst_slew(opt.lib@, opt.nl@, opt.timing@, res.after_slew as int),
        res.max_slew_limit == opt.limit,
        res.netlist@ == opt.nl@,
        pair_views(res.inserted@) == pair_views(opt.inserted@),
        res.inserted@.len() == 0 ==> res.after_slew == res.before_slew && res.after_wns
            == res.before_wns && res.netlist@ == opt.initial@,
        res.after_slew + (TOLERANCE + 1) * res.inserted@.len() <= res.before_slew,
        res.after_wns >= min0(res.before_wns as int),
        forall|k: int|
            0 <= k < res.inserted@.len() ==> {
                &&& (#[trigger] res.inserted@[k]).0@ == buf_name(k as nat)
                &&& res.netlist@[opt.initial@.len() + k].name == buf_name(k as nat)
                &&& res.netlist@[opt.initial@.len() + k].cell == opt.cfg.buffer@
            },
        res.trace@ == (RunTrace {
            first_timing: opt.first_timing@,
            final_timing: opt.timing@,
            rounds: opt.rounds as nat,
            tried: views(opt.tried@),
            steps: opt.history@,
        }),
    ensures
        run_timed(time, opt.initial@, opt.lib@, res),
        run_rounds_ok(time, opt.initial@, opt.lib@, opt.cfg@, opt.limit as int, res),
        run_result(opt.initial@, opt.cfg@, opt.limit as int, res),
{
    let n = opt.inserted@.len();
    assert(pair_views(res.inserted@).len() == res.inserted@.len());
    assert(pair_views(opt.inserted@).len() == n);
    lemma_worst_unique(opt.lib@, opt.nl@, opt.timing@, opt.worst_now@, res.after_slew as int);
    assert forall|k: int| 0 <= k < n implies #[trigger] res.inserted@[k].1@ == opt.inserted@[k].1@ by {
        assert(pair_views(res.inserted@)[k] == pair_views(opt.inserted@)[k]);
    }
    assert(relieved_nets(res.inserted@) =~= relieved_nets(opt.inserted@));
    assert(forall|k: int|
        0 <= k < res.trace@.steps.len() ==> #[trigger] step_accepted(
            opt.lib@,
            res.trace@.steps,
            k,
            res.netlist@,
            res.trace@.final_timing,
        ));
    if opt.rounds < opt.cfg.effort {
        assert forall|i: int, j: int|
            !#[trigger] crate::engine::eligible(
                opt.lib@,
                opt.nl@,
                opt.timing@,
                opt.cfg@,
                opt.limit as int,
                views(opt.tried@),
                i,
                j,
            ) by {
            assert(!is_eligible_now(&opt, i, j));
        }
    }
}

/// Where no net of `nl` may be relieved under its first timing, a run inserts nothing and
/// gives `nl` back unchanged.
pub proof fn lemma_nothing_eligible_nothing_inserted<F: Fn(&Netlist) -> Result<Timing, String>>(
    time: F,
    nl: Seq<InstView>,
    lib: Seq<crate::netlist::CellView>,
    cfg: crate::job::CfgView,
    limit: int,
    res: BufResult,
)
    requires
        run_rounds_ok(time, nl, lib, cfg, limit, res),
        run_result(nl, cfg, limit, res),
        forall|i: int, j: int|
            !#[trigger] crate::engine::eligible(
                lib,
                nl,
                res.trace@.first_timing,
                cfg,
                limit,
                Seq::empty(),
                i,
                j,
            ),
    ensures
        res.inserted@.len() == 0,
        res.netlist@ == nl,
{
    let tr = res.trace@;
    if res.inserted@.len() > 0 {
        let nets = relieved_nets(res.inserted@);
        assert(tr.steps.len() == nets.len());
        let s0 = tr.steps[0];
        assert(is_step(lib, cfg, limit, s0, nets[0]));
        let (i, j) = choose|i: int, j: int|
            #[trigger] is_best(lib, s0.before, s0.timing, cfg, limit, s0.tried, i, j) && nets[0]
                == s0.before[i].conns[j].1;
        assert(crate::engine::eligible(lib, s0.before, s0.timing, cfg, limit, s0.tried, i, j));
        assert(!Seq::<Seq<char>>::empty().contains(nl[i].conns[j].1));
        assert(crate::engine::eligible(lib, nl, tr.first_timing, cfg, limit, Seq::empty(), i, j));
    }
}

/// A run that stopped short of its effort did not stop while a net it could relieve was left
/// untried: every net the rules allow (over the limit, enough sinks, no `dont_touch` driver)
/// under the final timing was tried on the final netlist and turned down. A net turned down is
/// not tried again until a buffer is kept, so the run ends there.
pub proof fn lemma_early_stop_turned_down<F: Fn(&Netlist) -> Result<Timing, String>>(
    time: F,
    nl: Seq<InstView>,
    lib: Seq<crate::netlist::CellView>,
    cfg: crate::job::CfgView,
    limit: int,
    res: BufResult,
    i: int,
    j: int,
)
    requires
        run_rounds_ok(time, nl, lib, cfg, limit, res),
        res.trace@.rounds < cfg.effort,
        crate::engine::eligible(
            lib,
            res.netlist@,
            res.trace@.final_timing,
            cfg,
            limit,
            Seq::empty(),
            i,
            j,
        ),
    ensures
        exists|k: int|
            0 <= k < res.trace@.tried.len() && res.trace@.tried[k] == res.netlist@[i].conns[j].1
                && #[trigger] turned_down(
                time,
                lib,
                cfg,
                limit,
                buffer_pins_of(lib, cfg.buffer)->Ok_0.0,
                buffer_pins_of(lib, cfg.buffer)->Ok_0.1,
                res.netlist@,
                res.trace@.final_timing,
                res.after_slew as int,
                res.trace@.tried,
                res.inserted@.len(),
                k,
            ),
{
    let tr = res.trace@;
    assert(!crate::engine::eligible(lib, res.netlist@, tr.final_timing, cfg, limit, tr.tried, i, j));
    let net = res.netlist@[i].conns[j].1;
    assert(tr.tried.contains(net));
    let k = choose|k: int| 0 <= k < tr.tried.len() && tr.tried[k] == net;
    let (bin, bout) = buffer_pins_of(lib, cfg.buffer)->Ok_0;
    assert(turned_down(
        time,
        lib,
        cfg,
        limit,
        bin,
        bout,
        res.netlist@,
        tr.final_timing,
        res.after_slew as int,
        tr.tried,
        res.inserted@.len(),
        k,
    ));
}

/// A net with one driving connection in `nl`: every output pin on it is that one.
pub open spec fn single_driver(lib: Seq<crate::netlist::CellView>, nl: Seq<InstView>, net: Seq<char>) -> bool {
    forall|i1: int, j1: int, i2: int, j2: int|
        0 <= i1 < nl.len() && 0 <= j1 < nl[i1].conns.len() && 0 <= i2 < nl.len() && 0 <= j2
            < nl[i2].conns.len() && #[trigger] crate::netlist::conn_dir(lib, nl[i1], j1) == Some(
            crate::netlist::PinDir::Output,
        ) && #[trigger] crate::netlist::conn_dir(lib, nl[i2], j2) == Some(
            crate::netlist::PinDir::Output,
        ) && nl[i1].conns[j1].1 == net && nl[i2].conns[j2].1 == net ==> i1 == i2 && j1 == j2
}

/// No buffer relieves a net driven by a `dont_touch` instance: where the net of the `k`-th
/// buffer had one driver in the netlist the buffer was chosen in, that driver's instance is
/// named by no `dont_touch` glob, and the net has at least `min_fanout` sinks there.
pub proof fn lemma_dont_touch_respected<F: Fn(&Netlist) -> Result<Timing, String>>(
    time: F,
    nl: Seq<InstView>,
    lib: Seq<crate::netlist::CellView>,
    cfg: crate::job::CfgView,
    limit: int,
    res: BufResult,
    k: int,
    i: int,
    j: int,
)
    requires
        run_rounds_ok(time, nl, lib, cfg, limit, res),
        0 <= k < res.inserted@.len(),
        ({
            let before = res.trace@.steps[k].before;
            &&& single_driver(lib, before, res.inserted@[k].1@)
            &&& 0 <= i < before.len()
            &&& 0 <= j < before[i].conns.len()
            &&& crate::netlist::conn_dir(lib, before[i], j) == Some(crate::netlist::PinDir::Output)
            &&& before[i].conns[j].1 == res.inserted@[k].1@
        }),
    ensures
        !crate::engine::protected(cfg.dont_touch, res.trace@.steps[k].before[i].name),
        sink_list(lib, res.trace@.steps[k].before, res.inserted@[k].1@).len() >= cfg.min_fanout,
{
    let tr = res.trace@;
    let nets = relieved_nets(res.inserted@);
    assert(nets[k] == res.inserted@[k].1@);
    let s = tr.steps[k];
    assert(is_step(lib, cfg, limit, s, nets[k]));
    let (bi, bj) = choose|i: int, j: int|
        #[trigger] is_best(lib, s.before, s.timing, cfg, limit, s.tried, i, j) && nets[k]
            == s.before[i].conns[j].1;
    crate::engine::lemma_candidate_rules(lib, s.before, s.timing, cfg, limit, s.tried, bi, bj);
    assert(crate::netlist::conn_dir(lib, s.before[bi], bj) == Some(crate::netlist::PinDir::Output));
}

/// The netlist a run was in before its `k`-th kept buffer, or its result for `k` past the last.
pub open spec fn state_at(res: BufResult, k: int) -> Seq<InstView> {
    if k < res.trace@.steps.len() {
        res.trace@.steps[k].before
    } else {
        res.netlist@
    }
}

/// Connection `j` of instance `i` of `nl` is as it was in every state of the run from `k` on.
proof fn lemma_untouched_from<F: Fn(&Netlist) -> Result<Timing, String>>(
    time: F,
    nl: Seq<InstView>,
    lib: Seq<crate::netlist::CellView>,
    cfg: crate::job::CfgView,
    limit: int,
    res: BufResult,
    i: int,
    j: int,
    k: int,
)
    requires
        run_rounds_ok(time, nl, lib, cfg, limit, res),
        0 <= i < nl.len(),
        0 <= j < nl[i].conns.len(),
        !relieved_nets(res.inserted@).contains(nl[i].conns[j].1),
        0 <= k <= res.trace@.steps.len(),
        i < state_at(res, k).len(),
        state_at(res, k)[i].conns.len() == nl[i].conns.len(),
        state_at(res, k)[i].conns[j] == nl[i].conns[j],
    ensures
        i < res.netlist@.len(),
        res.netlist@[i].conns[j] == nl[i].conns[j],
    decreases res.trace@.steps.len() - k,
{
    let steps = res.trace@.steps;
    let nets = relieved_nets(res.inserted@);
    if k < steps.len() {
        let (bin, bout) = buffer_pins_of(lib, cfg.buffer)->Ok_0;
        let before = steps[k].before;
        let moved = moved_sinks(sink_list(lib, before, nets[k]).sort_by(pair_order()));
        assert(state_at(res, k + 1) == step_result(lib, cfg.buffer, bin, bout, steps[k], nets[k], k as nat));
        assert(nets[k] != nl[i].conns[j].1) by {
            if nets[k] == nl[i].conns[j].1 {
                assert(nets.contains(nets[k]));
            }
        }
        assert(state_at(res, k + 1)[i] == crate::engine::rewired_inst(
            before[i],
            nets[k],
            moved,
            buf_net_name(k as nat),
        ));
        lemma_untouched_from(time, nl, lib, cfg, limit, res, i, j, k + 1);
    }
}

/// A run moves only sinks of the nets it relieved: a connection of `nl` on any other net is
/// the same in the result.
pub proof fn lemma_other_nets_untouched<F: Fn(&Netlist) -> Result<Timing, String>>(
    time: F,
    nl: Seq<InstView>,
    lib: Seq<crate::netlist::CellView>,
    cfg: crate::job::CfgView,
    limit: int,
    res: BufResult,
    i: int,
    j: int,
)
    requires
        run_rounds_ok(time, nl, lib, cfg, limit, res),
        run_result(nl, cfg, limit, res),
        0 <= i < nl.len(),
        0 <= j < nl[i].conns.len(),
        !relieved_nets(res.inserted@).contains(nl[i].conns[j].1),
    ensures
        res.netlist@[i].conns[j] == nl[i].conns[j],
{
    let nets = relieved_nets(res.inserted@);
    assert(res.trace@.steps.len() == nets.len());
    if res.inserted@.len() > 0 {
        assert(state_at(res, 0) == nl);
    }
    lemma_untouched_from(time, nl, lib, cfg, limit, res, i, j, 0);
}

/// Instances that share a name read each pin name in the same direction, and one named like
/// an inserted buffer reads each pin as the buffer cell does: a connection found again by its
/// instance's name and pin is then of the same direction.
pub open spec fn pins_agree(lib: Seq<crate::netlist::CellView>, nl: Seq<InstView>, buffer: Seq<char>) -> bool {
    &&& forall|i1: int, j1: int, i2: int, j2: int|
        0 <= i1 < nl.len() && 0 <= j1 < nl[i1].conns.len() && 0 <= i2 < nl.len() && 0 <= j2
            < nl[i2].conns.len() && nl[i1].name == nl[i2].name && nl[i1].conns[j1].0
            == nl[i2].conns[j2].0 ==> #[trigger] crate::netlist::conn_dir(lib, nl[i1], j1)
            == #[trigger] crate::netlist::conn_dir(lib, nl[i2], j2)
    &&& forall|i: int, j: int, k: nat|
        0 <= i < nl.len() && 0 <= j < nl[i].conns.len() && nl[i].name == #[trigger] buf_name(k)
            ==> #[trigger] crate::netlist::conn_dir(lib, nl[i], j) == crate::netlist::cell_pin_dir(
            lib,
            buffer,
            nl[i].conns[j].0,
        )
}

/// A sink that a split moves is an input pin of some instance of `st`.
proof fn lemma_moved_is_input(
    lib: Seq<crate::netlist::CellView>,
    st: Seq<InstView>,
    net: Seq<char>,
    p: crate::order::Pair,
)
    requires
        moved_sinks(sink_list(lib, st, net).sort_by(pair_order())).contains(p),
    ensures
        exists|i: int, j: int|
            0 <= i < st.len() && 0 <= j < st[i].conns.len() && p == (st[i].name, st[i].conns[j].0)
                && #[trigger] crate::netlist::conn_dir(lib, st[i], j) == Some(
                crate::netlist::PinDir::Input,
            ),
{
    let sl = sink_list(lib, st, net);
    let ss = sl.sort_by(pair_order());
    let mv = moved_sinks(ss);
    let q = choose|q: int| 0 <= q < mv.len() && #[trigger] mv[q] == p;
    assert(ss[q] == p);
    assert(ss.contains(p));
    crate::order::lemma_pair_order_total();
    sl.lemma_sort_by_ensures(pair_order());
    assert(sl.contains(p));
    crate::netlist::lemma_sink_is_input(lib, st, net, st.len() as int, p);
}

/// A split keeps every instance's name, cell and pin names, and appends the buffer: its input
/// on the net, its output on the fresh net.
proof fn lemma_shape_split(
    lib: Seq<crate::netlist::CellView>,
    st: Seq<InstView>,
    net: Seq<char>,
    buffer: Seq<char>,
    bin: Seq<char>,
    bout: Seq<char>,
    k: nat,
)
    ensures
        ({
            let next = trial_of(lib, buffer, bin, bout, st, net, k);
            &&& next.len() == st.len() + 1
            &&& forall|i: int|
                0 <= i < st.len() ==> {
                    &&& (#[trigger] next[i]).name == st[i].name
                    &&& next[i].cell == st[i].cell
                    &&& next[i].conns.len() == st[i].conns.len()
                    &&& forall|j: int|
                        0 <= j < st[i].conns.len() ==> #[trigger] next[i].conns[j].0
                            == st[i].conns[j].0
                }
            &&& next[st.len() as int] == InstView {
                cell: buffer,
                name: buf_name(k),
                conns: seq![(bin, net), (bout, buf_net_name(k))],
            }
        }),
{
    let moved = moved_sinks(sink_list(lib, st, net).sort_by(pair_order()));
    let next = trial_of(lib, buffer, bin, bout, st, net, k);
    assert forall|i: int| 0 <= i < st.len() implies #[trigger] next[i] == crate::engine::rewired_inst(
        st[i],
        net,
        moved,
        buf_net_name(k),
    ) by {}
}

/// A split keeps `pins_agree`.
proof fn lemma_pins_agree_split(
    lib: Seq<crate::netlist::CellView>,
    st: Seq<InstView>,
    net: Seq<char>,
    buffer: Seq<char>,
    bin: Seq<char>,
    bout: Seq<char>,
    k: nat,
)
    requires
        pins_agree(lib, st, buffer),
    ensures
        pins_agree(lib, trial_of(lib, buffer, bin, bout, st, net, k), buffer),
{
    let next = trial_of(lib, buffer, bin, bout, st, net, k);
    lemma_shape_split(lib, st, net, buffer, bin, bout, k);
    let b = next[st.len() as int];
    assert forall|x: int, j: int|
        0 <= x < next.len() && 0 <= j < next[x].conns.len() implies #[trigger] crate::netlist::conn_dir(
        lib,
        next[x],
        j,
    ) == (if x < st.len() {
        crate::netlist::conn_dir(lib, st[x], j)
    } else {
        crate::netlist::cell_pin_dir(lib, buffer, next[x].conns[j].0)
    }) by {
        if x < st.len() {
            assert(next[x].conns[j].0 == st[x].conns[j].0);
        }
    }
    assert forall|i1: int, j1: int, i2: int, j2: int|
        0 <= i1 < next.len() && 0 <= j1 < next[i1].conns.len() && 0 <= i2 < next.len() && 0 <= j2
            < next[i2].conns.len() && next[i1].name == next[i2].name && next[i1].conns[j1].0
            == next[i2].conns[j2].0 implies #[trigger] crate::netlist::conn_dir(lib, next[i1], j1)
        == #[trigger] crate::netlist::conn_dir(lib, next[i2], j2) by {
        if i1 < st.len() && i2 < st.len() {
            assert(st[i1].conns[j1].0 == next[i1].conns[j1].0);
            assert(st[i2].conns[j2].0 == next[i2].conns[j2].0);
            assert(crate::netlist::conn_dir(lib, st[i1], j1) == crate::netlist::conn_dir(lib, st[i2], j2));
        } else if i1 < st.len() {
            assert(st[i1].name == buf_name(k));
            assert(st[i1].conns[j1].0 == next[i1].conns[j1].0);
            assert(crate::netlist::conn_dir(lib, st[i1], j1) == crate::netlist::cell_pin_dir(
                lib,
                buffer,
                st[i1].conns[j1].0,
            ));
        } else if i2 < st.len() {
            assert(st[i2].name == buf_name(k));
            assert(st[i2].conns[j2].0 == next[i2].conns[j2].0);
            assert(crate::netlist::conn_dir(lib, st[i2], j2) == crate::netlist::cell_pin_dir(
                lib,
                buffer,
                st[i2].conns[j2].0,
            ));
        }
    }
    assert forall|x: int, j: int, kk: nat|
        0 <= x < next.len() && 0 <= j < next[x].conns.len() && next[x].name == #[trigger] buf_name(
            kk,
        ) implies #[trigger] crate::netlist::conn_dir(lib, next[x], j)
        == crate::netlist::cell_pin_dir(lib, buffer, next[x].conns[j].0) by {
        if x < st.len() {
            assert(st[x].name == buf_name(kk));
            assert(st[x].conns[j].0 == next[x].conns[j].0);
            assert(crate::netlist::conn_dir(lib, st[x], j) == crate::netlist::cell_pin_dir(
                lib,
                buffer,
                st[x].conns[j].0,
            ));
        }
    }
}

/// A split keeps `pins_agree`, and leaves a connection that is not on an input pin as it was.
proof fn lemma_split_keeps(
    lib: Seq<crate::netlist::CellView>,
    st: Seq<InstView>,
    net: Seq<char>,
    buffer: Seq<char>,
    bin: Seq<char>,
    bout: Seq<char>,
    k: nat,
    i: int,
    j: int,
)
    requires
        pins_agree(lib, st, buffer),
        0 <= i < st.len(),
        0 <= j < st[i].conns.len(),
        crate::netlist::conn_dir(lib, st[i], j) != Some(crate::netlist::PinDir::Input),
    ensures
        ({
            let next = trial_of(lib, buffer, bin, bout, st, net, k);
            &&& pins_agree(lib, next, buffer)
            &&& next.len() == st.len() + 1
            &&& next[i].name == st[i].name
            &&& next[i].cell == st[i].cell
            &&& next[i].conns.len() == st[i].conns.len()
            &&& next[i].conns[j] == st[i].conns[j]
            &&& crate::netlist::conn_dir(lib, next[i], j) == crate::netlist::conn_dir(lib, st[i], j)
        }),
{
    let moved = moved_sinks(sink_list(lib, st, net).sort_by(pair_order()));
    let bnet = buf_net_name(k);
    let next = trial_of(lib, buffer, bin, bout, st, net, k);
    assert forall|x: int| 0 <= x < st.len() implies #[trigger] next[x] == crate::engine::rewired_inst(
        st[x],
        net,
        moved,
        bnet,
    ) by {}
    assert(next[st.len() as int].name == buf_name(k) && next[st.len() as int].cell == buffer);
    let c = st[i].conns[j];
    if c.1 == net && moved.contains((st[i].name, c.0)) {
        lemma_moved_is_input(lib, st, net, (st[i].name, c.0));
        let (i2, j2) = choose|i2: int, j2: int|
            0 <= i2 < st.len() && 0 <= j2 < st[i2].conns.len() && (st[i].name, c.0) == (
                st[i2].name,
                st[i2].conns[j2].0,
            ) && #[trigger] crate::netlist::conn_dir(lib, st[i2], j2) == Some(
                crate::netlist::PinDir::Input,
            );
        assert(crate::netlist::conn_dir(lib, st[i2], j2) == crate::netlist::conn_dir(lib, st[i], j));
    }
    assert(next[i].conns[j] == c);
    lemma_pins_agree_split(lib, st, net, buffer, bin, bout, k);
}

/// Each state of the run `res` is the split of the one before it, with buffer pins `bin` and
/// `bout`.
pub(crate) open spec fn states_chain(
    lib: Seq<crate::netlist::CellView>,
    buffer: Seq<char>,
    bin: Seq<char>,
    bout: Seq<char>,
    res: BufResult,
) -> bool {
    &&& relieved_nets(res.inserted@).len() == res.trace@.steps.len()
    &&& forall|k1: int|
        0 <= k1 < res.trace@.steps.len() ==> #[trigger] state_at(res, k1 + 1) == trial_of(
            lib,
            buffer,
            bin,
            bout,
            state_at(res, k1),
            relieved_nets(res.inserted@)[k1],
            k1 as nat,
        )
}

/// Each state of a run is the split of the one before it.
proof fn lemma_states_chain<F: Fn(&Netlist) -> Result<Timing, String>>(
    time: F,
    nl: Seq<InstView>,
    lib: Seq<crate::netlist::CellView>,
    cfg: crate::job::CfgView,
    limit: int,
    res: BufResult,
)
    requires
        run_rounds_ok(time, nl, lib, cfg, limit, res),
    ensures
        states_chain(
            lib,
            cfg.buffer,
            buffer_pins_of(lib, cfg.buffer)->Ok_0.0,
            buffer_pins_of(lib, cfg.buffer)->Ok_0.1,
            res,
        ),
{
    let steps = res.trace@.steps;
    let nets = relieved_nets(res.inserted@);
    let (bin, bout) = buffer_pins_of(lib, cfg.buffer)->Ok_0;
    assert forall|k: int| 0 <= k < steps.len() implies #[trigger] state_at(res, k + 1) == trial_of(
        lib,
        cfg.buffer,
        bin,
        bout,
        state_at(res, k),
        nets[k],
        k as nat,
    ) by {
        assert(state_at(res, k) == steps[k].before);
        assert(state_at(res, k + 1) == step_result(lib, cfg.buffer, bin, bout, steps[k], nets[k], k as nat));
    }
}

/// A connection not on an input pin, present in the state before the `k`-th kept buffer,
/// stays as it is, with its instance's name and cell, in every later state of the run.
proof fn lemma_kept_from(
    lib: Seq<crate::netlist::CellView>,
    buffer: Seq<char>,
    bin: Seq<char>,
    bout: Seq<char>,
    res: BufResult,
    k: int,
    i: int,
    j: int,
)
    requires
        states_chain(lib, buffer, bin, bout, res),
        0 <= k <= res.trace@.steps.len(),
        pins_agree(lib, state_at(res, k), buffer),
        0 <= i < state_at(res, k).len(),
        0 <= j < state_at(res, k)[i].conns.len(),
        crate::netlist::conn_dir(lib, state_at(res, k)[i], j) != Some(crate::netlist::PinDir::Input),
    ensures
        forall|k2: int|
            k <= k2 <= res.trace@.steps.len() ==> {
                &&& pins_agree(lib, #[trigger] state_at(res, k2), buffer)
                &&& i < state_at(res, k2).len()
                &&& state_at(res, k2)[i].name == state_at(res, k)[i].name
                &&& state_at(res, k2)[i].cell == state_at(res, k)[i].cell
                &&& state_at(res, k2)[i].conns.len() == state_at(res, k)[i].conns.len()
                &&& state_at(res, k2)[i].conns[j] == state_at(res, k)[i].conns[j]
                &&& crate::netlist::conn_dir(lib, state_at(res, k2)[i], j)
                    == crate::netlist::conn_dir(lib, state_at(res, k)[i], j)
            },
    decreases res.trace@.steps.len() - k,
{
    if k < res.trace@.steps.len() {
        let nets = relieved_nets(res.inserted@);
        let st = state_at(res, k);
        assert(state_at(res, k + 1) == trial_of(lib, buffer, bin, bout, st, nets[k], k as nat));
        lemma_split_keeps(lib, st, nets[k], buffer, bin, bout, k as nat, i, j);
        lemma_kept_from(lib, buffer, bin, bout, res, k + 1, i, j);
    }
}

/// A run rewires only input pins: where the instances of `nl` that share a name read each pin
/// in the same direction (and one named like an inserted buffer reads its pins as the buffer
/// cell does), every connection of `nl` that is not on an input pin is the same in the result.
pub proof fn lemma_only_inputs_rewired<F: Fn(&Netlist) -> Result<Timing, String>>(
    time: F,
    nl: Seq<InstView>,
    lib: Seq<crate::netlist::CellView>,
    cfg: crate::job::CfgView,
    limit: int,
    res: BufResult,
    i: int,
    j: int,
)
    requires
        run_rounds_ok(time, nl, lib, cfg, limit, res),
        run_result(nl, cfg, limit, res),
        pins_agree(lib, nl, cfg.buffer),
        0 <= i < nl.len(),
        0 <= j < nl[i].conns.len(),
        crate::netlist::conn_dir(lib, nl[i], j) != Some(crate::netlist::PinDir::Input),
    ensures
        res.netlist@[i].conns[j] == nl[i].conns[j],
{
    let n = res.trace@.steps.len() as int;
    assert(n == relieved_nets(res.inserted@).len());
    assert(state_at(res, 0) == nl);
    lemma_states_chain(time, nl, lib, cfg, limit, res);
    let (bin, bout) = buffer_pins_of(lib, cfg.buffer)->Ok_0;
    lemma_kept_from(lib, cfg.buffer, bin, bout, res, 0, i, j);
    assert(state_at(res, n) == res.netlist@);
}

/// The state before the `k`-th kept buffer has the first state's instances and `k` buffers.
proof fn lemma_state_len(
    lib: Seq<crate::netlist::CellView>,
    buffer: Seq<char>,
    bin: Seq<char>,
    bout: Seq<char>,
    res: BufResult,
    k: int,
)
    requires
        states_chain(lib, buffer, bin, bout, res),
        0 <= k <= res.trace@.steps.len(),
    ensures
        state_at(res, k).len() == state_at(res, 0).len() + k,
    decreases k,
{
    if k > 0 {
        lemma_state_len(lib, buffer, bin, bout, res, k - 1);
        let nets = relieved_nets(res.inserted@);
        let k1 = k - 1;
        assert(state_at(res, k1 + 1) == trial_of(lib, buffer, bin, bout, state_at(res, k1), nets[k1], k1 as nat));
        lemma_shape_split(lib, state_at(res, k - 1), nets[k - 1], buffer, bin, bout, (k - 1) as nat);
    }
}

/// Instance `a` is `b` with only some nets changed, each into the net of an inserted buffer.
pub open spec fn follows(a: InstView, b: InstView) -> bool {
    &&& a.name == b.name
    &&& a.cell == b.cell
    &&& a.conns.len() == b.conns.len()
    &&& forall|j: int|
        0 <= j < a.conns.len() ==> (#[trigger] a.conns[j]).0 == b.conns[j].0 && (a.conns[j].1
            == b.conns[j].1 || exists|kk: nat| a.conns[j].1 == #[trigger] buf_net_name(kk))
}

/// An instance that `follows` `b` in the state before the `k`-th kept buffer still does in
/// every later state.
proof fn lemma_follows_from(
    lib: Seq<crate::netlist::CellView>,
    buffer: Seq<char>,
    bin: Seq<char>,
    bout: Seq<char>,
    res: BufResult,
    k: int,
    x: int,
    b: InstView,
)
    requires
        states_chain(lib, buffer, bin, bout, res),
        0 <= k <= res.trace@.steps.len(),
        0 <= x < state_at(res, k).len(),
        follows(state_at(res, k)[x], b),
    ensures
        forall|k2: int|
            k <= k2 <= res.trace@.steps.len() ==> x < (#[trigger] state_at(res, k2)).len() && follows(
                state_at(res, k2)[x],
                b,
            ),
    decreases res.trace@.steps.len() - k,
{
    if k < res.trace@.steps.len() {
        let st = state_at(res, k);
        let nets = relieved_nets(res.inserted@);
        let moved = moved_sinks(sink_list(lib, st, nets[k]).sort_by(pair_order()));
        let next = state_at(res, k + 1);
        assert(next == trial_of(lib, buffer, bin, bout, st, nets[k], k as nat));
        lemma_shape_split(lib, st, nets[k], buffer, bin, bout, k as nat);
        assert(next[x] == crate::engine::rewired_inst(st[x], nets[k], moved, buf_net_name(k as nat)));
        assert forall|j: int| 0 <= j < next[x].conns.len() implies (#[trigger] next[x].conns[j]).0
            == b.conns[j].0 && (next[x].conns[j].1 == b.conns[j].1 || exists|kk: nat|
            next[x].conns[j].1 == #[trigger] buf_net_name(kk)) by {
            assert(st[x].conns[j].0 == b.conns[j].0);
            if next[x].conns[j] != st[x].conns[j] {
                assert(next[x].conns[j].1 == buf_net_name(k as nat));
            }
        }
        lemma_follows_from(lib, buffer, bin, bout, res, k + 1, x, b);
    }
}

/// Net `net`, driven in `nl` from one connection only, by a `dont_touch` instance, and not
/// named like an inserted buffer's net, is not the net of the `k`-th kept buffer.
proof fn lemma_not_relieved_at(
    lib: Seq<crate::netlist::CellView>,
    cfg: crate::job::CfgView,
    limit: int,
    bin: Seq<char>,
    bout: Seq<char>,
    res: BufResult,
    nl: Seq<InstView>,
    i: int,
    j: int,
    k: int,
)
    requires
        states_chain(lib, cfg.buffer, bin, bout, res),
        forall|k1: int|
            0 <= k1 < res.trace@.steps.len() ==> state_at(res, k1) == res.trace@.steps[k1].before
                && #[trigger] is_step(
                lib,
                cfg,
                limit,
                res.trace@.steps[k1],
                relieved_nets(res.inserted@)[k1],
            ),
        state_at(res, 0) == nl,
        forall|kk: nat| nl[i].conns[j].1 != #[trigger] buf_net_name(kk),
        single_driver(lib, nl, nl[i].conns[j].1),
        0 <= i < nl.len(),
        0 <= j < nl[i].conns.len(),
        crate::netlist::conn_dir(lib, nl[i], j) == Some(crate::netlist::PinDir::Output),
        crate::engine::protected(cfg.dont_touch, nl[i].name),
        0 <= k < res.trace@.steps.len(),
    ensures
        relieved_nets(res.inserted@)[k] != nl[i].conns[j].1,
    decreases k,
{
    let nets = relieved_nets(res.inserted@);
    let net = nl[i].conns[j].1;
    if nets[k] == net {
        let s = res.trace@.steps[k];
        let st = state_at(res, k);
        assert(is_step(lib, cfg, limit, s, nets[k]));
        let (bi, bj) = choose|bi: int, bj: int|
            #[trigger] is_best(lib, s.before, s.timing, cfg, limit, s.tried, bi, bj) && nets[k]
                == s.before[bi].conns[bj].1;
        crate::engine::lemma_candidate_rules(lib, s.before, s.timing, cfg, limit, s.tried, bi, bj);
        lemma_state_len(lib, cfg.buffer, bin, bout, res, k);
        if bi < nl.len() {
            assert(follows(nl[bi], nl[bi]));
            lemma_follows_from(lib, cfg.buffer, bin, bout, res, 0, bi, nl[bi]);
            assert(follows(st[bi], nl[bi]));
            assert(st[bi].conns[bj].0 == nl[bi].conns[bj].0);
            assert(st[bi].conns[bj].1 == nl[bi].conns[bj].1);
            assert(crate::netlist::conn_dir(lib, nl[bi], bj) == crate::netlist::conn_dir(lib, st[bi], bj));
            assert(bi == i && bj == j);
        } else {
            let kk = bi - nl.len();
            lemma_state_len(lib, cfg.buffer, bin, bout, res, kk);
            let sk = state_at(res, kk);
            let sn = state_at(res, kk + 1);
            assert(sn == trial_of(lib, cfg.buffer, bin, bout, sk, nets[kk], kk as nat));
            lemma_shape_split(lib, sk, nets[kk], cfg.buffer, bin, bout, kk as nat);
            let b = InstView {
                cell: cfg.buffer,
                name: buf_name(kk as nat),
                conns: seq![(bin, nets[kk]), (bout, buf_net_name(kk as nat))],
            };
            assert(sn[bi] == b);
            assert(follows(sn[bi], b));
            lemma_follows_from(lib, cfg.buffer, bin, bout, res, kk + 1, bi, b);
            assert(follows(st[bi], b));
            assert(st[bi].conns[bj].1 == b.conns[bj].1);
            if bj == 0 {
                lemma_not_relieved_at(lib, cfg, limit, bin, bout, res, nl, i, j, kk);
            } else {
                assert(net == buf_net_name(kk as nat));
            }
        }
    }
}

/// No net that the input netlist drives from a `dont_touch` instance is ever relieved, where
/// that net has one driver in `nl` and `nl` names no net like an inserted buffer's net.
pub proof fn lemma_dont_touch_never_relieved<F: Fn(&Netlist) -> Result<Timing, String>>(
    time: F,
    nl: Seq<InstView>,
    lib: Seq<crate::netlist::CellView>,
    cfg: crate::job::CfgView,
    limit: int,
    res: BufResult,
    k: int,
    i: int,
    j: int,
)
    requires
        run_rounds_ok(time, nl, lib, cfg, limit, res),
        forall|i2: int, j2: int, kk: nat|
            0 <= i2 < nl.len() && 0 <= j2 < nl[i2].conns.len() ==> #[trigger] nl[i2].conns[j2].1
                != #[trigger] buf_net_name(kk),
        0 <= k < res.inserted@.len(),
        single_driver(lib, nl, res.inserted@[k].1@),
        0 <= i < nl.len(),
        0 <= j < nl[i].conns.len(),
        crate::netlist::conn_dir(lib, nl[i], j) == Some(crate::netlist::PinDir::Output),
        nl[i].conns[j].1 == res.inserted@[k].1@,
    ensures
        !crate::engine::protected(cfg.dont_touch, nl[i].name),
{
    let steps = res.trace@.steps;
    let nets = relieved_nets(res.inserted@);
    let (bin, bout) = buffer_pins_of(lib, cfg.buffer)->Ok_0;
    lemma_states_chain(time, nl, lib, cfg, limit, res);
    assert(steps.len() == nets.len());
    assert(state_at(res, 0) == nl);
    assert(nets[k] == res.inserted@[k].1@);
    assert forall|k1: int| 0 <= k1 < steps.len() implies state_at(res, k1) == steps[k1].before
        && #[trigger] is_step(lib, cfg, limit, steps[k1], nets[k1]) by {}
    assert forall|kk: nat| nl[i].conns[j].1 != #[trigger] buf_net_name(kk) by {}
    if crate::engine::protected(cfg.dont_touch, nl[i].name) {
        lemma_not_relieved_at(lib, cfg, limit, bin, bout, res, nl, i, j, k);
    }
}

/// A net that the input netlist drives from a `dont_touch` instance keeps all its sinks: every
/// connection of `nl` on it is the same in the result, where that net has one driver in `nl`
/// and `nl` names no net like an inserted buffer's net.
pub proof fn lemma_dont_touch_net_kept<F: Fn(&Netlist) -> Result<Timing, String>>(
    time: F,
    nl: Seq<InstView>,
    lib: Seq<crate::netlist::CellView>,
    cfg: crate::job::CfgView,
    limit: int,
    res: BufResult,
    i: int,
    j: int,
    i2: int,
    j2: int,
)
    requires
        run_rounds_ok(time, nl, lib, cfg, limit, res),
        run_result(nl, cfg, limit, res),
        forall|i3: int, j3: int, kk: nat|
            0 <= i3 < nl.len() && 0 <= j3 < nl[i3].conns.len() ==> #[trigger] nl[i3].conns[j3].1
                != #[trigger] buf_net_name(kk),
        0 <= i < nl.len(),
        0 <= j < nl[i].conns.len(),
        crate::netlist::conn_dir(lib, nl[i], j) == Some(crate::netlist::PinDir::Output),
        single_driver(lib, nl, nl[i].conns[j].1),
        crate::engine::protected(cfg.dont_touch, nl[i].name),
        0 <= i2 < nl.len(),
        0 <= j2 < nl[i2].conns.len(),
        nl[i2].conns[j2].1 == nl[i].conns[j].1,
    ensures
        res.netlist@[i2].conns[j2] == nl[i2].conns[j2],
{
    let nets = relieved_nets(res.inserted@);
    if nets.contains(nl[i].conns[j].1) {
        let k = choose|k: int| 0 <= k < nets.len() && nets[k] == nl[i].conns[j].1;
        assert(nets[k] == res.inserted@[k].1@);
        lemma_dont_touch_never_relieved(time, nl, lib, cfg, limit, res, k, i, j);
    }
    lemma_other_nets_untouched(time, nl, lib, cfg, limit, res, i2, j2);
}

/// The optimizer: greedily relieves over-transition nets, having `time` time the netlist
/// first and then every trial. Fails with the buffer check's message, with the first error
/// `time` returns on a netlist it was handed, or when a snapshot does not match the netlist
/// it was taken on; succeeds whenever the buffer cell is usable and `time` succeeds, with a
/// matching snapshot, on every netlist the run may hand it (`handed`).
pub fn optimize<F: Fn(&Netlist) -> Result<Timing, String>>(
    nl: Netlist,
    lib: &Library,
    cfg: &BufCfg,
    limit: i64,
    time: F,
) -> (r: Result<BufResult, String>)
    requires
        forall|n: &Netlist| call_requires(time, (n,)),
    ensures
        buffer_pins_of(lib@, cfg.buffer@) matches Err(e) ==> (r matches Err(m) && m@ == e),
        r matches Err(e) ==> {
            ||| buffer_pins_of(lib@, cfg.buffer@) == Err::<(Seq<char>, Seq<char>), Seq<char>>(e@)
            ||| exists|n: &Netlist|
                call_ensures(time, (n,), Err::<Timing, String>(e)) && handed(
                    time,
                    lib@,
                    cfg@,
                    limit as int,
                    nl@,
                    n@,
                )
            ||| e@ == snapshot_mismatch() && exists|n: &Netlist, t: Timing|
                call_ensures(time, (n,), Ok::<Timing, String>(t)) && !fits(t@, n@) && handed(
                    time,
                    lib@,
                    cfg@,
                    limit as int,
                    nl@,
                    n@,
                )
        },
        (buffer_pins_of(lib@, cfg.buffer@) is Ok && forall|n: &Netlist, x: Result<Timing, String>|
            call_ensures(time, (n,), x) && handed(time, lib@, cfg@, limit as int, nl@, n@) ==> (x matches Ok(t)
                && fits(t@, n@))) ==> r is Ok,
        r matches Ok(res) ==> run_timed(time, nl@, lib@, res),
        r matches Ok(res) ==> run_rounds_ok(time, nl@, lib@, cfg@, limit as int, res),
        r matches Ok(res) ==> run_result(nl@, cfg@, limit as int, res),
{
    let prepared = match prepare(nl, lib, cfg, limit) {
        Ok(p) => p,
        Err(e) => {
            return Err(e);
        },
    };
    assert(handed(time, lib@, cfg@, limit as int, nl@, prepared.nl@));
    let t0 = match time(&prepared.nl) {
        Ok(t) => t,
        Err(e) => {
            return Err(e);
        },
    };
    if !crate::netlist::timing_fits(&t0, &prepared.nl) {
        return Err(String::from_str("timing snapshot does not match the netlist"));
    }
    assert(timed_by(time, prepared.nl@, t0@));
    let opt = prepared.start(t0);
    let opt = match run_rounds(opt, time) {
        Ok(o) => o,
        Err(e) => {
            return Err(e);
        },
    };
    let ghost last = opt;
    let res = opt.finish();
    proof {
        lemma_outcome(time, last, res);
    }
    Ok(res)
}

} // verus!
