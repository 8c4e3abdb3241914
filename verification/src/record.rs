//! Scanning all arguments in one pass.

use vstd::prelude::*;
use crate::scan::{
    arg_bytes, group_rest, lemma_step_advances, scan_events, OptRes, OptResView, OptVar,
    OptVarView, ScanState,
};
use crate::table::Opts;

verus! {

/// The outcome of scanning all arguments: the free arguments, and the
/// options that were given.  Each list is in the order of the arguments; how
/// free arguments and options were interleaved is not kept.
pub struct Recording<'a> {
    pub free: Vec<&'a [u8]>,
    pub res: Vec<OptRes<'a>>,
}

/// A `Recording` as a mathematical value.
pub struct RecordingView {
    pub free: Seq<Seq<u8>>,
    pub res: Seq<OptResView>,
}

impl<'a> View for Recording<'a> {
    type V = RecordingView;

    open spec fn view(&self) -> RecordingView {
        RecordingView {
            free: self.free@.map_values(|b: &[u8]| b@),
            res: self.res@.map_values(|o: OptRes| o@),
        }
    }
}

/// The argument that an event stands for, if the event is a free argument.
pub open spec fn free_of(e: OptResView) -> Option<Seq<u8>> {
    match e.var {
        OptVarView::OptFree(t) => Some(t),
        _ => None,
    }
}

/// The free arguments among `events`, in order.
pub open spec fn free_args(events: Seq<OptResView>) -> Seq<Seq<u8>> {
    events.filter_map(|e: OptResView| free_of(e))
}

/// The events among `events` that are not free arguments, in order.
pub open spec fn options(events: Seq<OptResView>) -> Seq<OptResView> {
    events.filter(|e: OptResView| !(e.var is OptFree))
}

/// Index of the first event that reports a problem.
pub open spec fn first_failure(events: Seq<OptResView>) -> Option<int> {
    events.map_values(|e: OptResView| e.var.is_failure()).index_of_first(true)
}

/// What a recording pass makes of the events of a scan: the first event that
/// reports a problem, and nothing else; without such an event, the free
/// arguments and the options.
pub open spec fn recorded(events: Seq<OptResView>) -> Result<RecordingView, OptResView> {
    match first_failure(events) {
        Some(i) => Err(events[i]),
        None => Ok(RecordingView { free: free_args(events), res: options(events) }),
    }
}

/// A recording pass fails exactly when some event reports a problem, and
/// then with the first such event.  In particular, where one event among
/// `events` reports a problem, the pass fails with that event, and nothing of
/// what came before it is handed out.
pub proof fn lemma_recorded_failure(events: Seq<OptResView>, i: int)
    requires
        0 <= i < events.len(),
        events[i].var.is_failure(),
        forall|j: int| 0 <= j < i ==> !events[j].var.is_failure(),
    ensures
        recorded(events) == Err::<RecordingView, OptResView>(events[i]),
{
    let flags = events.map_values(|e: OptResView| e.var.is_failure());
    flags.index_of_first_ensures(true);
    assert(flags[i] == true);
    assert forall|j: int| 0 <= j < i implies flags[j] != true by {
        assert(!events[j].var.is_failure());
    }
}

/// A recording pass succeeds exactly when no event reports a problem, and
/// then nothing is lost: the free arguments and the options together are as
/// many as the events.
pub proof fn lemma_recorded_success(events: Seq<OptResView>)
    requires
        forall|j: int| 0 <= j < events.len() ==> !events[j].var.is_failure(),
    ensures
        recorded(events) == Ok::<RecordingView, OptResView>(
            RecordingView { free: free_args(events), res: options(events) },
        ),
        free_args(events).len() + options(events).len() == events.len(),
    decreases events.len(),
{
    let flags = events.map_values(|e: OptResView| e.var.is_failure());
    flags.index_of_first_ensures(true);
    if flags.contains(true) {
        let j = choose|j: int| 0 <= j < flags.len() && flags[j] == true;
        assert(events[j].var.is_failure());
    }
    if events.len() > 0 {
        let init = events.drop_last();
        assert forall|j: int| 0 <= j < init.len() implies !init[j].var.is_failure() by {
            assert(init[j] == events[j]);
        }
        lemma_recorded_success(init);
        let last = events.last();
        assert(free_args(events) == match free_of(last) {
            Some(t) => free_args(init) + seq![t],
            None => free_args(init),
        });
        assert(events =~= init.push(last));
        init.lemma_filter_push(last, |e: OptResView| !(e.var is OptFree));
    }
}

impl Opts {
    /// Scans all of `args` and sorts what it finds into free arguments and
    /// options.  The first missing value or unknown option ends the pass and
    /// is returned alone.
    pub fn record<'a>(&'a self, args: &'a [Vec<u8>]) -> (r: Result<Recording<'a>, OptRes<'a>>)
        ensures
            match r {
                Ok(rec) => recorded(
                    scan_events(self.entries(), arg_bytes(args@), ScanState::start(false)),
                ) == Ok::<RecordingView, OptResView>(rec@),
                Err(o) => recorded(
                    scan_events(self.entries(), arg_bytes(args@), ScanState::start(false)),
                ) == Err::<RecordingView, OptResView>(o@),
            },
    {
        let mut free: Vec<&'a [u8]> = Vec::new();
        let mut res: Vec<OptRes<'a>> = Vec::new();
        let mut it = self.getopts(args);
        let ghost all = scan_events(self.entries(), arg_bytes(args@), ScanState::start(false));
        let ghost mut done: Seq<OptResView> = Seq::empty();
        let ghost flags = all.map_values(|e: OptResView| e.var.is_failure());
        proof {
            assert(all =~= done + all);
            assert(free@.map_values(|b: &[u8]| b@) =~= free_args(done));
            assert(res@.map_values(|o: OptRes| o@) =~= options(done));
        }
        loop
            invariant
                it.wf(),
                it.table() == self.entries(),
                it.args() == arg_bytes(args@),
                all == scan_events(self.entries(), arg_bytes(args@), ScanState::start(false)),
                all == done + scan_events(self.entries(), arg_bytes(args@), it@),
                flags == all.map_values(|e: OptResView| e.var.is_failure()),
                forall|j: int| 0 <= j < done.len() ==> !done[j].var.is_failure(),
                free@.map_values(|b: &[u8]| b@) == free_args(done),
                res@.map_values(|o: OptRes| o@) == options(done),
            decreases arg_bytes(args@).len() - it@.pos, group_rest(arg_bytes(args@), it@),
        {
            let ghost before = it@;
            match it.next() {
                None => {
                    proof {
                        assert(all =~= done);
                        flags.index_of_first_ensures(true);
                        if flags.contains(true) {
                            let j = choose|j: int| 0 <= j < flags.len() && flags[j] == true;
                            assert(done[j].var.is_failure());
                        }
                    }
                    let rec = Recording { free: free, res: res };
                    return Ok(rec);
                },
                Some(o) => {
                    let ghost rest = scan_events(self.entries(), arg_bytes(args@), it@);
                    proof {
                        lemma_step_advances(self.entries(), arg_bytes(args@), before);
                        assert(scan_events(self.entries(), arg_bytes(args@), before) == seq![o@]
                            + rest);
                        assert(all =~= done.push(o@) + rest);
                    }
                    match o.var {
                        OptVar::OptMissing(_) | OptVar::OptLongMissing(_) | OptVar::OptUnknown(_) => {
                            proof {
                                let n = done.len() as int;
                                assert(all[n] == o@);
                                assert(flags[n] == true);
                                assert forall|j: int| 0 <= j < n implies flags[j] != true by {
                                    assert(all[j] == done[j]);
                                }
                                flags.index_of_first_ensures(true);
                            }
                            return Err(o);
                        },
                        OptVar::OptFree(v) => {
                            free.push(v);
                            proof {
                                assert(done.push(o@).drop_last() =~= done);
                                assert(free@.map_values(|b: &[u8]| b@) =~= free_args(done.push(o@)));
                                done.lemma_filter_push(o@, |e: OptResView| !(e.var is OptFree));
                            }
                        },
                        _ => {
                            res.push(o);
                            proof {
                                assert(done.push(o@).drop_last() =~= done);
                                done.lemma_filter_push(o@, |e: OptResView| !(e.var is OptFree));
                                assert(res@.map_values(|o: OptRes| o@) =~= options(done.push(o@)));
                            }
                        },
                    }
                    proof {
                        done = done.push(o@);
                    }
                },
            }
        }
    }
}

} // verus!
