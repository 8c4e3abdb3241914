//! What holds of the events of a whole scan.

use vstd::prelude::*;
use crate::bytes::DASH;
use crate::scan::{
    free_event, free_step, long_name, option_shaped, scan_events, scan_step, OptResView,
    ScanState,
};
use crate::table::{long_bytes, Opt};

verus! {

/// The arguments from index `from` on, each as a free argument.
pub open spec fn free_events(args: Seq<Seq<u8>>, from: int) -> Seq<OptResView> {
    args.subrange(from, args.len() as int).map_values(|t: Seq<u8>| free_event(t))
}

/// Once only free arguments are left, every further argument is yielded as a
/// free argument, unchanged and in order, whatever it looks like.
pub proof fn lemma_only_free_left(opts: Seq<Opt>, args: Seq<Seq<u8>>, s: ScanState)
    requires
        s.only_free,
        s.subpos is None,
        0 <= s.pos <= args.len(),
    ensures
        scan_events(opts, args, s) == free_events(args, s.pos),
    decreases args.len() - s.pos,
{
    if s.pos >= args.len() {
        assert(scan_events(opts, args, s) =~= free_events(args, s.pos));
    } else {
        let t = s.skip_free();
        lemma_only_free_left(opts, args, t);
        assert(scan_events(opts, args, s) == seq![free_event(args[s.pos])] + scan_events(
            opts,
            args,
            t,
        ));
        assert(scan_events(opts, args, s) =~= free_events(args, s.pos));
    }
}

/// Arguments of which none starts with a dash are yielded one free argument
/// each, unchanged and in order, whatever the table holds and in either
/// mode.
pub proof fn lemma_plain_arguments_are_free(opts: Seq<Opt>, args: Seq<Seq<u8>>, s: ScanState)
    requires
        s.subpos is None,
        0 <= s.pos <= args.len(),
        forall|i: int| s.pos <= i < args.len() ==> args[i].len() == 0 || args[i][0] != DASH,
    ensures
        scan_events(opts, args, s) == free_events(args, s.pos),
    decreases args.len() - s.pos,
{
    if s.pos >= args.len() {
        assert(scan_events(opts, args, s) =~= free_events(args, s.pos));
    } else {
        let t = s.skip_free();
        assert(!option_shaped(args[s.pos]));
        lemma_plain_arguments_are_free(opts, args, t);
        assert(scan_events(opts, args, s) == seq![free_event(args[s.pos])] + scan_events(
            opts,
            args,
            t,
        ));
        assert(scan_events(opts, args, s) =~= free_events(args, s.pos));
    }
}

/// A scan from the start over arguments of which none starts with a dash
/// yields exactly one free argument per argument, in order.
pub proof fn lemma_scan_of_plain_arguments(opts: Seq<Opt>, args: Seq<Seq<u8>>, posix: bool)
    requires
        forall|i: int| 0 <= i < args.len() ==> args[i].len() == 0 || args[i][0] != DASH,
    ensures
        scan_events(opts, args, ScanState::start(posix)) == args.map_values(
            |t: Seq<u8>| free_event(t),
        ),
{
    lemma_plain_arguments_are_free(opts, args, ScanState::start(posix));
    assert(args.subrange(0, args.len() as int) =~= args);
}

/// At a `--` on its own, all that the scan still yields are the arguments
/// behind it, each as a free argument, unchanged and in order.  (Where only
/// free arguments were left already, the `--` is itself one of them.)
pub proof fn lemma_terminator(opts: Seq<Opt>, args: Seq<Seq<u8>>, s: ScanState)
    requires
        s.subpos is None,
        0 <= s.pos < args.len(),
        args[s.pos] == seq![DASH, DASH],
    ensures
        scan_events(opts, args, s) == if s.only_free {
            free_events(args, s.pos)
        } else {
            free_events(args, s.pos + 1)
        },
{
    if s.only_free {
        lemma_only_free_left(opts, args, s);
    } else {
        let t = s.skip_terminator();
        assert(option_shaped(args[s.pos]));
        lemma_only_free_left(opts, args, t);
        if t.pos >= args.len() {
            assert(scan_events(opts, args, s) =~= free_events(args, t.pos));
        } else {
            let u = t.skip_free();
            assert(scan_events(opts, args, s) == seq![free_event(args[t.pos])] + scan_events(
                opts,
                args,
                u,
            ));
            assert(scan_events(opts, args, t) == seq![free_event(args[t.pos])] + scan_events(
                opts,
                args,
                u,
            ));
        }
    }
}

/// An argument `--name` or `--name=value` whose name is the long identifier
/// of no entry is a free argument, yielded whole; it is not reported as
/// unknown, as a character in a group of short options would be.
pub proof fn lemma_unmatched_long_is_free(opts: Seq<Opt>, args: Seq<Seq<u8>>, s: ScanState)
    requires
        s.subpos is None,
        0 <= s.pos < args.len(),
        args[s.pos].len() > 2,
        args[s.pos][0] == DASH,
        args[s.pos][1] == DASH,
        forall|i: int| 0 <= i < opts.len() ==> long_bytes(opts[i]) != Some(long_name(args[s.pos])),
    ensures
        scan_step(opts, args, s) == free_step(args, s),
        scan_step(opts, args, s).0 == Some(free_event(args[s.pos])),
{
    let ids = crate::table::long_ids(opts);
    ids.index_of_first_ensures(Some(long_name(args[s.pos])));
    if ids.contains(Some(long_name(args[s.pos]))) {
        let i = choose|i: int| 0 <= i < ids.len() && ids[i] == Some(long_name(args[s.pos]));
        assert(long_bytes(opts[i]) == Some(long_name(args[s.pos])));
    }
}

/// In the mode in which the first free argument ends the options, an
/// argument that is classified as free is followed by free arguments only:
/// from there on every argument is yielded as it is, also one that names an
/// option.
pub proof fn lemma_first_free_ends_options(opts: Seq<Opt>, args: Seq<Seq<u8>>, s: ScanState)
    requires
        s.posix,
        s.subpos is None,
        0 <= s.pos < args.len(),
        scan_step(opts, args, s) == free_step(args, s),
    ensures
        scan_events(opts, args, s) == free_events(args, s.pos),
{
    let t = s.skip_free();
    lemma_only_free_left(opts, args, t);
    assert(scan_events(opts, args, s) == seq![free_event(args[s.pos])] + scan_events(
        opts,
        args,
        t,
    ));
    assert(scan_events(opts, args, s) =~= free_events(args, s.pos));
}

} // verus!
