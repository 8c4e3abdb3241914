//! The scanner: a cursor over the argument list that classifies one argument
//! per call.

use vstd::prelude::*;
use vstd::slice::*;
use vstd::string::*;
use crate::bytes::{find_byte, DASH, EQUALS};
use crate::table::{find_long, find_short, Opt, OptType, Opts};

verus! {

/// What the scanner found.
#[derive(Clone, Copy, Debug)]
pub enum OptVar<'a> {
    /// A switch.
    OptFlag(char),
    /// An option with its value.
    OptOpt(char, &'a [u8]),
    /// An option whose value may be left out, with the value if one was given.
    OptOptOpt(char, Option<&'a [u8]>),
    /// A switch that has no short identifier.
    OptLongFlag(&'static str),
    /// An option without a short identifier, with its value.
    OptLongOpt(&'static str, &'a [u8]),
    /// An option without a short identifier whose value may be left out.
    OptLongOptOpt(&'static str, Option<&'a [u8]>),
    /// An argument that is not an option.
    OptFree(&'a [u8]),
    /// An option that needs a value, given as the last argument.
    OptMissing(char),
    /// As `OptMissing`, for an option without a short identifier.
    OptLongMissing(&'static str),
    /// A character in a group of short options that no entry has.
    OptUnknown(char),
}

/// An `OptVar` as a mathematical value.
pub enum OptVarView {
    OptFlag(char),
    OptOpt(char, Seq<u8>),
    OptOptOpt(char, Option<Seq<u8>>),
    OptLongFlag(Seq<char>),
    OptLongOpt(Seq<char>, Seq<u8>),
    OptLongOptOpt(Seq<char>, Option<Seq<u8>>),
    OptFree(Seq<u8>),
    OptMissing(char),
    OptLongMissing(Seq<char>),
    OptUnknown(char),
}

/// The bytes behind an optional slice.
pub open spec fn opt_bytes(v: Option<&[u8]>) -> Option<Seq<u8>> {
    match v {
        Some(b) => Some(b@),
        None => None,
    }
}

impl<'a> View for OptVar<'a> {
    type V = OptVarView;

    open spec fn view(&self) -> OptVarView {
        match *self {
            OptVar::OptFlag(c) => OptVarView::OptFlag(c),
            OptVar::OptOpt(c, v) => OptVarView::OptOpt(c, v@),
            OptVar::OptOptOpt(c, v) => OptVarView::OptOptOpt(c, opt_bytes(v)),
            OptVar::OptLongFlag(l) => OptVarView::OptLongFlag(l@),
            OptVar::OptLongOpt(l, v) => OptVarView::OptLongOpt(l@, v@),
            OptVar::OptLongOptOpt(l, v) => OptVarView::OptLongOptOpt(l@, opt_bytes(v)),
            OptVar::OptFree(v) => OptVarView::OptFree(v@),
            OptVar::OptMissing(c) => OptVarView::OptMissing(c),
            OptVar::OptLongMissing(l) => OptVarView::OptLongMissing(l@),
            OptVar::OptUnknown(c) => OptVarView::OptUnknown(c),
        }
    }
}

impl OptVarView {
    /// Whether this reports a problem with the arguments rather than an
    /// argument.
    pub open spec fn is_failure(self) -> bool {
        self is OptMissing || self is OptLongMissing || self is OptUnknown
    }

    /// The value of an option that must have one.
    pub open spec fn value(self) -> Seq<u8>
        recommends
            self is OptOpt || self is OptLongOpt,
    {
        match self {
            OptVarView::OptOpt(_, v) => v,
            OptVarView::OptLongOpt(_, v) => v,
            _ => Seq::empty(),
        }
    }

    /// The value of an option that may have one, if it was given.
    pub open spec fn optional_value(self) -> Option<Seq<u8>>
        recommends
            self is OptOptOpt || self is OptLongOptOpt,
    {
        match self {
            OptVarView::OptOptOpt(_, v) => v,
            OptVarView::OptLongOptOpt(_, v) => v,
            _ => None,
        }
    }
}

impl<'a> OptVar<'a> {
    /// The value of an option that must have one.  Only such an option may
    /// be asked.
    pub fn get_val(&self) -> (r: &'a [u8])
        requires
            self is OptOpt || self is OptLongOpt,
        ensures
            r@ == self@.value(),
    {
        match *self {
            OptVar::OptOpt(_, v) => v,
            OptVar::OptLongOpt(_, v) => v,
            _ => unreached(),
        }
    }

    /// The value of an option that may have one, if it was given.  Only
    /// such an option may be asked.
    pub fn get_val_opt(&self) -> (r: Option<&'a [u8]>)
        requires
            self is OptOptOpt || self is OptLongOptOpt,
        ensures
            opt_bytes(r) == self@.optional_value(),
    {
        match *self {
            OptVar::OptOptOpt(_, v) => v,
            OptVar::OptLongOptOpt(_, v) => v,
            _ => unreached(),
        }
    }
}

/// One classified argument.
#[derive(Clone, Copy, Debug)]
pub struct OptRes<'a> {
    /// The identifier the option was given by: the short one for `-c`, the
    /// long one for `--color`.  Empty for anything that is not an option of
    /// the table.
    pub real: &'static str,
    /// The identifier the option goes by: its short one, or the long one if
    /// it has no short one.  Empty for anything that is not an option of the
    /// table.
    pub as_str: &'static str,
    /// What was found.
    pub var: OptVar<'a>,
}

/// An `OptRes` as a mathematical value.
pub struct OptResView {
    pub real: Seq<char>,
    pub as_str: Seq<char>,
    pub var: OptVarView,
}

impl<'a> View for OptRes<'a> {
    type V = OptResView;

    open spec fn view(&self) -> OptResView {
        OptResView { real: self.real@, as_str: self.as_str@, var: self.var@ }
    }
}

/// Where a scan stands.
pub struct ScanState {
    /// Index of the next argument to look at.
    pub pos: int,
    /// Inside a group of short options such as `-sl`: index of the next
    /// character of that argument.
    pub subpos: Option<int>,
    /// Set once every further argument is free, whatever it looks like.
    pub only_free: bool,
    /// Whether the first free argument ends the options.
    pub posix: bool,
}

impl ScanState {
    /// The state in which a scan starts.
    pub open spec fn start(posix: bool) -> ScanState {
        ScanState { pos: 0, subpos: None, only_free: false, posix }
    }

    /// The state after `n` whole arguments were used up by an option.
    pub open spec fn skip(self, n: int) -> ScanState {
        ScanState { pos: self.pos + n, subpos: None, only_free: self.only_free, posix: self.posix }
    }

    /// The state after one argument was classified as free.
    pub open spec fn skip_free(self) -> ScanState {
        ScanState {
            pos: self.pos + 1,
            subpos: None,
            only_free: self.only_free || self.posix,
            posix: self.posix,
        }
    }

    /// The state after a `--` on its own was passed.
    pub open spec fn skip_terminator(self) -> ScanState {
        ScanState { pos: self.pos + 1, subpos: None, only_free: true, posix: self.posix }
    }

    /// The state after the switch at `k` in a group of short options.
    pub open spec fn advance_in_group(self, k: int, len: int) -> ScanState {
        if k + 1 < len {
            ScanState {
                pos: self.pos,
                subpos: Some(k + 1),
                only_free: self.only_free,
                posix: self.posix,
            }
        } else {
            self.skip(1)
        }
    }

    /// Whether the state points into `args`.
    pub open spec fn fits(self, args: Seq<Seq<u8>>) -> bool {
        &&& 0 <= self.pos <= args.len()
        &&& self.subpos matches Some(k) ==> self.pos < args.len() && 1 <= k < args[self.pos].len()
    }
}

/// Whether an argument has the shape of an option: a dash and at least one
/// more byte.
pub open spec fn option_shaped(tok: Seq<u8>) -> bool {
    tok.len() >= 2 && tok[0] == DASH
}

/// The event for a free argument.
pub open spec fn free_event(tok: Seq<u8>) -> OptResView {
    OptResView { real: Seq::empty(), as_str: Seq::empty(), var: OptVarView::OptFree(tok) }
}

/// An event for the entry `o`, selected by its short identifier.
pub open spec fn short_event(o: Opt, var: OptVarView) -> OptResView {
    OptResView { real: o.short_str@, as_str: o.short_str@, var }
}

/// An event for the entry `o`, selected by its long identifier: it is
/// reported under the short identifier where the entry has one (`by_short`),
/// else under the long one (`by_long`).
pub open spec fn long_event(o: Opt, by_short: OptVarView, by_long: OptVarView) -> OptResView {
    if o.short is Some {
        OptResView { real: o.long->0@, as_str: o.short_str@, var: by_short }
    } else {
        OptResView { real: o.long->0@, as_str: o.long->0@, var: by_long }
    }
}

/// Classifying the next argument as free.
pub open spec fn free_step(args: Seq<Seq<u8>>, s: ScanState) -> (Option<OptResView>, ScanState) {
    (Some(free_event(args[s.pos])), s.skip_free())
}

/// The step at character `k` of a group of short options.
///
/// A switch leaves the cursor in the group until its last character is
/// passed.  An option with a value takes the rest of the argument as its
/// value, whatever it holds; where nothing is left, a value that may be left
/// out is absent, and a value that must be given is the whole next argument,
/// or reported missing at the end of the arguments.
pub open spec fn group_step(opts: Seq<Opt>, args: Seq<Seq<u8>>, s: ScanState, k: int) -> (
    Option<OptResView>,
    ScanState,
) {
    let tok = args[s.pos];
    let c = tok[k] as char;
    let rest = tok.subrange(k + 1, tok.len() as int);
    match find_short(opts, c) {
        None => (
            Some(
                OptResView {
                    real: Seq::empty(),
                    as_str: Seq::empty(),
                    var: OptVarView::OptUnknown(c),
                },
            ),
            s.skip(1),
        ),
        Some(i) => {
            let o = opts[i];
            match o.ty {
                OptType::LitOptFlag => (
                    Some(short_event(o, OptVarView::OptFlag(c))),
                    s.advance_in_group(k, tok.len() as int),
                ),
                OptType::LitOptOptOpt => if k + 1 < tok.len() {
                    (Some(short_event(o, OptVarView::OptOptOpt(c, Some(rest)))), s.skip(1))
                } else {
                    (Some(short_event(o, OptVarView::OptOptOpt(c, None))), s.skip(1))
                },
                OptType::LitOptOpt => if k + 1 < tok.len() {
                    (Some(short_event(o, OptVarView::OptOpt(c, rest))), s.skip(1))
                } else if s.pos + 1 < args.len() {
                    (Some(short_event(o, OptVarView::OptOpt(c, args[s.pos + 1]))), s.skip(2))
                } else {
                    (Some(short_event(o, OptVarView::OptMissing(c))), s.skip(1))
                },
            }
        },
    }
}

/// The part of a `--name` or `--name=value` argument that names the option.
pub open spec fn long_name(tok: Seq<u8>) -> Seq<u8> {
    match tok.index_of_first(EQUALS) {
        Some(p) => tok.subrange(2, p),
        None => tok.subrange(2, tok.len() as int),
    }
}

/// The value in a `--name=value` argument: what follows the first `=`.
pub open spec fn long_value(tok: Seq<u8>) -> Option<Seq<u8>> {
    match tok.index_of_first(EQUALS) {
        Some(p) => Some(tok.subrange(p + 1, tok.len() as int)),
        None => None,
    }
}

/// The step at an argument that starts with `--` and goes on.
///
/// An argument that names no entry is a free argument, not an error.  A
/// switch ignores a value given with `=`.  A value that must be given is
/// taken from behind the `=`, else it is the whole next argument, else it is
/// reported missing; one that may be left out is never taken from the next
/// argument.
pub open spec fn long_step(opts: Seq<Opt>, args: Seq<Seq<u8>>, s: ScanState) -> (
    Option<OptResView>,
    ScanState,
) {
    let tok = args[s.pos];
    match find_long(opts, long_name(tok)) {
        None => free_step(args, s),
        Some(i) => {
            let o = opts[i];
            let c = o.short->0;
            let l = o.long->0@;
            match o.ty {
                OptType::LitOptFlag => (
                    Some(long_event(o, OptVarView::OptFlag(c), OptVarView::OptLongFlag(l))),
                    s.skip(1),
                ),
                OptType::LitOptOpt => match long_value(tok) {
                    Some(v) => (
                        Some(
                            long_event(o, OptVarView::OptOpt(c, v), OptVarView::OptLongOpt(l, v)),
                        ),
                        s.skip(1),
                    ),
                    None => if s.pos + 1 < args.len() {
                        let v = args[s.pos + 1];
                        (
                            Some(
                                long_event(
                                    o,
                                    OptVarView::OptOpt(c, v),
                                    OptVarView::OptLongOpt(l, v),
                                ),
                            ),
                            s.skip(2),
                        )
                    } else {
                        (
                            Some(
                                long_event(
                                    o,
                                    OptVarView::OptMissing(c),
                                    OptVarView::OptLongMissing(l),
                                ),
                            ),
                            s.skip(1),
                        )
                    },
                },
                OptType::LitOptOptOpt => (
                    Some(
                        long_event(
                            o,
                            OptVarView::OptOptOpt(c, long_value(tok)),
                            OptVarView::OptLongOptOpt(l, long_value(tok)),
                        ),
                    ),
                    s.skip(1),
                ),
            }
        },
    }
}

/// One step of a scan: the event it yields, if any, and the state it leaves.
///
/// No event is yielded once the arguments are used up.  Inside a group of
/// short options the step is `group_step`.  Otherwise the next argument is
/// free if only free arguments are left, or if it is not shaped like an
/// option.  A `--` on its own yields nothing itself: it makes every further
/// argument free, and the step goes on to the argument behind it.  A longer
/// argument that starts with `--` is handled by `long_step`.  Any other
/// argument is a group of short options if its first character is the short
/// identifier of an entry, and free if not.
pub open spec fn scan_step(opts: Seq<Opt>, args: Seq<Seq<u8>>, s: ScanState) -> (
    Option<OptResView>,
    ScanState,
) {
    if s.pos >= args.len() {
        (None, s)
    } else if s.subpos is Some {
        group_step(opts, args, s, s.subpos->0)
    } else {
        let tok = args[s.pos];
        if s.only_free || !option_shaped(tok) {
            free_step(args, s)
        } else if tok[1] == DASH {
            if tok.len() == 2 {
                let t = s.skip_terminator();
                if t.pos >= args.len() {
                    (None, t)
                } else {
                    free_step(args, t)
                }
            } else {
                long_step(opts, args, s)
            }
        } else if find_short(opts, tok[1] as char) is Some {
            group_step(opts, args, s, 1)
        } else {
            free_step(args, s)
        }
    }
}

/// How much of the current argument a scan inside a group of short options
/// has left; for a scan between arguments, the length of the next one.
pub open spec fn group_rest(args: Seq<Seq<u8>>, s: ScanState) -> int {
    match s.subpos {
        Some(k) => args[s.pos].len() - k,
        None => args[s.pos].len() as int,
    }
}

/// Every step that yields an event moves the cursor forward: to a later
/// argument, or within a group of short options.
pub proof fn lemma_step_advances(opts: Seq<Opt>, args: Seq<Seq<u8>>, s: ScanState)
    requires
        scan_step(opts, args, s).0 is Some,
    ensures
        ({
            let t = scan_step(opts, args, s).1;
            ||| t.pos > s.pos
            ||| t.pos == s.pos && 0 <= group_rest(args, t) < group_rest(args, s)
        }),
{
}

/// A step from a state that points into the arguments leaves such a state.
pub proof fn lemma_step_fits(opts: Seq<Opt>, args: Seq<Seq<u8>>, s: ScanState)
    requires
        s.fits(args),
    ensures
        scan_step(opts, args, s).1.fits(args),
{
}

/// All the events that a scan yields from the state `s` on, in order.
pub open spec fn scan_events(opts: Seq<Opt>, args: Seq<Seq<u8>>, s: ScanState) -> Seq<OptResView>
    decreases args.len() - s.pos, group_rest(args, s),
{
    let (e, t) = scan_step(opts, args, s);
    match e {
        None => Seq::empty(),
        Some(ev) => seq![ev] + scan_events(opts, args, t),
    }
}

/// The arguments of a scan as byte strings.
pub open spec fn arg_bytes(args: Seq<Vec<u8>>) -> Seq<Seq<u8>> {
    args.map_values(|v: Vec<u8>| v@)
}

/// The event that a call of `next` returned, as a mathematical value.
pub open spec fn event_view(r: Option<OptRes>) -> Option<OptResView> {
    match r {
        Some(o) => Some(o@),
        None => None,
    }
}

/// A scan in progress: the table, the arguments, and how far it has come.
pub struct OptsIter<'a> {
    opts: &'a Opts,
    args: &'a [Vec<u8>],
    pos: usize,
    subpos: Option<usize>,
    only_free: bool,
    posix: bool,
}

impl<'a> View for OptsIter<'a> {
    type V = ScanState;

    closed spec fn view(&self) -> ScanState {
        ScanState {
            pos: self.pos as int,
            subpos: match self.subpos {
                Some(k) => Some(k as int),
                None => None,
            },
            only_free: self.only_free,
            posix: self.posix,
        }
    }
}

impl Opts {
    /// Starts a scan of `args` in which options and free arguments may
    /// alternate.
    pub fn getopts<'a>(&'a self, args: &'a [Vec<u8>]) -> (it: OptsIter<'a>)
        ensures
            it.wf(),
            it.table() == self.entries(),
            it.args() == arg_bytes(args@),
            it@ == ScanState::start(false),
    {
        self.scan(args, false)
    }

    /// Starts a scan of `args`.  With `posix`, the first free argument ends
    /// the options: every argument behind it is free.
    pub fn scan<'a>(&'a self, args: &'a [Vec<u8>], posix: bool) -> (it: OptsIter<'a>)
        ensures
            it.wf(),
            it.table() == self.entries(),
            it.args() == arg_bytes(args@),
            it@ == ScanState::start(posix),
    {
        OptsIter { opts: self, args: args, pos: 0, subpos: None, only_free: false, posix: posix }
    }
}

impl<'a> OptsIter<'a> {
    /// The table that the scan goes by.
    pub closed spec fn table(&self) -> Seq<Opt> {
        self.opts.entries()
    }

    /// The arguments that the scan goes through.
    pub closed spec fn args(&self) -> Seq<Seq<u8>> {
        arg_bytes(self.args@)
    }

    /// Whether the cursor lies within the arguments.  It always does.
    pub open spec fn wf(&self) -> bool {
        self@.fits(self.args())
    }

    #[verifier::type_invariant]
    spec fn within(&self) -> bool {
        self.wf()
    }

    fn take_free(&mut self) -> (r: OptRes<'a>)
        requires
            old(self)@.pos < old(self).args().len(),
            old(self)@.subpos is None,
        ensures
            final(self).wf(),
            final(self).table() == old(self).table(),
            final(self).args() == old(self).args(),
            (Some(r@), final(self)@) == free_step(old(self).args(), old(self)@),
    {
        proof {
            use_type_invariant(&*self);
        }
        let args: &'a [Vec<u8>] = self.args;
        let tok: &'a [u8] = args[self.pos].as_slice();
        self.pos += 1;
        if self.posix {
            self.only_free = true;
        }
        proof {
            reveal_strlit("");
            assert(""@ =~= Seq::<char>::empty());
        }
        OptRes { real: "", as_str: "", var: OptVar::OptFree(tok) }
    }

    fn step_in_group(&mut self, k: usize) -> (r: OptRes<'a>)
        requires
            old(self)@.pos < old(self).args().len(),
            1 <= k < old(self).args()[old(self)@.pos].len(),
        ensures
            final(self).wf(),
            final(self).table() == old(self).table(),
            final(self).args() == old(self).args(),
            (Some(r@), final(self)@) == group_step(
                old(self).table(),
                old(self).args(),
                old(self)@,
                k as int,
            ),
    {
        proof {
            use_type_invariant(&*self);
        }
        let args: &'a [Vec<u8>] = self.args;
        let opts: &'a Opts = self.opts;
        let tok: &'a [u8] = args[self.pos].as_slice();
        let c = tok[k] as char;
        match opts.lookup_short(c) {
            None => {
                self.subpos = None;
                self.pos += 1;
                proof {
                    reveal_strlit("");
                    assert(""@ =~= Seq::<char>::empty());
                }
                OptRes { real: "", as_str: "", var: OptVar::OptUnknown(c) }
            },
            Some(i) => {
                let o = &opts.opts[i];
                match o.ty {
                    OptType::LitOptFlag => {
                        if k + 1 < tok.len() {
                            self.subpos = Some(k + 1);
                        } else {
                            self.subpos = None;
                            self.pos += 1;
                        }
                        OptRes { real: o.short_str, as_str: o.short_str, var: OptVar::OptFlag(c) }
                    },
                    OptType::LitOptOptOpt => {
                        self.subpos = None;
                        self.pos += 1;
                        let v = if k + 1 < tok.len() {
                            Some(slice_subrange(tok, k + 1, tok.len()))
                        } else {
                            None
                        };
                        OptRes {
                            real: o.short_str,
                            as_str: o.short_str,
                            var: OptVar::OptOptOpt(c, v),
                        }
                    },
                    OptType::LitOptOpt => {
                        self.subpos = None;
                        self.pos += 1;
                        if k + 1 < tok.len() {
                            let v = slice_subrange(tok, k + 1, tok.len());
                            OptRes {
                                real: o.short_str,
                                as_str: o.short_str,
                                var: OptVar::OptOpt(c, v),
                            }
                        } else if self.pos < args.len() {
                            let v: &'a [u8] = args[self.pos].as_slice();
                            self.pos += 1;
                            OptRes {
                                real: o.short_str,
                                as_str: o.short_str,
                                var: OptVar::OptOpt(c, v),
                            }
                        } else {
                            OptRes {
                                real: o.short_str,
                                as_str: o.short_str,
                                var: OptVar::OptMissing(c),
                            }
                        }
                    },
                }
            },
        }
    }

    fn step_long(&mut self) -> (r: OptRes<'a>)
        requires
            old(self)@.pos < old(self).args().len(),
            old(self)@.subpos is None,
            old(self).args()[old(self)@.pos].len() > 2,
            old(self).args()[old(self)@.pos][0] == DASH,
            old(self).args()[old(self)@.pos][1] == DASH,
        ensures
            final(self).wf(),
            final(self).table() == old(self).table(),
            final(self).args() == old(self).args(),
            (Some(r@), final(self)@) == long_step(old(self).table(), old(self).args(), old(self)@),
    {
        proof {
            use_type_invariant(&*self);
        }
        let args: &'a [Vec<u8>] = self.args;
        let opts: &'a Opts = self.opts;
        let tok: &'a [u8] = args[self.pos].as_slice();
        let eq = find_byte(tok, EQUALS);
        proof {
            tok@.index_of_first_ensures(EQUALS);
        }
        let name: &'a [u8];
        let value: Option<&'a [u8]>;
        match eq {
            Some(p) => {
                let len = tok.len();
                assert(2 <= p < len);
                name = slice_subrange(tok, 2, p);
                value = Some(slice_subrange(tok, p + 1, len));
            },
            None => {
                name = slice_subrange(tok, 2, tok.len());
                value = None;
            },
        }
        assert(name@ == long_name(tok@));
        assert(opt_bytes(value) == long_value(tok@));
        match opts.lookup_long(name) {
            None => self.take_free(),
            Some(i) => {
                let o = &opts.opts[i];
                let l: &'static str = match o.long {
                    Some(l) => l,
                    None => unreached(),
                };
                self.pos += 1;
                match o.ty {
                    OptType::LitOptFlag => match o.short {
                        Some(c) => OptRes { real: l, as_str: o.short_str, var: OptVar::OptFlag(c) },
                        None => OptRes { real: l, as_str: l, var: OptVar::OptLongFlag(l) },
                    },
                    OptType::LitOptOpt => {
                        match value {
                            Some(v) => match o.short {
                                Some(c) => OptRes {
                                    real: l,
                                    as_str: o.short_str,
                                    var: OptVar::OptOpt(c, v),
                                },
                                None => OptRes { real: l, as_str: l, var: OptVar::OptLongOpt(l, v) },
                            },
                            None => if self.pos < args.len() {
                                let v: &'a [u8] = args[self.pos].as_slice();
                                self.pos += 1;
                                match o.short {
                                    Some(c) => OptRes {
                                        real: l,
                                        as_str: o.short_str,
                                        var: OptVar::OptOpt(c, v),
                                    },
                                    None => OptRes {
                                        real: l,
                                        as_str: l,
                                        var: OptVar::OptLongOpt(l, v),
                                    },
                                }
                            } else {
                                match o.short {
                                    Some(c) => OptRes {
                                        real: l,
                                        as_str: o.short_str,
                                        var: OptVar::OptMissing(c),
                                    },
                                    None => OptRes {
                                        real: l,
                                        as_str: l,
                                        var: OptVar::OptLongMissing(l),
                                    },
                                }
                            },
                        }
                    },
                    OptType::LitOptOptOpt => match o.short {
                        Some(c) => OptRes {
                            real: l,
                            as_str: o.short_str,
                            var: OptVar::OptOptOpt(c, value),
                        },
                        None => OptRes { real: l, as_str: l, var: OptVar::OptLongOptOpt(l, value) },
                    },
                }
            },
        }
    }

    /// Classifies the next argument, or the next switch in a group of short
    /// options, and moves on.  Returns `None` once the arguments are used up.
    pub fn next(&mut self) -> (r: Option<OptRes<'a>>)
        ensures
            final(self).wf(),
            final(self).table() == old(self).table(),
            final(self).args() == old(self).args(),
            (event_view(r), final(self)@) == scan_step(
                old(self).table(),
                old(self).args(),
                old(self)@,
            ),
    {
        proof {
            use_type_invariant(&*self);
        }
        if self.pos >= self.args.len() {
            return None;
        }
        match self.subpos {
            Some(k) => {
                return Some(self.step_in_group(k));
            },
            None => {},
        }
        let args: &'a [Vec<u8>] = self.args;
        let tok: &'a [u8] = args[self.pos].as_slice();
        if self.only_free || tok.len() < 2 || tok[0] != DASH {
            return Some(self.take_free());
        }
        if tok[1] == DASH {
            if tok.len() == 2 {
                self.pos += 1;
                self.only_free = true;
                if self.pos >= self.args.len() {
                    return None;
                }
                return Some(self.take_free());
            }
            return Some(self.step_long());
        }
        match self.opts.lookup_short(tok[1] as char) {
            Some(_) => Some(self.step_in_group(1)),
            None => Some(self.take_free()),
        }
    }
}

} // verus!
