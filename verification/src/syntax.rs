//! The notation in which options are declared: `-x`, `--name` or
//! `-x, --name`, and behind it the name of a value where the option takes
//! one.

use vstd::prelude::*;
use vstd::string::*;
use crate::bytes::{
    blank, is_blank, is_letter, letter, COMMA, DASH, EQUALS, LEFT_ANGLE, LEFT_BRACKET,
    RIGHT_ANGLE, RIGHT_BRACKET, UNDERSCORE,
};
use crate::table::OptType;

verus! {

/// What the notation allows at a place where something else stands.
#[derive(PartialEq, Eq, Structural, Clone, Copy, Debug)]
pub enum Expected {
    /// A byte of the ASCII range.
    Ascii,
    /// `-`.
    Dash,
    /// A letter.
    Letter,
    /// A letter or `-`.
    LetterOrDash,
    /// A blank or `[`, behind a short identifier.
    BlankOrBracket,
    /// A letter, `_` or `]`, in the name of a value.
    NameOrBracket,
    /// A blank, `<` or `,`, behind a short identifier and a blank.
    BlankAngleOrComma,
    /// A letter, `_` or `>`, in the name of a value.
    NameOrAngle,
    /// A letter or `_`, where the name of a value starts.
    Name,
    /// `=`, behind the `[` that follows a long identifier.
    Equals,
    /// A letter, `-`, a blank, `=` or `[`, in a long identifier.
    InLong,
    /// A letter, `_` or a blank, in the name of a value.
    NameOrBlank,
    /// Nothing more.
    End,
}

impl Expected {
    /// The message for this error, as a sequence of characters.
    pub open spec fn message_text(self) -> Seq<char> {
        match self {
            Expected::Ascii => "expected Ascii"@,
            Expected::Dash => "expected `-`"@,
            Expected::Letter => "expected `[A-Za-z]`"@,
            Expected::LetterOrDash => "expected `[A-Za-z-]`"@,
            Expected::BlankOrBracket => "expected `[ \\t\\[]`"@,
            Expected::NameOrBracket => "expected `[A-Za-z_\\]]`"@,
            Expected::BlankAngleOrComma => "expected `[ \\t<,]`"@,
            Expected::NameOrAngle => "expected `[A-Za-z_>]`"@,
            Expected::Name => "expected `[A-Za-z_]`"@,
            Expected::Equals => "expected `=`"@,
            Expected::InLong => "expected `[A-Za-z- \\t=\\[]`"@,
            Expected::NameOrBlank => "expected `[A-Za-z_ \\t]`"@,
            Expected::End => "expected EOF"@,
        }
    }

    /// The message for this error.
    pub fn message(&self) -> (r: &'static str)
        ensures
            r@ == self.message_text(),
    {
        match self {
            Expected::Ascii => "expected Ascii",
            Expected::Dash => "expected `-`",
            Expected::Letter => "expected `[A-Za-z]`",
            Expected::LetterOrDash => "expected `[A-Za-z-]`",
            Expected::BlankOrBracket => "expected `[ \\t\\[]`",
            Expected::NameOrBracket => "expected `[A-Za-z_\\]]`",
            Expected::BlankAngleOrComma => "expected `[ \\t<,]`",
            Expected::NameOrAngle => "expected `[A-Za-z_>]`",
            Expected::Name => "expected `[A-Za-z_]`",
            Expected::Equals => "expected `=`",
            Expected::InLong => "expected `[A-Za-z- \\t=\\[]`",
            Expected::NameOrBlank => "expected `[A-Za-z_ \\t]`",
            Expected::End => "expected EOF",
        }
    }
}

/// Where a declaration breaks the notation, and what would have been in
/// order there.  `pos` is the index of the offending byte, or the length of
/// the declaration where it ends too early.
#[derive(PartialEq, Eq, Structural, Clone, Copy, Debug)]
pub struct SyntaxError {
    pub pos: usize,
    pub expected: Expected,
}

/// How far the reading of a declaration has come.
#[derive(PartialEq, Eq, Structural, Clone, Copy, Debug)]
pub enum State {
    /// Before the first dash.
    Start,
    /// Behind the first dash.
    Dash,
    /// Behind a short identifier, as in `-x`.
    Short,
    /// Behind a short identifier and blanks.
    ShortBlank,
    /// In the name of a value that may be left out, as in `-x[NAME`.
    ShortBracket,
    /// In the name of a value that must be given, as in `-x <NAME`.
    ShortAngle,
    /// Behind `-x,`, before the dashes of the long identifier.
    Comma,
    /// Behind `-x, -`.
    CommaDash,
    /// Behind `--`, before the first letter of the long identifier.
    LongStart,
    /// In a long identifier.
    Long,
    /// Behind `--name=`, before the name of the value.
    LongEquals,
    /// In the name of a value that must be given, as in `--name=NAME`.
    LongValue,
    /// Behind `--name[`.
    LongBracket,
    /// In the name of a value that may be left out, as in `--name[=NAME`.
    LongOptValue,
    /// Behind all that a declaration holds; only blanks may follow.
    End,
}

/// What has been read of a declaration.
pub struct Parsed {
    pub state: State,
    pub short: Option<char>,
    pub long: Option<Seq<char>>,
    pub para: Option<Seq<char>>,
    pub ty: OptType,
}

/// A byte appended to a text that may still be absent.
pub open spec fn grown(text: Option<Seq<char>>, c: u8) -> Option<Seq<char>> {
    match text {
        Some(t) => Some(t.push(c as char)),
        None => Some(seq![c as char]),
    }
}

impl Parsed {
    /// Nothing read yet.
    pub open spec fn start() -> Parsed {
        Parsed { state: State::Start, short: None, long: None, para: None, ty: OptType::LitOptFlag }
    }

    /// The same in another state.
    pub open spec fn at(self, state: State) -> Parsed {
        Parsed { state, short: self.short, long: self.long, para: self.para, ty: self.ty }
    }

    /// With `c` as one more byte of the long identifier.
    pub open spec fn long_grown(self, c: u8) -> Parsed {
        Parsed {
            state: State::Long,
            short: self.short,
            long: grown(self.long, c),
            para: self.para,
            ty: self.ty,
        }
    }

    /// With `c` as one more byte of the name of the value.
    pub open spec fn para_grown(self, state: State, c: u8) -> Parsed {
        Parsed {
            state,
            short: self.short,
            long: self.long,
            para: grown(self.para, c),
            ty: self.ty,
        }
    }

    /// With the name of a value begun, empty so far.
    pub open spec fn para_begun(self, state: State, ty: OptType) -> Parsed {
        Parsed { state, short: self.short, long: self.long, para: Some(Seq::empty()), ty }
    }
}

/// Whether `c` can stand in the name of a value.
pub open spec fn is_name_char(c: u8) -> bool {
    is_letter(c) || c == UNDERSCORE
}

/// Reading one more byte: what has then been read, or what would have been
/// in order in place of the byte.
pub open spec fn feed(p: Parsed, c: u8) -> Result<Parsed, Expected> {
    match p.state {
        State::Start => if is_blank(c) {
            Ok(p)
        } else if c == DASH {
            Ok(p.at(State::Dash))
        } else {
            Err(Expected::Dash)
        },
        State::Comma => if is_blank(c) {
            Ok(p)
        } else if c == DASH {
            Ok(p.at(State::CommaDash))
        } else {
            Err(Expected::Dash)
        },
        State::Dash => if c == DASH {
            Ok(p.at(State::LongStart))
        } else if is_letter(c) {
            Ok(
                Parsed {
                    state: State::Short,
                    short: Some(c as char),
                    long: p.long,
                    para: p.para,
                    ty: p.ty,
                },
            )
        } else {
            Err(Expected::LetterOrDash)
        },
        State::CommaDash => if c == DASH {
            Ok(p.at(State::LongStart))
        } else if is_letter(c) {
            Err(Expected::Dash)
        } else {
            Err(Expected::LetterOrDash)
        },
        State::Short => if is_blank(c) {
            Ok(p.at(State::ShortBlank))
        } else if c == LEFT_BRACKET {
            Ok(p.para_begun(State::ShortBracket, OptType::LitOptOptOpt))
        } else if c == COMMA {
            Ok(p.at(State::Comma))
        } else {
            Err(Expected::BlankOrBracket)
        },
        State::ShortBlank => if is_blank(c) {
            Ok(p)
        } else if c == LEFT_ANGLE {
            Ok(p.para_begun(State::ShortAngle, OptType::LitOptOpt))
        } else if c == COMMA {
            Ok(p.at(State::Comma))
        } else {
            Err(Expected::BlankAngleOrComma)
        },
        State::ShortBracket => if is_name_char(c) {
            Ok(p.para_grown(State::ShortBracket, c))
        } else if c == RIGHT_BRACKET {
            Ok(p.at(State::End))
        } else {
            Err(Expected::NameOrBracket)
        },
        State::ShortAngle => if is_name_char(c) {
            Ok(p.para_grown(State::ShortAngle, c))
        } else if c == RIGHT_ANGLE {
            Ok(p.at(State::End))
        } else {
            Err(Expected::NameOrAngle)
        },
        State::LongStart => if is_letter(c) {
            Ok(p.long_grown(c))
        } else {
            Err(Expected::Letter)
        },
        State::Long => if is_letter(c) || c == DASH {
            Ok(p.long_grown(c))
        } else if is_blank(c) {
            Ok(p.at(State::End))
        } else if c == EQUALS {
            Ok(p.at(State::LongEquals))
        } else if c == LEFT_BRACKET {
            Ok(p.at(State::LongBracket))
        } else {
            Err(Expected::InLong)
        },
        State::LongEquals => if is_name_char(c) {
            Ok(
                Parsed {
                    state: State::LongValue,
                    short: p.short,
                    long: p.long,
                    para: Some(seq![c as char]),
                    ty: OptType::LitOptOpt,
                },
            )
        } else {
            Err(Expected::Name)
        },
        State::LongValue => if is_name_char(c) {
            Ok(p.para_grown(State::LongValue, c))
        } else if is_blank(c) {
            Ok(p.at(State::End))
        } else {
            Err(Expected::NameOrBlank)
        },
        State::LongBracket => if c == EQUALS {
            Ok(p.para_begun(State::LongOptValue, OptType::LitOptOptOpt))
        } else {
            Err(Expected::Equals)
        },
        State::LongOptValue => if is_name_char(c) {
            Ok(p.para_grown(State::LongOptValue, c))
        } else if c == RIGHT_BRACKET {
            Ok(p.at(State::End))
        } else {
            Err(Expected::NameOrBracket)
        },
        State::End => if is_blank(c) {
            Ok(p)
        } else {
            Err(Expected::End)
        },
    }
}

/// What is missing where a declaration ends in the state `state`; `None`
/// where it may end there.
pub open spec fn missing_at_end(state: State) -> Option<Expected> {
    match state {
        State::Short | State::ShortBlank | State::Long | State::LongValue | State::End => None,
        State::Start | State::Comma => Some(Expected::Dash),
        State::Dash | State::CommaDash => Some(Expected::LetterOrDash),
        State::ShortBracket | State::LongOptValue => Some(Expected::NameOrBracket),
        State::ShortAngle => Some(Expected::NameOrAngle),
        State::LongStart => Some(Expected::Letter),
        State::LongEquals => Some(Expected::Name),
        State::LongBracket => Some(Expected::Equals),
    }
}

/// Reading the bytes from index `i` on, after `p` has been read: what the
/// whole declaration holds, or the first place at which it breaks the
/// notation.  A byte outside the ASCII range is out of place wherever it
/// stands.
pub open spec fn read_from(bytes: Seq<u8>, p: Parsed, i: int) -> Result<Parsed, SyntaxError>
    decreases bytes.len() - i,
{
    if i >= bytes.len() {
        match missing_at_end(p.state) {
            Some(expected) => Err(SyntaxError { pos: i as usize, expected }),
            None => Ok(p),
        }
    } else if bytes[i] >= 128 {
        Err(SyntaxError { pos: i as usize, expected: Expected::Ascii })
    } else {
        match feed(p, bytes[i]) {
            Ok(q) => read_from(bytes, q, i + 1),
            Err(expected) => Err(SyntaxError { pos: i as usize, expected }),
        }
    }
}

/// A declared option, before it enters a table.
pub struct PreOpt {
    /// The short identifier, for `-x`.
    pub short: Option<char>,
    /// The long identifier, for `--name`.
    pub long: Option<String>,
    /// The name of the value, for an option that takes one.
    pub para: Option<String>,
    /// The description.
    pub help: String,
    /// Whether the option takes a value.
    pub ty: OptType,
}

/// A `PreOpt` as a mathematical value.
pub struct PreOptView {
    pub short: Option<char>,
    pub long: Option<Seq<char>>,
    pub para: Option<Seq<char>>,
    pub help: Seq<char>,
    pub ty: OptType,
}

/// The text of a string that may be absent.
pub open spec fn opt_text(s: Option<String>) -> Option<Seq<char>> {
    match s {
        Some(t) => Some(t@),
        None => None,
    }
}

impl View for PreOpt {
    type V = PreOptView;

    open spec fn view(&self) -> PreOptView {
        PreOptView {
            short: self.short,
            long: opt_text(self.long),
            para: opt_text(self.para),
            help: self.help@,
            ty: self.ty,
        }
    }
}

/// What a declaration declares, with `help` as its description, or the
/// first place at which it breaks the notation.
pub open spec fn parse_spec(bytes: Seq<u8>, help: Seq<char>) -> Result<PreOptView, SyntaxError> {
    match read_from(bytes, Parsed::start(), 0) {
        Ok(p) => Ok(PreOptView { short: p.short, long: p.long, para: p.para, help, ty: p.ty }),
        Err(e) => Err(e),
    }
}

/// Whether `c` is a letter of the ASCII range.
pub open spec fn letter_char(c: char) -> bool {
    ('A' <= c && c <= 'Z') || ('a' <= c && c <= 'z')
}

/// Whether `t` can be the name of a value: letters and `_`.
pub open spec fn name_text(t: Seq<char>) -> bool {
    forall|i: int| 0 <= i < t.len() ==> letter_char(#[trigger] t[i]) || t[i] == '_'
}

/// Whether `t` can be a long identifier: letters and `-`, the first a
/// letter.
pub open spec fn long_text(t: Seq<char>) -> bool {
    &&& t.len() > 0
    &&& letter_char(t[0])
    &&& forall|i: int| 0 <= i < t.len() ==> letter_char(#[trigger] t[i]) || t[i] == '-'
}

/// What holds of every option that a declaration can declare: it has an
/// identifier; its identifiers and the name of its value are made of the
/// characters that the notation has for them; it names a value exactly if it
/// takes one; and the name is not empty where it stands behind `=`.
pub open spec fn well_formed(o: PreOptView) -> bool {
    &&& o.short is Some || o.long is Some
    &&& o.short matches Some(c) ==> letter_char(c)
    &&& o.long matches Some(l) ==> long_text(l)
    &&& o.para matches Some(n) ==> name_text(n)
    &&& (o.ty == OptType::LitOptFlag) == (o.para is None)
    &&& o.ty == OptType::LitOptOpt && o.long is Some ==> o.para->0.len() > 0
}

/// What has been read fits the state that the reading is in.
pub open spec fn coherent(p: Parsed) -> bool {
    &&& p.short matches Some(c) ==> letter_char(c)
    &&& p.long matches Some(l) ==> long_text(l)
    &&& p.para matches Some(n) ==> name_text(n)
    &&& match p.state {
        State::Start | State::Dash => {
            p.short is None && p.long is None && p.para is None && p.ty == OptType::LitOptFlag
        },
        State::Short | State::ShortBlank | State::Comma | State::CommaDash => {
            p.short is Some && p.long is None && p.para is None && p.ty == OptType::LitOptFlag
        },
        State::ShortBracket => {
            p.short is Some && p.long is None && p.para is Some && p.ty == OptType::LitOptOptOpt
        },
        State::ShortAngle => {
            p.short is Some && p.long is None && p.para is Some && p.ty == OptType::LitOptOpt
        },
        State::LongStart => p.long is None && p.para is None && p.ty == OptType::LitOptFlag,
        State::Long | State::LongEquals | State::LongBracket => {
            p.long is Some && p.para is None && p.ty == OptType::LitOptFlag
        },
        State::LongValue => {
            p.long is Some && p.para is Some && p.para->0.len() > 0 && p.ty == OptType::LitOptOpt
        },
        State::LongOptValue => {
            p.long is Some && p.para is Some && p.ty == OptType::LitOptOptOpt
        },
        State::End => {
            &&& p.short is Some || p.long is Some
            &&& (p.ty == OptType::LitOptFlag) == (p.para is None)
            &&& p.ty == OptType::LitOptOpt && p.long is Some ==> p.para->0.len() > 0
        },
    }
}

/// Reading one more byte keeps what has been read fitting the state.
pub proof fn lemma_feed_coherent(p: Parsed, c: u8)
    requires
        coherent(p),
        c < 128,
        feed(p, c) is Ok,
    ensures
        coherent(feed(p, c)->Ok_0),
{
    let q = feed(p, c)->Ok_0;
    if q.long != p.long {
        let l = q.long->0;
        assert(l.last() == c as char);
        assert forall|i: int| 0 <= i < l.len() implies letter_char(#[trigger] l[i]) || l[i]
            == '-' by {
            if i < l.len() - 1 {
                assert(l[i] == p.long->0[i]);
            }
        }
    }
    if q.para != p.para && q.para->0.len() > 0 {
        let n = q.para->0;
        assert(n.last() == c as char);
        assert forall|i: int| 0 <= i < n.len() implies letter_char(#[trigger] n[i]) || n[i]
            == '_' by {
            if i < n.len() - 1 {
                assert(n[i] == p.para->0[i]);
            }
        }
    }
}

/// A reading that succeeds ends where a declaration may end, with all that
/// was read fitting.
pub proof fn lemma_read_coherent(bytes: Seq<u8>, p: Parsed, i: int)
    requires
        coherent(p),
        0 <= i,
        read_from(bytes, p, i) is Ok,
    ensures
        coherent(read_from(bytes, p, i)->Ok_0),
        missing_at_end(read_from(bytes, p, i)->Ok_0.state) is None,
    decreases bytes.len() - i,
{
    if i < bytes.len() {
        lemma_feed_coherent(p, bytes[i]);
        lemma_read_coherent(bytes, feed(p, bytes[i])->Ok_0, i + 1);
    }
}

/// Every option that a declaration declares is well formed.
pub proof fn lemma_parsed_is_well_formed(bytes: Seq<u8>, help: Seq<char>)
    requires
        parse_spec(bytes, help) is Ok,
    ensures
        well_formed(parse_spec(bytes, help)->Ok_0),
{
    lemma_read_coherent(bytes, Parsed::start(), 0);
}

fn name_char(c: u8) -> (r: bool)
    ensures
        r == is_name_char(c),
{
    letter(c) || c == UNDERSCORE
}

/// Reads a declaration such as `-c, --color[=WHEN]`.
///
/// A declaration is `-x`, `--name` or `-x, --name`, where `x` is a letter
/// and `name` is made of letters and dashes and starts with a letter.  A
/// value that must be given is declared as `-x <NAME>` or `--name=NAME`, one
/// that may be left out as `-x[NAME]` or `--name[=NAME]`, where `NAME` is
/// made of letters and `_`.  Blanks may stand before and behind.
pub fn parse_opt(opt: &str, help: String) -> (r: Result<PreOpt, SyntaxError>)
    ensures
        match r {
            Ok(o) => parse_spec(opt.spec_bytes(), help@) == Ok::<PreOptView, SyntaxError>(o@),
            Err(e) => parse_spec(opt.spec_bytes(), help@) == Err::<PreOptView, SyntaxError>(e),
        },
{
    let bytes = opt.as_bytes();
    let n = bytes.len();
    let mut state = State::Start;
    let mut short: Option<char> = None;
    let mut long: Option<String> = None;
    let mut para: Option<String> = None;
    let mut ty = OptType::LitOptFlag;
    let mut i: usize = 0;
    while i < n
        invariant
            i <= n,
            n == bytes@.len(),
            bytes@ == opt.spec_bytes(),
            read_from(bytes@, Parsed::start(), 0) == read_from(
                bytes@,
                Parsed { state, short, long: opt_text(long), para: opt_text(para), ty },
                i as int,
            ),
        decreases n - i,
    {
        let c = bytes[i];
        let ghost p = Parsed { state, short, long: opt_text(long), para: opt_text(para), ty };
        if c >= 128 {
            return Err(SyntaxError { pos: i, expected: Expected::Ascii });
        }
        let mut fault: Option<Expected> = None;
        match state {
            State::Start => {
                if blank(c) {
                } else if c == DASH {
                    state = State::Dash;
                } else {
                    fault = Some(Expected::Dash);
                }
            },
            State::Comma => {
                if blank(c) {
                } else if c == DASH {
                    state = State::CommaDash;
                } else {
                    fault = Some(Expected::Dash);
                }
            },
            State::Dash => {
                if c == DASH {
                    state = State::LongStart;
                } else if letter(c) {
                    short = Some(c as char);
                    state = State::Short;
                } else {
                    fault = Some(Expected::LetterOrDash);
                }
            },
            State::CommaDash => {
                if c == DASH {
                    state = State::LongStart;
                } else if letter(c) {
                    fault = Some(Expected::Dash);
                } else {
                    fault = Some(Expected::LetterOrDash);
                }
            },
            State::Short => {
                if blank(c) {
                    state = State::ShortBlank;
                } else if c == LEFT_BRACKET {
                    ty = OptType::LitOptOptOpt;
                    para = Some(String::new());
                    state = State::ShortBracket;
                } else if c == COMMA {
                    state = State::Comma;
                } else {
                    fault = Some(Expected::BlankOrBracket);
                }
            },
            State::ShortBlank => {
                if blank(c) {
                } else if c == LEFT_ANGLE {
                    ty = OptType::LitOptOpt;
                    para = Some(String::new());
                    state = State::ShortAngle;
                } else if c == COMMA {
                    state = State::Comma;
                } else {
                    fault = Some(Expected::BlankAngleOrComma);
                }
            },
            State::ShortBracket => {
                if name_char(c) {
                    para = Some(grow(para, c));
                } else if c == RIGHT_BRACKET {
                    state = State::End;
                } else {
                    fault = Some(Expected::NameOrBracket);
                }
            },
            State::ShortAngle => {
                if name_char(c) {
                    para = Some(grow(para, c));
                } else if c == RIGHT_ANGLE {
                    state = State::End;
                } else {
                    fault = Some(Expected::NameOrAngle);
                }
            },
            State::LongStart => {
                if letter(c) {
                    long = Some(grow(long, c));
                    state = State::Long;
                } else {
                    fault = Some(Expected::Letter);
                }
            },
            State::Long => {
                if letter(c) || c == DASH {
                    long = Some(grow(long, c));
                } else if blank(c) {
                    state = State::End;
                } else if c == EQUALS {
                    state = State::LongEquals;
                } else if c == LEFT_BRACKET {
                    state = State::LongBracket;
                } else {
                    fault = Some(Expected::InLong);
                }
            },
            State::LongEquals => {
                if name_char(c) {
                    ty = OptType::LitOptOpt;
                    para = Some(grow(None, c));
                    state = State::LongValue;
                } else {
                    fault = Some(Expected::Name);
                }
            },
            State::LongValue => {
                if name_char(c) {
                    para = Some(grow(para, c));
                } else if blank(c) {
                    state = State::End;
                } else {
                    fault = Some(Expected::NameOrBlank);
                }
            },
            State::LongBracket => {
                if c == EQUALS {
                    ty = OptType::LitOptOptOpt;
                    para = Some(String::new());
                    state = State::LongOptValue;
                } else {
                    fault = Some(Expected::Equals);
                }
            },
            State::LongOptValue => {
                if name_char(c) {
                    para = Some(grow(para, c));
                } else if c == RIGHT_BRACKET {
                    state = State::End;
                } else {
                    fault = Some(Expected::NameOrBracket);
                }
            },
            State::End => {
                if blank(c) {
                } else {
                    fault = Some(Expected::End);
                }
            },
        }
        match fault {
            Some(expected) => {
                assert(feed(p, c) == Err::<Parsed, Expected>(expected));
                return Err(SyntaxError { pos: i, expected });
            },
            None => {
                assert(feed(p, c) == Ok::<Parsed, Expected>(
                    Parsed { state, short, long: opt_text(long), para: opt_text(para), ty },
                ));
            },
        }
        i += 1;
    }
    let missing = match state {
        State::Short | State::ShortBlank | State::Long | State::LongValue | State::End => None,
        State::Start | State::Comma => Some(Expected::Dash),
        State::Dash | State::CommaDash => Some(Expected::LetterOrDash),
        State::ShortBracket | State::LongOptValue => Some(Expected::NameOrBracket),
        State::ShortAngle => Some(Expected::NameOrAngle),
        State::LongStart => Some(Expected::Letter),
        State::LongEquals => Some(Expected::Name),
        State::LongBracket => Some(Expected::Equals),
    };
    match missing {
        Some(expected) => Err(SyntaxError { pos: n, expected }),
        None => Ok(PreOpt { short, long, para, help, ty }),
    }
}

/// Appends the byte `c` to a text that may still be absent.
fn grow(text: Option<String>, c: u8) -> (r: String)
    requires
        c < 128,
    ensures
        Some(r@) == grown(opt_text(text), c),
{
    let mut s = match text {
        Some(t) => t,
        None => String::new(),
    };
    s.push(c as char);
    assert(Seq::<char>::empty().push(c as char) =~= seq![c as char]);
    s
}

} // verus!
