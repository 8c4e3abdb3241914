//! The label that the usage text shows for an entry is a declaration of that
//! entry.

use vstd::prelude::*;
use vstd::utf8::*;
use crate::declare::opt_str_text;
use crate::help::{format_text, long_part, short_part, value_after_long, value_after_short};
use crate::syntax::{
    feed, letter_char, long_text, missing_at_end, name_text, parse_spec, read_from, well_formed,
    Parsed, PreOptView, State,
};
use crate::table::{Opt, OptType};

verus! {

/// The entry `o` as a declaration declares it, with `help` as its
/// description.  The name of a value is declared only where the entry takes
/// one.
pub open spec fn shown(o: Opt, help: Seq<char>) -> PreOptView {
    PreOptView {
        short: o.short,
        long: opt_str_text(o.long),
        para: if o.ty == OptType::LitOptFlag {
            None
        } else {
            Some(o.para@)
        },
        help,
        ty: o.ty,
    }
}

/// The bytes of a text of the ASCII range.
pub open spec fn ascii_bytes(t: Seq<char>) -> Seq<u8> {
    t.map_values(|c: char| c as u8)
}

/// Reading all of `seg` after `p` has been read; `None` where `seg` breaks
/// the notation.
pub open spec fn fed(p: Parsed, seg: Seq<u8>) -> Option<Parsed>
    decreases seg.len(),
{
    if seg.len() == 0 {
        Some(p)
    } else if seg[0] >= 128 {
        None
    } else {
        match feed(p, seg[0]) {
            Ok(q) => fed(q, seg.drop_first()),
            Err(_) => None,
        }
    }
}

proof fn lemma_fed_one(p: Parsed, c: u8)
    requires
        c < 128,
        feed(p, c) is Ok,
    ensures
        fed(p, seq![c]) == Some(feed(p, c)->Ok_0),
{
    assert(seq![c].drop_first() =~= Seq::<u8>::empty());
    assert(fed(feed(p, c)->Ok_0, Seq::empty()) == Some(feed(p, c)->Ok_0));
}

proof fn lemma_fed_add(p: Parsed, a: Seq<u8>, b: Seq<u8>)
    ensures
        fed(p, a + b) == match fed(p, a) {
            Some(q) => fed(q, b),
            None => None,
        },
    decreases a.len(),
{
    if a.len() == 0 {
        assert(a + b =~= b);
    } else {
        assert((a + b).drop_first() =~= a.drop_first() + b);
        if a[0] < 128 && feed(p, a[0]) is Ok {
            lemma_fed_add(feed(p, a[0])->Ok_0, a.drop_first(), b);
        }
    }
}

/// Reading `seg` as the whole of what is left gives what reading it byte by
/// byte gives, if the declaration may end there.
proof fn lemma_read_all(bytes: Seq<u8>, p: Parsed, i: int, q: Parsed)
    requires
        0 <= i <= bytes.len(),
        fed(p, bytes.subrange(i, bytes.len() as int)) == Some(q),
        missing_at_end(q.state) is None,
    ensures
        read_from(bytes, p, i) == Ok::<Parsed, crate::syntax::SyntaxError>(q),
    decreases bytes.len() - i,
{
    let seg = bytes.subrange(i, bytes.len() as int);
    if i < bytes.len() {
        assert(seg[0] == bytes[i]);
        assert(seg.drop_first() =~= bytes.subrange(i + 1, bytes.len() as int));
        lemma_read_all(bytes, feed(p, bytes[i])->Ok_0, i + 1, q);
    }
}

/// A run of letters and dashes goes on with the long identifier.
proof fn lemma_fed_long(p: Parsed, t: Seq<char>)
    requires
        p.state == State::Long,
        p.long is Some,
        forall|i: int| 0 <= i < t.len() ==> letter_char(#[trigger] t[i]) || t[i] == '-',
    ensures
        fed(p, ascii_bytes(t)) == Some(
            Parsed {
                state: p.state,
                short: p.short,
                long: Some(p.long->0 + t),
                para: p.para,
                ty: p.ty,
            },
        ),
    decreases t.len(),
{
    if t.len() == 0 {
        assert(p.long->0 + t =~= p.long->0);
    } else {
        let c = t[0] as u8;
        assert(letter_char(t[0]) || t[0] == '-');
        assert(c as char == t[0]);
        let q = feed(p, c)->Ok_0;
        assert(ascii_bytes(t)[0] == c);
        assert(ascii_bytes(t).drop_first() =~= ascii_bytes(t.drop_first()));
        lemma_fed_long(q, t.drop_first());
        assert(q.long->0 + t.drop_first() =~= p.long->0 + t);
    }
}

/// Whether the state is one in which the name of a value is read.
pub open spec fn in_name(state: State) -> bool {
    state == State::ShortBracket || state == State::ShortAngle || state == State::LongValue
        || state == State::LongOptValue
}

/// A run of letters and `_` goes on with the name of the value.
proof fn lemma_fed_name(p: Parsed, t: Seq<char>)
    requires
        in_name(p.state),
        p.para is Some,
        name_text(t),
    ensures
        fed(p, ascii_bytes(t)) == Some(
            Parsed {
                state: p.state,
                short: p.short,
                long: p.long,
                para: Some(p.para->0 + t),
                ty: p.ty,
            },
        ),
    decreases t.len(),
{
    if t.len() == 0 {
        assert(p.para->0 + t =~= p.para->0);
    } else {
        let c = t[0] as u8;
        assert(letter_char(t[0]) || t[0] == '_');
        assert(c as char == t[0]);
        let q = feed(p, c)->Ok_0;
        assert(ascii_bytes(t)[0] == c);
        assert(ascii_bytes(t).drop_first() =~= ascii_bytes(t.drop_first()));
        assert forall|i: int| 0 <= i < t.drop_first().len() implies letter_char(
            #[trigger] t.drop_first()[i],
        ) || t.drop_first()[i] == '_' by {
            assert(t.drop_first()[i] == t[i + 1]);
        }
        lemma_fed_name(q, t.drop_first());
        assert(q.para->0 + t.drop_first() =~= p.para->0 + t);
    }
}

/// One more byte, and what has then been read of all bytes so far.
proof fn lemma_fed_push(start: Parsed, done: Seq<u8>, p: Parsed, c: u8)
    requires
        fed(start, done) == Some(p),
        c < 128,
        feed(p, c) is Ok,
    ensures
        fed(start, done + seq![c]) == Some(feed(p, c)->Ok_0),
{
    lemma_fed_one(p, c);
    lemma_fed_add(start, done, seq![c]);
}

/// What has been read behind the short identifier and what follows it where
/// the entry has no long identifier.
proof fn lemma_fed_short_part(o: Opt)
    requires
        o.short is Some,
        letter_char(o.short->0),
        o.ty != OptType::LitOptFlag && o.long is None ==> name_text(o.para@),
    ensures
        fed(Parsed::start(), ascii_bytes(seq![' ', ' '] + short_part(o))) == Some(
            if o.long is Some {
                Parsed {
                    state: State::Comma,
                    short: o.short,
                    long: None,
                    para: None,
                    ty: OptType::LitOptFlag,
                }
            } else if o.ty == OptType::LitOptFlag {
                Parsed {
                    state: State::Short,
                    short: o.short,
                    long: None,
                    para: None,
                    ty: OptType::LitOptFlag,
                }
            } else {
                Parsed {
                    state: State::End,
                    short: o.short,
                    long: None,
                    para: Some(o.para@),
                    ty: o.ty,
                }
            },
        ),
{
    let start = Parsed::start();
    let c = o.short->0;
    let mut done: Seq<u8> = Seq::empty();
    let mut p = start;
    assert(fed(start, done) == Some(p));
    lemma_fed_push(start, done, p, 32);
    p = feed(p, 32)->Ok_0;
    done = done + seq![32u8];
    lemma_fed_push(start, done, p, 32);
    p = feed(p, 32)->Ok_0;
    done = done + seq![32u8];
    lemma_fed_push(start, done, p, 45);
    p = feed(p, 45)->Ok_0;
    done = done + seq![45u8];
    assert((c as u8) as char == c);
    lemma_fed_push(start, done, p, c as u8);
    p = feed(p, c as u8)->Ok_0;
    done = done + seq![c as u8];
    assert(p.state == State::Short && p.short == o.short);
    if o.long is Some {
        lemma_fed_push(start, done, p, 44);
        p = feed(p, 44)->Ok_0;
        done = done + seq![44u8];
        lemma_fed_push(start, done, p, 32);
        p = feed(p, 32)->Ok_0;
        done = done + seq![32u8];
        assert(done =~= ascii_bytes(seq![' ', ' '] + short_part(o)));
    } else if o.ty == OptType::LitOptFlag {
        assert(done =~= ascii_bytes(seq![' ', ' '] + short_part(o)));
    } else if o.ty == OptType::LitOptOpt {
        lemma_fed_push(start, done, p, 32);
        p = feed(p, 32)->Ok_0;
        done = done + seq![32u8];
        lemma_fed_push(start, done, p, 60);
        p = feed(p, 60)->Ok_0;
        done = done + seq![60u8];
        lemma_fed_name(p, o.para@);
        lemma_fed_add(start, done, ascii_bytes(o.para@));
        assert(Seq::<char>::empty() + o.para@ =~= o.para@);
        p = Parsed {
            state: State::ShortAngle,
            short: o.short,
            long: None,
            para: Some(o.para@),
            ty: OptType::LitOptOpt,
        };
        done = done + ascii_bytes(o.para@);
        lemma_fed_push(start, done, p, 62);
        p = feed(p, 62)->Ok_0;
        done = done + seq![62u8];
        assert(done =~= ascii_bytes(seq![' ', ' '] + short_part(o)));
    } else {
        lemma_fed_push(start, done, p, 91);
        p = feed(p, 91)->Ok_0;
        done = done + seq![91u8];
        lemma_fed_name(p, o.para@);
        lemma_fed_add(start, done, ascii_bytes(o.para@));
        assert(Seq::<char>::empty() + o.para@ =~= o.para@);
        p = Parsed {
            state: State::ShortBracket,
            short: o.short,
            long: None,
            para: Some(o.para@),
            ty: OptType::LitOptOptOpt,
        };
        done = done + ascii_bytes(o.para@);
        lemma_fed_push(start, done, p, 93);
        p = feed(p, 93)->Ok_0;
        done = done + seq![93u8];
        assert(done =~= ascii_bytes(seq![' ', ' '] + short_part(o)));
    }
}

/// What has been read behind the long identifier and what follows it,
/// where the reading stood before the dashes.
proof fn lemma_fed_long_part(o: Opt, before: Parsed)
    requires
        before.state == State::Start || before.state == State::Comma,
        before.long is None,
        before.para is None,
        before.ty == OptType::LitOptFlag,
        o.long is Some,
        long_text(o.long->0@),
        o.ty != OptType::LitOptFlag ==> name_text(o.para@),
        o.ty == OptType::LitOptOpt ==> o.para@.len() > 0,
    ensures
        fed(before, ascii_bytes(long_part(o))) == Some(
            Parsed {
                state: if o.ty == OptType::LitOptFlag {
                    State::Long
                } else if o.ty == OptType::LitOptOpt {
                    State::LongValue
                } else {
                    State::End
                },
                short: before.short,
                long: Some(o.long->0@),
                para: if o.ty == OptType::LitOptFlag {
                    None
                } else {
                    Some(o.para@)
                },
                ty: o.ty,
            },
        ),
{
    let l = o.long->0@;
    let n = o.para@;
    let mut done: Seq<u8> = Seq::empty();
    let mut p = before;
    assert(fed(before, done) == Some(p));
    lemma_fed_push(before, done, p, 45);
    p = feed(p, 45)->Ok_0;
    done = done + seq![45u8];
    lemma_fed_push(before, done, p, 45);
    p = feed(p, 45)->Ok_0;
    done = done + seq![45u8];
    assert(p.state == State::LongStart);
    let first = l[0] as u8;
    assert((first as char) == l[0]);
    lemma_fed_push(before, done, p, first);
    p = feed(p, first)->Ok_0;
    done = done + seq![first];
    assert(p.long == Some(seq![l[0]]));
    assert forall|i: int| 0 <= i < l.drop_first().len() implies letter_char(
        #[trigger] l.drop_first()[i],
    ) || l.drop_first()[i] == '-' by {
        assert(l.drop_first()[i] == l[i + 1]);
    }
    lemma_fed_long(p, l.drop_first());
    lemma_fed_add(before, done, ascii_bytes(l.drop_first()));
    assert(seq![l[0]] + l.drop_first() =~= l);
    p = Parsed {
        state: State::Long,
        short: before.short,
        long: Some(l),
        para: None,
        ty: OptType::LitOptFlag,
    };
    done = done + ascii_bytes(l.drop_first());
    assert(done =~= ascii_bytes(seq!['-', '-'] + l));
    if o.ty == OptType::LitOptFlag {
        assert(done =~= ascii_bytes(long_part(o)));
    } else if o.ty == OptType::LitOptOpt {
        lemma_fed_push(before, done, p, 61);
        p = feed(p, 61)->Ok_0;
        done = done + seq![61u8];
        let head = n[0] as u8;
        assert(letter_char(n[0]) || n[0] == '_');
        assert((head as char) == n[0]);
        lemma_fed_push(before, done, p, head);
        p = feed(p, head)->Ok_0;
        done = done + seq![head];
        assert forall|i: int| 0 <= i < n.drop_first().len() implies letter_char(
            #[trigger] n.drop_first()[i],
        ) || n.drop_first()[i] == '_' by {
            assert(n.drop_first()[i] == n[i + 1]);
        }
        lemma_fed_name(p, n.drop_first());
        lemma_fed_add(before, done, ascii_bytes(n.drop_first()));
        assert(seq![n[0]] + n.drop_first() =~= n);
        done = done + ascii_bytes(n.drop_first());
        assert(done =~= ascii_bytes(long_part(o)));
    } else {
        lemma_fed_push(before, done, p, 91);
        p = feed(p, 91)->Ok_0;
        done = done + seq![91u8];
        lemma_fed_push(before, done, p, 61);
        p = feed(p, 61)->Ok_0;
        done = done + seq![61u8];
        lemma_fed_name(p, n);
        lemma_fed_add(before, done, ascii_bytes(n));
        assert(Seq::<char>::empty() + n =~= n);
        p = Parsed {
            state: State::LongOptValue,
            short: before.short,
            long: Some(l),
            para: Some(n),
            ty: OptType::LitOptOptOpt,
        };
        done = done + ascii_bytes(n);
        lemma_fed_push(before, done, p, 93);
        p = feed(p, 93)->Ok_0;
        done = done + seq![93u8];
        assert(done =~= ascii_bytes(long_part(o)));
    }
}

/// The label of a well-formed entry is made of characters of the ASCII
/// range, so its bytes are its characters.
proof fn lemma_label_bytes(o: Opt)
    requires
        well_formed(shown(o, Seq::empty())),
    ensures
        encode_utf8(format_text(o)) == ascii_bytes(format_text(o)),
{
    let t = format_text(o);
    assert forall|i: int| 0 <= i < t.len() implies '\0' <= #[trigger] t[i] <= '\u{7f}' by {
        let s = short_part(o);
        let l = long_part(o);
        if i < 2 {
        } else if i < 2 + s.len() {
            let j = i - 2;
            assert(t[i] == s[j]);
            if j >= 2 && o.long is None {
                let v = value_after_short(o);
                assert(s[j] == v[j - 2]);
                if o.ty == OptType::LitOptOpt && 2 <= j - 2 < 2 + o.para@.len() {
                    assert(v[j - 2] == o.para@[j - 4]);
                } else if o.ty == OptType::LitOptOptOpt && 1 <= j - 2 < 1 + o.para@.len() {
                    assert(v[j - 2] == o.para@[j - 3]);
                }
            }
        } else {
            let j = i - 2 - s.len();
            assert(t[i] == l[j]);
            let name = o.long->0@;
            if 2 <= j < 2 + name.len() {
                assert(l[j] == name[j - 2]);
            } else if j >= 2 + name.len() {
                let v = value_after_long(o);
                let k = j - 2 - name.len();
                assert(l[j] == v[k]);
                if o.ty == OptType::LitOptOpt && 1 <= k {
                    assert(v[k] == o.para@[k - 1]);
                } else if o.ty == OptType::LitOptOptOpt && 2 <= k < 2 + o.para@.len() {
                    assert(v[k] == o.para@[k - 2]);
                }
            }
        }
    }
    is_ascii_chars_encode_utf8(t);
    assert(encode_utf8(t) =~= ascii_bytes(t));
}

/// Reading the label that the usage text shows for a well-formed entry
/// gives the entry back: its identifiers, its kind, and the name of its
/// value where it takes one.
pub proof fn lemma_label_reads_back(o: Opt, help: Seq<char>)
    requires
        well_formed(shown(o, help)),
    ensures
        parse_spec(encode_utf8(format_text(o)), help) == Ok::<
            PreOptView,
            crate::syntax::SyntaxError,
        >(shown(o, help)),
{
    lemma_label_bytes(o);
    let start = Parsed::start();
    let head = ascii_bytes(seq![' ', ' '] + short_part(o));
    let tail = ascii_bytes(long_part(o));
    let bytes = ascii_bytes(format_text(o));
    assert(bytes =~= head + tail);
    lemma_fed_add(start, head, tail);
    if o.short is Some {
        lemma_fed_short_part(o);
    } else {
        assert(short_part(o) =~= Seq::<char>::empty());
        lemma_fed_push(start, Seq::empty(), start, 32);
        lemma_fed_push(start, Seq::empty() + seq![32u8], start, 32);
        assert(head =~= Seq::<u8>::empty() + seq![32u8] + seq![32u8]);
    }
    let mid = fed(start, head)->0;
    if o.long is Some {
        lemma_fed_long_part(o, mid);
    } else {
        assert(tail =~= Seq::<u8>::empty());
    }
    let q = fed(start, bytes)->0;
    assert(bytes.subrange(0, bytes.len() as int) =~= bytes);
    lemma_read_all(bytes, start, 0, q);
}

} // verus!
