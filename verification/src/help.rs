//! Usage text: one block of lines per entry of the table, the descriptions
//! in a column of their own and wrapped at the width of the line.

use vstd::prelude::*;
use vstd::string::*;
use crate::table::{Opt, OptType, Opts};
use crate::text::{
    lemma_width_add, lemma_width_ascii, lemma_width_push, lemma_width_spaces, push_spaces,
    spaces, split_words, text_width, texts, width, words,
};

verus! {

/// The width of a line of usage text.
pub const LINE_WIDTH: usize = 80;

/// The widest that the column of the options can be.
pub const MAX_OFFSET: usize = 29;

/// How an entry with a short identifier only shows that it takes a value.
pub open spec fn value_after_short(o: Opt) -> Seq<char> {
    match o.ty {
        OptType::LitOptFlag => Seq::empty(),
        OptType::LitOptOpt => seq![' ', '<'] + o.para@ + seq!['>'],
        OptType::LitOptOptOpt => seq!['['] + o.para@ + seq![']'],
    }
}

/// How an entry with a long identifier shows that it takes a value.
pub open spec fn value_after_long(o: Opt) -> Seq<char> {
    match o.ty {
        OptType::LitOptFlag => Seq::empty(),
        OptType::LitOptOpt => seq!['='] + o.para@,
        OptType::LitOptOptOpt => seq!['[', '='] + o.para@ + seq![']'],
    }
}

/// The short identifier as it is shown, with what follows it.
pub open spec fn short_part(o: Opt) -> Seq<char> {
    match o.short {
        Some(c) => seq!['-', c] + if o.long is Some {
            seq![',', ' ']
        } else {
            value_after_short(o)
        },
        None => Seq::empty(),
    }
}

/// The long identifier as it is shown, with what follows it.
pub open spec fn long_part(o: Opt) -> Seq<char> {
    match o.long {
        Some(l) => seq!['-', '-'] + l@ + value_after_long(o),
        None => Seq::empty(),
    }
}

/// An entry as it is shown: `  -x`, `  -x, --name` or `  --name`, and the
/// name of the value where the entry takes one.
pub open spec fn format_text(o: Opt) -> Seq<char> {
    seq![' ', ' '] + short_part(o) + long_part(o)
}

impl Opt {
    /// Renders the entry for the first column of the usage text.
    pub fn gahnoo_format(&self) -> (res: String)
        ensures
            res@ == format_text(*self),
    {
        let mut res = String::new();
        proof {
            reveal_strlit("  ");
            reveal_strlit(", ");
            reveal_strlit(" <");
            reveal_strlit(">");
            reveal_strlit("[");
            reveal_strlit("]");
            reveal_strlit("--");
            reveal_strlit("=");
            reveal_strlit("[=");
            assert("  "@ =~= seq![' ', ' ']);
            assert(", "@ =~= seq![',', ' ']);
            assert(" <"@ =~= seq![' ', '<']);
            assert(">"@ =~= seq!['>']);
            assert("["@ =~= seq!['[']);
            assert("]"@ =~= seq![']']);
            assert("--"@ =~= seq!['-', '-']);
            assert("="@ =~= seq!['=']);
            assert("[="@ =~= seq!['[', '=']);
        }
        res.append("  ");
        match self.short {
            Some(c) => {
                res.push('-');
                res.push(c);
                if self.long.is_some() {
                    res.append(", ");
                } else {
                    match self.ty {
                        OptType::LitOptOpt => {
                            res.append(" <");
                            res.append(self.para);
                            res.append(">");
                        },
                        OptType::LitOptOptOpt => {
                            res.append("[");
                            res.append(self.para);
                            res.append("]");
                        },
                        OptType::LitOptFlag => {},
                    }
                }
            },
            None => {},
        }
        assert(res@ =~= seq![' ', ' '] + short_part(*self));
        match self.long {
            Some(l) => {
                res.append("--");
                res.append(l);
                match self.ty {
                    OptType::LitOptOpt => {
                        res.append("=");
                        res.append(self.para);
                    },
                    OptType::LitOptOptOpt => {
                        res.append("[=");
                        res.append(self.para);
                        res.append("]");
                    },
                    OptType::LitOptFlag => {},
                }
            },
            None => {},
        }
        assert(res@ =~= format_text(*self));
        res
    }
}

/// Lines joined into one text, each ended by a line break.
pub open spec fn join_lines(lines: Seq<Seq<char>>) -> Seq<char> {
    lines.map_values(|l: Seq<char>| l.push('\n')).flatten()
}

/// Joining one more line appends it and a line break.
pub proof fn lemma_join_push(lines: Seq<Seq<char>>, l: Seq<char>)
    ensures
        join_lines(lines.push(l)) == join_lines(lines) + l.push('\n'),
{
    let ended = |l: Seq<char>| l.push('\n');
    assert(lines.push(l).map_values(ended) =~= lines.map_values(ended).push(l.push('\n')));
    lines.map_values(ended).lemma_flatten_push(l.push('\n'));
}

/// Joining two lists of lines joins each and puts the texts together.
pub proof fn lemma_join_add(a: Seq<Seq<char>>, b: Seq<Seq<char>>)
    ensures
        join_lines(a + b) == join_lines(a) + join_lines(b),
{
    let ended = |l: Seq<char>| l.push('\n');
    assert((a + b).map_values(ended) =~= a.map_values(ended) + b.map_values(ended));
    vstd::seq_lib::lemma_flatten_concat(a.map_values(ended), b.map_values(ended));
}

/// Whether some entry has both a short and a long identifier.  If so,
/// entries without a short identifier are set in by four columns, so that
/// all long identifiers stand in one column.
pub open spec fn has_both(opts: Seq<Opt>) -> bool {
    exists|i: int| 0 <= i < opts.len() && opts[i].short is Some && opts[i].long is Some
}

/// The first column of an entry's block.
pub open spec fn label(o: Opt, both: bool) -> Seq<char> {
    if both && o.short is None {
        spaces(4) + format_text(o)
    } else {
        format_text(o)
    }
}

/// The width of the widest label of a table; 0 for an empty table.
pub open spec fn widest_label(opts: Seq<Opt>, both: bool) -> nat
    decreases opts.len(),
{
    if opts.len() == 0 {
        0
    } else {
        let rest = widest_label(opts.drop_last(), both);
        let last = width(label(opts.last(), both));
        if last > rest {
            last
        } else {
            rest
        }
    }
}

/// The column in which the descriptions start: three columns behind the
/// widest label, but never behind `MAX_OFFSET`.
pub open spec fn help_offset(opts: Seq<Opt>) -> nat {
    let widest = widest_label(opts, has_both(opts));
    if widest + 3 > MAX_OFFSET {
        MAX_OFFSET as nat
    } else {
        widest + 3
    }
}

/// Whether a word is too wide for any line, even one that holds nothing
/// else.  Such a word is never broken.
pub open spec fn overlong(w: Seq<char>, offset: nat) -> bool {
    offset + 2 + width(w) > LINE_WIDTH
}

/// Setting one word behind what `line` holds already: the lines that this
/// completes, and what the line that is then begun holds.  `more` says
/// whether further words follow.
///
/// A word that fits goes on the line.  One that does not fit starts a new
/// line, two columns behind `offset`; one that would not fit there either
/// stays on the line it is on.  If further words follow, the word is
/// followed by a space, or by a new line where the line is full or the word
/// was too wide for any line.
pub open spec fn place_word(line: Seq<char>, w: Seq<char>, more: bool, offset: nat) -> (
    Seq<Seq<char>>,
    Seq<char>,
) {
    let fresh = spaces(offset + 2);
    if width(line) + width(w) > LINE_WIDTH && overlong(w, offset) {
        if more {
            (seq![line + w], fresh)
        } else {
            (Seq::empty(), line + w)
        }
    } else {
        let fits = width(line) + width(w) <= LINE_WIDTH;
        let full = if fits {
            Seq::<Seq<char>>::empty()
        } else {
            seq![line]
        };
        let l = if fits {
            line + w
        } else {
            fresh + w
        };
        if !more {
            (full, l)
        } else if width(l) < LINE_WIDTH {
            (full, l.push(' '))
        } else {
            (full.push(l), fresh)
        }
    }
}

/// The lines in which `words` are set one by one, where `line` is what the
/// first of these lines holds already.
pub open spec fn wrap_lines(words: Seq<Seq<char>>, line: Seq<char>, offset: nat) -> Seq<
    Seq<char>,
>
    decreases words.len(),
{
    if words.len() == 0 {
        seq![line]
    } else {
        let rest = words.drop_first();
        let (full, l) = place_word(line, words[0], rest.len() > 0, offset);
        full + wrap_lines(rest, l, offset)
    }
}

/// The lines of one entry's block: the label, then the words `ws` of the
/// description in their column.  A label that leaves no room before that
/// column stands on a line of its own.
pub open spec fn entry_lines(o: Opt, ws: Seq<Seq<char>>, both: bool, offset: nat) -> Seq<
    Seq<char>,
> {
    let head = label(o, both);
    if width(head) + 1 < offset {
        wrap_lines(ws, head + spaces((offset - width(head)) as nat), offset)
    } else {
        seq![head] + wrap_lines(ws, spaces(offset + 2), offset)
    }
}

/// The lines of the usage text of a table.
pub open spec fn help_lines(opts: Seq<Opt>) -> Seq<Seq<char>> {
    opts.map_values(
        |o: Opt| entry_lines(o, words(o.help@), has_both(opts), help_offset(opts)),
    ).flatten()
}

/// The usage text of a table.
pub open spec fn help_text(opts: Seq<Opt>) -> Seq<char> {
    join_lines(help_lines(opts))
}

/// Whether `line` ends in `w`.
pub open spec fn ends_with(line: Seq<char>, w: Seq<char>) -> bool {
    line.len() >= w.len() && line.subrange(line.len() - w.len(), line.len() as int) == w
}

/// Whether a line of description keeps to the width of the line: it does,
/// or it ends in one of `words` that is too wide for any line.
pub open spec fn line_fits(line: Seq<char>, words: Seq<Seq<char>>, offset: nat) -> bool {
    width(line) <= LINE_WIDTH || exists|j: int|
        0 <= j < words.len() && overlong(#[trigger] words[j], offset) && ends_with(line, words[j])
}

/// Whether a line of the block of the entry `o`, in which the words `ws`
/// are set, keeps to the width of the line: it is the label alone, which is
/// never broken, or it is a line of description that does.
pub open spec fn entry_line_fits(
    line: Seq<char>,
    o: Opt,
    ws: Seq<Seq<char>>,
    both: bool,
    offset: nat,
) -> bool {
    line == label(o, both) || line_fits(line, ws, offset)
}

/// Setting one word completes only lines that keep to the width or end in
/// that word, too wide for any line; and it leaves a line of which the same
/// holds, and which keeps to the width if more words follow.
pub proof fn lemma_place_word_fits(line: Seq<char>, w: Seq<char>, more: bool, offset: nat)
    requires
        width(line) <= LINE_WIDTH,
        offset + 2 <= LINE_WIDTH,
    ensures
        forall|k: int|
            0 <= k < place_word(line, w, more, offset).0.len() ==> line_fits(
                #[trigger] place_word(line, w, more, offset).0[k],
                seq![w],
                offset,
            ),
        line_fits(place_word(line, w, more, offset).1, seq![w], offset),
        more ==> width(place_word(line, w, more, offset).1) <= LINE_WIDTH,
{
    let fresh = spaces(offset + 2);
    lemma_width_add(line, w);
    lemma_width_add(fresh, w);
    lemma_width_spaces(offset + 2);
    let one = seq![w];
    assert(one[0] == w);
    assert((line + w).subrange((line + w).len() - w.len(), (line + w).len() as int) =~= w);
    if width(line) + width(w) > LINE_WIDTH && overlong(w, offset) {
        assert(ends_with(line + w, one[0]));
        assert(line_fits(line + w, one, offset));
    } else {
        let fits = width(line) + width(w) <= LINE_WIDTH;
        let l = if fits {
            line + w
        } else {
            fresh + w
        };
        assert(width(l) <= LINE_WIDTH);
        lemma_width_push(l, ' ');
        lemma_width_ascii(' ');
    }
}

/// Every line in which words are set keeps to the width of the line, unless
/// it ends in a word that is too wide for any line.
pub proof fn lemma_wrap_lines_fit(words: Seq<Seq<char>>, line: Seq<char>, offset: nat)
    requires
        width(line) <= LINE_WIDTH,
        offset + 2 <= LINE_WIDTH,
    ensures
        forall|k: int|
            0 <= k < wrap_lines(words, line, offset).len() ==> line_fits(
                #[trigger] wrap_lines(words, line, offset)[k],
                words,
                offset,
            ),
    decreases words.len(),
{
    if words.len() > 0 {
        let w = words[0];
        let rest = words.drop_first();
        let more = rest.len() > 0;
        let (full, l) = place_word(line, w, more, offset);
        lemma_place_word_fits(line, w, more, offset);
        let tail = wrap_lines(rest, l, offset);
        if more {
            lemma_wrap_lines_fit(rest, l, offset);
        }
        assert forall|k: int| 0 <= k < wrap_lines(words, line, offset).len() implies line_fits(
            #[trigger] wrap_lines(words, line, offset)[k],
            words,
            offset,
        ) by {
            let x = wrap_lines(words, line, offset)[k];
            if k < full.len() {
                assert(x == full[k]);
                lemma_line_fits_first(x, words, offset);
            } else if more {
                assert(x == tail[k - full.len()]);
                lemma_line_fits_rest(x, words, offset);
            } else {
                assert(tail =~= seq![l]);
                assert(x == l);
                lemma_line_fits_first(x, words, offset);
            }
        }
    }
}

/// A line that fits by the first of some words fits by all of them.
proof fn lemma_line_fits_first(line: Seq<char>, words: Seq<Seq<char>>, offset: nat)
    requires
        words.len() > 0,
        line_fits(line, seq![words[0]], offset),
    ensures
        line_fits(line, words, offset),
{
    if width(line) > LINE_WIDTH {
        let one = seq![words[0]];
        let j = choose|j: int|
            0 <= j < one.len() && overlong(#[trigger] one[j], offset) && ends_with(line, one[j]);
        assert(one[j] == words[0]);
    }
}

/// A line that fits by all but the first of some words fits by all of them.
proof fn lemma_line_fits_rest(line: Seq<char>, words: Seq<Seq<char>>, offset: nat)
    requires
        words.len() > 0,
        line_fits(line, words.drop_first(), offset),
    ensures
        line_fits(line, words, offset),
{
    if width(line) > LINE_WIDTH {
        let rest = words.drop_first();
        let j = choose|j: int|
            0 <= j < rest.len() && overlong(#[trigger] rest[j], offset) && ends_with(line, rest[j]);
        assert(rest[j] == words[j + 1]);
    }
}

/// Every line of an entry's block is the label alone, or keeps to the width
/// of the line, or ends in a word of the description that is too wide for
/// any line.
pub proof fn lemma_entry_lines_fit(o: Opt, ws: Seq<Seq<char>>, both: bool, offset: nat)
    requires
        offset + 2 <= LINE_WIDTH,
    ensures
        forall|k: int|
            0 <= k < entry_lines(o, ws, both, offset).len() ==> entry_line_fits(
                #[trigger] entry_lines(o, ws, both, offset)[k],
                o,
                ws,
                both,
                offset,
            ),
{
    let head = label(o, both);
    if width(head) + 1 < offset {
        let pad = spaces((offset - width(head)) as nat);
        lemma_width_add(head, pad);
        lemma_width_spaces((offset - width(head)) as nat);
        lemma_wrap_lines_fit(ws, head + pad, offset);
    } else {
        lemma_width_spaces(offset + 2);
        lemma_wrap_lines_fit(ws, spaces(offset + 2), offset);
        let tail = wrap_lines(ws, spaces(offset + 2), offset);
        assert forall|k: int|
            0 <= k < entry_lines(o, ws, both, offset).len() implies entry_line_fits(
            #[trigger] entry_lines(o, ws, both, offset)[k],
            o,
            ws,
            both,
            offset,
        ) by {
            if k > 0 {
                assert(entry_lines(o, ws, both, offset)[k] == tail[k - 1]);
            }
        }
    }
}

/// Each element of a flattened sequence comes from one of the sequences.
proof fn lemma_flatten_member<A>(s: Seq<Seq<A>>, k: int)
    requires
        0 <= k < s.flatten().len(),
    ensures
        exists|i: int, j: int|
            0 <= i < s.len() && 0 <= j < s[i].len() && #[trigger] s[i][j] == s.flatten()[k],
    decreases s.len(),
{
    if s.len() > 0 {
        if k < s.first().len() {
            assert(s[0][k] == s.flatten()[k]);
        } else {
            let rest = s.drop_first();
            lemma_flatten_member(rest, k - s.first().len());
            let (i, j) = choose|i: int, j: int|
                0 <= i < rest.len() && 0 <= j < rest[i].len() && #[trigger] rest[i][j]
                    == rest.flatten()[k - s.first().len()];
            assert(s[i + 1][j] == s.flatten()[k]);
        }
    }
}

/// The usage text keeps every description within the width of the line:
/// each of its lines is the label of an entry alone, or is at most
/// `LINE_WIDTH` columns wide, or ends in a word of that entry's description
/// which is too wide for any line and was left whole.
pub proof fn lemma_help_lines_fit(opts: Seq<Opt>, k: int)
    requires
        0 <= k < help_lines(opts).len(),
    ensures
        exists|i: int|
            0 <= i < opts.len() && entry_line_fits(
                help_lines(opts)[k],
                #[trigger] opts[i],
                words(opts[i].help@),
                has_both(opts),
                help_offset(opts),
            ),
{
    let both = has_both(opts);
    let offset = help_offset(opts);
    let blocks = opts.map_values(
        |o: Opt| entry_lines(o, words(o.help@), has_both(opts), help_offset(opts)),
    );
    lemma_flatten_member(blocks, k);
    let (i, j) = choose|i: int, j: int|
        0 <= i < blocks.len() && 0 <= j < blocks[i].len() && #[trigger] blocks[i][j]
            == blocks.flatten()[k];
    let ws = words(opts[i].help@);
    assert(blocks[i] == entry_lines(opts[i], ws, both, offset));
    lemma_entry_lines_fit(opts[i], ws, both, offset);
    assert(entry_line_fits(entry_lines(opts[i], ws, both, offset)[j], opts[i], ws, both, offset));
}

/// Appends a line break and the indentation of a new line of description.
fn break_line(res: &mut String, offset: usize)
    requires
        offset <= MAX_OFFSET,
    ensures
        final(res)@ == old(res)@.push('\n') + spaces((offset + 2) as nat),
{
    res.push('\n');
    push_spaces(res, offset + 2);
}

/// Appends one word of a description to `res`, which ends in the line
/// `line`, `pos` columns wide.  Returns the width of the line that `res`
/// ends in afterwards.
fn set_word(
    res: &mut String,
    w: &str,
    more: bool,
    pos: usize,
    offset: usize,
    Ghost(base): Ghost<Seq<char>>,
    Ghost(line): Ghost<Seq<char>>,
) -> (next: usize)
    requires
        old(res)@ == base + line,
        pos == width(line),
        pos <= LINE_WIDTH,
        offset <= MAX_OFFSET,
    ensures
        final(res)@ == base + join_lines(place_word(line, w@, more, offset as nat).0) + place_word(
            line,
            w@,
            more,
            offset as nat,
        ).1,
        more ==> next == width(place_word(line, w@, more, offset as nat).1) && next <= LINE_WIDTH,
{
    let wlen = text_width(w);
    let ghost fresh = spaces((offset + 2) as nat);
    proof {
        lemma_width_add(line, w@);
        lemma_width_add(fresh, w@);
        lemma_width_spaces((offset + 2) as nat);
        assert(join_lines(Seq::empty()) =~= Seq::<char>::empty());
    }
    if wlen > LINE_WIDTH - pos && wlen > LINE_WIDTH - 2 - offset {
        res.append(w);
        if more {
            break_line(res, offset);
            proof {
                lemma_join_push(Seq::empty(), line + w@);
                assert(Seq::<Seq<char>>::empty().push(line + w@) =~= seq![line + w@]);
                assert(res@ =~= base + join_lines(seq![line + w@]) + fresh);
            }
            offset + 2
        } else {
            assert(res@ =~= base + join_lines(Seq::empty()) + (line + w@));
            pos
        }
    } else {
        let ghost fits = width(line) + width(w@) <= LINE_WIDTH;
        let ghost full = if fits {
            Seq::<Seq<char>>::empty()
        } else {
            seq![line]
        };
        let ghost l = if fits {
            line + w@
        } else {
            fresh + w@
        };
        let mut at = pos;
        if wlen > LINE_WIDTH - pos {
            break_line(res, offset);
            at = offset + 2;
            proof {
                lemma_join_push(Seq::empty(), line);
                assert(Seq::<Seq<char>>::empty().push(line) =~= seq![line]);
            }
        }
        res.append(w);
        at += wlen;
        assert(res@ =~= base + join_lines(full) + l);
        assert(at == width(l));
        if more {
            if at < LINE_WIDTH {
                res.push(' ');
                proof {
                    lemma_width_push(l, ' ');
                    lemma_width_ascii(' ');
                    assert(res@ =~= base + join_lines(full) + l.push(' '));
                }
                at + 1
            } else {
                break_line(res, offset);
                proof {
                    lemma_join_push(full, l);
                    assert(res@ =~= base + join_lines(full.push(l)) + fresh);
                }
                offset + 2
            }
        } else {
            at
        }
    }
}

/// Appends the block of one entry to `res`.  `f` is the entry as
/// `gahnoo_format` renders it, `ws` are the words of its description.
fn write_entry(
    res: &mut String,
    o: &Opt,
    f: &str,
    ws: &Vec<String>,
    both: bool,
    offset: usize,
)
    requires
        f@ == format_text(*o),
        offset <= MAX_OFFSET,
    ensures
        final(res)@ == old(res)@ + join_lines(
            entry_lines(*o, texts(ws@), both, offset as nat),
        ),
{
    let shifted = both && o.short.is_none();
    let flen = text_width(f);
    let shown: usize = if shifted {
        if flen > 25 {
            29
        } else {
            flen + 4
        }
    } else {
        if flen > 29 {
            29
        } else {
            flen
        }
    };
    let ghost head = label(*o, both);
    proof {
        lemma_width_add(spaces(4), f@);
        lemma_width_spaces(4);
        assert(shown == if width(head) > 29 {
            29
        } else {
            width(head)
        });
        reveal_strlit("    ");
        assert("    "@ =~= spaces(4));
    }
    if shifted {
        res.append("    ");
    }
    res.append(f);
    assert(res@ =~= old(res)@ + head);
    let ghost mut emitted: Seq<Seq<char>> = Seq::empty();
    let ghost mut line: Seq<char> = head;
    let mut pos: usize;
    if shown + 1 < offset {
        push_spaces(res, offset - shown);
        pos = offset;
        proof {
            line = head + spaces((offset - shown) as nat);
            lemma_width_add(head, spaces((offset - shown) as nat));
            lemma_width_spaces((offset - shown) as nat);
        }
    } else {
        break_line(res, offset);
        pos = offset + 2;
        proof {
            emitted = seq![head];
            line = spaces((offset + 2) as nat);
            lemma_width_spaces((offset + 2) as nat);
            lemma_join_push(Seq::empty(), head);
            assert(Seq::<Seq<char>>::empty().push(head) =~= seq![head]);
        }
    }
    assert(join_lines(Seq::empty()) =~= Seq::<char>::empty());
    assert(res@ =~= old(res)@ + join_lines(emitted) + line);
    let n = ws.len();
    let ghost all = texts(ws@);
    let ghost target = entry_lines(*o, all, both, offset as nat);
    assert(all.subrange(0, n as int) =~= all);
    let mut i: usize = 0;
    while i < n
        invariant
            i <= n,
            n == ws@.len(),
            all == texts(ws@),
            offset <= MAX_OFFSET,
            res@ == old(res)@ + join_lines(emitted) + line,
            target == emitted + wrap_lines(all.subrange(i as int, n as int), line, offset as nat),
            i < n ==> pos == width(line) && pos <= LINE_WIDTH,
        decreases n - i,
    {
        let w = ws[i].as_str();
        let more = i + 1 < n;
        let ghost rest = all.subrange(i + 1, n as int);
        let ghost placed = place_word(line, w@, more, offset as nat);
        proof {
            let cur = all.subrange(i as int, n as int);
            assert(cur[0] == w@);
            assert(cur.drop_first() =~= rest);
            assert(wrap_lines(cur, line, offset as nat) == placed.0 + wrap_lines(
                rest,
                placed.1,
                offset as nat,
            ));
        }
        pos = set_word(res, w, more, pos, offset, Ghost(old(res)@ + join_lines(emitted)), Ghost(line));
        proof {
            lemma_join_add(emitted, placed.0);
            assert(res@ =~= old(res)@ + join_lines(emitted + placed.0) + placed.1);
            assert(target =~= (emitted + placed.0) + wrap_lines(rest, placed.1, offset as nat));
            emitted = emitted + placed.0;
            line = placed.1;
        }
        i += 1;
    }
    res.push('\n');
    proof {
        assert(all.subrange(n as int, n as int) =~= Seq::<Seq<char>>::empty());
        assert(target =~= emitted.push(line));
        lemma_join_push(emitted, line);
        assert(res@ =~= old(res)@ + join_lines(target));
    }
}

/// Renders the block of one entry of a usage text in which the descriptions
/// start in column `offset`: the label of the entry, and the words `ws` set
/// beside it.  With `both`, an entry without a short identifier is set in by
/// four columns.
pub fn entry_block(o: &Opt, ws: &Vec<String>, both: bool, offset: usize) -> (res: String)
    requires
        offset <= MAX_OFFSET,
    ensures
        res@ == join_lines(entry_lines(*o, texts(ws@), both, offset as nat)),
{
    let f = o.gahnoo_format();
    let mut res = String::new();
    write_entry(&mut res, o, f.as_str(), ws, both, offset);
    assert(Seq::<char>::empty() + join_lines(entry_lines(*o, texts(ws@), both, offset as nat))
        =~= join_lines(entry_lines(*o, texts(ws@), both, offset as nat)));
    res
}

impl Opts {
    /// Renders the table as usage text: for each entry the label that
    /// `gahnoo_format` gives, and beside it the description, wrapped at
    /// `LINE_WIDTH` columns.
    pub fn gahnoo_help(&self) -> (res: String)
        ensures
            res@ == help_text(self.entries()),
    {
        let n = self.opts.len();
        let ghost entries = self.entries();
        let mut fmt: Vec<String> = Vec::new();
        let mut both = false;
        let mut i: usize = 0;
        while i < n
            invariant
                i <= n,
                n == entries.len(),
                entries == self.entries(),
                fmt@.len() == i,
                forall|j: int| 0 <= j < i ==> (#[trigger] fmt@[j])@ == format_text(entries[j]),
                both == has_both(entries.take(i as int)),
            decreases n - i,
        {
            let o = &self.opts[i];
            fmt.push(o.gahnoo_format());
            let ghost seen = both;
            if o.long.is_some() && o.short.is_some() {
                both = true;
            }
            proof {
                let before = entries.take(i as int);
                let after = entries.take(i + 1);
                if has_both(before) {
                    let j = choose|j: int|
                        0 <= j < before.len() && before[j].short is Some && before[j].long is Some;
                    assert(after[j] == before[j]);
                }
                if has_both(after) && !seen {
                    let j = choose|j: int|
                        0 <= j < after.len() && after[j].short is Some && after[j].long is Some;
                    if j < i {
                        assert(before[j] == after[j]);
                    }
                }
                if o.long is Some && o.short is Some {
                    assert(after[i as int] == entries[i as int]);
                }
            }
            i += 1;
        }
        assert(entries.take(n as int) =~= entries);
        let mut widest: usize = 0;
        let mut i: usize = 0;
        while i < n
            invariant
                i <= n,
                n == entries.len(),
                n == fmt@.len(),
                entries == self.entries(),
                forall|j: int| 0 <= j < n ==> (#[trigger] fmt@[j])@ == format_text(entries[j]),
                widest <= MAX_OFFSET,
                widest == if widest_label(entries.take(i as int), both) > MAX_OFFSET {
                    MAX_OFFSET as nat
                } else {
                    widest_label(entries.take(i as int), both)
                },
            decreases n - i,
        {
            let flen = text_width(fmt[i].as_str());
            let shifted = both && self.opts[i].short.is_none();
            let shown: usize = if shifted {
                if flen > 25 {
                    29
                } else {
                    flen + 4
                }
            } else {
                if flen > 29 {
                    29
                } else {
                    flen
                }
            };
            proof {
                lemma_width_add(spaces(4), fmt@[i as int]@);
                lemma_width_spaces(4);
                assert(entries.take(i + 1).drop_last() =~= entries.take(i as int));
                assert(entries.take(i + 1).last() == entries[i as int]);
            }
            if shown > widest {
                widest = shown;
            }
            i += 1;
        }
        assert(entries.take(n as int) =~= entries);
        let offset: usize = if widest + 3 > MAX_OFFSET {
            MAX_OFFSET
        } else {
            widest + 3
        };
        assert(offset == help_offset(entries));
        let mut res = String::new();
        let ghost block = |o: Opt|
            entry_lines(o, words(o.help@), has_both(entries), help_offset(entries));
        let mut i: usize = 0;
        assert(join_lines(entries.take(0).map_values(block).flatten()) =~= res@);
        while i < n
            invariant
                i <= n,
                n == entries.len(),
                n == fmt@.len(),
                entries == self.entries(),
                forall|j: int| 0 <= j < n ==> (#[trigger] fmt@[j])@ == format_text(entries[j]),
                3 <= offset <= MAX_OFFSET,
                offset == help_offset(entries),
                both == has_both(entries),
                block == |o: Opt|
                    entry_lines(o, words(o.help@), has_both(entries), help_offset(entries)),
                res@ == join_lines(entries.take(i as int).map_values(block).flatten()),
            decreases n - i,
        {
            let ws = split_words(self.opts[i].help);
            write_entry(&mut res, &self.opts[i], fmt[i].as_str(), &ws, both, offset);
            proof {
                let done = entries.take(i as int).map_values(block);
                assert(entries.take(i + 1).map_values(block) =~= done.push(block(entries[i as int])));
                done.lemma_flatten_push(block(entries[i as int]));
                lemma_join_add(done.flatten(), block(entries[i as int]));
            }
            i += 1;
        }
        assert(entries.take(n as int) =~= entries);
        res
    }
}

} // verus!
