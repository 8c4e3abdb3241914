//! Descriptions written as `///` comments above a declaration.

use vstd::prelude::*;
use vstd::string::*;
use crate::text::{mark_chars, marked};

verus! {

/// A marked text without the marked characters at its end.
pub open spec fn trim_end(s: Seq<(char, bool)>) -> Seq<(char, bool)>
    decreases s.len(),
{
    if s.len() > 0 && s.last().1 {
        trim_end(s.drop_last())
    } else {
        s
    }
}

/// The characters of a marked text.
pub open spec fn unmarked(s: Seq<(char, bool)>) -> Seq<char> {
    s.map_values(|m: (char, bool)| m.0)
}

/// Where the text of a comment line starts: behind `///` and one space, if
/// there is one.  `None` for a line that does not start with `///`.
pub open spec fn doc_start(line: Seq<char>) -> Option<int> {
    if seq!['/', '/', '/', ' '].is_prefix_of(line) {
        Some(4)
    } else if seq!['/', '/', '/'].is_prefix_of(line) {
        Some(3)
    } else {
        None
    }
}

/// What a marked comment line says: the line from where its text starts,
/// without the marked characters at its end.
pub open spec fn marked_doc_text(line: Seq<(char, bool)>) -> Option<Seq<char>> {
    match doc_start(unmarked(line)) {
        Some(k) => Some(unmarked(trim_end(line.skip(k)))),
        None => None,
    }
}

/// What a comment line says: the line without the `///` and one space
/// behind it, and without white space at its end.  `None` for a line that
/// does not start with `///`.
pub open spec fn doc_text(line: Seq<char>) -> Option<Seq<char>> {
    marked_doc_text(marked(line))
}

/// What the comment lines say, put together without anything between them;
/// or the index of the first line that does not start with `///`.
pub open spec fn doc_help(lines: Seq<Seq<char>>) -> Result<Seq<char>, int>
    decreases lines.len(),
{
    if lines.len() == 0 {
        Ok(Seq::empty())
    } else {
        match doc_help(lines.drop_last()) {
            Err(i) => Err(i),
            Ok(help) => match doc_text(lines.last()) {
                Some(t) => Ok(help + t),
                None => Err(lines.len() - 1),
            },
        }
    }
}

/// The first `k` characters of `line` behind the `///` and the space that
/// may follow it.
pub open spec fn doc_body(line: Seq<(char, bool)>, k: int) -> Seq<(char, bool)> {
    if k <= 3 {
        Seq::empty()
    } else if line[3].0 == ' ' {
        line.subrange(4, k)
    } else {
        line.subrange(3, k)
    }
}

/// Reads one comment line of which the white space is marked.
pub fn read_marked_doc_line(line: &Vec<(char, bool)>) -> (r: Option<String>)
    ensures
        match r {
            Some(t) => marked_doc_text(line@) == Some(t@),
            None => marked_doc_text(line@) is None,
        },
{
    let mut out = String::new();
    let mut pending = String::new();
    let mut slashes = true;
    let ghost mut held: Seq<(char, bool)> = Seq::empty();
    let n = line.len();
    let mut i: usize = 0;
    while i < n
        invariant
            i <= n,
            n == line@.len(),
            slashes == (forall|j: int| 0 <= j < i && j < 3 ==> line@[j].0 == '/'),
            trim_end(doc_body(line@, i as int)) + held == doc_body(line@, i as int),
            out@ == unmarked(trim_end(doc_body(line@, i as int))),
            pending@ == unmarked(held),
            forall|j: int| 0 <= j < held.len() ==> (#[trigger] held[j]).1,
        decreases n - i,
    {
        let (c, mark) = line[i];
        let ghost body = doc_body(line@, i as int);
        let ghost next = doc_body(line@, i + 1);
        if i < 3 {
            if c != '/' {
                slashes = false;
            }
            assert(next =~= body);
        } else if i == 3 && c == ' ' {
            assert(next =~= body);
        } else {
            assert(next =~= body.push((c, mark)));
            assert(next.drop_last() =~= body);
            if mark {
                pending.push(c);
                proof {
                    held = held.push((c, mark));
                    assert(trim_end(next) + held =~= next);
                    assert(pending@ =~= unmarked(held));
                }
            } else {
                out.append(pending.as_str());
                out.push(c);
                pending = String::new();
                proof {
                    assert(out@ =~= unmarked(next));
                    held = Seq::empty();
                    assert(trim_end(next) + held =~= next);
                    assert(pending@ =~= unmarked(held));
                }
            }
        }
        i += 1;
    }
    proof {
        let chars = unmarked(line@);
        let four = seq!['/', '/', '/', ' '];
        let three = seq!['/', '/', '/'];
        if four.is_prefix_of(chars) {
            assert(forall|j: int| 0 <= j < 4 ==> chars[j] == four[j]);
            assert(line@.skip(4) =~= doc_body(line@, n as int));
        } else if three.is_prefix_of(chars) {
            assert(forall|j: int| 0 <= j < 3 ==> chars[j] == three[j]);
            if n > 3 && line@[3].0 == ' ' {
                assert(chars.subrange(0, 4) =~= four);
            }
            assert(line@.skip(3) =~= doc_body(line@, n as int));
        } else if n >= 3 && slashes {
            assert(chars.subrange(0, 3) =~= three);
        }
    }
    if n >= 3 && slashes {
        proof {
            let chars = unmarked(line@);
            assert(chars.subrange(0, 3) =~= seq!['/', '/', '/']);
            if n > 3 && line@[3].0 == ' ' {
                assert(chars.subrange(0, 4) =~= seq!['/', '/', '/', ' ']);
            }
        }
        Some(out)
    } else {
        None
    }
}

/// Reads one comment line.
pub fn read_doc_line(line: &str) -> (r: Option<String>)
    ensures
        match r {
            Some(t) => doc_text(line@) == Some(t@),
            None => doc_text(line@) is None,
        },
{
    let chars = mark_chars(line);
    read_marked_doc_line(&chars)
}

/// Reads the comment lines above a declaration into its description.
pub fn read_doc_lines(lines: &Vec<String>) -> (r: Result<String, usize>)
    ensures
        match r {
            Ok(help) => doc_help(lines@.map_values(|l: String| l@)) == Ok::<Seq<char>, int>(help@),
            Err(i) => doc_help(lines@.map_values(|l: String| l@)) == Err::<Seq<char>, int>(
                i as int,
            ),
        },
{
    let mut help = String::new();
    let ghost texts = lines@.map_values(|l: String| l@);
    let mut i: usize = 0;
    while i < lines.len()
        invariant
            i <= lines@.len(),
            texts == lines@.map_values(|l: String| l@),
            doc_help(texts.take(i as int)) == Ok::<Seq<char>, int>(help@),
        decreases lines@.len() - i,
    {
        proof {
            assert(texts.take(i + 1).drop_last() =~= texts.take(i as int));
            assert(texts.take(i + 1).last() == lines@[i as int]@);
        }
        match read_doc_line(lines[i].as_str()) {
            Some(t) => {
                help.append(t.as_str());
            },
            None => {
                proof {
                    lemma_doc_help_fails(texts, i as int);
                }
                return Err(i);
            },
        }
        i += 1;
    }
    assert(texts.take(lines@.len() as int) =~= texts);
    Ok(help)
}

/// Once some lines have failed, more lines fail at the same line.
proof fn lemma_doc_help_fails(lines: Seq<Seq<char>>, i: int)
    requires
        0 <= i < lines.len(),
        doc_help(lines.take(i + 1)) == Err::<Seq<char>, int>(i),
    ensures
        doc_help(lines) == Err::<Seq<char>, int>(i),
    decreases lines.len(),
{
    if lines.len() == i + 1 {
        assert(lines.take(i + 1) =~= lines);
    } else {
        assert(lines.drop_last().take(i + 1) =~= lines.take(i + 1));
        lemma_doc_help_fails(lines.drop_last(), i);
    }
}

} // verus!
