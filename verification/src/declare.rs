//! Building a table from declarations: one row per option, each a
//! declaration in the notation of `parse_opt` and a description.

use vstd::prelude::*;
use vstd::string::*;
use vstd::utf8::*;
use crate::syntax::{parse_opt, parse_spec, PreOpt, PreOptView, SyntaxError};
use crate::table::{long_bytes, unambiguous, Opt, Opts};

verus! {

/// Why a row cannot enter the table.
pub enum Fault {
    /// The declaration breaks the notation.
    Syntax(SyntaxError),
    /// An earlier row declares the same short identifier.
    DuplicateShort(char),
    /// An earlier row declares the same long identifier.
    DuplicateLong(String),
}

/// A `Fault` as a mathematical value.
pub enum FaultView {
    Syntax(SyntaxError),
    DuplicateShort(char),
    DuplicateLong(Seq<char>),
}

impl View for Fault {
    type V = FaultView;

    open spec fn view(&self) -> FaultView {
        match *self {
            Fault::Syntax(e) => FaultView::Syntax(e),
            Fault::DuplicateShort(c) => FaultView::DuplicateShort(c),
            Fault::DuplicateLong(l) => FaultView::DuplicateLong(l@),
        }
    }
}

/// A row that cannot enter the table: its index, and why.
pub struct RowError {
    pub row: usize,
    pub fault: Fault,
}

/// A `RowError` as a mathematical value.
pub struct RowErrorView {
    pub row: int,
    pub fault: FaultView,
}

impl View for RowError {
    type V = RowErrorView;

    open spec fn view(&self) -> RowErrorView {
        RowErrorView { row: self.row as int, fault: self.fault@ }
    }
}

/// The rows as texts: declaration and description.
pub open spec fn row_texts(rows: Seq<(String, String)>) -> Seq<(Seq<char>, Seq<char>)> {
    rows.map_values(|r: (String, String)| (r.0@, r.1@))
}

/// Whether one of `t` has the short identifier `c`.
pub open spec fn declares_short(t: Seq<PreOptView>, c: char) -> bool {
    exists|i: int| 0 <= i < t.len() && (#[trigger] t[i]).short == Some(c)
}

/// Whether one of `t` has the long identifier `l`.
pub open spec fn declares_long(t: Seq<PreOptView>, l: Seq<char>) -> bool {
    exists|i: int| 0 <= i < t.len() && (#[trigger] t[i]).long == Some(l)
}

/// Why the row `(decl, help)` cannot follow the options `t`; `None` if it
/// can.  A short identifier that occurs already is reported before a long
/// one that does.
pub open spec fn row_fault(t: Seq<PreOptView>, decl: Seq<char>, help: Seq<char>) -> Option<
    FaultView,
> {
    match parse_spec(encode_utf8(decl), help) {
        Err(e) => Some(FaultView::Syntax(e)),
        Ok(o) => if o.short is Some && declares_short(t, o.short->0) {
            Some(FaultView::DuplicateShort(o.short->0))
        } else if o.long is Some && declares_long(t, o.long->0) {
            Some(FaultView::DuplicateLong(o.long->0))
        } else {
            None
        },
    }
}

/// The options that `rows` declare: each row that can follow those accepted
/// before it.
pub open spec fn accepted(rows: Seq<(Seq<char>, Seq<char>)>) -> Seq<PreOptView>
    decreases rows.len(),
{
    if rows.len() == 0 {
        Seq::empty()
    } else {
        let t = accepted(rows.drop_last());
        let (decl, help) = rows.last();
        match row_fault(t, decl, help) {
            Some(_) => t,
            None => t.push(parse_spec(encode_utf8(decl), help)->Ok_0),
        }
    }
}

/// The rows among `rows` that cannot enter the table, in order.
pub open spec fn rejected(rows: Seq<(Seq<char>, Seq<char>)>) -> Seq<RowErrorView>
    decreases rows.len(),
{
    if rows.len() == 0 {
        Seq::empty()
    } else {
        let t = accepted(rows.drop_last());
        let errors = rejected(rows.drop_last());
        let (decl, help) = rows.last();
        match row_fault(t, decl, help) {
            Some(fault) => errors.push(RowErrorView { row: rows.len() - 1, fault }),
            None => errors,
        }
    }
}

/// No two of the accepted options have the same short identifier, and no
/// two the same long identifier.
pub proof fn lemma_accepted_unambiguous(rows: Seq<(Seq<char>, Seq<char>)>)
    ensures
        forall|i: int, j: int|
            0 <= i < j < accepted(rows).len() && accepted(rows)[i].short is Some
                ==> accepted(rows)[i].short != accepted(rows)[j].short,
        forall|i: int, j: int|
            0 <= i < j < accepted(rows).len() && accepted(rows)[i].long is Some ==> accepted(
                rows,
            )[i].long != accepted(rows)[j].long,
    decreases rows.len(),
{
    if rows.len() > 0 {
        lemma_accepted_unambiguous(rows.drop_last());
        let t = accepted(rows.drop_last());
        let (decl, help) = rows.last();
        if row_fault(t, decl, help) is None {
            let o = parse_spec(encode_utf8(decl), help)->Ok_0;
            assert(accepted(rows) == t.push(o));
            assert forall|i: int, j: int|
                0 <= i < j < accepted(rows).len() && accepted(
                    rows,
                )[i].short is Some implies accepted(rows)[i].short != accepted(rows)[j].short by {
                if j == t.len() && t[i].short == o.short {
                    assert(declares_short(t, o.short->0));
                }
            }
            assert forall|i: int, j: int|
                0 <= i < j < accepted(rows).len() && accepted(
                    rows,
                )[i].long is Some implies accepted(rows)[i].long != accepted(rows)[j].long by {
                if j == t.len() && t[i].long == o.long {
                    assert(declares_long(t, o.long->0));
                }
            }
        }
    }
}

/// The options as mathematical values.
pub open spec fn pre_views(t: Seq<PreOpt>) -> Seq<PreOptView> {
    t.map_values(|o: PreOpt| o@)
}

/// The row errors as mathematical values.
pub open spec fn error_views(e: Seq<RowError>) -> Seq<RowErrorView> {
    e.map_values(|r: RowError| r@)
}

proof fn lemma_error_views_push(l: Seq<RowError>, e: RowError)
    ensures
        error_views(l.push(e)) == error_views(l).push(e@),
{
    assert(error_views(l.push(e)) =~= error_views(l).push(e@));
}

fn has_short(t: &Vec<PreOpt>, c: char) -> (r: bool)
    ensures
        r == declares_short(pre_views(t@), c),
{
    let mut i: usize = 0;
    while i < t.len()
        invariant
            i <= t@.len(),
            forall|j: int| 0 <= j < i ==> (#[trigger] pre_views(t@)[j]).short != Some(c),
        decreases t@.len() - i,
    {
        match t[i].short {
            Some(s) => {
                if s == c {
                    assert(pre_views(t@)[i as int].short == Some(c));
                    return true;
                }
            },
            None => {},
        }
        i += 1;
    }
    false
}

fn has_long(t: &Vec<PreOpt>, l: &String) -> (r: bool)
    ensures
        r == declares_long(pre_views(t@), l@),
{
    let mut i: usize = 0;
    while i < t.len()
        invariant
            i <= t@.len(),
            forall|j: int| 0 <= j < i ==> (#[trigger] pre_views(t@)[j]).long != Some(l@),
        decreases t@.len() - i,
    {
        match &t[i].long {
            Some(s) => {
                if *s == *l {
                    assert(pre_views(t@)[i as int].long == Some(l@));
                    return true;
                }
            },
            None => {},
        }
        i += 1;
    }
    false
}

/// Reads the rows and collects the options they declare.  A row whose
/// declaration breaks the notation, or whose short or long identifier an
/// earlier accepted row has, is reported; all such rows are reported
/// together, and then no options are returned.
pub fn check_rows(rows: &Vec<(String, String)>) -> (r: Result<Vec<PreOpt>, Vec<RowError>>)
    ensures
        match r {
            Ok(t) => rejected(row_texts(rows@)).len() == 0 && pre_views(t@) == accepted(
                row_texts(rows@),
            ),
            Err(e) => e@.len() > 0 && error_views(e@) == rejected(row_texts(rows@)),
        },
{
    let mut t: Vec<PreOpt> = Vec::new();
    let mut errors: Vec<RowError> = Vec::new();
    let ghost texts = row_texts(rows@);
    let mut i: usize = 0;
    assert(pre_views(t@) =~= accepted(texts.take(0)));
    assert(error_views(errors@) =~= rejected(texts.take(0)));
    while i < rows.len()
        invariant
            i <= rows@.len(),
            texts == row_texts(rows@),
            pre_views(t@) == accepted(texts.take(i as int)),
            error_views(errors@) == rejected(texts.take(i as int)),
        decreases rows@.len() - i,
    {
        let ghost before = texts.take(i as int);
        let ghost after = texts.take(i + 1);
        let ghost old_t = pre_views(t@);
        let ghost old_errors = error_views(errors@);
        proof {
            assert(after.drop_last() =~= before);
            assert(after.last() == (rows@[i as int].0@, rows@[i as int].1@));
        }
        let fault: Option<Fault> = match parse_opt(rows[i].0.as_str(), rows[i].1.clone()) {
            Err(e) => Some(Fault::Syntax(e)),
            Ok(o) => {
                let dup_short = match o.short {
                    Some(c) => has_short(&t, c),
                    None => false,
                };
                let dup_long = match &o.long {
                    Some(l) => has_long(&t, l),
                    None => false,
                };
                if dup_short {
                    match o.short {
                        Some(c) => Some(Fault::DuplicateShort(c)),
                        None => None,
                    }
                } else if dup_long {
                    match o.long {
                        Some(l) => Some(Fault::DuplicateLong(l)),
                        None => None,
                    }
                } else {
                    t.push(o);
                    assert(pre_views(t@) =~= old_t.push(o@));
                    None
                }
            },
        };
        match fault {
            Some(f) => {
                assert(row_fault(old_t, after.last().0, after.last().1) == Some(f@));
                let ghost fv = f@;
                let ghost old_list = errors@;
                let e = RowError { row: i, fault: f };
                assert(e@ == RowErrorView { row: i as int, fault: fv });
                errors.push(e);
                assert(errors@ == old_list.push(e));
                proof {
                    lemma_error_views_push(old_list, e);
                }
            },
            None => {
                assert(row_fault(old_t, after.last().0, after.last().1) is None);
            },
        }
        i += 1;
    }
    assert(texts.take(rows@.len() as int) =~= texts);
    if errors.len() > 0 {
        Err(errors)
    } else {
        Ok(t)
    }
}

/// `String::leak` hands out the text of the string as a reference that
/// stays valid for the rest of the program; the text is unchanged.
#[verifier::external_body]
fn leak_text(s: String) -> (r: &'static str)
    ensures
        r@ == s@,
{
    s.leak()
}

/// `Vec::leak` hands out the elements of the vector as a slice that stays
/// valid for the rest of the program; the elements are unchanged.
#[verifier::external_body]
fn leak_entries(v: Vec<Opt>) -> (r: &'static [Opt])
    ensures
        r@ == v@,
{
    v.leak()
}

/// The text of a string slice that may be absent.
pub open spec fn opt_str_text(s: Option<&'static str>) -> Option<Seq<char>> {
    match s {
        Some(t) => Some(t@),
        None => None,
    }
}

/// Whether the entry `o` is what the declared option `p` stands for in a
/// table: the same identifiers, description and kind; the short identifier
/// also as a string; and an empty name for a value that was not named.
pub open spec fn declares(o: Opt, p: PreOptView) -> bool {
    &&& o.short == p.short
    &&& o.short_str@ == match p.short {
        Some(c) => seq![c],
        None => Seq::empty(),
    }
    &&& opt_str_text(o.long) == p.long
    &&& o.para@ == match p.para {
        Some(t) => t,
        None => Seq::empty(),
    }
    &&& o.help@ == p.help
    &&& o.ty == p.ty
}

/// Whether the table `entries` holds the declared options `t`, entry by
/// entry.
pub open spec fn table_declares(entries: Seq<Opt>, t: Seq<PreOptView>) -> bool {
    &&& entries.len() == t.len()
    &&& forall|i: int| 0 <= i < t.len() ==> declares(#[trigger] entries[i], t[i])
}

/// A table that holds declared options of which no two have the same short
/// or the same long identifier is a table in which no identifier occurs
/// twice.
pub proof fn lemma_table_unambiguous(entries: Seq<Opt>, t: Seq<PreOptView>)
    requires
        table_declares(entries, t),
        forall|i: int, j: int|
            0 <= i < j < t.len() && t[i].short is Some ==> t[i].short != t[j].short,
        forall|i: int, j: int| 0 <= i < j < t.len() && t[i].long is Some ==> t[i].long != t[j].long,
    ensures
        unambiguous(entries),
{
    assert forall|i: int, j: int|
        0 <= i < j < entries.len() && entries[i].short is Some implies entries[i].short
        != entries[j].short by {
        assert(declares(entries[i], t[i]) && declares(entries[j], t[j]));
    }
    assert forall|i: int, j: int|
        0 <= i < j < entries.len() && entries[i].long is Some implies long_bytes(entries[i])
        != long_bytes(entries[j]) by {
        assert(declares(entries[i], t[i]) && declares(entries[j], t[j]));
        if entries[j].long is Some {
            let a = entries[i].long->0@;
            let b = entries[j].long->0@;
            assert(t[i].long == Some(a) && t[j].long == Some(b));
            assert(a != b);
            encode_utf8_decode_utf8(a);
            encode_utf8_decode_utf8(b);
        }
    }
}

/// Makes a table of declared options.  The table lives for the rest of the
/// program.
pub fn build_table(t: &Vec<PreOpt>) -> (r: Opts)
    ensures
        table_declares(r.entries(), pre_views(t@)),
{
    let mut entries: Vec<Opt> = Vec::new();
    let mut i: usize = 0;
    while i < t.len()
        invariant
            i <= t@.len(),
            entries@.len() == i,
            forall|j: int| 0 <= j < i ==> declares(#[trigger] entries@[j], pre_views(t@)[j]),
        decreases t@.len() - i,
    {
        let p = &t[i];
        let mut short_str = String::new();
        match p.short {
            Some(c) => {
                short_str.push(c);
                assert(short_str@ =~= seq![c]);
            },
            None => {},
        }
        let long: Option<&'static str> = match &p.long {
            Some(l) => Some(leak_text(l.clone())),
            None => None,
        };
        let para: &'static str = match &p.para {
            Some(n) => leak_text(n.clone()),
            None => leak_text(String::new()),
        };
        let o = Opt {
            short: p.short,
            short_str: leak_text(short_str),
            long,
            para,
            help: leak_text(p.help.clone()),
            ty: p.ty,
        };
        assert(declares(o, pre_views(t@)[i as int]));
        entries.push(o);
        i += 1;
    }
    Opts { opts: leak_entries(entries) }
}

/// Makes a table from rows of declaration and description, as `check_rows`
/// reads them.  In the table no identifier occurs twice.
pub fn expand_opts(rows: &Vec<(String, String)>) -> (r: Result<Opts, Vec<RowError>>)
    ensures
        match r {
            Ok(t) => {
                &&& rejected(row_texts(rows@)).len() == 0
                &&& table_declares(t.entries(), accepted(row_texts(rows@)))
                &&& unambiguous(t.entries())
            },
            Err(e) => e@.len() > 0 && error_views(e@) == rejected(row_texts(rows@)),
        },
{
    match check_rows(rows) {
        Ok(t) => {
            let table = build_table(&t);
            proof {
                lemma_accepted_unambiguous(row_texts(rows@));
                lemma_table_unambiguous(table.entries(), accepted(row_texts(rows@)));
            }
            Ok(table)
        },
        Err(e) => Err(e),
    }
}

} // verus!
