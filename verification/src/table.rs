//! The option table: descriptors and the lookups the scanner performs on them.

use vstd::prelude::*;
use vstd::string::*;
use crate::bytes::bytes_eq;

verus! {

/// What kind of value an option takes.
#[derive(PartialEq, Eq, Structural, Clone, Copy, Debug)]
pub enum OptType {
    /// A switch without a value.
    LitOptFlag,
    /// An option that must be given a value.
    LitOptOpt,
    /// An option whose value may be left out.
    LitOptOptOpt,
}

/// One entry of an option table.
pub struct Opt {
    /// The one-character identifier, as in `-c`.
    pub short: Option<char>,
    /// `short` as a string; empty when there is no short identifier.
    pub short_str: &'static str,
    /// The long identifier, as in `--color`, without the dashes.
    pub long: Option<&'static str>,
    /// The name shown for the option's value in usage text.
    pub para: &'static str,
    /// The description shown in usage text.
    pub help: &'static str,
    /// Whether the option takes a value.
    pub ty: OptType,
}

/// An option table.  Lookups go through the entries in order and stop at the
/// first hit, so an identifier that occurs twice always resolves to the
/// earlier entry.
pub struct Opts {
    pub opts: &'static [Opt],
}

/// The bytes that `--name` must spell to select the entry, if it has a long
/// identifier.
pub open spec fn long_bytes(o: Opt) -> Option<Seq<u8>> {
    match o.long {
        Some(l) => Some(l.spec_bytes()),
        None => None,
    }
}

/// The short identifiers of a table, entry by entry.
pub open spec fn short_ids(opts: Seq<Opt>) -> Seq<Option<char>> {
    opts.map_values(|o: Opt| o.short)
}

/// The long identifiers of a table as bytes, entry by entry.
pub open spec fn long_ids(opts: Seq<Opt>) -> Seq<Option<Seq<u8>>> {
    opts.map_values(|o: Opt| long_bytes(o))
}

/// Index of the first entry whose short identifier is `c`.
pub open spec fn find_short(opts: Seq<Opt>, c: char) -> Option<int> {
    short_ids(opts).index_of_first(Some(c))
}

/// Index of the first entry whose long identifier is spelled by `name`.
pub open spec fn find_long(opts: Seq<Opt>, name: Seq<u8>) -> Option<int> {
    long_ids(opts).index_of_first(Some(name))
}

/// Whether no identifier occurs twice in a table: no two entries have the
/// same short identifier, and no two the same long identifier.
pub open spec fn unambiguous(opts: Seq<Opt>) -> bool {
    &&& forall|i: int, j: int|
        0 <= i < j < opts.len() && opts[i].short is Some ==> opts[i].short != opts[j].short
    &&& forall|i: int, j: int|
        0 <= i < j < opts.len() && opts[i].long is Some ==> long_bytes(opts[i]) != long_bytes(
            opts[j],
        )
}

/// In a table in which no identifier occurs twice, a short identifier
/// selects the one entry that has it.
pub proof fn lemma_short_selects(opts: Seq<Opt>, c: char, i: int)
    requires
        unambiguous(opts),
        0 <= i < opts.len(),
        opts[i].short == Some(c),
    ensures
        find_short(opts, c) == Some(i),
{
    let ids = short_ids(opts);
    ids.index_of_first_ensures(Some(c));
    assert(ids[i] == Some(c));
    let k = find_short(opts, c)->0;
    assert(ids[k] == opts[k].short);
}

/// In a table in which no identifier occurs twice, a long identifier
/// selects the one entry that has it.
pub proof fn lemma_long_selects(opts: Seq<Opt>, name: Seq<u8>, i: int)
    requires
        unambiguous(opts),
        0 <= i < opts.len(),
        long_bytes(opts[i]) == Some(name),
    ensures
        find_long(opts, name) == Some(i),
{
    let ids = long_ids(opts);
    ids.index_of_first_ensures(Some(name));
    assert(ids[i] == Some(name));
    let k = find_long(opts, name)->0;
    assert(ids[k] == long_bytes(opts[k]));
}

impl Opts {
    /// The entries of the table as a sequence.
    pub open spec fn entries(&self) -> Seq<Opt> {
        self.opts@
    }

    /// Looks an entry up by its short identifier.
    pub fn lookup_short(&self, c: char) -> (r: Option<usize>)
        ensures
            match r {
                Some(i) => {
                    &&& find_short(self.entries(), c) == Some(i as int)
                    &&& i < self.entries().len()
                    &&& self.entries()[i as int].short == Some(c)
                },
                None => find_short(self.entries(), c) is None,
            },
    {
        let ghost ids = short_ids(self.entries());
        let mut i: usize = 0;
        while i < self.opts.len()
            invariant
                i <= self.opts@.len(),
                ids == short_ids(self.entries()),
                forall|j: int| 0 <= j < i ==> ids[j] != Some(c),
            decreases self.opts@.len() - i,
        {
            let hit = match self.opts[i].short {
                Some(s) => s == c,
                None => false,
            };
            if hit {
                proof {
                    assert(ids[i as int] == Some(c));
                    ids.index_of_first_ensures(Some(c));
                }
                return Some(i);
            }
            i += 1;
        }
        proof {
            ids.index_of_first_ensures(Some(c));
        }
        None
    }

    /// Looks an entry up by the bytes of its long identifier.
    pub fn lookup_long(&self, name: &[u8]) -> (r: Option<usize>)
        ensures
            match r {
                Some(i) => {
                    &&& find_long(self.entries(), name@) == Some(i as int)
                    &&& i < self.entries().len()
                    &&& long_bytes(self.entries()[i as int]) == Some(name@)
                },
                None => find_long(self.entries(), name@) is None,
            },
    {
        let ghost ids = long_ids(self.entries());
        let mut i: usize = 0;
        while i < self.opts.len()
            invariant
                i <= self.opts@.len(),
                ids == long_ids(self.entries()),
                forall|j: int| 0 <= j < i ==> ids[j] != Some(name@),
            decreases self.opts@.len() - i,
        {
            let hit = match self.opts[i].long {
                Some(l) => bytes_eq(l.as_bytes(), name),
                None => false,
            };
            if hit {
                proof {
                    assert(ids[i as int] == Some(name@));
                    ids.index_of_first_ensures(Some(name@));
                }
                return Some(i);
            }
            i += 1;
        }
        proof {
            ids.index_of_first_ensures(Some(name@));
        }
        None
    }
}

} // verus!
