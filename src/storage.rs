//! The streams an attachment storage asks to be read.
//!
//! Reading the compound file is left to the caller: given the directory as
//! plain [`DirEntry`] values, this says at which directory positions the short
//! name, long name and payload of one attachment storage are stored. What the
//! caller reads there goes to [`crate::attachment::assemble_attachment`].

use crate::attachment::{code_data, code_long, code_short};
use crate::directory::{resolved_map, DirEntry};
use crate::resolve::{children_to_att_code_map, lemma_resolved_last_write_wins, PropertyMap};
use vstd::prelude::*;

verus! {

/// The position recorded for `code` in a property map, if any.
pub open spec fn position_of(m: Map<Seq<char>, usize>, code: Seq<char>) -> Option<usize> {
    if m.contains_key(code) {
        Some(m[code])
    } else {
        None
    }
}

/// Directory positions of the streams that hold an attachment's short name
/// (`3704`), long name (`3707`) and payload (`3701`); `None` where the storage
/// has no such property.
#[derive(Debug, PartialEq, Eq)]
pub struct PropertyStreams {
    pub short: Option<usize>,
    pub long: Option<usize>,
    pub data: Option<usize>,
}

fn position(m: &PropertyMap, code: &str, Ghost(es): Ghost<Seq<DirEntry>>, Ghost(children): Ghost<Seq<u32>>) -> (r: Option<usize>)
    requires
        m.wf(),
        m@ == resolved_map(es, children),
        es.len() <= usize::MAX,
    ensures
        r == position_of(m@, code@),
        r matches Some(k) ==> k < es.len(),
{
    let r = m.get(code);
    proof {
        lemma_resolved_last_write_wins(es, children, code@);
    }
    r
}

/// Resolves the children of one attachment storage and gives the positions of
/// its three property streams.
pub fn property_streams(entries: &Vec<DirEntry>, children: &Vec<u32>) -> (r: PropertyStreams)
    ensures
        r.short == position_of(resolved_map(entries@, children@), code_short()),
        r.long == position_of(resolved_map(entries@, children@), code_long()),
        r.data == position_of(resolved_map(entries@, children@), code_data()),
        r.short matches Some(k) ==> k < entries.len(),
        r.long matches Some(k) ==> k < entries.len(),
        r.data matches Some(k) ==> k < entries.len(),
{
    let m = children_to_att_code_map(entries, children);
    let count: usize = entries.len();
    assert(entries@.len() == count);
    let short = position(&m, "3704", Ghost(entries@), Ghost(children@));
    let long = position(&m, "3707", Ghost(entries@), Ghost(children@));
    let data = position(&m, "3701", Ghost(entries@), Ghost(children@));
    PropertyStreams { short, long, data }
}

} // verus!
