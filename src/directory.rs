//! The compound-file directory as plain values: locating attachment storages
//! and resolving their property streams by code.

use crate::property::property_code_of;
use vstd::prelude::*;

verus! {

/// One directory entry: its identifier, its name and the identifiers of its
/// children.
#[derive(Debug, PartialEq, Eq)]
pub struct DirEntry {
    pub id: u32,
    pub name: String,
    pub children: Vec<u32>,
}

impl DirEntry {
    pub fn new(id: u32, name: &str, children: &Vec<u32>) -> (r: DirEntry)
        ensures
            r.id == id,
            r.name@ == name@,
            r.children@ == children@,
    {
        DirEntry { id, name: String::from_str(name), children: children.clone() }
    }
}

pub open spec fn attach_prefix() -> Seq<char> {
    seq!['_', '_', 'a', 't', 't', 'a', 'c', 'h']
}

/// Attachment storages are the entries whose name starts with `__attach`.
pub open spec fn is_attachment_storage_name(s: Seq<char>) -> bool {
    s.len() >= 8 && s.take(8) == attach_prefix()
}

/// The children of each attachment storage, in directory order.
pub open spec fn attachment_children(es: Seq<DirEntry>) -> Seq<Seq<u32>>
    decreases es.len(),
{
    if es.len() == 0 {
        Seq::empty()
    } else {
        let init = attachment_children(es.drop_last());
        if is_attachment_storage_name(es.last().name@) {
            init.push(es.last().children@)
        } else {
            init
        }
    }
}

/// Entry `k` is a child listed in `children` whose name carries `code`.
pub open spec fn resolves_to(es: Seq<DirEntry>, children: Seq<u32>, code: Seq<char>, k: int) -> bool {
    &&& 0 <= k < es.len()
    &&& children.contains(es[k].id)
    &&& property_code_of(es[k].name@) == Some(code)
}

/// The code-to-entry mapping built from the first `n` entries; a later entry
/// with the same code replaces an earlier one.
pub open spec fn resolved_upto(es: Seq<DirEntry>, children: Seq<u32>, n: int) -> Map<Seq<char>, usize>
    decreases n,
{
    if n <= 0 {
        Map::empty()
    } else {
        let prev = resolved_upto(es, children, n - 1);
        let e = es[n - 1];
        if children.contains(e.id) && property_code_of(e.name@) is Some {
            prev.insert(property_code_of(e.name@)->Some_0, (n - 1) as usize)
        } else {
            prev
        }
    }
}

/// The code-to-entry mapping of one attachment storage.
pub open spec fn resolved_map(es: Seq<DirEntry>, children: Seq<u32>) -> Map<Seq<char>, usize> {
    resolved_upto(es, children, es.len() as int)
}

pub open spec fn views_of(vs: Seq<Vec<u32>>) -> Seq<Seq<u32>> {
    vs.map_values(|v: Vec<u32>| v@)
}

/// Tells whether a name marks an attachment storage (`__attach...`).
pub fn is_attachment_name(name: &str) -> (r: bool)
    ensures
        r == is_attachment_storage_name(name@),
{
    let n = name.unicode_len();
    if n < 8 {
        return false;
    }
    let head = String::from_str(name.substring_char(0, 8));
    let prefix = String::from_str("__attach");
    proof {
        reveal_strlit("__attach");
        assert(prefix@ =~= attach_prefix());
        assert(head@ =~= name@.take(8));
    }
    head == prefix
}

/// The children of every attachment storage, in directory order.
pub fn attachment_containers(entries: &Vec<DirEntry>) -> (r: Vec<Vec<u32>>)
    ensures
        views_of(r@) == attachment_children(entries@),
{
    let mut out: Vec<Vec<u32>> = Vec::new();
    let mut i: usize = 0;
    while i < entries.len()
        invariant
            i <= entries@.len(),
            views_of(out@) == attachment_children(entries@.take(i as int)),
        decreases entries@.len() - i,
    {
        proof {
            assert(entries@.take(i as int + 1).drop_last() =~= entries@.take(i as int));
        }
        let e = &entries[i];
        if is_attachment_name(e.name.as_str()) {
            let c = e.children.clone();
            let ghost before = views_of(out@);
            out.push(c);
            proof {
                assert(c@ =~= e.children@);
                assert(views_of(out@) =~= before.push(e.children@));
            }
        }
        i += 1;
    }
    assert(entries@.take(entries@.len() as int) =~= entries@);
    out
}

/// A directory without `__attach` storages has no attachments.
pub proof fn lemma_no_storages_no_attachments(es: Seq<DirEntry>)
    requires
        forall|i: int| 0 <= i < es.len() ==> !is_attachment_storage_name(#[trigger] es[i].name@),
    ensures
        attachment_children(es).len() == 0,
    decreases es.len(),
{
    if es.len() > 0 {
        let init = es.drop_last();
        assert forall|i: int| 0 <= i < init.len() implies !is_attachment_storage_name(
            #[trigger] init[i].name@,
        ) by {
            assert(init[i] == es[i]);
        }
        lemma_no_storages_no_attachments(init);
        assert(!is_attachment_storage_name(es[es.len() - 1].name@));
    }
}

} // verus!
