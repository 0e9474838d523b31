//! Mapping of an attachment storage's property codes to directory entries.

use crate::directory::{resolved_map, resolved_upto, resolves_to, DirEntry};
use crate::property::extract_attachment_code;
use vstd::prelude::*;

verus! {

/// A map from property code to the position of a directory entry.
pub struct PropertyMap {
    codes: Vec<String>,
    nodes: Vec<usize>,
}

impl View for PropertyMap {
    type V = Map<Seq<char>, usize>;

    closed spec fn view(&self) -> Map<Seq<char>, usize> {
        Map::new(
            |c: Seq<char>| exists|i: int| 0 <= i < self.codes.len() && self.codes@[i]@ == c,
            |c: Seq<char>|
                self.nodes@[choose|i: int| 0 <= i < self.codes.len() && self.codes@[i]@ == c],
        )
    }
}

impl PropertyMap {
    /// The codes are distinct and each has its entry.
    pub closed spec fn wf(&self) -> bool {
        &&& self.codes.len() == self.nodes.len()
        &&& forall|i: int, j: int|
            0 <= i < j < self.codes.len() ==> self.codes@[i]@ != self.codes@[j]@
    }

    proof fn lemma_view_at(&self, i: int)
        requires
            self.wf(),
            0 <= i < self.codes.len(),
        ensures
            self@.contains_key(self.codes@[i]@),
            self@[self.codes@[i]@] == self.nodes@[i],
    {
        let c = self.codes@[i]@;
        assert(0 <= i < self.codes.len() && self.codes@[i]@ == c);
        let j = choose|j: int| 0 <= j < self.codes.len() && self.codes@[j]@ == c;
        if i < j {
        } else if j < i {
        }
    }

    pub fn new() -> (r: PropertyMap)
        ensures
            r.wf(),
            r@ == Map::<Seq<char>, usize>::empty(),
    {
        let r = PropertyMap { codes: Vec::new(), nodes: Vec::new() };
        assert(r@ =~= Map::<Seq<char>, usize>::empty());
        r
    }

    fn index_of(&self, code: &String) -> (r: Option<usize>)
        requires
            self.wf(),
        ensures
            match r {
                Some(i) => i < self.codes.len() && self.codes@[i as int]@ == code@,
                None => forall|i: int| 0 <= i < self.codes.len() ==> self.codes@[i]@ != code@,
            },
    {
        let mut i: usize = 0;
        while i < self.codes.len()
            invariant
                i <= self.codes.len(),
                forall|j: int| 0 <= j < i ==> self.codes@[j]@ != code@,
            decreases self.codes.len() - i,
        {
            if self.codes[i] == *code {
                return Some(i);
            }
            i += 1;
        }
        None
    }

    /// The entry position recorded for `code`.
    pub fn get(&self, code: &str) -> (r: Option<usize>)
        requires
            self.wf(),
        ensures
            r == (if self@.contains_key(code@) {
                Some(self@[code@])
            } else {
                None
            }),
    {
        let key = String::from_str(code);
        match self.index_of(&key) {
            Some(i) => {
                proof {
                    self.lemma_view_at(i as int);
                }
                Some(self.nodes[i])
            },
            None => {
                assert(!self@.contains_key(code@));
                None
            },
        }
    }

    /// Records `node` for `code`, replacing what was recorded for it before.
    pub fn insert(&mut self, code: String, node: usize)
        requires
            old(self).wf(),
        ensures
            final(self).wf(),
            final(self)@ == old(self)@.insert(code@, node),
    {
        let ghost before = *self;
        match self.index_of(&code) {
            Some(i) => {
                self.nodes.set(i, node);
                proof {
                    assert forall|c: Seq<char>| #[trigger] self@.contains_key(c) == before@.insert(code@, node).contains_key(c) by {
                        if before@.contains_key(c) {
                            let j = choose|j: int| 0 <= j < before.codes.len() && before.codes@[j]@ == c;
                            assert(0 <= j < self.codes.len() && self.codes@[j]@ == c);
                        }
                        if c == code@ {
                            assert(0 <= i < self.codes.len() && self.codes@[i as int]@ == c);
                        }
                    }
                    assert forall|c: Seq<char>| #[trigger] self@.contains_key(c) implies self@[c] == before@.insert(code@, node)[c] by {
                        let j = choose|j: int| 0 <= j < self.codes.len() && self.codes@[j]@ == c;
                        self.lemma_view_at(j);
                        if j != i {
                            before.lemma_view_at(j);
                        }
                    }
                    assert(self@ =~= before@.insert(code@, node));
                }
            },
            None => {
                self.codes.push(code);
                self.nodes.push(node);
                proof {
                    let n = before.codes.len() as int;
                    assert forall|c: Seq<char>| #[trigger] self@.contains_key(c) == before@.insert(code@, node).contains_key(c) by {
                        if before@.contains_key(c) {
                            let j = choose|j: int| 0 <= j < before.codes.len() && before.codes@[j]@ == c;
                            assert(0 <= j < self.codes.len() && self.codes@[j]@ == c);
                        }
                        if c == code@ {
                            assert(0 <= n < self.codes.len() && self.codes@[n]@ == c);
                        }
                        if self@.contains_key(c) && c != code@ {
                            let j = choose|j: int| 0 <= j < self.codes.len() && self.codes@[j]@ == c;
                            assert(0 <= j < before.codes.len() && before.codes@[j]@ == c);
                        }
                    }
                    assert forall|c: Seq<char>| #[trigger] self@.contains_key(c) implies self@[c] == before@.insert(code@, node)[c] by {
                        let j = choose|j: int| 0 <= j < self.codes.len() && self.codes@[j]@ == c;
                        self.lemma_view_at(j);
                        if j != n {
                            before.lemma_view_at(j);
                        }
                    }
                    assert(self@ =~= before@.insert(code@, node));
                }
            },
        }
    }
}

fn contains_id(ids: &Vec<u32>, id: u32) -> (r: bool)
    ensures
        r == ids@.contains(id),
{
    let mut i: usize = 0;
    while i < ids.len()
        invariant
            i <= ids.len(),
            forall|j: int| 0 <= j < i ==> ids@[j] != id,
        decreases ids.len() - i,
    {
        if ids[i] == id {
            return true;
        }
        i += 1;
    }
    false
}

/// Maps each property code among an attachment storage's children to the
/// position of its entry; when several children carry one code, the last in
/// directory order wins.
pub fn children_to_att_code_map(entries: &Vec<DirEntry>, children: &Vec<u32>) -> (r: PropertyMap)
    ensures
        r.wf(),
        r@ == resolved_map(entries@, children@),
{
    let mut map = PropertyMap::new();
    let mut k: usize = 0;
    while k < entries.len()
        invariant
            k <= entries.len(),
            map.wf(),
            map@ == resolved_upto(entries@, children@, k as int),
        decreases entries.len() - k,
    {
        let e = &entries[k];
        if contains_id(children, e.id) {
            match extract_attachment_code(e.name.as_str()) {
                Some(code) => {
                    map.insert(code, k);
                },
                None => {},
            }
        }
        k += 1;
    }
    map
}

proof fn lemma_resolved_upto_is_last(es: Seq<DirEntry>, children: Seq<u32>, code: Seq<char>, n: int)
    requires
        0 <= n <= es.len(),
        es.len() <= usize::MAX,
    ensures
        resolved_upto(es, children, n).contains_key(code) <==> exists|k: int|
            k < n && #[trigger] resolves_to(es, children, code, k),
        resolved_upto(es, children, n).contains_key(code) ==> {
            let k = resolved_upto(es, children, n)[code] as int;
            &&& k < n
            &&& resolves_to(es, children, code, k)
            &&& forall|j: int| k < j < n ==> !#[trigger] resolves_to(es, children, code, j)
        },
    decreases n,
{
    if n > 0 {
        lemma_resolved_upto_is_last(es, children, code, n - 1);
        let prev = resolved_upto(es, children, n - 1);
        let m = resolved_upto(es, children, n);
        if resolves_to(es, children, code, n - 1) {
            assert(m == prev.insert(code, (n - 1) as usize));
        } else {
            assert(m.contains_key(code) == prev.contains_key(code));
            assert(m.contains_key(code) ==> m[code] == prev[code]);
            if exists|k: int| k < n && #[trigger] resolves_to(es, children, code, k) {
                let k = choose|k: int| k < n && #[trigger] resolves_to(es, children, code, k);
                assert(k < n - 1 && resolves_to(es, children, code, k));
            }
        }
    }
}

/// Last write wins: a code maps to the last entry, in directory order, that is
/// listed among the storage's children and carries that code; a code that no
/// such entry carries is absent from the map.
pub proof fn lemma_resolved_last_write_wins(es: Seq<DirEntry>, children: Seq<u32>, code: Seq<char>)
    requires
        es.len() <= usize::MAX,
    ensures
        resolved_map(es, children).contains_key(code) <==> exists|k: int|
            #[trigger] resolves_to(es, children, code, k),
        resolved_map(es, children).contains_key(code) ==> {
            let k = resolved_map(es, children)[code] as int;
            &&& resolves_to(es, children, code, k)
            &&& forall|j: int| k < j ==> !#[trigger] resolves_to(es, children, code, j)
        },
{
    lemma_resolved_upto_is_last(es, children, code, es.len() as int);
    if exists|k: int| #[trigger] resolves_to(es, children, code, k) {
        let k = choose|k: int| #[trigger] resolves_to(es, children, code, k);
        assert(k < es.len() && resolves_to(es, children, code, k));
    }
}

} // verus!
