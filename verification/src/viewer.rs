use vstd::prelude::*;

use crate::raster::bgra_to_rgba;
use crate::raster::render_result;
use crate::utils::Rect;

verus! {

broadcast use vstd::map::group_map_axioms;

/// Ghost view of one parsed-document slot: the per-page sizes the engine
/// reported, the live handle counts of each kind, and whether the session's
/// cache still holds a share of it.
pub struct DocView {
    pub sizes: Seq<Rect>,
    pub doc_handles: nat,
    pub pages_handles: nat,
    pub page_handles: nat,
    pub cached: bool,
}

/// One parsed document owned by the session: the engine's per-page sizes and
/// the share counts of the handles derived from it. The parsed value itself
/// lives with the engine; this slot is the session's bookkeeping for it.
struct DocSlot {
    sizes: Vec<Rect>,
    doc_handles: u64,
    pages_handles: u64,
    page_handles: u64,
    cached: bool,
}

impl DocSlot {
    spec fn view_spec(self) -> DocView {
        DocView {
            sizes: self.sizes@,
            doc_handles: self.doc_handles as nat,
            pages_handles: self.pages_handles as nat,
            page_handles: self.page_handles as nat,
            cached: self.cached,
        }
    }
}

/// A cache entry: a caller-supplied id and the slot of the document open
/// under it.
struct CacheEntry {
    id: String,
    doc: usize,
}

/// The session: owner of the engine binding and of a cache mapping ids to
/// already-opened documents. Documents are kept in an arena of slots so that
/// handle indices stay stable; a slot whose share count has reached zero and
/// which the cache no longer references is finalized and never revived.
pub struct Viewer {
    docs: Vec<DocSlot>,
    cache: Vec<CacheEntry>,
    disposed: bool,
}

/// A shared handle to one open document. Its existence stands for one share
/// of the document's slot, which in turn keeps the session alive.
#[derive(Debug)]
pub struct Document {
    doc: usize,
}

/// A shared handle to a document's page collection: a capability to count
/// and fetch pages, holding one share of the document's slot.
#[derive(Debug)]
pub struct Pages {
    doc: usize,
}

/// A shared handle to a single loaded page, holding one share of the
/// document's slot.
#[derive(Debug)]
pub struct Page {
    doc: usize,
    index: usize,
}

/// Why a page could not be handed out.
#[derive(Clone, Copy, PartialEq, Eq, Structural, Debug)]
pub enum PdfError {
    IndexOutOfBounds,
}

spec fn docs_map(s: Seq<DocSlot>) -> Seq<DocView> {
    s.map(|i: int, x: DocSlot| x.view_spec())
}

proof fn lemma_docs_map_update(a: Seq<DocSlot>, k: int, s: DocSlot)
    requires
        0 <= k < a.len(),
    ensures
        docs_map(a.update(k, s)) == docs_map(a).update(k, s.view_spec()),
{
    assert(docs_map(a.update(k, s)) =~= docs_map(a).update(k, s.view_spec()));
}

proof fn lemma_docs_map_push(a: Seq<DocSlot>, s: DocSlot)
    ensures
        docs_map(a.push(s)) == docs_map(a).push(s.view_spec()),
{
    assert(docs_map(a.push(s)) =~= docs_map(a).push(s.view_spec()));
}

impl Viewer {
    /// The document slots, as ghost views; indices are stable for the life of
    /// the session.
    pub closed spec fn docs_view(self) -> Seq<DocView> {
        docs_map(self.docs@)
    }

    /// Whether the session's teardown has completed.
    pub closed spec fn disposed(self) -> bool {
        self.disposed
    }

    spec fn entry_for(self, id: Seq<char>, i: int) -> bool {
        0 <= i < self.cache@.len() && self.cache@[i].id@ == id
    }

    /// The cache as a map from id to document slot.
    pub closed spec fn cache_view(self) -> Map<Seq<char>, int> {
        Map::new(
            |id: Seq<char>| exists|i: int| self.entry_for(id, i),
            |id: Seq<char>| self.cache@[choose|i: int| self.entry_for(id, i)].doc as int,
        )
    }

    /// Total shares of slot `d` held by host-visible handles.
    pub open spec fn handle_total_at(self, d: int) -> nat {
        (self.docs_view()[d].doc_handles + self.docs_view()[d].pages_handles
            + self.docs_view()[d].page_handles) as nat
    }

    /// Some host-visible handle still holds a share of some slot.
    pub open spec fn handles_outstanding(self) -> bool {
        exists|d: int|
            0 <= d < self.docs_view().len() && #[trigger] self.handle_total_at(d) > 0
    }

    spec fn ids_unique(self) -> bool {
        forall|i: int, j: int|
            0 <= i < j < self.cache@.len() ==> self.cache@[i].id@ != self.cache@[j].id@
    }

    /// The session invariant: cache ids are unique, each entry points at a
    /// distinct live slot marked as cached and only those, and a disposed
    /// session has neither cache entries nor outstanding handles.
    pub closed spec fn wf(self) -> bool {
        &&& self.ids_unique()
        &&& forall|i: int, j: int|
            0 <= i < j < self.cache@.len() ==> self.cache@[i].doc != self.cache@[j].doc
        &&& forall|i: int|
            0 <= i < self.cache@.len() ==> (#[trigger] self.cache@[i]).doc < self.docs@.len()
        &&& forall|i: int|
            0 <= i < self.cache@.len() ==> self.docs@[(#[trigger] self.cache@[i]).doc as int].cached
        &&& forall|d: int|
            0 <= d < self.docs@.len() ==> ((#[trigger] self.docs@[d].cached) <==> exists|i: int|
                0 <= i < self.cache@.len() && (#[trigger] self.cache@[i]).doc as int == d)
        &&& self.disposed ==> self.cache@.len() == 0 && !self.handles_outstanding()
    }

    /// A fresh session: empty cache, no documents, not disposed.
    pub fn new() -> (v: Viewer)
        ensures
            v.wf(),
            !v.disposed(),
            v.docs_view() == Seq::<DocView>::empty(),
            v.cache_view() == Map::<Seq<char>, int>::empty(),
    {
        let v = Viewer { docs: Vec::new(), cache: Vec::new(), disposed: false };
        proof {
            assert(v.docs_view() =~= Seq::<DocView>::empty());
            assert(v.cache_view() =~= Map::<Seq<char>, int>::empty());
        }
        v
    }

    /// Scans the cache for `id`; yields its position, or the fact that no
    /// entry carries that id.
    fn find_entry(&self, id: &String) -> (r: Option<usize>)
        ensures
            match r {
                Some(i) => self.entry_for(id@, i as int),
                None => forall|j: int| 0 <= j < self.cache@.len() ==> self.cache@[j].id@ != id@,
            },
    {
        let n = self.cache.len();
        let mut i: usize = 0;
        while i < n
            invariant
                n == self.cache@.len(),
                i <= n,
                forall|j: int| 0 <= j < i ==> self.cache@[j].id@ != id@,
            decreases n - i,
        {
            if self.cache[i].id.eq(id) {
                return Some(i);
            }
            i = i + 1;
        }
        None
    }

    /// From a located entry, pins down the cache view: the id is in the map
    /// and maps to that entry's slot.
    proof fn lemma_entry_is_lookup(self, id: Seq<char>, i: int)
        requires
            self.ids_unique(),
            self.entry_for(id, i),
        ensures
            self.cache_view().contains_key(id),
            self.cache_view()[id] == self.cache@[i].doc as int,
    {
        assert(self.cache_view().dom().contains(id));
        let j = choose|j: int| self.entry_for(id, j);
        if j != i {
            if j < i {
                assert(self.cache@[j].id@ != self.cache@[i].id@);
            } else {
                assert(self.cache@[i].id@ != self.cache@[j].id@);
            }
        }
    }

    /// Looks `id` up in the cache. On a hit a fresh shared handle to the
    /// cached document is handed out (one more document share); on a miss
    /// nothing changes. The engine is never asked to parse here.
    pub fn open_with_id(&mut self, id: &String) -> (r: Option<Document>)
        requires
            old(self).wf(),
            !old(self).disposed(),
            old(self).cache_view().contains_key(id@) ==> old(self).docs_view()[old(
                self,
            ).cache_view()[id@]].doc_handles < u64::MAX as nat,
        ensures
            final(self).wf(),
            match r {
                Some(h) => {
                    &&& old(self).cache_view().contains_key(id@)
                    &&& h.doc_index() == old(self).cache_view()[id@]
                    &&& h.valid(*final(self))
                    &&& final(self).cache_view() == old(self).cache_view()
                    &&& final(self).disposed() == old(self).disposed()
                    &&& final(self).docs_view() == old(self).docs_view().update(
                        h.doc_index(),
                        (DocView {
                            doc_handles: old(self).docs_view()[h.doc_index()].doc_handles + 1,
                            ..old(self).docs_view()[h.doc_index()]
                        }),
                    )
                },
                None => {
                    &&& !old(self).cache_view().contains_key(id@)
                    &&& *final(self) == *old(self)
                },
            },
    {
        match self.find_entry(id) {
            None => {
                proof {
                    if self.cache_view().dom().contains(id@) {
                        let j = choose|j: int| self.entry_for(id@, j);
                        assert(self.cache@[j].id@ != id@);
                    }
                }
                None
            },
            Some(i) => {
                let d = self.cache[i].doc;
                proof {
                    self.lemma_entry_is_lookup(id@, i as int);
                }
                let slot = &mut self.docs[d];
                slot.doc_handles = slot.doc_handles + 1;
                proof {
                    lemma_views_agree(*old(self), *self);
                    assert(self.docs_view() =~= old(self).docs_view().update(
                        d as int,
                        (DocView {
                            doc_handles: old(self).docs_view()[d as int].doc_handles + 1,
                            ..old(self).docs_view()[d as int]
                        }),
                    ));
                }
                Some(Document { doc: d })
            },
        }
    }

    /// The document slots after the entry for `id`, if any, has lost its
    /// cache share: only that slot's `cached` flag flips, every handle count
    /// and every page size stays.
    pub open spec fn docs_view_displacing(self, id: Seq<char>) -> Seq<DocView> {
        if self.cache_view().contains_key(id) {
            self.docs_view().update(
                self.cache_view()[id],
                (DocView { cached: false, ..self.docs_view()[self.cache_view()[id]] }),
            )
        } else {
            self.docs_view()
        }
    }

    /// Finishes an `open` whose cache lookup missed, with what the engine's
    /// parse yielded. Absence (a parse failure) changes nothing and yields
    /// absence; a parsed document is stored in a fresh slot, the cache entry
    /// for `id` is made to point at it (displacing a raced-in entry, whose
    /// document keeps its handle shares but loses its cache share), and a
    /// handle to the fresh slot is handed out.
    pub fn open_parsed(&mut self, id: String, parsed: Option<Vec<Rect>>) -> (r: Option<Document>)
        requires
            old(self).wf(),
            !old(self).disposed(),
        ensures
            final(self).wf(),
            final(self).disposed() == old(self).disposed(),
            match (parsed, r) {
                (Some(sizes), Some(h)) => {
                    &&& h.doc_index() == old(self).docs_view().len()
                    &&& h.valid(*final(self))
                    &&& final(self).cache_view() == old(self).cache_view().insert(
                        id@,
                        h.doc_index(),
                    )
                    &&& final(self).docs_view() == old(self).docs_view_displacing(id@).push(
                        (DocView {
                            sizes: sizes@,
                            doc_handles: 1,
                            pages_handles: 0,
                            page_handles: 0,
                            cached: true,
                        }),
                    )
                },
                (None, None) => *final(self) == *old(self),
                _ => false,
            },
    {
        let parsed_sizes = match parsed {
            None => {
                return None;
            },
            Some(sizes) => sizes,
        };
        let ghost pre = *self;
        let d = self.docs.len();
        let fresh_slot = DocSlot {
            sizes: parsed_sizes,
            doc_handles: 1,
            pages_handles: 0,
            page_handles: 0,
            cached: true,
        };
        let ghost fresh_ghost = fresh_slot;
        match self.find_entry(&id) {
            Some(i) => {
                proof {
                    pre.lemma_entry_is_lookup(id@, i as int);
                    assert(pre.cache@[i as int].doc < pre.docs@.len());
                }
                let old_doc = self.cache[i].doc;
                let slot = &mut self.docs[old_doc];
                slot.cached = false;
                let ghost mid_docs = self.docs@;
                let entry = &mut self.cache[i];
                entry.doc = d;
                self.docs.push(fresh_slot);
                proof {
                    lemma_view_after_set(pre, *self, i as int, d);
                    lemma_docs_map_update(
                        pre.docs@,
                        old_doc as int,
                        (DocSlot { cached: false, ..pre.docs@[old_doc as int] }),
                    );
                    lemma_docs_map_push(mid_docs, fresh_ghost);
                    self.lemma_wf_after_install(pre, i as int, old_doc as int, d);
                }
                Some(Document { doc: d })
            },
            None => {
                proof {
                    if pre.cache_view().dom().contains(id@) {
                        let j = choose|j: int| pre.entry_for(id@, j);
                        assert(pre.cache@[j].id@ != id@);
                    }
                }
                let ghost mid_docs = self.docs@;
                self.cache.push(CacheEntry { id, doc: d });
                self.docs.push(fresh_slot);
                proof {
                    lemma_view_after_push(pre, *self, self.cache@.last());
                    lemma_docs_map_push(mid_docs, fresh_ghost);
                    self.lemma_wf_after_append(pre, d as int);
                }
                Some(Document { doc: d })
            },
        }
    }

    /// Well-formedness carries over to the state in which entry `i` was
    /// redirected to a fresh slot `d` and the displaced slot `od` lost its
    /// cached mark.
    proof fn lemma_wf_after_install(self, pre: Viewer, i: int, od: int, d: usize)
        requires
            pre.wf(),
            !pre.disposed,
            0 <= i < pre.cache@.len(),
            od == pre.cache@[i].doc as int,
            d as int == pre.docs@.len(),
            self.disposed == pre.disposed,
            self.cache@ == pre.cache@.update(i, (CacheEntry { id: pre.cache@[i].id, doc: d })),
            self.docs@.len() == pre.docs@.len() + 1,
            self.docs@.last().cached,
            forall|k: int| 0 <= k < pre.docs@.len() && k != od ==> self.docs@[k] == pre.docs@[k],
            self.docs@[od] == (DocSlot { cached: false, ..pre.docs@[od] }),
        ensures
            self.wf(),
    {
        assert(self.ids_unique()) by {
            assert(forall|j: int|
                0 <= j < self.cache@.len() ==> (#[trigger] self.cache@[j]).id@ == pre.cache@[j].id@);
        }
        assert forall|j1: int, j2: int|
            0 <= j1 < j2 < self.cache@.len() implies self.cache@[j1].doc != self.cache@[j2].doc by {
            if j1 != i && j2 != i {
                assert(pre.cache@[j1].doc != pre.cache@[j2].doc);
            } else if j1 == i {
                assert(pre.cache@[j2].doc < pre.docs@.len());
            } else {
                assert(pre.cache@[j1].doc < pre.docs@.len());
            }
        }
        assert forall|j: int|
            0 <= j < self.cache@.len() implies (#[trigger] self.cache@[j]).doc < self.docs@.len() by {
            if j != i {
                assert(pre.cache@[j].doc < pre.docs@.len());
            }
        }
        assert forall|j: int|
            0 <= j < self.cache@.len() implies self.docs@[(#[trigger] self.cache@[j]).doc as int].cached by {
            if j != i {
                if j < i {
                    assert(pre.cache@[j].doc != pre.cache@[i].doc);
                } else {
                    assert(pre.cache@[i].doc != pre.cache@[j].doc);
                }
                assert(pre.docs@[pre.cache@[j].doc as int].cached);
            }
        }
        assert forall|dd: int|
            0 <= dd < self.docs@.len() implies ((#[trigger] self.docs@[dd].cached) <==> exists|j: int|
                0 <= j < self.cache@.len() && (#[trigger] self.cache@[j]).doc as int == dd) by {
            if dd == d as int {
                assert(self.cache@[i].doc as int == dd);
            } else if dd == od {
                assert(!self.docs@[dd].cached);
                if exists|j: int|
                    0 <= j < self.cache@.len() && (#[trigger] self.cache@[j]).doc as int == dd {
                    let j = choose|j: int|
                        0 <= j < self.cache@.len() && (#[trigger] self.cache@[j]).doc as int == dd;
                    assert(j != i);
                    if j < i {
                        assert(pre.cache@[j].doc != pre.cache@[i].doc);
                    } else {
                        assert(pre.cache@[i].doc != pre.cache@[j].doc);
                    }
                    assert(false);
                }
            } else {
                assert(self.docs@[dd] == pre.docs@[dd]);
                if pre.docs@[dd].cached {
                    let j = choose|j: int|
                        0 <= j < pre.cache@.len() && (#[trigger] pre.cache@[j]).doc as int == dd;
                    assert(j != i);
                    assert(self.cache@[j].doc as int == dd);
                } else {
                    if exists|j: int|
                        0 <= j < self.cache@.len() && (#[trigger] self.cache@[j]).doc as int == dd {
                        let j = choose|j: int|
                            0 <= j < self.cache@.len() && (#[trigger] self.cache@[j]).doc as int
                                == dd;
                        assert(j != i);
                        assert(pre.cache@[j].doc as int == dd);
                        assert(false);
                    }
                }
            }
        }
    }

    /// Well-formedness carries over to the state in which a fresh entry was
    /// appended for a fresh slot `d`.
    proof fn lemma_wf_after_append(self, pre: Viewer, d: int)
        requires
            pre.wf(),
            !pre.disposed,
            d == pre.docs@.len(),
            self.disposed == pre.disposed,
            self.cache@.len() == pre.cache@.len() + 1,
            forall|j: int| 0 <= j < pre.cache@.len() ==> #[trigger] self.cache@[j] == pre.cache@[j],
            self.cache@.last().doc as int == d,
            forall|j: int| 0 <= j < pre.cache@.len() ==> pre.cache@[j].id@ != self.cache@.last().id@,
            self.docs@.len() == pre.docs@.len() + 1,
            forall|k: int| 0 <= k < pre.docs@.len() ==> #[trigger] self.docs@[k] == pre.docs@[k],
            self.docs@.last().cached,
        ensures
            self.wf(),
    {
        let n = pre.cache@.len() as int;
        assert(self.ids_unique());
        assert forall|j1: int, j2: int|
            0 <= j1 < j2 < self.cache@.len() implies self.cache@[j1].doc != self.cache@[j2].doc by {
            if j2 != n {
                assert(pre.cache@[j1].doc != pre.cache@[j2].doc);
            } else {
                assert(pre.cache@[j1].doc < pre.docs@.len());
            }
        }
        assert forall|j: int|
            0 <= j < self.cache@.len() implies (#[trigger] self.cache@[j]).doc < self.docs@.len() by {
            if j != n {
                assert(pre.cache@[j].doc < pre.docs@.len());
            }
        }
        assert forall|j: int|
            0 <= j < self.cache@.len() implies self.docs@[(#[trigger] self.cache@[j]).doc as int].cached by {
            if j != n {
                assert(pre.docs@[pre.cache@[j].doc as int].cached);
            }
        }
        assert forall|dd: int|
            0 <= dd < self.docs@.len() implies ((#[trigger] self.docs@[dd].cached) <==> exists|j: int|
                0 <= j < self.cache@.len() && (#[trigger] self.cache@[j]).doc as int == dd) by {
            if dd == d {
                assert(self.cache@[n].doc as int == dd);
            } else {
                assert(self.docs@[dd] == pre.docs@[dd]);
                if pre.docs@[dd].cached {
                    let j = choose|j: int|
                        0 <= j < pre.cache@.len() && (#[trigger] pre.cache@[j]).doc as int == dd;
                    assert(self.cache@[j].doc as int == dd);
                } else {
                    if exists|j: int|
                        0 <= j < self.cache@.len() && (#[trigger] self.cache@[j]).doc as int == dd {
                        let j = choose|j: int|
                            0 <= j < self.cache@.len() && (#[trigger] self.cache@[j]).doc as int
                                == dd;
                        assert(j != n);
                        assert(pre.cache@[j].doc as int == dd);
                        assert(false);
                    }
                }
            }
        }
    }

    /// Removes the cache entry for `id` if one exists and reports whether it
    /// did. The entry's document only loses its cache share: every handle
    /// already out keeps working, and nothing else changes. Absent entries
    /// make this a no-op, so a second close for the same id reports false.
    pub fn close(&mut self, id: &String) -> (r: bool)
        requires
            old(self).wf(),
            !old(self).disposed(),
        ensures
            final(self).wf(),
            final(self).disposed() == old(self).disposed(),
            r == old(self).cache_view().contains_key(id@),
            final(self).cache_view() == old(self).cache_view().remove(id@),
            final(self).docs_view() == old(self).docs_view_displacing(id@),
    {
        let ghost pre = *self;
        match self.find_entry(id) {
            None => {
                proof {
                    if pre.cache_view().dom().contains(id@) {
                        let j = choose|j: int| pre.entry_for(id@, j);
                        assert(pre.cache@[j].id@ != id@);
                    }
                    assert(pre.cache_view().remove(id@) =~= pre.cache_view());
                }
                false
            },
            Some(i) => {
                proof {
                    pre.lemma_entry_is_lookup(id@, i as int);
                    assert(pre.cache@[i as int].doc < pre.docs@.len());
                }
                let old_doc = self.cache[i].doc;
                let slot = &mut self.docs[old_doc];
                slot.cached = false;
                self.cache.remove(i);
                proof {
                    lemma_view_after_remove(pre, *self, i as int);
                    lemma_docs_map_update(
                        pre.docs@,
                        old_doc as int,
                        (DocSlot { cached: false, ..pre.docs@[old_doc as int] }),
                    );
                    self.lemma_wf_after_uncache(pre, i as int, old_doc as int);
                }
                true
            },
        }
    }

    /// Well-formedness carries over to the state in which entry `i` was
    /// removed and its slot `od` lost its cached mark.
    proof fn lemma_wf_after_uncache(self, pre: Viewer, i: int, od: int)
        requires
            pre.wf(),
            !pre.disposed,
            0 <= i < pre.cache@.len(),
            od == pre.cache@[i].doc as int,
            self.disposed == pre.disposed,
            self.cache@ == pre.cache@.remove(i),
            self.docs@ == pre.docs@.update(od, (DocSlot { cached: false, ..pre.docs@[od] })),
        ensures
            self.wf(),
    {
        let n = pre.cache@.len() as int;
        assert(forall|j: int| 0 <= j < i ==> (#[trigger] self.cache@[j]) == pre.cache@[j]);
        assert(forall|j: int| i <= j < n - 1 ==> (#[trigger] self.cache@[j]) == pre.cache@[j + 1]);
        assert forall|j1: int, j2: int|
            0 <= j1 < j2 < self.cache@.len() implies self.cache@[j1].id@ != self.cache@[j2].id@
                && self.cache@[j1].doc != self.cache@[j2].doc by {
            let p1 = if j1 < i { j1 } else { j1 + 1 };
            let p2 = if j2 < i { j2 } else { j2 + 1 };
            assert(pre.cache@[p1].id@ != pre.cache@[p2].id@);
            assert(pre.cache@[p1].doc != pre.cache@[p2].doc);
        }
        assert forall|j: int|
            0 <= j < self.cache@.len() implies (#[trigger] self.cache@[j]).doc < self.docs@.len()
                && self.docs@[self.cache@[j].doc as int].cached by {
            let p = if j < i { j } else { j + 1 };
            assert(pre.cache@[p].doc < pre.docs@.len());
            if p < i {
                assert(pre.cache@[p].doc != pre.cache@[i].doc);
            } else if p > i {
                assert(pre.cache@[i].doc != pre.cache@[p].doc);
            }
            assert(pre.docs@[pre.cache@[p].doc as int].cached);
        }
        assert forall|dd: int|
            0 <= dd < self.docs@.len() implies ((#[trigger] self.docs@[dd].cached) <==> exists|j: int|
                0 <= j < self.cache@.len() && (#[trigger] self.cache@[j]).doc as int == dd) by {
            if dd == od {
                assert(!self.docs@[dd].cached);
                if exists|j: int|
                    0 <= j < self.cache@.len() && (#[trigger] self.cache@[j]).doc as int == dd {
                    let j = choose|j: int|
                        0 <= j < self.cache@.len() && (#[trigger] self.cache@[j]).doc as int == dd;
                    let p = if j < i { j } else { j + 1 };
                    if p < i {
                        assert(pre.cache@[p].doc != pre.cache@[i].doc);
                    } else {
                        assert(pre.cache@[i].doc != pre.cache@[p].doc);
                    }
                    assert(false);
                }
            } else {
                assert(self.docs@[dd] == pre.docs@[dd]);
                if pre.docs@[dd].cached {
                    let j = choose|j: int|
                        0 <= j < pre.cache@.len() && (#[trigger] pre.cache@[j]).doc as int == dd;
                    assert(j != i);
                    let p = if j < i { j } else { j - 1 };
                    assert(self.cache@[p].doc as int == dd);
                } else {
                    if exists|j: int|
                        0 <= j < self.cache@.len() && (#[trigger] self.cache@[j]).doc as int == dd {
                        let j = choose|j: int|
                            0 <= j < self.cache@.len() && (#[trigger] self.cache@[j]).doc as int
                                == dd;
                        let p = if j < i { j } else { j + 1 };
                        assert(pre.cache@[p].doc as int == dd);
                        assert(false);
                    }
                }
            }
        }
    }
    /// Attempts the session's teardown. While any document, page-collection
    /// or page handle still holds a share, teardown is refused and nothing
    /// changes; once the last share is back, the cache is dropped, every
    /// slot is finalized and the engine may be released.
    pub fn dispose(&mut self) -> (r: bool)
        requires
            old(self).wf(),
        ensures
            final(self).wf(),
            r == !old(self).handles_outstanding(),
            !r ==> *final(self) == *old(self),
            r ==> {
                &&& final(self).disposed()
                &&& final(self).cache_view() == Map::<Seq<char>, int>::empty()
                &&& final(self).docs_view().len() == old(self).docs_view().len()
                &&& forall|dd: int|
                    0 <= dd < old(self).docs_view().len() ==> final(self).docs_view()[dd]
                        == (DocView { cached: false, ..old(self).docs_view()[dd] })
            },
    {
        let ghost pre = *self;
        let n = self.docs.len();
        let mut k: usize = 0;
        while k < n
            invariant
                pre == *old(self),
                pre.wf(),
                *self == pre,
                n == self.docs@.len(),
                k <= n,
                forall|d: int| 0 <= d < k ==> #[trigger] pre.handle_total_at(d) == 0,
            decreases n - k,
        {
            let s = &self.docs[k];
            if s.doc_handles > 0 || s.pages_handles > 0 || s.page_handles > 0 {
                proof {
                    assert(pre.handle_total_at(k as int) > 0);
                }
                return false;
            }
            k = k + 1;
        }
        let mut k2: usize = 0;
        while k2 < n
            invariant
                pre == *old(self),
                pre.wf(),
                forall|d: int| 0 <= d < n ==> #[trigger] pre.handle_total_at(d) == 0,
                self.cache@ == pre.cache@,
                self.disposed == pre.disposed,
                n == self.docs@.len(),
                n == pre.docs@.len(),
                k2 <= n,
                forall|d: int|
                    0 <= d < k2 ==> #[trigger] self.docs@[d] == (DocSlot {
                        cached: false,
                        ..pre.docs@[d]
                    }),
                forall|d: int| k2 <= d < n ==> #[trigger] self.docs@[d] == pre.docs@[d],
            decreases n - k2,
        {
            let slot = &mut self.docs[k2];
            slot.cached = false;
            k2 = k2 + 1;
        }
        self.cache = Vec::new();
        self.disposed = true;
        proof {
            assert(self.cache_view() =~= Map::<Seq<char>, int>::empty());
            assert forall|dd: int|
                0 <= dd < pre.docs@.len() implies self.docs_view()[dd] == (DocView {
                cached: false,
                ..pre.docs_view()[dd]
            }) by {
                assert(self.docs@[dd] == (DocSlot { cached: false, ..pre.docs@[dd] }));
            }
            assert(!self.handles_outstanding()) by {
                if self.handles_outstanding() {
                    let d = choose|d: int|
                        0 <= d < self.docs_view().len() && #[trigger] self.handle_total_at(d) > 0;
                    assert(pre.handle_total_at(d) == 0);
                    assert(false);
                }
            }
            assert(self.wf());
        }
        true
    }
}

/// Two states with the same cache entries have the same cache view, provided
/// the first is well formed (unique ids pin the looked-up entry down).
proof fn lemma_views_agree(a: Viewer, b: Viewer)
    requires
        a.wf(),
        a.cache@ == b.cache@,
    ensures
        a.cache_view() == b.cache_view(),
{
    assert forall|id: Seq<char>| #[trigger] a.cache_view().dom().contains(id) implies b
        .cache_view().dom().contains(id) by {
        let i = choose|i: int| a.entry_for(id, i);
        assert(b.entry_for(id, i));
    }
    assert forall|id: Seq<char>| #[trigger] b.cache_view().dom().contains(id) implies a
        .cache_view().dom().contains(id) by {
        let i = choose|i: int| b.entry_for(id, i);
        assert(a.entry_for(id, i));
    }
    assert forall|id: Seq<char>| a.cache_view().dom().contains(id) implies #[trigger] a
        .cache_view()[id] == b.cache_view()[id] by {
        let ia = choose|i: int| a.entry_for(id, i);
        let ib = choose|i: int| b.entry_for(id, i);
        assert(b.cache_view().dom().contains(id));
        assert(a.entry_for(id, ib));
        if ia != ib {
            if ia < ib {
                assert(a.cache@[ia].id@ != a.cache@[ib].id@);
            } else {
                assert(a.cache@[ib].id@ != a.cache@[ia].id@);
            }
        }
    }
    assert(a.cache_view() =~= b.cache_view());
}

/// A state change that touches only handle counts and cached flags of
/// existing slots, never the cache entries, preserves the invariant.
proof fn lemma_wf_counts_change(pre: Viewer, post: Viewer)
    requires
        pre.wf(),
        !pre.disposed,
        post.disposed == pre.disposed,
        post.cache@ == pre.cache@,
        post.docs@.len() == pre.docs@.len(),
        forall|k: int|
            0 <= k < pre.docs@.len() ==> (#[trigger] post.docs@[k]).cached == pre.docs@[k].cached,
    ensures
        post.wf(),
{
    assert forall|j: int|
        0 <= j < post.cache@.len() implies post.docs@[(#[trigger] post.cache@[j]).doc as int].cached by {
        assert(pre.docs@[(pre.cache@[j]).doc as int].cached);
    }
    assert forall|dd: int|
        0 <= dd < post.docs@.len() implies ((#[trigger] post.docs@[dd].cached) <==> exists|j: int|
            0 <= j < post.cache@.len() && (#[trigger] post.cache@[j]).doc as int == dd) by {
        assert(post.docs@[dd].cached == pre.docs@[dd].cached);
        assert(pre.docs@[dd].cached <==> exists|j: int|
            0 <= j < pre.cache@.len() && (#[trigger] pre.cache@[j]).doc as int == dd);
    }
}

/// Redirecting entry `i` to slot `d` (keeping its id) turns the cache view
/// into an insert for that id.
proof fn lemma_view_after_set(pre: Viewer, post: Viewer, i: int, d: usize)
    requires
        pre.ids_unique(),
        0 <= i < pre.cache@.len(),
        post.cache@ == pre.cache@.update(i, (CacheEntry { id: pre.cache@[i].id, doc: d })),
    ensures
        post.ids_unique(),
        post.cache_view() == pre.cache_view().insert(pre.cache@[i].id@, d as int),
{
    let id0 = pre.cache@[i].id@;
    assert(forall|j: int|
        0 <= j < post.cache@.len() ==> (#[trigger] post.cache@[j]).id@ == pre.cache@[j].id@);
    assert(post.ids_unique());
    let target = pre.cache_view().insert(id0, d as int);
    assert forall|k: Seq<char>| #[trigger] post.cache_view().dom().contains(k) implies target
        .dom().contains(k) && post.cache_view()[k] == target[k] by {
        let j = choose|j: int| post.entry_for(k, j);
        post.lemma_entry_is_lookup(k, j);
        if k == id0 {
            if j != i {
                if j < i {
                    assert(post.cache@[j].id@ != post.cache@[i].id@);
                } else {
                    assert(post.cache@[i].id@ != post.cache@[j].id@);
                }
            }
            assert(post.cache_view()[k] == d as int);
        } else {
            assert(j != i);
            assert(pre.entry_for(k, j));
            pre.lemma_entry_is_lookup(k, j);
        }
    }
    assert forall|k: Seq<char>| #[trigger] target.dom().contains(k) implies post
        .cache_view().dom().contains(k) by {
        if k == id0 {
            assert(post.entry_for(k, i));
        } else {
            let j = choose|j: int| pre.entry_for(k, j);
            assert(post.entry_for(k, j));
        }
    }
    assert(post.cache_view() =~= target);
}

/// Appending an entry with a fresh id turns the cache view into an insert.
proof fn lemma_view_after_push(pre: Viewer, post: Viewer, e: CacheEntry)
    requires
        pre.ids_unique(),
        forall|j: int| 0 <= j < pre.cache@.len() ==> pre.cache@[j].id@ != e.id@,
        post.cache@ == pre.cache@.push(e),
    ensures
        post.ids_unique(),
        post.cache_view() == pre.cache_view().insert(e.id@, e.doc as int),
{
    let n = pre.cache@.len() as int;
    assert(forall|j: int| 0 <= j < n ==> (#[trigger] post.cache@[j]) == pre.cache@[j]);
    assert(post.cache@[n] == e);
    assert(post.ids_unique());
    let target = pre.cache_view().insert(e.id@, e.doc as int);
    assert forall|k: Seq<char>| #[trigger] post.cache_view().dom().contains(k) implies target
        .dom().contains(k) && post.cache_view()[k] == target[k] by {
        let j = choose|j: int| post.entry_for(k, j);
        post.lemma_entry_is_lookup(k, j);
        if j == n {
            assert(k == e.id@);
        } else {
            assert(k != e.id@);
            assert(pre.entry_for(k, j));
            pre.lemma_entry_is_lookup(k, j);
        }
    }
    assert forall|k: Seq<char>| #[trigger] target.dom().contains(k) implies post
        .cache_view().dom().contains(k) by {
        if k == e.id@ {
            assert(post.entry_for(k, n));
        } else {
            let j = choose|j: int| pre.entry_for(k, j);
            assert(post.entry_for(k, j));
        }
    }
    assert(post.cache_view() =~= target);
}

/// Taking entry `i` out turns the cache view into a remove of its id.
proof fn lemma_view_after_remove(pre: Viewer, post: Viewer, i: int)
    requires
        pre.ids_unique(),
        0 <= i < pre.cache@.len(),
        post.cache@ == pre.cache@.remove(i),
    ensures
        post.ids_unique(),
        post.cache_view() == pre.cache_view().remove(pre.cache@[i].id@),
{
    let id0 = pre.cache@[i].id@;
    let n = pre.cache@.len() as int;
    assert(forall|j: int| 0 <= j < i ==> (#[trigger] post.cache@[j]) == pre.cache@[j]);
    assert(forall|j: int| i <= j < n - 1 ==> (#[trigger] post.cache@[j]) == pre.cache@[j + 1]);
    assert forall|j1: int, j2: int|
        0 <= j1 < j2 < post.cache@.len() implies post.cache@[j1].id@ != post.cache@[j2].id@ by {
        let p1 = if j1 < i { j1 } else { j1 + 1 };
        let p2 = if j2 < i { j2 } else { j2 + 1 };
        assert(pre.cache@[p1].id@ != pre.cache@[p2].id@);
    }
    let target = pre.cache_view().remove(id0);
    assert forall|k: Seq<char>| #[trigger] post.cache_view().dom().contains(k) implies target
        .dom().contains(k) && post.cache_view()[k] == target[k] by {
        let j = choose|j: int| post.entry_for(k, j);
        post.lemma_entry_is_lookup(k, j);
        let p = if j < i { j } else { j + 1 };
        assert(pre.entry_for(k, p));
        pre.lemma_entry_is_lookup(k, p);
        if k == id0 {
            if p < i {
                assert(pre.cache@[p].id@ != pre.cache@[i].id@);
            } else {
                assert(pre.cache@[i].id@ != pre.cache@[p].id@);
            }
        }
    }
    assert forall|k: Seq<char>| #[trigger] target.dom().contains(k) implies post
        .cache_view().dom().contains(k) by {
        let j = choose|j: int| pre.entry_for(k, j);
        if j != i {
            let p = if j < i { j } else { j - 1 };
            assert(post.entry_for(k, p));
        } else {
            assert(k == id0);
        }
    }
    assert(post.cache_view() =~= target);
}

impl Document {
    /// The document slot this handle shares.
    pub closed spec fn doc_index(self) -> int {
        self.doc as int
    }

    /// The slot index, for the host that keeps the engine's parsed value
    /// under the same index.
    pub fn slot(&self) -> (d: usize)
        ensures
            d as int == self.doc_index(),
    {
        self.doc
    }

    /// The handle is backed by a slot whose document-handle share count
    /// accounts for it.
    pub open spec fn valid(self, v: Viewer) -> bool {
        &&& 0 <= self.doc_index() < v.docs_view().len()
        &&& v.docs_view()[self.doc_index()].doc_handles > 0
    }

    /// Derives the page collection of this document: a fresh handle sharing
    /// the same slot, adding one page-collection share to it. No page is
    /// enumerated or loaded here.
    pub fn pages(&self, v: &mut Viewer) -> (p: Pages)
        requires
            old(v).wf(),
            !old(v).disposed(),
            self.valid(*old(v)),
            old(v).docs_view()[self.doc_index()].pages_handles < u64::MAX,
        ensures
            final(v).wf(),
            final(v).disposed() == old(v).disposed(),
            final(v).cache_view() == old(v).cache_view(),
            p.doc_index() == self.doc_index(),
            p.valid(*final(v)),
            self.valid(*final(v)),
            final(v).docs_view() == old(v).docs_view().update(
                self.doc_index(),
                (DocView {
                    pages_handles: old(v).docs_view()[self.doc_index()].pages_handles + 1,
                    ..old(v).docs_view()[self.doc_index()]
                }),
            ),
    {
        let ghost pre = *v;
        let d = self.doc;
        let slot = &mut v.docs[d];
        slot.pages_handles = slot.pages_handles + 1;
        proof {
            lemma_views_agree(pre, *v);
            lemma_docs_map_update(
                pre.docs@,
                d as int,
                (DocSlot {
                    pages_handles: (pre.docs@[d as int].pages_handles + 1) as u64,
                    ..pre.docs@[d as int]
                }),
            );
            lemma_wf_counts_change(pre, *v);
        }
        Pages { doc: d }
    }

    /// Duplicates this handle: a cheap shared-ownership copy referring to the
    /// same slot, adding one document share.
    pub fn duplicate(&self, v: &mut Viewer) -> (h: Document)
        requires
            old(v).wf(),
            !old(v).disposed(),
            self.valid(*old(v)),
            old(v).docs_view()[self.doc_index()].doc_handles < u64::MAX,
        ensures
            final(v).wf(),
            final(v).disposed() == old(v).disposed(),
            final(v).cache_view() == old(v).cache_view(),
            h.doc_index() == self.doc_index(),
            h.valid(*final(v)),
            final(v).docs_view() == old(v).docs_view().update(
                self.doc_index(),
                (DocView {
                    doc_handles: old(v).docs_view()[self.doc_index()].doc_handles + 1,
                    ..old(v).docs_view()[self.doc_index()]
                }),
            ),
    {
        let ghost pre = *v;
        let d = self.doc;
        let slot = &mut v.docs[d];
        slot.doc_handles = slot.doc_handles + 1;
        proof {
            lemma_views_agree(pre, *v);
            lemma_docs_map_update(
                pre.docs@,
                d as int,
                (DocSlot {
                    doc_handles: (pre.docs@[d as int].doc_handles + 1) as u64,
                    ..pre.docs@[d as int]
                }),
            );
            lemma_wf_counts_change(pre, *v);
        }
        Document { doc: d }
    }

    /// Gives this handle's share back. The host's drop of a document handle
    /// reports here; the slot outlives it while other shares remain.
    pub fn release(self, v: &mut Viewer)
        requires
            old(v).wf(),
            !old(v).disposed(),
            self.valid(*old(v)),
        ensures
            final(v).wf(),
            final(v).disposed() == old(v).disposed(),
            final(v).cache_view() == old(v).cache_view(),
            final(v).docs_view() == old(v).docs_view().update(
                self.doc_index(),
                (DocView {
                    doc_handles: (old(v).docs_view()[self.doc_index()].doc_handles - 1) as nat,
                    ..old(v).docs_view()[self.doc_index()]
                }),
            ),
    {
        let ghost pre = *v;
        let d = self.doc;
        let slot = &mut v.docs[d];
        slot.doc_handles = slot.doc_handles - 1;
        proof {
            lemma_views_agree(pre, *v);
            lemma_docs_map_update(
                pre.docs@,
                d as int,
                (DocSlot {
                    doc_handles: (pre.docs@[d as int].doc_handles - 1) as u64,
                    ..pre.docs@[d as int]
                }),
            );
            lemma_wf_counts_change(pre, *v);
        }
    }
}

impl Pages {
    /// The document slot this collection shares.
    pub closed spec fn doc_index(self) -> int {
        self.doc as int
    }

    /// The slot index, for the host that keeps the engine's parsed value
    /// under the same index.
    pub fn slot(&self) -> (d: usize)
        ensures
            d as int == self.doc_index(),
    {
        self.doc
    }

    /// The handle is backed by a slot whose page-collection share count
    /// accounts for it.
    pub open spec fn valid(self, v: Viewer) -> bool {
        &&& 0 <= self.doc_index() < v.docs_view().len()
        &&& v.docs_view()[self.doc_index()].pages_handles > 0
    }

    /// How many pages the document has.
    pub fn count(&self, v: &Viewer) -> (n: usize)
        requires
            self.valid(*v),
        ensures
            n == v.docs_view()[self.doc_index()].sizes.len(),
    {
        v.docs[self.doc].sizes.len()
    }

    /// Resolves a zero-based index to a page handle. Negative indices and
    /// indices at or past the page count fail without touching anything;
    /// an index in range always yields a fresh, independently valid handle,
    /// adding one page share to the slot.
    pub fn page_at(&self, v: &mut Viewer, index: i64) -> (r: Result<Page, PdfError>)
        requires
            old(v).wf(),
            !old(v).disposed(),
            self.valid(*old(v)),
            old(v).docs_view()[self.doc_index()].page_handles < u64::MAX,
        ensures
            final(v).wf(),
            final(v).disposed() == old(v).disposed(),
            final(v).cache_view() == old(v).cache_view(),
            self.valid(*final(v)),
            match r {
                Ok(p) => {
                    &&& 0 <= index < old(v).docs_view()[self.doc_index()].sizes.len()
                    &&& p.doc_index() == self.doc_index()
                    &&& p.page_index() == index
                    &&& p.valid(*final(v))
                    &&& final(v).docs_view() == old(v).docs_view().update(
                        self.doc_index(),
                        (DocView {
                            page_handles: old(v).docs_view()[self.doc_index()].page_handles + 1,
                            ..old(v).docs_view()[self.doc_index()]
                        }),
                    )
                },
                Err(e) => {
                    &&& !(0 <= index < old(v).docs_view()[self.doc_index()].sizes.len())
                    &&& e == PdfError::IndexOutOfBounds
                    &&& *final(v) == *old(v)
                },
            },
    {
        let d = self.doc;
        if index < 0 {
            return Err(PdfError::IndexOutOfBounds);
        }
        let n = v.docs[d].sizes.len();
        if (index as u64) >= (n as u64) {
            return Err(PdfError::IndexOutOfBounds);
        }
        let ghost pre = *v;
        let idx = index as usize;
        let slot = &mut v.docs[d];
        slot.page_handles = slot.page_handles + 1;
        proof {
            lemma_views_agree(pre, *v);
            lemma_docs_map_update(
                pre.docs@,
                d as int,
                (DocSlot {
                    page_handles: (pre.docs@[d as int].page_handles + 1) as u64,
                    ..pre.docs@[d as int]
                }),
            );
            lemma_wf_counts_change(pre, *v);
        }
        Ok(Page { doc: d, index: idx })
    }

    /// Gives this collection's share back.
    pub fn release(self, v: &mut Viewer)
        requires
            old(v).wf(),
            !old(v).disposed(),
            self.valid(*old(v)),
        ensures
            final(v).wf(),
            final(v).disposed() == old(v).disposed(),
            final(v).cache_view() == old(v).cache_view(),
            final(v).docs_view() == old(v).docs_view().update(
                self.doc_index(),
                (DocView {
                    pages_handles: (old(v).docs_view()[self.doc_index()].pages_handles - 1) as nat,
                    ..old(v).docs_view()[self.doc_index()]
                }),
            ),
    {
        let ghost pre = *v;
        let d = self.doc;
        let slot = &mut v.docs[d];
        slot.pages_handles = slot.pages_handles - 1;
        proof {
            lemma_views_agree(pre, *v);
            lemma_docs_map_update(
                pre.docs@,
                d as int,
                (DocSlot {
                    pages_handles: (pre.docs@[d as int].pages_handles - 1) as u64,
                    ..pre.docs@[d as int]
                }),
            );
            lemma_wf_counts_change(pre, *v);
        }
    }
}

impl Page {
    /// The document slot this page shares.
    pub closed spec fn doc_index(self) -> int {
        self.doc as int
    }

    /// The page's zero-based position in its document.
    pub closed spec fn page_index(self) -> int {
        self.index as int
    }

    /// The slot index, for the host that keeps the engine's parsed value
    /// under the same index.
    pub fn slot(&self) -> (d: usize)
        ensures
            d as int == self.doc_index(),
    {
        self.doc
    }

    /// The zero-based page number, for the host that must ask the engine
    /// about this very page.
    pub fn number(&self) -> (i: usize)
        ensures
            i as int == self.page_index(),
    {
        self.index
    }

    /// The handle is backed by a slot whose page share count accounts for
    /// it, at a position the document really has.
    pub open spec fn valid(self, v: Viewer) -> bool {
        &&& 0 <= self.doc_index() < v.docs_view().len()
        &&& v.docs_view()[self.doc_index()].page_handles > 0
        &&& 0 <= self.page_index() < v.docs_view()[self.doc_index()].sizes.len()
    }

    /// The page's logical extent, as the engine reported it when the
    /// document was parsed. Always succeeds on a live handle.
    pub fn rect(&self, v: &Viewer) -> (rect: Rect)
        requires
            self.valid(*v),
        ensures
            rect == v.docs_view()[self.doc_index()].sizes[self.page_index()],
    {
        v.docs[self.doc].sizes[self.index]
    }

    /// Normalizes what the engine rasterized for this page to tightly packed
    /// 8-bit red-green-blue-alpha samples. The engine's failure (absence) and
    /// a buffer that is not exactly four bytes per requested pixel yield
    /// absence; otherwise the result is the red/blue-swapped buffer, a
    /// function of the engine's bytes and the requested extent alone.
    pub fn render(&self, v: &Viewer, width: u32, height: u32, native: Option<Vec<u8>>) -> (r:
        Option<Vec<u8>>)
        requires
            self.valid(*v),
        ensures
            r.deep_view() == render_result(native.deep_view(), width as int, height as int),
    {
        let b = match native {
            None => {
                return None;
            },
            Some(b) => b,
        };
        proof {
            let w = width as int;
            let h = height as int;
            assert(0 <= 4 * w * h < 0x40000000000000000) by (nonlinear_arith)
                requires
                    0 <= w < 0x100000000 && 0 <= h < 0x100000000,
            ;
        }
        let expected: u128 = 4u128 * (width as u128) * (height as u128);
        if (b.len() as u128) == expected {
            proof {
                let m: int = b@.len() as int;
                let w = width as int;
                let h = height as int;
                assert(m == 4 * w * h);
                assert(4 * w * h == (w * h) * 4) by (nonlinear_arith);
                vstd::arithmetic::div_mod::lemma_mod_multiples_basic(w * h, 4);
                assert(m % 4 == 0);
            }
            Some(bgra_to_rgba(&b))
        } else {
            None
        }
    }

    /// Gives this page's share back.
    pub fn release(self, v: &mut Viewer)
        requires
            old(v).wf(),
            !old(v).disposed(),
            self.valid(*old(v)),
        ensures
            final(v).wf(),
            final(v).disposed() == old(v).disposed(),
            final(v).cache_view() == old(v).cache_view(),
            final(v).docs_view() == old(v).docs_view().update(
                self.doc_index(),
                (DocView {
                    page_handles: (old(v).docs_view()[self.doc_index()].page_handles - 1) as nat,
                    ..old(v).docs_view()[self.doc_index()]
                }),
            ),
    {
        let ghost pre = *v;
        let d = self.doc;
        let slot = &mut v.docs[d];
        slot.page_handles = slot.page_handles - 1;
        proof {
            lemma_views_agree(pre, *v);
            lemma_docs_map_update(
                pre.docs@,
                d as int,
                (DocSlot {
                    page_handles: (pre.docs@[d as int].page_handles - 1) as u64,
                    ..pre.docs@[d as int]
                }),
            );
            lemma_wf_counts_change(pre, *v);
        }
    }
}

/// Cache identity. Once an `open` has installed a document `d` under `id`
/// (the `open_parsed` step of a miss), the cache maps `id` to `d`; by
/// `open_with_id`'s contract a later `open` for `id` therefore takes the
/// cache branch and hands out a handle to that very document, and the engine
/// is not asked to parse a second time for that id — whatever bytes the
/// second call carries.
pub proof fn lemma_cache_identity(pre: Viewer, post: Viewer, id: Seq<char>, d: int)
    requires
        post.cache_view() == pre.cache_view().insert(id, d),
    ensures
        post.cache_view().contains_key(id),
        post.cache_view()[id] == d,
{
}

/// Idempotent close. Closing an id removes exactly that cache entry and
/// reports whether one existed, so a close on an absent id reports false,
/// a second close right after a first one reports false and changes nothing
/// further.
pub proof fn lemma_close_idempotent(
    v0: Viewer,
    v1: Viewer,
    v2: Viewer,
    id: Seq<char>,
    r1: bool,
    r2: bool,
)
    requires
        r1 == v0.cache_view().contains_key(id),
        v1.cache_view() == v0.cache_view().remove(id),
        r2 == v1.cache_view().contains_key(id),
        v2.cache_view() == v1.cache_view().remove(id),
    ensures
        !r2,
        v2.cache_view() == v1.cache_view(),
{
    assert(!v1.cache_view().contains_key(id));
    assert(v2.cache_view() =~= v1.cache_view());
}

/// Lifetime containment. While any handle derived from the session still
/// holds a share of some document slot, shares are outstanding and the
/// session is not disposed; by `dispose`'s contract a teardown attempt in
/// such a state is refused and changes nothing, so every held handle keeps
/// satisfying its operations' preconditions. Only after the last share is
/// released may the session's resources be reclaimed.
pub proof fn lemma_lifetime_containment(v: Viewer, d: int)
    requires
        v.wf(),
        0 <= d < v.docs_view().len(),
        v.handle_total_at(d) > 0,
    ensures
        v.handles_outstanding(),
        !v.disposed(),
{
    if v.disposed() {
        assert(!v.handles_outstanding());
        assert(false);
    }
}

/// A held page handle is itself the proof that its ancestors are still
/// valid: the document slot it derives from is present with a nonzero share
/// count, so the session has not been disposed and cannot be until the
/// handle's share is released.
pub proof fn lemma_page_keeps_ancestors(v: Viewer, p: Page)
    requires
        v.wf(),
        p.valid(v),
    ensures
        v.handle_total_at(p.doc_index()) > 0,
        v.handles_outstanding(),
        !v.disposed(),
{
    lemma_lifetime_containment(v, p.doc_index());
}

} // verus!
