//! The files a client has open, by the id each was handed out under.

use vstd::prelude::*;

use crate::message::FileId;

verus! {

/// One open file: its name, whether it has been written, and whether it is to
/// be removed when it closes.
pub struct Open {
    pub name: String,
    pub written: bool,
    pub delete_on_close: bool,
}

/// What an [`Open`] says, as a mathematical value.
#[verifier::ext_equal]
pub struct OpenView {
    pub name: Seq<char>,
    pub written: bool,
    pub delete_on_close: bool,
}

impl View for Open {
    type V = OpenView;

    open spec fn view(&self) -> OpenView {
        OpenView {
            name: self.name@,
            written: self.written,
            delete_on_close: self.delete_on_close,
        }
    }
}

struct Handle {
    id: FileId,
    open: Open,
}

/// Open files by id, no two under the same id.
pub struct Handles {
    entries: Vec<Handle>,
}

impl View for Handles {
    type V = Map<Seq<u8>, OpenView>;

    closed spec fn view(&self) -> Map<Seq<u8>, OpenView> {
        Map::new(
            |id: Seq<u8>| self.ids().contains(id),
            |id: Seq<u8>| self.entries@[self.ids().index_of(id)].open@,
        )
    }
}

impl Handles {
    closed spec fn ids(&self) -> Seq<Seq<u8>> {
        Seq::new(self.entries@.len(), |i: int| self.entries@[i].id@)
    }

    /// No id is handed out twice.
    pub closed spec fn wf(&self) -> bool {
        self.ids().no_duplicates()
    }

    proof fn lemma_entries(&self)
        requires
            self.wf(),
        ensures
            forall|i: int|
                0 <= i < self.entries@.len() ==> self@.dom().contains(
                    (#[trigger] self.entries@[i]).id@,
                ) && self@[self.entries@[i].id@] == self.entries@[i].open@,
    {
        let ids = self.ids();
        assert forall|i: int| 0 <= i < self.entries@.len() implies self@.dom().contains(
            (#[trigger] self.entries@[i]).id@,
        ) && self@[self.entries@[i].id@] == self.entries@[i].open@ by {
            assert(ids[i] == self.entries@[i].id@);
            assert(ids.contains(ids[i]));
            let k = ids.index_of(ids[i]);
            assert(ids[k] == ids[i]);
        }
    }

    /// Nothing open.
    pub fn new() -> (handles: Self)
        ensures
            handles.wf(),
            handles@ == Map::<Seq<u8>, OpenView>::empty(),
    {
        let handles = Handles { entries: Vec::new() };
        assert(handles@ =~= Map::<Seq<u8>, OpenView>::empty());
        handles
    }

    fn find(&self, id: &FileId) -> (at: Option<usize>)
        requires
            self.wf(),
        ensures
            match at {
                Some(at) => at < self.entries@.len() && self.entries@[at as int].id@ == id@,
                None => !self@.dom().contains(id@),
            },
    {
        let mut at: usize = 0;
        while at < self.entries.len()
            invariant
                at <= self.entries@.len(),
                forall|i: int| 0 <= i < at ==> self.ids()[i] != id@,
            decreases self.entries@.len() - at,
        {
            if self.entries[at].id.same(id) {
                return Some(at);
            }
            at = at + 1;
        }
        None
    }

    /// The file open under `id`, if there is one.
    pub fn get(&self, id: &FileId) -> (open: Option<&Open>)
        requires
            self.wf(),
        ensures
            match open {
                Some(open) => self@.dom().contains(id@) && open@ == self@[id@],
                None => !self@.dom().contains(id@),
            },
    {
        proof {
            self.lemma_entries();
        }
        match self.find(id) {
            Some(at) => Some(&self.entries[at].open),
            None => None,
        }
    }

    /// Hand out `id` for `open`.
    pub fn insert(&mut self, id: FileId, open: Open)
        requires
            old(self).wf(),
            !old(self)@.dom().contains(id@),
        ensures
            final(self).wf(),
            final(self)@ == old(self)@.insert(id@, open@),
    {
        let ghost before = self.entries@;
        let ghost content = open@;
        proof {
            self.lemma_entries();
        }
        self.entries.push(Handle { id, open });
        proof {
            let last = before.len() as int;
            assert(self.ids() =~= old(self).ids().push(id@));
            assert forall|i: int| 0 <= i < last implies before[i].id@ != id@ by {
                assert(old(self)@.dom().contains(before[i].id@));
            }
            assert(self.wf());
            self.lemma_entries();
            let model = old(self)@.insert(id@, content);
            assert forall|k: Seq<u8>| self@.dom().contains(k) == model.dom().contains(k) by {
                if self@.dom().contains(k) {
                    let i = choose|i: int| 0 <= i < self.ids().len() && self.ids()[i] == k;
                    assert(self.entries@[i].id@ == k);
                    if i < last {
                        assert(before[i].id@ == k);
                    }
                }
                if old(self)@.dom().contains(k) {
                    let i = choose|i: int| 0 <= i < old(self).ids().len() && old(self).ids()[i] == k;
                    assert(self.entries@[i].id@ == k);
                }
                assert(self.entries@[last].id@ == id@);
            }
            assert forall|k: Seq<u8>| self@.dom().contains(k) implies self@[k] == model[k] by {
                let i = choose|i: int| 0 <= i < self.ids().len() && self.ids()[i] == k;
                assert(self.entries@[i].id@ == k);
                if i < last {
                    assert(before[i].id@ == k);
                } else {
                    assert(self.entries@[last].open@ == content);
                }
            }
            assert(self@ =~= model);
        }
    }

    /// Remember that the file open under `id` has been written.
    pub fn mark_written(&mut self, id: &FileId)
        requires
            old(self).wf(),
            old(self)@.dom().contains(id@),
        ensures
            final(self).wf(),
            final(self)@ == old(self)@.insert(
                id@,
                (OpenView { written: true, ..old(self)@[id@] }),
            ),
    {
        let ghost before = self.entries@;
        proof {
            self.lemma_entries();
        }
        if let Some(at) = self.find(id) {
            let entry = self.entries.remove(at);
            let ghost middle = self.entries@;
            let open = Open {
                name: entry.open.name,
                written: true,
                delete_on_close: entry.open.delete_on_close,
            };
            let ghost content = open@;
            self.entries.insert(at, Handle { id: entry.id, open });
            proof {
                assert(self.ids() =~= old(self).ids());
                self.lemma_entries();
                let model = old(self)@.insert(id@, content);
                assert forall|i: int| 0 <= i < before.len() && i != at implies #[trigger] before[i]
                    == self.entries@[i] by {}
                assert(self.entries@[at as int].open@ == content);
                assert(self@.dom() =~= old(self)@.dom());
                assert(old(self)@.dom().contains(before[at as int].id@));
                assert(model.dom() =~= old(self)@.dom());
                assert forall|k: Seq<u8>| self@.dom().contains(k) implies self@[k] == model[k] by {
                    let i = choose|i: int| 0 <= i < self.ids().len() && self.ids()[i] == k;
                    assert(self.entries@[i].id@ == k);
                    assert(before[i].id@ == old(self).ids()[i]);
                    if i != at {
                        assert(old(self).ids()[i] != old(self).ids()[at as int]);
                    }
                }
                assert(self@ =~= model);
            }
        }
    }

    /// Close `id`: the file that was open under it, if there was one.
    pub fn remove(&mut self, id: &FileId) -> (open: Option<Open>)
        requires
            old(self).wf(),
        ensures
            final(self).wf(),
            final(self)@ == old(self)@.remove(id@),
            match open {
                Some(open) => old(self)@.dom().contains(id@) && open@ == old(self)@[id@],
                None => !old(self)@.dom().contains(id@),
            },
    {
        let ghost before = self.entries@;
        proof {
            self.lemma_entries();
        }
        match self.find(id) {
            Some(at) => {
                let entry = self.entries.remove(at);
                proof {
                    assert(self.ids() =~= old(self).ids().remove(at as int));
                    self.lemma_entries();
                    let model = old(self)@.remove(id@);
                    assert forall|k: Seq<u8>| self@.dom().contains(k) == model.dom().contains(k) by {
                        if self@.dom().contains(k) {
                            let i = choose|i: int| 0 <= i < self.ids().len() && self.ids()[i] == k;
                            let j = if i < at { i } else { i + 1 };
                            assert(before[j].id@ == k);
                            assert(old(self).ids()[j] != old(self).ids()[at as int]);
                        }
                        if model.dom().contains(k) {
                            let j = choose|j: int|
                                0 <= j < old(self).ids().len() && old(self).ids()[j] == k;
                            let i = if j < at { j } else { j - 1 };
                            assert(j != at);
                            assert(self.entries@[i].id@ == k);
                        }
                    }
                    assert forall|k: Seq<u8>| self@.dom().contains(k) implies self@[k] == model[k] by {
                        let i = choose|i: int| 0 <= i < self.ids().len() && self.ids()[i] == k;
                        let j = if i < at { i } else { i + 1 };
                        assert(model.dom().contains(k));
                        assert(self.entries@[i].id@ == k);
                        assert(before[j].id@ == k);
                    }
                    assert(self@ =~= model);
                }
                Some(entry.open)
            },
            None => {
                assert(self@.remove(id@) =~= self@);
                None
            },
        }
    }
}

} // verus!
