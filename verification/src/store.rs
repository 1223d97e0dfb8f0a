//! What is kept between operations: the wills, the index from recipients to
//! owners, and the administrator.

use crate::index::{dismissed, enrolled, other_than, IndexView};
use crate::model::StoreView;
use crate::state::{State, Will, WillView};
use crate::table::Table;
use vstd::prelude::*;

verus! {

/// Copies a list of texts.
pub fn clone_texts(texts: &Vec<String>) -> (res: Vec<String>)
    ensures
        res.deep_view() == texts.deep_view(),
{
    let mut res: Vec<String> = Vec::new();
    let mut i: usize = 0;
    while i < texts.len()
        invariant
            i <= texts.len(),
            res.len() == i,
            forall|j: int| 0 <= j < i ==> res[j]@ == texts[j]@,
        decreases texts.len() - i,
    {
        res.push(texts[i].clone());
        i += 1;
    }
    assert(res.deep_view() =~= texts.deep_view());
    res
}

/// The will of each owner that has one.
#[derive(Debug, Clone, PartialEq, Eq)]
pub struct WillStore {
    table: Table<Will>,
}

impl View for WillStore {
    type V = Map<Seq<char>, WillView>;

    closed spec fn view(&self) -> Map<Seq<char>, WillView> {
        self.table.map().map_values(|will: Will| will@)
    }
}

impl WillStore {
    /// Every will is kept once, under its owner, and is well formed.
    pub closed spec fn wf(&self) -> bool {
        &&& self.table.wf()
        &&& forall|owner: Seq<char>| #[trigger]
            self.table.map().contains_key(owner) ==> self.table.map()[owner]@.wf()
                && self.table.map()[owner]@.owner == owner
    }

    /// What well-formedness means for the wills as a map.
    pub proof fn lemma_wf(&self)
        requires
            self.wf(),
        ensures
            forall|owner: Seq<char>| #[trigger]
                self@.contains_key(owner) ==> self@[owner].wf() && self@[owner].owner == owner,
    {
    }

    /// The store without wills.
    pub fn new() -> (res: WillStore)
        ensures
            res.wf(),
            res@ == Map::<Seq<char>, WillView>::empty(),
    {
        let res = WillStore { table: Table::new() };
        assert(res@ =~= Map::<Seq<char>, WillView>::empty());
        res
    }

    /// Whether `owner` has a will.
    pub fn contains(&self, owner: &String) -> (res: bool)
        requires
            self.wf(),
        ensures
            res == self@.contains_key(owner@),
    {
        self.table.contains(owner)
    }

    /// A copy of the will of `owner`, if there is one.
    pub fn load(&self, owner: &String) -> (res: Option<Will>)
        requires
            self.wf(),
        ensures
            res is Some == self@.contains_key(owner@),
            res is Some ==> res->Some_0@ == self@[owner@],
    {
        match self.table.get(owner) {
            Some(will) => Some(will.clone()),
            None => None,
        }
    }

    /// A copy of the will of `owner`; where there is none, a fresh will,
    /// alive since `now` and to be renewed within `default_interval`.
    pub fn load_or_default(&self, owner: &String, now: u64, default_interval: u128) -> (res: Will)
        requires
            self.wf(),
        ensures
            res@ == if self@.contains_key(owner@) {
                self@[owner@]
            } else {
                WillView::fresh(owner@, now as nat, default_interval as nat)
            },
            res@.wf(),
            res@.owner == owner@,
    {
        match self.table.get(owner) {
            Some(will) => will.clone(),
            None => Will::fresh(owner.clone(), now, default_interval),
        }
    }

    /// Keeps `will` under its owner, in place of the will that the owner had.
    pub fn save(&mut self, will: Will)
        requires
            old(self).wf(),
            will@.wf(),
        ensures
            final(self).wf(),
            final(self)@ == old(self)@.insert(will@.owner, will@),
    {
        let key = will.owner.clone();
        self.table.insert(key, will);
        assert(self@ =~= old(self)@.insert(will@.owner, will@));
    }

    /// Deletes the will of `owner`.
    pub fn delete(&mut self, owner: &String)
        requires
            old(self).wf(),
        ensures
            final(self).wf(),
            final(self)@ == old(self)@.remove(owner@),
    {
        let _ = self.table.remove(owner);
        assert(self@ =~= old(self)@.remove(owner@));
    }

    /// The owners that have a will, each once.
    pub fn owners(&self) -> (res: Vec<String>)
        requires
            self.wf(),
        ensures
            res.deep_view().no_duplicates(),
            forall|owner: Seq<char>| res.deep_view().contains(owner) == self@.contains_key(owner),
    {
        self.table.keys()
    }
}

/// For each recipient that has an entry, the owners whose wills name it.
#[derive(Debug, Clone, PartialEq, Eq)]
pub struct MembershipIndex {
    table: Table<Vec<String>>,
}

impl View for MembershipIndex {
    type V = IndexView;

    closed spec fn view(&self) -> IndexView {
        self.table.map().map_values(|owners: Vec<String>| owners.deep_view())
    }
}

impl MembershipIndex {
    /// Every recipient has at most one entry.
    pub closed spec fn wf(&self) -> bool {
        self.table.wf()
    }

    /// The index without entries.
    pub fn new() -> (res: MembershipIndex)
        ensures
            res.wf(),
            res@ == IndexView::empty(),
    {
        let res = MembershipIndex { table: Table::new() };
        assert(res@ =~= IndexView::empty());
        res
    }

    /// A copy of the entry of `recipient`, if there is one.
    pub fn load(&self, recipient: &String) -> (res: Option<Vec<String>>)
        requires
            self.wf(),
        ensures
            res is Some == self@.contains_key(recipient@),
            res is Some ==> res->Some_0.deep_view() == self@[recipient@],
    {
        match self.table.get(recipient) {
            Some(owners) => Some(clone_texts(owners)),
            None => None,
        }
    }

    /// Keeps `owners` as the entry of `recipient`.
    pub fn save(&mut self, recipient: String, owners: Vec<String>)
        requires
            old(self).wf(),
        ensures
            final(self).wf(),
            final(self)@ == old(self)@.insert(recipient@, owners.deep_view()),
    {
        self.table.insert(recipient, owners);
        assert(self@ =~= old(self)@.insert(recipient@, owners.deep_view()));
    }

    /// Enters `owner` under `recipient`.
    pub fn enroll(&mut self, recipient: &String, owner: &String)
        requires
            old(self).wf(),
        ensures
            final(self).wf(),
            final(self)@ == enrolled(old(self)@, recipient@, owner@),
    {
        let mut owners = match self.load(recipient) {
            Some(owners) => owners,
            None => {
                let owners: Vec<String> = Vec::new();
                assert(owners.deep_view() =~= Seq::<Seq<char>>::empty());
                owners
            },
        };
        let ghost before = owners.deep_view();
        owners.push(owner.clone());
        assert(owners.deep_view() =~= before.push(owner@));
        assert(Seq::<Seq<char>>::empty().push(owner@) =~= seq![owner@]);
        self.save(recipient.clone(), owners);
    }

    /// Strikes `owner` from the entry of `recipient`, which is created empty
    /// where there was none.
    pub fn dismiss(&mut self, recipient: &String, owner: &String)
        requires
            old(self).wf(),
        ensures
            final(self).wf(),
            final(self)@ == dismissed(old(self)@, recipient@, owner@),
    {
        let kept = match self.table.get(recipient) {
            Some(owners) => {
                let ghost all = owners.deep_view();
                let mut kept: Vec<String> = Vec::new();
                let mut i: usize = 0;
                proof {
                    assert(all.take(0) =~= Seq::<Seq<char>>::empty());
                    reveal(Seq::filter);
                    assert(kept.deep_view() =~= all.take(0).filter(other_than(owner@)));
                }
                while i < owners.len()
                    invariant
                        i <= owners.len(),
                        all == owners.deep_view(),
                        kept.deep_view() == all.take(i as int).filter(other_than(owner@)),
                    decreases owners.len() - i,
                {
                    let ghost before = kept.deep_view();
                    proof {
                        assert(all.take(i as int + 1) =~= all.take(i as int).push(all[i as int]));
                        all.take(i as int).lemma_filter_push(all[i as int], other_than(owner@));
                    }
                    if owners[i] != *owner {
                        kept.push(owners[i].clone());
                        assert(kept.deep_view() =~= before.push(all[i as int]));
                    }
                    i += 1;
                }
                assert(all.take(owners.len() as int) =~= all);
                kept
            },
            None => {
                let kept: Vec<String> = Vec::new();
                assert(kept.deep_view() =~= Seq::<Seq<char>>::empty());
                kept
            },
        };
        self.save(recipient.clone(), kept);
    }

    /// The recipients that have an entry, each once.
    pub fn recipients(&self) -> (res: Vec<String>)
        requires
            self.wf(),
        ensures
            res.deep_view().no_duplicates(),
            forall|recipient: Seq<char>|
                res.deep_view().contains(recipient) == self@.contains_key(recipient),
    {
        self.table.keys()
    }
}

/// The state of the engine.
#[derive(Debug, Clone, PartialEq, Eq)]
pub struct Store {
    pub wills: WillStore,
    pub memberships: MembershipIndex,
    pub state: Option<State>,
}

impl View for Store {
    type V = StoreView;

    open spec fn view(&self) -> StoreView {
        StoreView {
            wills: self.wills@,
            memberships: self.memberships@,
            admin: match self.state {
                Some(state) => Some(state@),
                None => None,
            },
        }
    }
}

impl Store {
    /// Both tables are well formed.
    pub open spec fn wf(&self) -> bool {
        self.wills.wf() && self.memberships.wf()
    }

    /// The well-formedness of the store is that of its model.
    pub proof fn lemma_wf(&self)
        requires
            self.wf(),
        ensures
            self@.wf(),
    {
        self.wills.lemma_wf();
    }

    /// The state before anything was set up or kept.
    pub fn new() -> (res: Store)
        ensures
            res.wf(),
            res@ == (StoreView { wills: Map::empty(), memberships: Map::empty(), admin: None }),
    {
        Store { wills: WillStore::new(), memberships: MembershipIndex::new(), state: None }
    }
}

} // verus!
