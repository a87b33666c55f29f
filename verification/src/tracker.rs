//! The client-side change tracker: wraps the local inventory and records
//! which identifiers were added, modified, or deleted since the last drain.

use vstd::prelude::*;

verus! {

use crate::inv::{Id, Inv, Item, ItemV};

/// One recorded local edit, to be replayed against the server on sync.
#[derive(Clone, Copy, PartialEq, Eq, Structural, Debug)]
pub enum InvChange {
    AddedItem(Id),
    ModifiedItem(Id),
    DeletedItem(Id),
}

/// A set of identifiers stored without repetition, in insertion order.
struct IdSet {
    elems: Vec<Id>,
}

impl View for IdSet {
    type V = Set<Id>;

    closed spec fn view(&self) -> Set<Id> {
        self.elems@.to_set()
    }
}

impl IdSet {
    /// The members in insertion order.
    pub closed spec fn seq_view(self) -> Seq<Id> {
        self.elems@
    }

    #[verifier::type_invariant]
    spec fn wf(self) -> bool {
        self.elems@.no_duplicates()
    }

    fn new() -> (r: IdSet)
        ensures
            r@ == Set::<Id>::empty(),
            r.seq_view() == Seq::<Id>::empty(),
    {
        let r = IdSet { elems: Vec::new() };
        proof {
            assert(r@ =~= Set::<Id>::empty());
        }
        r
    }

    fn contains(&self, id: Id) -> (r: bool)
        ensures
            r == self@.contains(id),
    {
        let mut i: usize = 0;
        while i < self.elems.len()
            invariant
                i <= self.elems.len(),
                forall|j: int| 0 <= j < i ==> self.elems@[j] != id,
            decreases self.elems.len() - i,
        {
            if self.elems[i] == id {
                proof {
                    assert(self.elems@.contains(id));
                }
                return true;
            }
            i = i + 1;
        }
        proof {
            assert(!self.elems@.contains(id));
        }
        false
    }

    /// Adds the identifier; a member already present stays recorded once.
    fn insert(&mut self, id: Id)
        ensures
            final(self)@ == old(self)@.insert(id),
            old(self)@.contains(id) ==> final(self).seq_view() == old(self).seq_view(),
            !old(self)@.contains(id) ==> final(self).seq_view() == old(self).seq_view().push(id),
    {
        proof {
            use_type_invariant(&*self);
        }
        let ghost s = self.elems@;
        if !self.contains(id) {
            assert(!s.contains(id));
            let mut elems: Vec<Id> = Vec::new();
            core::mem::swap(&mut elems, &mut self.elems);
            elems.push(id);
            proof {
                assert(elems@ =~= s.push(id));
                assert forall|x: int, y: int| 0 <= x < y < elems@.len() implies elems@[x]
                    != elems@[y] by {
                    if y < s.len() {
                        assert(s[x] != s[y]);
                    } else {
                        assert(s.contains(s[x]));
                    }
                }
                assert(elems@.no_duplicates());
            }
            self.elems = elems;
            proof {
                assert forall|x: Id| self.elems@.contains(x) <==> (s.contains(x) || x == id) by {
                    if self.elems@.contains(x) {
                        let i = choose|i: int|
                            0 <= i < self.elems@.len() && self.elems@[i] == x;
                        if i < s.len() {
                            assert(s[i] == x);
                        }
                    }
                    if s.contains(x) {
                        let i = choose|i: int| 0 <= i < s.len() && s[i] == x;
                        assert(self.elems@[i] == x);
                    }
                    if x == id {
                        assert(self.elems@[s.len() as int] == x);
                    }
                }
                assert(self@ =~= old(self)@.insert(id));
            }
        } else {
            proof {
                assert(old(self)@.contains(id));
                assert(self@ =~= old(self)@.insert(id));
            }
        }
    }

    /// Empties the set and hands the prior members out, in insertion order.
    fn take(&mut self) -> (r: Vec<Id>)
        ensures
            r@ == old(self).seq_view(),
            r@.no_duplicates(),
            final(self)@ == Set::<Id>::empty(),
            final(self).seq_view() == Seq::<Id>::empty(),
    {
        proof {
            use_type_invariant(&*self);
        }
        let mut out: Vec<Id> = Vec::new();
        core::mem::swap(&mut out, &mut self.elems);
        proof {
            assert(self@ =~= Set::<Id>::empty());
        }
        out
    }
}

/// Mathematical image of a [`LocalInv`]: the three change sets and the
/// wrapped inventory.
#[verifier::ext_equal]
pub struct TrackerV {
    pub added: Set<Id>,
    pub modified: Set<Id>,
    pub deleted: Set<Id>,
    pub items: Map<Id, ItemV>,
    pub platform_names: Seq<Seq<char>>,
}

/// What recording an insert does to the tracker: a new identifier is marked
/// added; a known one is marked modified unless it is still pending as added;
/// the stored item is always overwritten.
pub open spec fn spec_track_insert(t: TrackerV, id: Id, item: ItemV) -> TrackerV {
    TrackerV {
        added: if !t.items.dom().contains(id) {
            t.added.insert(id)
        } else {
            t.added
        },
        modified: if t.items.dom().contains(id) && !t.added.contains(id) {
            t.modified.insert(id)
        } else {
            t.modified
        },
        items: t.items.insert(id, item),
        ..t
    }
}

/// What recording a removal does to the tracker: the item goes away and the
/// deletion intent is recorded whether or not the identifier was present.
pub open spec fn spec_track_remove(t: TrackerV, id: Id) -> TrackerV {
    TrackerV { deleted: t.deleted.insert(id), items: t.items.remove(id), ..t }
}

/// The client's inventory wrapped with change bookkeeping. Every local
/// mutation goes through here so that a sync can push only the delta.
pub struct LocalInv {
    modified_items: IdSet,
    deleted_items: IdSet,
    added_items: IdSet,
    inv: Inv,
}

impl View for LocalInv {
    type V = TrackerV;

    closed spec fn view(&self) -> TrackerV {
        TrackerV {
            added: self.added_items@,
            modified: self.modified_items@,
            deleted: self.deleted_items@,
            items: self.inv.items@,
            platform_names: self.inv@.platform_names,
        }
    }
}

impl LocalInv {
    /// The change events a drain would hand out right now: the modified ids,
    /// then the deleted ids, then the added ids, each in recording order.
    pub closed spec fn pending_changes(self) -> Seq<InvChange> {
        Seq::new(self.modified_items.seq_view().len(), |i: int| InvChange::ModifiedItem(
            self.modified_items.seq_view()[i],
        )) + Seq::new(self.deleted_items.seq_view().len(), |i: int| InvChange::DeletedItem(
            self.deleted_items.seq_view()[i],
        )) + Seq::new(self.added_items.seq_view().len(), |i: int| InvChange::AddedItem(
            self.added_items.seq_view()[i],
        ))
    }

    /// An empty tracker around an empty inventory.
    pub fn new() -> (r: LocalInv)
        ensures
            r@.added == Set::<Id>::empty(),
            r@.modified == Set::<Id>::empty(),
            r@.deleted == Set::<Id>::empty(),
            r@.items == Map::<Id, ItemV>::empty(),
            r@.platform_names == Seq::<Seq<char>>::empty(),
            r.pending_changes() == Seq::<InvChange>::empty(),
    {
        let r = LocalInv {
            modified_items: IdSet::new(),
            deleted_items: IdSet::new(),
            added_items: IdSet::new(),
            inv: Inv::new(),
        };
        proof {
            assert(r.pending_changes() =~= Seq::<InvChange>::empty());
        }
        r
    }

    /// Read access to the wrapped inventory.
    pub fn inventory(&self) -> (r: &Inv)
        ensures
            r.items@ == self@.items,
            r@.platform_names == self@.platform_names,
    {
        &self.inv
    }

    /// The item stored under the identifier, if any.
    pub fn get_item(&self, id: &Id) -> (r: Option<&Item>)
        ensures
            match r {
                Some(item) => self@.items.dom().contains(*id) && item@ == self@.items[*id],
                None => !self@.items.dom().contains(*id),
            },
    {
        self.inv.items.get(*id)
    }

    /// Number of items currently held.
    pub fn item_count(&self) -> (r: usize)
        ensures
            r == self@.items.dom().len(),
            self@.items.dom().finite(),
    {
        self.inv.items.len()
    }

    /// All item identifiers currently held, one entry per item.
    pub fn item_ids(&self) -> (r: Vec<Id>)
        ensures
            forall|id: Id| r@.contains(id) <==> self@.items.dom().contains(id),
            r@.len() == self@.items.dom().len(),
    {
        proof {
            crate::inv::lemma_map_of_dom(self.inv.items.seq_view());
        }
        let r = self.inv.items.ids();
        proof {
            assert forall|id: Id| r@.contains(id) implies self@.items.dom().contains(id) by {
                let i = choose|i: int| 0 <= i < r@.len() && r@[i] == id;
                assert(self.inv.items.seq_view()[i].0 == id);
                assert(crate::inv::seq_has_key(self.inv.items.seq_view(), id));
            }
            assert forall|id: Id| self@.items.dom().contains(id) implies r@.contains(id) by {
                assert(crate::inv::seq_has_key(self.inv.items.seq_view(), id));
                let i = choose|i: int|
                    0 <= i < self.inv.items.seq_view().len() && (#[trigger] self.inv.items.seq_view()[i]).0
                        == id;
                assert(r@[i] == id);
            }
        }
        // Reading the count again binds the list's length to the mapping's
        // size, which `len` relates for us.
        let _count = self.inv.items.len();
        r
    }

    /// Stores the item under the identifier and records the edit: a fresh
    /// identifier is marked added, a known one modified — unless it is still
    /// pending as added, in which case it stays added and nothing is
    /// downgraded.
    pub fn insert_item(&mut self, id: Id, item: Item)
        ensures
            final(self)@ == spec_track_insert(old(self)@, id, item@),
    {
        if !self.inv.items.contains_key(id) {
            self.added_items.insert(id);
        } else if !self.added_items.contains(id) {
            self.modified_items.insert(id);
        }
        self.inv.items.insert(id, item);
        proof {
            assert(self@ =~= spec_track_insert(old(self)@, id, item@));
        }
    }

    /// Deletes the item if present and records the deletion intent
    /// unconditionally, so a later sync informs the server even about
    /// identifiers that were never stored.
    pub fn remove_item(&mut self, id: &Id)
        ensures
            final(self)@ == spec_track_remove(old(self)@, *id),
    {
        self.inv.items.remove(*id);
        self.deleted_items.insert(*id);
        proof {
            assert(self@ =~= spec_track_remove(old(self)@, *id));
        }
    }

    /// Atomically swaps all three change sets to empty and hands out their
    /// prior contents; each pending identifier appears in exactly one event.
    /// Draining is exhaustive: right after a drain nothing is pending, so a
    /// second drain returns the empty sequence.
    pub fn consume_changes(&mut self) -> (r: Vec<InvChange>)
        ensures
            r@ == old(self).pending_changes(),
            r@.no_duplicates(),
            final(self).pending_changes() == Seq::<InvChange>::empty(),
            final(self)@ == (TrackerV {
                added: Set::<Id>::empty(),
                modified: Set::<Id>::empty(),
                deleted: Set::<Id>::empty(),
                ..old(self)@
            }),
            forall|id: Id|
                old(self)@.modified.contains(id) <==> r@.contains(InvChange::ModifiedItem(id)),
            forall|id: Id|
                old(self)@.deleted.contains(id) <==> r@.contains(InvChange::DeletedItem(id)),
            forall|id: Id|
                old(self)@.added.contains(id) <==> r@.contains(InvChange::AddedItem(id)),
    {
        let ghost pend = self.pending_changes();
        let modified = self.modified_items.take();
        let deleted = self.deleted_items.take();
        let added = self.added_items.take();
        let mut r: Vec<InvChange> = Vec::new();
        let mut i: usize = 0;
        while i < modified.len()
            invariant
                i <= modified.len(),
                r@ == Seq::new(i as nat, |k: int| InvChange::ModifiedItem(modified@[k])),
            decreases modified.len() - i,
        {
            r.push(InvChange::ModifiedItem(modified[i]));
            proof {
                assert(r@ =~= Seq::new(i as nat + 1, |k: int| InvChange::ModifiedItem(
                    modified@[k],
                )));
            }
            i = i + 1;
        }
        let mut i: usize = 0;
        while i < deleted.len()
            invariant
                i <= deleted.len(),
                r@ == Seq::new(modified@.len(), |k: int| InvChange::ModifiedItem(modified@[k]))
                    + Seq::new(i as nat, |k: int| InvChange::DeletedItem(deleted@[k])),
            decreases deleted.len() - i,
        {
            r.push(InvChange::DeletedItem(deleted[i]));
            proof {
                assert(r@ =~= Seq::new(modified@.len(), |k: int| InvChange::ModifiedItem(
                    modified@[k],
                )) + Seq::new(i as nat + 1, |k: int| InvChange::DeletedItem(deleted@[k])));
            }
            i = i + 1;
        }
        let mut i: usize = 0;
        while i < added.len()
            invariant
                i <= added.len(),
                r@ == Seq::new(modified@.len(), |k: int| InvChange::ModifiedItem(modified@[k]))
                    + Seq::new(deleted@.len(), |k: int| InvChange::DeletedItem(deleted@[k]))
                    + Seq::new(i as nat, |k: int| InvChange::AddedItem(added@[k])),
            decreases added.len() - i,
        {
            r.push(InvChange::AddedItem(added[i]));
            proof {
                assert(r@ =~= Seq::new(modified@.len(), |k: int| InvChange::ModifiedItem(
                    modified@[k],
                )) + Seq::new(deleted@.len(), |k: int| InvChange::DeletedItem(deleted@[k]))
                    + Seq::new(i as nat + 1, |k: int| InvChange::AddedItem(added@[k])));
            }
            i = i + 1;
        }
        proof {
            assert(r@ =~= pend);
            assert(self.pending_changes() =~= Seq::<InvChange>::empty());
            assert(self@ =~= (TrackerV {
                added: Set::<Id>::empty(),
                modified: Set::<Id>::empty(),
                deleted: Set::<Id>::empty(),
                ..old(self)@
            }));
            lemma_changes_membership(modified@, deleted@, added@, r@);
        }
        r
    }

    /// Replaces the whole inventory and clears all three change sets: a
    /// successful pull supersedes any pending local delta bookkeeping.
    pub fn replace_all(&mut self, new_inv: Inv)
        ensures
            final(self)@ == (TrackerV {
                added: Set::<Id>::empty(),
                modified: Set::<Id>::empty(),
                deleted: Set::<Id>::empty(),
                items: new_inv.items@,
                platform_names: new_inv@.platform_names,
            }),
            final(self).pending_changes() == Seq::<InvChange>::empty(),
    {
        self.inv = new_inv;
        let _ = self.modified_items.take();
        let _ = self.deleted_items.take();
        let _ = self.added_items.take();
        proof {
            assert(self.pending_changes() =~= Seq::<InvChange>::empty());
            assert(self@ =~= (TrackerV {
                added: Set::<Id>::empty(),
                modified: Set::<Id>::empty(),
                deleted: Set::<Id>::empty(),
                items: new_inv.items@,
                platform_names: new_inv@.platform_names,
            }));
        }
    }
}

impl Default for LocalInv {
    /// An empty tracker around an empty inventory.
    fn default() -> (r: LocalInv)
        ensures
            r@.added == Set::<Id>::empty(),
            r@.modified == Set::<Id>::empty(),
            r@.deleted == Set::<Id>::empty(),
            r@.items == Map::<Id, ItemV>::empty(),
            r.pending_changes() == Seq::<InvChange>::empty(),
    {
        LocalInv::new()
    }
}

/// Ties set membership to the drained event sequence and shows every
/// identifier appears at most once per kind.
proof fn lemma_changes_membership(
    modified: Seq<Id>,
    deleted: Seq<Id>,
    added: Seq<Id>,
    r: Seq<InvChange>,
)
    requires
        modified.no_duplicates(),
        deleted.no_duplicates(),
        added.no_duplicates(),
        r == Seq::new(modified.len(), |k: int| InvChange::ModifiedItem(modified[k])) + Seq::new(
            deleted.len(),
            |k: int| InvChange::DeletedItem(deleted[k]),
        ) + Seq::new(added.len(), |k: int| InvChange::AddedItem(added[k])),
    ensures
        r.no_duplicates(),
        forall|id: Id| modified.to_set().contains(id) <==> r.contains(InvChange::ModifiedItem(id)),
        forall|id: Id| deleted.to_set().contains(id) <==> r.contains(InvChange::DeletedItem(id)),
        forall|id: Id| added.to_set().contains(id) <==> r.contains(InvChange::AddedItem(id)),
{
    let nm = modified.len() as int;
    let nd = deleted.len() as int;
    let na = added.len() as int;
    assert forall|i: int, j: int| 0 <= i < j < r.len() implies r[i] != r[j] by {
        if j < nm {
            assert(modified[i] != modified[j]);
        } else if nm <= i && j < nm + nd {
            assert(deleted[i - nm] != deleted[j - nm]);
        } else if nm + nd <= i {
            assert(added[i - nm - nd] != added[j - nm - nd]);
        }
    }
    assert forall|id: Id|
        modified.to_set().contains(id) <==> r.contains(InvChange::ModifiedItem(id)) by {
        if modified.to_set().contains(id) {
            let i = choose|i: int| 0 <= i < modified.len() && modified[i] == id;
            assert(r[i] == InvChange::ModifiedItem(id));
        }
        if r.contains(InvChange::ModifiedItem(id)) {
            let i = choose|i: int| 0 <= i < r.len() && r[i] == InvChange::ModifiedItem(id);
            assert(0 <= i < nm);
            assert(modified[i] == id);
            assert(modified.contains(id));
        }
    }
    assert forall|id: Id|
        deleted.to_set().contains(id) <==> r.contains(InvChange::DeletedItem(id)) by {
        if deleted.to_set().contains(id) {
            let i = choose|i: int| 0 <= i < deleted.len() && deleted[i] == id;
            assert(r[nm + i] == InvChange::DeletedItem(id));
        }
        if r.contains(InvChange::DeletedItem(id)) {
            let i = choose|i: int| 0 <= i < r.len() && r[i] == InvChange::DeletedItem(id);
            assert(nm <= i < nm + nd);
            assert(deleted[i - nm] == id);
            assert(deleted.contains(id));
        }
    }
    assert forall|id: Id| added.to_set().contains(id) <==> r.contains(InvChange::AddedItem(id)) by {
        if added.to_set().contains(id) {
            let i = choose|i: int| 0 <= i < added.len() && added[i] == id;
            assert(r[nm + nd + i] == InvChange::AddedItem(id));
        }
        if r.contains(InvChange::AddedItem(id)) {
            let i = choose|i: int| 0 <= i < r.len() && r[i] == InvChange::AddedItem(id);
            assert(nm + nd <= i);
            assert(added[i - nm - nd] == id);
            assert(added.contains(id));
        }
    }
}

/// An identifier the tracker has never seen, inserted and then edited before
/// any drain, is recorded exactly once: as added, never also as modified or
/// deleted.
pub proof fn lemma_added_stays_added(t: TrackerV, id: Id, first: ItemV, second: ItemV)
    requires
        !t.items.dom().contains(id),
        !t.added.contains(id),
        !t.modified.contains(id),
        !t.deleted.contains(id),
    ensures
        ({
            let t2 = spec_track_insert(spec_track_insert(t, id, first), id, second);
            &&& t2.added.contains(id)
            &&& !t2.modified.contains(id)
            &&& !t2.deleted.contains(id)
        }),
{
}

/// Removing an identifier records the deletion intent even when no item was
/// ever stored under it, so the next drain still yields a deletion event.
pub proof fn lemma_remove_always_recorded(t: TrackerV, id: Id)
    ensures
        spec_track_remove(t, id).deleted.contains(id),
        !spec_track_remove(t, id).items.dom().contains(id),
{
}

} // verus!
