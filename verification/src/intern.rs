//! Interned strings of one instance.

use std::collections::{BTreeMap, HashMap};
use vstd::prelude::*;
use vstd::std_specs::btree::increasing_seq;
use vstd::std_specs::cmp::OrdSpec;
use vstd::std_specs::iter::IteratorSpec;

verus! {

/// The interned `id` to string table of one instance. Its view is the map.
pub struct InternTable {
    map: HashMap<u32, String>,
}

/// The map that a run of pairs describes.
pub open spec fn pairs_map(entries: Seq<(u32, &String)>) -> Map<u32, Seq<char>>
    decreases entries.len(),
{
    if entries.len() == 0 {
        Map::empty()
    } else {
        pairs_map(entries.drop_last()).insert(entries.last().0, entries.last().1@)
    }
}

/// Each id occurs once, in ascending order.
pub open spec fn ascending(entries: Seq<(u32, &String)>) -> bool {
    forall|i: int, j: int| 0 <= i < j < entries.len() ==> entries[i].0 < entries[j].0
}

/// Of ascending pairs, the map holds exactly those.
pub proof fn lemma_pairs_map(entries: Seq<(u32, &String)>)
    requires
        ascending(entries),
    ensures
        forall|i: int|
            0 <= i < entries.len() ==> #[trigger] pairs_map(entries).dom().contains(entries[i].0)
                && pairs_map(entries)[entries[i].0] == entries[i].1@,
        forall|id: u32| #[trigger]
            pairs_map(entries).dom().contains(id) ==> exists|i: int|
                0 <= i < entries.len() && entries[i].0 == id,
    decreases entries.len(),
{
    if entries.len() > 0 {
        let init = entries.drop_last();
        lemma_pairs_map(init);
        assert forall|i: int| 0 <= i < entries.len() implies #[trigger] pairs_map(
            entries,
        ).dom().contains(entries[i].0) && pairs_map(entries)[entries[i].0] == entries[i].1@ by {
            if i < entries.len() - 1 {
                assert(init[i] == entries[i]);
                assert(pairs_map(init).dom().contains(init[i].0));
            }
        }
        assert forall|id: u32| #[trigger] pairs_map(entries).dom().contains(id) implies exists|
            i: int,
        |
            0 <= i < entries.len() && entries[i].0 == id by {
            if id == entries.last().0 {
                assert(entries[entries.len() - 1].0 == id);
            } else {
                assert(pairs_map(init).dom().contains(id));
                let i = choose|i: int| 0 <= i < init.len() && init[i].0 == id;
                assert(entries[i].0 == id);
            }
        }
    }
}

impl View for InternTable {
    type V = Map<u32, Seq<char>>;

    closed spec fn view(&self) -> Map<u32, Seq<char>> {
        self.map@.map_values(|s: String| s@)
    }
}

impl InternTable {
    /// An empty table.
    pub fn new() -> (t: Self)
        ensures
            t@ == Map::<u32, Seq<char>>::empty(),
    {
        let t = InternTable { map: HashMap::new() };
        assert(t@ =~= Map::<u32, Seq<char>>::empty());
        t
    }

    /// Maps `id` to `text`, in place of what it mapped to before.
    pub fn insert(&mut self, id: u32, text: String)
        ensures
            final(self)@ == old(self)@.insert(id, text@),
    {
        broadcast use vstd::std_specs::hash::group_hash_axioms;

        self.map.insert(id, text);
        assert(self@ =~= old(self)@.insert(id, text@));
    }

    /// The text that `id` maps to.
    pub fn get(&self, id: u32) -> (text: Option<&String>)
        ensures
            match text {
                Some(t) => self@.dom().contains(id) && self@[id] == t@,
                None => !self@.dom().contains(id),
            },
    {
        broadcast use vstd::std_specs::hash::group_hash_axioms;

        self.map.get(&id)
    }

    /// The number of entries.
    pub fn len(&self) -> (n: usize)
        ensures
            n == self@.dom().len(),
    {
        broadcast use vstd::std_specs::hash::group_hash_axioms;

        assert(self@.dom() =~= self.map@.dom());
        self.map.len()
    }

    /// The table in the order of ids.
    fn sorted(&self) -> (sorted: BTreeMap<u32, &String>)
        ensures
            sorted@.dom() == self@.dom(),
            forall|id: u32| #[trigger] sorted@.contains_key(id) ==> sorted@[id]@ == self@[id],
    {
        broadcast use vstd::std_specs::hash::group_hash_axioms;
        broadcast use vstd::std_specs::btree::group_btree_axioms;
        broadcast use vstd::laws_cmp::group_laws_cmp;

        let mut sorted: BTreeMap<u32, &String> = BTreeMap::new();
        for id in it: self.map.keys()
            invariant
                it.seq().unref().to_set() == self.map@.dom(),
                forall|i: int|
                    0 <= i < it.index() ==> sorted@.contains_key(#[trigger] it.seq().unref()[i]),
                forall|id: u32| #[trigger]
                    sorted@.contains_key(id) ==> self@.dom().contains(id) && sorted@[id]@
                        == self@[id],
        {
            let ghost all = it.seq().unref();
            let ghost k = it.index();
            assert(all.to_set().contains(all[k]));
            if let Some(text) = self.get(*id) {
                sorted.insert(*id, text);
            }
        }
        sorted
    }

    /// The entries in ascending order of id.
    pub fn entries(&self) -> (v: Vec<(u32, &String)>)
        ensures
            ascending(v@),
            pairs_map(v@) == self@,
    {
        broadcast use vstd::std_specs::btree::group_btree_axioms;
        broadcast use vstd::laws_cmp::group_laws_cmp;

        let sorted = self.sorted();
        let pairs = sorted.iter();
        let ghost all = IteratorSpec::remaining(&pairs);
        proof {
            let ids = all.map_values(|e: (&u32, &&String)| *e.0);
            assert(increasing_seq(ids));
            assert forall|i: int, j: int| 0 <= i < j < all.len() implies *all[i].0 < *all[j].0 by {
                assert(ids[i].cmp_spec(&ids[j]) is Less);
            }
        }
        let mut v: Vec<(u32, &String)> = Vec::new();
        for e in it: pairs
            invariant
                it.seq() == all,
                v@.len() == it.index(),
                forall|i: int|
                    0 <= i < v@.len() ==> (#[trigger] v@[i]).0 == *all[i].0 && v@[i].1 == *all[i].1,
        {
            v.push((*e.0, *e.1));
        }
        proof {
            lemma_pairs_map(v@);
            assert forall|id: u32| self@.dom().contains(id) == pairs_map(v@).dom().contains(id) by {
                if self@.dom().contains(id) {
                    assert(sorted@.contains_key(id));
                    let i = choose|i: int| 0 <= i < all.len() && all[i] == (&id, &sorted@[id]);
                    assert(pairs_map(v@).dom().contains(v@[i].0));
                }
                if pairs_map(v@).dom().contains(id) {
                    let i = choose|i: int| 0 <= i < v@.len() && v@[i].0 == id;
                    assert(sorted@.contains_key(*all[i].0));
                }
            }
            assert forall|id: u32| self@.dom().contains(id) implies self@[id] == pairs_map(
                v@,
            )[id] by {
                let i = choose|i: int| 0 <= i < v@.len() && v@[i].0 == id;
                assert(sorted@.contains_key(*all[i].0));
                assert(pairs_map(v@).dom().contains(v@[i].0));
            }
            assert(pairs_map(v@) =~= self@);
        }
        v
    }
}

} // verus!
