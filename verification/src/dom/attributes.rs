//! The attributes of an element: a map from keys to values, kept as a list
//! in the order of its keys.

use vstd::prelude::*;
use crate::dom::KeyView;
use crate::dom::NodeKey;
use crate::ordered::Placement;
use crate::ordered::compare_chars;
use crate::ordered::distinct_keys;
use crate::ordered::has_key;
use crate::ordered::is_strict_order;
use crate::ordered::lemma_one_rising_list;
use crate::ordered::lemma_pairs_map_insert;
use crate::ordered::lemma_pairs_map_keys;
use crate::ordered::lemma_pairs_map_update;
use crate::ordered::lemma_pairs_map_value;
use crate::ordered::lemma_text_before_irreflexive;
use crate::ordered::lemma_text_before_transitive;
use crate::ordered::pairs_map;
use crate::ordered::rises;
use crate::ordered::text_before;
use crate::text::chars_of;

verus! {

/// The place of a key among the kinds of keys: `id` first, then `class`,
/// then `href`, then all other names.
pub open spec fn key_rank(key: KeyView) -> int {
    match key {
        KeyView::Id => 0,
        KeyView::Class => 1,
        KeyView::Href => 2,
        KeyView::Other(_) => 3,
    }
}

/// Whether the key `a` comes before the key `b`: by kind, and among other
/// names by the names.
pub open spec fn key_before(a: KeyView, b: KeyView) -> bool {
    key_rank(a) < key_rank(b) || (a matches KeyView::Other(x) && b matches KeyView::Other(y)
        && text_before(x, y))
}

/// What comes before a key that comes before a third comes before the third.
pub proof fn lemma_key_before_transitive(a: KeyView, b: KeyView, c: KeyView)
    requires
        key_before(a, b),
        key_before(b, c),
    ensures
        key_before(a, c),
{
    if a is Other && b is Other && c is Other {
        lemma_text_before_transitive(a->Other_0, b->Other_0, c->Other_0, 0);
    }
}

/// No key comes before itself.
pub proof fn lemma_key_before_irreflexive(a: KeyView)
    ensures
        !key_before(a, a),
{
    if a is Other {
        lemma_text_before_irreflexive(a->Other_0, 0);
    }
}

impl NodeKey {
    /// Where this key stands with respect to `other`.
    pub fn placement(&self, other: &NodeKey) -> (placement: Placement)
        ensures
            placement is Before <==> key_before(self@, other@),
            placement is Same <==> self@ == other@,
            placement is After <==> key_before(other@, self@),
    {
        match (self, other) {
            (NodeKey::Other(a), NodeKey::Other(b)) => {
                let x = chars_of(a.as_str());
                let y = chars_of(b.as_str());
                compare_chars(&x, &y)
            },
            _ => {
                let a = self.rank();
                let b = other.rank();
                if a < b {
                    Placement::Before
                } else if a == b {
                    Placement::Same
                } else {
                    Placement::After
                }
            },
        }
    }

    /// The place of the key among the kinds of keys.
    fn rank(&self) -> (rank: u8)
        ensures
            rank == key_rank(self@),
    {
        match self {
            NodeKey::Id => 0,
            NodeKey::Class => 1,
            NodeKey::Href => 2,
            NodeKey::Other(_) => 3,
        }
    }
}

/// The attributes of an element. Every key stands once, and the keys stand
/// in their order, so equal maps of attributes are kept as equal lists.
#[derive(Debug, PartialEq, Eq)]
pub struct ElementAttributes {
    entries: Vec<(NodeKey, String)>,
}

/// What each pair of a list of attributes is.
pub open spec fn entry_views(entries: Seq<(NodeKey, String)>) -> Seq<(KeyView, Seq<char>)> {
    entries.map_values(|e: (NodeKey, String)| (e.0@, e.1@))
}

/// Whether the keys of a list rise strictly.
pub open spec fn keys_rise(pairs: Seq<(KeyView, Seq<char>)>) -> bool {
    forall|i: int, j: int| 0 <= i < j < pairs.len() ==> key_before(pairs[i].0, pairs[j].0)
}

/// A list whose keys rise strictly holds no key twice.
pub proof fn lemma_rising_keys_distinct(pairs: Seq<(KeyView, Seq<char>)>)
    requires
        keys_rise(pairs),
    ensures
        distinct_keys(pairs),
{
    assert forall|i: int, j: int| 0 <= i < j < pairs.len() implies pairs[i].0 != pairs[j].0 by {
        lemma_key_before_irreflexive(pairs[i].0);
    }
}

/// Attributes are kept by one list only: two lists whose keys rise, and
/// which hold the same values under the same keys, are the same list.
pub proof fn lemma_one_list_of_attributes(
    a: Seq<(KeyView, Seq<char>)>,
    b: Seq<(KeyView, Seq<char>)>,
)
    requires
        keys_rise(a),
        keys_rise(b),
        pairs_map(a) == pairs_map(b),
    ensures
        a == b,
{
    let before = |x: KeyView, y: KeyView| key_before(x, y);
    assert(is_strict_order(before)) by {
        assert forall|x: KeyView| !#[trigger] before(x, x) by {
            lemma_key_before_irreflexive(x);
        }
        assert forall|x: KeyView, y: KeyView, z: KeyView| #[trigger]
            before(x, y) && #[trigger] before(y, z) implies before(x, z) by {
            lemma_key_before_transitive(x, y, z);
        }
    }
    assert(rises(a, before)) by {
        assert forall|i: int, j: int| 0 <= i < j < a.len() implies before(a[i].0, a[j].0) by {
            assert(key_before(a[i].0, a[j].0));
        }
    }
    assert(rises(b, before)) by {
        assert forall|i: int, j: int| 0 <= i < j < b.len() implies before(b[i].0, b[j].0) by {
            assert(key_before(b[i].0, b[j].0));
        }
    }
    lemma_one_rising_list(a, b, before);
}

impl View for ElementAttributes {
    type V = Map<KeyView, Seq<char>>;

    closed spec fn view(&self) -> Map<KeyView, Seq<char>> {
        pairs_map(entry_views(self.entries@))
    }
}

impl ElementAttributes {
    #[verifier::type_invariant]
    spec fn sorted(self) -> bool {
        keys_rise(entry_views(self.entries@))
    }

    /// No attributes.
    pub fn new() -> (attributes: Self)
        ensures
            attributes@ == Map::<KeyView, Seq<char>>::empty(),
    {
        let attributes = ElementAttributes { entries: Vec::new() };
        proof {
            assert(entry_views(attributes.entries@) =~= Seq::empty());
        }
        attributes
    }

    /// How many attributes there are.
    pub fn len(&self) -> (n: usize)
        ensures
            n == self@.dom().len(),
            self@.dom().finite(),
    {
        proof {
            use_type_invariant(self);
            lemma_rising_keys_distinct(entry_views(self.entries@));
            lemma_pairs_map_size(entry_views(self.entries@));
        }
        self.entries.len()
    }

    /// Gives `value` to `key`, in place of the value that `key` had, if it
    /// had one.
    pub fn insert(&mut self, key: NodeKey, value: String)
        ensures
            final(self)@ == old(self)@.insert(key@, value@),
    {
        proof {
            use_type_invariant(&*self);
        }
        let ghost before = entry_views(self.entries@);
        proof {
            lemma_rising_keys_distinct(before);
        }
        let mut i: usize = 0;
        while i < self.entries.len()
            invariant
                self.entries == old(self).entries,
                before == entry_views(self.entries@),
                keys_rise(before),
                distinct_keys(before),
                i <= self.entries.len(),
                forall|j: int| 0 <= j < i ==> key_before(#[trigger] before[j].0, key@),
            ensures
                i < self.entries.len() ==> key_before(key@, before[i as int].0),
            decreases self.entries.len() - i,
        {
            match self.entries[i].0.placement(&key) {
                Placement::Before => {
                    i += 1;
                },
                Placement::Same => {
                    let mut entries: Vec<(NodeKey, String)> = Vec::new();
                    std::mem::swap(&mut entries, &mut self.entries);
                    let old_entry = entries.remove(i);
                    entries.insert(i, (key, value));
                    proof {
                        assert(entry_views(entries@) =~= before.update(
                            i as int,
                            (before[i as int].0, value@),
                        ));
                        lemma_pairs_map_update(before, i as int, value@);
                    }
                    self.entries = entries;
                    return ;
                },
                Placement::After => {
                    break ;
                },
            }
        }
        proof {
            assert forall|j: int| 0 <= j < before.len() implies (#[trigger] before[j]).0
                != key@ by {
                if j < i {
                    lemma_key_before_irreflexive(key@);
                } else {
                    if j > i {
                        lemma_key_before_transitive(key@, before[i as int].0, before[j].0);
                    }
                    lemma_key_before_irreflexive(key@);
                }
            }
            assert(!has_key(before, key@));
            lemma_pairs_map_insert(before, i as int, key@, value@);
            let after = before.insert(i as int, (key@, value@));
            assert forall|a: int, b: int| 0 <= a < b < after.len() implies key_before(
                after[a].0,
                after[b].0,
            ) by {
                if a == i {
                    if b - 1 > i {
                        lemma_key_before_transitive(key@, before[i as int].0, before[b - 1].0);
                    }
                } else if b == i {
                    assert(key_before(before[a].0, key@));
                } else {
                    let x = if a < i {
                        a
                    } else {
                        a - 1
                    };
                    let y = if b < i {
                        b
                    } else {
                        b - 1
                    };
                    assert(key_before(before[x].0, before[y].0));
                }
            }
        }
        let mut entries: Vec<(NodeKey, String)> = Vec::new();
        std::mem::swap(&mut entries, &mut self.entries);
        entries.insert(i, (key, value));
        proof {
            assert(entry_views(entries@) =~= before.insert(i as int, (key@, value@)));
        }
        self.entries = entries;
    }

    /// The value of `key`, if it has one.
    pub fn get(&self, key: &NodeKey) -> (value: Option<&str>)
        ensures
            match value {
                Some(text) => self@.contains_key(key@) && self@[key@] == text@,
                None => !self@.contains_key(key@),
            },
    {
        proof {
            use_type_invariant(self);
        }
        let ghost views = entry_views(self.entries@);
        proof {
            lemma_rising_keys_distinct(views);
        }
        let mut i: usize = 0;
        while i < self.entries.len()
            invariant
                views == entry_views(self.entries@),
                distinct_keys(views),
                i <= self.entries.len(),
                forall|j: int| 0 <= j < i ==> (#[trigger] views[j]).0 != key@,
            decreases self.entries.len() - i,
        {
            match self.entries[i].0.placement(key) {
                Placement::Same => {
                    proof {
                        lemma_pairs_map_value(views, i as int);
                    }
                    return Some(self.entries[i].1.as_str());
                },
                _ => {},
            }
            i += 1;
        }
        proof {
            lemma_pairs_map_keys(views, key@);
        }
        None
    }

    /// The attributes that a list of pairs gives: each key with the value
    /// of the last pair that holds it.
    pub fn from_iter(pairs: Vec<(NodeKey, String)>) -> (attributes: Self)
        ensures
            attributes@ == pairs_map(entry_views(pairs@)),
    {
        let mut attributes = ElementAttributes::new();
        let ghost all = entry_views(pairs@);
        for pair in it: pairs
            invariant
                it.seq().len() == all.len(),
                forall|j: int|
                    0 <= j < all.len() ==> ((#[trigger] it.seq()[j]).0@, it.seq()[j].1@) == all[j],
                attributes@ == pairs_map(all.take(it.index() as int)),
        {
            let ghost done = it.index() as int;
            let (key, value) = pair;
            attributes.insert(key, value);
            proof {
                assert(all.take(done + 1).drop_last() =~= all.take(done));
            }
        }
        proof {
            assert(all.take(all.len() as int) =~= all);
        }
        attributes
    }
}

/// The map of a list without repeated keys has as many keys as the list
/// has pairs.
pub proof fn lemma_pairs_map_size(pairs: Seq<(KeyView, Seq<char>)>)
    requires
        distinct_keys(pairs),
    ensures
        pairs_map(pairs).dom().finite(),
        pairs_map(pairs).dom().len() == pairs.len(),
    decreases pairs.len(),
{
    if pairs.len() > 0 {
        let front = pairs.drop_last();
        assert(distinct_keys(front)) by {
            assert forall|a: int, b: int| 0 <= a < b < front.len() implies front[a].0
                != front[b].0 by {
                assert(pairs[a].0 != pairs[b].0);
            }
        }
        lemma_pairs_map_size(front);
        lemma_pairs_map_keys(front, pairs.last().0);
        if has_key(front, pairs.last().0) {
            let i = choose|i: int| 0 <= i < front.len() && (#[trigger] front[i]).0
                == pairs.last().0;
            assert(pairs[i].0 != pairs[pairs.len() - 1].0);
        }
    }
}

} // verus!
