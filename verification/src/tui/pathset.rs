//! Sets of node paths (collapsed containers, expanded arrays) and the tags
//! attached to paths. A path is the list of its segments.
use crate::paths::strings_view;
use vstd::prelude::*;

verus! {

broadcast use vstd::string::group_string_axioms;

/// Whether two paths have the same segments.
pub fn paths_equal(a: &[String], b: &[String]) -> (r: bool)
    ensures
        r == (strings_view(a@) == strings_view(b@)),
{
    if a.len() != b.len() {
        proof {
            assert(strings_view(a@).len() != strings_view(b@).len());
        }
        return false;
    }
    let mut i: usize = 0;
    while i < a.len()
        invariant
            i <= a@.len() == b@.len(),
            forall|k: int| 0 <= k < i ==> a@[k]@ == b@[k]@,
        decreases a@.len() - i,
    {
        if a[i] != b[i] {
            proof {
                assert(strings_view(a@)[i as int] != strings_view(b@)[i as int]);
            }
            return false;
        }
        i += 1;
    }
    assert(strings_view(a@) =~= strings_view(b@));
    true
}

/// A copy of `p`.
pub fn clone_path(p: &[String]) -> (r: Vec<String>)
    ensures
        strings_view(r@) == strings_view(p@),
{
    let mut out: Vec<String> = Vec::new();
    let mut i: usize = 0;
    while i < p.len()
        invariant
            i <= p@.len(),
            out@.len() == i,
            strings_view(out@) == strings_view(p@.take(i as int)),
        decreases p@.len() - i,
    {
        let c = p[i].clone();
        assert(c@ == p@[i as int]@);
        let ghost before = out@;
        out.push(c);
        assert forall|k: int| 0 <= k < i + 1 implies strings_view(out@)[k] == strings_view(p@.take(i + 1))[k] by {
            assert(strings_view(out@)[k] == out@[k]@);
            assert(strings_view(p@.take(i + 1))[k] == p@[k]@);
            if k < i {
                assert(out@[k] == before[k]);
                assert(strings_view(before)[k] == before[k]@);
                assert(strings_view(p@.take(i as int))[k] == p@[k]@);
                assert(strings_view(before)[k] == strings_view(p@.take(i as int))[k]);
            } else {
                assert(out@[k] == c);
            }
        }
        assert(strings_view(out@) =~= strings_view(p@.take(i + 1)));
        i += 1;
    }
    assert(p@.take(p@.len() as int) == p@);
    out
}

/// The first `n` segments of `p`.
pub fn path_prefix(p: &[String], n: usize) -> (r: Vec<String>)
    requires
        n <= p@.len(),
    ensures
        strings_view(r@) == strings_view(p@).take(n as int),
{
    let mut out: Vec<String> = Vec::new();
    let mut i: usize = 0;
    while i < n
        invariant
            i <= n <= p@.len(),
            out@.len() == i,
            strings_view(out@) == strings_view(p@).take(i as int),
        decreases n - i,
    {
        let c = p[i].clone();
        assert(c@ == p@[i as int]@);
        let ghost before = out@;
        out.push(c);
        assert forall|k: int| 0 <= k < i + 1 implies strings_view(out@)[k] == strings_view(p@).take(i + 1)[k] by {
            if k < i {
                assert(strings_view(before)[k] == strings_view(p@).take(i as int)[k]);
            }
        }
        assert(strings_view(out@) =~= strings_view(p@).take(i + 1));
        i += 1;
    }
    out
}

/// A finite set of paths, each held once.
pub struct PathSet {
    items: Vec<Vec<String>>,
}

pub open spec fn path_views(items: Seq<Vec<String>>) -> Seq<Seq<Seq<char>>> {
    items.map_values(|p: Vec<String>| strings_view(p@))
}

impl PathSet {
    #[verifier::type_invariant]
    spec fn no_duplicates(self) -> bool {
        path_views(self.items@).no_duplicates()
    }

    /// The paths held.
    pub closed spec fn view(self) -> Set<Seq<Seq<char>>> {
        path_views(self.items@).to_set()
    }

    /// How many paths are held.
    pub closed spec fn count(self) -> nat {
        self.items@.len()
    }

    /// The empty set.
    pub fn new() -> (r: Self)
        ensures
            r.view() == Set::<Seq<Seq<char>>>::empty(),
    {
        let r = PathSet { items: Vec::new() };
        assert(path_views(r.items@).to_set() =~= Set::empty());
        r
    }

    fn index_of(&self, p: &[String]) -> (r: Option<usize>)
        ensures
            match r {
                Some(i) => i < self.items@.len() && path_views(self.items@)[i as int]
                    == strings_view(p@),
                None => !path_views(self.items@).contains(strings_view(p@)),
            },
    {
        let mut i: usize = 0;
        while i < self.items.len()
            invariant
                i <= self.items@.len(),
                forall|k: int| 0 <= k < i ==> path_views(self.items@)[k] != strings_view(p@),
            decreases self.items@.len() - i,
        {
            if paths_equal(self.items[i].as_slice(), p) {
                return Some(i);
            }
            i += 1;
        }
        None
    }

    /// Whether `p` is held.
    pub fn contains(&self, p: &[String]) -> (r: bool)
        ensures
            r == self.view().contains(strings_view(p@)),
    {
        self.index_of(p).is_some()
    }

    /// Adds `p`; true when it was not already held.
    pub fn insert(&mut self, p: Vec<String>) -> (r: bool)
        ensures
            final(self).view() == old(self).view().insert(strings_view(p@)),
            r == !old(self).view().contains(strings_view(p@)),
    {
        proof {
            use_type_invariant(&*self);
        }
        match self.index_of(p.as_slice()) {
            Some(_) => {
                assert(old(self).view().insert(strings_view(p@)) =~= old(self).view());
                false
            },
            None => {
                let ghost before = path_views(self.items@);
                let mut items: Vec<Vec<String>> = Vec::new();
                std::mem::swap(&mut items, &mut self.items);
                items.push(p);
                assert(path_views(items@) =~= before.push(strings_view(p@)));
                proof {
                    before.lemma_push_to_set_commute(strings_view(p@));
                }
                self.items = items;
                true
            },
        }
    }

    /// Removes `p`; true when it was held.
    pub fn remove(&mut self, p: &[String]) -> (r: bool)
        ensures
            final(self).view() == old(self).view().remove(strings_view(p@)),
            r == old(self).view().contains(strings_view(p@)),
    {
        proof {
            use_type_invariant(&*self);
        }
        match self.index_of(p) {
            None => {
                assert(old(self).view().remove(strings_view(p@)) =~= old(self).view());
                false
            },
            Some(i) => {
                let ghost before = path_views(self.items@);
                let ghost x = strings_view(p@);
                let mut items: Vec<Vec<String>> = Vec::new();
                std::mem::swap(&mut items, &mut self.items);
                items.remove(i);
                assert(path_views(items@) =~= before.remove(i as int));
                assert(path_views(items@).no_duplicates());
                assert forall|q| path_views(items@).to_set().contains(q) <==> before.to_set().remove(x).contains(q) by {
                    if before.to_set().remove(x).contains(q) {
                        let k = choose|k: int| 0 <= k < before.len() && before[k] == q;
                        assert(k != i);
                        if k < i {
                            assert(path_views(items@)[k] == q);
                        } else {
                            assert(path_views(items@)[k - 1] == q);
                        }
                    }
                    if path_views(items@).to_set().contains(q) {
                        let k = choose|k: int| 0 <= k < path_views(items@).len() && path_views(items@)[k] == q;
                        if k < i {
                            assert(before[k] == q);
                        } else {
                            assert(before[k + 1] == q);
                        }
                    }
                }
                assert(path_views(items@).to_set() =~= before.to_set().remove(x));
                self.items = items;
                true
            },
        }
    }

    /// Empties the set.
    pub fn clear(&mut self)
        ensures
            final(self).view() == Set::<Seq<Seq<char>>>::empty(),
    {
        self.items = Vec::new();
        assert(path_views(self.items@).to_set() =~= Set::empty());
    }

    /// How many paths are held.
    pub fn len(&self) -> (r: usize)
        ensures
            r == self.count(),
            r == self.view().len(),
            self.view().finite(),
    {
        proof {
            use_type_invariant(self);
            path_views(self.items@).unique_seq_to_set();
        }
        self.items.len()
    }

    /// Whether no path is held.
    pub fn is_empty(&self) -> (r: bool)
        ensures
            r == (self.view() == Set::<Seq<Seq<char>>>::empty()),
    {
        proof {
            use_type_invariant(self);
            if self.items@.len() > 0 {
                assert(self.view().contains(path_views(self.items@)[0]));
            }
            if self.items@.len() == 0 {
                assert(self.view() =~= Set::empty());
            }
        }
        self.items.len() == 0
    }

    /// The `i`-th path held, in insertion order.
    pub fn get(&self, i: usize) -> (r: &Vec<String>)
        requires
            i < self.count(),
        ensures
            self.view().contains(strings_view(r@)),
    {
        proof {
            assert(path_views(self.items@)[i as int] == strings_view(self.items@[i as int]@));
        }
        &self.items[i]
    }

    /// The paths held, each once.
    pub fn paths(&self) -> (r: Vec<Vec<String>>)
        ensures
            path_views(r@).to_set() == self.view(),
            path_views(r@).no_duplicates(),
    {
        proof {
            use_type_invariant(self);
        }
        let c = self.copy();
        proof {
            use_type_invariant(&c);
        }
        c.items
    }

    /// A copy of the set.
    pub fn copy(&self) -> (r: Self)
        ensures
            r.view() == self.view(),
    {
        let mut items: Vec<Vec<String>> = Vec::new();
        let mut i: usize = 0;
        proof {
            use_type_invariant(self);
        }
        while i < self.items.len()
            invariant
                i <= self.items@.len(),
                path_views(self.items@).no_duplicates(),
                items@.len() == i,
                path_views(items@) == path_views(self.items@).take(i as int),
            decreases self.items@.len() - i,
        {
            let p = clone_path(self.items[i].as_slice());
            let ghost before = items@;
            items.push(p);
            assert forall|k: int| 0 <= k < i + 1 implies path_views(items@)[k] == path_views(self.items@).take(i + 1)[k] by {
                if k < i {
                    assert(path_views(before)[k] == path_views(self.items@).take(i as int)[k]);
                }
            }
            assert(path_views(items@) =~= path_views(self.items@).take(i + 1));
            i += 1;
        }
        assert(path_views(self.items@).take(self.items@.len() as int) == path_views(self.items@));
        PathSet { items }
    }
}

} // verus!

verus! {

/// The paths of tag entries.
pub open spec fn tag_keys(entries: Seq<(Vec<String>, u8)>) -> Seq<Seq<Seq<char>>> {
    entries.map_values(|e: (Vec<String>, u8)| strings_view(e.0@))
}

/// The tag of each path that has one.
pub open spec fn tag_map(entries: Seq<(Vec<String>, u8)>) -> Map<Seq<Seq<char>>, u8> {
    let keys = tag_keys(entries);
    Map::new(|k: Seq<Seq<char>>| keys.contains(k), |k: Seq<Seq<char>>| entries[keys.index_of(k)].1)
}

proof fn lemma_index_of_unique(keys: Seq<Seq<Seq<char>>>, i: int)
    requires
        keys.no_duplicates(),
        0 <= i < keys.len(),
    ensures
        keys.index_of(keys[i]) == i,
{
    assert(keys.contains(keys[i]));
    let j = keys.index_of(keys[i]);
    assert(0 <= j < keys.len() && keys[j] == keys[i]);
}

/// Tags (1 to 8) attached to paths, at most one per path.
pub struct TagMap {
    entries: Vec<(Vec<String>, u8)>,
}

impl TagMap {
    #[verifier::type_invariant]
    spec fn unique_keys(self) -> bool {
        tag_keys(self.entries@).no_duplicates()
    }

    /// The tag of each tagged path.
    pub closed spec fn view(self) -> Map<Seq<Seq<char>>, u8> {
        tag_map(self.entries@)
    }

    /// No path tagged.
    pub fn new() -> (r: Self)
        ensures
            r.view() == Map::<Seq<Seq<char>>, u8>::empty(),
    {
        let r = TagMap { entries: Vec::new() };
        assert(tag_map(r.entries@) =~= Map::empty());
        r
    }

    fn index_of(&self, p: &[String]) -> (r: Option<usize>)
        ensures
            match r {
                Some(i) => i < self.entries@.len() && tag_keys(self.entries@)[i as int]
                    == strings_view(p@),
                None => !tag_keys(self.entries@).contains(strings_view(p@)),
            },
    {
        let mut i: usize = 0;
        while i < self.entries.len()
            invariant
                i <= self.entries@.len(),
                forall|k: int| 0 <= k < i ==> tag_keys(self.entries@)[k] != strings_view(p@),
            decreases self.entries@.len() - i,
        {
            if paths_equal(self.entries[i].0.as_slice(), p) {
                return Some(i);
            }
            i += 1;
        }
        None
    }

    /// The tag of `p`, if it has one.
    pub fn get(&self, p: &[String]) -> (r: Option<u8>)
        ensures
            r == self.view().get(strings_view(p@)),
    {
        proof {
            use_type_invariant(self);
        }
        match self.index_of(p) {
            Some(i) => {
                proof {
                    lemma_index_of_unique(tag_keys(self.entries@), i as int);
                }
                Some(self.entries[i].1)
            },
            None => None,
        }
    }

    /// Tags `p` with `tag`, replacing a tag it had.
    pub fn insert(&mut self, p: Vec<String>, tag: u8)
        ensures
            final(self).view() == old(self).view().insert(strings_view(p@), tag),
    {
        proof {
            use_type_invariant(&*self);
        }
        let ghost old_entries = self.entries@;
        let ghost keys = tag_keys(old_entries);
        let ghost x = strings_view(p@);
        let mut entries: Vec<(Vec<String>, u8)> = Vec::new();
        match self.index_of(p.as_slice()) {
            Some(i) => {
                std::mem::swap(&mut entries, &mut self.entries);
                entries.set(i, (p, tag));
                assert(tag_keys(entries@) =~= keys);
                assert forall|k| #[trigger] tag_map(entries@).contains_key(k) <==> old_entries.len()
                    >= 0 && tag_map(old_entries).insert(x, tag).contains_key(k) by {}
                assert forall|k| tag_map(entries@).contains_key(k) implies tag_map(entries@)[k]
                    == tag_map(old_entries).insert(x, tag)[k] by {
                    let j = keys.index_of(k);
                    lemma_index_of_unique(keys, j);
                }
                assert(tag_map(entries@) =~= tag_map(old_entries).insert(x, tag));
            },
            None => {
                std::mem::swap(&mut entries, &mut self.entries);
                entries.push((p, tag));
                let ghost n = tag_keys(entries@);
                assert(n =~= keys.push(x));
                assert forall|a: int, b: int| 0 <= a < n.len() && 0 <= b < n.len() && a != b
                    implies n[a] != n[b] by {
                    if a < keys.len() && b < keys.len() {
                    } else if a == keys.len() {
                        assert(n[a] == x && n[b] == keys[b]);
                        assert(keys.contains(keys[b]));
                    } else {
                        assert(n[b] == x && n[a] == keys[a]);
                        assert(keys.contains(keys[a]));
                    }
                }
                assert forall|k| #[trigger] tag_map(entries@).contains_key(k) <==> tag_map(
                    old_entries,
                ).insert(x, tag).contains_key(k) by {
                    if n.contains(k) {
                        let j = choose|j: int| 0 <= j < n.len() && n[j] == k;
                        if j < keys.len() {
                            assert(keys[j] == k);
                        }
                    }
                    if keys.contains(k) {
                        let j = choose|j: int| 0 <= j < keys.len() && keys[j] == k;
                        assert(n[j] == k);
                    }
                    if k == x {
                        assert(n[keys.len() as int] == k);
                    }
                }
                assert forall|k| tag_map(entries@).contains_key(k) implies tag_map(entries@)[k]
                    == tag_map(old_entries).insert(x, tag)[k] by {
                    let j = n.index_of(k);
                    lemma_index_of_unique(n, j);
                    if j < keys.len() {
                        lemma_index_of_unique(keys, j);
                    }
                }
                assert(tag_map(entries@) =~= tag_map(old_entries).insert(x, tag));
            },
        }
        self.entries = entries;
    }

    /// Removes the tag of `p`, if any.
    pub fn remove(&mut self, p: &[String])
        ensures
            final(self).view() == old(self).view().remove(strings_view(p@)),
    {
        proof {
            use_type_invariant(&*self);
        }
        let ghost old_entries = self.entries@;
        let ghost keys = tag_keys(old_entries);
        let ghost x = strings_view(p@);
        match self.index_of(p) {
            Some(i) => {
                let mut entries: Vec<(Vec<String>, u8)> = Vec::new();
                std::mem::swap(&mut entries, &mut self.entries);
                entries.remove(i);
                let ghost n = tag_keys(entries@);
                assert(n =~= keys.remove(i as int));
                assert forall|a: int, b: int| 0 <= a < n.len() && 0 <= b < n.len() && a != b
                    implies n[a] != n[b] by {
                    let a2 = if a < i { a } else { a + 1 };
                    let b2 = if b < i { b } else { b + 1 };
                    assert(n[a] == keys[a2] && n[b] == keys[b2]);
                }
                assert forall|k| #[trigger] tag_map(entries@).contains_key(k) <==> tag_map(
                    old_entries,
                ).remove(x).contains_key(k) by {
                    if n.contains(k) {
                        let j = choose|j: int| 0 <= j < n.len() && n[j] == k;
                        let j2 = if j < i { j } else { j + 1 };
                        assert(keys[j2] == k);
                        assert(j2 != i);
                    }
                    if keys.contains(k) && k != x {
                        let j = choose|j: int| 0 <= j < keys.len() && keys[j] == k;
                        assert(j != i);
                        if j < i {
                            assert(n[j] == k);
                        } else {
                            assert(n[j - 1] == k);
                        }
                    }
                }
                assert forall|k| tag_map(entries@).contains_key(k) implies tag_map(entries@)[k]
                    == tag_map(old_entries).remove(x)[k] by {
                    let j = n.index_of(k);
                    lemma_index_of_unique(n, j);
                    let j2 = if j < i { j } else { j + 1 };
                    assert(keys[j2] == k);
                    lemma_index_of_unique(keys, j2);
                }
                assert(tag_map(entries@) =~= tag_map(old_entries).remove(x));
                self.entries = entries;
            },
            None => {
                assert(tag_map(old_entries).remove(x) =~= tag_map(old_entries));
            },
        }
    }

    /// Removes every tag.
    pub fn clear(&mut self)
        ensures
            final(self).view() == Map::<Seq<Seq<char>>, u8>::empty(),
    {
        self.entries = Vec::new();
        assert(tag_map(self.entries@) =~= Map::empty());
    }

    /// How many paths are tagged.
    pub fn len(&self) -> (r: usize)
        ensures
            r == self.view().len(),
    {
        proof {
            use_type_invariant(self);
            let keys = tag_keys(self.entries@);
            keys.unique_seq_to_set();
            assert(self.view().dom() =~= keys.to_set());
        }
        self.entries.len()
    }
}

} // verus!
