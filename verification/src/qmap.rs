//! The quality map: a read-name-keyed mapping to parsed quality entries.
//! Keys are unique, valid UTF-8 byte strings; the map is modelled as a
//! `Map<Seq<u8>, BqView>` built from its entry list.
use crate::scan::bytes_eq;
use crate::text::bytes_valid_utf8;
use vstd::prelude::*;
use vstd::utf8::valid_utf8;

verus! {

/// Barcode and UMI quality strings parsed for one read name.  The barcode
/// quality is always present; the UMI quality only where the quality source
/// supplied one.
#[derive(Debug, PartialEq, Eq, Clone)]
pub struct BqQuals {
    pub cb: Vec<u8>,
    pub umi: Option<Vec<u8>>,
}

/// The mathematical value of a `BqQuals`.
pub struct BqView {
    pub cb: Seq<u8>,
    pub umi: Option<Seq<u8>>,
}

impl View for BqQuals {
    type V = BqView;

    open spec fn view(&self) -> BqView {
        BqView {
            cb: self.cb@,
            umi: match self.umi {
                Some(u) => Some(u@),
                None => None,
            },
        }
    }
}

/// Views of an entry list.
pub open spec fn entry_views(s: Seq<(Vec<u8>, BqQuals)>) -> Seq<(Seq<u8>, BqView)> {
    s.map_values(|p: (Vec<u8>, BqQuals)| (p.0@, p.1@))
}

/// The mapping an entry list denotes; a later entry for a key overrides an
/// earlier one.
pub open spec fn map_of(s: Seq<(Seq<u8>, BqView)>) -> Map<Seq<u8>, BqView>
    decreases s.len(),
{
    if s.len() == 0 {
        Map::empty()
    } else {
        map_of(s.drop_last()).insert(s.last().0, s.last().1)
    }
}

/// Keys of an entry list are pairwise distinct.
pub open spec fn unique_keys(s: Seq<(Seq<u8>, BqView)>) -> bool {
    forall|i: int, j: int| 0 <= i < j < s.len() ==> s[i].0 != s[j].0
}

/// Appending an entry inserts its key.
pub proof fn lemma_map_of_push(s: Seq<(Seq<u8>, BqView)>, p: (Seq<u8>, BqView))
    ensures
        map_of(s.push(p)) == map_of(s).insert(p.0, p.1),
{
    assert(s.push(p).drop_last() =~= s);
    assert(s.push(p).last() == p);
}

/// With unique keys, the entry at any index is in the mapping.
pub proof fn lemma_map_of_index(s: Seq<(Seq<u8>, BqView)>, j: int)
    requires
        unique_keys(s),
        0 <= j < s.len(),
    ensures
        map_of(s).contains_key(s[j].0),
        map_of(s)[s[j].0] == s[j].1,
    decreases s.len(),
{
    if j == s.len() - 1 {
    } else {
        assert(s.last().0 != s[j].0);
        assert(s.drop_last()[j] == s[j]);
        lemma_map_of_index(s.drop_last(), j);
    }
}

/// A key under no entry is not in the mapping.
pub proof fn lemma_map_of_absent(s: Seq<(Seq<u8>, BqView)>, k: Seq<u8>)
    requires
        forall|i: int| 0 <= i < s.len() ==> s[i].0 != k,
    ensures
        !map_of(s).contains_key(k),
    decreases s.len(),
{
    if s.len() > 0 {
        lemma_map_of_absent(s.drop_last(), k);
    }
}

/// With unique keys, replacing the entry at an index rewrites that key's
/// value in the mapping.
pub proof fn lemma_map_of_update(s: Seq<(Seq<u8>, BqView)>, i: int, v: BqView)
    requires
        unique_keys(s),
        0 <= i < s.len(),
    ensures
        map_of(s.update(i, (s[i].0, v))) == map_of(s).insert(s[i].0, v),
    decreases s.len(),
{
    let k = s[i].0;
    let t = s.update(i, (k, v));
    if i == s.len() - 1 {
        assert(t.drop_last() =~= s.drop_last());
        assert(t.last() == (k, v));
        assert(map_of(s.drop_last()).insert(k, s.last().1).insert(k, v) =~= map_of(
            s.drop_last(),
        ).insert(k, v));
        assert(map_of(s) == map_of(s.drop_last()).insert(s.last().0, s.last().1));
    } else {
        assert(t.drop_last() =~= s.drop_last().update(i, (k, v)));
        assert(t.last() == s.last());
        assert(s.drop_last()[i] == s[i]);
        lemma_map_of_update(s.drop_last(), i, v);
        assert(s.last().0 != k);
        assert(map_of(s.drop_last()).insert(k, v).insert(s.last().0, s.last().1) =~= map_of(
            s.drop_last(),
        ).insert(s.last().0, s.last().1).insert(k, v));
    }
}

/// The quality map, held as a list of entries with unique, UTF-8-valid keys.
#[derive(Debug, PartialEq, Eq)]
pub struct QualityMap {
    pub entries: Vec<(Vec<u8>, BqQuals)>,
}

impl View for QualityMap {
    type V = Map<Seq<u8>, BqView>;

    open spec fn view(&self) -> Map<Seq<u8>, BqView> {
        map_of(entry_views(self.entries@))
    }
}

impl QualityMap {
    /// The entry list as mathematical values, in insertion order.
    pub open spec fn entries_view(self) -> Seq<(Seq<u8>, BqView)> {
        entry_views(self.entries@)
    }

    /// Well-formed: keys are pairwise distinct and valid UTF-8.
    pub open spec fn wf(self) -> bool {
        &&& unique_keys(self.entries_view())
        &&& forall|i: int|
            0 <= i < self.entries@.len() ==> valid_utf8(#[trigger] self.entries@[i].0@)
    }

    /// An empty map.
    pub fn new() -> (m: QualityMap)
        ensures
            m.wf(),
            m@ == Map::<Seq<u8>, BqView>::empty(),
            m.entries_view() == Seq::<(Seq<u8>, BqView)>::empty(),
    {
        let m = QualityMap { entries: Vec::new() };
        proof {
            assert(m.entries_view() =~= Seq::<(Seq<u8>, BqView)>::empty());
        }
        m
    }

    /// How many entries the map holds.
    pub fn len(&self) -> (n: usize)
        ensures
            n == self.entries_view().len(),
    {
        self.entries.len()
    }

    /// Look a name up.  The lookup scans the entry list, so it is linear in
    /// the number of entries.
    pub fn get(&self, name: &[u8]) -> (r: Option<&BqQuals>)
        requires
            self.wf(),
        ensures
            match r {
                Some(q) => self@.contains_key(name@) && q@ == self@[name@],
                None => !self@.contains_key(name@),
            },
    {
        match find_key(&self.entries, name) {
            Some(j) => {
                proof {
                    assert(self.entries_view()[j as int].0 == name@);
                    lemma_map_of_index(self.entries_view(), j as int);
                }
                Some(&self.entries[j].1)
            },
            None => {
                proof {
                    assert forall|i: int|
                        0 <= i < self.entries_view().len() implies self.entries_view()[i].0
                        != name@ by {
                        assert(self.entries_view()[i].0 == self.entries@[i].0@);
                    }
                    lemma_map_of_absent(self.entries_view(), name@);
                }
                None
            },
        }
    }

    /// Insert an entry, replacing any entry already under the name.  Only a
    /// valid-UTF-8 name is accepted; on any other the map is unchanged and
    /// `false` comes back.
    pub fn insert(&mut self, name: Vec<u8>, quals: BqQuals) -> (ok: bool)
        requires
            old(self).wf(),
        ensures
            final(self).wf(),
            ok == valid_utf8(name@),
            ok ==> final(self)@ == old(self)@.insert(name@, quals@),
            !ok ==> *final(self) == *old(self),
    {
        if !bytes_valid_utf8(name.as_slice()) {
            return false;
        }
        let ghost gname = name@;
        let ghost gquals = quals@;
        let ghost olds = old(self).entries_view();
        match find_key(&self.entries, name.as_slice()) {
            Some(j) => {
                proof {
                    assert(olds[j as int].0 == gname);
                }
                self.entries[j] = (name, quals);
                proof {
                    assert(self.entries_view() =~= olds.update(j as int, (gname, gquals)));
                    lemma_map_of_update(olds, j as int, gquals);
                    assert forall|i: int|
                        0 <= i < self.entries@.len() implies valid_utf8(
                        #[trigger] self.entries@[i].0@,
                    ) by {
                        if i != j {
                            assert(self.entries@[i] == old(self).entries@[i]);
                        }
                    }
                }
                true
            },
            None => {
                proof {
                    assert forall|i: int| 0 <= i < olds.len() implies olds[i].0 != gname by {
                        assert(olds[i].0 == old(self).entries@[i].0@);
                    }
                }
                self.entries.push((name, quals));
                proof {
                    assert(self.entries_view() =~= olds.push((gname, gquals)));
                    lemma_map_of_push(olds, (gname, gquals));
                    assert forall|i: int|
                        0 <= i < self.entries@.len() implies valid_utf8(
                        #[trigger] self.entries@[i].0@,
                    ) by {
                        if i != self.entries@.len() - 1 {
                            assert(self.entries@[i] == old(self).entries@[i]);
                        }
                    }
                }
                true
            },
        }
    }
}

/// Index of the entry holding `name` as its key, if any.
fn find_key(entries: &Vec<(Vec<u8>, BqQuals)>, name: &[u8]) -> (r: Option<usize>)
    ensures
        match r {
            Some(j) => j < entries@.len() && entries@[j as int].0@ == name@,
            None => forall|i: int| 0 <= i < entries@.len() ==> entries@[i].0@ != name@,
        },
{
    let n = entries.len();
    let mut j: usize = 0;
    while j < n
        invariant
            j <= n,
            n == entries@.len(),
            forall|k: int| 0 <= k < j ==> entries@[k].0@ != name@,
        decreases n - j,
    {
        if bytes_eq(entries[j].0.as_slice(), name) {
            return Some(j);
        }
        j += 1;
    }
    None
}

} // verus!
