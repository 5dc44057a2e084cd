//! Attribute maps: the finite mapping from identifiers to thunk ids that
//! backs attribute-set values and static scopes. The mathematical model of a
//! map is `Map<Seq<char>, ThunkId>`; entries are kept with unique keys, so
//! the entry count equals the cardinality of the model's domain.

use vstd::prelude::*;
use vstd::set_lib::lemma_subset_equality;

verus! {

/// Index of a thunk inside the evaluator's thunk arena.
pub type ThunkId = usize;

/// Whether every thunk id in a map model lies below `nt`.
pub open spec fn attrs_bounded(m: Map<Seq<char>, ThunkId>, nt: nat) -> bool {
    forall|k: Seq<char>| m.contains_key(k) ==> #[trigger] m[k] < nt
}

/// Whether every thunk id in a sequence lies below `nt`.
pub open spec fn ids_bounded(ids: Seq<ThunkId>, nt: nat) -> bool {
    forall|i: int| 0 <= i < ids.len() ==> #[trigger] ids[i] < nt
}

/// Map bounds only loosen as the arena grows.
pub proof fn lemma_attrs_bounded_mono(m: Map<Seq<char>, ThunkId>, nt1: nat, nt2: nat)
    requires
        attrs_bounded(m, nt1),
        nt1 <= nt2,
    ensures
        attrs_bounded(m, nt2),
{
    assert forall|k: Seq<char>| m.contains_key(k) implies #[trigger] m[k] < nt2 by {
        assert(attrs_bounded(m, nt1));
        assert(m[k] < nt1);
    }
}

/// Sequence bounds only loosen as the arena grows.
pub proof fn lemma_ids_bounded_mono(ids: Seq<ThunkId>, nt1: nat, nt2: nat)
    requires
        ids_bounded(ids, nt1),
        nt1 <= nt2,
    ensures
        ids_bounded(ids, nt2),
{
    assert forall|i: int| 0 <= i < ids.len() implies #[trigger] ids[i] < nt2 by {
        assert(ids_bounded(ids, nt1));
        assert(ids[i] < nt1);
    }
}

/// The model of a sequence of entries: later entries win.
pub open spec fn map_of(s: Seq<(String, ThunkId)>) -> Map<Seq<char>, ThunkId>
    decreases s.len(),
{
    if s.len() == 0 {
        Map::empty()
    } else {
        map_of(s.drop_last()).insert(s.last().0@, s.last().1)
    }
}

/// A finite map from identifier text to thunk ids, with unique keys.
#[derive(Debug)]
pub struct AttrMap {
    entries: Vec<(String, ThunkId)>,
}

impl View for AttrMap {
    type V = Map<Seq<char>, ThunkId>;

    closed spec fn view(&self) -> Map<Seq<char>, ThunkId> {
        map_of(self.entries@)
    }
}

proof fn lemma_map_of_props(s: Seq<(String, ThunkId)>)
    ensures
        map_of(s).dom().finite(),
        forall|k: Seq<char>| map_of(s).contains_key(k)
            <==> exists|i: int| 0 <= i < s.len() && #[trigger] s[i].0@ == k,
        forall|i: int| 0 <= i < s.len() ==> #[trigger] map_of(s).contains_key(s[i].0@),
    decreases s.len(),
{
    if s.len() > 0 {
        lemma_map_of_props(s.drop_last());
        assert forall|k: Seq<char>| map_of(s).contains_key(k) implies exists|i: int|
            0 <= i < s.len() && #[trigger] s[i].0@ == k by {
            if k == s.last().0@ {
                assert(s[s.len() - 1].0@ == k);
            } else {
                let i = choose|i: int| 0 <= i < s.len() - 1 && #[trigger] s.drop_last()[i].0@ == k;
                assert(s[i].0@ == k);
            }
        }
        assert forall|i: int| 0 <= i < s.len() implies #[trigger] map_of(s).contains_key(s[i].0@) by {
            if i < s.len() - 1 {
                assert(s.drop_last()[i].0@ == s[i].0@);
            }
        }
    }
}

/// Key uniqueness of an entry sequence.
pub open spec fn unique_keys(s: Seq<(String, ThunkId)>) -> bool {
    forall|i: int, j: int| 0 <= i < j < s.len() ==> #[trigger] s[i].0@ != #[trigger] s[j].0@
}

proof fn lemma_map_of_get(s: Seq<(String, ThunkId)>, i: int)
    requires
        unique_keys(s),
        0 <= i < s.len(),
    ensures
        map_of(s).contains_key(s[i].0@),
        map_of(s)[s[i].0@] == s[i].1,
    decreases s.len(),
{
    lemma_map_of_props(s);
    if i == s.len() - 1 {
    } else {
        assert(s.drop_last()[i] == s[i]);
        lemma_map_of_get(s.drop_last(), i);
    }
}

proof fn lemma_map_of_len(s: Seq<(String, ThunkId)>)
    requires
        unique_keys(s),
    ensures
        map_of(s).dom().len() == s.len(),
    decreases s.len(),
{
    lemma_map_of_props(s);
    if s.len() > 0 {
        lemma_map_of_len(s.drop_last());
        lemma_map_of_props(s.drop_last());
        assert(!map_of(s.drop_last()).contains_key(s.last().0@));
    }
}

impl AttrMap {
    /// Key uniqueness, maintained by every operation.
    pub closed spec fn wf(&self) -> bool {
        unique_keys(self.entries@)
    }

    /// The keys in entry order.
    pub closed spec fn keys_seq(&self) -> Seq<Seq<char>> {
        self.entries@.map_values(|e: (String, ThunkId)| e.0@)
    }

    /// The empty map.
    pub fn new() -> (r: AttrMap)
        ensures
            r@ == Map::<Seq<char>, ThunkId>::empty(),
            r.wf(),
    {
        AttrMap { entries: Vec::new() }
    }

    /// Entry count; equals the cardinality of the model's domain.
    pub fn len(&self) -> (r: usize)
        requires
            self.wf(),
        ensures
            r == self@.dom().len(),
    {
        proof {
            lemma_map_of_len(self.entries@);
        }
        self.entries.len()
    }

    /// Looks a key up.
    pub fn get(&self, key: &str) -> (r: Option<ThunkId>)
        requires
            self.wf(),
        ensures
            r == if self@.contains_key(key@) {
                Some(self@[key@])
            } else {
                None::<ThunkId>
            },
    {
        proof {
            lemma_map_of_props(self.entries@);
        }
        let n = self.entries.len();
        let mut i: usize = 0;
        while i < n
            invariant
                i <= n,
                n == self.entries@.len(),
                self.wf(),
                forall|j: int| 0 <= j < i ==> #[trigger] self.entries@[j].0@ != key@,
            decreases n - i,
        {
            if crate::strutil::str_eq(self.entries[i].0.as_str(), key) {
                proof {
                    lemma_map_of_get(self.entries@, i as int);
                }
                return Some(self.entries[i].1);
            }
            i = i + 1;
        }
        proof {
            lemma_map_of_props(self.entries@);
        }
        None
    }

    /// Binds `key` to `value`, replacing any earlier binding of the key.
    pub fn insert(&mut self, key: String, value: ThunkId)
        requires
            old(self).wf(),
        ensures
            final(self)@ == old(self)@.insert(key@, value),
            final(self).wf(),
            final(self)@.dom() =~= old(self)@.dom().insert(key@),
    {
        proof {
            lemma_map_of_props(self.entries@);
        }
        let n = self.entries.len();
        let mut i: usize = 0;
        while i < n
            invariant
                i <= n,
                n == self.entries@.len(),
                self.wf(),
                self.entries@ == old(self).entries@,
                forall|j: int| 0 <= j < i ==> #[trigger] self.entries@[j].0@ != key@,
            decreases n - i,
        {
            if crate::strutil::str_eq(self.entries[i].0.as_str(), key.as_str()) {
                let ghost old_entries = self.entries@;
                self.entries.set(i, (key, value));
                proof {
                    lemma_set_same_key(old_entries, i as int, self.entries@);
                    assert(self@ =~= old(self)@.insert(self.entries@[i as int].0@, value));
                    assert(self@.dom() =~= old(self)@.dom().insert(self.entries@[i as int].0@));
                }
                return;
            }
            i = i + 1;
        }
        let ghost old_entries = self.entries@;
        self.entries.push((key, value));
        proof {
            assert(self.entries@.drop_last() =~= old_entries);
            assert(self@ == map_of(old_entries).insert(self.entries@.last().0@, value));
            assert(self@ =~= old(self)@.insert(key@, value));
            assert(self@.dom() =~= old(self)@.dom().insert(key@));
        }
    }

    /// The key at entry position `i`, cloned, with its thunk id.
    pub fn entry_at(&self, i: usize) -> (r: (String, ThunkId))
        requires
            self.wf(),
            i < self@.dom().len(),
        ensures
            r.0@ == self.keys_seq()[i as int],
            self@.contains_key(r.0@),
            self@[r.0@] == r.1,
    {
        proof {
            lemma_map_of_len(self.entries@);
            lemma_map_of_get(self.entries@, i as int);
        }
        let e = &self.entries[i];
        (e.0.clone(), e.1)
    }

    /// The keys in entry order cover the model's domain exactly.
    pub proof fn lemma_keys_cover(&self)
        requires
            self.wf(),
        ensures
            self.keys_seq().len() == self@.dom().len(),
            forall|j: int|
                0 <= j < self.keys_seq().len() ==> self@.contains_key(
                    #[trigger] self.keys_seq()[j],
                ),
            forall|k: Seq<char>|
                self@.contains_key(k) ==> exists|j: int|
                    0 <= j < self.keys_seq().len() && #[trigger] self.keys_seq()[j] == k,
    {
        lemma_map_of_props(self.entries@);
        lemma_map_of_len(self.entries@);
        assert forall|j: int| 0 <= j < self.keys_seq().len() implies self@.contains_key(
            #[trigger] self.keys_seq()[j],
        ) by {
            assert(self.keys_seq()[j] == self.entries@[j].0@);
        }
        assert forall|k: Seq<char>| self@.contains_key(k) implies exists|j: int|
            0 <= j < self.keys_seq().len() && #[trigger] self.keys_seq()[j] == k by {
            let j = choose|j: int| 0 <= j < self.entries@.len() && #[trigger] self.entries@[j].0@
                == k;
            assert(self.keys_seq()[j] == k);
        }
    }

    /// A copy with the same model.
    pub fn duplicate(&self) -> (r: AttrMap)
        requires
            self.wf(),
        ensures
            r@ == self@,
            r.wf(),
    {
        let r = AttrMap { entries: clone_entries(&self.entries) };
        proof {
            lemma_map_of_congruence(self.entries@, r.entries@);
        }
        r
    }

    /// Right-biased shallow merge: the semantics of the `//` operator. Keys
    /// of `other` win; neither operand is changed.
    pub fn update(&self, other: &AttrMap) -> (r: AttrMap)
        requires
            self.wf(),
            other.wf(),
        ensures
            r@ == self@.union_prefer_right(other@),
            r.wf(),
    {
        let mut out = AttrMap { entries: clone_entries(&self.entries) };
        assert(out@ == self@ && out.wf()) by {
            lemma_map_of_congruence(self.entries@, out.entries@);
        }
        let n = other.entries.len();
        let mut i: usize = 0;
        assert(out@ =~= self@.union_prefer_right(map_of(other.entries@.take(0))));
        while i < n
            invariant
                i <= n,
                n == other.entries@.len(),
                out.wf(),
                other.wf(),
                out@ == self@.union_prefer_right(map_of(other.entries@.take(i as int))),
            decreases n - i,
        {
            let e = &other.entries[i];
            let ghost pre = out@;
            out.insert(e.0.clone(), e.1);
            proof {
                assert(other.entries@.take(i + 1).drop_last() =~= other.entries@.take(i as int));
                assert(map_of(other.entries@.take(i + 1))
                    == map_of(other.entries@.take(i as int)).insert(e.0@, e.1));
                assert(out@ =~= self@.union_prefer_right(map_of(other.entries@.take(i + 1))));
            }
            i = i + 1;
        }
        proof {
            assert(other.entries@.take(n as int) =~= other.entries@);
        }
        out
    }

    /// Whether the two maps bind the same keys; the `==` operator on
    /// attribute sets compares key sets first.
    pub fn same_keys(&self, other: &AttrMap) -> (r: bool)
        requires
            self.wf(),
            other.wf(),
        ensures
            r == (self@.dom() == other@.dom()),
    {
        let n = self.len();
        if n != other.len() {
            proof {
                if self@.dom() =~= other@.dom() {
                    assert(self@.dom().len() == other@.dom().len());
                }
            }
            return false;
        }
        let mut i: usize = 0;
        while i < n
            invariant
                i <= n,
                self.wf(),
                other.wf(),
                n == self@.dom().len() == other@.dom().len(),
                forall|j: int| 0 <= j < i ==> other@.contains_key(#[trigger] self.keys_seq()[j]),
            decreases n - i,
        {
            let (k, _) = self.entry_at(i);
            if other.get(k.as_str()).is_none() {
                return false;
            }
            i = i + 1;
        }
        proof {
            lemma_map_of_props(self.entries@);
            lemma_map_of_len(self.entries@);
            assert forall|k: Seq<char>| self@.contains_key(k) implies other@.contains_key(k) by {
                let j = choose|j: int|
                    0 <= j < self.entries@.len() && #[trigger] self.entries@[j].0@ == k;
                assert(self.keys_seq()[j] == k);
                assert(other@.contains_key(self.keys_seq()[j]));
            }
            lemma_map_of_props(other.entries@);
            assert(self@.dom().subset_of(other@.dom()));
            lemma_subset_equality(self@.dom(), other@.dom());
        }
        true
    }
}

/// A structural copy of an entry vector.
fn clone_entries(v: &Vec<(String, ThunkId)>) -> (r: Vec<(String, ThunkId)>)
    ensures
        r@.len() == v@.len(),
        forall|i: int| 0 <= i < v@.len() ==> (#[trigger] r@[i]).0@ == v@[i].0@ && r@[i].1 == v@[i].1,
{
    let mut out: Vec<(String, ThunkId)> = Vec::new();
    let n = v.len();
    let mut i: usize = 0;
    while i < n
        invariant
            i <= n,
            n == v@.len(),
            out@.len() == i,
            forall|j: int| 0 <= j < i ==> (#[trigger] out@[j]).0@ == v@[j].0@ && out@[j].1 == v@[j].1,
        decreases n - i,
    {
        let e = &v[i];
        out.push((e.0.clone(), e.1));
        i = i + 1;
    }
    out
}

proof fn lemma_map_of_congruence(a: Seq<(String, ThunkId)>, b: Seq<(String, ThunkId)>)
    requires
        a.len() == b.len(),
        forall|i: int| 0 <= i < a.len() ==> (#[trigger] a[i]).0@ == b[i].0@ && a[i].1 == b[i].1,
    ensures
        map_of(a) == map_of(b),
        unique_keys(a) ==> unique_keys(b),
    decreases a.len(),
{
    if a.len() > 0 {
        lemma_map_of_congruence(a.drop_last(), b.drop_last());
        assert(a[a.len() - 1].0@ == b[b.len() - 1].0@);
        assert(map_of(a) =~= map_of(b));
    }
    if unique_keys(a) {
        assert forall|i: int, j: int| 0 <= i < j < b.len() implies #[trigger] b[i].0@
            != #[trigger] b[j].0@ by {
            assert(a[i].0@ != a[j].0@);
        }
    }
}

proof fn lemma_set_same_key(
    old_entries: Seq<(String, ThunkId)>,
    i: int,
    new_entries: Seq<(String, ThunkId)>,
)
    requires
        unique_keys(old_entries),
        0 <= i < old_entries.len(),
        new_entries.len() == old_entries.len(),
        forall|j: int| 0 <= j < old_entries.len() && j != i ==> new_entries[j] == old_entries[j],
        new_entries[i].0@ == old_entries[i].0@,
    ensures
        unique_keys(new_entries),
        map_of(new_entries) == map_of(old_entries).insert(new_entries[i].0@, new_entries[i].1),
    decreases old_entries.len(),
{
    assert forall|p: int, q: int| 0 <= p < q < new_entries.len() implies #[trigger] new_entries[p].0@
        != #[trigger] new_entries[q].0@ by {
        assert(old_entries[p].0@ != old_entries[q].0@);
        assert(new_entries[p].0@ == old_entries[p].0@);
        assert(new_entries[q].0@ == old_entries[q].0@);
    }
    if i == old_entries.len() - 1 {
        assert(new_entries.drop_last() =~= old_entries.drop_last());
        assert(map_of(new_entries) =~= map_of(old_entries).insert(new_entries[i].0@, new_entries[i].1));
    } else {
        lemma_set_same_key(old_entries.drop_last(), i, new_entries.drop_last());
        assert(new_entries.last() == old_entries.last());
        assert(old_entries[i].0@ != old_entries.last().0@);
        assert(map_of(new_entries) =~= map_of(old_entries).insert(new_entries[i].0@, new_entries[i].1));
    }
}

/// The `//` operator is associative on attribute-set models: merging is a
/// right-biased union, so grouping does not matter — keys come from all three
/// operands and a key bound on the right shadows the same key further left.
pub proof fn lemma_update_assoc(a: Map<Seq<char>, ThunkId>, b: Map<Seq<char>, ThunkId>, c: Map<
    Seq<char>,
    ThunkId,
>)
    ensures
        a.union_prefer_right(b).union_prefer_right(c) == a.union_prefer_right(
            b.union_prefer_right(c),
        ),
{
    assert(a.union_prefer_right(b).union_prefer_right(c) =~= a.union_prefer_right(
        b.union_prefer_right(c),
    ));
}

} // verus!
