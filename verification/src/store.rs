//! Storage of script fragments keyed by version.
//!
//! The store keeps one entry per recorded version, in strictly ascending
//! version order. Contributing text for a version that is already recorded
//! appends the text to that version's fragment, preserving arrival order;
//! contributing text for a new version inserts a fresh entry at its ordered
//! position.

use vstd::prelude::*;

use crate::version::{
    lemma_version_order_transitive, lemma_version_order_trichotomy, version_lt, Version,
};

verus! {

/// One recorded version together with its accumulated script fragment.
pub struct VersionedScript {
    pub version: Version,
    pub script: Vec<u8>,
}

/// The mathematical image of one entry: a version key and the fragment bytes.
pub struct Entry {
    pub version: Version,
    pub script: Seq<u8>,
}

/// Entries stand in strictly ascending version order, so versions are distinct.
pub open spec fn sorted_strict(s: Seq<Entry>) -> bool {
    forall|i: int, j: int|
        0 <= i < j < s.len() ==> version_lt(s[i].version, s[j].version)
}

/// The store after appending `bytes` to the fragment recorded for `v`:
/// the fragment of `v` grows at the back if `v` is present, and a fresh
/// entry holding exactly `bytes` appears at `v`'s ordered position if not.
pub open spec fn add_model(s: Seq<Entry>, v: Version, bytes: Seq<u8>) -> Seq<Entry>
    decreases s.len(),
{
    if s.len() == 0 {
        seq![Entry { version: v, script: bytes }]
    } else if version_lt(s[0].version, v) {
        seq![s[0]] + add_model(s.skip(1), v, bytes)
    } else if s[0].version == v {
        seq![Entry { version: v, script: s[0].script + bytes }] + s.skip(1)
    } else {
        seq![Entry { version: v, script: bytes }] + s
    }
}

/// The fragment recorded for `v`, or the empty fragment if `v` is absent.
pub open spec fn fragment_of(s: Seq<Entry>, v: Version) -> Seq<u8>
    decreases s.len(),
{
    if s.len() == 0 {
        Seq::empty()
    } else if s[0].version == v {
        s[0].script
    } else {
        fragment_of(s.skip(1), v)
    }
}

/// A version that no entry carries has the empty fragment.
proof fn lemma_fragment_absent(s: Seq<Entry>, v: Version)
    requires
        forall|k: int| 0 <= k < s.len() ==> s[k].version != v,
    ensures
        fragment_of(s, v) == Seq::<u8>::empty(),
    decreases s.len(),
{
    if s.len() > 0 {
        lemma_fragment_absent(s.skip(1), v);
    }
}

/// In a sorted store, each entry's fragment is what `fragment_of` looks up
/// under that entry's version.
pub proof fn lemma_fragment_lookup(s: Seq<Entry>, j: int)
    requires
        sorted_strict(s),
        0 <= j < s.len(),
    ensures
        fragment_of(s, s[j].version) == s[j].script,
    decreases j,
{
    if j > 0 {
        let t = s.skip(1);
        assert(sorted_strict(t)) by {
            assert(forall|p: int| 0 <= p < t.len() ==> t[p] == s[p + 1]);
        }
        assert(version_lt(s[0].version, s[j].version));
        lemma_fragment_lookup(t, j - 1);
    }
}

/// Appending a fragment keeps the order strict, extends exactly the fragment
/// of `v`, and introduces no version beyond `v` and those already recorded.
pub proof fn lemma_add_model_props(s: Seq<Entry>, v: Version, bytes: Seq<u8>)
    requires
        sorted_strict(s),
    ensures
        sorted_strict(add_model(s, v, bytes)),
        fragment_of(add_model(s, v, bytes), v) == fragment_of(s, v) + bytes,
        forall|k: int|
            0 <= k < add_model(s, v, bytes).len() ==> (add_model(s, v, bytes)[k].version == v
                || exists|j: int|
                0 <= j < s.len() && s[j].version == #[trigger] add_model(s, v, bytes)[k].version),
    decreases s.len(),
{
    let r = add_model(s, v, bytes);
    if s.len() == 0 {
        assert(Seq::<u8>::empty() + bytes =~= bytes);
        assert(fragment_of(s, v) == Seq::<u8>::empty());
    } else if version_lt(s[0].version, v) {
        let t = s.skip(1);
        assert(sorted_strict(t)) by {
            assert(forall|i: int, j: int|
                0 <= i < j < t.len() ==> version_lt(t[i].version, t[j].version)) by {
                assert(forall|i: int| 0 <= i < t.len() ==> t[i] == s[i + 1]);
            }
        }
        lemma_add_model_props(t, v, bytes);
        let a = add_model(t, v, bytes);
        assert(r == seq![s[0]] + a);
        assert forall|i: int, j: int| 0 <= i < j < r.len() implies version_lt(
            r[i].version,
            r[j].version,
        ) by {
            if i == 0 {
                assert(r[j] == a[j - 1]);
                if a[j - 1].version == v {
                } else {
                    let w = choose|q: int| 0 <= q < t.len() && t[q].version == a[j - 1].version;
                    assert(t[w] == s[w + 1]);
                }
            } else {
                assert(r[i] == a[i - 1] && r[j] == a[j - 1]);
            }
        }
        assert(r[0].version != v);
        assert(r.skip(1) =~= a);
        assert(fragment_of(r, v) == fragment_of(a, v));
        assert(s[0].version != v);
        assert(fragment_of(s, v) == fragment_of(t, v));
        assert forall|k: int| 0 <= k < r.len() implies (r[k].version == v || exists|j: int|
            0 <= j < s.len() && s[j].version == #[trigger] r[k].version) by {
            if k == 0 {
                assert(s[0].version == r[0].version);
            } else {
                assert(r[k] == a[k - 1]);
                if a[k - 1].version != v {
                    let w = choose|q: int| 0 <= q < t.len() && t[q].version == a[k - 1].version;
                    assert(s[w + 1].version == r[k].version);
                }
            }
        }
    } else if s[0].version == v {
        let t = s.skip(1);
        assert(r == seq![Entry { version: v, script: s[0].script + bytes }] + t);
        assert forall|i: int, j: int| 0 <= i < j < r.len() implies version_lt(
            r[i].version,
            r[j].version,
        ) by {
            if i == 0 {
                assert(r[j] == s[j]);
                assert(version_lt(s[0].version, s[j].version));
            } else {
                assert(r[i] == s[i] && r[j] == s[j]);
            }
        }
        assert(fragment_of(r, v) == s[0].script + bytes);
        assert(fragment_of(s, v) == s[0].script);
        assert forall|k: int| 0 <= k < r.len() implies (r[k].version == v || exists|j: int|
            0 <= j < s.len() && s[j].version == #[trigger] r[k].version) by {
            if k > 0 {
                assert(s[k].version == r[k].version);
            }
        }
    } else {
        lemma_version_order_trichotomy(s[0].version, v);
        assert(version_lt(v, s[0].version));
        assert(r == seq![Entry { version: v, script: bytes }] + s);
        assert forall|i: int, j: int| 0 <= i < j < r.len() implies version_lt(
            r[i].version,
            r[j].version,
        ) by {
            if i == 0 {
                assert(r[j] == s[j - 1]);
                if j - 1 > 0 {
                    lemma_version_order_transitive(v, s[0].version, s[j - 1].version);
                }
            } else {
                assert(r[i] == s[i - 1] && r[j] == s[j - 1]);
            }
        }
        assert(fragment_of(r, v) == bytes);
        assert forall|k: int| 0 <= k < s.len() implies s[k].version != v by {
            if k > 0 {
                lemma_version_order_transitive(v, s[0].version, s[k].version);
            }
        }
        lemma_fragment_absent(s, v);
        assert(Seq::<u8>::empty() + bytes =~= bytes);
        assert forall|k: int| 0 <= k < r.len() implies (r[k].version == v || exists|j: int|
            0 <= j < s.len() && s[j].version == #[trigger] r[k].version) by {
            if k > 0 {
                assert(s[k - 1].version == r[k].version);
            }
        }
    }
}

/// Law of fragment accumulation: contributing `first` and then `second` to
/// the same version leaves that version with one fragment, their
/// concatenation in call order.
pub proof fn lemma_fragment_append_order(s: Seq<Entry>, v: Version, first: Seq<u8>, second: Seq<u8>)
    requires
        sorted_strict(s),
    ensures
        fragment_of(add_model(add_model(s, v, first), v, second), v) == fragment_of(s, v) + first
            + second,
{
    lemma_add_model_props(s, v, first);
    lemma_add_model_props(add_model(s, v, first), v, second);
}

/// Where `v` is already recorded at index `i`, appending rewrites that one
/// entry in place.
pub proof fn lemma_add_model_found(s: Seq<Entry>, v: Version, bytes: Seq<u8>, i: int)
    requires
        sorted_strict(s),
        0 <= i < s.len(),
        s[i].version == v,
        forall|j: int| 0 <= j < i ==> version_lt(s[j].version, v),
    ensures
        add_model(s, v, bytes) == s.update(
            i,
            Entry { version: v, script: s[i].script + bytes },
        ),
    decreases i,
{
    let e = Entry { version: v, script: s[i].script + bytes };
    if i == 0 {
        assert(!version_lt(s[0].version, v));
        assert(seq![e] + s.skip(1) =~= s.update(0, e));
    } else {
        let t = s.skip(1);
        assert(sorted_strict(t)) by {
            assert(forall|p: int| 0 <= p < t.len() ==> t[p] == s[p + 1]);
        }
        assert(forall|j: int| 0 <= j < i - 1 ==> version_lt(t[j].version, v));
        lemma_add_model_found(t, v, bytes, i - 1);
        assert(version_lt(s[0].version, v));
        assert(t[i - 1].script == s[i].script);
        assert(seq![s[0]] + t.update(i - 1, e) =~= s.update(i, e));
    }
}

/// Where `v` is not recorded, appending inserts a fresh entry at the ordered
/// position `i`.
pub proof fn lemma_add_model_fresh(s: Seq<Entry>, v: Version, bytes: Seq<u8>, i: int)
    requires
        sorted_strict(s),
        0 <= i <= s.len(),
        forall|j: int| 0 <= j < i ==> version_lt(s[j].version, v),
        i < s.len() ==> version_lt(v, s[i].version),
    ensures
        add_model(s, v, bytes) == s.insert(i, Entry { version: v, script: bytes }),
    decreases i,
{
    let e = Entry { version: v, script: bytes };
    if s.len() == 0 {
        assert(seq![e] =~= s.insert(0, e));
    } else if i == 0 {
        assert(!version_lt(s[0].version, v) && s[0].version != v) by {
            lemma_version_order_trichotomy(s[0].version, v);
        }
        assert(seq![e] + s =~= s.insert(0, e));
    } else {
        let t = s.skip(1);
        assert(sorted_strict(t)) by {
            assert(forall|p: int| 0 <= p < t.len() ==> t[p] == s[p + 1]);
        }
        assert(forall|j: int| 0 <= j < i - 1 ==> version_lt(t[j].version, v));
        assert(i - 1 < t.len() ==> version_lt(v, t[i - 1].version));
        lemma_add_model_fresh(t, v, bytes, i - 1);
        assert(version_lt(s[0].version, v));
        assert(seq![s[0]] + t.insert(i - 1, e) =~= s.insert(i, e));
    }
}

/// The ordered mapping from version to accumulated script fragment.
pub struct UpdateBuilder {
    pub(crate) entries: Vec<VersionedScript>,
}

impl View for UpdateBuilder {
    type V = Seq<Entry>;

    open(crate) spec fn view(&self) -> Seq<Entry> {
        self.entries@.map(|i: int, e: VersionedScript| Entry { version: e.version, script: e.script@ })
    }
}

impl UpdateBuilder {
    /// An empty store: no version recorded yet.
    pub fn new() -> (b: UpdateBuilder)
        ensures
            b@ == Seq::<Entry>::empty(),
            sorted_strict(b@),
    {
        let b = UpdateBuilder { entries: Vec::new() };
        proof {
            assert(b@ =~= Seq::<Entry>::empty());
        }
        b
    }

    /// Appends `item` to the fragment recorded for `version`, creating an
    /// entry holding exactly `item` if the version is new. Always succeeds;
    /// arrival order of the appended text is preserved verbatim.
    pub fn add_item(&mut self, version: Version, item: &Vec<u8>)
        requires
            sorted_strict(old(self)@),
        ensures
            final(self)@ == add_model(old(self)@, version, item@),
            sorted_strict(final(self)@),
    {
        proof {
            lemma_add_model_props(old(self)@, version, item@);
        }
        let ghost s = self@;
        let n = self.entries.len();
        let mut i: usize = 0;
        #[verifier::loop_isolation(false)]
        while i < n && self.entries[i].version.precedes(&version)
            invariant
                i <= n,
                forall|j: int| 0 <= j < i ==> version_lt(s[j].version, version),
            decreases n - i,
        {
            i = i + 1;
        }
        if i < n && self.entries[i].version == version {
            proof {
                lemma_add_model_found(s, version, item@, i as int);
            }
            let mut e = self.entries.remove(i);
            crate::assembly::append_bytes(&mut e.script, item);
            self.entries.insert(i, e);
            proof {
                assert(self@ =~= s.update(
                    i as int,
                    Entry { version, script: s[i as int].script + item@ },
                ));
            }
        } else {
            proof {
                if i < n {
                    lemma_version_order_trichotomy(s[i as int].version, version);
                }
                lemma_add_model_fresh(s, version, item@, i as int);
            }
            let mut script: Vec<u8> = Vec::new();
            crate::assembly::append_bytes(&mut script, item);
            self.entries.insert(i, VersionedScript { version, script });
            proof {
                assert(self@ =~= s.insert(i as int, Entry { version, script: item@ }));
            }
        }
    }

    /// The number of recorded versions.
    pub fn len(&self) -> (n: usize)
        ensures
            n == self@.len(),
    {
        self.entries.len()
    }

    /// The version at position `i` of the canonical ascending order.
    pub fn version_at(&self, i: usize) -> (v: Version)
        requires
            i < self@.len(),
        ensures
            v == self@[i as int].version,
    {
        self.entries[i].version
    }

    /// A copy of the accumulated fragment at position `i` of the canonical
    /// ascending order.
    pub fn fragment_at(&self, i: usize) -> (f: Vec<u8>)
        requires
            i < self@.len(),
        ensures
            f@ == self@[i as int].script,
    {
        crate::assembly::copy_bytes(&self.entries[i].script)
    }
}

} // verus!
