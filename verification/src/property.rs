//! Property values and the ordered map of named properties that a file
//! holds.

use crate::text::{same_text, views};
use vstd::prelude::*;

verus! {

/// One property value.
pub enum Property {
    /// A flag.
    Boolean(bool),
    /// An unsigned integer.
    Integer(u32),
    /// A single-precision number, held as its IEEE-754 bit pattern.
    Float(u32),
    /// A text.
    String(String),
    /// A list of texts.
    List(Vec<String>),
    /// A value of a type this library does not interpret: its bytes and its
    /// type tag.
    Unknown(Vec<u8>, u8),
}

/// The mathematical value of a [`Property`].
pub enum PropertyView {
    Boolean(bool),
    Integer(u32),
    Float(u32),
    String(Seq<char>),
    List(Seq<Seq<char>>),
    Unknown(Seq<u8>, u8),
}

impl View for Property {
    type V = PropertyView;

    open spec fn view(&self) -> PropertyView {
        match self {
            Property::Boolean(b) => PropertyView::Boolean(*b),
            Property::Integer(n) => PropertyView::Integer(*n),
            Property::Float(bits) => PropertyView::Float(*bits),
            Property::String(s) => PropertyView::String(s@),
            Property::List(items) => PropertyView::List(views(items@)),
            Property::Unknown(bytes, tag) => PropertyView::Unknown(bytes@, *tag),
        }
    }
}

/// The entries of a map: names with their values, in order.
pub open spec fn entry_views(entries: Seq<(String, Property)>) -> Seq<(Seq<char>, PropertyView)> {
    entries.map_values(|e: (String, Property)| (e.0@, e.1@))
}

/// No name occurs twice.
pub open spec fn distinct_keys(m: Seq<(Seq<char>, PropertyView)>) -> bool {
    forall|i: int, j: int| 0 <= i < j < m.len() ==> (#[trigger] m[i]).0 != (#[trigger] m[j]).0
}

/// The position of the last entry named `k`, or `-1`.
pub open spec fn key_index(m: Seq<(Seq<char>, PropertyView)>, k: Seq<char>) -> int
    decreases m.len(),
{
    if m.len() == 0 {
        -1
    } else if m.last().0 == k {
        m.len() - 1
    } else {
        key_index(m.drop_last(), k)
    }
}

/// The value named `k`, if any.
pub open spec fn lookup(m: Seq<(Seq<char>, PropertyView)>, k: Seq<char>) -> Option<PropertyView> {
    let i = key_index(m, k);
    if i >= 0 {
        Some(m[i].1)
    } else {
        None
    }
}

/// The entries after setting the value named `k` to `v`: an entry of that
/// name keeps its place, otherwise the new entry comes last.
pub open spec fn with_entry(
    m: Seq<(Seq<char>, PropertyView)>,
    k: Seq<char>,
    v: PropertyView,
) -> Seq<(Seq<char>, PropertyView)> {
    let i = key_index(m, k);
    if i >= 0 {
        m.update(i, (k, v))
    } else {
        m.push((k, v))
    }
}

/// `key_index` finds an entry of the name asked for, and `-1` means there is
/// none.
pub proof fn lemma_key_index(m: Seq<(Seq<char>, PropertyView)>, k: Seq<char>)
    ensures
        -1 <= key_index(m, k) < m.len(),
        key_index(m, k) >= 0 ==> m[key_index(m, k)].0 == k,
        key_index(m, k) == -1 ==> forall|j: int| 0 <= j < m.len() ==> (#[trigger] m[j]).0 != k,
        forall|j: int| key_index(m, k) < j < m.len() ==> (#[trigger] m[j]).0 != k,
    decreases m.len(),
{
    if m.len() > 0 {
        lemma_key_index(m.drop_last(), k);
        assert forall|j: int| 0 <= j < m.len() - 1 implies (#[trigger] m[j]) == m.drop_last()[j] by {}
    }
}

/// With distinct names, the entry at `i` is the one found under its name.
pub proof fn lemma_key_index_distinct(m: Seq<(Seq<char>, PropertyView)>, i: int)
    requires
        distinct_keys(m),
        0 <= i < m.len(),
    ensures
        key_index(m, m[i].0) == i,
{
    lemma_key_index(m, m[i].0);
    let j = key_index(m, m[i].0);
    if j != i {
        if j >= 0 {
            if j < i {
                assert(m[j].0 != m[i].0);
            } else {
                assert(m[i].0 != m[j].0);
            }
        }
    }
}

/// Setting a value keeps the names distinct.
pub proof fn lemma_with_entry_distinct(m: Seq<(Seq<char>, PropertyView)>, k: Seq<char>, v: PropertyView)
    requires
        distinct_keys(m),
    ensures
        distinct_keys(with_entry(m, k, v)),
        key_index(with_entry(m, k, v), k) >= 0,
        lookup(with_entry(m, k, v), k) == Some(v),
        forall|k2: Seq<char>| k2 != k ==> lookup(#[trigger] with_entry(m, k, v), k2) == lookup(m, k2),
{
    lemma_key_index(m, k);
    let r = with_entry(m, k, v);
    assert(distinct_keys(r)) by {
        assert forall|i: int, j: int| 0 <= i < j < r.len() implies (#[trigger] r[i]).0 != (
        #[trigger] r[j]).0 by {
            if key_index(m, k) < 0 && j == m.len() {
                assert(m[i].0 != k);
            }
        }
    }
    let idx = if key_index(m, k) >= 0 {
        key_index(m, k)
    } else {
        m.len() as int
    };
    assert(r[idx].0 == k);
    lemma_key_index_distinct(r, idx);
    assert forall|k2: Seq<char>| k2 != k implies lookup(#[trigger] with_entry(m, k, v), k2) == lookup(
        m,
        k2,
    ) by {
        lemma_key_index(m, k2);
        lemma_key_index(r, k2);
        let a = key_index(m, k2);
        let b = key_index(r, k2);
        if a >= 0 {
            assert(r[a] == m[a]);
            lemma_key_index_distinct(r, a);
            lemma_key_index_distinct(m, a);
        } else if b >= 0 {
            if b < m.len() {
                assert(r[b] == m[b] || b == idx);
            }
        }
    }
}

/// Setting a name to the value it already has changes nothing.
pub proof fn lemma_with_entry_same(m: Seq<(Seq<char>, PropertyView)>, k: Seq<char>, v: PropertyView)
    requires
        lookup(m, k) == Some(v),
    ensures
        with_entry(m, k, v) == m,
{
    lemma_key_index(m, k);
    assert(with_entry(m, k, v) =~= m);
}

/// Setting a name twice is setting it to the second value.
pub proof fn lemma_with_entry_twice(
    m: Seq<(Seq<char>, PropertyView)>,
    k: Seq<char>,
    v1: PropertyView,
    v2: PropertyView,
)
    requires
        distinct_keys(m),
    ensures
        with_entry(with_entry(m, k, v1), k, v2) == with_entry(m, k, v2),
{
    lemma_key_index(m, k);
    let m1 = with_entry(m, k, v1);
    lemma_with_entry_distinct(m, k, v1);
    lemma_key_index(m1, k);
    let i = key_index(m1, k);
    if key_index(m, k) >= 0 {
        lemma_key_index_distinct(m1, key_index(m, k));
        assert(with_entry(m1, k, v2) =~= with_entry(m, k, v2));
    } else {
        lemma_key_index_distinct(m1, m.len() as int);
        assert(with_entry(m1, k, v2) =~= with_entry(m, k, v2));
    }
}

/// An ordered map from names to properties in which no name occurs twice.
pub struct PropertyMap {
    entries: Vec<(String, Property)>,
}

impl View for PropertyMap {
    type V = Seq<(Seq<char>, PropertyView)>;

    closed spec fn view(&self) -> Seq<(Seq<char>, PropertyView)> {
        entry_views(self.entries@)
    }
}

impl PropertyMap {
    /// The map's invariant: no name occurs twice.
    #[verifier::type_invariant]
    pub open spec fn wf(&self) -> bool {
        distinct_keys(self@)
    }

    /// An empty map.
    pub fn new() -> (m: PropertyMap)
        ensures
            m@ == Seq::<(Seq<char>, PropertyView)>::empty(),
    {
        let m = PropertyMap { entries: Vec::new() };
        assert(m@ =~= Seq::<(Seq<char>, PropertyView)>::empty());
        m
    }

    /// The number of entries.
    pub fn len(&self) -> (n: usize)
        ensures
            n == self@.len(),
    {
        self.entries.len()
    }

    /// The name of the entry at `i`.
    pub fn key_at(&self, i: usize) -> (k: &String)
        requires
            i < self@.len(),
        ensures
            k@ == self@[i as int].0,
    {
        &self.entries[i].0
    }

    /// The value of the entry at `i`.
    pub fn value_at(&self, i: usize) -> (p: &Property)
        requires
            i < self@.len(),
        ensures
            p@ == self@[i as int].1,
    {
        &self.entries[i].1
    }

    /// The position of the entry named `key`.
    pub fn find(&self, key: &str) -> (r: Option<usize>)
        ensures
            match r {
                Some(i) => i as int == key_index(self@, key@) && i < self@.len(),
                None => key_index(self@, key@) == -1,
            },
    {
        let mut i: usize = self.entries.len();
        let ghost m = self@;
        proof {
            lemma_key_index(m, key@);
        }
        assert(m.take(m.len() as int) =~= m);
        while i > 0
            invariant
                i <= m.len(),
                m == self@,
                key_index(m, key@) == key_index(m.take(i as int), key@),
                -1 <= key_index(m, key@) < m.len(),
            decreases i,
        {
            let eq = same_text(self.entries[i - 1].0.as_str(), key);
            assert(m.take(i as int).last() == m[i - 1]);
            assert(m.take(i as int).drop_last() == m.take(i - 1));
            if eq {
                return Some(i - 1);
            }
            i = i - 1;
        }
        assert(m.take(0) =~= Seq::<(Seq<char>, PropertyView)>::empty());
        None
    }

    /// The value named `key`, if any.
    pub fn get(&self, key: &str) -> (r: Option<&Property>)
        ensures
            match r {
                Some(p) => lookup(self@, key@) == Some(p@),
                None => lookup(self@, key@) is None,
            },
    {
        match self.find(key) {
            Some(i) => Some(&self.entries[i].1),
            None => None,
        }
    }

    /// Sets the value named `key`: an entry of that name keeps its place,
    /// otherwise the entry is added last.
    pub fn insert(&mut self, key: String, value: Property)
        ensures
            final(self)@ == with_entry(old(self)@, key@, value@),
    {
        proof {
            use_type_invariant(&*self);
            lemma_with_entry_distinct(self@, key@, value@);
        }
        let ghost k = key@;
        let ghost v = value@;
        let found = self.find(key.as_str());
        let mut entries: Vec<(String, Property)> = Vec::new();
        std::mem::swap(&mut entries, &mut self.entries);
        match found {
            Some(i) => {
                entries.set(i, (key, value));
            },
            None => {
                entries.push((key, value));
            },
        }
        assert(entry_views(entries@) =~= with_entry(old(self)@, k, v));
        self.entries = entries;
    }
}

} // verus!
