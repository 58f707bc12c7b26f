//! An insertion-ordered key/value mapping over byte strings, with a
//! mathematical model as a sequence of pairs. Inserting an existing key
//! overwrites its value in place (last write wins); a new key is appended.

use vstd::prelude::*;
use crate::bytes::copy_range;

verus! {

/// Whether the association list `m` binds the key `k`.
pub open spec fn map_contains(m: Seq<(Seq<u8>, Seq<u8>)>, k: Seq<u8>) -> bool
    decreases m.len(),
{
    m.len() > 0 && (m[0].0 == k || map_contains(m.drop_first(), k))
}

/// The value the association list `m` binds to `k`; the empty byte string
/// when `k` is unbound.
pub open spec fn map_lookup(m: Seq<(Seq<u8>, Seq<u8>)>, k: Seq<u8>) -> Seq<u8>
    decreases m.len(),
{
    if m.len() == 0 {
        Seq::empty()
    } else if m[0].0 == k {
        m[0].1
    } else {
        map_lookup(m.drop_first(), k)
    }
}

/// `m` with `k` bound to `v`: the first binding of `k` is overwritten in
/// place, or the pair is appended when `k` is unbound.
pub open spec fn map_insert(m: Seq<(Seq<u8>, Seq<u8>)>, k: Seq<u8>, v: Seq<u8>) -> Seq<
    (Seq<u8>, Seq<u8>),
>
    decreases m.len(),
{
    if m.len() == 0 {
        seq![(k, v)]
    } else if m[0].0 == k {
        seq![(k, v)] + m.drop_first()
    } else {
        seq![m[0]] + map_insert(m.drop_first(), k, v)
    }
}

/// A key is bound exactly when some pair carries it.
pub proof fn lemma_contains_exists(m: Seq<(Seq<u8>, Seq<u8>)>, k: Seq<u8>)
    ensures
        map_contains(m, k) <==> exists|i: int| 0 <= i < m.len() && (#[trigger] m[i]).0 == k,
    decreases m.len(),
{
    if m.len() > 0 {
        lemma_contains_exists(m.drop_first(), k);
        if m[0].0 == k {
        } else if map_contains(m.drop_first(), k) {
            let i = choose|i: int|
                0 <= i < m.drop_first().len() && (#[trigger] m.drop_first()[i]).0 == k;
            assert(m[i + 1] == m.drop_first()[i]);
        } else {
            if exists|i: int| 0 <= i < m.len() && (#[trigger] m[i]).0 == k {
                let i = choose|i: int| 0 <= i < m.len() && (#[trigger] m[i]).0 == k;
                assert(i > 0);
                assert(m.drop_first()[i - 1] == m[i]);
            }
        }
    }
}

/// Inserting binds `k` and no other new key.
pub proof fn lemma_insert_contains(m: Seq<(Seq<u8>, Seq<u8>)>, k: Seq<u8>, v: Seq<u8>, q: Seq<u8>)
    ensures
        map_contains(map_insert(m, k, v), q) <==> (q == k || map_contains(m, q)),
    decreases m.len(),
{
    let r = map_insert(m, k, v);
    if m.len() == 0 {
        assert(r == seq![(k, v)]);
        assert(r.drop_first() =~= Seq::<(Seq<u8>, Seq<u8>)>::empty());
        assert(map_contains(r, q) == (r[0].0 == q || map_contains(r.drop_first(), q)));
    } else if m[0].0 == k {
        assert(r[0] == (k, v));
        assert(r.drop_first() =~= m.drop_first());
        assert(map_contains(r, q) == (r[0].0 == q || map_contains(r.drop_first(), q)));
        assert(map_contains(m, q) == (m[0].0 == q || map_contains(m.drop_first(), q)));
    } else {
        lemma_insert_contains(m.drop_first(), k, v, q);
        assert(r[0] == m[0]);
        assert(r.drop_first() =~= map_insert(m.drop_first(), k, v));
        assert(map_contains(r, q) == (r[0].0 == q || map_contains(r.drop_first(), q)));
        assert(map_contains(m, q) == (m[0].0 == q || map_contains(m.drop_first(), q)));
    }
}

/// Inserting sets the value of `k` and leaves every other lookup alone.
pub proof fn lemma_insert_lookup(m: Seq<(Seq<u8>, Seq<u8>)>, k: Seq<u8>, v: Seq<u8>, q: Seq<u8>)
    ensures
        map_lookup(map_insert(m, k, v), q) == if q == k {
            v
        } else {
            map_lookup(m, q)
        },
    decreases m.len(),
{
    let r = map_insert(m, k, v);
    if m.len() == 0 {
        assert(r == seq![(k, v)]);
        assert(r.drop_first() =~= Seq::<(Seq<u8>, Seq<u8>)>::empty());
        assert(r[0].0 == q ==> map_lookup(r, q) == r[0].1);
        assert(r[0].0 != q ==> map_lookup(r, q) == map_lookup(r.drop_first(), q));
    } else if m[0].0 == k {
        assert(r[0] == (k, v));
        assert(r.drop_first() =~= m.drop_first());
        assert(r[0].0 == q ==> map_lookup(r, q) == r[0].1);
        assert(r[0].0 != q ==> map_lookup(r, q) == map_lookup(r.drop_first(), q));
    } else {
        lemma_insert_lookup(m.drop_first(), k, v, q);
        assert(r[0] == m[0]);
        assert(r.drop_first() =~= map_insert(m.drop_first(), k, v));
        assert(r[0].0 == q ==> map_lookup(r, q) == r[0].1);
        assert(r[0].0 != q ==> map_lookup(r, q) == map_lookup(r.drop_first(), q));
    }
}

/// Inserting an unbound key appends the pair.
pub proof fn lemma_insert_absent(m: Seq<(Seq<u8>, Seq<u8>)>, k: Seq<u8>, v: Seq<u8>)
    requires
        !map_contains(m, k),
    ensures
        map_insert(m, k, v) == m.push((k, v)),
    decreases m.len(),
{
    if m.len() == 0 {
        assert(map_insert(m, k, v) =~= m.push((k, v)));
    } else {
        lemma_insert_absent(m.drop_first(), k, v);
        assert(map_insert(m, k, v) =~= m.push((k, v)));
    }
}

/// Inserting a key whose first binding stands at `i` updates that pair.
pub proof fn lemma_insert_found(m: Seq<(Seq<u8>, Seq<u8>)>, k: Seq<u8>, v: Seq<u8>, i: int)
    requires
        0 <= i < m.len(),
        m[i].0 == k,
        forall|j: int| 0 <= j < i ==> (#[trigger] m[j]).0 != k,
    ensures
        map_insert(m, k, v) == m.update(i, (k, v)),
    decreases m.len(),
{
    if m[0].0 == k {
        assert(i == 0);
        assert(map_insert(m, k, v) =~= m.update(0, (k, v)));
    } else {
        assert(i > 0);
        assert forall|j: int| 0 <= j < i - 1 implies (#[trigger] m.drop_first()[j]).0 != k by {
            assert(m.drop_first()[j] == m[j + 1]);
        }
        assert(m.drop_first()[i - 1] == m[i]);
        lemma_insert_found(m.drop_first(), k, v, i - 1);
        assert(map_insert(m, k, v) =~= m.update(i, (k, v)));
    }
}

/// The value of a key whose first binding stands at `i` is that pair's.
pub proof fn lemma_lookup_found(m: Seq<(Seq<u8>, Seq<u8>)>, k: Seq<u8>, i: int)
    requires
        0 <= i < m.len(),
        m[i].0 == k,
        forall|j: int| 0 <= j < i ==> (#[trigger] m[j]).0 != k,
    ensures
        map_lookup(m, k) == m[i].1,
    decreases m.len(),
{
    if m[0].0 == k {
        assert(i == 0);
    } else {
        assert(i > 0);
        assert forall|j: int| 0 <= j < i - 1 implies (#[trigger] m.drop_first()[j]).0 != k by {
            assert(m.drop_first()[j] == m[j + 1]);
        }
        assert(m.drop_first()[i - 1] == m[i]);
        lemma_lookup_found(m.drop_first(), k, i - 1);
    }
}

/// Byte-string equality.
pub fn bytes_eq(a: &Vec<u8>, b: &Vec<u8>) -> (r: bool)
    ensures
        r == (a@ == b@),
{
    if a.len() != b.len() {
        return false;
    }
    let mut i: usize = 0;
    while i < a.len()
        invariant
            i <= a@.len(),
            a@.len() == b@.len(),
            forall|j: int| 0 <= j < i ==> a@[j] == b@[j],
        decreases a@.len() - i,
    {
        if a[i] != b[i] {
            return false;
        }
        i = i + 1;
    }
    proof {
        assert(a@ =~= b@);
    }
    true
}

/// An insertion-ordered mapping from byte-string keys to byte-string values.
pub struct EnvMap {
    pairs: Vec<(Vec<u8>, Vec<u8>)>,
}

impl View for EnvMap {
    type V = Seq<(Seq<u8>, Seq<u8>)>;

    closed spec fn view(&self) -> Seq<(Seq<u8>, Seq<u8>)> {
        Seq::new(self.pairs@.len(), |i: int| (self.pairs@[i].0@, self.pairs@[i].1@))
    }
}

impl EnvMap {
    /// An empty mapping.
    pub fn new() -> (r: EnvMap)
        ensures
            r@ == Seq::<(Seq<u8>, Seq<u8>)>::empty(),
    {
        let r = EnvMap { pairs: Vec::new() };
        proof {
            assert(r@ =~= Seq::<(Seq<u8>, Seq<u8>)>::empty());
        }
        r
    }

    /// How many keys are bound.
    pub fn len(&self) -> (n: usize)
        ensures
            n == self@.len(),
    {
        self.pairs.len()
    }

    /// The key of the `i`-th binding, in insertion order.
    pub fn key_at(&self, i: usize) -> (k: &Vec<u8>)
        requires
            i < self@.len(),
        ensures
            k@ == self@[i as int].0,
    {
        &self.pairs[i].0
    }

    /// The value of the `i`-th binding, in insertion order.
    pub fn value_at(&self, i: usize) -> (v: &Vec<u8>)
        requires
            i < self@.len(),
        ensures
            v@ == self@[i as int].1,
    {
        &self.pairs[i].1
    }

    /// Whether `k` is bound.
    pub fn contains_key(&self, k: &Vec<u8>) -> (r: bool)
        ensures
            r == map_contains(self@, k@),
    {
        let mut i: usize = 0;
        while i < self.pairs.len()
            invariant
                i <= self@.len(),
                self@.len() == self.pairs@.len(),
                forall|j: int| 0 <= j < self@.len() ==> (#[trigger] self@[j]).0 == self.pairs@[j].0@,
                forall|j: int| 0 <= j < i ==> (#[trigger] self@[j]).0 != k@,
            decreases self.pairs@.len() - i,
        {
            if bytes_eq(&self.pairs[i].0, k) {
                proof {
                    assert(self@[i as int].0 == k@);
                    lemma_contains_exists(self@, k@);
                }
                return true;
            }
            i = i + 1;
        }
        proof {
            lemma_contains_exists(self@, k@);
        }
        false
    }

    /// The value bound to `k`, freshly copied, or `None` when `k` is unbound.
    pub fn get(&self, k: &Vec<u8>) -> (r: Option<Vec<u8>>)
        ensures
            match r {
                Some(v) => map_contains(self@, k@) && v@ == map_lookup(self@, k@),
                None => !map_contains(self@, k@),
            },
    {
        let mut i: usize = 0;
        while i < self.pairs.len()
            invariant
                i <= self@.len(),
                self@.len() == self.pairs@.len(),
                forall|j: int| 0 <= j < self@.len() ==> (#[trigger] self@[j]).0 == self.pairs@[j].0@
                    && self@[j].1 == self.pairs@[j].1@,
                forall|j: int| 0 <= j < i ==> (#[trigger] self@[j]).0 != k@,
            decreases self.pairs@.len() - i,
        {
            if bytes_eq(&self.pairs[i].0, k) {
                proof {
                    lemma_contains_exists(self@, k@);
                    lemma_lookup_found(self@, k@, i as int);
                }
                let v = &self.pairs[i].1;
                return Some(copy_range(v, 0, v.len()));
            }
            i = i + 1;
        }
        proof {
            lemma_contains_exists(self@, k@);
        }
        None
    }

    /// Bind `k` to `v`: overwrite the first binding of `k` in place, or
    /// append the pair when `k` is unbound.
    pub fn insert(&mut self, k: Vec<u8>, v: Vec<u8>)
        ensures
            final(self)@ == map_insert(old(self)@, k@, v@),
    {
        let mut i: usize = 0;
        while i < self.pairs.len()
            invariant
                i <= self@.len(),
                self@.len() == self.pairs@.len(),
                forall|j: int| 0 <= j < self@.len() ==> (#[trigger] self@[j]).0 == self.pairs@[j].0@,
                forall|j: int| 0 <= j < i ==> (#[trigger] self@[j]).0 != k@,
                self == old(self),
            decreases self.pairs@.len() - i,
        {
            if bytes_eq(&self.pairs[i].0, &k) {
                proof {
                    lemma_insert_found(self@, k@, v@, i as int);
                }
                self.pairs[i] = (k, v);
                proof {
                    assert(self@ =~= map_insert(old(self)@, k@, v@));
                }
                return ;
            }
            i = i + 1;
        }
        proof {
            lemma_contains_exists(self@, k@);
            lemma_insert_absent(self@, k@, v@);
        }
        self.pairs.push((k, v));
        proof {
            assert(self@ =~= map_insert(old(self)@, k@, v@));
        }
    }
}

} // verus!
