//! The objects that a node of the retention tree holds: each object's id with
//! its size in bytes.

use vstd::prelude::*;
use crate::format::{decimal, decimal_string, group_digits, separate_by_policy};

verus! {

/// Index of the first pair of `s` whose first component is `k`, or `-1`.
pub open spec fn index_of_key<V>(s: Seq<(usize, V)>, k: usize) -> int
    decreases s.len(),
{
    if s.len() == 0 {
        -1
    } else if s[0].0 == k {
        0
    } else {
        let r = index_of_key(s.drop_first(), k);
        if r < 0 {
            -1
        } else {
            r + 1
        }
    }
}

/// No key occurs twice.
pub open spec fn keys_distinct<V>(s: Seq<(usize, V)>) -> bool {
    forall|i: int, j: int| 0 <= i < j < s.len() ==> s[i].0 != s[j].0
}

/// The key set of a sequence of pairs.
pub open spec fn key_set<V>(s: Seq<(usize, V)>) -> Set<usize> {
    Set::new(|k: usize| exists|i: int| 0 <= i < s.len() && s[i].0 == k)
}

/// Inserting `(k, v)`: an entry with key `k` is given the value `v` in place,
/// otherwise the pair is added at the end.
pub open spec fn insert_entry(s: Seq<(usize, usize)>, k: usize, v: usize) -> Seq<(usize, usize)> {
    let i = index_of_key(s, k);
    if i >= 0 {
        s.update(i, (k, v))
    } else {
        s.push((k, v))
    }
}

/// Inserting every pair of `other` into `acc`, in order.
pub open spec fn extend_entries(acc: Seq<(usize, usize)>, other: Seq<(usize, usize)>) -> Seq<
    (usize, usize),
>
    decreases other.len(),
{
    if other.len() == 0 {
        acc
    } else {
        let prev = extend_entries(acc, other.drop_last());
        insert_entry(prev, other.last().0, other.last().1)
    }
}

/// Sum of the sizes.
pub open spec fn sum_sizes(s: Seq<(usize, usize)>) -> nat
    decreases s.len(),
{
    if s.len() == 0 {
        0
    } else {
        sum_sizes(s.drop_last()) + (s.last().1 as nat)
    }
}

/// The one-line summary of a set of objects:
/// `(<total> bytes) - <count>`, the total written with a comma between groups
/// of three digits, or as `???` where it is zero.
pub open spec fn summary_text(s: Seq<(usize, usize)>) -> Seq<char> {
    let total = if sum_sizes(s) > 0 {
        group_digits(decimal(sum_sizes(s)), ","@, 3)
    } else {
        "???"@
    };
    "("@ + total + " bytes) - "@ + decimal(s.len())
}

pub proof fn lemma_index_of_key<V>(s: Seq<(usize, V)>, k: usize)
    ensures
        -1 <= index_of_key(s, k) < s.len(),
        index_of_key(s, k) == -1 <==> (forall|j: int| 0 <= j < s.len() ==> s[j].0 != k),
        index_of_key(s, k) >= 0 ==> s[index_of_key(s, k)].0 == k && (forall|j: int|
            0 <= j < index_of_key(s, k) ==> s[j].0 != k),
    decreases s.len(),
{
    if s.len() > 0 && s[0].0 != k {
        lemma_index_of_key(s.drop_first(), k);
        assert forall|j: int| 0 < j < s.len() implies s[j] == s.drop_first()[j - 1] by {}
    }
}

pub proof fn lemma_insert_entry(s: Seq<(usize, usize)>, k: usize, v: usize)
    requires
        keys_distinct(s),
    ensures
        keys_distinct(insert_entry(s, k, v)),
        key_set(insert_entry(s, k, v)) == key_set(s).insert(k),
        insert_entry(s, k, v).len() == if key_set(s).contains(k) { s.len() } else { s.len() + 1 },
{
    lemma_index_of_key(s, k);
    let r = insert_entry(s, k, v);
    let i = index_of_key(s, k);
    if i >= 0 {
        assert(key_set(s).contains(k));
        assert forall|x: usize| key_set(r).contains(x) <==> key_set(s).insert(k).contains(x) by {
            if key_set(s).contains(x) {
                let j = choose|j: int| 0 <= j < s.len() && s[j].0 == x;
                assert(r[j].0 == x);
            }
            if key_set(r).contains(x) {
                let j = choose|j: int| 0 <= j < r.len() && r[j].0 == x;
                assert(s[j].0 == x || j == i);
            }
        }
        assert(key_set(r) =~= key_set(s).insert(k));
    } else {
        assert(!key_set(s).contains(k));
        assert forall|x: usize| key_set(r).contains(x) <==> key_set(s).insert(k).contains(x) by {
            if key_set(s).contains(x) {
                let j = choose|j: int| 0 <= j < s.len() && s[j].0 == x;
                assert(r[j].0 == x);
            }
            if x == k {
                assert(r[s.len() as int].0 == x);
            }
            if key_set(r).contains(x) {
                let j = choose|j: int| 0 <= j < r.len() && r[j].0 == x;
                if j < s.len() {
                    assert(s[j].0 == x);
                }
            }
        }
        assert(key_set(r) =~= key_set(s).insert(k));
    }
}

/// The objects of a node: pairs of object id and size in bytes, each object
/// at most once, in the order in which they were first inserted.
#[derive(Debug)]
pub struct References {
    entries: Vec<(usize, usize)>,
}

impl View for References {
    type V = Seq<(usize, usize)>;

    closed spec fn view(&self) -> Seq<(usize, usize)> {
        self.entries@
    }
}

impl References {
    #[verifier::type_invariant]
    spec fn inv(self) -> bool {
        keys_distinct(self.entries@)
    }

    /// An empty set of objects.
    pub fn new() -> (r: Self)
        ensures
            r@ == Seq::<(usize, usize)>::empty(),
    {
        References { entries: Vec::new() }
    }

    /// Number of objects.
    pub fn len(&self) -> (n: usize)
        ensures
            n == self@.len(),
    {
        self.entries.len()
    }

    /// The `i`-th pair of object id and size.
    pub fn entry(&self, i: usize) -> (e: (usize, usize))
        requires
            i < self@.len(),
        ensures
            e == self@[i as int],
    {
        self.entries[i]
    }

    /// Records `size` for `object_id`: replaces the size of an object already
    /// held, or adds the object at the end.
    pub fn insert(&mut self, object_id: usize, size: usize)
        ensures
            final(self)@ == insert_entry(old(self)@, object_id, size),
            keys_distinct(final(self)@),
    {
        proof {
            use_type_invariant(&*self);
            lemma_index_of_key(self@, object_id);
            lemma_insert_entry(self@, object_id, size);
        }
        let mut i: usize = 0;
        while i < self.entries.len()
            invariant
                i <= self.entries@.len(),
                self.entries@ == old(self).entries@,
                forall|j: int| 0 <= j < i ==> self.entries@[j].0 != object_id,
            decreases self.entries@.len() - i,
        {
            if self.entries[i].0 == object_id {
                proof {
                    use_type_invariant(&*self);
                    lemma_index_of_key(self@, object_id);
                    lemma_insert_entry(self@, object_id, size);
                }
                let mut entries = Vec::new();
                std::mem::swap(&mut entries, &mut self.entries);
                entries[i] = (object_id, size);
                self.entries = entries;
                return;
            }
            i = i + 1;
        }
        let mut entries = Vec::new();
        std::mem::swap(&mut entries, &mut self.entries);
        entries.push((object_id, size));
        self.entries = entries;
    }

    /// Inserts every object of `other`, in its order (a later size replaces
    /// an earlier one).
    pub fn add_assign(&mut self, other: &References)
        ensures
            final(self)@ == extend_entries(old(self)@, other@),
            keys_distinct(final(self)@),
    {
        proof {
            use_type_invariant(&*self);
        }
        let n = other.len();
        let mut i: usize = 0;
        while i < n
            invariant
                n == other@.len(),
                i <= n,
                self@ == extend_entries(old(self)@, other@.take(i as int)),
                keys_distinct(self@),
            decreases n - i,
        {
            let (k, v) = other.entry(i);
            proof {
                assert(other@.take(i + 1).drop_last() =~= other@.take(i as int));
            }
            self.insert(k, v);
            i = i + 1;
        }
        assert(other@.take(n as int) =~= other@);
    }

    /// Sum of the sizes of the objects.
    pub fn total_size(&self) -> (t: u128)
        ensures
            t == sum_sizes(self@),
    {
        let n = self.entries.len();
        let mut total: u128 = 0;
        let mut i: usize = 0;
        while i < n
            invariant
                n == self.entries@.len(),
                i <= n,
                total == sum_sizes(self@.take(i as int)),
                total <= i * (usize::MAX as int),
            decreases n - i,
        {
            proof {
                assert(self@.take(i + 1).drop_last() =~= self@.take(i as int));
                assert((i + 1) * (usize::MAX as int) <= (usize::MAX as int) * (usize::MAX as int))
                    by (nonlinear_arith)
                    requires
                        i < n,
                        n <= usize::MAX,
                ;
                assert((usize::MAX as int) * (usize::MAX as int) < u128::MAX) by (nonlinear_arith)
                    requires
                        usize::MAX <= u64::MAX,
                ;
                assert(i * (usize::MAX as int) + (usize::MAX as int) == (i + 1) * (usize::MAX as int))
                    by (nonlinear_arith);
            }
            total = total + self.entries[i].1 as u128;
            i = i + 1;
        }
        assert(self@.take(n as int) =~= self@);
        total
    }

    /// The summary line of these objects: `(<total> bytes) - <count>`.
    pub fn to_string(&self) -> (s: String)
        ensures
            s@ == summary_text(self@),
    {
        let total = self.total_size();
        let mut s = String::from_str("(");
        if total > 0 {
            let t = separate_by_policy(total, ",", 3);
            s.append(t.as_str());
        } else {
            s.append("???");
        }
        s.append(" bytes) - ");
        let count = decimal_string(self.entries.len() as u128);
        s.append(count.as_str());
        s
    }

    /// A copy holding the same objects in the same order.
    pub fn duplicate(&self) -> (r: References)
        ensures
            r@ == self@,
    {
        proof {
            use_type_invariant(self);
        }
        let n = self.entries.len();
        let mut entries: Vec<(usize, usize)> = Vec::new();
        let mut i: usize = 0;
        while i < n
            invariant
                n == self.entries@.len(),
                i <= n,
                entries@ == self.entries@.take(i as int),
            decreases n - i,
        {
            entries.push(self.entries[i]);
            proof {
                assert(entries@ =~= self.entries@.take(i + 1));
            }
            i = i + 1;
        }
        assert(entries@ =~= self.entries@);
        References { entries }
    }
}

impl Default for References {
    fn default() -> (r: Self)
        ensures
            r@ == Seq::<(usize, usize)>::empty(),
    {
        References::new()
    }
}

} // verus!
