//! A small set backed by a vector, kept in insertion order.
use vstd::prelude::*;
use vstd::laws_eq::obeys_concrete_eq;

verus! {

/// No element occurs twice.
pub open spec fn elems_unique<T>(s: Seq<T>) -> bool {
    forall|i: int, j: int| 0 <= i < s.len() && 0 <= j < s.len() && i != j ==> #[trigger] s[i] != #[trigger] s[j]
}

/// A set of `T` stored as a vector without duplicates, in insertion order.
#[derive(Debug, Clone)]
pub struct VecSet<T> {
    inner: Vec<T>,
}

impl<T> View for VecSet<T> {
    type V = Set<T>;

    open spec fn view(&self) -> Set<T> {
        self.elems().to_set()
    }
}

impl<T> VecSet<T> {
    /// The stored elements in storage order.
    pub closed spec fn elems(&self) -> Seq<T> {
        self.inner@
    }

    /// The well-formedness invariant: no element is stored twice.
    pub open spec fn wf(&self) -> bool {
        elems_unique(self.elems())
    }
}

/// With unique elements, the set has as many elements as the sequence.
pub proof fn lemma_unique_seq_set_len<T>(s: Seq<T>)
    requires
        elems_unique(s),
    ensures
        s.to_set().finite(),
        s.to_set().len() == s.len(),
{
    s.unique_seq_to_set();
}

impl<T: PartialEq> VecSet<T> {
    /// Creates an empty set.
    pub fn new() -> (r: Self)
        ensures
            r.wf(),
            r.elems() == Seq::<T>::empty(),
            r@ == Set::<T>::empty(),
    {
        let r = VecSet { inner: Vec::new() };
        assert(r.elems().to_set() =~= Set::<T>::empty());
        r
    }

    /// Number of elements.
    pub fn len(&self) -> (r: usize)
        requires
            self.wf(),
        ensures
            r == self.elems().len(),
            self@.finite(),
            r == self@.len(),
    {
        proof {
            lemma_unique_seq_set_len(self.elems());
        }
        self.inner.len()
    }

    /// Whether the set is empty.
    pub fn is_empty(&self) -> (r: bool)
        requires
            self.wf(),
        ensures
            r == (self@.len() == 0),
            r == (self.elems().len() == 0),
    {
        self.len() == 0
    }

    /// Removes every element.
    pub fn clear(&mut self)
        ensures
            final(self).wf(),
            final(self).elems() == Seq::<T>::empty(),
            final(self)@ == Set::<T>::empty(),
    {
        self.inner.clear();
        assert(self.elems().to_set() =~= Set::<T>::empty());
    }

    /// Whether `value` is an element.
    pub fn contains(&self, value: &T) -> (r: bool)
        requires
            obeys_concrete_eq::<T>(),
        ensures
            r == self@.contains(*value),
            r == self.elems().contains(*value),
    {
        let mut i: usize = 0;
        while i < self.inner.len()
            invariant
                obeys_concrete_eq::<T>(),
                i <= self.inner@.len(),
                forall|j: int| 0 <= j < i ==> #[trigger] self.inner@[j] != *value,
            decreases self.inner@.len() - i,
        {
            proof {
                reveal(obeys_concrete_eq);
            }
            if self.inner[i] == *value {
                assert(self.inner@[i as int] == *value);
                return true;
            }
            i = i + 1;
        }
        false
    }

    /// Adds `value` unless it is already an element. Returns whether it was added.
    pub fn insert(&mut self, value: T) -> (r: bool)
        requires
            old(self).wf(),
            obeys_concrete_eq::<T>(),
        ensures
            final(self).wf(),
            r == !old(self)@.contains(value),
            final(self)@ == old(self)@.insert(value),
            r ==> final(self).elems() == old(self).elems().push(value),
            !r ==> final(self).elems() == old(self).elems(),
    {
        if self.contains(&value) {
            assert(self@.insert(value) =~= self@);
            false
        } else {
            let ghost old_elems = self.inner@;
            self.inner.push(value);
            proof {
                let s = self.inner@;
                assert forall|i: int, j: int| 0 <= i < s.len() && 0 <= j < s.len() && i != j implies #[trigger] s[i] != #[trigger] s[j] by {
                    if i == s.len() - 1 {
                        assert(old_elems[j] == s[j]);
                    } else if j == s.len() - 1 {
                        assert(old_elems[i] == s[i]);
                    } else {
                        assert(old_elems[i] == s[i] && old_elems[j] == s[j]);
                    }
                }
                assert(s.to_set() =~= old_elems.to_set().insert(value)) by {
                    assert forall|x: T| #[trigger] s.to_set().contains(x) == old_elems.to_set().insert(value).contains(x) by {
                        if s.contains(x) && x != value {
                            let k = choose|k: int| 0 <= k < s.len() && s[k] == x;
                            assert(old_elems[k] == x);
                        }
                        if old_elems.contains(x) {
                            let k = choose|k: int| 0 <= k < old_elems.len() && old_elems[k] == x;
                            assert(s[k] == x);
                        }
                        if x == value {
                            assert(s[s.len() - 1] == x);
                        }
                    }
                }
            }
            true
        }
    }

    /// Removes `value` if it is an element; the order of the others is kept.
    pub fn remove(&mut self, value: &T)
        requires
            old(self).wf(),
            obeys_concrete_eq::<T>(),
        ensures
            final(self).wf(),
            final(self)@ == old(self)@.remove(*value),
            !old(self)@.contains(*value) ==> final(self).elems() == old(self).elems(),
            old(self)@.contains(*value) ==> exists|k: int|
                0 <= k < old(self).elems().len() && old(self).elems()[k] == *value
                && final(self).elems() == old(self).elems().remove(k),
    {
        let mut i: usize = 0;
        while i < self.inner.len()
            invariant
                obeys_concrete_eq::<T>(),
                old(self).wf(),
                self.inner@ == old(self).elems(),
                i <= self.inner@.len(),
                forall|j: int| 0 <= j < i ==> #[trigger] self.inner@[j] != *value,
            decreases self.inner@.len() - i,
        {
            proof {
                reveal(obeys_concrete_eq);
            }
            if self.inner[i] == *value {
                let ghost old_elems = self.inner@;
                self.inner.remove(i);
                proof {
                    let s = self.inner@;
                    assert forall|a: int| 0 <= a < s.len() implies #[trigger] s[a] == old_elems[if a < i { a } else { a + 1 }] by {}
                    assert forall|a: int, b: int| 0 <= a < s.len() && 0 <= b < s.len() && a != b implies #[trigger] s[a] != #[trigger] s[b] by {
                        assert(s[a] == old_elems[if a < i { a } else { a + 1 }]);
                        assert(s[b] == old_elems[if b < i { b } else { b + 1 }]);
                    }
                    assert(s.to_set() =~= old_elems.to_set().remove(*value)) by {
                        assert forall|x: T| #[trigger] s.to_set().contains(x) == old_elems.to_set().remove(*value).contains(x) by {
                            if s.contains(x) {
                                let k = choose|k: int| 0 <= k < s.len() && s[k] == x;
                                assert(old_elems[if k < i { k } else { k + 1 }] == x);
                            }
                            if old_elems.contains(x) && x != *value {
                                let k = choose|k: int| 0 <= k < old_elems.len() && old_elems[k] == x;
                                assert(k != i);
                                if k < i {
                                    assert(s[k] == x);
                                } else {
                                    assert(s[k - 1] == x);
                                }
                            }
                        }
                    }
                    assert(old_elems[i as int] == *value);
                }
                return;
            }
            i = i + 1;
        }
        assert(self@.remove(*value) =~= self@);
    }

    /// The elements in storage order.
    pub fn iter(&self) -> (r: &[T])
        ensures
            r@ == self.elems(),
    {
        self.inner.as_slice()
    }

    /// Clones of the elements of `self` that are also elements of `other`, in the storage order
    /// of `self`.
    pub fn intersect(&self, other: &Self) -> (r: Vec<T>)
        where
            T: Clone,
        requires
            obeys_concrete_eq::<T>(),
        ensures
            r@.len() == self.elems().filter(|e: T| other@.contains(e)).len(),
            forall|i: int| 0 <= i < r@.len() ==> cloned(self.elems().filter(|e: T| other@.contains(e))[i], #[trigger] r@[i]),
    {
        let ghost p = |e: T| other@.contains(e);
        let mut r: Vec<T> = Vec::new();
        let mut i: usize = 0;
        while i < self.inner.len()
            invariant
                obeys_concrete_eq::<T>(),
                p == (|e: T| other@.contains(e)),
                i <= self.inner@.len(),
                r@.len() == self.inner@.take(i as int).filter(p).len(),
                forall|k: int| 0 <= k < r@.len() ==> cloned(self.inner@.take(i as int).filter(p)[k], #[trigger] r@[k]),
            decreases self.inner@.len() - i,
        {
            proof {
                assert(self.inner@.take(i + 1).drop_last() == self.inner@.take(i as int));
                reveal_with_fuel(Seq::filter, 1);
            }
            if other.contains(&self.inner[i]) {
                let c = self.inner[i].clone();
                r.push(c);
            }
            proof {
                let f0 = self.inner@.take(i as int).filter(p);
                let f1 = self.inner@.take(i + 1).filter(p);
                assert(f1 == (if p(self.inner@[i as int]) { f0.push(self.inner@[i as int]) } else { f0 }));
            }
            i = i + 1;
        }
        assert(self.inner@.take(self.inner@.len() as int) == self.inner@);
        r
    }
}

impl<T> Default for VecSet<T> {
    fn default() -> (r: Self)
        ensures
            r.elems() == Seq::<T>::empty(),
            r@ == Set::<T>::empty(),
    {
        let r = VecSet { inner: Vec::new() };
        assert(r.elems().to_set() =~= Set::<T>::empty());
        r
    }
}

/// What `==` on two `VecSet`s computes: equally many elements, and every element of `a` occurs
/// in `b`.
pub open spec fn same_elems<T>(a: Seq<T>, b: Seq<T>) -> bool {
    &&& a.len() == b.len()
    &&& forall|i: int| 0 <= i < a.len() ==> b.contains(#[trigger] a[i])
}

impl<T: PartialEq> PartialEq for VecSet<T> {
    fn eq(&self, other: &Self) -> (r: bool) {
        if self.inner.len() != other.inner.len() {
            return false;
        }
        let ghost law = obeys_concrete_eq::<T>();
        let mut i: usize = 0;
        while i < self.inner.len()
            invariant
                law == obeys_concrete_eq::<T>(),
                i <= self.inner@.len(),
                self.inner@.len() == other.inner@.len(),
                law ==> forall|k: int| 0 <= k < i ==> other.inner@.contains(#[trigger] self.inner@[k]),
            decreases self.inner@.len() - i,
        {
            let mut found = false;
            let mut j: usize = 0;
            while j < other.inner.len()
                invariant
                    law == obeys_concrete_eq::<T>(),
                    i < self.inner@.len(),
                    j <= other.inner@.len(),
                    self.inner@.len() == other.inner@.len(),
                    law && found ==> other.inner@.contains(self.inner@[i as int]),
                    law && !found ==> forall|k: int| 0 <= k < j ==> #[trigger] other.inner@[k] != self.inner@[i as int],
                decreases other.inner@.len() - j,
            {
                proof {
                    reveal(obeys_concrete_eq);
                }
                if !found && other.inner[j] == self.inner[i] {
                    found = true;
                    proof {
                        if law {
                            assert(other.inner@[j as int] == self.inner@[i as int]);
                        }
                    }
                }
                j = j + 1;
            }
            if !found {
                proof {
                    if law {
                        assert(!other.inner@.contains(self.inner@[i as int]));
                    }
                }
                return false;
            }
            i = i + 1;
        }
        true
    }
}

impl<T: PartialEq> vstd::std_specs::cmp::PartialEqSpecImpl for VecSet<T> {
    open spec fn obeys_eq_spec() -> bool {
        obeys_concrete_eq::<T>()
    }

    open spec fn eq_spec(&self, other: &Self) -> bool {
        same_elems(self.elems(), other.elems())
    }
}

/// What `iter` lists is exactly what `contains` sees, each element once.
pub proof fn lemma_elems_are_the_set<T>(s: VecSet<T>)
    requires
        s.wf(),
    ensures
        forall|x: T| #[trigger] s@.contains(x) <==> s.elems().contains(x),
        s@.finite(),
        s@.len() == s.elems().len(),
{
    lemma_unique_seq_set_len(s.elems());
}

/// Two well-formed sets are `==` exactly when they hold the same elements, in whatever order
/// they were inserted.
pub proof fn lemma_eq_is_set_equality<T>(a: VecSet<T>, b: VecSet<T>)
    requires
        a.wf(),
        b.wf(),
    ensures
        same_elems(a.elems(), b.elems()) <==> a@ == b@,
{
    let s = a.elems();
    let t = b.elems();
    lemma_unique_seq_set_len(s);
    lemma_unique_seq_set_len(t);
    if same_elems(s, t) {
        assert forall|x: T| s.to_set().contains(x) implies #[trigger] t.to_set().contains(x) by {
            let i = choose|i: int| 0 <= i < s.len() && s[i] == x;
            assert(t.contains(s[i]));
        }
        vstd::set_lib::lemma_subset_equality(s.to_set(), t.to_set());
    }
    if a@ == b@ {
        assert forall|i: int| 0 <= i < s.len() implies t.contains(#[trigger] s[i]) by {
            assert(s.to_set().contains(s[i]));
        }
    }
}

} // verus!
