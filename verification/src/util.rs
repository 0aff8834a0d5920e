//! Small utilities: noticing whether all values seen are the same, collecting distinct values,
//! and sorting lists of candidates.

use vstd::prelude::*;
use crate::tally::TallyValue;
use crate::ballot_metadata::CandidateIndex;

verus! {

/// The candidate numbers of a list of candidates.
pub open spec fn indices_of(s: Seq<CandidateIndex>) -> Seq<usize> {
    s.map_values(|c: CandidateIndex| c.0)
}

/// True iff the candidates are in increasing order of candidate number.
pub open spec fn sorted_by_index(s: Seq<CandidateIndex>) -> bool {
    forall|i: int, j: int| 0 <= i < j < s.len() ==> #[trigger] s[i].0 <= #[trigger] s[j].0
}

/// True iff the candidates are in increasing order of their keys.
pub open spec fn sorted_by_key<T: TallyValue>(s: Seq<CandidateIndex>, keys: Seq<T>) -> bool {
    forall|i: int, j: int|
        0 <= i < j < s.len() ==> #[trigger] keys[s[i].0 as int].value() <= #[trigger] keys[s[j].0 as int].value()
}

/// Every candidate has a key.
pub open spec fn all_have_keys<T>(s: Seq<CandidateIndex>, keys: Seq<T>) -> bool {
    forall|i: int| 0 <= i < s.len() ==> (#[trigger] s[i]).0 < keys.len()
}

/// Swapping two elements keeps the same elements.
pub proof fn lemma_swap_multiset<A>(s: Seq<A>, i: int, j: int)
    requires
        0 <= i < s.len(),
        0 <= j < s.len(),
    ensures
        s.update(i, s[j]).update(j, s[i]).to_multiset() == s.to_multiset(),
{
    broadcast use vstd::seq_lib::group_to_multiset_ensures, vstd::multiset::group_multiset_axioms;

    let t = s.update(i, s[j]);
    assert(t.to_multiset() == s.to_multiset().insert(s[j]).remove(s[i]));
    assert(t.update(j, s[i]).to_multiset() == t.to_multiset().insert(s[i]).remove(t[j]));
    if i == j {
        assert(t.update(j, s[i]) == s);
    } else {
        assert(t[j] == s[j]);
        assert(t.update(j, s[i]).to_multiset() =~= s.to_multiset());
    }
}

/// Sort a list of candidates by their keys, low to high.
pub fn sort_by_key<T: TallyValue>(v: &mut Vec<CandidateIndex>, keys: &Vec<T>)
    requires
        all_have_keys(old(v)@, keys@),
    ensures
        final(v)@.to_multiset() == old(v)@.to_multiset(),
        final(v)@.len() == old(v)@.len(),
        sorted_by_key(final(v)@, keys@),
        all_have_keys(final(v)@, keys@),
{
    broadcast use vstd::seq_lib::group_to_multiset_ensures;
    let ghost orig = v@;
    let mut i: usize = 1;
    if v.len() == 0 {
        return;
    }
    while i < v.len()
        invariant
            1 <= i <= v@.len(),
            v@.len() == orig.len(),
            v@.to_multiset() == orig.to_multiset(),
            all_have_keys(v@, keys@),
            sorted_by_key(v@.take(i as int), keys@),
        decreases v@.len() - i,
    {
        let mut j: usize = i;
        assert forall|a: int, b: int| 0 <= a < b <= i && b != j && a != j implies #[trigger] keys@[v@[a].0 as int].value()
            <= #[trigger] keys@[v@[b].0 as int].value() by {
            assert(v@.take(i as int)[a] == v@[a]);
            assert(v@.take(i as int)[b] == v@[b]);
        }
        while j > 0 && keys[v[j].0].is_less(&keys[v[j - 1].0])
            invariant
                0 <= j <= i < v@.len(),
                v@.len() == orig.len(),
                v@.to_multiset() == orig.to_multiset(),
                all_have_keys(v@, keys@),
                forall|a: int, b: int| 0 <= a < b <= i && b != j && a != j ==> #[trigger] keys@[v@[a].0 as int].value()
                    <= #[trigger] keys@[v@[b].0 as int].value(),
                forall|b: int| j < b <= i ==> keys@[v@[j as int].0 as int].value() < #[trigger] keys@[v@[b].0 as int].value(),
            decreases j,
        {
            let x = v[j - 1];
            let y = v[j];
            proof {
                lemma_swap_multiset(v@, j - 1, j as int);
            }
            v.set(j - 1, y);
            v.set(j, x);
            j = j - 1;
        }
        assert forall|a: int, b: int| 0 <= a < b < i + 1 implies #[trigger] keys@[v@.take(i + 1)[a].0 as int].value()
            <= #[trigger] keys@[v@.take(i + 1)[b].0 as int].value() by {
            assert(v@.take(i + 1)[a] == v@[a]);
            assert(v@.take(i + 1)[b] == v@[b]);
        }
        i = i + 1;
    }
    assert(v@.take(v@.len() as int) == v@);
}

/// Sort a list of candidates by candidate number. The sort is stable.
pub fn sort_by_index(v: &mut Vec<CandidateIndex>)
    ensures
        final(v)@.to_multiset() == old(v)@.to_multiset(),
        final(v)@.len() == old(v)@.len(),
        sorted_by_index(final(v)@),
{
    let ghost orig = v@;
    let mut i: usize = 1;
    if v.len() == 0 {
        return;
    }
    while i < v.len()
        invariant
            1 <= i <= v@.len(),
            v@.len() == orig.len(),
            v@.to_multiset() == orig.to_multiset(),
            sorted_by_index(v@.take(i as int)),
        decreases v@.len() - i,
    {
        let mut j: usize = i;
        assert forall|a: int, b: int| 0 <= a < b <= i && b != j && a != j implies #[trigger] v@[a].0 <= #[trigger] v@[b].0 by {
            assert(v@.take(i as int)[a] == v@[a]);
            assert(v@.take(i as int)[b] == v@[b]);
        }
        while j > 0 && v[j - 1].0 > v[j].0
            invariant
                0 <= j <= i < v@.len(),
                v@.len() == orig.len(),
                v@.to_multiset() == orig.to_multiset(),
                forall|a: int, b: int| 0 <= a < b <= i && b != j && a != j ==> #[trigger] v@[a].0 <= #[trigger] v@[b].0,
                forall|b: int| j < b <= i ==> v@[j as int].0 < #[trigger] v@[b].0,
            decreases j,
        {
            let x = v[j - 1];
            let y = v[j];
            proof {
                lemma_swap_multiset(v@, j - 1, j as int);
            }
            v.set(j - 1, y);
            v.set(j, x);
            j = j - 1;
        }
        assert forall|a: int, b: int| 0 <= a < b < i + 1 implies #[trigger] v@.take(i + 1)[a].0 <= #[trigger] v@.take(i + 1)[b].0 by {
            assert(v@.take(i + 1)[a] == v@[a]);
            assert(v@.take(i + 1)[b] == v@[b]);
        }
        i = i + 1;
    }
    assert(v@.take(v@.len() as int) == v@);
}


/// True iff the list holds the candidate.
pub fn contains_candidate(v: &[CandidateIndex], c: CandidateIndex) -> (res: bool)
    ensures
        res == v@.contains(c),
{
    for i in 0..v.len()
        invariant
            forall|j: int| 0 <= j < i ==> v@[j] != c,
    {
        if v[i] == c {
            assert(v@[i as int] == c);
            return true;
        }
    }
    false
}

/// The members of `s` that are (if `keep` is true) or are not (if `keep` is false) in `other`, in order.
pub open spec fn keep_if_in(s: Seq<CandidateIndex>, other: Seq<CandidateIndex>, keep: bool) -> Seq<CandidateIndex>
    decreases s.len(),
{
    if s.len() == 0 {
        Seq::empty()
    } else if other.contains(s.last()) == keep {
        keep_if_in(s.drop_last(), other, keep).push(s.last())
    } else {
        keep_if_in(s.drop_last(), other, keep)
    }
}

/// The members of `s` that are (if `keep` is true) or are not (if `keep` is false) in `other`, in order.
pub fn filter_by_membership(s: &[CandidateIndex], other: &[CandidateIndex], keep: bool) -> (res: Vec<CandidateIndex>)
    ensures
        res@ == keep_if_in(s@, other@, keep),
{
    let mut res: Vec<CandidateIndex> = Vec::new();
    for i in 0..s.len()
        invariant
            res@ == keep_if_in(s@.take(i as int), other@, keep),
    {
        assert(s@.take(i + 1).drop_last() == s@.take(i as int));
        if contains_candidate(other, s[i]) == keep {
            res.push(s[i]);
        }
    }
    assert(s@.take(s.len() as int) == s@);
    res
}

} // verus!

verus! {

/// Values with a notion of being the same.
pub trait SameValue: Copy {
    /// Whether two values are the same.
    spec fn same_spec(&self, other: &Self) -> bool;

    /// Whether two values are the same.
    fn same(&self, other: &Self) -> (res: bool)
        ensures
            res == self.same_spec(other),
    ;
}

impl SameValue for crate::distribution_of_preferences_transcript::CountIndex {
    open spec fn same_spec(&self, other: &Self) -> bool {
        self.0 == other.0
    }

    fn same(&self, other: &Self) -> (res: bool) {
        self.0 == other.0
    }
}

impl SameValue for Option<crate::distribution_of_preferences_transcript::CountIndex> {
    open spec fn same_spec(&self, other: &Self) -> bool {
        *self == *other
    }

    fn same(&self, other: &Self) -> (res: bool) {
        match (self, other) {
            (None, None) => true,
            (Some(a), Some(b)) => a.0 == b.0,
            _ => false,
        }
    }
}

impl SameValue for crate::transfer_value::TransferValue {
    open spec fn same_spec(&self, other: &Self) -> bool {
        crate::transfer_value::same_value(*self, *other)
    }

    fn same(&self, other: &Self) -> (res: bool) {
        self.same_as(other)
    }
}

/// Watches values go by, and notices whether they were all the same.
pub struct DetectUnique<T> {
    pub seen_multiple: bool,
    pub res: Option<T>,
}

impl<T: SameValue> DetectUnique<T> {
    /// Nothing seen yet.
    pub fn default() -> (res: Self)
        ensures
            !res.seen_multiple,
            res.res is None,
            res == detect_after(Seq::<T>::empty()),
    {
        DetectUnique { seen_multiple: false, res: None }
    }

    /// Observe a value passing by: the first one is kept; one not the same as it means there was
    /// no single value.
    pub fn add(&mut self, v: T)
        ensures
            old(self).seen_multiple ==> *final(self) == *old(self),
            !old(self).seen_multiple ==> match old(self).res {
                None => final(self).res == Some(v) && !final(self).seen_multiple,
                Some(existing) => if existing.same_spec(&v) {
                    *final(self) == *old(self)
                } else {
                    final(self).res is None && final(self).seen_multiple
                },
            },
            forall|s: Seq<T>| *old(self) == #[trigger] detect_after(s) ==> *final(self) == detect_after(s.push(v)),
    {
        proof {
            assert forall|s: Seq<T>| *old(self) == #[trigger] detect_after(s) implies detect_after(s.push(v)) == detect_step(*old(self), v) by {
                assert(s.push(v).drop_last() =~= s);
            }
        }
        if !self.seen_multiple {
            match self.res {
                None => {
                    self.res = Some(v);
                },
                Some(existing) => {
                    if !existing.same(&v) {
                        self.res = None;
                        self.seen_multiple = true;
                    }
                },
            }
        }
    }

    /// Return the single value if there was one, and clear: afterwards the detector is as if
    /// nothing had been seen.
    pub fn take(&mut self) -> (res: Option<T>)
        ensures
            res == old(self).res,
            final(self).res is None,
            !final(self).seen_multiple,
    {
        let res = self.res;
        self.res = None;
        self.seen_multiple = false;
        res
    }
}

/// The state after observing one more value: the first value is kept, and a value not the same
/// as it means there was no single value.
pub open spec fn detect_step<T: SameValue>(d: DetectUnique<T>, v: T) -> DetectUnique<T> {
    if d.seen_multiple {
        d
    } else {
        match d.res {
            None => DetectUnique { seen_multiple: false, res: Some(v) },
            Some(existing) => if existing.same_spec(&v) {
                d
            } else {
                DetectUnique { seen_multiple: true, res: None }
            },
        }
    }
}

/// The state after observing some values in order, starting with nothing seen: the first value
/// is kept, and a value not the same as it means there was no single value.
pub open spec fn detect_after<T: SameValue>(s: Seq<T>) -> DetectUnique<T>
    decreases s.len(),
{
    if s.len() == 0 {
        DetectUnique { seen_multiple: false, res: None }
    } else {
        detect_step(detect_after(s.drop_last()), s.last())
    }
}

/// Every value after the first is the same as the first.
pub open spec fn all_same_as_first<T: SameValue>(s: Seq<T>) -> bool {
    forall|i: int| 1 <= i < s.len() ==> s[0].same_spec(&#[trigger] s[i])
}

/// After a sequence of values is added to a fresh detector, it holds the first value if all
/// the others are the same as it, and nothing otherwise; once two different values have been
/// seen, that is remembered whatever comes later.
pub proof fn lemma_detect_unique_sequence<T: SameValue>(s: Seq<T>)
    ensures
        detect_after(s).res == if s.len() > 0 && all_same_as_first(s) {
            Some(s[0])
        } else {
            None
        },
        detect_after(s).seen_multiple == (s.len() > 0 && !all_same_as_first(s)),
    decreases s.len(),
{
    if s.len() > 0 {
        let p = s.drop_last();
        lemma_detect_unique_sequence(p);
        if p.len() > 0 {
            assert(p[0] == s[0]);
            if all_same_as_first(p) {
                if !s[0].same_spec(&s[s.len() - 1]) {
                    assert(!all_same_as_first(s));
                } else {
                    assert forall|i: int| 1 <= i < s.len() implies s[0].same_spec(&#[trigger] s[i]) by {
                        if i < s.len() - 1 {
                            assert(s[i] == p[i]);
                        }
                    }
                }
            } else {
                let i = choose|i: int| 1 <= i < p.len() && !p[0].same_spec(&#[trigger] p[i]);
                assert(s[i] == p[i]);
                assert(!all_same_as_first(s));
            }
        }
    }
}

/// Values ordered by a number.
pub trait Keyed: Copy {
    /// The number the value is ordered by.
    spec fn key_spec(&self) -> nat;

    /// Values with the same key are the same.
    proof fn lemma_key_injective(a: Self, b: Self)
        requires
            a.key_spec() == b.key_spec(),
        ensures
            a == b,
    ;

    /// The number the value is ordered by.
    fn key(&self) -> (res: usize)
        ensures
            res == self.key_spec(),
    ;
}

impl Keyed for crate::distribution_of_preferences_transcript::CountIndex {
    open spec fn key_spec(&self) -> nat {
        self.0 as nat
    }

    proof fn lemma_key_injective(a: Self, b: Self) {
    }

    fn key(&self) -> (res: usize) {
        self.0
    }
}

/// Collects the distinct values seen.
pub struct CollectAll<T> {
    pub all: Vec<T>,
}

/// No value occurs twice.
pub open spec fn distinct<T>(s: Seq<T>) -> bool {
    forall|i: int, j: int| 0 <= i < j < s.len() ==> s[i] != s[j]
}

/// Strictly increasing by key.
pub open spec fn increasing_keys<T: Keyed>(s: Seq<T>) -> bool {
    forall|i: int, j: int| 0 <= i < j < s.len() ==> #[trigger] s[i].key_spec() < #[trigger] s[j].key_spec()
}

impl<T: Keyed> CollectAll<T> {
    /// Nothing collected yet.
    pub fn default() -> (res: Self)
        ensures
            res.all@.len() == 0,
    {
        CollectAll { all: Vec::new() }
    }

    /// The values collected, as a set.
    pub open spec fn collected(&self) -> Set<T> {
        self.all@.to_set()
    }

    /// Note a value.
    #[verifier::loop_isolation(false)]
    pub fn add(&mut self, t: T)
        requires
            distinct(old(self).all@),
        ensures
            distinct(final(self).all@),
            final(self).collected() == old(self).collected().insert(t),
    {
        for i in 0..self.all.len()
            invariant
                self.all@ == old(self).all@,
                forall|j: int| 0 <= j < i ==> self.all@[j] != t,
        {
            if self.all[i].key() == t.key() {
                proof {
                    T::lemma_key_injective(self.all@[i as int], t);
                    assert(self.all@.to_set().contains(t));
                    assert(self.all@.to_set().insert(t) =~= self.all@.to_set());
                }
                return;
            }
        }
        self.all.push(t);
        assert(self.all@.to_set() =~= old(self).all@.to_set().insert(t)) by {
            assert forall|x: T| self.all@.to_set().contains(x) <==> old(self).all@.to_set().insert(t).contains(x) by {
                if self.all@.contains(x) && x != t {
                    let k = choose|k: int| 0 <= k < self.all@.len() && self.all@[k] == x;
                    assert(old(self).all@[k] == x);
                }
                if old(self).all@.contains(x) {
                    let k = choose|k: int| 0 <= k < old(self).all@.len() && old(self).all@[k] == x;
                    assert(self.all@[k] == x);
                }
                if x == t {
                    assert(self.all@[self.all@.len() - 1] == t);
                }
            }
        }
    }

    /// Clear, and return the distinct values collected in increasing order.
    pub fn take(&mut self) -> (res: Vec<T>)
        requires
            distinct(old(self).all@),
        ensures
            final(self).all@.len() == 0,
            res@.to_set() == old(self).collected(),
            increasing_keys(res@),
    {
        broadcast use vstd::seq_lib::group_seq_properties;
        let mut items: Vec<T> = Vec::new();
        std::mem::swap(&mut items, &mut self.all);
        let ghost orig = items@;
        let mut res: Vec<T> = Vec::new();
        for i in 0..items.len()
            invariant
                items@ == orig,
                distinct(orig),
                increasing_keys(res@),
                res@.to_set() == orig.take(i as int).to_set(),
        {
            let x = items[i];
            let mut j = res.len();
            while j > 0 && res[j - 1].key() > x.key()
                invariant
                    j <= res@.len(),
                    forall|a: int| j <= a < res@.len() ==> (#[trigger] res@[a]).key_spec() > x.key_spec(),
                decreases j,
            {
                j = j - 1;
            }
            proof {
                if j > 0 {
                    if res@[j - 1].key_spec() == x.key_spec() {
                        T::lemma_key_injective(res@[j - 1], x);
                        assert(res@.contains(res@[j - 1]));
                        assert(res@.to_set().contains(res@[j - 1]));
                        assert(orig.take(i as int).to_set().contains(res@[j - 1]));
                        assert(orig.take(i as int).contains(res@[j - 1]));
                        let k = choose|k: int| 0 <= k < i && orig.take(i as int)[k] == res@[j - 1];
                        assert(orig[k] == orig[i as int]);
                    }
                    assert(res@[j - 1].key_spec() < x.key_spec());
                }
            }
            let ghost before = res@;
            res.insert(j, x);
            assert(increasing_keys(res@)) by {
                assert forall|a: int, b: int| 0 <= a < b < res@.len() implies #[trigger] res@[a].key_spec() < #[trigger] res@[b].key_spec() by {
                    if b < j {
                        assert(res@[a] == before[a] && res@[b] == before[b]);
                    } else if b == j {
                        assert(res@[a] == before[a]);
                        assert(before[a].key_spec() <= before[j - 1].key_spec());
                    } else if a == j {
                        assert(res@[b] == before[b - 1]);
                    } else if a < j {
                        assert(res@[a] == before[a] && res@[b] == before[b - 1]);
                    } else {
                        assert(res@[a] == before[a - 1] && res@[b] == before[b - 1]);
                    }
                }
            }
            assert(orig.take(i + 1) =~= orig.take(i as int).push(orig[i as int]));
            assert(res@.to_set() =~= before.to_set().insert(x)) by {
                assert forall|y: T| res@.to_set().contains(y) <==> before.to_set().insert(x).contains(y) by {
                    if res@.contains(y) {
                        let k = choose|k: int| 0 <= k < res@.len() && res@[k] == y;
                        if k < j {
                            assert(before[k] == y);
                        } else if k > j {
                            assert(before[k - 1] == y);
                        }
                    }
                    if before.contains(y) {
                        let k = choose|k: int| 0 <= k < before.len() && before[k] == y;
                        if k < j {
                            assert(res@[k] == y);
                        } else {
                            assert(res@[k + 1] == y);
                        }
                    }
                    if y == x {
                        assert(res@[j as int] == x);
                    }
                }
            }
            assert(orig.take(i + 1).to_set() =~= orig.take(i as int).to_set().insert(orig[i as int])) by {
                orig.take(i as int).lemma_push_to_set_commute(orig[i as int]);
            }
        }
        assert(orig.take(orig.len() as int) =~= orig);
        res
    }
}

} // verus!
