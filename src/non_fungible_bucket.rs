use vstd::prelude::*;
use crate::types::{ATTOS_PER_UNIT, Decimal, NodeId};

verus! {

/// The id of one non-fungible unit, unique within its resource.
#[derive(Clone, Copy, Debug, PartialEq, Eq, Structural)]
pub struct NonFungibleLocalId {
    pub value: u64,
}

#[derive(Clone, Copy, Debug, PartialEq, Eq, Structural)]
pub enum ResourceError {
    InsufficientBalance,
    NonFungibleNotFound(NonFungibleLocalId),
    NonFungibleAlreadyExists(NonFungibleLocalId),
    MismatchingResource,
}

#[derive(Clone, Copy, Debug, PartialEq, Eq, Structural)]
pub enum BucketError {
    InvalidAmount,
    DecimalOverflow,
    LockCountOverflow,
    /// A bucket with locked units cannot be dropped into another.
    BucketLocked,
    ResourceError(ResourceError),
}

/// How a requested amount is turned into a whole number of units.
#[derive(Clone, Copy, Debug, PartialEq, Eq, Structural)]
pub enum WithdrawStrategy {
    Exact,
    RoundDown,
    RoundUp,
}

/// A proof of non-fungibles locked in a bucket.
#[derive(Clone, Debug)]
pub struct NonFungibleProof {
    pub resource_address: NodeId,
    pub ids: Vec<NonFungibleLocalId>,
    /// The bucket whose ids stand behind this proof.
    pub evidence: NodeId,
}

/// Lock count of `k` in a list of (id, count) entries; 0 where `k` is absent.
pub open spec fn count_of(s: Seq<(NonFungibleLocalId, u32)>, k: NonFungibleLocalId) -> int
    decreases s.len(),
{
    if s.len() == 0 {
        0
    } else {
        count_of(s.drop_last(), k) + if s.last().0 == k {
            s.last().1 as int
        } else {
            0
        }
    }
}

pub open spec fn keys_unique(s: Seq<(NonFungibleLocalId, u32)>) -> bool {
    forall|i: int, j: int| 0 <= i < j < s.len() ==> s[i].0 != s[j].0
}

pub open spec fn has_key(s: Seq<(NonFungibleLocalId, u32)>, k: NonFungibleLocalId) -> bool {
    exists|i: int| 0 <= i < s.len() && s[i].0 == k
}

proof fn lemma_count_absent(s: Seq<(NonFungibleLocalId, u32)>, k: NonFungibleLocalId)
    requires
        !has_key(s, k),
    ensures
        count_of(s, k) == 0,
    decreases s.len(),
{
    if s.len() > 0 {
        assert(!has_key(s.drop_last(), k)) by {
            if has_key(s.drop_last(), k) {
                let i = choose|i: int| 0 <= i < s.drop_last().len() && s.drop_last()[i].0 == k;
                assert(s[i].0 == k);
            }
        }
        assert(s.last() == s[s.len() - 1]);
        lemma_count_absent(s.drop_last(), k);
    }
}

proof fn lemma_count_nonneg(s: Seq<(NonFungibleLocalId, u32)>, k: NonFungibleLocalId)
    ensures
        count_of(s, k) >= 0,
    decreases s.len(),
{
    if s.len() > 0 {
        lemma_count_nonneg(s.drop_last(), k);
    }
}

proof fn lemma_count_found(s: Seq<(NonFungibleLocalId, u32)>, j: int)
    requires
        keys_unique(s),
        0 <= j < s.len(),
    ensures
        count_of(s, s[j].0) == s[j].1,
    decreases s.len(),
{
    if j == s.len() - 1 {
        assert forall|i: int| 0 <= i < s.drop_last().len() implies s.drop_last()[i].0 != s[j].0 by {
            assert(s.drop_last()[i] == s[i]);
        }
        lemma_count_absent(s.drop_last(), s[j].0);
    } else {
        lemma_count_found(s.drop_last(), j);
    }
}

proof fn lemma_count_update(s: Seq<(NonFungibleLocalId, u32)>, j: int, v: u32, k: NonFungibleLocalId)
    requires
        0 <= j < s.len(),
    ensures
        count_of(s.update(j, (s[j].0, v)), k) == count_of(s, k) + if s[j].0 == k {
            v - s[j].1
        } else {
            0
        },
    decreases s.len(),
{
    let t = s.update(j, (s[j].0, v));
    if j == s.len() - 1 {
        assert(t.drop_last() =~= s.drop_last());
    } else {
        assert(t.drop_last() =~= s.drop_last().update(j, (s[j].0, v)));
        lemma_count_update(s.drop_last(), j, v, k);
    }
}

proof fn lemma_count_push(s: Seq<(NonFungibleLocalId, u32)>, x: (NonFungibleLocalId, u32), k: NonFungibleLocalId)
    ensures
        count_of(s.push(x), k) == count_of(s, k) + if x.0 == k {
            x.1 as int
        } else {
            0
        },
{
    assert(s.push(x).drop_last() =~= s);
}

/// The ids of a list of (id, count) entries whose count is above zero, in order.
pub open spec fn locked_ids(s: Seq<(NonFungibleLocalId, u32)>) -> Seq<NonFungibleLocalId>
    decreases s.len(),
{
    if s.len() == 0 {
        Seq::empty()
    } else if s.last().1 > 0 {
        locked_ids(s.drop_last()).push(s.last().0)
    } else {
        locked_ids(s.drop_last())
    }
}

proof fn lemma_locked_ids(s: Seq<(NonFungibleLocalId, u32)>)
    requires
        keys_unique(s),
    ensures
        forall|k: NonFungibleLocalId| locked_ids(s).contains(k) <==> count_of(s, k) > 0,
    decreases s.len(),
{
    if s.len() > 0 {
        let p = s.drop_last();
        assert(keys_unique(p));
        lemma_locked_ids(p);
        let l = s.last();
        let q = locked_ids(p);
        assert forall|k: NonFungibleLocalId| locked_ids(s).contains(k) <==> count_of(s, k) > 0 by {
            assert(count_of(s, k) == count_of(p, k) + if l.0 == k { l.1 as int } else { 0 });
            if l.0 == k {
                assert forall|i: int| 0 <= i < p.len() implies p[i].0 != k by {
                    assert(p[i] == s[i]);
                    assert(l == s[s.len() - 1]);
                }
                lemma_count_absent(p, k);
                if l.1 > 0 {
                    assert(q.push(l.0)[q.len() as int] == k);
                }
            } else if l.1 > 0 {
                if q.push(l.0).contains(k) {
                    let m = choose|m: int| 0 <= m < q.len() + 1 && q.push(l.0)[m] == k;
                    assert(q[m] == k);
                }
                if q.contains(k) {
                    let m = choose|m: int| 0 <= m < q.len() && q[m] == k;
                    assert(q.push(l.0)[m] == k);
                }
            }
        }
    }
}

proof fn lemma_locked_ids_no_dup(s: Seq<(NonFungibleLocalId, u32)>)
    requires
        keys_unique(s),
    ensures
        locked_ids(s).no_duplicates(),
    decreases s.len(),
{
    if s.len() > 0 {
        let p = s.drop_last();
        let l = s.last();
        assert(keys_unique(p));
        lemma_locked_ids_no_dup(p);
        if l.1 > 0 {
            assert forall|i: int| 0 <= i < p.len() implies p[i].0 != l.0 by {
                assert(p[i] == s[i]);
                assert(l == s[s.len() - 1]);
            }
            lemma_count_absent(p, l.0);
            lemma_locked_ids(p);
            let q = locked_ids(p);
            assert forall|i: int, j: int| 0 <= i < j < q.push(l.0).len() implies q.push(l.0)[i] != q.push(l.0)[j] by {
                if j == q.len() {
                    assert(q[i] == q.push(l.0)[i]);
                    assert(q.contains(q[i]));
                }
            }
        }
    }
}

/// Whether `k` is among `ids`.
pub(crate) fn id_in(ids: &Vec<NonFungibleLocalId>, k: NonFungibleLocalId) -> (r: bool)
    ensures
        r == ids@.contains(k),
{
    let mut i: usize = 0;
    while i < ids.len()
        invariant
            i <= ids@.len(),
            forall|j: int| 0 <= j < i ==> ids@[j] != k,
        decreases ids@.len() - i,
    {
        if ids[i] == k {
            return true;
        }
        i = i + 1;
    }
    false
}

/// `v` without the ids of `ids`, in the same order.
pub(crate) fn without_ids(v: &Vec<NonFungibleLocalId>, ids: &Vec<NonFungibleLocalId>) -> (r: Vec<NonFungibleLocalId>)
    requires
        v@.no_duplicates(),
    ensures
        r@.no_duplicates(),
        forall|k: NonFungibleLocalId| r@.contains(k) <==> v@.contains(k) && !ids@.contains(k),
{
    let mut r: Vec<NonFungibleLocalId> = Vec::new();
    let mut i: usize = 0;
    while i < v.len()
        invariant
            v@.no_duplicates(),
            i <= v@.len(),
            r@.no_duplicates(),
            forall|k: NonFungibleLocalId| r@.contains(k) <==> v@.take(i as int).contains(k) && !ids@.contains(k),
        decreases v@.len() - i,
    {
        let k = v[i];
        let ghost before = r@;
        let ghost t0 = v@.take(i as int);
        let ghost t1 = v@.take(i + 1);
        proof {
            assert(t1 =~= t0.push(k));
            assert(!t0.contains(k)) by {
                if t0.contains(k) {
                    let j = choose|j: int| 0 <= j < i && t0[j] == k;
                    assert(v@[j] == v@[i as int]);
                }
            }
        }
        if !id_in(ids, k) {
            r.push(k);
            proof {
                assert(r@ == before.push(k));
                assert(t1[i as int] == k);
                assert forall|a: int, b: int| 0 <= a < b < r@.len() implies r@[a] != r@[b] by {
                    if b == r@.len() - 1 {
                        assert(before.contains(r@[a]));
                    }
                }
                assert forall|k2: NonFungibleLocalId| r@.contains(k2) <==> t1.contains(k2) && !ids@.contains(k2) by {
                    if r@.contains(k2) && k2 != k {
                        let m = choose|m: int| 0 <= m < r@.len() && r@[m] == k2;
                        assert(before[m] == k2);
                    }
                    if before.contains(k2) {
                        let m = choose|m: int| 0 <= m < before.len() && before[m] == k2;
                        assert(r@[m] == k2);
                    }
                    assert(r@[r@.len() - 1] == k);
                    if t1.contains(k2) && k2 != k {
                        let m = choose|m: int| 0 <= m < i + 1 && t1[m] == k2;
                        assert(t0[m] == k2);
                    }
                    if t0.contains(k2) {
                        let m = choose|m: int| 0 <= m < i && t0[m] == k2;
                        assert(t1[m] == k2);
                    }
                }
            }
        } else {
            proof {
                assert forall|k2: NonFungibleLocalId| r@.contains(k2) <==> t1.contains(k2) && !ids@.contains(k2) by {
                    if t1.contains(k2) && k2 != k {
                        let m = choose|m: int| 0 <= m < i + 1 && t1[m] == k2;
                        assert(t0[m] == k2);
                    }
                    if t0.contains(k2) {
                        let m = choose|m: int| 0 <= m < i && t0[m] == k2;
                        assert(t1[m] == k2);
                    }
                }
            }
        }
        i = i + 1;
    }
    proof {
        assert(v@.take(i as int) =~= v@);
    }
    r
}

/// The amount, in attos, that a withdrawal of `amount` under `strategy` asks for.
pub open spec fn withdrawal_attos(amount: int, strategy: WithdrawStrategy) -> int {
    match strategy {
        WithdrawStrategy::Exact => amount,
        WithdrawStrategy::RoundDown => amount - amount % (ATTOS_PER_UNIT as int),
        WithdrawStrategy::RoundUp => if amount % (ATTOS_PER_UNIT as int) == 0 {
            amount
        } else {
            amount - amount % (ATTOS_PER_UNIT as int) + ATTOS_PER_UNIT
        },
    }
}

proof fn lemma_locked_ids_prefix(s: Seq<(NonFungibleLocalId, u32)>, j: int)
    requires
        0 <= j <= s.len(),
    ensures
        locked_ids(s.take(j)).len() <= locked_ids(s).len(),
    decreases s.len() - j,
{
    if j < s.len() {
        lemma_locked_ids_prefix(s, j + 1);
        assert(s.take(j + 1).drop_last() =~= s.take(j));
    } else {
        assert(s.take(j) =~= s);
    }
}

/// A transient container of non-fungible units of one resource.
///
/// Units are liquid, or locked by proofs: a locked unit carries the number of
/// proofs that lock it and cannot move while that number is above zero. An
/// entry of `locked` whose count is zero stands for no lock.
#[derive(Clone, Debug)]
pub struct NonFungibleBucketBlueprint {
    pub resource_address: NodeId,
    pub liquid: Vec<NonFungibleLocalId>,
    pub locked: Vec<(NonFungibleLocalId, u32)>,
}

impl NonFungibleBucketBlueprint {
    pub open spec fn wf(&self) -> bool {
        &&& self.liquid@.no_duplicates()
        &&& keys_unique(self.locked@)
        &&& forall|k: NonFungibleLocalId| self.liquid@.contains(k) ==> count_of(self.locked@, k) == 0
    }

    /// The units locked by at least one proof.
    pub open spec fn is_locked(&self, k: NonFungibleLocalId) -> bool {
        count_of(self.locked@, k) > 0
    }

    /// The units the bucket holds, liquid or locked.
    pub open spec fn holds(&self, k: NonFungibleLocalId) -> bool {
        self.liquid@.contains(k) || self.is_locked(k)
    }

    /// An empty bucket of `resource_address`.
    pub fn new(resource_address: NodeId) -> (r: NonFungibleBucketBlueprint)
        ensures
            r.wf(),
            r.resource_address == resource_address,
            r.liquid@.len() == 0,
            r.locked@.len() == 0,
    {
        NonFungibleBucketBlueprint { resource_address, liquid: Vec::new(), locked: Vec::new() }
    }

    /// A bucket of `resource_address` holding the liquid units `ids`.
    pub fn create(resource_address: NodeId, ids: Vec<NonFungibleLocalId>) -> (r: NonFungibleBucketBlueprint)
        requires
            ids@.no_duplicates(),
        ensures
            r.wf(),
            r.resource_address == resource_address,
            r.liquid@ == ids@,
            r.locked@.len() == 0,
    {
        NonFungibleBucketBlueprint { resource_address, liquid: ids, locked: Vec::new() }
    }

    fn liquid_index(&self, id: NonFungibleLocalId) -> (r: Option<usize>)
        ensures
            r matches Some(i) ==> i < self.liquid@.len() && self.liquid@[i as int] == id,
            r is None ==> !self.liquid@.contains(id),
    {
        let mut i: usize = 0;
        while i < self.liquid.len()
            invariant
                i <= self.liquid@.len(),
                forall|j: int| 0 <= j < i ==> self.liquid@[j] != id,
            decreases self.liquid@.len() - i,
        {
            if self.liquid[i] == id {
                return Some(i);
            }
            i = i + 1;
        }
        None
    }

    fn locked_index(&self, id: NonFungibleLocalId) -> (r: Option<usize>)
        ensures
            r matches Some(i) ==> i < self.locked@.len() && self.locked@[i as int].0 == id,
            r is None ==> !has_key(self.locked@, id),
    {
        let mut i: usize = 0;
        while i < self.locked.len()
            invariant
                i <= self.locked@.len(),
                forall|j: int| 0 <= j < i ==> self.locked@[j].0 != id,
            decreases self.locked@.len() - i,
        {
            if self.locked[i].0 == id {
                return Some(i);
            }
            i = i + 1;
        }
        None
    }

    /// Whether the bucket holds `id`, liquid or locked.
    pub fn contains_non_fungible(&self, id: NonFungibleLocalId) -> (r: bool)
        requires
            self.wf(),
        ensures
            r == self.holds(id),
    {
        if self.liquid_index(id).is_some() {
            return true;
        }
        match self.locked_index(id) {
            Some(i) => {
                proof {
                    lemma_count_found(self.locked@, i as int);
                }
                self.locked[i].1 > 0
            },
            None => {
                proof {
                    lemma_count_absent(self.locked@, id);
                }
                false
            },
        }
    }

    /// The liquid units followed by the locked ones.
    pub fn get_non_fungible_local_ids(&self) -> (r: Vec<NonFungibleLocalId>)
        requires
            self.wf(),
        ensures
            r@ == self.liquid@ + locked_ids(self.locked@),
            forall|k: NonFungibleLocalId| r@.contains(k) <==> self.holds(k),
    {
        let mut r = self.liquid.clone();
        let mut i: usize = 0;
        while i < self.locked.len()
            invariant
                i <= self.locked@.len(),
                r@ == self.liquid@ + locked_ids(self.locked@.take(i as int)),
            decreases self.locked@.len() - i,
        {
            proof {
                assert(self.locked@.take(i + 1).drop_last() =~= self.locked@.take(i as int));
            }
            if self.locked[i].1 > 0 {
                r.push(self.locked[i].0);
                proof {
                    assert(r@ =~= self.liquid@ + locked_ids(self.locked@.take(i + 1)));
                }
            } else {
                proof {
                    assert(r@ =~= self.liquid@ + locked_ids(self.locked@.take(i + 1)));
                }
            }
            i = i + 1;
        }
        proof {
            assert(self.locked@.take(i as int) =~= self.locked@);
            lemma_locked_ids(self.locked@);
            assert forall|k: NonFungibleLocalId| r@.contains(k) <==> self.holds(k) by {
                let a = self.liquid@;
                let b = locked_ids(self.locked@);
                if (a + b).contains(k) {
                    let m = choose|m: int| 0 <= m < (a + b).len() && (a + b)[m] == k;
                    if m >= a.len() {
                        assert(b[m - a.len()] == k);
                    }
                }
                if a.contains(k) {
                    let m = choose|m: int| 0 <= m < a.len() && a[m] == k;
                    assert((a + b)[m] == k);
                }
                if b.contains(k) {
                    let m = choose|m: int| 0 <= m < b.len() && b[m] == k;
                    assert((a + b)[a.len() + m] == k);
                }
            }
        }
        r
    }

    /// Number of units held, liquid or locked, as a decimal.
    pub fn get_amount(&self) -> (r: Decimal)
        requires
            self.wf(),
        ensures
            r@ == (self.liquid@.len() + locked_ids(self.locked@).len()) * ATTOS_PER_UNIT,
    {
        let ids = self.get_non_fungible_local_ids();
        let n = ids.len() as u64;
        assert(n * ATTOS_PER_UNIT <= i128::MAX) by (nonlinear_arith)
            requires n <= u64::MAX, ATTOS_PER_UNIT == 1_000_000_000_000_000_000;
        Decimal { attos: (n as i128) * ATTOS_PER_UNIT }
    }

    /// Drops the bucket `other` into this one: its liquid units join this bucket's.
    /// Fails, changing nothing, where `other` holds another resource, has locked
    /// units, or holds a unit already held here.
    pub fn put(&mut self, other: NonFungibleBucketBlueprint) -> (r: Result<(), BucketError>)
        requires
            old(self).wf(),
            other.wf(),
        ensures
            final(self).wf(),
            r is Err ==> *final(self) == *old(self),
            other.resource_address != old(self).resource_address ==> r == Err::<(), BucketError>(
                BucketError::ResourceError(ResourceError::MismatchingResource)),
            other.resource_address == old(self).resource_address && locked_ids(other.locked@).len() > 0
                ==> r == Err::<(), BucketError>(BucketError::BucketLocked),
            other.resource_address == old(self).resource_address && locked_ids(other.locked@).len() == 0 ==> {
                &&& r is Err <==> exists|k: NonFungibleLocalId| other.liquid@.contains(k) && old(self).holds(k)
                &&& r is Ok ==> final(self).liquid@ == old(self).liquid@ + other.liquid@ && final(self).locked@
                    == old(self).locked@ && final(self).resource_address == old(self).resource_address
            },
    {
        if other.resource_address != self.resource_address {
            return Err(BucketError::ResourceError(ResourceError::MismatchingResource));
        }
        let mut i: usize = 0;
        proof {
            assert(other.locked@.take(0) =~= Seq::<(NonFungibleLocalId, u32)>::empty());
        }
        while i < other.locked.len()
            invariant
                *self == *old(self),
                old(self).wf(),
                other.resource_address == old(self).resource_address,
                i <= other.locked@.len(),
                locked_ids(other.locked@.take(i as int)).len() == 0,
            decreases other.locked@.len() - i,
        {
            proof {
                assert(other.locked@.take(i + 1).drop_last() =~= other.locked@.take(i as int));
                assert(other.locked@.take(i + 1).last() == other.locked@[i as int]);
            }
            if other.locked[i].1 > 0 {
                proof {
                    lemma_locked_ids_prefix(other.locked@, i + 1);
                }
                return Err(BucketError::BucketLocked);
            }
            i = i + 1;
        }
        proof {
            assert(other.locked@.take(i as int) =~= other.locked@);
        }
        self.put_liquid(other.liquid)
    }

    /// Lock count of `id`; 0 where it is not locked.
    fn lock_count(&self, id: NonFungibleLocalId) -> (r: u32)
        requires
            self.wf(),
        ensures
            r == count_of(self.locked@, id),
    {
        match self.locked_index(id) {
            Some(i) => {
                proof {
                    lemma_count_found(self.locked@, i as int);
                }
                self.locked[i].1
            },
            None => {
                proof {
                    lemma_count_absent(self.locked@, id);
                }
                0
            },
        }
    }

    /// Takes `amount` liquid units, the first ones in order.
    pub fn take(&mut self, amount: Decimal) -> (r: Result<Vec<NonFungibleLocalId>, BucketError>)
        requires
            old(self).wf(),
        ensures
            final(self).wf(),
            Self::take_post(*old(self), amount@, WithdrawStrategy::Exact, *final(self), r),
    {
        self.take_advanced(amount, WithdrawStrategy::Exact)
    }

    /// What taking `amount` under `strategy` from `s` does, ending in `f` with result `r`.
    pub open spec fn take_post(
        s: NonFungibleBucketBlueprint,
        amount: int,
        strategy: WithdrawStrategy,
        f: NonFungibleBucketBlueprint,
        r: Result<Vec<NonFungibleLocalId>, BucketError>,
    ) -> bool {
        let a = ATTOS_PER_UNIT as int;
        let w = withdrawal_attos(amount, strategy);
        if amount < 0 {
            r == Err::<Vec<NonFungibleLocalId>, BucketError>(BucketError::InvalidAmount) && f == s
        } else if amount > (s.liquid@.len() + 1) * a {
            r == Err::<Vec<NonFungibleLocalId>, BucketError>(
                BucketError::ResourceError(ResourceError::InsufficientBalance),
            ) && f == s
        } else if w % a != 0 || w / a > u32::MAX {
            r == Err::<Vec<NonFungibleLocalId>, BucketError>(BucketError::InvalidAmount) && f == s
        } else if w / a > s.liquid@.len() {
            r == Err::<Vec<NonFungibleLocalId>, BucketError>(
                BucketError::ResourceError(ResourceError::InsufficientBalance),
            ) && f == s
        } else {
            &&& r is Ok
            &&& r->Ok_0@ == s.liquid@.take(w / a)
            &&& f.liquid@ == s.liquid@.skip(w / a)
            &&& f.locked@ == s.locked@
            &&& f.resource_address == s.resource_address
        }
    }

    /// Takes `amount` liquid units, rounded to whole units by `strategy`.
    pub fn take_advanced(&mut self, amount: Decimal, withdraw_strategy: WithdrawStrategy) -> (r:
        Result<Vec<NonFungibleLocalId>, BucketError>)
        requires
            old(self).wf(),
        ensures
            final(self).wf(),
            Self::take_post(*old(self), amount@, withdraw_strategy, *final(self), r),
    {
        if amount.is_negative() {
            return Err(BucketError::InvalidAmount);
        }
        let len = self.liquid.len() as u64;
        assert((len + 1) * ATTOS_PER_UNIT <= i128::MAX) by (nonlinear_arith)
            requires len <= u64::MAX, ATTOS_PER_UNIT == 1_000_000_000_000_000_000;
        let plus_one: i128 = (len as i128 + 1) * ATTOS_PER_UNIT;
        if amount.attos > plus_one {
            return Err(BucketError::ResourceError(ResourceError::InsufficientBalance));
        }
        let rem = amount.attos % ATTOS_PER_UNIT;
        let w: i128 = match withdraw_strategy {
            WithdrawStrategy::Exact => amount.attos,
            WithdrawStrategy::RoundDown => amount.attos - rem,
            WithdrawStrategy::RoundUp => if rem == 0 {
                amount.attos
            } else {
                amount.attos - rem + ATTOS_PER_UNIT
            },
        };
        if w % ATTOS_PER_UNIT != 0 || w / ATTOS_PER_UNIT > u32::MAX as i128 {
            return Err(BucketError::InvalidAmount);
        }
        let n = (w / ATTOS_PER_UNIT) as usize;
        if n > self.liquid.len() {
            return Err(BucketError::ResourceError(ResourceError::InsufficientBalance));
        }
        let ghost l0 = self.liquid@;
        let mut taken: Vec<NonFungibleLocalId> = Vec::new();
        let mut rest: Vec<NonFungibleLocalId> = Vec::new();
        let mut i: usize = 0;
        while i < self.liquid.len()
            invariant
                self.liquid@ == l0,
                n <= l0.len(),
                i <= l0.len(),
                taken@ == l0.take(if i < n { i as int } else { n as int }),
                rest@ == if i <= n { Seq::<NonFungibleLocalId>::empty() } else { l0.subrange(n as int, i as int) },
            decreases l0.len() - i,
        {
            if i < n {
                taken.push(self.liquid[i]);
                proof {
                    assert(taken@ =~= l0.take(i + 1));
                }
            } else {
                rest.push(self.liquid[i]);
                proof {
                    assert(rest@ =~= l0.subrange(n as int, i + 1));
                }
            }
            i = i + 1;
        }
        proof {
            assert(rest@ =~= l0.skip(n as int));
            assert forall|k: NonFungibleLocalId| rest@.contains(k) implies l0.contains(k) by {
                let m = choose|m: int| 0 <= m < rest@.len() && rest@[m] == k;
                assert(l0[n + m] == k);
            }
        }
        self.liquid = rest;
        Ok(taken)
    }

    /// Takes the liquid units `ids`; fails, changing nothing, where one is not liquid here.
    pub fn take_non_fungibles(&mut self, ids: &Vec<NonFungibleLocalId>) -> (r: Result<
        Vec<NonFungibleLocalId>,
        BucketError,
    >)
        requires
            old(self).wf(),
            ids@.no_duplicates(),
        ensures
            final(self).wf(),
            r matches Err(e) ==> *final(self) == *old(self) && exists|k: NonFungibleLocalId|
                ids@.contains(k) && !old(self).liquid@.contains(k) && e == BucketError::ResourceError(
                    ResourceError::NonFungibleNotFound(k)),
            r is Err <==> exists|k: NonFungibleLocalId| ids@.contains(k) && !old(self).liquid@.contains(k),
            r matches Ok(t) ==> {
                &&& t@ == ids@
                &&& forall|k: NonFungibleLocalId| final(self).liquid@.contains(k) <==> old(self).liquid@.contains(k) && !ids@.contains(k)
                &&& final(self).locked@ == old(self).locked@
                &&& final(self).resource_address == old(self).resource_address
            },
    {
        let mut i: usize = 0;
        while i < ids.len()
            invariant
                *self == *old(self),
                old(self).wf(),
                i <= ids@.len(),
                forall|j: int| 0 <= j < i ==> self.liquid@.contains(#[trigger] ids@[j]),
            decreases ids@.len() - i,
        {
            if self.liquid_index(ids[i]).is_none() {
                assert(ids@.contains(ids@[i as int]));
                return Err(BucketError::ResourceError(ResourceError::NonFungibleNotFound(ids[i])));
            }
            i = i + 1;
        }
        proof {
            assert forall|k: NonFungibleLocalId| ids@.contains(k) implies self.liquid@.contains(k) by {
                let j = choose|j: int| 0 <= j < ids@.len() && ids@[j] == k;
            }
        }
        self.liquid = without_ids(&self.liquid, ids);
        Ok(ids.clone())
    }

    /// Puts the units `ids` into the liquid part; fails, changing nothing, where one
    /// is already held here.
    fn put_liquid(&mut self, ids: Vec<NonFungibleLocalId>) -> (r: Result<(), BucketError>)
        requires
            old(self).wf(),
            ids@.no_duplicates(),
        ensures
            final(self).wf(),
            r is Err <==> exists|k: NonFungibleLocalId| ids@.contains(k) && old(self).holds(k),
            r is Err ==> *final(self) == *old(self),
            r is Ok ==> final(self).liquid@ == old(self).liquid@ + ids@ && final(self).locked@
                == old(self).locked@ && final(self).resource_address == old(self).resource_address,
    {
        let mut i: usize = 0;
        while i < ids.len()
            invariant
                self.wf(),
                i <= ids@.len(),
                forall|j: int| 0 <= j < i ==> !self.holds(#[trigger] ids@[j]),
            decreases ids@.len() - i,
        {
            if self.contains_non_fungible(ids[i]) {
                assert(ids@.contains(ids@[i as int]));
                return Err(BucketError::ResourceError(ResourceError::NonFungibleAlreadyExists(ids[i])));
            }
            i = i + 1;
        }
        proof {
            assert forall|k: NonFungibleLocalId| ids@.contains(k) implies !self.holds(k) by {
                let j = choose|j: int| 0 <= j < ids@.len() && ids@[j] == k;
            }
        }
        let ghost l0 = self.liquid@;
        let ghost ids0 = ids@;
        let mut ids = ids;
        self.liquid.append(&mut ids);
        proof {
            let l = self.liquid@;
            assert forall|a: int, b: int| 0 <= a < b < l.len() implies l[a] != l[b] by {
                if a < l0.len() && b >= l0.len() {
                    assert(l0.contains(l[a]));
                }
            }
            assert forall|k: NonFungibleLocalId| l.contains(k) implies count_of(self.locked@, k) == 0 by {
                let m = choose|m: int| 0 <= m < l.len() && l[m] == k;
                if m < l0.len() {
                    assert(l0.contains(k));
                } else {
                    assert(ids0[m - l0.len()] == k);
                    assert(ids0.contains(k));
                    lemma_count_nonneg(self.locked@, k);
                }
            }
        }
        Ok(())
    }

    /// Locks the held units `ids` once more each, moving liquid ones to the locked part.
    /// Fails, changing nothing, where one is not held or its count is at its maximum.
    pub fn lock_non_fungibles(&mut self, ids: &Vec<NonFungibleLocalId>) -> (r: Result<(), BucketError>)
        requires
            old(self).wf(),
            ids@.no_duplicates(),
        ensures
            final(self).wf(),
            r is Err <==> exists|k: NonFungibleLocalId| ids@.contains(k) && (!old(self).holds(k)
                || count_of(old(self).locked@, k) == u32::MAX),
            r is Err ==> *final(self) == *old(self),
            r is Ok ==> {
                &&& forall|k: NonFungibleLocalId| #![auto] count_of(final(self).locked@, k) == count_of(old(self).locked@, k)
                    + if ids@.contains(k) { 1int } else { 0 }
                &&& forall|k: NonFungibleLocalId| final(self).liquid@.contains(k) <==> old(self).liquid@.contains(k) && !ids@.contains(k)
                &&& final(self).resource_address == old(self).resource_address
            },
    {
        let mut i: usize = 0;
        while i < ids.len()
            invariant
                *self == *old(self),
                old(self).wf(),
                i <= ids@.len(),
                forall|j: int| 0 <= j < i ==> self.holds(#[trigger] ids@[j]),
                forall|j: int| 0 <= j < i ==> count_of(self.locked@, #[trigger] ids@[j]) < u32::MAX,
            decreases ids@.len() - i,
        {
            let id = ids[i];
            assert(ids@.contains(id));
            let held = self.contains_non_fungible(id);
            if !held {
                return Err(BucketError::ResourceError(ResourceError::NonFungibleNotFound(id)));
            }
            let c = self.lock_count(id);
            if c == u32::MAX {
                return Err(BucketError::ResourceError(ResourceError::NonFungibleNotFound(id)));
            }
            assert(self.holds(ids@[i as int]) && count_of(self.locked@, ids@[i as int]) < u32::MAX);
            i = i + 1;
        }
        proof {
            assert forall|k: NonFungibleLocalId| ids@.contains(k) implies self.holds(k) && count_of(self.locked@, k) < u32::MAX by {
                let j = choose|j: int| 0 <= j < ids@.len() && ids@[j] == k;
                assert(self.holds(ids@[j]));
            }
        }
        let ghost s0 = *self;
        self.liquid = without_ids(&self.liquid, ids);
        let mut i: usize = 0;
        while i < ids.len()
            invariant
                s0.wf(),
                ids@.no_duplicates(),
                i <= ids@.len(),
                forall|k: NonFungibleLocalId| #[trigger] ids@.contains(k) ==> s0.holds(k) && count_of(s0.locked@, k) < u32::MAX,
                self.liquid@.no_duplicates(),
                forall|k: NonFungibleLocalId| #[trigger] self.liquid@.contains(k) <==> s0.liquid@.contains(k) && !ids@.contains(k),
                keys_unique(self.locked@),
                forall|k: NonFungibleLocalId| #![auto] count_of(self.locked@, k) == count_of(s0.locked@, k)
                    + if ids@.take(i as int).contains(k) { 1int } else { 0 },
                self.resource_address == s0.resource_address,
            decreases ids@.len() - i,
        {
            let id = ids[i];
            let ghost lk = self.locked@;
            let ghost lq0 = self.liquid@;
            let ghost t0 = ids@.take(i as int);
            let ghost t1 = ids@.take(i + 1);
            proof {
                assert(t1 =~= t0.push(id));
                assert(!t0.contains(id)) by {
                    if t0.contains(id) {
                        let j = choose|j: int| 0 <= j < t0.len() && t0[j] == id;
                        assert(ids@[j] == ids@[i as int]);
                    }
                }
                assert(ids@.contains(id));
                assert forall|k: NonFungibleLocalId| t1.contains(k) <==> t0.contains(k) || k == id by {
                    if t1.contains(k) && k != id {
                        let j = choose|j: int| 0 <= j < t1.len() && t1[j] == k;
                        assert(t0[j] == k);
                    }
                    if t0.contains(k) {
                        let j = choose|j: int| 0 <= j < t0.len() && t0[j] == k;
                        assert(t1[j] == k);
                    }
                    assert(t1[i as int] == id);
                }
            }
            match self.locked_index(id) {
                Some(j) => {
                    proof {
                        lemma_count_found(lk, j as int);
                    }
                    assert(count_of(lk, id) == count_of(s0.locked@, id) + if t0.contains(id) { 1int } else { 0 });
                    assert(count_of(s0.locked@, id) < u32::MAX);
                    let c = self.locked[j].1;
                    self.locked.set(j, (id, c + 1));
                    proof {
                        assert(self.locked@ == lk.update(j as int, (lk[j as int].0, (c + 1) as u32)));
                        assert forall|k: NonFungibleLocalId| #![auto] count_of(self.locked@, k) == count_of(lk, k) + if k == id { 1int } else { 0 } by {
                            lemma_count_update(lk, j as int, (c + 1) as u32, k);
                        }
                    }
                },
                None => {
                    proof {
                        lemma_count_absent(lk, id);
                        assert forall|k: NonFungibleLocalId| #![auto] count_of(lk.push((id, 1u32)), k) == count_of(lk, k) + if k == id { 1int } else { 0 } by {
                            lemma_count_push(lk, (id, 1u32), k);
                        }
                    }
                    self.locked.push((id, 1));
                    proof {
                        assert forall|a: int, b: int| 0 <= a < b < self.locked@.len() implies self.locked@[a].0 != self.locked@[b].0 by {
                            if b == lk.len() {
                                assert(lk[a] == self.locked@[a]);
                            }
                        }
                    }
                },
            }
            assert(self.liquid@ == lq0);
            i = i + 1;
        }
        proof {
            assert(ids@.take(i as int) =~= ids@);
            assert forall|k: NonFungibleLocalId| self.liquid@.contains(k) implies count_of(self.locked@, k) == 0 by {
                assert(s0.liquid@.contains(k));
            }
        }
        Ok(())
    }

    /// Releases one lock on each of the locked units `ids`; a unit whose last lock
    /// goes becomes liquid again.
    pub fn unlock_non_fungibles(&mut self, ids: Vec<NonFungibleLocalId>)
        requires
            old(self).wf(),
            ids@.no_duplicates(),
            forall|k: NonFungibleLocalId| ids@.contains(k) ==> old(self).is_locked(k),
        ensures
            final(self).wf(),
            forall|k: NonFungibleLocalId| #![auto] count_of(final(self).locked@, k) == count_of(old(self).locked@, k)
                - if ids@.contains(k) { 1int } else { 0 },
            forall|k: NonFungibleLocalId| final(self).liquid@.contains(k) <==> old(self).liquid@.contains(k)
                || (ids@.contains(k) && count_of(old(self).locked@, k) == 1),
            final(self).resource_address == old(self).resource_address,
    {
        let ghost s0 = *self;
        let mut i: usize = 0;
        while i < ids.len()
            invariant
                s0.wf(),
                ids@.no_duplicates(),
                forall|k: NonFungibleLocalId| ids@.contains(k) ==> s0.is_locked(k),
                i <= ids@.len(),
                self.wf(),
                forall|k: NonFungibleLocalId| #![auto] count_of(self.locked@, k) == count_of(s0.locked@, k)
                    - if ids@.take(i as int).contains(k) { 1int } else { 0 },
                forall|k: NonFungibleLocalId| self.liquid@.contains(k) <==> s0.liquid@.contains(k)
                    || (ids@.take(i as int).contains(k) && count_of(s0.locked@, k) == 1),
                self.resource_address == s0.resource_address,
            decreases ids@.len() - i,
        {
            let id = ids[i];
            let ghost lk = self.locked@;
            let ghost lq = self.liquid@;
            let ghost t0 = ids@.take(i as int);
            let ghost t1 = ids@.take(i + 1);
            proof {
                assert(t1 =~= t0.push(id));
                assert(!t0.contains(id)) by {
                    if t0.contains(id) {
                        let j = choose|j: int| 0 <= j < t0.len() && t0[j] == id;
                        assert(ids@[j] == ids@[i as int]);
                    }
                }
                assert(ids@.contains(id));
                assert forall|k: NonFungibleLocalId| t1.contains(k) <==> t0.contains(k) || k == id by {
                    if t1.contains(k) && k != id {
                        let j = choose|j: int| 0 <= j < t1.len() && t1[j] == k;
                        assert(t0[j] == k);
                    }
                    if t0.contains(k) {
                        let j = choose|j: int| 0 <= j < t0.len() && t0[j] == k;
                        assert(t1[j] == k);
                    }
                    assert(t1[i as int] == id);
                }
                assert(count_of(lk, id) == count_of(s0.locked@, id) - if t0.contains(id) { 1int } else { 0 });
                assert(s0.is_locked(id));
                assert(count_of(lk, id) > 0);
                if !has_key(lk, id) {
                    lemma_count_absent(lk, id);
                }
            }
            let j = match self.locked_index(id) {
                Some(j) => j,
                None => { proof { assert(false); } 0 },
            };
            proof {
                lemma_count_found(lk, j as int);
            }
            let c = self.locked[j].1;
            self.locked.set(j, (id, c - 1));
            proof {
                assert(self.locked@ == lk.update(j as int, (lk[j as int].0, (c - 1) as u32)));
                assert forall|k: NonFungibleLocalId| #![auto] count_of(self.locked@, k) == count_of(lk, k) - if k == id { 1int } else { 0 } by {
                    lemma_count_update(lk, j as int, (c - 1) as u32, k);
                }
                assert(keys_unique(self.locked@)) by {
                    assert forall|a: int, b: int| 0 <= a < b < self.locked@.len() implies self.locked@[a].0 != self.locked@[b].0 by {
                        assert(lk[a].0 == self.locked@[a].0);
                        assert(lk[b].0 == self.locked@[b].0);
                    }
                }
            }
            if c == 1 {
                proof {
                    assert(!lq.contains(id));
                }
                self.liquid.push(id);
                proof {
                    assert forall|a: int, b: int| 0 <= a < b < self.liquid@.len() implies self.liquid@[a] != self.liquid@[b] by {
                        if b == lq.len() {
                            assert(lq.contains(self.liquid@[a]));
                        }
                    }
                    assert forall|k: NonFungibleLocalId| self.liquid@.contains(k) <==> lq.contains(k) || k == id by {
                        if self.liquid@.contains(k) && k != id {
                            let m = choose|m: int| 0 <= m < self.liquid@.len() && self.liquid@[m] == k;
                            assert(lq[m] == k);
                        }
                        if lq.contains(k) {
                            let m = choose|m: int| 0 <= m < lq.len() && lq[m] == k;
                            assert(self.liquid@[m] == k);
                        }
                        assert(self.liquid@[lq.len() as int] == id);
                    }
                }
            }
            i = i + 1;
        }
        proof {
            assert(ids@.take(i as int) =~= ids@);
        }
    }

    /// Locks `ids` and issues a proof of them, backed by the bucket `receiver`.
    pub fn create_proof_of_non_fungibles(&mut self, receiver: NodeId, ids: Vec<NonFungibleLocalId>) -> (r:
        Result<NonFungibleProof, BucketError>)
        requires
            old(self).wf(),
            ids@.no_duplicates(),
        ensures
            final(self).wf(),
            r is Err <==> exists|k: NonFungibleLocalId| ids@.contains(k) && (!old(self).holds(k)
                || count_of(old(self).locked@, k) == u32::MAX),
            r is Err ==> *final(self) == *old(self),
            r matches Ok(p) ==> {
                &&& p.ids@ == ids@
                &&& p.resource_address == old(self).resource_address
                &&& p.evidence == receiver
                &&& forall|k: NonFungibleLocalId| #![auto] count_of(final(self).locked@, k) == count_of(old(self).locked@, k)
                    + if ids@.contains(k) { 1int } else { 0 }
                &&& forall|k: NonFungibleLocalId| final(self).liquid@.contains(k) <==> old(self).liquid@.contains(k) && !ids@.contains(k)
            },
    {
        match self.lock_non_fungibles(&ids) {
            Err(e) => Err(e),
            Ok(()) => Ok(NonFungibleProof { resource_address: self.resource_address, ids, evidence: receiver }),
        }
    }

    /// Locks every unit held and issues a proof of them all.
    pub fn create_proof_of_all(&mut self, receiver: NodeId) -> (r: Result<NonFungibleProof, BucketError>)
        requires
            old(self).wf(),
        ensures
            final(self).wf(),
            r is Err <==> exists|k: NonFungibleLocalId| old(self).holds(k) && count_of(old(self).locked@, k) == u32::MAX,
            r is Err ==> *final(self) == *old(self),
            r matches Ok(p) ==> {
                &&& forall|k: NonFungibleLocalId| p.ids@.contains(k) <==> old(self).holds(k)
                &&& p.evidence == receiver
                &&& forall|k: NonFungibleLocalId| !final(self).liquid@.contains(k)
            },
    {
        let ids = self.get_non_fungible_local_ids();
        proof {
            lemma_locked_ids_no_dup(self.locked@);
            lemma_locked_ids(self.locked@);
            let a = self.liquid@;
            let b = locked_ids(self.locked@);
            assert forall|x: int, y: int| 0 <= x < y < (a + b).len() implies (a + b)[x] != (a + b)[y] by {
                if x < a.len() && y >= a.len() {
                    assert(a.contains(a[x]));
                    assert(b[y - a.len()] == (a + b)[y]);
                    assert(b.contains(b[y - a.len()]));
                } else if x >= a.len() {
                    assert(b[x - a.len()] == (a + b)[x]);
                    assert(b[y - a.len()] == (a + b)[y]);
                }
            }
        }
        let ghost all = ids@;
        let r = self.create_proof_of_non_fungibles(receiver, ids);
        proof {
            if r is Ok {
                assert forall|k: NonFungibleLocalId| !self.liquid@.contains(k) by {
                    if old(self).liquid@.contains(k) {
                        assert(old(self).holds(k));
                        assert(all.contains(k));
                    }
                }
            }
        }
        r
    }

    pub fn get_resource_address(&self) -> (r: NodeId)
        ensures
            r == self.resource_address,
    {
        self.resource_address
    }
}

} // verus!
