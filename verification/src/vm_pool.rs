//! A fixed-size arena of interpreter VMs with borrow, return and
//! recreate-on-loss semantics.
//!
//! Every VM lives in a slot with a stable id. A slot is either idle and
//! holding its VM, lent to an executing actor, or being (re)built. Building
//! a VM is the runtime's asynchronous work: the pool starts with every slot
//! under construction and the driver reports each VM in with [`VmPool::vm_created`].

use vstd::prelude::*;
use vstd::pervasive::VecAdditionalExecFns;

verus! {

/// One slot of the pool.
pub enum VmSlot<RT> {
    /// The VM is in the pool, free to borrow.
    Idle(RT),
    /// The VM is borrowed by an executing actor.
    Lent,
    /// The VM is being built or rebuilt; the slot holds nothing yet.
    Creating,
}

/// How many slots of a pool are idle.
pub open spec fn count_idle<RT>(s: Seq<VmSlot<RT>>) -> int
    decreases s.len(),
{
    if s.len() == 0 {
        0
    } else {
        count_idle(s.drop_last()) + if s.last() is Idle {
            1int
        } else {
            0int
        }
    }
}

/// How many slots of a pool are lent out.
pub open spec fn count_lent<RT>(s: Seq<VmSlot<RT>>) -> int
    decreases s.len(),
{
    if s.len() == 0 {
        0
    } else {
        count_lent(s.drop_last()) + if s.last() is Lent {
            1int
        } else {
            0int
        }
    }
}

/// How many slots of a pool are being (re)built.
pub open spec fn count_creating<RT>(s: Seq<VmSlot<RT>>) -> int
    decreases s.len(),
{
    if s.len() == 0 {
        0
    } else {
        count_creating(s.drop_last()) + if s.last() is Creating {
            1int
        } else {
            0int
        }
    }
}

/// Every slot is in exactly one of the three states, so the three counts
/// always account for the whole pool:
/// `pool_free + active_executions + recreating = pool_size`.
pub proof fn lemma_slot_counts_sum<RT>(s: Seq<VmSlot<RT>>)
    ensures
        count_idle(s) + count_lent(s) + count_creating(s) == s.len(),
    decreases s.len(),
{
    if s.len() > 0 {
        lemma_slot_counts_sum(s.drop_last());
    }
}

/// Returning a VM to the slot it was just borrowed from restores the pool
/// exactly: `put_vm(get_vm()?)` is a no-op on pool contents.
pub proof fn lemma_put_after_get_restores<RT>(s: Seq<VmSlot<RT>>, i: int, vm: RT)
    requires
        0 <= i < s.len(),
        s[i] == VmSlot::Idle(vm),
    ensures
        s.update(i, VmSlot::Lent).update(i, VmSlot::Idle(vm)) == s,
{
    assert(s.update(i, VmSlot::Lent).update(i, VmSlot::Idle(vm)) =~= s);
}

/// A pool with no idle slot has a zero idle count.
pub proof fn lemma_count_idle_zero<RT>(s: Seq<VmSlot<RT>>)
    requires
        forall|i: int| 0 <= i < s.len() ==> !((#[trigger] s[i]) is Idle),
    ensures
        count_idle(s) == 0,
    decreases s.len(),
{
    if s.len() > 0 {
        lemma_count_idle_zero(s.drop_last());
    }
}

/// The slot ids that are lent out.
pub open spec fn lent_indices<RT>(s: Seq<VmSlot<RT>>) -> Set<int> {
    Set::new(|v: int| 0 <= v < s.len() && s[v] is Lent)
}

/// The lent count is the cardinality of the set of lent slot ids.
pub proof fn lemma_count_lent_is_card<RT>(s: Seq<VmSlot<RT>>)
    ensures
        lent_indices(s).finite(),
        count_lent(s) == lent_indices(s).len(),
    decreases s.len(),
{
    vstd::set_lib::lemma_int_range(0, s.len() as int);
    vstd::set_lib::lemma_len_subset(lent_indices(s), vstd::set_lib::set_int_range(0, s.len() as int));
    if s.len() == 0 {
        assert(lent_indices(s) =~= Set::<int>::empty());
    } else {
        lemma_count_lent_is_card(s.drop_last());
        let l = s.len() - 1;
        if s.last() is Lent {
            assert(lent_indices(s) =~= lent_indices(s.drop_last()).insert(l));
            assert(!lent_indices(s.drop_last()).contains(l));
        } else {
            assert(lent_indices(s) =~= lent_indices(s.drop_last()));
        }
    }
}

/// The pool itself: a vector of slots indexed by vm id.
pub struct VmPool<RT> {
    pub slots: Vec<VmSlot<RT>>,
}

impl<RT> VmPool<RT> {
    /// A pool of `pool_size` slots, every VM still under construction.
    pub fn new(pool_size: usize) -> (r: Self)
        ensures
            r.slots@.len() == pool_size,
            forall|i: int| 0 <= i < pool_size ==> r.slots@[i] is Creating,
            count_lent(r.slots@) == 0,
    {
        let mut slots: Vec<VmSlot<RT>> = Vec::new();
        let mut i: usize = 0;
        while i < pool_size
            invariant
                i <= pool_size,
                slots@.len() == i,
                forall|j: int| 0 <= j < i ==> slots@[j] is Creating,
                count_lent(slots@) == 0,
            decreases pool_size - i,
        {
            proof {
                assert(slots@.push(VmSlot::<RT>::Creating).drop_last() =~= slots@);
            }
            slots.push(VmSlot::Creating);
            i = i + 1;
        }
        VmPool { slots }
    }

    /// How many slots the pool was built with.
    pub fn pool_size(&self) -> (r: usize)
        ensures
            r == self.slots@.len(),
    {
        self.slots.len()
    }

    /// Borrows the idle VM of the lowest slot id, or nothing; never blocks.
    pub fn get_vm(&mut self) -> (r: Option<(usize, RT)>)
        ensures
            match r {
                None => {
                    &&& final(self).slots@ == old(self).slots@
                    &&& forall|i: int|
                        0 <= i < old(self).slots@.len() ==> !(old(self).slots@[i] is Idle)
                },
                Some((vm_id, vm)) => {
                    &&& vm_id < old(self).slots@.len()
                    &&& old(self).slots@[vm_id as int] == VmSlot::Idle(vm)
                    &&& forall|j: int| 0 <= j < vm_id ==> !(old(self).slots@[j] is Idle)
                    &&& final(self).slots@ == old(self).slots@.update(
                        vm_id as int,
                        VmSlot::<RT>::Lent,
                    )
                },
            },
    {
        let mut i: usize = 0;
        while i < self.slots.len()
            invariant
                i <= self.slots@.len(),
                self.slots@ == old(self).slots@,
                forall|j: int| 0 <= j < i ==> !(self.slots@[j] is Idle),
            decreases self.slots@.len() - i,
        {
            let found = match &self.slots[i] {
                VmSlot::Idle(_) => true,
                _ => false,
            };
            if found {
                let slot = self.slots.remove(i);
                self.slots.insert(i, VmSlot::Lent);
                proof {
                    assert(self.slots@ =~= old(self).slots@.update(i as int, VmSlot::<RT>::Lent));
                }
                match slot {
                    VmSlot::Idle(vm) => {
                        return Some((i, vm));
                    },
                    _ => {
                        proof {
                            assert(false);
                        }
                        return None;
                    },
                }
            }
            i = i + 1;
        }
        None
    }

    /// Returns a borrowed VM to its slot; `vm_id` must be the borrowed one.
    pub fn put_vm(&mut self, vm_id: usize, vm: RT)
        requires
            vm_id < old(self).slots@.len(),
            old(self).slots@[vm_id as int] is Lent,
        ensures
            final(self).slots@ == old(self).slots@.update(vm_id as int, VmSlot::Idle(vm)),
    {
        self.slots.set(vm_id, VmSlot::Idle(vm));
    }

    /// Marks a borrowed VM as lost (its execution panicked or was cancelled)
    /// and its slot as under reconstruction.
    pub fn recreate_avm(&mut self, vm_id: usize)
        requires
            vm_id < old(self).slots@.len(),
            old(self).slots@[vm_id as int] is Lent,
        ensures
            final(self).slots@ == old(self).slots@.update(vm_id as int, VmSlot::<RT>::Creating),
    {
        self.slots.set(vm_id, VmSlot::Creating);
    }

    /// Reports a (re)construction finished: the runtime built a VM for the
    /// slot and the pool takes it in as idle.
    pub fn vm_created(&mut self, vm_id: usize, vm: RT)
        requires
            vm_id < old(self).slots@.len(),
            old(self).slots@[vm_id as int] is Creating,
        ensures
            final(self).slots@ == old(self).slots@.update(vm_id as int, VmSlot::Idle(vm)),
    {
        self.slots.set(vm_id, VmSlot::Idle(vm));
    }

    /// How many VMs are idle in the pool right now.
    pub fn free_vms(&self) -> (r: usize)
        ensures
            r == count_idle(self.slots@),
    {
        let mut count: usize = 0;
        let mut i: usize = 0;
        proof {
            assert(self.slots@.take(0) =~= Seq::<VmSlot<RT>>::empty());
        }
        while i < self.slots.len()
            invariant
                i <= self.slots@.len(),
                count == count_idle(self.slots@.take(i as int)),
                count <= i,
            decreases self.slots@.len() - i,
        {
            proof {
                assert(self.slots@.take(i + 1).drop_last() =~= self.slots@.take(i as int));
                assert(self.slots@.take(i + 1).last() == self.slots@[i as int]);
            }
            let is_idle = match &self.slots[i] {
                VmSlot::Idle(_) => true,
                _ => false,
            };
            if is_idle {
                count = count + 1;
            }
            i = i + 1;
        }
        proof {
            assert(self.slots@.take(self.slots@.len() as int) =~= self.slots@);
        }
        count
    }
}

} // verus!
