use vstd::prelude::*;
use crate::arena::{slabs_disjoint, Arena, Slab};

verus! {

/// How many task indices one claimed chunk holds at most.
pub const CHUNK_SIZE: u64 = 4;

/// What can go wrong in a call into the runtime.
#[derive(Debug, Clone, Copy, PartialEq, Eq, Structural)]
pub enum RuntimeError {
    /// No live context has this handle.
    UnknownHandle,
    /// The arena could not get the backing memory it needs.
    OutOfMemory,
    /// An alignment of zero was asked for.
    BadAlignment,
    /// A launch whose task count does not fit in 64 bits.
    TooManyTasks,
    /// A completed chunk that was never claimed, or was completed already.
    UnknownChunk,
    /// Every context id has been handed out.
    IdsExhausted,
}

/// The tasks of one launch: an index space of `n0 * n1 * n2` tasks, all
/// running one task body on one argument block.
pub struct Group {
    pub func: usize,
    pub data: usize,
    pub n0: u32,
    pub n1: u32,
    pub n2: u32,
    pub total: u64,
    /// Indices below `next` have been claimed.
    pub next: u64,
    /// Claimed ranges whose execution has not been reported finished.
    pub running: Vec<(u64, u64)>,
    /// Set by the sync engine once every index has run; never cleared.
    pub done: bool,
}

impl Group {
    pub open spec fn wf(&self) -> bool {
        &&& self.total == self.n0 as nat * self.n1 as nat * self.n2 as nat
        &&& self.next <= self.total
        &&& self.done ==> self.settled()
        &&& forall|i: int|
            0 <= i < self.running@.len() ==> (#[trigger] self.running@[i]).0 < self.running@[i].1
                <= self.next
        &&& forall|i: int, j: int|
            0 <= i < j < self.running@.len() ==> (#[trigger] self.running@[i]).1 <= (
            #[trigger] self.running@[j]).0 || self.running@[j].1 <= self.running@[i].0
    }

    /// Some index of the group has not been claimed yet.
    pub open spec fn open(&self) -> bool {
        self.next < self.total
    }

    /// Every index was claimed and every claimed chunk has finished.
    pub open spec fn settled(&self) -> bool {
        self.next == self.total && self.running@.len() == 0
    }
}

/// The runtime state of one root call: its arena and its launches, in order.
pub struct Context {
    pub id: u64,
    pub arena: Arena,
    pub groups: Vec<Group>,
}

impl Context {
    pub open spec fn wf(&self) -> bool {
        &&& self.arena.wf()
        &&& forall|g: int| 0 <= g < self.groups@.len() ==> (#[trigger] self.groups@[g]).wf()
    }

    /// Every group launched in this context is done.
    pub open spec fn resolved(&self) -> bool {
        forall|g: int| 0 <= g < self.groups@.len() ==> (#[trigger] self.groups@[g]).done
    }

    /// Every index of every group launched in this context has run.
    pub open spec fn settled(&self) -> bool {
        forall|g: int| 0 <= g < self.groups@.len() ==> (#[trigger] self.groups@[g]).settled()
    }

    /// Some group of this context has indices left to claim.
    pub open spec fn has_open(&self) -> bool {
        exists|g: int| 0 <= g < self.groups@.len() && (#[trigger] self.groups@[g]).open()
    }
}

/// One claimed chunk: indices `[start, end)` of group `group` of context
/// `ctx`, with what is needed to run them.
#[derive(Debug, Clone, Copy, PartialEq, Eq, Structural)]
pub struct ChunkJob {
    pub ctx: u64,
    pub group: usize,
    pub start: u64,
    pub end: u64,
    pub func: usize,
    pub data: usize,
    pub n0: u32,
    pub n1: u32,
    pub n2: u32,
}

/// The result of an allocation request.
#[derive(Debug, Clone, Copy, PartialEq, Eq, Structural)]
pub enum AllocOutcome {
    /// The block was placed at `addr` in the arena of context `handle`.
    Placed { handle: u64, addr: u64 },
    /// The arena of context `handle` needs a new slab of at least `min_len`
    /// bytes before the request can be placed.
    NeedSlab { handle: u64, min_len: u64 },
}


/// `new` is `old` after claiming `job` from group `job.group` of context `k`:
/// the chunk is the next `CHUNK_SIZE` indices of that group (fewer at its
/// end), the group's cursor moves past it, and it is recorded as running.
pub open spec fn claimed_at(old: Seq<Context>, new: Seq<Context>, k: int, job: ChunkJob) -> bool {
    &&& 0 <= k < old.len()
    &&& same_except(old, new, k)
    &&& job.ctx == old[k].id
    &&& job.group < old[k].groups@.len()
    &&& new[k].id == old[k].id
    &&& new[k].arena == old[k].arena
    &&& new[k].groups@.len() == old[k].groups@.len()
    &&& forall|g: int|
        0 <= g < old[k].groups@.len() && g != job.group ==> #[trigger] new[k].groups@[g]
            == old[k].groups@[g]
    &&& {
        let og = old[k].groups@[job.group as int];
        let ng = new[k].groups@[job.group as int];
        &&& job.start == og.next
        &&& job.end as int == if og.next + CHUNK_SIZE <= og.total { og.next + CHUNK_SIZE } else { og.total as int }
        &&& job.start < job.end
        &&& job.func == og.func && job.data == og.data
        &&& job.n0 == og.n0 && job.n1 == og.n1 && job.n2 == og.n2
        &&& ng.next == job.end
        &&& ng.running@ == og.running@.push((job.start, job.end))
        &&& ng.done == og.done
        &&& ng.total == og.total && ng.func == og.func && ng.data == og.data
        &&& ng.n0 == og.n0 && ng.n1 == og.n1 && ng.n2 == og.n2
    }
}

/// `new` is `old` after claiming `job` from one of its contexts.
pub open spec fn claimed(old: Seq<Context>, new: Seq<Context>, job: ChunkJob) -> bool {
    exists|k: int| #[trigger] claimed_at(old, new, k, job)
}

/// The first group of `c` with indices left to claim, if any.
pub fn first_open(c: &Context) -> (r: Option<usize>)
    ensures
        r.is_some() == c.has_open(),
        r.is_some() ==> r.unwrap() < c.groups@.len() && c.groups@[r.unwrap() as int].open()
            && forall|g: int| 0 <= g < r.unwrap() ==> !(#[trigger] c.groups@[g]).open(),
{
    let mut g: usize = 0;
    while g < c.groups.len()
        invariant
            g <= c.groups@.len(),
            forall|i: int| 0 <= i < g ==> !(#[trigger] c.groups@[i]).open(),
        decreases c.groups@.len() - g,
    {
        if c.groups[g].next < c.groups[g].total {
            return Some(g);
        }
        g = g + 1;
    }
    None
}

/// `b` is group `a` after a sync step looked at it: the same group, marked
/// done if all of its indices have run.
pub open spec fn marked(a: Group, b: Group) -> bool {
    &&& b.func == a.func && b.data == a.data
    &&& b.n0 == a.n0 && b.n1 == a.n1 && b.n2 == a.n2
    &&& b.total == a.total && b.next == a.next
    &&& b.running == a.running
    &&& b.done == (a.done || a.settled())
}

/// `b` is context `a` after a sync step marked its groups.
pub open spec fn marked_ctx(a: Context, b: Context) -> bool {
    &&& b.id == a.id
    &&& b.arena == a.arena
    &&& b.groups@.len() == a.groups@.len()
    &&& forall|g: int| 0 <= g < a.groups@.len() ==> marked(a.groups@[g], #[trigger] b.groups@[g])
}

/// `b` is context `a` with one more block in its arena, at `addr`, of `size`
/// bytes aligned to `align`, placed in its last slab; earlier blocks stay.
pub open spec fn placed(a: Context, b: Context, size: u64, align: u64, addr: u64) -> bool {
    &&& b.id == a.id
    &&& b.groups == a.groups
    &&& addr % align == 0
    &&& b.arena.slabs@.len() == a.arena.slabs@.len()
    &&& b.arena.blocks@ == a.arena.blocks@.push(
        crate::arena::Block {
            slab: (a.arena.slabs@.len() - 1) as nat,
            addr: addr as int,
            size: size as int,
            align: align as int,
        },
    )
}

/// Chunk `job` is running in a group of context `c`.
pub open spec fn running_in(c: Context, job: ChunkJob) -> bool {
    job.group < c.groups@.len() && exists|i: int|
        0 <= i < c.groups@[job.group as int].running@.len()
            && #[trigger] c.groups@[job.group as int].running@[i] == (job.start, job.end)
}

/// `b` is context `a` after chunk `job` finished: that chunk is taken off its
/// group's running chunks, and the group is done once nothing is left to
/// claim or to run. Nothing else changes.
pub open spec fn completed(a: Context, b: Context, job: ChunkJob) -> bool {
    &&& b.id == a.id && b.arena == a.arena
    &&& b.groups@.len() == a.groups@.len()
    &&& job.group < a.groups@.len()
    &&& forall|g: int|
        0 <= g < a.groups@.len() && g != job.group ==> #[trigger] b.groups@[g] == a.groups@[g]
    &&& {
        let og = a.groups@[job.group as int];
        let ng = b.groups@[job.group as int];
        &&& exists|i: int|
            0 <= i < og.running@.len() && #[trigger] og.running@[i] == (job.start, job.end)
                && ng.running@ == og.running@.remove(i)
        &&& ng.func == og.func && ng.data == og.data
        &&& ng.n0 == og.n0 && ng.n1 == og.n1 && ng.n2 == og.n2
        &&& ng.total == og.total && ng.next == og.next
        &&& ng.done == ng.settled()
    }
}

/// Every live context, keyed by a process-unique id.
pub struct Registry {
    pub contexts: Vec<Context>,
    pub next_id: u64,
}

/// The contexts of `a` and `b` are the same but at index `k`.
pub open spec fn same_except(a: Seq<Context>, b: Seq<Context>, k: int) -> bool {
    a.len() == b.len() && forall|j: int| 0 <= j < a.len() && j != k ==> #[trigger] a[j] == b[j]
}

impl Registry {
    pub open spec fn wf(&self) -> bool {
        &&& forall|k: int|
            0 <= k < self.contexts@.len() ==> (#[trigger] self.contexts@[k]).wf()
                && self.contexts@[k].id < self.next_id
        &&& forall|j: int, k: int|
            0 <= j < k < self.contexts@.len() ==> (#[trigger] self.contexts@[j]).id != (
            #[trigger] self.contexts@[k]).id
    }

    /// A live context has id `id`.
    pub open spec fn has(&self, id: u64) -> bool {
        exists|k: int| 0 <= k < self.contexts@.len() && (#[trigger] self.contexts@[k]).id == id
    }

    /// Some live context has indices left to claim.
    pub open spec fn any_open(&self) -> bool {
        exists|k: int| 0 <= k < self.contexts@.len() && (#[trigger] self.contexts@[k]).has_open()
    }

    /// A registry with no contexts.
    pub fn new() -> (r: Registry)
        ensures
            r.wf(),
            r.contexts@.len() == 0,
            r.next_id == 0,
    {
        Registry { contexts: Vec::new(), next_id: 0 }
    }

    /// The position of the context with id `id`, if one is live.
    pub fn find(&self, id: u64) -> (r: Option<usize>)
        requires
            self.wf(),
        ensures
            r.is_some() == self.has(id),
            r.is_some() ==> r.unwrap() < self.contexts@.len() && self.contexts@[r.unwrap() as int].id
                == id,
    {
        let mut k: usize = 0;
        while k < self.contexts.len()
            invariant
                k <= self.contexts@.len(),
                forall|j: int| 0 <= j < k ==> (#[trigger] self.contexts@[j]).id != id,
            decreases self.contexts@.len() - k,
        {
            if self.contexts[k].id == id {
                return Some(k);
            }
            k = k + 1;
        }
        None
    }

    /// Registers a new context with a fresh id, no launches and an empty arena.
    pub fn create(&mut self) -> (r: Result<u64, RuntimeError>)
        requires
            old(self).wf(),
        ensures
            final(self).wf(),
            r.is_err() == (old(self).next_id == u64::MAX),
            r.is_err() ==> r == Err::<u64, RuntimeError>(RuntimeError::IdsExhausted),
            r.is_err() ==> final(self).contexts@ == old(self).contexts@ && final(self).next_id
                == old(self).next_id,
            r.is_ok() ==> {
                &&& r.unwrap() == old(self).next_id
                &&& final(self).next_id == old(self).next_id + 1
                &&& !old(self).has(r.unwrap())
                &&& final(self).contexts@.len() == old(self).contexts@.len() + 1
                &&& final(self).contexts@.drop_last() == old(self).contexts@
                &&& final(self).contexts@.last().id == r.unwrap()
                &&& final(self).contexts@.last().groups@.len() == 0
                &&& final(self).contexts@.last().arena.slabs@.len() == 0
                &&& final(self).contexts@.last().arena.blocks@.len() == 0
            },
    {
        if self.next_id == u64::MAX {
            return Err(RuntimeError::IdsExhausted);
        }
        let id = self.next_id;
        self.next_id = id + 1;
        self.contexts.push(Context { id, arena: Arena::new(), groups: Vec::new() });
        proof {
            assert(self.contexts@.drop_last() =~= old(self).contexts@);
        }
        Ok(id)
    }

    /// Serves `Alloc`. With no handle a new context is created, whose arena
    /// is still empty, so the caller is asked for a first slab. With the
    /// handle of a live context the block is placed in its arena when it fits
    /// there, else the caller is asked for a slab of `size + align` bytes.
    /// Every error leaves the registry as it was.
    pub fn allocate(&mut self, handle: Option<u64>, size: u64, align: u64) -> (r: Result<
        AllocOutcome,
        RuntimeError,
    >)
        requires
            old(self).wf(),
        ensures
            final(self).wf(),
            r.is_err() ==> final(self).contexts@ == old(self).contexts@ && final(self).next_id
                == old(self).next_id,
            align == 0 ==> r == Err::<AllocOutcome, RuntimeError>(RuntimeError::BadAlignment),
            align >= 1 && size + align > u64::MAX ==> r == Err::<AllocOutcome, RuntimeError>(
                RuntimeError::OutOfMemory,
            ),
            align >= 1 && size + align <= u64::MAX && handle.is_some() && !old(self).has(
                handle.unwrap(),
            ) ==> r == Err::<AllocOutcome, RuntimeError>(RuntimeError::UnknownHandle),
            align >= 1 && size + align <= u64::MAX && handle.is_none() && old(self).next_id
                == u64::MAX ==> r == Err::<AllocOutcome, RuntimeError>(RuntimeError::IdsExhausted),
            align >= 1 && size + align <= u64::MAX && handle.is_none() && old(self).next_id
                < u64::MAX ==> {
                &&& r == Ok::<AllocOutcome, RuntimeError>(
                    AllocOutcome::NeedSlab { handle: old(self).next_id, min_len: (size + align) as u64 },
                )
                &&& final(self).next_id == old(self).next_id + 1
                &&& final(self).contexts@.len() == old(self).contexts@.len() + 1
                &&& final(self).contexts@.drop_last() == old(self).contexts@
                &&& final(self).contexts@.last().id == old(self).next_id
                &&& final(self).contexts@.last().groups@.len() == 0
                &&& final(self).contexts@.last().arena.slabs@.len() == 0
                &&& final(self).contexts@.last().arena.blocks@.len() == 0
            },
            forall|k: int|
                handle.is_some() && align >= 1 && size + align <= u64::MAX && 0 <= k
                    < old(self).contexts@.len() && (#[trigger] old(self).contexts@[k]).id
                    == handle.unwrap() ==> {
                    &&& final(self).next_id == old(self).next_id
                    &&& same_except(old(self).contexts@, final(self).contexts@, k)
                    &&& old(self).contexts@[k].arena.fits(size, align) ==> match r {
                        Ok(AllocOutcome::Placed { handle: h, addr }) => h == handle.unwrap()
                            && placed(old(self).contexts@[k], final(self).contexts@[k], size, align, addr),
                        _ => false,
                    }
                    &&& !old(self).contexts@[k].arena.fits(size, align) ==> r == Ok::<
                        AllocOutcome,
                        RuntimeError,
                    >(AllocOutcome::NeedSlab { handle: handle.unwrap(), min_len: (size + align) as u64 })
                        && final(self).contexts@ == old(self).contexts@
                },
    {
        if align == 0 {
            return Err(RuntimeError::BadAlignment);
        }
        if size > u64::MAX - align {
            return Err(RuntimeError::OutOfMemory);
        }
        let h = match handle {
            Some(h) => h,
            None => {
                let id = self.create()?;
                return Ok(AllocOutcome::NeedSlab { handle: id, min_len: size + align });
            },
        };
        let k = match self.find(h) {
            Some(k) => k,
            None => return Err(RuntimeError::UnknownHandle),
        };
        proof {
            lemma_ids_unique(self);
        }
        let ghost before = self.contexts@;
        let mut ctx = self.contexts.remove(k);
        let spot = ctx.arena.allocate(size, align);
        self.contexts.insert(k, ctx);
        proof {
            assert(self.contexts@ =~= before.update(k as int, ctx));
        }
        match spot {
            Some(addr) => Ok(AllocOutcome::Placed { handle: h, addr }),
            None => {
                proof {
                    assert(self.contexts@ =~= before);
                }
                Ok(AllocOutcome::NeedSlab { handle: h, min_len: size + align })
            },
        }
    }

    /// Gives the arena of context `handle` a slab `[base, base + len)`.
    /// `OutOfMemory` when the arena refuses it (empty, past the end of the
    /// address space, or overlapping a slab it has).
    pub fn add_slab(&mut self, handle: u64, base: u64, len: u64) -> (r: Result<(), RuntimeError>)
        requires
            old(self).wf(),
        ensures
            final(self).wf(),
            final(self).contexts@.len() == old(self).contexts@.len(),
            forall|k: int| 0 <= k < old(self).contexts@.len() ==> (#[trigger] final(self).contexts@[k]).id
                == old(self).contexts@[k].id,
            !old(self).has(handle) ==> r == Err::<(), RuntimeError>(RuntimeError::UnknownHandle),
            old(self).has(handle) && r.is_err() ==> r == Err::<(), RuntimeError>(RuntimeError::OutOfMemory),
            r.is_err() ==> final(self).contexts@ == old(self).contexts@,
            final(self).next_id == old(self).next_id,
            forall|k: int|
                0 <= k < old(self).contexts@.len() && (#[trigger] old(self).contexts@[k]).id == handle
                    ==> {
                    &&& r.is_ok() == (len >= 1 && base + len <= u64::MAX && forall|j: int|
                        0 <= j < old(self).contexts@[k].arena.slabs@.len() ==> slabs_disjoint(
                            #[trigger] old(self).contexts@[k].arena.slabs@[j],
                            Slab { base, len, used: 0 },
                        ))
                    &&& r.is_ok() ==> same_except(old(self).contexts@, final(self).contexts@, k)
                        && final(self).contexts@[k].id == handle
                        && final(self).contexts@[k].groups == old(self).contexts@[k].groups
                        && final(self).contexts@[k].arena.blocks@ == old(self).contexts@[k].arena.blocks@
                        && final(self).contexts@[k].arena.slabs@ == old(self).contexts@[k].arena.slabs@.push(
                        Slab { base, len, used: 0 },
                    )
                },
    {
        let k = match self.find(handle) {
            Some(k) => k,
            None => return Err(RuntimeError::UnknownHandle),
        };
        proof {
            lemma_ids_unique(self);
        }
        let ghost mid = self.contexts@;
        let mut ctx = self.contexts.remove(k);
        let ok = ctx.arena.add_slab(base, len);
        self.contexts.insert(k, ctx);
        proof {
            assert(self.contexts@ =~= mid.update(k as int, self.contexts@[k as int]));
            if !ok {
                assert(self.contexts@[k as int] == mid[k as int]);
                assert(self.contexts@ =~= mid);
            }
        }
        if ok {
            Ok(())
        } else {
            Err(RuntimeError::OutOfMemory)
        }
    }

    /// Serves `Launch`: appends a group of `n0 * n1 * n2` tasks to the
    /// context `handle`. Nothing runs until the context is synced.
    pub fn launch(&mut self, handle: u64, func: usize, data: usize, n0: u32, n1: u32, n2: u32) -> (r:
        Result<(), RuntimeError>)
        requires
            old(self).wf(),
        ensures
            final(self).wf(),
            !old(self).has(handle) ==> r == Err::<(), RuntimeError>(RuntimeError::UnknownHandle),
            old(self).has(handle) && n0 as nat * n1 as nat * n2 as nat > u64::MAX ==> r == Err::<
                (),
                RuntimeError,
            >(RuntimeError::TooManyTasks),
            old(self).has(handle) && n0 as nat * n1 as nat * n2 as nat <= u64::MAX ==> r.is_ok(),
            r.is_err() ==> final(self).contexts@ == old(self).contexts@,
            r.is_ok() ==> exists|k: int|
                0 <= k < old(self).contexts@.len() && (#[trigger] old(self).contexts@[k]).id == handle
                    && same_except(old(self).contexts@, final(self).contexts@, k) && {
                    let c = final(self).contexts@[k];
                    let g = c.groups@.last();
                    &&& c.id == handle
                    &&& c.arena == old(self).contexts@[k].arena
                    &&& c.groups@.drop_last() == old(self).contexts@[k].groups@
                    &&& c.groups@.len() == old(self).contexts@[k].groups@.len() + 1
                    &&& g.func == func && g.data == data
                    &&& g.n0 == n0 && g.n1 == n1 && g.n2 == n2
                    &&& g.total == n0 as nat * n1 as nat * n2 as nat
                    &&& g.next == 0
                    &&& g.running@.len() == 0
                    &&& !g.done
                },
    {
        let k = match self.find(handle) {
            Some(k) => k,
            None => return Err(RuntimeError::UnknownHandle),
        };
        proof {
            assert(n0 as nat * n1 as nat <= 0xffff_ffff_ffff_ffff) by (nonlinear_arith)
                requires n0 <= 0xffff_ffffu32, n1 <= 0xffff_ffffu32;
            assert(n0 as nat * n1 as nat * n2 as nat <= 0xffff_ffff_ffff_ffff * 0xffff_ffff) by (nonlinear_arith)
                requires n0 as nat * n1 as nat <= 0xffff_ffff_ffff_ffff, n2 <= 0xffff_ffffu32;
        }
        let wide: u128 = n0 as u128 * n1 as u128 * n2 as u128;
        if wide > u64::MAX as u128 {
            return Err(RuntimeError::TooManyTasks);
        }
        let group = Group {
            func,
            data,
            n0,
            n1,
            n2,
            total: wide as u64,
            next: 0,
            running: Vec::new(),
            done: false,
        };
        let ghost mid = self.contexts@;
        let mut ctx = self.contexts.remove(k);
        ctx.groups.push(group);
        self.contexts.insert(k, ctx);
        proof {
            assert(self.contexts@ =~= mid.update(k as int, self.contexts@[k as int]));
            assert(self.contexts@[k as int].groups@.drop_last() =~= mid[k as int].groups@);
        }
        Ok(())
    }

    /// Ends a step of a sync of context `handle`: every group all of whose
    /// indices have run is marked done. When that leaves the context resolved
    /// it is removed and `true` is returned; otherwise it stays, with those
    /// marks, and `false` is returned.
    pub fn finish(&mut self, handle: u64) -> (r: Result<bool, RuntimeError>)
        requires
            old(self).wf(),
        ensures
            final(self).wf(),
            final(self).next_id == old(self).next_id,
            !old(self).has(handle) ==> r == Err::<bool, RuntimeError>(RuntimeError::UnknownHandle)
                && final(self).contexts@ == old(self).contexts@,
            old(self).has(handle) ==> r.is_ok(),
            forall|k: int|
                0 <= k < old(self).contexts@.len() && (#[trigger] old(self).contexts@[k]).id == handle
                    ==> {
                    &&& r == Ok::<bool, RuntimeError>(true) <==> old(self).contexts@[k].settled()
                    &&& r == Ok::<bool, RuntimeError>(true) ==> final(self).contexts@
                        == old(self).contexts@.remove(k)
                    &&& r == Ok::<bool, RuntimeError>(false) ==> same_except(
                        old(self).contexts@,
                        final(self).contexts@,
                        k,
                    ) && marked_ctx(old(self).contexts@[k], final(self).contexts@[k])
                },
            r == Ok::<bool, RuntimeError>(true) ==> !final(self).has(handle),
    {
        let k = match self.find(handle) {
            Some(k) => k,
            None => return Err(RuntimeError::UnknownHandle),
        };
        proof {
            lemma_ids_unique(self);
        }
        let ghost before = self.contexts@;
        let mut ctx = self.contexts.remove(k);
        let ghost oc = before[k as int];
        let n = ctx.groups.len();
        let mut all: bool = true;
        let mut g: usize = 0;
        while g < n
            invariant
                oc.wf(),
                n == oc.groups@.len(),
                ctx.groups@.len() == n,
                ctx.id == oc.id,
                ctx.arena == oc.arena,
                g <= n,
                forall|i: int| 0 <= i < g ==> marked(oc.groups@[i], #[trigger] ctx.groups@[i]),
                forall|i: int| g <= i < n ==> #[trigger] ctx.groups@[i] == oc.groups@[i],
                all <==> forall|i: int| 0 <= i < g ==> (#[trigger] oc.groups@[i]).settled(),
            decreases n - g,
        {
            let ghost prev = ctx.groups@;
            let mut grp = ctx.groups.remove(g);
            if grp.next == grp.total && grp.running.len() == 0 {
                grp.done = true;
            } else {
                all = false;
            }
            ctx.groups.insert(g, grp);
            proof {
                assert(ctx.groups@ =~= prev.update(g as int, grp));
                assert(marked(oc.groups@[g as int], ctx.groups@[g as int]));
            }
            g = g + 1;
        }
        if all {
            proof {
                lemma_removed_handle_is_stale(old(self), self, k as int);
                assert forall|a: int, b: int|
                    0 <= a < b < self.contexts@.len() implies (#[trigger] self.contexts@[a]).id != (
                    #[trigger] self.contexts@[b]).id by {
                    let a2 = if a < k { a } else { a + 1 };
                    let b2 = if b < k { b } else { b + 1 };
                    assert(self.contexts@[a] == before[a2]);
                    assert(self.contexts@[b] == before[b2]);
                    assert(before[a2].id != before[b2].id);
                }
                assert forall|j: int| 0 <= j < self.contexts@.len() implies (#[trigger] self.contexts@[j]).wf()
                    && self.contexts@[j].id < self.next_id by {
                    if j < k {
                        assert(self.contexts@[j] == before[j]);
                    } else {
                        assert(self.contexts@[j] == before[j + 1]);
                    }
                }
            }
            return Ok(true);
        }
        proof {
            assert forall|i: int| 0 <= i < ctx.groups@.len() implies (#[trigger] ctx.groups@[i]).wf() by {
                assert(marked(oc.groups@[i], ctx.groups@[i]));
                assert(oc.groups@[i].wf());
            }
        }
        self.contexts.insert(k, ctx);
        proof {
            assert(self.contexts@ =~= before.update(k as int, ctx));
        }
        Ok(false)
    }

    fn claim_at(&mut self, k: usize, g: usize) -> (job: ChunkJob)
        requires
            old(self).wf(),
            k < old(self).contexts@.len(),
            g < old(self).contexts@[k as int].groups@.len(),
            old(self).contexts@[k as int].groups@[g as int].open(),
        ensures
            final(self).wf(),
            final(self).next_id == old(self).next_id,
            job.group == g,
            claimed_at(old(self).contexts@, final(self).contexts@, k as int, job),
    {
        let ghost before = self.contexts@;
        let mut ctx = self.contexts.remove(k);
        let ghost cgroups = ctx.groups@;
        let mut grp = ctx.groups.remove(g);
        let start = grp.next;
        let end: u64 = if grp.total - start >= CHUNK_SIZE { start + CHUNK_SIZE } else { grp.total };
        grp.next = end;
        grp.running.push((start, end));
        let job = ChunkJob {
            ctx: ctx.id,
            group: g,
            start,
            end,
            func: grp.func,
            data: grp.data,
            n0: grp.n0,
            n1: grp.n1,
            n2: grp.n2,
        };
        proof {
            let og = cgroups[g as int];
            assert forall|i: int, j: int|
                0 <= i < j < grp.running@.len() implies (#[trigger] grp.running@[i]).1 <= (
                #[trigger] grp.running@[j]).0 || grp.running@[j].1 <= grp.running@[i].0 by {
                if j == grp.running@.len() - 1 {
                    assert(grp.running@[i] == og.running@[i]);
                } else {
                    assert(grp.running@[i] == og.running@[i]);
                    assert(grp.running@[j] == og.running@[j]);
                }
            }
            assert forall|i: int| 0 <= i < grp.running@.len() implies (#[trigger] grp.running@[i]).0
                < grp.running@[i].1 <= grp.next by {
                if i < og.running@.len() {
                    assert(grp.running@[i] == og.running@[i]);
                }
            }
        }
        ctx.groups.insert(g, grp);
        proof {
            assert(ctx.groups@ =~= cgroups.update(g as int, grp));
        }
        self.contexts.insert(k, ctx);
        proof {
            assert(self.contexts@ =~= before.update(k as int, ctx));
        }
        job
    }

    /// Claims the next chunk to run for a sync of context `handle`: from the
    /// first group of that context with indices left, or, when it has none,
    /// from any other live context that has some. `None` when no live context
    /// has an index left to claim.
    pub fn claim(&mut self, handle: u64) -> (r: Result<Option<ChunkJob>, RuntimeError>)
        requires
            old(self).wf(),
        ensures
            final(self).wf(),
            !old(self).has(handle) ==> r == Err::<Option<ChunkJob>, RuntimeError>(
                RuntimeError::UnknownHandle,
            ),
            old(self).has(handle) ==> r.is_ok(),
            r.is_err() || r == Ok::<Option<ChunkJob>, RuntimeError>(None) ==> final(self).contexts@
                == old(self).contexts@,
            old(self).has(handle) ==> (r == Ok::<Option<ChunkJob>, RuntimeError>(None)
                <==> !old(self).any_open()),
            match r {
                Ok(Some(job)) => claimed(old(self).contexts@, final(self).contexts@, job),
                _ => true,
            },
            match r {
                Ok(Some(job)) => forall|k: int|
                    0 <= k < old(self).contexts@.len() && (#[trigger] old(self).contexts@[k]).id
                        == handle && old(self).contexts@[k].has_open() ==> job.ctx == handle
                        && forall|g: int|
                        0 <= g < job.group ==> !(#[trigger] old(self).contexts@[k].groups@[g]).open(),
                _ => true,
            },
    {
        let k = match self.find(handle) {
            Some(k) => k,
            None => return Err(RuntimeError::UnknownHandle),
        };
        proof {
            lemma_ids_unique(self);
        }
        match first_open(&self.contexts[k]) {
            Some(g) => {
                let job = self.claim_at(k, g);
                proof {
                    assert(claimed_at(old(self).contexts@, self.contexts@, k as int, job));
                }
                return Ok(Some(job));
            },
            None => {},
        }
        let mut j: usize = 0;
        while j < self.contexts.len()
            invariant
                self.wf(),
                *self == *old(self),
                j <= self.contexts@.len(),
                k < self.contexts@.len(),
                self.contexts@[k as int].id == handle,
                !self.contexts@[k as int].has_open(),
                forall|i: int| 0 <= i < j ==> !(#[trigger] self.contexts@[i]).has_open(),
            decreases self.contexts@.len() - j,
        {
            match first_open(&self.contexts[j]) {
                Some(g) => {
                    proof {
                        assert(self.contexts@[j as int].id != handle);
                    }
                    let job = self.claim_at(j, g);
                    proof {
                        assert(claimed_at(old(self).contexts@, self.contexts@, j as int, job));
                    }
                    return Ok(Some(job));
                },
                None => {},
            }
            j = j + 1;
        }
        Ok(None)
    }

    /// Reports that the chunk `job` has run: it is taken off its group's
    /// running chunks, and the group is marked done when that was its last
    /// chunk. `UnknownHandle` when its context is gone; `UnknownChunk`,
    /// changing nothing, when that chunk is not running.
    pub fn complete(&mut self, job: ChunkJob) -> (r: Result<(), RuntimeError>)
        requires
            old(self).wf(),
        ensures
            final(self).wf(),
            final(self).next_id == old(self).next_id,
            !old(self).has(job.ctx) ==> r == Err::<(), RuntimeError>(RuntimeError::UnknownHandle),
            r.is_err() ==> final(self).contexts@ == old(self).contexts@,
            forall|k: int|
                0 <= k < old(self).contexts@.len() && (#[trigger] old(self).contexts@[k]).id == job.ctx
                    ==> {
                    &&& r.is_ok() == running_in(old(self).contexts@[k], job)
                    &&& r.is_err() ==> r == Err::<(), RuntimeError>(RuntimeError::UnknownChunk)
                    &&& r.is_ok() ==> same_except(old(self).contexts@, final(self).contexts@, k)
                        && completed(old(self).contexts@[k], final(self).contexts@[k], job)
                },
    {
        let k = match self.find(job.ctx) {
            Some(k) => k,
            None => return Err(RuntimeError::UnknownHandle),
        };
        proof {
            lemma_ids_unique(self);
        }
        if job.group >= self.contexts[k].groups.len() {
            return Err(RuntimeError::UnknownChunk);
        }
        let g = job.group;
        let n = self.contexts[k].groups[g].running.len();
        let mut i: usize = 0;
        while i < n
            invariant
                self.wf(),
                *self == *old(self),
                k < self.contexts@.len(),
                self.contexts@[k as int].id == job.ctx,
                g == job.group,
                g < self.contexts@[k as int].groups@.len(),
                n == self.contexts@[k as int].groups@[g as int].running@.len(),
                i <= n,
                forall|a: int|
                    0 <= a < i ==> #[trigger] self.contexts@[k as int].groups@[g as int].running@[a]
                        != (job.start, job.end),
            decreases n - i,
        {
            let (s0, e0) = self.contexts[k].groups[g].running[i];
            if s0 == job.start && e0 == job.end {
                let ghost before = self.contexts@;
                let mut ctx = self.contexts.remove(k);
                let ghost cgroups = ctx.groups@;
                let mut grp = ctx.groups.remove(g);
                let ghost orun = grp.running@;
                grp.running.remove(i);
                grp.done = grp.next == grp.total && grp.running.len() == 0;
                proof {
                    assert(orun[i as int] == (job.start, job.end));
                    assert forall|a: int| 0 <= a < grp.running@.len() implies (#[trigger] grp.running@[a]).0
                        < grp.running@[a].1 <= grp.next by {
                        if a < i {
                            assert(grp.running@[a] == orun[a]);
                        } else {
                            assert(grp.running@[a] == orun[a + 1]);
                        }
                    }
                    assert forall|a: int, b: int|
                        0 <= a < b < grp.running@.len() implies (#[trigger] grp.running@[a]).1 <= (
                        #[trigger] grp.running@[b]).0 || grp.running@[b].1 <= grp.running@[a].0 by {
                        let a2 = if a < i { a } else { a + 1 };
                        let b2 = if b < i { b } else { b + 1 };
                        assert(grp.running@[a] == orun[a2]);
                        assert(grp.running@[b] == orun[b2]);
                    }
                }
                ctx.groups.insert(g, grp);
                proof {
                    assert(ctx.groups@ =~= cgroups.update(g as int, grp));
                }
                self.contexts.insert(k, ctx);
                proof {
                    assert(self.contexts@ =~= before.update(k as int, ctx));
                    assert(completed(before[k as int], self.contexts@[k as int], job));
                }
                return Ok(());
            }
            i = i + 1;
        }
        Err(RuntimeError::UnknownChunk)
    }
}

/// Once a context has been removed, no live context has its handle any more:
/// every later `allocate`, `launch`, `claim` or `finish` with that handle is
/// refused with `UnknownHandle`, by their own contracts.
pub proof fn lemma_removed_handle_is_stale(before: &Registry, after: &Registry, k: int)
    requires
        before.wf(),
        0 <= k < before.contexts@.len(),
        after.contexts@ == before.contexts@.remove(k),
    ensures
        !after.has(before.contexts@[k].id),
{
    lemma_ids_unique(before);
    let id = before.contexts@[k].id;
    assert forall|j: int| 0 <= j < after.contexts@.len() implies (#[trigger] after.contexts@[j]).id
        != id by {
        if j < k {
            assert(after.contexts@[j] == before.contexts@[j]);
        } else {
            assert(after.contexts@[j] == before.contexts@[j + 1]);
        }
    }
}

/// No index is handed out twice: a claim starts at the group's cursor, every
/// chunk claimed before it lies below that cursor, and the cursor moves past
/// the new chunk. With `lemma_claim_is_next_chunk`, and since `finish` removes
/// a context only once every group's cursor has reached its total with no
/// chunk still running, a sync ends only after each index ran exactly once.
pub proof fn lemma_claim_is_fresh(old: Seq<Context>, new: Seq<Context>, k: int, job: ChunkJob)
    requires
        claimed_at(old, new, k, job),
        old[k].wf(),
    ensures
        forall|i: int|
            0 <= i < old[k].groups@[job.group as int].running@.len() ==> (
            #[trigger] old[k].groups@[job.group as int].running@[i]).1 <= job.start,
        new[k].groups@[job.group as int].next == job.end,
        job.start < job.end,
{
    let og = old[k].groups@[job.group as int];
    assert(og.wf());
}

/// The blocks of every live context's arena never overlap, and each is
/// aligned as it was asked to be.
pub proof fn lemma_context_blocks_disjoint(r: &Registry, k: int)
    requires
        r.wf(),
        0 <= k < r.contexts@.len(),
    ensures
        forall|i: int, j: int|
            0 <= i < r.contexts@[k].arena.blocks@.len() && 0 <= j < r.contexts@[k].arena.blocks@.len()
                && i != j ==> crate::arena::disjoint(
                #[trigger] r.contexts@[k].arena.blocks@[i],
                #[trigger] r.contexts@[k].arena.blocks@[j],
            ),
        forall|i: int|
            0 <= i < r.contexts@[k].arena.blocks@.len() ==> (#[trigger] r.contexts@[k].arena.blocks@[i]).addr
                % r.contexts@[k].arena.blocks@[i].align == 0,
{
    assert(r.contexts@[k].wf());
    crate::arena::lemma_blocks_disjoint(&r.contexts@[k].arena);
}

/// No two live contexts share an id.
pub proof fn lemma_ids_unique(r: &Registry)
    requires
        r.wf(),
    ensures
        forall|j: int, k: int|
            0 <= j < r.contexts@.len() && 0 <= k < r.contexts@.len() && j != k ==> (
            #[trigger] r.contexts@[j]).id != (#[trigger] r.contexts@[k]).id,
{
    assert forall|j: int, k: int|
        0 <= j < r.contexts@.len() && 0 <= k < r.contexts@.len() && j != k implies (
        #[trigger] r.contexts@[j]).id != (#[trigger] r.contexts@[k]).id by {
        if j > k {
            assert(r.contexts@[k].id != r.contexts@[j].id);
        }
    }
}


/// Claims on one group follow its chunk partition: when the group's cursor
/// stands at the start of chunk `i` of `chunks(total, CHUNK_SIZE)`, the chunk
/// claimed is exactly that chunk. Together with `lemma_chunks_partition`,
/// claiming a group until it is closed hands out every index exactly once.
pub proof fn lemma_claim_is_next_chunk(old: Seq<Context>, new: Seq<Context>, k: int, job: ChunkJob, i: nat)
    requires
        claimed_at(old, new, k, job),
        old[k].groups@[job.group as int].next == i * CHUNK_SIZE,
    ensures
        (job.start as nat, job.end as nat) == crate::task::chunk_spec(
            old[k].groups@[job.group as int].total as nat,
            CHUNK_SIZE as nat,
            i,
        ),
{
}

} // verus!
