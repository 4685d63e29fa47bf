use vstd::prelude::*;

verus! {

/// One region of backing memory, `[base, base + len)`, of which the first
/// `used` bytes are handed out.
#[derive(Clone, Copy)]
pub struct Slab {
    pub base: u64,
    pub len: u64,
    pub used: u64,
}

/// A block handed out by an arena: the slab it came from, its address, its
/// size and the alignment it was asked for.
pub struct Block {
    pub slab: nat,
    pub addr: int,
    pub size: int,
    pub align: int,
}

/// Two blocks share no byte.
pub open spec fn disjoint(a: Block, b: Block) -> bool {
    a.addr + a.size <= b.addr || b.addr + b.size <= a.addr
}

/// Two slabs share no byte.
pub open spec fn slabs_disjoint(a: Slab, b: Slab) -> bool {
    a.base + a.len <= b.base || b.base + b.len <= a.base
}

/// A bump allocator over a list of slabs. Blocks are never freed one by one:
/// the whole arena is released with the context that owns it. New blocks are
/// placed in the last slab; earlier slabs and the blocks in them never move.
pub struct Arena {
    pub slabs: Vec<Slab>,
    pub blocks: Ghost<Seq<Block>>,
}

impl Arena {
    pub open spec fn wf(&self) -> bool {
        &&& forall|k: int|
            0 <= k < self.slabs@.len() ==> #[trigger] self.slabs@[k].used <= self.slabs@[k].len
                && self.slabs@[k].base + self.slabs@[k].len <= u64::MAX
        &&& forall|j: int, k: int|
            0 <= j < k < self.slabs@.len() ==> slabs_disjoint(
                #[trigger] self.slabs@[j],
                #[trigger] self.slabs@[k],
            )
        &&& forall|i: int|
            0 <= i < self.blocks@.len() ==> {
                let b = #[trigger] self.blocks@[i];
                &&& b.slab < self.slabs@.len()
                &&& self.slabs@[b.slab as int].base <= b.addr
                &&& b.addr + b.size <= self.slabs@[b.slab as int].base + self.slabs@[b.slab as int].used
                &&& b.size >= 0
                &&& b.align >= 1
                &&& b.addr % b.align == 0
            }
        &&& forall|i: int, j: int|
            0 <= i < j < self.blocks@.len() && (#[trigger] self.blocks@[i]).slab == (
            #[trigger] self.blocks@[j]).slab ==> self.blocks@[i].addr + self.blocks@[i].size
                <= self.blocks@[j].addr
    }

    /// Whether a block of `size` bytes aligned to `align` fits in the last slab.
    pub open spec fn fits(&self, size: u64, align: u64) -> bool {
        self.slabs@.len() > 0 && {
            let s = self.slabs@.last();
            let cur = s.base + s.used;
            let pad = if cur % (align as int) == 0 { 0 } else { align - cur % (align as int) };
            pad + size <= s.len - s.used
        }
    }

    /// An arena with no backing memory yet.
    pub fn new() -> (a: Arena)
        ensures
            a.wf(),
            a.slabs@.len() == 0,
            a.blocks@.len() == 0,
    {
        Arena { slabs: Vec::new(), blocks: Ghost(Seq::empty()) }
    }

    /// Adds a region of backing memory. It is refused (`false`, nothing
    /// changed) when it is empty, runs past the end of the address space, or
    /// overlaps a region the arena already has.
    pub fn add_slab(&mut self, base: u64, len: u64) -> (r: bool)
        requires
            old(self).wf(),
        ensures
            final(self).wf(),
            final(self).blocks@ == old(self).blocks@,
            r == (len >= 1 && base + len <= u64::MAX && forall|k: int|
                0 <= k < old(self).slabs@.len() ==> slabs_disjoint(
                    #[trigger] old(self).slabs@[k],
                    Slab { base, len, used: 0 },
                )),
            r ==> final(self).slabs@ == old(self).slabs@.push(Slab { base, len, used: 0 }),
            !r ==> *final(self) == *old(self),
    {
        if len == 0 || base > u64::MAX - len {
            return false;
        }
        let new_slab = Slab { base, len, used: 0 };
        let mut k: usize = 0;
        while k < self.slabs.len()
            invariant
                k <= self.slabs@.len(),
                self.wf(),
                *self == *old(self),
                new_slab == (Slab { base, len, used: 0 }),
                len >= 1,
                base + len <= u64::MAX,
                forall|j: int| 0 <= j < k ==> slabs_disjoint(#[trigger] self.slabs@[j], new_slab),
            decreases self.slabs@.len() - k,
        {
            let s = self.slabs[k];
            if !(s.base as u128 + s.len as u128 <= base as u128 || base as u128 + len as u128
                <= s.base as u128) {
                return false;
            }
            k = k + 1;
        }
        self.slabs.push(new_slab);
        proof {
            assert forall|i: int| 0 <= i < self.blocks@.len() implies #[trigger] self.blocks@[i].slab
                < old(self).slabs@.len() by {}
            assert forall|i: int| 0 <= i < self.blocks@.len() implies self.slabs@[
                (#[trigger] self.blocks@[i]).slab as int] == old(self).slabs@[self.blocks@[i].slab as int] by {}
        }
        true
    }

    /// Places a block of `size` bytes aligned to `align` in the last slab.
    /// Returns `None`, changing nothing, when it does not fit there; the
    /// caller then adds a slab of at least `size + align` bytes and asks again.
    pub fn allocate(&mut self, size: u64, align: u64) -> (r: Option<u64>)
        requires
            old(self).wf(),
            align >= 1,
        ensures
            final(self).wf(),
            r.is_some() == old(self).fits(size, align),
            r.is_none() ==> *final(self) == *old(self),
            r.is_some() ==> {
                let addr = r.unwrap();
                &&& addr % align == 0
                &&& final(self).slabs@.len() == old(self).slabs@.len()
                &&& final(self).blocks@ == old(self).blocks@.push(Block {
                    slab: (old(self).slabs@.len() - 1) as nat,
                    addr: addr as int,
                    size: size as int,
                    align: align as int,
                })
            },
    {
        let n = self.slabs.len();
        if n == 0 {
            return None;
        }
        let s = self.slabs[n - 1];
        let cur: u64 = s.base + s.used;
        let rem: u64 = cur % align;
        let pad: u64 = if rem == 0 { 0 } else { align - rem };
        let room: u64 = s.len - s.used;
        if pad > room || size > room - pad {
            return None;
        }
        let addr: u64 = cur + pad;
        proof {
            assert(addr % align == 0) by (nonlinear_arith)
                requires align >= 1, rem == cur % align, pad == (if rem == 0 { 0 } else { align - rem }),
                    addr == cur + pad;
        }
        let ghost old_blocks = self.blocks@;
        let ghost b = Block { slab: (n - 1) as nat, addr: addr as int, size: size as int, align: align as int };
        self.slabs.set(n - 1, Slab { base: s.base, len: s.len, used: s.used + pad + size });
        self.blocks = Ghost(old_blocks.push(b));
        proof {
            assert forall|i: int, j: int|
                0 <= i < j < self.blocks@.len() && (#[trigger] self.blocks@[i]).slab == (
                #[trigger] self.blocks@[j]).slab implies self.blocks@[i].addr + self.blocks@[i].size
                    <= self.blocks@[j].addr by {
                if j == old_blocks.len() {
                    assert(old(self).wf());
                    assert(old_blocks[i] == self.blocks@[i]);
                }
            }
            assert forall|i: int| 0 <= i < self.blocks@.len() implies {
                let b = #[trigger] self.blocks@[i];
                &&& b.slab < self.slabs@.len()
                &&& self.slabs@[b.slab as int].base <= b.addr
                &&& b.addr + b.size <= self.slabs@[b.slab as int].base + self.slabs@[b.slab as int].used
                &&& b.size >= 0
                &&& b.align >= 1
                &&& b.addr % b.align == 0
            } by {
                if i < old_blocks.len() {
                    assert(old_blocks[i] == self.blocks@[i]);
                }
            }
            assert forall|j: int, k: int|
                0 <= j < k < self.slabs@.len() implies slabs_disjoint(
                    #[trigger] self.slabs@[j],
                    #[trigger] self.slabs@[k],
                ) by {
                assert(slabs_disjoint(old(self).slabs@[j], old(self).slabs@[k]));
            }
        }
        Some(addr)
    }
}

/// Blocks handed out by one arena never overlap, and each one is aligned as
/// it was asked to be.
pub proof fn lemma_blocks_disjoint(a: &Arena)
    requires
        a.wf(),
    ensures
        forall|i: int, j: int|
            0 <= i < a.blocks@.len() && 0 <= j < a.blocks@.len() && i != j ==> disjoint(
                #[trigger] a.blocks@[i],
                #[trigger] a.blocks@[j],
            ),
        forall|i: int| 0 <= i < a.blocks@.len() ==> (#[trigger] a.blocks@[i]).addr % a.blocks@[i].align == 0,
{
    assert forall|i: int, j: int|
        0 <= i < a.blocks@.len() && 0 <= j < a.blocks@.len() && i != j implies disjoint(
            #[trigger] a.blocks@[i],
            #[trigger] a.blocks@[j],
        ) by {
        let (bi, bj) = (a.blocks@[i], a.blocks@[j]);
        if bi.slab != bj.slab {
            if bi.slab < bj.slab {
                assert(slabs_disjoint(a.slabs@[bi.slab as int], a.slabs@[bj.slab as int]));
            } else {
                assert(slabs_disjoint(a.slabs@[bj.slab as int], a.slabs@[bi.slab as int]));
            }
        }
    }
}

} // verus!
