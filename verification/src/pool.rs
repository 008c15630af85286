//! The vertex pool of a frame: space handed out front to back from blocks that
//! are kept from frame to frame.
//!
//! The graphics engine reads vertices while the frame goes on, so space handed
//! out must not be handed out again before the pool is rewound.
use vstd::prelude::*;

verus! {

/// Smallest block.
pub const BLOCK_BYTES: usize = 65536;

/// Space is handed out in multiples of this.
pub const CHUNK_BYTES: usize = 16;

/// `bytes` rounded up to whole chunks.
pub open spec fn whole_chunks(bytes: int) -> int {
    (bytes + 15) / 16 * 16
}

/// Size of the block made for `need` bytes.
pub open spec fn block_for(need: int) -> int {
    if need < BLOCK_BYTES {
        BLOCK_BYTES as int
    } else {
        need
    }
}

/// What a pool is: block sizes, and the position up to which they are in use.
#[verifier::ext_equal]
pub struct PoolModel {
    pub blocks: Seq<usize>,
    pub cur: int,
    pub off: int,
}

/// Bytes `from..to` of a block.
pub struct Region {
    pub block: int,
    pub from: int,
    pub to: int,
}

impl PoolModel {
    /// The position is at a chunk inside a block, or at the start of a block
    /// yet to be made.
    pub open spec fn wf(self) -> bool {
        &&& 0 <= self.cur <= self.blocks.len()
        &&& 0 <= self.off
        &&& self.off % 16 == 0
        &&& self.cur == self.blocks.len() ==> self.off == 0
        &&& self.cur < self.blocks.len() ==> self.off <= self.blocks[self.cur]
    }

    /// Where the next `need` bytes go: into the current block if they fit, else
    /// into the first later block that they fit, else into a new one.
    pub open spec fn placed(self, need: int) -> (int, int)
        decreases self.blocks.len() - self.cur,
    {
        if 0 <= self.cur < self.blocks.len() && self.off + need > self.blocks[self.cur] {
            (PoolModel { cur: self.cur + 1, off: 0, ..self }).placed(need)
        } else {
            (self.cur, self.off)
        }
    }

    /// The pool after `need` bytes were handed out.
    pub open spec fn after(self, need: int) -> PoolModel {
        let (block, from) = self.placed(need);
        PoolModel {
            blocks: if block < self.blocks.len() {
                self.blocks
            } else {
                self.blocks.push(block_for(need) as usize)
            },
            cur: block,
            off: from + need,
        }
    }

    /// The region handed out.
    pub open spec fn region(self, need: int) -> Region {
        let (block, from) = self.placed(need);
        Region { block, from, to: from + need }
    }

    /// A region lies before the position of the pool.
    pub open spec fn used(self, r: Region) -> bool {
        r.block < self.cur || (r.block == self.cur && r.to <= self.off)
    }
}

/// Two regions share no byte.
pub open spec fn disjoint(a: Region, b: Region) -> bool {
    a.block != b.block || a.to <= b.from || b.to <= a.from
}

proof fn lemma_placed(p: PoolModel, need: int)
    requires
        p.wf(),
        0 <= need,
    ensures
        ({
            let (block, from) = p.placed(need);
            &&& p.cur <= block <= p.blocks.len()
            &&& 0 <= from
            &&& from % 16 == 0
            &&& block == p.cur ==> from == p.off
            &&& block > p.cur ==> from == 0
            &&& block < p.blocks.len() ==> from + need <= p.blocks[block]
        }),
    decreases p.blocks.len() - p.cur,
{
    if p.cur < p.blocks.len() && p.off + need > p.blocks[p.cur] {
        lemma_placed(PoolModel { cur: p.cur + 1, off: 0, ..p }, need);
    }
}

/// Space handed out starts at a chunk, lies inside its block and shares
/// nothing with space handed out before; and it counts as handed out from then
/// on. Blocks stay where they are.
pub proof fn law_regions_never_overlap(p: PoolModel, need: int, earlier: Region)
    requires
        p.wf(),
        0 <= need <= usize::MAX,
        need % 16 == 0,
        p.used(earlier),
    ensures
        p.after(need).wf(),
        p.region(need).from % 16 == 0,
        p.region(need).to <= p.after(need).blocks[p.region(need).block],
        disjoint(earlier, p.region(need)),
        p.after(need).used(earlier),
        p.after(need).used(p.region(need)),
        p.after(need).blocks.take(p.blocks.len() as int) == p.blocks,
{
    lemma_placed(p, need);
    assert(p.after(need).blocks.take(p.blocks.len() as int) =~= p.blocks);
}

/// The vertex pool. The memory of each block is kept elsewhere, under the same
/// number.
pub struct Pool {
    pub blocks: Vec<usize>,
    pub cur: usize,
    pub off: usize,
}

impl View for Pool {
    type V = PoolModel;

    open spec fn view(&self) -> PoolModel {
        PoolModel { blocks: self.blocks@, cur: self.cur as int, off: self.off as int }
    }
}

impl Pool {
    /// A pool without blocks.
    pub fn new() -> (p: Pool)
        ensures
            p@ == (PoolModel { blocks: Seq::empty(), cur: 0, off: 0 }),
            p@.wf(),
    {
        Pool { blocks: Vec::new(), cur: 0, off: 0 }
    }

    /// Hands out `bytes` bytes, rounded up to whole chunks: block and offset.
    /// The number of blocks goes up by one where none has room.
    pub fn pool_alloc(&mut self, bytes: usize) -> (r: (usize, usize))
        requires
            old(self)@.wf(),
            bytes + 15 <= usize::MAX,
        ensures
            final(self)@ == old(self)@.after(whole_chunks(bytes as int)),
            final(self)@.wf(),
            (r.0 as int, r.1 as int) == old(self)@.placed(whole_chunks(bytes as int)),
    {
        let need: usize = (bytes + 15) / 16 * 16;
        let ghost start = self@;
        proof {
            lemma_placed(start, need as int);
        }
        while self.cur < self.blocks.len() && self.blocks[self.cur] - self.off < need
            invariant
                self@.wf(),
                self@.blocks == start.blocks,
                self@.placed(need as int) == start.placed(need as int),
            decreases self.blocks@.len() - self.cur,
        {
            self.cur = self.cur + 1;
            self.off = 0;
        }
        if self.cur >= self.blocks.len() {
            let size: usize = if need < BLOCK_BYTES {
                BLOCK_BYTES
            } else {
                need
            };
            self.blocks.push(size);
        }
        let r = (self.cur, self.off);
        self.off = self.off + need;
        proof {
            assert(self@ =~= start.after(need as int));
        }
        r
    }

    /// Rewinds the pool. Only once the graphics engine is done with the frame.
    pub fn reset_pool(&mut self)
        ensures
            final(self)@ == (PoolModel { cur: 0, off: 0, ..old(self)@ }),
            final(self)@.wf(),
    {
        self.cur = 0;
        self.off = 0;
    }
}

/// Space is rounded up to whole chunks of 16 bytes, and a block holds what it
/// was made for and at least 64 kilobytes.
pub proof fn law_chunks_hold_what_is_asked(bytes: int)
    requires
        0 <= bytes,
    ensures
        bytes <= whole_chunks(bytes) < bytes + 16,
        whole_chunks(bytes) % 16 == 0,
        block_for(bytes) >= bytes,
        block_for(bytes) >= 65536,
        block_for(bytes) == bytes || block_for(bytes) == 65536,
{
}

} // verus!
