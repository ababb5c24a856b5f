use vstd::prelude::*;

verus! {

/// An in-memory block device of `NUM_BLOCKS` blocks of `BLOCK_SIZE` bytes.
/// Its only operations read a whole block and write a whole block.
pub struct RamDisk<const BLOCK_SIZE: usize, const NUM_BLOCKS: usize> {
    blocks: Vec<Vec<u8>>,
}

impl<const BLOCK_SIZE: usize, const NUM_BLOCKS: usize> View for RamDisk<BLOCK_SIZE, NUM_BLOCKS> {
    type V = Seq<Seq<u8>>;

    closed spec fn view(&self) -> Seq<Seq<u8>> {
        Seq::new(self.blocks@.len(), |i: int| self.blocks@[i]@)
    }
}

impl<const BLOCK_SIZE: usize, const NUM_BLOCKS: usize> RamDisk<BLOCK_SIZE, NUM_BLOCKS> {
    /// The device has its full geometry.
    pub open spec fn wf(&self) -> bool {
        &&& self@.len() == NUM_BLOCKS
        &&& forall|i: int| 0 <= i < NUM_BLOCKS ==> (#[trigger] self@[i]).len() == BLOCK_SIZE
    }

    /// A device whose every byte is zero.
    pub fn new() -> (r: Self)
        ensures
            r.wf(),
            forall|i: int, j: int|
                0 <= i < NUM_BLOCKS && 0 <= j < BLOCK_SIZE ==> #[trigger] r@[i][j] == 0u8,
    {
        let mut blocks: Vec<Vec<u8>> = Vec::new();
        let mut i: usize = 0;
        while i < NUM_BLOCKS
            invariant
                i <= NUM_BLOCKS,
                blocks@.len() == i,
                forall|k: int| 0 <= k < i ==> (#[trigger] blocks@[k])@.len() == BLOCK_SIZE,
                forall|k: int, j: int|
                    0 <= k < i && 0 <= j < BLOCK_SIZE ==> #[trigger] blocks@[k]@[j] == 0u8,
            decreases NUM_BLOCKS - i,
        {
            let mut block: Vec<u8> = Vec::new();
            let mut j: usize = 0;
            while j < BLOCK_SIZE
                invariant
                    j <= BLOCK_SIZE,
                    block@.len() == j,
                    forall|k: int| 0 <= k < j ==> #[trigger] block@[k] == 0u8,
                decreases BLOCK_SIZE - j,
            {
                block.push(0u8);
                j = j + 1;
            }
            blocks.push(block);
            i = i + 1;
        }
        RamDisk { blocks }
    }

    /// Copies block `index` into `buffer`.
    pub fn read(&self, index: usize, buffer: &mut Vec<u8>)
        requires
            self.wf(),
            index < NUM_BLOCKS,
            old(buffer)@.len() == BLOCK_SIZE,
        ensures
            final(buffer)@ == self@[index as int],
    {
        let block = &self.blocks[index];
        let mut j: usize = 0;
        while j < BLOCK_SIZE
            invariant
                j <= BLOCK_SIZE,
                block@ == self@[index as int],
                block@.len() == BLOCK_SIZE,
                buffer@.len() == BLOCK_SIZE,
                forall|k: int| 0 <= k < j ==> buffer@[k] == block@[k],
            decreases BLOCK_SIZE - j,
        {
            buffer.set(j, block[j]);
            j = j + 1;
        }
        assert(buffer@ =~= self@[index as int]);
    }

    /// Replaces block `index` with the contents of `buffer`.
    pub fn write(&mut self, index: usize, buffer: &Vec<u8>)
        requires
            old(self).wf(),
            index < NUM_BLOCKS,
            buffer@.len() == BLOCK_SIZE,
        ensures
            final(self).wf(),
            final(self)@ == old(self)@.update(index as int, buffer@),
    {
        let mut block: Vec<u8> = Vec::new();
        let mut j: usize = 0;
        while j < BLOCK_SIZE
            invariant
                j <= BLOCK_SIZE,
                buffer@.len() == BLOCK_SIZE,
                block@.len() == j,
                forall|k: int| 0 <= k < j ==> block@[k] == buffer@[k],
            decreases BLOCK_SIZE - j,
        {
            block.push(buffer[j]);
            j = j + 1;
        }
        assert(block@ =~= buffer@);
        self.blocks.set(index, block);
        assert(self@ =~= old(self)@.update(index as int, buffer@));
    }
}

} // verus!
