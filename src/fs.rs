use crate::disk::RamDisk;
use crate::geometry::{
    blocks_for, lemma_blocks_for_split, lemma_block_index_in_range, lemma_blocks_for_bounds, lemma_blocks_for_grow,
    lemma_blocks_for_zero, lemma_position_unique, lemma_split,
};
use crate::result::{FileSystemError, FileSystemResult};
use vstd::prelude::*;
use vstd::string::{StrSliceExecFns, StringSliceAdditionalSpecFns};

verus! {

/// A stored file's metadata: its length and the data blocks that hold it.
/// Slots past the last block in use hold 0, which is never a data block.
pub struct Inode<const MAX_BLOCKS: usize, const BLOCK_SIZE: usize> {
    bytes_stored: u16,
    blocks: Vec<u8>,
}

/// An open file: its inode, the byte position of the next read or write, and
/// whether it was opened for writing.
pub struct FileInfo<const MAX_BLOCKS: usize, const BLOCK_SIZE: usize> {
    inode_num: usize,
    position: usize,
    writing: bool,
}

/// The number of `false` entries among the first `hi` of `s`.
pub open spec fn free_count(s: Seq<bool>, hi: int) -> nat
    decreases hi,
{
    if hi <= 0 {
        0
    } else {
        free_count(s, hi - 1) + if s[hi - 1] {
            0nat
        } else {
            1nat
        }
    }
}

/// Marking a free entry as taken lowers the count by one.
proof fn lemma_free_count_take(s: Seq<bool>, b: int, hi: int)
    requires
        0 <= b < s.len(),
        !s[b],
        hi <= s.len(),
    ensures
        b < hi ==> free_count(s.update(b, true), hi) + 1 == free_count(s, hi),
        hi <= b ==> free_count(s.update(b, true), hi) == free_count(s, hi),
    decreases hi,
{
    if hi > 0 {
        lemma_free_count_take(s, b, hi - 1);
    }
}

/// Marking a taken entry as free raises the count by one.
proof fn lemma_free_count_give(s: Seq<bool>, b: int, hi: int)
    requires
        0 <= b < s.len(),
        s[b],
        hi <= s.len(),
    ensures
        b < hi ==> free_count(s.update(b, false), hi) == free_count(s, hi) + 1,
        hi <= b ==> free_count(s.update(b, false), hi) == free_count(s, hi),
    decreases hi,
{
    if hi > 0 {
        lemma_free_count_give(s, b, hi - 1);
    }
}

/// The first in-use inode from `k` on whose name is `name`.
pub open spec fn find_from(used: Seq<bool>, names: Seq<Seq<u8>>, name: Seq<u8>, k: int) -> Option<
    int,
>
    decreases used.len() - k,
{
    if k < 0 || k >= used.len() {
        None
    } else if used[k] && names[k] == name {
        Some(k)
    } else {
        find_from(used, names, name, k + 1)
    }
}

/// A search finds only in-use inodes that carry the name.
proof fn lemma_find_from_found(used: Seq<bool>, names: Seq<Seq<u8>>, name: Seq<u8>, k: int)
    requires
        0 <= k,
    ensures
        find_from(used, names, name, k) matches Some(i) ==> k <= i < used.len() && used[i]
            && names[i] == name,
    decreases used.len() - k,
{
    if k < used.len() {
        lemma_find_from_found(used, names, name, k + 1);
    }
}

/// Giving name `n` to a free inode `i` makes the search for `n` find `i` if it
/// found nothing before, and leaves every other search as it was.
proof fn lemma_find_from_claim(
    used: Seq<bool>,
    names: Seq<Seq<u8>>,
    i: int,
    n: Seq<u8>,
    m: Seq<u8>,
    k: int,
)
    requires
        0 <= k,
        0 <= i < used.len(),
        names.len() == used.len(),
        !used[i],
    ensures
        m != n ==> find_from(used.update(i, true), names.update(i, n), m, k) == find_from(
            used,
            names,
            m,
            k,
        ),
        m == n && find_from(used, names, n, k) is None && k <= i ==> find_from(
            used.update(i, true),
            names.update(i, n),
            m,
            k,
        ) == Some(i),
    decreases used.len() - k,
{
    if k < used.len() {
        lemma_find_from_claim(used, names, i, n, m, k + 1);
    }
}

/// The weight of bit `q` in a byte.
pub open spec fn bit_weight(q: int) -> int
    decreases q,
{
    if q <= 0 {
        1
    } else {
        2 * bit_weight(q - 1)
    }
}

/// The bits of byte `k` of a bitmap over `s`: bit `q` stands for entry `8 * k + q`.
pub open spec fn byte_bits(s: Seq<bool>, k: int) -> Seq<bool> {
    Seq::new(8, |q: int| 8 * k + q < s.len() && s[8 * k + q])
}

/// The value of the low `j` bits of `bits`.
pub open spec fn bits_value(bits: Seq<bool>, j: int) -> int
    decreases j,
{
    if j <= 0 {
        0
    } else {
        bits_value(bits, j - 1) + if bits[j - 1] {
            bit_weight(j - 1)
        } else {
            0
        }
    }
}

/// Byte `k` of the bitmap over `s`.
pub open spec fn bitmap_byte(s: Seq<bool>, k: int) -> int {
    bits_value(byte_bits(s, k), 8)
}

/// The on-disk record of an inode: its length, low byte first, then one byte
/// per block-list slot.
pub open spec fn inode_record(bytes_stored: u16, blocks: Seq<u8>) -> Seq<u8> {
    seq![(bytes_stored % 256) as u8, (bytes_stored / 256) as u8] + blocks
}

/// The weights of the bits of a byte.
proof fn lemma_bit_weight_small(q: int)
    requires
        0 <= q < 8,
    ensures
        bit_weight(q) <= 128,
        bit_weight(q + 1) == 2 * bit_weight(q),
{
    reveal_with_fuel(bit_weight, 9);
    if q == 0 {
    } else if q == 1 {
    } else if q == 2 {
    } else if q == 3 {
    } else if q == 4 {
    } else if q == 5 {
    } else if q == 6 {
    } else {
    }
}

/// Encodes byte `k` of the bitmap over `bits[start..start + count]`.
fn encode_bitmap_byte(bits: &Vec<bool>, start: usize, count: usize, k: usize) -> (r: u8)
    requires
        start + count <= bits@.len(),
    ensures
        r as int == bitmap_byte(bits@.subrange(start as int, (start + count) as int), k as int),
{
    let ghost s = bits@.subrange(start as int, (start + count) as int);
    let ghost b = byte_bits(s, k as int);
    let len: usize = bits.len();
    let mut acc: u32 = 0;
    let mut w: u32 = 1;
    let mut q: usize = 0;
    while q < 8
        invariant
            q <= 8,
            s == bits@.subrange(start as int, (start + count) as int),
            b == byte_bits(s, k as int),
            start + count <= bits@.len(),
            len == bits@.len(),
            acc as int == bits_value(b, q as int),
            w as int == bit_weight(q as int),
            acc < w,
        decreases 8 - q,
    {
        proof {
            lemma_bit_weight_small(q as int);
        }
        let on: bool = if (k as u128) * 8 + (q as u128) < count as u128 {
            let idx: usize = 8 * k + q;
            bits[start + idx]
        } else {
            false
        };
        assert(on == b[q as int]);
        if on {
            acc = acc + w;
        }
        w = w * 2;
        q = q + 1;
    }
    proof {
        lemma_bit_weight_small(7);
    }
    acc as u8
}

/// The file system: open-file table, block device, allocation bitmaps,
/// inode table and directory.
pub struct FileSystem<
    const MAX_OPEN: usize,
    const BLOCK_SIZE: usize,
    const NUM_BLOCKS: usize,
    const MAX_FILE_BLOCKS: usize,
    const MAX_FILE_BYTES: usize,
    const MAX_FILES_STORED: usize,
    const MAX_FILENAME_BYTES: usize,
> {
    open: Vec<Option<FileInfo<MAX_FILE_BLOCKS, BLOCK_SIZE>>>,
    disk: RamDisk<BLOCK_SIZE, NUM_BLOCKS>,
    inodes: Vec<Inode<MAX_FILE_BLOCKS, BLOCK_SIZE>>,
    inode_used: Vec<bool>,
    block_used: Vec<bool>,
    names: Vec<Vec<u8>>,
    open_inodes: Vec<bool>,
    directory_ready: bool,
}

impl<
    const MAX_OPEN: usize,
    const BLOCK_SIZE: usize,
    const NUM_BLOCKS: usize,
    const MAX_FILE_BLOCKS: usize,
    const MAX_FILE_BYTES: usize,
    const MAX_FILES_STORED: usize,
    const MAX_FILENAME_BYTES: usize,
> FileSystem<
    MAX_OPEN,
    BLOCK_SIZE,
    NUM_BLOCKS,
    MAX_FILE_BLOCKS,
    MAX_FILE_BYTES,
    MAX_FILES_STORED,
    MAX_FILENAME_BYTES,
> {
    pub open spec fn spec_inodes_per_block() -> int {
        BLOCK_SIZE as int / (2 + MAX_FILE_BLOCKS as int)
    }

    pub open spec fn spec_num_inode_blocks() -> int {
        MAX_FILES_STORED as int / Self::spec_inodes_per_block()
    }

    pub open spec fn spec_first_data_block() -> int {
        2 + Self::spec_num_inode_blocks()
    }

    pub open spec fn spec_num_data_blocks() -> int {
        NUM_BLOCKS as int - Self::spec_first_data_block()
    }

    /// The data blocks set aside for the directory: one entry per storable
    /// file, each a name and a 2-byte inode number.
    pub open spec fn spec_directory_blocks() -> int {
        blocks_for(MAX_FILES_STORED * (MAX_FILENAME_BYTES + 2), BLOCK_SIZE as int)
    }

    /// The first block that a file's content may occupy.
    pub open spec fn spec_first_file_block() -> int {
        Self::spec_first_data_block() + Self::spec_directory_blocks()
    }

    /// The configuration is consistent.
    pub open spec fn geometry_ok() -> bool {
        &&& MAX_FILE_BYTES == MAX_FILE_BLOCKS * BLOCK_SIZE
        &&& NUM_BLOCKS <= 255
        &&& MAX_FILE_BYTES <= 65535
        &&& 1 <= MAX_FILES_STORED <= BLOCK_SIZE * 8
        &&& MAX_FILES_STORED <= 65535
        &&& MAX_FILENAME_BYTES <= 65535
        &&& 2 + MAX_FILE_BLOCKS <= BLOCK_SIZE
        &&& Self::spec_inodes_per_block() >= 1
        &&& Self::spec_num_inode_blocks() * 2 < NUM_BLOCKS
        &&& Self::spec_num_data_blocks() <= BLOCK_SIZE * 8
        &&& Self::spec_num_inode_blocks() <= MAX_FILE_BLOCKS
        &&& Self::spec_inodes_per_block() * Self::spec_num_inode_blocks() * (2
            + MAX_FILE_BLOCKS) <= 65535
        &&& Self::spec_first_file_block() <= NUM_BLOCKS
    }

    /// The number of data blocks that inode `i` holds.
    pub closed spec fn block_count(&self, i: int) -> int {
        blocks_for(self.inodes@[i].bytes_stored as int, BLOCK_SIZE as int)
    }

    /// Entry `k` of inode `i`'s block list.
    pub closed spec fn block_of(&self, i: int, k: int) -> int {
        self.inodes@[i].blocks@[k] as int
    }

    /// The content of inode `i`.
    pub closed spec fn file_bytes(&self, i: int) -> Seq<u8> {
        Seq::new(
            self.inodes@[i].bytes_stored as nat,
            |p: int| self.disk@[self.block_of(i, p / BLOCK_SIZE as int)][p % BLOCK_SIZE as int],
        )
    }

    /// The inode that the directory gives for `name`, if any.
    pub closed spec fn lookup(&self, name: Seq<u8>) -> Option<int> {
        find_from(self.inode_used@, self.names@.map_values(|v: Vec<u8>| v@), name, 1)
    }

    /// Inode `i` holds a file, or the directory (inode 0).
    pub closed spec fn inode_in_use(&self, i: int) -> bool {
        self.inode_used@[i]
    }

    /// Inode `i` has an open handle.
    pub closed spec fn inode_is_open(&self, i: int) -> bool {
        self.open_inodes@[i]
    }

    /// The handle under descriptor `fd`: its inode, position and whether it writes.
    pub closed spec fn handle(&self, fd: int) -> Option<(int, int, bool)> {
        if 0 <= fd < MAX_OPEN {
            match self.open@[fd] {
                Some(h) => Some((h.inode_num as int, h.position as int, h.writing)),
                None => None,
            }
        } else {
            None
        }
    }

    /// Some descriptor is free.
    pub open spec fn has_free_slot(&self) -> bool {
        exists|s: int| 0 <= s < MAX_OPEN && #[trigger] self.handle(s) is None
    }

    /// Some inode other than the directory's is free.
    pub open spec fn has_free_inode(&self) -> bool {
        exists|i: int| 1 <= i < MAX_FILES_STORED && !#[trigger] self.inode_in_use(i)
    }

    /// The number of data blocks not yet given to a file.
    pub closed spec fn free_blocks(&self) -> nat {
        free_count(self.block_used@, NUM_BLOCKS as int)
    }

    /// The directory has received its first file.
    pub closed spec fn dir_exists(&self) -> bool {
        self.directory_ready
    }

    /// Each handle refers to an in-use inode marked open, no further than its
    /// end, and at its end when writing; no two handles share an inode.
    pub closed spec fn handles_ok(&self) -> bool {
        &&& forall|s: int|
            0 <= s < MAX_OPEN && #[trigger] self.open@[s] is Some ==> {
                let h = self.open@[s]->Some_0;
                &&& 1 <= h.inode_num < MAX_FILES_STORED
                &&& self.inode_used@[h.inode_num as int]
                &&& self.open_inodes@[h.inode_num as int]
                &&& h.position <= self.inodes@[h.inode_num as int].bytes_stored
                &&& h.writing ==> h.position == self.inodes@[h.inode_num as int].bytes_stored
            }
        &&& forall|s: int, t: int|
            0 <= s < MAX_OPEN && 0 <= t < MAX_OPEN && s != t && #[trigger] self.open@[s] is Some
                && #[trigger] self.open@[t] is Some ==> self.open@[s]->Some_0.inode_num
                != self.open@[t]->Some_0.inode_num
        &&& forall|i: int|
            0 <= i < MAX_FILES_STORED && #[trigger] self.open_inodes@[i] ==> self.inode_used@[i]
    }

    /// The invariant carries over to a state that differs only in its handles.
    proof fn lemma_wf_handles(a: &Self, b: &Self)
        requires
            a.wf(),
            a.disk == b.disk,
            a.inodes == b.inodes,
            a.inode_used == b.inode_used,
            a.names == b.names,
            a.block_used == b.block_used,
            b.open@.len() == MAX_OPEN,
            b.open_inodes@.len() == MAX_FILES_STORED,
            b.handles_ok(),
        ensures
            b.wf(),
    {
        assert forall|i: int, k: int|
            0 <= i < MAX_FILES_STORED && 0 <= k < MAX_FILE_BLOCKS implies {
                &&& k < b.block_count(i) ==> Self::spec_first_file_block()
                    <= #[trigger] b.block_of(i, k) < NUM_BLOCKS && b.block_used@[b.block_of(i, k)]
                &&& k >= b.block_count(i) ==> b.block_of(i, k) == 0
            } by {
            assert(a.block_of(i, k) == b.block_of(i, k));
        }
        assert forall|i: int, k: int, j: int, l: int|
            0 <= i < MAX_FILES_STORED && 0 <= j < MAX_FILES_STORED && 0 <= k < b.block_count(i)
                && 0 <= l < b.block_count(j) && (i != j || k != l) implies #[trigger] b.block_of(
            i,
            k,
        ) != #[trigger] b.block_of(j, l) by {
            assert(a.block_of(i, k) == b.block_of(i, k));
            assert(a.block_of(j, l) == b.block_of(j, l));
        }
        assert forall|i: int| 0 <= i < MAX_FILES_STORED implies b.block_count(i) <= MAX_FILE_BLOCKS by {
            assert(a.block_count(i) == b.block_count(i));
        }
    }

    /// The invariant of the file system.
    pub closed spec fn wf(&self) -> bool {
        &&& Self::geometry_ok()
        &&& self.disk.wf()
        &&& self.open@.len() == MAX_OPEN
        &&& self.inodes@.len() == MAX_FILES_STORED
        &&& self.inode_used@.len() == MAX_FILES_STORED
        &&& self.names@.len() == MAX_FILES_STORED
        &&& self.open_inodes@.len() == MAX_FILES_STORED
        &&& self.block_used@.len() == NUM_BLOCKS
        &&& self.inode_used@[0]
        &&& forall|i: int|
            0 <= i < MAX_FILES_STORED ==> (#[trigger] self.names@[i])@.len() <= MAX_FILENAME_BYTES
        &&& forall|b: int| 0 <= b < Self::spec_first_file_block() ==> #[trigger] self.block_used@[b]
        &&& forall|i: int|
            0 <= i < MAX_FILES_STORED ==> {
                &&& (#[trigger] self.inodes@[i]).blocks@.len() == MAX_FILE_BLOCKS
                &&& self.inodes@[i].bytes_stored <= MAX_FILE_BYTES
                &&& !self.inode_used@[i] ==> self.inodes@[i].bytes_stored == 0
                &&& i == 0 ==> self.inodes@[i].bytes_stored == 0
                &&& self.block_count(i) <= MAX_FILE_BLOCKS
            }
        &&& forall|i: int, k: int|
            0 <= i < MAX_FILES_STORED && 0 <= k < MAX_FILE_BLOCKS ==> {
                &&& k < self.block_count(i) ==> Self::spec_first_file_block() <= #[trigger] self.block_of(i, k)
                    < NUM_BLOCKS && self.block_used@[self.block_of(i, k)]
                &&& k >= self.block_count(i) ==> self.block_of(i, k) == 0
            }
        &&& forall|i: int, k: int, j: int, l: int|
            0 <= i < MAX_FILES_STORED && 0 <= j < MAX_FILES_STORED && 0 <= k < self.block_count(i)
                && 0 <= l < self.block_count(j) && (i != j || k != l) ==> #[trigger] self.block_of(
                i,
                k,
            ) != #[trigger] self.block_of(j, l)
        &&& self.open@.len() == MAX_OPEN
        &&& self.handles_ok()
    }

    /// The first block that a file's content may occupy.
    fn first_file_block_exec() -> (r: usize)
        requires
            Self::geometry_ok(),
        ensures
            r == Self::spec_first_file_block(),
    {
        let per_block: usize = BLOCK_SIZE / (2 + MAX_FILE_BLOCKS);
        let inode_blocks: usize = MAX_FILES_STORED / per_block;
        assert((MAX_FILES_STORED as int) * (MAX_FILENAME_BYTES as int + 2) <= 65535 * 65537)
            by (nonlinear_arith)
            requires
                MAX_FILES_STORED <= 65535,
                MAX_FILENAME_BYTES <= 65535,
        ;
        let entry_bytes: u128 = (MAX_FILES_STORED as u128) * (MAX_FILENAME_BYTES as u128 + 2);
        let dir_blocks: u128 = (entry_bytes + BLOCK_SIZE as u128 - 1) / BLOCK_SIZE as u128;
        (2 + inode_blocks) + dir_blocks as usize
    }

    /// A file system on `disk`, with no file yet and every handle free.
    pub fn new(disk: RamDisk<BLOCK_SIZE, NUM_BLOCKS>) -> (r: Self)
        requires
            Self::geometry_ok(),
            disk.wf(),
        ensures
            r.wf(),
            !r.dir_exists(),
            forall|i: int| 1 <= i < MAX_FILES_STORED ==> !r.inode_in_use(i),
            forall|fd: int| r.handle(fd) is None,
            forall|n: Seq<u8>| r.lookup(n) is None,
            r.free_blocks() == NUM_BLOCKS - Self::spec_first_file_block(),
            r.metadata_on_disk(),
    {
        let first_file = Self::first_file_block_exec();
        let mut open: Vec<Option<FileInfo<MAX_FILE_BLOCKS, BLOCK_SIZE>>> = Vec::new();
        let mut s: usize = 0;
        while s < MAX_OPEN
            invariant
                s <= MAX_OPEN,
                open@.len() == s,
                forall|t: int| 0 <= t < s ==> #[trigger] open@[t] is None,
            decreases MAX_OPEN - s,
        {
            open.push(None);
            s = s + 1;
        }
        let mut inodes: Vec<Inode<MAX_FILE_BLOCKS, BLOCK_SIZE>> = Vec::new();
        let mut inode_used: Vec<bool> = Vec::new();
        let mut names: Vec<Vec<u8>> = Vec::new();
        let mut open_inodes: Vec<bool> = Vec::new();
        let mut i: usize = 0;
        while i < MAX_FILES_STORED
            invariant
                i <= MAX_FILES_STORED,
                inodes@.len() == i,
                inode_used@.len() == i,
                names@.len() == i,
                open_inodes@.len() == i,
                forall|t: int|
                    0 <= t < i ==> (#[trigger] inodes@[t]).bytes_stored == 0
                        && inodes@[t].blocks@.len() == MAX_FILE_BLOCKS && (forall|k: int|
                        0 <= k < MAX_FILE_BLOCKS ==> #[trigger] inodes@[t].blocks@[k] == 0u8),
                forall|t: int| 0 <= t < i ==> #[trigger] inode_used@[t] == (t == 0),
                forall|t: int| 0 <= t < i ==> !#[trigger] open_inodes@[t],
                forall|t: int| 0 <= t < i ==> (#[trigger] names@[t])@.len() == 0,
            decreases MAX_FILES_STORED - i,
        {
            let mut blocks: Vec<u8> = Vec::new();
            let mut k: usize = 0;
            while k < MAX_FILE_BLOCKS
                invariant
                    k <= MAX_FILE_BLOCKS,
                    blocks@.len() == k,
                    forall|t: int| 0 <= t < k ==> #[trigger] blocks@[t] == 0u8,
                decreases MAX_FILE_BLOCKS - k,
            {
                blocks.push(0u8);
                k = k + 1;
            }
            inodes.push(Inode { bytes_stored: 0, blocks });
            inode_used.push(i == 0);
            names.push(Vec::new());
            open_inodes.push(false);
            i = i + 1;
        }
        let mut block_used: Vec<bool> = Vec::new();
        let mut b: usize = 0;
        while b < NUM_BLOCKS
            invariant
                b <= NUM_BLOCKS,
                block_used@.len() == b,
                forall|t: int| 0 <= t < b ==> #[trigger] block_used@[t] == (t < first_file),
                free_count(block_used@, b as int) == if b <= first_file {
                    0
                } else {
                    b - first_file
                },
            decreases NUM_BLOCKS - b,
        {
            let ghost prev = block_used@;
            block_used.push(b < first_file);
            proof {
                lemma_free_count_agree(block_used@, prev, b as int);
            }
            b = b + 1;
        }
        let mut r = FileSystem {
            open,
            disk,
            inodes,
            inode_used,
            block_used,
            names,
            open_inodes,
            directory_ready: false,
        };
        proof {
            lemma_blocks_for_zero(BLOCK_SIZE as int);
            assert forall|n: Seq<u8>| r.lookup(n) is None by {
                lemma_find_from_found(
                    r.inode_used@,
                    r.names@.map_values(|v: Vec<u8>| v@),
                    n,
                    1,
                );
            }
        }
        r.sync_metadata();
        r
    }

    /// The stored files, the directory and the free-block count are those of `other`.
    pub open spec fn same_store(&self, other: &Self) -> bool {
        &&& forall|j: int|
            0 <= j < MAX_FILES_STORED ==> #[trigger] self.file_bytes(j) == other.file_bytes(j)
        &&& forall|j: int|
            0 <= j < MAX_FILES_STORED ==> #[trigger] self.inode_in_use(j) == other.inode_in_use(j)
        &&& forall|n: Seq<u8>| #[trigger] self.lookup(n) == other.lookup(n)
        &&& self.free_blocks() == other.free_blocks()
        &&& self.dir_exists() == other.dir_exists()
    }

    /// The open marks of every inode but `i` are those of `other`.
    pub open spec fn marks_except(&self, other: &Self, i: int) -> bool {
        forall|j: int|
            0 <= j < MAX_FILES_STORED && j != i ==> #[trigger] self.inode_is_open(j)
                == other.inode_is_open(j)
    }

    /// The open marks of every inode are those of `other`.
    pub open spec fn same_marks(&self, other: &Self) -> bool {
        forall|j: int|
            0 <= j < MAX_FILES_STORED ==> #[trigger] self.inode_is_open(j) == other.inode_is_open(j)
    }

    /// Every file but inode `i`'s, the directory and the open marks are those of `other`.
    pub open spec fn same_except(&self, other: &Self, i: int) -> bool {
        &&& forall|j: int|
            0 <= j < MAX_FILES_STORED && j != i ==> #[trigger] self.file_bytes(j)
                == other.file_bytes(j)
        &&& forall|j: int|
            0 <= j < MAX_FILES_STORED ==> #[trigger] self.inode_in_use(j) == other.inode_in_use(j)
        &&& forall|j: int|
            0 <= j < MAX_FILES_STORED ==> #[trigger] self.inode_is_open(j) == other.inode_is_open(
                j,
            )
        &&& forall|n: Seq<u8>| #[trigger] self.lookup(n) == other.lookup(n)
        &&& self.dir_exists() == other.dir_exists()
    }

    /// `blocks_for` on a file length.
    fn blocks_for_exec(n: usize) -> (r: usize)
        requires
            0 < BLOCK_SIZE,
            n <= 65535,
        ensures
            r == blocks_for(n as int, BLOCK_SIZE as int),
    {
        proof {
            lemma_blocks_for_split(n as int, BLOCK_SIZE as int);
        }
        n / BLOCK_SIZE + if n % BLOCK_SIZE == 0 {
            0
        } else {
            1
        }
    }

    /// Counts the data blocks that no file holds.
    fn count_free_blocks(&self) -> (r: usize)
        requires
            self.wf(),
        ensures
            r == self.free_blocks(),
    {
        let mut count: usize = 0;
        let mut b: usize = 0;
        while b < NUM_BLOCKS
            invariant
                self.wf(),
                b <= NUM_BLOCKS,
                count == free_count(self.block_used@, b as int),
                count <= b,
            decreases NUM_BLOCKS - b,
        {
            if !self.block_used[b] {
                count = count + 1;
            }
            b = b + 1;
        }
        count
    }

    /// Takes the first free data block and marks it as held.
    fn allocate_block(&mut self) -> (r: usize)
        requires
            old(self).wf(),
            old(self).free_blocks() > 0,
        ensures
            Self::spec_first_file_block() <= r < NUM_BLOCKS,
            !old(self).block_used@[r as int],
            final(self).block_used@ == old(self).block_used@.update(r as int, true),
            final(self).free_blocks() + 1 == old(self).free_blocks(),
            final(self).open == old(self).open,
            final(self).disk == old(self).disk,
            final(self).inodes == old(self).inodes,
            final(self).inode_used == old(self).inode_used,
            final(self).names == old(self).names,
            final(self).open_inodes == old(self).open_inodes,
            final(self).directory_ready == old(self).directory_ready,
    {
        let mut b: usize = 0;
        while b < NUM_BLOCKS
            invariant
                self.wf(),
                *self == *old(self),
                self.free_blocks() > 0,
                b <= NUM_BLOCKS,
                free_count(self.block_used@, b as int) == 0,
            decreases NUM_BLOCKS - b,
        {
            if !self.block_used[b] {
                proof {
                    lemma_free_count_take(self.block_used@, b as int, NUM_BLOCKS as int);
                }
                self.block_used.set(b, true);
                return b;
            }
            b = b + 1;
        }
        b
    }

    /// A zeroed block-sized buffer.
    fn block_buffer() -> (r: Vec<u8>)
        ensures
            r@.len() == BLOCK_SIZE,
    {
        let mut buf: Vec<u8> = Vec::new();
        let mut j: usize = 0;
        while j < BLOCK_SIZE
            invariant
                j <= BLOCK_SIZE,
                buf@.len() == j,
            decreases BLOCK_SIZE - j,
        {
            buf.push(0u8);
            j = j + 1;
        }
        buf
    }

    /// A copy of inode `ino`'s block list.
    fn copy_blocks(&self, ino: usize) -> (r: Vec<u8>)
        requires
            ino < self.inodes@.len(),
        ensures
            r@ == self.inodes@[ino as int].blocks@,
    {
        let r = self.inodes[ino].blocks.clone();
        assert(r@ =~= self.inodes@[ino as int].blocks@);
        r
    }

    /// Appends byte `x` to the file open for writing under `fd`, taking a new
    /// data block when the file's last block is full.
    fn append_byte(&mut self, fd: usize, x: u8)
        requires
            old(self).wf(),
            old(self).handle(fd as int) matches Some(h) && h.2 && old(self).inodes@[h.0].bytes_stored
                < MAX_FILE_BYTES && (old(self).inodes@[h.0].bytes_stored as int % BLOCK_SIZE as int == 0
                ==> old(self).free_blocks() > 0),
        ensures
            final(self).wf(),
            ({
                let (i, pos, w) = old(self).handle(fd as int)->Some_0;
                let len = old(self).file_bytes(i).len() as int;
                &&& final(self).file_bytes(i) == old(self).file_bytes(i).push(x)
                &&& final(self).handle(fd as int) == Some((i, pos + 1, true))
                &&& final(self).same_except(old(self), i)
                &&& final(self).free_blocks() == old(self).free_blocks() - if len % BLOCK_SIZE as int
                    == 0 {
                    1int
                } else {
                    0int
                }
            }),
            forall|t: int| t != fd ==> #[trigger] final(self).handle(t) == old(self).handle(t),
    {
        let ino: usize = match &self.open[fd] {
            Some(h) => h.inode_num,
            None => vstd::pervasive::unreached(),
        };
        let len: usize = self.inodes[ino].bytes_stored as usize;
        let bi: usize = len / BLOCK_SIZE;
        let off: usize = len % BLOCK_SIZE;
        proof {
            lemma_blocks_for_grow(len as int, BLOCK_SIZE as int);
            lemma_blocks_for_bounds(
                len as int + 1,
                len as int + 1,
                MAX_FILE_BLOCKS as int,
                BLOCK_SIZE as int,
            );
            lemma_block_index_in_range(len as int, len as int + 1, BLOCK_SIZE as int);
        }
        if off == 0 {
            let b = self.allocate_block();
            let mut blocks = self.copy_blocks(ino);
            blocks.set(bi, b as u8);
            self.inodes.set(ino, Inode { bytes_stored: len as u16, blocks });
        }
        proof {
            lemma_split(len as int, BLOCK_SIZE as int);
            if off != 0 {
                assert(Self::spec_first_file_block() <= old(self).block_of(ino as int, bi as int)
                    < NUM_BLOCKS);
            }
        }
        assert(forall|y: int|
            0 <= y < NUM_BLOCKS && old(self).block_used@[y] ==> self.block_used@[y]);
        let blk: usize = self.inodes[ino].blocks[bi] as usize;
        let mut buf = Self::block_buffer();
        self.disk.read(blk, &mut buf);
        buf.set(off, x);
        self.disk.write(blk, &buf);
        let blocks = self.copy_blocks(ino);
        self.inodes.set(ino, Inode { bytes_stored: (len + 1) as u16, blocks });
        self.open.set(fd, Some(FileInfo { inode_num: ino, position: len + 1, writing: true }));
        proof {
            let o = old(self);
            let bs = BLOCK_SIZE as int;
            assert(self.block_count(ino as int) == bi + 1);
            assert forall|i: int, k: int|
                0 <= i < MAX_FILES_STORED && 0 <= k < MAX_FILE_BLOCKS implies {
                    &&& k < self.block_count(i) ==> Self::spec_first_file_block()
                        <= #[trigger] self.block_of(i, k) < NUM_BLOCKS
                        && self.block_used@[self.block_of(i, k)]
                    &&& k >= self.block_count(i) ==> self.block_of(i, k) == 0
                } by {
                if i != ino {
                    assert(self.block_of(i, k) == o.block_of(i, k));
                    assert(self.block_count(i) == o.block_count(i));
                } else if k != bi {
                    assert(self.block_of(i, k) == o.block_of(i, k));
                } else if off != 0 {
                    assert(self.block_of(i, k) == o.block_of(i, k));
                }
            }
            assert forall|i: int, k: int, j: int, l: int|
                0 <= i < MAX_FILES_STORED && 0 <= j < MAX_FILES_STORED && 0 <= k
                    < self.block_count(i) && 0 <= l < self.block_count(j) && (i != j || k
                    != l) implies #[trigger] self.block_of(i, k) != #[trigger] self.block_of(
                j,
                l,
            ) by {
                if i != ino && j != ino {
                    assert(self.block_of(i, k) == o.block_of(i, k));
                    assert(self.block_of(j, l) == o.block_of(j, l));
                } else if off == 0 && i == ino && k == bi {
                    assert(self.block_of(j, l) == o.block_of(j, l));
                    assert(l < o.block_count(j));
                    assert(o.block_used@[o.block_of(j, l)]);
                } else if off == 0 && j == ino && l == bi {
                    assert(self.block_of(i, k) == o.block_of(i, k));
                    assert(k < o.block_count(i));
                    assert(o.block_used@[o.block_of(i, k)]);
                } else {
                    assert(self.block_of(i, k) == o.block_of(i, k));
                    assert(self.block_of(j, l) == o.block_of(j, l));
                }
            }
            assert forall|j: int| 0 <= j < MAX_FILES_STORED && j != ino implies #[trigger] self.file_bytes(j) == o.file_bytes(
                j,
            ) by {
                if 0 <= j < MAX_FILES_STORED {
                    assert forall|p: int| 0 <= p < o.file_bytes(j).len() implies self.file_bytes(
                        j,
                    )[p] == o.file_bytes(j)[p] by {
                        lemma_block_index_in_range(p, o.file_bytes(j).len() as int, bs);
                        assert(self.inodes@[j] == o.inodes@[j]);
                        assert(p / bs < self.block_count(j));
                        assert(self.block_of(j, p / bs) == o.block_of(j, p / bs));
                        assert(self.block_of(ino as int, bi as int) != self.block_of(j, p / bs));
                        assert(self.disk@ == o.disk@.update(blk as int, buf@));
                        assert(blk as int == self.block_of(ino as int, bi as int));
                        assert(self.file_bytes(j)[p] == self.disk@[self.block_of(j, p / bs)][p
                            % bs]);
                        assert(self.disk@[self.block_of(j, p / bs)] == o.disk@[o.block_of(
                            j,
                            p / bs,
                        )]);
                    }
                    assert(self.file_bytes(j) =~= o.file_bytes(j));
                }
            }
            assert forall|p: int| 0 <= p < len + 1 implies #[trigger] self.file_bytes(
                ino as int,
            )[p] == o.file_bytes(ino as int).push(x)[p] by {
                if p < len {
                    lemma_block_index_in_range(p, len as int, bs);
                    if p / bs == bi as int {
                        lemma_position_unique(p, len as int, bs);
                    } else {
                        assert(self.block_of(ino as int, p / bs) != self.block_of(
                            ino as int,
                            bi as int,
                        ));
                    }
                }
            }
            assert(self.file_bytes(ino as int) =~= o.file_bytes(ino as int).push(x));
            assert(self.names@.map_values(|v: Vec<u8>| v@) =~= o.names@.map_values(
                |v: Vec<u8>| v@,
            ));
            if off != 0 {
                assert(self.block_used@ == o.block_used@);
            }
        }
    }

    /// Appends `buffer` to the file open for writing under `fd`.
    pub fn write(&mut self, fd: usize, buffer: &[u8]) -> (r: FileSystemResult<()>)
        requires
            old(self).wf(),
        ensures
            final(self).wf(),
            Self::write_ensures(*old(self), *final(self), fd, buffer@, r),
            r is Success ==> final(self).metadata_on_disk(),
            old(self).metadata_on_disk() ==> final(self).metadata_on_disk(),
    {
        if fd >= MAX_OPEN {
            return FileSystemResult::Failure(FileSystemError::FileNotOpen);
        }
        let (ino, writing) = match &self.open[fd] {
            Some(h) => (h.inode_num, h.writing),
            None => {
                return FileSystemResult::Failure(FileSystemError::FileNotOpen);
            },
        };
        if !writing {
            return FileSystemResult::Failure(FileSystemError::NotOpenForWrite);
        }
        let len: usize = self.inodes[ino].bytes_stored as usize;
        let n: usize = buffer.len();
        if n > MAX_FILE_BYTES - len {
            return FileSystemResult::Failure(FileSystemError::FileTooBig);
        }
        proof {
            lemma_blocks_for_bounds(
                len as int,
                (len + n) as int,
                MAX_FILE_BLOCKS as int,
                BLOCK_SIZE as int,
            );
        }
        let need = Self::blocks_for_exec(len + n) - Self::blocks_for_exec(len);
        if need > self.count_free_blocks() {
            return FileSystemResult::Failure(FileSystemError::DiskFull);
        }
        let ghost free0 = self.free_blocks();
        let ghost bytes0 = self.file_bytes(ino as int);
        let mut k: usize = 0;
        while k < n
            invariant
                self.wf(),
                k <= n,
                n == buffer@.len(),
                len + n <= MAX_FILE_BYTES,
                bytes0.len() == len,
                self.handle(fd as int) == Some((ino as int, (len + k) as int, true)),
                self.inodes@[ino as int].bytes_stored == len + k,
                self.file_bytes(ino as int) == bytes0 + buffer@.subrange(0, k as int),
                self.same_except(old(self), ino as int),
                forall|t: int| t != fd ==> #[trigger] self.handle(t) == old(self).handle(t),
                blocks_for((len + n) as int, BLOCK_SIZE as int) - blocks_for(
                    len as int,
                    BLOCK_SIZE as int,
                ) <= free0,
                self.free_blocks() == free0 - (blocks_for((len + k) as int, BLOCK_SIZE as int)
                    - blocks_for(len as int, BLOCK_SIZE as int)),
            decreases n - k,
        {
            proof {
                lemma_blocks_for_grow((len + k) as int, BLOCK_SIZE as int);
                lemma_blocks_for_bounds(
                    (len + k + 1) as int,
                    (len + n) as int,
                    MAX_FILE_BLOCKS as int,
                    BLOCK_SIZE as int,
                );
            }
            self.append_byte(fd, buffer[k]);
            assert(bytes0 + buffer@.subrange(0, k as int + 1) =~= (bytes0 + buffer@.subrange(
                0,
                k as int,
            )).push(buffer@[k as int]));
            k = k + 1;
        }
        assert(buffer@.subrange(0, n as int) =~= buffer@);
        self.sync_metadata();
        FileSystemResult::Success(())
    }

    /// Byte `q` of inode `ino`'s content.
    fn byte_at(&self, ino: usize, q: usize) -> (r: u8)
        requires
            self.wf(),
            ino < MAX_FILES_STORED,
            q < self.file_bytes(ino as int).len(),
        ensures
            r == self.file_bytes(ino as int)[q as int],
    {
        proof {
            lemma_block_index_in_range(
                q as int,
                self.inodes@[ino as int].bytes_stored as int,
                BLOCK_SIZE as int,
            );
            lemma_split(q as int, BLOCK_SIZE as int);
            assert(q / BLOCK_SIZE < self.block_count(ino as int));
            assert(Self::spec_first_file_block() <= self.block_of(ino as int, q as int / BLOCK_SIZE as int)
                < NUM_BLOCKS);
        }
        let blk: usize = self.inodes[ino].blocks[q / BLOCK_SIZE] as usize;
        let mut buf = Self::block_buffer();
        self.disk.read(blk, &mut buf);
        assert(buf@.len() == BLOCK_SIZE);
        buf[q % BLOCK_SIZE]
    }

    /// Copies bytes of the file open for reading under `fd` into `buffer`,
    /// from the handle's position on, until `buffer` is full or the file ends.
    /// Returns how many were copied and moves the position past them.
    pub fn read(&mut self, fd: usize, buffer: &mut [u8]) -> (r: FileSystemResult<usize>)
        requires
            old(self).wf(),
        ensures
            final(self).wf(),
            Self::read_ensures(*old(self), *final(self), fd, old(buffer)@, final(buffer)@, r),
            old(self).metadata_on_disk() ==> final(self).metadata_on_disk(),
    {
        if fd >= MAX_OPEN {
            return FileSystemResult::Failure(FileSystemError::FileNotOpen);
        }
        let (ino, pos, writing) = match &self.open[fd] {
            Some(h) => (h.inode_num, h.position, h.writing),
            None => {
                return FileSystemResult::Failure(FileSystemError::FileNotOpen);
            },
        };
        if writing {
            return FileSystemResult::Failure(FileSystemError::NotOpenForRead);
        }
        let len: usize = self.inodes[ino].bytes_stored as usize;
        let m: usize = if buffer.len() < len - pos {
            buffer.len()
        } else {
            len - pos
        };
        let ghost buf0 = buffer@;
        let mut k: usize = 0;
        while k < m
            invariant
                self.wf(),
                *self == *old(self),
                k <= m,
                pos + m <= len,
                m <= buf0.len(),
                len == self.file_bytes(ino as int).len(),
                ino < MAX_FILES_STORED,
                buffer@.len() == buf0.len(),
                forall|t: int| 0 <= t < k ==> buffer@[t] == self.file_bytes(ino as int)[pos + t],
                forall|t: int| k <= t < buf0.len() ==> buffer@[t] == buf0[t],
            decreases m - k,
        {
            let b = self.byte_at(ino, pos + k);
            buffer[k] = b;
            k = k + 1;
        }
        let ghost before = *self;
        self.open.set(fd, Some(FileInfo { inode_num: ino, position: pos + m, writing: false }));
        proof {
            assert(buffer@ =~= old(self).file_bytes(ino as int).subrange(pos as int, (pos + m) as int)
                + buf0.subrange(m as int, buf0.len() as int));
            Self::lemma_same_store(self, &before);
            assert forall|s: int, t: int|
                0 <= s < MAX_OPEN && 0 <= t < MAX_OPEN && s != t && #[trigger] self.open@[s] is Some
                    && #[trigger] self.open@[t] is Some implies self.open@[s]->Some_0.inode_num
                != self.open@[t]->Some_0.inode_num by {
                assert(before.open@[s] is Some && before.open@[t] is Some);
            }
            assert forall|s: int| 0 <= s < MAX_OPEN && #[trigger] self.open@[s] is Some implies {
                let h = self.open@[s]->Some_0;
                &&& 1 <= h.inode_num < MAX_FILES_STORED
                &&& self.inode_used@[h.inode_num as int]
                &&& self.open_inodes@[h.inode_num as int]
                &&& h.position <= self.inodes@[h.inode_num as int].bytes_stored
                &&& h.writing ==> h.position == self.inodes@[h.inode_num as int].bytes_stored
            } by {
                assert(before.open@[s] is Some);
            }
            Self::lemma_wf_handles(&before, self);
        }
        FileSystemResult::Success(m)
    }

    /// The first free descriptor, if any.
    fn find_free_slot(&self) -> (r: Option<usize>)
        requires
            self.wf(),
        ensures
            r matches Some(s) ==> s < MAX_OPEN && self.open@[s as int] is None,
            r is None ==> !self.has_free_slot(),
    {
        let mut s: usize = 0;
        while s < MAX_OPEN
            invariant
                self.wf(),
                s <= MAX_OPEN,
                forall|t: int| 0 <= t < s ==> self.open@[t] is Some,
            decreases MAX_OPEN - s,
        {
            if self.open[s].is_none() {
                return Some(s);
            }
            s = s + 1;
        }
        None
    }

    /// Installs a handle on inode `ino` in the free descriptor `slot`.
    fn acquire(&mut self, slot: usize, ino: usize, position: usize, writing: bool)
        requires
            old(self).wf(),
            slot < MAX_OPEN,
            old(self).open@[slot as int] is None,
            1 <= ino < MAX_FILES_STORED,
            old(self).inode_used@[ino as int],
            !old(self).open_inodes@[ino as int],
            position <= old(self).inodes@[ino as int].bytes_stored,
            writing ==> position == old(self).inodes@[ino as int].bytes_stored,
        ensures
            final(self).wf(),
            final(self).handle(slot as int) == Some((ino as int, position as int, writing)),
            forall|t: int| t != slot ==> #[trigger] final(self).handle(t) == old(self).handle(t),
            final(self).open_inodes@ == old(self).open_inodes@.update(ino as int, true),
            final(self).disk == old(self).disk,
            final(self).inodes == old(self).inodes,
            final(self).inode_used == old(self).inode_used,
            final(self).block_used == old(self).block_used,
            final(self).names == old(self).names,
            final(self).directory_ready == old(self).directory_ready,
    {
        let ghost o = *self;
        self.open_inodes.set(ino, true);
        self.open.set(slot, Some(FileInfo { inode_num: ino, position, writing }));
        proof {
            assert forall|s: int| 0 <= s < MAX_OPEN && #[trigger] self.open@[s] is Some implies {
                let h = self.open@[s]->Some_0;
                &&& 1 <= h.inode_num < MAX_FILES_STORED
                &&& self.inode_used@[h.inode_num as int]
                &&& self.open_inodes@[h.inode_num as int]
                &&& h.position <= self.inodes@[h.inode_num as int].bytes_stored
                &&& h.writing ==> h.position == self.inodes@[h.inode_num as int].bytes_stored
            } by {
                if s != slot {
                    assert(o.open@[s] is Some);
                }
            }
            assert forall|s: int, t: int|
                0 <= s < MAX_OPEN && 0 <= t < MAX_OPEN && s != t && #[trigger] self.open@[s] is Some
                    && #[trigger] self.open@[t] is Some implies self.open@[s]->Some_0.inode_num
                != self.open@[t]->Some_0.inode_num by {
                if s != slot && t != slot {
                    assert(o.open@[s] is Some && o.open@[t] is Some);
                } else if s == slot {
                    assert(o.open@[t] is Some);
                } else {
                    assert(o.open@[s] is Some);
                }
            }
            Self::lemma_wf_handles(&o, self);
        }
    }

    /// Opens the existing file `name` for reading from its start, or for
    /// appending at its end.
    fn open_existing(&mut self, name: &str, append: bool) -> (r: FileSystemResult<usize>)
        requires
            old(self).wf(),
        ensures
            final(self).wf(),
            ({
                let n = name.spec_bytes();
                &&& old(self).lookup(n) is None ==> r == FileSystemResult::<usize>::Failure(
                    FileSystemError::FileNotFound,
                )
                &&& old(self).lookup(n) matches Some(i) ==> {
                    &&& old(self).inode_is_open(i) ==> r == FileSystemResult::<usize>::Failure(
                        FileSystemError::AlreadyOpen,
                    )
                    &&& !old(self).inode_is_open(i) && !old(self).has_free_slot() ==> r
                        == FileSystemResult::<usize>::Failure(FileSystemError::TooManyOpen)
                    &&& !old(self).inode_is_open(i) && old(self).has_free_slot() ==> (r matches FileSystemResult::<
                        usize,
                    >::Success(fd) && fd < MAX_OPEN && old(self).handle(fd as int) is None
                        && final(self).handle(fd as int) == Some(
                        (
                            i,
                            if append {
                                old(self).file_bytes(i).len() as int
                            } else {
                                0
                            },
                            append,
                        ),
                    ) && final(self).inode_is_open(i) && final(self).marks_except(old(self), i)
                        && forall|t: int|
                        t != fd ==> #[trigger] final(self).handle(t) == old(self).handle(t))
                }
            }),
            r is Failure ==> *final(self) == *old(self),
            final(self).same_store(old(self)),
            old(self).metadata_on_disk() ==> final(self).metadata_on_disk(),
    {
        let bytes = name.as_bytes_vec();
        let ino = match self.find_inode(&bytes) {
            Some(i) => i,
            None => {
                return FileSystemResult::Failure(FileSystemError::FileNotFound);
            },
        };
        proof {
            lemma_find_from_found(
                self.inode_used@,
                self.names@.map_values(|v: Vec<u8>| v@),
                bytes@,
                1,
            );
        }
        if self.open_inodes[ino] {
            return FileSystemResult::Failure(FileSystemError::AlreadyOpen);
        }
        let slot = match self.find_free_slot() {
            Some(s) => s,
            None => {
                return FileSystemResult::Failure(FileSystemError::TooManyOpen);
            },
        };
        let position: usize = if append {
            self.inodes[ino].bytes_stored as usize
        } else {
            0
        };
        let ghost before = *self;
        self.acquire(slot, ino, position, append);
        proof {
            Self::lemma_same_store(self, &before);
            Self::lemma_metadata_frame(self, &before);
        }
        FileSystemResult::Success(slot)
    }

    /// Opens the existing file `name` for reading from its start.
    pub fn open_read(&mut self, name: &str) -> (r: FileSystemResult<usize>)
        requires
            old(self).wf(),
        ensures
            final(self).wf(),
            Self::open_read_ensures(*old(self), *final(self), name.spec_bytes(), r),
            old(self).metadata_on_disk() ==> final(self).metadata_on_disk(),
    {
        self.open_existing(name, false)
    }

    /// Opens the existing file `name` for writing after its last byte.
    pub fn open_append(&mut self, name: &str) -> (r: FileSystemResult<usize>)
        requires
            old(self).wf(),
        ensures
            final(self).wf(),
            Self::open_append_ensures(*old(self), *final(self), name.spec_bytes(), r),
            old(self).metadata_on_disk() ==> final(self).metadata_on_disk(),
    {
        self.open_existing(name, true)
    }

    /// Saves and releases the handle under `fd`.
    pub fn close(&mut self, fd: usize) -> (r: FileSystemResult<()>)
        requires
            old(self).wf(),
        ensures
            final(self).wf(),
            Self::close_ensures(*old(self), *final(self), fd, r),
            r is Success ==> final(self).metadata_on_disk(),
            old(self).metadata_on_disk() ==> final(self).metadata_on_disk(),
    {
        if fd >= MAX_OPEN {
            return FileSystemResult::Failure(FileSystemError::FileNotOpen);
        }
        let ino = match &self.open[fd] {
            Some(h) => h.inode_num,
            None => {
                return FileSystemResult::Failure(FileSystemError::FileNotOpen);
            },
        };
        let ghost before = *self;
        self.open_inodes.set(ino, false);
        self.open.set(fd, None);
        proof {
            let o = before;
            assert forall|s: int, t: int|
                0 <= s < MAX_OPEN && 0 <= t < MAX_OPEN && s != t && #[trigger] self.open@[s] is Some
                    && #[trigger] self.open@[t] is Some implies self.open@[s]->Some_0.inode_num
                != self.open@[t]->Some_0.inode_num by {
                assert(o.open@[s] is Some && o.open@[t] is Some);
            }
            assert forall|s: int| 0 <= s < MAX_OPEN && #[trigger] self.open@[s] is Some implies {
                let h = self.open@[s]->Some_0;
                &&& 1 <= h.inode_num < MAX_FILES_STORED
                &&& self.inode_used@[h.inode_num as int]
                &&& self.open_inodes@[h.inode_num as int]
                &&& h.position <= self.inodes@[h.inode_num as int].bytes_stored
                &&& h.writing ==> h.position == self.inodes@[h.inode_num as int].bytes_stored
            } by {
                assert(o.open@[s] is Some);
                assert(s != fd);
                assert(o.open@[fd as int] is Some);
            }
            Self::lemma_same_store(self, &o);
            Self::lemma_wf_handles(&o, self);
        }
        self.sync_metadata();
        FileSystemResult::Success(())
    }

    /// Two states with the same storage fields agree on the stored files.
    proof fn lemma_same_store(a: &Self, b: &Self)
        requires
            a.disk == b.disk,
            a.inodes == b.inodes,
            a.inode_used == b.inode_used,
            a.names == b.names,
            a.block_used == b.block_used,
            a.directory_ready == b.directory_ready,
        ensures
            a.same_store(b),
    {
        assert forall|j: int| 0 <= j < MAX_FILES_STORED implies #[trigger] a.file_bytes(j)
            == b.file_bytes(j) by {
            assert(a.file_bytes(j) =~= b.file_bytes(j));
        }
        assert(a.names@.map_values(|v: Vec<u8>| v@) =~= b.names@.map_values(|v: Vec<u8>| v@));
    }

    /// Block-list slots that all hold the unused mark.
    fn empty_block_list() -> (r: Vec<u8>)
        ensures
            r@.len() == MAX_FILE_BLOCKS,
            forall|k: int| 0 <= k < MAX_FILE_BLOCKS ==> #[trigger] r@[k] == 0u8,
    {
        let mut r: Vec<u8> = Vec::new();
        let mut k: usize = 0;
        while k < MAX_FILE_BLOCKS
            invariant
                k <= MAX_FILE_BLOCKS,
                r@.len() == k,
                forall|t: int| 0 <= t < k ==> #[trigger] r@[t] == 0u8,
            decreases MAX_FILE_BLOCKS - k,
        {
            r.push(0u8);
            k = k + 1;
        }
        r
    }

    /// Empties the closed file in inode `ino`, handing its data blocks back.
    fn truncate(&mut self, ino: usize)
        requires
            old(self).wf(),
            1 <= ino < MAX_FILES_STORED,
            !old(self).open_inodes@[ino as int],
        ensures
            final(self).wf(),
            final(self).file_bytes(ino as int) == Seq::<u8>::empty(),
            final(self).inodes@[ino as int].bytes_stored == 0,
            final(self).free_blocks() == old(self).free_blocks() + old(self).block_count(ino as int),
            forall|j: int|
                0 <= j < MAX_FILES_STORED && j != ino ==> #[trigger] final(self).file_bytes(j)
                    == old(self).file_bytes(j),
            final(self).open == old(self).open,
            final(self).open_inodes == old(self).open_inodes,
            final(self).inode_used == old(self).inode_used,
            final(self).names == old(self).names,
            final(self).directory_ready == old(self).directory_ready,
    {
        let count = Self::blocks_for_exec(self.inodes[ino].bytes_stored as usize);
        let mut k: usize = 0;
        while k < count
            invariant
                old(self).wf(),
                1 <= ino < MAX_FILES_STORED,
                count == old(self).block_count(ino as int),
                count <= MAX_FILE_BLOCKS,
                k <= count,
                self.open == old(self).open,
                self.disk == old(self).disk,
                self.inodes == old(self).inodes,
                self.inode_used == old(self).inode_used,
                self.names == old(self).names,
                self.open_inodes == old(self).open_inodes,
                self.directory_ready == old(self).directory_ready,
                self.block_used@.len() == NUM_BLOCKS,
                forall|b: int|
                    0 <= b < Self::spec_first_file_block() ==> #[trigger] self.block_used@[b],
                forall|j: int, l: int|
                    0 <= j < MAX_FILES_STORED && j != ino && 0 <= l < old(self).block_count(j)
                        ==> self.block_used@[#[trigger] old(self).block_of(j, l)],
                forall|l: int|
                    k <= l < count ==> self.block_used@[#[trigger] old(self).block_of(ino as int, l)],
                self.free_blocks() == old(self).free_blocks() + k,
            decreases count - k,
        {
            let b: usize = self.inodes[ino].blocks[k] as usize;
            proof {
                assert(Self::spec_first_file_block() <= old(self).block_of(ino as int, k as int)
                    < NUM_BLOCKS);
                assert forall|j: int, l: int|
                    0 <= j < MAX_FILES_STORED && j != ino && 0 <= l < old(self).block_count(
                        j,
                    ) implies old(self).block_of(ino as int, k as int) != #[trigger] old(
                    self,
                ).block_of(j, l) by {}
                assert forall|l: int| k < l < count implies old(self).block_of(ino as int, k as int)
                    != #[trigger] old(self).block_of(ino as int, l) by {}
                lemma_free_count_give(self.block_used@, b as int, NUM_BLOCKS as int);
            }
            self.block_used.set(b, false);
            k = k + 1;
        }
        let blocks = Self::empty_block_list();
        let ghost mid = *self;
        self.inodes.set(ino, Inode { bytes_stored: 0, blocks });
        proof {
            let o = old(self);
            lemma_blocks_for_zero(BLOCK_SIZE as int);
            assert forall|i: int, k: int|
                0 <= i < MAX_FILES_STORED && 0 <= k < MAX_FILE_BLOCKS implies {
                    &&& k < self.block_count(i) ==> Self::spec_first_file_block()
                        <= #[trigger] self.block_of(i, k) < NUM_BLOCKS
                        && self.block_used@[self.block_of(i, k)]
                    &&& k >= self.block_count(i) ==> self.block_of(i, k) == 0
                } by {
                if i != ino {
                    assert(self.block_of(i, k) == o.block_of(i, k));
                }
            }
            assert forall|i: int, k: int, j: int, l: int|
                0 <= i < MAX_FILES_STORED && 0 <= j < MAX_FILES_STORED && 0 <= k
                    < self.block_count(i) && 0 <= l < self.block_count(j) && (i != j || k
                    != l) implies #[trigger] self.block_of(i, k) != #[trigger] self.block_of(
                j,
                l,
            ) by {
                assert(self.block_of(i, k) == o.block_of(i, k));
                assert(self.block_of(j, l) == o.block_of(j, l));
            }
            assert forall|s: int| 0 <= s < MAX_OPEN && #[trigger] self.open@[s] is Some implies {
                let h = self.open@[s]->Some_0;
                &&& 1 <= h.inode_num < MAX_FILES_STORED
                &&& self.inode_used@[h.inode_num as int]
                &&& self.open_inodes@[h.inode_num as int]
                &&& h.position <= self.inodes@[h.inode_num as int].bytes_stored
                &&& h.writing ==> h.position == self.inodes@[h.inode_num as int].bytes_stored
            } by {
                assert(o.open@[s] is Some);
            }
            assert forall|j: int|
                0 <= j < MAX_FILES_STORED && j != ino implies #[trigger] self.file_bytes(j)
                == o.file_bytes(j) by {
                assert(self.file_bytes(j) =~= o.file_bytes(j));
            }
            assert(self.file_bytes(ino as int) =~= Seq::<u8>::empty());
        }
    }

    /// The first free inode after the directory's, if any.
    fn find_free_inode(&self) -> (r: Option<usize>)
        requires
            self.wf(),
        ensures
            r matches Some(i) ==> 1 <= i < MAX_FILES_STORED && !self.inode_used@[i as int],
            r is None ==> !self.has_free_inode(),
    {
        let mut i: usize = 1;
        while i < MAX_FILES_STORED
            invariant
                self.wf(),
                1 <= i <= MAX_FILES_STORED,
                forall|t: int| 1 <= t < i ==> self.inode_used@[t],
            decreases MAX_FILES_STORED - i,
        {
            if !self.inode_used[i] {
                return Some(i);
            }
            i = i + 1;
        }
        None
    }

    /// Records `name` in the directory for the free inode `ino`.
    fn claim_inode(&mut self, ino: usize, name: Vec<u8>)
        requires
            old(self).wf(),
            1 <= ino < MAX_FILES_STORED,
            !old(self).inode_used@[ino as int],
            name@.len() <= MAX_FILENAME_BYTES,
        ensures
            final(self).wf(),
            final(self).inode_used@ == old(self).inode_used@.update(ino as int, true),
            old(self).lookup(name@) is None ==> final(self).lookup(name@) == Some(ino as int),
            forall|m: Seq<u8>| m != name@ ==> #[trigger] final(self).lookup(m) == old(self).lookup(m),
            final(self).open == old(self).open,
            final(self).open_inodes == old(self).open_inodes,
            final(self).disk == old(self).disk,
            final(self).inodes == old(self).inodes,
            final(self).block_used == old(self).block_used,
            final(self).directory_ready == old(self).directory_ready,
    {
        let ghost o = *self;
        let ghost n = name@;
        self.inode_used.set(ino, true);
        self.names.set(ino, name);
        proof {
            let views = o.names@.map_values(|v: Vec<u8>| v@);
            assert(self.names@.map_values(|v: Vec<u8>| v@) =~= views.update(ino as int, n));
            lemma_find_from_claim(o.inode_used@, views, ino as int, n, n, 1);
            assert forall|m: Seq<u8>| m != n implies #[trigger] self.lookup(m) == o.lookup(m) by {
                lemma_find_from_claim(o.inode_used@, views, ino as int, n, m, 1);
            }
            assert forall|s: int| 0 <= s < MAX_OPEN && #[trigger] self.open@[s] is Some implies {
                let h = self.open@[s]->Some_0;
                &&& 1 <= h.inode_num < MAX_FILES_STORED
                &&& self.inode_used@[h.inode_num as int]
                &&& self.open_inodes@[h.inode_num as int]
                &&& h.position <= self.inodes@[h.inode_num as int].bytes_stored
                &&& h.writing ==> h.position == self.inodes@[h.inode_num as int].bytes_stored
            } by {
                assert(o.open@[s] is Some);
            }
            Self::lemma_wf_storage_names(&o, self);
        }
    }

    /// The invariant carries over to a state that only marks one more inode in use.
    proof fn lemma_wf_storage_names(a: &Self, b: &Self)
        requires
            a.wf(),
            a.disk == b.disk,
            a.inodes == b.inodes,
            a.block_used == b.block_used,
            a.open == b.open,
            a.open_inodes == b.open_inodes,
            b.inode_used@.len() == MAX_FILES_STORED,
            b.names@.len() == MAX_FILES_STORED,
            b.inode_used@[0],
            forall|i: int|
                0 <= i < MAX_FILES_STORED ==> (#[trigger] b.names@[i])@.len() <= MAX_FILENAME_BYTES,
            forall|i: int| 0 <= i < MAX_FILES_STORED && a.inode_used@[i] ==> b.inode_used@[i],
            b.handles_ok(),
        ensures
            b.wf(),
    {
        assert forall|i: int, k: int|
            0 <= i < MAX_FILES_STORED && 0 <= k < MAX_FILE_BLOCKS implies {
                &&& k < b.block_count(i) ==> Self::spec_first_file_block()
                    <= #[trigger] b.block_of(i, k) < NUM_BLOCKS && b.block_used@[b.block_of(i, k)]
                &&& k >= b.block_count(i) ==> b.block_of(i, k) == 0
            } by {
            assert(a.block_of(i, k) == b.block_of(i, k));
        }
        assert forall|i: int, k: int, j: int, l: int|
            0 <= i < MAX_FILES_STORED && 0 <= j < MAX_FILES_STORED && 0 <= k < b.block_count(i)
                && 0 <= l < b.block_count(j) && (i != j || k != l) implies #[trigger] b.block_of(
            i,
            k,
        ) != #[trigger] b.block_of(j, l) by {
            assert(a.block_of(i, k) == b.block_of(i, k));
            assert(a.block_of(j, l) == b.block_of(j, l));
        }
        assert forall|i: int| 0 <= i < MAX_FILES_STORED implies b.block_count(i) <= MAX_FILE_BLOCKS by {
            assert(a.block_count(i) == b.block_count(i));
        }
    }

    /// Creates the file `name`, or empties it if it exists, and opens it for
    /// writing at its start.
    pub fn open_create(&mut self, name: &str) -> (r: FileSystemResult<usize>)
        requires
            old(self).wf(),
        ensures
            final(self).wf(),
            Self::open_create_ensures(*old(self), *final(self), name.spec_bytes(), r),
            r is Success ==> final(self).metadata_on_disk(),
            old(self).metadata_on_disk() ==> final(self).metadata_on_disk(),
    {
        let bytes = name.as_bytes_vec();
        if bytes.len() > MAX_FILENAME_BYTES {
            return FileSystemResult::Failure(FileSystemError::FilenameTooLong);
        }
        let ghost n = bytes@;
        let ghost names0 = self.names@.map_values(|v: Vec<u8>| v@);
        proof {
            lemma_find_from_found(self.inode_used@, names0, n, 1);
        }
        let slot: usize;
        match self.find_inode(&bytes) {
            Some(ino) => {
                if self.open_inodes[ino] {
                    return FileSystemResult::Failure(FileSystemError::AlreadyOpen);
                }
                slot = match self.find_free_slot() {
                    Some(s) => s,
                    None => {
                        return FileSystemResult::Failure(FileSystemError::TooManyOpen);
                    },
                };
                assert(self.handle(slot as int) is None);
                let ghost before = *self;
                self.truncate(ino);
                proof {
                    assert(self.names@.map_values(|v: Vec<u8>| v@) =~= before.names@.map_values(
                        |v: Vec<u8>| v@,
                    ));
                }
                let ghost mid = *self;
                self.acquire(slot, ino, 0, true);
                proof {
                    assert(self.names@.map_values(|v: Vec<u8>| v@) =~= before.names@.map_values(
                        |v: Vec<u8>| v@,
                    ));
                    assert forall|m: Seq<u8>| #[trigger] self.lookup(m) == before.lookup(m) by {}
                    assert forall|t: int| t != slot implies #[trigger] self.handle(t) == before.handle(
                        t,
                    ) by {
                        assert(mid.handle(t) == before.handle(t));
                    }
                    assert forall|j: int| 0 <= j < MAX_FILES_STORED implies #[trigger] self.file_bytes(j)
                        == mid.file_bytes(j) by {
                        assert(self.file_bytes(j) =~= mid.file_bytes(j));
                    }
                }
            },
            None => {
                let ino = match self.find_free_inode() {
                    Some(i) => i,
                    None => {
                        return FileSystemResult::Failure(FileSystemError::TooManyFiles);
                    },
                };
                assert(!self.inode_in_use(ino as int));
                slot = match self.find_free_slot() {
                    Some(s) => s,
                    None => {
                        return FileSystemResult::Failure(FileSystemError::TooManyOpen);
                    },
                };
                assert(self.handle(slot as int) is None);
                let ghost before = *self;
                proof {
                    lemma_blocks_for_zero(BLOCK_SIZE as int);
                }
                self.claim_inode(ino, bytes);
                let ghost mid = *self;
                self.acquire(slot, ino, 0, true);
                proof {
                    assert(self.names@.map_values(|v: Vec<u8>| v@) =~= mid.names@.map_values(
                        |v: Vec<u8>| v@,
                    ));
                    assert forall|m: Seq<u8>| #[trigger] self.lookup(m) == mid.lookup(m) by {}
                    assert forall|t: int| t != slot implies #[trigger] self.handle(t) == before.handle(
                        t,
                    ) by {
                        assert(mid.handle(t) == before.handle(t));
                    }
                    assert(self.disk == before.disk);
                    assert(self.inodes == before.inodes);
                    assert forall|j: int| 0 <= j < MAX_FILES_STORED implies #[trigger] self.file_bytes(j)
                        == before.file_bytes(j) by {
                        assert(self.file_bytes(j) =~= before.file_bytes(j));
                    }
                    assert(self.file_bytes(ino as int) =~= Seq::<u8>::empty());
                }
            },
        }
        let ghost before = *self;
        self.directory_ready = true;
        proof {
            Self::lemma_wf_handles(&before, self);
            assert(self.names@.map_values(|v: Vec<u8>| v@) =~= before.names@.map_values(
                |v: Vec<u8>| v@,
            ));
            assert forall|m: Seq<u8>| #[trigger] self.lookup(m) == before.lookup(m) by {}
            assert forall|t: int| #[trigger] self.handle(t) == before.handle(t) by {}
            assert forall|j: int| 0 <= j < MAX_FILES_STORED implies #[trigger] self.file_bytes(j)
                == before.file_bytes(j) by {
                assert(self.file_bytes(j) =~= before.file_bytes(j));
            }
        }
        self.sync_metadata();
        FileSystemResult::Success(slot)
    }

    /// What `write` guarantees: the state `post` and result `r` of writing `data`
    /// under `fd` in state `pre`.
    pub open spec fn write_ensures(
        pre: Self,
        post: Self,
        fd: usize,
        data: Seq<u8>,
        r: FileSystemResult<()>,
    ) -> bool {
        &&& pre.handle(fd as int) is None ==> r == FileSystemResult::<()>::Failure(
            FileSystemError::FileNotOpen
        )
        &&& pre.handle(fd as int) matches Some(h) ==> {
            let (i, pos, w) = h;
            let len = pre.file_bytes(i).len() as int;
            let need = blocks_for(len + data.len(), BLOCK_SIZE as int) - blocks_for(
                len as int,
                BLOCK_SIZE as int,
            );
            &&& !w ==> r == FileSystemResult::<()>::Failure(FileSystemError::NotOpenForWrite)
            &&& w && len + data.len() > MAX_FILE_BYTES ==> r == FileSystemResult::<
                (),
            >::Failure(FileSystemError::FileTooBig)
            &&& w && len + data.len() <= MAX_FILE_BYTES && need > pre.free_blocks()
                ==> r == FileSystemResult::<()>::Failure(FileSystemError::DiskFull)
            &&& w && len + data.len() <= MAX_FILE_BYTES && need <= pre.free_blocks()
                ==> {
                &&& r == FileSystemResult::<()>::Success(())
                &&& post.file_bytes(i) == pre.file_bytes(i) + data
                &&& post.handle(fd as int) == Some((i, len + data.len(), true))
                &&& post.same_except(&pre, i)
                &&& post.free_blocks() == pre.free_blocks() - need
            }
        }
        &&& r is Failure ==> post == pre
        &&& forall|t: int| t != fd ==> #[trigger] post.handle(t) == pre.handle(t)
    }

    /// What `read` guarantees: the state `post`, buffer `buf1` and result `r` of
    /// reading under `fd` into `buf0` in state `pre`.
    pub open spec fn read_ensures(
        pre: Self,
        post: Self,
        fd: usize,
        buf0: Seq<u8>,
        buf1: Seq<u8>,
        r: FileSystemResult<usize>,
    ) -> bool {
        &&& pre.handle(fd as int) is None ==> r == FileSystemResult::<usize>::Failure(
            FileSystemError::FileNotOpen
        )
        &&& pre.handle(fd as int) matches Some(h) ==> {
            let (i, pos, w) = h;
            let len = pre.file_bytes(i).len() as int;
            let m = if buf0.len() < len - pos {
                buf0.len() as int
            } else {
                len - pos
            };
            &&& w ==> r == FileSystemResult::<usize>::Failure(FileSystemError::NotOpenForRead)
            &&& !w ==> {
                &&& r == FileSystemResult::<usize>::Success(m as usize)
                &&& buf1 == pre.file_bytes(i).subrange(pos, pos + m) + buf0.subrange(m, buf0.len() as int)
                &&& post.handle(fd as int) == Some((i, pos + m, false))
            }
        }
        &&& r is Failure ==> post == pre && buf1 == buf0
        &&& post.same_store(&pre)
        &&& post.same_marks(&pre)
        &&& forall|t: int| t != fd ==> #[trigger] post.handle(t) == pre.handle(t)
    }

    /// What `close` guarantees: the state `post` and result `r` of closing `fd` in
    /// state `pre`.
    pub open spec fn close_ensures(
        pre: Self,
        post: Self,
        fd: usize,
        r: FileSystemResult<()>,
    ) -> bool {
        &&& pre.handle(fd as int) is None ==> r == FileSystemResult::<()>::Failure(
            FileSystemError::FileNotOpen
        ) && post == pre
        &&& pre.handle(fd as int) matches Some(h) ==> r == FileSystemResult::<()>::Success(())
            && post.handle(fd as int) is None && !post.inode_is_open(h.0)
            && post.marks_except(&pre, h.0)
        &&& post.same_store(&pre)
        &&& forall|t: int| t != fd ==> #[trigger] post.handle(t) == pre.handle(t)
    }

    /// What `open_read` guarantees: the state `post` and result `r` of opening
    /// the file whose name has bytes `n` in state `pre`.
    pub open spec fn open_read_ensures(
        pre: Self,
        post: Self,
        n: Seq<u8>,
        r: FileSystemResult<usize>,
    ) -> bool {
        &&& {
            &&& pre.lookup(n) is None ==> r == FileSystemResult::<usize>::Failure(
                FileSystemError::FileNotFound,
            )
            &&& pre.lookup(n) matches Some(i) ==> {
                &&& pre.inode_is_open(i) ==> r == FileSystemResult::<usize>::Failure(
                    FileSystemError::AlreadyOpen,
                )
                &&& !pre.inode_is_open(i) && !pre.has_free_slot() ==> r
                    == FileSystemResult::<usize>::Failure(FileSystemError::TooManyOpen)
                &&& !pre.inode_is_open(i) && pre.has_free_slot() ==> (r matches FileSystemResult::<
                    usize,
                >::Success(fd) && fd < MAX_OPEN && pre.handle(fd as int) is None
                    && post.handle(fd as int) == Some((i, 0int, false))
                    && post.inode_is_open(i) && post.marks_except(&pre, i)
                    && forall|t: int|
                    t != fd ==> #[trigger] post.handle(t) == pre.handle(t))
            }
        }
        &&& r is Failure ==> post == pre
        &&& post.same_store(&pre)
    }

    /// What `open_append` guarantees: the state `post` and result `r` of opening
    /// the file whose name has bytes `n` in state `pre`.
    pub open spec fn open_append_ensures(
        pre: Self,
        post: Self,
        n: Seq<u8>,
        r: FileSystemResult<usize>,
    ) -> bool {
        &&& {
            &&& pre.lookup(n) is None ==> r == FileSystemResult::<usize>::Failure(
                FileSystemError::FileNotFound,
            )
            &&& pre.lookup(n) matches Some(i) ==> {
                &&& pre.inode_is_open(i) ==> r == FileSystemResult::<usize>::Failure(
                    FileSystemError::AlreadyOpen,
                )
                &&& !pre.inode_is_open(i) && !pre.has_free_slot() ==> r
                    == FileSystemResult::<usize>::Failure(FileSystemError::TooManyOpen)
                &&& !pre.inode_is_open(i) && pre.has_free_slot() ==> (r matches FileSystemResult::<
                    usize,
                >::Success(fd) && fd < MAX_OPEN && pre.handle(fd as int) is None
                    && post.handle(fd as int) == Some(
                    (i, pre.file_bytes(i).len() as int, true),
                ) && post.inode_is_open(i) && post.marks_except(&pre, i)
                    && forall|t: int|
                    t != fd ==> #[trigger] post.handle(t) == pre.handle(t))
            }
        }
        &&& r is Failure ==> post == pre
        &&& post.same_store(&pre)
    }

    /// What `open_create` guarantees: the state `post` and result `r` of creating
    /// the file whose name has bytes `n` in state `pre`.
    pub open spec fn open_create_ensures(
        pre: Self,
        post: Self,
        n: Seq<u8>,
        r: FileSystemResult<usize>,
    ) -> bool {
        &&& {
            &&& n.len() > MAX_FILENAME_BYTES ==> r == FileSystemResult::<usize>::Failure(
                FileSystemError::FilenameTooLong,
            )
            &&& n.len() <= MAX_FILENAME_BYTES && pre.lookup(n) is Some ==> {
                let i = pre.lookup(n)->Some_0;
                &&& pre.inode_is_open(i) ==> r == FileSystemResult::<usize>::Failure(
                    FileSystemError::AlreadyOpen,
                )
                &&& !pre.inode_is_open(i) && !pre.has_free_slot() ==> r
                    == FileSystemResult::<usize>::Failure(FileSystemError::TooManyOpen)
                &&& !pre.inode_is_open(i) && pre.has_free_slot() ==> (r matches FileSystemResult::<
                    usize,
                >::Success(fd) && post.handle(fd as int) == Some((i, 0int, true))
                    && post.free_blocks() == pre.free_blocks() + blocks_for(
                    pre.file_bytes(i).len() as int,
                    BLOCK_SIZE as int,
                ))
            }
            &&& n.len() <= MAX_FILENAME_BYTES && pre.lookup(n) is None ==> {
                &&& !pre.has_free_inode() ==> r == FileSystemResult::<usize>::Failure(
                    FileSystemError::TooManyFiles,
                )
                &&& pre.has_free_inode() && !pre.has_free_slot() ==> r
                    == FileSystemResult::<usize>::Failure(FileSystemError::TooManyOpen)
                &&& pre.has_free_inode() && pre.has_free_slot() ==> (r matches FileSystemResult::<
                    usize,
                >::Success(fd) && post.handle(fd as int) matches Some(h) && h.1 == 0
                    && h.2 && 1 <= h.0 < MAX_FILES_STORED && !pre.inode_in_use(h.0)
                    && post.free_blocks() == pre.free_blocks())
            }
            &&& r matches FileSystemResult::<usize>::Success(fd) ==> {
                let i = post.handle(fd as int)->Some_0.0;
                &&& fd < MAX_OPEN
                &&& pre.handle(fd as int) is None
                &&& post.lookup(n) == Some(i)
                &&& post.file_bytes(i) == Seq::<u8>::empty()
                &&& post.inode_in_use(i)
                &&& post.inode_is_open(i)
                &&& post.dir_exists()
                &&& forall|j: int|
                    0 <= j < MAX_FILES_STORED && j != i ==> #[trigger] post.file_bytes(j)
                        == pre.file_bytes(j) && post.inode_in_use(j) == pre.inode_in_use(j)
                &&& forall|m: Seq<u8>| m != n ==> #[trigger] post.lookup(m) == pre.lookup(m)
                &&& post.marks_except(&pre, i)
                &&& forall|t: int|
                    t != fd ==> #[trigger] post.handle(t) == pre.handle(t)
            }
        }
        &&& r is Failure ==> post == pre
    }

    /// Byte `o` of block `t` of the inode table: the records of inodes
    /// `t * inodes_per_block` onwards, one after another.
    pub closed spec fn table_byte(&self, t: int, o: int) -> u8 {
        let rec = 2 + MAX_FILE_BLOCKS as int;
        let slot = o / rec;
        let n = t * Self::spec_inodes_per_block() + slot;
        if slot < Self::spec_inodes_per_block() && n < MAX_FILES_STORED {
            inode_record(self.inodes@[n].bytes_stored, self.inodes@[n].blocks@)[o % rec]
        } else {
            0
        }
    }

    /// Byte `g` of the directory region: entry `k` sits at `k * (MAX_FILENAME_BYTES + 2)`
    /// and holds, for an in-use inode `k` other than the directory's, its name
    /// padded with zeros and then `k`, low byte first.
    pub closed spec fn directory_byte(&self, g: int) -> u8 {
        let e = MAX_FILENAME_BYTES as int + 2;
        let k = g / e;
        let q = g % e;
        if 1 <= k < MAX_FILES_STORED && self.inode_used@[k] {
            if q < MAX_FILENAME_BYTES {
                if q < self.names@[k]@.len() {
                    self.names@[k]@[q]
                } else {
                    0
                }
            } else if q == MAX_FILENAME_BYTES {
                (k % 256) as u8
            } else {
                (k / 256) as u8
            }
        } else {
            0
        }
    }

    /// Block 0 holds the inode bitmap, block 1 the data-block bitmap, the
    /// blocks after them the inode table, and the first data blocks the directory.
    pub closed spec fn metadata_on_disk(&self) -> bool {
        &&& forall|k: int|
            0 <= k < BLOCK_SIZE ==> #[trigger] self.disk@[0][k] as int == bitmap_byte(
                self.inode_used@,
                k,
            )
        &&& forall|k: int|
            0 <= k < BLOCK_SIZE ==> #[trigger] self.disk@[1][k] as int == bitmap_byte(
                self.block_used@.subrange(Self::spec_first_data_block(), NUM_BLOCKS as int),
                k,
            )
        &&& forall|t: int, o: int|
            0 <= t < Self::spec_num_inode_blocks() && 0 <= o < BLOCK_SIZE ==> #[trigger] self.disk@[2
                + t][o] == self.table_byte(t, o)
        &&& forall|d: int, o: int|
            0 <= d < Self::spec_directory_blocks() && 0 <= o < BLOCK_SIZE ==> #[trigger] self.disk@[Self::spec_first_data_block()
                + d][o] == self.directory_byte(d * BLOCK_SIZE + o)
    }

    /// The block image of a bitmap over `bits[start..start + count]`.
    fn encode_bitmap(bits: &Vec<bool>, start: usize, count: usize) -> (r: Vec<u8>)
        requires
            start + count <= bits@.len(),
        ensures
            r@.len() == BLOCK_SIZE,
            forall|k: int|
                0 <= k < BLOCK_SIZE ==> #[trigger] r@[k] as int == bitmap_byte(
                    bits@.subrange(start as int, (start + count) as int),
                    k,
                ),
    {
        let mut r: Vec<u8> = Vec::new();
        let mut k: usize = 0;
        while k < BLOCK_SIZE
            invariant
                k <= BLOCK_SIZE,
                start + count <= bits@.len(),
                r@.len() == k,
                forall|t: int|
                    0 <= t < k ==> #[trigger] r@[t] as int == bitmap_byte(
                        bits@.subrange(start as int, (start + count) as int),
                        t,
                    ),
            decreases BLOCK_SIZE - k,
        {
            r.push(encode_bitmap_byte(bits, start, count, k));
            k = k + 1;
        }
        r
    }

    /// The image of block `t` of the inode table.
    fn encode_table_block(&self, t: usize) -> (r: Vec<u8>)
        requires
            self.wf(),
            t < Self::spec_num_inode_blocks(),
        ensures
            r@.len() == BLOCK_SIZE,
            forall|o: int| 0 <= o < BLOCK_SIZE ==> #[trigger] r@[o] == self.table_byte(t as int, o),
    {
        let rec: usize = 2 + MAX_FILE_BLOCKS;
        let per_block: usize = BLOCK_SIZE / rec;
        let mut r: Vec<u8> = Vec::new();
        let mut o: usize = 0;
        while o < BLOCK_SIZE
            invariant
                self.wf(),
                t < Self::spec_num_inode_blocks(),
                rec == 2 + MAX_FILE_BLOCKS,
                per_block == Self::spec_inodes_per_block(),
                o <= BLOCK_SIZE,
                r@.len() == o,
                forall|p: int| 0 <= p < o ==> #[trigger] r@[p] == self.table_byte(t as int, p),
            decreases BLOCK_SIZE - o,
        {
            let slot: usize = o / rec;
            let q: usize = o % rec;
            assert((t as int) * (per_block as int) <= 256 * (per_block as int)) by (nonlinear_arith)
                requires
                    t < 256,
            ;
            let n: u128 = (t as u128) * (per_block as u128) + slot as u128;
            let byte: u8 = if slot < per_block && n < MAX_FILES_STORED as u128 {
                let node = &self.inodes[n as usize];
                if q == 0 {
                    (node.bytes_stored % 256) as u8
                } else if q == 1 {
                    (node.bytes_stored / 256) as u8
                } else {
                    node.blocks[q - 2]
                }
            } else {
                0
            };
            r.push(byte);
            o = o + 1;
        }
        r
    }

    /// The image of block `d` of the directory region.
    fn encode_directory_block(&self, d: usize) -> (r: Vec<u8>)
        requires
            self.wf(),
            d < Self::spec_directory_blocks(),
        ensures
            r@.len() == BLOCK_SIZE,
            forall|o: int|
                0 <= o < BLOCK_SIZE ==> #[trigger] r@[o] == self.directory_byte(
                    d * BLOCK_SIZE + o,
                ),
    {
        let e: u128 = MAX_FILENAME_BYTES as u128 + 2;
        let mut r: Vec<u8> = Vec::new();
        let mut o: usize = 0;
        while o < BLOCK_SIZE
            invariant
                self.wf(),
                d < Self::spec_directory_blocks(),
                e == MAX_FILENAME_BYTES + 2,
                o <= BLOCK_SIZE,
                r@.len() == o,
                forall|p: int|
                    0 <= p < o ==> #[trigger] r@[p] == self.directory_byte(d * BLOCK_SIZE + p),
            decreases BLOCK_SIZE - o,
        {
            assert((d as int) * (BLOCK_SIZE as int) <= 256 * (BLOCK_SIZE as int)) by (nonlinear_arith)
                requires
                    d < 256,
            ;
            let g: u128 = (d as u128) * (BLOCK_SIZE as u128) + o as u128;
            let k: u128 = g / e;
            let q: u128 = g % e;
            let byte: u8 = if 1 <= k && k < MAX_FILES_STORED as u128 && self.inode_used[k as usize] {
                let name = &self.names[k as usize];
                if q < MAX_FILENAME_BYTES as u128 {
                    if q < name.len() as u128 {
                        name[q as usize]
                    } else {
                        0
                    }
                } else if q == MAX_FILENAME_BYTES as u128 {
                    (k % 256) as u8
                } else {
                    (k / 256) as u8
                }
            } else {
                0
            };
            r.push(byte);
            o = o + 1;
        }
        r
    }

    /// A disk write below the first file block leaves the invariant and every
    /// file's content as they were.
    proof fn lemma_metadata_write(a: &Self, b: &Self, blk: int, data: Seq<u8>)
        requires
            a.wf(),
            0 <= blk < Self::spec_first_file_block(),
            data.len() == BLOCK_SIZE,
            b.disk.wf(),
            b.disk@ == a.disk@.update(blk, data),
            b.open == a.open,
            b.inodes == a.inodes,
            b.inode_used == a.inode_used,
            b.block_used == a.block_used,
            b.names == a.names,
            b.open_inodes == a.open_inodes,
            b.directory_ready == a.directory_ready,
        ensures
            b.wf(),
            b.same_store(a),
            forall|t: int| #[trigger] b.handle(t) == a.handle(t),
            b.same_marks(a),
    {
        assert forall|j: int| 0 <= j < MAX_FILES_STORED implies #[trigger] b.file_bytes(j)
            == a.file_bytes(j) by {
            assert forall|p: int| 0 <= p < a.file_bytes(j).len() implies b.file_bytes(j)[p]
                == a.file_bytes(j)[p] by {
                lemma_block_index_in_range(p, a.file_bytes(j).len() as int, BLOCK_SIZE as int);
                assert((p / (BLOCK_SIZE as int)) < a.block_count(j));
                assert(a.block_of(j, p / BLOCK_SIZE as int) >= Self::spec_first_file_block());
            }
            assert(b.file_bytes(j) =~= a.file_bytes(j));
        }
        assert(b.names@.map_values(|v: Vec<u8>| v@) =~= a.names@.map_values(|v: Vec<u8>| v@));
        assert forall|i: int, k: int|
            0 <= i < MAX_FILES_STORED && 0 <= k < MAX_FILE_BLOCKS implies {
                &&& k < b.block_count(i) ==> Self::spec_first_file_block()
                    <= #[trigger] b.block_of(i, k) < NUM_BLOCKS && b.block_used@[b.block_of(i, k)]
                &&& k >= b.block_count(i) ==> b.block_of(i, k) == 0
            } by {
            assert(a.block_of(i, k) == b.block_of(i, k));
        }
        assert forall|i: int, k: int, j: int, l: int|
            0 <= i < MAX_FILES_STORED && 0 <= j < MAX_FILES_STORED && 0 <= k < b.block_count(i)
                && 0 <= l < b.block_count(j) && (i != j || k != l) implies #[trigger] b.block_of(
            i,
            k,
        ) != #[trigger] b.block_of(j, l) by {
            assert(a.block_of(i, k) == b.block_of(i, k));
            assert(a.block_of(j, l) == b.block_of(j, l));
        }
        assert forall|i: int| 0 <= i < MAX_FILES_STORED implies b.block_count(i) <= MAX_FILE_BLOCKS by {
            assert(a.block_count(i) == b.block_count(i));
        }
    }

    /// The on-disk metadata depends on the disk, the inodes and the bitmaps alone.
    proof fn lemma_metadata_frame(a: &Self, b: &Self)
        requires
            a.disk == b.disk,
            a.inodes == b.inodes,
            a.inode_used == b.inode_used,
            a.block_used == b.block_used,
            a.names == b.names,
        ensures
            a.metadata_on_disk() == b.metadata_on_disk(),
    {
        assert forall|t: int, o: int| #[trigger] a.table_byte(t, o) == b.table_byte(t, o) by {}
        assert forall|g: int| #[trigger] a.directory_byte(g) == b.directory_byte(g) by {}
    }

    /// Writes the bitmaps and the inode table to their blocks.
    fn sync_metadata(&mut self)
        requires
            old(self).wf(),
        ensures
            final(self).wf(),
            final(self).metadata_on_disk(),
            final(self).same_store(old(self)),
            forall|t: int| #[trigger] final(self).handle(t) == old(self).handle(t),
            final(self).same_marks(old(self)),
            final(self).inodes == old(self).inodes,
            final(self).inode_used == old(self).inode_used,
            final(self).block_used == old(self).block_used,
            final(self).names == old(self).names,
            final(self).open == old(self).open,
            final(self).open_inodes == old(self).open_inodes,
            final(self).directory_ready == old(self).directory_ready,
    {
        let first_data: usize = self.first_data_block();
        let inode_image = Self::encode_bitmap(&self.inode_used, 0, MAX_FILES_STORED);
        let ghost s0 = *self;
        self.disk.write(0, &inode_image);
        proof {
            Self::lemma_metadata_write(&s0, self, 0, inode_image@);
            assert(self.inode_used@.subrange(0, MAX_FILES_STORED as int) =~= self.inode_used@);
        }
        let data_image = Self::encode_bitmap(&self.block_used, first_data, NUM_BLOCKS - first_data);
        let ghost s1 = *self;
        self.disk.write(1, &data_image);
        proof {
            Self::lemma_metadata_write(&s1, self, 1, data_image@);
        }
        let inode_blocks: usize = self.num_inode_blocks();
        let mut t: usize = 0;
        while t < inode_blocks
            invariant
                self.wf(),
                inode_blocks == Self::spec_num_inode_blocks(),
                t <= inode_blocks,
                self.same_store(old(self)),
                forall|u: int| #[trigger] self.handle(u) == old(self).handle(u),
                self.same_marks(old(self)),
                self.inodes == old(self).inodes,
                self.inode_used == old(self).inode_used,
                self.block_used == old(self).block_used,
                self.names == old(self).names,
                self.open == old(self).open,
                self.open_inodes == old(self).open_inodes,
                self.directory_ready == old(self).directory_ready,
                forall|k: int|
                    0 <= k < BLOCK_SIZE ==> #[trigger] self.disk@[0][k] as int == bitmap_byte(
                        self.inode_used@,
                        k,
                    ),
                forall|k: int|
                    0 <= k < BLOCK_SIZE ==> #[trigger] self.disk@[1][k] as int == bitmap_byte(
                        self.block_used@.subrange(Self::spec_first_data_block(), NUM_BLOCKS as int),
                        k,
                    ),
                forall|u: int, o: int|
                    0 <= u < t && 0 <= o < BLOCK_SIZE ==> #[trigger] self.disk@[2 + u][o]
                        == self.table_byte(u, o),
            decreases inode_blocks - t,
        {
            let image = self.encode_table_block(t);
            let ghost s2 = *self;
            self.disk.write(2 + t, &image);
            proof {
                Self::lemma_metadata_write(&s2, self, 2 + t as int, image@);
                assert forall|u: int, o: int|
                    0 <= u < t + 1 && 0 <= o < BLOCK_SIZE implies #[trigger] self.disk@[2 + u][o]
                    == self.table_byte(u, o) by {
                    assert(self.table_byte(u, o) == s2.table_byte(u, o));
                }
                assert forall|k: int| 0 <= k < BLOCK_SIZE implies #[trigger] self.disk@[0][k] as int
                    == bitmap_byte(self.inode_used@, k) by {
                    assert(self.disk@[0] == s2.disk@[0]);
                }
                assert forall|k: int| 0 <= k < BLOCK_SIZE implies #[trigger] self.disk@[1][k] as int
                    == bitmap_byte(
                    self.block_used@.subrange(Self::spec_first_data_block(), NUM_BLOCKS as int),
                    k,
                ) by {
                    assert(self.disk@[1] == s2.disk@[1]);
                }
            }
            t = t + 1;
        }
        let dir_blocks: usize = Self::first_file_block_exec() - first_data;
        let mut d: usize = 0;
        while d < dir_blocks
            invariant
                self.wf(),
                self.same_store(old(self)),
                forall|u: int| #[trigger] self.handle(u) == old(self).handle(u),
                self.same_marks(old(self)),
                self.inodes == old(self).inodes,
                self.inode_used == old(self).inode_used,
                self.block_used == old(self).block_used,
                self.names == old(self).names,
                self.open == old(self).open,
                self.open_inodes == old(self).open_inodes,
                self.directory_ready == old(self).directory_ready,
                forall|k: int|
                    0 <= k < BLOCK_SIZE ==> #[trigger] self.disk@[0][k] as int == bitmap_byte(
                        self.inode_used@,
                        k,
                    ),
                forall|k: int|
                    0 <= k < BLOCK_SIZE ==> #[trigger] self.disk@[1][k] as int == bitmap_byte(
                        self.block_used@.subrange(Self::spec_first_data_block(), NUM_BLOCKS as int),
                        k,
                    ),
                forall|u: int, o: int|
                    0 <= u < Self::spec_num_inode_blocks() && 0 <= o < BLOCK_SIZE ==> #[trigger] self.disk@[2 + u][o]
                        == self.table_byte(u, o),
                first_data == Self::spec_first_data_block(),
                dir_blocks == Self::spec_directory_blocks(),
                d <= dir_blocks,
                forall|u: int, o: int|
                    0 <= u < d && 0 <= o < BLOCK_SIZE ==> #[trigger] self.disk@[first_data + u][o]
                        == self.directory_byte(u * BLOCK_SIZE + o),
            decreases dir_blocks - d,
        {
            let image = self.encode_directory_block(d);
            let ghost s3 = *self;
            self.disk.write(first_data + d, &image);
            proof {
                Self::lemma_metadata_write(&s3, self, first_data + d as int, image@);
                assert forall|u: int, o: int|
                    0 <= u < d + 1 && 0 <= o < BLOCK_SIZE implies #[trigger] self.disk@[first_data
                    + u][o] == self.directory_byte(u * BLOCK_SIZE + o) by {
                    assert(self.directory_byte(u * BLOCK_SIZE + o) == s3.directory_byte(
                        u * BLOCK_SIZE + o,
                    ));
                }
                assert forall|u: int, o: int|
                    0 <= u < Self::spec_num_inode_blocks() && 0 <= o < BLOCK_SIZE implies #[trigger] self.disk@[2
                    + u][o] == self.table_byte(u, o) by {
                    assert(self.disk@[2 + u] == s3.disk@[2 + u]);
                    assert(self.table_byte(u, o) == s3.table_byte(u, o));
                }
                assert forall|k: int| 0 <= k < BLOCK_SIZE implies #[trigger] self.disk@[0][k] as int
                    == bitmap_byte(self.inode_used@, k) by {
                    assert(self.disk@[0] == s3.disk@[0]);
                }
                assert forall|k: int| 0 <= k < BLOCK_SIZE implies #[trigger] self.disk@[1][k] as int
                    == bitmap_byte(
                    self.block_used@.subrange(Self::spec_first_data_block(), NUM_BLOCKS as int),
                    k,
                ) by {
                    assert(self.disk@[1] == s3.disk@[1]);
                }
            }
            d = d + 1;
        }
    }

    /// The largest content a file can hold, in bytes.
    pub fn max_file_size(&self) -> (r: usize)
        requires
            self.wf(),
        ensures
            r == MAX_FILE_BYTES,
    {
        MAX_FILE_BLOCKS * BLOCK_SIZE
    }

    /// The size of one inode record: a 2-byte length and one byte per block.
    pub fn num_inode_bytes(&self) -> (r: usize)
        requires
            self.wf(),
        ensures
            r == 2 + MAX_FILE_BLOCKS,
    {
        2 + MAX_FILE_BLOCKS
    }

    /// How many inode records fit in one block.
    pub fn inodes_per_block(&self) -> (r: usize)
        requires
            self.wf(),
        ensures
            r == Self::spec_inodes_per_block(),
    {
        BLOCK_SIZE / self.num_inode_bytes()
    }

    /// How many blocks the inode table spans.
    pub fn num_inode_blocks(&self) -> (r: usize)
        requires
            self.wf(),
        ensures
            r == Self::spec_num_inode_blocks(),
    {
        MAX_FILES_STORED / self.inodes_per_block()
    }

    /// How many blocks follow the bitmaps and the inode table.
    pub fn num_data_blocks(&self) -> (r: usize)
        requires
            self.wf(),
        ensures
            r == Self::spec_num_data_blocks(),
    {
        NUM_BLOCKS - self.num_inode_blocks() - 2
    }

    /// The bytes that the inode table's records take.
    pub fn num_inode_entries(&self) -> (r: usize)
        requires
            self.wf(),
        ensures
            r == Self::spec_inodes_per_block() * Self::spec_num_inode_blocks() * (2
                + MAX_FILE_BLOCKS),
    {
        let per_block = self.inodes_per_block();
        let blocks = self.num_inode_blocks();
        let record = self.num_inode_bytes();
        assert(per_block * blocks <= 65535) by (nonlinear_arith)
            requires
                per_block * blocks * record <= 65535,
                record >= 2,
        ;
        per_block * blocks * record
    }

    /// The index of the first block after the bitmaps and the inode table.
    pub fn first_data_block(&self) -> (r: usize)
        requires
            self.wf(),
        ensures
            r == Self::spec_first_data_block(),
    {
        2 + self.num_inode_blocks()
    }

    /// The contents of the underlying disk, block by block.
    pub closed spec fn disk_blocks(&self) -> Seq<Seq<u8>> {
        self.disk@
    }

    /// The underlying block device.
    pub fn disk(&self) -> (r: &RamDisk<BLOCK_SIZE, NUM_BLOCKS>)
        requires
            self.wf(),
        ensures
            r.wf(),
            r@ == self.disk_blocks(),
    {
        &self.disk
    }

    /// Whether the directory holds any file yet.
    pub fn directory_exists(&self) -> (r: bool)
        requires
            self.wf(),
        ensures
            r == self.dir_exists(),
    {
        self.directory_ready
    }

    /// The inode that holds the file named `name`, if there is one.
    fn find_inode(&self, name: &Vec<u8>) -> (r: Option<usize>)
        requires
            self.wf(),
        ensures
            r matches Some(i) ==> self.lookup(name@) == Some(i as int),
            r is None ==> self.lookup(name@) is None,
    {
        let ghost names = self.names@.map_values(|v: Vec<u8>| v@);
        let mut k: usize = 1;
        while k < MAX_FILES_STORED
            invariant
                self.wf(),
                1 <= k <= MAX_FILES_STORED,
                names == self.names@.map_values(|v: Vec<u8>| v@),
                self.lookup(name@) == find_from(self.inode_used@, names, name@, k as int),
            decreases MAX_FILES_STORED - k,
        {
            if self.inode_used[k] && same_bytes(&self.names[k], name) {
                return Some(k);
            }
            k = k + 1;
        }
        None
    }

    /// The inode that holds the file named `name`, or `FileNotFound`.
    pub fn inode_for(&self, name: &str) -> (r: FileSystemResult<usize>)
        requires
            self.wf(),
        ensures
            self.lookup(name.spec_bytes()) matches Some(i) ==> r == FileSystemResult::<
                usize,
            >::Success(i as usize),
            self.lookup(name.spec_bytes()) is None ==> r == FileSystemResult::<usize>::Failure(
                FileSystemError::FileNotFound,
            ),
    {
        let bytes = name.as_bytes_vec();
        match self.find_inode(&bytes) {
            Some(i) => FileSystemResult::Success(i),
            None => FileSystemResult::Failure(FileSystemError::FileNotFound),
        }
    }
}

/// Byte-wise equality of two byte strings.
fn same_bytes(a: &Vec<u8>, b: &Vec<u8>) -> (r: bool)
    ensures
        r == (a@ == b@),
{
    if a.len() != b.len() {
        return false;
    }
    let mut k: usize = 0;
    while k < a.len()
        invariant
            a@.len() == b@.len(),
            k <= a@.len(),
            forall|t: int| 0 <= t < k ==> a@[t] == b@[t],
        decreases a@.len() - k,
    {
        if a[k] != b[k] {
            return false;
        }
        k = k + 1;
    }
    assert(a@ =~= b@);
    true
}

/// The count of the first `hi` entries depends on those entries alone.
proof fn lemma_free_count_agree(s1: Seq<bool>, s2: Seq<bool>, hi: int)
    requires
        hi <= s1.len(),
        hi <= s2.len(),
        forall|t: int| 0 <= t < hi ==> s1[t] == s2[t],
    ensures
        free_count(s1, hi) == free_count(s2, hi),
    decreases hi,
{
    if hi > 0 {
        lemma_free_count_agree(s1, s2, hi - 1);
    }
}

impl<
    const MAX_OPEN: usize,
    const BLOCK_SIZE: usize,
    const NUM_BLOCKS: usize,
    const MAX_FILE_BLOCKS: usize,
    const MAX_FILE_BYTES: usize,
    const MAX_FILES_STORED: usize,
    const MAX_FILENAME_BYTES: usize,
> FileSystem<
    MAX_OPEN,
    BLOCK_SIZE,
    NUM_BLOCKS,
    MAX_FILE_BLOCKS,
    MAX_FILE_BYTES,
    MAX_FILES_STORED,
    MAX_FILENAME_BYTES,
> {
    /// A handle released by `close` frees its descriptor and its inode.
    proof fn lemma_closed_frees(s: Self, fd: usize, i: int)
        requires
            s.wf(),
            fd < MAX_OPEN,
            s.handle(fd as int) is None,
        ensures
            s.has_free_slot(),
    {
        assert(s.open@[fd as int] is None);
    }

    /// Round trip: content written to a freshly created file, once the file is
    /// closed and opened again for reading, comes back whole from one read
    /// whose buffer can hold it. The write succeeds whenever the content fits
    /// in a file and the disk has blocks enough for it.
    pub proof fn law_round_trip(
        s0: Self,
        s1: Self,
        s2: Self,
        s3: Self,
        s4: Self,
        s5: Self,
        n: Seq<u8>,
        fd: usize,
        data: Seq<u8>,
        w: FileSystemResult<()>,
        c: FileSystemResult<()>,
        fd2: usize,
        buf0: Seq<u8>,
        buf1: Seq<u8>,
        k: FileSystemResult<usize>,
    )
        requires
            s0.wf(),
            s1.wf(),
            s2.wf(),
            s3.wf(),
            s4.wf(),
            Self::open_create_ensures(s0, s1, n, FileSystemResult::Success(fd)),
            data.len() <= MAX_FILE_BYTES,
            blocks_for(data.len() as int, BLOCK_SIZE as int) <= s1.free_blocks(),
            Self::write_ensures(s1, s2, fd, data, w),
            Self::close_ensures(s2, s3, fd, c),
            Self::open_read_ensures(s3, s4, n, FileSystemResult::Success(fd2)),
            Self::read_ensures(s4, s5, fd2, buf0, buf1, k),
            buf0.len() >= data.len(),
        ensures
            w == FileSystemResult::<()>::Success(()),
            c == FileSystemResult::<()>::Success(()),
            k == FileSystemResult::<usize>::Success(data.len() as usize),
            buf1.subrange(0, data.len() as int) == data,
    {
        lemma_blocks_for_zero(BLOCK_SIZE as int);
        let i = s1.handle(fd as int)->Some_0.0;
        assert(s1.file_bytes(i).len() == 0);
        assert(s1.file_bytes(i) + data =~= data);
        assert(s2.file_bytes(i) == data);
        assert(s3.file_bytes(i) == data);
        assert(s3.lookup(n) == Some(i));
        Self::lemma_closed_frees(s3, fd, i);
        assert(s4.handle(fd2 as int) == Some((i, 0int, false)));
        assert(s4.file_bytes(i) == data);
        assert(buf1.subrange(0, data.len() as int) =~= data);
    }

    /// Consecutive reads continue where the previous one stopped: together they
    /// hand out the file's bytes in order, and a read at the end returns 0.
    pub proof fn law_reads_continue(
        s0: Self,
        s1: Self,
        s2: Self,
        fd: usize,
        a0: Seq<u8>,
        a1: Seq<u8>,
        ra: FileSystemResult<usize>,
        b0: Seq<u8>,
        b1: Seq<u8>,
        rb: FileSystemResult<usize>,
    )
        requires
            s0.wf(),
            s0.handle(fd as int) matches Some(h) && !h.2,
            Self::read_ensures(s0, s1, fd, a0, a1, ra),
            Self::read_ensures(s1, s2, fd, b0, b1, rb),
        ensures
            ({
                let (i, p, w) = s0.handle(fd as int)->Some_0;
                let content = s0.file_bytes(i);
                let m = ra->Success_0 as int;
                let k = rb->Success_0 as int;
                &&& ra is Success && rb is Success
                &&& a1.subrange(0, m) + b1.subrange(0, k) == content.subrange(p, p + m + k)
                &&& p + m == content.len() ==> k == 0
                &&& m < a0.len() ==> p + m == content.len()
            }),
    {
        let (i, p, w) = s0.handle(fd as int)->Some_0;
        let m = ra->Success_0 as int;
        let k = rb->Success_0 as int;
        assert(s1.file_bytes(i) == s0.file_bytes(i));
        assert(a1.subrange(0, m) + b1.subrange(0, k) =~= s0.file_bytes(i).subrange(p, p + m + k));
    }

    /// Creating a file that already exists keeps its inode and empties it:
    /// what is written next is all that the file holds.
    pub proof fn law_create_replaces(
        s0: Self,
        s1: Self,
        s2: Self,
        n: Seq<u8>,
        fd: usize,
        data: Seq<u8>,
        w: FileSystemResult<()>,
    )
        requires
            s0.wf(),
            s1.wf(),
            s0.lookup(n) is Some,
            Self::open_create_ensures(s0, s1, n, FileSystemResult::Success(fd)),
            Self::write_ensures(s1, s2, fd, data, w),
            w is Success,
        ensures
            s2.lookup(n) == s0.lookup(n),
            s2.file_bytes(s0.lookup(n)->Some_0) == data,
    {
        let i = s0.lookup(n)->Some_0;
        assert(s1.handle(fd as int) == Some((i, 0int, true)));
        assert(s1.file_bytes(i) + data =~= data);
    }

    /// Bytes written through a handle from `open_append` follow the file's
    /// earlier content, in the order written.
    pub proof fn law_append_concatenates(
        s0: Self,
        s1: Self,
        s2: Self,
        n: Seq<u8>,
        fd: usize,
        data: Seq<u8>,
        w: FileSystemResult<()>,
    )
        requires
            s0.wf(),
            s1.wf(),
            s0.lookup(n) is Some,
            Self::open_append_ensures(s0, s1, n, FileSystemResult::Success(fd)),
            Self::write_ensures(s1, s2, fd, data, w),
            w is Success,
        ensures
            s2.lookup(n) == s0.lookup(n),
            s2.file_bytes(s0.lookup(n)->Some_0) == s0.file_bytes(s0.lookup(n)->Some_0) + data,
    {
        let i = s0.lookup(n)->Some_0;
        assert(s1.handle(fd as int) == Some((i, s0.file_bytes(i).len() as int, true)));
    }

    /// A write that brings a file to exactly the largest size succeeds when
    /// the disk has the blocks for it; a write one byte longer fails with
    /// `FileTooBig` and changes nothing.
    pub proof fn law_size_boundary(
        s0: Self,
        s1: Self,
        fd: usize,
        data: Seq<u8>,
        w: FileSystemResult<()>,
    )
        requires
            s0.wf(),
            s0.handle(fd as int) matches Some(h) && h.2,
            Self::write_ensures(s0, s1, fd, data, w),
        ensures
            ({
                let i = s0.handle(fd as int)->Some_0.0;
                let len = s0.file_bytes(i).len() as int;
                &&& len + data.len() == MAX_FILE_BYTES && blocks_for(
                    MAX_FILE_BYTES as int,
                    BLOCK_SIZE as int,
                ) - blocks_for(len, BLOCK_SIZE as int) <= s0.free_blocks() ==> w is Success
                    && s1.file_bytes(i).len() == MAX_FILE_BYTES
                &&& len + data.len() == MAX_FILE_BYTES + 1 ==> w == FileSystemResult::<
                    (),
                >::Failure(FileSystemError::FileTooBig) && s1 == s0
            }),
    {
    }

    /// A file with an open handle cannot be opened again, in any mode; once
    /// that handle is closed, the file opens for reading.
    pub proof fn law_exclusive_open(
        s0: Self,
        n: Seq<u8>,
        fd: usize,
        a: Self,
        ra: FileSystemResult<usize>,
        b: Self,
        rb: FileSystemResult<usize>,
        c: Self,
        rc: FileSystemResult<usize>,
        s1: Self,
        rcl: FileSystemResult<()>,
        s2: Self,
        ro: FileSystemResult<usize>,
    )
        requires
            s0.wf(),
            s1.wf(),
            s0.lookup(n) is Some,
            s0.handle(fd as int) matches Some(h) && h.0 == s0.lookup(n)->Some_0,
            Self::open_read_ensures(s0, a, n, ra),
            Self::open_append_ensures(s0, b, n, rb),
            Self::open_create_ensures(s0, c, n, rc),
            Self::close_ensures(s0, s1, fd, rcl),
            Self::open_read_ensures(s1, s2, n, ro),
        ensures
            ra == FileSystemResult::<usize>::Failure(FileSystemError::AlreadyOpen),
            rb == FileSystemResult::<usize>::Failure(FileSystemError::AlreadyOpen),
            rc == FileSystemResult::<usize>::Failure(FileSystemError::AlreadyOpen),
            rcl == FileSystemResult::<()>::Success(()),
            ro matches FileSystemResult::<usize>::Success(fd2) && s2.handle(fd2 as int) == Some(
                (s0.lookup(n)->Some_0, 0int, false),
            ),
    {
        let i = s0.lookup(n)->Some_0;
        lemma_find_from_found(s0.inode_used@, s0.names@.map_values(|v: Vec<u8>| v@), n, 1);
        assert(s0.names@.map_values(|v: Vec<u8>| v@)[i] == s0.names@[i]@);
        assert(s0.open@[fd as int] is Some);
        assert(s0.inode_is_open(i));
        Self::lemma_closed_frees(s1, fd, i);
        assert(s1.lookup(n) == Some(i));
    }

    /// With every inode but the directory's holding a file, creating a new
    /// name fails with `TooManyFiles` and changes nothing.
    pub proof fn law_too_many_files(s0: Self, s1: Self, n: Seq<u8>, r: FileSystemResult<usize>)
        requires
            s0.wf(),
            forall|j: int| 1 <= j < MAX_FILES_STORED ==> #[trigger] s0.inode_in_use(j),
            s0.lookup(n) is None,
            n.len() <= MAX_FILENAME_BYTES,
            Self::open_create_ensures(s0, s1, n, r),
        ensures
            r == FileSystemResult::<usize>::Failure(FileSystemError::TooManyFiles),
            s1 == s0,
    {
        assert(!s0.has_free_inode()) by {
            assert forall|j: int| 1 <= j < MAX_FILES_STORED implies s0.inode_used@[j] by {
                assert(s0.inode_in_use(j));
            }
        }
    }

    /// A write that needs more data blocks than are free fails with
    /// `DiskFull` and leaves every file as it was.
    pub proof fn law_disk_full(s0: Self, s1: Self, fd: usize, data: Seq<u8>, w: FileSystemResult<()>)
        requires
            s0.wf(),
            s0.handle(fd as int) matches Some(h) && h.2,
            s0.file_bytes(s0.handle(fd as int)->Some_0.0).len() + data.len() <= MAX_FILE_BYTES,
            blocks_for(
                (s0.file_bytes(s0.handle(fd as int)->Some_0.0).len() + data.len()) as int,
                BLOCK_SIZE as int,
            ) - blocks_for(
                s0.file_bytes(s0.handle(fd as int)->Some_0.0).len() as int,
                BLOCK_SIZE as int,
            ) > s0.free_blocks(),
            Self::write_ensures(s0, s1, fd, data, w),
        ensures
            w == FileSystemResult::<()>::Failure(FileSystemError::DiskFull),
            s1 == s0,
    {
    }

    /// A name longer than the limit fails with `FilenameTooLong` and leaves
    /// the directory, and all else, unchanged.
    pub proof fn law_long_name(s0: Self, s1: Self, n: Seq<u8>, r: FileSystemResult<usize>)
        requires
            s0.wf(),
            n.len() > MAX_FILENAME_BYTES,
            Self::open_create_ensures(s0, s1, n, r),
        ensures
            r == FileSystemResult::<usize>::Failure(FileSystemError::FilenameTooLong),
            s1 == s0,
            forall|m: Seq<u8>| #[trigger] s1.lookup(m) == s0.lookup(m),
    {
    }
}

} // verus!
