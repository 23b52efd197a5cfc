//! A fixed-row-size key-value store addressed by dense `u32` identifiers.
//!
//! The identifier space is partitioned into blocks of 4096 identifiers.
//! Each block owns one contiguous region of the backing byte image: a
//! 512-byte presence bitmap followed by 4096 fixed-size row slots.  The
//! store routes every operation to the owning block, allocates fresh
//! identifiers first-fit from the lowest free one, and grows by appending
//! empty blocks.  Persisting the byte image to an actual file is left to
//! the embedding application.

use vstd::prelude::*;

pub mod block;

use block::region_matches;
use block::Block;
use block::Serialize;
use block::BLOCK_SIZE;
use block::MAX_BLOCKS;
use block::REGION_BYTES;

verus! {

/// A store identifier: dense, unsigned, globally unique within a store.
pub type ID = u32;

/// A row holding one 32-bit payload, stored as four little-endian bytes.
#[derive(Clone, Copy, Debug, PartialEq, Eq, Structural)]
pub struct Row {
    pub test_data: u32,
}

/// The recoverable failures of the store.
#[derive(Clone, Copy, Debug, PartialEq, Eq, Structural)]
pub enum DBError {
    /// The identifier is not present in the store.
    IDNotInDatabase,
    /// An on-disk block region is shorter than the format requires.
    Corruption,
}

impl Serialize for Row {
    open spec fn spec_size() -> usize {
        4
    }

    open spec fn spec_to_bytes(self) -> Seq<u8> {
        vstd::bytes::spec_u32_to_le_bytes(self.test_data)
    }

    open spec fn spec_from_bytes(bytes: Seq<u8>) -> Self {
        Row { test_data: vstd::bytes::spec_u32_from_le_bytes(bytes) }
    }

    fn size_of() -> usize {
        4
    }

    fn to_bytes(&self) -> (b: Vec<u8>) {
        vstd::bytes::u32_to_le_bytes(self.test_data)
    }

    fn from_bytes(bytes: Vec<u8>) -> (r: Self) {
        let value = vstd::bytes::u32_from_le_bytes(bytes.as_slice());
        Row { test_data: value }
    }

    proof fn lemma_round_trip(self) {
        vstd::bytes::lemma_auto_spec_u32_to_from_le_bytes();
        assert(vstd::bytes::spec_u32_to_le_bytes(self.test_data).len() == 4);
        assert(Self::spec_from_bytes(self.spec_to_bytes()).test_data == self.test_data);
    }
}

/// Number of blocks needed to hold `n` rows: `n / 4096`, rounded up.
pub open spec fn blocks_for(n: int) -> int {
    n / (BLOCK_SIZE as int) + if n % (BLOCK_SIZE as int) != 0 {
        1int
    } else {
        0int
    }
}

/// Every identifier lies in the range of the block numbered by its
/// quotient.
proof fn lemma_owner_range(id: int)
    requires
        0 <= id,
    ensures
        0 <= id / (BLOCK_SIZE as int),
        (id / (BLOCK_SIZE as int)) * (BLOCK_SIZE as int) <= id,
        id < (id / (BLOCK_SIZE as int)) * (BLOCK_SIZE as int) + (BLOCK_SIZE as int),
{
    vstd::arithmetic::div_mod::lemma_fundamental_div_mod(id, BLOCK_SIZE as int);
    vstd::arithmetic::div_mod::lemma_mod_bound(id, BLOCK_SIZE as int);
    vstd::arithmetic::div_mod::lemma_div_pos_is_pos(id, BLOCK_SIZE as int);
}

/// An identifier below the total capacity of `nb` blocks routes to a
/// block index below `nb`.
proof fn lemma_route_bound(x: int, nb: int)
    requires
        0 <= x < nb * (BLOCK_SIZE as int),
    ensures
        0 <= x / (BLOCK_SIZE as int) < nb,
        (x / (BLOCK_SIZE as int)) * (BLOCK_SIZE as int) <= x,
        x < (x / (BLOCK_SIZE as int)) * (BLOCK_SIZE as int) + (BLOCK_SIZE as int),
{
    lemma_owner_range(x);
    let k = x / (BLOCK_SIZE as int);
    if k >= nb {
        vstd::arithmetic::mul::lemma_mul_inequality(nb, k, BLOCK_SIZE as int);
    }
}

/// An identifier inside block `k`'s range has quotient `k`.
proof fn lemma_owner(id: int, k: int)
    requires
        0 <= k,
        k * (BLOCK_SIZE as int) <= id < k * (BLOCK_SIZE as int) + (BLOCK_SIZE as int),
    ensures
        id / (BLOCK_SIZE as int) == k,
{
    vstd::arithmetic::div_mod::lemma_fundamental_div_mod_converse(
        id,
        BLOCK_SIZE as int,
        k,
        id - k * (BLOCK_SIZE as int),
    );
}

/// Bounds on the block count needed for `n` rows: it never exceeds the
/// store's block limit, and its capacity covers the `n` rows.
proof fn lemma_blocks_for_bounds(n: int)
    requires
        0 <= n <= (MAX_BLOCKS as int) * (BLOCK_SIZE as int),
    ensures
        0 <= blocks_for(n) <= MAX_BLOCKS,
        n <= blocks_for(n) * (BLOCK_SIZE as int),
{
    let bs = BLOCK_SIZE as int;
    let mb = MAX_BLOCKS as int;
    vstd::arithmetic::div_mod::lemma_fundamental_div_mod(n, bs);
    vstd::arithmetic::div_mod::lemma_mod_bound(n, bs);
    vstd::arithmetic::div_mod::lemma_div_pos_is_pos(n, bs);
    if n % bs == 0 {
        vstd::arithmetic::div_mod::lemma_div_is_ordered(n, mb * bs, bs);
        vstd::arithmetic::div_mod::lemma_div_by_multiple(mb, bs);
    } else {
        assert(n < mb * bs);
        vstd::arithmetic::div_mod::lemma_div_is_ordered(n, mb * bs - 1, bs);
        vstd::arithmetic::div_mod::lemma_fundamental_div_mod_converse(
            mb * bs - 1,
            bs,
            mb - 1,
            bs - 1,
        );
    }
}

/// The store: the backing byte image and the ordered, growable sequence
/// of blocks.  Block `k` owns identifiers `[k * 4096, (k + 1) * 4096)`
/// and the image region `[k * 16896, (k + 1) * 16896)`.
pub struct DB {
    /// Byte image of the backing file, laid out block region by block
    /// region with no header.
    pub file: Vec<u8>,
    /// The blocks, in identifier order; the sequence only grows.
    pub data: Vec<Block>,
    /// Number of rows present across all blocks.
    pub total: usize,
}

impl View for DB {
    type V = Map<int, Row>;

    /// The rows of the store, keyed by identifier.
    open spec fn view(&self) -> Map<int, Row> {
        Map::new(
            |id: int|
                0 <= id < self.data@.len() * (BLOCK_SIZE as int) && self.data@[id / (
                BLOCK_SIZE as int)]@.dom().contains(id),
            |id: int| self.data@[id / (BLOCK_SIZE as int)]@[id],
        )
    }
}

impl DB {
    /// The store's invariant: block `k` is well formed, owns range `k`,
    /// and its image region mirrors it; the image is exactly as long as
    /// the blocks need; the row total counts the map's entries.
    pub open spec fn wf(self) -> bool {
        &&& self.data@.len() <= MAX_BLOCKS
        &&& self.file@.len() == self.data@.len() * (REGION_BYTES as int)
        &&& forall|k: int| 0 <= k < self.data@.len() ==> (#[trigger] self.data@[k]).wf()
        &&& forall|k: int|
            0 <= k < self.data@.len() ==> (#[trigger] self.data@[k]).index_start == k * (
            BLOCK_SIZE as int)
        &&& forall|k: int|
            0 <= k < self.data@.len() ==> region_matches(#[trigger] self.data@[k], self.file@)
        &&& self@.dom().finite()
        &&& self.total == self@.dom().len()
    }

    /// Build a store holding `data`: enough empty blocks to hold them
    /// all, then every row inserted in input order.  The identifiers come
    /// back in the same order as the rows and are exactly `0, 1, ...`.
    pub fn from_rows(data: &Vec<Row>) -> (r: (DB, Vec<ID>))
        requires
            data@.len() <= (MAX_BLOCKS as int) * (BLOCK_SIZE as int),
        ensures
            r.0.wf(),
            r.1@.len() == data@.len(),
            forall|i: int| 0 <= i < data@.len() ==> r.1@[i] == i,
            forall|i: int|
                0 <= i < data@.len() ==> (#[trigger] r.0@.dom().contains(i)) && r.0@[i]
                    == data@[i],
            forall|id: int| r.0@.dom().contains(id) ==> 0 <= id < data@.len(),
            r.0@.dom().len() == data@.len(),
            r.0.data@.len() == blocks_for(data@.len() as int),
    {
        let n = data.len();
        let mut num_blocks = n / (BLOCK_SIZE as usize);
        if n % (BLOCK_SIZE as usize) != 0 {
            num_blocks += 1;
        }
        proof {
            lemma_blocks_for_bounds(n as int);
        }
        let mut file: Vec<u8> = Vec::new();
        let target = num_blocks * Block::get_block_size();
        while file.len() < target
            invariant
                file@.len() <= target,
            decreases target - file@.len(),
        {
            file.push(0);
        }
        let mut blocks: Vec<Block> = Vec::new();
        let mut i: usize = 0;
        while i < num_blocks
            invariant
                i <= num_blocks,
                num_blocks <= MAX_BLOCKS,
                blocks@.len() == i,
                file@.len() == target,
                target == num_blocks * (REGION_BYTES as int),
                forall|k: int| 0 <= k < i ==> (#[trigger] blocks@[k]).wf(),
                forall|k: int|
                    0 <= k < i ==> (#[trigger] blocks@[k]).index_start == k * (BLOCK_SIZE as int),
                forall|k: int| 0 <= k < i ==> region_matches(#[trigger] blocks@[k], file@),
                forall|k: int| 0 <= k < i ==> (#[trigger] blocks@[k])@ == Map::<int, Row>::empty(),
            decreases num_blocks - i,
        {
            let start = (i as u32) * BLOCK_SIZE;
            proof {
                lemma_owner(start as int, i as int);
            }
            let ghost fpre = file@;
            let b = Block::new(&mut file, start);
            proof {
                assert forall|k: int| 0 <= k < i implies region_matches(
                    #[trigger] blocks@[k],
                    file@,
                ) by {
                    block::lemma_region_match_preserved(blocks@[k], fpre, file@);
                }
            }
            blocks.push(b);
            i += 1;
        }
        let mut db = DB { file, data: blocks, total: 0 };
        proof {
            let nbi = db.data@.len() as int;
            assert forall|x: int| !db@.dom().contains(x) by {
                if 0 <= x < nbi * (BLOCK_SIZE as int) {
                    lemma_route_bound(x, nbi);
                }
            }
            assert(db@.dom() =~= Set::<int>::empty());
        }
        let mut ids: Vec<ID> = Vec::new();
        let mut idx: usize = 0;
        while idx < n
            invariant
                idx <= n,
                n == data@.len(),
                n <= (MAX_BLOCKS as int) * (BLOCK_SIZE as int),
                n <= blocks_for(n as int) * (BLOCK_SIZE as int),
                db.wf(),
                db.data@.len() == blocks_for(n as int),
                db@.dom().len() == idx,
                ids@.len() == idx,
                forall|i2: int| 0 <= i2 < idx ==> ids@[i2] == i2,
                forall|i2: int|
                    0 <= i2 < idx ==> (#[trigger] db@.dom().contains(i2)) && db@[i2] == data@[i2],
                forall|id2: int| #[trigger] db@.dom().contains(id2) ==> 0 <= id2 < idx,
            decreases n - idx,
        {
            let ghost pre = db;
            let id = db.insert(data[idx]);
            proof {
                if (id as int) < idx as int {
                    assert(pre@.dom().contains(id as int));
                }
                if (idx as int) < id as int {
                    assert(pre@.dom().contains(idx as int));
                }
                assert(id as int == idx as int);
            }
            ids.push(id);
            idx += 1;
        }
        (db, ids)
    }

    /// Whether some block of the store holds `id`.
    fn contains_id(&self, id: ID) -> (r: bool)
        requires
            self.wf(),
        ensures
            r == self@.dom().contains(id as int),
    {
        let k = (id / BLOCK_SIZE) as usize;
        proof {
            lemma_owner_range(id as int);
        }
        if k < self.data.len() {
            self.data[k].contains(id)
        } else {
            false
        }
    }

    /// Look up the row of `id`, routing to the owning block.
    pub fn get_row(&self, id: ID) -> (r: Result<Row, DBError>)
        requires
            self.wf(),
        ensures
            self@.dom().contains(id as int) ==> r == Ok::<Row, DBError>(self@[id as int]),
            !self@.dom().contains(id as int) ==> r == Err::<Row, DBError>(
                DBError::IDNotInDatabase,
            ),
    {
        if self.contains_id(id) {
            let k = (id / BLOCK_SIZE) as usize;
            proof {
                lemma_owner_range(id as int);
            }
            Ok(self.data[k].get(id))
        } else {
            Err(DBError::IDNotInDatabase)
        }
    }

    /// Overwrite the row of an identifier already known to be present,
    /// in place, through its owning block.
    fn update_inplace_row(&mut self, id: ID, row: Row)
        requires
            old(self).wf(),
            old(self)@.dom().contains(id as int),
        ensures
            final(self).wf(),
            final(self)@ == old(self)@.insert(id as int, row),
            final(self)@.dom() == old(self)@.dom(),
            final(self).total == old(self).total,
            final(self).data@.len() == old(self).data@.len(),
    {
        let k = (id / BLOCK_SIZE) as usize;
        proof {
            lemma_owner_range(id as int);
        }
        self.data[k].insert(&mut self.file, id, row);
        proof {
            let nb = self.data@.len() as int;
            let ki = k as int;
            assert forall|k2: int|
                0 <= k2 < nb && k2 != ki implies region_matches(
                #[trigger] self.data@[k2],
                self.file@,
            ) by {
                if k2 < ki {
                    vstd::arithmetic::mul::lemma_mul_inequality(k2 + 1, ki, REGION_BYTES as int);
                } else {
                    vstd::arithmetic::mul::lemma_mul_inequality(ki + 1, k2, REGION_BYTES as int);
                }
                block::lemma_region_match_preserved(self.data@[k2], old(self).file@, self.file@);
            }
            assert forall|x: int| 0 <= x < nb * (BLOCK_SIZE as int) implies 0 <= #[trigger] (x / (
            BLOCK_SIZE as int)) < nb && (x / (BLOCK_SIZE as int)) * (BLOCK_SIZE as int) <= x < (x
                / (BLOCK_SIZE as int)) * (BLOCK_SIZE as int) + (BLOCK_SIZE as int) by {
                lemma_route_bound(x, nb);
            }
            assert(self@ =~= old(self)@.insert(id as int, row));
            assert(self@.dom() =~= old(self)@.dom());
        }
    }

    /// Overwrite the row of `id` if it is present; report `NotFound`
    /// otherwise.  No other identifier's row changes.
    pub fn update_row(&mut self, id: ID, row: Row) -> (r: Result<(), DBError>)
        requires
            old(self).wf(),
        ensures
            final(self).wf(),
            old(self)@.dom().contains(id as int) ==> r == Ok::<(), DBError>(()) && final(self)@
                == old(self)@.insert(id as int, row),
            !old(self)@.dom().contains(id as int) ==> r == Err::<(), DBError>(
                DBError::IDNotInDatabase,
            ) && *final(self) == *old(self),
            final(self)@.dom() == old(self)@.dom(),
            forall|j: int|
                j != id && old(self)@.dom().contains(j) ==> final(self)@.dom().contains(j)
                    && final(self)@[j] == old(self)@[j],
    {
        if self.contains_id(id) {
            self.update_inplace_row(id, row);
            Ok(())
        } else {
            Err(DBError::IDNotInDatabase)
        }
    }

    /// Delete the row of `id` if it is present; report `NotFound`
    /// otherwise.  Deletion frees the identifier for later allocation.
    pub fn delete_row(&mut self, id: ID) -> (r: Result<(), DBError>)
        requires
            old(self).wf(),
        ensures
            final(self).wf(),
            old(self)@.dom().contains(id as int) ==> r == Ok::<(), DBError>(()) && final(self)@
                == old(self)@.remove(id as int) && final(self)@.dom().len() == old(
                self,
            )@.dom().len() - 1,
            !old(self)@.dom().contains(id as int) ==> r == Err::<(), DBError>(
                DBError::IDNotInDatabase,
            ) && *final(self) == *old(self),
    {
        if self.contains_id(id) {
            let k = (id / BLOCK_SIZE) as usize;
            proof {
                lemma_owner_range(id as int);
            }
            self.data[k].remove(&mut self.file, id);
            proof {
                let nb = self.data@.len() as int;
                let ki = k as int;
                assert forall|k2: int|
                    0 <= k2 < nb && k2 != ki implies region_matches(
                    #[trigger] self.data@[k2],
                    self.file@,
                ) by {
                    if k2 < ki {
                        vstd::arithmetic::mul::lemma_mul_inequality(
                            k2 + 1,
                            ki,
                            REGION_BYTES as int,
                        );
                    } else {
                        vstd::arithmetic::mul::lemma_mul_inequality(
                            ki + 1,
                            k2,
                            REGION_BYTES as int,
                        );
                    }
                    block::lemma_region_match_preserved(
                        self.data@[k2],
                        old(self).file@,
                        self.file@,
                    );
                }
                assert forall|x: int|
                    0 <= x < nb * (BLOCK_SIZE as int) implies 0 <= #[trigger] (x / (
                BLOCK_SIZE as int)) < nb && (x / (BLOCK_SIZE as int)) * (BLOCK_SIZE as int) <= x
                    < (x / (BLOCK_SIZE as int)) * (BLOCK_SIZE as int) + (BLOCK_SIZE as int) by {
                    lemma_route_bound(x, nb);
                }
                assert(self@ =~= old(self)@.remove(id as int));
                assert(self@.dom() =~= old(self)@.dom().remove(id as int));
                vstd::set::axiom_set_remove_len(old(self)@.dom(), id as int);
            }
            self.total -= 1;
            Ok(())
        } else {
            Err(DBError::IDNotInDatabase)
        }
    }

    /// Extend the store so that `size` more rows fit: when the rows
    /// present plus `size` cross the current block capacity, the image is
    /// lengthened and as many empty blocks as needed are appended.
    /// Otherwise nothing changes.
    fn grow(&mut self, size: usize)
        requires
            old(self).wf(),
            old(self).total + size <= (MAX_BLOCKS as int) * (BLOCK_SIZE as int),
        ensures
            final(self).wf(),
            final(self)@ == old(self)@,
            final(self).total == old(self).total,
            old(self).data@.len() <= final(self).data@.len(),
            final(self).data@.len() == (if blocks_for(old(self).total + size) > old(self).data@.len() {
                blocks_for(old(self).total + size)
            } else {
                old(self).data@.len() as int
            }),
            forall|k: int|
                0 <= k < old(self).data@.len() ==> final(self).data@[k] == old(self).data@[k],
            forall|k: int|
                old(self).data@.len() <= k < final(self).data@.len()
                    ==> (#[trigger] final(self).data@[k])@ == Map::<int, Row>::empty(),
    {
        let len = self.total;
        let nb = self.data.len();
        let mut new_block_count = (len + size) / (BLOCK_SIZE as usize);
        if (len + size) % (BLOCK_SIZE as usize) != 0 {
            new_block_count += 1;
        }
        proof {
            lemma_blocks_for_bounds(len + size);
        }
        if new_block_count > nb {
            let target = new_block_count * Block::get_block_size();
            while self.file.len() < target
                invariant
                    self.data@ == old(self).data@,
                    self.total == old(self).total,
                    nb == self.data@.len(),
                    nb < new_block_count <= MAX_BLOCKS,
                    target == new_block_count * (REGION_BYTES as int),
                    old(self).file@.len() <= self.file@.len() <= target,
                    old(self).file@.len() == nb * (REGION_BYTES as int),
                    forall|i: int|
                        0 <= i < old(self).file@.len() ==> self.file@[i] == old(self).file@[i],
                decreases target - self.file@.len(),
            {
                self.file.push(0);
            }
            proof {
                assert forall|k: int| 0 <= k < nb implies region_matches(
                    #[trigger] self.data@[k],
                    self.file@,
                ) by {
                    block::lemma_region_match_preserved(self.data@[k], old(self).file@, self.file@);
                }
            }
            let mut i = nb;
            while i < new_block_count
                invariant
                    nb <= i <= new_block_count,
                    new_block_count <= MAX_BLOCKS,
                    self.data@.len() == i,
                    self.total == old(self).total,
                    self.file@.len() == new_block_count * (REGION_BYTES as int),
                    forall|k: int| 0 <= k < i ==> (#[trigger] self.data@[k]).wf(),
                    forall|k: int|
                        0 <= k < i ==> (#[trigger] self.data@[k]).index_start == k * (
                        BLOCK_SIZE as int),
                    forall|k: int|
                        0 <= k < i ==> region_matches(#[trigger] self.data@[k], self.file@),
                    forall|k: int| 0 <= k < nb ==> self.data@[k] == old(self).data@[k],
                    forall|k: int|
                        nb <= k < i ==> (#[trigger] self.data@[k])@ == Map::<int, Row>::empty(),
                decreases new_block_count - i,
            {
                let start = (i as u32) * BLOCK_SIZE;
                proof {
                    lemma_owner(start as int, i as int);
                }
                let ghost fpre = self.file@;
                let b = Block::new(&mut self.file, start);
                proof {
                    assert forall|k: int| 0 <= k < i implies region_matches(
                        #[trigger] self.data@[k],
                        self.file@,
                    ) by {
                        block::lemma_region_match_preserved(self.data@[k], fpre, self.file@);
                    }
                }
                self.data.push(b);
                i += 1;
            }
            proof {
                let nb2 = self.data@.len() as int;
                assert forall|x: int|
                    0 <= x < nb2 * (BLOCK_SIZE as int) implies 0 <= #[trigger] (x / (
                BLOCK_SIZE as int)) < nb2 && (x / (BLOCK_SIZE as int)) * (BLOCK_SIZE as int) <= x
                    < (x / (BLOCK_SIZE as int)) * (BLOCK_SIZE as int) + (BLOCK_SIZE as int) by {
                    lemma_route_bound(x, nb2);
                }
                assert(self@ =~= old(self)@);
            }
        }
    }

    /// Find the lowest free identifier, growing the store by one block
    /// when every block is full, and return it with its block's index.
    /// The store's rows are unchanged.
    fn get_free_id(&mut self) -> (r: (ID, usize))
        requires
            old(self).wf(),
            old(self)@.dom().len() < (MAX_BLOCKS as int) * (BLOCK_SIZE as int),
        ensures
            final(self).wf(),
            final(self)@ == old(self)@,
            final(self).total == old(self).total,
            r.1 < final(self).data@.len(),
            r.0 as int / (BLOCK_SIZE as int) == r.1 as int,
            !final(self)@.dom().contains(r.0 as int),
            forall|j: int| 0 <= j < r.0 ==> final(self)@.dom().contains(j),
            final(self).data@.len() == (if old(self)@.dom().len() == old(self).data@.len() * (
            BLOCK_SIZE as int) {
                old(self).data@.len() + 1int
            } else {
                old(self).data@.len() as int
            }),
    {
        let nb = self.data.len();
        let mut i: usize = 0;
        while i < nb
            invariant
                *self == *old(self),
                self.wf(),
                self@.dom().len() < (MAX_BLOCKS as int) * (BLOCK_SIZE as int),
                nb == self.data@.len(),
                i <= nb,
                forall|k: int| 0 <= k < i ==> (#[trigger] self.data@[k]).count == BLOCK_SIZE,
            decreases nb - i,
        {
            if self.data[i].len() < BLOCK_SIZE as usize {
                let start = (i as u32) * BLOCK_SIZE;
                let mut j: u32 = 0;
                while j < BLOCK_SIZE
                    invariant
                        *self == *old(self),
                        self.wf(),
                        nb == self.data@.len(),
                        i < nb,
                        start as int == i * (BLOCK_SIZE as int),
                        j <= BLOCK_SIZE,
                        self.data@[i as int].count < BLOCK_SIZE,
                        forall|k: int|
                            0 <= k < i ==> (#[trigger] self.data@[k]).count == BLOCK_SIZE,
                        forall|t: int|
                            0 <= t < j ==> (#[trigger] self.data@[i as int].slots@[t]) is Some,
                    decreases BLOCK_SIZE - j,
                {
                    if !self.data[i].contains(start + j) {
                        proof {
                            let id = (start + j) as int;
                            let cap = nb * (BLOCK_SIZE as int);
                            lemma_owner(id, i as int);
                            assert forall|m: int| 0 <= m < id implies self@.dom().contains(m) by {
                                lemma_owner_range(m);
                                let km = m / (BLOCK_SIZE as int);
                                if m < i * (BLOCK_SIZE as int) {
                                    lemma_route_bound(m, i as int);
                                    block::lemma_count_full(
                                        self.data@[km].slots@,
                                        BLOCK_SIZE as int,
                                    );
                                } else {
                                    lemma_owner(m, i as int);
                                }
                            }
                            let full = vstd::set_lib::set_int_range(0, cap);
                            vstd::set_lib::lemma_int_range(0, cap);
                            assert(self@.dom().subset_of(full.remove(id)));
                            vstd::set::axiom_set_remove_len(full, id);
                            vstd::set_lib::lemma_len_subset(self@.dom(), full.remove(id));
                        }
                        return (start + j, i);
                    }
                    j += 1;
                }
                proof {
                    block::lemma_count_full(self.data@[i as int].slots@, BLOCK_SIZE as int);
                    assert(false);
                }
                return vstd::pervasive::unreached();
            }
            proof {
                block::lemma_count_bounds(self.data@[i as int].slots@, BLOCK_SIZE as int);
            }
            i += 1;
        }
        proof {
            assert forall|m: int| 0 <= m < nb * (BLOCK_SIZE as int) implies self@.dom().contains(
                m,
            ) by {
                lemma_route_bound(m, nb as int);
                let km = m / (BLOCK_SIZE as int);
                block::lemma_count_full(self.data@[km].slots@, BLOCK_SIZE as int);
            }
            assert(self@.dom() =~= vstd::set_lib::set_int_range(0, nb * (BLOCK_SIZE as int)));
            vstd::set_lib::lemma_int_range(0, nb * (BLOCK_SIZE as int));
        }
        self.grow(1);
        proof {
            vstd::arithmetic::div_mod::lemma_fundamental_div_mod_converse(
                nb * (BLOCK_SIZE as int) + 1,
                BLOCK_SIZE as int,
                nb as int,
                1,
            );
        }
        let id = (nb as u32) * BLOCK_SIZE;
        proof {
            lemma_owner(id as int, nb as int);
        }
        (id, nb)
    }

    /// Insert a row under a fresh identifier: the lowest one not in use,
    /// taken from the first block with room, or from a newly appended
    /// block when all blocks are full.
    pub fn insert(&mut self, row: Row) -> (id: ID)
        requires
            old(self).wf(),
            old(self)@.dom().len() < (MAX_BLOCKS as int) * (BLOCK_SIZE as int),
        ensures
            final(self).wf(),
            !old(self)@.dom().contains(id as int),
            forall|j: int| 0 <= j < id ==> old(self)@.dom().contains(j),
            final(self)@ == old(self)@.insert(id as int, row),
            final(self)@.dom().len() == old(self)@.dom().len() + 1,
            final(self).data@.len() == (if old(self)@.dom().len() == old(self).data@.len() * (
            BLOCK_SIZE as int) {
                old(self).data@.len() + 1int
            } else {
                old(self).data@.len() as int
            }),
    {
        let (id, k) = self.get_free_id();
        let ghost mid = *self;
        proof {
            lemma_owner_range(id as int);
        }
        self.data[k].insert(&mut self.file, id, row);
        proof {
            let nb = self.data@.len() as int;
            let ki = k as int;
            assert forall|k2: int|
                0 <= k2 < nb && k2 != ki implies region_matches(
                #[trigger] self.data@[k2],
                self.file@,
            ) by {
                block::lemma_region_match_preserved(self.data@[k2], mid.file@, self.file@);
            }
            assert forall|x: int| 0 <= x < nb * (BLOCK_SIZE as int) implies 0 <= #[trigger] (x / (
            BLOCK_SIZE as int)) < nb && (x / (BLOCK_SIZE as int)) * (BLOCK_SIZE as int) <= x < (x
                / (BLOCK_SIZE as int)) * (BLOCK_SIZE as int) + (BLOCK_SIZE as int) by {
                lemma_route_bound(x, nb);
            }
            assert(self@ =~= mid@.insert(id as int, row));
            assert(self@.dom() =~= mid@.dom().insert(id as int));
            vstd::set::axiom_set_insert_len(mid@.dom(), id as int);
        }
        self.total += 1;
        id
    }

    /// Total number of rows present in the store.
    pub fn len(&self) -> (n: usize)
        requires
            self.wf(),
        ensures
            n == self@.dom().len(),
    {
        self.total
    }
}

/// Law: the identifiers handed back by `from_rows` map back to the rows
/// supplied, position by position — the row stored under `ids[i]` is
/// `rows[i]`, so a lookup of `ids[i]` yields `rows[i]`.
pub proof fn lemma_create_preserves_rows(db: DB, ids: Seq<ID>, rows: Seq<Row>)
    requires
        ids.len() == rows.len(),
        forall|i: int| 0 <= i < rows.len() ==> #[trigger] ids[i] == i,
        forall|i: int|
            0 <= i < rows.len() ==> (#[trigger] db@.dom().contains(i)) && db@[i] == rows[i],
    ensures
        forall|i: int|
            0 <= i < rows.len() ==> db@.dom().contains(ids[i] as int) && db@[ids[i] as int]
                == rows[i],
{
    assert forall|i: int|
        0 <= i < rows.len() implies db@.dom().contains(ids[i] as int) && db@[ids[i] as int]
        == rows[i] by {
        assert(ids[i] == i);
        assert(db@.dom().contains(i) && db@[i] == rows[i]);
    }
}

/// Law: a freed identifier is never passed over by allocation — the next
/// identifier handed out is at most the freed one, never a fresh higher
/// one while a lower one is available.
pub proof fn lemma_freed_id_is_reused(m: Map<int, Row>, freed: ID, fresh: ID)
    requires
        !m.dom().contains(freed as int),
        !m.dom().contains(fresh as int),
        forall|j: int| 0 <= j < fresh ==> m.dom().contains(j),
    ensures
        fresh <= freed,
{
    if freed < fresh {
        assert(m.dom().contains(freed as int));
    }
}

/// Law of the block boundary: `4096·k` rows need exactly `k` blocks, and
/// `4096·k + r` rows with `0 < r < 4096` need `k + 1`.
pub proof fn lemma_block_boundary(k: int, r: int)
    requires
        0 <= k,
        0 <= r < (BLOCK_SIZE as int),
    ensures
        blocks_for(k * (BLOCK_SIZE as int)) == k,
        r > 0 ==> blocks_for(k * (BLOCK_SIZE as int) + r) == k + 1,
{
    let bs = BLOCK_SIZE as int;
    vstd::arithmetic::div_mod::lemma_fundamental_div_mod_converse(k * bs, bs, k, 0);
    if r > 0 {
        vstd::arithmetic::div_mod::lemma_fundamental_div_mod_converse(k * bs + r, bs, k, r);
    }
}

} // verus!

