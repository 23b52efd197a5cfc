//! One block of the store: 4096 consecutive identifiers, their in-memory
//! rows, and the byte layout of the block's region in the backing image.
//!
//! The region holds a 512-byte presence bitmap (bit `j` of byte `j / 8`,
//! least-significant bit first, records whether identifier
//! `index_start + j` is present) followed by 4096 four-byte row slots.
//! After every completed operation the bitmap agrees exactly with the
//! in-memory rows, and every present slot holds the row's encoding.

use vstd::prelude::*;

use crate::DBError;
use crate::Row;

verus! {

/// Number of identifiers owned by one block.
pub const BLOCK_SIZE: u32 = 4096;

/// Bytes in a block's presence bitmap: one bit per identifier.
pub const BITMAP_BYTES: usize = 512;

/// Bytes in one block region: the bitmap followed by 4096 four-byte slots.
pub const REGION_BYTES: usize = 16896;

/// Largest number of blocks a store addresses.  Keeps every byte offset of
/// the backing image within a 32-bit `usize`.
pub const MAX_BLOCKS: usize = 65536;

/// The contract every stored row type satisfies: a fixed encoded size and
/// a bidirectional conversion to and from exactly that many bytes.
pub trait Serialize: Sized {
    /// The fixed encoded length of every value of the type.
    spec fn spec_size() -> usize;

    /// The encoding of this value.
    spec fn spec_to_bytes(self) -> Seq<u8>;

    /// The value a byte sequence of the fixed length decodes to.
    spec fn spec_from_bytes(bytes: Seq<u8>) -> Self;

    /// The encoded length, as executable code.
    fn size_of() -> (n: usize)
        ensures
            n == Self::spec_size(),
    ;

    /// Encode this value into exactly `size_of()` bytes.
    fn to_bytes(&self) -> (b: Vec<u8>)
        ensures
            b@ == self.spec_to_bytes(),
            b@.len() == Self::spec_size(),
    ;

    /// Decode a value from exactly `size_of()` bytes.
    fn from_bytes(bytes: Vec<u8>) -> (r: Self)
        requires
            bytes@.len() == Self::spec_size(),
        ensures
            r == Self::spec_from_bytes(bytes@),
    ;

    /// Decoding an encoding reproduces the value.
    proof fn lemma_round_trip(self)
        ensures
            Self::spec_from_bytes(self.spec_to_bytes()) == self,
            self.spec_to_bytes().len() == Self::spec_size(),
    ;
}

/// First byte of the region of the block whose lowest identifier is
/// `id_start`.
pub open spec fn region_start_of(id_start: u32) -> int {
    (id_start as int / BLOCK_SIZE as int) * (REGION_BYTES as int)
}

/// Whether bit `i` (least-significant first) of `byte` is set.
pub open spec fn bit_test(byte: u8, i: u32) -> bool {
    (byte >> i) & 1u8 == 1u8
}

/// How many of the first `n` slots are occupied.
pub open spec fn count_present(s: Seq<Option<Row>>, n: int) -> int
    decreases n,
{
    if n <= 0 {
        0
    } else {
        count_present(s, n - 1) + (if s[n - 1] is Some {
            1int
        } else {
            0int
        })
    }
}

/// Occupancy counts agree on slot sequences that agree up to `n`.
pub proof fn lemma_count_agree(s1: Seq<Option<Row>>, s2: Seq<Option<Row>>, n: int)
    requires
        forall|k: int| 0 <= k < n ==> s1[k] == s2[k],
    ensures
        count_present(s1, n) == count_present(s2, n),
    decreases n,
{
    if n > 0 {
        lemma_count_agree(s1, s2, n - 1);
    }
}

/// Overwriting one slot changes the occupancy count by the difference
/// between the new and the old slot's occupancy.
pub proof fn lemma_count_update(s: Seq<Option<Row>>, j: int, v: Option<Row>, n: int)
    requires
        0 <= j < n <= s.len(),
    ensures
        count_present(s.update(j, v), n) == count_present(s, n) + (if v is Some {
            1int
        } else {
            0int
        }) - (if s[j] is Some {
            1int
        } else {
            0int
        }),
    decreases n,
{
    if j == n - 1 {
        lemma_count_agree(s.update(j, v), s, n - 1);
    } else {
        lemma_count_update(s, j, v, n - 1);
    }
}

/// The occupancy count of `n` slots lies between 0 and `n`.
pub proof fn lemma_count_bounds(s: Seq<Option<Row>>, n: int)
    requires
        0 <= n,
    ensures
        0 <= count_present(s, n) <= n,
    decreases n,
{
    if n > 0 {
        lemma_count_bounds(s, n - 1);
    }
}

/// Slots that are all empty have an occupancy count of zero.
pub proof fn lemma_count_none(s: Seq<Option<Row>>, n: int)
    requires
        forall|k: int| 0 <= k < n ==> !((#[trigger] s[k]) is Some),
    ensures
        count_present(s, n) == 0,
    decreases n,
{
    if n > 0 {
        lemma_count_none(s, n - 1);
    }
}

/// The first `n` slots are all occupied exactly when their count is `n`.
pub proof fn lemma_count_full(s: Seq<Option<Row>>, n: int)
    requires
        0 <= n,
    ensures
        count_present(s, n) == n <==> (forall|k: int| 0 <= k < n ==> (#[trigger] s[k]) is Some),
    decreases n,
{
    if n > 0 {
        lemma_count_full(s, n - 1);
        lemma_count_bounds(s, n - 1);
    }
}

/// One shard of the identifier space: the rows present in
/// `[index_start, index_start + 4096)`, slot `j` holding the row of
/// identifier `index_start + j`.
pub struct Block {
    /// Slot `j` holds the row of identifier `index_start + j`, if present.
    pub slots: Vec<Option<Row>>,
    /// Number of occupied slots.
    pub count: usize,
    /// Lowest identifier owned by this block; a multiple of 4096.
    pub index_start: u32,
}

impl View for Block {
    type V = Map<int, Row>;

    /// The rows of this block, keyed by absolute identifier.
    open spec fn view(&self) -> Map<int, Row> {
        Map::new(
            |id: int|
                self.index_start <= id < self.index_start + BLOCK_SIZE && self.slots@[id
                    - self.index_start] is Some,
            |id: int| self.slots@[id - self.index_start].unwrap(),
        )
    }
}

/// The block's region of the byte image mirrors its in-memory rows: each
/// presence bit is set exactly when the slot is occupied, and every
/// occupied slot's four bytes hold the row's encoding.
pub open spec fn region_matches(b: Block, disk: Seq<u8>) -> bool {
    let rs = b.region_start();
    &&& rs + REGION_BYTES <= disk.len()
    &&& forall|j: int|
        0 <= j < BLOCK_SIZE ==> bit_test(disk[rs + j / 8], (j % 8) as u32) == ((
        #[trigger] b.slots@[j]) is Some)
    &&& forall|j: int|
        0 <= j < BLOCK_SIZE && (#[trigger] b.slots@[j]) is Some ==> disk.subrange(
            rs + BITMAP_BYTES + 4 * j,
            rs + BITMAP_BYTES + 4 * j + 4,
        ) == b.slots@[j].unwrap().spec_to_bytes()
}

/// A block's region match depends only on the bytes of its own region:
/// rewriting other bytes of the image cannot break it.
pub proof fn lemma_region_match_preserved(b: Block, f1: Seq<u8>, f2: Seq<u8>)
    requires
        region_matches(b, f1),
        f1.len() <= f2.len(),
        forall|i: int| b.region_start() <= i < b.region_start() + REGION_BYTES ==> f1[i] == f2[i],
    ensures
        region_matches(b, f2),
{
    let rs = b.region_start();
    assert forall|j: int| 0 <= j < BLOCK_SIZE implies bit_test(f2[rs + j / 8], (j % 8) as u32) == ((
    #[trigger] b.slots@[j]) is Some) by {
        assert(rs <= rs + j / 8 < rs + REGION_BYTES);
        assert(f2[rs + j / 8] == f1[rs + j / 8]);
    }
    assert forall|j: int| 0 <= j < BLOCK_SIZE && (#[trigger] b.slots@[j]) is Some implies f2.subrange(
        rs + BITMAP_BYTES + 4 * j,
        rs + BITMAP_BYTES + 4 * j + 4,
    ) == b.slots@[j].unwrap().spec_to_bytes() by {
        let lo = rs + BITMAP_BYTES + 4 * j;
        assert forall|t: int| lo <= t < lo + 4 implies f2[t] == f1[t] by {
            assert(rs <= t < rs + REGION_BYTES);
        }
        assert(f2.subrange(lo, lo + 4) =~= f1.subrange(lo, lo + 4));
    }
}

/// The first `n` occupied slots, as a set of absolute identifiers.
pub open spec fn present_ids(b: Block, n: int) -> Set<int> {
    Set::new(
        |id: int| b.index_start <= id < b.index_start + n && b.slots@[id - b.index_start] is Some,
    )
}

/// The occupancy count of the first `n` slots is the number of present
/// identifiers among them.
proof fn lemma_count_card(b: Block, n: int)
    requires
        b.wf(),
        0 <= n <= BLOCK_SIZE,
    ensures
        present_ids(b, n).finite(),
        count_present(b.slots@, n) == present_ids(b, n).len(),
    decreases n,
{
    let s = present_ids(b, n);
    if n == 0 {
        assert(s =~= Set::<int>::empty());
    } else {
        lemma_count_card(b, n - 1);
        let s1 = present_ids(b, n - 1);
        let last = b.index_start + n - 1;
        if b.slots@[n - 1] is Some {
            assert(s =~= s1.insert(last));
        } else {
            assert(s =~= s1);
        }
    }
}

/// A block's occupancy count equals the number of rows it holds.
pub proof fn lemma_block_len_is_card(b: Block)
    requires
        b.wf(),
    ensures
        b@.dom().finite(),
        count_present(b.slots@, BLOCK_SIZE as int) == b@.dom().len(),
{
    lemma_count_card(b, BLOCK_SIZE as int);
    assert(b@.dom() =~= present_ids(b, BLOCK_SIZE as int));
}

/// Law: the image pins a block down.  Two well-formed blocks over the
/// same region of the same image hold exactly the same rows, so loading
/// a region recovers precisely the rows whose writes produced it.
pub proof fn lemma_region_determines_block(b1: Block, b2: Block, disk: Seq<u8>)
    requires
        b1.wf(),
        b2.wf(),
        b1.index_start == b2.index_start,
        region_matches(b1, disk),
        region_matches(b2, disk),
    ensures
        b1@ == b2@,
{
    assert forall|j: int| 0 <= j < BLOCK_SIZE implies b1.slots@[j] == b2.slots@[j] by {
        assert(b1.slots@[j] is Some == b2.slots@[j] is Some);
        if b1.slots@[j] is Some {
            let v1 = b1.slots@[j].unwrap();
            let v2 = b2.slots@[j].unwrap();
            assert(v1.spec_to_bytes() == v2.spec_to_bytes());
            v1.lemma_round_trip();
            v2.lemma_round_trip();
        }
    }
    assert(b1.slots@ =~= b2.slots@);
    assert(b1@ =~= b2@);
}

impl Block {
    /// Position of this block in the sequence of blocks.
    pub open spec fn block_index(self) -> int {
        self.index_start as int / BLOCK_SIZE as int
    }

    /// First byte of this block's region in the byte image.
    pub open spec fn region_start(self) -> int {
        self.block_index() * REGION_BYTES
    }

    /// The block's internal invariant: 4096 slots, an exact occupancy
    /// count, and an aligned starting identifier.
    pub open spec fn wf(self) -> bool {
        &&& self.slots@.len() == BLOCK_SIZE
        &&& self.count == count_present(self.slots@, BLOCK_SIZE as int)
        &&& self.index_start % BLOCK_SIZE == 0
        &&& self.block_index() < MAX_BLOCKS
    }

    /// Size of the presence bitmap in bytes.
    pub fn get_bitmap_size() -> (n: usize)
        ensures
            n == BITMAP_BYTES,
    {
        let mut bitmap_size: usize = (BLOCK_SIZE as usize) / 8;
        if BLOCK_SIZE % 8 != 0 {
            bitmap_size += 1;
        }
        bitmap_size
    }

    /// Size of one whole block region in bytes.
    pub fn get_block_size() -> (n: usize)
        ensures
            n == REGION_BYTES,
    {
        let bitmap_size: usize = Self::get_bitmap_size();
        bitmap_size + (BLOCK_SIZE as usize) * Row::size_of()
    }

    /// First byte of this block's region, as executable code.
    pub fn get_file_start(&self) -> (n: usize)
        requires
            self.block_index() < MAX_BLOCKS,
        ensures
            n == self.region_start(),
    {
        ((self.index_start / BLOCK_SIZE) as usize) * Self::get_block_size()
    }

    /// Whether `id` is present in this block.
    pub fn contains(&self, id: u32) -> (r: bool)
        requires
            self.wf(),
            self.index_start <= id < self.index_start + BLOCK_SIZE,
        ensures
            r == self@.dom().contains(id as int),
    {
        let off = (id - self.index_start) as usize;
        self.slots[off].is_some()
    }

    /// The row stored under `id`; the caller must have checked presence.
    pub fn get(&self, id: u32) -> (r: Row)
        requires
            self.wf(),
            self@.dom().contains(id as int),
        ensures
            r == self@[id as int],
    {
        let off = (id - self.index_start) as usize;
        self.slots[off].unwrap()
    }

    /// Recompute the bitmap byte covering the eight slots of `group`
    /// from the slots themselves, never by flipping a single bit.
    fn presence_byte(&self, group: usize) -> (b: u8)
        requires
            self.slots@.len() == BLOCK_SIZE,
            group < BITMAP_BYTES,
        ensures
            forall|i: int|
                0 <= i < 8 ==> bit_test(b, i as u32) == ((#[trigger] self.slots@[8 * group + i])
                    is Some),
    {
        let base = 8 * group;
        let b0: u8 = if self.slots[base].is_some() { 1 } else { 0 };
        let b1: u8 = if self.slots[base + 1].is_some() { 1 } else { 0 };
        let b2: u8 = if self.slots[base + 2].is_some() { 1 } else { 0 };
        let b3: u8 = if self.slots[base + 3].is_some() { 1 } else { 0 };
        let b4: u8 = if self.slots[base + 4].is_some() { 1 } else { 0 };
        let b5: u8 = if self.slots[base + 5].is_some() { 1 } else { 0 };
        let b6: u8 = if self.slots[base + 6].is_some() { 1 } else { 0 };
        let b7: u8 = if self.slots[base + 7].is_some() { 1 } else { 0 };
        let b: u8 = b0 | (b1 << 1u32) | (b2 << 2u32) | (b3 << 3u32) | (b4 << 4u32) | (b5 << 5u32)
            | (b6 << 6u32) | (b7 << 7u32);
        proof {
            assert((bit_test(b, 0) == (b0 == 1)) && (bit_test(b, 1) == (b1 == 1)) && (bit_test(
                b,
                2,
            ) == (b2 == 1)) && (bit_test(b, 3) == (b3 == 1)) && (bit_test(b, 4) == (b4 == 1)) && (
            bit_test(b, 5) == (b5 == 1)) && (bit_test(b, 6) == (b6 == 1)) && (bit_test(b, 7) == (b7
                == 1))) by (bit_vector)
                requires
                    b == b0 | (b1 << 1u32) | (b2 << 2u32) | (b3 << 3u32) | (b4 << 4u32) | (b5
                        << 5u32) | (b6 << 6u32) | (b7 << 7u32),
                    b0 <= 1,
                    b1 <= 1,
                    b2 <= 1,
                    b3 <= 1,
                    b4 <= 1,
                    b5 <= 1,
                    b6 <= 1,
                    b7 <= 1,
            ;
        }
        b
    }

    /// Insert or overwrite the row of `id` and mirror the change into the
    /// byte image: the bitmap byte covering `id`'s group of eight
    /// identifiers is recomputed from the slots and rewritten, then the
    /// row's encoding is written to its slot.
    pub fn insert(&mut self, file: &mut Vec<u8>, id: u32, data: Row)
        requires
            old(self).wf(),
            region_matches(*old(self), old(file)@),
            old(self).index_start <= id < old(self).index_start + BLOCK_SIZE,
        ensures
            final(self).wf(),
            final(self).index_start == old(self).index_start,
            final(self)@ == old(self)@.insert(id as int, data),
            final(self).count == old(self).count + (if old(self)@.dom().contains(id as int) {
                0int
            } else {
                1int
            }),
            region_matches(*final(self), final(file)@),
            final(file)@.len() == old(file)@.len(),
            forall|i: int|
                0 <= i < old(file)@.len() && !(old(self).region_start() <= i < old(
                    self,
                ).region_start() + REGION_BYTES) ==> final(file)@[i] == old(file)@[i],
    {
        let off = (id - self.index_start) as usize;
        let was_present = self.slots[off].is_some();
        self.slots[off] = Some(data);
        if !was_present {
            proof {
                lemma_count_bounds(old(self).slots@, BLOCK_SIZE as int);
                lemma_count_full(old(self).slots@, BLOCK_SIZE as int);
            }
            self.count += 1;
        }
        proof {
            lemma_count_update(old(self).slots@, off as int, Some(data), BLOCK_SIZE as int);
        }
        let fs = self.get_file_start();
        let group = off / 8;
        file[fs + group] = self.presence_byte(group);
        let bytes = data.to_bytes();
        let slot_pos = fs + Self::get_bitmap_size() + Row::size_of() * off;
        file[slot_pos] = bytes[0];
        file[slot_pos + 1] = bytes[1];
        file[slot_pos + 2] = bytes[2];
        file[slot_pos + 3] = bytes[3];
        proof {
            let rs = self.region_start();
            assert(self@ =~= old(self)@.insert(id as int, data));
            assert forall|j: int|
                0 <= j < BLOCK_SIZE implies bit_test(file@[rs + j / 8], (j % 8) as u32) == ((
            #[trigger] self.slots@[j]) is Some) by {
                assert(0 <= j / 8 < BITMAP_BYTES);
                if j / 8 == group {
                    assert(8 * (group as int) + (j % 8) == j);
                } else {
                    assert(file@[rs + j / 8] == old(file)@[rs + j / 8]);
                    assert(self.slots@[j] == old(self).slots@[j]);
                }
            }
            assert forall|j: int|
                0 <= j < BLOCK_SIZE && (#[trigger] self.slots@[j]) is Some implies file@.subrange(
                rs + BITMAP_BYTES + 4 * j,
                rs + BITMAP_BYTES + 4 * j + 4,
            ) == self.slots@[j].unwrap().spec_to_bytes() by {
                let lo = rs + BITMAP_BYTES + 4 * j;
                if j == off {
                    assert(file@.subrange(lo, lo + 4) =~= bytes@);
                } else {
                    assert forall|t: int| lo <= t < lo + 4 implies file@[t] == old(file)@[t] by {}
                    assert(file@.subrange(lo, lo + 4) =~= old(file)@.subrange(lo, lo + 4));
                    assert(self.slots@[j] == old(self).slots@[j]);
                }
            }
        }
    }

    /// Remove the row of `id`, if present, and rewrite the bitmap byte of
    /// `id`'s group, recomputed from the slots.  The row slot's bytes are
    /// left as they are: the bitmap alone governs presence.
    pub fn remove(&mut self, file: &mut Vec<u8>, id: u32)
        requires
            old(self).wf(),
            region_matches(*old(self), old(file)@),
            old(self).index_start <= id < old(self).index_start + BLOCK_SIZE,
        ensures
            final(self).wf(),
            final(self).index_start == old(self).index_start,
            final(self)@ == old(self)@.remove(id as int),
            final(self).count == old(self).count - (if old(self)@.dom().contains(id as int) {
                1int
            } else {
                0int
            }),
            region_matches(*final(self), final(file)@),
            final(file)@.len() == old(file)@.len(),
            forall|i: int|
                0 <= i < old(file)@.len() && !(old(self).region_start() <= i < old(
                    self,
                ).region_start() + REGION_BYTES) ==> final(file)@[i] == old(file)@[i],
    {
        let off = (id - self.index_start) as usize;
        let was_present = self.slots[off].is_some();
        self.slots[off] = None;
        proof {
            lemma_count_update(old(self).slots@, off as int, None, BLOCK_SIZE as int);
            lemma_count_bounds(self.slots@, BLOCK_SIZE as int);
        }
        if was_present {
            self.count -= 1;
        }
        let fs = self.get_file_start();
        let group = off / 8;
        file[fs + group] = self.presence_byte(group);
        proof {
            let rs = self.region_start();
            assert(self@ =~= old(self)@.remove(id as int));
            assert forall|j: int|
                0 <= j < BLOCK_SIZE implies bit_test(file@[rs + j / 8], (j % 8) as u32) == ((
            #[trigger] self.slots@[j]) is Some) by {
                assert(0 <= j / 8 < BITMAP_BYTES);
                if j / 8 == group {
                    assert(8 * (group as int) + (j % 8) == j);
                } else {
                    assert(file@[rs + j / 8] == old(file)@[rs + j / 8]);
                    assert(self.slots@[j] == old(self).slots@[j]);
                }
            }
            assert forall|j: int|
                0 <= j < BLOCK_SIZE && (#[trigger] self.slots@[j]) is Some implies file@.subrange(
                rs + BITMAP_BYTES + 4 * j,
                rs + BITMAP_BYTES + 4 * j + 4,
            ) == self.slots@[j].unwrap().spec_to_bytes() by {
                let lo = rs + BITMAP_BYTES + 4 * j;
                assert forall|t: int| lo <= t < lo + 4 implies file@[t] == old(file)@[t] by {}
                assert(file@.subrange(lo, lo + 4) =~= old(file)@.subrange(lo, lo + 4));
                assert(self.slots@[j] == old(self).slots@[j]);
            }
        }
    }

    /// Create the empty block owning `[id_start, id_start + 4096)` and
    /// zero its bitmap region.  The caller has already sized the image to
    /// hold the whole region; the row slots are left as they are.
    pub fn new(file: &mut Vec<u8>, id_start: u32) -> (b: Block)
        requires
            id_start % BLOCK_SIZE == 0,
            (id_start as int) / (BLOCK_SIZE as int) < MAX_BLOCKS,
            region_start_of(id_start) + REGION_BYTES <= old(file)@.len(),
        ensures
            b.wf(),
            b.index_start == id_start,
            b.count == 0,
            b@ == Map::<int, Row>::empty(),
            region_matches(b, final(file)@),
            final(file)@.len() == old(file)@.len(),
            forall|i: int|
                0 <= i < old(file)@.len() && !(b.region_start() <= i < b.region_start()
                    + BITMAP_BYTES) ==> final(file)@[i] == old(file)@[i],
    {
        let k = (id_start / BLOCK_SIZE) as usize;
        let fs = k * Self::get_block_size();
        let mut slots: Vec<Option<Row>> = Vec::new();
        let mut j: usize = 0;
        while j < BLOCK_SIZE as usize
            invariant
                j <= BLOCK_SIZE,
                slots@.len() == j,
                forall|t: int| 0 <= t < j ==> !((#[trigger] slots@[t]) is Some),
            decreases BLOCK_SIZE - j,
        {
            slots.push(None);
            j += 1;
        }
        let mut t: usize = 0;
        while t < BITMAP_BYTES
            invariant
                t <= BITMAP_BYTES,
                fs == (id_start as int / BLOCK_SIZE as int) * REGION_BYTES,
                fs + REGION_BYTES <= file@.len(),
                file@.len() == old(file)@.len(),
                forall|i: int| fs <= i < fs + t ==> file@[i] == 0,
                forall|i: int|
                    0 <= i < file@.len() && !(fs <= i < fs + BITMAP_BYTES) ==> file@[i] == old(
                        file,
                    )@[i],
            decreases BITMAP_BYTES - t,
        {
            file[fs + t] = 0;
            t += 1;
        }
        let b = Block { slots, count: 0, index_start: id_start };
        proof {
            lemma_count_none(b.slots@, BLOCK_SIZE as int);
            assert(b@ =~= Map::<int, Row>::empty());
            assert forall|i: u32| true implies !bit_test(0u8, i) by {
                assert(((0u8 >> i) & 1u8) != 1u8) by (bit_vector);
            }
            assert forall|j2: int|
                0 <= j2 < BLOCK_SIZE implies bit_test(file@[b.region_start() + j2 / 8], (j2
                % 8) as u32) == ((#[trigger] b.slots@[j2]) is Some) by {
                assert(0 <= j2 / 8 < BITMAP_BYTES);
                assert(file@[b.region_start() + j2 / 8] == 0);
            }
        }
        b
    }

    /// Rebuild the block owning `[id_start, id_start + 4096)` from its
    /// region of the byte image: every identifier whose presence bit is
    /// set gets its slot's four bytes decoded into a row.  An image too
    /// short to hold the whole region is reported as corruption.
    pub fn load_from_disk(file: &Vec<u8>, id_start: u32) -> (r: Result<Block, DBError>)
        requires
            id_start % BLOCK_SIZE == 0,
            (id_start as int) / (BLOCK_SIZE as int) < MAX_BLOCKS,
        ensures
            match r {
                Ok(b) => {
                    &&& b.wf()
                    &&& b.index_start == id_start
                    &&& region_matches(b, file@)
                    &&& forall|j: int|
                        0 <= j < BLOCK_SIZE && (#[trigger] b.slots@[j]) is Some
                            ==> b.slots@[j].unwrap() == Row::spec_from_bytes(
                            file@.subrange(
                                b.region_start() + BITMAP_BYTES + 4 * j,
                                b.region_start() + BITMAP_BYTES + 4 * j + 4,
                            ),
                        )
                },
                Err(e) => {
                    &&& e == DBError::Corruption
                    &&& file@.len() < region_start_of(id_start) + REGION_BYTES
                },
            },
    {
        let k = (id_start / BLOCK_SIZE) as usize;
        let fs = k * Self::get_block_size();
        let flen = file.len();
        if flen < fs + Self::get_block_size() {
            return Err(DBError::Corruption);
        }
        let bitmap_size = Self::get_bitmap_size();
        let row_size = Row::size_of();
        let mut slots: Vec<Option<Row>> = Vec::new();
        let mut count: usize = 0;
        let mut j: usize = 0;
        while j < BLOCK_SIZE as usize
            invariant
                flen == file@.len(),
                j <= BLOCK_SIZE,
                slots@.len() == j,
                count == count_present(slots@, j as int),
                count <= j,
                bitmap_size == BITMAP_BYTES,
                row_size == 4,
                fs == (id_start as int / BLOCK_SIZE as int) * REGION_BYTES,
                fs + REGION_BYTES <= file@.len(),
                forall|t: int|
                    0 <= t < j ==> (((#[trigger] slots@[t]) is Some) == bit_test(
                        file@[fs + t / 8],
                        (t % 8) as u32,
                    )),
                forall|t: int|
                    0 <= t < j && (#[trigger] slots@[t]) is Some ==> slots@[t].unwrap()
                        == Row::spec_from_bytes(
                        file@.subrange(fs + BITMAP_BYTES + 4 * t, fs + BITMAP_BYTES + 4 * t + 4),
                    ),
            decreases BLOCK_SIZE - j,
        {
            let ghost prev = slots@;
            let byte = file[fs + j / 8];
            let sh = (j % 8) as u32;
            let present = ((byte >> sh) & 1u8) == 1u8;
            if present {
                let lo = fs + bitmap_size + row_size * j;
                let mut bs: Vec<u8> = Vec::new();
                bs.push(file[lo]);
                bs.push(file[lo + 1]);
                bs.push(file[lo + 2]);
                bs.push(file[lo + 3]);
                proof {
                    assert(bs@ =~= file@.subrange(lo as int, lo as int + 4));
                }
                let row = Row::from_bytes(bs);
                slots.push(Some(row));
                count += 1;
            } else {
                slots.push(None);
            }
            proof {
                lemma_count_agree(slots@, prev, j as int);
            }
            j += 1;
        }
        let b = Block { slots, count, index_start: id_start };
        proof {
            vstd::bytes::lemma_auto_spec_u32_to_from_le_bytes();
            assert forall|j2: int|
                0 <= j2 < BLOCK_SIZE && (#[trigger] b.slots@[j2]) is Some implies file@.subrange(
                b.region_start() + BITMAP_BYTES + 4 * j2,
                b.region_start() + BITMAP_BYTES + 4 * j2 + 4,
            ) == b.slots@[j2].unwrap().spec_to_bytes() by {
                let s = file@.subrange(fs as int + BITMAP_BYTES + 4 * j2, fs as int + BITMAP_BYTES + 4 * j2 + 4);
                assert(s.len() == 4);
                assert(b.slots@[j2].unwrap() == Row::spec_from_bytes(s));
            }
        }
        Ok(b)
    }

    /// Number of identifiers present in this block.
    pub fn len(&self) -> (n: usize)
        requires
            self.wf(),
        ensures
            n == count_present(self.slots@, BLOCK_SIZE as int),
            n == self@.dom().len(),
    {
        proof {
            lemma_block_len_is_card(*self);
        }
        self.count
    }
}

} // verus!
