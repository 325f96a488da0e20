use vstd::prelude::*;
use crate::blockstate::BlockState;

verus! {

/// Declares `nbt::Value`, the NBT tag type of the nbt crate, so that block entities
/// can carry their extra tags through unread; nothing about its contents is assumed.
#[verifier::external_type_specification]
#[verifier::external_body]
pub struct ExValue(nbt::Value);

/// A block position.
#[derive(Debug, Clone, Copy, PartialEq, Eq, Structural, Hash)]
pub struct Pos {
    pub x: i64,
    pub y: i64,
    pub z: i64,
}

/// The world-edit offsets of the container, kept as they were read.
#[derive(Debug, Clone, Copy, PartialEq, Eq, Structural)]
pub struct Metadata {
    pub offset_x: i32,
    pub offset_y: i32,
    pub offset_z: i32,
}

/// Data attached to a block, carried through unread.
pub struct BlockEntity {
    pub id: String,
    pub props: Vec<(String, nbt::Value)>,
}

/// A block given by unsigned coordinates and a one-byte data value.
#[derive(Debug, Clone, Copy, PartialEq, Eq, Structural)]
pub struct Block {
    pub x: usize,
    pub y: usize,
    pub z: usize,
    pub data: u8,
}

pub open spec fn in_i32(v: i64) -> bool {
    -0x8000_0000 <= v < 0x8000_0000
}

pub open spec fn pos_in_range(p: Pos) -> bool {
    in_i32(p.x) && in_i32(p.y) && in_i32(p.z)
}

/// The positions of `bs`, in order.
pub open spec fn positions(bs: Seq<(Pos, BlockState)>) -> Seq<Pos> {
    bs.map_values(|e: (Pos, BlockState)| e.0)
}

/// Each position occurs at most once in `ps`.
pub open spec fn distinct(ps: Seq<Pos>) -> bool {
    forall|i: int, j: int| 0 <= i < j < ps.len() ==> ps[i] != ps[j]
}

/// A grid of blocks: the occupied positions and their block states, the block
/// entities, and the fields of the container that are passed through.
pub struct Schematic {
    pub original_width: usize,
    pub original_length: usize,
    pub original_height: usize,
    pub original_offset: [i32; 3],
    pub original_data_version: i32,
    pub original_metadata: Metadata,
    pub blocks: Vec<(Pos, BlockState)>,
    pub block_entities: Vec<(Pos, BlockEntity)>,
}

pub open spec fn axis(p: Pos, a: int) -> int {
    if a == 0 {
        p.x as int
    } else if a == 1 {
        p.y as int
    } else {
        p.z as int
    }
}

/// The least coordinate on axis `a` among the non-empty `ps`.
pub open spec fn lowest(ps: Seq<Pos>, a: int) -> int
    decreases ps.len(),
{
    if ps.len() <= 1 {
        axis(ps[0], a)
    } else {
        let m = lowest(ps.drop_last(), a);
        if axis(ps.last(), a) < m {
            axis(ps.last(), a)
        } else {
            m
        }
    }
}

/// The greatest coordinate on axis `a` among the non-empty `ps`.
pub open spec fn highest(ps: Seq<Pos>, a: int) -> int
    decreases ps.len(),
{
    if ps.len() <= 1 {
        axis(ps[0], a)
    } else {
        let m = highest(ps.drop_last(), a);
        if axis(ps.last(), a) > m {
            axis(ps.last(), a)
        } else {
            m
        }
    }
}

/// The lower corner of the bounding box on axis `a`: 0 for an empty grid.
pub open spec fn box_min(ps: Seq<Pos>, a: int) -> int {
    if ps.len() == 0 {
        0
    } else {
        lowest(ps, a)
    }
}

/// The exclusive upper corner of the bounding box on axis `a`: 0 for an empty grid.
pub open spec fn box_max(ps: Seq<Pos>, a: int) -> int {
    if ps.len() == 0 {
        0
    } else {
        highest(ps, a) + 1
    }
}

pub proof fn lemma_bounds(ps: Seq<Pos>, a: int)
    requires
        ps.len() > 0,
    ensures
        forall|i: int| 0 <= i < ps.len() ==> lowest(ps, a) <= #[trigger] axis(ps[i], a) <= highest(ps, a),
        exists|i: int| 0 <= i < ps.len() && lowest(ps, a) == axis(ps[i], a),
        exists|i: int| 0 <= i < ps.len() && highest(ps, a) == axis(ps[i], a),
    decreases ps.len(),
{
    if ps.len() > 1 {
        let init = ps.drop_last();
        lemma_bounds(init, a);
        assert forall|i: int| 0 <= i < ps.len() implies lowest(ps, a) <= #[trigger] axis(ps[i], a) <= highest(ps, a) by {
            if i < ps.len() - 1 {
                assert(ps[i] == init[i]);
            }
        }
        let i1 = choose|i: int| 0 <= i < init.len() && lowest(init, a) == axis(init[i], a);
        let i2 = choose|i: int| 0 <= i < init.len() && highest(init, a) == axis(init[i], a);
        assert(ps[i1] == init[i1]);
        assert(ps[i2] == init[i2]);
        assert(ps[ps.len() - 1] == ps.last());
    } else {
        assert(axis(ps[0], a) == lowest(ps, a));
    }
}

fn coord(p: &Pos, a: usize) -> (r: i64)
    requires
        a < 3,
    ensures
        r == axis(*p, a as int),
{
    if a == 0 {
        p.x
    } else if a == 1 {
        p.y
    } else {
        p.z
    }
}

impl Schematic {
    pub open spec fn spec_blocks(&self) -> Seq<(Pos, BlockState)> {
        self.blocks@
    }

    pub open spec fn spec_entities(&self) -> Seq<(Pos, BlockEntity)> {
        self.block_entities@
    }

    /// Each position holds at most one block, and every coordinate fits the 32-bit
    /// integers of the container format.
    pub open spec fn wf(&self) -> bool {
        &&& distinct(positions(self.spec_blocks()))
        &&& forall|i: int|
            0 <= i < self.spec_entities().len() ==> pos_in_range(#[trigger] self.spec_entities()[i].0)
        &&& forall|i: int|
            0 <= i < self.spec_blocks().len() ==> pos_in_range(#[trigger] self.spec_blocks()[i].0)
    }

    pub open spec fn spec_min(&self, a: int) -> int {
        box_min(positions(self.spec_blocks()), a)
    }

    pub open spec fn spec_max(&self, a: int) -> int {
        box_max(positions(self.spec_blocks()), a)
    }

    /// Whether every position holds at most one block and every coordinate fits
    /// 32 bits.
    pub fn is_well_formed(&self) -> (r: bool)
        ensures
            r == self.wf(),
    {
        let n = self.blocks.len();
        let mut i: usize = 0;
        while i < n
            invariant
                n == self.blocks@.len(),
                i <= n,
                forall|a: int, b: int| 0 <= a < b < n && a < i ==> positions(self.blocks@)[a] != positions(self.blocks@)[b],
                forall|a: int| 0 <= a < i ==> pos_in_range(#[trigger] self.blocks@[a].0),
            decreases n - i,
        {
            let p = self.blocks[i].0;
            if !(-0x8000_0000 <= p.x && p.x < 0x8000_0000 && -0x8000_0000 <= p.y && p.y < 0x8000_0000
                && -0x8000_0000 <= p.z && p.z < 0x8000_0000) {
                assert(!pos_in_range(self.spec_blocks()[i as int].0));
                return false;
            }
            let mut j: usize = i + 1;
            while j < n
                invariant
                    n == self.blocks@.len(),
                    i < j <= n,
                    p == self.blocks@[i as int].0,
                    forall|b: int| i < b < j ==> positions(self.blocks@)[i as int] != positions(self.blocks@)[b],
                decreases n - j,
            {
                if self.blocks[j].0 == p {
                    assert(positions(self.blocks@)[i as int] == positions(self.blocks@)[j as int]);
                    return false;
                }
                j = j + 1;
            }
            i = i + 1;
        }
        let m = self.block_entities.len();
        let mut k: usize = 0;
        while k < m
            invariant
                m == self.block_entities@.len(),
                k <= m,
                forall|a: int| 0 <= a < k ==> pos_in_range(#[trigger] self.block_entities@[a].0),
            decreases m - k,
        {
            let p = self.block_entities[k].0;
            if !(-0x8000_0000 <= p.x && p.x < 0x8000_0000 && -0x8000_0000 <= p.y && p.y < 0x8000_0000
                && -0x8000_0000 <= p.z && p.z < 0x8000_0000) {
                assert(!pos_in_range(self.spec_entities()[k as int].0));
                return false;
            }
            k = k + 1;
        }
        true
    }

    /// An empty grid with zeroed container fields.
    pub fn new() -> (r: Schematic)
        ensures
            r.wf(),
            r.spec_blocks().len() == 0,
            r.spec_entities().len() == 0,
    {
        Schematic {
            original_width: 0,
            original_length: 0,
            original_height: 0,
            original_offset: [0, 0, 0],
            original_data_version: 0,
            original_metadata: Metadata { offset_x: 0, offset_y: 0, offset_z: 0 },
            blocks: Vec::new(),
            block_entities: Vec::new(),
        }
    }

    /// The index of the block at `p`, if `p` is occupied.
    pub fn index_of_pos(&self, p: Pos) -> (r: Option<usize>)
        ensures
            r matches Some(i) ==> i < self.spec_blocks().len() && self.spec_blocks()[i as int].0 == p,
            r is None ==> forall|i: int| 0 <= i < self.spec_blocks().len() ==> (#[trigger] self.spec_blocks()[i]).0 != p,
    {
        let mut i: usize = 0;
        while i < self.blocks.len()
            invariant
                i <= self.blocks@.len(),
                forall|k: int| 0 <= k < i ==> (#[trigger] self.blocks@[k]).0 != p,
            decreases self.blocks@.len() - i,
        {
            if self.blocks[i].0 == p {
                return Some(i);
            }
            i = i + 1;
        }
        None
    }

    /// The block state at `p`, if `p` is occupied.
    pub fn block_at(&self, p: Pos) -> (r: Option<&BlockState>)
        ensures
            r matches Some(b) ==> exists|i: int| 0 <= i < self.spec_blocks().len() && self.spec_blocks()[i] == (p, *b),
            r is None ==> forall|i: int| 0 <= i < self.spec_blocks().len() ==> (#[trigger] self.spec_blocks()[i]).0 != p,
    {
        match self.index_of_pos(p) {
            Some(i) => Some(&self.blocks[i].1),
            None => None,
        }
    }

    /// Puts `state` at `p`, over the block that was there, if any.
    pub fn set_block(&mut self, p: Pos, state: BlockState)
        requires
            old(self).wf(),
            pos_in_range(p),
        ensures
            final(self).wf(),
            forall|i: int|
                0 <= i < old(self).spec_blocks().len() && (#[trigger] old(self).spec_blocks()[i]).0 == p
                    ==> final(self).spec_blocks() == old(self).spec_blocks().update(i, (p, state)),
            (forall|i: int|
                0 <= i < old(self).spec_blocks().len() ==> (#[trigger] old(self).spec_blocks()[i]).0 != p)
                ==> final(self).spec_blocks() == old(self).spec_blocks().push((p, state)),
            final(self).spec_entities() == old(self).spec_entities(),
    {
        proof {
            assert(self.wf());
        }
        match self.index_of_pos(p) {
            Some(i) => {
                let ghost before = self.blocks@;
                proof {
                    assert(distinct(positions(before)));
                    assert forall|k: int| 0 <= k < before.len() && (#[trigger] before[k]).0 == p implies k == i by {
                        assert(positions(before)[k] == before[k].0);
                        assert(positions(before)[i as int] == before[i as int].0);
                    }
                }
                self.blocks.set(i, (p, state));
                proof {
                    assert(positions(self.blocks@) =~= positions(before));
                    assert forall|j: int| 0 <= j < self.spec_blocks().len() implies pos_in_range(#[trigger] self.spec_blocks()[j].0) by {
                        if j != i {
                            assert(self.spec_blocks()[j] == before[j]);
                        }
                    }
                    assert(self.spec_entities() == old(self).spec_entities());
                    assert(forall|j: int| 0 <= j < old(self).spec_entities().len() ==> pos_in_range(#[trigger] old(self).spec_entities()[j].0));
                }
            },
            None => {
                let ghost before = self.blocks@;
                self.blocks.push((p, state));
                proof {
                    assert(positions(self.blocks@) =~= positions(before).push(p));
                    assert forall|a: int, b: int| 0 <= a < b < positions(self.blocks@).len() implies positions(self.blocks@)[a] != positions(self.blocks@)[b] by {
                        if b == before.len() {
                            assert(before[a].0 == positions(before)[a]);
                        } else {
                            assert(positions(self.blocks@)[a] == positions(before)[a]);
                            assert(positions(self.blocks@)[b] == positions(before)[b]);
                        }
                    }
                    assert forall|i: int| 0 <= i < self.spec_blocks().len() implies pos_in_range(#[trigger] self.spec_blocks()[i].0) by {
                        if i < before.len() {
                            assert(self.spec_blocks()[i] == before[i]);
                        }
                    }
                }
            },
        }
    }

    /// The occupied positions and their block states.
    pub fn blocks(&self) -> (r: &Vec<(Pos, BlockState)>)
        ensures
            r@ == self.spec_blocks(),
    {
        &self.blocks
    }

    /// Gives the block at each position a new state, `states[i]` for the `i`-th
    /// occupied position; the positions and every other field stay.
    pub fn replace_states(&mut self, states: Vec<BlockState>)
        requires
            states@.len() == old(self).spec_blocks().len(),
        ensures
            final(self).spec_blocks().len() == states@.len(),
            forall|i: int|
                0 <= i < states@.len() ==> (#[trigger] final(self).spec_blocks()[i]) == (
                old(self).spec_blocks()[i].0,
                states@[i],
            ),
            final(self).spec_entities() == old(self).spec_entities(),
            final(self).original_width == old(self).original_width,
            final(self).original_length == old(self).original_length,
            final(self).original_height == old(self).original_height,
            final(self).original_offset == old(self).original_offset,
            final(self).original_data_version == old(self).original_data_version,
            final(self).original_metadata == old(self).original_metadata,
            old(self).wf() ==> final(self).wf(),
    {
        let mut blocks: Vec<(Pos, BlockState)> = Vec::new();
        let mut states = states;
        let n = states.len();
        let ghost st = states@;
        while states.len() > 0
            invariant
                n == st.len() == self.blocks@.len(),
                blocks@.len() + states@.len() == n,
                states@ == st.subrange(blocks@.len() as int, n as int),
                forall|i: int| 0 <= i < blocks@.len() ==> (#[trigger] blocks@[i]) == (self.blocks@[i].0, st[i]),
            decreases states@.len(),
        {
            let k = blocks.len();
            let b = states.remove(0);
            let p = self.blocks[k].0;
            blocks.push((p, b));
            proof {
                assert(states@ =~= st.subrange(blocks@.len() as int, n as int));
            }
        }
        let ghost old_blocks = self.blocks@;
        self.blocks = blocks;
        proof {
            assert(positions(self.blocks@) =~= positions(old_blocks));
            assert(self.spec_entities() == old(self).spec_entities());
            if old(self).wf() {
                assert forall|i: int| 0 <= i < self.spec_blocks().len() implies pos_in_range(#[trigger] self.spec_blocks()[i].0) by {
                    assert(self.spec_blocks()[i].0 == positions(self.blocks@)[i]);
                    assert(old_blocks[i].0 == positions(old_blocks)[i]);
                }
            }
        }
    }

    /// The lower corner of the bounding box on axis `a` (0, 1, 2 for x, y, z).
    fn min_on(&self, a: usize) -> (r: i64)
        requires
            self.wf(),
            a < 3,
        ensures
            r == self.spec_min(a as int),
            in_i32(r),
    {
        let ghost ps = positions(self.blocks@);
        if self.blocks.len() == 0 {
            return 0;
        }
        let mut m: i64 = coord(&self.blocks[0].0, a);
        let mut i: usize = 1;
        proof {
            assert(ps.take(1).len() == 1);
            assert(ps.take(1)[0] == ps[0]);
        }
        while i < self.blocks.len()
            invariant
                self.wf(),
                a < 3,
                ps == positions(self.blocks@),
                1 <= i <= ps.len(),
                m == lowest(ps.take(i as int), a as int),
                in_i32(m),
            decreases ps.len() - i,
        {
            let c = coord(&self.blocks[i].0, a);
            proof {
                assert(ps.take(i + 1).drop_last() =~= ps.take(i as int));
                assert(ps.take(i + 1).last() == ps[i as int]);
                assert(pos_in_range(self.spec_blocks()[i as int].0));
            }
            if c < m {
                m = c;
            }
            i = i + 1;
        }
        proof {
            assert(ps.take(i as int) =~= ps);
        }
        m
    }

    /// The exclusive upper corner of the bounding box on axis `a`.
    fn max_on(&self, a: usize) -> (r: i64)
        requires
            self.wf(),
            a < 3,
        ensures
            r == self.spec_max(a as int),
            -0x8000_0000 <= r <= 0x8000_0000,
    {
        let ghost ps = positions(self.blocks@);
        if self.blocks.len() == 0 {
            return 0;
        }
        let mut m: i64 = coord(&self.blocks[0].0, a);
        let mut i: usize = 1;
        proof {
            assert(ps.take(1).len() == 1);
            assert(ps.take(1)[0] == ps[0]);
            assert(pos_in_range(self.spec_blocks()[0].0));
        }
        while i < self.blocks.len()
            invariant
                self.wf(),
                a < 3,
                ps == positions(self.blocks@),
                1 <= i <= ps.len(),
                m == highest(ps.take(i as int), a as int),
                in_i32(m),
            decreases ps.len() - i,
        {
            let c = coord(&self.blocks[i].0, a);
            proof {
                assert(ps.take(i + 1).drop_last() =~= ps.take(i as int));
                assert(ps.take(i + 1).last() == ps[i as int]);
                assert(pos_in_range(self.spec_blocks()[i as int].0));
            }
            if c > m {
                m = c;
            }
            i = i + 1;
        }
        proof {
            assert(ps.take(i as int) =~= ps);
        }
        m + 1
    }

    pub fn min_x(&self) -> (r: i64)
        requires
            self.wf(),
        ensures
            r == self.spec_min(0),
            in_i32(r),
    {
        self.min_on(0)
    }

    pub fn max_x(&self) -> (r: i64)
        requires
            self.wf(),
        ensures
            r == self.spec_max(0),
    {
        self.max_on(0)
    }

    pub fn min_y(&self) -> (r: i64)
        requires
            self.wf(),
        ensures
            r == self.spec_min(1),
            in_i32(r),
    {
        self.min_on(1)
    }

    pub fn max_y(&self) -> (r: i64)
        requires
            self.wf(),
        ensures
            r == self.spec_max(1),
    {
        self.max_on(1)
    }

    pub fn min_z(&self) -> (r: i64)
        requires
            self.wf(),
        ensures
            r == self.spec_min(2),
            in_i32(r),
    {
        self.min_on(2)
    }

    pub fn max_z(&self) -> (r: i64)
        requires
            self.wf(),
        ensures
            r == self.spec_max(2),
    {
        self.max_on(2)
    }

    proof fn lemma_box_ordered(&self, a: int)
        requires
            self.wf(),
        ensures
            self.spec_min(a) <= self.spec_max(a),
    {
        let ps = positions(self.spec_blocks());
        if ps.len() > 0 {
            lemma_bounds(ps, a);
            assert(lowest(ps, a) <= axis(ps[0], a));
        }
    }

    /// The extent of the bounding box along x.
    pub fn len_x(&self) -> (r: u64)
        requires
            self.wf(),
        ensures
            r == self.spec_max(0) - self.spec_min(0),
    {
        proof {
            self.lemma_box_ordered(0);
        }
        (self.max_on(0) - self.min_on(0)) as u64
    }

    /// The extent of the bounding box along y.
    pub fn len_y(&self) -> (r: u64)
        requires
            self.wf(),
        ensures
            r == self.spec_max(1) - self.spec_min(1),
    {
        proof {
            self.lemma_box_ordered(1);
        }
        (self.max_on(1) - self.min_on(1)) as u64
    }

    /// The extent of the bounding box along z.
    pub fn len_z(&self) -> (r: u64)
        requires
            self.wf(),
        ensures
            r == self.spec_max(2) - self.spec_min(2),
    {
        proof {
            self.lemma_box_ordered(2);
        }
        (self.max_on(2) - self.min_on(2)) as u64
    }

    pub fn height(&self) -> (r: u64)
        requires
            self.wf(),
        ensures
            r == self.spec_max(1) - self.spec_min(1),
    {
        self.len_y()
    }

    pub fn width(&self) -> (r: u64)
        requires
            self.wf(),
        ensures
            r == self.spec_max(0) - self.spec_min(0),
    {
        self.len_x()
    }

    pub fn length(&self) -> (r: u64)
        requires
            self.wf(),
        ensures
            r == self.spec_max(2) - self.spec_min(2),
    {
        self.len_z()
    }
}

} // verus!
