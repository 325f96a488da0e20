use vstd::prelude::*;
use crate::blockstate::{AIR, BlockState, copy_state, lemma_parse_format, parse_text, text_safe};
use crate::rom::{StateView, state_view};
use crate::error::SchemError;
use crate::schematic::{BlockEntity, Metadata, Pos, Schematic, distinct, pos_in_range, positions};
use crate::varint::{decode_varints, encode_varint, lemma_varints_push, lemma_varints_round_trip, nats, pow128, read_stream, varints};

verus! {

/// The position of cell `c` of a box of width `w` and length `l` whose lower corner
/// is `(x0, y0, z0)`: x varies fastest, then z, then y.
pub open spec fn cell_pos(x0: int, y0: int, z0: int, w: int, l: int, c: int) -> (int, int, int) {
    (x0 + c % w, y0 + c / (w * l), z0 + (c / w) % l)
}

/// The cell of position `p` in a box of width `w` and length `l` whose lower corner
/// is `(x0, y0, z0)`.
pub open spec fn cell_of(x0: int, y0: int, z0: int, w: int, l: int, p: Pos) -> int {
    ((p.y - y0) * l + (p.z - z0)) * w + (p.x - x0)
}

proof fn lemma_cell_of_pos(x0: int, y0: int, z0: int, w: int, l: int, h: int, p: Pos)
    requires
        0 < w,
        0 < l,
        x0 <= p.x < x0 + w,
        y0 <= p.y < y0 + h,
        z0 <= p.z < z0 + l,
    ensures
        0 <= cell_of(x0, y0, z0, w, l, p) < w * l * h,
        at(p, cell_pos(x0, y0, z0, w, l, cell_of(x0, y0, z0, w, l, p))),
{
    let c = cell_of(x0, y0, z0, w, l, p);
    let dy = p.y - y0;
    let dz = p.z - z0;
    let dx = p.x - x0;
    let q = dy * l + dz;
    assert(0 <= q < l * h) by (nonlinear_arith)
        requires 0 <= dy < h, 0 <= dz < l, q == dy * l + dz;
    assert(0 <= c < w * l * h) by (nonlinear_arith)
        requires 0 <= q < l * h, 0 <= dx < w, c == q * w + dx, 0 < w;
    vstd::arithmetic::div_mod::lemma_fundamental_div_mod_converse(c, w, q, dx);
    vstd::arithmetic::div_mod::lemma_fundamental_div_mod_converse(q, l, dy, dz);
    vstd::arithmetic::div_mod::lemma_div_denominator(c, w, l);
}

proof fn lemma_pos_of_cell(x0: int, y0: int, z0: int, w: int, l: int, c: int, p: Pos)
    requires
        0 < w,
        0 < l,
        0 <= c,
        at(p, cell_pos(x0, y0, z0, w, l, c)),
    ensures
        cell_of(x0, y0, z0, w, l, p) == c,
{
    vstd::arithmetic::div_mod::lemma_fundamental_div_mod(c, w);
    vstd::arithmetic::div_mod::lemma_fundamental_div_mod(c / w, l);
    vstd::arithmetic::div_mod::lemma_div_denominator(c, w, l);
    vstd::arithmetic::div_mod::lemma_div_pos_is_pos(c, w);
    let y = c / (w * l);
    let z = (c / w) % l;
    let x = c % w;
    assert(c / w == l * ((c / w) / l) + z);
    assert(c == w * (c / w) + x);
    assert((y * l + z) * w + x == c) by (nonlinear_arith)
        requires c / w == l * y + z, c == w * (c / w) + x;
}

pub open spec fn at(p: Pos, q: (int, int, int)) -> bool {
    p.x == q.0 && p.y == q.1 && p.z == q.2
}

/// The canonical text of the block at `q` among `bs`, or the air identifier where
/// `q` holds no block.
pub open spec fn text_at(bs: Seq<(Pos, BlockState)>, q: (int, int, int)) -> Seq<char> {
    if exists|i: int| 0 <= i < bs.len() && at(#[trigger] bs[i].0, q) {
        let i = choose|i: int| 0 <= i < bs.len() && at(#[trigger] bs[i].0, q);
        bs[i].1.spec_text()
    } else {
        AIR@
    }
}

/// The texts of the cells of the grid's bounding box, in cell order.
pub open spec fn cell_texts(g: Schematic) -> Seq<Seq<char>> {
    let w = g.spec_max(0) - g.spec_min(0);
    let l = g.spec_max(2) - g.spec_min(2);
    let h = g.spec_max(1) - g.spec_min(1);
    Seq::new(
        (w * l * h) as nat,
        |c: int| text_at(g.spec_blocks(), cell_pos(g.spec_min(0), g.spec_min(1), g.spec_min(2), w, l, c)),
    )
}

/// The distinct texts of `ts`, in the order of their first occurrence.
pub open spec fn dedup(ts: Seq<Seq<char>>) -> Seq<Seq<char>>
    decreases ts.len(),
{
    if ts.len() == 0 {
        Seq::empty()
    } else {
        let d = dedup(ts.drop_last());
        if d.contains(ts.last()) {
            d
        } else {
            d.push(ts.last())
        }
    }
}

/// The index of the first `t` in `s`, or `s.len()` where there is none.
pub open spec fn index_of(s: Seq<Seq<char>>, t: Seq<char>) -> int
    decreases s.len(),
{
    if s.len() == 0 {
        0
    } else if index_of(s.drop_last(), t) < s.len() - 1 {
        index_of(s.drop_last(), t)
    } else if s.last() == t {
        s.len() - 1
    } else {
        s.len() as int
    }
}

/// The palette index of each cell.
pub open spec fn cell_indices(ts: Seq<Seq<char>>) -> Seq<nat> {
    Seq::new(ts.len(), |c: int| index_of(dedup(ts), ts[c]) as nat)
}

pub open spec fn strings_view(v: Seq<String>) -> Seq<Seq<char>> {
    v.map_values(|s: String| s@)
}

proof fn lemma_index_of(s: Seq<Seq<char>>, t: Seq<char>)
    ensures
        0 <= index_of(s, t) <= s.len(),
        index_of(s, t) < s.len() <==> s.contains(t),
        index_of(s, t) < s.len() ==> s[index_of(s, t)] == t,
        forall|k: int| 0 <= k < index_of(s, t) ==> s[k] != t,
    decreases s.len(),
{
    if s.len() > 0 {
        let init = s.drop_last();
        lemma_index_of(init, t);
        if init.contains(t) {
            let k = choose|k: int| 0 <= k < init.len() && init[k] == t;
            assert(s[k] == t);
        }
        if s.contains(t) && !init.contains(t) {
            let k = choose|k: int| 0 <= k < s.len() && s[k] == t;
            if k < s.len() - 1 {
                assert(init[k] == t);
            }
        }
        if index_of(s, t) == s.len() {
            assert forall|k: int| 0 <= k < s.len() implies s[k] != t by {
                if k < s.len() - 1 {
                    assert(init[k] == s[k]);
                }
            }
        }
        assert forall|k: int| 0 <= k < index_of(s, t) implies s[k] != t by {
            if k < s.len() - 1 {
                assert(init[k] == s[k]);
            }
        }
    }
}

proof fn lemma_index_of_push(s: Seq<Seq<char>>, x: Seq<char>, t: Seq<char>)
    requires
        s.contains(t),
    ensures
        index_of(s.push(x), t) == index_of(s, t),
{
    lemma_index_of(s, t);
    assert(s.push(x).drop_last() =~= s);
}

proof fn lemma_dedup_contains(ts: Seq<Seq<char>>, t: Seq<char>)
    ensures
        dedup(ts).contains(t) <==> ts.contains(t),
    decreases ts.len(),
{
    if ts.len() > 0 {
        let init = ts.drop_last();
        lemma_dedup_contains(init, t);
        let d = dedup(init);
        if ts.contains(t) && !init.contains(t) {
            let k = choose|k: int| 0 <= k < ts.len() && ts[k] == t;
            if k < ts.len() - 1 {
                assert(init[k] == t);
            }
            assert(t == ts.last());
            if !d.contains(t) {
                assert(d.push(t)[d.len() as int] == t);
            }
        }
        if init.contains(t) {
            let k = choose|k: int| 0 <= k < init.len() && init[k] == t;
            assert(ts[k] == t);
            if !d.contains(ts.last()) {
                let j = choose|j: int| 0 <= j < d.len() && d[j] == t;
                assert(d.push(ts.last())[j] == t);
            }
        }
        if dedup(ts).contains(t) && !d.contains(t) {
            assert(t == ts.last());
            assert(ts[ts.len() - 1] == t);
        }
    }
}

impl Schematic {
    /// The bounding box fits the format's 16-bit width, length and height.
    pub open spec fn fits_format(&self) -> bool {
        &&& self.spec_max(0) - self.spec_min(0) <= 0x7fff
        &&& self.spec_max(1) - self.spec_min(1) <= 0x7fff
        &&& self.spec_max(2) - self.spec_min(2) <= 0x7fff
        &&& (self.spec_max(0) - self.spec_min(0)) * (self.spec_max(2) - self.spec_min(2)) * (
        self.spec_max(1) - self.spec_min(1)) <= usize::MAX
    }

    proof fn lemma_box_nonempty(&self)
        requires
            self.wf(),
            self.spec_blocks().len() > 0,
        ensures
            self.spec_max(0) - self.spec_min(0) > 0,
            self.spec_max(1) - self.spec_min(1) > 0,
            self.spec_max(2) - self.spec_min(2) > 0,
    {
        let ps = positions(self.spec_blocks());
        crate::schematic::lemma_bounds(ps, 0);
        crate::schematic::lemma_bounds(ps, 1);
        crate::schematic::lemma_bounds(ps, 2);
        assert(crate::schematic::lowest(ps, 0) <= crate::schematic::axis(ps[0], 0) <= crate::schematic::highest(ps, 0));
        assert(crate::schematic::lowest(ps, 1) <= crate::schematic::axis(ps[0], 1) <= crate::schematic::highest(ps, 1));
        assert(crate::schematic::lowest(ps, 2) <= crate::schematic::axis(ps[0], 2) <= crate::schematic::highest(ps, 2));
    }

    /// For each cell of the bounding box (lower corner `(x0, y0, z0)`, extents `w`,
    /// `l`, `h`), the index of the block at that cell, if there is one.
    fn cell_slots(&self, x0: i64, y0: i64, z0: i64, w: u64, l: u64, h: u64) -> (r: Vec<Option<usize>>)
        requires
            self.wf(),
            x0 == self.spec_min(0),
            y0 == self.spec_min(1),
            z0 == self.spec_min(2),
            w == self.spec_max(0) - self.spec_min(0),
            l == self.spec_max(2) - self.spec_min(2),
            h == self.spec_max(1) - self.spec_min(1),
            0 < w <= 0x7fff,
            0 < l <= 0x7fff,
            0 < h <= 0x7fff,
            w * l * h <= usize::MAX,
        ensures
            r@.len() == w * l * h,
            forall|k: int| 0 <= k < w * l * h && (#[trigger] r@[k]) is Some ==> 0 <= r@[k]->Some_0 < self.spec_blocks().len()
                && at(self.spec_blocks()[r@[k]->Some_0 as int].0, cell_pos(x0 as int, y0 as int, z0 as int, w as int, l as int, k)),
            forall|k: int, i: int| 0 <= k < w * l * h && (#[trigger] r@[k]) is None && 0 <= i < self.spec_blocks().len() ==> !at(
                #[trigger] self.spec_blocks()[i].0, cell_pos(x0 as int, y0 as int, z0 as int, w as int, l as int, k)),
    {
        let ghost bs = self.spec_blocks();
        let ghost ps = positions(bs);
        proof {
            crate::schematic::lemma_bounds(ps, 0);
            crate::schematic::lemma_bounds(ps, 1);
            crate::schematic::lemma_bounds(ps, 2);
            assert(0 < w * l <= 0x7fff * 0x7fff) by (nonlinear_arith)
                requires 0 < w <= 0x7fff, 0 < l <= 0x7fff;
        }
        let n = (w * l * h) as usize;
        let mut slots: Vec<Option<usize>> = Vec::new();
        let mut k: usize = 0;
        while k < n
            invariant
                k <= n,
                slots@.len() == k,
                forall|a: int| 0 <= a < k ==> slots@[a] is None,
            decreases n - k,
        {
            slots.push(None);
            k = k + 1;
        }
        let mut i: usize = 0;
        while i < self.blocks.len()
            invariant
                self.wf(),
                bs == self.spec_blocks(),
                ps == positions(bs),
                bs.len() > 0,
                forall|j: int| 0 <= j < ps.len() ==> crate::schematic::lowest(ps, 0) <= #[trigger] crate::schematic::axis(ps[j], 0) <= crate::schematic::highest(ps, 0),
                forall|j: int| 0 <= j < ps.len() ==> crate::schematic::lowest(ps, 1) <= #[trigger] crate::schematic::axis(ps[j], 1) <= crate::schematic::highest(ps, 1),
                forall|j: int| 0 <= j < ps.len() ==> crate::schematic::lowest(ps, 2) <= #[trigger] crate::schematic::axis(ps[j], 2) <= crate::schematic::highest(ps, 2),
                x0 == self.spec_min(0), y0 == self.spec_min(1), z0 == self.spec_min(2),
                w == self.spec_max(0) - self.spec_min(0),
                l == self.spec_max(2) - self.spec_min(2),
                h == self.spec_max(1) - self.spec_min(1),
                0 < w <= 0x7fff, 0 < l <= 0x7fff, 0 < h <= 0x7fff,
                0 < w * l <= 0x7fff * 0x7fff,
                n == w * l * h,
                slots@.len() == n,
                i <= bs.len(),
                forall|k: int| 0 <= k < n && (#[trigger] slots@[k]) is Some ==> 0 <= slots@[k]->Some_0 < i
                    && cell_of(x0 as int, y0 as int, z0 as int, w as int, l as int, bs[slots@[k]->Some_0 as int].0) == k,
                forall|j: int| 0 <= j < i ==> 0 <= cell_of(x0 as int, y0 as int, z0 as int, w as int, l as int, #[trigger] bs[j].0) < n
                    && slots@[cell_of(x0 as int, y0 as int, z0 as int, w as int, l as int, bs[j].0)] == Some(j as usize),
            decreases bs.len() - i,
        {
            let p = self.blocks[i].0;
            proof {
                assert(ps[i as int] == p);
                assert(crate::schematic::axis(ps[i as int], 0) == p.x);
                assert(crate::schematic::axis(ps[i as int], 1) == p.y);
                assert(crate::schematic::axis(ps[i as int], 2) == p.z);
                lemma_cell_of_pos(x0 as int, y0 as int, z0 as int, w as int, l as int, h as int, p);
                let dy = p.y - y0;
                let dz = p.z - z0;
                let dx = p.x - x0;
                assert(0 <= dy * l <= 0x7fff * 0x7fff) by (nonlinear_arith)
                    requires 0 <= dy < h, h <= 0x7fff, 0 < l <= 0x7fff;
                assert(0 <= (dy * l + dz) * w <= 0x7fff * 0x7fff * 0x7fff) by (nonlinear_arith)
                    requires 0 <= dy < h, h <= 0x7fff, 0 < l <= 0x7fff, 0 <= dz < l, 0 < w <= 0x7fff;
            }
            let c = ((((p.y - y0) as u64) * l + ((p.z - z0) as u64)) * w + ((p.x - x0) as u64)) as usize;
            proof {
                let ci = cell_of(x0 as int, y0 as int, z0 as int, w as int, l as int, p);
                assert(c == ci);
                assert forall|j: int| 0 <= j < i implies cell_of(x0 as int, y0 as int, z0 as int, w as int, l as int, #[trigger] bs[j].0) != ci by {
                    let pj = bs[j].0;
                    assert(ps[j] == pj);
                    assert(crate::schematic::axis(ps[j], 0) == pj.x);
                    assert(crate::schematic::axis(ps[j], 1) == pj.y);
                    assert(crate::schematic::axis(ps[j], 2) == pj.z);
                    lemma_cell_of_pos(x0 as int, y0 as int, z0 as int, w as int, l as int, h as int, pj);
                    if cell_of(x0 as int, y0 as int, z0 as int, w as int, l as int, pj) == ci {
                        assert(pj == p);
                        assert(ps[j] == ps[i as int]);
                    }
                }
            }
            let ghost before = slots@;
            slots.set(c, Some(i));
            proof {
                assert forall|j: int| 0 <= j < i + 1 implies 0 <= cell_of(x0 as int, y0 as int, z0 as int, w as int, l as int, #[trigger] bs[j].0) < n
                    && slots@[cell_of(x0 as int, y0 as int, z0 as int, w as int, l as int, bs[j].0)] == Some(j as usize) by {
                    if j < i {
                        assert(cell_of(x0 as int, y0 as int, z0 as int, w as int, l as int, bs[j].0) != c);
                    } else {
                        assert(bs[j].0 == p);
                    }
                }
            }
            i = i + 1;
        }
        proof {
            assert forall|k: int| 0 <= k < w * l * h && (#[trigger] slots@[k]) is Some implies 0 <= slots@[k]->Some_0 < bs.len()
                && at(bs[slots@[k]->Some_0 as int].0, cell_pos(x0 as int, y0 as int, z0 as int, w as int, l as int, k)) by {
                let j = slots@[k]->Some_0;
                let pj = bs[j as int].0;
                assert(ps[j as int] == pj);
                assert(crate::schematic::axis(ps[j as int], 0) == pj.x);
                assert(crate::schematic::axis(ps[j as int], 1) == pj.y);
                assert(crate::schematic::axis(ps[j as int], 2) == pj.z);
                lemma_cell_of_pos(x0 as int, y0 as int, z0 as int, w as int, l as int, h as int, pj);
            }
            assert forall|k: int, j: int| 0 <= k < w * l * h && (#[trigger] slots@[k]) is None && 0 <= j < bs.len() implies !at(
                #[trigger] bs[j].0, cell_pos(x0 as int, y0 as int, z0 as int, w as int, l as int, k)) by {
                if at(bs[j].0, cell_pos(x0 as int, y0 as int, z0 as int, w as int, l as int, k)) {
                    lemma_pos_of_cell(x0 as int, y0 as int, z0 as int, w as int, l as int, k, bs[j].0);
                    assert(slots@[cell_of(x0 as int, y0 as int, z0 as int, w as int, l as int, bs[j].0)] == Some(j as usize));
                }
            }
        }
        slots
    }

    /// The block data and the palette of the grid's bounding box: each cell's block
    /// (air where none) by its canonical text, the texts numbered in order of first
    /// occurrence, and each cell's number written as a varint, in cell order.
    pub fn encode_block_data(&self) -> (r: Result<(Vec<u8>, Vec<String>), SchemError>)
        requires
            self.wf(),
        ensures
            r is Ok <==> self.fits_format(),
            r matches Ok((data, pal)) ==> strings_view(pal@) == dedup(cell_texts(*self))
                && data@ == varints(cell_indices(cell_texts(*self))),
            r matches Err(e) ==> e == SchemError::GridTooLarge && !self.fits_format(),
    {
        let x0 = self.min_x();
        let y0 = self.min_y();
        let z0 = self.min_z();
        let w = self.width();
        let l = self.length();
        let h = self.height();
        if w > 0x7fff || l > 0x7fff || h > 0x7fff {
            return Err(SchemError::GridTooLarge);
        }
        if self.blocks.len() == 0 {
            proof {
                assert(positions(self.spec_blocks()).len() == 0);
                assert(self.spec_max(0) - self.spec_min(0) == 0);
                assert(cell_texts(*self).len() == 0);
                assert(cell_texts(*self) =~= Seq::<Seq<char>>::empty());
                assert(strings_view(Seq::<String>::empty()) =~= Seq::<Seq<char>>::empty());
                assert(cell_indices(Seq::<Seq<char>>::empty()) =~= Seq::<nat>::empty());
            }
            return Ok((Vec::new(), Vec::new()));
        }
        proof {
            self.lemma_box_nonempty();
            assert(0 <= w * l <= 0x7fff * 0x7fff) by (nonlinear_arith)
                requires 0 < w <= 0x7fff, 0 < l <= 0x7fff;
            assert(0 <= w * l * h <= 0x7fff * 0x7fff * 0x7fff) by (nonlinear_arith)
                requires 0 <= w * l <= 0x7fff * 0x7fff, 0 < h <= 0x7fff;
        }
        let n: u64 = w * l * h;
        if n > usize::MAX as u64 {
            return Err(SchemError::GridTooLarge);
        }
        let slots = self.cell_slots(x0, y0, z0, w, l, h);
        let ghost ts = cell_texts(*self);
        let mut data: Vec<u8> = Vec::new();
        let mut pal: Vec<String> = Vec::new();
        let mut c: u64 = 0;
        proof {
            assert(ts.take(0) =~= Seq::<Seq<char>>::empty());
            assert(strings_view(pal@) =~= Seq::<Seq<char>>::empty());
            assert(Seq::new(0, |k: int| index_of(Seq::<Seq<char>>::empty(), ts[k]) as nat) =~= Seq::<nat>::empty());
        }
        while c < n
            invariant
                self.wf(),
                ts == cell_texts(*self),
                n == ts.len(),
                x0 == self.spec_min(0), y0 == self.spec_min(1), z0 == self.spec_min(2),
                w == self.spec_max(0) - self.spec_min(0),
                l == self.spec_max(2) - self.spec_min(2),
                0 < w <= 0x7fff, 0 < l <= 0x7fff, 0 < h <= 0x7fff,
                h == self.spec_max(1) - self.spec_min(1),
                n == w * l * h,
                crate::schematic::in_i32(x0), crate::schematic::in_i32(y0), crate::schematic::in_i32(z0),
                n <= usize::MAX,
                slots@.len() == n,
                forall|k: int| 0 <= k < n && (#[trigger] slots@[k]) is Some ==> 0 <= slots@[k]->Some_0 < self.spec_blocks().len()
                    && at(self.spec_blocks()[slots@[k]->Some_0 as int].0, cell_pos(x0 as int, y0 as int, z0 as int, w as int, l as int, k)),
                forall|k: int, i: int| 0 <= k < n && (#[trigger] slots@[k]) is None && 0 <= i < self.spec_blocks().len() ==> !at(
                    #[trigger] self.spec_blocks()[i].0, cell_pos(x0 as int, y0 as int, z0 as int, w as int, l as int, k)),
                c <= n,
                strings_view(pal@) == dedup(ts.take(c as int)),
                data@ == varints(Seq::new(c as nat, |k: int| index_of(strings_view(pal@), ts[k]) as nat)),
            decreases n - c,
        {
            proof {
                let wl = (w * l) as int;
                let ci = c as int;
                let hi = h as int;
                assert(0 < wl <= 0x7fff * 0x7fff) by (nonlinear_arith)
                    requires 0 < w <= 0x7fff, 0 < l <= 0x7fff, wl == w * l;
                assert(0 <= ci / wl < hi) by (nonlinear_arith)
                    requires 0 < wl, 0 <= ci, ci < wl * hi;
            }

            let ghost q = cell_pos(x0 as int, y0 as int, z0 as int, w as int, l as int, c as int);
            let text = match slots[c as usize] {
                Some(i) => {
                    proof {
                        let bs = self.spec_blocks();
                        assert(at(bs[i as int].0, q));
                        let k = choose|k: int| 0 <= k < bs.len() && at(#[trigger] bs[k].0, q);
                        assert(bs[k].0 == bs[i as int].0);
                        assert(positions(bs)[k] == bs[k].0);
                        assert(positions(bs)[i as int] == bs[i as int].0);
                        assert(k == i);
                    }
                    self.blocks[i].1.to_text()
                },
                None => AIR.to_owned(),
            };
            proof {
                assert(text@ == ts[c as int]);
            }
            let ghost old_pal = strings_view(pal@);
            let ghost prefix = ts.take(c as int);
            let mut j: usize = 0;
            while j < pal.len() && pal[j] != text
                invariant
                    j <= pal@.len(),
                    forall|k: int| 0 <= k < j ==> pal@[k]@ != text@,
                decreases pal@.len() - j,
            {
                j = j + 1;
            }
            proof {
                assert(ts.take(c + 1).drop_last() =~= prefix);
                assert(ts.take(c + 1).last() == ts[c as int]);
                assert forall|k: int| 0 <= k < j implies old_pal[k] != text@ by {
                    assert(old_pal[k] == pal@[k]@);
                }
                lemma_index_of(old_pal, text@);
            }
            if j == pal.len() {
                proof {
                    assert(!old_pal.contains(text@)) by {
                        if old_pal.contains(text@) {
                            let k = choose|k: int| 0 <= k < old_pal.len() && old_pal[k] == text@;
                            assert(old_pal[k] == pal@[k]@);
                        }
                    }
                }
                pal.push(text);
                proof {
                    assert(strings_view(pal@) =~= old_pal.push(ts[c as int]));
                }
            } else {
                proof {
                    assert(old_pal[j as int] == text@);
                    assert(index_of(old_pal, text@) == j);
                }
            }
            let ghost old_data = data@;
            encode_varint(j as u64, &mut data);
            proof {
                let np = strings_view(pal@);
                let before = Seq::new(c as nat, |k: int| index_of(old_pal, ts[k]) as nat);
                let after = Seq::new((c + 1) as nat, |k: int| index_of(np, ts[k]) as nat);
                lemma_index_of(np, text@);
                assert forall|k: int| 0 <= k < c implies index_of(np, ts[k]) == index_of(old_pal, ts[k]) by {
                    assert(prefix[k] == ts[k]);
                    assert(prefix.contains(ts[k]));
                    lemma_dedup_contains(prefix, ts[k]);
                    if np != old_pal {
                        lemma_index_of_push(old_pal, text@, ts[k]);
                    }
                }
                assert(index_of(np, ts[c as int]) == j) by {
                    if np == old_pal {
                    } else {
                        assert(np[j as int] == text@);
                        assert forall|k: int| 0 <= k < j implies np[k] != text@ by {
                            assert(np[k] == old_pal[k]);
                        }
                    }
                }
                assert(after =~= before.push(j as nat));
                lemma_varints_push(before, j as nat);
            }
            c = c + 1;
        }
        proof {
            assert(ts.take(c as int) =~= ts);
        }
        Ok((data, pal))
    }
}

pub open spec fn opt_view(o: Option<BlockState>) -> Option<StateView> {
    match o {
        Some(b) => Some(state_view(b)),
        None => None,
    }
}

pub open spec fn entries_view(v: Seq<(String, i32)>) -> Seq<(Seq<char>, i32)> {
    v.map_values(|e: (String, i32)| (e.0@, e.1))
}

/// The palette table of the entries `es` (text and index) for a table of `n` slots:
/// each entry's parsed state in its slot, later entries over earlier ones. Fails at
/// the first entry whose index is outside the table or whose text does not parse.
pub open spec fn palette_table(es: Seq<(Seq<char>, i32)>, n: nat) -> Result<Seq<Option<StateView>>, SchemError>
    decreases es.len(),
{
    if es.len() == 0 {
        Ok(Seq::new(n, |k: int| None))
    } else {
        match palette_table(es.drop_last(), n) {
            Err(e) => Err(e),
            Ok(t) => {
                let (name, i) = es.last();
                if i < 0 || i >= n {
                    Err(SchemError::InvalidPaletteIndex { index: i as i64 })
                } else {
                    match parse_text(name) {
                        Err(e) => Err(e),
                        Ok(v) => Ok(t.update(i as int, Some(v))),
                    }
                }
            },
        }
    }
}

/// Reads the palette into a table with one slot per entry.
pub fn decode_palette(palette: &Vec<(String, i32)>) -> (r: Result<Vec<Option<BlockState>>, SchemError>)
    ensures
        match palette_table(entries_view(palette@), palette@.len()) {
            Ok(t) => r matches Ok(table) && table@.map_values(|o: Option<BlockState>| opt_view(o)) == t,
            Err(e) => r == Err::<Vec<Option<BlockState>>, SchemError>(e),
        },
{
    let n = palette.len();
    let ghost es = entries_view(palette@);
    let mut table: Vec<Option<BlockState>> = Vec::new();
    let mut k: usize = 0;
    while k < n
        invariant
            n == palette@.len(),
            k <= n,
            table@.len() == k,
            forall|a: int| 0 <= a < k ==> table@[a] is None,
        decreases n - k,
    {
        table.push(None);
        k = k + 1;
    }
    proof {
        assert(es.take(0) =~= Seq::<(Seq<char>, i32)>::empty());
        assert(table@.map_values(|o: Option<BlockState>| opt_view(o)) =~= Seq::new(n as nat, |k: int| None::<StateView>));
    }
    let mut k: usize = 0;
    while k < n
        invariant
            n == palette@.len(),
            es == entries_view(palette@),
            k <= n,
            table@.len() == n,
            palette_table(es.take(k as int), n as nat) == Ok::<Seq<Option<StateView>>, SchemError>(
                table@.map_values(|o: Option<BlockState>| opt_view(o)),
            ),
        decreases n - k,
    {
        proof {
            assert(es.take(k + 1).drop_last() =~= es.take(k as int));
            assert(es.take(k + 1).last() == es[k as int]);
            assert(es[k as int] == (palette@[k as int].0@, palette@[k as int].1));
        }
        let i = palette[k].1;
        if i < 0 || i as usize >= n {
            proof {
                lemma_table_fails(es, n as nat, k as int);
            }
            return Err(SchemError::InvalidPaletteIndex { index: i as i64 });
        }
        let st = match BlockState::from_str(palette[k].0.as_str()) {
            Ok(st) => st,
            Err(e) => {
                proof {
                    lemma_table_fails(es, n as nat, k as int);
                }
                return Err(e);
            },
        };
        let ghost before = table@;
        let ghost v = state_view(st);
        table.set(i as usize, Some(st));
        proof {
            assert(table@.map_values(|o: Option<BlockState>| opt_view(o)) =~= before.map_values(
                |o: Option<BlockState>| opt_view(o),
            ).update(i as int, Some(v)));
        }
        k = k + 1;
    }
    proof {
        assert(es.take(n as int) =~= es);
    }
    Ok(table)
}

/// Once an entry fails, the whole palette fails with the same error.
proof fn lemma_table_fails(es: Seq<(Seq<char>, i32)>, n: nat, k: int)
    requires
        0 <= k < es.len(),
        palette_table(es.take(k + 1), n) is Err,
    ensures
        palette_table(es, n) == palette_table(es.take(k + 1), n),
    decreases es.len() - k,
{
    if k + 1 < es.len() {
        assert(es.drop_last().take(k + 1) =~= es.take(k + 1));
        lemma_table_fails(es.drop_last(), n, k);
    } else {
        assert(es.take(k + 1) =~= es);
    }
}

/// The states of the cells whose palette indices are `vs`; fails at the first index
/// outside the table or at an empty slot.
pub open spec fn cells_result(vs: Seq<nat>, table: Seq<Option<StateView>>) -> Result<Seq<StateView>, SchemError>
    decreases vs.len(),
{
    if vs.len() == 0 {
        Ok(Seq::empty())
    } else {
        match cells_result(vs.drop_last(), table) {
            Err(e) => Err(e),
            Ok(sts) => {
                let v = vs.last();
                if v >= table.len() {
                    Err(SchemError::InvalidPaletteIndex { index: v as i64 })
                } else {
                    match table[v as int] {
                        None => Err(SchemError::MissingPaletteEntry { index: v as i64 }),
                        Some(st) => Ok(sts.push(st)),
                    }
                }
            },
        }
    }
}

proof fn lemma_cells_len(vs: Seq<nat>, table: Seq<Option<StateView>>)
    ensures
        cells_result(vs, table) matches Ok(sts) ==> sts.len() == vs.len(),
    decreases vs.len(),
{
    if vs.len() > 0 {
        lemma_cells_len(vs.drop_last(), table);
    }
}

proof fn lemma_cells_fail(vs: Seq<nat>, table: Seq<Option<StateView>>, k: int)
    requires
        0 <= k < vs.len(),
        cells_result(vs.take(k + 1), table) is Err,
    ensures
        cells_result(vs, table) == cells_result(vs.take(k + 1), table),
    decreases vs.len() - k,
{
    if k + 1 < vs.len() {
        assert(vs.drop_last().take(k + 1) =~= vs.take(k + 1));
        lemma_cells_fail(vs.drop_last(), table, k);
    } else {
        assert(vs.take(k + 1) =~= vs);
    }
}

/// Different cells have different positions.
proof fn lemma_cell_pos_injective(w: int, l: int, c1: int, c2: int)
    requires
        w > 0,
        l > 0,
        c1 >= 0,
        c2 >= 0,
        cell_pos(0, 0, 0, w, l, c1) == cell_pos(0, 0, 0, w, l, c2),
    ensures
        c1 == c2,
{
    vstd::arithmetic::div_mod::lemma_fundamental_div_mod(c1, w);
    vstd::arithmetic::div_mod::lemma_fundamental_div_mod(c2, w);
    vstd::arithmetic::div_mod::lemma_fundamental_div_mod(c1 / w, l);
    vstd::arithmetic::div_mod::lemma_fundamental_div_mod(c2 / w, l);
    vstd::arithmetic::div_mod::lemma_div_denominator(c1, w, l);
    vstd::arithmetic::div_mod::lemma_div_denominator(c2, w, l);
}

pub open spec fn table_view(t: Seq<Option<BlockState>>) -> Seq<Option<StateView>> {
    t.map_values(|o: Option<BlockState>| opt_view(o))
}

/// Reads the block data: one varint per cell, in cell order, each the palette
/// index of the cell's state; cell `c` stands at `(c % w, c / (w * l), (c / w) % l)`.
pub fn decode_block_data(
    block_data: &Vec<u8>,
    width: i16,
    length: i16,
    table: &Vec<Option<BlockState>>,
) -> (r: Result<Vec<(Pos, BlockState)>, SchemError>)
    requires
        block_data@.len() < 0x8000_0000,
    ensures
        match read_stream(block_data@, 0) {
            Err(e) => r == Err::<Vec<(Pos, BlockState)>, SchemError>(e),
            Ok(vs) => if vs.len() > 0 && (width <= 0 || length <= 0) {
                r == Err::<Vec<(Pos, BlockState)>, SchemError>(SchemError::InvalidDimensions)
            } else {
                match cells_result(vs, table_view(table@)) {
                    Err(e) => r == Err::<Vec<(Pos, BlockState)>, SchemError>(e),
                    Ok(sts) => r matches Ok(bs) && bs@.len() == vs.len() && forall|c: int|
                        0 <= c < bs@.len() ==> at((#[trigger] bs@[c]).0, cell_pos(0, 0, 0, width as int, length as int, c))
                            && state_view(bs@[c].1) == sts[c],
                }
            },
        },
        r matches Ok(bs) ==> distinct(positions(bs@)) && forall|c: int|
            0 <= c < bs@.len() ==> pos_in_range(#[trigger] bs@[c].0),
{
    let idxs = decode_varints(block_data)?;
    let ghost vs = nats(idxs@);
    let n = idxs.len();
    assert(read_stream(block_data@, 0) == Ok::<Seq<nat>, SchemError>(vs));
    if n > 0 && (width <= 0 || length <= 0) {
        return Err(SchemError::InvalidDimensions);
    }
    let w = width as u64;
    let l = length as u64;
    let ghost tv = table_view(table@);
    let mut bs: Vec<(Pos, BlockState)> = Vec::new();
    let mut c: usize = 0;
    proof {
        assert(vs.take(0) =~= Seq::<nat>::empty());
    }
    while c < n
        invariant
            n == idxs@.len() == vs.len(),
            vs == nats(idxs@),
            read_stream(block_data@, 0) == Ok::<Seq<nat>, SchemError>(vs),
            forall|k: int| 0 <= k < n ==> idxs@[k] < 0x8_0000_0000,
            n < 0x8000_0000,
            tv == table_view(table@),
            n > 0 ==> w > 0 && l > 0 && w == width && l == length,
            c <= n,
            bs@.len() == c,
            cells_result(vs.take(c as int), tv) matches Ok(sts) && sts.len() == c && forall|k: int|
                0 <= k < c ==> at((#[trigger] bs@[k]).0, cell_pos(0, 0, 0, width as int, length as int, k))
                    && state_view(bs@[k].1) == sts[k],
            forall|k: int| 0 <= k < c ==> pos_in_range(#[trigger] bs@[k].0),
        decreases n - c,
    {
        let v = idxs[c];
        proof {
            assert(vs.take(c + 1).drop_last() =~= vs.take(c as int));
            assert(vs.take(c + 1).last() == vs[c as int]);
            assert(vs[c as int] == v as nat);
        }
        proof {
            assert(tv.len() == table@.len());
        }
        if v >= table.len() as u64 {
            proof {
                lemma_cells_fail(vs, tv, c as int);
            }
            return Err(SchemError::InvalidPaletteIndex { index: v as i64 });
        }
        proof {
            assert(tv[v as int] == opt_view(table@[v as int]));
        }
        match &table[v as usize] {
            None => {
                proof {
                    lemma_cells_fail(vs, tv, c as int);
                }
                return Err(SchemError::MissingPaletteEntry { index: v as i64 });
            },
            Some(st) => {
                let cu = c as u64;
                proof {
                    let wl = w as int * l as int;
                    assert(1 <= wl <= 0x7fff * 0x7fff) by (nonlinear_arith)
                        requires 1 <= w <= 0x7fff, 1 <= l <= 0x7fff, wl == w * l;
                    let ci = cu as int;
                    assert(ci / wl <= ci) by (nonlinear_arith)
                        requires wl >= 1, ci >= 0;
                }
                let x = (cu % w) as i64;
                let y = (cu / (w * l)) as i64;
                let z = ((cu / w) % l) as i64;
                let ghost sv = state_view(*st);
                let ghost before = bs@;
                bs.push((Pos { x, y, z }, copy_state(st)));
                proof {
                    let ghost sts = cells_result(vs.take(c as int), tv)->Ok_0;
                    assert(cells_result(vs.take(c + 1), tv) == Ok::<Seq<StateView>, SchemError>(sts.push(sv)));
                    assert forall|k: int| 0 <= k < c + 1 implies at((#[trigger] bs@[k]).0, cell_pos(0, 0, 0, width as int, length as int, k))
                        && state_view(bs@[k].1) == sts.push(sv)[k] by {
                        if k < c {
                            assert(bs@[k] == before[k]);
                        } else {
                            assert(bs@[k].0 == Pos { x, y, z });
                            assert(x == (c as int) % (width as int));
                            assert(z == ((c as int) / (width as int)) % (length as int));
                            assert(y == (c as int) / ((width as int) * (length as int)));
                        }
                    }
                }
            },
        }
        c = c + 1;
    }
    proof {
        assert(vs.take(n as int) =~= vs);
        assert forall|i: int, j: int| 0 <= i < j < positions(bs@).len() implies positions(bs@)[i] != positions(bs@)[j] by {
            assert(positions(bs@)[i] == bs@[i].0);
            assert(positions(bs@)[j] == bs@[j].0);
            if positions(bs@)[i] == positions(bs@)[j] {
                lemma_cell_pos_injective(width as int, length as int, i, j);
            }
        }
    }
    Ok(bs)
}

/// A block entity as the container stores it: its identifier, its position as
/// three integers, and its other tags.
pub struct SchemBlockEntity {
    pub id: String,
    pub pos: Vec<i32>,
    pub props: Vec<(String, nbt::Value)>,
}

/// The fields of the container's `Schematic` compound.
pub struct SchemFormat {
    pub block_data: Vec<u8>,
    pub block_entities: Vec<SchemBlockEntity>,
    pub data_version: i32,
    pub height: i16,
    pub length: i16,
    pub metadata: Metadata,
    pub offset: Vec<i32>,
    pub palette: Vec<(String, i32)>,
    pub palette_max: i32,
    pub version: i32,
    pub width: i16,
}

/// The version tag written into every container.
pub const FORMAT_VERSION: i32 = 2;

/// What decoding the block data gives: the state of each cell, or the first error.
pub open spec fn block_data_result(data: Seq<u8>, w: int, l: int, tv: Seq<Option<StateView>>) -> Result<Seq<StateView>, SchemError> {
    match read_stream(data, 0) {
        Err(e) => Err(e),
        Ok(vs) => if vs.len() > 0 && (w <= 0 || l <= 0) {
            Err(SchemError::InvalidDimensions)
        } else {
            cells_result(vs, tv)
        },
    }
}

/// The palette entries of `pal`: each text with its index.
pub open spec fn enumerate(pal: Seq<Seq<char>>) -> Seq<(Seq<char>, i32)> {
    Seq::new(pal.len(), |k: int| (pal[k], k as i32))
}

/// The position that a stored block entity names.
pub open spec fn entity_pos(e: SchemBlockEntity) -> Pos {
    Pos { x: e.pos@[0] as i64, y: e.pos@[1] as i64, z: e.pos@[2] as i64 }
}

pub open spec fn entities_ok(es: Seq<SchemBlockEntity>) -> bool {
    forall|k: int| 0 <= k < es.len() ==> (#[trigger] es[k]).pos@.len() == 3
}

/// What decoding a container record gives: the cells' states, or the first error.
pub open spec fn decode_result(f: SchemFormat) -> Result<Seq<StateView>, SchemError> {
    if f.width < 0 || f.length < 0 || f.height < 0 {
        Err(SchemError::InvalidDimensions)
    } else {
        match palette_table(entries_view(f.palette@), f.palette@.len()) {
            Err(e) => Err(e),
            Ok(t) => match block_data_result(f.block_data@, f.width as int, f.length as int, t) {
                Err(e) => Err(e),
                Ok(sts) => if !entities_ok(f.block_entities@) || f.offset@.len() != 3 {
                    Err(SchemError::MalformedPosition)
                } else {
                    Ok(sts)
                },
            },
        }
    }
}

impl Schematic {
    /// Builds the grid from a container record: the palette table, then one block
    /// per cell of the declared width and length, the block entities at their
    /// stored positions, and the other fields as they are.
    pub fn from_format(format: SchemFormat) -> (r: Result<Schematic, SchemError>)
        requires
            format.block_data@.len() < 0x8000_0000,
        ensures
            match decode_result(format) {
                Err(e) => r == Err::<Schematic, SchemError>(e),
                Ok(sts) => r matches Ok(g) && g.wf() && g.spec_blocks().len() == sts.len()
                    && (forall|c: int| 0 <= c < sts.len() ==> at((#[trigger] g.spec_blocks()[c]).0, cell_pos(0, 0, 0, format.width as int, format.length as int, c))
                        && state_view(g.spec_blocks()[c].1) == sts[c])
                    && g.spec_entities().len() == format.block_entities@.len()
                    && (forall|k: int| 0 <= k < g.spec_entities().len() ==> (#[trigger] g.spec_entities()[k]).0
                        == entity_pos(format.block_entities@[format.block_entities@.len() - 1 - k])
                        && g.spec_entities()[k].1.id@ == format.block_entities@[format.block_entities@.len() - 1 - k].id@)
                    && g.original_width == format.width as usize
                    && g.original_length == format.length as usize
                    && g.original_height == format.height as usize
                    && g.original_offset@ == format.offset@
                    && g.original_data_version == format.data_version
                    && g.original_metadata == format.metadata,
            },
    {
        if format.width < 0 || format.length < 0 || format.height < 0 {
            return Err(SchemError::InvalidDimensions);
        }
        let table = decode_palette(&format.palette)?;
        let blocks = decode_block_data(&format.block_data, format.width, format.length, &table)?;
        let ghost fmt = format;
        let ghost sts = block_data_result(format.block_data@, format.width as int, format.length as int, table_view(table@))->Ok_0;
        proof {
            assert(table_view(table@) == table@.map_values(|o: Option<BlockState>| opt_view(o)));
            let bdr = block_data_result(format.block_data@, format.width as int, format.length as int, table_view(table@));
            match read_stream(format.block_data@, 0) {
                Ok(vs) => {
                    if !(vs.len() > 0 && (format.width <= 0 || format.length <= 0)) {
                        match cells_result(vs, table_view(table@)) {
                            Ok(st2) => {
                                assert(bdr == Ok::<Seq<StateView>, SchemError>(st2));
                                assert(sts == st2);
                                lemma_cells_len(vs, table_view(table@));
                                assert(blocks@.len() == vs.len());
                            },
                            Err(e) => {},
                        }
                    }
                },
                Err(e) => {},
            }
            assert(bdr is Ok);
            assert(blocks@.len() == sts.len());
        }
        let SchemFormat { block_entities, data_version, height, length, metadata, offset, width, .. } = format;
        let mut pending = block_entities;
        let ghost all = pending@;
        let mut entities: Vec<(Pos, BlockEntity)> = Vec::new();
        while pending.len() > 0
            invariant
                fmt == format,
                all == fmt.block_entities@,
                offset == fmt.offset,
                width == fmt.width,
                length == fmt.length,
                height == fmt.height,
                data_version == fmt.data_version,
                metadata == fmt.metadata,
                blocks@.len() == sts.len(),
                forall|c: int| 0 <= c < sts.len() ==> at((#[trigger] blocks@[c]).0, cell_pos(0, 0, 0, fmt.width as int, fmt.length as int, c))
                    && state_view(blocks@[c].1) == sts[c],
                distinct(positions(blocks@)),
                forall|c: int| 0 <= c < blocks@.len() ==> pos_in_range(#[trigger] blocks@[c].0),
                decode_result(fmt) == (if !entities_ok(all) || offset@.len() != 3 {
                    Err::<Seq<StateView>, SchemError>(SchemError::MalformedPosition)
                } else {
                    Ok::<Seq<StateView>, SchemError>(sts)
                }),
                entities@.len() + pending@.len() == all.len(),
                pending@ == all.take(pending@.len() as int),
                forall|k: int| 0 <= k < entities@.len() ==> pos_in_range(#[trigger] entities@[k].0),
                forall|k: int| pending@.len() <= k < all.len() ==> (#[trigger] all[k]).pos@.len() == 3,
                forall|k: int| 0 <= k < entities@.len() ==> (#[trigger] entities@[k]).0 == entity_pos(all[all.len() - 1 - k])
                    && entities@[k].1.id@ == all[all.len() - 1 - k].id@,
                forall|k: int| 0 <= k < entities@.len() ==> pos_in_range(#[trigger] entities@[k].0),
            decreases pending@.len(),
        {
            let e = pending.pop().unwrap();
            proof {
                assert(pending@ =~= all.take(pending@.len() as int));
                assert(e == all[pending@.len() as int]);
            }
            if e.pos.len() != 3 {
                proof {
                    assert(!entities_ok(all));
                }
                return Err(SchemError::MalformedPosition);
            }
            let ghost before = entities@;
            let ghost src = e;
            let SchemBlockEntity { id, pos, props } = e;
            let p = Pos { x: pos[0] as i64, y: pos[1] as i64, z: pos[2] as i64 };
            entities.push((p, BlockEntity { id, props }));
            proof {
                assert(src == all[all.len() - 1 - before.len()]);
                assert(entities@[before.len() as int].0 == entity_pos(src));
                assert forall|k: int| 0 <= k < entities@.len() implies (#[trigger] entities@[k]).0 == entity_pos(all[all.len() - 1 - k])
                    && entities@[k].1.id@ == all[all.len() - 1 - k].id@ by {
                    if k < before.len() {
                        assert(entities@[k] == before[k]);
                    }
                }
            }
        }
        proof {
            assert(entities_ok(all));
        }
        if offset.len() != 3 {
            return Err(SchemError::MalformedPosition);
        }
        let original_offset: [i32; 3] = [offset[0], offset[1], offset[2]];
        proof {
            assert(original_offset@ =~= offset@);
        }
        Ok(Schematic {
            original_width: width as usize,
            original_length: length as usize,
            original_height: height as usize,
            original_offset,
            original_data_version: data_version,
            original_metadata: metadata,
            blocks,
            block_entities: entities,
        })
    }

    /// Builds the container record of the grid: the bounding box's extents, its
    /// block data and palette, the block entities, the carried fields and the
    /// format version. Fails with `GridTooLarge` where the box does not fit the
    /// 16-bit sizes or the palette does not fit a 32-bit count.
    pub fn to_format(self) -> (r: Result<SchemFormat, SchemError>)
        requires
            self.wf(),
        ensures
            r is Ok <==> self.fits_format() && dedup(cell_texts(self)).len() <= 0x7fff_ffff,
            r matches Err(e) ==> e == SchemError::GridTooLarge,
            r matches Ok(f) ==> f.block_data@ == varints(cell_indices(cell_texts(self)))
                && entries_view(f.palette@) == enumerate(dedup(cell_texts(self)))
                && f.palette_max == dedup(cell_texts(self)).len()
                && f.width == self.spec_max(0) - self.spec_min(0)
                && f.height == self.spec_max(1) - self.spec_min(1)
                && f.length == self.spec_max(2) - self.spec_min(2)
                && f.block_entities@.len() == self.spec_entities().len()
                && (forall|k: int| 0 <= k < f.block_entities@.len() ==> (#[trigger] f.block_entities@[k]).pos@.len() == 3
                    && entity_pos(f.block_entities@[k]) == self.spec_entities()[self.spec_entities().len() - 1 - k].0
                    && f.block_entities@[k].id@ == self.spec_entities()[self.spec_entities().len() - 1 - k].1.id@)
                && f.offset@ == self.original_offset@
                && f.data_version == self.original_data_version
                && f.metadata == self.original_metadata
                && f.version == FORMAT_VERSION,
    {
        let ghost g = self;
        let (block_data, pal) = self.encode_block_data()?;
        let ghost pv = dedup(cell_texts(self));
        if pal.len() > 0x7fff_ffff {
            return Err(SchemError::GridTooLarge);
        }
        let w = self.len_x() as i16;
        let h = self.len_y() as i16;
        let l = self.len_z() as i16;
        let n = pal.len();
        let mut palette: Vec<(String, i32)> = Vec::new();
        let mut pending = pal;
        let mut k: usize = 0;
        while pending.len() > 0
            invariant
                pv.len() == n <= 0x7fff_ffff,
                k + pending@.len() == n,
                strings_view(pending@) == pv.subrange(k as int, n as int),
                entries_view(palette@) == enumerate(pv).take(k as int),
            decreases pending@.len(),
        {
            let ghost old_pending = pending@;
            let s = pending.remove(0);
            let ghost before = palette@;
            proof {
                assert(strings_view(old_pending)[0] == s@);
                assert(pv.subrange(k as int, n as int)[0] == pv[k as int]);
                assert(pv[k as int] == s@);
                assert forall|i: int| 0 <= i < pending@.len() implies strings_view(pending@)[i] == pv.subrange(k + 1, n as int)[i] by {
                    assert(pending@[i] == old_pending[i + 1]);
                    assert(strings_view(old_pending)[i + 1] == old_pending[i + 1]@);
                    assert(pv.subrange(k as int, n as int)[i + 1] == pv[k + 1 + i]);
                }
                assert(strings_view(pending@) =~= pv.subrange(k + 1, n as int));
            }
            palette.push((s, k as i32));
            proof {
                assert(entries_view(palette@) =~= entries_view(before).push((pv[k as int], k as i32)));
                assert(enumerate(pv).take(k + 1) =~= enumerate(pv).take(k as int).push((pv[k as int], k as i32)));
                assert(entries_view(palette@) =~= enumerate(pv).take(k + 1));
            }
            k = k + 1;
        }
        let Schematic { original_offset, original_data_version, original_metadata, block_entities, .. } = self;
        let mut pending = block_entities;
        let ghost count = pending@.len();
        proof {
            assert(pending@ == g.spec_entities());
            assert(pending@ =~= g.spec_entities().take(pending@.len() as int));
            assert forall|i: int| 0 <= i < pending@.len() implies pos_in_range(#[trigger] pending@[i].0) by {
                assert(pos_in_range(g.spec_entities()[i].0));
            }
        }
        let mut entities: Vec<SchemBlockEntity> = Vec::new();
        while pending.len() > 0
            invariant
                entities@.len() + pending@.len() == count,
                count == g.spec_entities().len(),
                pending@ == g.spec_entities().take(pending@.len() as int),
                forall|i: int| 0 <= i < pending@.len() ==> pos_in_range(#[trigger] pending@[i].0),
                forall|k: int| 0 <= k < entities@.len() ==> (#[trigger] entities@[k]).pos@.len() == 3
                    && entity_pos(entities@[k]) == g.spec_entities()[count - 1 - k].0
                    && entities@[k].id@ == g.spec_entities()[count - 1 - k].1.id@,
            decreases pending@.len(),
        {
            let ghost old_pending = pending@;
            let (p, e) = pending.pop().unwrap();
            proof {
                assert(p == old_pending[old_pending.len() - 1].0);
                assert forall|i: int| 0 <= i < pending@.len() implies pos_in_range(#[trigger] pending@[i].0) by {
                    assert(pending@[i] == old_pending[i]);
                }
            }
            let ghost src = (p, e);
            let ghost before = entities@;
            proof {
                assert(pending@ =~= g.spec_entities().take(pending@.len() as int));
                assert(old_pending[old_pending.len() - 1] == g.spec_entities()[count - 1 - before.len()]);
                assert(pos_in_range(p));
            }
            let BlockEntity { id, props } = e;
            let pos: Vec<i32> = vec![p.x as i32, p.y as i32, p.z as i32];
            entities.push(SchemBlockEntity { id, pos, props });
            proof {
                assert(entities@[before.len() as int].pos@ =~= seq![p.x as i32, p.y as i32, p.z as i32]);
                assert forall|k: int| 0 <= k < entities@.len() implies (#[trigger] entities@[k]).pos@.len() == 3
                    && entity_pos(entities@[k]) == g.spec_entities()[count - 1 - k].0
                    && entities@[k].id@ == g.spec_entities()[count - 1 - k].1.id@ by {
                    if k < before.len() {
                        assert(entities@[k] == before[k]);
                    }
                }
            }
        }
        let offset: Vec<i32> = vec![original_offset[0], original_offset[1], original_offset[2]];
        proof {
            assert(offset@ =~= original_offset@);
            assert(enumerate(pv).take(n as int) =~= enumerate(pv));
        }
        Ok(SchemFormat {
            block_data,
            block_entities: entities,
            data_version: original_data_version,
            height: h,
            length: l,
            metadata: original_metadata,
            offset,
            palette,
            palette_max: n as i32,
            version: FORMAT_VERSION,
            width: w,
        })
    }
}

/// The state at `q` among `bs`: the block's identifier and properties, or air.
pub open spec fn state_at(bs: Seq<(Pos, BlockState)>, q: (int, int, int)) -> StateView {
    if exists|i: int| 0 <= i < bs.len() && at(#[trigger] bs[i].0, q) {
        let i = choose|i: int| 0 <= i < bs.len() && at(#[trigger] bs[i].0, q);
        state_view(bs[i].1)
    } else {
        (AIR@, Seq::empty())
    }
}

pub open spec fn parsed(t: Seq<char>) -> StateView {
    match parse_text(t) {
        Ok(v) => v,
        Err(_) => (Seq::empty(), Seq::empty()),
    }
}

/// Every block state of the grid reads back from its canonical text.
pub open spec fn texts_safe(bs: Seq<(Pos, BlockState)>) -> bool {
    forall|i: int| 0 <= i < bs.len() ==> text_safe((#[trigger] bs[i]).1.spec_id(), bs[i].1.spec_props())
}

proof fn lemma_air_parses()
    ensures
        parse_text(AIR@) == Ok::<StateView, SchemError>((AIR@, Seq::empty())),
{
    reveal_strlit("minecraft:air");
    assert(!AIR@.contains('['));
    lemma_parse_format(AIR@, Seq::empty());
}

proof fn lemma_cell_text_parses(g: Schematic, c: int)
    requires
        g.wf(),
        texts_safe(g.spec_blocks()),
        0 <= c < cell_texts(g).len(),
    ensures
        parse_text(cell_texts(g)[c]) == Ok::<StateView, SchemError>(state_at(
            g.spec_blocks(),
            cell_pos(g.spec_min(0), g.spec_min(1), g.spec_min(2), g.spec_max(0) - g.spec_min(0), g.spec_max(2) - g.spec_min(2), c),
        )),
{
    let bs = g.spec_blocks();
    let q = cell_pos(g.spec_min(0), g.spec_min(1), g.spec_min(2), g.spec_max(0) - g.spec_min(0), g.spec_max(2) - g.spec_min(2), c);
    if exists|i: int| 0 <= i < bs.len() && at(#[trigger] bs[i].0, q) {
        let i = choose|i: int| 0 <= i < bs.len() && at(#[trigger] bs[i].0, q);
        lemma_parse_format(bs[i].1.spec_id(), bs[i].1.spec_props());
    } else {
        lemma_air_parses();
    }
}

/// Every text of the palette reads back.
proof fn lemma_palette_parses(g: Schematic, k: int)
    requires
        g.wf(),
        texts_safe(g.spec_blocks()),
        0 <= k < dedup(cell_texts(g)).len(),
    ensures
        parse_text(dedup(cell_texts(g))[k]) is Ok,
{
    let ts = cell_texts(g);
    let t = dedup(ts)[k];
    assert(dedup(ts).contains(t));
    lemma_dedup_contains(ts, t);
    let c = choose|c: int| 0 <= c < ts.len() && ts[c] == t;
    lemma_cell_text_parses(g, c);
}

proof fn lemma_dedup_distinct(ts: Seq<Seq<char>>)
    ensures
        forall|a: int, b: int| 0 <= a < b < dedup(ts).len() ==> dedup(ts)[a] != dedup(ts)[b],
    decreases ts.len(),
{
    if ts.len() > 0 {
        lemma_dedup_distinct(ts.drop_last());
        let d = dedup(ts.drop_last());
        if !d.contains(ts.last()) {
            assert forall|a: int, b: int| 0 <= a < b < dedup(ts).len() implies dedup(ts)[a] != dedup(ts)[b] by {
                if b == d.len() {
                    assert(dedup(ts)[a] == d[a]);
                }
            }
        }
    }
}

/// The table that the palette of `pal` reads into, after its first `k` entries.
proof fn lemma_table_prefix(pal: Seq<Seq<char>>, k: int)
    requires
        0 <= k <= pal.len() <= 0x7fff_ffff,
        forall|j: int| 0 <= j < pal.len() ==> parse_text(#[trigger] pal[j]) is Ok,
    ensures
        palette_table(enumerate(pal).take(k), pal.len()) == Ok::<Seq<Option<StateView>>, SchemError>(
            Seq::new(pal.len(), |j: int| if j < k { Some(parsed(pal[j])) } else { None }),
        ),
    decreases k,
{
    let es = enumerate(pal).take(k);
    if k == 0 {
        assert(es =~= Seq::<(Seq<char>, i32)>::empty());
        assert(Seq::new(pal.len(), |j: int| if j < k { Some(parsed(pal[j])) } else { None }) =~= Seq::new(pal.len(), |j: int| None::<StateView>));
    } else {
        lemma_table_prefix(pal, k - 1);
        assert(es.drop_last() =~= enumerate(pal).take(k - 1));
        assert(es.last() == (pal[k - 1], (k - 1) as i32));
        let prev = Seq::new(pal.len(), |j: int| if j < k - 1 { Some(parsed(pal[j])) } else { None });
        assert(prev.update(k - 1, Some(parsed(pal[k - 1]))) =~= Seq::new(pal.len(), |j: int| if j < k { Some(parsed(pal[j])) } else { None }));
    }
}

/// The cells' states read from a table where slot `k` holds what `pal[k]` parses to.
proof fn lemma_cells_prefix(ts: Seq<Seq<char>>, k: int)
    requires
        0 <= k <= ts.len(),
        forall|j: int| 0 <= j < ts.len() ==> parse_text(#[trigger] ts[j]) is Ok,
    ensures
        cells_result(cell_indices(ts).take(k), Seq::new(dedup(ts).len(), |j: int| Some(parsed(dedup(ts)[j]))))
            == Ok::<Seq<StateView>, SchemError>(Seq::new(k as nat, |c: int| parsed(ts[c]))),
    decreases k,
{
    let pal = dedup(ts);
    let table = Seq::new(pal.len(), |j: int| Some(parsed(pal[j])));
    let idx = cell_indices(ts);
    if k == 0 {
        assert(idx.take(0) =~= Seq::<nat>::empty());
        assert(Seq::new(0, |c: int| parsed(ts[c])) =~= Seq::<StateView>::empty());
    } else {
        lemma_cells_prefix(ts, k - 1);
        assert(idx.take(k).drop_last() =~= idx.take(k - 1));
        let t = ts[k - 1];
        assert(ts.contains(t));
        lemma_dedup_contains(ts, t);
        lemma_index_of(pal, t);
        assert(idx.take(k).last() == index_of(pal, t));
        assert(pal[index_of(pal, t)] == t);
        assert(Seq::new((k - 1) as nat, |c: int| parsed(ts[c])).push(parsed(t)) =~= Seq::new(k as nat, |c: int| parsed(ts[c])));
    }
}

/// Decoding what encoding made gives back the grid: the palette reads into a table
/// with one state per text, the block data reads back, and cell `c` of the declared
/// box holds the state that the grid has at cell `c` of its bounding box, air where
/// it holds no block. With the positions of `from_format` and `to_format` this is
/// the grid moved to the origin, every cell of its bounding box present.
pub proof fn lemma_codec_round_trip(g: Schematic)
    requires
        g.wf(),
        g.fits_format(),
        dedup(cell_texts(g)).len() <= 0x7fff_ffff,
        texts_safe(g.spec_blocks()),
    ensures
        ({
            let ts = cell_texts(g);
            let pal = dedup(ts);
            let w = g.spec_max(0) - g.spec_min(0);
            let l = g.spec_max(2) - g.spec_min(2);
            let table = Seq::new(pal.len(), |j: int| Some(parsed(pal[j])));
            &&& palette_table(enumerate(pal), pal.len()) == Ok::<Seq<Option<StateView>>, SchemError>(table)
            &&& block_data_result(varints(cell_indices(ts)), w, l, table) == Ok::<Seq<StateView>, SchemError>(
                Seq::new(ts.len(), |c: int| state_at(g.spec_blocks(), cell_pos(g.spec_min(0), g.spec_min(1), g.spec_min(2), w, l, c))),
            )
        }),
{
    let ts = cell_texts(g);
    let pal = dedup(ts);
    let w = g.spec_max(0) - g.spec_min(0);
    let l = g.spec_max(2) - g.spec_min(2);
    let table = Seq::new(pal.len(), |j: int| Some(parsed(pal[j])));
    assert forall|j: int| 0 <= j < pal.len() implies parse_text(#[trigger] pal[j]) is Ok by {
        lemma_palette_parses(g, j);
    }
    lemma_table_prefix(pal, pal.len() as int);
    assert(enumerate(pal).take(pal.len() as int) =~= enumerate(pal));
    assert(Seq::new(pal.len(), |j: int| if j < pal.len() { Some(parsed(pal[j])) } else { None }) =~= table);
    let idx = cell_indices(ts);
    assert forall|c: int| 0 <= c < idx.len() implies idx[c] < pow128(5) by {
        lemma_dedup_contains(ts, ts[c]);
        assert(ts.contains(ts[c]));
        lemma_index_of(pal, ts[c]);
        crate::varint::lemma_pow_bounds(5);
        assert(pow128(5) == 34359738368) by {
            reveal_with_fuel(pow128, 6);
        }
    }
    lemma_varints_round_trip(idx);
    assert forall|c: int| 0 <= c < ts.len() implies parse_text(#[trigger] ts[c]) is Ok by {
        lemma_cell_text_parses(g, c);
    }
    lemma_cells_prefix(ts, ts.len() as int);
    assert(idx.take(ts.len() as int) =~= idx);
    if ts.len() > 0 {
        if g.spec_blocks().len() == 0 {
            assert(positions(g.spec_blocks()).len() == 0);
            assert(w == 0);
        }
        g.lemma_box_nonempty();
    }
    assert forall|c: int| 0 <= c < ts.len() implies parsed(ts[c]) == state_at(g.spec_blocks(), cell_pos(g.spec_min(0), g.spec_min(1), g.spec_min(2), w, l, c)) by {
        lemma_cell_text_parses(g, c);
    }
    assert(Seq::new(ts.len(), |c: int| parsed(ts[c])) =~= Seq::new(ts.len(), |c: int| state_at(g.spec_blocks(), cell_pos(g.spec_min(0), g.spec_min(1), g.spec_min(2), w, l, c))));
}

} // verus!
