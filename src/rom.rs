use vstd::prelude::*;
use crate::blockstate::{AIR, BlockState, copy_state};
use crate::error::SchemError;
use crate::schematic::{Pos, Schematic, distinct, positions};

verus! {

/// The identifier of a marker whose bit is clear.
pub const INERT_MARKER: &'static str = "minecraft:soul_wall_torch";

/// The identifier of a marker whose bit is set.
pub const ACTIVE_MARKER: &'static str = "minecraft:redstone_wall_torch";

pub open spec fn is_inert(b: BlockState) -> bool {
    b.spec_id() == INERT_MARKER@
}

/// The positions of the inert markers among `bs`, in order.
pub open spec fn marker_positions(bs: Seq<(Pos, BlockState)>) -> Seq<Pos>
    decreases bs.len(),
{
    if bs.len() == 0 {
        Seq::empty()
    } else if is_inert(bs.last().1) {
        marker_positions(bs.drop_last()).push(bs.last().0)
    } else {
        marker_positions(bs.drop_last())
    }
}

proof fn lemma_markers_from(bs: Seq<(Pos, BlockState)>, k: int)
    requires
        0 <= k < marker_positions(bs).len(),
    ensures
        exists|i: int| 0 <= i < bs.len() && bs[i].0 == marker_positions(bs)[k] && is_inert(bs[i].1),
    decreases bs.len(),
{
    let init = bs.drop_last();
    let ms = marker_positions(bs);
    let mi = marker_positions(init);
    if k < mi.len() {
        lemma_markers_from(init, k);
        let i = choose|i: int| 0 <= i < init.len() && init[i].0 == mi[k] && is_inert(init[i].1);
        assert(bs[i] == init[i]);
        assert(ms[k] == mi[k]);
    } else {
        assert(is_inert(bs.last().1));
        assert(bs[bs.len() - 1] == bs.last());
    }
}

proof fn lemma_markers_distinct(bs: Seq<(Pos, BlockState)>)
    requires
        distinct(positions(bs)),
    ensures
        distinct(marker_positions(bs)),
    decreases bs.len(),
{
    if bs.len() > 0 {
        let init = bs.drop_last();
        let ms = marker_positions(bs);
        let mi = marker_positions(init);
        assert forall|i: int, j: int| 0 <= i < j < positions(init).len() implies positions(init)[i] != positions(init)[j] by {
            assert(positions(init)[i] == positions(bs)[i]);
            assert(positions(init)[j] == positions(bs)[j]);
        }
        lemma_markers_distinct(init);
        if is_inert(bs.last().1) {
            assert forall|k: int| 0 <= k < mi.len() implies mi[k] != bs.last().0 by {
                lemma_markers_from(init, k);
                let i = choose|i: int| 0 <= i < init.len() && init[i].0 == mi[k] && is_inert(init[i].1);
                assert(positions(bs)[i] == init[i].0);
                assert(positions(bs)[bs.len() - 1] == bs.last().0);
            }
            assert(ms == mi.push(bs.last().0));
            assert forall|a: int, b: int| 0 <= a < b < ms.len() implies ms[a] != ms[b] by {
                if b == ms.len() - 1 {
                    assert(ms[a] == mi[a]);
                } else {
                    assert(ms[a] == mi[a] && ms[b] == mi[b]);
                }
            }
        } else {
            assert(ms == mi);
        }
    }
}

/// The positions of all inert markers of the grid, in the grid's order.
pub fn find_soul_torches(schematic: &Schematic) -> (r: Vec<Pos>)
    ensures
        r@ == marker_positions(schematic.spec_blocks()),
{
    let blocks = schematic.blocks();
    let mut res: Vec<Pos> = Vec::new();
    let mut i: usize = 0;
    while i < blocks.len()
        invariant
            blocks@ == schematic.spec_blocks(),
            i <= blocks@.len(),
            res@ == marker_positions(blocks@.take(i as int)),
        decreases blocks@.len() - i,
    {
        proof {
            assert(blocks@.take(i + 1).drop_last() =~= blocks@.take(i as int));
            assert(blocks@.take(i + 1).last() == blocks@[i as int]);
            reveal_strlit("minecraft:soul_wall_torch");
        }
        if blocks[i].1.has_id(INERT_MARKER) {
            res.push(blocks[i].0);
        }
        i = i + 1;
    }
    proof {
        assert(blocks@.take(i as int) =~= blocks@);
    }
    res
}

/// The markers of one memory word: the positions that share `y` and `z`, by
/// ascending `x`.
pub struct BitLine {
    pub y: i64,
    pub z: i64,
    pub bits: Vec<Pos>,
}

pub open spec fn lines_view(ls: Seq<BitLine>) -> Seq<(i64, i64, Seq<Pos>)> {
    ls.map_values(|l: BitLine| (l.y, l.z, l.bits@))
}

/// `ls` groups the markers `ms` by their `(y, z)`: one group for each pair that
/// occurs, holding exactly the markers with that pair, by ascending `x`.
pub open spec fn is_grouping(ms: Seq<Pos>, ls: Seq<(i64, i64, Seq<Pos>)>) -> bool {
    &&& forall|i: int, j: int|
        0 <= i < j < ls.len() ==> (#[trigger] ls[i].0, ls[i].1) != (#[trigger] ls[j].0, ls[j].1)
    &&& forall|i: int, k: int|
        0 <= i < ls.len() && 0 <= k < ls[i].2.len() ==> (#[trigger] ls[i].2[k]).y == ls[i].0
            && ls[i].2[k].z == ls[i].1 && ms.contains(ls[i].2[k])
    &&& forall|i: int, a: int, b: int|
        0 <= i < ls.len() && 0 <= a < b < ls[i].2.len() ==> (#[trigger] ls[i].2[a]).x < (
        #[trigger] ls[i].2[b]).x
    &&& forall|i: int| 0 <= i < ls.len() ==> (#[trigger] ls[i]).2.len() > 0
    &&& forall|m: Pos|
        ms.contains(m) ==> exists|i: int|
            0 <= i < ls.len() && ls[i].0 == m.y && ls[i].1 == m.z && (#[trigger] ls[i].2.contains(m))
}

/// Groups the grid's inert markers into lines by `(y, z)`, each by ascending `x`.
pub fn find_program_lines(schematic: &Schematic) -> (r: Vec<BitLine>)
    requires
        schematic.wf(),
    ensures
        is_grouping(marker_positions(schematic.spec_blocks()), lines_view(r@)),
{
    let ms = find_soul_torches(schematic);
    proof {
        lemma_markers_distinct(schematic.spec_blocks());
    }
    let mut lines: Vec<BitLine> = Vec::new();
    let mut k: usize = 0;
    proof {
        assert(ms@.take(0) =~= Seq::<Pos>::empty());
    }
    while k < ms.len()
        invariant
            distinct(ms@),
            k <= ms@.len(),
            is_grouping(ms@.take(k as int), lines_view(lines@)),
        decreases ms@.len() - k,
    {
        let m = ms[k];
        let ghost done = ms@.take(k as int);
        let ghost next = ms@.take(k + 1);
        let ghost old_ls = lines_view(lines@);
        proof {
            assert(next == done.push(m));
            assert(!done.contains(m)) by {
                if done.contains(m) {
                    let a = choose|a: int| 0 <= a < done.len() && done[a] == m;
                    assert(ms@[a] == ms@[k as int]);
                }
            }
        }
        let mut gi: usize = 0;
        while gi < lines.len() && !(lines[gi].y == m.y && lines[gi].z == m.z)
            invariant
                gi <= lines@.len(),
                forall|j: int| 0 <= j < gi ==> !(lines@[j].y == m.y && lines@[j].z == m.z),
            decreases lines@.len() - gi,
        {
            gi = gi + 1;
        }
        if gi == lines.len() {
            let mut bits: Vec<Pos> = Vec::new();
            bits.push(m);
            assert(bits@ =~= seq![m]);
            let ghost before = lines@;
            lines.push(BitLine { y: m.y, z: m.z, bits });
            proof {
                let ls = lines_view(lines@);
                assert(lines@ == before.push(lines@[lines@.len() - 1]));
                assert(ls[ls.len() - 1] == (m.y, m.z, seq![m]));
                assert(ls =~= old_ls.push((m.y, m.z, seq![m])));
                assert forall|i: int, j: int| 0 <= i < j < ls.len() implies (#[trigger] ls[i].0, ls[i].1) != (#[trigger] ls[j].0, ls[j].1) by {
                    if j == ls.len() - 1 {
                        assert(lines@[i].y == ls[i].0 && lines@[i].z == ls[i].1);
                    } else {
                        assert(ls[i] == old_ls[i] && ls[j] == old_ls[j]);
                    }
                }
                assert forall|i: int, kk: int| 0 <= i < ls.len() && 0 <= kk < ls[i].2.len() implies (#[trigger] ls[i].2[kk]).y == ls[i].0
                    && ls[i].2[kk].z == ls[i].1 && next.contains(ls[i].2[kk]) by {
                    if i < ls.len() - 1 {
                        assert(ls[i] == old_ls[i]);
                        assert(done.contains(ls[i].2[kk]));
                        let a = choose|a: int| 0 <= a < done.len() && done[a] == ls[i].2[kk];
                        assert(next[a] == done[a]);
                    } else {
                        assert(ls[i].2[kk] == m);
                        assert(next[k as int] == m);
                    }
                }
                assert forall|i: int, a: int, b: int| 0 <= i < ls.len() && 0 <= a < b < ls[i].2.len() implies (#[trigger] ls[i].2[a]).x < (#[trigger] ls[i].2[b]).x by {
                    if i < ls.len() - 1 {
                        assert(ls[i] == old_ls[i]);
                    }
                }
                assert forall|i: int| 0 <= i < ls.len() implies (#[trigger] ls[i]).2.len() > 0 by {
                    if i < ls.len() - 1 {
                        assert(ls[i] == old_ls[i]);
                    }
                }
                assert forall|p: Pos| next.contains(p) implies exists|i: int| 0 <= i < ls.len() && ls[i].0 == p.y && ls[i].1 == p.z && (#[trigger] ls[i].2.contains(p)) by {
                    let a = choose|a: int| 0 <= a < next.len() && next[a] == p;
                    if a < done.len() {
                        assert(done[a] == p);
                        assert(done.contains(p));
                        let i = choose|i: int| 0 <= i < old_ls.len() && old_ls[i].0 == p.y && old_ls[i].1 == p.z && (#[trigger] old_ls[i].2.contains(p));
                        assert(ls[i] == old_ls[i]);
                    } else {
                        let i = ls.len() - 1;
                        assert(ls[i].2[0] == p);
                        assert(ls[i].2.contains(p));
                    }
                }
            }
        } else {
            let ghost old_bits = lines@[gi as int].bits@;
            let mut q: usize = 0;
            while q < lines[gi].bits.len() && lines[gi].bits[q].x < m.x
                invariant
                    gi < lines@.len(),
                    old_bits == lines@[gi as int].bits@,
                    q <= old_bits.len(),
                    forall|a: int| 0 <= a < q ==> old_bits[a].x < m.x,
                decreases old_bits.len() - q,
            {
                q = q + 1;
            }
            lines[gi].bits.insert(q, m);
            proof {
                let ls = lines_view(lines@);
                let nb = old_bits.insert(q as int, m);
                assert(ls =~= old_ls.update(gi as int, (m.y, m.z, nb)));
                assert(old_ls[gi as int].0 == m.y && old_ls[gi as int].1 == m.z);
                // every old bit of this line has m's y and z, and differs from m
                assert forall|a: int| 0 <= a < old_bits.len() implies (#[trigger] old_bits[a]).x != m.x by {
                    assert(old_ls[gi as int].2[a] == old_bits[a]);
                    assert(done.contains(old_bits[a]));
                    if old_bits[a].x == m.x {
                        assert(old_bits[a] == m);
                    }
                }
                assert forall|a: int| q <= a < old_bits.len() implies (#[trigger] old_bits[a]).x > m.x by {
                    if q < old_bits.len() {
                        assert(old_bits[q as int].x >= m.x);
                        assert(old_ls[gi as int].2[q as int] == old_bits[q as int]);
                        if a > q {
                            assert(old_ls[gi as int].2[a] == old_bits[a]);
                        }
                    }
                }
                assert forall|i: int, j: int| 0 <= i < j < ls.len() implies (#[trigger] ls[i].0, ls[i].1) != (#[trigger] ls[j].0, ls[j].1) by {
                    assert(ls[i].0 == old_ls[i].0 && ls[i].1 == old_ls[i].1);
                    assert(ls[j].0 == old_ls[j].0 && ls[j].1 == old_ls[j].1);
                }
                assert forall|i: int, kk: int| 0 <= i < ls.len() && 0 <= kk < ls[i].2.len() implies (#[trigger] ls[i].2[kk]).y == ls[i].0
                    && ls[i].2[kk].z == ls[i].1 && next.contains(ls[i].2[kk]) by {
                    let p = ls[i].2[kk];
                    if i != gi {
                        assert(ls[i] == old_ls[i]);
                    } else if kk == q {
                        assert(p == m);
                    } else if kk < q {
                        assert(p == old_bits[kk]);
                        assert(old_ls[i].2[kk] == p);
                    } else {
                        assert(p == old_bits[kk - 1]);
                        assert(old_ls[i].2[kk - 1] == p);
                    }
                    if p == m {
                        assert(next[k as int] == m);
                    } else {
                        assert(done.contains(p));
                        let a = choose|a: int| 0 <= a < done.len() && done[a] == p;
                        assert(next[a] == done[a]);
                    }
                }
                assert forall|i: int, a: int, b: int| 0 <= i < ls.len() && 0 <= a < b < ls[i].2.len() implies (#[trigger] ls[i].2[a]).x < (#[trigger] ls[i].2[b]).x by {
                    if i != gi {
                        assert(ls[i] == old_ls[i]);
                    } else {
                        assert(old_ls[i].2 == old_bits);
                        if a < q && b < q {
                            assert(nb[a] == old_bits[a] && nb[b] == old_bits[b]);
                        } else if a < q && b == q {
                            assert(nb[a] == old_bits[a]);
                        } else if a < q {
                            assert(nb[a] == old_bits[a] && nb[b] == old_bits[b - 1]);
                        } else if a == q {
                            assert(nb[b] == old_bits[b - 1]);
                        } else {
                            assert(nb[a] == old_bits[a - 1] && nb[b] == old_bits[b - 1]);
                        }
                    }
                }
                assert forall|i: int| 0 <= i < ls.len() implies (#[trigger] ls[i]).2.len() > 0 by {
                    if i != gi {
                        assert(ls[i] == old_ls[i]);
                    }
                }
                assert forall|p: Pos| next.contains(p) implies exists|i: int| 0 <= i < ls.len() && ls[i].0 == p.y && ls[i].1 == p.z && (#[trigger] ls[i].2.contains(p)) by {
                    let a = choose|a: int| 0 <= a < next.len() && next[a] == p;
                    if a < done.len() {
                        assert(done[a] == p);
                        assert(done.contains(p));
                        let i = choose|i: int| 0 <= i < old_ls.len() && old_ls[i].0 == p.y && old_ls[i].1 == p.z && (#[trigger] old_ls[i].2.contains(p));
                        if i != gi {
                            assert(ls[i] == old_ls[i]);
                        } else {
                            let c = choose|c: int| 0 <= c < old_bits.len() && old_bits[c] == p;
                            if c < q {
                                assert(nb[c] == p);
                            } else {
                                assert(nb[c + 1] == p);
                            }
                            assert(ls[i].2.contains(p));
                        }
                    } else {
                        assert(nb[q as int] == p);
                        assert(ls[gi as int].2.contains(p));
                    }
                }
            }
        }
        k = k + 1;
    }
    proof {
        assert(ms@.take(k as int) =~= ms@);
    }
    lines
}

/// Fails with `MalformedLayout` unless there are 128 lines of 16 markers each.
pub fn check_layout(lines: &Vec<BitLine>) -> (r: Result<(), SchemError>)
    ensures
        r is Ok <==> well_formed_layout(lines_view(lines@)),
        r matches Err(e) ==> e == SchemError::MalformedLayout,
{
    if lines.len() != 128 {
        return Err(SchemError::MalformedLayout);
    }
    let mut i: usize = 0;
    while i < lines.len()
        invariant
            i <= lines@.len() == 128,
            forall|j: int| 0 <= j < i ==> (#[trigger] lines_view(lines@)[j]).2.len() == 16,
        decreases lines@.len() - i,
    {
        if lines[i].bits.len() != 16 {
            assert(lines_view(lines@)[i as int].2.len() != 16);
            return Err(SchemError::MalformedLayout);
        }
        assert(lines_view(lines@)[i as int].2.len() == 16);
        i = i + 1;
    }
    Ok(())
}

/// 128 lines of 16 markers each.
pub open spec fn well_formed_layout(ls: Seq<(i64, i64, Seq<Pos>)>) -> bool {
    ls.len() == 128 && forall|j: int| 0 <= j < ls.len() ==> (#[trigger] ls[j]).2.len() == 16
}

/// `(y, z)` of `a` comes before that of `b`: lower `y`, or the same `y` and lower `z`.
pub open spec fn key_before(a: (i64, i64, Seq<Pos>), b: (i64, i64, Seq<Pos>)) -> bool {
    a.0 < b.0 || (a.0 == b.0 && a.1 < b.1)
}

/// Line `j` may take the next slot after the lines `used`: it is not placed yet, and
/// unless the slot starts a row of 16, its `z` is above that of the previous line.
pub open spec fn eligible(ls: Seq<(i64, i64, Seq<Pos>)>, used: Seq<int>, j: int) -> bool {
    &&& 0 <= j < ls.len()
    &&& !used.contains(j)
    &&& used.len() % 16 != 0 ==> ls[j].1 > ls[used.last()].1
}

/// Line `j` is the one that the next slot takes: eligible, and no eligible line has
/// a smaller `(y, z)`.
pub open spec fn is_pick(ls: Seq<(i64, i64, Seq<Pos>)>, used: Seq<int>, j: int) -> bool {
    &&& eligible(ls, used, j)
    &&& forall|k: int| #[trigger] eligible(ls, used, k) ==> !key_before(ls[k], ls[j])
}

/// Each slot of `ord` holds the line that the rule picks after the slots before it.
pub open spec fn valid_order(ls: Seq<(i64, i64, Seq<Pos>)>, ord: Seq<int>) -> bool {
    forall|t: int| 0 <= t < ord.len() ==> is_pick(ls, ord.take(t), #[trigger] ord[t])
}

/// No two lines share their `(y, z)`.
pub open spec fn distinct_keys(ls: Seq<(i64, i64, Seq<Pos>)>) -> bool {
    forall|i: int, j: int| 0 <= i < ls.len() && 0 <= j < ls.len() && i != j ==> (#[trigger] ls[i].0, ls[i].1) != (
    #[trigger] ls[j].0, ls[j].1)
}

/// The ordering rule leaves no choice: where no two lines share their `(y, z)`, two
/// orders that both follow it and have the same length are the same order.
pub proof fn lemma_order_unique(ls: Seq<(i64, i64, Seq<Pos>)>, o1: Seq<int>, o2: Seq<int>)
    requires
        distinct_keys(ls),
        valid_order(ls, o1),
        valid_order(ls, o2),
        o1.len() == o2.len(),
    ensures
        o1 == o2,
    decreases o1.len(),
{
    if o1.len() > 0 {
        let n = o1.len() - 1;
        assert forall|t: int| 0 <= t < n implies is_pick(ls, o1.drop_last().take(t), #[trigger] o1.drop_last()[t]) by {
            assert(o1.drop_last().take(t) =~= o1.take(t));
            assert(is_pick(ls, o1.take(t), o1[t]));
        }
        assert forall|t: int| 0 <= t < n implies is_pick(ls, o2.drop_last().take(t), #[trigger] o2.drop_last()[t]) by {
            assert(o2.drop_last().take(t) =~= o2.take(t));
            assert(is_pick(ls, o2.take(t), o2[t]));
        }
        lemma_order_unique(ls, o1.drop_last(), o2.drop_last());
        assert(o1.take(n) =~= o1.drop_last());
        assert(o2.take(n) =~= o2.drop_last());
        let used = o1.take(n);
        assert(is_pick(ls, used, o1[n]));
        assert(is_pick(ls, used, o2[n]));
        let (a, b) = (o1[n], o2[n]);
        assert(eligible(ls, used, a) && eligible(ls, used, b));
        if a != b {
            assert(!key_before(ls[b], ls[a]));
            assert(!key_before(ls[a], ls[b]));
            assert((ls[a].0, ls[a].1) != (ls[b].0, ls[b].1));
        }
        assert(o1 =~= o1.drop_last().push(a));
        assert(o2 =~= o2.drop_last().push(b));
    }
}

pub open spec fn usizes(v: Seq<usize>) -> Seq<int> {
    v.map_values(|x: usize| x as int)
}

/// The lines' slots `0..128`, picked row after row by the ordering rule; fails with
/// `AmbiguousLayout` at the first slot that no line can take.
pub fn pick_order(lines: &Vec<BitLine>) -> (r: Result<Vec<usize>, SchemError>)
    ensures
        r matches Ok(o) ==> o@.len() == 128 && valid_order(lines_view(lines@), usizes(o@)),
        r matches Err(e) ==> e == SchemError::AmbiguousLayout && exists|ord: Seq<int>|
            ord.len() < 128 && valid_order(lines_view(lines@), ord) && forall|j: int|
                !#[trigger] eligible(lines_view(lines@), ord, j),
{
    let ghost ls = lines_view(lines@);
    let n = lines.len();
    let mut placed: Vec<bool> = Vec::new();
    let mut j: usize = 0;
    while j < n
        invariant
            n == lines@.len(),
            j <= n,
            placed@.len() == j,
            forall|a: int| 0 <= a < j ==> !placed@[a],
        decreases n - j,
    {
        placed.push(false);
        j = j + 1;
    }
    let mut order: Vec<usize> = Vec::new();
    let mut thr: i64 = 0;
    let mut t: usize = 0;
    proof {
        assert(usizes(order@) =~= Seq::<int>::empty());
    }
    while t < 128
        invariant
            ls == lines_view(lines@),
            n == lines@.len(),
            placed@.len() == n,
            t == order@.len() <= 128,
            forall|a: int| 0 <= a < n ==> (placed@[a] <==> usizes(order@).contains(a)),
            forall|a: int| 0 <= a < t ==> order@[a] < n,
            t > 0 ==> thr == ls[order@[t - 1] as int].1,
            valid_order(ls, usizes(order@)),
        decreases 128 - t,
    {
        let ghost used = usizes(order@);
        let mut best: usize = n;
        let mut j: usize = 0;
        while j < n
            invariant
                ls == lines_view(lines@),
                n == lines@.len(),
                placed@.len() == n,
                used == usizes(order@),
                t == order@.len() < 128,
                forall|a: int| 0 <= a < n ==> (placed@[a] <==> used.contains(a)),
                t > 0 ==> thr == ls[order@[t - 1] as int].1,
                j <= n,
                best == n || (best < j && eligible(ls, used, best as int)),
                forall|k: int| 0 <= k < j && #[trigger] eligible(ls, used, k) ==> best < n && !key_before(ls[k], ls[best as int]),
            decreases n - j,
        {
            proof {
                assert(ls[j as int] == (lines@[j as int].y, lines@[j as int].z, lines@[j as int].bits@));
                if t > 0 {
                    assert(used.last() == order@[t - 1] as int);
                }
            }
            if !placed[j] && (t % 16 == 0 || lines[j].z > thr) {
                if best == n || lines[j].y < lines[best].y || (lines[j].y == lines[best].y && lines[j].z < lines[best].z) {
                    proof {
                        if best < n {
                            assert(ls[best as int] == (lines@[best as int].y, lines@[best as int].z, lines@[best as int].bits@));
                        }
                    }
                    best = j;
                }
            }
            j = j + 1;
        }
        if best == n {
            proof {
                assert forall|k: int| !#[trigger] eligible(ls, used, k) by {
                    if 0 <= k < n && eligible(ls, used, k) {}
                }
            }
            return Err(SchemError::AmbiguousLayout);
        }
        let ghost before = order@;
        order.push(best);
        placed.set(best, true);
        thr = lines[best].z;
        proof {
            let o = usizes(order@);
            assert(o =~= used.push(best as int));
            assert(o.take(t as int) =~= used);
            assert forall|a: int| 0 <= a < n implies (placed@[a] <==> o.contains(a)) by {
                if a == best {
                    assert(o[t as int] == a);
                } else if placed@[a] {
                    let c = choose|c: int| 0 <= c < used.len() && used[c] == a;
                    assert(o[c] == a);
                } else if o.contains(a) {
                    let c = choose|c: int| 0 <= c < o.len() && o[c] == a;
                    assert(used[c] == a);
                }
            }
            assert forall|tt: int| 0 <= tt < o.len() implies is_pick(ls, o.take(tt), #[trigger] o[tt]) by {
                if tt < t {
                    assert(o.take(tt) =~= used.take(tt));
                    assert(o[tt] == used[tt]);
                }
            }
        }
        t = t + 1;
    }
    Ok(order)
}

fn copy_positions(v: &Vec<Pos>) -> (r: Vec<Pos>)
    ensures
        r@ == v@,
{
    let mut r: Vec<Pos> = Vec::new();
    let mut i: usize = 0;
    while i < v.len()
        invariant
            i <= v@.len(),
            r@ == v@.take(i as int),
        decreases v@.len() - i,
    {
        r.push(v[i]);
        proof {
            assert(r@ =~= v@.take(i + 1));
        }
        i = i + 1;
    }
    proof {
        assert(v@.take(i as int) =~= v@);
    }
    r
}

/// Places the lines into the 128 slots of the address space, 8 rows of 16: each row
/// starts with the line of least `(y, z)` left, and each further slot takes, among
/// the lines left whose `z` is above that of the slot before, the one of least
/// `(y, z)`. Fails with `AmbiguousLayout` where a slot finds no such line.
pub fn order_lines(lines: Vec<BitLine>) -> (r: Result<Vec<Vec<Pos>>, SchemError>)
    ensures
        r matches Ok(out) ==> exists|ord: Seq<int>|
            #![trigger valid_order(lines_view(lines@), ord)]
            ord.len() == 128 && valid_order(lines_view(lines@), ord) && out@.len() == 128 && forall|t: int|
                0 <= t < 128 ==> (#[trigger] out@[t])@ == lines_view(lines@)[ord[t]].2,
        r matches Err(e) ==> e == SchemError::AmbiguousLayout && exists|ord: Seq<int>|
            ord.len() < 128 && valid_order(lines_view(lines@), ord) && forall|j: int|
                !#[trigger] eligible(lines_view(lines@), ord, j),
{
    let order = pick_order(&lines)?;
    let ghost ls = lines_view(lines@);
    let ghost ord = usizes(order@);
    let mut out: Vec<Vec<Pos>> = Vec::new();
    let mut t: usize = 0;
    while t < order.len()
        invariant
            ls == lines_view(lines@),
            ord == usizes(order@),
            order@.len() == 128,
            valid_order(ls, ord),
            t <= 128,
            out@.len() == t,
            forall|a: int| 0 <= a < t ==> (#[trigger] out@[a])@ == ls[ord[a]].2,
        decreases 128 - t,
    {
        let ghost o = ord;
        proof {
            assert(is_pick(ls, ord.take(t as int), ord[t as int]));
            assert(ls[ord[t as int]] == (lines@[order@[t as int] as int].y, lines@[order@[t as int] as int].z, lines@[order@[t as int] as int].bits@));
        }
        let bits = copy_positions(&lines[order[t]].bits);
        out.push(bits);
        t = t + 1;
    }
    Ok(out)
}

/// Bit `b` of `w` is set.
pub open spec fn bit_set(w: u16, b: int) -> bool {
    (w >> (b as u16)) & 1u16 == 1u16
}

/// Position `p` is bit `b` of the line in slot `t`, for a slot that the program
/// reaches and a bit that its word sets.
pub open spec fn activated(ordered: Seq<Seq<Pos>>, program: Seq<u16>, p: Pos) -> bool {
    exists|t: int, b: int|
        0 <= t < ordered.len() && t < program.len() && 0 <= b < 16 && b < ordered[t].len()
            && #[trigger] ordered[t][b] == p && bit_set(program[t], b)
}

pub type StateView = (Seq<char>, Seq<(Seq<char>, Seq<char>)>);

pub open spec fn state_view(b: BlockState) -> StateView {
    (b.spec_id(), b.spec_props())
}

/// What imprinting makes of one block: an inert marker turns active when its bit is
/// set and stays as it is otherwise; every other block becomes air.
pub open spec fn imprint_view(v: StateView, active: bool) -> StateView {
    if v.0 == INERT_MARKER@ {
        if active {
            (ACTIVE_MARKER@, v.1)
        } else {
            v
        }
    } else {
        (AIR@, Seq::empty())
    }
}

pub open spec fn blocks_view(bs: Seq<(Pos, BlockState)>) -> Seq<(Pos, StateView)> {
    bs.map_values(|e: (Pos, BlockState)| (e.0, state_view(e.1)))
}

/// The blocks after imprinting, where `act` tells the positions whose bit is set.
pub open spec fn imprint_blocks(bs: Seq<(Pos, StateView)>, act: Set<Pos>) -> Seq<(Pos, StateView)> {
    bs.map_values(|e: (Pos, StateView)| (e.0, imprint_view(e.1, act.contains(e.0))))
}

pub open spec fn activated_set(ordered: Seq<Seq<Pos>>, program: Seq<u16>) -> Set<Pos> {
    Set::new(|p: Pos| activated(ordered, program, p))
}

/// Imprinting twice is imprinting once, as long as no marker that the first pass
/// leaves inert has its bit set: a marker turned active is no inert marker to the
/// second pass, which clears it to air.
pub proof fn lemma_imprint_idempotent(bs: Seq<(Pos, StateView)>, act: Set<Pos>)
    requires
        forall|i: int| 0 <= i < bs.len() && (#[trigger] bs[i]).1.0 == INERT_MARKER@ ==> !act.contains(bs[i].0),
    ensures
        imprint_blocks(imprint_blocks(bs, act), act) == imprint_blocks(bs, act),
{
    reveal_strlit("minecraft:air");
    reveal_strlit("minecraft:soul_wall_torch");
    let once = imprint_blocks(bs, act);
    assert(AIR@ != INERT_MARKER@) by {
        assert(AIR@.len() != INERT_MARKER@.len());
    }
    assert(imprint_blocks(once, act) =~= once) by {
        assert forall|i: int| 0 <= i < once.len() implies imprint_blocks(once, act)[i] == once[i] by {
            assert(once[i] == (bs[i].0, imprint_view(bs[i].1, act.contains(bs[i].0))));
        }
    }
}

/// Writes the program onto the grid: bit `b` of word `t` sets the `b`-th marker of
/// the line in slot `t`; inert markers whose bit is set become active markers with
/// the same properties, the other inert markers stay, and every other block becomes
/// air. Words past the last slot, and slots past the program's end, are ignored.
pub fn imprint(schematic: Schematic, ordered: &Vec<Vec<Pos>>, program: &Vec<u16>) -> (r: Schematic)
    ensures
        blocks_view(r.spec_blocks()) == imprint_blocks(
            blocks_view(schematic.spec_blocks()),
            activated_set(ordered@.map_values(|l: Vec<Pos>| l@), program@),
        ),
        r.spec_entities() == schematic.spec_entities(),
        r.original_width == schematic.original_width,
        r.original_length == schematic.original_length,
        r.original_height == schematic.original_height,
        r.original_offset == schematic.original_offset,
        r.original_data_version == schematic.original_data_version,
        r.original_metadata == schematic.original_metadata,
        schematic.wf() ==> r.wf(),
{
    let ghost lv = ordered@.map_values(|l: Vec<Pos>| l@);
    let mut set_bits: Vec<Pos> = Vec::new();
    let mut t: usize = 0;
    while t < ordered.len() && t < program.len()
        invariant
            lv == ordered@.map_values(|l: Vec<Pos>| l@),
            t <= ordered@.len(),
            forall|p: Pos| set_bits@.contains(p) <==> exists|tt: int, b: int|
                0 <= tt < t && tt < program@.len() && 0 <= b < 16 && b < lv[tt].len()
                    && #[trigger] lv[tt][b] == p && bit_set(program@[tt], b),
        decreases ordered@.len() - t,
    {
        let word = program[t];
        let mut b: usize = 0;
        while b < 16 && b < ordered[t].len()
            invariant
                lv == ordered@.map_values(|l: Vec<Pos>| l@),
                t < ordered@.len(),
                t < program@.len(),
                word == program@[t as int],
                b <= 16,
                forall|p: Pos| set_bits@.contains(p) <==> exists|tt: int, bb: int|
                    0 <= tt < program@.len() && 0 <= bb < 16 && bb < lv[tt].len() && #[trigger] lv[tt][bb] == p
                        && bit_set(program@[tt], bb) && (0 <= tt < t || (tt == t && bb < b)),
            decreases 16 - b,
        {
            proof {
                assert(lv[t as int] == ordered@[t as int]@);
            }
            let bit = (word >> (b as u16)) & 1u16 == 1u16;
            if bit {
                let ghost before = set_bits@;
                set_bits.push(ordered[t][b]);
                proof {
                    assert(set_bits@ == before.push(lv[t as int][b as int]));
                    assert forall|p: Pos| set_bits@.contains(p) <==> exists|tt: int, bb: int|
                        0 <= tt < program@.len() && 0 <= bb < 16 && bb < lv[tt].len() && #[trigger] lv[tt][bb] == p
                            && bit_set(program@[tt], bb) && (0 <= tt < t || (tt == t && bb < b + 1)) by {
                        if set_bits@.contains(p) {
                            let c = choose|c: int| 0 <= c < set_bits@.len() && set_bits@[c] == p;
                            if c < before.len() {
                                assert(before[c] == p);
                                assert(before.contains(p));
                            } else {
                                assert(lv[t as int][b as int] == p);
                            }
                        }
                        if exists|tt: int, bb: int|
                            0 <= tt < program@.len() && 0 <= bb < 16 && bb < lv[tt].len() && #[trigger] lv[tt][bb] == p
                                && bit_set(program@[tt], bb) && (0 <= tt < t || (tt == t && bb < b + 1)) {
                            let (tt, bb) = choose|tt: int, bb: int|
                                0 <= tt < program@.len() && 0 <= bb < 16 && bb < lv[tt].len() && #[trigger] lv[tt][bb] == p
                                    && bit_set(program@[tt], bb) && (0 <= tt < t || (tt == t && bb < b + 1));
                            if tt == t && bb == b {
                                assert(set_bits@[set_bits@.len() - 1] == p);
                            } else {
                                assert(before.contains(p));
                                let c = choose|c: int| 0 <= c < before.len() && before[c] == p;
                                assert(set_bits@[c] == p);
                            }
                        }
                    }
                }
            } else {
                proof {
                    assert(!bit_set(program@[t as int], b as int));
                }
            }
            b = b + 1;
        }
        proof {
            assert(lv[t as int] == ordered@[t as int]@);
        }
        t = t + 1;
    }
    let ghost act = activated_set(lv, program@);
    proof {
        assert forall|p: Pos| set_bits@.contains(p) <==> act.contains(p) by {
            if set_bits@.contains(p) {
                let (tt, b) = choose|tt: int, b: int|
                    0 <= tt < t && tt < program@.len() && 0 <= b < 16 && b < lv[tt].len()
                        && #[trigger] lv[tt][b] == p && bit_set(program@[tt], b);
                assert(activated(lv, program@, p));
            }
            if act.contains(p) {
                let (tt, b) = choose|tt: int, b: int|
                    0 <= tt < lv.len() && tt < program@.len() && 0 <= b < 16 && b < lv[tt].len()
                        && #[trigger] lv[tt][b] == p && bit_set(program@[tt], b);
                assert(tt < t);
            }
        }
    }
    let mut states: Vec<BlockState> = Vec::new();
    let mut i: usize = 0;
    let ghost bv = blocks_view(schematic.spec_blocks());
    let ghost target = imprint_blocks(bv, act);
    while i < schematic.blocks.len()
        invariant
            bv == blocks_view(schematic.spec_blocks()),
            target == imprint_blocks(bv, act),
            forall|p: Pos| set_bits@.contains(p) <==> act.contains(p),
            i <= schematic.blocks@.len(),
            states@.len() == i,
            forall|k: int| 0 <= k < i ==> state_view(#[trigger] states@[k]) == target[k].1,
        decreases schematic.blocks@.len() - i,
    {
        let pos = schematic.blocks[i].0;
        let st = &schematic.blocks[i].1;
        proof {
            reveal_strlit("minecraft:soul_wall_torch");
            assert(bv[i as int] == (pos, state_view(*st)));
            assert(target[i as int] == (pos, imprint_view(state_view(*st), act.contains(pos))));
        }
        let next = if st.has_id(INERT_MARKER) {
            if contains_pos(&set_bits, pos) {
                st.same_props_new_id(ACTIVE_MARKER)
            } else {
                copy_state(st)
            }
        } else {
            BlockState::air()
        };
        states.push(next);
        i = i + 1;
    }
    let mut r = schematic;
    r.replace_states(states);
    proof {
        assert(blocks_view(r.spec_blocks()) =~= target) by {
            assert forall|k: int| 0 <= k < target.len() implies blocks_view(r.spec_blocks())[k] == target[k] by {
                assert(r.spec_blocks()[k] == (schematic.spec_blocks()[k].0, states@[k]));
                assert(bv[k] == (schematic.spec_blocks()[k].0, state_view(schematic.spec_blocks()[k].1)));
            }
        }
    }
    r
}

fn contains_pos(v: &Vec<Pos>, p: Pos) -> (r: bool)
    ensures
        r == v@.contains(p),
{
    let mut i: usize = 0;
    while i < v.len()
        invariant
            i <= v@.len(),
            forall|k: int| 0 <= k < i ==> v@[k] != p,
        decreases v@.len() - i,
    {
        if v[i] == p {
            return true;
        }
        i = i + 1;
    }
    false
}

pub open spec fn line_bits(ls: Seq<(i64, i64, Seq<Pos>)>, ord: Seq<int>) -> Seq<Seq<Pos>> {
    ord.map_values(|j: int| ls[j].2)
}

/// Programs the memory: finds the inert markers, groups them into lines, orders
/// the lines into the 128 slots and imprints `program` onto them. Fails with
/// `MalformedLayout` unless the markers form 128 lines of 16, and with
/// `AmbiguousLayout` where the ordering finds no line for a slot.
pub fn program_rom(schematic: Schematic, program: Vec<u16>) -> (r: Result<Schematic, SchemError>)
    requires
        schematic.wf(),
    ensures
        r matches Err(e) ==> exists|ls: Seq<(i64, i64, Seq<Pos>)>|
            #![trigger is_grouping(marker_positions(schematic.spec_blocks()), ls)]
            is_grouping(marker_positions(schematic.spec_blocks()), ls) && (if well_formed_layout(ls) {
                e == SchemError::AmbiguousLayout && exists|ord: Seq<int>|
                    ord.len() < 128 && valid_order(ls, ord) && forall|j: int| !#[trigger] eligible(ls, ord, j)
            } else {
                e == SchemError::MalformedLayout
            }),
        r matches Ok(out) ==> exists|ls: Seq<(i64, i64, Seq<Pos>)>, ord: Seq<int>|
            #![trigger is_grouping(marker_positions(schematic.spec_blocks()), ls), valid_order(ls, ord)]
            is_grouping(marker_positions(schematic.spec_blocks()), ls) && well_formed_layout(ls)
                && ord.len() == 128 && valid_order(ls, ord) && blocks_view(out.spec_blocks())
                == imprint_blocks(blocks_view(schematic.spec_blocks()), activated_set(line_bits(ls, ord), program@))
                && out.wf() && out.spec_entities() == schematic.spec_entities()
                && out.original_width == schematic.original_width
                && out.original_length == schematic.original_length
                && out.original_height == schematic.original_height
                && out.original_offset == schematic.original_offset
                && out.original_data_version == schematic.original_data_version
                && out.original_metadata == schematic.original_metadata,
{
    let lines = find_program_lines(&schematic);
    let ghost ls = lines_view(lines@);
    check_layout(&lines)?;
    let ordered = order_lines(lines)?;
    let ghost ord = choose|ord: Seq<int>|
        #![trigger valid_order(ls, ord)]
        ord.len() == 128 && valid_order(ls, ord) && ordered@.len() == 128 && forall|t: int|
            0 <= t < 128 ==> (#[trigger] ordered@[t])@ == ls[ord[t]].2;
    proof {
        assert(ordered@.map_values(|l: Vec<Pos>| l@) =~= line_bits(ls, ord));
    }
    let out = imprint(schematic, &ordered, &program);
    Ok(out)
}

} // verus!
