//! Palettes without repeats: merging blocks into a palette that holds each
//! block once, and mapping the old positions to the new ones.
use vstd::prelude::*;

use crate::block::{block_view, BlockSpec, BlockView};
use crate::schematic::SchematicModel;

verus! {

/// The views of a palette's entries.
pub open spec fn views(p: Seq<BlockSpec>) -> Seq<BlockView> {
    p.map_values(|b: BlockSpec| block_view(b))
}

/// No block occurs twice in `p`.
pub open spec fn distinct_views(p: Seq<BlockView>) -> bool {
    forall|i: int, j: int| 0 <= i < j < p.len() ==> p[i] != p[j]
}

/// `p` with `b` appended, unless `p` already holds it.
pub open spec fn add_view(p: Seq<BlockView>, b: BlockView) -> Seq<BlockView> {
    if p.contains(b) {
        p
    } else {
        p.push(b)
    }
}

/// `p` with each block of `bs` added in turn, skipping those already present.
pub open spec fn extend_views(p: Seq<BlockView>, bs: Seq<BlockView>) -> Seq<BlockView>
    decreases bs.len(),
{
    if bs.len() == 0 {
        p
    } else {
        add_view(extend_views(p, bs.drop_last()), bs.last())
    }
}

/// The position of `b` in `p`.
pub open spec fn view_position(p: Seq<BlockView>, b: BlockView) -> int {
    choose|i: int| 0 <= i < p.len() && p[i] == b
}

/// Where each entry of a region's palette `bs` stands in the merged palette `p`.
pub open spec fn region_map(p: Seq<BlockView>, bs: Seq<BlockView>) -> Seq<u32> {
    Seq::new(bs.len(), |j: int| view_position(p, bs[j]) as u32)
}

/// Adding blocks keeps what was there, in place, and holds every block added;
/// a palette without repeats stays without repeats.
pub proof fn lemma_extend_views(p: Seq<BlockView>, bs: Seq<BlockView>)
    ensures
        p.len() <= extend_views(p, bs).len() <= p.len() + bs.len(),
        forall|i: int| 0 <= i < p.len() ==> #[trigger] extend_views(p, bs)[i] == p[i],
        forall|j: int| 0 <= j < bs.len() ==> extend_views(p, bs).contains(#[trigger] bs[j]),
        distinct_views(p) ==> distinct_views(extend_views(p, bs)),
    decreases bs.len(),
{
    if bs.len() > 0 {
        let u = bs.drop_last();
        lemma_extend_views(p, u);
        let q = extend_views(p, u);
        let b = bs.last();
        let r = extend_views(p, bs);
        assert(r == add_view(q, b));
        assert forall|j: int| 0 <= j < bs.len() implies r.contains(#[trigger] bs[j]) by {
            if j < bs.len() - 1 {
                assert(bs[j] == u[j]);
                assert(q.contains(u[j]));
                let w = choose|w: int| 0 <= w < q.len() && q[w] == u[j];
                assert(r[w] == q[w]);
            } else if q.contains(b) {
            } else {
                assert(r[q.len() as int] == b);
            }
        }
        if distinct_views(p) && !q.contains(b) {
            assert forall|x: int, y: int| 0 <= x < y < r.len() implies r[x] != r[y] by {
                if y == q.len() {
                    assert(r[x] == q[x]);
                }
            }
        }
    }
}

/// In a palette without repeats, a block's position is the one place it stands.
pub proof fn lemma_view_position(p: Seq<BlockView>, b: BlockView, i: int)
    requires
        distinct_views(p),
        0 <= i < p.len(),
        p[i] == b,
    ensures
        view_position(p, b) == i,
{
    let c = view_position(p, b);
    assert(0 <= c < p.len() && p[c] == b);
    if c < i {
        assert(p[c] != p[i]);
    } else if c > i {
        assert(p[i] != p[c]);
    }
}

/// Whether two palette entries name the same block with the same properties.
pub fn same_block(a: &BlockSpec, b: &BlockSpec) -> (r: bool)
    ensures
        r == (block_view(*a) == block_view(*b)),
{
    if !(a.name == b.name) {
        return false;
    }
    if a.properties.len() != b.properties.len() {
        assert(a.props().len() != b.props().len());
        return false;
    }
    let n = a.properties.len();
    let mut i: usize = 0;
    while i < n
        invariant
            n == a.properties@.len(),
            n == b.properties@.len(),
            i <= n,
            forall|j: int| 0 <= j < i ==> #[trigger] a.props()[j] == b.props()[j],
        decreases n - i,
    {
        if !(a.properties[i].0 == b.properties[i].0) || !(a.properties[i].1 == b.properties[i].1) {
            assert(a.props()[i as int] != b.props()[i as int]);
            return false;
        }
        i = i + 1;
    }
    assert(a.props() =~= b.props());
    true
}

/// The position of an entry naming the same block as `b`, if any.
pub fn find_block(palette: &Vec<BlockSpec>, b: &BlockSpec) -> (r: Option<usize>)
    ensures
        match r {
            Some(i) => i < palette@.len() && views(palette@)[i as int] == block_view(*b),
            None => !views(palette@).contains(block_view(*b)),
        },
{
    let mut i: usize = 0;
    while i < palette.len()
        invariant
            i <= palette@.len(),
            forall|j: int| 0 <= j < i ==> #[trigger] views(palette@)[j] != block_view(*b),
        decreases palette@.len() - i,
    {
        if same_block(&palette[i], b) {
            return Some(i);
        }
        i = i + 1;
    }
    proof {
        if views(palette@).contains(block_view(*b)) {
            let w = choose|w: int| 0 <= w < views(palette@).len() && views(palette@)[w] == block_view(*b);
            assert(views(palette@)[w] != block_view(*b));
        }
    }
    None
}

/// Add a region's palette to the merged one, skipping blocks already present,
/// and return where each of the region's entries stands in it.
pub fn merge_palette(palette: &mut Vec<BlockSpec>, rp: Vec<BlockSpec>, Ghost(bs): Ghost<Seq<BlockView>>) -> (map: Vec<u32>)
    requires
        distinct_views(views(old(palette)@)),
        rp@.len() == bs.len(),
        forall|j: int| 0 <= j < bs.len() ==> block_view(#[trigger] rp@[j]) == bs[j],
    ensures
        views(final(palette)@) == extend_views(views(old(palette)@), bs),
        distinct_views(views(final(palette)@)),
        map@ == region_map(views(final(palette)@), bs),
        forall|j: int| 0 <= j < map@.len() ==> #[trigger] map@[j] < final(palette)@.len(),
{
    let ghost old_views = views(palette@);
    let ghost orig = rp@;
    let n = rp.len();
    let mut rp = rp;
    let mut map: Vec<u32> = Vec::new();
    let mut t: usize = 0;
    assert(bs.take(0) =~= Seq::<BlockView>::empty());
    while t < n
        invariant
            n == orig.len(),
            n == bs.len(),
            t <= n,
            rp@ == orig.skip(t as int),
            forall|j: int| 0 <= j < bs.len() ==> block_view(#[trigger] orig[j]) == bs[j],
            views(palette@) == extend_views(old_views, bs.take(t as int)),
            distinct_views(old_views),
            distinct_views(views(palette@)),
            map@.len() == t,
            forall|j: int|
                0 <= j < t ==> views(palette@).contains(#[trigger] bs[j]) && map@[j] == view_position(
                    views(palette@),
                    bs[j],
                ) as u32 && map@[j] < palette@.len(),
        decreases n - t,
    {
        let b = rp.remove(0);
        assert(b == orig[t as int]);
        let ghost vs = views(palette@);
        let ghost bv = bs[t as int];
        proof {
            assert(bs.take(t + 1).drop_last() =~= bs.take(t as int));
            assert(bs.take(t + 1).last() == bv);
            lemma_extend_views(old_views, bs.take(t + 1));
        }
        match find_block(palette, &b) {
            Some(i) => {
                proof {
                    lemma_view_position(vs, bv, i as int);
                    assert(vs.contains(bv));
                }
                let v: u32 = #[verifier::truncate] (i as u32);
                assert(v <= i) by {
                    if i > u32::MAX {
                    }
                }
                map.push(v);
            },
            None => {
                let i = palette.len();
                palette.push(b);
                proof {
                    assert(views(palette@) =~= vs.push(bv));
                    assert(views(palette@) == extend_views(old_views, bs.take(t + 1)));
                    assert forall|j: int| 0 <= j < t implies views(palette@).contains(#[trigger] bs[j])
                        && map@[j] == view_position(views(palette@), bs[j]) as u32 by {
                        let w = choose|w: int| 0 <= w < vs.len() && vs[w] == bs[j];
                        lemma_view_position(vs, bs[j], w);
                        assert(views(palette@)[w] == bs[j]);
                        lemma_view_position(views(palette@), bs[j], w);
                    }
                    lemma_view_position(views(palette@), bv, i as int);
                }
                let v: u32 = #[verifier::truncate] (i as u32);
                assert(v <= i) by {
                    if i > u32::MAX {
                    }
                }
                map.push(v);
            },
        }
        t = t + 1;
    }
    assert(bs.take(n as int) =~= bs);
    assert(map@ =~= region_map(views(palette@), bs));
    map
}

/// `p` with every repeated block dropped, first occurrences kept in order.
pub open spec fn dedup_views(p: Seq<BlockView>) -> Seq<BlockView> {
    extend_views(Seq::empty(), p)
}

/// Cells indexing `p`, moved to index the same blocks in `dedup_views(p)`.
pub open spec fn remap_cells(p: Seq<BlockView>, cells: Seq<u32>) -> Seq<u32> {
    cells.map_values(|c: u32| view_position(dedup_views(p), p[c as int]) as u32)
}

/// A schematic model with its palette's repeats merged and its cells remapped.
pub open spec fn deduped(m: SchematicModel) -> SchematicModel {
    SchematicModel {
        size: m.size,
        palette: dedup_views(m.palette),
        cells: remap_cells(m.palette, m.cells),
        entities: m.entities,
        offset: m.offset,
    }
}

/// Merging repeats keeps every cell's block: the merged palette holds no
/// block twice, and each entry of `p` stands in it at the position its cells
/// are moved to.
pub proof fn law_dedup_keeps_blocks(p: Seq<BlockView>, c: int)
    requires
        0 <= c < p.len(),
    ensures
        distinct_views(dedup_views(p)),
        0 <= view_position(dedup_views(p), p[c]) < dedup_views(p).len(),
        dedup_views(p)[view_position(dedup_views(p), p[c])] == p[c],
{
    lemma_extend_views(Seq::empty(), p);
    assert(dedup_views(p).contains(p[c]));
}

/// Merge the repeated entries of `palette` and move `blocks` along.
pub fn dedup_parts(palette: Vec<BlockSpec>, blocks: Vec<u32>) -> (r: (Vec<BlockSpec>, Vec<u32>))
    requires
        forall|i: int| 0 <= i < blocks@.len() ==> #[trigger] blocks@[i] < palette@.len(),
    ensures
        views(r.0@) == dedup_views(views(palette@)),
        distinct_views(views(r.0@)),
        r.1@ == remap_cells(views(palette@), blocks@),
        forall|i: int| 0 <= i < r.1@.len() ==> #[trigger] r.1@[i] < r.0@.len(),
{
    let ghost pv = views(palette@);
    let n = palette.len();
    let mut out: Vec<BlockSpec> = Vec::new();
    assert(views(out@) =~= Seq::<BlockView>::empty());
    let map = merge_palette(&mut out, palette, Ghost(pv));
    assert(map@.len() == n);
    let mut cells: Vec<u32> = Vec::new();
    let mut i: usize = 0;
    while i < blocks.len()
        invariant
            i <= blocks@.len(),
            map@.len() == n,
            n == pv.len(),
            forall|k: int| 0 <= k < blocks@.len() ==> #[trigger] blocks@[k] < n,
            map@ == region_map(views(out@), pv),
            views(out@) == dedup_views(pv),
            forall|k: int| 0 <= k < map@.len() ==> #[trigger] map@[k] < out@.len(),
            cells@.len() == i,
            forall|k: int| 0 <= k < i ==> #[trigger] cells@[k] == remap_cells(pv, blocks@)[k],
            forall|k: int| 0 <= k < i ==> #[trigger] cells@[k] < out@.len(),
        decreases blocks@.len() - i,
    {
        let b = blocks[i] as usize;
        cells.push(map[b]);
        i = i + 1;
    }
    assert(cells@ =~= remap_cells(pv, blocks@));
    (out, cells)
}

} // verus!
