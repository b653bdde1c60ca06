//! Turning the grid turns the pattern drawn in it.
use vstd::prelude::*;

use crate::bedrock::{BedrockType, Block};
use crate::grid::CellState;

verus! {

/// Two blocks lie at different places.
spec fn apart(a: Block, b: Block) -> bool {
    a.x != b.x || a.y != b.y || a.z != b.z
}

/// The blocks of a pattern lie at different places.
spec fn spread(v: Seq<Block>) -> bool {
    forall|i: int, j: int| 0 <= i < j < v.len() ==> apart(#[trigger] v[i], #[trigger] v[j])
}

proof fn lemma_row_spread(
    line: Seq<CellState>,
    bt: BedrockType,
    y: int,
    x0: int,
    z: int,
    n: int,
)
    requires
        i32::MIN <= x0,
        forall|c: int| 0 <= c < n && #[trigger] line[c] != CellState::Unknown ==> x0 + c <= i32::MAX,
    ensures
        spread(crate::grid::row_blocks(line, bt, y, x0, z, n)),
    decreases n,
{
    if n > 0 {
        lemma_row_spread(line, bt, y, x0, z, n - 1);
        let before = crate::grid::row_blocks(line, bt, y, x0, z, n - 1);
        let after = crate::grid::row_blocks(line, bt, y, x0, z, n);
        assert forall|i: int, j: int| 0 <= i < j < after.len() implies apart(
            #[trigger] after[i],
            #[trigger] after[j],
        ) by {
            if j < before.len() {
                assert(apart(before[i], before[j]));
            } else {
                crate::grid::lemma_row_holds(line, bt, y, x0, z, n - 1, before[i]);
                assert(before.contains(before[i]));
                let c = choose|c: int|
                    0 <= c < n - 1 && #[trigger] line[c] != CellState::Unknown && before[i]
                        == crate::grid::cell_block(line[c], bt, y, x0 + c, z);
                assert(after[i] == before[i]);
                assert(line[n - 1] != CellState::Unknown);
            }
        }
    }
}

/// What is known of a block that stands for a cell of a layer.
proof fn lemma_block_of_layer(
    layer: Seq<Seq<CellState>>,
    bt: BedrockType,
    y: int,
    x0: int,
    z0: int,
    cols: int,
    n: int,
    b: Block,
)
    requires
        crate::grid::layer_blocks(layer, bt, y, x0, z0, cols, n).contains(b),
    ensures
        exists|r: int, c: int|
            0 <= r < n && 0 <= c < cols && #[trigger] layer[r][c] != CellState::Unknown && b
                == crate::grid::cell_block(layer[r][c], bt, y, x0 + c, z0 + r),
{
    crate::grid::lemma_layer_holds(layer, bt, y, x0, z0, cols, n, b);
    let r = choose|r: int|
        0 <= r < n && crate::grid::from_row(#[trigger] layer[r], bt, y, x0, z0 + r, cols, b);
    let c = choose|c: int|
        0 <= c < cols && #[trigger] layer[r][c] != CellState::Unknown && b
            == crate::grid::cell_block(layer[r][c], bt, y, x0 + c, z0 + r);
    assert(layer[r][c] != CellState::Unknown);
}

/// The coordinates of every known cell of the first `n` rows of a layer fit.
spec fn layer_fits(layer: Seq<Seq<CellState>>, x0: int, z0: int, cols: int, n: int) -> bool {
    forall|r: int, c: int|
        0 <= r < n && 0 <= c < cols && #[trigger] layer[r][c] != CellState::Unknown ==> x0 + c
            <= i32::MAX && z0 + r <= i32::MAX
}

proof fn lemma_layer_spread(
    layer: Seq<Seq<CellState>>,
    bt: BedrockType,
    y: int,
    x0: int,
    z0: int,
    cols: int,
    n: int,
)
    requires
        i32::MIN <= x0,
        i32::MIN <= z0,
        layer_fits(layer, x0, z0, cols, n),
    ensures
        spread(crate::grid::layer_blocks(layer, bt, y, x0, z0, cols, n)),
    decreases n,
{
    if n > 0 {
        lemma_layer_spread(layer, bt, y, x0, z0, cols, n - 1);
        let before = crate::grid::layer_blocks(layer, bt, y, x0, z0, cols, n - 1);
        let more = crate::grid::row_blocks(layer[n - 1], bt, y, x0, z0 + n - 1, cols);
        let after = crate::grid::layer_blocks(layer, bt, y, x0, z0, cols, n);
        assert forall|c: int|
            0 <= c < cols && #[trigger] layer[n - 1][c] != CellState::Unknown implies x0 + c
            <= i32::MAX && z0 + n - 1 <= i32::MAX by {
            let r = n - 1;
            assert(layer[r][c] != CellState::Unknown);
        }
        lemma_row_spread(layer[n - 1], bt, y, x0, z0 + n - 1, cols);
        assert forall|i: int, j: int| 0 <= i < j < after.len() implies apart(
            #[trigger] after[i],
            #[trigger] after[j],
        ) by {
            if j < before.len() {
                assert(apart(before[i], before[j]));
            } else if i >= before.len() {
                assert(apart(more[i - before.len()], more[j - before.len()]));
            } else {
                let b = before[i];
                let d = more[j - before.len()];
                assert(before.contains(b));
                assert(more.contains(d));
                lemma_block_of_layer(layer, bt, y, x0, z0, cols, n - 1, b);
                let (r, c) = choose|r: int, c: int|
                    0 <= r < n - 1 && 0 <= c < cols && #[trigger] layer[r][c] != CellState::Unknown
                        && b == crate::grid::cell_block(layer[r][c], bt, y, x0 + c, z0 + r);
                crate::grid::lemma_row_holds(layer[n - 1], bt, y, x0, z0 + n - 1, cols, d);
                let e = choose|e: int|
                    0 <= e < cols && #[trigger] layer[n - 1][e] != CellState::Unknown && d
                        == crate::grid::cell_block(layer[n - 1][e], bt, y, x0 + e, z0 + n - 1);
                assert(layer[r][c] != CellState::Unknown);
                assert(b.z == z0 + r && d.z == z0 + n - 1);
            }
        }
    }
}

proof fn lemma_layers_spread(
    grid: Seq<Seq<Seq<CellState>>>,
    bt: BedrockType,
    x0: int,
    z0: int,
    rows: int,
    cols: int,
    n: int,
)
    requires
        0 <= n <= 4,
        i32::MIN <= x0,
        i32::MIN <= z0,
        crate::grid::pattern_fits(grid, x0, z0, rows, cols),
    ensures
        spread(crate::grid::layers_blocks(grid, bt, x0, z0, rows, cols, n)),
    decreases n,
{
    if n > 0 {
        lemma_layers_spread(grid, bt, x0, z0, rows, cols, n - 1);
        let before = crate::grid::layers_blocks(grid, bt, x0, z0, rows, cols, n - 1);
        let more = crate::grid::layer_blocks(grid[n - 1], bt, n - 1, x0, z0, cols, rows);
        let after = crate::grid::layers_blocks(grid, bt, x0, z0, rows, cols, n);
        assert(layer_fits(grid[n - 1], x0, z0, cols, rows)) by {
            let y = n - 1;
            assert forall|r: int, c: int|
                0 <= r < rows && 0 <= c < cols && #[trigger] grid[y][r][c]
                    != CellState::Unknown implies x0 + c <= i32::MAX && z0 + r <= i32::MAX by {}
        }
        lemma_layer_spread(grid[n - 1], bt, n - 1, x0, z0, cols, rows);
        assert forall|i: int, j: int| 0 <= i < j < after.len() implies apart(
            #[trigger] after[i],
            #[trigger] after[j],
        ) by {
            if j < before.len() {
                assert(apart(before[i], before[j]));
            } else if i >= before.len() {
                assert(apart(more[i - before.len()], more[j - before.len()]));
            } else {
                let b = before[i];
                let d = more[j - before.len()];
                assert(before.contains(b));
                assert(more.contains(d));
                crate::grid::lemma_layers_hold(grid, bt, x0, z0, rows, cols, n - 1, b);
                crate::grid::lemma_layer_holds(grid[n - 1], bt, n - 1, x0, z0, cols, rows, d);
                let y = choose|y: int|
                    0 <= y < n - 1 && crate::grid::from_layer(
                        #[trigger] grid[y],
                        bt,
                        y,
                        x0,
                        z0,
                        cols,
                        rows,
                        b,
                    );
                let heights = crate::bedrock::layer_heights(bt);
                assert(b.y == heights[y]);
                assert(d.y == heights[n - 1]);
                assert(heights[y] != heights[n - 1]);
            }
        }
    }
}

/// The block of a pattern that stands for a known cell.
proof fn lemma_cell_in_pattern(
    grid: Seq<Seq<Seq<CellState>>>,
    bt: BedrockType,
    x0: int,
    z0: int,
    rows: int,
    cols: int,
    y: int,
    r: int,
    c: int,
) -> (i: int)
    requires
        0 <= y < 4,
        0 <= r < rows,
        0 <= c < cols,
        grid[y][r][c] != CellState::Unknown,
    ensures
        ({
            let v = crate::grid::grid_pattern(grid, bt, x0, z0, rows, cols);
            0 <= i < v.len() && v[i] == crate::grid::cell_block(
                grid[y][r][c],
                bt,
                y,
                x0 + c,
                z0 + r,
            )
        }),
{
    let v = crate::grid::grid_pattern(grid, bt, x0, z0, rows, cols);
    let b = crate::grid::cell_block(grid[y][r][c], bt, y, x0 + c, z0 + r);
    assert(crate::grid::from_row(grid[y][r], bt, y, x0, z0 + r, cols, b));
    assert(crate::grid::from_layer(grid[y], bt, y, x0, z0, cols, rows, b));
    crate::grid::law_pattern_holds_known_cells(grid, bt, x0, z0, rows, cols, b);
    choose|i: int| 0 <= i < v.len() && v[i] == b
}

/// The cell that a block of a pattern stands for.
proof fn lemma_pattern_cell(
    grid: Seq<Seq<Seq<CellState>>>,
    bt: BedrockType,
    x0: int,
    z0: int,
    rows: int,
    cols: int,
    i: int,
) -> (p: (int, int, int))
    requires
        0 <= i < crate::grid::grid_pattern(grid, bt, x0, z0, rows, cols).len(),
    ensures
        0 <= p.0 < 4,
        0 <= p.1 < rows,
        0 <= p.2 < cols,
        grid[p.0][p.1][p.2] != CellState::Unknown,
        crate::grid::grid_pattern(grid, bt, x0, z0, rows, cols)[i] == crate::grid::cell_block(
            grid[p.0][p.1][p.2],
            bt,
            p.0,
            x0 + p.2,
            z0 + p.1,
        ),
{
    let v = crate::grid::grid_pattern(grid, bt, x0, z0, rows, cols);
    let b = v[i];
    assert(v.contains(b));
    crate::grid::law_pattern_holds_known_cells(grid, bt, x0, z0, rows, cols, b);
    let y = choose|y: int|
        0 <= y < 4 && crate::grid::from_layer(#[trigger] grid[y], bt, y, x0, z0, cols, rows, b);
    let r = choose|r: int|
        0 <= r < rows && crate::grid::from_row(
            #[trigger] grid[y][r],
            bt,
            y,
            x0,
            z0 + r,
            cols,
            b,
        );
    let c = choose|c: int|
        0 <= c < cols && #[trigger] grid[y][r][c] != CellState::Unknown && b
            == crate::grid::cell_block(grid[y][r][c], bt, y, x0 + c, z0 + r);
    (y, r, c)
}

/// Sequences whose numbers are those of each other moved by `d` have least numbers `d` apart.
proof fn lemma_least_moved(s: Seq<int>, t: Seq<int>, d: int)
    requires
        s.len() > 0,
        t.len() > 0,
        forall|i: int| 0 <= i < s.len() ==> t.contains(#[trigger] s[i] + d),
        forall|j: int| 0 <= j < t.len() ==> s.contains(#[trigger] t[j] - d),
    ensures
        crate::rotations::least(t) == crate::rotations::least(s) + d,
{
    crate::rotations::lemma_least(s);
    crate::rotations::lemma_least(t);
    let i = choose|i: int| 0 <= i < s.len() && #[trigger] s[i] == crate::rotations::least(s);
    let j = choose|j: int| 0 <= j < t.len() && #[trigger] t[j] == crate::rotations::least(t);
    assert(t.contains(s[i] + d));
    assert(s.contains(t[j] - d));
}

/// Two lists without repetitions that hold the same items hold them equally often.
proof fn lemma_same_items<A>(s: Seq<A>, t: Seq<A>)
    requires
        s.no_duplicates(),
        t.no_duplicates(),
        forall|i: int| 0 <= i < s.len() ==> t.contains(#[trigger] s[i]),
        forall|j: int| 0 <= j < t.len() ==> s.contains(#[trigger] t[j]),
    ensures
        s.to_multiset() == t.to_multiset(),
{
    broadcast use vstd::seq_lib::group_to_multiset_ensures;
    broadcast use vstd::multiset::group_multiset_axioms;

    s.lemma_multiset_has_no_duplicates();
    t.lemma_multiset_has_no_duplicates();
    assert forall|a: A| s.to_multiset().count(a) == t.to_multiset().count(a) by {
        if s.contains(a) {
            let i = choose|i: int| 0 <= i < s.len() && s[i] == a;
            assert(t.contains(s[i]));
        }
        if t.contains(a) {
            let j = choose|j: int| 0 <= j < t.len() && t[j] == a;
            assert(s.contains(t[j]));
        }
        assert(s.contains(a) == t.contains(a));
        assert(s.contains(a) <==> s.to_multiset().count(a) > 0);
        assert(t.contains(a) <==> t.to_multiset().count(a) > 0);
    }
    assert(s.to_multiset() =~= t.to_multiset());
}

/// The keys of a rotated pattern do not repeat where its blocks lie at different places.
proof fn lemma_rotated_keys_distinct(v: Seq<Block>, times: int)
    requires
        spread(v),
        crate::rotations::rotation_fits(v, times),
    ensures
        crate::rotations::block_keys(crate::rotations::rotated(v, times)).no_duplicates(),
{
    let w = crate::rotations::rotated(v, times);
    let keys = crate::rotations::block_keys(w);
    assert forall|i: int, j: int| 0 <= i < j < keys.len() implies keys[i] != keys[j] by {
        assert(apart(v[i], v[j]));
        assert(crate::rotations::is_i32(crate::rotations::turned_x(v[i], times)));
        assert(crate::rotations::is_i32(crate::rotations::turned_x(v[j], times)));
        assert(keys[i] == crate::rotations::block_key(w[i]));
        assert(keys[j] == crate::rotations::block_key(w[j]));
    }
}

/// Turning the grid by a quarter clockwise turns the pattern drawn in it by a quarter clockwise:
/// apart from where they start, both are of the same shape.
pub proof fn law_grid_turn_turns_pattern(
    grid: Seq<Seq<Seq<CellState>>>,
    bt: BedrockType,
    x0: int,
    z0: int,
    rows: int,
    cols: int,
)
    requires
        0 <= rows,
        0 <= cols,
        crate::grid::grid_is(grid, rows, cols),
        i32::MIN <= x0,
        i32::MIN <= z0,
        crate::grid::pattern_fits(grid, x0, z0, rows, cols),
        crate::grid::pattern_fits(
            crate::grid::turned_layers(grid, rows, cols, true),
            x0,
            z0,
            cols,
            rows,
        ),
        crate::rotations::rotation_fits(
            crate::grid::grid_pattern(grid, bt, x0, z0, rows, cols),
            1,
        ),
        crate::rotations::rotation_fits(
            crate::grid::grid_pattern(
                crate::grid::turned_layers(grid, rows, cols, true),
                bt,
                x0,
                z0,
                cols,
                rows,
            ),
            0,
        ),
    ensures
        crate::rotations::same_shape(
            crate::rotations::rotated(
                crate::grid::grid_pattern(grid, bt, x0, z0, rows, cols),
                1,
            ),
            crate::rotations::rotated(
                crate::grid::grid_pattern(
                    crate::grid::turned_layers(grid, rows, cols, true),
                    bt,
                    x0,
                    z0,
                    cols,
                    rows,
                ),
                0,
            ),
        ),
{
    let turned = crate::grid::turned_layers(grid, rows, cols, true);
    let v = crate::grid::grid_pattern(grid, bt, x0, z0, rows, cols);
    let w = crate::grid::grid_pattern(turned, bt, x0, z0, cols, rows);
    lemma_layers_spread(grid, bt, x0, z0, rows, cols, 4);
    lemma_layers_spread(turned, bt, x0, z0, cols, rows, 4);
    lemma_rotated_keys_distinct(v, 1);
    lemma_rotated_keys_distinct(w, 0);
    let dx = x0 + z0 + rows - 1;
    let dz = z0 - x0;
    assert forall|i: int| 0 <= i < v.len() implies has_counterpart(#[trigger] v[i], w, dx, dz) by {
        let p = lemma_pattern_cell(grid, bt, x0, z0, rows, cols, i);
        assert(turned[p.0][p.2][rows - 1 - p.1] == grid[p.0][p.1][p.2]);
        let j = lemma_cell_in_pattern(
            turned,
            bt,
            x0,
            z0,
            cols,
            rows,
            p.0,
            p.2,
            rows - 1 - p.1,
        );
        assert(is_counterpart(v[i], w[j], dx, dz));
    }
    assert forall|j: int| 0 <= j < w.len() implies is_counterpart_of_some(
        v,
        #[trigger] w[j],
        dx,
        dz,
    ) by {
        let p = lemma_pattern_cell(turned, bt, x0, z0, cols, rows, j);
        assert(turned[p.0][p.1][p.2] == grid[p.0][rows - 1 - p.2][p.1]);
        let i = lemma_cell_in_pattern(
            grid,
            bt,
            x0,
            z0,
            rows,
            cols,
            p.0,
            rows - 1 - p.2,
            p.1,
        );
        assert(is_counterpart(v[i], w[j], dx, dz));
    }
    lemma_counterparts_same_shape(v, w, dx, dz);
}

/// A block after a quarter turn lies `(dx, dz)` away from another, which demands the same at the
/// same height.
spec fn is_counterpart(a: Block, b: Block, dx: int, dz: int) -> bool {
    &&& b.x == -a.z + dx
    &&& b.z == a.x + dz
    &&& a.y == b.y
    &&& a.should_be_bedrock == b.should_be_bedrock
}

spec fn has_counterpart(a: Block, w: Seq<Block>, dx: int, dz: int) -> bool {
    exists|j: int| 0 <= j < w.len() && is_counterpart(a, #[trigger] w[j], dx, dz)
}

spec fn is_counterpart_of_some(v: Seq<Block>, b: Block, dx: int, dz: int) -> bool {
    exists|i: int| 0 <= i < v.len() && is_counterpart(#[trigger] v[i], b, dx, dz)
}

proof fn lemma_counterparts_least(v: Seq<Block>, w: Seq<Block>, dx: int, dz: int)
    requires
        v.len() > 0,
        forall|i: int| 0 <= i < v.len() ==> has_counterpart(#[trigger] v[i], w, dx, dz),
        forall|j: int| 0 <= j < w.len() ==> is_counterpart_of_some(v, #[trigger] w[j], dx, dz),
    ensures
        crate::rotations::least(crate::rotations::turned_xs(w, 0)) == crate::rotations::least(
            crate::rotations::turned_xs(v, 1),
        ) + dx,
        crate::rotations::least(crate::rotations::turned_zs(w, 0)) == crate::rotations::least(
            crate::rotations::turned_zs(v, 1),
        ) + dz,
{
    let vx = crate::rotations::turned_xs(v, 1);
    let vz = crate::rotations::turned_zs(v, 1);
    let wx = crate::rotations::turned_xs(w, 0);
    let wz = crate::rotations::turned_zs(w, 0);
    assert(has_counterpart(v[0], w, dx, dz));
    assert forall|i: int| 0 <= i < vx.len() implies wx.contains(#[trigger] vx[i] + dx) by {
        assert(has_counterpart(v[i], w, dx, dz));
        let j = choose|j: int| 0 <= j < w.len() && is_counterpart(v[i], #[trigger] w[j], dx, dz);
        assert(wx[j] == vx[i] + dx);
    }
    assert forall|j: int| 0 <= j < wx.len() implies vx.contains(#[trigger] wx[j] - dx) by {
        assert(is_counterpart_of_some(v, w[j], dx, dz));
        let i = choose|i: int| 0 <= i < v.len() && is_counterpart(#[trigger] v[i], w[j], dx, dz);
        assert(vx[i] == wx[j] - dx);
    }
    lemma_least_moved(vx, wx, dx);
    assert forall|i: int| 0 <= i < vz.len() implies wz.contains(#[trigger] vz[i] + dz) by {
        assert(has_counterpart(v[i], w, dx, dz));
        let j = choose|j: int| 0 <= j < w.len() && is_counterpart(v[i], #[trigger] w[j], dx, dz);
        assert(wz[j] == vz[i] + dz);
    }
    assert forall|j: int| 0 <= j < wz.len() implies vz.contains(#[trigger] wz[j] - dz) by {
        assert(is_counterpart_of_some(v, w[j], dx, dz));
        let i = choose|i: int| 0 <= i < v.len() && is_counterpart(#[trigger] v[i], w[j], dx, dz);
        assert(vz[i] == wz[j] - dz);
    }
    lemma_least_moved(vz, wz, dz);
}

/// Counterparts have the same key once their patterns are rotated and moved.
proof fn lemma_counterpart_key(v: Seq<Block>, w: Seq<Block>, dx: int, dz: int, i: int, j: int)
    requires
        0 <= i < v.len(),
        0 <= j < w.len(),
        is_counterpart(v[i], w[j], dx, dz),
        crate::rotations::least(crate::rotations::turned_xs(w, 0)) == crate::rotations::least(
            crate::rotations::turned_xs(v, 1),
        ) + dx,
        crate::rotations::least(crate::rotations::turned_zs(w, 0)) == crate::rotations::least(
            crate::rotations::turned_zs(v, 1),
        ) + dz,
    ensures
        crate::rotations::block_keys(crate::rotations::rotated(v, 1))[i]
            == crate::rotations::block_keys(crate::rotations::rotated(w, 0))[j],
{
}

proof fn lemma_counterparts_same_shape(v: Seq<Block>, w: Seq<Block>, dx: int, dz: int)
    requires
        crate::rotations::block_keys(crate::rotations::rotated(v, 1)).no_duplicates(),
        crate::rotations::block_keys(crate::rotations::rotated(w, 0)).no_duplicates(),
        forall|i: int| 0 <= i < v.len() ==> has_counterpart(#[trigger] v[i], w, dx, dz),
        forall|j: int| 0 <= j < w.len() ==> is_counterpart_of_some(v, #[trigger] w[j], dx, dz),
    ensures
        crate::rotations::same_shape(
            crate::rotations::rotated(v, 1),
            crate::rotations::rotated(w, 0),
        ),
{
    let ka = crate::rotations::block_keys(crate::rotations::rotated(v, 1));
    let kb = crate::rotations::block_keys(crate::rotations::rotated(w, 0));
    assert forall|i: int| 0 <= i < ka.len() implies kb.contains(#[trigger] ka[i]) by {
        assert(has_counterpart(v[i], w, dx, dz));
        let j = choose|j: int| 0 <= j < w.len() && is_counterpart(v[i], #[trigger] w[j], dx, dz);
        lemma_counterparts_least(v, w, dx, dz);
        lemma_counterpart_key(v, w, dx, dz, i, j);
        assert(kb[j] == ka[i]);
    }
    assert forall|j: int| 0 <= j < kb.len() implies ka.contains(#[trigger] kb[j]) by {
        assert(is_counterpart_of_some(v, w[j], dx, dz));
        let i = choose|i: int| 0 <= i < v.len() && is_counterpart(#[trigger] v[i], w[j], dx, dz);
        lemma_counterparts_least(v, w, dx, dz);
        lemma_counterpart_key(v, w, dx, dz, i, j);
        assert(ka[i] == kb[j]);
    }
    lemma_same_items(ka, kb);
}

/// No two blocks of a pattern drawn in a grid lie at the same place, so there are as many blocks as
/// known cells.
pub proof fn law_no_place_is_stated_twice(
    grid: Seq<Seq<Seq<CellState>>>,
    bt: BedrockType,
    x0: i32,
    z0: i32,
    rows: int,
    cols: int,
    i: int,
    j: int,
)
    requires
        crate::grid::pattern_fits(grid, x0 as int, z0 as int, rows, cols),
        0 <= i < j < crate::grid::grid_pattern(
            grid,
            bt,
            x0 as int,
            z0 as int,
            rows,
            cols,
        ).len(),
    ensures
        ({
            let v = crate::grid::grid_pattern(grid, bt, x0 as int, z0 as int, rows, cols);
            (v[i].x, v[i].y, v[i].z) != (v[j].x, v[j].y, v[j].z)
        }),
{
    lemma_layers_spread(grid, bt, x0 as int, z0 as int, rows, cols, 4);
    let v = crate::grid::grid_pattern(grid, bt, x0 as int, z0 as int, rows, cols);
    assert(apart(v[i], v[j]));
}

} // verus!
