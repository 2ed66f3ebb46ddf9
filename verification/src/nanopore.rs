//! Where a channel sits on a flowcell.
use std::collections::HashMap;
use vstd::prelude::*;

verus! {

/// The places of the channels of the two flowcells whose layout follows no
/// rule: for each channel its column and row.
pub struct ChannelLayouts {
    /// The 126 channels of a Flongle.
    pub flongle: HashMap<usize, (usize, usize)>,
    /// The 512 channels of a MinION.
    pub minion: HashMap<usize, (usize, usize)>,
}

/// Column and row of a channel on a flowcell of 3000 channels: twelve
/// blocks of 250 channels side by side, each ten columns wide and filled
/// row by row.
pub open spec fn promethion_coords(channel: usize) -> (usize, usize) {
    (
        (((channel - 1) % 250) % 10 + ((channel - 1) / 250) * 10) as usize,
        (((channel - 1) % 250) / 10) as usize,
    )
}

/// What asking for a channel's place gives.
pub open spec fn coords_of(
    channel: usize,
    flowcell_size: usize,
    flongle: Map<usize, (usize, usize)>,
    minion: Map<usize, (usize, usize)>,
) -> Result<(usize, usize), Seq<char>> {
    if channel > flowcell_size || channel == 0 {
        Err("channel cannot be less than one or above flowcell_size"@)
    } else if flowcell_size == 3000 {
        Ok(promethion_coords(channel))
    } else if flowcell_size == 126 {
        if flongle.dom().contains(channel) {
            Ok(flongle[channel])
        } else {
            Err("channel not found in FLONGLE_CHANNELS"@)
        }
    } else if flowcell_size == 512 {
        if minion.dom().contains(channel) {
            Ok(minion[channel])
        } else {
            Err("channel not found in MINION_CHANNELS"@)
        }
    } else {
        Err("flowcell_size is not recognized"@)
    }
}

/// An answer with its message as text.
pub open spec fn coords_view(r: Result<(usize, usize), String>) -> Result<(usize, usize), Seq<char>> {
    match r {
        Ok(c) => Ok(c),
        Err(m) => Err(m@),
    }
}

/// Returns the coordinates (column, row) of a channel on a flowcell.
pub fn get_coords(channel: usize, flowcell_size: usize, layouts: &ChannelLayouts) -> (r: Result<
    (usize, usize),
    String,
>)
    ensures
        coords_view(r) == coords_of(channel, flowcell_size, layouts.flongle@, layouts.minion@),
{
    broadcast use vstd::std_specs::hash::group_hash_axioms;

    if channel > flowcell_size || channel == 0 {
        return Err("channel cannot be less than one or above flowcell_size".to_owned());
    }
    if flowcell_size == 3000 {
        // find which block of 12 we are in
        let block: usize = (channel - 1) / 250;
        let remainder: usize = (channel - 1) % 250;
        let row: usize = remainder / 10;
        let column: usize = remainder % 10 + block * 10;
        Ok((column, row))
    } else if flowcell_size == 126 {
        match layouts.flongle.get(&channel) {
            Some(coordinates) => Ok(*coordinates),
            None => Err("channel not found in FLONGLE_CHANNELS".to_owned()),
        }
    } else if flowcell_size == 512 {
        match layouts.minion.get(&channel) {
            Some(coordinates) => Ok(*coordinates),
            None => Err("channel not found in MINION_CHANNELS".to_owned()),
        }
    } else {
        Err("flowcell_size is not recognized".to_owned())
    }
}

/// The place of a channel, where it has one.
pub open spec fn place(
    channel: usize,
    flowcell_size: usize,
    flongle: Map<usize, (usize, usize)>,
    minion: Map<usize, (usize, usize)>,
) -> (usize, usize) {
    match coords_of(channel, flowcell_size, flongle, minion) {
        Ok(c) => c,
        Err(_) => (0usize, 0usize),
    }
}

/// Every channel of the flowcell has a place, and no place is at the very
/// end of the machine's numbers.
pub open spec fn layout_complete(
    flowcell_size: usize,
    flongle: Map<usize, (usize, usize)>,
    minion: Map<usize, (usize, usize)>,
) -> bool {
    &&& flowcell_size >= 1
    &&& forall|c: usize|
        1 <= c <= flowcell_size ==> (#[trigger] coords_of(c, flowcell_size, flongle, minion)) is Ok
            && place(c, flowcell_size, flongle, minion).0 < usize::MAX && place(
            c,
            flowcell_size,
            flongle,
            minion,
        ).1 < usize::MAX
}

/// The largest column among the first `k` channels.
pub open spec fn max_col(
    k: nat,
    flowcell_size: usize,
    flongle: Map<usize, (usize, usize)>,
    minion: Map<usize, (usize, usize)>,
) -> usize
    decreases k,
{
    if k == 0 {
        0
    } else {
        let before = max_col((k - 1) as nat, flowcell_size, flongle, minion);
        let here = place(k as usize, flowcell_size, flongle, minion).0;
        if here > before {
            here
        } else {
            before
        }
    }
}

/// The largest row among the first `k` channels.
pub open spec fn max_row(
    k: nat,
    flowcell_size: usize,
    flongle: Map<usize, (usize, usize)>,
    minion: Map<usize, (usize, usize)>,
) -> usize
    decreases k,
{
    if k == 0 {
        0
    } else {
        let before = max_row((k - 1) as nat, flowcell_size, flongle, minion);
        let here = place(k as usize, flowcell_size, flongle, minion).1;
        if here > before {
            here
        } else {
            before
        }
    }
}

/// What stands at a column and row once the first `k` channels are
/// entered: the sum of the channels that sit there.
pub open spec fn cell_sum(
    k: nat,
    flowcell_size: usize,
    flongle: Map<usize, (usize, usize)>,
    minion: Map<usize, (usize, usize)>,
    col: int,
    row: int,
) -> nat
    decreases k,
{
    if k == 0 {
        0
    } else {
        let before = cell_sum((k - 1) as nat, flowcell_size, flongle, minion, col, row);
        let here = place(k as usize, flowcell_size, flongle, minion);
        if here.0 == col && here.1 == row {
            before + k
        } else {
            before
        }
    }
}

/// The flowcell as a grid of channel numbers, the highest row first: as
/// many rows as the largest row and one, as many columns as the largest
/// column and one.
pub open spec fn flowcell_grid(
    flowcell_size: usize,
    flongle: Map<usize, (usize, usize)>,
    minion: Map<usize, (usize, usize)>,
) -> Seq<Seq<usize>> {
    let top = max_row(flowcell_size as nat, flowcell_size, flongle, minion);
    let right = max_col(flowcell_size as nat, flowcell_size, flongle, minion);
    Seq::new(
        (top + 1) as nat,
        |r: int|
            Seq::new(
                (right + 1) as nat,
                |c: int| cell_sum(flowcell_size as nat, flowcell_size, flongle, minion, c, top - r) as usize,
            ),
    )
}

/// The rows of a grid, as sequences.
pub open spec fn rows_view(grid: Seq<Vec<usize>>) -> Seq<Seq<usize>> {
    Seq::new(grid.len(), |r: int| grid[r]@)
}

proof fn lemma_max_bounds(
    k: nat,
    j: nat,
    flowcell_size: usize,
    flongle: Map<usize, (usize, usize)>,
    minion: Map<usize, (usize, usize)>,
)
    requires
        1 <= j <= k,
    ensures
        place(j as usize, flowcell_size, flongle, minion).0 <= max_col(
            k,
            flowcell_size,
            flongle,
            minion,
        ),
        place(j as usize, flowcell_size, flongle, minion).1 <= max_row(
            k,
            flowcell_size,
            flongle,
            minion,
        ),
    decreases k,
{
    if j < k {
        lemma_max_bounds((k - 1) as nat, j, flowcell_size, flongle, minion);
    }
}

proof fn lemma_cell_sum_bound(
    k: nat,
    flowcell_size: usize,
    flongle: Map<usize, (usize, usize)>,
    minion: Map<usize, (usize, usize)>,
    col: int,
    row: int,
)
    ensures
        cell_sum(k, flowcell_size, flongle, minion, col, row) <= k * k,
    decreases k,
{
    if k > 0 {
        lemma_cell_sum_bound((k - 1) as nat, flowcell_size, flongle, minion, col, row);
        assert((k - 1) * (k - 1) + k <= k * k) by (nonlinear_arith)
            requires
                k >= 1,
        ;
    }
}

/// Returns the layout of a flowcell as a grid of channel numbers, row by
/// row, the highest row first. A place where no channel sits holds 0.
pub fn get_flowcell_array(flowcell_size: usize, layouts: &ChannelLayouts) -> (grid: Vec<Vec<usize>>)
    requires
        layout_complete(flowcell_size, layouts.flongle@, layouts.minion@),
    ensures
        rows_view(grid@) == flowcell_grid(flowcell_size, layouts.flongle@, layouts.minion@),
{
    let ghost f = layouts.flongle@;
    let ghost m = layouts.minion@;
    let n: usize = flowcell_size;
    assert(coords_of(1, n, f, m) is Ok);
    assert(n <= 3000);
    let mut coords: Vec<(usize, usize)> = Vec::new();
    let mut top: usize = 0;
    let mut right: usize = 0;
    let mut c: usize = 1;
    while c <= n
        invariant
            1 <= c <= n + 1,
            n <= 3000,
            layout_complete(n, f, m),
            f == layouts.flongle@,
            m == layouts.minion@,
            coords@.len() == c - 1,
            forall|j: int| 0 <= j < c - 1 ==> #[trigger] coords@[j] == place((j + 1) as usize, n, f, m),
            top == max_row((c - 1) as nat, n, f, m),
            right == max_col((c - 1) as nat, n, f, m),
            top < usize::MAX,
            right < usize::MAX,
        decreases n + 1 - c,
    {
        assert(coords_of(c, n, f, m) is Ok);
        let here: (usize, usize) = match get_coords(c, n, layouts) {
            Ok(p) => p,
            Err(_) => (0, 0),
        };
        if here.0 > right {
            right = here.0;
        }
        if here.1 > top {
            top = here.1;
        }
        coords.push(here);
        c = c + 1;
    }
    let height: usize = top + 1;
    let width: usize = right + 1;
    let mut grid: Vec<Vec<usize>> = Vec::new();
    let mut r: usize = 0;
    while r < height
        invariant
            r <= height,
            grid@.len() == r,
            forall|i: int| 0 <= i < r ==> (#[trigger] grid@[i])@.len() == width,
            forall|i: int, j: int| 0 <= i < r && 0 <= j < width ==> (#[trigger] grid@[i]@[j]) == 0,
        decreases height - r,
    {
        let mut row: Vec<usize> = Vec::new();
        let mut k: usize = 0;
        while k < width
            invariant
                k <= width,
                row@.len() == k,
                forall|j: int| 0 <= j < k ==> row@[j] == 0,
            decreases width - k,
        {
            row.push(0);
            k = k + 1;
        }
        grid.push(row);
        r = r + 1;
    }
    let mut i: usize = 0;
    while i < n
        invariant
            i <= n <= 3000,
            coords@.len() == n,
            forall|j: int| 0 <= j < n ==> #[trigger] coords@[j] == place((j + 1) as usize, n, f, m),
            top == max_row(n as nat, n, f, m),
            right == max_col(n as nat, n, f, m),
            height == top + 1,
            width == right + 1,
            grid@.len() == height,
            forall|a: int| 0 <= a < height ==> (#[trigger] grid@[a])@.len() == width,
            forall|a: int, b: int|
                0 <= a < height && 0 <= b < width ==> (#[trigger] grid@[a]@[b]) == cell_sum(
                    i as nat,
                    n,
                    f,
                    m,
                    b,
                    a,
                ),
        decreases n - i,
    {
        let here: (usize, usize) = coords[i];
        proof {
            lemma_max_bounds(n as nat, (i + 1) as nat, n, f, m);
            lemma_cell_sum_bound(i as nat, n, f, m, here.0 as int, here.1 as int);
            assert(i * i <= 3000 * 3000) by (nonlinear_arith)
                requires
                    i <= 3000,
            ;
        }
        let sum: usize = grid[here.1][here.0] + (i + 1);
        grid[here.1][here.0] = sum;
        i = i + 1;
    }
    let mut turned: Vec<Vec<usize>> = Vec::new();
    let ghost filled = grid@;
    while grid.len() > 0
        invariant
            filled.len() == height,
            grid@.len() + turned@.len() == height,
            forall|a: int| 0 <= a < grid@.len() ==> grid@[a] == filled[a],
            forall|a: int| 0 <= a < turned@.len() ==> turned@[a] == filled[height - 1 - a],
        decreases grid.len(),
    {
        let row = grid.pop().unwrap();
        turned.push(row);
    }
    proof {
        let goal = flowcell_grid(n, f, m);
        assert(rows_view(turned@).len() == goal.len());
        assert forall|a: int| 0 <= a < goal.len() implies rows_view(turned@)[a] == goal[a] by {
            assert(turned@[a] == filled[top - a]);
            assert(turned@[a]@ =~= goal[a]);
        }
        assert(rows_view(turned@) =~= goal);
    }
    turned
}

/// Every row of the grid has `width` cells.
pub open spec fn rectangular(grid: Seq<Seq<usize>>, width: int) -> bool {
    forall|r: int| 0 <= r < grid.len() ==> (#[trigger] grid[r]).len() == width
}

/// Piece `k` of a grid that is cut along an axis into pieces of `size` rows
/// (axis 0) or `size` columns (axis 1): the cells of the piece, row by row.
pub open spec fn grid_chunk(grid: Seq<Seq<usize>>, width: int, axis: usize, size: int, k: int) -> Seq<
    usize,
> {
    if axis == 0 {
        Seq::new((size * width) as nat, |j: int| grid[k * size + j / width][j % width])
    } else {
        Seq::new((grid.len() * size) as nat, |j: int| grid[j / size][k * size + j % size])
    }
}

/// The pieces of a grid cut along an axis, where `size` divides the
/// length of that axis.
pub open spec fn grid_chunks(grid: Seq<Seq<usize>>, width: int, axis: usize, size: int) -> Seq<
    Seq<usize>,
> {
    let along = if axis == 0 {
        grid.len() as int
    } else {
        width
    };
    Seq::new((along / size) as nat, |k: int| grid_chunk(grid, width, axis, size, k))
}

/// Cuts a grid along an axis with `ndarray`: the rows become an array of
/// two dimensions with `Array2::from_shape_vec`, `axis_chunks_iter` walks
/// the array along the axis by pieces of `size`, and `iter` hands out the
/// cells of each piece. Believed of them, as their documentation says: the
/// pieces do not overlap and come in order along the axis, each `size`
/// long on that axis where `size` divides its length, and the cells of a
/// piece come in logical order, the last index running fastest.
#[verifier::external_body]
fn axis_chunks(grid: &Vec<Vec<usize>>, width: usize, axis: usize, size: usize) -> (out: Vec<
    Vec<usize>,
>)
    requires
        grid@.len() > 0,
        rectangular(rows_view(grid@), width as int),
        axis < 2,
        size > 0,
        (if axis == 0 {
            grid@.len() as int
        } else {
            width as int
        }) % (size as int) == 0,
    ensures
        rows_view(out@) == grid_chunks(rows_view(grid@), width as int, axis, size as int),
{
    let cells: Vec<usize> = grid.iter().flatten().copied().collect();
    let array = ndarray::Array2::from_shape_vec((grid.len(), width), cells).unwrap();
    array.axis_chunks_iter(ndarray::Axis(axis), size).map(|x| x.iter().cloned().collect()).collect()
}

/// The odd channels of a flowcell, in order.
pub open spec fn odd_channels(flowcell_size: usize) -> Seq<usize> {
    Seq::new((flowcell_size / 2 + flowcell_size % 2) as nat, |i: int| (2 * i + 1) as usize)
}

/// The even channels of a flowcell, in order.
pub open spec fn even_channels(flowcell_size: usize) -> Seq<usize> {
    Seq::new((flowcell_size / 2) as nat, |i: int| (2 * i + 2) as usize)
}

/// The length of the flowcell's grid along an axis: its rows for axis 0,
/// its columns for axis 1.
pub open spec fn flowcell_dim(
    flowcell_size: usize,
    flongle: Map<usize, (usize, usize)>,
    minion: Map<usize, (usize, usize)>,
    axis: usize,
) -> int {
    if axis == 0 {
        max_row(flowcell_size as nat, flowcell_size, flongle, minion) + 1
    } else {
        max_col(flowcell_size as nat, flowcell_size, flongle, minion) + 1
    }
}

/// Generates a flowcell divided into sections.
///
/// If `odd_even` is `true`, the first section holds the odd channels and
/// the second the even channels, from 1 to `flowcell_size`. Else the
/// flowcell's grid is cut into `split` sections of equal size along `axis`
/// (0 for rows, 1 for columns), which `split` must divide.
pub fn generate_flowcell(
    flowcell_size: usize,
    split: usize,
    axis: usize,
    odd_even: bool,
    layouts: &ChannelLayouts,
) -> (out: Vec<Vec<usize>>)
    requires
        !odd_even ==> layout_complete(flowcell_size, layouts.flongle@, layouts.minion@) && split
            > 0 && axis < 2 && flowcell_dim(flowcell_size, layouts.flongle@, layouts.minion@, axis)
            % (split as int) == 0,
    ensures
        odd_even ==> rows_view(out@) == seq![
            odd_channels(flowcell_size),
            even_channels(flowcell_size),
        ],
        !odd_even ==> rows_view(out@) == grid_chunks(
            flowcell_grid(flowcell_size, layouts.flongle@, layouts.minion@),
            flowcell_dim(flowcell_size, layouts.flongle@, layouts.minion@, 1),
            axis,
            flowcell_dim(flowcell_size, layouts.flongle@, layouts.minion@, axis) / (split as int),
        ),
{
    if odd_even {
        let mut odd: Vec<usize> = Vec::new();
        let odds: usize = flowcell_size / 2 + flowcell_size % 2;
        let mut i: usize = 0;
        while i < odds
            invariant
                i <= odds,
                odds == flowcell_size / 2 + flowcell_size % 2,
                odd@.len() == i,
                forall|j: int| 0 <= j < i ==> odd@[j] == (2 * j + 1) as usize,
            decreases odds - i,
        {
            odd.push(2 * i + 1);
            i = i + 1;
        }
        let mut even: Vec<usize> = Vec::new();
        let evens: usize = flowcell_size / 2;
        let mut k: usize = 0;
        while k < evens
            invariant
                k <= evens,
                evens == flowcell_size / 2,
                even@.len() == k,
                forall|j: int| 0 <= j < k ==> even@[j] == (2 * j + 2) as usize,
            decreases evens - k,
        {
            even.push(2 * k + 2);
            k = k + 1;
        }
        let mut out: Vec<Vec<usize>> = Vec::new();
        out.push(odd);
        out.push(even);
        proof {
            assert(odd@ =~= odd_channels(flowcell_size));
            assert(even@ =~= even_channels(flowcell_size));
            assert(rows_view(out@) =~= seq![
                odd_channels(flowcell_size),
                even_channels(flowcell_size),
            ]);
        }
        return out;
    }
    let grid = get_flowcell_array(flowcell_size, layouts);
    let ghost goal = flowcell_grid(flowcell_size, layouts.flongle@, layouts.minion@);
    proof {
        assert(rows_view(grid@).len() == goal.len());
        assert(rows_view(grid@)[0] == goal[0]);
    }
    let height: usize = grid.len();
    let width: usize = grid[0].len();
    let target_dim: usize = if axis == 0 {
        height
    } else {
        width
    };
    proof {
        assert(rectangular(rows_view(grid@), width as int)) by {
            assert forall|r: int| 0 <= r < rows_view(grid@).len() implies (#[trigger] rows_view(
                grid@,
            )[r]).len() == width by {
                assert(rows_view(grid@)[r] == goal[r]);
            }
        }
    }
    proof {
        let size = target_dim as int / split as int;
        vstd::arithmetic::div_mod::lemma_fundamental_div_mod(target_dim as int, split as int);
        assert(target_dim == split * size);
        assert(size > 0) by (nonlinear_arith)
            requires
                target_dim == split * size,
                target_dim >= 1,
                split > 0,
        ;
        vstd::arithmetic::div_mod::lemma_mod_multiples_basic(split as int, size);
    }
    axis_chunks(&grid, width, axis, target_dim / split)
}

} // verus!
