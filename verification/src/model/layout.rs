//! Where the groups of a page go when there is room for two columns.

use vstd::prelude::*;

verus! {

/// A column narrower than this cannot show a label and its value side by side, so the
/// groups fold to a single column rather than wrapping every value.
pub const MIN_COLUMN_WIDTH: i32 = 380;

/// Between columns, and between the groups stacked within one.
pub const GUTTER: i32 = 18;

/// Beyond two the lines are too short to read comfortably at any window size.
pub const MAX_COLUMNS: usize = 2;

/// Where one group ends up.
#[derive(Debug, Clone, Copy, PartialEq, Eq)]
pub struct Placement {
    pub column: usize,
    /// Distance from the top of the container.
    pub top: i32,
}

/// Whether so many columns, each wide enough, fit beside each other.
pub open spec fn fits(width: int, columns: int) -> bool {
    columns * 380 + (columns - 1) * 18 <= width
}

/// How many columns fit, never more than [`MAX_COLUMNS`] and never fewer than
/// one.
#[must_use]
pub fn column_count(width: i32) -> (columns: usize)
    ensures
        1 <= columns <= MAX_COLUMNS,
        columns == (if fits(width as int, 2) {
            2int
        } else {
            1
        }),
{
    let wanted: i32 = MAX_COLUMNS as i32;
    if width < wanted * MIN_COLUMN_WIDTH + (wanted - 1) * GUTTER {
        1
    } else {
        MAX_COLUMNS
    }
}

/// How many columns to use for `groups` of content.
///
/// Never more than fit, and never more than there are groups: a page showing
/// one group gives it the whole width rather than leaving half the pane empty
/// beside it.
#[must_use]
pub fn columns_for(width: i32, groups: usize) -> (columns: usize)
    ensures
        columns == (if fits(width as int, 2) && groups >= 2 {
            2int
        } else {
            1
        }),
{
    let fitting: usize = column_count(width);
    let wanted: usize = if groups > 1 {
        groups
    } else {
        1
    };
    if fitting < wanted {
        fitting
    } else {
        wanted
    }
}

/// The number of columns that `columns` stands for: one for none, and for more
/// than 32 bits can count.
pub open spec fn effective_columns(columns: usize) -> int {
    if columns == 0 || columns > i32::MAX {
        1
    } else {
        columns as int
    }
}

/// What one column gets of `width`, the gutters having been taken out first.
#[must_use]
pub fn column_width(width: i32, columns: usize) -> (each: i32)
    requires
        (effective_columns(columns) - 1) * 18 <= i32::MAX,
        width - (effective_columns(columns) - 1) * 18 >= i32::MIN,
    ensures
        each == ({
            let share = (width - (effective_columns(columns) - 1) * 18) / effective_columns(
                columns,
            );
            if share < 1 {
                1
            } else {
                share
            }
        }),
        // The columns and the gutters between them fill the width, but for what cannot be
        // shared out evenly.
        ({
            let count = effective_columns(columns);
            let filled = each * count + (count - 1) * 18;
            each > 1 ==> filled <= width < filled + count
        }),
{
    let count: i32 = if columns == 0 || columns > i32::MAX as usize {
        1
    } else {
        columns as i32
    };
    let left: i32 = width - (count - 1) * GUTTER;
    if left < count {
        proof {
            let l = left as int;
            let c = count as int;
            assert(l / c < 1) by (nonlinear_arith)
                requires
                    l < c,
                    c >= 1,
            ;
        }
        1
    } else {
        proof {
            let l = left as int;
            let c = count as int;
            assert(l / c >= 1) by (nonlinear_arith)
                requires
                    l >= c,
                    c >= 1,
            ;
            assert((l / c) * c <= l < (l / c) * c + c) by (nonlinear_arith)
                requires
                    c >= 1,
            ;
        }
        left / count
    }
}

/// The leftmost of the shortest columns.
pub open spec fn shortest_of(next: Seq<i32>) -> int
    decreases next.len(),
{
    if next.len() <= 1 {
        0
    } else {
        let best = shortest_of(next.drop_last());
        if next.last() < next[best] {
            next.len() - 1
        } else {
            best
        }
    }
}

/// The greatest of some heights that are not negative; zero when there is none.
pub open spec fn tallest_of(next: Seq<i32>) -> int
    decreases next.len(),
{
    if next.len() == 0 {
        0
    } else if next.last() > tallest_of(next.drop_last()) {
        next.last() as int
    } else {
        tallest_of(next.drop_last())
    }
}

/// What the largest 32-bit number does not exceed.
pub open spec fn capped(value: int) -> i32 {
    if value > i32::MAX {
        i32::MAX
    } else {
        value as i32
    }
}

/// Where a group of this height that starts at `top` lets the next one start.
pub open spec fn below_group(top: i32, height: i32) -> i32 {
    capped(
        top + capped(
            (if height > 0 {
                height
            } else {
                0i32
            }) + 18,
        ),
    )
}

/// Where the next group would start in each column, after placing the groups.
pub open spec fn next_tops(heights: Seq<i32>, columns: nat) -> Seq<i32>
    decreases heights.len(),
{
    if heights.len() == 0 {
        Seq::new(columns, |i: int| 0i32)
    } else {
        let before = next_tops(heights.drop_last(), columns);
        let column = shortest_of(before);
        before.update(column, below_group(before[column], heights.last()))
    }
}

/// Where the group at `index` goes: into the column that is shortest once those
/// before it are placed.
pub open spec fn placement_of(heights: Seq<i32>, columns: nat, index: int) -> Placement {
    let before = next_tops(heights.take(index), columns);
    Placement { column: shortest_of(before) as usize, top: before[shortest_of(before)] }
}

/// Where every group goes.
pub open spec fn placements_of(heights: Seq<i32>, columns: nat) -> Seq<Placement> {
    Seq::new(heights.len(), |i: int| placement_of(heights, columns, i))
}

/// The height that all the groups need together.
pub open spec fn total_height(heights: Seq<i32>, columns: nat) -> int {
    let total = tallest_of(next_tops(heights, columns)) - 18;
    if total > 0 {
        total
    } else {
        0
    }
}

proof fn lemma_shortest(next: Seq<i32>)
    requires
        next.len() > 0,
    ensures
        0 <= shortest_of(next) < next.len(),
        forall|i: int| 0 <= i < next.len() ==> next[shortest_of(next)] <= #[trigger] next[i],
        forall|i: int| 0 <= i < shortest_of(next) ==> next[shortest_of(next)] < #[trigger] next[i],
    decreases next.len(),
{
    if next.len() > 1 {
        let front = next.drop_last();
        lemma_shortest(front);
        assert forall|i: int| 0 <= i < next.len() implies next[shortest_of(next)]
            <= #[trigger] next[i] by {
            if i < front.len() {
                assert(front[i] == next[i]);
            }
        }
        assert forall|i: int| 0 <= i < shortest_of(next) implies next[shortest_of(next)]
            < #[trigger] next[i] by {
            assert(front[i] == next[i]);
        }
    }
}

proof fn lemma_next_tops(heights: Seq<i32>, columns: nat)
    requires
        columns > 0,
    ensures
        next_tops(heights, columns).len() == columns,
        forall|i: int| 0 <= i < columns ==> 0 <= #[trigger] next_tops(heights, columns)[i],
    decreases heights.len(),
{
    if heights.len() > 0 {
        lemma_next_tops(heights.drop_last(), columns);
        lemma_shortest(next_tops(heights.drop_last(), columns));
    }
}

/// The leftmost of the shortest columns: nothing is shorter, and nothing to its
/// left is as short.
fn shortest(next: &Vec<i32>) -> (best: usize)
    requires
        next@.len() > 0,
    ensures
        best == shortest_of(next@),
        best < next@.len(),
{
    let mut best: usize = 0;
    let mut i: usize = 1;
    assert(next@.take(1).len() == 1);
    while i < next.len()
        invariant
            1 <= i <= next@.len(),
            best < i,
            best == shortest_of(next@.take(i as int)),
        decreases next@.len() - i,
    {
        proof {
            assert(next@.take(i + 1).drop_last() =~= next@.take(i as int));
        }
        if next[i] < next[best] {
            best = i;
        }
        i += 1;
    }
    assert(next@.take(i as int) =~= next@);
    best
}

fn tallest(next: &Vec<i32>) -> (height: i32)
    requires
        forall|i: int| 0 <= i < next@.len() ==> 0 <= #[trigger] next@[i],
    ensures
        height == tallest_of(next@),
        height >= 0,
{
    let mut height: i32 = 0;
    let mut i: usize = 0;
    while i < next.len()
        invariant
            i <= next@.len(),
            height >= 0,
            height == tallest_of(next@.take(i as int)),
        decreases next@.len() - i,
    {
        proof {
            assert(next@.take(i + 1).drop_last() =~= next@.take(i as int));
        }
        if next[i] > height {
            height = next[i];
        }
        i += 1;
    }
    assert(next@.take(i as int) =~= next@);
    height
}

/// Place each group, and report the height the whole lot needs.
///
/// Every group goes into whichever column is shortest at the time, so a long
/// group is followed by short ones beside it rather than by empty space. Ties go
/// to the leftmost column, which keeps the reading order left to right for the
/// common case of groups of similar length.
#[must_use]
pub fn place(heights: &[i32], columns: usize) -> (placed: (Vec<Placement>, i32))
    ensures
        placed.0@ == placements_of(
            heights@,
            if columns == 0 {
                1
            } else {
                columns as nat
            },
        ),
        placed.1 == total_height(
            heights@,
            if columns == 0 {
                1
            } else {
                columns as nat
            },
        ),
{
    let count: usize = if columns == 0 {
        1
    } else {
        columns
    };
    let mut next: Vec<i32> = Vec::new();
    let mut c: usize = 0;
    while c < count
        invariant
            c <= count,
            next@ == Seq::new(c as nat, |i: int| 0i32),
        decreases count - c,
    {
        next.push(0);
        assert(next@ =~= Seq::new((c + 1) as nat, |i: int| 0i32));
        c += 1;
    }
    let mut placements: Vec<Placement> = Vec::new();
    let mut i: usize = 0;
    while i < heights.len()
        invariant
            i <= heights@.len(),
            count > 0,
            next@ == next_tops(heights@.take(i as int), count as nat),
            placements@ == placements_of(heights@, count as nat).take(i as int),
        decreases heights@.len() - i,
    {
        proof {
            lemma_next_tops(heights@.take(i as int), count as nat);
            assert(heights@.take(i + 1).drop_last() =~= heights@.take(i as int));
            assert(heights@.take(i + 1).last() == heights@[i as int]);
        }
        let column: usize = shortest(&next);
        let top: i32 = next[column];
        placements.push(Placement { column, top });
        let height: i64 = if heights[i] > 0 {
            heights[i] as i64
        } else {
            0
        };
        let step: i64 = if height + GUTTER as i64 > i32::MAX as i64 {
            i32::MAX as i64
        } else {
            height + GUTTER as i64
        };
        let after: i32 = if top as i64 + step > i32::MAX as i64 {
            i32::MAX
        } else {
            (top as i64 + step) as i32
        };
        next.set(column, after);
        assert(next@ =~= next_tops(heights@.take(i + 1), count as nat));
        i += 1;
        assert(placements@ =~= placements_of(heights@, count as nat).take(i as int));
    }
    proof {
        assert(heights@.take(i as int) =~= heights@);
        lemma_next_tops(heights@, count as nat);
        assert(placements@ =~= placements_of(heights@, count as nat));
    }
    let total: i32 = tallest(&next);
    (placements, if total - GUTTER > 0 { total - GUTTER } else { 0 })
}

/// Every group is put into one of the columns, at or below the top.
pub proof fn law_groups_stay_in_the_columns(heights: Seq<i32>, columns: nat, index: int)
    requires
        0 < columns <= usize::MAX,
        0 <= index < heights.len(),
    ensures
        placements_of(heights, columns)[index].column < columns,
        placements_of(heights, columns)[index].top >= 0,
{
    lemma_next_tops(heights.take(index), columns);
    lemma_shortest(next_tops(heights.take(index), columns));
}

proof fn lemma_tops_grow(heights: Seq<i32>, columns: nat, from: int, to: int, column: int)
    requires
        0 < columns,
        0 <= from <= to <= heights.len(),
        0 <= column < columns,
    ensures
        next_tops(heights.take(from), columns)[column] <= next_tops(
            heights.take(to),
            columns,
        )[column],
    decreases to - from,
{
    if from < to {
        lemma_tops_grow(heights, columns, from, to - 1, column);
        lemma_next_tops(heights.take(to - 1), columns);
        lemma_shortest(next_tops(heights.take(to - 1), columns));
        assert(heights.take(to).drop_last() =~= heights.take(to - 1));
    }
}

/// Of two groups in one column the later starts a gutter below the end of the
/// earlier, as far as 32 bits can count.
pub proof fn law_groups_do_not_overlap(heights: Seq<i32>, columns: nat, earlier: int, later: int)
    requires
        0 < columns <= usize::MAX,
        0 <= earlier < later < heights.len(),
        placements_of(heights, columns)[earlier].column == placements_of(
            heights,
            columns,
        )[later].column,
    ensures
        placements_of(heights, columns)[later].top >= below_group(
            placements_of(heights, columns)[earlier].top,
            heights[earlier],
        ),
{
    lemma_next_tops(heights.take(earlier), columns);
    lemma_shortest(next_tops(heights.take(earlier), columns));
    lemma_next_tops(heights.take(later), columns);
    lemma_shortest(next_tops(heights.take(later), columns));
    let column = shortest_of(next_tops(heights.take(earlier), columns));
    assert(column == shortest_of(next_tops(heights.take(later), columns)));
    assert(heights.take(earlier + 1).drop_last() =~= heights.take(earlier));
    assert(heights.take(earlier + 1).last() == heights[earlier]);
    lemma_tops_grow(heights, columns, earlier + 1, later, column);
}

proof fn lemma_tallest(next: Seq<i32>, column: int)
    requires
        0 <= column < next.len(),
    ensures
        next[column] <= tallest_of(next),
    decreases next.len(),
{
    if column < next.len() - 1 {
        lemma_tallest(next.drop_last(), column);
    }
}

/// Every group ends within the height that is reported, as far as 32 bits can
/// count.
pub proof fn law_groups_fit_the_height(heights: Seq<i32>, columns: nat, index: int)
    requires
        0 < columns <= usize::MAX,
        0 <= index < heights.len(),
    ensures
        below_group(placements_of(heights, columns)[index].top, heights[index]) - 18
            <= total_height(heights, columns),
{
    lemma_next_tops(heights.take(index), columns);
    lemma_shortest(next_tops(heights.take(index), columns));
    let column = shortest_of(next_tops(heights.take(index), columns));
    assert(heights.take(index + 1).drop_last() =~= heights.take(index));
    assert(heights.take(index + 1).last() == heights[index]);
    lemma_tops_grow(heights, columns, index + 1, heights.len() as int, column);
    assert(heights.take(heights.len() as int) =~= heights);
    lemma_next_tops(heights, columns);
    lemma_tallest(next_tops(heights, columns), column);
}

/// A group goes where there is least above it, and to the left of any other column that is as
/// short; the first ones go side by side at the top.
pub proof fn law_groups_go_into_the_shortest_column(
    heights: Seq<i32>,
    columns: nat,
    index: int,
    other: int,
)
    requires
        0 < columns <= usize::MAX,
        0 <= index < heights.len(),
        0 <= other < columns,
    ensures
        ({
            let placed = placements_of(heights, columns)[index];
            let tops = next_tops(heights.take(index), columns);
            &&& placed.top == tops[placed.column as int]
            &&& placed.top <= tops[other]
            &&& other < placed.column ==> placed.top < tops[other]
        }),
        placements_of(heights, columns)[0] == (Placement { column: 0, top: 0 }),
{
    lemma_next_tops(heights.take(index), columns);
    lemma_shortest(next_tops(heights.take(index), columns));
    let empty = next_tops(heights.take(0), columns);
    lemma_next_tops(heights.take(0), columns);
    lemma_shortest(empty);
    assert(heights.take(0).len() == 0);
    if shortest_of(empty) > 0 {
        assert(empty[0] == 0i32);
    }
}

/// In one column the groups stand below each other in their order, eighteen apart.
pub proof fn law_one_column_stacks_the_groups(heights: Seq<i32>, index: int)
    requires
        0 <= index < heights.len() - 1,
        heights[index] >= 0,
        placements_of(heights, 1)[index].top + heights[index] + 18 <= i32::MAX,
    ensures
        placements_of(heights, 1)[index].column == 0,
        placements_of(heights, 1)[index + 1].column == 0,
        placements_of(heights, 1)[index + 1].top == placements_of(heights, 1)[index].top
            + heights[index] + 18,
{
    lemma_next_tops(heights.take(index), 1);
    lemma_next_tops(heights.take(index + 1), 1);
    lemma_shortest(next_tops(heights.take(index), 1));
    lemma_shortest(next_tops(heights.take(index + 1), 1));
    assert(heights.take(index + 1).drop_last() =~= heights.take(index));
    assert(heights.take(index + 1).last() == heights[index]);
}

/// Two columns are used exactly where each of them gets its least width beside the gutter.
pub proof fn law_two_columns_are_wide_enough(width: int)
    ensures
        fits(width, 2) <==> (width - 18) / 2 >= 380,
        fits(width, 1) <==> width >= 380,
{
}

} // verus!
