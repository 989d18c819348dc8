//! The colour table of a frame: the distinct colours of a model, in the order
//! in which its voxel list first uses them.

use vstd::prelude::*;
use crate::model::{palette_covers, voxel_colors, Color, Voxel};

verus! {

/// `i` is the first position at which `color` stands in `colors`.
pub open spec fn first_at(colors: Seq<Color>, color: Color, i: int) -> bool {
    &&& 0 <= i < colors.len()
    &&& colors[i] == color
    &&& forall|j: int| 0 <= j < i ==> colors[j] != color
}

/// The first position of `color` in `colors`; 0 where `colors` does not hold it.
pub open spec fn color_index(colors: Seq<Color>, color: Color) -> int {
    if exists|i: int| first_at(colors, color, i) {
        choose|i: int| first_at(colors, color, i)
    } else {
        0
    }
}

/// The colour table of a sequence of colours: each colour once, in the order
/// of first use.
pub open spec fn palette_table(colors: Seq<Color>) -> Seq<Color>
    decreases colors.len(),
{
    if colors.len() == 0 {
        Seq::empty()
    } else {
        let before = palette_table(colors.drop_last());
        if before.contains(colors.last()) {
            before
        } else {
            before.push(colors.last())
        }
    }
}

/// A colour has at most one first position, and `color_index` names it.
pub proof fn lemma_color_index_is_first(colors: Seq<Color>, color: Color, i: int)
    requires
        first_at(colors, color, i),
    ensures
        color_index(colors, color) == i,
{
    let c = color_index(colors, color);
    assert(first_at(colors, color, c));
    if c < i {
        assert(colors[c] != color);
    } else if i < c {
        assert(colors[i] != color);
    }
}

/// A colour that occurs has a first position.
pub proof fn lemma_contained_has_first(colors: Seq<Color>, color: Color)
    requires
        colors.contains(color),
    ensures
        first_at(colors, color, color_index(colors, color)),
    decreases colors.len(),
{
    let k = choose|k: int| 0 <= k < colors.len() && colors[k] == color;
    let front = colors.drop_last();
    if front.contains(color) {
        lemma_contained_has_first(front, color);
        let i = color_index(front, color);
        assert(first_at(colors, color, i)) by {
            assert(colors[i] == front[i]);
            assert forall|j: int| 0 <= j < i implies colors[j] != color by {
                assert(colors[j] == front[j]);
            }
        }
        lemma_color_index_is_first(colors, color, i);
    } else {
        let last = colors.len() - 1;
        assert(k == last) by {
            if k < last {
                assert(front[k] == color);
            }
        }
        assert(first_at(colors, color, last)) by {
            assert forall|j: int| 0 <= j < last implies colors[j] != color by {
                assert(front[j] == colors[j]);
            }
        }
        lemma_color_index_is_first(colors, color, last);
    }
}

/// The colour table holds no colour twice, holds exactly the colours that
/// occur, and lists them in the order of their first occurrence.
pub proof fn lemma_palette_table_first_seen_order(colors: Seq<Color>)
    ensures
        palette_table(colors).no_duplicates(),
        forall|c: Color| palette_table(colors).contains(c) <==> colors.contains(c),
        forall|i: int, j: int|
            0 <= i < j < palette_table(colors).len() ==> color_index(
                colors,
                #[trigger] palette_table(colors)[i],
            ) < color_index(colors, #[trigger] palette_table(colors)[j]),
    decreases colors.len(),
{
    let table = palette_table(colors);
    if colors.len() == 0 {
        assert forall|c: Color| table.contains(c) <==> colors.contains(c) by {}
    } else {
        let front = colors.drop_last();
        let last = colors.last();
        let before = palette_table(front);
        lemma_palette_table_first_seen_order(front);
        assert forall|c: Color| table.contains(c) <==> colors.contains(c) by {
            if table.contains(c) {
                let k = choose|k: int| 0 <= k < table.len() && table[k] == c;
                if k < before.len() {
                    assert(before[k] == c);
                    assert(before.contains(c) <==> front.contains(c));
                    let m = choose|m: int| 0 <= m < front.len() && front[m] == c;
                    assert(colors[m] == c);
                } else {
                    assert(c == last);
                    assert(colors[colors.len() - 1] == c);
                }
            }
            if colors.contains(c) {
                let m = choose|m: int| 0 <= m < colors.len() && colors[m] == c;
                if m < front.len() {
                    assert(front[m] == c);
                    assert(before.contains(c) <==> front.contains(c));
                    let k = choose|k: int| 0 <= k < before.len() && before[k] == c;
                    assert(table[k] == c);
                } else if before.contains(last) {
                } else {
                    assert(table[table.len() - 1] == c);
                }
            }
        }
        assert forall|i: int, j: int| 0 <= i < j < table.len() implies color_index(
            colors,
            #[trigger] table[i],
        ) < color_index(colors, #[trigger] table[j]) by {
            assert(before[i] == table[i]);
            assert(before.contains(table[i]) <==> front.contains(table[i]));
            assert(colors =~= front.push(last));
            lemma_index_in_longer(front, last, table[i]);
            if j < before.len() {
                assert(before[j] == table[j]);
                assert(before.contains(table[j]) <==> front.contains(table[j]));
                lemma_index_in_longer(front, last, table[j]);
            } else {
                assert(table[j] == last);
                assert(before.contains(last) <==> front.contains(last));
                assert(colors[colors.len() - 1] == last);
                lemma_contained_has_first(colors, last);
                let p = color_index(colors, last);
                if p < front.len() {
                    assert(front[p] == last);
                }
                lemma_contained_has_first(front, table[i]);
            }
        }
    }
}

/// Appending a colour leaves the first position of every colour that already
/// occurred where it was.
proof fn lemma_index_in_longer(front: Seq<Color>, more: Color, color: Color)
    requires
        front.contains(color),
    ensures
        color_index(front.push(more), color) == color_index(front, color),
{
    lemma_contained_has_first(front, color);
    let i = color_index(front, color);
    let longer = front.push(more);
    assert(first_at(longer, color, i)) by {
        assert(longer[i] == front[i]);
        assert forall|j: int| 0 <= j < i implies longer[j] != color by {
            assert(longer[j] == front[j]);
        }
    }
    lemma_color_index_is_first(longer, color, i);
}

/// Looks `color` up in `table` by a linear scan from the front.
pub fn find_color(table: &Vec<Color>, color: Color) -> (found: Option<usize>)
    ensures
        match found {
            Some(i) => first_at(table@, color, i as int),
            None => !table@.contains(color),
        },
{
    let mut i: usize = 0;
    while i < table.len()
        invariant
            i <= table.len(),
            forall|j: int| 0 <= j < i ==> table@[j] != color,
        decreases table.len() - i,
    {
        if table[i] == color {
            return Some(i);
        }
        i += 1;
    }
    None
}

/// The position in `colors` of the colour that `palette` holds at `index`:
/// the first entry equal to it, or 0 where `colors` does not hold it.
pub fn get_color_index(colors: &Vec<Color>, palette: &Vec<Color>, index: usize) -> (position: usize)
    requires
        index < palette.len(),
    ensures
        position == color_index(colors@, palette@[index as int]),
        colors@.contains(palette@[index as int]) ==> first_at(
            colors@,
            palette@[index as int],
            position as int,
        ),
        !colors@.contains(palette@[index as int]) ==> position == 0,
{
    match find_color(colors, palette[index]) {
        Some(i) => {
            proof {
                lemma_color_index_is_first(colors@, palette@[index as int], i as int);
            }
            i
        },
        None => {
            assert(forall|i: int| !first_at(colors@, palette@[index as int], i));
            0
        },
    }
}

/// Builds the colour table of a voxel list: the colour of each voxel, looked
/// up in `palette`, is appended unless the table already holds it. The table
/// holds no colour twice, holds exactly the colours that the voxels use, and
/// lists them in the order of their first use.
pub fn build_palette(voxels: &Vec<Voxel>, palette: &Vec<Color>) -> (table: Vec<Color>)
    requires
        palette_covers(voxels@, palette@),
    ensures
        table@ == palette_table(voxel_colors(voxels@, palette@)),
        table@.no_duplicates(),
        forall|c: Color| table@.contains(c) <==> voxel_colors(voxels@, palette@).contains(c),
        forall|i: int, j: int|
            0 <= i < j < table@.len() ==> color_index(
                voxel_colors(voxels@, palette@),
                #[trigger] table@[i],
            ) < color_index(voxel_colors(voxels@, palette@), #[trigger] table@[j]),
{
    let mut table: Vec<Color> = Vec::new();
    let ghost colors = voxel_colors(voxels@, palette@);
    for k in 0..voxels.len()
        invariant
            palette_covers(voxels@, palette@),
            colors == voxel_colors(voxels@, palette@),
            table@ == palette_table(colors.take(k as int)),
    {
        let color = palette[voxels[k].i as usize];
        proof {
            let now = colors.take(k + 1);
            assert(now.drop_last() =~= colors.take(k as int));
            assert(now.last() == color);
        }
        if find_color(&table, color).is_none() {
            table.push(color);
        }
    }
    proof {
        assert(colors.take(voxels.len() as int) =~= colors);
        lemma_palette_table_first_seen_order(colors);
    }
    table
}

} // verus!
