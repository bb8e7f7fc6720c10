//! The bar that shows a size as a share of a whole.
use vstd::prelude::*;

#[allow(unused_imports)]
use crate::text::repeated;

verus! {

/// How many eighths of a cell a bar of `width` cells fills for `value` out of
/// `total`, rounded down to a whole number that fits a machine word.
pub open spec fn filled_eighths(value: u64, total: u64, width: usize) -> usize {
    if total == 0 {
        0
    } else {
        ((value * width * 8) / (total as int)) as usize
    }
}

/// How many eighths of the cell at `place` are filled when `eighths` are
/// filled in all, from the left.
pub open spec fn cell_level(eighths: nat, place: int) -> int {
    if eighths >= 8 * place + 8 {
        8
    } else if eighths <= 8 * place {
        0
    } else {
        eighths - 8 * place
    }
}

/// The glyph for a cell of which `level` eighths are filled.
pub open spec fn glyph(level: int) -> char {
    if level <= 0 {
        ' '
    } else if level == 1 {
        '▏'
    } else if level == 2 {
        '▎'
    } else if level == 3 {
        '▍'
    } else if level == 4 {
        '▌'
    } else if level == 5 {
        '▋'
    } else if level == 6 {
        '▊'
    } else if level == 7 {
        '▉'
    } else {
        '█'
    }
}

/// The cells of a bar of which `eighths` are filled.
pub open spec fn bar_cells(eighths: nat, width: nat) -> Seq<char> {
    Seq::new(width, |place: int| glyph(cell_level(eighths, place)))
}

/// The whole bar, between its two rules.
pub open spec fn bar_text(value: u64, total: u64, width: usize) -> Seq<char> {
    seq!['▏'] + bar_cells(filled_eighths(value, total, width) as nat, width as nat) + seq!['▕']
}

fn partial_glyph(level: usize) -> (c: char)
    requires
        1 <= level <= 7,
    ensures
        c == glyph(level as int),
{
    match level {
        1 => '▏',
        2 => '▎',
        3 => '▍',
        4 => '▌',
        5 => '▋',
        6 => '▊',
        _ => '▉',
    }
}

fn eighths_of(value: u64, total: u64, width: usize) -> (eighths: usize)
    requires
        total > 0,
        value * width * 8 <= u128::MAX,
    ensures
        eighths == filled_eighths(value, total, width),
{
    proof {
        assert(0 <= value * width <= value * width * 8) by (nonlinear_arith)
            requires
                value >= 0,
                width >= 0,
        ;
    }
    let scaled: u128 = value as u128 * (width as u128) * 8;
    #[verifier::truncate]
    let eighths: usize = (scaled / total as u128) as usize;
    eighths
}

/// Renders a bar of `width` cells that shows `value`'s share of `total`.
///
/// The bar is framed by thin vertical rules. Inside, whole cells are full
/// blocks and the last cell that is filled at all shows its share in eighths.
/// Empty cells are spaces. The product of `value` and `width` in eighths has
/// to fit 128 bits, which it does for every bar up to 2^61 cells wide.
pub fn render_bar(value: u64, total: u64, width: usize) -> (bar: String)
    requires
        width * 3 + 6 <= isize::MAX,
        total > 0 ==> value * width * 8 <= u128::MAX,
    ensures
        bar@ == bar_text(value, total, width),
{
    let eighths: usize = if total == 0 || width == 0 {
        0
    } else {
        eighths_of(value, total, width)
    };
    let full_cells: usize = eighths / 8;
    let remainder: usize = eighths % 8;
    let ghost level = eighths as nat;

    let mut bar = String::new();
    bar.push('▏');
    assert(bar@ =~= seq!['▏'] + bar_cells(level, 0));
    let mut place: usize = 0;
    while place < width
        invariant
            place <= width,
            level == eighths,
            full_cells == eighths / 8,
            remainder == eighths % 8,
            bar@ == seq!['▏'] + bar_cells(level, place as nat),
        decreases width - place,
    {
        let cell: char = if place < full_cells {
            '█'
        } else if place == full_cells && remainder > 0 {
            partial_glyph(remainder)
        } else {
            ' '
        };
        assert(cell == glyph(cell_level(level, place as int)));
        bar.push(cell);
        place += 1;
        assert(bar@ =~= seq!['▏'] + bar_cells(level, place as nat));
    }
    bar.push('▕');
    proof {
        let whole = bar_text(value, total, width);
        assert(whole =~= seq!['▏'] + bar_cells(level, width as nat) + seq!['▕']);
        assert(bar@ =~= whole);
    }
    bar
}

/// A bar is as wide as was asked for, between its two rules.
pub proof fn law_bar_is_framed(value: u64, total: u64, width: usize)
    ensures
        bar_text(value, total, width).len() == width + 2,
        bar_text(value, total, width).first() == '▏',
        bar_text(value, total, width).last() == '▕',
{
}

/// The bar for the whole is full.
pub proof fn law_bar_is_full_for_the_whole(total: u64, width: usize)
    requires
        total > 0,
        width * 8 <= usize::MAX,
    ensures
        bar_text(total, total, width) == seq!['▏'] + repeated('█', width as nat) + seq!['▕'],
{
    assert((total * width * 8) / (total as int) == width * 8) by (nonlinear_arith)
        requires
            total > 0,
    ;
    assert(bar_cells((width * 8) as nat, width as nat) =~= repeated('█', width as nat));
}

/// The bar is empty for nothing, and for a share of nothing.
pub proof fn law_bar_is_empty_for_nothing(value: u64, total: u64, width: usize)
    requires
        value == 0 || total == 0,
    ensures
        bar_text(value, total, width) == seq!['▏'] + repeated(' ', width as nat) + seq!['▕'],
{
    if total != 0 {
        assert((0 * width * 8) / (total as int) == 0) by (nonlinear_arith)
            requires
                total > 0,
        ;
    }
    assert(bar_cells(0, width as nat) =~= repeated(' ', width as nat));
}

/// The eighths that the first `n` cells fill together.
pub open spec fn level_sum(eighths: nat, n: int) -> int
    decreases n,
{
    if n <= 0 {
        0
    } else {
        level_sum(eighths, n - 1) + cell_level(eighths, n - 1)
    }
}

/// The share of `value` in `total`, in eighths of a bar's cells, rounded down.
pub open spec fn exact_eighths(value: u64, total: u64, width: usize) -> int {
    if total == 0 {
        0
    } else {
        (value * width * 8) / (total as int)
    }
}

proof fn lemma_level_sum(eighths: nat, n: int)
    requires
        0 <= n,
    ensures
        level_sum(eighths, n) == if eighths < 8 * n {
            eighths as int
        } else {
            8 * n
        },
    decreases n,
{
    if n > 0 {
        lemma_level_sum(eighths, n - 1);
    }
}

proof fn lemma_exact_eighths(value: u64, total: u64, width: usize)
    ensures
        0 <= exact_eighths(value, total, width),
        total > 0 && value >= total ==> exact_eighths(value, total, width) >= 8 * width,
        total > 0 && value < total && width > 0 ==> exact_eighths(value, total, width) < 8 * width,
{
    if total > 0 {
        let t = total as int;
        let scaled = value * width * 8;
        assert(0 <= scaled) by (nonlinear_arith)
            requires
                scaled == value * width * 8,
                value >= 0,
                width >= 0,
        ;
        assert(0 <= scaled / t) by (nonlinear_arith)
            requires
                0 <= scaled,
                t > 0,
        ;
        if value >= total {
            assert(scaled >= t * (8 * width)) by (nonlinear_arith)
                requires
                    scaled == value * width * 8,
                    value >= t,
                    width >= 0,
            ;
            assert(scaled / t >= 8 * width) by (nonlinear_arith)
                requires
                    scaled >= t * (8 * width),
                    t > 0,
            ;
        } else if width > 0 {
            assert(scaled < t * (8 * width)) by (nonlinear_arith)
                requires
                    scaled == value * width * 8,
                    0 <= value < t,
                    width > 0,
            ;
            assert(scaled / t < 8 * width) by (nonlinear_arith)
                requires
                    scaled < t * (8 * width),
                    t > 0,
            ;
        }
    }
}

/// A bar fills as many eighths as the share has, and all of its cells where it
/// has more.
pub proof fn law_bar_fills_the_share(value: u64, total: u64, width: usize)
    requires
        exact_eighths(value, total, width) <= usize::MAX,
    ensures
        level_sum(filled_eighths(value, total, width) as nat, width as int) == if exact_eighths(
            value,
            total,
            width,
        ) < 8 * width {
            exact_eighths(value, total, width)
        } else {
            8 * width
        },
{
    lemma_exact_eighths(value, total, width);
    lemma_level_sum(filled_eighths(value, total, width) as nat, width as int);
}

/// A bar is full for the whole and for what is more than the whole, and for
/// nothing else.
pub proof fn law_bar_is_full_from_the_whole_on(value: u64, total: u64, width: usize)
    requires
        total > 0,
        width > 0,
        exact_eighths(value, total, width) <= usize::MAX,
    ensures
        bar_text(value, total, width) == seq!['▏'] + repeated('█', width as nat) + seq!['▕']
            <==> value >= total,
{
    lemma_exact_eighths(value, total, width);
    let eighths = filled_eighths(value, total, width) as nat;
    let full = seq!['▏'] + repeated('█', width as nat) + seq!['▕'];
    if value >= total {
        assert(bar_cells(eighths, width as nat) =~= repeated('█', width as nat));
    } else {
        assert(bar_text(value, total, width)[width as int] == glyph(
            cell_level(eighths, width - 1),
        ));
        assert(full[width as int] == '█');
    }
}

/// A larger value never gives a shorter bar, and no share of a whole gives a
/// bar that is longer than the bar for the whole.
pub proof fn law_bar_grows_with_the_value(less: u64, more: u64, total: u64, width: usize)
    requires
        less <= more,
        exact_eighths(more, total, width) <= usize::MAX,
    ensures
        filled_eighths(less, total, width) <= filled_eighths(more, total, width),
        more <= total ==> filled_eighths(more, total, width) <= 8 * width,
        forall|place: int|
            0 <= place < width ==> cell_level(filled_eighths(less, total, width) as nat, place)
                <= #[trigger] cell_level(filled_eighths(more, total, width) as nat, place),
{
    lemma_exact_eighths(less, total, width);
    if total > 0 {
        let t = total as int;
        assert(0 <= less * width * 8 <= more * width * 8) by (nonlinear_arith)
            requires
                0 <= less <= more,
                width >= 0,
        ;
        assert((less * width * 8) / t <= (more * width * 8) / t) by (nonlinear_arith)
            requires
                0 <= less * width * 8 <= more * width * 8,
                t > 0,
        ;
        if more <= total {
            assert(more * width * 8 <= t * (8 * width)) by (nonlinear_arith)
                requires
                    0 <= more <= t,
                    width >= 0,
            ;
            assert((more * width * 8) / t <= 8 * width) by (nonlinear_arith)
                requires
                    more * width * 8 <= t * (8 * width),
                    t > 0,
            ;
        }
    }
}

/// Where `eighths` is the share of the value in eighths of the bar's cells,
/// rounded down, the bar shows it cell by cell: blocks for the cells that it
/// fills, spaces for those that it does not reach, and for the one in which it
/// ends the block of that many eighths.
pub proof fn law_cells_show_the_share(value: u64, total: u64, width: usize, eighths: int)
    requires
        total > 0,
        eighths * total <= value * width * 8 < (eighths + 1) * total,
        eighths <= usize::MAX,
    ensures
        bar_text(value, total, width).len() == width + 2,
        bar_text(value, total, width)[0] == '▏',
        bar_text(value, total, width)[width + 1] == '▕',
        forall|place: int|
            0 <= place < width ==> {
                let cell = #[trigger] bar_text(value, total, width)[place + 1];
                &&& eighths >= 8 * place + 8 ==> cell == '█'
                &&& eighths <= 8 * place ==> cell == ' '
                &&& 8 * place < eighths < 8 * place + 8 ==> cell
                    == seq!['▏', '▎', '▍', '▌', '▋', '▊', '▉'][eighths - 8 * place - 1]
            },
{
    let t = total as int;
    let scaled = value * width * 8;
    assert(scaled >= 0) by (nonlinear_arith)
        requires
            scaled == value * width * 8,
            value >= 0,
            width >= 0,
    ;
    assert(eighths == scaled / t && eighths >= 0) by (nonlinear_arith)
        requires
            t > 0,
            scaled >= 0,
            eighths * t <= scaled < (eighths + 1) * t,
    ;
    assert(filled_eighths(value, total, width) as int == eighths);
    let cells = bar_cells(eighths as nat, width as nat);
    let text = bar_text(value, total, width);
    assert forall|place: int| 0 <= place < width implies {
        let cell = #[trigger] text[place + 1];
        &&& eighths >= 8 * place + 8 ==> cell == '█'
        &&& eighths <= 8 * place ==> cell == ' '
        &&& 8 * place < eighths < 8 * place + 8 ==> cell
            == seq!['▏', '▎', '▍', '▌', '▋', '▊', '▉'][eighths - 8 * place - 1]
    } by {
        assert(text[place + 1] == cells[place]);
        assert(cells[place] == glyph(cell_level(eighths as nat, place)));
        let level = eighths - 8 * place;
        if 0 < level < 8 {
            let part = seq!['▏', '▎', '▍', '▌', '▋', '▊', '▉'];
            assert(part[0] == '▏' && part[1] == '▎' && part[2] == '▍' && part[3] == '▌'
                && part[4] == '▋' && part[5] == '▊' && part[6] == '▉');
        }
    }
}

} // verus!
