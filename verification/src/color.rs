//! The colors that tell the levels of a tree apart.
use vstd::prelude::*;

verus! {

/// The number of colors; deeper levels start over.
pub const PALETTE_LEN: usize = 7;

/// The terminal escape that switches to the color of a level: blue, green,
/// yellow, orange, red, purple, brown.
pub open spec fn ansi_open(depth: nat) -> Seq<char> {
    let place = depth % (PALETTE_LEN as nat);
    if place == 0 {
        "\x1b[38;2;53;132;228m"@
    } else if place == 1 {
        "\x1b[38;2;51;209;122m"@
    } else if place == 2 {
        "\x1b[38;2;246;211;45m"@
    } else if place == 3 {
        "\x1b[38;2;255;120;0m"@
    } else if place == 4 {
        "\x1b[38;2;224;27;36m"@
    } else if place == 5 {
        "\x1b[38;2;145;65;172m"@
    } else {
        "\x1b[38;2;181;131;90m"@
    }
}

/// The escape that opens a colored stretch, nothing where color is off.
pub open spec fn color_open(depth: nat, enabled: bool) -> Seq<char> {
    if enabled {
        ansi_open(depth)
    } else {
        ""@
    }
}

/// The escape that closes a colored stretch, nothing where color is off.
pub open spec fn color_close(enabled: bool) -> Seq<char> {
    if enabled {
        "\x1b[0m"@
    } else {
        ""@
    }
}

/// The pair of terminal escapes to put around what is shown in the color of a
/// level, or empty strings when color is disabled.
pub fn ansi_color(depth: usize, enabled: bool) -> (pair: (&'static str, &'static str))
    ensures
        pair.0@ == color_open(depth as nat, enabled),
        pair.1@ == color_close(enabled),
{
    if !enabled {
        return ("", "");
    }
    let open = match depth % PALETTE_LEN {
        0 => "\x1b[38;2;53;132;228m",
        1 => "\x1b[38;2;51;209;122m",
        2 => "\x1b[38;2;246;211;45m",
        3 => "\x1b[38;2;255;120;0m",
        4 => "\x1b[38;2;224;27;36m",
        5 => "\x1b[38;2;145;65;172m",
        _ => "\x1b[38;2;181;131;90m",
    };
    (open, "\x1b[0m")
}

/// The place in the palette of the color for a row at the given depth. What
/// is above the top level takes the first color.
pub fn palette_index(depth: i32) -> (place: usize)
    ensures
        place as int == if depth <= 0 {
            0
        } else {
            depth as int % PALETTE_LEN as int
        },
        place < PALETTE_LEN,
{
    if depth <= 0 {
        0
    } else {
        depth as usize % PALETTE_LEN
    }
}

/// Whether the report is colored: never where the `NO_COLOR` variable is set,
/// and otherwise only on a terminal.
pub fn pretty_use_color(no_color_is_set: bool, stdout_is_terminal: bool) -> (colored: bool)
    ensures
        colored == (stdout_is_terminal && !no_color_is_set),
{
    if no_color_is_set {
        return false;
    }
    stdout_is_terminal
}

/// Levels that lie as far apart as the palette is long share their color.
pub proof fn law_colors_start_over(depth: nat, enabled: bool)
    ensures
        color_open(depth + PALETTE_LEN as nat, enabled) == color_open(depth, enabled),
{
}

/// Without color nothing is added to a line. With color each level opens its
/// stretches with an escape of its own, none of which is empty, and all are
/// closed in the same way.
pub proof fn law_colors_tell_levels_apart(a: nat, b: nat)
    ensures
        color_open(a, false).len() == 0,
        color_close(false).len() == 0,
        color_open(a, true).len() > 0,
        color_close(true) == seq!['\x1b', '[', '0', 'm'],
        color_open(a, true) == color_open(b, true) <==> a % 7 == b % 7,
{
    reveal_strlit("");
    reveal_strlit("\x1b[0m");
    reveal_strlit("\x1b[38;2;53;132;228m");
    reveal_strlit("\x1b[38;2;51;209;122m");
    reveal_strlit("\x1b[38;2;246;211;45m");
    reveal_strlit("\x1b[38;2;255;120;0m");
    reveal_strlit("\x1b[38;2;224;27;36m");
    reveal_strlit("\x1b[38;2;145;65;172m");
    reveal_strlit("\x1b[38;2;181;131;90m");
    assert(color_close(true) =~= seq!['\x1b', '[', '0', 'm']);
    let x = color_open(a, true);
    let y = color_open(b, true);
    if a % 7 != b % 7 {
        assert(x.len() != y.len() || x[7] != y[7] || x[8] != y[8]);
    }
}

} // verus!
