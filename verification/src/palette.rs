//! The fixed 16-entry color palette and the coloring of escape-time grids.

use vstd::prelude::*;

verus! {

/// The palette entry at cyclic index `i`, for `0 <= i < 16`.
pub open spec fn palette_entry(i: int) -> (u8, u8, u8) {
    if i == 0 {
        (66, 30, 15)
    } else if i == 1 {
        (25, 7, 26)
    } else if i == 2 {
        (9, 1, 47)
    } else if i == 3 {
        (4, 4, 73)
    } else if i == 4 {
        (0, 7, 100)
    } else if i == 5 {
        (12, 44, 138)
    } else if i == 6 {
        (24, 82, 177)
    } else if i == 7 {
        (57, 125, 209)
    } else if i == 8 {
        (134, 181, 229)
    } else if i == 9 {
        (211, 236, 248)
    } else if i == 10 {
        (241, 233, 191)
    } else if i == 11 {
        (248, 201, 95)
    } else if i == 12 {
        (255, 170, 0)
    } else if i == 13 {
        (204, 128, 0)
    } else if i == 14 {
        (153, 87, 0)
    } else {
        (106, 52, 3)
    }
}

/// The color an escape-time counter is drawn with: black for the two
/// sentinel values (0 means "immediately escaped / background",
/// `max_iter` means "did not escape within the budget"), and otherwise
/// the palette entry at the counter's value modulo 16.
pub open spec fn palette_color(iteration: u16, max_iter: u16) -> (u8, u8, u8) {
    if iteration == 0 || iteration == max_iter {
        (0, 0, 0)
    } else {
        palette_entry(iteration as int % 16)
    }
}

/// One channel (0 = red, 1 = green, 2 = blue) of an RGB triple.
pub open spec fn channel_of(color: (u8, u8, u8), channel: int) -> u8 {
    if channel == 0 {
        color.0
    } else if channel == 1 {
        color.1
    } else {
        color.2
    }
}

/// The full color for one escape-time counter.
pub fn palette_rgb(iteration: u16, max_iter: u16) -> (r: (u8, u8, u8))
    ensures
        r == palette_color(iteration, max_iter),
{
    if iteration == 0 || iteration == max_iter {
        return (0, 0, 0);
    }
    match iteration % 16 {
        0 => (66, 30, 15),
        1 => (25, 7, 26),
        2 => (9, 1, 47),
        3 => (4, 4, 73),
        4 => (0, 7, 100),
        5 => (12, 44, 138),
        6 => (24, 82, 177),
        7 => (57, 125, 209),
        8 => (134, 181, 229),
        9 => (211, 236, 248),
        10 => (241, 233, 191),
        11 => (248, 201, 95),
        12 => (255, 170, 0),
        13 => (204, 128, 0),
        14 => (153, 87, 0),
        _ => (106, 52, 3),
    }
}

/// One channel of the color for one escape-time counter.
pub fn palette(iteration: u16, channel: usize, max_iter: u16) -> (r: u8)
    requires
        channel < 3,
    ensures
        r == channel_of(palette_color(iteration, max_iter), channel as int),
{
    let color = palette_rgb(iteration, max_iter);
    if channel == 0 {
        color.0
    } else if channel == 1 {
        color.1
    } else {
        color.2
    }
}

/// The RGB byte sequence that colors a sequence of escape-time counters:
/// three bytes per counter, in counter order.
pub open spec fn colored(values: Seq<u16>, max_iter: u16) -> Seq<u8> {
    Seq::new(3 * values.len(), |j: int| channel_of(palette_color(values[j / 3], max_iter), j % 3))
}

/// Colors a grid of escape-time counters, three bytes (R, G, B) per
/// counter, keeping the counters' order.
pub fn color_escape_time_array(values: &Vec<u16>, max_iter: u16) -> (r: Vec<u8>)
    requires
        3 * values@.len() <= usize::MAX,
    ensures
        r@ == colored(values@, max_iter),
{
    let mut out: Vec<u8> = Vec::new();
    let mut p: usize = 0;
    while p < values.len()
        invariant
            p <= values@.len(),
            3 * values@.len() <= usize::MAX,
            out@ == colored(values@.subrange(0, p as int), max_iter),
        decreases values@.len() - p,
    {
        let color = palette_rgb(values[p], max_iter);
        out.push(color.0);
        out.push(color.1);
        out.push(color.2);
        p = p + 1;
        proof {
            assert(out@ =~= colored(values@.subrange(0, p as int), max_iter));
        }
    }
    proof {
        assert(values@.subrange(0, values@.len() as int) =~= values@);
    }
    out
}

} // verus!
