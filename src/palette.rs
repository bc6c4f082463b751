//! The choice of a game's palette: a random set of colors in which no two
//! are hard to tell apart.

use crate::fixed::{
    acceptable, all_colors, confusable, initialize_colors, APRICOT, GREEN, PALETTE_ATTEMPTS, WHITE,
};
use crate::grid::Color;
use crate::random::choose_multiple;
use vstd::prelude::*;

verus! {

/// How many colors a palette for `maxcolors` holds: `maxcolors`, but no more
/// than 19, the most that the fixed list offers with no two of them hard to
/// tell apart (its 22 colors less one of each of the three confusable pairs).
pub open spec fn palette_len(maxcolors: int) -> int {
    if maxcolors <= 19 {
        maxcolors
    } else {
        19
    }
}

/// A palette of [`palette_len`]`(maxcolors)` distinct colors, all from the
/// fixed list, no two of them hard to tell apart.
pub open spec fn valid_palette(p: Seq<Color>, maxcolors: int) -> bool {
    &&& p.len() == palette_len(maxcolors)
    &&& p.no_duplicates()
    &&& forall|i: int| 0 <= i < p.len() ==> all_colors().contains(#[trigger] p[i])
    &&& acceptable(p)
}

fn contains(p: &Vec<Color>, c: Color) -> (r: bool)
    ensures
        r == p@.contains(c),
{
    let mut i: usize = 0;
    while i < p.len()
        invariant
            i <= p@.len(),
            forall|k: int| 0 <= k < i ==> p@[k] != c,
        decreases p@.len() - i,
    {
        if p[i] == c {
            return true;
        }
        i = i + 1;
    }
    false
}

/// Whether no two colors of `p` are hard to tell apart.
pub fn palette_ok(p: &Vec<Color>) -> (r: bool)
    ensures
        r == acceptable(p@),
{
    let bad = (contains(p, crate::fixed::BEIGE) && contains(p, crate::fixed::WHITE))
        || (contains(p, crate::fixed::TEAL) && contains(p, crate::fixed::GREEN))
        || (contains(p, crate::fixed::PINK) && contains(p, crate::fixed::APRICOT));
    proof {
        if bad {
            assert(!acceptable(p@)) by {
                if p@.contains(crate::fixed::BEIGE) && p@.contains(crate::fixed::WHITE) {
                    let i = choose|i: int| 0 <= i < p@.len() && p@[i] == crate::fixed::BEIGE;
                    let j = choose|j: int| 0 <= j < p@.len() && p@[j] == crate::fixed::WHITE;
                    assert(confusable(p@[i], p@[j]));
                } else if p@.contains(crate::fixed::TEAL) && p@.contains(crate::fixed::GREEN) {
                    let i = choose|i: int| 0 <= i < p@.len() && p@[i] == crate::fixed::TEAL;
                    let j = choose|j: int| 0 <= j < p@.len() && p@[j] == crate::fixed::GREEN;
                    assert(confusable(p@[i], p@[j]));
                } else {
                    let i = choose|i: int| 0 <= i < p@.len() && p@[i] == crate::fixed::PINK;
                    let j = choose|j: int| 0 <= j < p@.len() && p@[j] == crate::fixed::APRICOT;
                    assert(confusable(p@[i], p@[j]));
                }
            }
        } else {
            assert forall|i: int, j: int| 0 <= i < p@.len() && 0 <= j < p@.len() implies !confusable(
                #[trigger] p@[i],
                #[trigger] p@[j],
            ) by {
                assert(p@.contains(p@[i]));
                assert(p@.contains(p@[j]));
            }
        }
    }
    !bad
}

/// The colors of the fixed list, in its order, that are not the second of a
/// confusable pair, before index `k`: that many of them are there.
spec fn safe_before(k: int) -> int {
    k - (if k > 10 { 1int } else { 0int }) - (if k > 17 { 1int } else { 0int }) - (if k > 21 { 1int } else { 0int })
}

/// The first `target` colors of the fixed list that are not the second of a
/// confusable pair.
pub fn safe_palette(target: usize) -> (r: Vec<Color>)
    requires
        target <= 19,
    ensures
        r@.len() == target,
        r@.no_duplicates(),
        forall|i: int| 0 <= i < r@.len() ==> all_colors().contains(#[trigger] r@[i]),
        acceptable(r@),
{
    let all = initialize_colors();
    let mut r: Vec<Color> = Vec::new();
    let mut k: usize = 0;
    while k < all.len()
        invariant
            target <= 19,
            all@ == all_colors(),
            all@.no_duplicates(),
            k <= all@.len(),
            r@.len() == if target < safe_before(k as int) { target as int } else { safe_before(k as int) },
            r@.no_duplicates(),
            forall|i: int| 0 <= i < r@.len() ==> all@.subrange(0, k as int).contains(#[trigger] r@[i]),
            forall|i: int| 0 <= i < r@.len() ==> #[trigger] r@[i] != WHITE && r@[i] != GREEN && r@[i] != APRICOT,
        decreases all@.len() - k,
    {
        let c = all[k];
        let second = c == WHITE || c == GREEN || c == APRICOT;
        proof {
            assert(all@[10] == GREEN && all@[17] == APRICOT && all@[21] == WHITE);
            if second {
                if c == GREEN {
                    assert(k == 10) by {
                        if k != 10 {
                            assert(all@[k as int] == all@[10]);
                        }
                    }
                } else if c == APRICOT {
                    assert(k == 17) by {
                        if k != 17 {
                            assert(all@[k as int] == all@[17]);
                        }
                    }
                } else {
                    assert(k == 21) by {
                        if k != 21 {
                            assert(all@[k as int] == all@[21]);
                        }
                    }
                }
            } else {
                assert(k != 10 && k != 17 && k != 21);
            }
            assert(!all@.subrange(0, k as int).contains(c)) by {
                if all@.subrange(0, k as int).contains(c) {
                    let j = choose|j: int| 0 <= j < k && all@.subrange(0, k as int)[j] == c;
                    assert(all@[j] == all@[k as int]);
                }
            }
            assert forall|x: Color| all@.subrange(0, k as int).contains(x) implies #[trigger] all@.subrange(0, k + 1).contains(x) by {
                let j = choose|j: int| 0 <= j < k && all@.subrange(0, k as int)[j] == x;
                assert(all@.subrange(0, k + 1)[j] == x);
            }
            assert(all@.subrange(0, k + 1)[k as int] == c);
        }
        if !second && r.len() < target {
            let ghost before = r@;
            r.push(c);
            proof {
                assert forall|i: int| 0 <= i < r@.len() implies all@.subrange(0, k + 1).contains(#[trigger] r@[i]) by {
                    if i < before.len() {
                        assert(before[i] == r@[i]);
                        assert(all@.subrange(0, k as int).contains(before[i]));
                    }
                }
                assert forall|i: int, j: int| 0 <= i < r@.len() && 0 <= j < r@.len() && i != j implies r@[i] != r@[j] by {
                    if i < before.len() && j < before.len() {
                        assert(before[i] != before[j]);
                    } else if i < before.len() {
                        assert(all@.subrange(0, k as int).contains(before[i]));
                    } else if j < before.len() {
                        assert(all@.subrange(0, k as int).contains(before[j]));
                    }
                }
            }
        }
        k = k + 1;
    }
    proof {
        assert(all@.subrange(0, 22) =~= all@);
        assert forall|i: int, j: int| 0 <= i < r@.len() && 0 <= j < r@.len() implies !confusable(#[trigger] r@[i], #[trigger] r@[j]) by {}
    }
    r
}

/// The palette of a new game: [`palette_len`]`(maxcolors)` colors drawn at
/// random until no two of them are hard to tell apart. Should every draw
/// clash, the palette is the first colors of the fixed list that clash with
/// none (see [`safe_palette`]); for 19 colors that happens about once in
/// 10^22 games, and less often for fewer.
pub fn get_colors(maxcolors: u8) -> (r: Vec<Color>)
    requires
        maxcolors >= 1,
    ensures
        valid_palette(r@, maxcolors as int),
{
    let all = initialize_colors();
    let target: usize = if maxcolors <= 19 { maxcolors as usize } else { 19 };
    let mut colors = choose_multiple(&all, target);
    let mut attempt: u32 = 1;
    while attempt < PALETTE_ATTEMPTS && !palette_ok(&colors)
        invariant
            1 <= attempt <= PALETTE_ATTEMPTS,
            all@ == all_colors(),
            all@.no_duplicates(),
            target == palette_len(maxcolors as int),
            colors@.len() == target,
            colors@.no_duplicates(),
            forall|i: int| 0 <= i < colors@.len() ==> all_colors().contains(#[trigger] colors@[i]),
        decreases PALETTE_ATTEMPTS - attempt,
    {
        colors = choose_multiple(&all, target);
        attempt = attempt + 1;
    }
    if palette_ok(&colors) {
        colors
    } else {
        safe_palette(target)
    }
}

} // verus!
