//! Color palettes.
use vstd::prelude::*;

verus! {

/// The level `k` (from 1) of a primary color in a grid of `levels` levels: `k` steps of
/// `255 / levels`.
pub open spec fn level(levels: nat, k: int) -> u8 {
    (k * (255int / levels as int)) as u8
}

/// The colors of red level `r` and green level `g`, blue going up through the levels.
pub open spec fn blue_line(levels: nat, r: int, g: int) -> Seq<(u8, u8, u8)> {
    Seq::new(levels, |b: int| (level(levels, r), level(levels, g), level(levels, b + 1)))
}

/// The colors of red level `r`, green going up through the first `k` levels.
pub open spec fn green_plane(levels: nat, r: int, k: int) -> Seq<(u8, u8, u8)>
    decreases k,
{
    if k <= 0 {
        Seq::empty()
    } else {
        green_plane(levels, r, k - 1) + blue_line(levels, r, k)
    }
}

/// The colors of the first `k` red levels, red varying slowest and blue fastest.
pub open spec fn grid_upto(levels: nat, k: int) -> Seq<(u8, u8, u8)>
    decreases k,
{
    if k <= 0 {
        Seq::empty()
    } else {
        grid_upto(levels, k - 1) + green_plane(levels, k, levels as int)
    }
}

/// `s` after its first color is exchanged, in turn, with the color just after the position
/// given by each of the first `k` draws.
pub open spec fn shuffled(s: Seq<(u8, u8, u8)>, draws: Seq<u32>, k: int) -> Seq<(u8, u8, u8)>
    decreases k,
{
    if k <= 0 {
        s
    } else {
        let t = shuffled(s, draws, k - 1);
        let d = draws[k - 1] + 1;
        t.update(0, t[d]).update(d, t[0])
    }
}

/// A level fits in a byte.
proof fn lemma_level(levels: nat, k: int)
    requires
        1 <= levels <= 255,
        0 <= k <= levels,
    ensures
        0 <= k * (255int / levels as int) <= 255,
{
    assert(0 <= k * (255int / levels as int) <= levels * (255int / levels as int)) by (nonlinear_arith)
        requires
            1 <= levels,
            0 <= k <= levels,
    ;
    assert(levels * (255int / levels as int) <= 255) by (nonlinear_arith)
        requires
            1 <= levels,
    ;
}

pub struct Colors {}

impl Colors {
    /// The palette of `levels` levels of each primary color (red varying slowest, blue
    /// fastest, each level `255 / levels` apart), shuffled: for each draw in turn, the first
    /// color is exchanged with the one just after the position drawn.
    pub fn palette(levels: u8, draws: &Vec<u32>) -> (v: Vec<(u8, u8, u8)>)
        requires
            levels >= 1,
            draws@.len() + 1 == levels * levels * levels,
            forall|k: int| 0 <= k < draws@.len() ==> #[trigger] draws@[k] + 1 < levels * levels * levels,
        ensures
            v@ == shuffled(grid_upto(levels as nat, levels as int), draws@, draws@.len() as int),
    {
        let ghost n = levels as nat;
        let step: u8 = 255 / levels;
        let mut colors: Vec<(u8, u8, u8)> = Vec::new();
        let mut r: u16 = 1;
        while r <= levels as u16
            invariant
                1 <= r <= levels + 1,
                levels >= 1,
                n == levels,
                step == 255u8 / levels,
                colors@ == grid_upto(n, r - 1),
            decreases levels + 1 - r,
        {
            proof {
                lemma_level(n, r as int);
            }
            assert((r as u8) == r);
            let mut g: u16 = 1;
            while g <= levels as u16
                invariant
                    1 <= r <= levels,
                    1 <= g <= levels + 1,
                    levels >= 1,
                    n == levels,
                    step == 255u8 / levels,
                    0 <= r * step <= 255,
                    r <= 255,
                    colors@ == grid_upto(n, r - 1) + green_plane(n, r as int, g - 1),
                decreases levels + 1 - g,
            {
                proof {
                    lemma_level(n, g as int);
                }
                let mut b: u16 = 1;
                while b <= levels as u16
                    invariant
                        1 <= r <= levels,
                        1 <= g <= levels,
                        1 <= b <= levels + 1,
                        levels >= 1,
                        n == levels,
                        step == 255u8 / levels,
                        0 <= r * step <= 255,
                    r <= 255,
                        0 <= g * step <= 255,
                        g <= 255,
                        colors@ == grid_upto(n, r - 1) + green_plane(n, r as int, g - 1) + blue_line(n, r as int, g as int).take(b - 1),
                    decreases levels + 1 - b,
                {
                    proof {
                        lemma_level(n, b as int);
                    }
                    let c = ((r as u8) * step, (g as u8) * step, (b as u8) * step);
                    let ghost before = colors@;
                    colors.push(c);
                    proof {
                        assert(c == blue_line(n, r as int, g as int)[b - 1]);
                        assert(blue_line(n, r as int, g as int).take(b as int) =~= blue_line(n, r as int, g as int).take(b - 1).push(c));
                    }
                    b = b + 1;
                    assert(colors@ =~= grid_upto(n, r - 1) + green_plane(n, r as int, g - 1) + blue_line(n, r as int, g as int).take(b - 1));
                }
                assert(blue_line(n, r as int, g as int).take(b - 1) =~= blue_line(n, r as int, g as int));
                g = g + 1;
                assert(colors@ =~= grid_upto(n, r - 1) + green_plane(n, r as int, g - 1));
            }
            r = r + 1;
            assert(colors@ =~= grid_upto(n, r - 1));
        }
        proof {
            lemma_grid_len(n, n as int);
            assert(n * n * n <= 255 * 255 * 255) by (nonlinear_arith)
                requires
                    n <= 255,
            ;
        }
        let mut k: usize = 0;
        while k < draws.len()
            invariant
                k <= draws@.len(),
                colors@.len() == draws@.len() + 1,
                colors@.len() <= 255 * 255 * 255,
                forall|q: int| 0 <= q < draws@.len() ==> #[trigger] draws@[q] + 1 < colors@.len(),
                colors@ == shuffled(grid_upto(n, n as int), draws@, k as int),
            decreases draws@.len() - k,
        {
            let d = (draws[k] + 1) as usize;
            let first = colors[0];
            let other = colors[d];
            colors.set(0, other);
            colors.set(d, first);
            k = k + 1;
        }
        colors
    }
}

/// The grid has `k * levels * levels` colors after `k` red levels.
proof fn lemma_grid_len(levels: nat, k: int)
    requires
        0 <= k,
    ensures
        grid_upto(levels, k).len() == k * levels * levels,
    decreases k,
{
    if k > 0 {
        lemma_grid_len(levels, k - 1);
        lemma_plane_len(levels, k, levels as int);
        assert(k * levels * levels == (k - 1) * levels * levels + levels * levels) by (nonlinear_arith);
    } else {
        assert(k * levels * levels == 0) by (nonlinear_arith)
            requires
                k == 0,
        ;
    }
}

/// A plane has `k * levels` colors after `k` green levels.
proof fn lemma_plane_len(levels: nat, r: int, k: int)
    requires
        0 <= k,
    ensures
        green_plane(levels, r, k).len() == k * levels,
    decreases k,
{
    if k > 0 {
        lemma_plane_len(levels, r, k - 1);
        assert(blue_line(levels, r, k).len() == levels);
        assert(k * levels == (k - 1) * levels + levels) by (nonlinear_arith);
    } else {
        assert(k * levels == 0) by (nonlinear_arith)
            requires
                k == 0,
        ;
    }
}

} // verus!
