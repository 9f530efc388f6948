//! The colors with which the algorithms mark nodes and links.
use vstd::prelude::*;

verus! {

pub struct Color;

impl Color {
    /// The colors of the rainbow (and two more), used in turn to mark the steps of an
    /// algorithm.
    pub fn colors() -> (v: Vec<(u8, u8, u8)>)
        ensures
            v@ == seq![
                (255u8, 0u8, 0u8),
                (255u8, 127u8, 0u8),
                (255u8, 255u8, 0u8),
                (0u8, 255u8, 0u8),
                (0u8, 0u8, 255u8),
                (46u8, 43u8, 95u8),
                (139u8, 0u8, 255u8),
            ],
    {
        let v = vec![
            (255, 0, 0),
            (255, 127, 0),
            (255, 255, 0),
            (0, 255, 0),
            (0, 0, 255),
            (46, 43, 95),
            (139, 0, 255),
        ];
        assert(v@ =~= seq![
            (255u8, 0u8, 0u8),
            (255u8, 127u8, 0u8),
            (255u8, 255u8, 0u8),
            (0u8, 255u8, 0u8),
            (0u8, 0u8, 255u8),
            (46u8, 43u8, 95u8),
            (139u8, 0u8, 255u8),
        ]);
        v
    }

    /// The default stroke color of the nodes and links.
    pub fn default() -> (c: (u8, u8, u8))
        ensures
            c == (47u8, 79u8, 79u8),
    {
        (47, 79, 79)
    }

    /// The color of what an algorithm leaves aside.
    pub fn disabled() -> (c: (u8, u8, u8))
        ensures
            c == (192u8, 192u8, 192u8),
    {
        (192, 192, 192)
    }
}

/// The color used at step `i` when the colors of `Color::colors` are used in turn.
pub open spec fn color_at(i: nat) -> (u8, u8, u8) {
    seq![
        (255u8, 0u8, 0u8),
        (255u8, 127u8, 0u8),
        (255u8, 255u8, 0u8),
        (0u8, 255u8, 0u8),
        (0u8, 0u8, 255u8),
        (46u8, 43u8, 95u8),
        (139u8, 0u8, 255u8),
    ][(i % 7) as int]
}

/// The colors of `Color::colors`, used in turn (as a cycling iterator gives them).
pub struct ColorCycle {
    colors: Vec<(u8, u8, u8)>,
    next: usize,
    count: Ghost<nat>,
}

impl ColorCycle {
    /// How many colors were given so far.
    pub closed spec fn given(&self) -> nat {
        self.count@
    }

    pub closed spec fn wf(&self) -> bool {
        &&& self.colors@ == seq![
            (255u8, 0u8, 0u8),
            (255u8, 127u8, 0u8),
            (255u8, 255u8, 0u8),
            (0u8, 255u8, 0u8),
            (0u8, 0u8, 255u8),
            (46u8, 43u8, 95u8),
            (139u8, 0u8, 255u8),
        ]
        &&& self.next == self.count@ % 7
    }

    pub fn new() -> (c: ColorCycle)
        ensures
            c.wf(),
            c.given() == 0,
    {
        ColorCycle { colors: Color::colors(), next: 0, count: Ghost(0) }
    }

    /// The next color.
    pub fn next_color(&mut self) -> (c: (u8, u8, u8))
        requires
            old(self).wf(),
        ensures
            final(self).wf(),
            c == color_at(old(self).given()),
            final(self).given() == old(self).given() + 1,
    {
        let c = self.colors[self.next];
        self.next = if self.next == 6 { 0 } else { self.next + 1 };
        self.count = Ghost(self.count@ + 1);
        c
    }
}

} // verus!
