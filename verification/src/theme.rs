//! The series colors: a palette of RGB triples that a graph's color index
//! picks from, cycling.
use vstd::prelude::*;

verus! {

/// The palette used when `colors.toml` gives none.
pub open spec fn default_colors() -> Seq<(u8, u8, u8)> {
    seq![(80u8, 200u8, 255u8), (255u8, 176u8, 46u8), (126u8, 217u8, 87u8), (255u8, 107u8, 129u8), (179u8, 157u8, 255u8)]
}

pub fn default_palette() -> (r: Vec<(u8, u8, u8)>)
    ensures
        r@ == default_colors(),
{
    let r = vec![(80u8, 200u8, 255u8), (255u8, 176u8, 46u8), (126u8, 217u8, 87u8), (255u8, 107u8, 129u8), (179u8, 157u8, 255u8)];
    assert(r@ =~= default_colors());
    r
}

/// The series palette; it never is empty.
pub struct Theme {
    palette: Vec<(u8, u8, u8)>,
}

impl Theme {
    #[verifier::type_invariant]
    spec fn inv(self) -> bool {
        self.palette@.len() > 0
    }

    pub closed spec fn spec_palette(&self) -> Seq<(u8, u8, u8)> {
        self.palette@
    }

    /// The theme for the palette read from `colors.toml`, if it could be
    /// read; an absent or empty palette gives the default one.
    pub fn from_palette(parsed: Option<Vec<(u8, u8, u8)>>) -> (r: Self)
        ensures
            r.spec_palette() == match parsed {
                Some(p) => if p@.len() > 0 {
                    p@
                } else {
                    default_colors()
                },
                None => default_colors(),
            },
    {
        match parsed {
            Some(p) => {
                if p.len() > 0 {
                    Theme { palette: p }
                } else {
                    Theme { palette: default_palette() }
                }
            },
            None => Theme { palette: default_palette() },
        }
    }

    /// The color of series `index`: the palette, cycled.
    pub fn color(&self, index: u8) -> (r: (u8, u8, u8))
        ensures
            r == self.spec_palette()[(index as int) % (self.spec_palette().len() as int)],
    {
        proof {
            use_type_invariant(self);
        }
        let len = self.palette.len();
        self.palette[(index as usize) % len]
    }
}

} // verus!
