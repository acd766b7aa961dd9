//! Mapping heat values to display colours.
use vstd::prelude::*;

verus! {

/// A display colour, one byte per channel.
#[derive(Clone, Copy, PartialEq, Eq, Debug, Structural)]
pub struct Rgba {
    pub r: u8,
    pub g: u8,
    pub b: u8,
    pub a: u8,
}

/// The alpha channel that an optional request gives: opaque by default.
pub open spec fn alpha_or_opaque(alpha: Option<u8>) -> u8 {
    match alpha {
        Some(a) => a,
        None => 255,
    }
}

/// A colour map: a pure function from a heat value to a colour.
pub trait ValueToColor {
    /// The red, green and blue channels that `value` maps to.
    spec fn rgb_of(&self, value: u8) -> (u8, u8, u8);

    fn value_to_color(&self, value: u8, alpha: Option<u8>) -> (r: Rgba)
        ensures
            r == (Rgba {
                r: self.rgb_of(value).0,
                g: self.rgb_of(value).1,
                b: self.rgb_of(value).2,
                a: alpha_or_opaque(alpha),
            }),
    ;
}

/// A colour map given by a table of 256 RGB entries, one per heat value.
pub struct ListedColorMap {
    lut: [[u8; 3]; 256],
}

impl View for ListedColorMap {
    type V = Seq<[u8; 3]>;

    closed spec fn view(&self) -> Seq<[u8; 3]> {
        self.lut@
    }
}

impl ListedColorMap {
    pub fn new(lut: [[u8; 3]; 256]) -> (r: Self)
        ensures
            r@ == lut@,
    {
        Self { lut }
    }
}

impl ValueToColor for ListedColorMap {
    open spec fn rgb_of(&self, value: u8) -> (u8, u8, u8) {
        let e = self@[value as int];
        (e[0], e[1], e[2])
    }

    fn value_to_color(&self, value: u8, alpha: Option<u8>) -> (r: Rgba) {
        let e = self.lut[value as usize];
        let a = match alpha {
            Some(a) => a,
            None => 255,
        };
        Rgba { r: e[0], g: e[1], b: e[2], a }
    }
}

/// The grey-scale colour map: every channel equals the heat value.
pub struct GrayColorMap {}

impl GrayColorMap {
    pub fn new() -> (r: Self) {
        Self {  }
    }
}

impl ValueToColor for GrayColorMap {
    open spec fn rgb_of(&self, value: u8) -> (u8, u8, u8) {
        (value, value, value)
    }

    fn value_to_color(&self, value: u8, alpha: Option<u8>) -> (r: Rgba) {
        let a = match alpha {
            Some(a) => a,
            None => 255,
        };
        Rgba { r: value, g: value, b: value, a }
    }
}

/// One of the built-in colour maps, chosen at run time.
pub enum ColorMap {
    Gray(GrayColorMap),
    Listed(ListedColorMap),
}

impl ValueToColor for ColorMap {
    open spec fn rgb_of(&self, value: u8) -> (u8, u8, u8) {
        match self {
            ColorMap::Gray(m) => m.rgb_of(value),
            ColorMap::Listed(m) => m.rgb_of(value),
        }
    }

    fn value_to_color(&self, value: u8, alpha: Option<u8>) -> (r: Rgba) {
        match self {
            ColorMap::Gray(m) => m.value_to_color(value, alpha),
            ColorMap::Listed(m) => m.value_to_color(value, alpha),
        }
    }
}

/// The opaque colour of every cell of `buf`, in the same order.
pub fn to_colors<M: ValueToColor>(map: &M, buf: &[u8]) -> (r: Vec<Rgba>)
    ensures
        r@.len() == buf@.len(),
        forall|i: int|
            0 <= i < buf@.len() ==> #[trigger] r@[i] == (Rgba {
                r: map.rgb_of(buf@[i]).0,
                g: map.rgb_of(buf@[i]).1,
                b: map.rgb_of(buf@[i]).2,
                a: 255,
            }),
{
    let mut out: Vec<Rgba> = Vec::new();
    let mut i: usize = 0;
    while i < buf.len()
        invariant
            i <= buf@.len(),
            out@.len() == i,
            forall|j: int|
                0 <= j < i ==> #[trigger] out@[j] == (Rgba {
                    r: map.rgb_of(buf@[j]).0,
                    g: map.rgb_of(buf@[j]).1,
                    b: map.rgb_of(buf@[j]).2,
                    a: 255,
                }),
        decreases buf@.len() - i,
    {
        out.push(map.value_to_color(buf[i], None));
        i += 1;
    }
    out
}

} // verus!
