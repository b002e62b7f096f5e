//! Colour spaces, chosen by name, and the distance order they impose.

use vstd::prelude::*;

verus! {

/// The colour spaces that the tool knows, in registry order.
#[derive(Clone, Copy, Debug, PartialEq, Eq, Structural)]
pub enum ColorSpaceKind {
    Rgb,
    Hsl,
    Lab,
    Oklab,
}

impl ColorSpaceKind {
    /// The name under which the colour space is selected.
    pub open spec fn spec_name(self) -> Seq<char> {
        match self {
            ColorSpaceKind::Rgb => seq!['r', 'g', 'b'],
            ColorSpaceKind::Hsl => seq!['h', 's', 'l'],
            ColorSpaceKind::Lab => seq!['l', 'a', 'b'],
            ColorSpaceKind::Oklab => seq!['o', 'k', 'l', 'a', 'b'],
        }
    }

    /// The name under which the colour space is selected.
    pub fn name(&self) -> (r: &'static str)
        ensures
            r@ == self.spec_name(),
    {
        match self {
            ColorSpaceKind::Rgb => {
                proof {
                    reveal_strlit("rgb");
                }
                "rgb"
            },
            ColorSpaceKind::Hsl => {
                proof {
                    reveal_strlit("hsl");
                }
                "hsl"
            },
            ColorSpaceKind::Lab => {
                proof {
                    reveal_strlit("lab");
                }
                "lab"
            },
            ColorSpaceKind::Oklab => {
                proof {
                    reveal_strlit("oklab");
                }
                "oklab"
            },
        }
    }
}

/// The registered colour spaces, in the order in which they are listed.
pub open spec fn registry() -> Seq<ColorSpaceKind> {
    seq![ColorSpaceKind::Rgb, ColorSpaceKind::Hsl, ColorSpaceKind::Lab, ColorSpaceKind::Oklab]
}

/// The colour space registered under `name`, if any.
pub open spec fn kind_named(name: Seq<char>) -> Option<ColorSpaceKind> {
    if name == ColorSpaceKind::Rgb.spec_name() {
        Some(ColorSpaceKind::Rgb)
    } else if name == ColorSpaceKind::Hsl.spec_name() {
        Some(ColorSpaceKind::Hsl)
    } else if name == ColorSpaceKind::Lab.spec_name() {
        Some(ColorSpaceKind::Lab)
    } else if name == ColorSpaceKind::Oklab.spec_name() {
        Some(ColorSpaceKind::Oklab)
    } else {
        None
    }
}

/// The registry is coherent: every registered colour space is found again
/// under its own name, and no two of them share a name.
pub proof fn lemma_registry_coherent()
    ensures
        forall|i: int|
            0 <= i < registry().len() ==> kind_named(#[trigger] registry()[i].spec_name()) == Some(
                registry()[i],
            ),
        forall|i: int, j: int|
            0 <= i < registry().len() && 0 <= j < registry().len() && i != j ==> (
            #[trigger] registry()[i]).spec_name() != (#[trigger] registry()[j]).spec_name(),
{
    let r = ColorSpaceKind::Rgb.spec_name();
    let h = ColorSpaceKind::Hsl.spec_name();
    let l = ColorSpaceKind::Lab.spec_name();
    let o = ColorSpaceKind::Oklab.spec_name();
    assert(r[0] != h[0] && r[0] != l[0] && r[0] != o[0] && h[0] != l[0] && h[0] != o[0]
        && l[0] != o[0]);
    assert(r != h && r != l && r != o && h != l && h != o && l != o);
}

/// The names of all registered colour spaces, in registry order.
pub fn available_names() -> (r: Vec<&'static str>)
    ensures
        r.len() == registry().len(),
        forall|i: int| 0 <= i < r.len() ==> #[trigger] r[i]@ == registry()[i].spec_name(),
{
    let mut r: Vec<&'static str> = Vec::new();
    r.push(ColorSpaceKind::Rgb.name());
    r.push(ColorSpaceKind::Hsl.name());
    r.push(ColorSpaceKind::Lab.name());
    r.push(ColorSpaceKind::Oklab.name());
    r
}

/// The error of a lookup by a name that no colour space is registered under.
#[derive(Debug)]
pub struct UnknownColorSpace {
    pub name: String,
}

impl UnknownColorSpace {
    /// The text of the error: `Unknown color space: ` and the name.
    pub fn message(&self) -> (r: String)
        ensures
            r@ == "Unknown color space: "@ + self.name@,
    {
        let mut r = String::from_str("Unknown color space: ");
        r.append(self.name.as_str());
        r
    }
}

/// Whether two strings hold the same characters.
pub fn str_equal(a: &str, b: &str) -> (r: bool)
    ensures
        r == (a@ == b@),
{
    let n = a.unicode_len();
    if n != b.unicode_len() {
        return false;
    }
    let mut i: usize = 0;
    while i < n
        invariant
            n == a@.len(),
            n == b@.len(),
            i <= n,
            forall|j: int| 0 <= j < i ==> a@[j] == b@[j],
        decreases n - i,
    {
        if a.get_char(i) != b.get_char(i) {
            return false;
        }
        i += 1;
    }
    assert(a@ =~= b@);
    true
}

/// Looks a colour space up by its registered name.
pub fn from_name(name: &str) -> (r: Result<ColorSpaceKind, UnknownColorSpace>)
    ensures
        match r {
            Ok(k) => kind_named(name@) == Some(k),
            Err(e) => kind_named(name@) is None && e.name@ == name@,
        },
{
    if str_equal(name, ColorSpaceKind::Rgb.name()) {
        Ok(ColorSpaceKind::Rgb)
    } else if str_equal(name, ColorSpaceKind::Hsl.name()) {
        Ok(ColorSpaceKind::Hsl)
    } else if str_equal(name, ColorSpaceKind::Lab.name()) {
        Ok(ColorSpaceKind::Lab)
    } else if str_equal(name, ColorSpaceKind::Oklab.name()) {
        Ok(ColorSpaceKind::Oklab)
    } else {
        Err(UnknownColorSpace { name: String::from_str(name) })
    }
}

/// A colour space, as far as the remapping needs it: it orders the
/// palette colours by their distance from a pixel.
pub trait ColorSpace {
    /// The order key of the distance from `p1` to `p2`: a smaller key is a
    /// smaller distance, equal keys are equal distances, and `None` stands
    /// for a distance that is not below the largest finite value. An
    /// implementation outside verified code gives it the body
    /// `self.distance_key(&p1, &p2)`.
    spec fn key_of(&self, p1: [u8; 4], p2: [u8; 4]) -> Option<u64>;

    /// The order key of the distance from `p1` to `p2`; it depends on the
    /// two colours alone (see [`ColorSpace::key_of`]).
    fn distance_key(&self, p1: &[u8; 4], p2: &[u8; 4]) -> (r: Option<u64>)
        ensures
            r == self.key_of(*p1, *p2),
    ;
}

/// The squared Euclidean distance of two colours over red, green and blue.
pub open spec fn rgb_squared_distance(p1: [u8; 4], p2: [u8; 4]) -> int {
    (p1[0] - p2[0]) * (p1[0] - p2[0]) + (p1[1] - p2[1]) * (p1[1] - p2[1]) + (p1[2] - p2[2]) * (
    p1[2] - p2[2])
}

/// Plain RGB: the Euclidean distance over red, green and blue; alpha is
/// ignored. Its order key is the squared distance, an integer below
/// 2^18, whose order is that of the distance itself.
pub struct RgbSpace;

fn channel_square(a: u8, b: u8) -> (r: u64)
    ensures
        r == (a - b) * (a - b),
        r <= 65025,
{
    let d: u64 = if a >= b {
        (a - b) as u64
    } else {
        (b - a) as u64
    };
    assert(d * d <= 65025) by (nonlinear_arith)
        requires
            d <= 255,
    ;
    assert(d * d == (a - b) * (a - b)) by (nonlinear_arith)
        requires
            d == a - b || d == b - a,
    ;
    d * d
}

impl RgbSpace {
    /// The squared RGB distance of two colours.
    pub fn squared_distance(p1: &[u8; 4], p2: &[u8; 4]) -> (r: u64)
        ensures
            r == rgb_squared_distance(*p1, *p2),
    {
        channel_square(p1[0], p2[0]) + channel_square(p1[1], p2[1]) + channel_square(p1[2], p2[2])
    }
}

impl ColorSpace for RgbSpace {
    open spec fn key_of(&self, p1: [u8; 4], p2: [u8; 4]) -> Option<u64> {
        Some(rgb_squared_distance(p1, p2) as u64)
    }

    fn distance_key(&self, p1: &[u8; 4], p2: &[u8; 4]) -> (r: Option<u64>) {
        Some(RgbSpace::squared_distance(p1, p2))
    }
}

} // verus!
