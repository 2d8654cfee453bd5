//! The names by which callers choose a filter and a signature colour.
use vstd::prelude::*;

use crate::pixels::RGBA;

verus! {

/// The filters a caller can apply to a scanned page.
#[derive(Clone, Copy, Debug, PartialEq, Eq)]
pub enum Filter {
    /// Sharpened and slightly contrasted colour.
    Original,
    /// Lighting-normalized colour with whitened paper.
    Magic,
    /// Black and white after lighting normalization.
    Bw,
    /// Grayscale.
    Gray,
    /// Mild contrast for photographs.
    Photo,
    /// A signature cut out in one ink colour over transparency.
    Sign,
}

/// Whether two strings hold the same characters.
pub fn text_equals(a: &str, b: &str) -> (eq: bool)
    ensures
        eq == (a@ == b@),
{
    let n = a.unicode_len();
    let m = b.unicode_len();
    if n != m {
        return false;
    }
    let mut i: usize = 0;
    while i < n
        invariant
            n == a@.len(),
            m == b@.len(),
            n == m,
            i <= n,
            forall|j: int| 0 <= j < i ==> a@[j] == b@[j],
        decreases n - i,
    {
        if a.get_char(i) != b.get_char(i) {
            return false;
        }
        i = i + 1;
    }
    assert(a@ =~= b@);
    true
}

/// The filter that a name selects, if any.
pub open spec fn filter_named(name: Seq<char>) -> Option<Filter> {
    if name == "original"@ {
        Some(Filter::Original)
    } else if name == "magic"@ {
        Some(Filter::Magic)
    } else if name == "bw"@ {
        Some(Filter::Bw)
    } else if name == "gray"@ {
        Some(Filter::Gray)
    } else if name == "photo"@ {
        Some(Filter::Photo)
    } else if name == "sign"@ {
        Some(Filter::Sign)
    } else {
        None
    }
}

impl Filter {
    /// Looks a filter up by name; an unknown name selects none, and the
    /// image is then returned unchanged.
    pub fn from_name(name: &str) -> (f: Option<Filter>)
        ensures
            f == filter_named(name@),
    {
        if text_equals(name, "original") {
            Some(Filter::Original)
        } else if text_equals(name, "magic") {
            Some(Filter::Magic)
        } else if text_equals(name, "bw") {
            Some(Filter::Bw)
        } else if text_equals(name, "gray") {
            Some(Filter::Gray)
        } else if text_equals(name, "photo") {
            Some(Filter::Photo)
        } else if text_equals(name, "sign") {
            Some(Filter::Sign)
        } else {
            None
        }
    }
}

/// An opaque colour.
pub open spec fn opaque(r: u8, g: u8, b: u8) -> RGBA {
    RGBA { r, g, b, a: 255 }
}

/// The ink colour that a name selects for a signature: red, green, blue and
/// purple by name, black otherwise; always opaque.
pub open spec fn sign_color_named(name: Option<Seq<char>>) -> RGBA {
    match name {
        Some(n) => if n == "red"@ {
            opaque(255, 0, 0)
        } else if n == "green"@ {
            opaque(0, 255, 0)
        } else if n == "blue"@ {
            opaque(0, 0, 255)
        } else if n == "purple"@ {
            opaque(255, 0, 255)
        } else {
            opaque(0, 0, 0)
        },
        None => opaque(0, 0, 0),
    }
}

/// The ink colour for the signature filter.
pub fn sign_color(name: Option<&str>) -> (color: RGBA)
    ensures
        color == sign_color_named(
            match name {
                Some(n) => Some(n@),
                None => None,
            },
        ),
{
    match name {
        Some(n) => {
            if text_equals(n, "red") {
                RGBA { r: 255, g: 0, b: 0, a: 255 }
            } else if text_equals(n, "green") {
                RGBA { r: 0, g: 255, b: 0, a: 255 }
            } else if text_equals(n, "blue") {
                RGBA { r: 0, g: 0, b: 255, a: 255 }
            } else if text_equals(n, "purple") {
                RGBA { r: 255, g: 0, b: 255, a: 255 }
            } else {
                RGBA { r: 0, g: 0, b: 0, a: 255 }
            }
        },
        None => RGBA { r: 0, g: 0, b: 0, a: 255 },
    }
}

} // verus!
