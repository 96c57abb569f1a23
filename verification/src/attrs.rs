//! Requested font attributes and the keys that rank matching faces.

use crate::order::TotalOrder;
use vstd::prelude::*;
use vstd::string::StrSliceExecFns;

verus! {

/// A font face style.
#[derive(Clone, Copy, PartialEq, Eq, Structural, Debug)]
pub enum Style {
    Normal,
    Italic,
    Oblique,
}

/// The normalized, comparable form of a font match request.
///
/// An empty `family` list requests any family; otherwise a face matches
/// when one of its family names equals one of the requested names.
#[derive(Debug)]
pub struct FontMatchAttrs {
    /// Requested family names; empty means any family.
    pub family: Vec<String>,
    /// Requested weight, on the usual 1 to 1000 scale.
    pub weight: u16,
    /// Requested style.
    pub style: Style,
    /// Requested stretch, as a width class number.
    pub stretch: u16,
}

/// Equality of match requests, field by field with family names compared
/// by their character content.
pub open spec fn attrs_eqv(a: FontMatchAttrs, b: FontMatchAttrs) -> bool {
    &&& a.family.deep_view() == b.family.deep_view()
    &&& a.weight == b.weight
    &&& a.style == b.style
    &&& a.stretch == b.stretch
}

impl FontMatchAttrs {
    /// Executable equality agreeing with `attrs_eqv`.
    pub fn matches_attrs(&self, other: &FontMatchAttrs) -> (r: bool)
        ensures
            r == attrs_eqv(*self, *other),
    {
        if self.weight != other.weight || self.stretch != other.stretch {
            proof {
                assert(!attrs_eqv(*self, *other));
            }
            return false;
        }
        let style_same = match (self.style, other.style) {
            (Style::Normal, Style::Normal) => true,
            (Style::Italic, Style::Italic) => true,
            (Style::Oblique, Style::Oblique) => true,
            _ => false,
        };
        if !style_same {
            return false;
        }
        if self.family.len() != other.family.len() {
            proof {
                assert(self.family.deep_view().len() == self.family@.len());
                assert(other.family.deep_view().len() == other.family@.len());
            }
            return false;
        }
        let n = self.family.len();
        let mut i: usize = 0;
        while i < n
            invariant
                n == self.family@.len(),
                n == other.family@.len(),
                i <= n,
                forall|k: int| 0 <= k < i ==> self.family@[k]@ == other.family@[k]@,
            decreases n - i,
        {
            if !strings_equal(&self.family[i], &other.family[i]) {
                proof {
                    assert(self.family.deep_view()[i as int] == self.family@[i as int]@);
                    assert(other.family.deep_view()[i as int] == other.family@[i as int]@);
                }
                return false;
            }
            i = i + 1;
        }
        proof {
            assert forall|k: int| 0 <= k < self.family.deep_view().len() implies #[trigger] self
                .family
                .deep_view()[k] == other.family.deep_view()[k] by {
                assert(self.family@[k]@ == other.family@[k]@);
            }
            assert(self.family.deep_view() =~= other.family.deep_view());
        }
        true
    }

    /// A deep copy of the request.
    pub fn duplicate(&self) -> (r: FontMatchAttrs)
        ensures
            attrs_eqv(r, *self),
    {
        let mut family: Vec<String> = Vec::new();
        let n = self.family.len();
        let mut i: usize = 0;
        while i < n
            invariant
                n == self.family@.len(),
                i <= n,
                family@.len() == i,
                forall|k: int| 0 <= k < i ==> family@[k]@ == self.family@[k]@,
            decreases n - i,
        {
            family.push(self.family[i].clone());
            i = i + 1;
        }
        proof {
            assert forall|k: int| 0 <= k < family.deep_view().len() implies #[trigger] family
                .deep_view()[k] == self.family.deep_view()[k] by {
                assert(family@[k]@ == self.family@[k]@);
            }
            assert(family.deep_view() =~= self.family.deep_view());
        }
        FontMatchAttrs { family, weight: self.weight, style: self.style, stretch: self.stretch }
    }
}

/// Executable string equality by character content.
pub fn strings_equal(a: &String, b: &String) -> (r: bool)
    ensures
        r == (a@ == b@),
{
    a.eq(b)
}

/// Executable equality of a `String` against a string slice, by
/// character content.
pub fn strings_equal_str(a: &String, b: &str) -> (r: bool)
    ensures
        r == (a@ == b@),
{
    let s = a.as_str();
    let n = s.unicode_len();
    let m = b.unicode_len();
    if n != m {
        return false;
    }
    let mut i: usize = 0;
    while i < n
        invariant
            n == s@.len(),
            n == b@.len(),
            s@ == a@,
            i <= n,
            forall|k: int| 0 <= k < i ==> s@[k] == b@[k],
        decreases n - i,
    {
        if s.get_char(i) != b.get_char(i) {
            return false;
        }
        i = i + 1;
    }
    proof {
        assert(a@ =~= b@);
    }
    true
}

/// Ranks a matching face for a request: ascending difference to the
/// requested weight, then ascending face weight, then ascending face id.
#[derive(Clone, Copy, PartialEq, Eq, Structural, Debug)]
pub struct FontMatchKey {
    /// Absolute difference between the requested and the face weight.
    pub font_weight_diff: u16,
    /// The face weight.
    pub font_weight: u16,
    /// The face id.
    pub id: usize,
}

impl TotalOrder for FontMatchKey {
    open spec fn leq(self, other: Self) -> bool {
        if self.font_weight_diff != other.font_weight_diff {
            self.font_weight_diff < other.font_weight_diff
        } else if self.font_weight != other.font_weight {
            self.font_weight < other.font_weight
        } else {
            self.id <= other.id
        }
    }

    proof fn lemma_connected(a: Self, b: Self) {
    }

    proof fn lemma_transitive(a: Self, b: Self, c: Self) {
    }

    fn le(&self, other: &Self) -> (r: bool) {
        if self.font_weight_diff != other.font_weight_diff {
            self.font_weight_diff < other.font_weight_diff
        } else if self.font_weight != other.font_weight {
            self.font_weight < other.font_weight
        } else {
            self.id <= other.id
        }
    }
}

} // verus!
