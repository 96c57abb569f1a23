//! User-declared Unicode-range fallback rules.
//!
//! A rule maps an inclusive codepoint range to a face id, optionally
//! constrained to a weight and a style. Resolution favors the most
//! recently registered rule whose constraints match the request exactly;
//! only when no constrained rule matches do unconstrained rules apply,
//! again most recent first. A constrained rule whose constraints do not
//! match the request is skipped entirely.

use crate::attrs::Style;
use vstd::prelude::*;

verus! {

/// Errors surfaced to callers of the engine.
#[derive(Clone, Copy, PartialEq, Eq, Structural, Debug)]
pub enum FontError {
    /// A family-name fallback rule named a family with no matching face.
    UnknownFamilyName,
}

/// One fallback rule. Registration order is kept by position: a later
/// rule wins ties against an earlier one.
#[derive(Clone, Copy, Debug)]
pub struct FallbackRule {
    /// First codepoint of the inclusive range.
    pub start: u32,
    /// Last codepoint of the inclusive range.
    pub end: u32,
    /// The face id the rule substitutes.
    pub font_id: usize,
    /// Optional weight constraint.
    pub weight: Option<u16>,
    /// Optional style constraint.
    pub style: Option<Style>,
}

/// The rule's range holds the codepoint.
pub open spec fn rule_contains(r: FallbackRule, cp: u32) -> bool {
    r.start <= cp <= r.end
}

/// The rule carries a weight or style constraint.
pub open spec fn rule_constrained(r: FallbackRule) -> bool {
    r.weight is Some || r.style is Some
}

/// Every constraint the rule carries equals the request's value.
pub open spec fn rule_constraint_ok(
    r: FallbackRule,
    weight: Option<u16>,
    style: Option<Style>,
) -> bool {
    &&& (r.weight is Some ==> weight == r.weight)
    &&& (r.style is Some ==> style == r.style)
}

/// The rule is a precise match for the request: its range holds the
/// codepoint, it is constrained, and its constraints match.
pub open spec fn rule_exact(
    r: FallbackRule,
    cp: u32,
    weight: Option<u16>,
    style: Option<Style>,
) -> bool {
    rule_contains(r, cp) && rule_constrained(r) && rule_constraint_ok(r, weight, style)
}

/// The rule is a generic match: its range holds the codepoint and it
/// carries no constraint.
pub open spec fn rule_generic(r: FallbackRule, cp: u32) -> bool {
    rule_contains(r, cp) && !rule_constrained(r)
}

/// The most recently registered precise match, if any.
pub open spec fn find_exact(
    rules: Seq<FallbackRule>,
    cp: u32,
    weight: Option<u16>,
    style: Option<Style>,
) -> Option<usize>
    decreases rules.len(),
{
    if rules.len() == 0 {
        None
    } else if rule_exact(rules.last(), cp, weight, style) {
        Some(rules.last().font_id)
    } else {
        find_exact(rules.drop_last(), cp, weight, style)
    }
}

/// The most recently registered generic match, if any.
pub open spec fn find_generic(rules: Seq<FallbackRule>, cp: u32) -> Option<usize>
    decreases rules.len(),
{
    if rules.len() == 0 {
        None
    } else if rule_generic(rules.last(), cp) {
        Some(rules.last().font_id)
    } else {
        find_generic(rules.drop_last(), cp)
    }
}

/// Resolution: the latest precise match, else the latest generic match,
/// else nothing.
pub open spec fn find_spec(
    rules: Seq<FallbackRule>,
    cp: u32,
    weight: Option<u16>,
    style: Option<Style>,
) -> Option<usize> {
    match find_exact(rules, cp, weight, style) {
        Some(id) => Some(id),
        None => find_generic(rules, cp),
    }
}

/// The registered fallback rules, in registration order.
#[derive(Debug)]
pub struct UnicodeRangeFallbacks {
    /// The rules; a rule's position is its registration sequence number.
    pub rules: Vec<FallbackRule>,
}

impl UnicodeRangeFallbacks {
    /// An empty table.
    pub fn new() -> (r: Self)
        ensures
            r.rules@.len() == 0,
    {
        Self { rules: Vec::new() }
    }

    /// Whether no rule is registered.
    pub fn is_empty(&self) -> (r: bool)
        ensures
            r == (self.rules@.len() == 0),
    {
        self.rules.len() == 0
    }

    /// Registers an unconstrained rule for the inclusive range.
    pub fn add(&mut self, start: char, end: char, font_id: usize)
        ensures
            final(self).rules@ == old(self).rules@.push(
                FallbackRule {
                    start: start as u32,
                    end: end as u32,
                    font_id,
                    weight: None,
                    style: None,
                },
            ),
    {
        self.rules.push(
            FallbackRule {
                start: start as u32,
                end: end as u32,
                font_id,
                weight: None,
                style: None,
            },
        );
    }

    /// Registers a rule for the inclusive range with optional weight and
    /// style constraints.
    pub fn add_with_style(
        &mut self,
        start: char,
        end: char,
        font_id: usize,
        weight: Option<u16>,
        style: Option<Style>,
    )
        ensures
            final(self).rules@ == old(self).rules@.push(
                FallbackRule { start: start as u32, end: end as u32, font_id, weight, style },
            ),
    {
        self.rules.push(
            FallbackRule { start: start as u32, end: end as u32, font_id, weight, style },
        );
    }

    /// Resolves a character without weight or style: only unconstrained
    /// rules can apply, most recent first.
    pub fn find_for_char(&self, c: char) -> (r: Option<usize>)
        ensures
            r == find_spec(self.rules@, c as u32, None, None),
    {
        self.find_for_codepoint(c as u32, None, None)
    }

    /// Resolves a character under the requested weight and style.
    pub fn find_for_char_with_style(
        &self,
        c: char,
        weight: Option<u16>,
        style: Option<Style>,
    ) -> (r: Option<usize>)
        ensures
            r == find_spec(self.rules@, c as u32, weight, style),
    {
        self.find_for_codepoint(c as u32, weight, style)
    }

    /// Resolves a codepoint under the requested weight and style.
    pub fn find_for_codepoint(
        &self,
        cp: u32,
        weight: Option<u16>,
        style: Option<Style>,
    ) -> (r: Option<usize>)
        ensures
            r == find_spec(self.rules@, cp, weight, style),
    {
        let n = self.rules.len();
        proof {
            assert(self.rules@.take(n as int) =~= self.rules@);
        }
        let mut i: usize = n;
        while i > 0
            invariant
                i <= n,
                n == self.rules@.len(),
                find_exact(self.rules@, cp, weight, style) == find_exact(
                    self.rules@.take(i as int),
                    cp,
                    weight,
                    style,
                ),
            decreases i,
        {
            let r = self.rules[i - 1];
            proof {
                assert(self.rules@.take(i as int).last() == self.rules@[i - 1]);
                assert(self.rules@.take(i as int).drop_last() =~= self.rules@.take(i - 1));
            }
            if rule_applies(&r, cp) && rule_is_constrained(&r) && rule_matches_request(
                &r,
                weight,
                style,
            ) {
                return Some(r.font_id);
            }
            i = i - 1;
        }
        proof {
            assert(self.rules@.take(0) =~= Seq::<FallbackRule>::empty());
        }
        proof {
            assert(self.rules@.take(n as int) =~= self.rules@);
        }
        let mut j: usize = n;
        while j > 0
            invariant
                j <= n,
                n == self.rules@.len(),
                find_exact(self.rules@, cp, weight, style) is None,
                find_generic(self.rules@, cp) == find_generic(self.rules@.take(j as int), cp),
            decreases j,
        {
            let r = self.rules[j - 1];
            proof {
                assert(self.rules@.take(j as int).last() == self.rules@[j - 1]);
                assert(self.rules@.take(j as int).drop_last() =~= self.rules@.take(j - 1));
            }
            if rule_applies(&r, cp) && !rule_is_constrained(&r) {
                return Some(r.font_id);
            }
            j = j - 1;
        }
        proof {
            assert(self.rules@.take(0) =~= Seq::<FallbackRule>::empty());
        }
        None
    }
}

/// Whether the rule's range holds the codepoint.
fn rule_applies(r: &FallbackRule, cp: u32) -> (b: bool)
    ensures
        b == rule_contains(*r, cp),
{
    r.start <= cp && cp <= r.end
}

/// Whether the rule carries any constraint.
fn rule_is_constrained(r: &FallbackRule) -> (b: bool)
    ensures
        b == rule_constrained(*r),
{
    r.weight.is_some() || r.style.is_some()
}

/// Whether every constraint the rule carries equals the request's value.
fn rule_matches_request(r: &FallbackRule, weight: Option<u16>, style: Option<Style>) -> (b: bool)
    ensures
        b == rule_constraint_ok(*r, weight, style),
{
    let weight_ok = match (r.weight, weight) {
        (Some(rw), Some(w)) => rw == w,
        (Some(_), None) => false,
        (None, _) => true,
    };
    let style_ok = match (r.style, style) {
        (Some(rs), Some(s)) => rs == s,
        (Some(_), None) => false,
        (None, _) => true,
    };
    weight_ok && style_ok
}

/// When no rule at all applies to the codepoint, resolution yields
/// nothing.
pub proof fn lemma_find_none(
    rules: Seq<FallbackRule>,
    cp: u32,
    weight: Option<u16>,
    style: Option<Style>,
)
    requires
        forall|i: int|
            0 <= i < rules.len() ==> !rule_exact(#[trigger] rules[i], cp, weight, style)
                && !rule_generic(rules[i], cp),
    ensures
        find_spec(rules, cp, weight, style) is None,
    decreases rules.len(),
{
    if rules.len() > 0 {
        assert(rules.last() == rules[rules.len() - 1]);
        assert forall|i: int| 0 <= i < rules.drop_last().len() implies !rule_exact(
            #[trigger] rules.drop_last()[i],
            cp,
            weight,
            style,
        ) && !rule_generic(rules.drop_last()[i], cp) by {
            assert(rules.drop_last()[i] == rules[i]);
        }
        lemma_find_none(rules.drop_last(), cp, weight, style);
    }
}

/// A precise match at `i` with none later makes the precise scan yield
/// rule `i`.
proof fn lemma_find_exact_at(
    rules: Seq<FallbackRule>,
    cp: u32,
    weight: Option<u16>,
    style: Option<Style>,
    i: int,
)
    requires
        0 <= i < rules.len(),
        rule_exact(rules[i], cp, weight, style),
        forall|j: int| i < j < rules.len() ==> !rule_exact(#[trigger] rules[j], cp, weight, style),
    ensures
        find_exact(rules, cp, weight, style) == Some(rules[i].font_id),
    decreases rules.len(),
{
    if i == rules.len() - 1 {
        assert(rules.last() == rules[i]);
    } else {
        assert(rules.last() == rules[rules.len() - 1]);
        assert(!rule_exact(rules.last(), cp, weight, style));
        assert forall|j: int| i < j < rules.drop_last().len() implies !rule_exact(
            #[trigger] rules.drop_last()[j],
            cp,
            weight,
            style,
        ) by {
            assert(rules.drop_last()[j] == rules[j]);
        }
        assert(rules.drop_last()[i] == rules[i]);
        lemma_find_exact_at(rules.drop_last(), cp, weight, style, i);
    }
}

/// A generic match at `i` with none later makes the generic scan yield
/// rule `i`.
proof fn lemma_find_generic_at(rules: Seq<FallbackRule>, cp: u32, i: int)
    requires
        0 <= i < rules.len(),
        rule_generic(rules[i], cp),
        forall|j: int| i < j < rules.len() ==> !rule_generic(#[trigger] rules[j], cp),
    ensures
        find_generic(rules, cp) == Some(rules[i].font_id),
    decreases rules.len(),
{
    if i == rules.len() - 1 {
        assert(rules.last() == rules[i]);
    } else {
        assert(rules.last() == rules[rules.len() - 1]);
        assert(!rule_generic(rules.last(), cp));
        assert forall|j: int| i < j < rules.drop_last().len() implies !rule_generic(
            #[trigger] rules.drop_last()[j],
            cp,
        ) by {
            assert(rules.drop_last()[j] == rules[j]);
        }
        assert(rules.drop_last()[i] == rules[i]);
        lemma_find_generic_at(rules.drop_last(), cp, i);
    }
}

/// The most recently registered precise match wins.
pub proof fn lemma_find_latest_exact(
    rules: Seq<FallbackRule>,
    cp: u32,
    weight: Option<u16>,
    style: Option<Style>,
    i: int,
)
    requires
        0 <= i < rules.len(),
        rule_exact(rules[i], cp, weight, style),
        forall|j: int| i < j < rules.len() ==> !rule_exact(#[trigger] rules[j], cp, weight, style),
    ensures
        find_spec(rules, cp, weight, style) == Some(rules[i].font_id),
{
    lemma_find_exact_at(rules, cp, weight, style, i);
}

/// When no precise match exists anywhere, the most recently registered
/// generic match wins.
pub proof fn lemma_find_latest_generic(
    rules: Seq<FallbackRule>,
    cp: u32,
    weight: Option<u16>,
    style: Option<Style>,
    i: int,
)
    requires
        0 <= i < rules.len(),
        forall|j: int| 0 <= j < rules.len() ==> !rule_exact(#[trigger] rules[j], cp, weight, style),
        rule_generic(rules[i], cp),
        forall|j: int| i < j < rules.len() ==> !rule_generic(#[trigger] rules[j], cp),
    ensures
        find_spec(rules, cp, weight, style) == Some(rules[i].font_id),
{
    lemma_find_exact_none(rules, cp, weight, style);
    lemma_find_generic_at(rules, cp, i);
}

/// When no rule is a precise match, the precise scan yields nothing.
pub proof fn lemma_find_exact_none(
    rules: Seq<FallbackRule>,
    cp: u32,
    weight: Option<u16>,
    style: Option<Style>,
)
    requires
        forall|j: int| 0 <= j < rules.len() ==> !rule_exact(#[trigger] rules[j], cp, weight, style),
    ensures
        find_exact(rules, cp, weight, style) is None,
    decreases rules.len(),
{
    if rules.len() > 0 {
        assert(!rule_exact(rules.last(), cp, weight, style));
        assert forall|j: int| 0 <= j < rules.drop_last().len() implies !rule_exact(
            #[trigger] rules.drop_last()[j],
            cp,
            weight,
            style,
        ) by {
            assert(rules.drop_last()[j] == rules[j]);
        }
        lemma_find_exact_none(rules.drop_last(), cp, weight, style);
    }
}

} // verus!
