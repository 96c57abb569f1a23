//! A bounded per-font memo of which codepoints a face can render.
//!
//! Two capped, strictly ascending sequences are kept per font: codepoints
//! known supported and codepoints known not supported. A codepoint sits in
//! at most one of the two. Once a sequence is full, further unknown
//! codepoints are still answered from the font's codepoint set but are not
//! recorded (a soft degrade, not an eviction).

use crate::order::binary_search_u32;
use crate::order::TotalOrder;
use crate::order::strictly_increasing;
use vstd::prelude::*;

verus! {

/// Most codepoints recorded as supported per font.
pub const SUPPORTED_MAX_SZ: usize = 512;

/// Most codepoints recorded as not supported per font.
pub const NOT_SUPPORTED_MAX_SZ: usize = 1024;

/// The per-font memo of codepoint support.
#[derive(Debug)]
pub struct FontCachedCodepointSupportInfo {
    /// Codepoints known supported, strictly ascending, at most
    /// `SUPPORTED_MAX_SZ` of them.
    pub supported: Vec<u32>,
    /// Codepoints known not supported, strictly ascending, at most
    /// `NOT_SUPPORTED_MAX_SZ` of them.
    pub not_supported: Vec<u32>,
}

/// What the memo records for `cp`: `Some(true)` known supported,
/// `Some(false)` known not supported, `None` unknown.
pub open spec fn cached_class(e: FontCachedCodepointSupportInfo, cp: u32) -> Option<bool> {
    if e.supported@.contains(cp) {
        Some(true)
    } else if e.not_supported@.contains(cp) {
        Some(false)
    } else {
        None
    }
}

/// Every recorded classification agrees with the codepoint set `cps`.
pub open spec fn consistent_with(e: FontCachedCodepointSupportInfo, cps: Seq<u32>) -> bool {
    &&& forall|c: u32| e.supported@.contains(c) ==> cps.contains(c)
    &&& forall|c: u32| e.not_supported@.contains(c) ==> !cps.contains(c)
}

impl FontCachedCodepointSupportInfo {
    /// Both sequences are strictly ascending, within their caps, and
    /// disjoint.
    pub open spec fn wf(self) -> bool {
        &&& strictly_increasing(self.supported@)
        &&& strictly_increasing(self.not_supported@)
        &&& self.supported@.len() <= SUPPORTED_MAX_SZ
        &&& self.not_supported@.len() <= NOT_SUPPORTED_MAX_SZ
        &&& forall|c: u32| self.supported@.contains(c) ==> !self.not_supported@.contains(c)
    }

    /// An empty memo.
    pub fn new() -> (r: Self)
        ensures
            r.wf(),
            r.supported@.len() == 0,
            r.not_supported@.len() == 0,
    {
        Self { supported: Vec::with_capacity(SUPPORTED_MAX_SZ), not_supported: Vec::with_capacity(
            NOT_SUPPORTED_MAX_SZ,
        ) }
    }

    /// Answers an unknown codepoint from the font's codepoint set and
    /// records the answer at the given sorted insertion points, skipping
    /// the record when the target sequence is already at capacity.
    pub fn unknown_has_codepoint(
        &mut self,
        font_codepoints: &[u32],
        codepoint: u32,
        supported_insert_pos: usize,
        not_supported_insert_pos: usize,
    ) -> (r: bool)
        requires
            old(self).wf(),
            cached_class(*old(self), codepoint) is None,
            supported_insert_pos <= old(self).supported@.len(),
            forall|k: int|
                0 <= k < supported_insert_pos ==> old(self).supported@[k] < codepoint,
            forall|k: int|
                supported_insert_pos <= k < old(self).supported@.len() ==> old(
                    self,
                ).supported@[k] > codepoint,
            not_supported_insert_pos <= old(self).not_supported@.len(),
            forall|k: int|
                0 <= k < not_supported_insert_pos ==> old(self).not_supported@[k] < codepoint,
            forall|k: int|
                not_supported_insert_pos <= k < old(self).not_supported@.len() ==> old(
                    self,
                ).not_supported@[k] > codepoint,
        ensures
            final(self).wf(),
            r == font_codepoints@.contains(codepoint),
            r && old(self).supported@.len() < SUPPORTED_MAX_SZ ==> final(self).supported@ == old(
                self,
            ).supported@.insert(supported_insert_pos as int, codepoint) && final(self).not_supported@
                == old(self).not_supported@,
            r && old(self).supported@.len() == SUPPORTED_MAX_SZ ==> *final(self) == *old(self),
            !r && old(self).not_supported@.len() < NOT_SUPPORTED_MAX_SZ ==> final(self).not_supported@
                == old(self).not_supported@.insert(not_supported_insert_pos as int, codepoint)
                && final(self).supported@ == old(self).supported@,
            !r && old(self).not_supported@.len() == NOT_SUPPORTED_MAX_SZ ==> *final(self) == *old(
                self,
            ),
            forall|c: u32|
                c != codepoint ==> #[trigger] cached_class(*final(self), c) == cached_class(
                    *old(self),
                    c,
                ),
            consistent_with(*old(self), font_codepoints@) ==> consistent_with(
                *final(self),
                font_codepoints@,
            ),
    {
        let ret = slice_contains_u32(font_codepoints, codepoint);
        if ret {
            if self.supported.len() < SUPPORTED_MAX_SZ {
                self.supported.insert(supported_insert_pos, codepoint);
                proof {
                    lemma_insert_keeps_strictly_increasing(
                        old(self).supported@,
                        codepoint,
                        supported_insert_pos as int,
                    );
                    assert forall|c: u32|
                        #[trigger] self.supported@.contains(c) implies c == codepoint || old(
                        self,
                    ).supported@.contains(c) by {
                        lemma_insert_contains(old(self).supported@, codepoint, supported_insert_pos as int, c);
                    }
                }
            }
        } else {
            if self.not_supported.len() < NOT_SUPPORTED_MAX_SZ {
                self.not_supported.insert(not_supported_insert_pos, codepoint);
                proof {
                    lemma_insert_keeps_strictly_increasing(
                        old(self).not_supported@,
                        codepoint,
                        not_supported_insert_pos as int,
                    );
                    assert forall|c: u32|
                        #[trigger] self.not_supported@.contains(c) implies c == codepoint || old(
                        self,
                    ).not_supported@.contains(c) by {
                        lemma_insert_contains(
                            old(self).not_supported@,
                            codepoint,
                            not_supported_insert_pos as int,
                            c,
                        );
                    }
                }
            }
        }
        proof {
            lemma_insert_contains_all(old(self).supported@, codepoint, supported_insert_pos as int);
            lemma_insert_contains_all(
                old(self).not_supported@,
                codepoint,
                not_supported_insert_pos as int,
            );
        }
        ret
    }

    /// Whether the font supports `codepoint`, answered from the memo when
    /// recorded and from `font_codepoints` otherwise, recording the
    /// answer when there is room.
    pub fn has_codepoint(&mut self, font_codepoints: &[u32], codepoint: u32) -> (r: bool)
        requires
            old(self).wf(),
        ensures
            final(self).wf(),
            cached_class(*old(self), codepoint) matches Some(b) ==> r == b && *final(self) == *old(
                self,
            ),
            cached_class(*old(self), codepoint) is None ==> r == font_codepoints@.contains(
                codepoint,
            ),
            forall|c: u32|
                cached_class(*old(self), c) matches Some(b) ==> #[trigger] cached_class(
                    *final(self),
                    c,
                ) == Some(b),
            consistent_with(*old(self), font_codepoints@) ==> consistent_with(
                *final(self),
                font_codepoints@,
            ),
            consistent_with(*old(self), font_codepoints@) ==> r == font_codepoints@.contains(
                codepoint,
            ),
            cached_class(*old(self), codepoint) is None ==> {
                &&& final(self).supported@.len() == old(self).supported@.len() + (if r && old(
                    self,
                ).supported@.len() < SUPPORTED_MAX_SZ {
                    1int
                } else {
                    0int
                })
                &&& final(self).not_supported@.len() == old(self).not_supported@.len() + (if !r
                    && old(self).not_supported@.len() < NOT_SUPPORTED_MAX_SZ {
                    1int
                } else {
                    0int
                })
                &&& forall|c: u32|
                    #[trigger] final(self).supported@.contains(c) == (old(
                        self,
                    ).supported@.contains(c) || (r && c == codepoint && old(self).supported@.len()
                        < SUPPORTED_MAX_SZ))
                &&& forall|c: u32|
                    #[trigger] final(self).not_supported@.contains(c) == (old(
                        self,
                    ).not_supported@.contains(c) || (!r && c == codepoint && old(
                        self,
                    ).not_supported@.len() < NOT_SUPPORTED_MAX_SZ))
            },
    {
        let (found_sup, supported_insert_pos) = binary_search_u32(&self.supported, codepoint);
        if found_sup {
            true
        } else {
            let (found_not, not_supported_insert_pos) = binary_search_u32(
                &self.not_supported,
                codepoint,
            );
            if found_not {
                false
            } else {
                let r = self.unknown_has_codepoint(
                    font_codepoints,
                    codepoint,
                    supported_insert_pos,
                    not_supported_insert_pos,
                );
                proof {
                    if r && old(self).supported@.len() < SUPPORTED_MAX_SZ {
                        lemma_insert_contains_all(
                            old(self).supported@,
                            codepoint,
                            supported_insert_pos as int,
                        );
                        assert forall|c: u32|
                            #[trigger] self.supported@.contains(c) == (old(
                            self,
                        ).supported@.contains(c) || c == codepoint) by {
                            if self.supported@.contains(c) {
                                lemma_insert_contains(
                                    old(self).supported@,
                                    codepoint,
                                    supported_insert_pos as int,
                                    c,
                                );
                            }
                        }
                    }
                    if !r && old(self).not_supported@.len() < NOT_SUPPORTED_MAX_SZ {
                        lemma_insert_contains_all(
                            old(self).not_supported@,
                            codepoint,
                            not_supported_insert_pos as int,
                        );
                        assert forall|c: u32|
                            #[trigger] self.not_supported@.contains(c) == (old(
                            self,
                        ).not_supported@.contains(c) || c == codepoint) by {
                            if self.not_supported@.contains(c) {
                                lemma_insert_contains(
                                    old(self).not_supported@,
                                    codepoint,
                                    not_supported_insert_pos as int,
                                    c,
                                );
                            }
                        }
                    }
                }
                r
            }
        }
    }
}

/// Linear scan for `x` in a slice.
fn slice_contains_u32(s: &[u32], x: u32) -> (r: bool)
    ensures
        r == s@.contains(x),
{
    let n = s.len();
    let mut i: usize = 0;
    while i < n
        invariant
            n == s@.len(),
            i <= n,
            forall|k: int| 0 <= k < i ==> s@[k] != x,
        decreases n - i,
    {
        if *vstd::slice::slice_index_get(s, i) == x {
            return true;
        }
        i = i + 1;
    }
    false
}

proof fn lemma_insert_keeps_strictly_increasing(s: Seq<u32>, x: u32, pos: int)
    requires
        strictly_increasing(s),
        0 <= pos <= s.len(),
        forall|k: int| 0 <= k < pos ==> s[k] < x,
        forall|k: int| pos <= k < s.len() ==> s[k] > x,
    ensures
        strictly_increasing(s.insert(pos, x)),
{
    let t = s.insert(pos, x);
    assert forall|i: int, j: int| 0 <= i < j < t.len() implies #[trigger] t[i].leq(t[j]) && t[i]
        != t[j] by {
        let a = if i < pos {
            s[i]
        } else if i == pos {
            x
        } else {
            s[i - 1]
        };
        let b = if j < pos {
            s[j]
        } else if j == pos {
            x
        } else {
            s[j - 1]
        };
        assert(t[i] == a);
        assert(t[j] == b);
        if i < pos && j > pos {
            assert(s[i] < x && s[j - 1] > x);
        } else if i < pos && j < pos {
            assert(s[i].leq(s[j]) && s[i] != s[j]);
        } else if i > pos && j > pos {
            assert(s[i - 1].leq(s[j - 1]) && s[i - 1] != s[j - 1]);
        }
        assert(a < b);
    }
}

proof fn lemma_insert_contains(s: Seq<u32>, x: u32, pos: int, c: u32)
    requires
        0 <= pos <= s.len(),
        s.insert(pos, x).contains(c),
    ensures
        c == x || s.contains(c),
{
    let t = s.insert(pos, x);
    let k = choose|k: int| 0 <= k < t.len() && #[trigger] t[k] == c;
    if k < pos {
        assert(s[k] == c);
    } else if k > pos {
        assert(s[k - 1] == c);
    }
}

proof fn lemma_insert_contains_all(s: Seq<u32>, x: u32, pos: int)
    requires
        0 <= pos <= s.len(),
    ensures
        s.insert(pos, x).contains(x),
        forall|c: u32| s.contains(c) ==> #[trigger] s.insert(pos, x).contains(c),
{
    let t = s.insert(pos, x);
    assert(t[pos] == x);
    assert forall|c: u32| s.contains(c) implies #[trigger] t.contains(c) by {
        let k = choose|k: int| 0 <= k < s.len() && #[trigger] s[k] == c;
        if k < pos {
            assert(t[k] == c);
        } else {
            assert(t[k + 1] == c);
        }
    }
}

} // verus!
