//! The fallback resolution pipeline's building blocks: resolving missing
//! offsets to fallback faces, grouping them by face, and splicing
//! re-shaped glyphs back into an ordered glyph stream.

use crate::attrs::Style;
use crate::db::Font;
use crate::order::TotalOrder;
use crate::range_fallback::find_spec;
use crate::range_fallback::FallbackRule;
use crate::range_fallback::UnicodeRangeFallbacks;
use crate::text::char_at;
use crate::text::char_at_offset;
use vstd::prelude::*;
use vstd::string::StringSliceAdditionalSpecFns;

verus! {

/// One shaped glyph, reduced to the fields this engine reads: the byte
/// range it covers in the line, the face that shaped it, and its glyph
/// index in that face.
#[derive(Clone, Copy, PartialEq, Eq, Structural, Debug)]
pub struct Glyph {
    /// First byte offset of the cluster the glyph covers.
    pub start: usize,
    /// One past the last byte offset of the cluster.
    pub end: usize,
    /// The face the glyph was shaped with.
    pub font_id: usize,
    /// The glyph index in that face.
    pub glyph_id: u32,
}

impl TotalOrder for Glyph {
    open spec fn leq(self, other: Self) -> bool {
        self.start <= other.start
    }

    proof fn lemma_connected(a: Self, b: Self) {
    }

    proof fn lemma_transitive(a: Self, b: Self, c: Self) {
    }

    fn le(&self, other: &Self) -> (r: bool) {
        self.start <= other.start
    }
}

/// The external shaping collaborator: shapes the whole run
/// `line[start_run..end_run]` with one font and reports the glyphs it
/// produced and the byte offsets it could not render. Pure given its
/// inputs; it owns no state shared with the engine.
pub trait Shaper {
    /// Shapes the run with the given font.
    fn shape_fallback(
        &mut self,
        font: &Font,
        line: &str,
        start_run: usize,
        end_run: usize,
        span_rtl: bool,
    ) -> (Vec<Glyph>, Vec<usize>);
}

/// One resolution query, at the specification level: the registered
/// rules, the line's bytes, the run bounds, and the run's attributes.
pub struct RunQuery {
    /// The registered fallback rules.
    pub rules: Seq<FallbackRule>,
    /// The UTF-8 bytes of the line.
    pub bytes: Seq<u8>,
    /// First byte offset of the run.
    pub start_run: int,
    /// One past the last byte offset of the run.
    pub end_run: int,
    /// The run's requested weight.
    pub weight: u16,
    /// The run's requested style.
    pub style: Style,
}

/// The query for one run, assembled from plain values.
pub open spec fn run_query_of(
    rules: Seq<FallbackRule>,
    bytes: Seq<u8>,
    start_run: int,
    end_run: int,
    weight: u16,
    style: Style,
) -> RunQuery {
    RunQuery { rules, bytes, start_run, end_run, weight, style }
}

/// The character at byte offset `pos`, when `pos` lies inside the run and
/// starts a character.
pub open spec fn resolved_char(q: RunQuery, pos: int) -> Option<char> {
    if q.start_run <= pos < q.end_run {
        char_at_offset(q.bytes, pos)
    } else {
        None
    }
}

/// The fallback face for the offset: the rule resolution of its character
/// under the run's weight and style.
pub open spec fn target_of(q: RunQuery, pos: int) -> Option<usize> {
    match resolved_char(q, pos) {
        Some(c) => find_spec(q.rules, c as u32, Some(q.weight), Some(q.style)),
        None => None,
    }
}

/// The missing offsets that no rule resolves, in input order.
pub open spec fn unmatched_of(q: RunQuery, missing: Seq<usize>) -> Seq<usize>
    decreases missing.len(),
{
    if missing.len() == 0 {
        Seq::empty()
    } else {
        unmatched_of(q, missing.drop_last()) + (if target_of(q, missing.last() as int) is None {
            seq![missing.last()]
        } else {
            Seq::empty()
        })
    }
}

/// The missing offsets that resolve to the face `fid`, in input order.
pub open spec fn positions_for(q: RunQuery, missing: Seq<usize>, fid: usize) -> Seq<usize>
    decreases missing.len(),
{
    if missing.len() == 0 {
        Seq::empty()
    } else {
        positions_for(q, missing.drop_last(), fid) + (if target_of(q, missing.last() as int)
            == Some(fid) {
            seq![missing.last()]
        } else {
            Seq::empty()
        })
    }
}

proof fn lemma_positions_for_empty(q: RunQuery, missing: Seq<usize>, fid: usize)
    requires
        forall|k: int| 0 <= k < missing.len() ==> target_of(q, #[trigger] missing[k] as int) != Some(fid),
    ensures
        positions_for(q, missing, fid) =~= Seq::empty(),
    decreases missing.len(),
{
    if missing.len() > 0 {
        assert(missing.last() == missing[missing.len() - 1]);
        assert forall|k: int| 0 <= k < missing.drop_last().len() implies target_of(
            q,
            #[trigger] missing.drop_last()[k] as int,
        ) != Some(fid) by {
            assert(missing.drop_last()[k] == missing[k]);
        }
        lemma_positions_for_empty(q, missing.drop_last(), fid);
    }
}

proof fn lemma_unmatched_step(q: RunQuery, s: Seq<usize>, x: usize)
    ensures
        target_of(q, x as int) is None ==> unmatched_of(q, s.push(x)) == unmatched_of(q, s).push(x),
        !(target_of(q, x as int) is None) ==> unmatched_of(q, s.push(x)) == unmatched_of(q, s),
{
    assert(s.push(x).drop_last() =~= s);
    assert(s.push(x).last() == x);
    if target_of(q, x as int) is None {
        assert(unmatched_of(q, s.push(x)) =~= unmatched_of(q, s).push(x));
    } else {
        assert(unmatched_of(q, s.push(x)) =~= unmatched_of(q, s));
    }
}

proof fn lemma_positions_for_step(q: RunQuery, s: Seq<usize>, x: usize, fid: usize)
    ensures
        target_of(q, x as int) == Some(fid) ==> positions_for(q, s.push(x), fid) == positions_for(
            q,
            s,
            fid,
        ).push(x),
        target_of(q, x as int) != Some(fid) ==> positions_for(q, s.push(x), fid) == positions_for(
            q,
            s,
            fid,
        ),
{
    assert(s.push(x).drop_last() =~= s);
    assert(s.push(x).last() == x);
    if target_of(q, x as int) == Some(fid) {
        assert(positions_for(q, s.push(x), fid) =~= positions_for(q, s, fid).push(x));
    } else {
        assert(positions_for(q, s.push(x), fid) =~= positions_for(q, s, fid));
    }
}

/// Missing offsets grouped by the face that resolves them, so each
/// distinct fallback face is shaped once per run.
#[derive(Debug)]
pub struct FallbackGroup {
    /// The face the offsets resolved to.
    pub font_id: usize,
    /// The offsets, in input order.
    pub positions: Vec<usize>,
}

fn find_group(groups: &Vec<FallbackGroup>, fid: usize) -> (r: Option<usize>)
    ensures
        r matches Some(idx) ==> idx < groups@.len() && groups@[idx as int].font_id == fid,
        r is None ==> forall|k: int| 0 <= k < groups@.len() ==> groups@[k].font_id != fid,
{
    let n = groups.len();
    let mut i: usize = 0;
    while i < n
        invariant
            n == groups@.len(),
            i <= n,
            forall|k: int| 0 <= k < i ==> groups@[k].font_id != fid,
        decreases n - i,
    {
        if groups[i].font_id == fid {
            return Some(i);
        }
        i = i + 1;
    }
    None
}

fn push_to_group(groups: &mut Vec<FallbackGroup>, idx: usize, pos: usize)
    requires
        idx < old(groups)@.len(),
    ensures
        final(groups)@.len() == old(groups)@.len(),
        forall|k: int| 0 <= k < old(groups)@.len() && k != idx ==> final(groups)@[k] == old(groups)@[k],
        final(groups)@[idx as int].font_id == old(groups)@[idx as int].font_id,
        final(groups)@[idx as int].positions@ == old(groups)@[idx as int].positions@.push(pos),
{
    let g = &mut groups[idx];
    g.positions.push(pos);
}

/// What grouping guarantees: the residual holds exactly the unresolved
/// offsets in order, groups have distinct faces, each group holds exactly
/// the offsets resolving to its face, and every resolved offset has a
/// group.
pub open spec fn grouped_ok(
    groups: Seq<FallbackGroup>,
    resid: Seq<usize>,
    q: RunQuery,
    missing: Seq<usize>,
) -> bool {
    &&& resid == unmatched_of(q, missing)
    &&& forall|a: int, b: int| 0 <= a < b < groups.len() ==> groups[a].font_id != groups[b].font_id
    &&& forall|gi: int|
        0 <= gi < groups.len() ==> #[trigger] groups[gi].positions@ == positions_for(
            q,
            missing,
            groups[gi].font_id,
        ) && groups[gi].positions@.len() > 0
    &&& forall|k: int|
        0 <= k < missing.len() ==> (target_of(q, #[trigger] missing[k] as int) matches Some(fid)
            ==> exists|gi: int| 0 <= gi < groups.len() && groups[gi].font_id == fid)
}

/// Resolves each missing offset to a fallback face under the run's weight
/// and style, grouping offsets by face; offsets with no character at them
/// or no applicable rule go to the residual list, in input order.
#[verifier::rlimit(50)]
pub fn group_missing(
    table: &UnicodeRangeFallbacks,
    line: &str,
    start_run: usize,
    end_run: usize,
    weight: u16,
    style: Style,
    missing: &[usize],
) -> (r: (Vec<FallbackGroup>, Vec<usize>))
    ensures
        grouped_ok(
            r.0@,
            r.1@,
            RunQuery {
                rules: table.rules@,
                bytes: line.spec_bytes(),
                start_run: start_run as int,
                end_run: end_run as int,
                weight,
                style,
            },
            missing@,
        ),
{
    let ghost q = RunQuery {
        rules: table.rules@,
        bytes: line.spec_bytes(),
        start_run: start_run as int,
        end_run: end_run as int,
        weight,
        style,
    };
    let mut groups: Vec<FallbackGroup> = Vec::new();
    let mut residual: Vec<usize> = Vec::new();
    let n = missing.len();
    let mut m: usize = 0;
    while m < n
        invariant
            q == (RunQuery {
                rules: table.rules@,
                bytes: line.spec_bytes(),
                start_run: start_run as int,
                end_run: end_run as int,
                weight,
                style,
            }),
            n == missing@.len(),
            m <= n,
            residual@ == unmatched_of(q, missing@.take(m as int)),
            forall|a: int, b: int| 0 <= a < b < groups@.len() ==> groups@[a].font_id != groups@[b].font_id,
            forall|gi: int|
                0 <= gi < groups@.len() ==> #[trigger] groups@[gi].positions@ == positions_for(
                    q,
                    missing@.take(m as int),
                    groups@[gi].font_id,
                ) && groups@[gi].positions@.len() > 0,
            forall|k: int|
                0 <= k < m ==> (target_of(q, #[trigger] missing@[k] as int) matches Some(fid)
                    ==> exists|gi: int| 0 <= gi < groups@.len() && groups@[gi].font_id == fid),
        decreases n - m,
    {
        let pos = *vstd::slice::slice_index_get(missing, m);
        let mut t: Option<usize> = None;
        if start_run <= pos && pos < end_run {
            match char_at(line, pos) {
                Some(c) => {
                    proof {
                        vstd::utf8::char_is_scalar(c);
                        assert(resolved_char(q, pos as int) == Some(c));
                    }
                    t = table.find_for_codepoint(c as u32, Some(weight), Some(style));
                },
                None => {
                    proof {
                        assert(resolved_char(q, pos as int) is None);
                    }
                },
            }
        }
        proof {
            assert(t == target_of(q, pos as int));
            assert(missing@.take(m + 1) =~= missing@.take(m as int).push(pos));
        }
        let ghost groups0 = groups@;
        match t {
            None => {
                residual.push(pos);
                proof {
                    lemma_unmatched_step(q, missing@.take(m as int), pos);
                    assert forall|gi: int|
                        0 <= gi < groups@.len() implies #[trigger] groups@[gi].positions@
                        == positions_for(q, missing@.take(m + 1), groups@[gi].font_id) by {
                        assert(groups@[gi].positions@ == positions_for(
                            q,
                            missing@.take(m as int),
                            groups@[gi].font_id,
                        ));
                        lemma_positions_for_step(q, missing@.take(m as int), pos, groups@[gi].font_id);
                    }
                }
            },
            Some(fid) => {
                match find_group(&groups, fid) {
                    Some(idx) => {
                        push_to_group(&mut groups, idx, pos);
                        proof {
                            assert(groups@[idx as int].font_id == fid);
                            assert forall|gi: int|
                                0 <= gi < groups@.len() implies #[trigger] groups@[gi].font_id
                                == groups0[gi].font_id by {
                                if gi != idx {
                                    assert(groups@[gi] == groups0[gi]);
                                }
                            }
                            lemma_positions_for_step(q, missing@.take(m as int), pos, fid);
                            assert(groups@[idx as int].positions@ == positions_for(
                                q,
                                missing@.take(m + 1),
                                fid,
                            ));
                            assert forall|gi: int|
                                0 <= gi < groups@.len() implies #[trigger] groups@[gi].positions@
                                == positions_for(q, missing@.take(m + 1), groups@[gi].font_id) by {
                                if gi != idx {
                                    assert(groups@[gi] == groups0[gi]);
                                    assert(groups0[gi].positions@ == positions_for(
                                        q,
                                        missing@.take(m as int),
                                        groups0[gi].font_id,
                                    ));
                                    assert(groups0[gi].font_id != fid);
                                    lemma_positions_for_step(
                                        q,
                                        missing@.take(m as int),
                                        pos,
                                        groups@[gi].font_id,
                                    );
                                } else {
                                    assert(groups@[gi].font_id == fid);
                                    assert(groups@[gi].positions@ == positions_for(
                                        q,
                                        missing@.take(m + 1),
                                        fid,
                                    ));
                                }
                            }
                        }
                    },
                    None => {
                        let mut positions: Vec<usize> = Vec::new();
                        positions.push(pos);
                        groups.push(FallbackGroup { font_id: fid, positions });
                        proof {
                            assert(groups@[groups@.len() - 1].font_id == fid);
                            lemma_positions_for_step(q, missing@.take(m as int), pos, fid);
                            assert forall|k: int|
                                0 <= k < m implies target_of(q, #[trigger] missing@[k] as int)
                                != Some(fid) by {
                                if target_of(q, missing@[k] as int) == Some(fid) {
                                    assert(exists|gi: int|
                                        0 <= gi < groups0.len() && groups0[gi].font_id == fid);
                                }
                            }
                            assert forall|k: int|
                                0 <= k < missing@.take(m as int).len() implies target_of(
                                q,
                                #[trigger] missing@.take(m as int)[k] as int,
                            ) != Some(fid) by {
                                assert(missing@.take(m as int)[k] == missing@[k]);
                            }
                            lemma_positions_for_empty(q, missing@.take(m as int), fid);
                            assert(groups@.last().positions@ =~= positions_for(
                                q,
                                missing@.take(m + 1),
                                fid,
                            ));
                            assert forall|gi: int|
                                0 <= gi < groups@.len() implies #[trigger] groups@[gi].positions@
                                == positions_for(q, missing@.take(m + 1), groups@[gi].font_id) by {
                                if gi < groups0.len() {
                                    assert(groups@[gi] == groups0[gi]);
                                    assert(groups0[gi].positions@ == positions_for(
                                        q,
                                        missing@.take(m as int),
                                        groups0[gi].font_id,
                                    ));
                                    assert(groups0[gi].positions@.len() > 0);
                                    assert(groups0[gi].font_id != fid) by {
                                        if groups0[gi].font_id == fid {
                                            assert(groups0[gi].positions@ == positions_for(
                                                q,
                                                missing@.take(m as int),
                                                fid,
                                            ));
                                        }
                                    }
                                    lemma_positions_for_step(
                                        q,
                                        missing@.take(m as int),
                                        pos,
                                        groups@[gi].font_id,
                                    );
                                }
                            }
                        }
                    },
                }
                proof {
                    lemma_unmatched_step(q, missing@.take(m as int), pos);
                }
            },
        }
        proof {
            assert forall|gi: int|
                0 <= gi < groups0.len() implies gi < groups@.len() && #[trigger] groups@[gi].font_id
                == groups0[gi].font_id by {}
            assert forall|k: int|
                0 <= k < m + 1 implies (target_of(q, #[trigger] missing@[k] as int) matches Some(
                fid,
            ) ==> exists|gi: int| 0 <= gi < groups@.len() && groups@[gi].font_id == fid) by {
                let tk = target_of(q, missing@[k] as int);
                if tk is Some && k < m {
                    let fid = tk->Some_0;
                    let gi0 = choose|gi: int|
                        0 <= gi < groups0.len() && #[trigger] groups0[gi].font_id == fid;
                    assert(groups@[gi0].font_id == fid);
                }
            }
        }
        m = m + 1;
    }
    proof {
        assert(missing@.take(n as int) =~= missing@);
        assert(residual@ == unmatched_of(q, missing@));
        assert(forall|a: int, b: int|
            0 <= a < b < groups@.len() ==> groups@[a].font_id != groups@[b].font_id);
        assert(forall|gi: int|
            0 <= gi < groups@.len() ==> #[trigger] groups@[gi].positions@ == positions_for(
                q,
                missing@,
                groups@[gi].font_id,
            ) && groups@[gi].positions@.len() > 0);
        assert(forall|k: int|
            0 <= k < missing@.len() ==> (target_of(q, #[trigger] missing@[k] as int) matches Some(
                fid,
            ) ==> exists|gi: int| 0 <= gi < groups@.len() && groups@[gi].font_id == fid));
    }
    (groups, residual)
}

/// The first glyph of the shaped output whose cluster starts at `pos`.
pub open spec fn first_glyph_at(gs: Seq<Glyph>, pos: usize) -> Option<Glyph>
    decreases gs.len(),
{
    if gs.len() == 0 {
        None
    } else if gs[0].start == pos {
        Some(gs[0])
    } else {
        first_glyph_at(gs.drop_first(), pos)
    }
}

/// `g` spliced into the stream: it replaces the first glyph whose cluster
/// starts where `g`'s does, or is appended when none exists.
pub open spec fn replace_at(gs: Seq<Glyph>, g: Glyph) -> Seq<Glyph>
    decreases gs.len(),
{
    if gs.len() == 0 {
        seq![g]
    } else if gs[0].start == g.start {
        seq![g] + gs.drop_first()
    } else {
        seq![gs[0]] + replace_at(gs.drop_first(), g)
    }
}

/// The group's shaping output covers the offset: the offset is not among
/// the group's own missing offsets and a glyph starts there.
pub open spec fn covered(fb_glyphs: Seq<Glyph>, fb_missing: Seq<usize>, pos: usize) -> bool {
    !fb_missing.contains(pos) && first_glyph_at(fb_glyphs, pos) is Some
}

/// The glyph stream after splicing in, for each offset of the group in
/// order, the covering glyph when there is one.
pub open spec fn merge_glyphs(
    gs: Seq<Glyph>,
    positions: Seq<usize>,
    fb_glyphs: Seq<Glyph>,
    fb_missing: Seq<usize>,
) -> Seq<Glyph>
    decreases positions.len(),
{
    if positions.len() == 0 {
        gs
    } else {
        let rest = positions.drop_first();
        if fb_missing.contains(positions[0]) {
            merge_glyphs(gs, rest, fb_glyphs, fb_missing)
        } else {
            match first_glyph_at(fb_glyphs, positions[0]) {
                Some(g) => merge_glyphs(replace_at(gs, g), rest, fb_glyphs, fb_missing),
                None => merge_glyphs(gs, rest, fb_glyphs, fb_missing),
            }
        }
    }
}

/// The offsets of the group that its shaping output does not cover, in
/// order.
pub open spec fn uncovered_of(
    positions: Seq<usize>,
    fb_glyphs: Seq<Glyph>,
    fb_missing: Seq<usize>,
) -> Seq<usize>
    decreases positions.len(),
{
    if positions.len() == 0 {
        Seq::empty()
    } else {
        (if covered(fb_glyphs, fb_missing, positions[0]) {
            Seq::empty()
        } else {
            seq![positions[0]]
        }) + uncovered_of(positions.drop_first(), fb_glyphs, fb_missing)
    }
}

fn slice_contains_usize(s: &[usize], x: usize) -> (r: bool)
    ensures
        r == s@.contains(x),
{
    let n = s.len();
    let mut i: usize = 0;
    while i < n
        invariant
            n == s@.len(),
            i <= n,
            forall|k: int| 0 <= k < i ==> s@[k] != x,
        decreases n - i,
    {
        if *vstd::slice::slice_index_get(s, i) == x {
            return true;
        }
        i = i + 1;
    }
    false
}

fn find_first_glyph_at(fb_glyphs: &[Glyph], pos: usize) -> (r: Option<Glyph>)
    ensures
        r == first_glyph_at(fb_glyphs@, pos),
{
    let n = fb_glyphs.len();
    proof {
        assert(fb_glyphs@.skip(0) =~= fb_glyphs@);
    }
    let mut i: usize = 0;
    while i < n
        invariant
            n == fb_glyphs@.len(),
            i <= n,
            first_glyph_at(fb_glyphs@, pos) == first_glyph_at(fb_glyphs@.skip(i as int), pos),
        decreases n - i,
    {
        let g = *vstd::slice::slice_index_get(fb_glyphs, i);
        proof {
            assert(fb_glyphs@.skip(i as int)[0] == fb_glyphs@[i as int]);
            assert(fb_glyphs@.skip(i as int).drop_first() =~= fb_glyphs@.skip(i + 1));
        }
        if g.start == pos {
            return Some(g);
        }
        i = i + 1;
    }
    proof {
        assert(fb_glyphs@.skip(n as int).len() == 0);
    }
    None
}

proof fn lemma_replace_at_index(gs: Seq<Glyph>, g: Glyph, j: int)
    requires
        0 <= j <= gs.len(),
        forall|k: int| 0 <= k < j ==> gs[k].start != g.start,
        j < gs.len() ==> gs[j].start == g.start,
    ensures
        j < gs.len() ==> replace_at(gs, g) =~= gs.update(j, g),
        j == gs.len() ==> replace_at(gs, g) =~= gs.push(g),
    decreases j,
{
    if j == 0 {
        if gs.len() > 0 {
            assert(replace_at(gs, g) =~= gs.update(0, g));
        } else {
            assert(replace_at(gs, g) =~= gs.push(g));
        }
    } else {
        let tail = gs.drop_first();
        assert(gs[0].start != g.start);
        assert forall|k: int| 0 <= k < j - 1 implies tail[k].start != g.start by {
            assert(tail[k] == gs[k + 1]);
        }
        lemma_replace_at_index(tail, g, j - 1);
        if j < gs.len() {
            assert(seq![gs[0]] + tail.update(j - 1, g) =~= gs.update(j, g));
        } else {
            assert(seq![gs[0]] + tail.push(g) =~= gs.push(g));
        }
    }
}

fn replace_glyph(glyphs: &mut Vec<Glyph>, g: Glyph)
    ensures
        final(glyphs)@ == replace_at(old(glyphs)@, g),
{
    let n = glyphs.len();
    let mut j: usize = 0;
    while j < n
        invariant
            n == glyphs@.len(),
            j <= n,
            glyphs@ == old(glyphs)@,
            forall|k: int| 0 <= k < j ==> glyphs@[k].start != g.start,
        decreases n - j,
    {
        if glyphs[j].start == g.start {
            proof {
                lemma_replace_at_index(glyphs@, g, j as int);
            }
            let slot = &mut glyphs[j];
            *slot = g;
            return ;
        }
        j = j + 1;
    }
    proof {
        lemma_replace_at_index(glyphs@, g, n as int);
    }
    glyphs.push(g);
}

/// Splices one group's shaping output into the stream: every offset of
/// the group that the output covers replaces or inserts the glyph that
/// starts there; the rest are appended to the residual list.
pub fn merge_fallback_group(
    glyphs: &mut Vec<Glyph>,
    residual: &mut Vec<usize>,
    positions: &[usize],
    fb_glyphs: &[Glyph],
    fb_missing: &[usize],
)
    ensures
        final(glyphs)@ == merge_glyphs(old(glyphs)@, positions@, fb_glyphs@, fb_missing@),
        final(residual)@ == old(residual)@ + uncovered_of(positions@, fb_glyphs@, fb_missing@),
{
    let n = positions.len();
    proof {
        assert(positions@.skip(0) =~= positions@);
    }
    let mut k: usize = 0;
    while k < n
        invariant
            n == positions@.len(),
            k <= n,
            merge_glyphs(old(glyphs)@, positions@, fb_glyphs@, fb_missing@) == merge_glyphs(
                glyphs@,
                positions@.skip(k as int),
                fb_glyphs@,
                fb_missing@,
            ),
            old(residual)@ + uncovered_of(positions@, fb_glyphs@, fb_missing@) == residual@
                + uncovered_of(positions@.skip(k as int), fb_glyphs@, fb_missing@),
        decreases n - k,
    {
        let pos = *vstd::slice::slice_index_get(positions, k);
        proof {
            assert(positions@.skip(k as int)[0] == positions@[k as int]);
            assert(positions@.skip(k as int).drop_first() =~= positions@.skip(k + 1));
        }
        if slice_contains_usize(fb_missing, pos) {
            residual.push(pos);
            proof {
                assert(old(residual)@ + uncovered_of(positions@, fb_glyphs@, fb_missing@)
                    =~= residual@ + uncovered_of(positions@.skip(k + 1), fb_glyphs@, fb_missing@));
            }
        } else {
            match find_first_glyph_at(fb_glyphs, pos) {
                Some(g) => {
                    replace_glyph(glyphs, g);
                    proof {
                        assert(old(residual)@ + uncovered_of(positions@, fb_glyphs@, fb_missing@)
                            =~= residual@ + uncovered_of(
                            positions@.skip(k + 1),
                            fb_glyphs@,
                            fb_missing@,
                        ));
                    }
                },
                None => {
                    residual.push(pos);
                    proof {
                        assert(old(residual)@ + uncovered_of(positions@, fb_glyphs@, fb_missing@)
                            =~= residual@ + uncovered_of(
                            positions@.skip(k + 1),
                            fb_glyphs@,
                            fb_missing@,
                        ));
                    }
                },
            }
        }
        k = k + 1;
    }
    proof {
        assert(positions@.skip(0) =~= positions@);
        assert(positions@.skip(n as int).len() == 0);
        assert(residual@ =~= old(residual)@ + uncovered_of(positions@, fb_glyphs@, fb_missing@));
    }
}

/// Some glyph of the stream starts at offset `p`.
pub open spec fn has_glyph_at(gs: Seq<Glyph>, p: usize) -> bool {
    exists|j: int| 0 <= j < gs.len() && #[trigger] gs[j].start == p
}

/// What splicing one glyph keeps and adds: the result holds `g`, every
/// other element comes from the source, sources survive unless they start
/// where `g` does, and a started offset keeps a glyph.
proof fn lemma_replace_at_properties(gs: Seq<Glyph>, g: Glyph)
    ensures
        replace_at(gs, g).contains(g),
        forall|x: Glyph| #[trigger] replace_at(gs, g).contains(x) ==> gs.contains(x) || x == g,
        forall|x: Glyph|
            #[trigger] gs.contains(x) ==> replace_at(gs, g).contains(x) || x.start == g.start,
        forall|p: usize| #[trigger] has_glyph_at(gs, p) ==> has_glyph_at(replace_at(gs, g), p),
    decreases gs.len(),
{
    let r = replace_at(gs, g);
    if gs.len() == 0 {
        assert(r[0] == g);
        assert(r.contains(g));
        assert forall|p: usize| #[trigger] has_glyph_at(gs, p) implies has_glyph_at(r, p) by {}
    } else if gs[0].start == g.start {
        assert(r =~= seq![g] + gs.drop_first());
        assert(r[0] == g);
        assert(r.contains(g));
        assert forall|x: Glyph| #[trigger] r.contains(x) implies gs.contains(x) || x == g by {
            let j = choose|j: int| 0 <= j < r.len() && #[trigger] r[j] == x;
            if j > 0 {
                assert(gs[j] == x);
            }
        }
        assert forall|x: Glyph| #[trigger] gs.contains(x) implies r.contains(x) || x.start
            == g.start by {
            let j = choose|j: int| 0 <= j < gs.len() && #[trigger] gs[j] == x;
            if j > 0 {
                assert(r[j] == x);
            }
        }
        assert forall|p: usize| #[trigger] has_glyph_at(gs, p) implies has_glyph_at(r, p) by {
            let j = choose|j: int| 0 <= j < gs.len() && #[trigger] gs[j].start == p;
            if j == 0 {
                assert(r[0].start == p);
            } else {
                assert(r[j].start == p);
            }
        }
    } else {
        let tail = gs.drop_first();
        lemma_replace_at_properties(tail, g);
        let rt = replace_at(tail, g);
        assert(r =~= seq![gs[0]] + rt);
        assert(rt.contains(g));
        assert forall|x: Glyph| #[trigger] rt.contains(x) implies r.contains(x) by {
            let j = choose|j: int| 0 <= j < rt.len() && #[trigger] rt[j] == x;
            assert(r[j + 1] == x);
        }
        assert(r.contains(g));
        assert forall|x: Glyph| #[trigger] r.contains(x) implies gs.contains(x) || x == g by {
            let j = choose|j: int| 0 <= j < r.len() && #[trigger] r[j] == x;
            if j == 0 {
                assert(gs[0] == x);
            } else {
                assert(rt[j - 1] == x);
                assert(rt.contains(x));
                if tail.contains(x) {
                    let i = choose|i: int| 0 <= i < tail.len() && #[trigger] tail[i] == x;
                    assert(gs[i + 1] == x);
                }
            }
        }
        assert forall|x: Glyph| #[trigger] gs.contains(x) implies r.contains(x) || x.start
            == g.start by {
            let j = choose|j: int| 0 <= j < gs.len() && #[trigger] gs[j] == x;
            if j == 0 {
                assert(r[0] == x);
            } else {
                assert(tail[j - 1] == x);
                assert(tail.contains(x));
                if rt.contains(x) {
                    assert(r.contains(x));
                }
            }
        }
        assert forall|p: usize| #[trigger] has_glyph_at(gs, p) implies has_glyph_at(r, p) by {
            let j = choose|j: int| 0 <= j < gs.len() && #[trigger] gs[j].start == p;
            if j == 0 {
                assert(r[0].start == p);
            } else {
                assert(tail[j - 1].start == p);
                assert(has_glyph_at(tail, p));
                assert(has_glyph_at(rt, p));
                let i = choose|i: int| 0 <= i < rt.len() && #[trigger] rt[i].start == p;
                assert(r[i + 1].start == p);
            }
        }
    }
}

/// What merging one group keeps and adds, over the whole group: every
/// offset of the group ends in the residual additions or under a glyph;
/// started offsets keep a glyph; glyphs come from the source or start at
/// a group offset; sources survive unless replaced at a group offset; and
/// the residual additions are group offsets.
pub proof fn lemma_merge_properties(
    gs: Seq<Glyph>,
    positions: Seq<usize>,
    fb_glyphs: Seq<Glyph>,
    fb_missing: Seq<usize>,
)
    ensures
        forall|k: int|
            0 <= k < positions.len() ==> uncovered_of(positions, fb_glyphs, fb_missing).contains(
                #[trigger] positions[k],
            ) || has_glyph_at(merge_glyphs(gs, positions, fb_glyphs, fb_missing), positions[k]),
        forall|p: usize|
            #[trigger] has_glyph_at(gs, p) ==> has_glyph_at(
                merge_glyphs(gs, positions, fb_glyphs, fb_missing),
                p,
            ),
        forall|x: Glyph|
            #[trigger] merge_glyphs(gs, positions, fb_glyphs, fb_missing).contains(x)
                ==> gs.contains(x) || positions.contains(x.start),
        forall|x: Glyph|
            #[trigger] gs.contains(x) ==> merge_glyphs(gs, positions, fb_glyphs, fb_missing).contains(
                x,
            ) || positions.contains(x.start),
        forall|p: usize|
            #[trigger] uncovered_of(positions, fb_glyphs, fb_missing).contains(p)
                ==> positions.contains(p),
    decreases positions.len(),
{
    if positions.len() == 0 {
    } else {
        let rest = positions.drop_first();
        let p0 = positions[0];
        let unc = uncovered_of(positions, fb_glyphs, fb_missing);
        let merged = merge_glyphs(gs, positions, fb_glyphs, fb_missing);
        assert forall|k: int| 0 <= k < rest.len() implies #[trigger] positions[k + 1] == rest[k] by {}
        if covered(fb_glyphs, fb_missing, p0) {
            let g = first_glyph_at(fb_glyphs, p0)->Some_0;
            let gs1 = replace_at(gs, g);
            lemma_replace_at_properties(gs, g);
            lemma_merge_properties(gs1, rest, fb_glyphs, fb_missing);
            lemma_first_glyph_at_start(fb_glyphs, p0);
            assert(unc =~= uncovered_of(rest, fb_glyphs, fb_missing));
            assert(merged == merge_glyphs(gs1, rest, fb_glyphs, fb_missing));
            // the glyph spliced at the group's first offset keeps it started
            assert(gs1.contains(g));
            let jg = choose|j: int| 0 <= j < gs1.len() && #[trigger] gs1[j] == g;
            assert(gs1[jg].start == p0);
            assert(has_glyph_at(gs1, p0));
            assert forall|k: int|
                0 <= k < positions.len() implies unc.contains(#[trigger] positions[k])
                || has_glyph_at(merged, positions[k]) by {
                if k == 0 {
                    assert(has_glyph_at(merged, p0));
                } else {
                    assert(positions[k] == rest[k - 1]);
                }
            }
            assert forall|x: Glyph| #[trigger] merged.contains(x) implies gs.contains(x)
                || positions.contains(x.start) by {
                if gs1.contains(x) {
                    if x == g {
                        assert(positions[0] == x.start);
                    }
                } else {
                    assert(rest.contains(x.start));
                    let k = choose|k: int| 0 <= k < rest.len() && #[trigger] rest[k] == x.start;
                    assert(positions[k + 1] == x.start);
                }
            }
            assert forall|x: Glyph| #[trigger] gs.contains(x) implies merged.contains(x)
                || positions.contains(x.start) by {
                if gs1.contains(x) {
                    if !merged.contains(x) {
                        assert(rest.contains(x.start));
                        let k = choose|k: int| 0 <= k < rest.len() && #[trigger] rest[k] == x.start;
                        assert(positions[k + 1] == x.start);
                    }
                } else {
                    assert(x.start == g.start);
                    assert(positions[0] == x.start);
                }
            }
            assert forall|p: usize| #[trigger] unc.contains(p) implies positions.contains(p) by {
                assert(uncovered_of(rest, fb_glyphs, fb_missing).contains(p));
                let k = choose|k: int| 0 <= k < rest.len() && #[trigger] rest[k] == p;
                assert(positions[k + 1] == p);
            }
        } else {
            lemma_merge_properties(gs, rest, fb_glyphs, fb_missing);
            assert(unc =~= seq![p0] + uncovered_of(rest, fb_glyphs, fb_missing));
            assert(merged == merge_glyphs(gs, rest, fb_glyphs, fb_missing));
            assert(unc[0] == p0);
            assert(unc.contains(p0));
            assert forall|k: int|
                0 <= k < positions.len() implies unc.contains(#[trigger] positions[k])
                || has_glyph_at(merged, positions[k]) by {
                if k > 0 {
                    assert(positions[k] == rest[k - 1]);
                    if uncovered_of(rest, fb_glyphs, fb_missing).contains(positions[k]) {
                        let i = choose|i: int|
                            0 <= i < uncovered_of(rest, fb_glyphs, fb_missing).len()
                                && #[trigger] uncovered_of(rest, fb_glyphs, fb_missing)[i]
                                == positions[k];
                        assert(unc[i + 1] == positions[k]);
                    }
                }
            }
            assert forall|x: Glyph| #[trigger] merged.contains(x) implies gs.contains(x)
                || positions.contains(x.start) by {
                if !gs.contains(x) {
                    assert(rest.contains(x.start));
                    let k = choose|k: int| 0 <= k < rest.len() && #[trigger] rest[k] == x.start;
                    assert(positions[k + 1] == x.start);
                }
            }
            assert forall|x: Glyph| #[trigger] gs.contains(x) implies merged.contains(x)
                || positions.contains(x.start) by {
                if !merged.contains(x) {
                    assert(rest.contains(x.start));
                    let k = choose|k: int| 0 <= k < rest.len() && #[trigger] rest[k] == x.start;
                    assert(positions[k + 1] == x.start);
                }
            }
            assert forall|p: usize| #[trigger] unc.contains(p) implies positions.contains(p) by {
                let i = choose|i: int| 0 <= i < unc.len() && #[trigger] unc[i] == p;
                if i > 0 {
                    assert(uncovered_of(rest, fb_glyphs, fb_missing)[i - 1] == p);
                    assert(uncovered_of(rest, fb_glyphs, fb_missing).contains(p));
                    let k = choose|k: int| 0 <= k < rest.len() && #[trigger] rest[k] == p;
                    assert(positions[k + 1] == p);
                }
            }
        }
    }
}

proof fn lemma_first_glyph_at_start(gs: Seq<Glyph>, pos: usize)
    ensures
        first_glyph_at(gs, pos) matches Some(g) ==> g.start == pos && gs.contains(g),
    decreases gs.len(),
{
    if gs.len() > 0 {
        if gs[0].start == pos {
        } else {
            lemma_first_glyph_at_start(gs.drop_first(), pos);
            let o = first_glyph_at(gs.drop_first(), pos);
            if o is Some {
                let g = o->Some_0;
                assert(gs.drop_first().contains(g));
                let j = choose|j: int|
                    0 <= j < gs.drop_first().len() && #[trigger] gs.drop_first()[j] == g;
                assert(gs[j + 1] == g);
            }
        }
    }
}


/// Unresolved offsets come from the missing list.
pub proof fn lemma_unmatched_subset(q: RunQuery, missing: Seq<usize>, p: usize)
    requires
        unmatched_of(q, missing).contains(p),
    ensures
        missing.contains(p),
    decreases missing.len(),
{
    if missing.len() > 0 {
        let head = missing.drop_last();
        let unc = unmatched_of(q, missing);
        let base = unmatched_of(q, head);
        if base.contains(p) {
            lemma_unmatched_subset(q, head, p);
            let k = choose|k: int| 0 <= k < head.len() && #[trigger] head[k] == p;
            assert(missing[k] == p);
        } else {
            let i = choose|i: int| 0 <= i < unc.len() && #[trigger] unc[i] == p;
            if i < base.len() {
                assert(base[i] == p);
                assert(base.contains(p));
            } else {
                assert(p == missing.last());
                assert(missing[missing.len() - 1] == p);
            }
        }
    }
}

/// Every offset whose character no rule resolves is in the unresolved
/// list.
pub proof fn lemma_unmatched_complete(q: RunQuery, missing: Seq<usize>, k: int)
    requires
        0 <= k < missing.len(),
        target_of(q, missing[k] as int) is None,
    ensures
        unmatched_of(q, missing).contains(missing[k]),
    decreases missing.len(),
{
    let head = missing.drop_last();
    let unc = unmatched_of(q, missing);
    let base = unmatched_of(q, head);
    if k == missing.len() - 1 {
        assert(missing.last() == missing[k]);
        assert(unc[base.len() as int] == missing[k]);
    } else {
        assert(head[k] == missing[k]);
        lemma_unmatched_complete(q, head, k);
        let i = choose|i: int| 0 <= i < base.len() && #[trigger] base[i] == missing[k];
        assert(unc[i] == missing[k]);
    }
}

/// A group's offsets come from the missing list.
pub proof fn lemma_positions_for_subset(q: RunQuery, missing: Seq<usize>, fid: usize, p: usize)
    requires
        positions_for(q, missing, fid).contains(p),
    ensures
        missing.contains(p),
    decreases missing.len(),
{
    if missing.len() > 0 {
        let head = missing.drop_last();
        let cur = positions_for(q, missing, fid);
        let base = positions_for(q, head, fid);
        if base.contains(p) {
            lemma_positions_for_subset(q, head, fid, p);
            let k = choose|k: int| 0 <= k < head.len() && #[trigger] head[k] == p;
            assert(missing[k] == p);
        } else {
            let i = choose|i: int| 0 <= i < cur.len() && #[trigger] cur[i] == p;
            if i < base.len() {
                assert(base[i] == p);
                assert(base.contains(p));
            } else {
                assert(p == missing.last());
                assert(missing[missing.len() - 1] == p);
            }
        }
    }
}

/// Every offset that resolves to a face is in that face's group.
pub proof fn lemma_positions_for_complete(q: RunQuery, missing: Seq<usize>, fid: usize, k: int)
    requires
        0 <= k < missing.len(),
        target_of(q, missing[k] as int) == Some(fid),
    ensures
        positions_for(q, missing, fid).contains(missing[k]),
    decreases missing.len(),
{
    let head = missing.drop_last();
    let cur = positions_for(q, missing, fid);
    let base = positions_for(q, head, fid);
    if k == missing.len() - 1 {
        assert(missing.last() == missing[k]);
        assert(cur[base.len() as int] == missing[k]);
    } else {
        assert(head[k] == missing[k]);
        lemma_positions_for_complete(q, head, fid, k);
        let i = choose|i: int| 0 <= i < base.len() && #[trigger] base[i] == missing[k];
        assert(cur[i] == missing[k]);
    }
}

/// Whether a glyph starts at an offset depends only on which glyphs the
/// stream holds, not on their order.
pub proof fn lemma_has_glyph_at_multiset(a: Seq<Glyph>, b: Seq<Glyph>, p: usize)
    requires
        a.to_multiset() == b.to_multiset(),
        has_glyph_at(a, p),
    ensures
        has_glyph_at(b, p),
{
    broadcast use vstd::seq_lib::group_to_multiset_ensures;

    let j = choose|j: int| 0 <= j < a.len() && #[trigger] a[j].start == p;
    assert(a.contains(a[j]));
    assert(a.to_multiset().contains(a[j]));
    assert(b.contains(a[j]));
    let i = choose|i: int| 0 <= i < b.len() && #[trigger] b[i] == a[j];
    assert(b[i].start == p);
}

/// Containment is order-free.
pub proof fn lemma_contains_multiset(a: Seq<Glyph>, b: Seq<Glyph>, x: Glyph)
    requires
        a.to_multiset() == b.to_multiset(),
        a.contains(x),
    ensures
        b.contains(x),
{
    broadcast use vstd::seq_lib::group_to_multiset_ensures;

    assert(a.to_multiset().contains(x));
}

/// Containment of offsets is order-free.
pub proof fn lemma_contains_multiset_usize(a: Seq<usize>, b: Seq<usize>, x: usize)
    requires
        a.to_multiset() == b.to_multiset(),
        a.contains(x),
    ensures
        b.contains(x),
{
    broadcast use vstd::seq_lib::group_to_multiset_ensures;

    assert(a.to_multiset().contains(x));
}


/// Unresolved offsets resolve to nothing, and each appears at most once
/// when the input has no duplicates.
pub proof fn lemma_unmatched_props(q: RunQuery, missing: Seq<usize>)
    ensures
        forall|p: usize|
            #[trigger] unmatched_of(q, missing).contains(p) ==> target_of(q, p as int) is None,
        missing.no_duplicates() ==> unmatched_of(q, missing).no_duplicates(),
    decreases missing.len(),
{
    if missing.len() > 0 {
        let head = missing.drop_last();
        let base = unmatched_of(q, head);
        let unc = unmatched_of(q, missing);
        lemma_unmatched_props(q, head);
        assert forall|p: usize| #[trigger] unc.contains(p) implies target_of(q, p as int)
            is None by {
            let i = choose|i: int| 0 <= i < unc.len() && #[trigger] unc[i] == p;
            if i < base.len() {
                assert(base[i] == p);
                assert(base.contains(p));
            } else {
                assert(p == missing.last());
            }
        }
        if missing.no_duplicates() {
            assert(head.no_duplicates()) by {
                assert forall|a: int, b: int| 0 <= a < b < head.len() implies head[a] != head[b] by {
                    assert(missing[a] == head[a]);
                    assert(missing[b] == head[b]);
                }
            }
            if target_of(q, missing.last() as int) is None {
                assert(!base.contains(missing.last())) by {
                    if base.contains(missing.last()) {
                        lemma_unmatched_subset(q, head, missing.last());
                        let k = choose|k: int|
                            0 <= k < head.len() && #[trigger] head[k] == missing.last();
                        assert(missing[k] == missing[missing.len() - 1]);
                    }
                }
                assert forall|a: int, b: int| 0 <= a < b < unc.len() implies unc[a] != unc[b] by {
                    if b < base.len() {
                        assert(unc[a] == base[a] && unc[b] == base[b]);
                    } else {
                        assert(unc[a] == base[a] && unc[b] == missing.last());
                        assert(base.contains(base[a]));
                    }
                }
            }
        }
    }
}

/// A face's group holds only offsets resolving to that face, and each at
/// most once when the input has no duplicates.
pub proof fn lemma_positions_for_props(q: RunQuery, missing: Seq<usize>, fid: usize)
    ensures
        forall|p: usize|
            #[trigger] positions_for(q, missing, fid).contains(p) ==> target_of(q, p as int)
                == Some(fid),
        missing.no_duplicates() ==> positions_for(q, missing, fid).no_duplicates(),
    decreases missing.len(),
{
    if missing.len() > 0 {
        let head = missing.drop_last();
        let base = positions_for(q, head, fid);
        let cur = positions_for(q, missing, fid);
        lemma_positions_for_props(q, head, fid);
        assert forall|p: usize| #[trigger] cur.contains(p) implies target_of(q, p as int) == Some(
            fid,
        ) by {
            let i = choose|i: int| 0 <= i < cur.len() && #[trigger] cur[i] == p;
            if i < base.len() {
                assert(base[i] == p);
                assert(base.contains(p));
            } else {
                assert(p == missing.last());
            }
        }
        if missing.no_duplicates() {
            assert(head.no_duplicates()) by {
                assert forall|a: int, b: int| 0 <= a < b < head.len() implies head[a] != head[b] by {
                    assert(missing[a] == head[a]);
                    assert(missing[b] == head[b]);
                }
            }
            if target_of(q, missing.last() as int) == Some(fid) {
                assert(!base.contains(missing.last())) by {
                    if base.contains(missing.last()) {
                        lemma_positions_for_subset(q, head, fid, missing.last());
                        let k = choose|k: int|
                            0 <= k < head.len() && #[trigger] head[k] == missing.last();
                        assert(missing[k] == missing[missing.len() - 1]);
                    }
                }
                assert forall|a: int, b: int| 0 <= a < b < cur.len() implies cur[a] != cur[b] by {
                    if b < base.len() {
                        assert(cur[a] == base[a] && cur[b] == base[b]);
                    } else {
                        assert(cur[a] == base[a] && cur[b] == missing.last());
                        assert(base.contains(base[a]));
                    }
                }
            }
        }
    }
}

/// The uncovered offsets of a group come from its offsets.
pub proof fn lemma_uncovered_subset(
    positions: Seq<usize>,
    fb_glyphs: Seq<Glyph>,
    fb_missing: Seq<usize>,
    p: usize,
)
    requires
        uncovered_of(positions, fb_glyphs, fb_missing).contains(p),
    ensures
        positions.contains(p),
    decreases positions.len(),
{
    if positions.len() > 0 {
        let rest = positions.drop_first();
        let unc = uncovered_of(positions, fb_glyphs, fb_missing);
        let tail = uncovered_of(rest, fb_glyphs, fb_missing);
        let i = choose|i: int| 0 <= i < unc.len() && #[trigger] unc[i] == p;
        if covered(fb_glyphs, fb_missing, positions[0]) {
            assert(unc =~= tail);
            assert(tail.contains(p));
            lemma_uncovered_subset(rest, fb_glyphs, fb_missing, p);
            let k = choose|k: int| 0 <= k < rest.len() && #[trigger] rest[k] == p;
            assert(positions[k + 1] == p);
        } else {
            if i == 0 {
                assert(p == positions[0]);
            } else {
                assert(tail[i - 1] == p);
                assert(tail.contains(p));
                lemma_uncovered_subset(rest, fb_glyphs, fb_missing, p);
                let k = choose|k: int| 0 <= k < rest.len() && #[trigger] rest[k] == p;
                assert(positions[k + 1] == p);
            }
        }
    }
}

/// Without duplicate offsets in the group, none repeats among its
/// uncovered offsets.
pub proof fn lemma_uncovered_no_dup(
    positions: Seq<usize>,
    fb_glyphs: Seq<Glyph>,
    fb_missing: Seq<usize>,
)
    requires
        positions.no_duplicates(),
    ensures
        uncovered_of(positions, fb_glyphs, fb_missing).no_duplicates(),
    decreases positions.len(),
{
    if positions.len() > 0 {
        let rest = positions.drop_first();
        let unc = uncovered_of(positions, fb_glyphs, fb_missing);
        let tail = uncovered_of(rest, fb_glyphs, fb_missing);
        assert(rest.no_duplicates()) by {
            assert forall|a: int, b: int| 0 <= a < b < rest.len() implies rest[a] != rest[b] by {
                assert(positions[a + 1] == rest[a]);
                assert(positions[b + 1] == rest[b]);
            }
        }
        lemma_uncovered_no_dup(rest, fb_glyphs, fb_missing);
        if covered(fb_glyphs, fb_missing, positions[0]) {
            assert(unc =~= tail);
        } else {
            assert(unc =~= seq![positions[0]] + tail);
            assert(!tail.contains(positions[0])) by {
                if tail.contains(positions[0]) {
                    lemma_uncovered_subset(rest, fb_glyphs, fb_missing, positions[0]);
                    let k = choose|k: int|
                        0 <= k < rest.len() && #[trigger] rest[k] == positions[0];
                    assert(positions[k + 1] == positions[0]);
                }
            }
            assert forall|a: int, b: int| 0 <= a < b < unc.len() implies unc[a] != unc[b] by {
                if a == 0 {
                    assert(unc[b] == tail[b - 1]);
                    assert(tail.contains(tail[b - 1]));
                } else {
                    assert(unc[a] == tail[a - 1] && unc[b] == tail[b - 1]);
                }
            }
        }
    }
}

} // verus!
