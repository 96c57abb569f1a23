//! The font matching engine: loaded faces, the memoized font loads, the
//! per-font codepoint support memos, the match cache, the monospace
//! index, and Unicode-range fallback resolution.

use crate::attrs::attrs_eqv;
use crate::attrs::FontMatchAttrs;
use crate::attrs::FontMatchKey;
use crate::attrs::Style;
use crate::codepoints::consistent_with;
use crate::codepoints::FontCachedCodepointSupportInfo;
use crate::db::cmap_tables_of;
use crate::db::face_script_tags;
use crate::db::font_wf;
use crate::db::unicode_codepoints_of;
use crate::db::FaceRecord;
use crate::db::Font;
use crate::db::FontDatabase;
use crate::fallback::Fallback;
use crate::fallback::Fallbacks;
use crate::fallback::PlatformFallback;
use crate::order::binary_search_usize;
use crate::order::dedup_sorted_usize;
use crate::order::sort_seq;
use crate::order::sort_vec;
use crate::order::sorted;
use crate::order::strictly_increasing;
use crate::order::TotalOrder;
use crate::range_fallback::find_spec;
use crate::range_fallback::FontError;
use crate::range_fallback::UnicodeRangeFallbacks;
use crate::text::contains_seq;
use crate::text::contains_substr;
use vstd::prelude::*;
use vstd::string::StringSliceAdditionalSpecFns;

verus! {

/// Most entries the font match cache holds before it is flushed whole.
pub const FONT_MATCHES_CACHE_SIZE_LIMIT: usize = 256;

/// The last association for a key, scanning from the most recent entry.
pub open spec fn assoc_get<K, V>(entries: Seq<(K, V)>, key: K) -> Option<V>
    decreases entries.len(),
{
    if entries.len() == 0 {
        None
    } else if entries.last().0 == key {
        Some(entries.last().1)
    } else {
        assoc_get(entries.drop_last(), key)
    }
}

/// With distinct keys, any entry holding the key gives the association.
proof fn lemma_assoc_get_at<K, V>(entries: Seq<(K, V)>, key: K, i: int)
    requires
        forall|a: int, b: int| 0 <= a < b < entries.len() ==> entries[a].0 != entries[b].0,
        0 <= i < entries.len(),
        entries[i].0 == key,
    ensures
        assoc_get(entries, key) == Some(entries[i].1),
    decreases entries.len(),
{
    if i == entries.len() - 1 {
        assert(entries.last() == entries[i]);
    } else {
        assert(entries.last() == entries[entries.len() - 1]);
        assert(entries.last().0 != key);
        assert(entries.drop_last()[i] == entries[i]);
        assert forall|a: int, b: int|
            0 <= a < b < entries.drop_last().len() implies entries.drop_last()[a].0
            != entries.drop_last()[b].0 by {
            assert(entries.drop_last()[a] == entries[a]);
            assert(entries.drop_last()[b] == entries[b]);
        }
        lemma_assoc_get_at(entries.drop_last(), key, i);
    }
}

/// When no entry holds the key, there is no association.
proof fn lemma_assoc_get_none<K, V>(entries: Seq<(K, V)>, key: K)
    requires
        forall|i: int| 0 <= i < entries.len() ==> entries[i].0 != key,
    ensures
        assoc_get(entries, key) is None,
    decreases entries.len(),
{
    if entries.len() > 0 {
        assert(entries.last() == entries[entries.len() - 1]);
        assert forall|i: int| 0 <= i < entries.drop_last().len() implies entries.drop_last()[i].0
            != key by {
            assert(entries.drop_last()[i] == entries[i]);
        }
        lemma_assoc_get_none(entries.drop_last(), key);
    }
}

/// Appending an entry with another key leaves an association unchanged.
proof fn lemma_assoc_get_push_other<K, V>(entries: Seq<(K, V)>, kv: (K, V), key: K)
    requires
        kv.0 != key,
    ensures
        assoc_get(entries.push(kv), key) == assoc_get(entries, key),
{
    assert(entries.push(kv).drop_last() =~= entries);
}

/// A present association comes from some entry.
proof fn lemma_assoc_get_index<K, V>(entries: Seq<(K, V)>, key: K)
    requires
        assoc_get(entries, key) is Some,
    ensures
        exists|j: int|
            0 <= j < entries.len() && #[trigger] entries[j].0 == key && Some(entries[j].1)
                == assoc_get(entries, key),
    decreases entries.len(),
{
    if entries.last().0 == key {
        assert(entries[entries.len() - 1].0 == key);
    } else {
        lemma_assoc_get_index(entries.drop_last(), key);
        let j = choose|j: int|
            0 <= j < entries.drop_last().len() && #[trigger] entries.drop_last()[j].0 == key && Some(
                entries.drop_last()[j].1,
            ) == assoc_get(entries.drop_last(), key);
        assert(entries[j].0 == key);
    }
}

fn assoc_find_usize<V>(entries: &Vec<(usize, V)>, key: usize) -> (r: Option<usize>)
    requires
        forall|a: int, b: int| 0 <= a < b < entries@.len() ==> entries@[a].0 != entries@[b].0,
    ensures
        r matches Some(idx) ==> idx < entries@.len() && entries@[idx as int].0 == key && assoc_get(
            entries@,
            key,
        ) == Some(entries@[idx as int].1),
        r is None ==> assoc_get(entries@, key) is None && forall|k: int|
            0 <= k < entries@.len() ==> entries@[k].0 != key,
{
    let n = entries.len();
    let mut i: usize = 0;
    while i < n
        invariant
            n == entries@.len(),
            i <= n,
            forall|a: int, b: int| 0 <= a < b < entries@.len() ==> entries@[a].0 != entries@[b].0,
            forall|k: int| 0 <= k < i ==> entries@[k].0 != key,
        decreases n - i,
    {
        if entries[i].0 == key {
            proof {
                lemma_assoc_get_at(entries@, key, i as int);
            }
            return Some(i);
        }
        i = i + 1;
    }
    proof {
        lemma_assoc_get_none(entries@, key);
    }
    None
}

fn assoc_find_u32<V>(entries: &Vec<(u32, V)>, key: u32) -> (r: Option<usize>)
    requires
        forall|a: int, b: int| 0 <= a < b < entries@.len() ==> entries@[a].0 != entries@[b].0,
    ensures
        r matches Some(idx) ==> idx < entries@.len() && entries@[idx as int].0 == key && assoc_get(
            entries@,
            key,
        ) == Some(entries@[idx as int].1),
        r is None ==> assoc_get(entries@, key) is None && forall|k: int|
            0 <= k < entries@.len() ==> entries@[k].0 != key,
{
    let n = entries.len();
    let mut i: usize = 0;
    while i < n
        invariant
            n == entries@.len(),
            i <= n,
            forall|a: int, b: int| 0 <= a < b < entries@.len() ==> entries@[a].0 != entries@[b].0,
            forall|k: int| 0 <= k < i ==> entries@[k].0 != key,
        decreases n - i,
    {
        if entries[i].0 == key {
            proof {
                lemma_assoc_get_at(entries@, key, i as int);
            }
            return Some(i);
        }
        i = i + 1;
    }
    proof {
        lemma_assoc_get_none(entries@, key);
    }
    None
}

/// The face is monospaced and not an emoji-only face (recognized by
/// name).
pub open spec fn is_monospace_face(f: FaceRecord) -> bool {
    f.monospaced && !contains_seq(f.post_script_name@, "Emoji"@)
}

/// One requested family name equals one of the face's family names, or
/// no family was requested.
pub open spec fn family_ok(families: Seq<String>, requested: Seq<String>) -> bool {
    requested.len() == 0 || exists|i: int, j: int|
        #![trigger requested[i], families[j]]
        0 <= i < requested.len() && 0 <= j < families.len() && families[j]@ == requested[i]@
}

/// The face is acceptable for the request: family, style and stretch
/// agree; weight only ranks, it never filters.
pub open spec fn face_matches(face: FaceRecord, attrs: FontMatchAttrs) -> bool {
    &&& family_ok(face.families@, attrs.family@)
    &&& face.style == attrs.style
    &&& face.stretch == attrs.stretch
}

/// The absolute difference of two weights.
pub open spec fn weight_diff(a: u16, b: u16) -> u16 {
    if a >= b {
        (a - b) as u16
    } else {
        (b - a) as u16
    }
}

/// The match keys of the faces acceptable for the request, in face id
/// order.
pub open spec fn match_keys(faces: Seq<FaceRecord>, attrs: FontMatchAttrs) -> Seq<FontMatchKey>
    decreases faces.len(),
{
    if faces.len() == 0 {
        Seq::empty()
    } else {
        match_keys(faces.drop_last(), attrs) + (if face_matches(faces.last(), attrs) {
            seq![
                FontMatchKey {
                    font_weight_diff: weight_diff(attrs.weight, faces.last().weight),
                    font_weight: faces.last().weight,
                    id: (faces.len() - 1) as usize,
                },
            ]
        } else {
            Seq::empty()
        })
    }
}

/// What a match query returns: the acceptable faces' keys, sorted
/// ascending by weight difference, then face weight, then face id.
pub open spec fn font_matches_spec(faces: Seq<FaceRecord>, attrs: FontMatchAttrs) -> Seq<
    FontMatchKey,
> {
    sort_seq(match_keys(faces, attrs))
}

/// Acceptability reads only the request's family names, style and
/// stretch, so equal requests match the same faces.
proof fn lemma_match_keys_eqv(faces: Seq<FaceRecord>, a: FontMatchAttrs, b: FontMatchAttrs)
    requires
        attrs_eqv(a, b),
    ensures
        match_keys(faces, a) == match_keys(faces, b),
    decreases faces.len(),
{
    if faces.len() > 0 {
        lemma_match_keys_eqv(faces.drop_last(), a, b);
        assert(a.family@.len() == a.family.deep_view().len());
        assert(b.family@.len() == b.family.deep_view().len());
        assert(face_matches(faces.last(), a) == face_matches(faces.last(), b)) by {
            if family_ok(faces.last().families@, a.family@) && a.family@.len() > 0 {
                let (i, j) = choose|i: int, j: int|
                    #![trigger a.family@[i], faces.last().families@[j]]
                    0 <= i < a.family@.len() && 0 <= j < faces.last().families@.len()
                        && faces.last().families@[j]@ == a.family@[i]@;
                assert(a.family.deep_view()[i] == a.family@[i]@);
                assert(b.family.deep_view()[i] == b.family@[i]@);
                assert(faces.last().families@[j]@ == b.family@[i]@);
            }
            if family_ok(faces.last().families@, b.family@) && b.family@.len() > 0 {
                let (i, j) = choose|i: int, j: int|
                    #![trigger b.family@[i], faces.last().families@[j]]
                    0 <= i < b.family@.len() && 0 <= j < faces.last().families@.len()
                        && faces.last().families@[j]@ == b.family@[i]@;
                assert(b.family.deep_view()[i] == b.family@[i]@);
                assert(a.family.deep_view()[i] == a.family@[i]@);
                assert(faces.last().families@[j]@ == a.family@[i]@);
            }
        }
        assert(match_keys(faces, a) =~= match_keys(faces, b));
    } else {
        assert(match_keys(faces, a) =~= match_keys(faces, b));
    }
}

/// Equal requests get equal match results.
pub proof fn lemma_font_matches_spec_eqv(
    faces: Seq<FaceRecord>,
    a: FontMatchAttrs,
    b: FontMatchAttrs,
)
    requires
        attrs_eqv(a, b),
    ensures
        font_matches_spec(faces, a) == font_matches_spec(faces, b),
{
    lemma_match_keys_eqv(faces, a, b);
}

/// A newly loaded face that is acceptable for a request appears in the
/// recomputed match result for that request.
pub proof fn lemma_matches_include_new_face(
    faces: Seq<FaceRecord>,
    face: FaceRecord,
    attrs: FontMatchAttrs,
)
    requires
        face_matches(face, attrs),
    ensures
        font_matches_spec(faces.push(face), attrs).contains(
            FontMatchKey {
                font_weight_diff: weight_diff(attrs.weight, face.weight),
                font_weight: face.weight,
                id: faces.len() as usize,
            },
        ),
{
    broadcast use vstd::seq_lib::group_to_multiset_ensures;

    let all = faces.push(face);
    let key = FontMatchKey {
        font_weight_diff: weight_diff(attrs.weight, face.weight),
        font_weight: face.weight,
        id: faces.len() as usize,
    };
    assert(all.drop_last() =~= faces);
    assert(all.last() == face);
    let keys = match_keys(all, attrs);
    assert(keys == match_keys(faces, attrs) + seq![key]);
    assert(keys[keys.len() - 1] == key);
    assert(keys.contains(key));
    crate::order::lemma_sort_seq_contains(keys, key);
}

/// A font cache entry is sound: a present font was parsed from the face
/// it is keyed by, and its codepoint set is the face's.
pub open spec fn font_entry_ok(faces: Seq<FaceRecord>, id: usize, of: Option<Font>) -> bool {
    &&& (of matches Some(f) ==> {
        &&& id < faces.len()
        &&& f.id == id
        &&& f.index == faces[id as int].index
        &&& f.data@ == faces[id as int].data@
        &&& font_wf(f)
        &&& crate::db::parseable(faces[id as int].data@, faces[id as int].index)
        &&& forall|c: u32|
            f.codepoints@.contains(c) == unicode_codepoints_of(
                cmap_tables_of(faces[id as int].data@, faces[id as int].index),
            ).contains(c)
    })
    &&& (of is None ==> id < faces.len() && !crate::db::parseable(
        faces[id as int].data@,
        faces[id as int].index,
    ))
}

/// The face exists and its bytes parse: exactly when a load succeeds.
pub open spec fn loadable_face(faces: Seq<FaceRecord>, id: usize) -> bool {
    id < faces.len() && crate::db::parseable(faces[id as int].data@, faces[id as int].index)
}

/// A codepoint support memo is sound for its face: every recorded
/// classification agrees with the face's codepoint set.
pub open spec fn support_entry_ok(
    faces: Seq<FaceRecord>,
    id: usize,
    e: FontCachedCodepointSupportInfo,
) -> bool {
    &&& e.wf()
    &&& id < faces.len()
    &&& forall|c: u32|
        e.supported@.contains(c) ==> unicode_codepoints_of(
            cmap_tables_of(faces[id as int].data@, faces[id as int].index),
        ).contains(c)
    &&& forall|c: u32|
        e.not_supported@.contains(c) ==> !unicode_codepoints_of(
            cmap_tables_of(faces[id as int].data@, faces[id as int].index),
        ).contains(c)
}

/// Access to the loaded faces and every cache and table built over them.
#[derive(Debug)]
pub struct FontSystem {
    /// The locale the engine was built for.
    pub locale: String,
    /// The loaded faces.
    pub db: FontDatabase,
    /// Memoized font loads: a parse is attempted at most once per face,
    /// and a failure is cached as a permanent absence.
    pub font_cache: Vec<(usize, Option<Font>)>,
    /// How many font parses were attempted.
    pub load_attempts: u64,
    /// Ids of all monospace, non-emoji faces, strictly ascending. Built
    /// once at construction; never rebuilt.
    pub monospace_font_ids: Vec<usize>,
    /// Monospace face ids per script tag, each list strictly ascending.
    /// Built once at construction; never rebuilt.
    pub per_script_monospace_font_ids: Vec<(u32, Vec<usize>)>,
    /// Per-font codepoint support memos.
    pub font_codepoint_support_info_cache: Vec<(usize, FontCachedCodepointSupportInfo)>,
    /// Memoized match results; flushed whole at capacity and on any
    /// database mutation.
    pub font_matches_cache: Vec<(FontMatchAttrs, Vec<FontMatchKey>)>,
    /// The family-name fallback chain computed at construction.
    pub fallbacks: Fallbacks,
    /// The registered Unicode-range fallback rules.
    pub unicode_range_fallbacks: UnicodeRangeFallbacks,
}

impl FontSystem {
    /// The engine's invariant: the monospace index is sorted and in
    /// range, cached fonts and memos are sound for their faces, and every
    /// match cache entry equals the recomputation over the current faces.
    pub open spec fn wf(self) -> bool {
        &&& strictly_increasing(self.monospace_font_ids@)
        &&& forall|k: int|
            0 <= k < self.monospace_font_ids@.len() ==> #[trigger] self.monospace_font_ids@[k]
                < self.db.faces@.len()
        &&& forall|a: int, b: int|
            0 <= a < b < self.per_script_monospace_font_ids@.len()
                ==> self.per_script_monospace_font_ids@[a].0
                != self.per_script_monospace_font_ids@[b].0
        &&& forall|gi: int|
            0 <= gi < self.per_script_monospace_font_ids@.len()
                ==> strictly_increasing(#[trigger] self.per_script_monospace_font_ids@[gi].1@)
        &&& forall|gi: int, k: int|
            0 <= gi < self.per_script_monospace_font_ids@.len() && 0 <= k
                < self.per_script_monospace_font_ids@[gi].1@.len()
                ==> self.monospace_font_ids@.contains(
                #[trigger] self.per_script_monospace_font_ids@[gi].1@[k],
            )
        &&& script_index_sound(self.per_script_monospace_font_ids@, self.db.faces@)
        &&& forall|a: int, b: int|
            0 <= a < b < self.font_cache@.len() ==> self.font_cache@[a].0 != self.font_cache@[b].0
        &&& forall|k: int|
            0 <= k < self.font_cache@.len() ==> font_entry_ok(
                self.db.faces@,
                #[trigger] self.font_cache@[k].0,
                self.font_cache@[k].1,
            )
        &&& forall|a: int, b: int|
            0 <= a < b < self.font_codepoint_support_info_cache@.len()
                ==> self.font_codepoint_support_info_cache@[a].0
                != self.font_codepoint_support_info_cache@[b].0
        &&& forall|k: int|
            0 <= k < self.font_codepoint_support_info_cache@.len() ==> support_entry_ok(
                self.db.faces@,
                #[trigger] self.font_codepoint_support_info_cache@[k].0,
                self.font_codepoint_support_info_cache@[k].1,
            )
        &&& self.font_matches_cache@.len() <= FONT_MATCHES_CACHE_SIZE_LIMIT
        &&& forall|k: int|
            0 <= k < self.font_matches_cache@.len() ==> #[trigger] self.font_matches_cache@[k].1@
                == font_matches_spec(self.db.faces@, self.font_matches_cache@[k].0)
    }

    /// Builds the engine over the given faces: collects the monospace
    /// index, parses each monospace face's script coverage, and computes
    /// the family fallback chain. All caches start empty.
    pub fn new_with_locale_and_db_and_fallback<F: Fallback>(
        locale: String,
        db: FontDatabase,
        impl_fallback: &F,
    ) -> (r: FontSystem)
        ensures
            r.wf(),
            r.locale@ == locale@,
            r.db == db,
            r.load_attempts == 0,
            r.font_cache@.len() == 0,
            r.font_codepoint_support_info_cache@.len() == 0,
            r.font_matches_cache@.len() == 0,
            r.unicode_range_fallbacks.rules@.len() == 0,
            forall|id: usize|
                r.monospace_font_ids@.contains(id) == (id < db.faces@.len() && is_monospace_face(
                    db.faces@[id as int],
                )),
            script_index_sound(r.per_script_monospace_font_ids@, db.faces@),
            script_index_complete_for(
                r.per_script_monospace_font_ids@,
                db.faces@,
                r.monospace_font_ids@,
            ),
    {
        let n = db.len();
        let mut monospace_font_ids: Vec<usize> = Vec::new();
        let mut id: usize = 0;
        while id < n
            invariant
                n == db.faces@.len(),
                id <= n,
                strictly_increasing(monospace_font_ids@),
                forall|k: int|
                    0 <= k < monospace_font_ids@.len() ==> #[trigger] monospace_font_ids@[k] < id,
                forall|i: usize|
                    monospace_font_ids@.contains(i) == (i < id && is_monospace_face(
                        db.faces@[i as int],
                    )),
            decreases n - id,
        {
            let face = &db.faces[id];
            let ghost ids0 = monospace_font_ids@;
            if face.monospaced && !contains_substr(face.post_script_name.as_str(), "Emoji") {
                monospace_font_ids.push(id);
            }
            proof {
                assert forall|i: usize|
                    monospace_font_ids@.contains(i) == (i < id + 1 && is_monospace_face(
                        db.faces@[i as int],
                    )) by {
                    if monospace_font_ids@.contains(i) {
                        let k = choose|k: int|
                            0 <= k < monospace_font_ids@.len() && #[trigger] monospace_font_ids@[k]
                                == i;
                        if k < ids0.len() {
                            assert(ids0[k] == i);
                            assert(ids0.contains(i));
                        }
                    }
                    if i < id + 1 && is_monospace_face(db.faces@[i as int]) {
                        if i < id {
                            assert(ids0.contains(i));
                            let k = choose|k: int|
                                0 <= k < ids0.len() && #[trigger] ids0[k] == i;
                            assert(monospace_font_ids@[k] == i);
                        } else {
                            assert(monospace_font_ids@.last() == i);
                        }
                    }
                }
            }
            id = id + 1;
        }
        let mut per_script: Vec<(u32, Vec<usize>)> = Vec::new();
        let mono_count = monospace_font_ids.len();
        let mut mi: usize = 0;
        while mi < mono_count
            invariant
                mono_count == monospace_font_ids@.len(),
                mi <= mono_count,
                n == db.faces@.len(),
                strictly_increasing(monospace_font_ids@),
                forall|k: int|
                    0 <= k < monospace_font_ids@.len() ==> #[trigger] monospace_font_ids@[k] < n,
                forall|a: int, b: int|
                    0 <= a < b < per_script@.len() ==> per_script@[a].0 != per_script@[b].0,
                forall|gi: int|
                    0 <= gi < per_script@.len() ==> strictly_increasing(#[trigger] per_script@[gi].1@),
                entries_from_prefix(per_script@, monospace_font_ids@, mi as int),
                script_index_sound(per_script@, db.faces@),
                script_index_complete_for(
                    per_script@,
                    db.faces@,
                    monospace_font_ids@.take(mi as int),
                ),
            decreases mono_count - mi,
        {
            let id = monospace_font_ids[mi];
            let face = &db.faces[id];
            match face_script_tags(face.data.as_slice(), face.index) {
                Some(tags) => {
                    let tag_count = tags.len();
                    let mut ti: usize = 0;
                    while ti < tag_count
                        invariant
                            tag_count == tags@.len(),
                            ti <= tag_count,
                            mi < monospace_font_ids@.len(),
                            id == monospace_font_ids@[mi as int],
                            strictly_increasing(monospace_font_ids@),
                            forall|a: int, b: int|
                                0 <= a < b < per_script@.len() ==> per_script@[a].0
                                    != per_script@[b].0,
                            forall|gi: int|
                                0 <= gi < per_script@.len() ==> strictly_increasing(
                                    #[trigger] per_script@[gi].1@,
                                ),
                            entries_from_prefix(per_script@, monospace_font_ids@, mi + 1),
                            id < db.faces@.len(),
                            tags@ == crate::db::script_tags_of(
                                db.faces@[id as int].data@,
                                db.faces@[id as int].index,
                            ),
                            script_index_sound(per_script@, db.faces@),
                            mi <= mono_count,
                            script_index_complete_for(
                                per_script@,
                                db.faces@,
                                monospace_font_ids@.take(mi as int),
                            ),
                            forall|t2: int|
                                0 <= t2 < ti ==> script_index_has(
                                    per_script@,
                                    #[trigger] tags@[t2],
                                    id,
                                ),
                        decreases tag_count - ti,
                    {
                        let tag = tags[ti];
                        let ghost per0 = per_script@;
                        match assoc_find_u32(&per_script, tag) {
                            Some(idx) => {
                                let needs_push = {
                                    let e = &per_script[idx].1;
                                    e.len() == 0 || e[e.len() - 1] != id
                                };
                                if needs_push {
                                    proof {
                                        lemma_entry_push_ok(
                                            per0,
                                            monospace_font_ids@,
                                            mi as int,
                                            idx as int,
                                            id,
                                        );
                                    }
                                    push_id_to_entry(&mut per_script, idx, id);
                                    proof {
                                        lemma_script_index_entry_push(
                                            per0,
                                            per_script@,
                                            idx as int,
                                            id,
                                        );
                                        assert(per0[idx as int].0 == tag);
                                        assert(script_index_has(per_script@, tag, id));
                                        assert(tags@[ti as int] == tag);
                                        assert(crate::db::script_tags_of(
                                            db.faces@[id as int].data@,
                                            db.faces@[id as int].index,
                                        ).contains(tag));
                                        assert forall|gi: int, k: int|
                                            0 <= gi < per_script@.len() && 0 <= k
                                                < per_script@[gi].1@.len() implies
                                            #[trigger] per_script@[gi].1@[k] < db.faces@.len()
                                                && crate::db::script_tags_of(
                                                db.faces@[per_script@[gi].1@[k] as int].data@,
                                                db.faces@[per_script@[gi].1@[k] as int].index,
                                            ).contains(per_script@[gi].0) by {
                                            if gi != idx || k < per0[idx as int].1@.len() {
                                                assert(per_script@[gi].1@[k] == per0[gi].1@[k]);
                                                assert(per0[gi].1@[k] < db.faces@.len()
                                                    && crate::db::script_tags_of(
                                                    db.faces@[per0[gi].1@[k] as int].data@,
                                                    db.faces@[per0[gi].1@[k] as int].index,
                                                ).contains(per0[gi].0));
                                                assert(per_script@[gi].0 == per0[gi].0);
                                            } else {
                                                assert(per_script@[gi].1@[k] == id);
                                                assert(per_script@[gi].0 == tag);
                                            }
                                        }
                                        assert forall|a: int, b: int|
                                            0 <= a < b < per_script@.len() implies per_script@[a].0
                                            != per_script@[b].0 by {
                                            if a != idx {
                                                assert(per_script@[a] == per0[a]);
                                            }
                                            if b != idx {
                                                assert(per_script@[b] == per0[b]);
                                            }
                                            assert(per_script@[idx as int].0 == per0[idx as int].0);
                                        }
                                        assert forall|gi: int|
                                            0 <= gi < per_script@.len() implies strictly_increasing(
                                            #[trigger] per_script@[gi].1@,
                                        ) by {
                                            if gi != idx {
                                                assert(per_script@[gi] == per0[gi]);
                                            }
                                        }
                                        assert forall|gi: int, k: int|
                                            0 <= gi < per_script@.len() && 0 <= k
                                                < per_script@[gi].1@.len() implies exists|mj: int|
                                            0 <= mj < mi + 1 && #[trigger] per_script@[gi].1@[k]
                                                == monospace_font_ids@[mj] by {
                                            if gi != idx || k < per0[idx as int].1@.len() {
                                                assert(per0[gi].1@[k] == per_script@[gi].1@[k]);
                                                let mj = choose|mj: int|
                                                    0 <= mj < mi + 1 && #[trigger] per0[gi].1@[k]
                                                        == monospace_font_ids@[mj];
                                                assert(per_script@[gi].1@[k]
                                                    == monospace_font_ids@[mj]);
                                            } else {
                                                assert(per_script@[gi].1@[k] == id);
                                                assert(monospace_font_ids@[mi as int] == id);
                                            }
                                        }
                                    }
                                } else {
                                    proof {
                                        assert(per_script@[idx as int].1@.len() > 0);
                                        assert(per_script@[idx as int].1@.last() == id);
                                        assert(per_script@[idx as int].1@.contains(id));
                                        lemma_assoc_get_at(per_script@, tag, idx as int);
                                        assert(script_index_has(per_script@, tag, id));
                                    }
                                }
                            },
                            None => {
                                let mut fresh: Vec<usize> = Vec::new();
                                fresh.push(id);
                                per_script.push((tag, fresh));
                                proof {
                                    lemma_script_index_new_entry(per0, per_script@, tag, id);
                                    assert(script_index_has(per_script@, tag, id));
                                    assert(tags@[ti as int] == tag);
                                    assert(crate::db::script_tags_of(
                                        db.faces@[id as int].data@,
                                        db.faces@[id as int].index,
                                    ).contains(tag));
                                    assert forall|gi: int, k: int|
                                        0 <= gi < per_script@.len() && 0 <= k
                                            < per_script@[gi].1@.len() implies
                                        #[trigger] per_script@[gi].1@[k] < db.faces@.len()
                                            && crate::db::script_tags_of(
                                            db.faces@[per_script@[gi].1@[k] as int].data@,
                                            db.faces@[per_script@[gi].1@[k] as int].index,
                                        ).contains(per_script@[gi].0) by {
                                        if gi < per0.len() {
                                            assert(per_script@[gi] == per0[gi]);
                                            assert(per0[gi].1@[k] < db.faces@.len()
                                                && crate::db::script_tags_of(
                                                db.faces@[per0[gi].1@[k] as int].data@,
                                                db.faces@[per0[gi].1@[k] as int].index,
                                            ).contains(per0[gi].0));
                                        } else {
                                            assert(per_script@[gi].1@[k] == id);
                                            assert(per_script@[gi].0 == tag);
                                        }
                                    }
                                    assert forall|a: int, b: int|
                                        0 <= a < b < per_script@.len() implies per_script@[a].0
                                        != per_script@[b].0 by {
                                        if b < per0.len() {
                                            assert(per_script@[a] == per0[a]);
                                            assert(per_script@[b] == per0[b]);
                                        } else {
                                            assert(per_script@[a] == per0[a]);
                                            assert(per_script@[b].0 == tag);
                                            assert(per0[a].0 != tag);
                                        }
                                    }
                                    assert forall|gi: int|
                                        0 <= gi < per_script@.len() implies strictly_increasing(
                                        #[trigger] per_script@[gi].1@,
                                    ) by {
                                        if gi < per0.len() {
                                            assert(per_script@[gi] == per0[gi]);
                                        }
                                    }
                                    assert forall|gi: int, k: int|
                                        0 <= gi < per_script@.len() && 0 <= k
                                            < per_script@[gi].1@.len() implies exists|mj: int|
                                        0 <= mj < mi + 1 && #[trigger] per_script@[gi].1@[k]
                                            == monospace_font_ids@[mj] by {
                                        if gi < per0.len() {
                                            assert(per0[gi].1@[k] == per_script@[gi].1@[k]);
                                            let mj = choose|mj: int|
                                                0 <= mj < mi + 1 && #[trigger] per0[gi].1@[k]
                                                    == monospace_font_ids@[mj];
                                            assert(per_script@[gi].1@[k] == monospace_font_ids@[mj]);
                                        } else {
                                            assert(per_script@[gi].1@[k] == id);
                                            assert(monospace_font_ids@[mi as int] == id);
                                        }
                                    }
                                }
                            },
                        }
                        proof {
                            assert(script_index_has(per_script@, tag, id));
                            assert forall|t: u32, x: usize|
                                #[trigger] script_index_has(per0, t, x) implies script_index_has(
                                per_script@,
                                t,
                                x,
                            ) by {}
                            assert forall|t2: int|
                                0 <= t2 < ti + 1 implies script_index_has(
                                per_script@,
                                #[trigger] tags@[t2],
                                id,
                            ) by {
                                if t2 < ti {
                                    assert(script_index_has(per0, tags@[t2], id));
                                }
                            }
                            assert(script_index_complete_for(
                                per_script@,
                                db.faces@,
                                monospace_font_ids@.take(mi as int),
                            )) by {
                                let processed = monospace_font_ids@.take(mi as int);
                                assert forall|pi: int, tag2: u32|
                                    #![trigger crate::db::script_tags_of(
                                        db.faces@[processed[pi] as int].data@,
                                        db.faces@[processed[pi] as int].index,
                                    ).contains(tag2)]
                                    0 <= pi < processed.len() && crate::db::parseable(
                                        db.faces@[processed[pi] as int].data@,
                                        db.faces@[processed[pi] as int].index,
                                    ) && crate::db::script_tags_of(
                                        db.faces@[processed[pi] as int].data@,
                                        db.faces@[processed[pi] as int].index,
                                    ).contains(tag2) implies script_index_has(
                                    per_script@,
                                    tag2,
                                    processed[pi],
                                ) by {
                                    assert(script_index_has(per0, tag2, processed[pi]));
                                }
                            }
                        }
                        ti = ti + 1;
                    }
                    proof {
                        assert(monospace_font_ids@.take(mi + 1) =~= monospace_font_ids@.take(
                            mi as int,
                        ).push(id));
                        let processed1 = monospace_font_ids@.take(mi + 1);
                        assert forall|pi: int, tag2: u32|
                            #![trigger crate::db::script_tags_of(
                                db.faces@[processed1[pi] as int].data@,
                                db.faces@[processed1[pi] as int].index,
                            ).contains(tag2)]
                            0 <= pi < processed1.len() && crate::db::parseable(
                                db.faces@[processed1[pi] as int].data@,
                                db.faces@[processed1[pi] as int].index,
                            ) && crate::db::script_tags_of(
                                db.faces@[processed1[pi] as int].data@,
                                db.faces@[processed1[pi] as int].index,
                            ).contains(tag2) implies script_index_has(
                            per_script@,
                            tag2,
                            processed1[pi],
                        ) by {
                            if pi < mi {
                                assert(processed1[pi] == monospace_font_ids@.take(mi as int)[pi]);
                                assert(script_index_has(
                                    per_script@,
                                    tag2,
                                    monospace_font_ids@.take(mi as int)[pi],
                                ));
                            } else {
                                assert(processed1[pi] == id);
                                let t2 = choose|t2: int|
                                    0 <= t2 < tags@.len() && #[trigger] tags@[t2] == tag2;
                                assert(script_index_has(per_script@, tags@[t2], id));
                            }
                        }
                        assert(script_index_complete_for(per_script@, db.faces@, processed1));
                    }
                },
                None => {
                    proof {
                        assert(!crate::db::parseable(
                            db.faces@[id as int].data@,
                            db.faces@[id as int].index,
                        ));
                        assert(monospace_font_ids@.take(mi + 1) =~= monospace_font_ids@.take(
                            mi as int,
                        ).push(id));
                        let processed1 = monospace_font_ids@.take(mi + 1);
                        assert forall|pi: int, tag2: u32|
                            #![trigger crate::db::script_tags_of(
                                db.faces@[processed1[pi] as int].data@,
                                db.faces@[processed1[pi] as int].index,
                            ).contains(tag2)]
                            0 <= pi < processed1.len() && crate::db::parseable(
                                db.faces@[processed1[pi] as int].data@,
                                db.faces@[processed1[pi] as int].index,
                            ) && crate::db::script_tags_of(
                                db.faces@[processed1[pi] as int].data@,
                                db.faces@[processed1[pi] as int].index,
                            ).contains(tag2) implies script_index_has(
                            per_script@,
                            tag2,
                            processed1[pi],
                        ) by {
                            if pi < mi {
                                assert(processed1[pi] == monospace_font_ids@.take(mi as int)[pi]);
                                assert(script_index_has(
                                    per_script@,
                                    tag2,
                                    monospace_font_ids@.take(mi as int)[pi],
                                ));
                            } else {
                                assert(processed1[pi] == id);
                            }
                        }
                        assert(script_index_complete_for(per_script@, db.faces@, processed1));
                    }
                },
            }
            mi = mi + 1;
        }
        proof {
            assert forall|gi: int, k: int|
                0 <= gi < per_script@.len() && 0 <= k
                    < per_script@[gi].1@.len() implies monospace_font_ids@.contains(
                #[trigger] per_script@[gi].1@[k],
            ) by {
                let mj = choose|mj: int|
                    0 <= mj < mono_count && #[trigger] per_script@[gi].1@[k]
                        == monospace_font_ids@[mj];
            }
            assert(monospace_font_ids@.take(mono_count as int) =~= monospace_font_ids@);
        }
        let empty_scripts: Vec<u32> = Vec::new();
        let fallbacks = Fallbacks::new(impl_fallback, empty_scripts.as_slice(), locale.as_str());

        FontSystem {
            locale,
            db,
            font_cache: Vec::new(),
            load_attempts: 0,
            monospace_font_ids,
            per_script_monospace_font_ids: per_script,
            font_codepoint_support_info_cache: Vec::new(),
            font_matches_cache: Vec::new(),
            fallbacks,
            unicode_range_fallbacks: UnicodeRangeFallbacks::new(),
        }
    }

    /// Builds the engine with the platform's default fallback chain.
    pub fn new_with_locale_and_db(locale: String, db: FontDatabase) -> (r: FontSystem)
        ensures
            r.wf(),
            r.locale@ == locale@,
            r.db == db,
            r.load_attempts == 0,
            r.font_cache@.len() == 0,
            r.font_matches_cache@.len() == 0,
            r.unicode_range_fallbacks.rules@.len() == 0,
            forall|id: usize|
                r.monospace_font_ids@.contains(id) == (id < db.faces@.len() && is_monospace_face(
                    db.faces@[id as int],
                )),
            script_index_complete_for(
                r.per_script_monospace_font_ids@,
                db.faces@,
                r.monospace_font_ids@,
            ),
    {
        Self::new_with_locale_and_db_and_fallback(locale, db, &PlatformFallback)
    }

    /// The locale the engine was built for.
    pub fn locale(&self) -> (r: &str)
        ensures
            r@ == self.locale@,
    {
        self.locale.as_str()
    }

    /// Read access to the loaded faces.
    pub fn db(&self) -> (r: &FontDatabase)
        ensures
            r == &self.db,
    {
        &self.db
    }

    /// Write access to the loaded faces. The match cache is flushed
    /// first: a mutated database must never serve stale match results.
    pub fn db_mut(&mut self) -> (r: &mut FontDatabase)
        ensures
            *r == old(self).db,
            final(self).db == *final(r),
            final(self).font_matches_cache@.len() == 0,
            final(self).locale == old(self).locale,
            final(self).font_cache == old(self).font_cache,
            final(self).load_attempts == old(self).load_attempts,
            final(self).monospace_font_ids == old(self).monospace_font_ids,
            final(self).per_script_monospace_font_ids == old(self).per_script_monospace_font_ids,
            final(self).font_codepoint_support_info_cache == old(
                self,
            ).font_codepoint_support_info_cache,
            final(self).fallbacks == old(self).fallbacks,
            final(self).unicode_range_fallbacks == old(self).unicode_range_fallbacks,
    {
        self.font_matches_cache.clear();
        &mut self.db
    }

    /// Consumes the engine, returning the locale and the faces.
    pub fn into_locale_and_db(self) -> (r: (String, FontDatabase))
        ensures
            r.0 == self.locale,
            r.1 == self.db,
    {
        (self.locale, self.db)
    }

    /// Loads every face found in the font bytes, returning their ids, and
    /// flushes the match cache: the face set changed.
    pub fn load_font_data(&mut self, data: &[u8]) -> (ids: Vec<usize>)
        requires
            old(self).wf(),
        ensures
            final(self).wf(),
            final(self).font_matches_cache@.len() == 0,
            final(self).db.faces@.len() == old(self).db.faces@.len()
                + crate::db::scanned_faces_of(data@).len(),
            final(self).db.faces@.take(old(self).db.faces@.len() as int) == old(self).db.faces@,
            ids@.len() == crate::db::scanned_faces_of(data@).len(),
            forall|k: int| 0 <= k < ids@.len() ==> ids@[k] == old(self).db.faces@.len() + k,
            forall|k: int|
                0 <= k < crate::db::scanned_faces_of(data@).len() ==> crate::db::face_of_scan(
                    crate::db::scanned_faces_of(data@)[k],
                    data@,
                    #[trigger] final(self).db.faces@[old(self).db.faces@.len() + k],
                ),
            final(self).locale == old(self).locale,
            final(self).font_cache == old(self).font_cache,
            final(self).load_attempts == old(self).load_attempts,
            final(self).monospace_font_ids == old(self).monospace_font_ids,
            final(self).unicode_range_fallbacks == old(self).unicode_range_fallbacks,
    {
        self.font_matches_cache.clear();
        let ids = self.db.load_font_data(data);
        proof {
            let oldf = old(self).db.faces@;
            let newf = self.db.faces@;
            assert forall|k: int| 0 <= k < oldf.len() implies newf[k] == oldf[k] by {
                assert(newf.take(oldf.len() as int)[k] == newf[k]);
            }
            assert forall|k: int|
                0 <= k < self.font_cache@.len() implies font_entry_ok(
                newf,
                #[trigger] self.font_cache@[k].0,
                self.font_cache@[k].1,
            ) by {
                assert(font_entry_ok(oldf, self.font_cache@[k].0, self.font_cache@[k].1));
            }
            assert forall|k: int|
                0 <= k < self.font_codepoint_support_info_cache@.len() implies support_entry_ok(
                newf,
                #[trigger] self.font_codepoint_support_info_cache@[k].0,
                self.font_codepoint_support_info_cache@[k].1,
            ) by {
                assert(support_entry_ok(
                    oldf,
                    self.font_codepoint_support_info_cache@[k].0,
                    self.font_codepoint_support_info_cache@[k].1,
                ));
            }
            let per = self.per_script_monospace_font_ids@;
            assert(script_index_sound(per, oldf));
            assert forall|gi: int, k: int|
                0 <= gi < per.len() && 0 <= k < per[gi].1@.len() implies #[trigger] per[gi].1@[k]
                < newf.len() && crate::db::script_tags_of(
                newf[per[gi].1@[k] as int].data@,
                newf[per[gi].1@[k] as int].index,
            ).contains(per[gi].0) by {
                assert(per[gi].1@[k] < oldf.len() && crate::db::script_tags_of(
                    oldf[per[gi].1@[k] as int].data@,
                    oldf[per[gi].1@[k] as int].index,
                ).contains(per[gi].0));
                assert(newf[per[gi].1@[k] as int] == oldf[per[gi].1@[k] as int]);
            }
        }
        ids
    }

    /// Whether the face is in the monospace index.
    pub fn is_monospace(&self, id: usize) -> (r: bool)
        requires
            self.wf(),
        ensures
            r == self.monospace_font_ids@.contains(id),
    {
        let (found, _) = binary_search_usize(&self.monospace_font_ids, id);
        found
    }

    /// The monospace face ids covering any of the given scripts: the
    /// sorted, deduplicated union of the per-script index entries.
    #[verifier::rlimit(100)]
    pub fn get_monospace_ids_for_scripts(&self, scripts: &[u32]) -> (r: Vec<usize>)
        requires
            self.wf(),
        ensures
            strictly_increasing(r@),
            forall|id: usize|
                r@.contains(id) == exists|si: int|
                    0 <= si < scripts@.len() && script_index_has(
                        self.per_script_monospace_font_ids@,
                        #[trigger] scripts@[si],
                        id,
                    ),
    {
        let mut all: Vec<usize> = Vec::new();
        let n = scripts.len();
        let mut si: usize = 0;
        while si < n
            invariant
                n == scripts@.len(),
                si <= n,
                self.wf(),
                forall|id: usize|
                    all@.contains(id) == exists|s: int|
                        0 <= s < si && script_index_has(
                            self.per_script_monospace_font_ids@,
                            #[trigger] scripts@[s],
                            id,
                        ),
            decreases n - si,
        {
            let tag = *vstd::slice::slice_index_get(scripts, si);
            let ghost all0 = all@;
            match assoc_find_u32(&self.per_script_monospace_font_ids, tag) {
                Some(idx) => {
                    let ids = &self.per_script_monospace_font_ids[idx].1;
                    let m = ids.len();
                    proof {
                        assert(all@ =~= all0 + ids@.take(0));
                    }
                    let mut k: usize = 0;
                    while k < m
                        invariant
                            m == ids@.len(),
                            k <= m,
                            all@ == all0 + ids@.take(k as int),
                        decreases m - k,
                    {
                        all.push(ids[k]);
                        proof {
                            assert(ids@.take(k + 1) =~= ids@.take(k as int).push(ids@[k as int]));
                            assert(all@ =~= all0 + ids@.take(k + 1));
                        }
                        k = k + 1;
                    }
                    proof {
                        assert(ids@.take(m as int) =~= ids@);
                        assert forall|id: usize|
                            all@.contains(id) == (all0.contains(id) || ids@.contains(id)) by {
                            lemma_concat_contains(all0, ids@, id);
                        }
                    }
                },
                None => {
                },
            }
            proof {
                assert forall|id: usize|
                    all@.contains(id) == exists|s: int|
                        0 <= s < si + 1 && script_index_has(
                            self.per_script_monospace_font_ids@,
                            #[trigger] scripts@[s],
                            id,
                        ) by {
                    if all@.contains(id) && !all0.contains(id) {
                        assert(script_index_has(
                            self.per_script_monospace_font_ids@,
                            scripts@[si as int],
                            id,
                        ));
                    }
                    if all0.contains(id) {
                        let s = choose|s: int|
                            0 <= s < si && script_index_has(
                                self.per_script_monospace_font_ids@,
                                #[trigger] scripts@[s],
                                id,
                            );
                        assert(script_index_has(
                            self.per_script_monospace_font_ids@,
                            scripts@[s],
                            id,
                        ));
                    }
                    if exists|s: int|
                        0 <= s < si + 1 && script_index_has(
                            self.per_script_monospace_font_ids@,
                            #[trigger] scripts@[s],
                            id,
                        ) {
                        let s = choose|s: int|
                            0 <= s < si + 1 && script_index_has(
                                self.per_script_monospace_font_ids@,
                                #[trigger] scripts@[s],
                                id,
                            );
                        if s < si {
                            assert(all0.contains(id));
                        }
                    }
                }
            }
            si = si + 1;
        }
        let ghost pre_sort = all@;
        sort_vec(&mut all);
        proof {
            assert forall|id: usize| all@.contains(id) == pre_sort.contains(id) by {
                crate::order::lemma_sort_seq_contains(pre_sort, id);
            }
        }
        let r = dedup_sorted_usize(&all);
        proof {
            assert forall|id: usize|
                r@.contains(id) == (exists|s: int|
                    0 <= s < scripts@.len() && script_index_has(
                        self.per_script_monospace_font_ids@,
                        #[trigger] scripts@[s],
                        id,
                    )) by {
                assert(r@.contains(id) == all@.contains(id));
                assert(all@.contains(id) == pre_sort.contains(id));
            }
        }
        r
    }

    /// Registers an unconstrained Unicode-range fallback rule.
    pub fn add_unicode_range_fallback(&mut self, start: char, end: char, font_id: usize)
        ensures
            final(self).unicode_range_fallbacks.rules@ == old(
                self,
            ).unicode_range_fallbacks.rules@.push(
                crate::range_fallback::FallbackRule {
                    start: start as u32,
                    end: end as u32,
                    font_id,
                    weight: None,
                    style: None,
                },
            ),
            unchanged_but_rules(*old(self), *final(self)),
    {
        self.unicode_range_fallbacks.add(start, end, font_id);
    }

    /// Registers a Unicode-range fallback rule with optional weight and
    /// style constraints.
    pub fn add_unicode_range_fallback_with_style(
        &mut self,
        start: char,
        end: char,
        font_id: usize,
        weight: Option<u16>,
        style: Option<Style>,
    )
        ensures
            final(self).unicode_range_fallbacks.rules@ == old(
                self,
            ).unicode_range_fallbacks.rules@.push(
                crate::range_fallback::FallbackRule {
                    start: start as u32,
                    end: end as u32,
                    font_id,
                    weight,
                    style,
                },
            ),
            unchanged_but_rules(*old(self), *final(self)),
    {
        self.unicode_range_fallbacks.add_with_style(start, end, font_id, weight, style);
    }

    /// Resolves a character against the registered rules, without weight
    /// or style.
    pub fn get_unicode_range_fallback_for_char(&mut self, c: char) -> (r: Option<usize>)
        ensures
            r == find_spec(old(self).unicode_range_fallbacks.rules@, c as u32, None, None),
            *final(self) == *old(self),
    {
        self.unicode_range_fallbacks.find_for_char(c)
    }

    /// Resolves a character against the registered rules under the given
    /// weight and style.
    pub fn get_unicode_range_fallback_for_char_with_style(
        &mut self,
        c: char,
        weight: Option<u16>,
        style: Option<Style>,
    ) -> (r: Option<usize>)
        ensures
            r == find_spec(old(self).unicode_range_fallbacks.rules@, c as u32, weight, style),
            *final(self) == *old(self),
    {
        self.unicode_range_fallbacks.find_for_char_with_style(c, weight, style)
    }

    /// Whether any Unicode-range fallback rule is registered.
    pub fn has_unicode_range_fallbacks(&self) -> (r: bool)
        ensures
            r == (self.unicode_range_fallbacks.rules@.len() != 0),
    {
        !self.unicode_range_fallbacks.is_empty()
    }

    /// Registers a Unicode-range fallback rule by family name: the name
    /// is resolved to the first face carrying it; when no face does, the
    /// rule is not installed and `UnknownFamilyName` is returned.
    pub fn add_unicode_range_fallback_for_family(
        &mut self,
        start: char,
        end: char,
        family: &str,
        weight: Option<u16>,
        style: Option<Style>,
    ) -> (r: Result<(), FontError>)
        ensures
            r matches Ok(()) ==> first_family_face(old(self).db.faces@, family@) matches Some(id)
                && final(self).unicode_range_fallbacks.rules@ == old(
                self,
            ).unicode_range_fallbacks.rules@.push(
                crate::range_fallback::FallbackRule {
                    start: start as u32,
                    end: end as u32,
                    font_id: id,
                    weight,
                    style,
                },
            ),
            r matches Err(e) ==> e == FontError::UnknownFamilyName && first_family_face(
                old(self).db.faces@,
                family@,
            ) is None && *final(self) == *old(self),
            unchanged_but_rules(*old(self), *final(self)),
    {
        match self.find_family_face(family) {
            Some(id) => {
                self.unicode_range_fallbacks.add_with_style(start, end, id, weight, style);
                Ok(())
            },
            None => Err(FontError::UnknownFamilyName),
        }
    }

    /// The first face carrying the family name, if any.
    fn find_family_face(&self, family: &str) -> (r: Option<usize>)
        ensures
            r == first_family_face(self.db.faces@, family@),
    {
        let n = self.db.faces.len();
        proof {
            assert(self.db.faces@.take(n as int) =~= self.db.faces@);
        }
        let mut id: usize = 0;
        while id < n
            invariant
                n == self.db.faces@.len(),
                id <= n,
                first_family_face(self.db.faces@, family@) == first_family_face_from(
                    self.db.faces@,
                    family@,
                    id as int,
                ),
            decreases n - id,
        {
            if face_has_family(&self.db.faces[id], family) {
                return Some(id);
            }
            id = id + 1;
        }
        None
    }
}

/// Whether the per-script index lists `id` for the script `tag`.
pub open spec fn script_index_has(
    entries: Seq<(u32, Vec<usize>)>,
    tag: u32,
    id: usize,
) -> bool {
    match assoc_get(entries, tag) {
        Some(ids) => ids@.contains(id),
        None => false,
    }
}

/// The per-script index is sound: every listed face exists and its
/// parsed layout tables name the script tag it is listed under.
pub open spec fn script_index_sound(
    entries: Seq<(u32, Vec<usize>)>,
    faces: Seq<FaceRecord>,
) -> bool {
    forall|gi: int, k: int|
        0 <= gi < entries.len() && 0 <= k < entries[gi].1@.len() ==> #[trigger] entries[gi].1@[k]
            < faces.len() && crate::db::script_tags_of(
            faces[entries[gi].1@[k] as int].data@,
            faces[entries[gi].1@[k] as int].index,
        ).contains(entries[gi].0)
}

/// The index is complete for the processed ids: a processed face whose
/// bytes parse and whose parsed layout tables name a tag is listed under
/// that tag.
pub open spec fn script_index_complete_for(
    entries: Seq<(u32, Vec<usize>)>,
    faces: Seq<FaceRecord>,
    processed: Seq<usize>,
) -> bool {
    forall|pi: int, tag: u32|
        #![trigger crate::db::script_tags_of(
            faces[processed[pi] as int].data@,
            faces[processed[pi] as int].index,
        ).contains(tag)]
        0 <= pi < processed.len() && crate::db::parseable(
            faces[processed[pi] as int].data@,
            faces[processed[pi] as int].index,
        ) && crate::db::script_tags_of(
            faces[processed[pi] as int].data@,
            faces[processed[pi] as int].index,
        ).contains(tag) ==> script_index_has(entries, tag, processed[pi])
}

/// Appending an id to one entry keeps every recorded listing and lists
/// the id under that entry's tag.
proof fn lemma_script_index_entry_push(
    per0: Seq<(u32, Vec<usize>)>,
    per1: Seq<(u32, Vec<usize>)>,
    idx: int,
    id: usize,
)
    requires
        forall|a: int, b: int| 0 <= a < b < per0.len() ==> per0[a].0 != per0[b].0,
        0 <= idx < per0.len(),
        per1.len() == per0.len(),
        forall|k: int| 0 <= k < per0.len() && k != idx ==> per1[k] == per0[k],
        per1[idx].0 == per0[idx].0,
        per1[idx].1@ == per0[idx].1@.push(id),
    ensures
        forall|t: u32, x: usize|
            #[trigger] script_index_has(per0, t, x) ==> script_index_has(per1, t, x),
        script_index_has(per1, per0[idx].0, id),
{
    assert forall|a: int, b: int| 0 <= a < b < per1.len() implies per1[a].0 != per1[b].0 by {
        if a != idx {
            assert(per1[a] == per0[a]);
        }
        if b != idx {
            assert(per1[b] == per0[b]);
        }
    }
    assert forall|t: u32, x: usize| #[trigger] script_index_has(per0, t, x) implies script_index_has(
        per1,
        t,
        x,
    ) by {
        lemma_assoc_get_index(per0, t);
        let j = choose|j: int|
            0 <= j < per0.len() && #[trigger] per0[j].0 == t && Some(per0[j].1) == assoc_get(
                per0,
                t,
            );
        assert(per1[j].0 == t);
        lemma_assoc_get_at(per1, t, j);
        assert(per0[j].1@.contains(x));
        let y = choose|y: int| 0 <= y < per0[j].1@.len() && #[trigger] per0[j].1@[y] == x;
        assert(per1[j].1@[y] == x);
        assert(per1[j].1@.contains(x));
    }
    lemma_assoc_get_at(per1, per0[idx].0, idx);
    assert(per1[idx].1@.last() == id);
    assert(per1[idx].1@.contains(id));
}

/// Appending a fresh entry keeps every recorded listing and lists the id
/// under the new tag.
proof fn lemma_script_index_new_entry(
    per0: Seq<(u32, Vec<usize>)>,
    per1: Seq<(u32, Vec<usize>)>,
    tag: u32,
    id: usize,
)
    requires
        forall|k: int| 0 <= k < per0.len() ==> per0[k].0 != tag,
        per1 == per0.push(per1.last()),
        per1.last().0 == tag,
        per1.last().1@ == seq![id],
    ensures
        forall|t: u32, x: usize|
            #[trigger] script_index_has(per0, t, x) ==> script_index_has(per1, t, x),
        script_index_has(per1, tag, id),
{
    assert forall|t: u32, x: usize| #[trigger] script_index_has(per0, t, x) implies script_index_has(
        per1,
        t,
        x,
    ) by {
        lemma_assoc_get_index(per0, t);
        let j = choose|j: int|
            0 <= j < per0.len() && #[trigger] per0[j].0 == t && Some(per0[j].1) == assoc_get(
                per0,
                t,
            );
        assert(t != tag);
        lemma_assoc_get_push_other(per0, per1.last(), t);
    }
    assert(per1.drop_last() =~= per0);
    assert(per1.last().1@[0] == id);
    assert(per1.last().1@.contains(id));
}

/// Every id in the index comes from the first `bound` monospace ids.
pub open spec fn entries_from_prefix(
    entries: Seq<(u32, Vec<usize>)>,
    mono: Seq<usize>,
    bound: int,
) -> bool {
    forall|gi: int, k: int|
        0 <= gi < entries.len() && 0 <= k < entries[gi].1@.len() ==> exists|mj: int|
            0 <= mj < bound && #[trigger] entries[gi].1@[k] == mono[mj]
}

fn push_id_to_entry(entries: &mut Vec<(u32, Vec<usize>)>, idx: usize, id: usize)
    requires
        idx < old(entries)@.len(),
    ensures
        final(entries)@.len() == old(entries)@.len(),
        forall|k: int|
            0 <= k < old(entries)@.len() && k != idx ==> final(entries)@[k] == old(entries)@[k],
        final(entries)@[idx as int].0 == old(entries)@[idx as int].0,
        final(entries)@[idx as int].1@ == old(entries)@[idx as int].1@.push(id),
{
    let e = &mut entries[idx];
    e.1.push(id);
}

/// Pushing the current monospace id onto an entry that does not already
/// end with it keeps the entry strictly ascending.
proof fn lemma_entry_push_ok(
    entries: Seq<(u32, Vec<usize>)>,
    mono: Seq<usize>,
    mi: int,
    idx: int,
    id: usize,
)
    requires
        0 <= idx < entries.len(),
        0 <= mi < mono.len(),
        mono[mi] == id,
        strictly_increasing(mono),
        strictly_increasing(entries[idx].1@),
        entries_from_prefix(entries, mono, mi + 1),
        entries[idx].1@.len() == 0 || entries[idx].1@.last() != id,
    ensures
        strictly_increasing(entries[idx].1@.push(id)),
{
    let e = entries[idx].1@;
    assert forall|k: int| 0 <= k < e.len() implies e[k].leq(id) && e[k] != id by {
        let mj = choose|mj: int| 0 <= mj < mi + 1 && #[trigger] e[k] == mono[mj];
        if mj < mi {
            assert(mono[mj].leq(mono[mi]) && mono[mj] != mono[mi]);
        } else {
            // e[k] == id: with every element at most id, id sits last
            assert(e[k] == id);
            if k < e.len() - 1 {
                let mj2 = choose|mj2: int|
                    0 <= mj2 < mi + 1 && #[trigger] e[e.len() - 1] == mono[mj2];
                assert(e[k].leq(e[e.len() - 1]) && e[k] != e[e.len() - 1]);
                if mj2 < mi {
                    assert(mono[mj2].leq(mono[mi]) && mono[mj2] != mono[mi]);
                }
            } else {
                assert(e.last() == id);
            }
        }
    }
    let t = e.push(id);
    assert forall|i: int, j: int| 0 <= i < j < t.len() implies #[trigger] t[i].leq(t[j]) && t[i]
        != t[j] by {
        if j < t.len() - 1 {
            assert(e[i].leq(e[j]) && e[i] != e[j]);
        } else {
            assert(t[i] == e[i]);
        }
    }
}

/// Membership in a concatenation.
proof fn lemma_concat_contains(a: Seq<usize>, b: Seq<usize>, x: usize)
    ensures
        (a + b).contains(x) == (a.contains(x) || b.contains(x)),
{
    if (a + b).contains(x) {
        let k = choose|k: int| 0 <= k < (a + b).len() && #[trigger] (a + b)[k] == x;
        if k < a.len() {
            assert(a[k] == x);
        } else {
            assert(b[k - a.len()] == x);
        }
    }
    if a.contains(x) {
        let k = choose|k: int| 0 <= k < a.len() && #[trigger] a[k] == x;
        assert((a + b)[k] == x);
    }
    if b.contains(x) {
        let k = choose|k: int| 0 <= k < b.len() && #[trigger] b[k] == x;
        assert((a + b)[k + a.len()] == x);
    }
}

/// Everything except the fallback rules is untouched.
pub open spec fn unchanged_but_rules(a: FontSystem, b: FontSystem) -> bool {
    &&& b.locale == a.locale
    &&& b.db == a.db
    &&& b.font_cache == a.font_cache
    &&& b.load_attempts == a.load_attempts
    &&& b.monospace_font_ids == a.monospace_font_ids
    &&& b.per_script_monospace_font_ids == a.per_script_monospace_font_ids
    &&& b.font_codepoint_support_info_cache == a.font_codepoint_support_info_cache
    &&& b.font_matches_cache == a.font_matches_cache
    &&& b.fallbacks == a.fallbacks
}

/// One of the face's family names equals `name`.
pub open spec fn face_family_has(face: FaceRecord, name: Seq<char>) -> bool {
    exists|j: int| 0 <= j < face.families@.len() && #[trigger] face.families@[j]@ == name
}

/// The first face carrying the family name, scanning from face id
/// `from`.
pub open spec fn first_family_face_from(
    faces: Seq<FaceRecord>,
    name: Seq<char>,
    from: int,
) -> Option<usize>
    decreases faces.len() - from,
{
    if from < 0 || from >= faces.len() {
        None
    } else if face_family_has(faces[from], name) {
        Some(from as usize)
    } else {
        first_family_face_from(faces, name, from + 1)
    }
}

/// The first face carrying the family name.
pub open spec fn first_family_face(faces: Seq<FaceRecord>, name: Seq<char>) -> Option<usize> {
    first_family_face_from(faces, name, 0)
}

/// Whether one of the face's family names equals `family`.
fn face_has_family(face: &FaceRecord, family: &str) -> (r: bool)
    ensures
        r == face_family_has(*face, family@),
{
    let n = face.families.len();
    let mut j: usize = 0;
    while j < n
        invariant
            n == face.families@.len(),
            j <= n,
            forall|k: int| 0 <= k < j ==> #[trigger] face.families@[k]@ != family@,
        decreases n - j,
    {
        if crate::attrs::strings_equal_str(&face.families[j], family) {
            return true;
        }
        j = j + 1;
    }
    false
}


/// Option-level font content equality.
pub open spec fn font_opt_eqv(a: Option<Font>, b: Option<Font>) -> bool {
    match (a, b) {
        (None, None) => true,
        (Some(x), Some(y)) => crate::db::font_eqv(x, y),
        _ => false,
    }
}

/// A counter bumped by one until it saturates.
pub open spec fn bump(x: u64) -> u64 {
    if x < u64::MAX {
        (x + 1) as u64
    } else {
        x
    }
}

/// The face's codepoint set holds the character.
pub open spec fn face_supports_char(face: FaceRecord, c: char) -> bool {
    unicode_codepoints_of(cmap_tables_of(face.data@, face.index)).contains(c as u32)
}

/// How many characters of the word the face's codepoint set holds.
pub open spec fn count_supported_in_word(face: FaceRecord, chars: Seq<char>) -> nat
    decreases chars.len(),
{
    if chars.len() == 0 {
        0
    } else {
        count_supported_in_word(face, chars.drop_last()) + (if face_supports_char(
            face,
            chars.last(),
        ) {
            1nat
        } else {
            0
        })
    }
}

/// The running count over a codepoint sequence with the same membership
/// equals the count over the face.
proof fn lemma_count_supported_eqv(face: FaceRecord, cps: Seq<u32>, chars: Seq<char>)
    requires
        forall|c: u32|
            cps.contains(c) == unicode_codepoints_of(
                cmap_tables_of(face.data@, face.index),
            ).contains(c),
    ensures
        count_supported_seq(cps, chars) == count_supported_in_word(face, chars),
    decreases chars.len(),
{
    if chars.len() > 0 {
        lemma_count_supported_eqv(face, cps, chars.drop_last());
    }
}

/// How many characters of the word the codepoint sequence holds.
pub open spec fn count_supported_seq(cps: Seq<u32>, chars: Seq<char>) -> nat
    decreases chars.len(),
{
    if chars.len() == 0 {
        0
    } else {
        count_supported_seq(cps, chars.drop_last()) + (if cps.contains(chars.last() as u32) {
            1nat
        } else {
            0
        })
    }
}

fn clone_font_opt(o: &Option<Font>) -> (r: Option<Font>)
    ensures
        font_opt_eqv(r, *o),
{
    match o {
        Some(f) => Some(f.duplicate()),
        None => None,
    }
}

impl FontSystem {
    /// The memoized font load: the first request for an existing face
    /// parses its bytes; the load succeeds exactly when the face exists
    /// and its bytes parse; a parse failure is cached as a permanent
    /// absence and never retried; an unknown id is absent without a
    /// parse attempt.
    pub fn get_font(&mut self, id: usize) -> (r: Option<Font>)
        requires
            old(self).wf(),
        ensures
            final(self).wf(),
            final(self).db == old(self).db,
            final(self).locale == old(self).locale,
            final(self).monospace_font_ids == old(self).monospace_font_ids,
            final(self).per_script_monospace_font_ids == old(self).per_script_monospace_font_ids,
            final(self).font_codepoint_support_info_cache == old(
                self,
            ).font_codepoint_support_info_cache,
            final(self).font_matches_cache == old(self).font_matches_cache,
            final(self).fallbacks == old(self).fallbacks,
            final(self).unicode_range_fallbacks == old(self).unicode_range_fallbacks,
            r is Some == loadable_face(old(self).db.faces@, id),
            r matches Some(f) ==> font_entry_ok(old(self).db.faces@, id, Some(f)),
            assoc_get(old(self).font_cache@, id) matches Some(of) ==> *final(self) == *old(self)
                && font_opt_eqv(r, of),
            assoc_get(old(self).font_cache@, id) is None && id < old(self).db.faces@.len() ==> {
                &&& final(self).font_cache@ == old(self).font_cache@.push(
                    (id, final(self).font_cache@.last().1),
                )
                &&& final(self).font_cache@.last().0 == id
                &&& font_opt_eqv(r, final(self).font_cache@.last().1)
                &&& final(self).load_attempts == bump(old(self).load_attempts)
            },
            assoc_get(old(self).font_cache@, id) is None && id >= old(self).db.faces@.len()
                ==> *final(self) == *old(self),
            forall|k: usize|
                assoc_get(old(self).font_cache@, k) is Some ==> assoc_get(
                    final(self).font_cache@,
                    k,
                ) == #[trigger] assoc_get(old(self).font_cache@, k),
            id < old(self).db.faces@.len() ==> assoc_get(final(self).font_cache@, id) is Some,
    {
        match assoc_find_usize(&self.font_cache, id) {
            Some(idx) => {
                let r = clone_font_opt(&self.font_cache[idx].1);
                proof {
                    assert(font_entry_ok(
                        self.db.faces@,
                        self.font_cache@[idx as int].0,
                        self.font_cache@[idx as int].1,
                    ));
                }
                r
            },
            None => {
                if id < self.db.len() {
                    if self.load_attempts < u64::MAX {
                        self.load_attempts = self.load_attempts + 1;
                    }
                    let loaded = Font::load(id, &self.db.faces[id]);
                    let r = clone_font_opt(&loaded);
                    let ghost cache0 = self.font_cache@;
                    self.font_cache.push((id, loaded));
                    proof {
                        assert forall|a: int, b: int|
                            0 <= a < b < self.font_cache@.len() implies self.font_cache@[a].0
                            != self.font_cache@[b].0 by {
                            if b < cache0.len() {
                                assert(self.font_cache@[a] == cache0[a]);
                                assert(self.font_cache@[b] == cache0[b]);
                            } else {
                                assert(self.font_cache@[a] == cache0[a]);
                                assert(cache0[a].0 != id);
                            }
                        }
                        assert forall|k: int|
                            0 <= k < self.font_cache@.len() implies font_entry_ok(
                            self.db.faces@,
                            #[trigger] self.font_cache@[k].0,
                            self.font_cache@[k].1,
                        ) by {
                            if k < cache0.len() {
                                assert(self.font_cache@[k] == cache0[k]);
                                assert(font_entry_ok(self.db.faces@, cache0[k].0, cache0[k].1));
                            }
                        }
                        lemma_assoc_get_at(self.font_cache@, id, self.font_cache@.len() - 1);
                        assert forall|k: usize| #[trigger] assoc_get(cache0, k) is Some implies
                            assoc_get(self.font_cache@, k) == assoc_get(cache0, k) by {
                            assert(k != id);
                            lemma_assoc_get_push_other(cache0, self.font_cache@.last(), k);
                            assert(self.font_cache@ =~= cache0.push(self.font_cache@.last()));
                        }
                    }
                    r
                } else {
                    None
                }
            },
        }
    }

    /// How many characters of the word the face can render, answered
    /// through the per-font codepoint support memo; `None` when the face
    /// does not load.
    pub fn get_font_supported_codepoints_in_word(&mut self, id: usize, word: &str) -> (r: Option<
        usize,
    >)
        requires
            old(self).wf(),
        ensures
            final(self).wf(),
            final(self).db == old(self).db,
            final(self).locale == old(self).locale,
            final(self).monospace_font_ids == old(self).monospace_font_ids,
            final(self).per_script_monospace_font_ids == old(self).per_script_monospace_font_ids,
            final(self).font_matches_cache == old(self).font_matches_cache,
            final(self).fallbacks == old(self).fallbacks,
            final(self).unicode_range_fallbacks == old(self).unicode_range_fallbacks,
            r matches Some(n) ==> id < old(self).db.faces@.len() && n == count_supported_in_word(
                old(self).db.faces@[id as int],
                word@,
            ),
            r is Some == loadable_face(old(self).db.faces@, id),
            forall|k: usize|
                assoc_get(old(self).font_cache@, k) is Some ==> assoc_get(
                    final(self).font_cache@,
                    k,
                ) == #[trigger] assoc_get(old(self).font_cache@, k),
            id < old(self).db.faces@.len() ==> assoc_get(final(self).font_cache@, id) is Some,
    {
        let font = match self.get_font(id) {
            Some(f) => f,
            None => {
                return None;
            },
        };
        let ghost faces = self.db.faces@;
        let mut entry: FontCachedCodepointSupportInfo = match assoc_find_usize(
            &self.font_codepoint_support_info_cache,
            id,
        ) {
            Some(idx) => {
                let ghost cache0 = self.font_codepoint_support_info_cache@;
                let pair = self.font_codepoint_support_info_cache.remove(idx);
                proof {
                    assert(support_entry_ok(faces, cache0[idx as int].0, cache0[idx as int].1));
                    assert forall|a: int, b: int|
                        0 <= a < b < self.font_codepoint_support_info_cache@.len() implies
                        self.font_codepoint_support_info_cache@[a].0
                        != self.font_codepoint_support_info_cache@[b].0 by {
                        let na = if a < idx {
                            a
                        } else {
                            a + 1
                        };
                        let nb = if b < idx {
                            b
                        } else {
                            b + 1
                        };
                        assert(self.font_codepoint_support_info_cache@[a] == cache0[na]);
                        assert(self.font_codepoint_support_info_cache@[b] == cache0[nb]);
                    }
                    assert forall|k: int|
                        0 <= k < self.font_codepoint_support_info_cache@.len() implies
                        self.font_codepoint_support_info_cache@[k].0 != id by {
                        let nk = if k < idx {
                            k
                        } else {
                            k + 1
                        };
                        assert(self.font_codepoint_support_info_cache@[k] == cache0[nk]);
                        if nk != idx {
                            assert(cache0[nk].0 != cache0[idx as int].0);
                        }
                    }
                }
                pair.1
            },
            None => FontCachedCodepointSupportInfo::new(),
        };
        proof {
            assert(entry.wf());
            assert forall|c: u32|
                entry.supported@.contains(c) implies font.codepoints@.contains(c) by {}
            assert forall|c: u32|
                entry.not_supported@.contains(c) implies !font.codepoints@.contains(c) by {}
            assert(consistent_with(entry, font.codepoints@));
        }
        let n = word.unicode_len();
        let mut count: usize = 0;
        let mut i: usize = 0;
        while i < n
            invariant
                n == word@.len(),
                i <= n,
                count <= i,
                entry.wf(),
                consistent_with(entry, font.codepoints@),
                count == count_supported_seq(font.codepoints@, word@.take(i as int)),
            decreases n - i,
        {
            let c = word.get_char(i);
            proof {
                vstd::utf8::char_is_scalar(c);
                assert(word@.take(i + 1).drop_last() =~= word@.take(i as int));
                assert(word@.take(i + 1).last() == word@[i as int]);
            }
            let supported = entry.has_codepoint(font.unicode_codepoints().as_slice(), c as u32);
            if supported {
                count = count + 1;
            }
            i = i + 1;
        }
        proof {
            assert(word@.take(n as int) =~= word@);
        }
        let ghost cache1 = self.font_codepoint_support_info_cache@;
        self.font_codepoint_support_info_cache.push((id, entry));
        proof {
            let cache2 = self.font_codepoint_support_info_cache@;
            assert forall|a: int, b: int|
                0 <= a < b < cache2.len() implies cache2[a].0 != cache2[b].0 by {
                if b < cache1.len() {
                    assert(cache2[a] == cache1[a]);
                    assert(cache2[b] == cache1[b]);
                } else {
                    assert(cache2[a] == cache1[a]);
                    assert(cache1[a].0 != id);
                }
            }
            assert(font_entry_ok(faces, id, Some(font)));
            assert forall|k: int|
                0 <= k < cache2.len() implies support_entry_ok(
                faces,
                #[trigger] cache2[k].0,
                cache2[k].1,
            ) by {
                if k < cache1.len() {
                    assert(cache2[k] == cache1[k]);
                    assert(support_entry_ok(faces, cache1[k].0, cache1[k].1));
                } else {
                    assert(cache2[k].1 == entry);
                    assert forall|c: u32|
                        entry.supported@.contains(c) implies unicode_codepoints_of(
                        cmap_tables_of(faces[id as int].data@, faces[id as int].index),
                    ).contains(c) by {
                        assert(font.codepoints@.contains(c));
                    }
                    assert forall|c: u32|
                        entry.not_supported@.contains(c) implies !unicode_codepoints_of(
                        cmap_tables_of(faces[id as int].data@, faces[id as int].index),
                    ).contains(c) by {
                        assert(!font.codepoints@.contains(c));
                    }
                }
            }
            lemma_count_supported_eqv(faces[id as int], font.codepoints@, word@);
        }
        Some(count)
    }
}


/// Whether the face is acceptable for the request.
fn face_matches_exec(face: &FaceRecord, attrs: &FontMatchAttrs) -> (r: bool)
    ensures
        r == face_matches(*face, *attrs),
{
    if face.stretch != attrs.stretch {
        return false;
    }
    let style_same = match (face.style, attrs.style) {
        (Style::Normal, Style::Normal) => true,
        (Style::Italic, Style::Italic) => true,
        (Style::Oblique, Style::Oblique) => true,
        _ => false,
    };
    if !style_same {
        return false;
    }
    let req = attrs.family.len();
    if req == 0 {
        return true;
    }
    let mut i: usize = 0;
    while i < req
        invariant
            req == attrs.family@.len(),
            i <= req,
            face.style == attrs.style,
            face.stretch == attrs.stretch,
            forall|a: int, j: int|
                #![trigger attrs.family@[a], face.families@[j]]
                0 <= a < i && 0 <= j < face.families@.len() ==> face.families@[j]@
                    != attrs.family@[a]@,
        decreases req - i,
    {
        let m = face.families.len();
        let mut j: usize = 0;
        while j < m
            invariant
                req == attrs.family@.len(),
                i < req,
                m == face.families@.len(),
                j <= m,
                face.style == attrs.style,
                face.stretch == attrs.stretch,
                forall|k: int| 0 <= k < j ==> #[trigger] face.families@[k]@ != attrs.family@[i as int]@,
            decreases m - j,
        {
            if crate::attrs::strings_equal(&face.families[j], &attrs.family[i]) {
                proof {
                    assert(face.families@[j as int]@ == attrs.family@[i as int]@);
                    assert(family_ok(face.families@, attrs.family@));
                    assert(face.style == attrs.style);
                    assert(face.stretch == attrs.stretch);
                }
                return true;
            }
            j = j + 1;
        }
        i = i + 1;
    }
    proof {
        assert(!family_ok(face.families@, attrs.family@));
    }
    false
}

impl FontSystem {
    /// The ranked font matches for a request: the keys of every
    /// acceptable face, ascending by weight difference, face weight, then
    /// face id. Memoized under the request; the cache is flushed whole
    /// when it reaches capacity, and on any database mutation, so a
    /// result always equals the recomputation over the current faces.
    pub fn get_font_matches(&mut self, attrs: &FontMatchAttrs) -> (r: Vec<FontMatchKey>)
        requires
            old(self).wf(),
        ensures
            final(self).wf(),
            r@ == font_matches_spec(old(self).db.faces@, *attrs),
            sorted(r@),
            final(self).db == old(self).db,
            final(self).locale == old(self).locale,
            final(self).font_cache == old(self).font_cache,
            final(self).load_attempts == old(self).load_attempts,
            final(self).monospace_font_ids == old(self).monospace_font_ids,
            final(self).per_script_monospace_font_ids == old(self).per_script_monospace_font_ids,
            final(self).font_codepoint_support_info_cache == old(
                self,
            ).font_codepoint_support_info_cache,
            final(self).fallbacks == old(self).fallbacks,
            final(self).unicode_range_fallbacks == old(self).unicode_range_fallbacks,
    {
        let ghost faces = self.db.faces@;
        let n = self.font_matches_cache.len();
        let mut i: usize = 0;
        while i < n
            invariant
                n == self.font_matches_cache@.len(),
                self.wf(),
                i <= n,
            decreases n - i,
        {
            if self.font_matches_cache[i].0.matches_attrs(attrs) {
                let hit = vstd::slice::slice_to_vec(self.font_matches_cache[i].1.as_slice());
                proof {
                    assert(self.font_matches_cache@[i as int].1@ == font_matches_spec(
                        self.db.faces@,
                        self.font_matches_cache@[i as int].0,
                    ));
                    lemma_font_matches_spec_eqv(
                        self.db.faces@,
                        self.font_matches_cache@[i as int].0,
                        *attrs,
                    );
                    crate::order::lemma_sort_seq_ensures::<FontMatchKey>(
                        match_keys(self.db.faces@, *attrs),
                    );
                }
                return hit;
            }
            i = i + 1;
        }
        if self.font_matches_cache.len() >= FONT_MATCHES_CACHE_SIZE_LIMIT {
            self.font_matches_cache.clear();
        }
        let mut keys: Vec<FontMatchKey> = Vec::new();
        let total = self.db.faces.len();
        let mut idf: usize = 0;
        while idf < total
            invariant
                total == self.db.faces@.len(),
                idf <= total,
                self.db.faces@ == faces,
                keys@ == match_keys(faces.take(idf as int), *attrs),
            decreases total - idf,
        {
            proof {
                assert(faces.take(idf + 1).drop_last() =~= faces.take(idf as int));
                assert(faces.take(idf + 1).last() == faces[idf as int]);
            }
            let face = &self.db.faces[idf];
            if face_matches_exec(face, attrs) {
                let diff = if face.weight >= attrs.weight {
                    face.weight - attrs.weight
                } else {
                    attrs.weight - face.weight
                };
                keys.push(
                    FontMatchKey { font_weight_diff: diff, font_weight: face.weight, id: idf },
                );
                proof {
                    assert(keys@ =~= match_keys(faces.take(idf + 1), *attrs));
                }
            } else {
                proof {
                    assert(keys@ =~= match_keys(faces.take(idf + 1), *attrs));
                }
            }
            idf = idf + 1;
        }
        proof {
            assert(faces.take(total as int) =~= faces);
        }
        sort_vec(&mut keys);
        proof {
            crate::order::lemma_sort_seq_ensures::<FontMatchKey>(match_keys(faces, *attrs));
        }
        let stored = vstd::slice::slice_to_vec(keys.as_slice());
        let key_copy = attrs.duplicate();
        proof {
            lemma_font_matches_spec_eqv(faces, key_copy, *attrs);
        }
        let ghost cache0 = self.font_matches_cache@;
        self.font_matches_cache.push((key_copy, stored));
        proof {
            assert forall|k: int|
                0 <= k < self.font_matches_cache@.len() implies #[trigger] self.font_matches_cache@[k].1@
                == font_matches_spec(self.db.faces@, self.font_matches_cache@[k].0) by {
                if k < cache0.len() {
                    assert(self.font_matches_cache@[k] == cache0[k]);
                    assert(cache0[k].1@ == font_matches_spec(self.db.faces@, cache0[k].0));
                }
            }
        }
        keys
    }
}


impl FontSystem {
    /// Resolves a shaping pass's missing offsets through the registered
    /// Unicode-range rules: offsets are grouped by the face that resolves
    /// them, each group's face is loaded once and the whole run re-shaped
    /// with it, and the covering glyphs are spliced into the stream. An
    /// offset with no character, no applicable rule, a face that fails to
    /// load, or no covering glyph ends in the returned residual list.
    /// With no rules the missing list returns unchanged; with no missing
    /// offsets nothing changes at all. Every missing offset ends in the
    /// residual or under a glyph; glyphs change only at missing offsets;
    /// both outputs come back sorted.
    #[verifier::rlimit(100)]
    pub fn process_unicode_range_fallbacks<S: crate::pipeline::Shaper>(
        &mut self,
        shaper: &mut S,
        glyphs: &mut Vec<crate::pipeline::Glyph>,
        line: &str,
        start_run: usize,
        end_run: usize,
        span_rtl: bool,
        weight: u16,
        style: Style,
        missing: &[usize],
    ) -> (r: Vec<usize>)
        requires
            old(self).wf(),
        ensures
            final(self).wf(),
            final(self).db == old(self).db,
            final(self).locale == old(self).locale,
            final(self).monospace_font_ids == old(self).monospace_font_ids,
            final(self).per_script_monospace_font_ids == old(self).per_script_monospace_font_ids,
            final(self).font_codepoint_support_info_cache == old(
                self,
            ).font_codepoint_support_info_cache,
            final(self).font_matches_cache == old(self).font_matches_cache,
            final(self).fallbacks == old(self).fallbacks,
            final(self).unicode_range_fallbacks == old(self).unicode_range_fallbacks,
            missing@.len() == 0 ==> final(glyphs)@ == old(glyphs)@ && r@.len() == 0 && *final(self)
                == *old(self),
            old(self).unicode_range_fallbacks.rules@.len() == 0 ==> r@ == missing@
                && final(glyphs)@ == old(glyphs)@ && *final(self) == *old(self),
            forall|p: usize| #[trigger] r@.contains(p) ==> missing@.contains(p),
            forall|p: usize|
                #[trigger] missing@.contains(p) ==> r@.contains(p) || crate::pipeline::has_glyph_at(
                    final(glyphs)@,
                    p,
                ),
            forall|p: usize|
                #[trigger] crate::pipeline::has_glyph_at(old(glyphs)@, p)
                    ==> crate::pipeline::has_glyph_at(final(glyphs)@, p),
            forall|x: crate::pipeline::Glyph|
                #[trigger] final(glyphs)@.contains(x) ==> old(glyphs)@.contains(x)
                    || missing@.contains(x.start),
            forall|x: crate::pipeline::Glyph|
                #[trigger] old(glyphs)@.contains(x) ==> final(glyphs)@.contains(x)
                    || missing@.contains(x.start),
            missing@.len() > 0 && old(self).unicode_range_fallbacks.rules@.len() > 0 ==> sorted(
                final(glyphs)@,
            ) && sorted(r@),
            missing@.no_duplicates() ==> r@.no_duplicates(),
            forall|p: usize|
                #[trigger] missing@.contains(p) && crate::pipeline::target_of(
                    crate::pipeline::run_query_of(
                        old(self).unicode_range_fallbacks.rules@,
                        line.spec_bytes(),
                        start_run as int,
                        end_run as int,
                        weight,
                        style,
                    ),
                    p as int,
                ) is None ==> r@.contains(p),
            forall|p: usize|
                #[trigger] missing@.contains(p) ==> (crate::pipeline::target_of(
                    crate::pipeline::run_query_of(
                        old(self).unicode_range_fallbacks.rules@,
                        line.spec_bytes(),
                        start_run as int,
                        end_run as int,
                        weight,
                        style,
                    ),
                    p as int,
                ) matches Some(fid) ==> (!loadable_face(old(self).db.faces@, fid)
                    ==> r@.contains(p))),
    {
        if missing.len() == 0 {
            return Vec::new();
        }
        if self.unicode_range_fallbacks.is_empty() {
            return vstd::slice::slice_to_vec(missing);
        }
        let ghost q = crate::pipeline::RunQuery {
            rules: self.unicode_range_fallbacks.rules@,
            bytes: line.spec_bytes(),
            start_run: start_run as int,
            end_run: end_run as int,
            weight,
            style,
        };
        let (groups, mut residual) = crate::pipeline::group_missing(
            &self.unicode_range_fallbacks,
            line,
            start_run,
            end_run,
            weight,
            style,
            missing,
        );
        let ghost residual0 = residual@;
        proof {
            assert(crate::pipeline::grouped_ok(groups@, residual0, q, missing@));
            assert forall|p: usize| #[trigger] residual@.contains(p) implies missing@.contains(
                p,
            ) by {
                crate::pipeline::lemma_unmatched_subset(q, missing@, p);
            }
            crate::pipeline::lemma_unmatched_props(q, missing@);
        }
        let gcount = groups.len();
        let mut gi: usize = 0;
        while gi < gcount
            invariant
                gcount == groups@.len(),
                gi <= gcount,
                self.wf(),
                self.db == old(self).db,
                self.locale == old(self).locale,
                self.monospace_font_ids == old(self).monospace_font_ids,
                self.per_script_monospace_font_ids == old(self).per_script_monospace_font_ids,
                self.font_codepoint_support_info_cache == old(
                    self,
                ).font_codepoint_support_info_cache,
                self.font_matches_cache == old(self).font_matches_cache,
                self.fallbacks == old(self).fallbacks,
                self.unicode_range_fallbacks == old(self).unicode_range_fallbacks,
                crate::pipeline::grouped_ok(groups@, residual0, q, missing@),
                forall|p: usize| #[trigger] residual@.contains(p) ==> missing@.contains(p),
                forall|p: usize| #[trigger] residual0.contains(p) ==> residual@.contains(p),
                forall|gj: int, k: int|
                    0 <= gj < gi && 0 <= k < groups@[gj].positions@.len() ==> residual@.contains(
                        #[trigger] groups@[gj].positions@[k],
                    ) || crate::pipeline::has_glyph_at(glyphs@, groups@[gj].positions@[k]),
                forall|p: usize|
                    #[trigger] crate::pipeline::has_glyph_at(old(glyphs)@, p)
                        ==> crate::pipeline::has_glyph_at(glyphs@, p),
                forall|x: crate::pipeline::Glyph|
                    #[trigger] glyphs@.contains(x) ==> old(glyphs)@.contains(x)
                        || missing@.contains(x.start),
                forall|x: crate::pipeline::Glyph|
                    #[trigger] old(glyphs)@.contains(x) ==> glyphs@.contains(x)
                        || missing@.contains(x.start),
                missing@.no_duplicates() ==> residual@.no_duplicates(),
                forall|p: usize|
                    #[trigger] residual@.contains(p) ==> crate::pipeline::target_of(q, p as int)
                        is None || exists|gj: int|
                        0 <= gj < gi && crate::pipeline::target_of(q, p as int) == Some(
                            #[trigger] groups@[gj].font_id,
                        ),
                forall|gj: int, k: int|
                    0 <= gj < gi && 0 <= k < groups@[gj].positions@.len() && !loadable_face(
                        old(self).db.faces@,
                        groups@[gj].font_id,
                    ) ==> residual@.contains(#[trigger] groups@[gj].positions@[k]),
            decreases gcount - gi,
        {
            let fid = groups[gi].font_id;
            proof {
                assert(groups@[gi as int].positions@ == crate::pipeline::positions_for(
                    q,
                    missing@,
                    fid,
                ));
                assert forall|k: int|
                    0 <= k < groups@[gi as int].positions@.len() implies missing@.contains(
                    #[trigger] groups@[gi as int].positions@[k],
                ) by {
                    assert(crate::pipeline::positions_for(q, missing@, fid).contains(
                        groups@[gi as int].positions@[k],
                    ));
                    crate::pipeline::lemma_positions_for_subset(
                        q,
                        missing@,
                        fid,
                        groups@[gi as int].positions@[k],
                    );
                }
            }
            let ghost res_before = residual@;
            let ghost glyphs_before = glyphs@;
            match self.get_font(fid) {
                Some(font) => {
                    let (fb_glyphs, fb_missing) = shaper.shape_fallback(
                        &font,
                        line,
                        start_run,
                        end_run,
                        span_rtl,
                    );
                    crate::pipeline::merge_fallback_group(
                        glyphs,
                        &mut residual,
                        groups[gi].positions.as_slice(),
                        fb_glyphs.as_slice(),
                        fb_missing.as_slice(),
                    );
                    proof {
                        let positions = groups@[gi as int].positions@;
                        crate::pipeline::lemma_merge_properties(
                            glyphs_before,
                            positions,
                            fb_glyphs@,
                            fb_missing@,
                        );
                        let unc = crate::pipeline::uncovered_of(positions, fb_glyphs@, fb_missing@);
                        assert(residual@ == res_before + unc);
                        assert forall|p: usize| #[trigger] res_before.contains(p) implies
                            residual@.contains(p) by {
                            let k = choose|k: int|
                                0 <= k < res_before.len() && #[trigger] res_before[k] == p;
                            assert(residual@[k] == p);
                        }
                        assert forall|gj: int, k: int|
                            0 <= gj < gi + 1 && 0 <= k < groups@[gj].positions@.len()
                                && !loadable_face(old(self).db.faces@, groups@[gj].font_id) implies
                            residual@.contains(#[trigger] groups@[gj].positions@[k]) by {
                            if gj < gi {
                                assert(res_before.contains(groups@[gj].positions@[k]));
                            } else {
                                assert(loadable_face(old(self).db.faces@, fid));
                            }
                        }
                        assert forall|p: usize| #[trigger] unc.contains(p) implies
                            residual@.contains(p) by {
                            let k = choose|k: int| 0 <= k < unc.len() && #[trigger] unc[k] == p;
                            assert(residual@[res_before.len() + k] == p);
                        }
                        assert forall|p: usize| #[trigger] residual@.contains(p) implies
                            missing@.contains(p) by {
                            let k = choose|k: int|
                                0 <= k < residual@.len() && #[trigger] residual@[k] == p;
                            if k < res_before.len() {
                                assert(res_before[k] == p);
                                assert(res_before.contains(p));
                            } else {
                                assert(unc[k - res_before.len()] == p);
                                assert(unc.contains(p));
                                assert(positions.contains(p));
                                crate::pipeline::lemma_positions_for_subset(q, missing@, fid, p);
                            }
                        }
                        crate::pipeline::lemma_positions_for_props(q, missing@, fid);
                        assert forall|p: usize| #[trigger] residual@.contains(p) implies
                            crate::pipeline::target_of(q, p as int) is None || exists|gj: int|
                            0 <= gj < gi + 1 && crate::pipeline::target_of(q, p as int) == Some(
                                #[trigger] groups@[gj].font_id,
                            ) by {
                            let k = choose|k: int|
                                0 <= k < residual@.len() && #[trigger] residual@[k] == p;
                            if k < res_before.len() {
                                assert(res_before[k] == p);
                                assert(res_before.contains(p));
                            } else {
                                assert(unc[k - res_before.len()] == p);
                                assert(unc.contains(p));
                                crate::pipeline::lemma_uncovered_subset(
                                    positions,
                                    fb_glyphs@,
                                    fb_missing@,
                                    p,
                                );
                                assert(crate::pipeline::target_of(q, p as int) == Some(fid));
                                assert(groups@[gi as int].font_id == fid);
                            }
                        }
                        if missing@.no_duplicates() {
                            crate::pipeline::lemma_uncovered_no_dup(
                                positions,
                                fb_glyphs@,
                                fb_missing@,
                            );
                            assert forall|a: int, b: int|
                                0 <= a < b < residual@.len() implies residual@[a]
                                != residual@[b] by {
                                if a < res_before.len() && b >= res_before.len() {
                                    let x = residual@[b];
                                    let y = residual@[a];
                                    assert(unc[b - res_before.len()] == x);
                                    assert(unc.contains(x));
                                    crate::pipeline::lemma_uncovered_subset(
                                        positions,
                                        fb_glyphs@,
                                        fb_missing@,
                                        x,
                                    );
                                    assert(crate::pipeline::target_of(q, x as int) == Some(fid));
                                    assert(res_before[a] == y);
                                    assert(res_before.contains(y));
                                    if y == x {
                                        let gj = choose|gj: int|
                                            0 <= gj < gi && crate::pipeline::target_of(
                                                q,
                                                y as int,
                                            ) == Some(#[trigger] groups@[gj].font_id);
                                        assert(groups@[gj].font_id == fid);
                                        assert(groups@[gi as int].font_id == fid);
                                    }
                                } else if a >= res_before.len() {
                                    assert(unc[a - res_before.len()] == residual@[a]);
                                    assert(unc[b - res_before.len()] == residual@[b]);
                                } else {
                                    assert(res_before[a] == residual@[a]);
                                    assert(res_before[b] == residual@[b]);
                                }
                            }
                        }
                    }
                },
                None => {
                    let pos_count = groups[gi].positions.len();
                    let mut k: usize = 0;
                    while k < pos_count
                        invariant
                            pos_count == groups@[gi as int].positions@.len(),
                            gi < groups@.len(),
                            k <= pos_count,
                            residual@ == res_before + groups@[gi as int].positions@.take(k as int),
                        decreases pos_count - k,
                    {
                        residual.push(groups[gi].positions[k]);
                        proof {
                            assert(groups@[gi as int].positions@.take(k + 1)
                                =~= groups@[gi as int].positions@.take(k as int).push(
                                groups@[gi as int].positions@[k as int],
                            ));
                            assert(residual@ =~= res_before + groups@[gi as int].positions@.take(
                                k + 1,
                            ));
                        }
                        k = k + 1;
                    }
                    proof {
                        let positions = groups@[gi as int].positions@;
                        assert(positions.take(pos_count as int) =~= positions);
                        assert forall|p: usize| #[trigger] res_before.contains(p) implies
                            residual@.contains(p) by {
                            let k2 = choose|k2: int|
                                0 <= k2 < res_before.len() && #[trigger] res_before[k2] == p;
                            assert(residual@[k2] == p);
                        }
                        assert forall|k2: int|
                            0 <= k2 < positions.len() implies residual@.contains(
                            #[trigger] positions[k2],
                        ) by {
                            assert(residual@[res_before.len() + k2] == positions[k2]);
                        }
                        assert forall|gj: int, k2: int|
                            0 <= gj < gi + 1 && 0 <= k2 < groups@[gj].positions@.len()
                                && !loadable_face(old(self).db.faces@, groups@[gj].font_id) implies
                            residual@.contains(#[trigger] groups@[gj].positions@[k2]) by {
                            if gj < gi {
                                assert(res_before.contains(groups@[gj].positions@[k2]));
                                let y = choose|y: int|
                                    0 <= y < res_before.len() && #[trigger] res_before[y]
                                        == groups@[gj].positions@[k2];
                                assert(residual@[y] == groups@[gj].positions@[k2]);
                            }
                        }
                        assert forall|p: usize| #[trigger] residual@.contains(p) implies
                            missing@.contains(p) by {
                            let k2 = choose|k2: int|
                                0 <= k2 < residual@.len() && #[trigger] residual@[k2] == p;
                            if k2 < res_before.len() {
                                assert(res_before[k2] == p);
                                assert(res_before.contains(p));
                            } else {
                                assert(positions[k2 - res_before.len()] == p);
                                assert(positions.contains(p));
                                crate::pipeline::lemma_positions_for_subset(q, missing@, fid, p);
                            }
                        }
                        crate::pipeline::lemma_positions_for_props(q, missing@, fid);
                        assert forall|p: usize| #[trigger] residual@.contains(p) implies
                            crate::pipeline::target_of(q, p as int) is None || exists|gj: int|
                            0 <= gj < gi + 1 && crate::pipeline::target_of(q, p as int) == Some(
                                #[trigger] groups@[gj].font_id,
                            ) by {
                            let k2 = choose|k2: int|
                                0 <= k2 < residual@.len() && #[trigger] residual@[k2] == p;
                            if k2 < res_before.len() {
                                assert(res_before[k2] == p);
                                assert(res_before.contains(p));
                            } else {
                                assert(positions[k2 - res_before.len()] == p);
                                assert(positions.contains(p));
                                assert(crate::pipeline::target_of(q, p as int) == Some(fid));
                                assert(groups@[gi as int].font_id == fid);
                            }
                        }
                        if missing@.no_duplicates() {
                            assert forall|a: int, b: int|
                                0 <= a < b < residual@.len() implies residual@[a]
                                != residual@[b] by {
                                if a < res_before.len() && b >= res_before.len() {
                                    let x = residual@[b];
                                    let y = residual@[a];
                                    assert(positions[b - res_before.len()] == x);
                                    assert(positions.contains(x));
                                    assert(crate::pipeline::target_of(q, x as int) == Some(fid));
                                    assert(res_before[a] == y);
                                    assert(res_before.contains(y));
                                    if y == x {
                                        let gj = choose|gj: int|
                                            0 <= gj < gi && crate::pipeline::target_of(
                                                q,
                                                y as int,
                                            ) == Some(#[trigger] groups@[gj].font_id);
                                        assert(groups@[gj].font_id == fid);
                                        assert(groups@[gi as int].font_id == fid);
                                    }
                                } else if a >= res_before.len() {
                                    assert(positions[a - res_before.len()] == residual@[a]);
                                    assert(positions[b - res_before.len()] == residual@[b]);
                                } else {
                                    assert(res_before[a] == residual@[a]);
                                    assert(res_before[b] == residual@[b]);
                                }
                            }
                        }
                    }
                },
            }
            gi = gi + 1;
        }
        proof {
            assert forall|p: usize| #[trigger] missing@.contains(p) implies residual@.contains(p)
                || crate::pipeline::has_glyph_at(glyphs@, p) by {
                let k = choose|k: int| 0 <= k < missing@.len() && #[trigger] missing@[k] == p;
                let t = crate::pipeline::target_of(q, p as int);
                if t is None {
                    crate::pipeline::lemma_unmatched_complete(q, missing@, k);
                    assert(residual0.contains(p));
                } else {
                    let fid = t->Some_0;
                    assert(exists|gj: int|
                        0 <= gj < groups@.len() && #[trigger] groups@[gj].font_id == fid);
                    let gj = choose|gj: int|
                        0 <= gj < groups@.len() && #[trigger] groups@[gj].font_id == fid;
                    crate::pipeline::lemma_positions_for_complete(q, missing@, fid, k);
                    assert(groups@[gj].positions@.contains(p));
                    let pk = choose|pk: int|
                        0 <= pk < groups@[gj].positions@.len() && #[trigger] groups@[gj].positions@[pk]
                            == p;
                    assert(residual@.contains(groups@[gj].positions@[pk])
                        || crate::pipeline::has_glyph_at(glyphs@, groups@[gj].positions@[pk]));
                }
            }
        }
        proof {
            assert forall|p: usize|
                #[trigger] missing@.contains(p) && crate::pipeline::target_of(q, p as int)
                is None implies residual@.contains(p) by {
                let k = choose|k: int| 0 <= k < missing@.len() && #[trigger] missing@[k] == p;
                crate::pipeline::lemma_unmatched_complete(q, missing@, k);
                assert(residual0.contains(p));
            }
            assert forall|p: usize|
                #[trigger] missing@.contains(p) && crate::pipeline::target_of(q, p as int) is Some
                    && !loadable_face(
                    old(self).db.faces@,
                    crate::pipeline::target_of(q, p as int)->Some_0,
                ) implies residual@.contains(p) by {
                let k = choose|k: int| 0 <= k < missing@.len() && #[trigger] missing@[k] == p;
                let fid = crate::pipeline::target_of(q, p as int)->Some_0;
                assert(exists|gj: int|
                    0 <= gj < groups@.len() && #[trigger] groups@[gj].font_id == fid);
                let gj = choose|gj: int|
                    0 <= gj < groups@.len() && #[trigger] groups@[gj].font_id == fid;
                crate::pipeline::lemma_positions_for_complete(q, missing@, fid, k);
                assert(groups@[gj].positions@.contains(p));
                let pk = choose|pk: int|
                    0 <= pk < groups@[gj].positions@.len() && #[trigger] groups@[gj].positions@[pk]
                        == p;
                assert(residual@.contains(groups@[gj].positions@[pk]));
            }
        }
        let ghost pre_sort_glyphs = glyphs@;
        sort_vec(glyphs);
        let ghost pre_sort_res = residual@;
        sort_vec(&mut residual);
        proof {
            assert forall|p: usize|
                #[trigger] crate::pipeline::has_glyph_at(pre_sort_glyphs, p) implies
                crate::pipeline::has_glyph_at(glyphs@, p) by {
                crate::pipeline::lemma_has_glyph_at_multiset(pre_sort_glyphs, glyphs@, p);
            }
            assert forall|x: crate::pipeline::Glyph|
                #[trigger] glyphs@.contains(x) implies pre_sort_glyphs.contains(x) by {
                crate::pipeline::lemma_contains_multiset(glyphs@, pre_sort_glyphs, x);
            }
            assert forall|x: crate::pipeline::Glyph|
                #[trigger] pre_sort_glyphs.contains(x) implies glyphs@.contains(x) by {
                crate::pipeline::lemma_contains_multiset(pre_sort_glyphs, glyphs@, x);
            }
            assert forall|p: usize| #[trigger] residual@.contains(p) implies pre_sort_res.contains(
                p,
            ) by {
                crate::pipeline::lemma_contains_multiset_usize(residual@, pre_sort_res, p);
            }
            assert forall|p: usize| #[trigger] pre_sort_res.contains(p) implies residual@.contains(
                p,
            ) by {
                crate::pipeline::lemma_contains_multiset_usize(pre_sort_res, residual@, p);
            }
            if missing@.no_duplicates() {
                pre_sort_res.lemma_multiset_has_no_duplicates();
                assert(residual@.to_multiset() == pre_sort_res.to_multiset());
                residual@.lemma_multiset_has_no_duplicates_conv();
            }
            assert(q == crate::pipeline::run_query_of(
                old(self).unicode_range_fallbacks.rules@,
                line.spec_bytes(),
                start_run as int,
                end_run as int,
                weight,
                style,
            ));
        }
        residual
    }
}

} // verus!
