//! The font database model: loaded face records, scanning font bytes for
//! faces, and the parsed font handle with its supported-codepoint set.

use crate::attrs::Style;
use crate::order::binary_search_u32;
use crate::order::dedup_sorted_u32;
use crate::order::sort_vec;
use crate::order::strictly_increasing;
use vstd::prelude::*;

verus! {

/// Face metadata extracted from font bytes by the scanner.
#[derive(Debug)]
pub struct ScannedFace {
    /// The face index inside the font bytes (collections hold several).
    pub index: u32,
    /// Family names.
    pub families: Vec<String>,
    /// The PostScript name.
    pub post_script_name: String,
    /// Weight, on the usual 1 to 1000 scale.
    pub weight: u16,
    /// Style.
    pub style: Style,
    /// Stretch, as a width class number.
    pub stretch: u16,
    /// Whether the face is monospaced.
    pub monospaced: bool,
}

/// One cmap subtable of a face: whether it maps Unicode codepoints, and
/// the codepoints it lists.
#[derive(Debug)]
pub struct CmapTable {
    /// Whether this subtable encodes Unicode codepoints.
    pub unicode: bool,
    /// The codepoints the subtable lists, in table order.
    pub codepoints: Vec<u32>,
}

/// The face records that `fontdb` reads out of the given font bytes, in
/// face order: a function of the bytes alone.
pub uninterp spec fn scanned_faces_of(data: Seq<u8>) -> Seq<ScannedFace>;

/// Whether `ttf_parser::Face::parse` accepts the face at `index` in
/// `data`: a function of the bytes and index alone.
pub uninterp spec fn parseable(data: Seq<u8>, index: u32) -> bool;

/// Relies on `fontdb::Database::load_font_data` and the public fields of
/// `fontdb::FaceInfo`: parsing the bytes records one face per font found
/// in them (none for bytes that do not parse as a font), and the body
/// copies each face's metadata into plain values.
#[verifier::external_body]
fn scan_font_data(data: &[u8]) -> (r: Vec<ScannedFace>)
    ensures
        r@ == scanned_faces_of(data@),
{
    let mut db = fontdb::Database::new();
    db.load_font_data(data.to_vec());
    db.faces().map(|f| ScannedFace {
        index: f.index,
        families: f.families.iter().map(|p| p.0.clone()).collect(),
        post_script_name: f.post_script_name.clone(),
        weight: f.weight.0,
        style: match f.style { fontdb::Style::Normal => Style::Normal, fontdb::Style::Italic => Style::Italic, fontdb::Style::Oblique => Style::Oblique },
        stretch: f.stretch.to_number(),
        monospaced: f.monospaced,
    }).collect()
}

/// The cmap subtables of the face at `index` in `data`: what
/// `ttf_parser` reads from the bytes, a function of the bytes alone.
pub uninterp spec fn cmap_tables_of(data: Seq<u8>, index: u32) -> Seq<CmapTable>;

/// Relies on `ttf_parser::Face::parse` and the cmap table API: the call
/// succeeds exactly when the face parses, and then returns, for each
/// cmap subtable of the face, whether it is a Unicode subtable and the
/// codepoints it lists.
#[verifier::external_body]
fn face_cmap_tables(data: &[u8], index: u32) -> (r: Option<Vec<CmapTable>>)
    ensures
        r is Some == parseable(data@, index),
        r matches Some(v) ==> v@ == cmap_tables_of(data@, index),
{
    let face = ttf_parser::Face::parse(data, index).ok()?;
    let mut out = Vec::new();
    if let Some(cmap) = face.tables().cmap {
        for sub in cmap.subtables {
            let mut cps = Vec::new();
            sub.codepoints(|c| cps.push(c));
            out.push(CmapTable { unicode: sub.is_unicode(), codepoints: cps });
        }
    }
    Some(out)
}

/// The script tags named by the layout tables of the face at `index` in
/// `data`: what `ttf_parser` reads from the bytes, a function of the
/// bytes alone.
pub uninterp spec fn script_tags_of(data: Seq<u8>, index: u32) -> Seq<u32>;

/// Relies on `ttf_parser::Face::parse` and the layout table API: the
/// call succeeds exactly when the face parses, and then returns the
/// script tags listed by the face's positioning and substitution tables.
#[verifier::external_body]
pub fn face_script_tags(data: &[u8], index: u32) -> (r: Option<Vec<u32>>)
    ensures
        r is Some == parseable(data@, index),
        r matches Some(v) ==> v@ == script_tags_of(data@, index),
{
    let face = ttf_parser::Face::parse(data, index).ok()?;
    let mut out = Vec::new();
    for table in face.tables().gpos.into_iter().chain(face.tables().gsub) {
        for script in table.scripts {
            out.push(script.tag.0);
        }
    }
    Some(out)
}

/// A loaded font face: the metadata the engine reads. The face id is the
/// record's position in the database.
#[derive(Debug)]
pub struct FaceRecord {
    /// Family names.
    pub families: Vec<String>,
    /// The PostScript name.
    pub post_script_name: String,
    /// Weight, on the usual 1 to 1000 scale.
    pub weight: u16,
    /// Style.
    pub style: Style,
    /// Stretch, as a width class number.
    pub stretch: u16,
    /// Whether the face is monospaced.
    pub monospaced: bool,
    /// The raw font bytes the face was read from.
    pub data: Vec<u8>,
    /// The face index inside `data`.
    pub index: u32,
}

/// The record `rec` carries exactly the scanned face `s` over the font
/// bytes it came from.
pub open spec fn face_of_scan(s: ScannedFace, bytes: Seq<u8>, rec: FaceRecord) -> bool {
    &&& rec.families == s.families
    &&& rec.post_script_name == s.post_script_name
    &&& rec.weight == s.weight
    &&& rec.style == s.style
    &&& rec.stretch == s.stretch
    &&& rec.monospaced == s.monospaced
    &&& rec.data@ == bytes
    &&& rec.index == s.index
}

/// The set of loaded faces. A face id is its index in `faces`; faces are
/// only ever appended, so ids stay stable.
#[derive(Debug)]
pub struct FontDatabase {
    /// The loaded face records, in load order.
    pub faces: Vec<FaceRecord>,
}

impl FontDatabase {
    /// An empty database.
    pub fn new() -> (r: FontDatabase)
        ensures
            r.faces@.len() == 0,
    {
        FontDatabase { faces: Vec::new() }
    }

    /// The number of loaded faces.
    pub fn len(&self) -> (r: usize)
        ensures
            r == self.faces@.len(),
    {
        self.faces.len()
    }

    /// Registers one face and returns its id.
    pub fn push_face(&mut self, face: FaceRecord) -> (id: usize)
        ensures
            final(self).faces@ == old(self).faces@.push(face),
            id == old(self).faces@.len(),
    {
        let id = self.faces.len();
        self.faces.push(face);
        id
    }

    /// Loads every face found in the given font bytes and returns the ids
    /// assigned to them, in face order: one record per scanned face,
    /// carrying exactly the scanned metadata plus the bytes themselves.
    /// Bytes that do not parse as a font add no face.
    pub fn load_font_data(&mut self, data: &[u8]) -> (ids: Vec<usize>)
        ensures
            final(self).faces@.len() == old(self).faces@.len() + scanned_faces_of(data@).len(),
            final(self).faces@.take(old(self).faces@.len() as int) == old(self).faces@,
            ids@.len() == scanned_faces_of(data@).len(),
            forall|k: int| 0 <= k < ids@.len() ==> ids@[k] == old(self).faces@.len() + k,
            forall|k: int|
                0 <= k < scanned_faces_of(data@).len() ==> face_of_scan(
                    scanned_faces_of(data@)[k],
                    data@,
                    #[trigger] final(self).faces@[old(self).faces@.len() + k],
                ),
    {
        let mut scanned = scan_font_data(data);
        let ghost full = scanned_faces_of(data@);
        let mut ids: Vec<usize> = Vec::new();
        let mut i: usize = 0;
        let ghost base = self.faces@.len() as int;
        let total = scanned.len();
        while i < total
            invariant
                total == full.len(),
                i <= total,
                scanned@ == full.skip(i as int),
                base + i == self.faces@.len(),
                self.faces@.take(base) == old(self).faces@,
                base == old(self).faces@.len(),
                ids@.len() == i,
                forall|k: int| 0 <= k < i ==> ids@[k] == base + k,
                forall|k: int|
                    0 <= k < i ==> face_of_scan(full[k], data@, #[trigger] self.faces@[base + k]),
            decreases total - i,
        {
            let s = scanned.remove(0);
            proof {
                assert(s == full.skip(i as int)[0]);
                assert(s == full[i as int]);
                assert(full.skip(i as int).remove(0) =~= full.skip(i + 1));
            }
            let record = FaceRecord {
                families: s.families,
                post_script_name: s.post_script_name,
                weight: s.weight,
                style: s.style,
                stretch: s.stretch,
                monospaced: s.monospaced,
                data: vstd::slice::slice_to_vec(data),
                index: s.index,
            };
            let ghost before = self.faces@;
            let id = self.push_face(record);
            ids.push(id);
            proof {
                assert(self.faces@.take(base) =~= before.take(base));
                assert(face_of_scan(full[i as int], data@, self.faces@[base + i]));
            }
            i = i + 1;
        }
        ids
    }

    /// The face with the given id, when it exists.
    pub fn face(&self, id: usize) -> (r: Option<&FaceRecord>)
        ensures
            id < self.faces@.len() ==> (r matches Some(f) && *f == self.faces@[id as int]),
            id >= self.faces@.len() ==> r is None,
    {
        if id < self.faces.len() {
            Some(&self.faces[id])
        } else {
            None
        }
    }
}

/// The Unicode codepoints listed by the Unicode subtables, in table
/// order, duplicates included.
pub open spec fn unicode_codepoints_of(tables: Seq<CmapTable>) -> Seq<u32>
    decreases tables.len(),
{
    if tables.len() == 0 {
        Seq::empty()
    } else {
        unicode_codepoints_of(tables.drop_last()) + (if tables.last().unicode {
            tables.last().codepoints@
        } else {
            Seq::empty()
        })
    }
}

/// A loaded, parsed font: the raw bytes plus the face's supported
/// codepoints, sorted and deduplicated.
#[derive(Debug)]
pub struct Font {
    /// The face id the font was loaded from.
    pub id: usize,
    /// The face index inside `data`.
    pub index: u32,
    /// The raw font bytes.
    pub data: Vec<u8>,
    /// The supported codepoints, strictly ascending.
    pub codepoints: Vec<u32>,
}

/// The codepoint set of a well-formed font is strictly ascending.
pub open spec fn font_wf(f: Font) -> bool {
    strictly_increasing(f.codepoints@)
}

/// The fonts `a` and `b` hold the same content.
pub open spec fn font_eqv(a: Font, b: Font) -> bool {
    &&& a.id == b.id
    &&& a.index == b.index
    &&& a.data@ == b.data@
    &&& a.codepoints@ == b.codepoints@
}

impl Font {
    /// Parses the face's bytes and builds its codepoint set; the load
    /// succeeds exactly when the bytes parse as a font face.
    pub fn load(id: usize, face: &FaceRecord) -> (r: Option<Font>)
        ensures
            r is Some == parseable(face.data@, face.index),
            r matches Some(f) ==> {
                &&& f.id == id
                &&& f.index == face.index
                &&& f.data@ == face.data@
                &&& font_wf(f)
                &&& forall|c: u32|
                    f.codepoints@.contains(c) == unicode_codepoints_of(
                        cmap_tables_of(face.data@, face.index),
                    ).contains(c)
            },
    {
        let tables = match face_cmap_tables(face.data.as_slice(), face.index) {
            Some(t) => t,
            None => {
                return None;
            },
        };
        let mut raw: Vec<u32> = Vec::new();
        let n = tables.len();
        let mut i: usize = 0;
        while i < n
            invariant
                n == tables@.len(),
                i <= n,
                raw@ == unicode_codepoints_of(tables@.take(i as int)),
            decreases n - i,
        {
            proof {
                assert(tables@.take(i + 1).drop_last() =~= tables@.take(i as int));
                assert(tables@.take(i + 1).last() == tables@[i as int]);
            }
            if tables[i].unicode {
                raw.extend_from_slice(tables[i].codepoints.as_slice());
            } else {
                proof {
                    assert(raw@ =~= raw@ + Seq::<u32>::empty());
                }
            }
            i = i + 1;
        }
        proof {
            assert(tables@.take(n as int) =~= tables@);
        }
        let mut sorted_cps = raw;
        let ghost raw_seq = sorted_cps@;
        sort_vec(&mut sorted_cps);
        proof {
            assert forall|c: u32| sorted_cps@.contains(c) == raw_seq.contains(c) by {
                crate::order::lemma_sort_seq_contains(raw_seq, c);
            }
        }
        let cps = dedup_sorted_u32(&sorted_cps);
        Some(Font { id, index: face.index, data: vstd::slice::slice_to_vec(face.data.as_slice()), codepoints: cps })
    }

    /// The supported codepoints, strictly ascending.
    pub fn unicode_codepoints(&self) -> (r: &Vec<u32>)
        ensures
            r == &self.codepoints,
    {
        &self.codepoints
    }

    /// Whether the font's codepoint set holds `cp`.
    pub fn supports_codepoint(&self, cp: u32) -> (r: bool)
        requires
            font_wf(*self),
        ensures
            r == self.codepoints@.contains(cp),
    {
        let (found, _) = binary_search_u32(&self.codepoints, cp);
        found
    }

    /// A deep copy of the font.
    pub fn duplicate(&self) -> (r: Font)
        ensures
            font_eqv(r, *self),
    {
        Font {
            id: self.id,
            index: self.index,
            data: vstd::slice::slice_to_vec(self.data.as_slice()),
            codepoints: vstd::slice::slice_to_vec(self.codepoints.as_slice()),
        }
    }
}

} // verus!
