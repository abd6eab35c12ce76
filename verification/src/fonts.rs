//! Font choice: the default family among the installed ones, and the face
//! file that best fits a family for body text or for code.
use vstd::prelude::*;
use crate::text::{chars_of, copy_chars, string_of, trim, trims_to_empty};

verus! {

/// The code of `c` with `A`..`Z` mapped to `a`..`z`.
pub open spec fn ascii_lower_code(c: char) -> u32 {
    let u = c as u32;
    if 65 <= u <= 90 {
        (u + 32) as u32
    } else {
        u
    }
}

/// `str::eq_ignore_ascii_case`: equal up to the case of ASCII letters.
pub open spec fn eq_ignore_ascii_case(a: Seq<char>, b: Seq<char>) -> bool {
    a.len() == b.len() && forall|i: int|
        0 <= i < a.len() ==> ascii_lower_code(a[i]) == ascii_lower_code(b[i])
}

fn ascii_lower_code_of(c: char) -> (r: u32)
    ensures
        r == ascii_lower_code(c),
{
    let u: u32 = c as u32;
    if 65 <= u && u <= 90 {
        u + 32
    } else {
        u
    }
}

fn eq_ignore_ascii_case_chars(a: &Vec<char>, b: &Vec<char>) -> (r: bool)
    ensures
        r == eq_ignore_ascii_case(a@, b@),
{
    if a.len() != b.len() {
        return false;
    }
    let mut i: usize = 0;
    while i < a.len()
        invariant
            i <= a@.len() == b@.len(),
            forall|j: int| 0 <= j < i ==> ascii_lower_code(a@[j]) == ascii_lower_code(b@[j]),
        decreases a@.len() - i,
    {
        if ascii_lower_code_of(a[i]) != ascii_lower_code_of(b[i]) {
            return false;
        }
        i = i + 1;
    }
    true
}

/// The index of the first name in `fonts` equal to `preferred` up to ASCII
/// case, where there is one.
pub open spec fn first_match(fonts: Seq<Seq<char>>, preferred: Seq<char>, i: int) -> bool {
    &&& 0 <= i < fonts.len()
    &&& eq_ignore_ascii_case(fonts[i], preferred)
    &&& forall|j: int| 0 <= j < i ==> !eq_ignore_ascii_case(#[trigger] fonts[j], preferred)
}

/// What `choose_font` returns: the first installed family that equals the
/// preferred name up to ASCII case, else the first family, else the
/// preferred name itself.
pub open spec fn chosen_font(fonts: Seq<Seq<char>>, preferred: Seq<char>) -> Seq<char> {
    if exists|i: int| first_match(fonts, preferred, i) {
        fonts[choose|i: int| first_match(fonts, preferred, i)]
    } else if fonts.len() > 0 {
        fonts[0]
    } else {
        preferred
    }
}

/// Picks the family to use by default (see `chosen_font`).
pub fn choose_font(fonts: &[String], preferred: &str) -> (r: String)
    ensures
        r@ == chosen_font(fonts.deep_view(), preferred@),
{
    let pref = chars_of(preferred);
    let mut i: usize = 0;
    while i < fonts.len()
        invariant
            i <= fonts@.len(),
            pref@ == preferred@,
            forall|j: int| 0 <= j < i ==> !eq_ignore_ascii_case(#[trigger] fonts.deep_view()[j], preferred@),
        decreases fonts@.len() - i,
    {
        let name = chars_of(fonts[i].as_str());
        if eq_ignore_ascii_case_chars(&name, &pref) {
            proof {
                let fv = fonts.deep_view();
                assert(first_match(fv, preferred@, i as int));
                let k = choose|k: int| first_match(fv, preferred@, k);
                if k < i {
                    assert(!eq_ignore_ascii_case(fv[k], preferred@));
                } else if k > i {
                    assert(!eq_ignore_ascii_case(fv[i as int], preferred@));
                }
            }
            return fonts[i].clone();
        }
        i = i + 1;
    }
    proof {
        let fv = fonts.deep_view();
        assert forall|k: int| !first_match(fv, preferred@, k) by {
            if 0 <= k < fv.len() {
                assert(!eq_ignore_ascii_case(fv[k], preferred@));
            }
        }
    }
    if fonts.len() > 0 {
        return fonts[0].clone();
    }
    preferred.to_owned()
}

/// Law: when any family is installed, the chosen family is one of them;
/// otherwise it is the preferred name.
pub proof fn law_chosen_font_is_installed(fonts: Seq<Seq<char>>, preferred: Seq<char>)
    ensures
        fonts.len() > 0 ==> fonts.contains(chosen_font(fonts, preferred)),
        fonts.len() == 0 ==> chosen_font(fonts, preferred) == preferred,
{
    if exists|i: int| first_match(fonts, preferred, i) {
        let i = choose|i: int| first_match(fonts, preferred, i);
        assert(fonts[i] == chosen_font(fonts, preferred));
    } else if fonts.len() > 0 {
        assert(fonts[0] == chosen_font(fonts, preferred));
    }
}

proof fn lemma_first_match_exists(fonts: Seq<Seq<char>>, preferred: Seq<char>, i: int)
    requires
        0 <= i < fonts.len(),
        eq_ignore_ascii_case(fonts[i], preferred),
    ensures
        exists|k: int| first_match(fonts, preferred, k),
    decreases i,
{
    if exists|j: int| 0 <= j < i && eq_ignore_ascii_case(#[trigger] fonts[j], preferred) {
        let j = choose|j: int| 0 <= j < i && eq_ignore_ascii_case(#[trigger] fonts[j], preferred);
        lemma_first_match_exists(fonts, preferred, j);
    } else {
        assert(first_match(fonts, preferred, i));
    }
}

/// Law: when some installed name equals the preferred one up to the case of
/// ASCII letters, the chosen name does too (same length, same letters up to
/// case), and it is the first installed name that does.
pub proof fn law_chosen_font_matches_preferred(fonts: Seq<Seq<char>>, preferred: Seq<char>)
    requires
        exists|i: int|
            0 <= i < fonts.len() && (#[trigger] fonts[i]).len() == preferred.len() && forall|j: int|
                0 <= j < preferred.len() ==> ascii_lower_code(fonts[i][j]) == ascii_lower_code(
                    preferred[j],
                ),
    ensures
        ({
            let c = chosen_font(fonts, preferred);
            &&& c.len() == preferred.len()
            &&& forall|j: int|
                0 <= j < preferred.len() ==> ascii_lower_code(c[j]) == ascii_lower_code(
                    preferred[j],
                )
            &&& exists|i: int|
                0 <= i < fonts.len() && fonts[i] == c && forall|m: int|
                    0 <= m < i ==> !((#[trigger] fonts[m]).len() == preferred.len() && forall|
                        j: int,
                    |
                        0 <= j < preferred.len() ==> ascii_lower_code(fonts[m][j])
                            == ascii_lower_code(preferred[j]))
        }),
{
    let i = choose|i: int|
        0 <= i < fonts.len() && (#[trigger] fonts[i]).len() == preferred.len() && forall|j: int|
            0 <= j < preferred.len() ==> ascii_lower_code(fonts[i][j]) == ascii_lower_code(
                preferred[j],
            );
    assert(eq_ignore_ascii_case(fonts[i], preferred));
    lemma_first_match_exists(fonts, preferred, i);
    let k = choose|k: int| first_match(fonts, preferred, k);
    assert(chosen_font(fonts, preferred) == fonts[k]);
    assert forall|m: int| 0 <= m < k implies !((#[trigger] fonts[m]).len() == preferred.len()
        && forall|j: int|
        0 <= j < preferred.len() ==> ascii_lower_code(fonts[m][j]) == ascii_lower_code(
            preferred[j],
        )) by {
        assert(!eq_ignore_ascii_case(fonts[m], preferred));
    }
}

/// The slant of a font face.
#[derive(Clone, Copy, Debug, PartialEq, Eq, Structural)]
pub enum FaceStyle {
    Normal,
    Italic,
    Oblique,
}

/// A font face file that can show a family: the file (an index into the
/// caller's table of font files), its slant, weight and whether it is
/// monospaced.
#[derive(Clone, Copy, Debug)]
pub struct FaceCandidate {
    pub file: usize,
    pub style: FaceStyle,
    pub weight: u16,
    pub monospaced: bool,
}

pub open spec fn style_penalty(style: FaceStyle) -> int {
    match style {
        FaceStyle::Normal => 0,
        FaceStyle::Oblique => 40,
        FaceStyle::Italic => 60,
    }
}

/// How far a face is from an upright, regular face of the wanted kind: the
/// slant penalty, the distance of the weight from 400, and 80 for a
/// proportional face where code wants a monospaced one, or 20 for a
/// monospaced face where body text wants a proportional one. Lower is better.
pub open spec fn score_of(face: FaceCandidate, prefer_mono: bool) -> int {
    let w = face.weight as int - 400;
    style_penalty(face.style) + (if w < 0 {
        -w
    } else {
        w
    }) + if prefer_mono {
        if !face.monospaced {
            80int
        } else {
            0int
        }
    } else if face.monospaced {
        20int
    } else {
        0int
    }
}

/// The score of `face` (see `score_of`).
pub fn face_score(face: &FaceCandidate, prefer_mono: bool) -> (r: i32)
    ensures
        r as int == score_of(*face, prefer_mono),
{
    let mut score: i32 = 0;
    score = score + match face.style {
        FaceStyle::Normal => 0,
        FaceStyle::Oblique => 40,
        FaceStyle::Italic => 60,
    };
    let w: i32 = face.weight as i32 - 400;
    score = score + if w < 0 {
        -w
    } else {
        w
    };
    if prefer_mono {
        if !face.monospaced {
            score = score + 80;
        }
    } else if face.monospaced {
        score = score + 20;
    }
    score
}

/// `i` is the first face of `faces` with the least score.
pub open spec fn is_best_face(faces: Seq<FaceCandidate>, prefer_mono: bool, i: int) -> bool {
    &&& 0 <= i < faces.len()
    &&& forall|j: int|
        0 <= j < faces.len() ==> score_of(faces[i], prefer_mono) <= score_of(
            #[trigger] faces[j],
            prefer_mono,
        )
    &&& forall|j: int|
        0 <= j < i ==> score_of(faces[i], prefer_mono) < score_of(#[trigger] faces[j], prefer_mono)
}

/// The index of the first face with the least score; `None` when there is no
/// face.
pub fn best_face(faces: &[FaceCandidate], prefer_mono: bool) -> (r: Option<usize>)
    ensures
        r is None <==> faces@.len() == 0,
        r matches Some(i) ==> is_best_face(faces@, prefer_mono, i as int),
{
    if faces.len() == 0 {
        return None;
    }
    let mut best: usize = 0;
    let mut best_score: i32 = face_score(&faces[0], prefer_mono);
    let mut i: usize = 1;
    while i < faces.len()
        invariant
            1 <= i <= faces@.len(),
            best < i,
            best_score as int == score_of(faces@[best as int], prefer_mono),
            forall|j: int|
                0 <= j < i ==> score_of(faces@[best as int], prefer_mono) <= score_of(
                    #[trigger] faces@[j],
                    prefer_mono,
                ),
            forall|j: int|
                0 <= j < best ==> score_of(faces@[best as int], prefer_mono) < score_of(
                    #[trigger] faces@[j],
                    prefer_mono,
                ),
        decreases faces@.len() - i,
    {
        let s: i32 = face_score(&faces[i], prefer_mono);
        if s < best_score {
            best = i;
            best_score = s;
        }
        i = i + 1;
    }
    Some(best)
}

// ---------------------------------------------------------------------------
// Ordering of family names.
// ---------------------------------------------------------------------------
/// Lexicographic order by code point, the order of `String`s (byte order of
/// UTF-8 agrees with code point order).
pub open spec fn lex_lt(a: Seq<char>, b: Seq<char>) -> bool
    decreases a.len(),
{
    if a.len() == 0 {
        b.len() > 0
    } else if b.len() == 0 {
        false
    } else if a[0] != b[0] {
        (a[0] as int) < (b[0] as int)
    } else {
        lex_lt(a.drop_first(), b.drop_first())
    }
}

pub proof fn lemma_lex_lt_irreflexive(a: Seq<char>)
    ensures
        !lex_lt(a, a),
    decreases a.len(),
{
    if a.len() > 0 {
        lemma_lex_lt_irreflexive(a.drop_first());
    }
}

pub proof fn lemma_lex_lt_transitive(a: Seq<char>, b: Seq<char>, c: Seq<char>)
    requires
        lex_lt(a, b),
        lex_lt(b, c),
    ensures
        lex_lt(a, c),
    decreases a.len(),
{
    if a.len() > 0 && b.len() > 0 && c.len() > 0 {
        if a[0] == b[0] && b[0] == c[0] {
            lemma_lex_lt_transitive(a.drop_first(), b.drop_first(), c.drop_first());
        }
    }
}

pub proof fn lemma_lex_lt_total(a: Seq<char>, b: Seq<char>)
    requires
        a != b,
    ensures
        lex_lt(a, b) || lex_lt(b, a),
    decreases a.len(),
{
    if a.len() > 0 && b.len() > 0 {
        if a[0] == b[0] {
            if a.drop_first() == b.drop_first() {
                assert(a =~= seq![a[0]] + a.drop_first());
                assert(b =~= seq![b[0]] + b.drop_first());
            }
            lemma_lex_lt_total(a.drop_first(), b.drop_first());
        } else {
            assert((a[0] as int) != (b[0] as int));
        }
    } else if a.len() == 0 && b.len() == 0 {
        assert(a =~= b);
    }
}

pub proof fn lemma_lex_lt_asymmetric(a: Seq<char>, b: Seq<char>)
    requires
        lex_lt(a, b),
    ensures
        !lex_lt(b, a),
{
    if lex_lt(b, a) {
        lemma_lex_lt_transitive(a, b, a);
        lemma_lex_lt_irreflexive(a);
    }
}

fn chars_eq(a: &Vec<char>, b: &Vec<char>) -> (r: bool)
    ensures
        r == (a@ == b@),
{
    if a.len() != b.len() {
        return false;
    }
    let mut i: usize = 0;
    while i < a.len()
        invariant
            i <= a@.len() == b@.len(),
            forall|j: int| 0 <= j < i ==> a@[j] == b@[j],
        decreases a@.len() - i,
    {
        if a[i] != b[i] {
            return false;
        }
        i = i + 1;
    }
    assert(a@ =~= b@);
    true
}

fn lex_less(a: &Vec<char>, b: &Vec<char>) -> (r: bool)
    ensures
        r == lex_lt(a@, b@),
{
    let mut i: usize = 0;
    assert(a@.skip(0) =~= a@ && b@.skip(0) =~= b@);
    while i < a.len() && i < b.len() && a[i] == b[i]
        invariant
            i <= a@.len(),
            i <= b@.len(),
            lex_lt(a@, b@) == lex_lt(a@.skip(i as int), b@.skip(i as int)),
        decreases a@.len() - i,
    {
        proof {
            let sa = a@.skip(i as int);
            let sb = b@.skip(i as int);
            assert(sa[0] == a@[i as int] && sb[0] == b@[i as int]);
            assert(sa.drop_first() =~= a@.skip(i + 1));
            assert(sb.drop_first() =~= b@.skip(i + 1));
        }
        i = i + 1;
    }
    proof {
        let sa = a@.skip(i as int);
        let sb = b@.skip(i as int);
        if i < a@.len() && i < b@.len() {
            assert(sa[0] == a@[i as int] && sb[0] == b@[i as int]);
        }
    }
    if i == a.len() {
        i < b.len()
    } else if i == b.len() {
        false
    } else {
        a[i] < b[i]
    }
}

/// `names` is in strictly increasing order (so holds no name twice).
pub open spec fn strictly_sorted(names: Seq<Seq<char>>) -> bool {
    forall|i: int, j: int| 0 <= i < j < names.len() ==> lex_lt(#[trigger] names[i], #[trigger] names[j])
}

/// Adds `name` to the strictly sorted `names`, unless it is there.
fn insert_sorted(names: &mut Vec<Vec<char>>, name: Vec<char>)
    requires
        strictly_sorted(old(names).deep_view()),
    ensures
        strictly_sorted(final(names).deep_view()),
        forall|n: Seq<char>|
            final(names).deep_view().contains(n) <==> (old(names).deep_view().contains(n) || n
                == name@),
{
    let ghost old_v = names.deep_view();
    let mut k: usize = 0;
    while k < names.len() && lex_less(&names[k], &name)
        invariant
            k <= names@.len(),
            names.deep_view() == old_v,
            forall|j: int| 0 <= j < k ==> lex_lt(#[trigger] old_v[j], name@),
        decreases names@.len() - k,
    {
        assert(old_v[k as int] == names@[k as int]@) by {
            assert(names@[k as int].deep_view() =~= names@[k as int]@);
        }
        k = k + 1;
    }
    if k < names.len() {
        assert(old_v[k as int] == names@[k as int]@) by {
            assert(names@[k as int].deep_view() =~= names@[k as int]@);
        }
        if chars_eq(&names[k], &name) {
            assert(old_v.contains(name@)) by {
                assert(old_v[k as int] == name@);
            }
            return;
        }
    }
    let ghost nv = name@;
    names.insert(k, name);
    proof {
        let new_v = names.deep_view();
        assert(names@[k as int].deep_view() =~= nv);
        assert(new_v =~= old_v.insert(k as int, nv)) by {
            assert forall|j: int| 0 <= j < new_v.len() implies new_v[j] == old_v.insert(k as int, nv)[j] by {
                if j == k {
                } else if j < k {
                    assert(names@[j] == old(names)@[j]);
                } else {
                    assert(names@[j] == old(names)@[j - 1]);
                }
            }
        }
        if k < old_v.len() {
            lemma_lex_lt_total(old_v[k as int], nv);
        }
        assert forall|i: int, j: int| 0 <= i < j < new_v.len() implies lex_lt(
            #[trigger] new_v[i],
            #[trigger] new_v[j],
        ) by {
            if i < k && j == k {
            } else if i < k && j > k {
                assert(lex_lt(old_v[i], old_v[j - 1]));
            } else if i == k && j > k {
                if j - 1 > k {
                    assert(lex_lt(old_v[k as int], old_v[j - 1]));
                    lemma_lex_lt_transitive(nv, old_v[k as int], old_v[j - 1]);
                }
            } else if i > k {
                assert(lex_lt(old_v[i - 1], old_v[j - 1]));
            } else {
                assert(lex_lt(old_v[i], old_v[j]));
            }
        }
        assert forall|n: Seq<char>| new_v.contains(n) <==> (old_v.contains(n) || n == nv) by {
            if new_v.contains(n) {
                let j = choose|j: int| 0 <= j < new_v.len() && new_v[j] == n;
                if j < k {
                    assert(old_v[j] == n);
                } else if j > k {
                    assert(old_v[j - 1] == n);
                }
            }
            if old_v.contains(n) {
                let j = choose|j: int| 0 <= j < old_v.len() && old_v[j] == n;
                if j < k {
                    assert(new_v[j] == n);
                } else {
                    assert(new_v[j + 1] == n);
                }
            }
            if n == nv {
                assert(new_v[k as int] == n);
            }
        }
    }
}

// ---------------------------------------------------------------------------
// The catalog of installed families.
// ---------------------------------------------------------------------------
/// An installed font face as the font database reports it: its family names,
/// its file (an index into the caller's table of font files; `None` for a
/// face held in memory), slant, weight and whether it is monospaced.
pub struct FaceInfo {
    pub families: Vec<String>,
    pub file: Option<usize>,
    pub style: FaceStyle,
    pub weight: u16,
    pub monospaced: bool,
}

pub struct FaceInfoView {
    pub families: Seq<Seq<char>>,
    pub file: Option<usize>,
    pub style: FaceStyle,
    pub weight: u16,
    pub monospaced: bool,
}

impl DeepView for FaceInfo {
    type V = FaceInfoView;

    open spec fn deep_view(&self) -> FaceInfoView {
        FaceInfoView {
            families: self.families.deep_view(),
            file: self.file,
            style: self.style,
            weight: self.weight,
            monospaced: self.monospaced,
        }
    }
}

/// The faces that can show one family, in the order they were reported.
pub struct FontFamily {
    pub name: String,
    pub faces: Vec<FaceCandidate>,
}

/// The installed families: their names in increasing order, and the faces of
/// each, in the same order.
pub struct FontCatalog {
    pub names: Vec<String>,
    pub families: Vec<FontFamily>,
}

pub struct FontFamilyView {
    pub name: Seq<char>,
    pub faces: Seq<FaceCandidate>,
}

pub struct FontCatalogView {
    pub names: Seq<Seq<char>>,
    pub families: Seq<FontFamilyView>,
}

impl DeepView for FontFamily {
    type V = FontFamilyView;

    open spec fn deep_view(&self) -> FontFamilyView {
        FontFamilyView { name: self.name@, faces: self.faces@ }
    }
}

impl DeepView for FontCatalog {
    type V = FontCatalogView;

    open spec fn deep_view(&self) -> FontCatalogView {
        FontCatalogView { names: self.names.deep_view(), families: self.families.deep_view() }
    }
}

/// The name listed when no family is installed.
pub open spec fn fallback_family() -> Seq<char> {
    seq!['P', 'r', 'o', 'p', 'o', 'r', 't', 'i', 'o', 'n', 'a', 'l']
}

/// The candidate a face offers, stored in file `file`.
pub open spec fn candidate_of(info: FaceInfoView, file: usize) -> FaceCandidate {
    FaceCandidate { file, style: info.style, weight: info.weight, monospaced: info.monospaced }
}

/// The (family, candidate) pairs of one face, for its non-blank family names
/// in order.
pub open spec fn face_pairs(families: Seq<Seq<char>>, c: FaceCandidate) -> Seq<
    (Seq<char>, FaceCandidate),
>
    decreases families.len(),
{
    if families.len() == 0 {
        Seq::empty()
    } else {
        face_pairs(families.drop_last(), c) + if trim(families.last()).len() == 0 {
            Seq::empty()
        } else {
            seq![(families.last(), c)]
        }
    }
}

/// The (family, candidate) pairs of all faces stored in files, in order.
pub open spec fn all_pairs(infos: Seq<FaceInfoView>) -> Seq<(Seq<char>, FaceCandidate)>
    decreases infos.len(),
{
    if infos.len() == 0 {
        Seq::empty()
    } else {
        all_pairs(infos.drop_last()) + match infos.last().file {
            Some(f) => face_pairs(infos.last().families, candidate_of(infos.last(), f)),
            None => Seq::empty(),
        }
    }
}

/// Some pair names family `n`.
pub open spec fn has_family(pairs: Seq<(Seq<char>, FaceCandidate)>, n: Seq<char>) -> bool {
    exists|k: int| 0 <= k < pairs.len() && #[trigger] pairs[k].0 == n
}

/// The candidates of the pairs that name family `n`, in order.
pub open spec fn faces_named(pairs: Seq<(Seq<char>, FaceCandidate)>, n: Seq<char>) -> Seq<
    FaceCandidate,
>
    decreases pairs.len(),
{
    if pairs.len() == 0 {
        Seq::empty()
    } else {
        faces_named(pairs.drop_last(), n) + if pairs.last().0 == n {
            seq![pairs.last().1]
        } else {
            Seq::empty()
        }
    }
}

/// `cat` is the catalog of the faces `infos`: every non-blank family name of
/// a face stored in a file, once each, in increasing order (or only
/// `Proportional` when there is none); and for each such name the candidates
/// of the faces that list it, in order (a face listing a name twice offers
/// itself twice).
pub open spec fn is_catalog_of(cat: FontCatalogView, infos: Seq<FaceInfoView>) -> bool {
    let pairs = all_pairs(infos);
    &&& strictly_sorted(cat.names)
    &&& pairs.len() == 0 ==> cat.names == seq![fallback_family()] && cat.families.len() == 0
    &&& pairs.len() > 0 ==> {
        &&& forall|n: Seq<char>| cat.names.contains(n) <==> has_family(pairs, n)
        &&& cat.families.len() == cat.names.len()
        &&& forall|i: int|
            0 <= i < cat.families.len() ==> #[trigger] cat.families[i] == (FontFamilyView {
                name: cat.names[i],
                faces: faces_named(pairs, cat.names[i]),
            })
    }
}

proof fn lemma_has_family_push(
    pairs: Seq<(Seq<char>, FaceCandidate)>,
    p: (Seq<char>, FaceCandidate),
    n: Seq<char>,
)
    ensures
        has_family(pairs.push(p), n) <==> (has_family(pairs, n) || p.0 == n),
{
    let q = pairs.push(p);
    if has_family(q, n) {
        let k = choose|k: int| 0 <= k < q.len() && #[trigger] q[k].0 == n;
        if k < pairs.len() {
            assert(pairs[k].0 == n);
        }
    }
    if has_family(pairs, n) {
        let k = choose|k: int| 0 <= k < pairs.len() && #[trigger] pairs[k].0 == n;
        assert(q[k].0 == n);
    }
    if p.0 == n {
        assert(q[pairs.len() as int].0 == n);
    }
}

/// Builds the catalog of the installed families from the faces the font
/// database reports (see `is_catalog_of`).
pub fn build_font_catalog(infos: &Vec<FaceInfo>) -> (r: FontCatalog)
    ensures
        is_catalog_of(r.deep_view(), infos.deep_view()),
{
    let ghost iv = infos.deep_view();
    // The (family, candidate) pairs, as two parallel vectors.
    let mut pair_names: Vec<Vec<char>> = Vec::new();
    let mut pair_faces: Vec<FaceCandidate> = Vec::new();
    let ghost mut pairs: Seq<(Seq<char>, FaceCandidate)> = Seq::empty();
    let mut names: Vec<Vec<char>> = Vec::new();
    let mut i: usize = 0;
    assert(iv.take(0) =~= Seq::<FaceInfoView>::empty());
    while i < infos.len()
        invariant
            i <= infos@.len(),
            iv == infos.deep_view(),
            pairs == all_pairs(iv.take(i as int)),
            pair_names@.len() == pairs.len() == pair_faces@.len(),
            forall|k: int| 0 <= k < pairs.len() ==> #[trigger] pairs[k] == (pair_names@[k]@, pair_faces@[k]),
            strictly_sorted(names.deep_view()),
            forall|n: Seq<char>| names.deep_view().contains(n) <==> has_family(pairs, n),
        decreases infos@.len() - i,
    {
        let info = &infos[i];
        let ghost before = pairs;
        assert(iv.take(i + 1).drop_last() =~= iv.take(i as int));
        assert(iv.take(i + 1).last() == info.deep_view());
        match info.file {
            Some(file) => {
                let c = FaceCandidate {
                    file,
                    style: info.style,
                    weight: info.weight,
                    monospaced: info.monospaced,
                };
                let fams = &info.families;
                let ghost fv = fams.deep_view();
                let mut j: usize = 0;
                assert(fv.take(0) =~= Seq::<Seq<char>>::empty());
                while j < fams.len()
                    invariant
                        j <= fams@.len(),
                        fv == fams.deep_view(),
                        pairs == before + face_pairs(fv.take(j as int), c),
                        pair_names@.len() == pairs.len() == pair_faces@.len(),
                        forall|k: int|
                            0 <= k < pairs.len() ==> #[trigger] pairs[k] == (
                                pair_names@[k]@,
                                pair_faces@[k],
                            ),
                        strictly_sorted(names.deep_view()),
                        forall|n: Seq<char>|
                            names.deep_view().contains(n) <==> has_family(pairs, n),
                    decreases fams@.len() - j,
                {
                    let name = chars_of(fams[j].as_str());
                    assert(fv.take(j + 1).drop_last() =~= fv.take(j as int));
                    assert(fv.take(j + 1).last() == name@);
                    if !trims_to_empty(&name) {
                        let ghost p = (name@, c);
                        let ghost prev_pairs = pairs;
                        proof {
                            pairs = pairs.push(p);
                            assert forall|n: Seq<char>| has_family(pairs, n) <==> (has_family(
                                prev_pairs,
                                n,
                            ) || n == name@) by {
                                lemma_has_family_push(prev_pairs, p, n);
                            }
                        }
                        insert_sorted(&mut names, copy_chars(&name));
                        pair_names.push(name);
                        pair_faces.push(c);
                        assert(pairs =~= before + face_pairs(fv.take(j + 1), c));
                    } else {
                        assert(pairs =~= before + face_pairs(fv.take(j + 1), c));
                    }
                    j = j + 1;
                }
                assert(fv.take(fams@.len() as int) =~= fv);
            },
            None => {
                assert(pairs =~= all_pairs(iv.take(i + 1)));
            },
        }
        i = i + 1;
    }
    assert(iv.take(infos@.len() as int) =~= iv);
    // One family per name, in the order of the names.
    let mut families: Vec<FontFamily> = Vec::new();
    let mut out_names: Vec<String> = Vec::new();
    let mut f: usize = 0;
    while f < names.len()
        invariant
            f <= names@.len(),
            pairs == all_pairs(iv),
            pair_names@.len() == pairs.len() == pair_faces@.len(),
            forall|k: int| 0 <= k < pairs.len() ==> #[trigger] pairs[k] == (pair_names@[k]@, pair_faces@[k]),
            families@.len() == f,
            out_names.deep_view() =~= names.deep_view().take(f as int),
            forall|m: int|
                0 <= m < f ==> #[trigger] families@[m].deep_view() == (FontFamilyView {
                    name: names.deep_view()[m],
                    faces: faces_named(pairs, names.deep_view()[m]),
                }),
        decreases names@.len() - f,
    {
        let name = &names[f];
        assert(names.deep_view()[f as int] == name@) by {
            assert(names@[f as int].deep_view() =~= names@[f as int]@);
        }
        let mut faces: Vec<FaceCandidate> = Vec::new();
        let mut k: usize = 0;
        assert(pairs.take(0) =~= Seq::<(Seq<char>, FaceCandidate)>::empty());
        while k < pair_names.len()
            invariant
                k <= pairs.len(),
                pair_names@.len() == pairs.len() == pair_faces@.len(),
                forall|q: int| 0 <= q < pairs.len() ==> #[trigger] pairs[q] == (pair_names@[q]@, pair_faces@[q]),
                faces@ == faces_named(pairs.take(k as int), name@),
            decreases pairs.len() - k,
        {
            assert(pairs.take(k + 1).drop_last() =~= pairs.take(k as int));
            assert(pairs.take(k + 1).last() == pairs[k as int]);
            if chars_eq(&pair_names[k], name) {
                faces.push(pair_faces[k]);
            }
            k = k + 1;
        }
        assert(pairs.take(pairs.len() as int) =~= pairs);
        let s = string_of(name);
        let ghost sv = s@;
        let ghost od0 = out_names.deep_view();
        out_names.push(s);
        let fam = FontFamily { name: string_of(name), faces };
        let ghost famv = fam.deep_view();
        families.push(fam);
        proof {
            assert(families@[f as int].deep_view() == famv);
            let od = out_names.deep_view();
            assert(od =~= od0.push(sv));
            assert(od =~= names.deep_view().take(f + 1));
        }
        f = f + 1;
    }
    if out_names.len() == 0 {
        out_names.push(string_of(&fallback_family_chars()));
    }
    let r = FontCatalog { names: out_names, families };
    proof {
        let cat = r.deep_view();
        assert(names.deep_view().take(names@.len() as int) =~= names.deep_view());
        if pairs.len() == 0 {
            assert(names.deep_view().len() == 0) by {
                if names.deep_view().len() > 0 {
                    assert(names.deep_view().contains(names.deep_view()[0]));
                    assert(!has_family(pairs, names.deep_view()[0]));
                }
            }
            assert(cat.names =~= seq![fallback_family()]);
        } else {
            let k0 = 0int;
            assert(has_family(pairs, pairs[0].0)) by {
                assert(pairs[k0].0 == pairs[0].0);
            }
            assert(names.deep_view().contains(pairs[0].0));
            assert(cat.names == names.deep_view());
            assert forall|i: int| 0 <= i < cat.families.len() implies #[trigger] cat.families[i]
                == (FontFamilyView {
                name: cat.names[i],
                faces: faces_named(pairs, cat.names[i]),
            }) by {
                assert(cat.families[i] == families@[i].deep_view());
            }
        }
    }
    r
}

/// `i` is the first family of `cat` named `name`.
pub open spec fn first_family(cat: FontCatalogView, name: Seq<char>, i: int) -> bool {
    &&& 0 <= i < cat.families.len()
    &&& cat.families[i].name == name
    &&& forall|j: int| 0 <= j < i ==> (#[trigger] cat.families[j]).name != name
}

/// The file of the best face (see `is_best_face`) of family `name`, where
/// the catalog lists that family with at least one face.
pub open spec fn selected_file(cat: FontCatalogView, name: Seq<char>, prefer_mono: bool) -> Option<
    usize,
> {
    if exists|i: int| first_family(cat, name, i) {
        let faces = cat.families[choose|i: int| first_family(cat, name, i)].faces;
        if faces.len() == 0 {
            None
        } else {
            Some(faces[choose|b: int| is_best_face(faces, prefer_mono, b)].file)
        }
    } else {
        None
    }
}

/// There is at most one best face.
pub proof fn lemma_best_face_unique(faces: Seq<FaceCandidate>, prefer_mono: bool, a: int, b: int)
    requires
        is_best_face(faces, prefer_mono, a),
        is_best_face(faces, prefer_mono, b),
    ensures
        a == b,
{
    if a < b {
        assert(score_of(faces[b], prefer_mono) < score_of(faces[a], prefer_mono));
    } else if b < a {
        assert(score_of(faces[a], prefer_mono) < score_of(faces[b], prefer_mono));
    }
}

/// A non-empty list of faces has a best face.
pub proof fn lemma_best_face_exists(faces: Seq<FaceCandidate>, prefer_mono: bool)
    requires
        faces.len() > 0,
    ensures
        exists|b: int| is_best_face(faces, prefer_mono, b),
    decreases faces.len(),
{
    if faces.len() == 1 {
        assert(is_best_face(faces, prefer_mono, 0));
    } else {
        let init = faces.drop_last();
        lemma_best_face_exists(init, prefer_mono);
        let b = choose|b: int| is_best_face(init, prefer_mono, b);
        let n = faces.len() - 1;
        assert forall|j: int| 0 <= j < n implies #[trigger] faces[j] == init[j] by {}
        if score_of(faces[n], prefer_mono) < score_of(faces[b], prefer_mono) {
            assert forall|j: int| 0 <= j < n implies score_of(faces[n], prefer_mono) < score_of(
                #[trigger] faces[j],
                prefer_mono,
            ) by {
                assert(score_of(init[b], prefer_mono) <= score_of(init[j], prefer_mono));
            }
            assert(is_best_face(faces, prefer_mono, n));
        } else {
            assert forall|j: int| 0 <= j < faces.len() implies score_of(faces[b], prefer_mono)
                <= score_of(#[trigger] faces[j], prefer_mono) by {
                if j < n {
                    assert(score_of(init[b], prefer_mono) <= score_of(init[j], prefer_mono));
                }
            }
            assert forall|j: int| 0 <= j < b implies score_of(faces[b], prefer_mono) < score_of(
                #[trigger] faces[j],
                prefer_mono,
            ) by {
                assert(score_of(init[b], prefer_mono) < score_of(init[j], prefer_mono));
            }
            assert(is_best_face(faces, prefer_mono, b));
        }
    }
}

/// Law: the file selected for a family is that of one of its faces whose
/// score is no greater than that of any face of the family, the first such
/// face; nothing is selected for a family without faces, or for a name that
/// is not in the catalog.
pub proof fn law_selected_face_has_least_score(
    cat: FontCatalogView,
    name: Seq<char>,
    prefer_mono: bool,
)
    ensures
        (forall|i: int|
            0 <= i < cat.families.len() ==> (#[trigger] cat.families[i]).name != name)
            ==> selected_file(cat, name, prefer_mono) is None,
        forall|i: int|
            #![trigger cat.families[i]]
            0 <= i < cat.families.len() && cat.families[i].name == name && (forall|m: int|
                0 <= m < i ==> (#[trigger] cat.families[m]).name != name) ==> {
                let faces = cat.families[i].faces;
                &&& (faces.len() == 0 <==> selected_file(cat, name, prefer_mono) is None)
                &&& faces.len() > 0 ==> exists|b: int|
                    #![trigger faces[b]]
                    0 <= b < faces.len() && Some(faces[b].file) == selected_file(
                        cat,
                        name,
                        prefer_mono,
                    ) && (forall|j: int|
                        0 <= j < faces.len() ==> score_of(faces[b], prefer_mono) <= score_of(
                            #[trigger] faces[j],
                            prefer_mono,
                        )) && (forall|j: int|
                        0 <= j < b ==> score_of(faces[b], prefer_mono) < score_of(
                            #[trigger] faces[j],
                            prefer_mono,
                        ))
            },
{
    if forall|i: int| 0 <= i < cat.families.len() ==> (#[trigger] cat.families[i]).name != name {
        assert forall|k: int| !first_family(cat, name, k) by {
            if 0 <= k < cat.families.len() {
                assert(cat.families[k].name != name);
            }
        }
    }
    assert forall|i: int|
        #![trigger cat.families[i]]
        0 <= i < cat.families.len() && cat.families[i].name == name && (forall|m: int|
            0 <= m < i ==> (#[trigger] cat.families[m]).name != name) implies {
        let faces = cat.families[i].faces;
        &&& (faces.len() == 0 <==> selected_file(cat, name, prefer_mono) is None)
        &&& faces.len() > 0 ==> exists|b: int|
            #![trigger faces[b]]
            0 <= b < faces.len() && Some(faces[b].file) == selected_file(cat, name, prefer_mono)
                && (forall|j: int|
                0 <= j < faces.len() ==> score_of(faces[b], prefer_mono) <= score_of(
                    #[trigger] faces[j],
                    prefer_mono,
                )) && (forall|j: int|
                0 <= j < b ==> score_of(faces[b], prefer_mono) < score_of(
                    #[trigger] faces[j],
                    prefer_mono,
                ))
    } by {
        assert(first_family(cat, name, i));
        let k = choose|k: int| first_family(cat, name, k);
        if k < i {
            assert(cat.families[k].name != name);
        } else if k > i {
            assert(cat.families[i].name != name);
        }
        let faces = cat.families[i].faces;
        if faces.len() > 0 {
            lemma_best_face_exists(faces, prefer_mono);
            let b = choose|b: int| is_best_face(faces, prefer_mono, b);
            assert(Some(faces[b].file) == selected_file(cat, name, prefer_mono));
        }
    }
}

/// The font file to load for family `family_name`: the file of its best face
/// for code (`prefer_mono`) or for body text; `None` when the family is not
/// in the catalog or has no face.
pub fn select_font_file(catalog: &FontCatalog, family_name: &str, prefer_mono: bool) -> (r: Option<
    usize,
>)
    ensures
        r == selected_file(catalog.deep_view(), family_name@, prefer_mono),
{
    let ghost cat = catalog.deep_view();
    let wanted = family_name.to_owned();
    let mut i: usize = 0;
    while i < catalog.families.len()
        invariant
            i <= catalog.families@.len(),
            cat == catalog.deep_view(),
            wanted@ == family_name@,
            forall|j: int| 0 <= j < i ==> (#[trigger] cat.families[j]).name != family_name@,
        decreases catalog.families@.len() - i,
    {
        let fam = &catalog.families[i];
        if fam.name == wanted {
            proof {
                assert(cat.families[i as int] == fam.deep_view());
                assert(first_family(cat, family_name@, i as int));
                let k = choose|k: int| first_family(cat, family_name@, k);
                if k < i {
                    assert(cat.families[k].name != family_name@);
                } else if k > i {
                    assert(cat.families[i as int].name != family_name@);
                }
            }
            return match best_face(fam.faces.as_slice(), prefer_mono) {
                Some(b) => {
                    proof {
                        let faces = fam.faces@;
                        let c = choose|c: int| is_best_face(faces, prefer_mono, c);
                        lemma_best_face_unique(faces, prefer_mono, b as int, c);
                    }
                    Some(fam.faces[b].file)
                },
                None => None,
            };
        }
        assert(cat.families[i as int] == fam.deep_view());
        i = i + 1;
    }
    assert forall|k: int| !first_family(cat, family_name@, k) by {
        if 0 <= k < cat.families.len() {
            assert(cat.families[k].name != family_name@);
        }
    }
    None
}

fn fallback_family_chars() -> (r: Vec<char>)
    ensures
        r@ == fallback_family(),
{
    let r: Vec<char> = vec!['P', 'r', 'o', 'p', 'o', 'r', 't', 'i', 'o', 'n', 'a', 'l'];
    r
}

} // verus!
