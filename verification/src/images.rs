//! Images: which files of a directory are images and in what order they are
//! read, and how an image file's bytes become a data URI.
use vstd::prelude::*;
use base64::Engine;
use crate::recognition::find_last;
use crate::text::{chars_of, concat2, concat3, last_index, lowercase, str_eq, string_of, to_lowercase};

verus! {

// ---------------------------------------------------------------------------
// Data URIs
// ---------------------------------------------------------------------------
/// The part of a path after its last dot (all of it where it has none).
pub open spec fn after_last_dot(path: Seq<char>) -> Seq<char> {
    match last_index(path, '.') {
        Some(i) => path.skip(i + 1),
        None => path,
    }
}

/// The MIME type sent for an image: by its extension, case aside; JPEG
/// where it is neither PNG nor WebP.
pub open spec fn mime_of(path: Seq<char>) -> Seq<char> {
    let ext = lowercase(after_last_dot(path));
    if ext == "png"@ {
        "image/png"@
    } else if ext == "webp"@ {
        "image/webp"@
    } else {
        "image/jpeg"@
    }
}

pub fn mime_for_path(path: &str) -> (r: &'static str)
    ensures
        r@ == mime_of(path@),
{
    let v = chars_of(path);
    let n = v.len();
    let ext = match find_last(&v, '.') {
        Some(i) => {
            assert(i < n);
            let e = string_of(&v, i + 1, v.len());
            assert(v@.subrange(i + 1, v@.len() as int) =~= v@.skip(i + 1));
            e
        },
        None => String::from_str(path),
    };
    let lower = to_lowercase(ext.as_str());
    if str_eq(lower.as_str(), "png") {
        "image/png"
    } else if str_eq(lower.as_str(), "webp") {
        "image/webp"
    } else {
        "image/jpeg"
    }
}

/// Length of the padded standard Base64 text of `n` bytes.
pub open spec fn base64_len(n: nat) -> nat {
    ((n + 2) / 3 * 4) as nat
}

/// The standard Base64 alphabet (RFC 4648): `A`-`Z`, `a`-`z`, `0`-`9`, `+`, `/`.
pub open spec fn b64_char(i: u8) -> char {
    if i < 26 {
        (65 + i) as char
    } else if i < 52 {
        (97 + i - 26) as char
    } else if i < 62 {
        (48 + i - 52) as char
    } else if i == 62 {
        '+'
    } else {
        '/'
    }
}

/// Padded standard Base64: each group of three bytes gives four characters
/// of six bits each; a last group of one or two bytes is padded with `=`.
pub open spec fn base64_encode(b: Seq<u8>) -> Seq<char>
    decreases b.len(),
{
    if b.len() == 0 {
        seq![]
    } else if b.len() == 1 {
        seq![b64_char(b[0] >> 2), b64_char((b[0] & 3) << 4), '=', '=']
    } else if b.len() == 2 {
        seq![
            b64_char(b[0] >> 2),
            b64_char(((b[0] & 3) << 4) | (b[1] >> 4)),
            b64_char((b[1] & 15) << 2),
            '=',
        ]
    } else {
        seq![
            b64_char(b[0] >> 2),
            b64_char(((b[0] & 3) << 4) | (b[1] >> 4)),
            b64_char(((b[1] & 15) << 2) | (b[2] >> 6)),
            b64_char(b[2] & 63),
        ] + base64_encode(b.skip(3))
    }
}

/// The six-bit value of a Base64 character.
pub open spec fn b64_value(c: char) -> u8 {
    if 'A' <= c && c <= 'Z' {
        (c as int - 65) as u8
    } else if 'a' <= c && c <= 'z' {
        (c as int - 97 + 26) as u8
    } else if '0' <= c && c <= '9' {
        (c as int - 48 + 52) as u8
    } else if c == '+' {
        62
    } else {
        63
    }
}

/// Padded standard Base64 read back into bytes.
pub open spec fn base64_decode(s: Seq<char>) -> Seq<u8>
    decreases s.len(),
{
    if s.len() < 4 {
        seq![]
    } else {
        let v0 = b64_value(s[0]);
        let v1 = b64_value(s[1]);
        let v2 = b64_value(s[2]);
        let v3 = b64_value(s[3]);
        let x = (v0 << 2) | (v1 >> 4);
        let y = ((v1 & 15) << 4) | (v2 >> 2);
        let z = ((v2 & 3) << 6) | v3;
        if s[2] == '=' {
            seq![x]
        } else if s[3] == '=' {
            seq![x, y]
        } else {
            seq![x, y, z] + base64_decode(s.skip(4))
        }
    }
}

proof fn lemma_b64_char(i: u8)
    requires
        i < 64,
    ensures
        b64_value(b64_char(i)) == i,
        b64_char(i) != '=',
{
}

proof fn lemma_b64_bits(a: u8, b: u8, c: u8)
    ensures
        a >> 2 < 64,
        ((a & 3) << 4) | (b >> 4) < 64,
        ((b & 15) << 2) | (c >> 6) < 64,
        c & 63 < 64,
        (a & 3) << 4 < 64,
        (b & 15) << 2 < 64,
        ((a >> 2) << 2) | ((((a & 3) << 4) | (b >> 4)) >> 4) == a,
        ((a >> 2) << 2) | (((a & 3) << 4) >> 4) == a,
        (((((a & 3) << 4) | (b >> 4)) & 15) << 4) | ((((b & 15) << 2) | (c >> 6)) >> 2) == b,
        (((((a & 3) << 4) | (b >> 4)) & 15) << 4) | (((b & 15) << 2) >> 2) == b,
        (((((b & 15) << 2) | (c >> 6)) & 3) << 6) | (c & 63) == c,
{
    assert(a >> 2 < 64) by (bit_vector);
    assert(((a & 3) << 4) | (b >> 4) < 64) by (bit_vector);
    assert(((b & 15) << 2) | (c >> 6) < 64) by (bit_vector);
    assert(c & 63 < 64) by (bit_vector);
    assert((a & 3) << 4 < 64) by (bit_vector);
    assert((b & 15) << 2 < 64) by (bit_vector);
    assert(((a >> 2) << 2) | ((((a & 3) << 4) | (b >> 4)) >> 4) == a) by (bit_vector);
    assert(((a >> 2) << 2) | (((a & 3) << 4) >> 4) == a) by (bit_vector);
    assert((((((a & 3) << 4) | (b >> 4)) & 15) << 4) | ((((b & 15) << 2) | (c >> 6)) >> 2) == b)
        by (bit_vector);
    assert((((((a & 3) << 4) | (b >> 4)) & 15) << 4) | (((b & 15) << 2) >> 2) == b) by (bit_vector);
    assert((((((b & 15) << 2) | (c >> 6)) & 3) << 6) | (c & 63) == c) by (bit_vector);
}

/// Base64 text read back gives the bytes it was made from.
pub proof fn law_base64_round_trip(b: Seq<u8>)
    ensures
        base64_decode(base64_encode(b)) == b,
    decreases b.len(),
{
    let e = base64_encode(b);
    if b.len() == 1 {
        lemma_b64_bits(b[0], 0, 0);
        lemma_b64_char(b[0] >> 2);
        lemma_b64_char((b[0] & 3) << 4);
        assert(base64_decode(e) =~= b);
    } else if b.len() == 2 {
        lemma_b64_bits(b[0], b[1], 0);
        lemma_b64_char(b[0] >> 2);
        lemma_b64_char(((b[0] & 3) << 4) | (b[1] >> 4));
        lemma_b64_char((b[1] & 15) << 2);
        assert(base64_decode(e) =~= b);
    } else if b.len() >= 3 {
        lemma_b64_bits(b[0], b[1], b[2]);
        lemma_b64_char(b[0] >> 2);
        lemma_b64_char(((b[0] & 3) << 4) | (b[1] >> 4));
        lemma_b64_char(((b[1] & 15) << 2) | (b[2] >> 6));
        lemma_b64_char(b[2] & 63);
        law_base64_round_trip(b.skip(3));
        let head = seq![
            b64_char(b[0] >> 2),
            b64_char(((b[0] & 3) << 4) | (b[1] >> 4)),
            b64_char(((b[1] & 15) << 2) | (b[2] >> 6)),
            b64_char(b[2] & 63),
        ];
        assert(e.skip(4) =~= base64_encode(b.skip(3)));
        assert(e[0] == head[0] && e[1] == head[1] && e[2] == head[2] && e[3] == head[3]);
        assert(seq![b[0], b[1], b[2]] + b.skip(3) =~= b);
    } else {
        assert(base64_decode(e) =~= b);
    }
}

/// `base64::Engine::encode` with `BASE64_STANDARD`: the padded standard
/// Base64 text of the bytes. It panics where the text's length overflows
/// `usize`, which `requires` rules out.
#[verifier::external_body]
fn encode_base64(bytes: &[u8]) -> (r: String)
    requires
        base64_len(bytes@.len()) <= usize::MAX,
    ensures
        r@ == base64_encode(bytes@),
{
    base64::prelude::BASE64_STANDARD.encode(bytes)
}

/// `data:<mime>;base64,<text>`.
pub open spec fn data_uri_of(mime: Seq<char>, b64: Seq<char>) -> Seq<char> {
    "data:"@ + mime + ";base64,"@ + b64
}

pub fn data_uri(mime: &str, b64: &str) -> (r: String)
    ensures
        r@ == data_uri_of(mime@, b64@),
{
    let mut s = concat3("data:", mime, ";base64,");
    s.append(b64);
    s
}

/// The data URI sent for an image file, from its path and its bytes.
pub fn encode_image(path: &str, bytes: &[u8]) -> (r: String)
    requires
        base64_len(bytes@.len()) <= usize::MAX,
    ensures
        r@ == data_uri_of(mime_of(path@), base64_encode(bytes@)),
{
    let b64 = encode_base64(bytes);
    data_uri(mime_for_path(path), b64.as_str())
}

// ---------------------------------------------------------------------------
// Choosing and ordering a directory's images
// ---------------------------------------------------------------------------
/// A directory entry whose path and extension are both text.
pub struct ImageCandidate {
    pub path: String,
    pub extension: String,
}

pub struct CandidateView {
    pub path: Seq<char>,
    pub extension: Seq<char>,
}

impl View for ImageCandidate {
    type V = CandidateView;

    open spec fn view(&self) -> CandidateView {
        CandidateView { path: self.path@, extension: self.extension@ }
    }
}

/// The extensions read as images.
pub open spec fn is_image_extension(ext: Seq<char>) -> bool {
    ext == "jpg"@ || ext == "jpeg"@ || ext == "png"@ || ext == "webp"@ || ext == "bmp"@ || ext
        == "gif"@
}

/// The paths of the candidates whose lower-cased extension is an image's, in order.
pub open spec fn image_paths(cs: Seq<CandidateView>) -> Seq<Seq<char>>
    decreases cs.len(),
{
    if cs.len() == 0 {
        seq![]
    } else {
        let rest = image_paths(cs.drop_last());
        if is_image_extension(lowercase(cs.last().extension)) {
            rest.push(cs.last().path)
        } else {
            rest
        }
    }
}

/// Code-point order of strings, which is the byte order of their UTF-8 text
/// and so the order of `String`.
pub open spec fn lex_le(a: Seq<char>, b: Seq<char>) -> bool
    decreases a.len(),
{
    if a.len() == 0 {
        true
    } else if b.len() == 0 {
        false
    } else if a[0] != b[0] {
        a[0] < b[0]
    } else {
        lex_le(a.drop_first(), b.drop_first())
    }
}

pub proof fn lemma_lex_total(a: Seq<char>, b: Seq<char>)
    ensures
        lex_le(a, b) || lex_le(b, a),
    decreases a.len(),
{
    if a.len() > 0 && b.len() > 0 && a[0] == b[0] {
        lemma_lex_total(a.drop_first(), b.drop_first());
    }
}

pub proof fn lemma_lex_trans(a: Seq<char>, b: Seq<char>, c: Seq<char>)
    requires
        lex_le(a, b),
        lex_le(b, c),
    ensures
        lex_le(a, c),
    decreases a.len(),
{
    if a.len() > 0 && b.len() > 0 && c.len() > 0 && a[0] == b[0] && b[0] == c[0] {
        lemma_lex_trans(a.drop_first(), b.drop_first(), c.drop_first());
    }
}

pub open spec fn sorted_lex(s: Seq<Seq<char>>) -> bool {
    forall|i: int, j: int| 0 <= i < j < s.len() ==> lex_le(s[i], s[j])
}

fn lex_le_exec(a: &str, b: &str) -> (r: bool)
    ensures
        r == lex_le(a@, b@),
{
    let x = chars_of(a);
    let y = chars_of(b);
    let mut i: usize = 0;
    assert(x@.skip(0) =~= x@);
    assert(y@.skip(0) =~= y@);
    while i < x.len() && i < y.len() && x[i] == y[i]
        invariant
            0 <= i <= x@.len(),
            i <= y@.len(),
            x@ == a@,
            y@ == b@,
            lex_le(a@, b@) == lex_le(x@.skip(i as int), y@.skip(i as int)),
        decreases x@.len() - i,
    {
        assert(x@.skip(i as int).drop_first() =~= x@.skip(i + 1));
        assert(y@.skip(i as int).drop_first() =~= y@.skip(i + 1));
        i = i + 1;
    }
    if i == x.len() {
        true
    } else if i == y.len() {
        false
    } else {
        x[i] < y[i]
    }
}

pub open spec fn views_of(v: Seq<String>) -> Seq<Seq<char>> {
    v.map_values(|s: String| s@)
}

/// Sorts the strings into code-point order.
pub fn sort_strings(items: &Vec<String>) -> (r: Vec<String>)
    ensures
        sorted_lex(views_of(r@)),
        views_of(r@).to_multiset() == views_of(items@).to_multiset(),
{
    let mut out: Vec<String> = Vec::new();
    let mut i: usize = 0;
    assert(views_of(out@) =~= views_of(items@.take(0)));
    while i < items.len()
        invariant
            0 <= i <= items@.len(),
            sorted_lex(views_of(out@)),
            views_of(out@).to_multiset() == views_of(items@.take(i as int)).to_multiset(),
        decreases items@.len() - i,
    {
        let s = items[i].clone();
        let mut pos: usize = 0;
        while pos < out.len() && lex_le_exec(out[pos].as_str(), s.as_str())
            invariant
                0 <= pos <= out@.len(),
                forall|j: int| 0 <= j < pos ==> lex_le(#[trigger] out@[j]@, s@),
            decreases out@.len() - pos,
        {
            pos = pos + 1;
        }
        let ghost old_views = views_of(out@);
        proof {
            if pos < out@.len() {
                lemma_lex_total(out@[pos as int]@, s@);
            }
        }
        out.insert(pos, s);
        let ghost new_views = views_of(out@);
        proof {
            assert(new_views =~= old_views.insert(pos as int, s@));
            old_views.insert_ensures(pos as int, s@);
            assert forall|a: int, b: int| 0 <= a < b < new_views.len() implies lex_le(
                new_views[a],
                new_views[b],
            ) by {
                if b < pos {
                    assert(lex_le(old_views[a], old_views[b]));
                } else if b == pos {
                    assert(lex_le(out@[a]@, s@));
                } else if a < pos {
                    assert(lex_le(old_views[a], s@));
                    assert(lex_le(s@, old_views[pos as int]));
                    if pos < b - 1 {
                        assert(lex_le(old_views[pos as int], old_views[b - 1]));
                        lemma_lex_trans(s@, old_views[pos as int], old_views[b - 1]);
                    }
                    lemma_lex_trans(old_views[a], s@, old_views[b - 1]);
                } else if a == pos {
                    assert(lex_le(s@, old_views[pos as int]));
                    if pos < b - 1 {
                        assert(lex_le(old_views[pos as int], old_views[b - 1]));
                        lemma_lex_trans(s@, old_views[pos as int], old_views[b - 1]);
                    }
                } else {
                    assert(lex_le(old_views[a - 1], old_views[b - 1]));
                }
            }
            vstd::seq_lib::to_multiset_insert(old_views, pos as int, s@);
            vstd::seq_lib::to_multiset_build(views_of(items@.take(i as int)), items@[i as int]@);
            let ti = items@.take(i as int);
            let tn = items@.take(i + 1);
            assert(views_of(tn) =~= views_of(ti).push(items@[i as int]@));
        }
        i = i + 1;
    }
    assert(items@.take(items@.len() as int) =~= items@);
    out
}

/// The directory's images: candidates with an image extension (case
/// aside), sorted by path; an error naming the directory when there is none.
pub fn select_images(candidates: &Vec<ImageCandidate>, dir: &str) -> (r: Result<Vec<String>, String>)
    ensures
        ({
            let paths = image_paths(candidates@.map_values(|c: ImageCandidate| c@));
            if paths.len() == 0 {
                r is Err && r->Err_0@ == "目录里没有图片（支持 jpg/jpeg/png/webp/bmp/gif）："@ + dir@
            } else {
                r is Ok && sorted_lex(views_of(r->Ok_0@)) && views_of(r->Ok_0@).to_multiset()
                    == paths.to_multiset()
            }
        }),
{
    let ghost cv = candidates@.map_values(|c: ImageCandidate| c@);
    let mut imgs: Vec<String> = Vec::new();
    let mut i: usize = 0;
    while i < candidates.len()
        invariant
            0 <= i <= candidates@.len(),
            cv == candidates@.map_values(|c: ImageCandidate| c@),
            views_of(imgs@) == image_paths(cv.take(i as int)),
        decreases candidates@.len() - i,
    {
        let c = &candidates[i];
        let lower = to_lowercase(c.extension.as_str());
        let l = lower.as_str();
        let keep = str_eq(l, "jpg") || str_eq(l, "jpeg") || str_eq(l, "png") || str_eq(l, "webp")
            || str_eq(l, "bmp") || str_eq(l, "gif");
        proof {
            assert(cv.take(i + 1).drop_last() =~= cv.take(i as int));
            assert(cv.take(i + 1).last() == c@);
        }
        if keep {
            let ghost prev = views_of(imgs@);
            imgs.push(c.path.clone());
            assert(views_of(imgs@) =~= prev.push(c.path@));
        }
        i = i + 1;
    }
    assert(cv.take(cv.len() as int) =~= cv);
    if imgs.len() == 0 {
        return Err(concat2("目录里没有图片（支持 jpg/jpeg/png/webp/bmp/gif）：", dir));
    }
    Ok(sort_strings(&imgs))
}

} // verus!
