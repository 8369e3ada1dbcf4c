//! The occupancy grid as files: PGM images with YAML metadata, and PNG images.
//!
//! The functions here work on the contents of the files.
use crate::fixed::Fixed;
use crate::grid::{
    bumped, dims_of, probability, rendered, shade_of, Cells, GridMap, GridMapParams,
};
use crate::cell_map::Cell;
use crate::scalar::{le, lt, whole, Scalar};
use crate::text::{
    chars_of, count_in, decimal, law_decimal_reads_back, push_decimal, read_count, same_text,
    split_words, texts, trim, trimmed, words, TextNumber,
};
use vstd::prelude::*;
use vstd::string::StringExecFns;

verus! {

/// The bytes of a text of ASCII characters.
pub open spec fn ascii(s: Seq<char>) -> Seq<u8> {
    Seq::new(s.len(), |i: int| (s[i] as u32) as u8)
}

fn push_ascii(out: &mut Vec<u8>, s: &str)
    ensures
        final(out)@ == old(out)@ + ascii(s@),
{
    let cs: Vec<char> = chars_of(s);
    let mut i: usize = 0;
    assert(old(out)@ =~= old(out)@ + ascii(s@).take(0));
    while i < cs.len()
        invariant
            i <= cs@.len(),
            cs@ == s@,
            out@ == old(out)@ + ascii(s@).take(i as int),
        decreases cs@.len() - i,
    {
        out.push(byte_of(cs[i]));
        i = i + 1;
        assert(out@ =~= old(out)@ + ascii(s@).take(i as int));
    }
    assert(ascii(s@).take(i as int) =~= ascii(s@));
}

fn byte_of(c: char) -> (r: u8)
    ensures
        r == (c as u32) as u8,
{
    (c as u32) as u8
}

/// The head of a PGM file.
pub open spec fn pgm_head(w: nat, h: nat) -> Seq<char> {
    "P5\n"@ + decimal(w) + " "@ + decimal(h) + "\n255\n"@
}

/// The contents of a PGM file.
pub open spec fn pgm_file(w: nat, h: nat, pixels: Seq<u8>) -> Seq<u8> {
    ascii(pgm_head(w, h)) + pixels
}

/// Where the first line of bytes ends.
pub open spec fn line_end(b: Seq<u8>) -> nat
    decreases b.len(),
{
    if b.len() == 0 || b[0] == 10 {
        0
    } else {
        1 + line_end(b.drop_first())
    }
}

/// The first line of bytes.
pub open spec fn first_line(b: Seq<u8>) -> Seq<u8> {
    b.take(line_end(b) as int)
}

/// What follows the first line of bytes.
pub open spec fn other_lines(b: Seq<u8>) -> Seq<u8> {
    if line_end(b) < b.len() {
        b.skip(line_end(b) as int + 1)
    } else {
        Seq::empty()
    }
}

/// The text that bytes stand for when what is no UTF-8 is replaced.
pub uninterp spec fn lossy_text(bytes: Seq<u8>) -> Seq<char>;

/// The bytes are all ASCII.
pub open spec fn all_ascii(bytes: Seq<u8>) -> bool {
    forall|i: int| 0 <= i < bytes.len() ==> #[trigger] bytes[i] < 128
}

/// The characters of bytes that are all ASCII.
pub open spec fn ascii_text(bytes: Seq<u8>) -> Seq<char> {
    Seq::new(bytes.len(), |i: int| bytes[i] as char)
}

/// ASCII bytes stand for the characters with their numbers.
pub open spec fn plain(bytes: Seq<u8>) -> bool {
    all_ascii(bytes) ==> lossy_text(bytes) == ascii_text(bytes)
}

/// Calls `String::from_utf8_lossy`: the text depends on the bytes alone, and ASCII
/// bytes stand for the characters with their numbers.
#[verifier::external_body]
fn decode(bytes: &[u8]) -> (r: String)
    ensures
        r@ == lossy_text(bytes@),
        all_ascii(bytes@) ==> r@ == ascii_text(bytes@),
{
    String::from_utf8_lossy(bytes).into_owned()
}

/// Why a PGM file cannot be loaded.
#[derive(Debug)]
pub enum PgmError {
    /// The file does not start as a PGM file does; with its first line.
    NotPgm(String),
    /// The size is missing or zero.
    BadDims,
    /// There are fewer pixels than the size asks for.
    TooShort,
}

impl PgmError {
    /// The reason in words.
    pub open spec fn words(self) -> Seq<char> {
        match self {
            PgmError::NotPgm(magic) => "not a P5 PGM: "@ + magic@,
            PgmError::BadDims => "bad PGM dims"@,
            PgmError::TooShort => "PGM pixel data too short"@,
        }
    }

    /// Says the reason in words.
    pub fn message(&self) -> (r: String)
        ensures
            r@ == self.words(),
    {
        match self {
            PgmError::NotPgm(magic) => {
                let mut s: String = "not a P5 PGM: ".to_owned();
                s.append(magic.as_str());
                s
            },
            PgmError::BadDims => "bad PGM dims".to_owned(),
            PgmError::TooShort => "PGM pixel data too short".to_owned(),
        }
    }
}

/// The number that word `i` of a text stands for, zero if there is none.
pub open spec fn size_at(ws: Seq<Seq<char>>, i: int) -> nat {
    if i < ws.len() {
        match count_in(ws[i], usize::MAX as nat) {
            Some(n) => n,
            None => 0,
        }
    } else {
        0
    }
}

/// The largest pixel value that a text stands for.
pub open spec fn max_value(s: Seq<char>) -> nat {
    match count_in(trimmed(s), 65535) {
        Some(n) => n,
        None => 255,
    }
}

/// The parameters of a grid of `w` by `h` cells with a corner at `ox`, `oy`.
pub open spec fn pgm_params<S: Scalar>(w: nat, h: nat, res: S, ox: S, oy: S) -> GridMapParams<S> {
    GridMapParams {
        resolution: res,
        min_x: ox,
        min_y: oy,
        max_x: ox.plus_spec(whole::<S>(w as int).times_spec(res)),
        max_y: oy.plus_spec(whole::<S>(h as int).times_spec(res)),
        free_log_odds: S::ratio_spec(1, 5),
        occ_log_odds: S::ratio_spec(3, 5),
        ray_step: S::ratio_spec(1, 20),
        saturate: S::ratio_spec(4, 1),
        size: Some((w as i64, h as i64)),
    }
}

/// A pixel is dark, on a scale up to `maxv`.
pub open spec fn is_dark<S: Scalar>(v: u8, maxv: nat) -> bool {
    let level = if maxv == 255 {
        whole::<S>(v as int)
    } else {
        whole::<S>(v as int).times_spec(whole::<S>(255)).over_spec(whole::<S>(maxv as int))
    };
    le(level, whole::<S>(40))
}

/// The cells after the first `r` rows of cells and the first `c` of the row after
/// them: those of dark pixels are occupied. The first row of pixels is the last
/// row of cells.
pub open spec fn darkened<S: Scalar>(
    p: GridMapParams<S>,
    data: Seq<u8>,
    w: nat,
    h: nat,
    maxv: nat,
    r: nat,
    c: nat,
) -> Cells<S>
    decreases r, c,
{
    if c > 0 {
        let m = darkened(p, data, w, h, maxv, r, (c - 1) as nat);
        if is_dark::<S>(data[(h - 1 - r) * w + (c - 1)], maxv) {
            bumped(p, m, (c - 1) as i64, r as i64, p.occ_log_odds)
        } else {
            m
        }
    } else if r > 0 {
        darkened(p, data, w, h, maxv, (r - 1) as nat, w)
    } else {
        Map::empty()
    }
}

/// The bound of the log-odds that loaded grids have is one.
pub open spec fn default_bound_ok<S: Scalar>() -> bool {
    le(S::ratio_spec(4, 1).negate_spec(), S::ratio_spec(4, 1))
}

/// Builds a grid from the lines of a PGM file and its pixels. Dark pixels become
/// occupied cells; nothing is known of the others.
pub fn pgm_grid<S: Scalar>(
    magic: &str,
    dims: &str,
    maxval: &str,
    data: &[u8],
    resolution: S,
    origin_x: S,
    origin_y: S,
) -> (r: Result<GridMap<S>, PgmError>)
    requires
        default_bound_ok::<S>(),
    ensures
        ({
            let w = size_at(words(dims@), 0);
            let h = size_at(words(dims@), 1);
            let p = pgm_params(w, h, resolution, origin_x, origin_y);
            if trimmed(magic@) != "P5"@ {
                r matches Err(PgmError::NotPgm(s)) && s@ == magic@
            } else if w == 0 || h == 0 {
                r matches Err(PgmError::BadDims)
            } else if data@.len() < w * h {
                r matches Err(PgmError::TooShort)
            } else {
                r matches Ok(g) && g.wf() && g.params == p && g.cells@ == darkened(
                    p,
                    data@,
                    w,
                    h,
                    max_value(maxval@),
                    h,
                    0,
                )
            }
        }),
{
    if !same_text(trim(chars_of(magic).as_slice()).as_slice(), "P5") {
        return Err(PgmError::NotPgm(magic.to_owned()));
    }
    let ws: Vec<Vec<char>> = split_words(chars_of(dims).as_slice());
    let w: usize = read_size(&ws, 0);
    let h: usize = read_size(&ws, 1);
    if w == 0 || h == 0 {
        return Err(PgmError::BadDims);
    }
    let maxv: u64 = match read_count(trim(chars_of(maxval).as_slice()).as_slice(), 65535) {
        Some(n) => n,
        None => 255,
    };
    let len: usize = data.len();
    match w.checked_mul(h) {
        Some(n) => {
            if len < n {
                return Err(PgmError::TooShort);
            }
        },
        None => {
            return Err(PgmError::TooShort);
        },
    }
    let params: GridMapParams<S> = GridMapParams {
        resolution,
        min_x: origin_x,
        min_y: origin_y,
        max_x: origin_x.plus(S::count(w as u64).times(resolution)),
        max_y: origin_y.plus(S::count(h as u64).times(resolution)),
        free_log_odds: S::ratio(1, 5),
        occ_log_odds: S::ratio(3, 5),
        ray_step: S::ratio(1, 20),
        saturate: S::ratio(4, 1),
        size: Some((w as i64, h as i64)),
    };
    let mut g: GridMap<S> = GridMap::new(params);
    assert(g.cells@ =~= Map::<Cell, S>::empty());
    let mut r: usize = 0;
    while r < h
        invariant
            r <= h,
            w > 0,
            len == data@.len(),
            w * h <= len,
            g.wf(),
            g.params == params,
            g.cells@ == darkened(params, data@, w as nat, h as nat, maxv as nat, r as nat, 0),
        decreases h - r,
    {
        let mut c: usize = 0;
        while c < w
            invariant
                r < h,
                c <= w,
                len == data@.len(),
                w * h <= len,
                g.wf(),
                g.params == params,
                g.cells@ == darkened(
                    params,
                    data@,
                    w as nat,
                    h as nat,
                    maxv as nat,
                    r as nat,
                    c as nat,
                ),
            decreases w - c,
        {
            let src: usize = h - 1 - r;
            proof {
                assert(src * w + c < w * h) by (nonlinear_arith)
                    requires
                        src < h,
                        c < w,
                ;
                assert(0 <= src * w) by (nonlinear_arith);
            }
            let v: S = S::count(data[src * w + c] as u64);
            let level: S = if maxv == 255 {
                v
            } else {
                v.times(S::ratio(255, 1)).over(S::count(maxv))
            };
            if level.at_most(S::ratio(40, 1)) {
                let delta: S = g.params.occ_log_odds;
                g.apply_delta(c as i64, r as i64, delta);
            }
            c = c + 1;
        }
        r = r + 1;
    }
    Ok(g)
}

fn read_size(ws: &Vec<Vec<char>>, i: usize) -> (r: usize)
    ensures
        r == size_at(texts(ws@), i as int),
{
    if i < ws.len() {
        match read_count(ws[i].as_slice(), usize::MAX as u64) {
            Some(n) => n as usize,
            None => 0,
        }
    } else {
        0
    }
}

/// The first line of bytes, and what follows it.
fn cut_line(b: &[u8], from: usize) -> (r: (usize, usize))
    requires
        from <= b@.len(),
    ensures
        from <= r.0 <= b@.len(),
        r.0 <= r.1 <= b@.len(),
        b@.subrange(from as int, r.0 as int) == first_line(b@.skip(from as int)),
        b@.skip(r.1 as int) == other_lines(b@.skip(from as int)),
{
    let n: usize = b.len();
    let ghost rest = b@.skip(from as int);
    let mut i: usize = from;
    while i < n && b[i] != 10
        invariant
            from <= i <= n == b@.len(),
            rest == b@.skip(from as int),
            line_end(rest) == (i - from) + line_end(b@.skip(i as int)),
        decreases n - i,
    {
        assert(b@.skip(i as int).drop_first() =~= b@.skip(i + 1));
        i = i + 1;
    }
    assert(line_end(rest) == i - from);
    assert(b@.subrange(from as int, i as int) =~= rest.take(i - from));
    if i < n {
        assert(b@.skip(i + 1) =~= rest.skip(i - from + 1));
        (i, i + 1)
    } else {
        assert(b@.skip(n as int) =~= Seq::<u8>::empty());
        (n, n)
    }
}

fn bytes_part(b: &[u8], from: usize, to: usize) -> (r: Vec<u8>)
    requires
        from <= to <= b@.len(),
    ensures
        r@ == b@.subrange(from as int, to as int),
{
    let mut r: Vec<u8> = Vec::new();
    let mut i: usize = from;
    while i < to
        invariant
            from <= i <= to <= b@.len(),
            r@ == b@.subrange(from as int, i as int),
        decreases to - i,
    {
        r.push(b[i]);
        i = i + 1;
        assert(r@ =~= b@.subrange(from as int, i as int));
    }
    r
}

/// The parameters that loading a PGM file depends on, as texts and pixels.
pub open spec fn pgm_lines(b: Seq<u8>) -> (Seq<u8>, Seq<u8>, Seq<u8>, Seq<u8>) {
    let one = other_lines(b);
    let two = other_lines(one);
    (first_line(b), first_line(one), first_line(two), other_lines(two))
}

impl<S: Scalar> GridMap<S> {
    /// The grid as a PGM file.
    pub fn save_pgm(&self) -> (r: Vec<u8>)
        requires
            self.wf(),
            self.params.ncols() <= usize::MAX,
            self.params.nrows() <= usize::MAX,
            dims_of(self.params).0 * dims_of(self.params).1 <= usize::MAX,
        ensures
            r@ == pgm_file(
                dims_of(self.params).0 as nat,
                dims_of(self.params).1 as nat,
                rendered(self.params, self.cells@),
            ),
    {
        let (w, h, data) = self.to_grayscale();
        let mut head: String = String::new();
        head.append("P5\n");
        push_decimal(&mut head, w as u64);
        head.append(" ");
        push_decimal(&mut head, h as u64);
        head.append("\n255\n");
        assert(head@ =~= pgm_head(w as nat, h as nat));
        let mut out: Vec<u8> = Vec::new();
        push_ascii(&mut out, head.as_str());
        let ghost start = out@;
        assert(start =~= ascii(pgm_head(w as nat, h as nat)));
        let mut i: usize = 0;
        while i < data.len()
            invariant
                i <= data@.len(),
                out@ == start + data@.take(i as int),
            decreases data@.len() - i,
        {
            out.push(data[i]);
            i = i + 1;
            assert(out@ =~= start + data@.take(i as int));
        }
        assert(data@.take(i as int) =~= data@);
        out
    }

    /// A grid from a PGM file, of which `resolution` and the corner are known.
    pub fn load_pgm(bytes: &[u8], resolution: S, origin_x: S, origin_y: S) -> (r: Result<
        GridMap<S>,
        PgmError,
    >)
        requires
            default_bound_ok::<S>(),
        ensures
            ({
                let l = pgm_lines(bytes@);
                plain(l.0) && plain(l.1) && plain(l.2)
            }),
            ({
                let l = pgm_lines(bytes@);
                let dims = words(lossy_text(l.1));
                let w = size_at(dims, 0);
                let h = size_at(dims, 1);
                let p = pgm_params(w, h, resolution, origin_x, origin_y);
                if trimmed(lossy_text(l.0)) != "P5"@ {
                    r matches Err(PgmError::NotPgm(s)) && s@ == lossy_text(l.0)
                } else if w == 0 || h == 0 {
                    r matches Err(PgmError::BadDims)
                } else if l.3.len() < w * h {
                    r matches Err(PgmError::TooShort)
                } else {
                    r matches Ok(g) && g.wf() && g.params == p && g.cells@ == darkened(
                        p,
                        l.3,
                        w,
                        h,
                        max_value(lossy_text(l.2)),
                        h,
                        0,
                    )
                }
            }),
    {
        assert(bytes@.skip(0) =~= bytes@);
        let (a, one) = cut_line(bytes, 0);
        let (b, two) = cut_line(bytes, one);
        let (c, three) = cut_line(bytes, two);
        let magic: String = decode(bytes_part(bytes, 0, a).as_slice());
        let dims: String = decode(bytes_part(bytes, one, b).as_slice());
        let maxval: String = decode(bytes_part(bytes, two, c).as_slice());
        let data: Vec<u8> = bytes_part(bytes, three, bytes.len());
        assert(data@ =~= bytes@.skip(three as int));
        pgm_grid(
            magic.as_str(),
            dims.as_str(),
            maxval.as_str(),
            data.as_slice(),
            resolution,
            origin_x,
            origin_y,
        )
    }
}

/// Calls `image::GrayImage::from_raw` and takes the pixels back with `into_raw`:
/// there is an image just if the pixels are at least as many as its size asks for, and
/// it holds the pixels as they are.
#[verifier::external_body]
fn gray_image(w: u32, h: u32, pixels: Vec<u8>) -> (r: Option<Vec<u8>>)
    ensures
        r is Some == (w * h <= pixels@.len()),
        r is Some ==> r->0@ == pixels@,
{
    image::GrayImage::from_raw(w, h, pixels).map(|img| img.into_raw())
}

/// A grey image.
#[derive(Debug)]
pub struct GrayPixels {
    pub width: u32,
    pub height: u32,
    pub pixels: Vec<u8>,
}

/// The number modulo the range of the width of an image.
pub open spec fn image_size(n: usize) -> u32 {
    n as u32
}

/// The metadata of a grid.
pub open spec fn yaml_text<S: TextNumber>(p: GridMapParams<S>, image_file: Seq<char>) -> Seq<char> {
    "image: "@ + image_file + "\nresolution: "@ + p.resolution.shown_spec() + "\norigin: ["@
        + p.min_x.shown_spec() + ", "@ + p.min_y.shown_spec()
        + ", 0.0]\noccupied_thresh: 0.65\nfree_thresh: 0.25\nnegate: 0\n"@
}

impl<S: Scalar> GridMap<S> {
    /// The grid as a grey image to be written as PNG, or the reason why it cannot
    /// be one.
    pub fn save_png(&self) -> (r: Result<GrayPixels, String>)
        requires
            self.wf(),
            self.params.ncols() <= usize::MAX,
            self.params.nrows() <= usize::MAX,
            dims_of(self.params).0 * dims_of(self.params).1 <= usize::MAX,
        ensures
            ({
                let w = image_size(dims_of(self.params).0);
                let h = image_size(dims_of(self.params).1);
                let pixels = rendered(self.params, self.cells@);
                if w * h <= pixels.len() {
                    r matches Ok(g) && g.width == w && g.height == h && g.pixels@ == pixels
                } else {
                    r matches Err(e) && e@ == "grid size overflow"@
                }
            }),
    {
        let (w, h, data) = self.to_grayscale();
        let width: u32 = w as u32;
        let height: u32 = h as u32;
        match gray_image(width, height, data) {
            Some(pixels) => Ok(GrayPixels { width, height, pixels }),
            None => Err("grid size overflow".to_owned()),
        }
    }
}

impl<S: TextNumber> GridMap<S> {
    /// The metadata of the grid for a map server.
    pub fn save_yaml(&self, image_file: &str) -> (r: String)
        ensures
            r@ == yaml_text(self.params, image_file@),
    {
        let mut s: String = String::new();
        s.append("image: ");
        s.append(image_file);
        s.append("\nresolution: ");
        self.params.resolution.show(&mut s);
        s.append("\norigin: [");
        self.params.min_x.show(&mut s);
        s.append(", ");
        self.params.min_y.show(&mut s);
        s.append(", 0.0]\noccupied_thresh: 0.65\nfree_thresh: 0.25\nnegate: 0\n");
        assert(s@ =~= yaml_text(self.params, image_file@));
        s
    }
}

/// The end of the first line is where the first line break is.
proof fn lemma_line_end(b: Seq<u8>, k: int)
    requires
        0 <= k < b.len(),
        b[k] == 10,
        forall|i: int| 0 <= i < k ==> #[trigger] b[i] != 10,
    ensures
        line_end(b) == k,
    decreases k,
{
    if k > 0 {
        let t = b.drop_first();
        assert(b[0] != 10);
        assert forall|i: int| 0 <= i < k - 1 implies #[trigger] t[i] != 10 by {
            assert(t[i] == b[i + 1]);
        }
        lemma_line_end(t, k - 1);
    }
}

/// A line break after a text without one ends the first line.
proof fn lemma_cut(text: Seq<u8>, rest: Seq<u8>)
    requires
        forall|i: int| 0 <= i < text.len() ==> #[trigger] text[i] != 10,
    ensures
        first_line(text + seq![10u8] + rest) == text,
        other_lines(text + seq![10u8] + rest) == rest,
{
    let b = text + seq![10u8] + rest;
    assert forall|i: int| 0 <= i < text.len() implies #[trigger] b[i] != 10 by {
        assert(b[i] == text[i]);
    }
    lemma_line_end(b, text.len() as int);
    assert(b.take(text.len() as int) =~= text);
    assert(b.skip(text.len() as int + 1) =~= rest);
}

/// A text of digits and spaces as bytes and back.
proof fn lemma_ascii_back(s: Seq<char>)
    requires
        forall|i: int| 0 <= i < s.len() ==> 11 <= #[trigger] s[i] as int && (s[i] as int) < 128,
    ensures
        all_ascii(ascii(s)),
        ascii_text(ascii(s)) == s,
        forall|i: int| 0 <= i < ascii(s).len() ==> #[trigger] ascii(s)[i] != 10,
{
    let b = ascii(s);
    assert forall|i: int| 0 <= i < b.len() implies #[trigger] b[i] < 128 && b[i] != 10 && b[i] as int
        == s[i] as int by {
        let u = s[i] as u32;
        assert(u < 128 ==> (u as u8) as u32 == u) by (bit_vector);
    }
    assert forall|i: int| 0 <= i < s.len() implies #[trigger] ascii_text(b)[i] == s[i] by {
        assert(b[i] as int == s[i] as int);
    }
    assert(ascii_text(b) =~= s);
}

/// A number in decimal holds digits only.
proof fn lemma_decimal_plain(n: nat)
    ensures
        forall|i: int|
            0 <= i < decimal(n).len() ==> 48 <= #[trigger] decimal(n)[i] as int && (decimal(
                n,
            )[i] as int) <= 57,
{
    law_decimal_reads_back(n);
    let s = decimal(n);
    assert forall|i: int| 0 <= i < s.len() implies 48 <= #[trigger] s[i] as int && (s[i] as int)
        <= 57 by {
        assert(crate::text::digit_value(s[i]) is Some);
    }
}

/// Words after a place where none is open.
proof fn lemma_word_after(p: Seq<char>, t: Seq<char>)
    requires
        p.len() == 0 || crate::text::is_space(p.last()),
        t.len() > 0,
        forall|i: int| 0 <= i < t.len() ==> !crate::text::is_space(#[trigger] t[i]),
    ensures
        words(p + t) == words(p).push(t),
    decreases t.len(),
{
    let s = p + t;
    let short = t.drop_last();
    assert(s.drop_last() =~= p + short);
    assert(s.last() == t.last());
    assert(!crate::text::is_space(t[t.len() - 1]));
    if short.len() > 0 {
        assert forall|i: int| 0 <= i < short.len() implies !crate::text::is_space(
            #[trigger] short[i],
        ) by {
            assert(short[i] == t[i]);
        }
        lemma_word_after(p, short);
        assert(s[s.len() - 2] == t[t.len() - 2]);
        assert(words(p).push(short).drop_last() =~= words(p));
        assert(short.push(t.last()) =~= t);
    } else {
        assert(s.drop_last() =~= p);
        assert(seq![t.last()] =~= t);
        if p.len() > 0 {
            assert(s[s.len() - 2] == p.last());
        }
    }
}

/// A text without white space at its ends is not trimmed.
proof fn lemma_trim_nothing(s: Seq<char>)
    requires
        s.len() > 0,
        !crate::text::is_space(s[0]),
        !crate::text::is_space(s.last()),
    ensures
        trimmed(s) == s,
{
}

proof fn lemma_ascii_sum(a: Seq<char>, b: Seq<char>)
    ensures
        ascii(a + b) == ascii(a) + ascii(b),
{
    assert(ascii(a + b) =~= ascii(a) + ascii(b));
}

/// A PGM file that was written reads back: its lines are ASCII, and they and the
/// bytes after them give the size, the scale and the pixels that it was written
/// for.
pub proof fn law_pgm_reads_back(w: nat, h: nat, pixels: Seq<u8>)
    requires
        0 < w <= usize::MAX,
        0 < h <= usize::MAX,
    ensures
        ({
            let l = pgm_lines(pgm_file(w, h, pixels));
            &&& all_ascii(l.0) && all_ascii(l.1) && all_ascii(l.2)
            &&& trimmed(ascii_text(l.0)) == "P5"@
            &&& size_at(words(ascii_text(l.1)), 0) == w
            &&& size_at(words(ascii_text(l.1)), 1) == h
            &&& max_value(ascii_text(l.2)) == 255
            &&& l.3 == pixels
        }),
{
    reveal_strlit("P5\n");
    reveal_strlit(" ");
    reveal_strlit("\n255\n");
    reveal_strlit("P5");
    let p5 = "P5"@;
    let a = decimal(w);
    let b = decimal(h);
    let dims = a + " "@ + b;
    let most = decimal(255);
    law_decimal_reads_back(w);
    law_decimal_reads_back(h);
    law_decimal_reads_back(255);
    lemma_decimal_plain(w);
    lemma_decimal_plain(h);
    lemma_decimal_plain(255);
    reveal_with_fuel(decimal, 4);
    let br = seq!['\n'];
    assert(pgm_head(w, h) =~= p5 + br + (dims + br + (most + br)));
    assert(ascii(br) =~= seq![10u8]) by {
        assert(('\n' as u32) as u8 == 10u8) by {
            assert((10u32) as u8 == 10u8) by (bit_vector);
        }
    }
    lemma_ascii_sum(p5 + br, dims + br + (most + br));
    lemma_ascii_sum(p5, br);
    lemma_ascii_sum(dims + br, most + br);
    lemma_ascii_sum(dims, br);
    lemma_ascii_sum(most, br);
    lemma_ascii_back(p5);
    lemma_ascii_back(most);
    assert forall|i: int| 0 <= i < dims.len() implies 11 <= #[trigger] dims[i] as int && (
    dims[i] as int) < 128 by {
        if i < a.len() {
            assert(dims[i] == a[i]);
        } else if i > a.len() {
            assert(dims[i] == b[i - a.len() - 1]);
        }
    }
    lemma_ascii_back(dims);
    let two = ascii(most) + seq![10u8] + pixels;
    let one = ascii(dims) + seq![10u8] + two;
    assert(pgm_file(w, h, pixels) =~= ascii(p5) + seq![10u8] + one);
    lemma_cut(ascii(p5), one);
    lemma_cut(ascii(dims), two);
    lemma_cut(ascii(most), pixels);
    lemma_trim_nothing(p5);
    lemma_trim_nothing(most);
    let l = pgm_lines(pgm_file(w, h, pixels));
    assert(l.0 == ascii(p5));
    assert(l.1 == ascii(dims));
    assert(l.2 == ascii(most));
    assert forall|i: int| 0 <= i < a.len() implies !crate::text::is_space(#[trigger] a[i]) by {}
    assert forall|i: int| 0 <= i < b.len() implies !crate::text::is_space(#[trigger] b[i]) by {}
    let none = Seq::<char>::empty();
    lemma_word_after(none, a);
    assert(none + a =~= a);
    assert((a + " "@).drop_last() =~= a);
    assert(words(a + " "@) == words(a));
    lemma_word_after(a + " "@, b);
    assert(words(dims) =~= seq![a, b]);
    assert(count_in(a, usize::MAX as nat) == Some(w));
    assert(count_in(b, usize::MAX as nat) == Some(h));
    assert(count_in(most, 65535) == Some(255nat));
}

/// Pixel `a` of row `b` counted from the last is dark.
pub open spec fn dark_cell<S: Scalar>(
    data: Seq<u8>,
    w: nat,
    h: nat,
    maxv: nat,
    a: i64,
    b: i64,
) -> bool {
    0 <= a < w && 0 <= b < h && is_dark::<S>(data[(h - 1 - b) * w + a], maxv)
}

proof fn lemma_darkened<S: Scalar>(
    p: GridMapParams<S>,
    data: Seq<u8>,
    w: nat,
    h: nat,
    maxv: nat,
    r: nat,
    c: nat,
)
    requires
        w <= i64::MAX,
        h <= i64::MAX,
        c <= w,
        r < h || r == h && c == 0,
    ensures
        forall|a: i64, b: i64| #[trigger]
            darkened(p, data, w, h, maxv, r, c).contains_key((a, b, 0)) <==> dark_cell::<S>(
                data,
                w,
                h,
                maxv,
                a,
                b,
            ) && p.covers(a, b) && (b < r || b == r && a < c),
    decreases r, c,
{
    let m = darkened(p, data, w, h, maxv, r, c);
    if c > 0 {
        lemma_darkened(p, data, w, h, maxv, r, (c - 1) as nat);
        let before = darkened(p, data, w, h, maxv, r, (c - 1) as nat);
        let k = (c - 1) as i64;
        let j = r as i64;
        assert forall|a: i64, b: i64| #[trigger]
            m.contains_key((a, b, 0)) <==> dark_cell::<S>(data, w, h, maxv, a, b) && p.covers(a, b)
                && (b < r || b == r && a < c) by {
            let known = before.contains_key((a, b, 0));
            if a == k && b == j {
                assert(data[(h - 1 - b) * w + a] == data[(h - 1 - r) * w + (c - 1)]);
            }
        }
    } else if r > 0 {
        lemma_darkened(p, data, w, h, maxv, (r - 1) as nat, w);
        let before = darkened(p, data, w, h, maxv, (r - 1) as nat, w);
        assert forall|a: i64, b: i64| #[trigger]
            m.contains_key((a, b, 0)) <==> dark_cell::<S>(data, w, h, maxv, a, b) && p.covers(a, b)
                && (b < r || b == r && a < c) by {
            let known = before.contains_key((a, b, 0));
            assert(known == m.contains_key((a, b, 0)));
        }
    }
}

/// A loaded grid has the size of the image, and the cells that something is known of
/// are those of the dark pixels.
pub proof fn law_loaded_cells_are_dark<S: Scalar>(
    data: Seq<u8>,
    w: nat,
    h: nat,
    maxv: nat,
    res: S,
    ox: S,
    oy: S,
    a: i64,
    b: i64,
)
    requires
        0 < w <= i64::MAX,
        0 < h <= i64::MAX,
        w <= usize::MAX,
        h <= usize::MAX,
    ensures
        ({
            let p = pgm_params(w, h, res, ox, oy);
            &&& dims_of(p) == (w as usize, h as usize)
            &&& darkened(p, data, w, h, maxv, h, 0).contains_key((a, b, 0)) <==> dark_cell::<S>(
                data,
                w,
                h,
                maxv,
                a,
                b,
            )
        }),
{
    lemma_darkened(pgm_params(w, h, res, ox, oy), data, w, h, maxv, h, 0);
}

/// Whole grey levels keep their order as numbers.
pub open spec fn levels_in_order<S: Scalar>() -> bool {
    forall|a: int, b: int|
        0 <= a < b <= 255 ==> lt(#[trigger] whole::<S>(a), #[trigger] whole::<S>(b))
}

/// Fixed-point numbers keep the order of grey levels.
pub proof fn law_fixed_levels_in_order()
    ensures
        levels_in_order::<Fixed>(),
        lt(Fixed::ratio_spec(2, 5), Fixed::ratio_spec(3, 5)),
{
}

/// The place of a cell in the image of a grid, its first row being the last of the cells.
pub open spec fn place_of<S: Scalar>(p: GridMapParams<S>, col: int, row: int) -> int {
    (dims_of(p).1 - 1 - row) * dims_of(p).0 + col
}

proof fn lemma_place<S: Scalar>(p: GridMapParams<S>, m: Cells<S>, col: i64, row: i64)
    requires
        0 <= col < dims_of(p).0,
        0 <= row < dims_of(p).1,
    ensures
        0 <= place_of(p, col as int, row as int) < dims_of(p).0 * dims_of(p).1,
        rendered(p, m)[place_of(p, col as int, row as int)] == shade_of(m, col, row),
{
    let w = dims_of(p).0 as int;
    let h = dims_of(p).1 as int;
    let up = h - 1 - row;
    let k = up * w + col;
    assert(0 <= k < w * h && k / w == up && k % w == col) by (nonlinear_arith)
        requires
            k == up * w + col,
            0 <= col < w,
            0 <= up < h,
    ;
}

/// The image of a grid shows its cells: a pixel is black just for an observed cell that is
/// occupied with a probability of at least three fifths, white just for an observed cell
/// that is so with at most two fifths, and grey for all others, those never observed among
/// them.
pub proof fn law_image_shows_cells<S: Scalar>(
    p: GridMapParams<S>,
    m: Cells<S>,
    col: i64,
    row: i64,
)
    requires
        0 <= col < dims_of(p).0,
        0 <= row < dims_of(p).1,
        lt(S::ratio_spec(2, 5), S::ratio_spec(3, 5)),
    ensures
        ({
            let seen = m.contains_key((col, row, 0));
            let p_occupied = probability(m[(col, row, 0)]);
            let grey = rendered(p, m)[place_of(p, col as int, row as int)];
            &&& grey == 0 <==> seen && le(S::ratio_spec(3, 5), p_occupied)
            &&& grey == 255 <==> seen && le(p_occupied, S::ratio_spec(2, 5))
            &&& grey == 0 || grey == 255 || grey == 127
        }),
{
    lemma_place(p, m, col, row);
}

/// A grid that was saved as an image and loaded knows of just those cells that were
/// occupied with a probability of at least three fifths, and takes them for occupied: a
/// cell that was free, or of which nothing was known, is not among them.
pub proof fn law_saved_cells_load_back<S: Scalar>(
    p: GridMapParams<S>,
    m: Cells<S>,
    res: S,
    ox: S,
    oy: S,
    col: i64,
    row: i64,
)
    requires
        0 <= col < dims_of(p).0,
        0 <= row < dims_of(p).1,
        dims_of(p).0 <= i64::MAX,
        dims_of(p).1 <= i64::MAX,
        levels_in_order::<S>(),
    ensures
        ({
            let w = dims_of(p).0 as nat;
            let h = dims_of(p).1 as nat;
            let loaded = darkened(pgm_params(w, h, res, ox, oy), rendered(p, m), w, h, 255, h, 0);
            loaded.contains_key((col, row, 0)) <==> m.contains_key((col, row, 0)) && le(
                S::ratio_spec(3, 5),
                probability(m[(col, row, 0)]),
            )
        }),
{
    let w = dims_of(p).0 as nat;
    let h = dims_of(p).1 as nat;
    let q = pgm_params(w, h, res, ox, oy);
    lemma_place(p, m, col, row);
    lemma_darkened(q, rendered(p, m), w, h, 255, h, 0);
    let dark = dark_cell::<S>(rendered(p, m), w, h, 255, col, row);
    assert(q.covers(col, row));
    assert(lt(whole::<S>(0), whole::<S>(40)));
    assert(lt(whole::<S>(40), whole::<S>(127)));
    assert(lt(whole::<S>(40), whole::<S>(255)));
    let loaded = darkened(q, rendered(p, m), w, h, 255, h, 0);
    assert(loaded.contains_key((col, row, 0)) <==> dark);
}

} // verus!
