use vstd::prelude::*;

use crate::decimal::dec;
use crate::decimal::decimal_at;
use crate::decimal::is_digit;
use crate::decimal::lemma_dec_shape;
use crate::decimal::lemma_dec_value;
use crate::decimal::parse_decimal;
use crate::decimal::push_decimal;
use vstd::seq_lib::lemma_concat_associative;

verus! {

/// One pixel of the output image: red, green and blue channels in `0..=255`.
#[derive(Clone, Copy, Debug, PartialEq, Eq, Structural)]
pub struct Rgb {
    pub r: u8,
    pub g: u8,
    pub b: u8,
}

/// An image of `width` by `height` pixels, stored row by row from the top
/// scanline down, left to right within a row.
pub struct Image {
    pub width: usize,
    pub height: usize,
    pub pixels: Vec<Rgb>,
}

/// A width, a height and a pixel sequence that describe an image that fits in
/// memory: one pixel for each place of the grid.
pub open spec fn image_shape(width: nat, height: nat, pixels: Seq<Rgb>) -> bool {
    &&& width <= usize::MAX
    &&& height <= usize::MAX
    &&& pixels.len() == width * height
}

/// `t` stands in `s` from `pos` on.
pub open spec fn starts_with(s: Seq<u8>, pos: int, t: Seq<u8>) -> bool {
    &&& 0 <= pos
    &&& pos + t.len() <= s.len()
    &&& s.subrange(pos, pos + t.len()) == t
}

/// The header: the marker `P3`, then `"<width> <height>"`, then the largest
/// channel value `255`, each on a line of its own.
pub open spec fn header_text(width: nat, height: nat) -> Seq<u8> {
    seq![80u8, 51u8, 10u8] + dec(width) + seq![32u8] + dec(height) + seq![10u8, 50u8, 53u8, 53u8, 10u8]
}

/// One pixel's line: `"R G B"` in decimal, then a line break.
pub open spec fn pixel_text(p: Rgb) -> Seq<u8> {
    dec(p.r as nat) + seq![32u8] + dec(p.g as nat) + seq![32u8] + dec(p.b as nat) + seq![10u8]
}

/// The lines of a sequence of pixels, in order.
pub open spec fn pixels_text(px: Seq<Rgb>) -> Seq<u8>
    decreases px.len(),
{
    if px.len() == 0 {
        Seq::empty()
    } else {
        pixel_text(px[0]) + pixels_text(px.drop_first())
    }
}

/// The whole text of an image: the header, then one line per pixel.
pub open spec fn ppm_text(width: nat, height: nat, pixels: Seq<Rgb>) -> Seq<u8> {
    header_text(width, height) + pixels_text(pixels)
}

/// The image whose text is `text`, if there is one.
pub open spec fn parse_ppm(text: Seq<u8>) -> Option<(nat, nat, Seq<Rgb>)> {
    if exists|w: nat, h: nat, px: Seq<Rgb>| image_shape(w, h, px) && ppm_text(w, h, px) == text {
        Some(
            choose|w: nat, h: nat, px: Seq<Rgb>|
                image_shape(w, h, px) && ppm_text(w, h, px) == text,
        )
    } else {
        None
    }
}

impl Image {
    /// One pixel for each place of the grid.
    pub open spec fn wf(&self) -> bool {
        self.pixels@.len() == self.width * self.height
    }

    /// The image as width, height and pixel sequence.
    pub open spec fn model(&self) -> (nat, nat, Seq<Rgb>) {
        (self.width as nat, self.height as nat, self.pixels@)
    }
}

// ---------------------------------------------------------------------------
// Lemmas on the text

proof fn lemma_starts_with_concat(s: Seq<u8>, pos: int, a: Seq<u8>, b: Seq<u8>)
    ensures
        starts_with(s, pos, a + b) <==> (starts_with(s, pos, a) && starts_with(
            s,
            pos + a.len(),
            b,
        )),
{
    if starts_with(s, pos, a + b) {
        assert(s.subrange(pos, pos + a.len()) =~= (a + b).take(a.len() as int));
        assert(s.subrange(pos + a.len(), pos + a.len() + b.len()) =~= (a + b).skip(
            a.len() as int,
        ));
        assert((a + b).take(a.len() as int) =~= a);
        assert((a + b).skip(a.len() as int) =~= b);
    }
    if starts_with(s, pos, a) && starts_with(s, pos + a.len(), b) {
        assert(s.subrange(pos, pos + a.len() + b.len()) =~= s.subrange(pos, pos + a.len())
            + s.subrange(pos + a.len(), pos + a.len() + b.len()));
    }
}

proof fn lemma_starts_with_byte(s: Seq<u8>, pos: int, c: u8)
    ensures
        starts_with(s, pos, seq![c]) <==> (0 <= pos < s.len() && s[pos] == c),
{
    if 0 <= pos < s.len() && s[pos] == c {
        assert(s.subrange(pos, pos + 1) =~= seq![c]);
    }
    if starts_with(s, pos, seq![c]) {
        assert(s.subrange(pos, pos + 1)[0] == s[pos]);
    }
}

proof fn lemma_starts_with_decimal(s: Seq<u8>, pos: int, v: nat, c: u8)
    requires
        !is_digit(c),
    ensures
        starts_with(s, pos, dec(v) + seq![c]) <==> (decimal_at(s, pos, v) && 0 <= pos + dec(
            v,
        ).len() < s.len() && s[pos + dec(v).len()] == c),
{
    lemma_starts_with_concat(s, pos, dec(v), seq![c]);
    lemma_starts_with_byte(s, pos + dec(v).len(), c);
}

/// Where a decimal number stands before a byte that is no digit, the number
/// and what follows are both determined.
proof fn lemma_dec_split(a: nat, b: nat, x: Seq<u8>, y: Seq<u8>)
    requires
        dec(a) + x == dec(b) + y,
        x.len() > 0 && !is_digit(x[0]),
        y.len() > 0 && !is_digit(y[0]),
    ensures
        a == b,
        x == y,
{
    lemma_dec_shape(a);
    lemma_dec_shape(b);
    let la = dec(a).len() as int;
    let lb = dec(b).len() as int;
    if la < lb {
        assert((dec(a) + x)[la] == x[0]);
        assert((dec(b) + y)[la] == dec(b)[la]);
        assert(is_digit(dec(b)[la]));
    } else if lb < la {
        assert((dec(b) + y)[lb] == y[0]);
        assert((dec(a) + x)[lb] == dec(a)[lb]);
        assert(is_digit(dec(a)[lb]));
    } else {
        assert(dec(a) =~= (dec(a) + x).take(la));
        assert(dec(b) =~= (dec(b) + y).take(la));
        assert(x =~= (dec(a) + x).skip(la));
        assert(y =~= (dec(b) + y).skip(la));
        lemma_dec_value(a);
        lemma_dec_value(b);
    }
}

proof fn lemma_pixel_text_nested(p: Rgb, x: Seq<u8>)
    ensures
        pixel_text(p) + x == dec(p.r as nat) + (seq![32u8] + (dec(p.g as nat) + (seq![32u8] + (
        dec(p.b as nat) + (seq![10u8] + x))))),
{
    let r = dec(p.r as nat);
    let g = dec(p.g as nat);
    let b = dec(p.b as nat);
    let sp = seq![32u8];
    let nl = seq![10u8];
    lemma_concat_associative(r + sp + g + sp + b, nl, x);
    lemma_concat_associative(r + sp + g + sp, b, nl + x);
    lemma_concat_associative(r + sp + g, sp, b + (nl + x));
    lemma_concat_associative(r + sp, g, sp + (b + (nl + x)));
    lemma_concat_associative(r, sp, g + (sp + (b + (nl + x))));
}

proof fn lemma_pixel_split(p: Rgb, q: Rgb, x: Seq<u8>, y: Seq<u8>)
    requires
        pixel_text(p) + x == pixel_text(q) + y,
    ensures
        p == q,
        x == y,
{
    lemma_pixel_text_nested(p, x);
    lemma_pixel_text_nested(q, y);
    let xe = seq![10u8] + x;
    let ye = seq![10u8] + y;
    let xb = seq![32u8] + (dec(p.b as nat) + xe);
    let yb = seq![32u8] + (dec(q.b as nat) + ye);
    let xg = seq![32u8] + (dec(p.g as nat) + xb);
    let yg = seq![32u8] + (dec(q.g as nat) + yb);
    assert(xg[0] == 32u8);
    assert(yg[0] == 32u8);
    lemma_dec_split(p.r as nat, q.r as nat, xg, yg);
    assert(xg.drop_first() =~= dec(p.g as nat) + xb);
    assert(yg.drop_first() =~= dec(q.g as nat) + yb);
    assert(xb[0] == 32u8);
    assert(yb[0] == 32u8);
    lemma_dec_split(p.g as nat, q.g as nat, xb, yb);
    assert(xb.drop_first() =~= dec(p.b as nat) + xe);
    assert(yb.drop_first() =~= dec(q.b as nat) + ye);
    assert(xe[0] == 10u8);
    assert(ye[0] == 10u8);
    lemma_dec_split(p.b as nat, q.b as nat, xe, ye);
    assert(x =~= xe.drop_first());
    assert(y =~= ye.drop_first());
}

proof fn lemma_pixels_split(s1: Seq<Rgb>, s2: Seq<Rgb>, x: Seq<u8>, y: Seq<u8>)
    requires
        s1.len() == s2.len(),
        pixels_text(s1) + x == pixels_text(s2) + y,
    ensures
        s1 == s2,
        x == y,
    decreases s1.len(),
{
    if s1.len() == 0 {
        assert(pixels_text(s1) + x =~= x);
        assert(pixels_text(s2) + y =~= y);
        assert(s1 =~= s2);
    } else {
        let rx = pixels_text(s1.drop_first()) + x;
        let ry = pixels_text(s2.drop_first()) + y;
        assert(pixels_text(s1) + x =~= pixel_text(s1[0]) + rx);
        assert(pixels_text(s2) + y =~= pixel_text(s2[0]) + ry);
        lemma_pixel_split(s1[0], s2[0], rx, ry);
        lemma_pixels_split(s1.drop_first(), s2.drop_first(), x, y);
        assert(s1 =~= seq![s1[0]] + s1.drop_first());
        assert(s2 =~= seq![s2[0]] + s2.drop_first());
    }
}

proof fn lemma_pixels_text_push(s: Seq<Rgb>, p: Rgb)
    ensures
        pixels_text(s.push(p)) == pixels_text(s) + pixel_text(p),
    decreases s.len(),
{
    if s.len() == 0 {
        assert(s.push(p).drop_first() =~= Seq::<Rgb>::empty());
        assert(pixels_text(Seq::<Rgb>::empty()) == Seq::<u8>::empty());
        assert(s.push(p)[0] == p);
        assert(pixels_text(s.push(p)) =~= pixels_text(s) + pixel_text(p));
    } else {
        lemma_pixels_text_push(s.drop_first(), p);
        assert(s.push(p).drop_first() =~= s.drop_first().push(p));
        assert(s.push(p)[0] == s[0]);
        lemma_concat_associative(pixel_text(s[0]), pixels_text(s.drop_first()), pixel_text(p));
        assert(pixels_text(s.push(p)) =~= pixels_text(s) + pixel_text(p));
    }
}

proof fn lemma_pixels_text_split(s: Seq<Rgb>, k: int)
    requires
        0 <= k <= s.len(),
    ensures
        pixels_text(s) == pixels_text(s.take(k)) + pixels_text(s.skip(k)),
    decreases k,
{
    if k == 0 {
        assert(s.take(0) =~= Seq::<Rgb>::empty());
        assert(s.skip(0) =~= s);
        assert(pixels_text(s) =~= pixels_text(s.take(k)) + pixels_text(s.skip(k)));
    } else {
        lemma_pixels_text_split(s.drop_first(), k - 1);
        assert(s.drop_first().take(k - 1) =~= s.take(k).drop_first());
        assert(s.drop_first().skip(k - 1) =~= s.skip(k));
        assert(s.take(k)[0] == s[0]);
        assert(pixels_text(s) =~= pixels_text(s.take(k)) + pixels_text(s.skip(k)));
    }
}

proof fn lemma_pixels_text_len(s: Seq<Rgb>)
    ensures
        pixels_text(s).len() >= s.len(),
    decreases s.len(),
{
    if s.len() > 0 {
        lemma_pixels_text_split(s, 0);
        lemma_pixels_text_len(s.drop_first());
    }
}

proof fn lemma_header_text_nested(w: nat, h: nat, x: Seq<u8>)
    ensures
        header_text(w, h) + x == seq![80u8, 51u8, 10u8] + (dec(w) + (seq![32u8] + (dec(h) + (
        seq![10u8, 50u8, 53u8, 53u8, 10u8] + x)))),
{
    let m = seq![80u8, 51u8, 10u8];
    let sp = seq![32u8];
    let tail = seq![10u8, 50u8, 53u8, 53u8, 10u8];
    lemma_concat_associative(m + dec(w) + sp + dec(h), tail, x);
    lemma_concat_associative(m + dec(w) + sp, dec(h), tail + x);
    lemma_concat_associative(m + dec(w), sp, dec(h) + (tail + x));
    lemma_concat_associative(m, dec(w), sp + (dec(h) + (tail + x)));
}

/// Two images with the same text are the same image.
pub proof fn lemma_ppm_text_injective(
    w1: nat,
    h1: nat,
    px1: Seq<Rgb>,
    w2: nat,
    h2: nat,
    px2: Seq<Rgb>,
)
    requires
        image_shape(w1, h1, px1),
        image_shape(w2, h2, px2),
        ppm_text(w1, h1, px1) == ppm_text(w2, h2, px2),
    ensures
        w1 == w2,
        h1 == h2,
        px1 == px2,
{
    let tail = seq![10u8, 50u8, 53u8, 53u8, 10u8];
    lemma_header_text_nested(w1, h1, pixels_text(px1));
    lemma_header_text_nested(w2, h2, pixels_text(px2));
    let xh = tail + pixels_text(px1);
    let yh = tail + pixels_text(px2);
    let xw = seq![32u8] + (dec(h1) + xh);
    let yw = seq![32u8] + (dec(h2) + yh);
    let t1 = seq![80u8, 51u8, 10u8] + (dec(w1) + xw);
    let t2 = seq![80u8, 51u8, 10u8] + (dec(w2) + yw);
    assert(t1.skip(3) =~= dec(w1) + xw);
    assert(t2.skip(3) =~= dec(w2) + yw);
    assert(xw[0] == 32u8);
    assert(yw[0] == 32u8);
    lemma_dec_split(w1, w2, xw, yw);
    assert(xw.drop_first() =~= dec(h1) + xh);
    assert(yw.drop_first() =~= dec(h2) + yh);
    assert(xh[0] == 10u8);
    assert(yh[0] == 10u8);
    lemma_dec_split(h1, h2, xh, yh);
    assert(pixels_text(px1) + Seq::<u8>::empty() =~= xh.skip(5));
    assert(pixels_text(px2) + Seq::<u8>::empty() =~= yh.skip(5));
    lemma_pixels_split(px1, px2, Seq::<u8>::empty(), Seq::<u8>::empty());
}

/// Reading back the text of an image gives that image: its width, its height
/// and every pixel's channel values.
pub proof fn lemma_ppm_round_trip(width: nat, height: nat, pixels: Seq<Rgb>)
    requires
        image_shape(width, height, pixels),
    ensures
        parse_ppm(ppm_text(width, height, pixels)) == Some((width, height, pixels)),
{
    let text = ppm_text(width, height, pixels);
    assert(image_shape(width, height, pixels) && ppm_text(width, height, pixels) == text);
    let (w, h, px) = choose|w: nat, h: nat, px: Seq<Rgb>|
        image_shape(w, h, px) && ppm_text(w, h, px) == text;
    lemma_ppm_text_injective(w, h, px, width, height, pixels);
}

/// The fields of a pixel's line, each where `pixel_text` puts it.
spec fn pixel_at(s: Seq<u8>, pos: int, p: Rgb) -> bool {
    let e1 = pos + dec(p.r as nat).len();
    let e2 = e1 + 1 + dec(p.g as nat).len();
    let e3 = e2 + 1 + dec(p.b as nat).len();
    &&& decimal_at(s, pos, p.r as nat)
    &&& e1 < s.len() && s[e1] == 32
    &&& decimal_at(s, e1 + 1, p.g as nat)
    &&& e2 < s.len() && s[e2] == 32
    &&& decimal_at(s, e2 + 1, p.b as nat)
    &&& e3 < s.len() && s[e3] == 10
}

proof fn lemma_pixel_at(s: Seq<u8>, pos: int, p: Rgb)
    ensures
        starts_with(s, pos, pixel_text(p)) == pixel_at(s, pos, p),
{
    let r = dec(p.r as nat);
    let g = dec(p.g as nat);
    let b = dec(p.b as nat);
    let sp = seq![32u8];
    let nl = seq![10u8];
    lemma_pixel_text_nested(p, Seq::empty());
    assert(pixel_text(p) + Seq::empty() =~= pixel_text(p));
    assert(nl + Seq::<u8>::empty() =~= nl);
    let e1 = pos + r.len();
    let e2 = e1 + 1 + g.len();
    let e3 = e2 + 1 + b.len();
    lemma_starts_with_concat(s, pos, r, sp + (g + (sp + (b + nl))));
    lemma_starts_with_concat(s, e1, sp, g + (sp + (b + nl)));
    lemma_starts_with_byte(s, e1, 32u8);
    lemma_starts_with_concat(s, e1 + 1, g, sp + (b + nl));
    lemma_starts_with_concat(s, e2, sp, b + nl);
    lemma_starts_with_byte(s, e2, 32u8);
    lemma_starts_with_concat(s, e2 + 1, b, nl);
    lemma_starts_with_byte(s, e3, 10u8);
}

/// The fields of the header, each where `header_text` puts it.
spec fn header_at(s: Seq<u8>, w: nat, h: nat) -> bool {
    let e1: int = 3 + dec(w).len() as int;
    let e2: int = e1 + 1 + dec(h).len();
    &&& 3 <= s.len() && s[0] == 80 && s[1] == 51 && s[2] == 10
    &&& decimal_at(s, 3, w)
    &&& e1 < s.len() && s[e1] == 32
    &&& decimal_at(s, e1 + 1, h)
    &&& e2 + 5 <= s.len()
    &&& s[e2] == 10 && s[e2 + 1] == 50 && s[e2 + 2] == 53 && s[e2 + 3] == 53 && s[e2 + 4] == 10
}

proof fn lemma_header_at(s: Seq<u8>, w: nat, h: nat)
    ensures
        starts_with(s, 0, header_text(w, h)) == header_at(s, w, h),
{
    let m = seq![80u8, 51u8, 10u8];
    let sp = seq![32u8];
    let tail = seq![10u8, 50u8, 53u8, 53u8, 10u8];
    lemma_header_text_nested(w, h, Seq::empty());
    assert(header_text(w, h) + Seq::empty() =~= header_text(w, h));
    assert(tail + Seq::<u8>::empty() =~= tail);
    let e1: int = 3 + dec(w).len() as int;
    let e2: int = e1 + 1 + dec(h).len();
    lemma_starts_with_concat(s, 0, m, dec(w) + (sp + (dec(h) + tail)));
    lemma_starts_with_concat(s, 3, dec(w), sp + (dec(h) + tail));
    lemma_starts_with_concat(s, e1, sp, dec(h) + tail);
    lemma_starts_with_byte(s, e1, 32u8);
    lemma_starts_with_concat(s, e1 + 1, dec(h), tail);
    if 3 <= s.len() && s[0] == 80 && s[1] == 51 && s[2] == 10 {
        assert(s.subrange(0, 3) =~= m);
    }
    if starts_with(s, 0, m) {
        assert(s.subrange(0, 3)[1] == s[1]);
        assert(s.subrange(0, 3)[2] == s[2]);
    }
    if e2 + 5 <= s.len() && s[e2] == 10 && s[e2 + 1] == 50 && s[e2 + 2] == 53 && s[e2 + 3] == 53
        && s[e2 + 4] == 10 {
        assert(s.subrange(e2, e2 + 5) =~= tail);
    }
    if starts_with(s, e2, tail) {
        assert(s.subrange(e2, e2 + 5)[1] == s[e2 + 1]);
        assert(s.subrange(e2, e2 + 5)[2] == s[e2 + 2]);
        assert(s.subrange(e2, e2 + 5)[3] == s[e2 + 3]);
        assert(s.subrange(e2, e2 + 5)[4] == s[e2 + 4]);
    }
}

fn push_pixel(out: &mut Vec<u8>, p: Rgb)
    ensures
        final(out)@ == old(out)@ + pixel_text(p),
{
    push_decimal(out, p.r as usize);
    out.push(32u8);
    push_decimal(out, p.g as usize);
    out.push(32u8);
    push_decimal(out, p.b as usize);
    out.push(10u8);
    proof {
        assert(final(out)@ =~= old(out)@ + pixel_text(p));
    }
}

/// Reads one pixel's line at `pos`; returns the pixel and the position after
/// its line break.
fn parse_pixel(s: &Vec<u8>, pos: usize) -> (r: Option<(Rgb, usize)>)
    ensures
        r matches Some((p, end)) ==> starts_with(s@, pos as int, pixel_text(p)) && end == pos
            + pixel_text(p).len(),
        forall|p: Rgb| #[trigger]
            starts_with(s@, pos as int, pixel_text(p)) ==> r == Some(
                (p, (pos + pixel_text(p).len()) as usize),
            ),
{
    let n = s.len();
    proof {
        assert forall|p: Rgb| #[trigger]
            starts_with(s@, pos as int, pixel_text(p)) == pixel_at(s@, pos as int, p) by {
            lemma_pixel_at(s@, pos as int, p);
        }
    }
    let (r, e1) = match parse_decimal(s, pos) {
        Some(x) => x,
        None => return None,
    };
    if r > 255 || e1 >= n || s[e1] != 32 {
        return None;
    }
    let (g, e2) = match parse_decimal(s, e1 + 1) {
        Some(x) => x,
        None => return None,
    };
    if g > 255 || e2 >= n || s[e2] != 32 {
        return None;
    }
    let (b, e3) = match parse_decimal(s, e2 + 1) {
        Some(x) => x,
        None => return None,
    };
    if b > 255 || e3 >= n || s[e3] != 10 {
        return None;
    }
    let p = Rgb { r: r as u8, g: g as u8, b: b as u8 };
    assert(pixel_at(s@, pos as int, p));
    Some((p, e3 + 1))
}

/// Reads the header; returns the width, the height and the position after it.
fn parse_header(s: &Vec<u8>) -> (r: Option<(usize, usize, usize)>)
    ensures
        r matches Some((w, h, end)) ==> starts_with(s@, 0, header_text(w as nat, h as nat))
            && end == header_text(w as nat, h as nat).len(),
        forall|w: nat, h: nat|
            w <= usize::MAX && h <= usize::MAX && #[trigger] starts_with(
                s@,
                0,
                header_text(w, h),
            ) ==> r == Some((w as usize, h as usize, header_text(w, h).len() as usize)),
{
    let n = s.len();
    proof {
        assert forall|w: nat, h: nat| #[trigger]
            starts_with(s@, 0, header_text(w, h)) == header_at(s@, w, h) by {
            lemma_header_at(s@, w, h);
        }
    }
    if n < 3 || s[0] != 80 || s[1] != 51 || s[2] != 10 {
        return None;
    }
    let (w, e1) = match parse_decimal(s, 3) {
        Some(x) => x,
        None => return None,
    };
    if e1 >= n || s[e1] != 32 {
        return None;
    }
    let (h, e2) = match parse_decimal(s, e1 + 1) {
        Some(x) => x,
        None => return None,
    };
    if e2 > n - 5 || s[e2] != 10 || s[e2 + 1] != 50 || s[e2 + 2] != 53 || s[e2 + 3] != 53
        || s[e2 + 4] != 10 {
        return None;
    }
    assert(header_at(s@, w as nat, h as nat));
    Some((w, h, e2 + 5))
}

impl Image {
    /// The image in the plain-text pixel format: the header, then one
    /// `"R G B"` line per pixel, row by row from the top.
    pub fn to_ppm(&self) -> (text: Vec<u8>)
        ensures
            text@ == ppm_text(self.width as nat, self.height as nat, self.pixels@),
    {
        let mut out: Vec<u8> = Vec::new();
        out.push(80u8);
        out.push(51u8);
        out.push(10u8);
        push_decimal(&mut out, self.width);
        out.push(32u8);
        push_decimal(&mut out, self.height);
        out.push(10u8);
        out.push(50u8);
        out.push(53u8);
        out.push(53u8);
        out.push(10u8);
        let ghost header = header_text(self.width as nat, self.height as nat);
        assert(out@ =~= header + pixels_text(self.pixels@.take(0)));
        let mut k: usize = 0;
        while k < self.pixels.len()
            invariant
                k <= self.pixels@.len(),
                header == header_text(self.width as nat, self.height as nat),
                out@ == header + pixels_text(self.pixels@.take(k as int)),
            decreases self.pixels.len() - k,
        {
            let p = self.pixels[k];
            push_pixel(&mut out, p);
            proof {
                let done = self.pixels@.take(k as int);
                lemma_pixels_text_push(done, p);
                assert(self.pixels@.take(k + 1) =~= done.push(p));
                lemma_concat_associative(header, pixels_text(done), pixel_text(p));
            }
            k = k + 1;
        }
        assert(self.pixels@.take(k as int) =~= self.pixels@);
        out
    }

    /// Reads an image back from its plain-text form. The result is `None`
    /// exactly when the text is the form of no image.
    pub fn from_ppm(text: &Vec<u8>) -> (r: Option<Image>)
        ensures
            match r {
                Some(img) => img.wf() && parse_ppm(text@) == Some(img.model()),
                None => parse_ppm(text@) is None,
            },
    {
        let n = text.len();
        let (w, h, start) = match parse_header(text) {
            Some(x) => x,
            None => {
                proof {
                    assert forall|w: nat, h: nat, px: Seq<Rgb>| image_shape(w, h, px) implies #[trigger]
                        ppm_text(w, h, px) != text@ by {
                        if ppm_text(w, h, px) == text@ {
                            lemma_starts_with_concat(text@, 0, header_text(w, h), pixels_text(px));
                            assert(text@.subrange(0, text@.len() as int) =~= text@);
                        }
                    }
                }
                return None;
            },
        };
        let ghost header = header_text(w as nat, h as nat);
        proof {
            assert forall|w2: nat, h2: nat, px: Seq<Rgb>|
                image_shape(w2, h2, px) && #[trigger] ppm_text(w2, h2, px) == text@ implies w2 == w
                && h2 == h by {
                lemma_starts_with_concat(text@, 0, header_text(w2, h2), pixels_text(px));
                assert(text@.subrange(0, text@.len() as int) =~= text@);
            }
        }
        let total = match w.checked_mul(h) {
            Some(t) => t,
            None => {
                proof {
                    assert forall|w2: nat, h2: nat, px: Seq<Rgb>| image_shape(w2, h2, px) implies #[trigger]
                        ppm_text(w2, h2, px) != text@ by {
                        lemma_pixels_text_len(px);
                    }
                }
                return None;
            },
        };
        let mut pixels: Vec<Rgb> = Vec::new();
        let mut pos: usize = start;
        assert(text@.subrange(start as int, pos as int) =~= pixels_text(pixels@));
        while pixels.len() < total
            invariant
                n == text@.len(),
                start <= pos <= n,
                starts_with(text@, 0, header),
                header == header_text(w as nat, h as nat),
                start == header.len(),
                total == w * h,
                pixels@.len() <= total,
                text@.subrange(start as int, pos as int) == pixels_text(pixels@),
                forall|w2: nat, h2: nat, px: Seq<Rgb>|
                    image_shape(w2, h2, px) && #[trigger] ppm_text(w2, h2, px) == text@ ==> w2 == w
                        && h2 == h && px.take(pixels@.len() as int) == pixels@,
            decreases total - pixels.len(),
        {
            let ghost done = pixels@;
            proof {
                assert forall|w2: nat, h2: nat, px: Seq<Rgb>|
                    image_shape(w2, h2, px) && #[trigger] ppm_text(w2, h2, px) == text@ implies starts_with(
                    text@,
                    pos as int,
                    pixel_text(px[done.len() as int]),
                ) by {
                    lemma_model_next(text@, w2, h2, px, start as int, pos as int, done);
                }
            }
            let (p, end) = match parse_pixel(text, pos) {
                Some(x) => x,
                None => {
                    return None;
                },
            };
            proof {
                lemma_pixels_text_push(done, p);
                assert(text@.subrange(start as int, end as int) =~= text@.subrange(
                    start as int,
                    pos as int,
                ) + text@.subrange(pos as int, end as int));
                assert forall|w2: nat, h2: nat, px: Seq<Rgb>|
                    image_shape(w2, h2, px) && #[trigger] ppm_text(w2, h2, px) == text@ implies px.take(
                    (done.len() + 1) as int,
                ) == done.push(p) by {
                    assert(px.take((done.len() + 1) as int) =~= px.take(done.len() as int).push(
                        px[done.len() as int],
                    ));
                }
            }
            pixels.push(p);
            pos = end;
        }
        if pos != n {
            proof {
                assert forall|w2: nat, h2: nat, px: Seq<Rgb>| image_shape(w2, h2, px) implies #[trigger]
                    ppm_text(w2, h2, px) != text@ by {
                    if ppm_text(w2, h2, px) == text@ {
                        assert(px.take(px.len() as int) =~= px);
                        lemma_model_end(text@, w2, h2, px, start as int, pos as int);
                    }
                }
            }
            return None;
        }
        let img = Image { width: w, height: h, pixels };
        proof {
            assert(text@ =~= text@.subrange(0, start as int) + text@.subrange(start as int, n as int));
            assert(image_shape(w as nat, h as nat, img.pixels@));
            lemma_ppm_round_trip(w as nat, h as nat, img.pixels@);
        }
        Some(img)
    }
}

/// Under an image whose text is `text`, after the pixels `done` have been read
/// up to `pos`, the next pixel's line stands at `pos`.
proof fn lemma_model_next(
    text: Seq<u8>,
    w: nat,
    h: nat,
    px: Seq<Rgb>,
    start: int,
    pos: int,
    done: Seq<Rgb>,
)
    requires
        image_shape(w, h, px),
        ppm_text(w, h, px) == text,
        start == header_text(w, h).len(),
        start <= pos <= text.len(),
        text.subrange(start, pos) == pixels_text(done),
        px.take(done.len() as int) == done,
        done.len() < px.len(),
    ensures
        starts_with(text, pos, pixel_text(px[done.len() as int])),
{
    let k = done.len() as int;
    lemma_pixels_text_split(px, k);
    let rest = px.skip(k);
    assert(rest.drop_first() =~= px.skip(k + 1));
    assert(pixels_text(rest) == pixel_text(px[k]) + pixels_text(px.skip(k + 1)));
    lemma_starts_with_concat(text, 0, header_text(w, h), pixels_text(px));
    assert(text.subrange(0, text.len() as int) =~= text);
    lemma_starts_with_concat(text, start, pixels_text(done), pixels_text(rest));
    lemma_starts_with_concat(text, pos, pixel_text(px[k]), pixels_text(px.skip(k + 1)));
}

/// Under an image whose text is `text`, once all its pixels have been read up
/// to `pos`, the text ends at `pos`.
proof fn lemma_model_end(text: Seq<u8>, w: nat, h: nat, px: Seq<Rgb>, start: int, pos: int)
    requires
        image_shape(w, h, px),
        ppm_text(w, h, px) == text,
        start == header_text(w, h).len(),
        start <= pos <= text.len(),
        text.subrange(start, pos) == pixels_text(px),
    ensures
        pos == text.len(),
{
}

} // verus!
