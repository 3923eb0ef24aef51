//! The files an installer package needs for the app icon, put together
//! from PNG images of the icon: a Windows `.ico`, a macOS `.icns`, and the
//! README banner, an SVG with the icon embedded in base64.

use vstd::prelude::*;
use vstd::string::*;

verus! {

/// The base64 digit for `v`, below 64: `A`-`Z`, `a`-`z`, `0`-`9`, `+`, `/`.
pub open spec fn digit64(v: int) -> char {
    if v < 26 {
        (65 + v) as char
    } else if v < 52 {
        (97 + (v - 26)) as char
    } else if v < 62 {
        (48 + (v - 52)) as char
    } else if v == 62 {
        '+'
    } else {
        '/'
    }
}

/// The four characters for the three bytes of `b` from `3 * g` on: each
/// takes six bits, first to last, and a short last group is padded with
/// `=` for each byte it lacks.
pub open spec fn group64(b: Seq<u8>, g: int) -> Seq<char> {
    let i = 3 * g;
    let n = b.len() - i;
    let b0 = b[i] as int;
    let b1 = if n >= 2 {
        b[i + 1] as int
    } else {
        0
    };
    let b2 = if n >= 3 {
        b[i + 2] as int
    } else {
        0
    };
    seq![
        digit64(b0 / 4),
        digit64((b0 % 4) * 16 + b1 / 16),
        if n >= 2 {
            digit64((b1 % 16) * 4 + b2 / 64)
        } else {
            '='
        },
        if n >= 3 {
            digit64(b2 % 64)
        } else {
            '='
        },
    ]
}

/// The first `g` groups of the base64 text of `b`.
pub open spec fn base64_groups(b: Seq<u8>, g: nat) -> Seq<char>
    decreases g,
{
    if g == 0 {
        seq![]
    } else {
        base64_groups(b, (g - 1) as nat) + group64(b, g - 1)
    }
}

/// Standard base64 with padding (RFC 4648): one group of four characters
/// per three bytes, the last one padded.
pub open spec fn base64_spec(b: Seq<u8>) -> Seq<char> {
    base64_groups(b, ((b.len() + 2) / 3) as nat)
}

proof fn lemma_groups_len(b: Seq<u8>, g: nat)
    ensures
        base64_groups(b, g).len() == 4 * g,
    decreases g,
{
    if g > 0 {
        lemma_groups_len(b, (g - 1) as nat);
    }
}

fn digit64_of(v: u8) -> (r: char)
    requires
        v < 64,
    ensures
        r == digit64(v as int),
{
    if v < 26 {
        (65 + v) as char
    } else if v < 52 {
        (71 + v) as char
    } else if v < 62 {
        (v - 4) as char
    } else if v == 62 {
        '+'
    } else {
        '/'
    }
}

/// `bytes` in standard base64 with padding (see [`base64_spec`]); four
/// characters for every three bytes or part of three.
pub fn base64(bytes: &[u8]) -> (r: String)
    ensures
        r@ == base64_spec(bytes@),
        r@.len() == 4 * ((bytes@.len() + 2) / 3),
{
    let n = bytes.len();
    let groups = n / 3 + if n % 3 == 0 {
        0
    } else {
        1
    };
    let mut out = String::new();
    let mut g: usize = 0;
    while g < groups
        invariant
            n == bytes@.len(),
            groups == (n + 2) / 3,
            g <= groups,
            out@ == base64_groups(bytes@, g as nat),
        decreases groups - g,
    {
        let i = 3 * g;
        let left = n - i;
        let b0 = bytes[i];
        let b1: u8 = if left >= 2 {
            bytes[i + 1]
        } else {
            0
        };
        let b2: u8 = if left >= 3 {
            bytes[i + 2]
        } else {
            0
        };
        let c0 = digit64_of(b0 / 4);
        let c1 = digit64_of((b0 % 4) * 16 + b1 / 16);
        let c2 = if left >= 2 {
            digit64_of((b1 % 16) * 4 + b2 / 64)
        } else {
            '='
        };
        let c3 = if left >= 3 {
            digit64_of(b2 % 64)
        } else {
            '='
        };
        crate::text::push_char(&mut out, c0);
        crate::text::push_char(&mut out, c1);
        crate::text::push_char(&mut out, c2);
        crate::text::push_char(&mut out, c3);
        proof {
            assert(group64(bytes@, g as int) =~= seq![c0, c1, c2, c3]);
        }
        g = g + 1;
    }
    proof {
        lemma_groups_len(bytes@, groups as nat);
    }
    out
}

/// The README banner around the base64 of the embedded icon: everything
/// before it.
pub const HERO_HEAD: &'static str = r##"<svg xmlns="http://www.w3.org/2000/svg" viewBox="0 0 1200 440" width="1200" height="440" role="img" aria-label="dirstats: see what is filling your disk">
  <defs>
    <radialGradient id="warm" cx="20%" cy="10%" r="65%"><stop offset="0" stop-color="#ffb38a"/><stop offset="1" stop-color="#ffb38a" stop-opacity="0"/></radialGradient>
    <radialGradient id="cool" cx="90%" cy="30%" r="55%"><stop offset="0" stop-color="#8a9bff"/><stop offset="1" stop-color="#8a9bff" stop-opacity="0"/></radialGradient>
    <radialGradient id="base" cx="50%" cy="100%" r="90%"><stop offset="0" stop-color="#5ad1c0"/><stop offset="0.75" stop-color="#2b3a67"/></radialGradient>
    <filter id="shadow" x="-20%" y="-20%" width="140%" height="150%"><feDropShadow dx="0" dy="18" stdDeviation="16" flood-color="#000" flood-opacity="0.35"/></filter>
    <filter id="glow"><feDropShadow dx="0" dy="1" stdDeviation="4" flood-color="#000" flood-opacity="0.3"/></filter>
    <clipPath id="card"><rect width="1200" height="440" rx="24"/></clipPath>
  </defs>
  <g clip-path="url(#card)">
    <rect width="1200" height="440" fill="url(#base)"/>
    <rect width="1200" height="440" fill="url(#warm)"/>
    <rect width="1200" height="440" fill="url(#cool)"/>
  </g>
  <image x="250" y="70" width="300" height="300" filter="url(#shadow)" href="data:image/png;base64,"##;

/// The README banner after the embedded icon.
pub const HERO_TAIL: &'static str = r##""/>
  <g fill="#fff" filter="url(#glow)" font-family="-apple-system, BlinkMacSystemFont, 'Segoe UI', Cantarell, 'Helvetica Neue', Arial, sans-serif">
    <text x="600" y="210" font-size="76" font-weight="700">dirstats</text>
    <text x="604" y="262" font-size="28" opacity="0.9">See what is filling your disk.</text>
  </g>
</svg>
"##;

/// The README banner: the icon, given as PNG bytes, on a gradient card
/// with the name and tagline. It carries its own background, so it reads
/// the same on light and dark pages.
pub fn hero_svg(icon_png: &[u8]) -> (r: String)
    ensures
        r@ == HERO_HEAD@ + base64_spec(icon_png@) + HERO_TAIL@,
{
    let mut out = HERO_HEAD.to_owned();
    let icon = base64(icon_png);
    out.append(icon.as_str());
    out.append(HERO_TAIL);
    out
}

/// `n` as two bytes, least significant first.
pub open spec fn le16(n: nat) -> Seq<u8> {
    seq![(n % 256) as u8, (n / 256 % 256) as u8]
}

/// `n` as four bytes, least significant first.
pub open spec fn le32(n: nat) -> Seq<u8> {
    seq![(n % 256) as u8, (n / 256 % 256) as u8, (n / 65536 % 256) as u8, (n / 16777216 % 256) as u8]
}

/// `n` as four bytes, most significant first.
pub open spec fn be32(n: nat) -> Seq<u8> {
    seq![(n / 16777216 % 256) as u8, (n / 65536 % 256) as u8, (n / 256 % 256) as u8, (n % 256) as u8]
}

fn push_all(out: &mut Vec<u8>, bytes: &[u8])
    ensures
        final(out)@ == old(out)@ + bytes@,
{
    let mut i: usize = 0;
    while i < bytes.len()
        invariant
            i <= bytes@.len(),
            out@ == old(out)@ + bytes@.take(i as int),
        decreases bytes@.len() - i,
    {
        out.push(bytes[i]);
        proof {
            assert(bytes@.take(i + 1) =~= bytes@.take(i as int).push(bytes@[i as int]));
        }
        i = i + 1;
    }
    proof {
        assert(bytes@.take(bytes@.len() as int) =~= bytes@);
    }
}

fn push_le16(out: &mut Vec<u8>, n: u16)
    ensures
        final(out)@ == old(out)@ + le16(n as nat),
{
    out.push((n % 256) as u8);
    out.push((n / 256 % 256) as u8);
    proof {
        assert(final(out)@ =~= old(out)@ + le16(n as nat));
    }
}

fn push_le32(out: &mut Vec<u8>, n: u32)
    ensures
        final(out)@ == old(out)@ + le32(n as nat),
{
    out.push((n % 256) as u8);
    out.push((n / 256 % 256) as u8);
    out.push((n / 65536 % 256) as u8);
    out.push((n / 16777216 % 256) as u8);
    proof {
        assert(final(out)@ =~= old(out)@ + le32(n as nat));
    }
}

fn push_be32(out: &mut Vec<u8>, n: u32)
    ensures
        final(out)@ == old(out)@ + be32(n as nat),
{
    out.push((n / 16777216 % 256) as u8);
    out.push((n / 65536 % 256) as u8);
    out.push((n / 256 % 256) as u8);
    out.push((n % 256) as u8);
    proof {
        assert(final(out)@ =~= old(out)@ + be32(n as nat));
    }
}

/// The bytes of each image.
pub open spec fn views(images: Seq<Vec<u8>>) -> Seq<Seq<u8>> {
    images.map_values(|v: Vec<u8>| v@)
}

/// The total length of the first `k` images.
pub open spec fn lens_before(images: Seq<Seq<u8>>, k: int) -> int
    decreases k,
{
    if k <= 0 {
        0
    } else {
        lens_before(images, k - 1) + images[k - 1].len()
    }
}

/// The first `k` images, one after another.
pub open spec fn joined(images: Seq<Seq<u8>>, k: int) -> Seq<u8>
    decreases k,
{
    if k <= 0 {
        seq![]
    } else {
        joined(images, k - 1) + images[k - 1]
    }
}

/// The directory entry of an image of `size` pixels square, `len` bytes
/// long at `offset` in the file: its side (0 standing for 256), no
/// palette, one plane, 32 bits per pixel, then its length and offset.
pub open spec fn ico_entry(size: u32, len: nat, offset: nat) -> Seq<u8> {
    let side: u8 = if size >= 256 {
        0
    } else {
        size as u8
    };
    seq![side, side, 0u8, 0u8, 1u8, 0u8, 32u8, 0u8] + le32(len) + le32(offset)
}

/// The directory entries of the first `k` images, each pointing past the
/// header, the whole directory and the images before it.
pub open spec fn ico_entries(sizes: Seq<u32>, images: Seq<Seq<u8>>, k: int) -> Seq<u8>
    decreases k,
{
    if k <= 0 {
        seq![]
    } else {
        ico_entries(sizes, images, k - 1) + ico_entry(
            sizes[k - 1],
            images[k - 1].len(),
            (6 + 16 * images.len() + lens_before(images, k - 1)) as nat,
        )
    }
}

/// A Windows icon file holding `images` (PNG files) of `sizes` pixels:
/// the header of an icon resource with the image count, one directory
/// entry per image, then the images in order.
pub open spec fn ico_spec(sizes: Seq<u32>, images: Seq<Seq<u8>>) -> Seq<u8> {
    seq![0u8, 0u8, 1u8, 0u8] + le16(images.len()) + ico_entries(sizes, images, images.len() as int)
        + joined(images, images.len() as int)
}

proof fn lemma_lens_grow(images: Seq<Seq<u8>>, j: int, k: int)
    requires
        0 <= j <= k,
    ensures
        lens_before(images, j) <= lens_before(images, k),
    decreases k - j,
{
    if j < k {
        lemma_lens_grow(images, j, k - 1);
    }
}

/// A Windows `.ico` file of `images`, PNG images of `sizes` pixels square
/// (see [`ico_spec`]). The count must fit the header's two bytes and every
/// offset its four.
pub fn ico_file(sizes: &[u32], images: &Vec<Vec<u8>>) -> (r: Vec<u8>)
    requires
        sizes@.len() == images@.len(),
        images@.len() <= u16::MAX,
        6 + 16 * images@.len() + lens_before(views(images@), images@.len() as int) <= u32::MAX,
    ensures
        r@ == ico_spec(sizes@, views(images@)),
{
    let ghost all = views(images@);
    let count = images.len();
    let mut out: Vec<u8> = Vec::new();
    out.push(0);
    out.push(0);
    out.push(1);
    out.push(0);
    push_le16(&mut out, count as u16);
    let ghost header = out@;
    proof {
        lemma_lens_grow(all, 0, count as int);
    }
    let mut offset: u32 = (6 + 16 * count) as u32;
    let mut k: usize = 0;
    while k < count
        invariant
            count == images@.len(),
            count == sizes@.len(),
            all == views(images@),
            6 + 16 * count + lens_before(all, count as int) <= u32::MAX,
            k <= count,
            offset == 6 + 16 * count + lens_before(all, k as int),
            header == seq![0u8, 0u8, 1u8, 0u8] + le16(count as nat),
            out@ == header + ico_entries(sizes@, all, k as int),
        decreases count - k,
    {
        proof {
            lemma_lens_grow(all, k + 1, count as int);
        }
        let len = images[k].len();
        assert(all[k as int] == images@[k as int]@);
        let size = sizes[k];
        let side: u8 = if size >= 256 {
            0
        } else {
            size as u8
        };
        out.push(side);
        out.push(side);
        out.push(0);
        out.push(0);
        out.push(1);
        out.push(0);
        out.push(32);
        out.push(0);
        push_le32(&mut out, len as u32);
        push_le32(&mut out, offset);
        proof {
            assert(out@ =~= header + ico_entries(sizes@, all, k + 1));
        }
        offset = offset + len as u32;
        k = k + 1;
    }
    let ghost entries = out@;
    let mut k: usize = 0;
    while k < count
        invariant
            count == images@.len(),
            all == views(images@),
            k <= count,
            out@ == entries + joined(all, k as int),
        decreases count - k,
    {
        push_all(&mut out, images[k].as_slice());
        proof {
            assert(all[k as int] == images@[k as int]@);
            assert(out@ =~= entries + joined(all, k + 1));
        }
        k = k + 1;
    }
    out
}

/// An element of a macOS icon file: its four-byte type, its length
/// including this eight-byte head, then the PNG image.
pub open spec fn icns_element(kind: Seq<u8>, image: Seq<u8>) -> Seq<u8> {
    kind + be32((image.len() + 8) as nat) + image
}

/// The first `k` elements, one after another.
pub open spec fn icns_body(elements: Seq<([u8; 4], Vec<u8>)>, k: int) -> Seq<u8>
    decreases k,
{
    if k <= 0 {
        seq![]
    } else {
        icns_body(elements, k - 1) + icns_element(elements[k - 1].0@, elements[k - 1].1@)
    }
}

/// A macOS icon file: `icns`, its whole length, then the elements.
pub open spec fn icns_spec(elements: Seq<([u8; 4], Vec<u8>)>) -> Seq<u8> {
    let body = icns_body(elements, elements.len() as int);
    seq![105u8, 99u8, 110u8, 115u8] + be32((body.len() + 8) as nat) + body
}

/// The length of the first `k` elements.
pub open spec fn icns_len(elements: Seq<([u8; 4], Vec<u8>)>, k: int) -> int
    decreases k,
{
    if k <= 0 {
        0
    } else {
        icns_len(elements, k - 1) + 8 + elements[k - 1].1@.len()
    }
}

proof fn lemma_icns_len(elements: Seq<([u8; 4], Vec<u8>)>, j: int, k: int)
    requires
        0 <= j <= k <= elements.len(),
    ensures
        icns_len(elements, j) <= icns_len(elements, k),
        icns_body(elements, k).len() == icns_len(elements, k),
    decreases k,
{
    if k > 0 {
        vstd::array::array_len_matches_n(&elements[k - 1].0);
        if j < k {
            lemma_icns_len(elements, j, k - 1);
        } else {
            lemma_icns_len(elements, k - 1, k - 1);
        }
    }
}

/// A macOS `.icns` file of `elements`, each a type code and a PNG image
/// (see [`icns_spec`]). The whole file's length must fit four bytes.
pub fn icns_file(elements: &Vec<([u8; 4], Vec<u8>)>) -> (r: Vec<u8>)
    requires
        icns_len(elements@, elements@.len() as int) + 8 <= u32::MAX,
    ensures
        r@ == icns_spec(elements@),
{
    let count = elements.len();
    let mut body: Vec<u8> = Vec::new();
    let mut k: usize = 0;
    while k < count
        invariant
            count == elements@.len(),
            icns_len(elements@, count as int) + 8 <= u32::MAX,
            k <= count,
            body@ == icns_body(elements@, k as int),
        decreases count - k,
    {
        proof {
            lemma_icns_len(elements@, k + 1, count as int);
            lemma_icns_len(elements@, k as int, k as int);
        }
        let (kind, image) = (&elements[k].0, &elements[k].1);
        let ghost before = body@;
        push_all(&mut body, kind.as_slice());
        push_be32(&mut body, image.len() as u32 + 8);
        push_all(&mut body, image.as_slice());
        proof {
            assert(body@ =~= before + icns_element(elements@[k as int].0@, elements@[k as int].1@));
        }
        k = k + 1;
    }
    proof {
        lemma_icns_len(elements@, count as int, count as int);
    }
    let mut out: Vec<u8> = Vec::new();
    out.push(105);
    out.push(99);
    out.push(110);
    out.push(115);
    push_be32(&mut out, body.len() as u32 + 8);
    push_all(&mut out, body.as_slice());
    proof {
        assert(out@ =~= icns_spec(elements@));
    }
    out
}

} // verus!
