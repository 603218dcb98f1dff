//! Base64 encoding, and the OSC 52 escape sequence that copies text to the
//! clipboard through the terminal.
use crate::text::{char_of, push_str};
use vstd::string::StringSliceAdditionalSpecFns;
use vstd::prelude::*;

verus! {

/// The standard Base64 alphabet (RFC 4648): `A`-`Z`, `a`-`z`, `0`-`9`, `+`, `/`.
pub open spec fn b64_char(i: u32) -> char {
    if i < 26 {
        (65 + i) as char
    } else if i < 52 {
        (71 + i) as char
    } else if i < 62 {
        (i - 4) as char
    } else if i == 62 {
        '+'
    } else {
        '/'
    }
}

fn b64_char_of(i: u32) -> (c: char)
    requires
        i < 64,
    ensures
        c == b64_char(i),
{
    if i < 26 {
        char_of(65 + i)
    } else if i < 52 {
        char_of(71 + i)
    } else if i < 62 {
        char_of(i - 4)
    } else if i == 62 {
        '+'
    } else {
        '/'
    }
}

/// The 24-bit group of up to three bytes, missing bytes read as zero.
pub open spec fn group_value(d: Seq<u8>) -> u32 {
    let b0 = d[0] as u32;
    let b1 = if d.len() > 1 {
        d[1] as u32
    } else {
        0
    };
    let b2 = if d.len() > 2 {
        d[2] as u32
    } else {
        0
    };
    (b0 * 65536 + b1 * 256 + b2) as u32
}

/// Four output characters for the first (up to) three bytes of `d`, with `=`
/// padding for missing bytes.
pub open spec fn b64_group(d: Seq<u8>) -> Seq<char> {
    let n = group_value(d);
    seq![
        b64_char((n / 262144) % 64),
        b64_char((n / 4096) % 64),
        if d.len() > 1 {
            b64_char((n / 64) % 64)
        } else {
            '='
        },
        if d.len() > 2 {
            b64_char(n % 64)
        } else {
            '='
        },
    ]
}

/// Base64 (RFC 4648, padded) of `d`.
pub open spec fn base64(d: Seq<u8>) -> Seq<char>
    decreases d.len(),
{
    if d.len() == 0 {
        Seq::empty()
    } else if d.len() <= 3 {
        b64_group(d)
    } else {
        b64_group(d) + base64(d.skip(3))
    }
}

/// Appends the four characters of the group starting at `data[i]`.
fn push_group(out: &mut String, data: &[u8], i: usize)
    requires
        i < data@.len(),
    ensures
        final(out)@ == old(out)@ + b64_group(data@.skip(i as int)),
{
    let ghost d = data@.skip(i as int);
    let rem = data.len() - i;
    let b0 = data[i] as u32;
    let b1: u32 = if rem > 1 {
        data[i + 1] as u32
    } else {
        0
    };
    let b2: u32 = if rem > 2 {
        data[i + 2] as u32
    } else {
        0
    };
    assert(d[0] == data@[i as int]);
    assert(rem > 1 ==> d[1] == data@[i + 1]);
    assert(rem > 2 ==> d[2] == data@[i + 2]);
    let n = b0 * 65536 + b1 * 256 + b2;
    assert(n == group_value(d));
    let c0 = b64_char_of((n / 262144) % 64);
    let c1 = b64_char_of((n / 4096) % 64);
    let c2 = if rem > 1 {
        b64_char_of((n / 64) % 64)
    } else {
        '='
    };
    let c3 = if rem > 2 {
        b64_char_of(n % 64)
    } else {
        '='
    };
    assert(b64_group(d) == seq![c0, c1, c2, c3]);
    out.push(c0);
    out.push(c1);
    out.push(c2);
    out.push(c3);
}

pub fn base64_encode(data: &[u8]) -> (r: String)
    ensures
        r@ == base64(data@),
{
    let mut out = String::new();
    let mut i: usize = 0;
    assert(data@.skip(0) == data@);
    while i < data.len()
        invariant
            i <= data@.len(),
            base64(data@) == out@ + base64(data@.skip(i as int)),
        decreases data@.len() - i,
    {
        let ghost d = data@.skip(i as int);
        push_group(&mut out, data, i);
        if data.len() - i > 3 {
            assert(d.skip(3) == data@.skip(i + 3));
            i += 3;
        } else {
            assert(data@.skip(data@.len() as int).len() == 0);
            i = data.len();
        }
    }
    assert(data@.skip(i as int).len() == 0);
    out
}


/// The OSC 52 sequence that asks a terminal to put `text` on the
/// clipboard: `ESC ] 52 ; c ;`, the base64 of its UTF-8 bytes, then `BEL`.
pub open spec fn osc52(text: &str) -> Seq<char> {
    "\x1b]52;c;"@ + base64(text.spec_bytes()) + "\x07"@
}

pub fn osc52_sequence(text: &str) -> (r: String)
    ensures
        r@ == osc52(text),
{
    let encoded = base64_encode(text.as_bytes());
    let mut out = "\x1b]52;c;".to_owned();
    push_str(&mut out, encoded.as_str());
    push_str(&mut out, "\x07");
    out
}


/// Base64 takes every started group of three bytes to four characters.
pub proof fn lemma_base64_len(d: Seq<u8>)
    ensures
        base64(d).len() == 4 * ((d.len() + 2) / 3),
    decreases d.len(),
{
    if d.len() > 3 {
        lemma_base64_len(d.skip(3));
    }
}

proof fn lemma_group_prefix(a: Seq<u8>, b: Seq<u8>)
    requires
        a.len() >= 3,
    ensures
        b64_group(a + b) == b64_group(a),
{
    assert((a + b)[0] == a[0]);
    assert((a + b)[1] == a[1]);
    assert((a + b)[2] == a[2]);
    assert(group_value(a + b) == group_value(a));
}

/// Input split after a whole number of three-byte groups encodes as the
/// two encodings one after the other.
pub proof fn lemma_base64_concat(a: Seq<u8>, b: Seq<u8>)
    requires
        a.len() % 3 == 0,
    ensures
        base64(a + b) == base64(a) + base64(b),
    decreases a.len(),
{
    if a.len() == 0 {
        assert(a + b == b);
        assert(base64(a) == Seq::<char>::empty());
        assert(Seq::<char>::empty() + base64(b) == base64(b));
    } else {
        lemma_group_prefix(a, b);
        if b.len() == 0 {
            assert(a + b == a);
            assert(base64(a) + Seq::<char>::empty() == base64(a));
        } else if a.len() == 3 {
            assert((a + b).skip(3) == b);
        } else {
            assert((a + b).skip(3) == a.skip(3) + b);
            lemma_base64_concat(a.skip(3), b);
            assert(base64(a) == b64_group(a) + base64(a.skip(3)));
        }
    }
}

} // verus!
