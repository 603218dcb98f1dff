//! A node's path written as a jq filter (`Y`, and `--pick` on JSON).
use crate::paths::strings_view;
use crate::text::{chars_of, flat_map_chars, hex_digit, hex_digit_of, lemma_flat_map_take, push_str};
use vstd::prelude::*;

verus! {

broadcast use vstd::string::group_string_axioms;

pub open spec fn is_ascii_alpha(c: char) -> bool {
    ('a' <= c && c <= 'z') || ('A' <= c && c <= 'Z')
}

pub open spec fn is_ascii_digit(c: char) -> bool {
    '0' <= c && c <= '9'
}

/// A valid unquoted jq object key: a letter or `_`, then letters, digits and
/// `_` only.
pub open spec fn jq_identifier(s: Seq<char>) -> bool {
    &&& s.len() > 0
    &&& is_ascii_alpha(s[0]) || s[0] == '_'
    &&& forall|i: int|
        1 <= i < s.len() ==> is_ascii_alpha(#[trigger] s[i]) || is_ascii_digit(s[i]) || s[i]
            == '_'
}

/// `[digits]` with at least one digit: the segment of an array item.
pub open spec fn array_index_segment(s: Seq<char>) -> bool {
    &&& s.len() >= 3
    &&& s[0] == '['
    &&& s[s.len() - 1] == ']'
    &&& forall|i: int| 1 <= i < s.len() - 1 ==> is_ascii_digit(#[trigger] s[i])
}

/// One character inside a quoted jq key: `\`, `"` and control characters
/// escaped.
pub open spec fn jq_escape_char(c: char) -> Seq<char> {
    if c == '\\' {
        seq!['\\', '\\']
    } else if c == '"' {
        seq!['\\', '"']
    } else if c == '\n' {
        seq!['\\', 'n']
    } else if c == '\r' {
        seq!['\\', 'r']
    } else if c == '\t' {
        seq!['\\', 't']
    } else if (c as u32) < 0x20 {
        seq!['\\', 'u', '0', '0', hex_digit((c as u32) / 16), hex_digit((c as u32) % 16)]
    } else {
        seq![c]
    }
}

pub open spec fn jq_escape(s: Seq<char>) -> Seq<char> {
    flat_map_chars(s, |c: char| jq_escape_char(c))
}

/// One path segment as jq writes it: an index as is, an identifier as
/// `.key`, anything else as `.["key"]`.
pub open spec fn jq_segment(s: Seq<char>) -> Seq<char> {
    if array_index_segment(s) {
        s
    } else if jq_identifier(s) {
        seq!['.'] + s
    } else {
        ".[\""@ + jq_escape(s) + "\"]"@
    }
}

/// The jq segments of `segs`, concatenated.
pub open spec fn jq_segments(segs: Seq<Seq<char>>) -> Seq<char>
    decreases segs.len(),
{
    if segs.len() == 0 {
        Seq::empty()
    } else {
        jq_segments(segs.drop_last()) + jq_segment(segs.last())
    }
}

/// The jq filter selecting the node at `segs`; the root is `.`. Every
/// filter starts with `.`: a path whose first segment is an array index
/// (an item of a root array) gets one in front, `.[0]`.
pub open spec fn jq_path(segs: Seq<Seq<char>>) -> Seq<char> {
    if segs.len() == 0 {
        seq!['.']
    } else if array_index_segment(segs[0]) {
        seq!['.'] + jq_segments(segs)
    } else {
        jq_segments(segs)
    }
}

fn is_alpha(c: char) -> (r: bool)
    ensures
        r == is_ascii_alpha(c),
{
    ('a' <= c && c <= 'z') || ('A' <= c && c <= 'Z')
}

fn is_digit(c: char) -> (r: bool)
    ensures
        r == is_ascii_digit(c),
{
    '0' <= c && c <= '9'
}

/// Whether `s` is a valid unquoted jq object key.
pub fn is_jq_identifier(s: &str) -> (r: bool)
    ensures
        r == jq_identifier(s@),
{
    let cs = chars_of(s);
    if cs.len() == 0 {
        return false;
    }
    if !(is_alpha(cs[0]) || cs[0] == '_') {
        return false;
    }
    let mut i: usize = 1;
    while i < cs.len()
        invariant
            1 <= i <= cs@.len(),
            cs@ == s@,
            forall|k: int| 1 <= k < i ==> is_ascii_alpha(#[trigger] cs@[k]) || is_ascii_digit(cs@[k]) || cs@[k] == '_',
        decreases cs@.len() - i,
    {
        let c = cs[i];
        if !(is_alpha(c) || is_digit(c) || c == '_') {
            return false;
        }
        i += 1;
    }
    true
}

/// Whether `s` is an array item's segment, `[` digits `]`. (An object key
/// spelled that way is indistinguishable from one.)
pub fn is_array_index_segment(s: &str) -> (r: bool)
    ensures
        r == array_index_segment(s@),
{
    let cs = chars_of(s);
    let n = cs.len();
    if n < 3 || cs[0] != '[' || cs[n - 1] != ']' {
        return false;
    }
    let mut i: usize = 1;
    while i < n - 1
        invariant
            1 <= i <= n - 1,
            n == cs@.len(),
            n >= 3,
            cs@ == s@,
            forall|k: int| 1 <= k < i ==> is_ascii_digit(#[trigger] cs@[k]),
        decreases n - 1 - i,
    {
        if !is_digit(cs[i]) {
            return false;
        }
        i += 1;
    }
    true
}

fn push_jq_char(out: &mut String, c: char)
    ensures
        final(out)@ == old(out)@ + jq_escape_char(c),
{
    if c == '\\' {
        out.push('\\');
        out.push('\\');
    } else if c == '"' {
        out.push('\\');
        out.push('"');
    } else if c == '\n' {
        out.push('\\');
        out.push('n');
    } else if c == '\r' {
        out.push('\\');
        out.push('r');
    } else if c == '\t' {
        out.push('\\');
        out.push('t');
    } else if (c as u32) < 0x20 {
        let u = c as u32;
        out.push('\\');
        out.push('u');
        out.push('0');
        out.push('0');
        out.push(hex_digit_of(u / 16));
        out.push(hex_digit_of(u % 16));
    } else {
        out.push(c);
    }
    assert(final(out)@ =~= old(out)@ + jq_escape_char(c));
}

/// `s` with `\`, `"` and control characters escaped for a quoted jq key.
pub fn escape_jq_string(s: &str) -> (r: String)
    ensures
        r@ == jq_escape(s@),
{
    let cs = chars_of(s);
    let mut out = String::new();
    let mut i: usize = 0;
    while i < cs.len()
        invariant
            i <= cs@.len(),
            cs@ == s@,
            out@ == flat_map_chars(cs@.take(i as int), |c: char| jq_escape_char(c)),
        decreases cs@.len() - i,
    {
        proof {
            lemma_flat_map_take(cs@, i as int, |c: char| jq_escape_char(c));
        }
        push_jq_char(&mut out, cs[i]);
        i += 1;
    }
    assert(cs@.take(cs@.len() as int) == cs@);
    out
}

/// The jq filter for `path`, e.g. `["user", "tags", "[0]"]` gives
/// `.user.tags[0]` and `["[0]", "id"]` gives `.[0].id`; the root is `.`.
pub fn to_jq_path(path: &[String]) -> (r: String)
    ensures
        r@ == jq_path(strings_view(path@)),
{
    if path.len() == 0 {
        let mut root = String::new();
        root.push('.');
        return root;
    }
    let ghost segs = strings_view(path@);
    let mut out = String::new();
    let ghost lead: Seq<char> = Seq::empty();
    if is_array_index_segment(path[0].as_str()) {
        out.push('.');
        proof {
            lead = seq!['.'];
        }
    }
    assert(out@ =~= lead + jq_segments(segs.take(0)));
    let mut i: usize = 0;
    while i < path.len()
        invariant
            i <= path@.len(),
            segs == strings_view(path@),
            out@ == lead + jq_segments(segs.take(i as int)),
        decreases path@.len() - i,
    {
        let seg = path[i].as_str();
        assert(segs.take(i + 1).drop_last() == segs.take(i as int));
        if is_array_index_segment(seg) {
            push_str(&mut out, seg);
        } else if is_jq_identifier(seg) {
            out.push('.');
            push_str(&mut out, seg);
        } else {
            push_str(&mut out, ".[\"");
            let e = escape_jq_string(seg);
            push_str(&mut out, e.as_str());
            push_str(&mut out, "\"]");
        }
        assert(out@ =~= lead + jq_segments(segs.take(i as int)) + jq_segment(segs[i as int]));
        i += 1;
    }
    assert(segs.take(path@.len() as int) == segs);
    assert(out@ =~= jq_path(segs));
    out
}

} // verus!
