//! The JSON (and YAML) document tree, terminal-safe escaping of untrusted
//! text, and `--path` lookup.
use crate::color::Color;
use crate::text::{
    chars_of, flat_map_chars, hex_digit, hex_digit_of, hex_value, hex_value_of, is_scalar_value,
    lemma_flat_map_take, parse_usize, parse_usize_spec, push_str,
};
use vstd::prelude::*;

verus! {

broadcast use vstd::string::group_string_axioms;

#[derive(Debug, Clone, PartialEq)]
pub enum JsonScalar {
    Str(String),
    Number(String),
    Bool(bool),
    Null,
}

#[derive(Debug, PartialEq)]
pub enum JsonNode {
    Object(Vec<(String, JsonNode)>),
    Array(Vec<JsonNode>),
    Scalar(JsonScalar),
}

/// How one character of untrusted text is written to the terminal: `\`, `"`
/// and the C0/DEL control characters are escaped, everything else passes.
pub open spec fn escape_char(c: char) -> Seq<char> {
    if c == '\\' {
        seq!['\\', '\\']
    } else if c == '"' {
        seq!['\\', '"']
    } else if c == '\n' {
        seq!['\\', 'n']
    } else if c == '\r' {
        seq!['\\', 'r']
    } else if c == '\t' {
        seq!['\\', 't']
    } else if (c as u32) < 0x20 || c as u32 == 0x7f {
        seq!['\\', 'u', '0', '0', hex_digit((c as u32) / 16), hex_digit((c as u32) % 16)]
    } else {
        seq![c]
    }
}

/// `escape_char` applied to every character.
pub open spec fn escape_display(s: Seq<char>) -> Seq<char> {
    flat_map_chars(s, |c: char| escape_char(c))
}

/// A path segment's escape: `escape_char`, and a literal `.` becomes `\.`.
pub open spec fn escape_path_char(c: char) -> Seq<char> {
    if c == '.' {
        seq!['\\', '.']
    } else {
        escape_char(c)
    }
}

pub open spec fn escape_path(s: Seq<char>) -> Seq<char> {
    flat_map_chars(s, |c: char| escape_path_char(c))
}

fn push_escaped_char(out: &mut String, c: char, dot: bool)
    ensures
        final(out)@ == old(out)@ + (if dot {
            escape_path_char(c)
        } else {
            escape_char(c)
        }),
{
    let ghost e = if dot {
        escape_path_char(c)
    } else {
        escape_char(c)
    };
    if dot && c == '.' {
        out.push('\\');
        out.push('.');
    } else if c == '\\' {
        out.push('\\');
        out.push('\\');
    } else if c == '"' {
        out.push('\\');
        out.push('"');
    } else if c == '\n' {
        out.push('\\');
        out.push('n');
    } else if c == '\r' {
        out.push('\\');
        out.push('r');
    } else if c == '\t' {
        out.push('\\');
        out.push('t');
    } else if (c as u32) < 0x20 || c as u32 == 0x7f {
        let u = c as u32;
        out.push('\\');
        out.push('u');
        out.push('0');
        out.push('0');
        out.push(hex_digit_of(u / 16));
        out.push(hex_digit_of(u % 16));
    } else {
        out.push(c);
    }
    assert(final(out)@ == old(out)@ + e);
}

fn escape_with(s: &str, dot: bool) -> (r: String)
    ensures
        r@ == (if dot {
            escape_path(s@)
        } else {
            escape_display(s@)
        }),
{
    let chars = chars_of(s);
    let ghost f = if dot {
        |c: char| escape_path_char(c)
    } else {
        |c: char| escape_char(c)
    };
    let mut out = String::new();
    let mut i: usize = 0;
    while i < chars.len()
        invariant
            i <= chars@.len(),
            chars@ == s@,
            f == (if dot {
                |c: char| escape_path_char(c)
            } else {
                |c: char| escape_char(c)
            }),
            out@ == flat_map_chars(chars@.take(i as int), f),
        decreases chars@.len() - i,
    {
        proof {
            lemma_flat_map_take(chars@, i as int, f);
        }
        push_escaped_char(&mut out, chars[i], dot);
        i += 1;
    }
    assert(chars@.take(chars@.len() as int) == chars@);
    out
}

/// Untrusted text made safe to write to a terminal: `\`, `"`, and control
/// characters are escaped (`\n`, `\r`, `\t`, else `\u00XX`).
pub fn escape_display_str(s: &str) -> (r: String)
    ensures
        r@ == escape_display(s@),
{
    escape_with(s, false)
}

/// `escape_display_str`, plus a literal `.` written as `\.`, so a printed path
/// segment splits back unambiguously.
pub fn escape_path_segment(s: &str) -> (r: String)
    ensures
        r@ == escape_path(s@),
{
    escape_with(s, true)
}

/// Decimal digits value of hexadecimal digit characters.
pub open spec fn hex_digits_value(s: Seq<char>) -> nat
    decreases s.len(),
{
    if s.len() == 0 {
        0
    } else {
        hex_digits_value(s.drop_last()) * 16 + hex_value(s.last())->0 as nat
    }
}

pub open spec fn all_hex(s: Seq<char>) -> bool {
    forall|i: int| 0 <= i < s.len() ==> (#[trigger] hex_value(s[i])) is Some
}

/// `u32::from_str_radix(h, 16)` for a string of at most four characters: an
/// optional leading `+` and then at least one hexadecimal digit.
pub open spec fn parse_hex(h: Seq<char>) -> Option<u32> {
    let d = if h.len() > 0 && h[0] == '+' {
        h.drop_first()
    } else {
        h
    };
    if d.len() > 0 && all_hex(d) {
        Some(hex_digits_value(d) as u32)
    } else {
        None
    }
}

/// The character a `\X` escape stands for (other than `\u`).
pub open spec fn unescape_simple(c: char) -> char {
    if c == 'n' {
        '\n'
    } else if c == 'r' {
        '\r'
    } else if c == 't' {
        '\t'
    } else {
        c
    }
}

/// End of the `\uXXXX` digits that start at index 2: up to four characters.
pub open spec fn hex_end(len: int) -> int {
    if len >= 6 {
        6
    } else {
        len
    }
}

/// Reverses the path-segment escapes. An unknown `\X` stands for `X`, a
/// trailing lone `\` is dropped, and a `\u` escape whose (up to four) digits
/// do not name a character is dropped with its digits.
pub open spec fn unescape(s: Seq<char>) -> Seq<char>
    decreases s.len(),
{
    if s.len() == 0 {
        Seq::empty()
    } else if s[0] != '\\' {
        seq![s[0]] + unescape(s.drop_first())
    } else if s.len() == 1 {
        Seq::empty()
    } else if s[1] == 'u' {
        let n = hex_end(s.len() as int);
        let decoded = match parse_hex(s.subrange(2, n)) {
            Some(v) => if is_scalar_value(v) {
                seq![v as char]
            } else {
                Seq::empty()
            },
            None => Seq::empty(),
        };
        decoded + unescape(s.skip(n))
    } else {
        seq![unescape_simple(s[1])] + unescape(s.skip(2))
    }
}

proof fn lemma_hex_digits_bound(s: Seq<char>)
    requires
        all_hex(s),
    ensures
        hex_digits_value(s) < pow16(s.len()),
    decreases s.len(),
{
    if s.len() > 0 {
        assert(all_hex(s.drop_last())) by {
            assert forall|i: int| 0 <= i < s.drop_last().len() implies (#[trigger] hex_value(
                s.drop_last()[i],
            )) is Some by {
                assert(s.drop_last()[i] == s[i]);
            }
        }
        lemma_hex_digits_bound(s.drop_last());
        assert(hex_value(s[s.len() - 1]) is Some);
        assert(hex_value(s.last())->0 < 16);
        assert(hex_digits_value(s.drop_last()) * 16 + hex_value(s.last())->0 < pow16(
            (s.len() - 1) as nat,
        ) * 16) by (nonlinear_arith)
            requires
                hex_digits_value(s.drop_last()) < pow16((s.len() - 1) as nat),
                hex_value(s.last())->0 < 16,
        ;
    }
}

pub open spec fn pow16(n: nat) -> nat
    decreases n,
{
    if n == 0 {
        1
    } else {
        16 * pow16((n - 1) as nat)
    }
}

/// Parses `s[from..to]` (at most four characters) as `u32::from_str_radix(_, 16)` does.
fn parse_hex_range(s: &[char], from: usize, to: usize) -> (r: Option<u32>)
    requires
        from <= to <= s@.len(),
        to - from <= 4,
    ensures
        r == parse_hex(s@.subrange(from as int, to as int)),
{
    let ghost h = s@.subrange(from as int, to as int);
    let start = if from < to && s[from] == '+' {
        from + 1
    } else {
        from
    };
    let ghost d = if h.len() > 0 && h[0] == '+' {
        h.drop_first()
    } else {
        h
    };
    assert(d == s@.subrange(start as int, to as int));
    if start >= to {
        return None;
    }
    let mut acc: u32 = 0;
    let mut i = start;
    while i < to
        invariant
            from <= start <= i <= to <= s@.len(),
            to - start <= 4,
            h == s@.subrange(from as int, to as int),
            d == s@.subrange(start as int, to as int),
            d == (if h.len() > 0 && h[0] == '+' {
                h.drop_first()
            } else {
                h
            }),
            all_hex(s@.subrange(start as int, i as int)),
            acc == hex_digits_value(s@.subrange(start as int, i as int)),
            acc < pow16((i - start) as nat),
        decreases to - i,
    {
        let ghost prev = s@.subrange(start as int, i as int);
        let ghost next = s@.subrange(start as int, i + 1);
        match hex_value_of(s[i]) {
            None => {
                assert(!all_hex(d)) by {
                    assert(d[i - start] == s@[i as int]);
                    assert(hex_value(d[i - start]) is None);
                }
                return None;
            },
            Some(v) => {
                assert(next.drop_last() == prev);
                assert(all_hex(next)) by {
                    assert forall|j: int| 0 <= j < next.len() implies (#[trigger] hex_value(
                        next[j],
                    )) is Some by {
                        if j < prev.len() {
                            assert(next[j] == prev[j]);
                        }
                    }
                }
                assert(v < 16);
                assert(pow16((i - start) as nat) <= 4096) by {
                    reveal_with_fuel(pow16, 5);
                }
                assert(acc * 16 + v < pow16((i + 1 - start) as nat)) by (nonlinear_arith)
                    requires
                        acc < pow16((i - start) as nat),
                        v < 16,
                        pow16((i + 1 - start) as nat) == 16 * pow16((i - start) as nat),
                ;
                acc = acc * 16 + v;
            },
        }
        i += 1;
    }
    assert(s@.subrange(start as int, to as int) == d);
    Some(acc)
}

/// Reverses `escape_path_segment` (and `escape_display_str`) on one segment.
pub fn unescape_path_segment(segment: &[char]) -> (r: String)
    ensures
        r@ == unescape(segment@),
{
    let s = segment;
    let mut out = String::new();
    let mut i: usize = 0;
    assert(s@.skip(0) == s@);
    while i < s.len()
        invariant
            i <= s@.len(),
            unescape(s@) == out@ + unescape(s@.skip(i as int)),
        decreases s@.len() - i,
    {
        let ghost t = s@.skip(i as int);
        assert(t[0] == s@[i as int]);
        let c = s[i];
        if c != '\\' {
            assert(t.drop_first() == s@.skip(i + 1));
            out.push(c);
            i += 1;
        } else if i + 1 >= s.len() {
            assert(t.len() == 1);
            i += 1;
            assert(s@.skip(i as int).len() == 0);
        } else {
            let n = s[i + 1];
            assert(t[1] == n);
            if n == 'u' {
                let end = if s.len() - i >= 6 {
                    i + 6
                } else {
                    s.len()
                };
                assert(t.subrange(2, hex_end(t.len() as int)) == s@.subrange(i + 2, end as int));
                assert(t.skip(hex_end(t.len() as int)) == s@.skip(end as int));
                match parse_hex_range(s, i + 2, end) {
                    Some(v) => {
                        match char::from_u32(v) {
                            Some(ch) => out.push(ch),
                            None => {},
                        }
                    },
                    None => {},
                }
                i = end;
            } else {
                let mapped = if n == 'n' {
                    '\n'
                } else if n == 'r' {
                    '\r'
                } else if n == 't' {
                    '\t'
                } else {
                    n
                };
                assert(t.skip(2) == s@.skip(i + 2));
                out.push(mapped);
                i += 2;
            }
        }
    }
    assert(s@.skip(i as int).len() == 0);
    out
}

/// Splits a `--path` argument on every `.` that is not escaped; a `\` keeps
/// the character after it inside the current segment. `cur` is the segment
/// read so far.
pub open spec fn split_raw(s: Seq<char>, cur: Seq<char>) -> Seq<Seq<char>>
    decreases s.len(),
{
    if s.len() == 0 {
        seq![cur]
    } else if s[0] == '\\' {
        if s.len() == 1 {
            split_raw(s.drop_first(), cur.push('\\'))
        } else {
            split_raw(s.skip(2), cur.push('\\').push(s[1]))
        }
    } else if s[0] == '.' {
        seq![cur] + split_raw(s.drop_first(), Seq::empty())
    } else {
        split_raw(s.drop_first(), cur.push(s[0]))
    }
}

/// The segments of a `--path` argument, each unescaped.
pub open spec fn path_segments(path: Seq<char>) -> Seq<Seq<char>> {
    split_raw(path, Seq::empty()).map_values(|seg: Seq<char>| unescape(seg))
}

/// The raw (still escaped) segments of a path, unescaping left to the caller.
fn split_raw_segments(path: &str) -> (r: Vec<Vec<char>>)
    ensures
        r@.len() == split_raw(path@, Seq::empty()).len(),
        forall|i: int| 0 <= i < r@.len() ==> #[trigger] r@[i]@ == split_raw(path@, Seq::empty())[i],
{
    let s = chars_of(path);
    let mut segments: Vec<Vec<char>> = Vec::new();
    let mut current: Vec<char> = Vec::new();
    let mut i: usize = 0;
    let ghost segs: Seq<Seq<char>> = Seq::empty();
    assert(s@.skip(0) == s@);
    while i < s.len()
        invariant
            i <= s@.len(),
            s@ == path@,
            segs.len() == segments@.len(),
            forall|k: int| 0 <= k < segs.len() ==> #[trigger] segments@[k]@ == segs[k],
            split_raw(path@, Seq::empty()) == segs + split_raw(s@.skip(i as int), current@),
        decreases s@.len() - i,
    {
        let ghost t = s@.skip(i as int);
        assert(t[0] == s@[i as int]);
        let c = s[i];
        if c == '\\' {
            current.push(c);
            if i + 1 < s.len() {
                assert(t[1] == s@[i + 1]);
                current.push(s[i + 1]);
                assert(t.skip(2) == s@.skip(i + 2));
                i += 2;
            } else {
                assert(t.drop_first() == s@.skip(i + 1));
                i += 1;
            }
        } else if c == '.' {
            let mut taken: Vec<char> = Vec::new();
            std::mem::swap(&mut taken, &mut current);
            proof {
                segs = segs.push(taken@);
                assert(t.drop_first() == s@.skip(i + 1));
                assert(seq![taken@] + split_raw(t.drop_first(), Seq::empty()) == split_raw(
                    t,
                    taken@,
                ));
            }
            segments.push(taken);
            i += 1;
        } else {
            current.push(c);
            assert(t.drop_first() == s@.skip(i + 1));
            i += 1;
        }
    }
    proof {
        assert(s@.skip(i as int).len() == 0);
        segs = segs.push(current@);
    }
    segments.push(current);
    segments
}

/// Splits a `--path` argument into segments on unescaped `.` and unescapes each.
pub fn split_path_segments(path: &str) -> (r: Vec<String>)
    ensures
        r@.len() == path_segments(path@).len(),
        forall|i: int| 0 <= i < r@.len() ==> #[trigger] r@[i]@ == path_segments(path@)[i],
{
    let raw = split_raw_segments(path);
    let mut out: Vec<String> = Vec::new();
    let mut i: usize = 0;
    while i < raw.len()
        invariant
            i <= raw@.len(),
            raw@.len() == split_raw(path@, Seq::empty()).len(),
            forall|k: int| 0 <= k < raw@.len() ==> #[trigger] raw@[k]@ == split_raw(path@, Seq::empty())[k],
            out@.len() == i,
            forall|k: int| 0 <= k < i ==> #[trigger] out@[k]@ == path_segments(path@)[k],
        decreases raw@.len() - i,
    {
        let seg = unescape_path_segment(raw[i].as_slice());
        out.push(seg);
        i += 1;
    }
    out
}

pub open spec fn scalar_display(s: JsonScalar) -> Seq<char> {
    match s {
        JsonScalar::Str(v) => seq!['"'] + escape_display(v@) + seq!['"'],
        JsonScalar::Number(v) => v@,
        JsonScalar::Bool(b) => if b {
            "true"@
        } else {
            "false"@
        },
        JsonScalar::Null => "null"@,
    }
}

pub open spec fn scalar_color(s: JsonScalar) -> Color {
    match s {
        JsonScalar::Str(_) => Color::Str,
        JsonScalar::Number(_) => Color::Number,
        JsonScalar::Bool(_) => Color::Bool,
        JsonScalar::Null => Color::Null,
    }
}

impl JsonScalar {
    /// Strings are quoted (and escaped) so a value's type reads from plain
    /// text alone; numbers, booleans and null stay bare.
    pub fn display(&self) -> (r: String)
        ensures
            r@ == scalar_display(*self),
    {
        match self {
            JsonScalar::Str(s) => {
                let mut out = String::new();
                out.push('"');
                let e = escape_display_str(s.as_str());
                push_str(&mut out, e.as_str());
                out.push('"');
                assert(out@ == seq!['"'] + escape_display(s@) + seq!['"']);
                out
            },
            JsonScalar::Number(s) => s.clone(),
            JsonScalar::Bool(b) => if *b {
                String::from_str("true")
            } else {
                String::from_str("false")
            },
            JsonScalar::Null => String::from_str("null"),
        }
    }

    pub fn color(&self) -> (r: Color)
        ensures
            r == scalar_color(*self),
    {
        match self {
            JsonScalar::Str(_) => Color::Str,
            JsonScalar::Number(_) => Color::Number,
            JsonScalar::Bool(_) => Color::Bool,
            JsonScalar::Null => Color::Null,
        }
    }
}

/// `i` is the first field of `fields` whose key is `key`.
pub open spec fn is_first_key(fields: Seq<(String, JsonNode)>, key: Seq<char>, i: int) -> bool {
    &&& 0 <= i < fields.len()
    &&& fields[i].0@ == key
    &&& forall|j: int| 0 <= j < i ==> (#[trigger] fields[j]).0@ != key
}

/// The first field of `fields` with key `key`, if any.
pub open spec fn key_index(fields: Seq<(String, JsonNode)>, key: Seq<char>) -> Option<int> {
    if exists|i: int| is_first_key(fields, key, i) {
        Some(choose|i: int| is_first_key(fields, key, i))
    } else {
        None
    }
}

pub proof fn lemma_first_key_unique(fields: Seq<(String, JsonNode)>, key: Seq<char>, i: int)
    requires
        is_first_key(fields, key, i),
    ensures
        key_index(fields, key) == Some(i),
{
    let k = choose|k: int| is_first_key(fields, key, k);
    assert(is_first_key(fields, key, k));
    if k < i {
        assert(fields[k].0@ != key);
    } else if k > i {
        assert(fields[i].0@ != key);
    }
}

/// Index of the first field named `key`, as `key_index` describes.
pub fn find_key(fields: &Vec<(String, JsonNode)>, key: &String) -> (r: Option<usize>)
    ensures
        r is Some ==> key_index(fields@, key@) == Some(r->0 as int),
        r is None ==> key_index(fields@, key@) is None,
{
    let mut i: usize = 0;
    while i < fields.len()
        invariant
            i <= fields@.len(),
            forall|j: int| 0 <= j < i ==> (#[trigger] fields@[j]).0@ != key@,
        decreases fields@.len() - i,
    {
        if fields[i].0 == *key {
            proof {
                lemma_first_key_unique(fields@, key@, i as int);
            }
            return Some(i);
        }
        i += 1;
    }
    assert(!exists|k: int| is_first_key(fields@, key@, k));
    None
}

/// Where `--path` segments lead from `node`: the node reached, or the first
/// segment that does not resolve (an object without that key, an array index
/// that does not parse or is out of range, or any step below a scalar).
pub open spec fn find_json(node: JsonNode, segs: Seq<Seq<char>>) -> Result<JsonNode, Seq<char>>
    decreases segs.len(),
{
    if segs.len() == 0 {
        Ok(node)
    } else {
        let seg = segs[0];
        match node {
            JsonNode::Object(fields) => match key_index(fields@, seg) {
                Some(i) => find_json(fields@[i].1, segs.drop_first()),
                None => Err(seg),
            },
            JsonNode::Array(items) => match parse_usize_spec(seg) {
                Some(i) => if i < items@.len() {
                    find_json(items@[i as int], segs.drop_first())
                } else {
                    Err(seg)
                },
                None => Err(seg),
            },
            JsonNode::Scalar(_) => Err(seg),
        }
    }
}

/// Resolves a dotted `--path` (see `split_path_segments`) within `node`; the
/// error is the first segment that did not match.
pub fn find_json_path<'a>(node: &'a JsonNode, path: &str) -> (r: Result<&'a JsonNode, String>)
    ensures
        match find_json(*node, path_segments(path@)) {
            Ok(n) => r is Ok && *r->Ok_0 == n,
            Err(seg) => r is Err && r->Err_0@ == seg,
        },
{
    let segments = split_path_segments(path);
    let ghost segs = path_segments(path@);
    let mut current: &'a JsonNode = node;
    let mut i: usize = 0;
    assert(segs.skip(0) == segs);
    while i < segments.len()
        invariant
            i <= segments@.len(),
            segments@.len() == segs.len(),
            segs == path_segments(path@),
            forall|k: int| 0 <= k < segments@.len() ==> #[trigger] segments@[k]@ == segs[k],
            find_json(*node, segs) == find_json(*current, segs.skip(i as int)),
        decreases segments@.len() - i,
    {
        let ghost rest = segs.skip(i as int);
        assert(rest[0] == segs[i as int]);
        assert(rest.drop_first() == segs.skip(i + 1));
        let segment = &segments[i];
        match current {
            JsonNode::Object(fields) => {
                match find_key(fields, segment) {
                    Some(k) => {
                        current = &fields[k].1;
                    },
                    None => {
                        return Err(segment.clone());
                    },
                }
            },
            JsonNode::Array(items) => {
                let chars = chars_of(segment.as_str());
                match parse_usize(chars.as_slice()) {
                    Some(k) => {
                        if k < items.len() {
                            current = &items[k];
                        } else {
                            return Err(segment.clone());
                        }
                    },
                    None => {
                        return Err(segment.clone());
                    },
                }
            },
            JsonNode::Scalar(_) => {
                return Err(segment.clone());
            },
        }
        i += 1;
    }
    assert(segs.skip(i as int).len() == 0);
    Ok(current)
}

} // verus!

verus! {

/// Segments joined by `.`.
pub open spec fn join_dot(segs: Seq<Seq<char>>) -> Seq<char>
    decreases segs.len(),
{
    if segs.len() == 0 {
        Seq::empty()
    } else if segs.len() == 1 {
        segs[0]
    } else {
        segs[0] + seq!['.'] + join_dot(segs.drop_first())
    }
}

/// A path printed the way `--paths` prints it: each segment escaped, joined by `.`.
pub open spec fn display_path_spec(segs: Seq<Seq<char>>) -> Seq<char> {
    join_dot(segs.map_values(|s: Seq<char>| escape_path(s)))
}

proof fn lemma_hex_digit_plain(n: u32)
    requires
        n < 16,
    ensures
        hex_digit(n) != '\\',
        hex_digit(n) != '.',
        hex_digit(n) != 'u',
        hex_value(hex_digit(n)) == Some(n),
{
}

proof fn lemma_split_escaped_char(c: char, rest: Seq<char>, cur: Seq<char>)
    ensures
        split_raw(escape_path_char(c) + rest, cur) == split_raw(rest, cur + escape_path_char(c)),
{
    let e = escape_path_char(c);
    let s = e + rest;
    if e.len() == 1 {
        assert(e == seq![c]);
        assert(s[0] == c);
        assert(s.drop_first() == rest);
        assert(cur.push(c) == cur + e);
    } else if e.len() == 2 {
        assert(s[0] == '\\');
        assert(s[1] == e[1]);
        assert(s.skip(2) == rest);
        assert(cur.push('\\').push(e[1]) == cur + e);
    } else {
        let u = c as u32;
        lemma_hex_digit_plain(u / 16);
        lemma_hex_digit_plain(u % 16);
        assert(s[0] == '\\');
        assert(s[1] == 'u');
        let c2 = cur.push('\\').push('u');
        assert(s.skip(2) == seq!['0', '0', hex_digit(u / 16), hex_digit(u % 16)] + rest);
        let s2 = s.skip(2);
        assert(s2[0] == '0');
        assert(s2.drop_first() == seq!['0', hex_digit(u / 16), hex_digit(u % 16)] + rest);
        let s3 = s2.drop_first();
        assert(s3[0] == '0');
        assert(s3.drop_first() == seq![hex_digit(u / 16), hex_digit(u % 16)] + rest);
        let s4 = s3.drop_first();
        assert(s4[0] == hex_digit(u / 16));
        assert(s4.drop_first() == seq![hex_digit(u % 16)] + rest);
        let s5 = s4.drop_first();
        assert(s5[0] == hex_digit(u % 16));
        assert(s5.drop_first() == rest);
        let c3 = c2.push('0');
        let c4 = c3.push('0');
        let c5 = c4.push(hex_digit(u / 16));
        let c6 = c5.push(hex_digit(u % 16));
        assert(split_raw(s, cur) == split_raw(s2, c2));
        assert(split_raw(s2, c2) == split_raw(s3, c3));
        assert(split_raw(s3, c3) == split_raw(s4, c4));
        assert(split_raw(s4, c4) == split_raw(s5, c5));
        assert(split_raw(s5, c5) == split_raw(rest, c6));
        assert(c2.push('0').push('0').push(hex_digit(u / 16)).push(hex_digit(u % 16)) == cur + e);
    }
}

/// Escaped text holds no segment separator: splitting reads it whole into the
/// current segment.
pub proof fn lemma_split_escaped(x: Seq<char>, rest: Seq<char>, cur: Seq<char>)
    ensures
        split_raw(escape_path(x) + rest, cur) == split_raw(rest, cur + escape_path(x)),
    decreases x.len(),
{
    let f = |c: char| escape_path_char(c);
    if x.len() == 0 {
        assert(escape_path(x) == Seq::<char>::empty());
        assert(escape_path(x) + rest == rest);
        assert(cur + escape_path(x) == cur);
    } else {
        let e = escape_path_char(x[0]);
        let tail = escape_path(x.drop_first());
        assert(escape_path(x) == e + tail);
        assert(escape_path(x) + rest == e + (tail + rest));
        lemma_split_escaped_char(x[0], tail + rest, cur);
        lemma_split_escaped(x.drop_first(), rest, cur + e);
        assert(cur + e + tail == cur + escape_path(x));
    }
}

proof fn lemma_unescape_escaped_char(c: char, rest: Seq<char>)
    ensures
        unescape(escape_path_char(c) + rest) == seq![c] + unescape(rest),
{
    let e = escape_path_char(c);
    let s = e + rest;
    if e.len() == 1 {
        assert(s[0] == c);
        assert(s.drop_first() == rest);
    } else if e.len() == 2 {
        assert(s[0] == '\\');
        assert(s[1] == e[1]);
        assert(s.skip(2) == rest);
    } else {
        let u = c as u32;
        lemma_hex_digit_plain(u / 16);
        lemma_hex_digit_plain(u % 16);
        assert(s[0] == '\\');
        assert(s[1] == 'u');
        assert(hex_end(s.len() as int) == 6);
        let h = s.subrange(2, 6);
        assert(h == seq!['0', '0', hex_digit(u / 16), hex_digit(u % 16)]);
        assert(all_hex(h));
        assert(h.drop_last().drop_last().drop_last().drop_last().len() == 0);
        assert(hex_digits_value(h) == u) by {
            let h3 = h.drop_last();
            let h2 = h3.drop_last();
            let h1 = h2.drop_last();
            let h0 = h1.drop_last();
            assert(h0.len() == 0);
            assert(h1 == seq!['0']);
            assert(h2 == seq!['0', '0']);
            assert(h3 == seq!['0', '0', hex_digit(u / 16)]);
            assert(h1.drop_last() == h0);
            assert(h1.last() == '0');
            assert(hex_value('0') == Some(0u32));
            assert(hex_digits_value(h0) == 0);
            assert(hex_digits_value(h1) == 0);
            assert(h2.drop_last() == h1);
            assert(h3.drop_last() == h2);
            assert(h.drop_last() == h3);
            assert(hex_digits_value(h2) == 0);
            assert(hex_digits_value(h3) == u / 16);
        }
        assert(parse_hex(h) == Some(u));
        assert(is_scalar_value(u));
        assert(s.skip(6) == rest);
    }
}

/// Unescaping reverses `escape_path`.
pub proof fn lemma_unescape_escaped(x: Seq<char>, rest: Seq<char>)
    ensures
        unescape(escape_path(x) + rest) == x + unescape(rest),
    decreases x.len(),
{
    if x.len() == 0 {
        assert(escape_path(x) == Seq::<char>::empty());
        assert(escape_path(x) + rest == rest);
        assert(x + unescape(rest) == unescape(rest));
    } else {
        let e = escape_path_char(x[0]);
        let tail = escape_path(x.drop_first());
        assert(escape_path(x) == e + tail);
        assert(escape_path(x) + rest == e + (tail + rest));
        lemma_unescape_escaped_char(x[0], tail + rest);
        lemma_unescape_escaped(x.drop_first(), rest);
        assert(x == seq![x[0]] + x.drop_first());
    }
}

proof fn lemma_unescape_display_char(c: char, rest: Seq<char>)
    ensures
        unescape(escape_char(c) + rest) == seq![c] + unescape(rest),
{
    if c == '.' {
        let s = escape_char(c) + rest;
        assert(escape_char(c) == seq![c]);
        assert(s[0] == c);
        assert(s.drop_first() == rest);
    } else {
        assert(escape_path_char(c) == escape_char(c));
        lemma_unescape_escaped_char(c, rest);
    }
}

/// Unescaping also reverses `escape_display` alone (the escapes of a
/// segment typed by hand rather than printed by `--paths`).
pub proof fn lemma_unescape_display(x: Seq<char>, rest: Seq<char>)
    ensures
        unescape(escape_display(x) + rest) == x + unescape(rest),
    decreases x.len(),
{
    if x.len() == 0 {
        assert(escape_display(x) == Seq::<char>::empty());
        assert(escape_display(x) + rest == rest);
        assert(x + unescape(rest) == unescape(rest));
    } else {
        let e = escape_char(x[0]);
        let tail = escape_display(x.drop_first());
        assert(escape_display(x) == e + tail);
        assert(escape_display(x) + rest == e + (tail + rest));
        lemma_unescape_display_char(x[0], tail + rest);
        lemma_unescape_display(x.drop_first(), rest);
        assert(x == seq![x[0]] + x.drop_first());
    }
}

proof fn lemma_split_join(segs: Seq<Seq<char>>, cur: Seq<char>)
    requires
        segs.len() >= 1,
    ensures
        split_raw(join_dot(segs.map_values(|s: Seq<char>| escape_path(s))), cur) == seq![
            cur + escape_path(segs[0]),
        ] + segs.drop_first().map_values(|s: Seq<char>| escape_path(s)),
    decreases segs.len(),
{
    let e = segs.map_values(|s: Seq<char>| escape_path(s));
    if segs.len() == 1 {
        assert(join_dot(e) == e[0]);
        lemma_split_escaped(segs[0], Seq::empty(), cur);
        assert(escape_path(segs[0]) + Seq::<char>::empty() == escape_path(segs[0]));
        assert(segs.drop_first().map_values(|s: Seq<char>| escape_path(s)).len() == 0);
    } else {
        let rest = segs.drop_first();
        let er = rest.map_values(|s: Seq<char>| escape_path(s));
        assert(e.drop_first() == er);
        assert(join_dot(e) == e[0] + seq!['.'] + join_dot(er));
        assert(join_dot(e) == escape_path(segs[0]) + (seq!['.'] + join_dot(er)));
        lemma_split_escaped(segs[0], seq!['.'] + join_dot(er), cur);
        let t = seq!['.'] + join_dot(er);
        assert(t[0] == '.');
        assert(t.drop_first() == join_dot(er));
        lemma_split_join(rest, Seq::empty());
        assert(Seq::<char>::empty() + escape_path(rest[0]) == escape_path(rest[0]));
        assert(seq![escape_path(rest[0])] + rest.drop_first().map_values(
            |s: Seq<char>| escape_path(s),
        ) == er);
    }
}

/// A C0 control character or DEL, which a terminal may act on.
pub open spec fn is_terminal_control(c: char) -> bool {
    (c as u32) < 0x20 || c as u32 == 0x7f
}

/// No text shown for a value reaches the terminal with a control character
/// in it: every one is written as an escape.
pub proof fn lemma_display_has_no_controls(s: Seq<char>)
    ensures
        forall|i: int|
            0 <= i < escape_display(s).len() ==> !is_terminal_control(
                #[trigger] escape_display(s)[i],
            ),
    decreases s.len(),
{
    if s.len() > 0 {
        lemma_display_has_no_controls(s.drop_first());
        let c = s[0];
        let head = escape_char(c);
        let rest = escape_display(s.drop_first());
        assert(escape_display(s) == head + rest);
        if (c as u32) < 0x20 || c as u32 == 0x7f {
            let hi = (c as u32) / 16;
            let lo = (c as u32) % 16;
            assert(hex_digit(hi) as u32 >= 48);
            assert(hex_digit(lo) as u32 >= 48);
        }
        assert forall|i: int| 0 <= i < escape_display(s).len() implies !is_terminal_control(
            #[trigger] escape_display(s)[i],
        ) by {
            if i < head.len() {
                assert(escape_display(s)[i] == head[i]);
            } else {
                assert(escape_display(s)[i] == rest[i - head.len()]);
            }
        }
    }
}

proof fn lemma_escape_path_has_no_controls(s: Seq<char>)
    ensures
        forall|i: int|
            0 <= i < escape_path(s).len() ==> !is_terminal_control(#[trigger] escape_path(s)[i]),
    decreases s.len(),
{
    if s.len() > 0 {
        lemma_escape_path_has_no_controls(s.drop_first());
        let c = s[0];
        let head = escape_path_char(c);
        let rest = escape_path(s.drop_first());
        assert(escape_path(s) == head + rest);
        if (c as u32) < 0x20 || c as u32 == 0x7f {
            assert(hex_digit((c as u32) / 16) as u32 >= 48);
            assert(hex_digit((c as u32) % 16) as u32 >= 48);
        }
        assert forall|i: int| 0 <= i < escape_path(s).len() implies !is_terminal_control(
            #[trigger] escape_path(s)[i],
        ) by {
            if i < head.len() {
                assert(escape_path(s)[i] == head[i]);
            } else {
                assert(escape_path(s)[i] == rest[i - head.len()]);
            }
        }
    }
}

proof fn lemma_join_dot_no_controls(segs: Seq<Seq<char>>)
    requires
        forall|k: int, i: int|
            0 <= k < segs.len() && 0 <= i < segs[k].len() ==> !is_terminal_control(
                #[trigger] segs[k][i],
            ),
    ensures
        forall|i: int| 0 <= i < join_dot(segs).len() ==> !is_terminal_control(#[trigger] join_dot(segs)[i]),
    decreases segs.len(),
{
    if segs.len() > 1 {
        let rest = segs.drop_first();
        assert forall|k: int, i: int| 0 <= k < rest.len() && 0 <= i < rest[k].len() implies !is_terminal_control(
            #[trigger] rest[k][i],
        ) by {
            assert(rest[k] == segs[k + 1]);
        }
        lemma_join_dot_no_controls(rest);
        let a = segs[0] + seq!['.'];
        let j = join_dot(rest);
        assert(join_dot(segs) == a + j);
        assert forall|i: int| 0 <= i < (a + j).len() implies !is_terminal_control(#[trigger] (a + j)[i]) by {
            if i < a.len() {
                assert((a + j)[i] == a[i]);
                if i < segs[0].len() {
                    assert(a[i] == segs[0][i]);
                }
            } else {
                assert((a + j)[i] == j[i - a.len()]);
            }
        }
    } else if segs.len() == 1 {
        assert forall|i: int| 0 <= i < join_dot(segs).len() implies !is_terminal_control(
            #[trigger] join_dot(segs)[i],
        ) by {
            assert(join_dot(segs)[i] == segs[0][i]);
        }
    }
}

/// A printed path (`--paths`, the status line, the inspector) holds no
/// control character: every one in a key or element name is escaped.
pub proof fn lemma_printed_path_has_no_controls(segs: Seq<Seq<char>>)
    ensures
        forall|i: int|
            0 <= i < display_path_spec(segs).len() ==> !is_terminal_control(
                #[trigger] display_path_spec(segs)[i],
            ),
{
    let e = segs.map_values(|s: Seq<char>| escape_path(s));
    assert forall|k: int, i: int| 0 <= k < e.len() && 0 <= i < e[k].len() implies !is_terminal_control(
        #[trigger] e[k][i],
    ) by {
        lemma_escape_path_has_no_controls(segs[k]);
        assert(e[k] == escape_path(segs[k]));
    }
    lemma_join_dot_no_controls(e);
}

/// A printed path (`--paths`) splits back into exactly its segments (`--path`).
pub proof fn lemma_path_round_trip(segs: Seq<Seq<char>>)
    requires
        segs.len() >= 1,
    ensures
        path_segments(display_path_spec(segs)) == segs,
{
    lemma_split_join(segs, Seq::empty());
    let raw = split_raw(display_path_spec(segs), Seq::empty());
    assert(Seq::<char>::empty() + escape_path(segs[0]) == escape_path(segs[0]));
    assert(raw.len() == segs.len());
    assert forall|i: int| 0 <= i < segs.len() implies #[trigger] unescape(raw[i]) == segs[i] by {
        assert(raw[i] == escape_path(segs[i]));
        lemma_unescape_escaped(segs[i], Seq::empty());
        assert(escape_path(segs[i]) + Seq::<char>::empty() == escape_path(segs[i]));
        assert(unescape(Seq::<char>::empty()) == Seq::<char>::empty());
        assert(segs[i] + Seq::<char>::empty() == segs[i]);
    }
    assert(path_segments(display_path_spec(segs)) =~= segs);
}

} // verus!

verus! {

/// A parsed YAML value as the parser hands it over: a mapping's keys are
/// kept only when they are strings (`None` stands for any other key), and a
/// tagged value (`!Tag ...`) is only marked.
#[derive(Debug)]
pub enum RawYaml {
    Null,
    Bool(bool),
    Number(String),
    Str(String),
    Sequence(Vec<RawYaml>),
    Mapping(Vec<(Option<String>, RawYaml)>),
    Tagged,
}

pub open spec fn yaml_tag_error() -> Seq<char> {
    "YAML tags are not supported"@
}

pub open spec fn yaml_key_error() -> Seq<char> {
    "YAML mapping keys must be strings"@
}

/// The first problem met converting `raw` in document order: a tag, or a
/// mapping key that is not a string; `None` when it converts.
pub open spec fn yaml_error(raw: RawYaml) -> Option<Seq<char>>
    decreases raw,
{
    match raw {
        RawYaml::Tagged => Some(yaml_tag_error()),
        RawYaml::Sequence(items) => yaml_items_error(items@),
        RawYaml::Mapping(entries) => yaml_entries_error(entries@),
        _ => None,
    }
}

pub open spec fn yaml_items_error(items: Seq<RawYaml>) -> Option<Seq<char>>
    decreases items,
{
    if items.len() == 0 {
        None
    } else {
        match yaml_items_error(items.drop_last()) {
            Some(e) => Some(e),
            None => yaml_error(items.last()),
        }
    }
}

pub open spec fn yaml_entries_error(entries: Seq<(Option<String>, RawYaml)>) -> Option<Seq<char>>
    decreases entries,
{
    if entries.len() == 0 {
        None
    } else {
        match yaml_entries_error(entries.drop_last()) {
            Some(e) => Some(e),
            None => if entries.last().0 is None {
                Some(yaml_key_error())
            } else {
                yaml_error(entries.last().1)
            },
        }
    }
}

/// `node` is the tree of `raw`: scalars kept as they are, a sequence as an
/// array and a mapping as an object, in order.
pub open spec fn yaml_converts(raw: RawYaml, node: JsonNode) -> bool
    decreases raw,
{
    match raw {
        RawYaml::Null => node == JsonNode::Scalar(JsonScalar::Null),
        RawYaml::Bool(b) => node == JsonNode::Scalar(JsonScalar::Bool(b)),
        RawYaml::Number(s) => node matches JsonNode::Scalar(JsonScalar::Number(t)) && t@ == s@,
        RawYaml::Str(s) => node matches JsonNode::Scalar(JsonScalar::Str(t)) && t@ == s@,
        RawYaml::Sequence(items) => node matches JsonNode::Array(ns) && yaml_items_convert(items@, ns@),
        RawYaml::Mapping(entries) => node matches JsonNode::Object(fs) && yaml_entries_convert(entries@, fs@),
        RawYaml::Tagged => false,
    }
}

pub open spec fn yaml_items_convert(items: Seq<RawYaml>, nodes: Seq<JsonNode>) -> bool
    decreases items,
{
    if items.len() == 0 {
        nodes.len() == 0
    } else {
        nodes.len() > 0 && yaml_converts(items.last(), nodes.last()) && yaml_items_convert(
            items.drop_last(),
            nodes.drop_last(),
        )
    }
}

pub open spec fn yaml_entries_convert(entries: Seq<(Option<String>, RawYaml)>, fields: Seq<(String, JsonNode)>) -> bool
    decreases entries,
{
    if entries.len() == 0 {
        fields.len() == 0
    } else {
        &&& fields.len() > 0
        &&& entries.last().0 matches Some(k) && k@ == fields.last().0@
        &&& yaml_converts(entries.last().1, fields.last().1)
        &&& yaml_entries_convert(entries.drop_last(), fields.drop_last())
    }
}

impl JsonNode {
    /// The tree of a YAML value: a sequence becomes an array and a mapping an
    /// object (keys in order). Tags, and mapping keys that are not strings,
    /// are refused with the first one met.
    pub fn from_yaml_value(raw: &RawYaml) -> (r: Result<JsonNode, String>)
        ensures
            r is Ok <==> yaml_error(*raw) is None,
            r matches Ok(n) ==> yaml_converts(*raw, n),
            r matches Err(e) ==> yaml_error(*raw) == Some(e@),
        decreases raw,
    {
        match raw {
            RawYaml::Null => Ok(JsonNode::Scalar(JsonScalar::Null)),
            RawYaml::Bool(b) => Ok(JsonNode::Scalar(JsonScalar::Bool(*b))),
            RawYaml::Number(n) => Ok(JsonNode::Scalar(JsonScalar::Number(n.clone()))),
            RawYaml::Str(s) => Ok(JsonNode::Scalar(JsonScalar::Str(s.clone()))),
            RawYaml::Tagged => Err(String::from_str("YAML tags are not supported")),
            RawYaml::Sequence(items) => {
                let mut out: Vec<JsonNode> = Vec::new();
                let mut i: usize = 0;
                while i < items.len()
                    invariant
                        i <= items@.len(),
                        *raw == RawYaml::Sequence(*items),
                        yaml_items_error(items@.take(i as int)) is None,
                        yaml_items_convert(items@.take(i as int), out@),
                    decreases items@.len() - i,
                {
                    proof {
                        assert(decreases_to!(*raw => raw->Sequence_0@[i as int]));
                    }
                    let ghost t = items@.take(i + 1);
                    assert(t.drop_last() == items@.take(i as int));
                    assert(t.last() == items@[i as int]);
                    match JsonNode::from_yaml_value(&items[i]) {
                        Ok(n) => {
                            let ghost before = out@;
                            out.push(n);
                            assert(out@.drop_last() == before);
                        },
                        Err(e) => {
                            proof {
                                lemma_items_error_prefix(items@, i as int + 1);
                            }
                            return Err(e);
                        },
                    }
                    i += 1;
                }
                assert(items@.take(items@.len() as int) == items@);
                Ok(JsonNode::Array(out))
            },
            RawYaml::Mapping(entries) => {
                let mut out: Vec<(String, JsonNode)> = Vec::new();
                let mut i: usize = 0;
                while i < entries.len()
                    invariant
                        i <= entries@.len(),
                        *raw == RawYaml::Mapping(*entries),
                        yaml_entries_error(entries@.take(i as int)) is None,
                        yaml_entries_convert(entries@.take(i as int), out@),
                    decreases entries@.len() - i,
                {
                    proof {
                        assert(decreases_to!(*raw => raw->Mapping_0@[i as int].1));
                    }
                    let ghost t = entries@.take(i + 1);
                    assert(t.drop_last() == entries@.take(i as int));
                    assert(t.last() == entries@[i as int]);
                    let key = match &entries[i].0 {
                        Some(k) => k.clone(),
                        None => {
                            proof {
                                lemma_entries_error_prefix(entries@, i as int + 1);
                            }
                            return Err(String::from_str("YAML mapping keys must be strings"));
                        },
                    };
                    match JsonNode::from_yaml_value(&entries[i].1) {
                        Ok(n) => {
                            let ghost before = out@;
                            out.push((key, n));
                            assert(out@.drop_last() == before);
                        },
                        Err(e) => {
                            proof {
                                lemma_entries_error_prefix(entries@, i as int + 1);
                            }
                            return Err(e);
                        },
                    }
                    i += 1;
                }
                assert(entries@.take(entries@.len() as int) == entries@);
                Ok(JsonNode::Object(out))
            },
        }
    }
}

proof fn lemma_items_error_prefix(items: Seq<RawYaml>, k: int)
    requires
        0 <= k <= items.len(),
        yaml_items_error(items.take(k)) is Some,
    ensures
        yaml_items_error(items) == yaml_items_error(items.take(k)),
    decreases items.len() - k,
{
    if k < items.len() {
        assert(items.take(k + 1).drop_last() == items.take(k));
        lemma_items_error_prefix(items, k + 1);
    } else {
        assert(items.take(k) == items);
    }
}

proof fn lemma_entries_error_prefix(entries: Seq<(Option<String>, RawYaml)>, k: int)
    requires
        0 <= k <= entries.len(),
        yaml_entries_error(entries.take(k)) is Some,
    ensures
        yaml_entries_error(entries) == yaml_entries_error(entries.take(k)),
    decreases entries.len() - k,
{
    if k < entries.len() {
        assert(entries.take(k + 1).drop_last() == entries.take(k));
        lemma_entries_error_prefix(entries, k + 1);
    } else {
        assert(entries.take(k) == entries);
    }
}

} // verus!
