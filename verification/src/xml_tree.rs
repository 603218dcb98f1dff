//! The XML document tree, the lexical pre-checks run before parsing, and
//! `--path` lookup.
use crate::text::{
    chars_of, decimal, decimal_string, first_non_space, last_non_space_end, push_str,
    string_from_chars, trim, trim_chars,
};
use crate::json_tree::{path_segments, split_path_segments};
use vstd::prelude::*;
use vstd::string::StringSliceAdditionalSpecFns;

verus! {

broadcast use vstd::string::group_string_axioms;

#[derive(Debug, PartialEq)]
pub struct XmlNode {
    pub name: String,
    pub attributes: Vec<(String, String)>,
    pub text: Option<String>,
    pub children: Vec<XmlNode>,
}

/// A parsed XML node as the parser hands it over: an element with its
/// attributes and child nodes, a text node, or anything else (a comment, a
/// processing instruction), which the tree does not show.
#[derive(Debug)]
pub enum RawXml {
    Element { name: String, attributes: Vec<(String, String)>, children: Vec<RawXml> },
    Text(String),
    Other,
}

/// Deepest element nesting accepted, the root element being depth 0.
pub const MAX_XML_DEPTH: usize = 128;

/// Most attributes accepted on one element.
pub const MAX_XML_ATTRIBUTES_PER_ELEMENT: usize = 10000;

// ---------------------------------------------------------------------------
// Lexical pre-checks, on the input's UTF-8 bytes.
// ---------------------------------------------------------------------------

pub open spec fn is_quote(c: u8) -> bool {
    c == 34 || c == 39
}

/// `u8::is_ascii_whitespace`: space, tab, line feed, form feed, carriage return.
pub open spec fn is_ascii_ws(c: u8) -> bool {
    c == 32 || c == 9 || c == 10 || c == 12 || c == 13
}

/// Scanning from `j` with `quote` the open quote character (if any): the
/// first `>` outside quotes.
pub open spec fn tag_end_from(b: Seq<u8>, j: int, quote: Option<u8>) -> Option<int>
    decreases b.len() - j,
{
    if j < 0 || j >= b.len() {
        None
    } else {
        let c = b[j];
        match quote {
            Some(q) => if c == q {
                tag_end_from(b, j + 1, None)
            } else {
                tag_end_from(b, j + 1, quote)
            },
            None => if is_quote(c) {
                tag_end_from(b, j + 1, Some(c))
            } else if c == 62 {
                Some(j)
            } else {
                tag_end_from(b, j + 1, None)
            },
        }
    }
}

/// Whether `pat` occurs in `b` at index `i`.
pub open spec fn bytes_at(b: Seq<u8>, i: int, pat: Seq<u8>) -> bool {
    0 <= i && i + pat.len() <= b.len() && b.subrange(i, i + pat.len()) == pat
}

/// The first index from `j` on where `pat` occurs.
pub open spec fn find_bytes(b: Seq<u8>, j: int, pat: Seq<u8>) -> Option<int>
    decreases b.len() - j,
{
    if j < 0 || j >= b.len() || j + pat.len() > b.len() {
        None
    } else if bytes_at(b, j, pat) {
        Some(j)
    } else {
        find_bytes(b, j + 1, pat)
    }
}

/// The last byte of the first `pat` from `j` on.
pub open spec fn end_of_next(b: Seq<u8>, j: int, pat: Seq<u8>) -> Option<int> {
    match find_bytes(b, j, pat) {
        Some(k) => Some(k + pat.len() - 1),
        None => None,
    }
}

/// `<!--` and `-->`.
pub open spec fn comment_open() -> Seq<u8> {
    seq![60u8, 33, 45, 45]
}

pub open spec fn comment_close() -> Seq<u8> {
    seq![45u8, 45, 62]
}

/// `<![CDATA[` and `]]>`.
pub open spec fn cdata_open() -> Seq<u8> {
    seq![60u8, 33, 91, 67, 68, 65, 84, 65, 91]
}

pub open spec fn cdata_close() -> Seq<u8> {
    seq![93u8, 93, 62]
}

/// `<?` and `?>`.
pub open spec fn pi_open() -> Seq<u8> {
    seq![60u8, 63]
}

pub open spec fn pi_close() -> Seq<u8> {
    seq![63u8, 62]
}

/// The `>` that ends the markup starting at `b[start] == '<'`. A comment
/// ends at its `-->`, a CDATA section at its `]]>` and a processing
/// instruction at its `?>`, whatever quotes they hold; any other tag ends
/// at the first `>` outside a quoted attribute value.
pub open spec fn tag_end(b: Seq<u8>, start: int) -> Option<int> {
    if bytes_at(b, start, comment_open()) {
        end_of_next(b, start + 4, comment_close())
    } else if bytes_at(b, start, cdata_open()) {
        end_of_next(b, start + 9, cdata_close())
    } else if bytes_at(b, start, pi_open()) {
        end_of_next(b, start + 2, pi_close())
    } else {
        tag_end_from(b, start + 1, None)
    }
}

proof fn lemma_find_bytes_bounds(b: Seq<u8>, j: int, pat: Seq<u8>)
    ensures
        find_bytes(b, j, pat) matches Some(k) ==> j <= k && k + pat.len() <= b.len(),
    decreases b.len() - j,
{
    if !(j < 0 || j >= b.len() || j + pat.len() > b.len()) && !bytes_at(b, j, pat) {
        lemma_find_bytes_bounds(b, j + 1, pat);
    }
}

proof fn lemma_tag_end_bounds(b: Seq<u8>, start: int)
    requires
        0 <= start,
    ensures
        tag_end(b, start) matches Some(e) ==> start < e < b.len(),
{
    lemma_find_bytes_bounds(b, start + 4, comment_close());
    lemma_find_bytes_bounds(b, start + 9, cdata_close());
    lemma_find_bytes_bounds(b, start + 2, pi_close());
    lemma_tag_end_from_bounds(b, start + 1, None);
}

proof fn lemma_tag_end_from_bounds(b: Seq<u8>, j: int, quote: Option<u8>)
    ensures
        tag_end_from(b, j, quote) matches Some(e) ==> j <= e < b.len() && b[e] == 62,
    decreases b.len() - j,
{
    if 0 <= j < b.len() {
        let c = b[j];
        match quote {
            Some(q) => if c == q {
                lemma_tag_end_from_bounds(b, j + 1, None);
            } else {
                lemma_tag_end_from_bounds(b, j + 1, quote);
            },
            None => if is_quote(c) {
                lemma_tag_end_from_bounds(b, j + 1, Some(c));
            } else if c != 62 {
                lemma_tag_end_from_bounds(b, j + 1, None);
            },
        }
    }
}

fn has_bytes_at(b: &[u8], i: usize, pat: &Vec<u8>) -> (r: bool)
    ensures
        r == bytes_at(b@, i as int, pat@),
{
    if pat.len() > b.len() || i > b.len() - pat.len() {
        return false;
    }
    let mut k: usize = 0;
    while k < pat.len()
        invariant
            k <= pat@.len(),
            pat@.len() == pat.len(),
            b@.len() == b.len(),
            i + pat@.len() <= b@.len(),
            forall|m: int| 0 <= m < k ==> b@[i + m] == pat@[m],
        decreases pat@.len() - k,
    {
        if b[i + k] != pat[k] {
            assert(b@.subrange(i as int, i + pat@.len())[k as int] != pat@[k as int]);
            return false;
        }
        k += 1;
    }
    assert(b@.subrange(i as int, i + pat@.len()) =~= pat@);
    true
}

/// The last byte of the first `pat` in `b` from `j` on.
fn end_of_next_at(b: &[u8], j: usize, pat: &Vec<u8>) -> (r: Option<usize>)
    requires
        pat@.len() > 0,
    ensures
        r matches Some(e) ==> end_of_next(b@, j as int, pat@) == Some(e as int),
        r is None ==> end_of_next(b@, j as int, pat@) is None,
{
    let mut k = j;
    while k <= b.len() && pat.len() <= b.len() - k
        invariant
            j <= k,
            pat@.len() > 0,
            find_bytes(b@, j as int, pat@) == find_bytes(b@, k as int, pat@),
        decreases b@.len() - k,
    {
        if has_bytes_at(b, k, pat) {
            return Some(k + pat.len() - 1);
        }
        k += 1;
    }
    None
}

fn find_tag_end(bytes: &[u8], start: usize) -> (r: Option<usize>)
    requires
        start < bytes@.len(),
    ensures
        r matches Some(e) ==> tag_end(bytes@, start as int) == Some(e as int),
        r is None ==> tag_end(bytes@, start as int) is None,
{
    assert(bytes@.len() == bytes.len());
    let comment = vec![60u8, 33, 45, 45];
    let cdata = vec![60u8, 33, 91, 67, 68, 65, 84, 65, 91];
    let pi = vec![60u8, 63];
    assert(comment@ =~= comment_open());
    assert(cdata@ =~= cdata_open());
    assert(pi@ =~= pi_open());
    if has_bytes_at(bytes, start, &comment) {
        let close = vec![45u8, 45, 62];
        assert(close@ =~= comment_close());
        return end_of_next_at(bytes, start + 4, &close);
    }
    if has_bytes_at(bytes, start, &cdata) {
        let close = vec![93u8, 93, 62];
        assert(close@ =~= cdata_close());
        return end_of_next_at(bytes, start + 9, &close);
    }
    if has_bytes_at(bytes, start, &pi) {
        let close = vec![63u8, 62];
        assert(close@ =~= pi_close());
        return end_of_next_at(bytes, start + 2, &close);
    }
    let mut j = start + 1;
    let mut quote: Option<u8> = None;
    while j < bytes.len()
        invariant
            start < j <= bytes@.len(),
            tag_end(bytes@, start as int) == tag_end_from(bytes@, j as int, quote),
        decreases bytes@.len() - j,
    {
        let c = bytes[j];
        match quote {
            Some(q) => {
                if c == q {
                    quote = None;
                }
            },
            None => {
                if c == 34 || c == 39 {
                    quote = Some(c);
                } else if c == 62 {
                    return Some(j);
                }
            },
        }
        j += 1;
    }
    None
}

/// The largest index below `end` whose byte is not ASCII white space.
pub open spec fn last_non_ws_before(b: Seq<u8>, end: int) -> Option<int>
    decreases end,
{
    if end <= 0 {
        None
    } else if !is_ascii_ws(b[end - 1]) {
        Some(end - 1)
    } else {
        last_non_ws_before(b, end - 1)
    }
}

/// A tag ending at `end` is self-closing when the last non-white-space byte
/// before its `>` is `/`.
pub open spec fn self_closing(b: Seq<u8>, end: int) -> bool {
    match last_non_ws_before(b, end) {
        Some(p) => b[p] == 47,
        None => false,
    }
}

fn is_self_closing(bytes: &[u8], end: usize) -> (r: bool)
    requires
        end <= bytes@.len(),
    ensures
        r == self_closing(bytes@, end as int),
{
    let mut k = end;
    while k > 0 && (bytes[k - 1] == 32 || bytes[k - 1] == 9 || bytes[k - 1] == 10 || bytes[k - 1]
        == 12 || bytes[k - 1] == 13)
        invariant
            k <= end <= bytes@.len(),
            last_non_ws_before(bytes@, end as int) == last_non_ws_before(bytes@, k as int),
        decreases k,
    {
        k -= 1;
    }
    if k == 0 {
        false
    } else {
        bytes[k - 1] == 47
    }
}

/// What kind of tag starts at `i`: `<!` or `<?` (no depth change), `</`
/// (closing), else an opening tag.
pub open spec fn is_decl_tag(b: Seq<u8>, i: int) -> bool {
    i + 1 < b.len() && (b[i + 1] == 33 || b[i + 1] == 63)
}

pub open spec fn is_close_tag(b: Seq<u8>, i: int) -> bool {
    i + 1 < b.len() && b[i + 1] == 47
}

pub open spec fn dec_depth(depth: nat) -> nat {
    if depth > 0 {
        (depth - 1) as nat
    } else {
        0
    }
}

/// One tag of `nesting_scan`: the tag at `i` ends at `e`.
pub open spec fn nesting_step(b: Seq<u8>, i: int, e: int, depth: nat, max: nat) -> bool
    decreases b.len() - i, 0int,
{
    if e < i || e >= b.len() {
        false
    } else if is_decl_tag(b, i) {
        nesting_scan(b, e + 1, depth, max)
    } else if is_close_tag(b, i) {
        nesting_scan(b, e + 1, dec_depth(depth), max)
    } else if self_closing(b, e) {
        nesting_scan(b, e + 1, depth, max)
    } else if depth + 1 > max {
        true
    } else {
        nesting_scan(b, e + 1, depth + 1, max)
    }
}

/// Lexical nesting scan from byte `i` at current `depth`: whether some
/// opening tag takes the depth past `max`. Scanning stops at a `<` whose tag
/// never ends.
pub open spec fn nesting_scan(b: Seq<u8>, i: int, depth: nat, max: nat) -> bool
    decreases b.len() - i, 1int,
{
    if i < 0 || i >= b.len() {
        false
    } else if b[i] != 60 {
        nesting_scan(b, i + 1, depth, max)
    } else {
        match tag_end(b, i) {
            None => false,
            Some(e) => nesting_step(b, i, e, depth, max),
        }
    }
}

/// A lexical scan for element nesting depth, run before the document goes
/// to the parser (whose own recursion has no depth guard): true when some
/// element opens deeper than `max_depth`.
pub fn xml_nesting_exceeds(input: &str, max_depth: usize) -> (r: bool)
    ensures
        r == nesting_scan(input.spec_bytes(), 0, 0, max_depth as nat),
{
    let bytes = input.as_bytes();
    let mut depth: usize = 0;
    let mut i: usize = 0;
    while i < bytes.len()
        invariant
            i <= bytes@.len(),
            bytes@ == input.spec_bytes(),
            depth <= i,
            nesting_scan(bytes@, 0, 0, max_depth as nat) == nesting_scan(
                bytes@,
                i as int,
                depth as nat,
                max_depth as nat,
            ),
        decreases bytes@.len() - i,
    {
        if bytes[i] != 60 {
            i += 1;
            continue;
        }
        let found = find_tag_end(bytes, i);
        if found.is_none() {
            assert(!nesting_scan(bytes@, i as int, depth as nat, max_depth as nat));
            return false;
        }
        let end = found.unwrap();
        proof {
            lemma_tag_end_bounds(bytes@, i as int);
            assert(nesting_scan(bytes@, i as int, depth as nat, max_depth as nat) == nesting_step(
                bytes@,
                i as int,
                end as int,
                depth as nat,
                max_depth as nat,
            ));
        }
        if i + 1 < bytes.len() && (bytes[i + 1] == 33 || bytes[i + 1] == 63) {
        } else if i + 1 < bytes.len() && bytes[i + 1] == 47 {
            if depth > 0 {
                depth -= 1;
            }
        } else {
            if !is_self_closing(bytes, end) {
                if depth + 1 > max_depth {
                    assert(!is_decl_tag(bytes@, i as int));
                    assert(!is_close_tag(bytes@, i as int));
                    assert(nesting_step(bytes@, i as int, end as int, depth as nat, max_depth as nat));
                    return true;
                }
                depth += 1;
            }
        }
        i = end + 1;
    }
    false
}

proof fn lemma_nesting_step_monotone(b: Seq<u8>, i: int, e: int, depth: nat, m1: nat, m2: nat)
    requires
        m1 <= m2,
        nesting_step(b, i, e, depth, m2),
    ensures
        nesting_step(b, i, e, depth, m1),
    decreases b.len() - i, 0int,
{
    if !(e < i || e >= b.len()) {
        if is_decl_tag(b, i) || self_closing(b, e) && !is_close_tag(b, i) {
            lemma_nesting_monotone(b, e + 1, depth, m1, m2);
        } else if is_close_tag(b, i) {
            lemma_nesting_monotone(b, e + 1, dec_depth(depth), m1, m2);
        } else if depth + 1 <= m1 {
            lemma_nesting_monotone(b, e + 1, depth + 1, m1, m2);
        }
    }
}

proof fn lemma_nesting_monotone(b: Seq<u8>, i: int, depth: nat, m1: nat, m2: nat)
    requires
        m1 <= m2,
        nesting_scan(b, i, depth, m2),
    ensures
        nesting_scan(b, i, depth, m1),
    decreases b.len() - i, 1int,
{
    if 0 <= i < b.len() {
        if b[i] != 60 {
            lemma_nesting_monotone(b, i + 1, depth, m1, m2);
        } else if let Some(e) = tag_end(b, i) {
            lemma_tag_end_bounds(b, i);
            lemma_nesting_step_monotone(b, i, e, depth, m1, m2);
        }
    }
}

/// The nesting check is monotone in its bound: input that nests past a
/// bound nests past every smaller one.
pub proof fn lemma_nesting_check_monotone(input: Seq<u8>, m1: nat, m2: nat)
    requires
        m1 <= m2,
        nesting_scan(input, 0, 0, m2),
    ensures
        nesting_scan(input, 0, 0, m1),
{
    lemma_nesting_monotone(input, 0, 0, m1, m2);
}

/// Number of `=` in `t[i..]` followed (after optional ASCII white space) by a
/// quote: a proxy for attribute assignments that never undercounts.
pub open spec fn attr_count_from(t: Seq<u8>, i: int) -> nat
    decreases t.len() - i,
{
    if i < 0 || i >= t.len() {
        0
    } else if t[i] == 61 && quote_follows(t, i + 1) {
        1 + attr_count_from(t, i + 1)
    } else {
        attr_count_from(t, i + 1)
    }
}

/// The first byte from `j` on that is not ASCII white space is a quote.
pub open spec fn quote_follows(t: Seq<u8>, j: int) -> bool
    decreases t.len() - j,
{
    if j < 0 || j >= t.len() {
        false
    } else if is_ascii_ws(t[j]) {
        quote_follows(t, j + 1)
    } else {
        is_quote(t[j])
    }
}

fn quote_follows_at(b: &[u8], j: usize, stop: usize) -> (r: bool)
    requires
        j <= stop <= b@.len(),
    ensures
        r == quote_follows(b@.subrange(0, stop as int), j as int),
{
    let ghost t = b@.subrange(0, stop as int);
    let mut k = j;
    while k < stop && (b[k] == 32 || b[k] == 9 || b[k] == 10 || b[k] == 12 || b[k] == 13)
        invariant
            j <= k <= stop <= b@.len(),
            t == b@.subrange(0, stop as int),
            quote_follows(t, j as int) == quote_follows(t, k as int),
        decreases stop - k,
    {
        assert(t[k as int] == b@[k as int]);
        k += 1;
    }
    if k < stop {
        assert(t[k as int] == b@[k as int]);
        b[k] == 34 || b[k] == 39
    } else {
        false
    }
}

/// Counts attribute assignments in `b[start..=end]` (one tag).
fn count_attributes(b: &[u8], start: usize, end: usize) -> (r: usize)
    requires
        start <= end < b@.len(),
    ensures
        r == attr_count_from(b@.subrange(start as int, end + 1), 0),
{
    let ghost t = b@.subrange(start as int, end + 1);
    let mut count: usize = 0;
    let mut i = start;
    while i <= end
        invariant
            start <= i <= end + 1,
            end < b@.len(),
            t == b@.subrange(start as int, end + 1),
            count <= i - start,
            attr_count_from(t, 0) == count + attr_count_from(t, i - start),
        decreases end + 1 - i,
    {
        assert(t[i - start] == b@[i as int]);
        if b[i] == 61 {
            let q = quote_follows_at(b, i + 1, end + 1);
            proof {
                lemma_quote_follows_shift(b@, start as int, end + 1, i + 1 - start);
            }
            if q {
                count += 1;
            }
        }
        i += 1;
    }
    count
}

proof fn lemma_quote_follows_shift(b: Seq<u8>, start: int, stop: int, j: int)
    requires
        0 <= start <= stop <= b.len(),
        0 <= j,
    ensures
        quote_follows(b.subrange(start, stop), j) == quote_follows(b.subrange(0, stop), start + j),
    decreases stop - start - j,
{
    let t = b.subrange(start, stop);
    let u = b.subrange(0, stop);
    if j < t.len() {
        assert(t[j] == u[start + j]);
        lemma_quote_follows_shift(b, start, stop, j + 1);
    }
}

/// One tag of `attr_scan`: the tag at `i` ends at `e`.
pub open spec fn attr_step(b: Seq<u8>, i: int, e: int, max: nat) -> bool
    decreases b.len() - i, 0int,
{
    if e < i || e >= b.len() {
        false
    } else if !is_decl_tag(b, i) && !is_close_tag(b, i) && attr_count_from(b.subrange(i, e + 1), 0)
        > max {
        true
    } else {
        attr_scan(b, e + 1, max)
    }
}

/// Lexical scan from byte `i`: whether some element tag holds more than
/// `max` attribute assignments (see `attr_count_from`).
pub open spec fn attr_scan(b: Seq<u8>, i: int, max: nat) -> bool
    decreases b.len() - i, 1int,
{
    if i < 0 || i >= b.len() {
        false
    } else if b[i] != 60 {
        attr_scan(b, i + 1, max)
    } else {
        match tag_end(b, i) {
            None => false,
            Some(e) => attr_step(b, i, e, max),
        }
    }
}

/// A cap on any single element's attribute count, checked lexically before
/// parsing (the parser is quadratic in one element's attribute count).
pub fn xml_attribute_count_exceeds(input: &str, max_attributes: usize) -> (r: bool)
    ensures
        r == attr_scan(input.spec_bytes(), 0, max_attributes as nat),
{
    let bytes = input.as_bytes();
    let mut i: usize = 0;
    while i < bytes.len()
        invariant
            i <= bytes@.len(),
            bytes@ == input.spec_bytes(),
            attr_scan(bytes@, 0, max_attributes as nat) == attr_scan(
                bytes@,
                i as int,
                max_attributes as nat,
            ),
        decreases bytes@.len() - i,
    {
        if bytes[i] != 60 {
            i += 1;
            continue;
        }
        let found = find_tag_end(bytes, i);
        if found.is_none() {
            assert(!attr_scan(bytes@, i as int, max_attributes as nat));
            return false;
        }
        let end = found.unwrap();
        proof {
            lemma_tag_end_bounds(bytes@, i as int);
            assert(attr_scan(bytes@, i as int, max_attributes as nat) == attr_step(
                bytes@,
                i as int,
                end as int,
                max_attributes as nat,
            ));
        }
        let is_element_tag = !(i + 1 < bytes.len() && (bytes[i + 1] == 33 || bytes[i + 1] == 63
            || bytes[i + 1] == 47));
        if is_element_tag && count_attributes(bytes, i, end) > max_attributes {
            assert(!is_decl_tag(bytes@, i as int));
            assert(!is_close_tag(bytes@, i as int));
            return true;
        }
        i = end + 1;
    }
    false
}

} // verus!

verus! {

// ---------------------------------------------------------------------------
// Building the tree from parsed nodes.
// ---------------------------------------------------------------------------

/// The non-empty trimmed contents of the text children, in order.
pub open spec fn text_parts(children: Seq<RawXml>) -> Seq<Seq<char>>
    decreases children.len(),
{
    if children.len() == 0 {
        Seq::empty()
    } else {
        let rest = text_parts(children.drop_last());
        match children.last() {
            RawXml::Text(t) => if trim(t@).len() > 0 {
                rest.push(trim(t@))
            } else {
                rest
            },
            _ => rest,
        }
    }
}

/// Parts joined by single spaces.
pub open spec fn join_space(parts: Seq<Seq<char>>) -> Seq<char>
    decreases parts.len(),
{
    if parts.len() == 0 {
        Seq::empty()
    } else if parts.len() == 1 {
        parts[0]
    } else {
        join_space(parts.drop_last()) + seq![' '] + parts.last()
    }
}

/// The text an element shows: its text children, trimmed, empty ones left
/// out, joined by spaces.
pub open spec fn element_text(children: Seq<RawXml>) -> Seq<char> {
    join_space(text_parts(children))
}

/// Whether converting `raw` (an element at nesting `depth`) fails: the
/// element or one of its descendant elements lies deeper than `MAX_XML_DEPTH`.
pub open spec fn raw_fails(raw: RawXml, depth: nat) -> bool
    decreases raw,
{
    match raw {
        RawXml::Element { children, .. } => depth > MAX_XML_DEPTH || children_fail(
            children@,
            depth + 1,
        ),
        _ => false,
    }
}

pub open spec fn children_fail(children: Seq<RawXml>, depth: nat) -> bool
    decreases children,
{
    if children.len() == 0 {
        false
    } else {
        children_fail(children.drop_last(), depth) || match children.last() {
            RawXml::Element { .. } => raw_fails(children.last(), depth),
            _ => false,
        }
    }
}

/// `node` is the tree of the element `raw` at nesting `depth`: same name and
/// attributes, the text `element_text` describes (`None` when it is empty),
/// and one child per element child, in order.
pub open spec fn raw_converts(raw: RawXml, depth: nat, node: XmlNode) -> bool
    decreases raw,
{
    match raw {
        RawXml::Element { name, attributes, children } => {
            &&& node.name@ == name@
            &&& node.attributes@.len() == attributes@.len()
            &&& forall|k: int|
                0 <= k < attributes@.len() ==> (#[trigger] node.attributes@[k]).0@
                    == attributes@[k].0@ && node.attributes@[k].1@ == attributes@[k].1@
            &&& match node.text {
                None => element_text(children@).len() == 0,
                Some(t) => element_text(children@).len() > 0 && t@ == element_text(children@),
            }
            &&& children_convert(children@, depth + 1, node.children@)
        },
        _ => false,
    }
}

pub open spec fn children_convert(children: Seq<RawXml>, depth: nat, nodes: Seq<XmlNode>) -> bool
    decreases children,
{
    if children.len() == 0 {
        nodes.len() == 0
    } else {
        match children.last() {
            RawXml::Element { .. } => nodes.len() > 0 && raw_converts(
                children.last(),
                depth,
                nodes.last(),
            ) && children_convert(children.drop_last(), depth, nodes.drop_last()),
            _ => children_convert(children.drop_last(), depth, nodes),
        }
    }
}

pub open spec fn depth_error() -> Seq<char> {
    "XML nesting exceeds max depth ("@ + decimal(MAX_XML_DEPTH as nat) + ")"@
}

fn depth_error_message() -> (r: String)
    ensures
        r@ == depth_error(),
{
    let mut s = String::new();
    push_str(&mut s, "XML nesting exceeds max depth (");
    let n = decimal_string(MAX_XML_DEPTH);
    push_str(&mut s, n.as_str());
    push_str(&mut s, ")");
    s
}

fn copy_attributes(attributes: &Vec<(String, String)>) -> (r: Vec<(String, String)>)
    ensures
        r@.len() == attributes@.len(),
        forall|k: int|
            0 <= k < attributes@.len() ==> (#[trigger] r@[k]).0@ == attributes@[k].0@ && r@[k].1@
                == attributes@[k].1@,
{
    let mut out: Vec<(String, String)> = Vec::new();
    let mut i: usize = 0;
    while i < attributes.len()
        invariant
            i <= attributes@.len(),
            out@.len() == i,
            forall|k: int|
                0 <= k < i ==> (#[trigger] out@[k]).0@ == attributes@[k].0@ && out@[k].1@
                    == attributes@[k].1@,
        decreases attributes@.len() - i,
    {
        let (k, v) = &attributes[i];
        out.push((k.clone(), v.clone()));
        i += 1;
    }
    out
}

impl XmlNode {
    /// Builds the tree of a document from its root element.
    pub fn from_document(root: &RawXml) -> (r: Result<XmlNode, String>)
        requires
            root is Element,
        ensures
            r is Ok <==> !raw_fails(*root, 0),
            r matches Ok(n) ==> raw_converts(*root, 0, n),
            r matches Err(e) ==> e@ == depth_error(),
    {
        XmlNode::from_element(root, 0)
    }

    /// Builds the tree of the element `raw` found at nesting `depth` (the root
    /// element is depth 0): keeps its name and attributes, joins its trimmed
    /// non-empty text children with spaces, and converts its element children.
    /// Fails when any element lies deeper than `MAX_XML_DEPTH`.
    pub fn from_element(raw: &RawXml, depth: usize) -> (r: Result<XmlNode, String>)
        requires
            raw is Element,
        ensures
            r is Ok <==> !raw_fails(*raw, depth as nat),
            r matches Ok(n) ==> raw_converts(*raw, depth as nat, n),
            r matches Err(e) ==> e@ == depth_error(),
        decreases raw,
    {
        match raw {
            RawXml::Element { name, attributes, children } => {
                if depth > MAX_XML_DEPTH {
                    return Err(depth_error_message());
                }
                let mut nodes: Vec<XmlNode> = Vec::new();
                let mut text = String::new();
                let ghost mut parts: Seq<Seq<char>> = Seq::empty();
                let mut i: usize = 0;
                while i < children.len()
                    invariant
                        i <= children@.len(),
                        depth <= MAX_XML_DEPTH,
                        *raw == (RawXml::Element {
                            name: *name,
                            attributes: *attributes,
                            children: *children,
                        }),
                        !children_fail(children@.take(i as int), (depth + 1) as nat),
                        children_convert(children@.take(i as int), (depth + 1) as nat, nodes@),
                        parts == text_parts(children@.take(i as int)),
                        forall|k: int| 0 <= k < parts.len() ==> (#[trigger] parts[k]).len() > 0,
                        text@ == join_space(parts),
                    decreases children@.len() - i,
                {
                    let ghost prev = children@.take(i as int);
                    assert(children@.take(i + 1).drop_last() == prev);
                    assert(children@.take(i + 1).last() == children@[i as int]);
                    match &children[i] {
                        RawXml::Element { .. } => {
                            proof {
                                assert(raw->Element_children == *children);
                                assert(decreases_to!(*raw => raw->Element_children));
                                assert(decreases_to!(*raw => raw->Element_children@));
                                assert(decreases_to!(*raw => raw->Element_children@[i as int]));
                            }
                            let child = XmlNode::from_element(&children[i], depth + 1);
                            match child {
                                Ok(n) => {
                                    let ghost before = nodes@;
                                    nodes.push(n);
                                    assert(nodes@.drop_last() == before);
                                },
                                Err(e) => {
                                    assert(children_fail(children@.take(i + 1), (depth + 1) as nat));
                                    assert(children_fail(children@, (depth + 1) as nat)) by {
                                        lemma_children_fail_prefix(
                                            children@,
                                            i + 1,
                                            (depth + 1) as nat,
                                        );
                                    }
                                    assert(raw_fails(*raw, depth as nat));
                                    return Err(e);
                                },
                            }
                        },
                        RawXml::Text(t) => {
                            let chars = chars_of(t.as_str());
                            let trimmed = trim_chars(chars.as_slice());
                            if trimmed.len() > 0 {
                                let part = string_from_chars(trimmed.as_slice());
                                proof {
                                    if parts.len() > 0 {
                                        assert(parts.push(trimmed@).drop_last() == parts);
                                    }
                                }
                                if parts_nonempty(&text, Ghost(parts)) {
                                    text.push(' ');
                                }
                                push_str(&mut text, part.as_str());
                                proof {
                                    parts = parts.push(trimmed@);
                                }
                            }
                        },
                        RawXml::Other => {},
                    }
                    i += 1;
                }
                assert(children@.take(children@.len() as int) == children@);
                let node = XmlNode {
                    name: name.clone(),
                    attributes: copy_attributes(attributes),
                    text: if text.as_str().is_empty() {
                        None
                    } else {
                        Some(text)
                    },
                    children: nodes,
                };
                Ok(node)
            },
            _ => {
                assert(false);
                Err(String::new())
            },
        }
    }
}

/// Whether the joined text so far has any part, known from the text itself:
/// parts are never empty, so the join is empty exactly when there are none.
fn parts_nonempty(text: &String, parts: Ghost<Seq<Seq<char>>>) -> (r: bool)
    requires
        text@ == join_space(parts@),
        forall|k: int| 0 <= k < parts@.len() ==> (#[trigger] parts@[k]).len() > 0,
    ensures
        r == (parts@.len() > 0),
{
    proof {
        if parts@.len() > 0 {
            lemma_join_space_len(parts@);
        }
    }
    !text.as_str().is_empty()
}

proof fn lemma_join_space_len(parts: Seq<Seq<char>>)
    requires
        parts.len() > 0,
        forall|k: int| 0 <= k < parts.len() ==> (#[trigger] parts[k]).len() > 0,
    ensures
        join_space(parts).len() > 0,
    decreases parts.len(),
{
    if parts.len() > 1 {
        assert(parts.last() == parts[parts.len() - 1]);
    } else {
        assert(parts[0].len() > 0);
    }
}

proof fn lemma_children_fail_prefix(children: Seq<RawXml>, n: int, depth: nat)
    requires
        0 <= n <= children.len(),
        children_fail(children.take(n), depth),
    ensures
        children_fail(children, depth),
    decreases children.len() - n,
{
    if n < children.len() {
        assert(children.take(n + 1).drop_last() == children.take(n));
        lemma_children_fail_prefix(children, n + 1, depth);
    } else {
        assert(children.take(n) == children);
    }
}

/// The first child named `name`, if any.
pub open spec fn is_first_child(children: Seq<XmlNode>, name: Seq<char>, i: int) -> bool {
    &&& 0 <= i < children.len()
    &&& children[i].name@ == name
    &&& forall|j: int| 0 <= j < i ==> (#[trigger] children[j]).name@ != name
}

pub open spec fn child_index(children: Seq<XmlNode>, name: Seq<char>) -> Option<int> {
    if exists|i: int| is_first_child(children, name, i) {
        Some(choose|i: int| is_first_child(children, name, i))
    } else {
        None
    }
}

/// Where `--path` segments lead from `node`, or the first segment with no
/// matching child element.
pub open spec fn find_xml(node: XmlNode, segs: Seq<Seq<char>>) -> Result<XmlNode, Seq<char>>
    decreases segs.len(),
{
    if segs.len() == 0 {
        Ok(node)
    } else {
        match child_index(node.children@, segs[0]) {
            Some(i) => find_xml(node.children@[i], segs.drop_first()),
            None => Err(segs[0]),
        }
    }
}

pub proof fn lemma_first_child_unique(children: Seq<XmlNode>, name: Seq<char>, i: int)
    requires
        is_first_child(children, name, i),
    ensures
        child_index(children, name) == Some(i),
{
    let k = choose|k: int| is_first_child(children, name, k);
    assert(is_first_child(children, name, k));
    if k < i {
        assert(children[k].name@ != name);
    } else if k > i {
        assert(children[i].name@ != name);
    }
}

/// Index of the first child named `name`, as `child_index` describes.
fn find_child(children: &Vec<XmlNode>, name: &String) -> (r: Option<usize>)
    ensures
        r is Some ==> child_index(children@, name@) == Some(r->0 as int),
        r is None ==> child_index(children@, name@) is None,
{
    let mut j: usize = 0;
    while j < children.len()
        invariant
            j <= children@.len(),
            forall|k: int| 0 <= k < j ==> (#[trigger] children@[k]).name@ != name@,
        decreases children@.len() - j,
    {
        if children[j].name == *name {
            proof {
                lemma_first_child_unique(children@, name@, j as int);
            }
            return Some(j);
        }
        j += 1;
    }
    assert(!exists|k: int| is_first_child(children@, name@, k));
    None
}

/// Resolves a dotted `--path` of child element names within `node`, split
/// and unescaped as `split_path_segments` does for JSON (so `a\.b` names
/// one element `a.b`); the error is the first segment with no matching
/// child.
pub fn find_xml_path<'a>(node: &'a XmlNode, path: &str) -> (r: Result<&'a XmlNode, String>)
    ensures
        match find_xml(*node, path_segments(path@)) {
            Ok(n) => r is Ok && *r->Ok_0 == n,
            Err(seg) => r is Err && r->Err_0@ == seg,
        },
{
    let segments = split_path_segments(path);
    let ghost segs = path_segments(path@);
    let mut current: &'a XmlNode = node;
    let mut i: usize = 0;
    assert(segs.skip(0) == segs);
    while i < segments.len()
        invariant
            i <= segments@.len(),
            segments@.len() == segs.len(),
            segs == path_segments(path@),
            forall|k: int| 0 <= k < segments@.len() ==> #[trigger] segments@[k]@ == segs[k],
            find_xml(*node, segs) == find_xml(*current, segs.skip(i as int)),
        decreases segments@.len() - i,
    {
        let ghost rest = segs.skip(i as int);
        assert(rest[0] == segs[i as int]);
        assert(rest.drop_first() == segs.skip(i + 1));
        let segment = &segments[i];
        let found = find_child(&current.children, segment);
        match found {
            Some(k) => {
                current = &current.children[k];
            },
            None => {
                return Err(segment.clone());
            },
        }
        i += 1;
    }
    assert(segs.skip(i as int).len() == 0);
    Ok(current)
}

} // verus!
