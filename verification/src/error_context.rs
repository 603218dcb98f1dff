//! Parse errors shown as a snippet of the input with a caret under the
//! offending column, like a compiler's diagnostics.
use crate::text::{
    char_of, chars_of, decimal, decimal_string, flat_map_chars, lemma_flat_map_concat,
    lemma_flat_map_take, push_str, string_from_chars,
};
use vstd::prelude::*;

verus! {

broadcast use vstd::string::group_string_axioms;

/// Lines of context shown before and after the offending line.
pub const CONTEXT_LINES: usize = 2;

/// Columns a tab is expanded to.
pub const TAB_WIDTH: usize = 4;

/// Longest snippet line shown; longer ones are cut around the caret.
pub const MAX_LINE_LEN: usize = 200;

// ---------------------------------------------------------------------------
// Lines of the input.
// ---------------------------------------------------------------------------

/// A line without the `\r` of a `\r\n` ending.
pub open spec fn strip_cr(l: Seq<char>) -> Seq<char> {
    if l.len() > 0 && l.last() == '\r' {
        l.drop_last()
    } else {
        l
    }
}

/// The finished lines of `s` and the unfinished last one, reading it left to
/// right: each `\n` ends a line (dropping a `\r` before it).
pub open spec fn lines_fold(s: Seq<char>) -> (Seq<Seq<char>>, Seq<char>)
    decreases s.len(),
{
    if s.len() == 0 {
        (Seq::empty(), Seq::empty())
    } else {
        let (ls, cur) = lines_fold(s.drop_last());
        if s.last() == '\n' {
            (ls.push(strip_cr(cur)), Seq::empty())
        } else {
            (ls, cur.push(s.last()))
        }
    }
}

/// The lines of `s` as `str::lines` gives them: split at `\n` (and `\r\n`),
/// with no empty last line after a final line ending.
pub open spec fn text_lines(s: Seq<char>) -> Seq<Seq<char>> {
    let (ls, cur) = lines_fold(s);
    if cur.len() > 0 {
        ls.push(cur)
    } else {
        ls
    }
}

/// The lines of `text`, as `str::lines` splits them.
pub fn split_lines(text: &str) -> (r: Vec<String>)
    ensures
        r@.map_values(|l: String| l@) == text_lines(text@),
{
    let cs = chars_of(text);
    let ghost s = cs@;
    let mut out: Vec<String> = Vec::new();
    let mut cur: Vec<char> = Vec::new();
    let mut i: usize = 0;
    while i < cs.len()
        invariant
            i <= cs@.len(),
            s == cs@,
            s == text@,
            out@.map_values(|l: String| l@) == lines_fold(s.take(i as int)).0,
            cur@ == lines_fold(s.take(i as int)).1,
        decreases cs@.len() - i,
    {
        assert(s.take(i + 1).drop_last() == s.take(i as int));
        let c = cs[i];
        if c == '\n' {
            let n = cur.len();
            let line = if n > 0 && cur[n - 1] == '\r' {
                let mut t = cur.clone();
                t.pop();
                assert(t@ == cur@.drop_last());
                string_from_chars(t.as_slice())
            } else {
                string_from_chars(cur.as_slice())
            };
            let ghost before = out@;
            out.push(line);
            assert(out@.map_values(|l: String| l@) =~= before.map_values(|l: String| l@).push(
                strip_cr(cur@),
            ));
            cur = Vec::new();
        } else {
            cur.push(c);
        }
        i += 1;
    }
    assert(s.take(cs@.len() as int) == s);
    if cur.len() > 0 {
        let ghost before = out@;
        out.push(string_from_chars(cur.as_slice()));
        assert(out@.map_values(|l: String| l@) =~= before.map_values(|l: String| l@).push(cur@));
    }
    out
}

// ---------------------------------------------------------------------------
// Characters as shown in a snippet.
// ---------------------------------------------------------------------------

/// The Unicode `Cc` (control) category: U+0000-U+001F and U+007F-U+009F.
pub open spec fn is_control(c: char) -> bool {
    (c as u32) <= 0x1F || (0x7F <= (c as u32) && (c as u32) <= 0x9F)
}

/// A control character other than tab shown as U+FFFD, one for one.
pub open spec fn sanitize_char(c: char) -> char {
    if c != '\t' && is_control(c) {
        '\u{fffd}'
    } else {
        c
    }
}

pub open spec fn sanitize(s: Seq<char>) -> Seq<char> {
    s.map_values(|c: char| sanitize_char(c))
}

/// `text` with every control character but tab replaced by U+FFFD, one for
/// one, so a malformed input cannot write terminal escapes into the error.
pub fn sanitize_control_chars(text: &str) -> (r: String)
    ensures
        r@ == sanitize(text@),
{
    let cs = chars_of(text);
    let mut out = String::new();
    let mut i: usize = 0;
    while i < cs.len()
        invariant
            i <= cs@.len(),
            cs@ == text@,
            out@ == sanitize(cs@.take(i as int)),
        decreases cs@.len() - i,
    {
        let c = cs[i];
        let u = c as u32;
        if c != '\t' && (u <= 0x1F || (0x7F <= u && u <= 0x9F)) {
            out.push('\u{fffd}');
        } else {
            out.push(c);
        }
        assert(sanitize(cs@.take(i + 1)) =~= sanitize(cs@.take(i as int)).push(sanitize_char(c)));
        i += 1;
    }
    assert(cs@.take(cs@.len() as int) == cs@);
    out
}

pub open spec fn tab_expansion(c: char) -> Seq<char> {
    if c == '\t' {
        "    "@
    } else {
        seq![c]
    }
}

/// `s` with each tab replaced by `TAB_WIDTH` spaces.
pub open spec fn expand_tabs_spec(s: Seq<char>) -> Seq<char> {
    flat_map_chars(s, |c: char| tab_expansion(c))
}

/// `text` with each tab replaced by four spaces.
pub fn expand_tabs(text: &str) -> (r: String)
    ensures
        r@ == expand_tabs_spec(text@),
{
    let cs = chars_of(text);
    let mut out = String::new();
    let mut i: usize = 0;
    while i < cs.len()
        invariant
            i <= cs@.len(),
            cs@ == text@,
            out@ == flat_map_chars(cs@.take(i as int), |c: char| tab_expansion(c)),
        decreases cs@.len() - i,
    {
        proof {
            lemma_flat_map_take(cs@, i as int, |c: char| tab_expansion(c));
        }
        if cs[i] == '\t' {
            push_str(&mut out, "    ");
        } else {
            out.push(cs[i]);
        }
        i += 1;
    }
    assert(cs@.take(cs@.len() as int) == cs@);
    out
}

/// The bytes of a character in UTF-8.
pub open spec fn utf8_len(c: char) -> nat {
    if (c as u32) < 0x80 {
        1
    } else if (c as u32) < 0x800 {
        2
    } else if (c as u32) < 0x10000 {
        3
    } else {
        4
    }
}

/// How many characters of `s` start before byte `target` of its UTF-8 form.
pub open spec fn chars_before_byte(s: Seq<char>, target: int) -> nat
    decreases s.len(),
{
    if s.len() == 0 || target <= 0 {
        0
    } else {
        1 + chars_before_byte(s.drop_first(), target - utf8_len(s[0]))
    }
}

/// The 0-based character column of a 1-based `column`, which is a byte
/// offset into the line's UTF-8 form when `column_is_byte_offset`.
pub open spec fn char_column_spec(line: Seq<char>, column: nat, column_is_byte_offset: bool) -> nat {
    let c0: nat = if column > 0 {
        (column - 1) as nat
    } else {
        0
    };
    if column_is_byte_offset {
        chars_before_byte(line, c0 as int)
    } else {
        c0
    }
}

fn utf8_len_of(c: char) -> (r: usize)
    ensures
        r == utf8_len(c),
{
    let u = c as u32;
    if u < 0x80 {
        1
    } else if u < 0x800 {
        2
    } else if u < 0x10000 {
        3
    } else {
        4
    }
}

proof fn lemma_chars_before_byte_skip(s: Seq<char>, i: int, target: int)
    requires
        0 <= i < s.len(),
        target > 0,
    ensures
        chars_before_byte(s.skip(i), target) == 1 + chars_before_byte(s.skip(i + 1), target
            - utf8_len(s[i])),
{
    assert(s.skip(i).drop_first() == s.skip(i + 1));
}

/// The 0-based character column of a 1-based `column` (a byte offset into
/// the line's UTF-8 form when `column_is_byte_offset`).
pub fn char_column(line: &str, column: usize, column_is_byte_offset: bool) -> (r: usize)
    ensures
        r == char_column_spec(line@, column as nat, column_is_byte_offset),
{
    let target = column.saturating_sub(1);
    if !column_is_byte_offset {
        return target;
    }
    let cs = chars_of(line);
    let ghost s = cs@;
    let mut i: usize = 0;
    let mut byte: usize = 0;
    assert(s.skip(0) =~= s);
    while i < cs.len() && byte < target
        invariant
            i <= cs@.len(),
            s == cs@,
            s == line@,
            byte <= target,
            chars_before_byte(s, target as int) == i + chars_before_byte(s.skip(i as int), target
                - byte),
        decreases cs@.len() - i,
    {
        proof {
            lemma_chars_before_byte_skip(s, i as int, target - byte);
        }
        let l = utf8_len_of(cs[i]);
        byte = if target - byte < l {
            target
        } else {
            byte + l
        };
        i += 1;
    }
    proof {
        if i == cs@.len() {
            assert(s.skip(i as int).len() == 0);
        }
    }
    i
}

pub open spec fn min_of(a: int, b: int) -> int {
    if a <= b {
        a
    } else {
        b
    }
}

pub open spec fn sat_sub(a: nat, b: nat) -> nat {
    if a >= b {
        (a - b) as nat
    } else {
        0
    }
}

/// The caret's column after tab expansion: how wide the first `char_col`
/// characters of `line` are once expanded.
pub open spec fn expanded_column(line: Seq<char>, char_col: nat) -> nat {
    expand_tabs_spec(line.take(min_of(char_col as int, line.len() as int))).len()
}

/// The caret's column after tab expansion.
pub fn expanded_char_column(line: &str, char_col: usize) -> (r: usize)
    ensures
        r == expanded_column(line@, char_col as nat),
{
    let cs = chars_of(line);
    let k = if char_col <= cs.len() {
        char_col
    } else {
        cs.len()
    };
    let mut prefix: Vec<char> = Vec::new();
    let mut i: usize = 0;
    while i < k
        invariant
            i <= k <= cs@.len(),
            prefix@ == cs@.take(i as int),
        decreases k - i,
    {
        prefix.push(cs[i]);
        assert(cs@.take(i + 1) == cs@.take(i as int).push(cs@[i as int]));
        i += 1;
    }
    let p = string_from_chars(prefix.as_slice());
    let e = expand_tabs(p.as_str());
    chars_of(e.as_str()).len()
}

/// A snippet line of at most `MAX_LINE_LEN` characters around the caret,
/// with `…` where it was cut, and the caret's column in it.
pub open spec fn truncate_spec(line: Seq<char>, caret: nat) -> (Seq<char>, nat) {
    if line.len() <= MAX_LINE_LEN {
        (line, caret)
    } else {
        let half = MAX_LINE_LEN / 2;
        let start = min_of(sat_sub(caret, half as nat) as int, line.len() - MAX_LINE_LEN);
        let end = min_of(start + MAX_LINE_LEN, line.len() as int);
        let body = line.subrange(start, end);
        let adjusted = sat_sub(caret, start as nat);
        let shown = if start > 0 {
            seq!['\u{2026}'] + body
        } else {
            body
        };
        (
            if end < line.len() {
                shown.push('\u{2026}')
            } else {
                shown
            },
            if start > 0 {
                adjusted + 1
            } else {
                adjusted
            },
        )
    }
}

/// Cuts a long snippet line to `MAX_LINE_LEN` characters around the caret
/// (marking the cuts with `…`); returns it and the caret's column in it.
pub fn truncate_for_display(line: &str, caret_col: usize) -> (r: (String, usize))
    ensures
        r.0@ == truncate_spec(line@, caret_col as nat).0,
        r.1 == truncate_spec(line@, caret_col as nat).1,
{
    let cs = chars_of(line);
    let n = cs.len();
    if n <= MAX_LINE_LEN {
        return (String::from_str(line), caret_col);
    }
    let half = MAX_LINE_LEN / 2;
    let a = caret_col.saturating_sub(half);
    let start = if a < n - MAX_LINE_LEN {
        a
    } else {
        n - MAX_LINE_LEN
    };
    let end = start + MAX_LINE_LEN;
    let mut display = String::new();
    if start > 0 {
        display.push('\u{2026}');
    }
    let ghost head = display@;
    let mut i = start;
    while i < end
        invariant
            start <= i <= end <= n,
            n == cs@.len(),
            display@ == head + cs@.subrange(start as int, i as int),
        decreases end - i,
    {
        display.push(cs[i]);
        assert(cs@.subrange(start as int, i + 1) == cs@.subrange(start as int, i as int).push(
            cs@[i as int],
        ));
        i += 1;
    }
    let mut adjusted = caret_col.saturating_sub(start);
    if start > 0 {
        adjusted += 1;
    }
    if end < n {
        display.push('\u{2026}');
    }
    (display, adjusted)
}

/// `n` spaces.
pub open spec fn spaces(n: nat) -> Seq<char> {
    Seq::new(n, |i: int| ' ')
}

fn push_spaces(out: &mut String, n: usize)
    ensures
        final(out)@ == old(out)@ + spaces(n as nat),
{
    let mut i: usize = 0;
    while i < n
        invariant
            i <= n,
            out@ == old(out)@ + spaces(i as nat),
        decreases n - i,
    {
        out.push(' ');
        assert(spaces((i + 1) as nat) =~= spaces(i as nat).push(' '));
        i += 1;
    }
}

/// The caret line: the `^` under character `char_col` of a snippet line
/// whose line-number gutter is `width` wide.
pub open spec fn caret_line_spec(width: nat, char_col: nat) -> Seq<char> {
    spaces(width + 3 + char_col) + "^\n"@
}

/// The caret line under character `char_col` of a snippet line.
pub fn caret_line(width: usize, char_col: usize) -> (r: String)
    ensures
        r@ == caret_line_spec(width as nat, char_col as nat),
{
    let mut out = String::new();
    push_spaces(&mut out, width);
    push_spaces(&mut out, 3);
    push_spaces(&mut out, char_col);
    push_str(&mut out, "^\n");
    assert(spaces(width as nat) + spaces(3) + spaces(char_col as nat) =~= spaces(
        (width + 3 + char_col) as nat,
    ));
    out
}

/// The lines shown (0-based, end exclusive) around 1-based line `line`.
pub open spec fn context_range_spec(total: nat, line: nat) -> (nat, nat) {
    (
        sat_sub(sat_sub(line, 1), CONTEXT_LINES as nat),
        min_of(line + CONTEXT_LINES, total as int) as nat,
    )
}

/// The lines shown (0-based, end exclusive) around 1-based line `line` of
/// `total`.
pub fn context_range(total: usize, line: usize) -> (r: (usize, usize))
    ensures
        r.0 == context_range_spec(total as nat, line as nat).0,
        r.1 == context_range_spec(total as nat, line as nat).1,
{
    let start = line.saturating_sub(1).saturating_sub(CONTEXT_LINES);
    let end = if line >= total || total - line <= CONTEXT_LINES {
        total
    } else {
        line + CONTEXT_LINES
    };
    (start, end)
}

/// `digits` right-aligned in `width` columns.
pub open spec fn pad_left(digits: Seq<char>, width: nat) -> Seq<char> {
    spaces(sat_sub(width, digits.len())) + digits
}

/// One snippet line: the line number right-aligned in the gutter, then the
/// text.
pub open spec fn snippet_line(lineno: nat, width: nat, text: Seq<char>) -> Seq<char> {
    pad_left(decimal(lineno), width) + " | "@ + text + "\n"@
}

/// Snippet line `i` (0-based): the offending line gets a caret line below.
pub open spec fn snippet_entry(
    lines: Seq<Seq<char>>,
    i: int,
    line: nat,
    column: nat,
    column_is_byte_offset: bool,
    width: nat,
) -> Seq<char> {
    let text = sanitize(lines[i]);
    let lineno = (i + 1) as nat;
    if lineno == line {
        let cc = char_column_spec(text, column, column_is_byte_offset);
        let t = truncate_spec(expand_tabs_spec(text), expanded_column(text, cc));
        snippet_line(lineno, width, t.0) + caret_line_spec(width, t.1)
    } else {
        snippet_line(lineno, width, expand_tabs_spec(text))
    }
}

/// Snippet lines `start` up to `k` (exclusive).
pub open spec fn snippet_body(
    lines: Seq<Seq<char>>,
    start: nat,
    k: nat,
    line: nat,
    column: nat,
    column_is_byte_offset: bool,
    width: nat,
) -> Seq<char>
    decreases k,
{
    if k <= start {
        Seq::empty()
    } else {
        snippet_body(lines, start, (k - 1) as nat, line, column, column_is_byte_offset, width)
            + snippet_entry(lines, k - 1, line, column, column_is_byte_offset, width)
    }
}

/// The snippet around 1-based line `line`: the context lines, numbered, the
/// offending one with a caret under `column`; nothing without lines.
pub open spec fn snippet_spec(lines: Seq<Seq<char>>, line: nat, column: nat, column_is_byte_offset: bool) -> Seq<char> {
    if lines.len() == 0 || line == 0 {
        Seq::empty()
    } else {
        let (start, end) = context_range_spec(lines.len(), line);
        snippet_body(lines, start, end, line, column, column_is_byte_offset, decimal(end).len())
    }
}

fn push_snippet_line(out: &mut String, lineno: usize, width: usize, text: &str)
    ensures
        final(out)@ == old(out)@ + snippet_line(lineno as nat, width as nat, text@),
{
    let d = decimal_string(lineno);
    let n = chars_of(d.as_str()).len();
    push_spaces(out, width.saturating_sub(n));
    push_str(out, d.as_str());
    push_str(out, " | ");
    push_str(out, text);
    push_str(out, "\n");
    assert(final(out)@ =~= old(out)@ + snippet_line(lineno as nat, width as nat, text@));
}

fn push_snippet_entry(
    out: &mut String,
    lines: &Vec<String>,
    i: usize,
    line: usize,
    column: usize,
    column_is_byte_offset: bool,
    width: usize,
)
    requires
        i < lines@.len(),
    ensures
        final(out)@ == old(out)@ + snippet_entry(
            lines@.map_values(|l: String| l@),
            i as int,
            line as nat,
            column as nat,
            column_is_byte_offset,
            width as nat,
        ),
{
    assert(lines@.map_values(|l: String| l@)[i as int] == lines@[i as int]@);
    let n = lines.len();
    assert(i < n);
    let text = sanitize_control_chars(lines[i].as_str());
    let lineno = i + 1;
    if lineno == line {
        let cc = char_column(text.as_str(), column, column_is_byte_offset);
        let expanded = expand_tabs(text.as_str());
        let caret = expanded_char_column(text.as_str(), cc);
        let (display, caret2) = truncate_for_display(expanded.as_str(), caret);
        push_snippet_line(out, lineno, width, display.as_str());
        let c = caret_line(width, caret2);
        push_str(out, c.as_str());
    } else {
        let e = expand_tabs(text.as_str());
        push_snippet_line(out, lineno, width, e.as_str());
    }
}

/// The numbered context lines around 1-based line `line`, the offending one
/// followed by a caret under `column`; empty when there are no lines.
pub fn render_snippet(lines: &Vec<String>, line: usize, column: usize, column_is_byte_offset: bool) -> (r: String)
    ensures
        r@ == snippet_spec(lines@.map_values(|l: String| l@), line as nat, column as nat, column_is_byte_offset),
{
    let ghost ls = lines@.map_values(|l: String| l@);
    let mut out = String::new();
    if lines.len() == 0 || line == 0 {
        return out;
    }
    let (start, end) = context_range(lines.len(), line);
    let d = decimal_string(end);
    let width = chars_of(d.as_str()).len();
    let mut i = if start < end {
        start
    } else {
        end
    };
    while i < end
        invariant
            start <= i || i == end,
            i <= end <= lines@.len(),
            ls == lines@.map_values(|l: String| l@),
            out@ == snippet_body(
                ls,
                start as nat,
                i as nat,
                line as nat,
                column as nat,
                column_is_byte_offset,
                width as nat,
            ),
        decreases end - i,
    {
        push_snippet_entry(&mut out, lines, i, line, column, column_is_byte_offset, width);
        i += 1;
    }
    out
}

/// The whole error report: a header naming the kind of input, the line
/// (clamped to the input's lines, as an error at the end of the input names
/// the line after the last) and column, a blank line, the snippet, a blank
/// line, and the parser's message with control characters replaced.
pub open spec fn error_context_spec(
    kind: Seq<char>,
    input: Seq<char>,
    line: nat,
    column: nat,
    column_is_byte_offset: bool,
    message: Seq<char>,
) -> Seq<char> {
    let ls = text_lines(input);
    let shown = min_of(line as int, if ls.len() > 0 {
        ls.len() as int
    } else {
        1
    }) as nat;
    "error: invalid "@ + kind + " at line "@ + decimal(shown) + ", column "@ + decimal(column)
        + "\n\n"@ + snippet_spec(ls, shown, column, column_is_byte_offset) + "\n"@ + sanitize(
        message,
    )
}

/// Formats a parse error of `kind` input (`JSON`, `XML`) at 1-based `line`
/// and `column` as a report with a snippet of `input` and a caret; `column`
/// counts bytes when `column_is_byte_offset`, characters otherwise.
pub fn format_error_context(
    kind: &str,
    input: &str,
    line: usize,
    column: usize,
    column_is_byte_offset: bool,
    message: &str,
) -> (r: String)
    ensures
        r@ == error_context_spec(kind@, input@, line as nat, column as nat, column_is_byte_offset, message@),
{
    let lines = split_lines(input);
    let max_line = if lines.len() > 0 {
        lines.len()
    } else {
        1
    };
    let shown = if line < max_line {
        line
    } else {
        max_line
    };
    let mut out = String::from_str("error: invalid ");
    push_str(&mut out, kind);
    push_str(&mut out, " at line ");
    let d = decimal_string(shown);
    push_str(&mut out, d.as_str());
    push_str(&mut out, ", column ");
    let c = decimal_string(column);
    push_str(&mut out, c.as_str());
    push_str(&mut out, "\n\n");
    let snippet = render_snippet(&lines, shown, column, column_is_byte_offset);
    push_str(&mut out, snippet.as_str());
    push_str(&mut out, "\n");
    let m = sanitize_control_chars(message);
    push_str(&mut out, m.as_str());
    out
}


// ---------------------------------------------------------------------------
// No control character reaches the terminal.
// ---------------------------------------------------------------------------

/// Text a terminal shows as it is: no control character but newline and
/// tab.
pub open spec fn terminal_safe(s: Seq<char>) -> bool {
    forall|i: int| 0 <= i < s.len() ==> !is_control(#[trigger] s[i]) || s[i] == '\n' || s[i] == '\t'
}

proof fn lemma_safe_concat(a: Seq<char>, b: Seq<char>)
    requires
        terminal_safe(a),
        terminal_safe(b),
    ensures
        terminal_safe(a + b),
{
    assert forall|i: int| 0 <= i < (a + b).len() implies !is_control(#[trigger] (a + b)[i]) || (a
        + b)[i] == '\n' || (a + b)[i] == '\t' by {
        if i < a.len() {
            assert((a + b)[i] == a[i]);
        } else {
            assert((a + b)[i] == b[i - a.len()]);
        }
    }
}

proof fn lemma_decimal_safe(n: nat)
    ensures
        terminal_safe(decimal(n)),
    decreases n,
{
    if n >= 10 {
        lemma_decimal_safe(n / 10);
        let c = (48 + n % 10) as char;
        assert(c as u32 == 48 + n % 10);
        lemma_safe_concat(decimal(n / 10), seq![c]);
        assert(decimal(n / 10) + seq![c] == decimal(n));
    } else {
        assert(((48 + n) as char) as u32 == 48 + n);
    }
}

proof fn lemma_spaces_safe(n: nat)
    ensures
        terminal_safe(spaces(n)),
{
}

/// A snippet's text: tab-expanded and with controls replaced, it holds no
/// control character at all.
proof fn lemma_shown_line_safe(line: Seq<char>)
    ensures
        terminal_safe(expand_tabs_spec(sanitize(line))),
        forall|i: int|
            0 <= i < expand_tabs_spec(sanitize(line)).len() ==> !is_control(
                #[trigger] expand_tabs_spec(sanitize(line))[i],
            ),
    decreases line.len(),
{
    let f = |c: char| tab_expansion(c);
    let sl = sanitize(line);
    if line.len() > 0 {
        lemma_shown_line_safe(line.drop_first());
        assert(sanitize(line.drop_first()) == sl.drop_first());
        let c = sl[0];
        assert(c == sanitize_char(line[0]));
        let head = tab_expansion(c);
        reveal_strlit("    ");
        assert(forall|i: int| 0 <= i < head.len() ==> !is_control(#[trigger] head[i]));
        let rest = expand_tabs_spec(sl.drop_first());
        assert(expand_tabs_spec(sl) == head + rest);
        assert forall|i: int| 0 <= i < (head + rest).len() implies !is_control(
            #[trigger] (head + rest)[i],
        ) by {
            if i < head.len() {
                assert((head + rest)[i] == head[i]);
            } else {
                assert((head + rest)[i] == rest[i - head.len()]);
            }
        }
    }
}

proof fn lemma_truncated_safe(line: Seq<char>, caret: nat)
    requires
        forall|i: int| 0 <= i < line.len() ==> !is_control(#[trigger] line[i]),
    ensures
        terminal_safe(truncate_spec(line, caret).0),
{
    if line.len() > MAX_LINE_LEN {
        let half = MAX_LINE_LEN / 2;
        let start = min_of(sat_sub(caret, half as nat) as int, line.len() - MAX_LINE_LEN);
        let end = min_of(start + MAX_LINE_LEN, line.len() as int);
        let body = line.subrange(start, end);
        assert(terminal_safe(body)) by {
            assert forall|i: int| 0 <= i < body.len() implies !is_control(#[trigger] body[i]) by {
                assert(body[i] == line[start + i]);
            }
        }
        let ell = seq!['\u{2026}'];
        assert(terminal_safe(ell));
        lemma_safe_concat(ell, body);
        let shown = if start > 0 {
            ell + body
        } else {
            body
        };
        lemma_safe_concat(shown, ell);
    }
}

proof fn lemma_snippet_line_safe(lineno: nat, width: nat, text: Seq<char>)
    requires
        terminal_safe(text),
    ensures
        terminal_safe(snippet_line(lineno, width, text)),
{
    let d = decimal(lineno);
    lemma_decimal_safe(lineno);
    lemma_spaces_safe(sat_sub(width, d.len()));
    lemma_safe_concat(spaces(sat_sub(width, d.len())), d);
    reveal_strlit(" | ");
    reveal_strlit("\n");
    lemma_safe_concat(pad_left(d, width), " | "@);
    lemma_safe_concat(pad_left(d, width) + " | "@, text);
    lemma_safe_concat(pad_left(d, width) + " | "@ + text, "\n"@);
}

proof fn lemma_snippet_entry_safe(
    lines: Seq<Seq<char>>,
    i: int,
    line: nat,
    column: nat,
    column_is_byte_offset: bool,
    width: nat,
)
    requires
        0 <= i < lines.len(),
    ensures
        terminal_safe(snippet_entry(lines, i, line, column, column_is_byte_offset, width)),
{
    let text = sanitize(lines[i]);
    lemma_shown_line_safe(lines[i]);
    let lineno = (i + 1) as nat;
    if lineno == line {
        let cc = char_column_spec(text, column, column_is_byte_offset);
        let t = truncate_spec(expand_tabs_spec(text), expanded_column(text, cc));
        lemma_truncated_safe(expand_tabs_spec(text), expanded_column(text, cc));
        lemma_snippet_line_safe(lineno, width, t.0);
        reveal_strlit("^\n");
        lemma_spaces_safe(width + 3 + t.1);
        lemma_safe_concat(spaces(width + 3 + t.1), "^\n"@);
        lemma_safe_concat(snippet_line(lineno, width, t.0), caret_line_spec(width, t.1));
    } else {
        lemma_snippet_line_safe(lineno, width, expand_tabs_spec(text));
    }
}

proof fn lemma_snippet_body_safe(
    lines: Seq<Seq<char>>,
    start: nat,
    k: nat,
    line: nat,
    column: nat,
    column_is_byte_offset: bool,
    width: nat,
)
    requires
        k <= lines.len(),
    ensures
        terminal_safe(snippet_body(lines, start, k, line, column, column_is_byte_offset, width)),
    decreases k,
{
    if k > start {
        lemma_snippet_body_safe(lines, start, (k - 1) as nat, line, column, column_is_byte_offset, width);
        lemma_snippet_entry_safe(lines, k - 1, line, column, column_is_byte_offset, width);
        lemma_safe_concat(
            snippet_body(lines, start, (k - 1) as nat, line, column, column_is_byte_offset, width),
            snippet_entry(lines, k - 1, line, column, column_is_byte_offset, width),
        );
    }
}

/// An error report holds no control character but newlines and the tabs of
/// the parser's message: the offending lines and the message have theirs
/// replaced, so a malformed input cannot write terminal escapes through
/// it.
pub proof fn lemma_error_context_is_terminal_safe(
    kind: Seq<char>,
    input: Seq<char>,
    line: nat,
    column: nat,
    column_is_byte_offset: bool,
    message: Seq<char>,
)
    requires
        terminal_safe(kind),
    ensures
        terminal_safe(error_context_spec(kind, input, line, column, column_is_byte_offset, message)),
{
    let ls = text_lines(input);
    let shown = min_of(line as int, if ls.len() > 0 {
        ls.len() as int
    } else {
        1
    }) as nat;
    reveal_strlit("error: invalid ");
    reveal_strlit(" at line ");
    reveal_strlit(", column ");
    reveal_strlit("\n\n");
    reveal_strlit("\n");
    lemma_decimal_safe(shown);
    lemma_decimal_safe(column);
    let snip = snippet_spec(ls, shown, column, column_is_byte_offset);
    if ls.len() > 0 && shown > 0 {
        let (start, end) = context_range_spec(ls.len(), shown);
        lemma_snippet_body_safe(ls, start, end, shown, column, column_is_byte_offset, decimal(end).len());
    }
    assert(terminal_safe(snip));
    assert(terminal_safe(sanitize(message)));
    let a = "error: invalid "@;
    lemma_safe_concat(a, kind);
    lemma_safe_concat(a + kind, " at line "@);
    lemma_safe_concat(a + kind + " at line "@, decimal(shown));
    lemma_safe_concat(a + kind + " at line "@ + decimal(shown), ", column "@);
    lemma_safe_concat(a + kind + " at line "@ + decimal(shown) + ", column "@, decimal(column));
    let h = a + kind + " at line "@ + decimal(shown) + ", column "@ + decimal(column);
    lemma_safe_concat(h, "\n\n"@);
    lemma_safe_concat(h + "\n\n"@, snip);
    lemma_safe_concat(h + "\n\n"@ + snip, "\n"@);
    lemma_safe_concat(h + "\n\n"@ + snip + "\n"@, sanitize(message));
}

/// The JSON parser's error, carried through as it is.
#[verifier::external_type_specification]
#[verifier::external_body]
pub struct ExJsonError(serde_json::Error);

/// The XML parser's error, carried through as it is.
#[verifier::external_type_specification]
#[verifier::external_body]
pub struct ExXmlError(roxmltree::Error);

/// What `serde_json::Error::line` gives for an error.
pub uninterp spec fn json_err_line(err: serde_json::Error) -> usize;

/// What `serde_json::Error::column` gives for an error.
pub uninterp spec fn json_err_column(err: serde_json::Error) -> usize;

/// The text that `serde_json::Error`'s `Display` writes for an error.
pub uninterp spec fn json_err_message(err: serde_json::Error) -> Seq<char>;

/// The row and column of `roxmltree::Error::pos` for an error.
pub uninterp spec fn xml_err_position(err: roxmltree::Error) -> (usize, usize);

/// The text that `roxmltree::Error`'s `Display` writes for an error.
pub uninterp spec fn xml_err_message(err: roxmltree::Error) -> Seq<char>;

/// `serde_json::Error::line`: the 1-based line where the parser stopped,
/// named `json_err_line`. Its value is not otherwise stated.
#[verifier::external_body]
fn json_error_line(err: &serde_json::Error) -> (r: usize)
    ensures
        r == json_err_line(*err),
{
    err.line()
}

/// `serde_json::Error::column`: the column (counted in bytes) where the
/// parser stopped, named `json_err_column`. Its value is not otherwise
/// stated.
#[verifier::external_body]
fn json_error_column(err: &serde_json::Error) -> (r: usize)
    ensures
        r == json_err_column(*err),
{
    err.column()
}

/// The text of a `serde_json::Error` (its `Display`), named
/// `json_err_message`. The text is not otherwise stated.
#[verifier::external_body]
pub(crate) fn json_error_message(err: &serde_json::Error) -> (r: String)
    ensures
        r@ == json_err_message(*err),
{
    err.to_string()
}

/// `roxmltree::Error::pos`: the row and column (counted in characters)
/// where the parser stopped, named `xml_err_position`. The numbers are not
/// otherwise stated.
#[verifier::external_body]
fn xml_error_position(err: &roxmltree::Error) -> (r: (usize, usize))
    ensures
        r == xml_err_position(*err),
{
    let pos = err.pos();
    (pos.row as usize, pos.col as usize)
}

/// The text of a `roxmltree::Error` (its `Display`), named
/// `xml_err_message`. The text is not otherwise stated.
#[verifier::external_body]
fn xml_error_message(err: &roxmltree::Error) -> (r: String)
    ensures
        r@ == xml_err_message(*err),
{
    err.to_string()
}

/// The report of a JSON parse error: `format_error_context` with the
/// parser's line, byte column and message.
pub fn json_error_context(input: &str, err: &serde_json::Error) -> (r: String)
    ensures
        r@ == error_context_spec(
            "JSON"@,
            input@,
            json_err_line(*err) as nat,
            json_err_column(*err) as nat,
            true,
            json_err_message(*err),
        ),
        terminal_safe(r@),
{
    let line = json_error_line(err);
    let column = json_error_column(err);
    let message = json_error_message(err);
    let r = format_error_context("JSON", input, line, column, true, message.as_str());
    assert(r@ == error_context_spec("JSON"@, input@, line as nat, column as nat, true, message@));
    proof {
        reveal_strlit("JSON");
        lemma_error_context_is_terminal_safe("JSON"@, input@, line as nat, column as nat, true, message@);
    }
    r
}

/// The report of an XML parse error: `format_error_context` with the
/// parser's row, character column and message.
pub fn xml_error_context(input: &str, err: &roxmltree::Error) -> (r: String)
    ensures
        r@ == error_context_spec(
            "XML"@,
            input@,
            xml_err_position(*err).0 as nat,
            xml_err_position(*err).1 as nat,
            false,
            xml_err_message(*err),
        ),
        terminal_safe(r@),
{
    let (line, column) = xml_error_position(err);
    let message = xml_error_message(err);
    let r = format_error_context("XML", input, line, column, false, message.as_str());
    assert(r@ == error_context_spec("XML"@, input@, line as nat, column as nat, false, message@));
    proof {
        reveal_strlit("XML");
        lemma_error_context_is_terminal_safe("XML"@, input@, line as nat, column as nat, false, message@);
    }
    r
}

} // verus!
