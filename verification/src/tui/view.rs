//! What the browser draws, as text runs with their colors and emphasis: the
//! tree's rows and status line, the inspector, the search popup and the
//! help. Turning these into terminal widgets is left to the application.
use crate::color::Color;
use crate::json_tree::{display_path_spec, scalar_color, scalar_display, JsonScalar};
use crate::paths::{display_path, strings_view};
use crate::text::{chars_of, decimal, decimal_string, indent, push_indent, push_str};
use crate::tui::flatten::{entries_view, Line, LineView};
use crate::tui::fuzzy::{fuzzy_matches, is_subsequence, lowercase};
use crate::tui::keys::{
    line_real_path, line_search_text, line_text, popup_entries, popup_match_entries, real_path,
};
use crate::tui::state::{AppModel, AppState};
use vstd::prelude::*;

verus! {

/// How many background colors tags cycle through.
pub const TAG_PALETTE_LEN: usize = 8;

/// The palette entry of a tag's background: tags 1 to 8 take entries 0 to
/// 7, and any other tag wraps around (0 shares tag 1's entry).
pub fn tag_palette_index(tag: u8) -> (r: usize)
    ensures
        r == (if tag == 0 {
            0
        } else {
            tag - 1
        }) % (TAG_PALETTE_LEN as int),
        r < TAG_PALETTE_LEN,
{
    let t: usize = if tag == 0 {
        0
    } else {
        (tag - 1) as usize
    };
    t % TAG_PALETTE_LEN
}

broadcast use vstd::string::group_string_axioms;

/// The color of a run of text: one of the semantic colors, or the
/// highlight of a tag (1-8).
#[derive(Debug, Clone, Copy, PartialEq, Eq)]
pub enum Tint {
    Role(Color),
    Tag(u8),
}

/// A run of text, its color (`None`: the terminal's own) and whether it is
/// bold.
pub struct Segment {
    pub text: String,
    pub tint: Option<Tint>,
    pub bold: bool,
}

pub struct SegmentView {
    pub text: Seq<char>,
    pub tint: Option<Tint>,
    pub bold: bool,
}

impl View for Segment {
    type V = SegmentView;

    open spec fn view(&self) -> SegmentView {
        SegmentView { text: self.text@, tint: self.tint, bold: self.bold }
    }
}

pub open spec fn seg(text: Seq<char>, tint: Option<Tint>, bold: bool) -> SegmentView {
    SegmentView { text, tint, bold }
}

pub open spec fn segs_view(v: Seq<Segment>) -> Seq<SegmentView> {
    v.map_values(|s: Segment| s@)
}

/// The color `c` when colors are on.
pub open spec fn role_if(use_color: bool, c: Color) -> Option<Tint> {
    if use_color {
        Some(Tint::Role(c))
    } else {
        None
    }
}

fn role(use_color: bool, c: Color) -> (r: Option<Tint>)
    ensures
        r == role_if(use_color, c),
{
    if use_color {
        Some(Tint::Role(c))
    } else {
        None
    }
}

fn segment(text: String, tint: Option<Tint>, bold: bool) -> (r: Segment)
    ensures
        r@ == seg(text@, tint, bold),
{
    Segment { text, tint, bold }
}

fn literal(text: &str, tint: Option<Tint>, bold: bool) -> (r: Segment)
    ensures
        r@ == seg(text@, tint, bold),
{
    Segment { text: text.to_owned(), tint, bold }
}

// ---------------------------------------------------------------------------
// A tree line.
// ---------------------------------------------------------------------------

/// A tree line's runs: its indent (two spaces a level) and `▸ ` for a
/// container, in the structure color; its key, in the key color and bold;
/// then `: ` and the value in the value's color, for a leaf.
pub open spec fn line_segments(l: LineView, use_color: bool) -> Seq<SegmentView> {
    let head = seq![
        seg(
            indent(l.depth) + (if l.has_children {
                "▸ "@
            } else {
                Seq::empty()
            }),
            role_if(use_color, Color::Structure),
            false,
        ),
        seg(l.key, role_if(use_color, Color::Key), use_color),
    ];
    match l.value {
        Some((text, c)) => head + seq![seg(": "@, None, false), seg(text, role_if(use_color, c), false)],
        None => head,
    }
}

pub fn line_spans(line: &Line, use_color: bool) -> (r: Vec<Segment>)
    ensures
        segs_view(r@) == line_segments(line@, use_color),
{
    let mut lead = String::new();
    push_indent(&mut lead, line.depth);
    if line.has_children {
        push_str(&mut lead, "▸ ");
    } else {
        assert(lead@ + Seq::<char>::empty() == lead@);
    }
    let mut out: Vec<Segment> = Vec::new();
    out.push(segment(lead, role(use_color, Color::Structure), false));
    out.push(segment(line.key.clone(), role(use_color, Color::Key), use_color));
    match &line.value {
        Some(v) => {
            out.push(literal(": ", None, false));
            out.push(segment(v.0.clone(), role(use_color, v.1), false));
        },
        None => {},
    }
    assert(segs_view(out@) =~= line_segments(line@, use_color));
    out
}

// ---------------------------------------------------------------------------
// A search match.
// ---------------------------------------------------------------------------

/// The color a JSON value's text implies: `true`/`false`, `null`, a quoted
/// string, and anything else a number.
pub open spec fn json_value_color(v: Seq<char>) -> Color {
    if v == "true"@ || v == "false"@ {
        Color::Bool
    } else if v == "null"@ {
        Color::Null
    } else if v.len() > 0 && v[0] == '"' {
        Color::Str
    } else {
        Color::Number
    }
}

fn chars_equal(a: &Vec<char>, b: &Vec<char>) -> (r: bool)
    ensures
        r == (a@ == b@),
{
    if a.len() != b.len() {
        return false;
    }
    let mut i: usize = 0;
    while i < a.len()
        invariant
            i <= a@.len(),
            a@.len() == b@.len(),
            forall|k: int| 0 <= k < i ==> a@[k] == b@[k],
        decreases a@.len() - i,
    {
        if a[i] != b[i] {
            return false;
        }
        i += 1;
    }
    assert(a@ =~= b@);
    true
}

pub fn infer_json_value_color(value: &str) -> (r: Color)
    ensures
        r == json_value_color(value@),
{
    let v = chars_of(value);
    if chars_equal(&v, &chars_of("true")) || chars_equal(&v, &chars_of("false")) {
        Color::Bool
    } else if chars_equal(&v, &chars_of("null")) {
        Color::Null
    } else if v.len() > 0 && v[0] == '"' {
        Color::Str
    } else {
        Color::Number
    }
}

/// The search popup colors a JSON value's shown text as the tree colors the
/// value itself, for any number text that is not itself a quoted string or
/// one of the literals `true`, `false`, `null` (no JSON number is).
pub proof fn lemma_value_color_matches_tree(s: JsonScalar)
    requires
        s matches JsonScalar::Number(t) ==> (t@.len() > 0 && t@[0] != '"' && t@ != "true"@
            && t@ != "false"@ && t@ != "null"@),
    ensures
        json_value_color(scalar_display(s)) == scalar_color(s),
{
    reveal_strlit("true");
    reveal_strlit("false");
    reveal_strlit("null");
    match s {
        JsonScalar::Str(v) => {
            let d = scalar_display(s);
            assert(d.len() >= 2);
            assert(d[0] == '"');
            assert(d != "true"@ && d != "false"@ && d != "null"@) by {
                assert("true"@[0] == 't');
                assert("false"@[0] == 'f');
                assert("null"@[0] == 'n');
            }
            assert(json_value_color(d) == Color::Str);
        },
        JsonScalar::Null => {
            assert("null"@ != "true"@) by {
                assert("null"@[0] != "true"@[0]);
            }
            assert("null"@ != "false"@) by {
                assert("null"@[0] != "false"@[0]);
            }
        },
        _ => {},
    }
}

/// A search result's runs: the printed path, bold in the key color; then,
/// when the result's text continues the path with `: `, that separator and
/// the value, colored by what the JSON text implies (always as a string for
/// XML).
pub open spec fn match_segments(
    path: Seq<Seq<char>>,
    text: Seq<char>,
    is_json: bool,
    use_color: bool,
) -> Seq<SegmentView> {
    let shown = display_path_spec(path);
    let pre = shown + ": "@;
    let head = seq![seg(shown, role_if(use_color, Color::Key), use_color)];
    if pre.len() <= text.len() && text.take(pre.len() as int) == pre {
        let value = text.skip(pre.len() as int);
        let c = if is_json {
            json_value_color(value)
        } else {
            Color::Str
        };
        head + seq![seg(": "@, None, false), seg(value, role_if(use_color, c), false)]
    } else {
        head
    }
}

fn string_of(v: &Vec<char>, from: usize) -> (r: String)
    requires
        from <= v@.len(),
    ensures
        r@ == v@.skip(from as int),
{
    let mut out = String::new();
    let mut i = from;
    while i < v.len()
        invariant
            from <= i <= v@.len(),
            out@ == v@.subrange(from as int, i as int),
        decreases v@.len() - i,
    {
        out.push(v[i]);
        i += 1;
    }
    out
}

pub fn match_spans(path: &[String], text: &str, is_json: bool, use_color: bool) -> (r: Vec<
    Segment,
>)
    ensures
        segs_view(r@) == match_segments(strings_view(path@), text@, is_json, use_color),
{
    let shown = display_path(path);
    let mut pre = shown.clone();
    push_str(&mut pre, ": ");
    let p = chars_of(pre.as_str());
    let t = chars_of(text);
    assert(p@ == display_path_spec(strings_view(path@)) + ": "@);
    let mut out: Vec<Segment> = Vec::new();
    out.push(segment(shown, role(use_color, Color::Key), use_color));
    let ghost head = segs_view(out@);
    assert(head =~= seq![
        seg(display_path_spec(strings_view(path@)), role_if(use_color, Color::Key), use_color),
    ]);
    if p.len() <= t.len() {
        let mut i: usize = 0;
        while i < p.len()
            invariant
                i <= p@.len(),
                p@.len() <= t@.len(),
                forall|k: int| 0 <= k < i ==> t@[k] == p@[k],
                p@ == display_path_spec(strings_view(path@)) + ": "@,
                t@ == text@,
                segs_view(out@) == head,
                head == seq![
                    seg(display_path_spec(strings_view(path@)), role_if(use_color, Color::Key), use_color),
                ],
            decreases p@.len() - i,
        {
            if t[i] != p[i] {
                assert(t@.take(p@.len() as int)[i as int] != p@[i as int]);
                assert(t@.take(p@.len() as int) != p@);
                assert(segs_view(out@) =~= match_segments(
                    strings_view(path@),
                    text@,
                    is_json,
                    use_color,
                ));
                return out;
            }
            i += 1;
        }
        assert(t@.take(p@.len() as int) =~= p@);
        let value = string_of(&t, p.len());
        let c = if is_json {
            infer_json_value_color(value.as_str())
        } else {
            Color::Str
        };
        out.push(literal(": ", None, false));
        out.push(segment(value, role(use_color, c), false));
    }
    assert(segs_view(out@) =~= match_segments(strings_view(path@), text@, is_json, use_color));
    out
}


// ---------------------------------------------------------------------------
// The tree.
// ---------------------------------------------------------------------------

/// A row of the tree: its runs, and whether it is shown reversed (the
/// cursor), underlined (a match of the search being typed) or on a tag's
/// background.
pub struct Row {
    pub segments: Vec<Segment>,
    pub reversed: bool,
    pub underlined: bool,
    pub background: Option<u8>,
}

pub struct RowView {
    pub segments: Seq<SegmentView>,
    pub reversed: bool,
    pub underlined: bool,
    pub background: Option<u8>,
}

impl View for Row {
    type V = RowView;

    open spec fn view(&self) -> RowView {
        RowView {
            segments: segs_view(self.segments@),
            reversed: self.reversed,
            underlined: self.underlined,
            background: self.background,
        }
    }
}

/// Row `i` of the tree: the cursor's row reversed; another tagged row (not
/// a `N more` line) on its tag's color when colors are on; every row that
/// fuzzy-matches the search being typed underlined.
pub open spec fn tree_row(m: AppModel, i: int) -> RowView {
    let l = m.lines[i];
    RowView {
        segments: line_segments(l, m.use_color),
        reversed: i == m.cursor,
        underlined: m.searching && m.search.len() > 0 && is_subsequence(
            lowercase(m.search),
            lowercase(line_text(l)),
        ),
        background: if i != m.cursor && m.use_color && !l.is_array_summary
            && m.tags.contains_key(l.path) {
            Some(m.tags[l.path])
        } else {
            None
        },
    }
}

pub fn tree_rows(state: &AppState) -> (r: Vec<Row>)
    ensures
        r@.len() == state@.lines.len(),
        forall|i: int| 0 <= i < r@.len() ==> (#[trigger] r@[i])@ == tree_row(state@, i),
{
    let ghost m = state@;
    let mut out: Vec<Row> = Vec::new();
    let mut i: usize = 0;
    while i < state.lines.len()
        invariant
            i <= state.lines@.len(),
            m == state@,
            m.lines.len() == state.lines@.len(),
            out@.len() == i,
            forall|k: int| 0 <= k < i ==> (#[trigger] out@[k])@ == tree_row(m, k),
        decreases state.lines@.len() - i,
    {
        let line = &state.lines[i];
        assert(m.lines[i as int] == line@);
        let segments = line_spans(line, state.use_color);
        let underlined = if state.searching && !state.search.as_str().is_empty() {
            let text = line_search_text(line);
            fuzzy_matches(text.as_str(), state.search.as_str())
        } else {
            false
        };
        let background = if i != state.cursor && state.use_color && !line.is_array_summary {
            state.tags.get(line.path.as_slice())
        } else {
            None
        };
        let row = Row { segments, reversed: i == state.cursor, underlined, background };
        assert(row@ == tree_row(m, i as int));
        out.push(row);
        i += 1;
    }
    out
}

/// The status line: the search being typed, a count being typed, the last
/// message, or else the cursor's path and a hint at the help.
pub open spec fn status_line(m: AppModel) -> Seq<char> {
    if m.searching {
        "/"@ + m.search
    } else if m.count_buffer is Some {
        "g"@ + m.count_buffer->0
    } else if m.status is Some {
        m.status->0
    } else {
        (if m.cursor < m.lines.len() {
            display_path_spec(m.lines[m.cursor as int].path)
        } else {
            Seq::empty()
        }) + "  (?: help)"@
    }
}

pub fn status_text(state: &AppState) -> (r: String)
    ensures
        r@ == status_line(state@),
{
    if state.searching {
        let mut out = "/".to_owned();
        push_str(&mut out, state.search.as_str());
        return out;
    }
    match &state.count_buffer {
        Some(buf) => {
            let mut out = "g".to_owned();
            push_str(&mut out, buf.as_str());
            return out;
        },
        None => {},
    }
    match &state.status_message {
        Some(msg) => {
            return msg.clone();
        },
        None => {},
    }
    let mut out = String::new();
    if state.cursor < state.lines.len() {
        let line = &state.lines[state.cursor];
        assert(state@.lines[state.cursor as int] == line@);
        out = display_path(line.path.as_slice());
    }
    push_str(&mut out, "  (?: help)");
    out
}

// ---------------------------------------------------------------------------
// The inspector.
// ---------------------------------------------------------------------------

/// The inspector's lines for the node under the cursor: its type (in its
/// value's color, the structure color for a container), its printed path
/// (bold, in the key color) and its tag (in the tag's color) or `none`.
pub open spec fn inspect_spec(m: AppModel) -> Seq<Seq<SegmentView>> {
    if m.cursor < m.lines.len() {
        let l = m.lines[m.cursor as int];
        let rp = real_path(l);
        let type_tint = if m.use_color {
            match l.value {
                Some((_, c)) => Some(Tint::Role(c)),
                None => Some(Tint::Role(Color::Structure)),
            }
        } else {
            None
        };
        let tag = if m.tags.contains_key(rp) {
            seg(
                decimal(m.tags[rp] as nat),
                if m.use_color {
                    Some(Tint::Tag(m.tags[rp]))
                } else {
                    None
                },
                false,
            )
        } else {
            seg("none"@, None, false)
        };
        seq![
            seq![seg("type: "@, None, true), seg(l.type_label, type_tint, false)],
            seq![
                seg("path: "@, None, true),
                seg(display_path_spec(rp), role_if(m.use_color, Color::Key), true),
            ],
            seq![seg("tag:  "@, None, true), tag],
        ]
    } else {
        seq![seq![seg("no node under the cursor"@, None, false)]]
    }
}

pub open spec fn lines_view(v: Seq<Vec<Segment>>) -> Seq<Seq<SegmentView>> {
    v.map_values(|l: Vec<Segment>| segs_view(l@))
}

fn pair(a: Segment, b: Segment) -> (r: Vec<Segment>)
    ensures
        segs_view(r@) == seq![a@, b@],
{
    let mut v: Vec<Segment> = Vec::new();
    v.push(a);
    v.push(b);
    assert(segs_view(v@) =~= seq![a@, b@]);
    v
}

pub fn inspect_lines(state: &AppState) -> (r: Vec<Vec<Segment>>)
    ensures
        lines_view(r@) == inspect_spec(state@),
{
    let mut out: Vec<Vec<Segment>> = Vec::new();
    if state.cursor >= state.lines.len() {
        let mut only: Vec<Segment> = Vec::new();
        only.push(literal("no node under the cursor", None, false));
        assert(segs_view(only@) =~= seq![seg("no node under the cursor"@, None, false)]);
        out.push(only);
        assert(lines_view(out@) =~= inspect_spec(state@));
        return out;
    }
    let use_color = state.use_color;
    let line = &state.lines[state.cursor];
    assert(state@.lines[state.cursor as int] == line@);
    let rp = line_real_path(line);
    let type_tint = if use_color {
        match &line.value {
            Some(v) => Some(Tint::Role(v.1)),
            None => Some(Tint::Role(Color::Structure)),
        }
    } else {
        None
    };
    let tag = match state.tags.get(rp.as_slice()) {
        Some(t) => segment(
            decimal_string(t as usize),
            if use_color {
                Some(Tint::Tag(t))
            } else {
                None
            },
            false,
        ),
        None => literal("none", None, false),
    };
    out.push(pair(literal("type: ", None, true), segment(line.type_label.clone(), type_tint, false)));
    out.push(
        pair(
            literal("path: ", None, true),
            segment(display_path(rp.as_slice()), role(use_color, Color::Key), true),
        ),
    );
    out.push(pair(literal("tag:  ", None, true), tag));
    assert(lines_view(out@) =~= inspect_spec(state@));
    out
}

// ---------------------------------------------------------------------------
// The search popup.
// ---------------------------------------------------------------------------

/// What the search popup lists: a hint while nothing is typed, a note when
/// nothing matches, or else one line per match (`match_segments`).
pub enum PopupBody {
    Message(String),
    Matches(Vec<Vec<Segment>>),
}

pub enum PopupBodyView {
    Message(Seq<char>),
    Matches(Seq<Seq<SegmentView>>),
}

impl View for PopupBody {
    type V = PopupBodyView;

    open spec fn view(&self) -> PopupBodyView {
        match self {
            PopupBody::Message(s) => PopupBodyView::Message(s@),
            PopupBody::Matches(v) => PopupBodyView::Matches(lines_view(v@)),
        }
    }
}

pub open spec fn popup_spec(m: AppModel) -> PopupBodyView {
    let entries = popup_entries(m);
    if m.popup_query.len() == 0 {
        PopupBodyView::Message("type to search the whole document"@)
    } else if entries.len() == 0 {
        PopupBodyView::Message("no matches"@)
    } else {
        PopupBodyView::Matches(
            Seq::new(
                entries.len(),
                |i: int| match_segments(entries[i].0, entries[i].1, m.is_json, m.use_color),
            ),
        )
    }
}

/// The popup's query line: `/` and the query, bold.
pub fn popup_header(state: &AppState) -> (r: Segment)
    ensures
        r@ == seg("/"@ + state@.popup_query, None, true),
{
    let mut text = "/".to_owned();
    push_str(&mut text, state.popup_query.as_str());
    segment(text, None, true)
}

pub fn popup_body(state: &AppState) -> (r: PopupBody)
    ensures
        r@ == popup_spec(state@),
{
    if state.popup_query.as_str().is_empty() {
        return PopupBody::Message("type to search the whole document".to_owned());
    }
    let entries = popup_match_entries(state);
    let ghost ev = entries_view(entries@);
    if entries.len() == 0 {
        assert(ev.len() == 0);
        return PopupBody::Message("no matches".to_owned());
    }
    let mut out: Vec<Vec<Segment>> = Vec::new();
    let mut i: usize = 0;
    while i < entries.len()
        invariant
            i <= entries@.len(),
            ev == entries_view(entries@),
            ev == popup_entries(state@),
            ev.len() == entries@.len(),
            out@.len() == i,
            forall|k: int|
                0 <= k < i ==> segs_view((#[trigger] out@[k])@) == match_segments(
                    ev[k].0,
                    ev[k].1,
                    state@.is_json,
                    state@.use_color,
                ),
        decreases entries@.len() - i,
    {
        let (path, text) = &entries[i];
        assert(ev[i as int] == (strings_view(path@), text@));
        out.push(match_spans(path.as_slice(), text.as_str(), state.is_json, state.use_color));
        i += 1;
    }
    assert(lines_view(out@) =~= Seq::new(
        ev.len(),
        |k: int| match_segments(ev[k].0, ev[k].1, state@.is_json, state@.use_color),
    ));
    PopupBody::Matches(out)
}


// ---------------------------------------------------------------------------
// The help.
// ---------------------------------------------------------------------------

/// The keys the help lists, each with what it does.
pub open spec fn help_legend() -> Seq<(Seq<char>, Seq<char>)> {
    seq![
        ("↑ / ↓"@, "move cursor (or j/k)"@),
        ("g"@, "count-jump: digits+↑/↓; gg/G: first/last"@),
        ("Tab / Space"@, "collapse / expand (or h/l)"@),
        ("Backspace"@, "collapse parent"@),
        ("Shift+C"@, "collapse ancestors"@),
        ("/"@, "fuzzy search (Tab: cycle; n/N: repeat)"@),
        ("F"@, "search-results popup (whole document)"@),
        ("i"@, "inspect node (type, size, path, tag)"@),
        ("1-8"@, "tag / untag node"@),
        ("x"@, "clear all tags"@),
        ("y"@, "yank current path"@),
        ("Y"@, "yank as jq path (JSON only)"@),
        ("c"@, "collapse all"@),
        ("e"@, "expand all"@),
        ("?"@, "toggle this help"@),
        ("q / Esc"@, "quit"@),
    ]
}

pub open spec fn pairs_view(v: Seq<(&str, &str)>) -> Seq<(Seq<char>, Seq<char>)> {
    v.map_values(|e: (&str, &str)| (e.0@, e.1@))
}

fn help_legend_entries() -> (r: Vec<(&'static str, &'static str)>)
    ensures
        pairs_view(r@) == help_legend(),
{
    let mut v: Vec<(&'static str, &'static str)> = Vec::new();
    v.push(("↑ / ↓", "move cursor (or j/k)"));
    v.push(("g", "count-jump: digits+↑/↓; gg/G: first/last"));
    v.push(("Tab / Space", "collapse / expand (or h/l)"));
    v.push(("Backspace", "collapse parent"));
    v.push(("Shift+C", "collapse ancestors"));
    v.push(("/", "fuzzy search (Tab: cycle; n/N: repeat)"));
    v.push(("F", "search-results popup (whole document)"));
    v.push(("i", "inspect node (type, size, path, tag)"));
    v.push(("1-8", "tag / untag node"));
    v.push(("x", "clear all tags"));
    v.push(("y", "yank current path"));
    v.push(("Y", "yank as jq path (JSON only)"));
    v.push(("c", "collapse all"));
    v.push(("e", "expand all"));
    v.push(("?", "toggle this help"));
    v.push(("q / Esc", "quit"));
    assert(pairs_view(v@) =~= help_legend());
    v
}

/// `s` padded with spaces to `width` characters.
pub open spec fn pad_right(s: Seq<char>, width: nat) -> Seq<char> {
    if s.len() < width {
        s + Seq::new((width - s.len()) as nat, |i: int| ' ')
    } else {
        s
    }
}

/// A help line: the key padded to 14 characters, bold (in the key color
/// when colors are on), then what it does.
pub open spec fn help_entry(key: Seq<char>, desc: Seq<char>, use_color: bool) -> Seq<SegmentView> {
    seq![seg(pad_right(key, 14), role_if(use_color, Color::Key), true), seg(desc, None, false)]
}

/// The help: a bold title, a blank line, a line per key, a blank line and
/// how to close it.
pub open spec fn help_spec(use_color: bool) -> Seq<Seq<SegmentView>> {
    let legend = help_legend();
    seq![seq![seg("Keybindings"@, role_if(use_color, Color::Str), true)], Seq::empty()]
        + Seq::new(legend.len(), |i: int| help_entry(legend[i].0, legend[i].1, use_color))
        + seq![
        Seq::empty(),
        seq![seg("press ? or Esc to close"@, role_if(use_color, Color::Structure), false)],
    ]
}

pub fn help_entry_spans(key: &str, desc: &str, use_color: bool) -> (r: Vec<Segment>)
    ensures
        segs_view(r@) == help_entry(key@, desc@, use_color),
{
    let mut padded = key.to_owned();
    let n = chars_of(key).len();
    if n < 14 {
        let mut i = n;
        while i < 14
            invariant
                n <= i <= 14,
                n == key@.len(),
                padded@ == key@ + Seq::new((i - n) as nat, |k: int| ' '),
            decreases 14 - i,
        {
            padded.push(' ');
            assert(key@ + Seq::new((i + 1 - n) as nat, |k: int| ' ') =~= (key@ + Seq::new(
                (i - n) as nat,
                |k: int| ' ',
            )).push(' '));
            i += 1;
        }
    }
    pair(segment(padded, role(use_color, Color::Key), true), literal(desc, None, false))
}

pub fn help_lines(use_color: bool) -> (r: Vec<Vec<Segment>>)
    ensures
        lines_view(r@) == help_spec(use_color),
{
    let legend = help_legend_entries();
    let ghost lv = help_legend();
    let mut out: Vec<Vec<Segment>> = Vec::new();
    let mut title: Vec<Segment> = Vec::new();
    title.push(literal("Keybindings", role(use_color, Color::Str), true));
    out.push(title);
    out.push(Vec::new());
    let mut i: usize = 0;
    while i < legend.len()
        invariant
            i <= legend@.len(),
            pairs_view(legend@) == lv,
            lv == help_legend(),
            out@.len() == i + 2,
            segs_view(out@[0]@) == seq![seg("Keybindings"@, role_if(use_color, Color::Str), true)],
            segs_view(out@[1]@) == Seq::<SegmentView>::empty(),
            forall|k: int|
                0 <= k < i ==> segs_view((#[trigger] out@[k + 2])@) == help_entry(
                    lv[k].0,
                    lv[k].1,
                    use_color,
                ),
        decreases legend@.len() - i,
    {
        let (key, desc) = legend[i];
        assert(lv[i as int] == (key@, desc@));
        out.push(help_entry_spans(key, desc, use_color));
        i += 1;
    }
    let blank: Vec<Segment> = Vec::new();
    assert(segs_view(blank@) =~= Seq::<SegmentView>::empty());
    out.push(blank);
    let mut footer: Vec<Segment> = Vec::new();
    footer.push(literal("press ? or Esc to close", role(use_color, Color::Structure), false));
    assert(segs_view(footer@) =~= seq![
        seg("press ? or Esc to close"@, role_if(use_color, Color::Structure), false),
    ]);
    out.push(footer);
    let ghost want = help_spec(use_color);
    assert(lv.len() == legend@.len());
    assert(want.len() == out@.len());
    assert forall|k: int| 0 <= k < out@.len() implies #[trigger] lines_view(out@)[k] == want[k] by {
        if 2 <= k < out@.len() - 2 {
            assert(segs_view(out@[(k - 2) + 2]@) == help_entry(lv[k - 2].0, lv[k - 2].1, use_color));
        }
    }
    assert(lines_view(out@) =~= want);
    out
}

} // verus!
