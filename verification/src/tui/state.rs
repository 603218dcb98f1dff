//! The browser's state, and rebuilding its lines after a change.
use crate::json_tree::JsonNode;
use crate::paths::strings_view;
use crate::stats::{json_height, json_size, lemma_json_height_lt_size, lemma_xml_height_lt_count, xml_count, xml_height};
use crate::tui::flatten::{
    collect_all_paths_json, collect_all_paths_xml, collect_container_paths_json,
    collect_container_paths_xml, entries_view, flatten_json, flatten_xml, json_all,
    json_containers, json_lines, lines_view, xml_all, xml_containers, xml_lines, Line, LineView,
};
use crate::tui::pathset::{paths_equal, PathSet, TagMap};
use crate::xml_tree::XmlNode;
use vstd::prelude::*;

verus! {

broadcast use vstd::string::group_string_axioms;

/// A text to put on the clipboard, and how the status line names it once
/// copied.
pub struct ClipboardRequest {
    pub text: String,
    pub shown: String,
}

/// Everything the browser shows and remembers between keys.
pub struct AppState {
    /// The visible lines, in document order.
    pub lines: Vec<Line>,
    /// Containers whose children are hidden.
    pub collapsed: PathSet,
    /// Every container of the document.
    pub all_container_paths: PathSet,
    /// Arrays listed in full instead of up to the preview limit.
    pub array_overrides: PathSet,
    /// Tags (1-8) of tagged nodes.
    pub tags: TagMap,
    pub cursor: usize,
    /// The `/` search query.
    pub search: String,
    /// Whether keys edit the `/` search query.
    pub searching: bool,
    pub use_color: bool,
    pub status_message: Option<String>,
    pub help_visible: bool,
    /// False for XML (no jq paths).
    pub is_json: bool,
    /// The first visible line, as last drawn.
    pub scroll_offset: usize,
    /// How many lines fit on screen, as last drawn (0 before the first frame).
    pub viewport_height: usize,
    /// Every node's path and search text, collapsed or not.
    pub all_paths: Vec<(Vec<String>, String)>,
    /// A node to put the cursor on once the lines are rebuilt.
    pub pending_cursor_path: Option<Vec<String>>,
    /// Which line (0-based) among those sharing `pending_cursor_path`.
    pub pending_cursor_occurrence: usize,
    /// Digits of a `g`-prefixed count jump, while one is being typed.
    pub count_buffer: Option<String>,
    /// The whole-document search popup (`F`).
    pub popup_visible: bool,
    pub popup_query: String,
    pub popup_selected: usize,
    /// The node inspector (`i`).
    pub inspect_visible: bool,
    pub popup_scroll_offset: usize,
    /// `--pick`: Enter chooses the current node and quits.
    pub pick_mode: bool,
    /// The node chosen in pick mode.
    pub pick_result: Option<String>,
    /// Where the visual selection (`V`) started.
    pub visual_anchor: Option<usize>,
    /// A copy to the clipboard that a key asked for, not yet made.
    pub clipboard_request: Option<ClipboardRequest>,
}

/// The state as plain values.
pub struct AppModel {
    pub lines: Seq<LineView>,
    pub collapsed: Set<Seq<Seq<char>>>,
    pub containers: Set<Seq<Seq<char>>>,
    pub overrides: Set<Seq<Seq<char>>>,
    pub tags: Map<Seq<Seq<char>>, u8>,
    pub cursor: nat,
    pub search: Seq<char>,
    pub searching: bool,
    pub use_color: bool,
    pub status: Option<Seq<char>>,
    pub help_visible: bool,
    pub is_json: bool,
    pub scroll_offset: nat,
    pub viewport_height: nat,
    pub all_paths: Seq<(Seq<Seq<char>>, Seq<char>)>,
    pub pending_path: Option<Seq<Seq<char>>>,
    pub pending_occurrence: nat,
    pub count_buffer: Option<Seq<char>>,
    pub popup_visible: bool,
    pub popup_query: Seq<char>,
    pub popup_selected: nat,
    pub inspect_visible: bool,
    pub popup_scroll_offset: nat,
    pub pick_mode: bool,
    pub pick_result: Option<Seq<char>>,
    pub visual_anchor: Option<nat>,
    pub clipboard: Option<(Seq<char>, Seq<char>)>,
}

pub open spec fn opt_string(s: Option<String>) -> Option<Seq<char>> {
    match s {
        Some(v) => Some(v@),
        None => None,
    }
}

impl View for AppState {
    type V = AppModel;

    open spec fn view(&self) -> AppModel {
        AppModel {
            lines: lines_view(self.lines@),
            collapsed: self.collapsed.view(),
            containers: self.all_container_paths.view(),
            overrides: self.array_overrides.view(),
            tags: self.tags.view(),
            cursor: self.cursor as nat,
            search: self.search@,
            searching: self.searching,
            use_color: self.use_color,
            status: opt_string(self.status_message),
            help_visible: self.help_visible,
            is_json: self.is_json,
            scroll_offset: self.scroll_offset as nat,
            viewport_height: self.viewport_height as nat,
            all_paths: entries_view(self.all_paths@),
            pending_path: match self.pending_cursor_path {
                Some(p) => Some(strings_view(p@)),
                None => None,
            },
            pending_occurrence: self.pending_cursor_occurrence as nat,
            count_buffer: opt_string(self.count_buffer),
            popup_visible: self.popup_visible,
            popup_query: self.popup_query@,
            popup_selected: self.popup_selected as nat,
            inspect_visible: self.inspect_visible,
            popup_scroll_offset: self.popup_scroll_offset as nat,
            pick_mode: self.pick_mode,
            pick_result: opt_string(self.pick_result),
            visual_anchor: match self.visual_anchor {
                Some(a) => Some(a as nat),
                None => None,
            },
            clipboard: match self.clipboard_request {
                Some(r) => Some((r.text@, r.shown@)),
                None => None,
            },
        }
    }
}

/// The state a browser opens in: the given lines and paths, nothing
/// collapsed, tagged, searched or shown over the tree.
pub open spec fn initial_model(
    lines: Seq<LineView>,
    containers: Set<Seq<Seq<char>>>,
    all_paths: Seq<(Seq<Seq<char>>, Seq<char>)>,
    use_color: bool,
    is_json: bool,
    pick_mode: bool,
) -> AppModel {
    AppModel {
        lines,
        collapsed: Set::empty(),
        containers,
        overrides: Set::empty(),
        tags: Map::empty(),
        cursor: 0,
        search: Seq::empty(),
        searching: false,
        use_color,
        status: None,
        help_visible: false,
        is_json,
        scroll_offset: 0,
        viewport_height: 0,
        all_paths,
        pending_path: None,
        pending_occurrence: 0,
        count_buffer: None,
        popup_visible: false,
        popup_query: Seq::empty(),
        popup_selected: 0,
        inspect_visible: false,
        popup_scroll_offset: 0,
        pick_mode,
        pick_result: None,
        visual_anchor: None,
        clipboard: None,
    }
}

/// The index of the `occ`-th line (0-based) at or after `from` whose path is
/// `path`.
pub open spec fn nth_path_index(lines: Seq<LineView>, path: Seq<Seq<char>>, occ: nat, from: nat) -> Option<nat>
    decreases lines.len() - from,
{
    if from >= lines.len() {
        None
    } else if lines[from as int].path == path {
        if occ == 0 {
            Some(from)
        } else {
            nth_path_index(lines, path, (occ - 1) as nat, from + 1)
        }
    } else {
        nth_path_index(lines, path, occ, from + 1)
    }
}

/// The cursor moved to the `occ`-th line at `path`; unchanged when there is none.
pub open spec fn move_to_nth_path(m: AppModel, path: Seq<Seq<char>>, occ: nat) -> AppModel {
    match nth_path_index(m.lines, path, occ, 0) {
        Some(i) => AppModel { cursor: i, ..m },
        None => m,
    }
}

/// A pending cursor target consumed: the cursor moved to it (when present).
pub open spec fn apply_pending(m: AppModel) -> AppModel {
    match m.pending_path {
        Some(p) => move_to_nth_path(
            AppModel { pending_path: None, pending_occurrence: 0, ..m },
            p,
            m.pending_occurrence,
        ),
        None => m,
    }
}

/// `n - 1`, or 0 for 0.
pub open spec fn last_index(n: nat) -> nat {
    if n == 0 {
        0
    } else {
        (n - 1) as nat
    }
}

/// The state after its lines were rebuilt as `lines`: the pending target
/// applied, then the cursor kept on a line.
pub open spec fn rebuilt(m: AppModel, lines: Seq<LineView>) -> AppModel {
    let a = apply_pending(AppModel { lines, ..m });
    AppModel {
        cursor: if a.cursor <= last_index(lines.len()) {
            a.cursor
        } else {
            last_index(lines.len())
        },
        ..a
    }
}

impl AppState {
    /// The browser's opening state for a JSON document.
    pub fn new_json(node: &JsonNode, use_color: bool, pick_mode: bool) -> (r: Self)
        requires
            json_size(*node) <= usize::MAX,
        ensures
            r@ == initial_model(
                json_lines(*node, Seq::empty(), 0, Set::empty(), Set::empty()),
                json_containers(*node, Seq::empty()),
                json_all(*node, Seq::empty()),
                use_color,
                true,
                pick_mode,
            ),
    {
        proof {
            lemma_json_height_lt_size(*node);
        }
        let collapsed = PathSet::new();
        let array_overrides = PathSet::new();
        let root: Vec<String> = Vec::new();
        let mut lines: Vec<Line> = Vec::new();
        flatten_json(node, root.as_slice(), 0, &collapsed, &array_overrides, &mut lines);
        let mut all_container_paths = PathSet::new();
        collect_container_paths_json(node, root.as_slice(), &mut all_container_paths);
        let mut all_paths: Vec<(Vec<String>, String)> = Vec::new();
        collect_all_paths_json(node, root.as_slice(), &mut all_paths);
        assert(strings_view(root@) =~= Seq::<Seq<char>>::empty());
        assert(lines_view(lines@) =~= json_lines(*node, Seq::empty(), 0, Set::empty(), Set::empty()));
        assert(all_container_paths.view() =~= json_containers(*node, Seq::empty()));
        assert(entries_view(all_paths@) =~= json_all(*node, Seq::empty()));
        AppState::opening(lines, all_container_paths, all_paths, use_color, true, pick_mode)
    }

    /// The browser's opening state for an XML document.
    pub fn new_xml(node: &XmlNode, use_color: bool, pick_mode: bool) -> (r: Self)
        requires
            xml_count(*node, 0) <= usize::MAX,
        ensures
            r@ == initial_model(
                xml_lines(*node, Seq::empty(), 0, Set::empty()),
                xml_containers(*node, Seq::empty()),
                xml_all(*node, Seq::empty()),
                use_color,
                false,
                pick_mode,
            ),
    {
        proof {
            lemma_xml_height_lt_count(*node);
        }
        let collapsed = PathSet::new();
        let root: Vec<String> = Vec::new();
        let mut lines: Vec<Line> = Vec::new();
        flatten_xml(node, root.as_slice(), 0, &collapsed, &mut lines);
        let mut all_container_paths = PathSet::new();
        collect_container_paths_xml(node, root.as_slice(), &mut all_container_paths);
        let mut all_paths: Vec<(Vec<String>, String)> = Vec::new();
        collect_all_paths_xml(node, root.as_slice(), &mut all_paths);
        assert(strings_view(root@) =~= Seq::<Seq<char>>::empty());
        assert(lines_view(lines@) =~= xml_lines(*node, Seq::empty(), 0, Set::empty()));
        assert(all_container_paths.view() =~= xml_containers(*node, Seq::empty()));
        assert(entries_view(all_paths@) =~= xml_all(*node, Seq::empty()));
        AppState::opening(lines, all_container_paths, all_paths, use_color, false, pick_mode)
    }

    /// A browser showing `lines`, with nothing collapsed, tagged, searched
    /// or shown over the tree.
    pub fn opening(
        lines: Vec<Line>,
        all_container_paths: PathSet,
        all_paths: Vec<(Vec<String>, String)>,
        use_color: bool,
        is_json: bool,
        pick_mode: bool,
    ) -> (r: Self)
        ensures
            r@ == initial_model(
                lines_view(lines@),
                all_container_paths.view(),
                entries_view(all_paths@),
                use_color,
                is_json,
                pick_mode,
            ),
    {
        AppState {
            lines,
            collapsed: PathSet::new(),
            all_container_paths,
            array_overrides: PathSet::new(),
            tags: TagMap::new(),
            cursor: 0,
            search: String::new(),
            searching: false,
            use_color,
            status_message: None,
            help_visible: false,
            is_json,
            scroll_offset: 0,
            viewport_height: 0,
            all_paths,
            pending_cursor_path: None,
            pending_cursor_occurrence: 0,
            count_buffer: None,
            popup_visible: false,
            popup_query: String::new(),
            popup_selected: 0,
            inspect_visible: false,
            popup_scroll_offset: 0,
            pick_mode,
            pick_result: None,
            visual_anchor: None,
            clipboard_request: None,
        }
    }
}

/// Puts the cursor on the `occurrence`-th (0-based) line at `path`, when
/// there is one; several lines share a path when XML siblings share a name.
pub fn move_cursor_to_nth_path(state: &mut AppState, path: &[String], occurrence: usize)
    ensures
        final(state)@ == move_to_nth_path(old(state)@, strings_view(path@), occurrence as nat),
{
    let ghost lines = lines_view(state.lines@);
    let ghost p = strings_view(path@);
    let mut remaining = occurrence;
    let mut i: usize = 0;
    while i < state.lines.len()
        invariant
            i <= state.lines@.len(),
            *state == *old(state),
            lines == lines_view(state.lines@),
            p == strings_view(path@),
            nth_path_index(lines, p, occurrence as nat, 0) == nth_path_index(
                lines,
                p,
                remaining as nat,
                i as nat,
            ),
        decreases state.lines@.len() - i,
    {
        assert(lines[i as int].path == strings_view(state.lines@[i as int].path@));
        if paths_equal(state.lines[i].path.as_slice(), path) {
            if remaining == 0 {
                state.cursor = i;
                return;
            }
            remaining -= 1;
        }
        i += 1;
    }
}

/// Moves the cursor to the pending target, if any, and clears it.
pub fn apply_pending_cursor_path(state: &mut AppState)
    ensures
        final(state)@ == apply_pending(old(state)@),
{
    let pending = state.pending_cursor_path.take();
    match pending {
        Some(path) => {
            let occurrence = state.pending_cursor_occurrence;
            state.pending_cursor_occurrence = 0;
            move_cursor_to_nth_path(state, path.as_slice(), occurrence);
        },
        None => {},
    }
}

#[verifier::spinoff_prover]
fn finish_rebuild(state: &mut AppState, lines: Vec<Line>)
    ensures
        final(state)@ == rebuilt(old(state)@, lines_view(lines@)),
{
    let ghost m0 = AppModel { lines: lines_view(lines@), ..old(state)@ };
    state.lines = lines;
    assert(state@ == m0);
    apply_pending_cursor_path(state);
    let ghost m1 = state@;
    assert(m1 == apply_pending(m0));
    assert(m1.lines == m0.lines);
    let last = if state.lines.len() == 0 {
        0
    } else {
        state.lines.len() - 1
    };
    if state.cursor > last {
        state.cursor = last;
    }
}

/// Rebuilds the lines of a JSON document after collapsing or expanding, then
/// places the cursor on a pending target and keeps it on a line.
pub fn rebuild_json_lines(state: &mut AppState, node: &JsonNode)
    requires
        json_height(*node) <= usize::MAX,
    ensures
        final(state)@ == rebuilt(
            old(state)@,
            json_lines(*node, Seq::empty(), 0, old(state)@.collapsed, old(state)@.overrides),
        ),
{
    let root: Vec<String> = Vec::new();
    let mut lines: Vec<Line> = Vec::new();
    flatten_json(node, root.as_slice(), 0, &state.collapsed, &state.array_overrides, &mut lines);
    assert(strings_view(root@) =~= Seq::<Seq<char>>::empty());
    assert(lines_view(lines@) =~= json_lines(
        *node,
        Seq::empty(),
        0,
        state.collapsed.view(),
        state.array_overrides.view(),
    ));
    finish_rebuild(state, lines);
}

/// Rebuilds the lines of an XML document after collapsing or expanding, then
/// places the cursor on a pending target and keeps it on a line.
pub fn rebuild_xml_lines(state: &mut AppState, node: &XmlNode)
    requires
        xml_height(*node) <= usize::MAX,
    ensures
        final(state)@ == rebuilt(
            old(state)@,
            xml_lines(*node, Seq::empty(), 0, old(state)@.collapsed),
        ),
{
    let root: Vec<String> = Vec::new();
    let mut lines: Vec<Line> = Vec::new();
    flatten_xml(node, root.as_slice(), 0, &state.collapsed, &mut lines);
    assert(strings_view(root@) =~= Seq::<Seq<char>>::empty());
    assert(lines_view(lines@) =~= xml_lines(*node, Seq::empty(), 0, state.collapsed.view()));
    finish_rebuild(state, lines);
}

} // verus!
