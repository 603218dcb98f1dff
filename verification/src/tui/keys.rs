//! What each key does to the browser's state.
use crate::paths::strings_view;
use crate::tui::flatten::{entries_view, lines_view, search_text, search_text_spec, Line, LineView};
use crate::tui::fuzzy::{fuzzy_matches, fuzzy_spec};
use crate::tui::pathset::{clone_path, path_prefix, paths_equal};
use crate::json_tree::{display_path_spec, escape_display, escape_display_str, join_dot};
use crate::paths::display_path;
use crate::text::{chars_of, decimal, decimal_string, parse_usize, parse_usize_spec, push_str};
use crate::tui::jq::{jq_path, to_jq_path};
use crate::tui::state::{
    apply_pending, last_index, move_to_nth_path, nth_path_index, rebuilt, AppModel, AppState,
    ClipboardRequest,
};
use vstd::arithmetic::div_mod::{
    lemma_add_mod_noop, lemma_add_mod_noop_right, lemma_fundamental_div_mod, lemma_fundamental_div_mod_converse,
    lemma_mod_add_multiples_vanish, lemma_small_mod, lemma_sub_mod_noop_right,
};
use vstd::prelude::*;
use vstd::string::StrSliceExecFns;

pub use crate::tui::state::move_cursor_to_nth_path;

verus! {

broadcast use vstd::string::group_string_axioms;

/// A path as plain values.
pub open spec fn pv(p: Seq<String>) -> Seq<Seq<char>> {
    strings_view(p)
}

/// Whether `query` fuzzy-matches `text`.
pub open spec fn matches(text: Seq<char>, query: Seq<char>) -> bool {
    fuzzy_spec(text, query) is Some
}

/// The path of the array that a `N more` line closes: its own path without
/// the last segment.
pub open spec fn summary_array_path(path: Seq<Seq<char>>) -> Seq<Seq<char>> {
    if path.len() == 0 {
        path
    } else {
        path.drop_last()
    }
}

/// The node a line stands for: for a `N more` line, its array.
pub open spec fn real_path(l: LineView) -> Seq<Seq<char>> {
    if l.is_array_summary {
        summary_array_path(l.path)
    } else {
        l.path
    }
}

/// What `/` search matches a visible line by (a `N more` line's own text is
/// not document data, so only its path counts).
pub open spec fn line_text(l: LineView) -> Seq<char> {
    search_text_spec(
        l.path,
        if l.is_array_summary {
            None
        } else {
            match l.value {
                Some(v) => Some(v.0),
                None => None,
            }
        },
    )
}

/// The strict ancestors of `path`: its prefixes of 1 to `len - 1` segments.
pub open spec fn ancestors(path: Seq<Seq<char>>, upto: int) -> Set<Seq<Seq<char>>> {
    Set::new(|a: Seq<Seq<char>>| exists|i: int| 1 <= i < upto && i < path.len() && a == path.take(i))
}

/// Every ancestor of `path` expanded, and every ancestor array listed in
/// full, so that `path` becomes visible once the lines are rebuilt.
pub open spec fn expand_into_view(m: AppModel, path: Seq<Seq<char>>) -> AppModel {
    AppModel {
        collapsed: m.collapsed.difference(ancestors(path, path.len() as int)),
        overrides: m.overrides.union(ancestors(path, path.len() as int)),
        ..m
    }
}

/// The path of the array that a `N more` line at `path` closes.
pub fn array_path_for_summary_line(path: &[String]) -> (r: Vec<String>)
    ensures
        pv(r@) == summary_array_path(pv(path@)),
{
    if path.len() == 0 {
        Vec::new()
    } else {
        let r = path_prefix(path, path.len() - 1);
        assert(pv(path@).take(path@.len() - 1) =~= pv(path@).drop_last());
        r
    }
}

/// The path of the node `line` stands for.
pub fn line_real_path(line: &Line) -> (r: Vec<String>)
    ensures
        pv(r@) == real_path(line@),
{
    if line.is_array_summary {
        array_path_for_summary_line(line.path.as_slice())
    } else {
        clone_path(line.path.as_slice())
    }
}

/// What `/` search matches `line` by.
pub fn line_search_text(line: &Line) -> (r: String)
    ensures
        r@ == line_text(line@),
{
    if line.is_array_summary {
        search_text(line.path.as_slice(), None)
    } else {
        match &line.value {
            Some(v) => search_text(line.path.as_slice(), Some(v.0.as_str())),
            None => search_text(line.path.as_slice(), None),
        }
    }
}

/// Expands every ancestor of `path` (and lists ancestor arrays in full);
/// the cursor moves once the lines are rebuilt.
pub fn expand_path_into_view(state: &mut AppState, path: &[String])
    ensures
        final(state)@ == expand_into_view(old(state)@, pv(path@)),
{
    let ghost p = pv(path@);
    let ghost m0 = state@;
    let mut i: usize = 1;
    assert(ancestors(p, 1) =~= Set::empty());
    assert(m0.collapsed.difference(ancestors(p, 1)) =~= m0.collapsed);
    assert(m0.overrides.union(ancestors(p, 1)) =~= m0.overrides);
    while i < path.len()
        invariant
            1 <= i,
            i <= path@.len() || path@.len() == 0,
            p == pv(path@),
            state@ == (AppModel {
                collapsed: m0.collapsed.difference(ancestors(p, i as int)),
                overrides: m0.overrides.union(ancestors(p, i as int)),
                ..m0
            }),
        decreases path@.len() - i,
    {
        let ancestor = path_prefix(path, i);
        let ghost a = pv(ancestor@);
        state.collapsed.remove(ancestor.as_slice());
        state.array_overrides.insert(ancestor);
        assert(ancestors(p, i + 1) =~= ancestors(p, i as int).insert(a)) by {
            assert forall|x| ancestors(p, i + 1).contains(x) implies ancestors(p, i as int).insert(a).contains(x) by {
                let j = choose|j: int| 1 <= j < i + 1 && j < p.len() && x == p.take(j);
                if j < i {
                    assert(ancestors(p, i as int).contains(x));
                }
            }
            assert(ancestors(p, i + 1).contains(a));
        }
        assert(state.collapsed.view() =~= m0.collapsed.difference(ancestors(p, i + 1)));
        assert(state.array_overrides.view() =~= m0.overrides.union(ancestors(p, i + 1)));
        i += 1;
    }
    proof {
        if p.len() <= 1 {
            assert(ancestors(p, p.len() as int) =~= ancestors(p, 1));
        }
        assert(ancestors(p, p.len() as int) =~= ancestors(p, i as int));
    }
}

// ---------------------------------------------------------------------------
// `/` search: the next visible match, else one anywhere in the document.
// ---------------------------------------------------------------------------

/// The first visible line matching the search, trying the lines `k`, `k+1`,
/// ... `n` places after the cursor (wrapping).
pub open spec fn visible_match_from(m: AppModel, k: nat) -> Option<nat>
    decreases m.lines.len() + 1 - k,
{
    let n = m.lines.len();
    if n == 0 || k > n {
        None
    } else {
        let idx = (((m.cursor + k) as int) % (n as int)) as nat;
        if matches(line_text(m.lines[idx as int]), m.search) {
            Some(idx)
        } else {
            visible_match_from(m, k + 1)
        }
    }
}

/// The first entry at or after `from` whose search text matches `query`.
pub open spec fn first_entry_match(entries: Seq<(Seq<Seq<char>>, Seq<char>)>, query: Seq<char>, from: nat) -> Option<nat>
    decreases entries.len() - from,
{
    if from >= entries.len() {
        None
    } else if matches(entries[from as int].1, query) {
        Some(from)
    } else {
        first_entry_match(entries, query, from + 1)
    }
}

/// `n`, `/`-typing: the cursor moves to the next visible match after it
/// (wrapping); with none visible, the first match in the whole document is
/// expanded into view and becomes the pending cursor target.
pub open spec fn jump_next(m: AppModel) -> AppModel {
    if m.search.len() == 0 {
        m
    } else {
        match visible_match_from(m, 1) {
            Some(i) => AppModel { cursor: i, ..m },
            None => match first_entry_match(m.all_paths, m.search, 0) {
                Some(j) => {
                    let p = m.all_paths[j as int].0;
                    AppModel { pending_path: Some(p), ..expand_into_view(m, p) }
                },
                None => m,
            },
        }
    }
}

proof fn lemma_mod_step(x: int, n: int)
    requires
        n > 0,
        x >= 0,
    ensures
        (x + 1) % n == if x % n + 1 == n {
            0
        } else {
            x % n + 1
        },
{
    lemma_fundamental_div_mod(x, n);
    let q = x / n;
    let r = x % n;
    if r + 1 == n {
        assert(x + 1 == (q + 1) * n + 0) by (nonlinear_arith)
            requires
                x == n * q + r,
                r + 1 == n,
        ;
        lemma_fundamental_div_mod_converse(x + 1, n, q + 1, 0);
    } else {
        assert(x + 1 == q * n + (r + 1)) by (nonlinear_arith)
            requires
                x == n * q + r,
        ;
        lemma_fundamental_div_mod_converse(x + 1, n, q, r + 1);
    }
}

fn entry_matches(state: &AppState, j: usize, query: &str) -> (r: bool)
    requires
        j < state.all_paths@.len(),
    ensures
        r == matches(state@.all_paths[j as int].1, query@),
{
    fuzzy_matches(state.all_paths[j].1.as_str(), query)
}

/// The first entry of the whole document whose search text matches `query`.
fn first_document_match(state: &AppState, query: &str) -> (r: Option<usize>)
    ensures
        match r {
            Some(j) => first_entry_match(state@.all_paths, query@, 0) == Some(j as nat) && j
                < state.all_paths@.len(),
            None => first_entry_match(state@.all_paths, query@, 0) is None,
        },
{
    let ghost e = state@.all_paths;
    let mut j: usize = 0;
    while j < state.all_paths.len()
        invariant
            j <= state.all_paths@.len(),
            e == state@.all_paths,
            first_entry_match(e, query@, 0) == first_entry_match(e, query@, j as nat),
        decreases state.all_paths@.len() - j,
    {
        if entry_matches(state, j, query) {
            return Some(j);
        }
        j += 1;
    }
    None
}

/// Moves to the next match of the `/` search after the cursor among the
/// visible lines (wrapping); failing that, expands the first match in the
/// whole document (collapsed or beyond an array preview) into view and
/// makes it the pending cursor target. Does nothing for an empty search.
pub fn jump_to_next_match(state: &mut AppState)
    ensures
        final(state)@ == jump_next(old(state)@),
{
    if state.search.as_str().is_empty() {
        return;
    }
    let ghost m = state@;
    let n = state.lines.len();
    if n > 0 {
        let mut idx = state.cursor % n;
        let mut k: usize = 0;
        proof {
            assert(idx == ((m.cursor + 0) as int) % (n as int));
        }
        while k < n
            invariant
                k <= n,
                n == state.lines@.len(),
                n > 0,
                state@ == m,
                m == old(state)@,
                m.search.len() > 0,
                idx == ((m.cursor + k) as int) % (n as int),
                visible_match_from(m, 1) == visible_match_from(m, (k + 1) as nat),
            decreases n - k,
        {
            proof {
                lemma_mod_step((m.cursor + k) as int, n as int);
            }
            idx = if idx + 1 == n {
                0
            } else {
                idx + 1
            };
            assert(idx == ((m.cursor + (k + 1)) as int) % (n as int));
            assert(m.lines[idx as int] == state.lines@[idx as int]@);
            let text = line_search_text(&state.lines[idx]);
            if fuzzy_matches(text.as_str(), state.search.as_str()) {
                assert(visible_match_from(m, (k + 1) as nat) == Some(idx as nat));
                state.cursor = idx;
                return;
            }
            k += 1;
        }
    }
    assert(visible_match_from(m, 1) is None);
    match first_document_match(state, state.search.as_str()) {
        Some(j) => {
            let path = clone_path(state.all_paths[j].0.as_slice());
            assert(pv(path@) == m.all_paths[j as int].0);
            expand_path_into_view(state, path.as_slice());
            state.pending_cursor_path = Some(path);
        },
        None => {},
    }
}

// ---------------------------------------------------------------------------
// Cycling through every match of the `/` search in the whole document.
// ---------------------------------------------------------------------------

/// How many of `ms` are at `p`.
pub open spec fn count_path(ms: Seq<(Seq<Seq<char>>, nat)>, p: Seq<Seq<char>>) -> nat
    decreases ms.len(),
{
    if ms.len() == 0 {
        0
    } else {
        count_path(ms.drop_last(), p) + if ms.last().0 == p {
            1nat
        } else {
            0nat
        }
    }
}

/// The matches among the first `k` entries, in document order, each with
/// its rank among the matches sharing its path (XML siblings can share one).
pub open spec fn search_matches(entries: Seq<(Seq<Seq<char>>, Seq<char>)>, query: Seq<char>, k: nat) -> Seq<
    (Seq<Seq<char>>, nat),
>
    decreases k,
{
    if k == 0 || k > entries.len() {
        Seq::empty()
    } else {
        let prev = search_matches(entries, query, (k - 1) as nat);
        let e = entries[k - 1];
        if matches(e.1, query) {
            prev.push((e.0, count_path(prev, e.0)))
        } else {
            prev
        }
    }
}

/// How many of the first `k` lines stand for `p`.
pub open spec fn count_real(lines: Seq<LineView>, k: nat, p: Seq<Seq<char>>) -> nat
    decreases k,
{
    if k == 0 || k > lines.len() {
        0
    } else {
        count_real(lines, (k - 1) as nat, p) + if real_path(lines[k - 1]) == p {
            1nat
        } else {
            0nat
        }
    }
}

/// Puts the cursor on the first line at `path`, when there is one.
pub fn move_cursor_to_path(state: &mut AppState, path: &[String])
    ensures
        final(state)@ == move_to_nth_path(old(state)@, pv(path@), 0),
{
    move_cursor_to_nth_path(state, path, 0);
}

/// The first index at or after `from` holding `target`.
pub open spec fn position_from(ms: Seq<(Seq<Seq<char>>, nat)>, target: (Seq<Seq<char>>, nat), from: nat) -> Option<nat>
    decreases ms.len() - from,
{
    if from >= ms.len() {
        None
    } else if ms[from as int] == target {
        Some(from)
    } else {
        position_from(ms, target, from + 1)
    }
}

/// The match the cursor's line is, if any: the one at its node's path with
/// its rank among the visible lines at that path.
pub open spec fn current_match(m: AppModel, ms: Seq<(Seq<Seq<char>>, nat)>) -> Option<nat> {
    if m.cursor < m.lines.len() {
        let rp = real_path(m.lines[m.cursor as int]);
        position_from(ms, (rp, (count_real(m.lines, m.cursor + 1, rp) - 1) as nat), 0)
    } else {
        None
    }
}

/// `Tab`/`Shift+Tab` while searching, `n`/`N`: the match `delta` places
/// from the cursor's among every match in the document (wrapping), or the
/// first (last, going back) when the cursor is on none; it is expanded into
/// view and becomes the pending cursor target.
pub open spec fn cycle(m: AppModel, delta: int) -> AppModel {
    let ms = search_matches(m.all_paths, m.search, m.all_paths.len());
    if m.search.len() == 0 || ms.len() == 0 {
        m
    } else {
        let n = ms.len() as int;
        let next: int = match current_match(m, ms) {
            Some(i) => (i + delta) % n,
            None => if delta >= 0 {
                0
            } else {
                n - 1
            },
        };
        let target = ms[next];
        AppModel {
            pending_path: Some(target.0),
            pending_occurrence: target.1,
            ..expand_into_view(m, target.0)
        }
    }
}

pub open spec fn matches_view(v: Seq<(Vec<String>, usize)>) -> Seq<(Seq<Seq<char>>, nat)> {
    v.map_values(|e: (Vec<String>, usize)| (pv(e.0@), e.1 as nat))
}

fn count_occurrences(ms: &Vec<(Vec<String>, usize)>, p: &[String]) -> (r: usize)
    ensures
        r == count_path(matches_view(ms@), pv(p@)),
        r <= ms@.len(),
{
    let ghost v = matches_view(ms@);
    let mut c: usize = 0;
    let mut i: usize = 0;
    while i < ms.len()
        invariant
            i <= ms@.len(),
            v == matches_view(ms@),
            c <= i,
            c == count_path(v.take(i as int), pv(p@)),
        decreases ms@.len() - i,
    {
        assert(v.take(i + 1).drop_last() == v.take(i as int));
        if paths_equal(ms[i].0.as_slice(), p) {
            c += 1;
        }
        i += 1;
    }
    assert(v.take(ms@.len() as int) == v);
    c
}

fn all_search_matches(state: &AppState, query: &str) -> (r: Vec<(Vec<String>, usize)>)
    ensures
        matches_view(r@) == search_matches(state@.all_paths, query@, state@.all_paths.len()),
{
    let ghost e = state@.all_paths;
    let mut ms: Vec<(Vec<String>, usize)> = Vec::new();
    let mut j: usize = 0;
    while j < state.all_paths.len()
        invariant
            j <= state.all_paths@.len(),
            e == state@.all_paths,
            matches_view(ms@) == search_matches(e, query@, j as nat),
        decreases state.all_paths@.len() - j,
    {
        if entry_matches(state, j, query) {
            let occ = count_occurrences(&ms, state.all_paths[j].0.as_slice());
            let p = clone_path(state.all_paths[j].0.as_slice());
            let ghost before = ms@;
            ms.push((p, occ));
            assert(matches_view(ms@) =~= matches_view(before).push((e[j as int].0, occ as nat)));
        }
        j += 1;
    }
    ms
}

/// How many of the lines up to and including `cursor` stand for `p`.
fn count_real_upto(state: &AppState, cursor: usize, p: &[String]) -> (r: usize)
    requires
        cursor < state.lines@.len(),
    ensures
        r == count_real(state@.lines, (cursor + 1) as nat, pv(p@)),
{
    let ghost lines = state@.lines;
    let len = state.lines.len();
    let end = cursor + 1;
    let mut c: usize = 0;
    let mut i: usize = 0;
    while i < end
        invariant
            i <= end,
            end == cursor + 1,
            end <= len == state.lines@.len(),
            lines == state@.lines,
            c <= i,
            c == count_real(lines, i as nat, pv(p@)),
        decreases end - i,
    {
        let rp = line_real_path(&state.lines[i]);
        assert(lines[i as int] == state.lines@[i as int]@);
        if paths_equal(rp.as_slice(), p) {
            c += 1;
        }
        i += 1;
    }
    c
}

fn find_match(ms: &Vec<(Vec<String>, usize)>, p: &[String], rank: usize) -> (r: Option<usize>)
    ensures
        match r {
            Some(i) => position_from(matches_view(ms@), (pv(p@), rank as nat), 0) == Some(i as nat)
                && i < ms@.len(),
            None => position_from(matches_view(ms@), (pv(p@), rank as nat), 0) is None,
        },
{
    let ghost v = matches_view(ms@);
    let mut i: usize = 0;
    while i < ms.len()
        invariant
            i <= ms@.len(),
            v == matches_view(ms@),
            position_from(v, (pv(p@), rank as nat), 0) == position_from(v, (pv(p@), rank as nat), i as nat),
        decreases ms@.len() - i,
    {
        if ms[i].1 == rank && paths_equal(ms[i].0.as_slice(), p) {
            return Some(i);
        }
        i += 1;
    }
    None
}

/// `(i + delta)` wrapped into `0..n`.
fn wrap_step(i: usize, delta: i64, n: usize) -> (r: usize)
    requires
        n > 0,
    ensures
        r == (i + delta) % (n as int),
        r < n,
{
    let nn = n as u128;
    let base = (i as u128) % nn;
    proof {
        lemma_add_mod_noop(i as int, delta as int, n as int);
        lemma_add_mod_noop(base as int, delta as int, n as int);
        lemma_small_mod(base as nat, n as nat);
        assert((base as int + delta as int) % (n as int) == (i as int + delta as int) % (n as int));
    }
    if delta >= 0 {
        let step = (delta as u128) % nn;
        let r = ((base + step) % nn) as usize;
        proof {
            lemma_add_mod_noop_right(base as int, delta as int, n as int);
        }
        r
    } else {
        let a = (0i128 - delta as i128) as u128;
        let step = a % nn;
        let r = ((base + nn - step) % nn) as usize;
        proof {
            lemma_sub_mod_noop_right(base as int, a as int, n as int);
            lemma_mod_add_multiples_vanish(base - step, n as int);
            assert(base + nn - step == n + (base - step));
            lemma_add_mod_noop_right(base as int, delta as int, n as int);
        }
        r
    }
}

/// Steps to the match `delta` places from the cursor's (wrapping) among
/// every match of the `/` search in the whole document, collapsed or not;
/// from a line that is no match, to the first (last, going back). The match
/// is expanded into view and becomes the pending cursor target. Does
/// nothing for an empty search or when nothing matches.
pub fn cycle_search_match(state: &mut AppState, delta: i64)
    ensures
        final(state)@ == cycle(old(state)@, delta as int),
{
    let ghost m = state@;
    if state.search.as_str().is_empty() {
        return;
    }
    let ms = all_search_matches(state, state.search.as_str());
    if ms.len() == 0 {
        return;
    }
    let n = ms.len();
    let ghost v = matches_view(ms@);
    let current = if state.cursor < state.lines.len() {
        let rp = line_real_path(&state.lines[state.cursor]);
        assert(m.lines[m.cursor as int] == state.lines@[state.cursor as int]@);
        let count = count_real_upto(state, state.cursor, rp.as_slice());
        proof {
            assert(count_real(m.lines, (m.cursor + 1) as nat, pv(rp@)) == count_real(
                m.lines,
                m.cursor as nat,
                pv(rp@),
            ) + 1);
        }
        find_match(&ms, rp.as_slice(), count - 1)
    } else {
        None
    };
    assert(current_match(m, v) == match current {
        Some(i) => Some(i as nat),
        None => None::<nat>,
    });
    let next = match current {
        Some(i) => wrap_step(i, delta, n),
        None => if delta >= 0 {
            0
        } else {
            n - 1
        },
    };
    let path = clone_path(ms[next].0.as_slice());
    let occurrence = ms[next].1;
    assert(v[next as int] == (pv(path@), occurrence as nat));
    expand_path_into_view(state, path.as_slice());
    state.pending_cursor_path = Some(path);
    state.pending_cursor_occurrence = occurrence;
}

// ---------------------------------------------------------------------------
// Keys, the `F` popup, and `g` count jumps.
// ---------------------------------------------------------------------------

/// A key press, as the browser reads it.
#[derive(Debug, Clone, Copy, PartialEq, Eq)]
pub enum Key {
    Char(char),
    Enter,
    Esc,
    Backspace,
    Tab,
    BackTab,
    Up,
    Down,
    PageUp,
    PageDown,
    Other,
}

/// The entries among the first `k` whose search text matches `query`.
pub open spec fn entries_matching(entries: Seq<(Seq<Seq<char>>, Seq<char>)>, query: Seq<char>, k: nat) -> Seq<
    (Seq<Seq<char>>, Seq<char>),
>
    decreases k,
{
    if k == 0 || k > entries.len() {
        Seq::empty()
    } else {
        let prev = entries_matching(entries, query, (k - 1) as nat);
        if matches(entries[k - 1].1, query) {
            prev.push(entries[k - 1])
        } else {
            prev
        }
    }
}

/// What the `F` popup lists: every entry of the document matching its
/// query, in document order; nothing for an empty query.
pub open spec fn popup_entries(m: AppModel) -> Seq<(Seq<Seq<char>>, Seq<char>)> {
    if m.popup_query.len() == 0 {
        Seq::empty()
    } else {
        entries_matching(m.all_paths, m.popup_query, m.all_paths.len())
    }
}

pub open spec fn popup_paths(m: AppModel) -> Seq<Seq<Seq<char>>> {
    popup_entries(m).map_values(|e: (Seq<Seq<char>>, Seq<char>)| e.0)
}

/// The entries (path and search text) that the `F` popup lists: every one
/// matching its query, in document order; an empty query matches nothing.
pub fn popup_match_entries(state: &AppState) -> (r: Vec<(Vec<String>, String)>)
    ensures
        entries_view(r@) == popup_entries(state@),
{
    let mut out: Vec<(Vec<String>, String)> = Vec::new();
    if state.popup_query.as_str().is_empty() {
        assert(entries_view(out@) =~= Seq::<(Seq<Seq<char>>, Seq<char>)>::empty());
        return out;
    }
    let ghost e = state@.all_paths;
    let mut j: usize = 0;
    while j < state.all_paths.len()
        invariant
            j <= state.all_paths@.len(),
            e == state@.all_paths,
            entries_view(out@) == entries_matching(e, state@.popup_query, j as nat),
        decreases state.all_paths@.len() - j,
    {
        if entry_matches(state, j, state.popup_query.as_str()) {
            let p = clone_path(state.all_paths[j].0.as_slice());
            let t = state.all_paths[j].1.clone();
            let ghost before = out@;
            out.push((p, t));
            assert(entries_view(out@) =~= entries_view(before).push(e[j as int]));
        }
        j += 1;
    }
    out
}

/// The paths that the `F` popup lists.
pub fn popup_matches(state: &AppState) -> (r: Vec<Vec<String>>)
    ensures
        r@.map_values(|p: Vec<String>| pv(p@)) == popup_paths(state@),
{
    let entries = popup_match_entries(state);
    let ghost ev = entries_view(entries@);
    let mut out: Vec<Vec<String>> = Vec::new();
    let mut i: usize = 0;
    while i < entries.len()
        invariant
            i <= entries@.len(),
            ev == entries_view(entries@),
            ev == popup_entries(state@),
            out@.len() == i,
            out@.map_values(|p: Vec<String>| pv(p@)) == ev.take(i as int).map_values(
                |e: (Seq<Seq<char>>, Seq<char>)| e.0,
            ),
        decreases entries@.len() - i,
    {
        let ghost before = out@;
        out.push(clone_path(entries[i].0.as_slice()));
        proof {
            let a = out@.map_values(|p: Vec<String>| pv(p@));
            let b = ev.take(i + 1).map_values(|e: (Seq<Seq<char>>, Seq<char>)| e.0);
            let a0 = before.map_values(|p: Vec<String>| pv(p@));
            let b0 = ev.take(i as int).map_values(|e: (Seq<Seq<char>>, Seq<char>)| e.0);
            assert forall|k: int| 0 <= k < i + 1 implies #[trigger] a[k] == b[k] by {
                if k < i {
                    assert(a0[k] == b0[k]);
                }
            }
            assert(a =~= b);
        }
        i += 1;
    }
    assert(ev.take(entries@.len() as int) == ev);
    out
}

/// The count a `g` jump uses: the buffered digits' value, or 1 when there
/// are none, they do not parse, or they are 0.
pub open spec fn count_value(buf: Option<Seq<char>>) -> nat {
    match buf {
        Some(b) => match parse_usize_spec(b) {
            Some(n) => if n > 0 {
                n as nat
            } else {
                1
            },
            None => 1,
        },
        None => 1,
    }
}

/// At most this many digits are buffered for a count jump.
pub const MAX_COUNT_DIGITS: usize = 6;

pub open spec fn is_ascii_digit(c: char) -> bool {
    '0' <= c && c <= '9'
}

pub open spec fn min_nat(a: int, b: int) -> nat {
    if a <= b {
        a as nat
    } else {
        b as nat
    }
}

/// A key while a count jump is being typed (`g`, digits, then a direction or
/// `g`/`G`): a digit is buffered (up to the cap), `↓`/`j` and `↑`/`k` move
/// by the count, `g`/`G` go to the count-th line (1-based); any other key
/// abandons the jump.
pub open spec fn count_jump(m: AppModel, key: Key) -> AppModel {
    let n = count_value(m.count_buffer);
    let last = last_index(m.lines.len());
    match key {
        Key::Char(c) if is_ascii_digit(c) => match m.count_buffer {
            Some(b) => if b.len() < MAX_COUNT_DIGITS {
                AppModel { count_buffer: Some(b.push(c)), ..m }
            } else {
                m
            },
            None => m,
        },
        Key::Down | Key::Char('j') => AppModel {
            count_buffer: None,
            cursor: min_nat((m.cursor + n) as int, last as int),
            ..m
        },
        Key::Up | Key::Char('k') => AppModel {
            count_buffer: None,
            cursor: if m.cursor >= n {
                (m.cursor - n) as nat
            } else {
                0
            },
            ..m
        },
        Key::Char('g') | Key::Char('G') => AppModel {
            count_buffer: None,
            cursor: min_nat(n - 1, last as int),
            ..m
        },
        _ => AppModel { count_buffer: None, ..m },
    }
}

/// The index of the last line, 0 when there are none.
pub fn last_line(state: &AppState) -> (r: usize)
    ensures
        r == last_index(state@.lines.len()),
{
    if state.lines.len() == 0 {
        0
    } else {
        state.lines.len() - 1
    }
}

/// Clears the count buffer and returns its count.
fn take_count(state: &mut AppState) -> (r: usize)
    ensures
        r == count_value(old(state)@.count_buffer),
        r >= 1,
        final(state)@ == (AppModel { count_buffer: None, ..old(state)@ }),
{
    let buf = state.count_buffer.take();
    match buf {
        Some(b) => {
            let cs = chars_of(b.as_str());
            match parse_usize(cs.as_slice()) {
                Some(n) => if n > 0 {
                    n
                } else {
                    1
                },
                None => 1,
            }
        },
        None => 1,
    }
}

#[verifier::spinoff_prover]
#[verifier::rlimit(30)]
fn apply_count_jump(state: &mut AppState, key: Key)
    ensures
        final(state)@ == count_jump(old(state)@, key),
{
    let last = last_line(state);
    match key {
        Key::Char(c) if '0' <= c && c <= '9' => {
            match &mut state.count_buffer {
                Some(buf) => {
                    if buf.as_str().unicode_len() < MAX_COUNT_DIGITS {
                        buf.push(c);
                    }
                },
                None => {},
            }
        },
        Key::Down | Key::Char('j') => {
            let n = take_count(state);
            let target = state.cursor.saturating_add(n);
            state.cursor = if target < last {
                target
            } else {
                last
            };
        },
        Key::Up | Key::Char('k') => {
            let n = take_count(state);
            state.cursor = state.cursor.saturating_sub(n);
        },
        Key::Char('g') | Key::Char('G') => {
            let n = take_count(state);
            state.cursor = if n - 1 < last {
                n - 1
            } else {
                last
            };
        },
        _ => {
            state.count_buffer = None;
        },
    }
}

/// The popup selection `delta` places on (wrapping); unchanged when the
/// popup lists nothing.
pub open spec fn cycle_popup(m: AppModel, delta: int) -> AppModel {
    let n = popup_paths(m).len();
    if n == 0 {
        m
    } else {
        AppModel { popup_selected: ((m.popup_selected + delta) % (n as int)) as nat, ..m }
    }
}

fn cycle_popup_selection(state: &mut AppState, delta: i64)
    ensures
        final(state)@ == cycle_popup(old(state)@, delta as int),
{
    let n = popup_matches(state).len();
    if n == 0 {
        return;
    }
    state.popup_selected = wrap_step(state.popup_selected, delta, n);
}

/// A key while the `F` popup is open: Enter expands the selected match into
/// view, makes it the pending cursor target and closes the popup; Backspace
/// and characters edit the query (resetting the selection); `↓`/`↑` move
/// the selection within the list; Tab/Shift+Tab cycle it; Esc closes.
pub open spec fn popup_key(m: AppModel, key: Key) -> AppModel {
    let ps = popup_paths(m);
    match key {
        Key::Enter => if m.popup_selected < ps.len() {
            let p = ps[m.popup_selected as int];
            AppModel { pending_path: Some(p), popup_visible: false, ..expand_into_view(m, p) }
        } else {
            AppModel { popup_visible: false, ..m }
        },
        Key::Backspace => AppModel {
            popup_query: if m.popup_query.len() > 0 {
                m.popup_query.drop_last()
            } else {
                m.popup_query
            },
            popup_selected: 0,
            ..m
        },
        Key::Down => if ps.len() > 0 {
            AppModel { popup_selected: min_nat((m.popup_selected + 1) as int, ps.len() - 1), ..m }
        } else {
            m
        },
        Key::Up => AppModel {
            popup_selected: if m.popup_selected > 0 {
                (m.popup_selected - 1) as nat
            } else {
                0
            },
            ..m
        },
        Key::Tab => cycle_popup(m, 1),
        Key::BackTab => cycle_popup(m, -1),
        Key::Char(c) => AppModel { popup_query: m.popup_query.push(c), popup_selected: 0, ..m },
        Key::Esc => AppModel { popup_visible: false, ..m },
        _ => m,
    }
}

fn apply_popup_key(state: &mut AppState, key: Key)
    ensures
        final(state)@ == popup_key(old(state)@, key),
{
    match key {
        Key::Enter => {
            let ms = popup_matches(state);
            if state.popup_selected < ms.len() {
                let path = clone_path(ms[state.popup_selected].as_slice());
                expand_path_into_view(state, path.as_slice());
                state.pending_cursor_path = Some(path);
            }
            state.popup_visible = false;
        },
        Key::Backspace => {
            state.popup_query.pop();
            state.popup_selected = 0;
        },
        Key::Down => {
            let n = popup_matches(state).len();
            if n > 0 {
                let next = state.popup_selected.saturating_add(1);
                state.popup_selected = if next < n - 1 {
                    next
                } else {
                    n - 1
                };
            }
        },
        Key::Up => {
            state.popup_selected = state.popup_selected.saturating_sub(1);
        },
        Key::Tab => cycle_popup_selection(state, 1),
        Key::BackTab => cycle_popup_selection(state, -1),
        Key::Char(c) => {
            state.popup_query.push(c);
            state.popup_selected = 0;
        },
        Key::Esc => {
            state.popup_visible = false;
        },
        _ => {},
    }
}

// ---------------------------------------------------------------------------
// Expanding, collapsing and tagging the node under the cursor.
// ---------------------------------------------------------------------------

/// After an expand reveals rows below the cursor: when the cursor sits at or
/// past the bottom edge of the last drawn viewport, scroll so that it is the
/// top row (nothing before the first frame is drawn).
pub open spec fn reveal_cursor(m: AppModel) -> AppModel {
    if m.viewport_height == 0 {
        m
    } else if m.cursor >= m.scroll_offset + m.viewport_height - 1 {
        AppModel { scroll_offset: m.cursor, ..m }
    } else {
        m
    }
}

fn reveal_cursor_in_viewport(state: &mut AppState)
    ensures
        final(state)@ == reveal_cursor(old(state)@),
{
    let height = state.viewport_height;
    if height == 0 {
        return;
    }
    match state.scroll_offset.checked_add(height - 1) {
        Some(bottom) => {
            if state.cursor >= bottom {
                state.scroll_offset = state.cursor;
            }
        },
        None => {},
    }
}

/// `l`: reveals the rest of a truncated array from its `N more` line, or
/// expands a collapsed container; the view scrolls when rows were revealed.
pub open spec fn expand_current_spec(m: AppModel) -> AppModel {
    if m.cursor >= m.lines.len() {
        m
    } else {
        let l = m.lines[m.cursor as int];
        if l.is_array_summary {
            let ap = summary_array_path(l.path);
            let m2 = AppModel { overrides: m.overrides.insert(ap), ..m };
            if !m.overrides.contains(ap) {
                reveal_cursor(m2)
            } else {
                m2
            }
        } else if l.has_children {
            let m2 = AppModel { collapsed: m.collapsed.remove(l.path), ..m };
            if m.collapsed.contains(l.path) {
                reveal_cursor(m2)
            } else {
                m2
            }
        } else {
            m
        }
    }
}

fn expand_current(state: &mut AppState)
    ensures
        final(state)@ == expand_current_spec(old(state)@),
{
    if state.cursor >= state.lines.len() {
        return;
    }
    let c = state.cursor;
    assert(old(state)@.lines[c as int] == state.lines@[c as int]@);
    let revealed = if state.lines[c].is_array_summary {
        let ap = array_path_for_summary_line(state.lines[c].path.as_slice());
        state.array_overrides.insert(ap)
    } else if state.lines[c].has_children {
        let p = clone_path(state.lines[c].path.as_slice());
        state.collapsed.remove(p.as_slice())
    } else {
        false
    };
    if revealed {
        reveal_cursor_in_viewport(state);
    }
}

/// `h`: collapses an expanded container under the cursor (resetting its
/// array preview); otherwise moves to the parent, without collapsing it.
pub open spec fn collapse_or_parent(m: AppModel) -> AppModel {
    if m.cursor >= m.lines.len() {
        m
    } else {
        let l = m.lines[m.cursor as int];
        if l.has_children && !l.is_array_summary && !m.collapsed.contains(l.path) {
            AppModel {
                collapsed: m.collapsed.insert(l.path),
                overrides: m.overrides.remove(l.path),
                ..m
            }
        } else if l.path.len() < 2 {
            m
        } else {
            move_to_nth_path(m, l.path.drop_last(), 0)
        }
    }
}

fn collapse_current_or_jump_to_parent(state: &mut AppState)
    ensures
        final(state)@ == collapse_or_parent(old(state)@),
{
    if state.cursor >= state.lines.len() {
        return;
    }
    let c = state.cursor;
    assert(old(state)@.lines[c as int] == state.lines@[c as int]@);
    let path = clone_path(state.lines[c].path.as_slice());
    if state.lines[c].has_children && !state.lines[c].is_array_summary
        && !state.collapsed.contains(path.as_slice()) {
        state.array_overrides.remove(path.as_slice());
        state.collapsed.insert(path);
        return;
    }
    if path.len() < 2 {
        return;
    }
    let parent = path_prefix(path.as_slice(), path.len() - 1);
    assert(pv(path@).take(path@.len() - 1) =~= pv(path@).drop_last());
    move_cursor_to_nth_path(state, parent.as_slice(), 0);
}

/// Backspace: collapses the parent of the node under the cursor and moves
/// to it.
pub open spec fn collapse_parent(m: AppModel) -> AppModel {
    if m.cursor >= m.lines.len() || m.lines[m.cursor as int].path.len() < 2 {
        m
    } else {
        let parent = m.lines[m.cursor as int].path.drop_last();
        move_to_nth_path(AppModel { collapsed: m.collapsed.insert(parent), ..m }, parent, 0)
    }
}

fn collapse_nearest_parent(state: &mut AppState)
    ensures
        final(state)@ == collapse_parent(old(state)@),
{
    if state.cursor >= state.lines.len() {
        return;
    }
    let c = state.cursor;
    assert(old(state)@.lines[c as int] == state.lines@[c as int]@);
    let n = state.lines[c].path.len();
    if n < 2 {
        return;
    }
    let parent = path_prefix(state.lines[c].path.as_slice(), n - 1);
    assert(pv(state.lines@[c as int].path@).take(n - 1) =~= pv(
        state.lines@[c as int].path@,
    ).drop_last());
    state.collapsed.insert(clone_path(parent.as_slice()));
    move_cursor_to_nth_path(state, parent.as_slice(), 0);
}

/// `1`-`8`: tags the node under the cursor with `tag`, or untags it when it
/// already has that tag; the status line says which.
pub open spec fn toggle_tag_spec(m: AppModel, tag: u8) -> AppModel {
    if m.cursor >= m.lines.len() {
        m
    } else {
        let p = real_path(m.lines[m.cursor as int]);
        if m.tags.contains_key(p) && m.tags[p] == tag {
            AppModel {
                tags: m.tags.remove(p),
                status: Some("untagged: "@ + display_path_spec(p)),
                ..m
            }
        } else {
            AppModel {
                tags: m.tags.insert(p, tag),
                status: Some("tagged "@ + decimal(tag as nat) + ": "@ + display_path_spec(p)),
                ..m
            }
        }
    }
}

fn toggle_tag(state: &mut AppState, tag: u8)
    ensures
        final(state)@ == toggle_tag_spec(old(state)@, tag),
{
    if state.cursor >= state.lines.len() {
        return;
    }
    let c = state.cursor;
    assert(old(state)@.lines[c as int] == state.lines@[c as int]@);
    let path = line_real_path(&state.lines[c]);
    let shown = display_path(path.as_slice());
    match state.tags.get(path.as_slice()) {
        Some(t) if t == tag => {
            state.tags.remove(path.as_slice());
            let mut msg = String::from_str("untagged: ");
            push_str(&mut msg, shown.as_str());
            state.status_message = Some(msg);
        },
        _ => {
            state.tags.insert(path, tag);
            let mut msg = String::from_str("tagged ");
            let d = decimal_string(tag as usize);
            push_str(&mut msg, d.as_str());
            push_str(&mut msg, ": ");
            push_str(&mut msg, shown.as_str());
            state.status_message = Some(msg);
        },
    }
}

/// `C`: collapses every ancestor of the node under the cursor and moves to
/// its top-level ancestor.
pub open spec fn collapse_ancestors(m: AppModel) -> AppModel {
    if m.cursor >= m.lines.len() || m.lines[m.cursor as int].path.len() < 2 {
        m
    } else {
        let p = m.lines[m.cursor as int].path;
        let moved = move_to_nth_path(
            AppModel { collapsed: m.collapsed.union(ancestors(p, p.len() as int)), ..m },
            p.take(1),
            0,
        );
        AppModel { status: Some("collapsed ancestors"@), ..moved }
    }
}

fn collapse_all_ancestors(state: &mut AppState)
    ensures
        final(state)@ == collapse_ancestors(old(state)@),
{
    if state.cursor >= state.lines.len() {
        return;
    }
    let c = state.cursor;
    assert(old(state)@.lines[c as int] == state.lines@[c as int]@);
    let path = clone_path(state.lines[c].path.as_slice());
    if path.len() < 2 {
        return;
    }
    let ghost p = pv(path@);
    let ghost m0 = state@;
    let mut d: usize = 1;
    assert(ancestors(p, 1) =~= Set::empty());
    assert(m0.collapsed.union(ancestors(p, 1)) =~= m0.collapsed);
    while d < path.len()
        invariant
            1 <= d <= path@.len(),
            p == pv(path@),
            p.len() >= 2,
            state@ == (AppModel { collapsed: m0.collapsed.union(ancestors(p, d as int)), ..m0 }),
        decreases path@.len() - d,
    {
        let a = path_prefix(path.as_slice(), d);
        state.collapsed.insert(a);
        assert(ancestors(p, d + 1) =~= ancestors(p, d as int).insert(p.take(d as int))) by {
            assert forall|x| ancestors(p, d + 1).contains(x) implies ancestors(p, d as int).insert(
                p.take(d as int),
            ).contains(x) by {
                let j = choose|j: int| 1 <= j < d + 1 && j < p.len() && x == p.take(j);
                if j < d {
                    assert(ancestors(p, d as int).contains(x));
                }
            }
            assert(ancestors(p, d + 1).contains(p.take(d as int)));
        }
        assert(state.collapsed.view() =~= m0.collapsed.union(ancestors(p, d + 1)));
        d += 1;
    }
    let top = path_prefix(path.as_slice(), 1);
    move_cursor_to_nth_path(state, top.as_slice(), 0);
    state.status_message = Some(String::from_str("collapsed ancestors"));
}

/// `c`: collapses every container, resets every array preview, and makes
/// the top-level ancestor of the cursor's node the pending target.
pub open spec fn collapse_all_spec(m: AppModel) -> AppModel {
    let m2 = AppModel {
        overrides: Set::empty(),
        collapsed: m.containers,
        status: Some("collapsed all"@),
        ..m
    };
    if m.cursor < m.lines.len() && real_path(m.lines[m.cursor as int]).len() > 0 {
        AppModel { pending_path: Some(seq![real_path(m.lines[m.cursor as int])[0]]), ..m2 }
    } else {
        m2
    }
}

fn collapse_all(state: &mut AppState)
    ensures
        final(state)@ == collapse_all_spec(old(state)@),
{
    state.array_overrides.clear();
    let root = if state.cursor < state.lines.len() {
        assert(old(state)@.lines[state.cursor as int] == state.lines@[state.cursor as int]@);
        let rp = line_real_path(&state.lines[state.cursor]);
        if rp.len() > 0 {
            assert(pv(rp@).take(1) =~= seq![pv(rp@)[0]]);
            Some(path_prefix(rp.as_slice(), 1))
        } else {
            None
        }
    } else {
        None
    };
    state.collapsed = state.all_container_paths.copy();
    state.status_message = Some(String::from_str("collapsed all"));
    match root {
        Some(r) => {
            state.pending_cursor_path = Some(r);
        },
        None => {},
    }
}

/// `e`: expands every container, and makes the cursor's line the pending
/// target so the cursor stays on it.
pub open spec fn expand_all_spec(m: AppModel) -> AppModel {
    let m2 = AppModel { collapsed: Set::empty(), status: Some("expanded all"@), ..m };
    if m.cursor < m.lines.len() {
        AppModel { pending_path: Some(m.lines[m.cursor as int].path), ..m2 }
    } else {
        m2
    }
}

fn expand_all(state: &mut AppState)
    ensures
        final(state)@ == expand_all_spec(old(state)@),
{
    let anchor = if state.cursor < state.lines.len() {
        assert(old(state)@.lines[state.cursor as int] == state.lines@[state.cursor as int]@);
        Some(clone_path(state.lines[state.cursor].path.as_slice()))
    } else {
        None
    };
    state.collapsed.clear();
    state.status_message = Some(String::from_str("expanded all"));
    match anchor {
        Some(p) => {
            state.pending_cursor_path = Some(p);
        },
        None => {},
    }
}

// ---------------------------------------------------------------------------
// Visual line selection (`V`).
// ---------------------------------------------------------------------------

/// The selected lines' first and last index: between the anchor (the cursor
/// when there is none) and the cursor, both kept on a line.
pub open spec fn visual_bounds(m: AppModel) -> (nat, nat) {
    let last = last_index(m.lines.len());
    let a0 = match m.visual_anchor {
        Some(a) => a,
        None => m.cursor,
    };
    let a = min_nat(a0 as int, last as int);
    let c = min_nat(m.cursor as int, last as int);
    if a <= c {
        (a, c)
    } else {
        (c, a)
    }
}

/// The selected lines.
pub open spec fn selection(m: AppModel) -> Seq<LineView> {
    if m.lines.len() == 0 {
        Seq::empty()
    } else {
        m.lines.subrange(visual_bounds(m).0 as int, (visual_bounds(m).1 + 1) as int)
    }
}

/// The arrays of the selected `N more` lines.
pub open spec fn selected_arrays(sel: Seq<LineView>) -> Set<Seq<Seq<char>>> {
    Set::new(
        |p: Seq<Seq<char>>|
            exists|i: int|
                0 <= i < sel.len() && #[trigger] sel[i].is_array_summary && p
                    == summary_array_path(sel[i].path),
    )
}

/// The selected containers (not `N more` lines).
pub open spec fn selected_containers(sel: Seq<LineView>) -> Set<Seq<Seq<char>>> {
    Set::new(
        |p: Seq<Seq<char>>|
            exists|i: int|
                0 <= i < sel.len() && !sel[i].is_array_summary && #[trigger] sel[i].has_children && p
                    == sel[i].path,
    )
}

/// The nodes the selected lines stand for, in order.
pub open spec fn selection_roots(sel: Seq<LineView>) -> Seq<Seq<Seq<char>>> {
    sel.map_values(|l: LineView| real_path(l))
}

pub open spec fn starts_with(path: Seq<Seq<char>>, prefix: Seq<Seq<char>>) -> bool {
    path.len() >= prefix.len() && path.take(prefix.len() as int) == prefix
}

/// Whether `p` lies in the subtree of one of `roots`.
pub open spec fn under_any(p: Seq<Seq<char>>, roots: Seq<Seq<Seq<char>>>) -> bool {
    exists|i: int| 0 <= i < roots.len() && starts_with(p, #[trigger] roots[i])
}

/// `l` in visual mode: expands every selected container one level and
/// reveals every selected array preview, then leaves visual mode.
pub open spec fn visual_expand_spec(m: AppModel) -> AppModel {
    let sel = selection(m);
    AppModel {
        overrides: m.overrides.union(selected_arrays(sel)),
        collapsed: m.collapsed.difference(selected_containers(sel)),
        visual_anchor: None,
        ..m
    }
}

/// `h` in visual mode: collapses every selected container (resetting its
/// array preview), then leaves visual mode.
pub open spec fn visual_collapse_spec(m: AppModel) -> AppModel {
    let sel = selection(m);
    AppModel {
        collapsed: m.collapsed.union(selected_containers(sel)),
        overrides: m.overrides.difference(selected_containers(sel)),
        visual_anchor: None,
        ..m
    }
}

/// `c` in visual mode: collapses every container in the selected subtrees
/// (resetting their previews), makes the first selected node the pending
/// target, and leaves visual mode.
pub open spec fn visual_collapse_all_spec(m: AppModel) -> AppModel {
    let roots = selection_roots(selection(m));
    let hit = m.containers.filter(|p: Seq<Seq<char>>| under_any(p, roots));
    let m2 = AppModel {
        overrides: m.overrides.difference(hit),
        collapsed: m.collapsed.union(hit),
        visual_anchor: None,
        status: Some("collapsed selection"@),
        ..m
    };
    if roots.len() > 0 {
        AppModel { pending_path: Some(roots[0]), ..m2 }
    } else {
        m2
    }
}

/// `e` in visual mode: expands every container in the selected subtrees,
/// makes the first selected node the pending target, and leaves visual
/// mode.
pub open spec fn visual_expand_all_spec(m: AppModel) -> AppModel {
    let roots = selection_roots(selection(m));
    let hit = m.collapsed.filter(|p: Seq<Seq<char>>| under_any(p, roots));
    let m2 = AppModel {
        collapsed: m.collapsed.difference(hit),
        visual_anchor: None,
        status: Some("expanded selection"@),
        ..m
    };
    if roots.len() > 0 {
        AppModel { pending_path: Some(roots[0]), ..m2 }
    } else {
        m2
    }
}

/// The selected lines' first and last index.
pub fn visual_range(state: &AppState) -> (r: (usize, usize))
    ensures
        r.0 == visual_bounds(state@).0,
        r.1 == visual_bounds(state@).1,
{
    let last = last_line(state);
    let a0 = match state.visual_anchor {
        Some(a) => a,
        None => state.cursor,
    };
    let a = if a0 < last {
        a0
    } else {
        last
    };
    let c = if state.cursor < last {
        state.cursor
    } else {
        last
    };
    if a <= c {
        (a, c)
    } else {
        (c, a)
    }
}

/// The selected lines as `(path, has_children, is_array_summary)`.
fn selected_lines(state: &AppState) -> (r: Vec<(Vec<String>, bool, bool)>)
    ensures
        r@.len() == selection(state@).len(),
        forall|i: int|
            #![trigger r@[i]]
            0 <= i < r@.len() ==> pv(r@[i].0@) == selection(state@)[i].path && r@[i].1
                == selection(state@)[i].has_children && r@[i].2 == selection(state@)[i].is_array_summary,
{
    let mut out: Vec<(Vec<String>, bool, bool)> = Vec::new();
    if state.lines.len() == 0 {
        return out;
    }
    let (lo, hi) = visual_range(state);
    let len = state.lines.len();
    let end = hi + 1;
    let ghost sel = selection(state@);
    assert(sel == state@.lines.subrange(lo as int, end as int));
    let mut i = lo;
    while i < end
        invariant
            lo <= i <= end,
            end <= len == state.lines@.len(),
            lo <= end,
            sel == state@.lines.subrange(lo as int, end as int),
            out@.len() == i - lo,
            forall|k: int|
                #![trigger out@[k]]
                0 <= k < out@.len() ==> pv(out@[k].0@) == sel[k].path && out@[k].1
                    == sel[k].has_children && out@[k].2 == sel[k].is_array_summary,
        decreases end - i,
    {
        assert(sel[i - lo] == state.lines@[i as int]@);
        let l = &state.lines[i];
        let ghost before = out@;
        out.push((clone_path(l.path.as_slice()), l.has_children, l.is_array_summary));
        assert forall|k: int| #![trigger out@[k]] 0 <= k < out@.len() implies pv(out@[k].0@) == sel[k].path && out@[k].1
            == sel[k].has_children && out@[k].2 == sel[k].is_array_summary by {
            if k < before.len() {
                assert(out@[k] == before[k]);
            }
        }
        i += 1;
    }
    out
}

fn exit_visual_mode(state: &mut AppState)
    ensures
        final(state)@ == (AppModel { visual_anchor: None, ..old(state)@ }),
{
    state.visual_anchor = None;
}

fn visual_expand(state: &mut AppState)
    ensures
        final(state)@ == visual_expand_spec(old(state)@),
{
    let sel = selected_lines(state);
    let ghost s = selection(state@);
    let ghost m0 = state@;
    let mut i: usize = 0;
    assert(selected_arrays(s.take(0)) =~= Set::empty());
    assert(selected_containers(s.take(0)) =~= Set::empty());
    assert(m0.overrides.union(Set::empty()) =~= m0.overrides);
    assert(m0.collapsed.difference(Set::empty()) =~= m0.collapsed);
    while i < sel.len()
        invariant
            i <= sel@.len() == s.len(),
            s == selection(m0),
            forall|k: int|
                #![trigger sel@[k]]
                0 <= k < sel@.len() ==> pv(sel@[k].0@) == s[k].path && sel@[k].1
                    == s[k].has_children && sel@[k].2 == s[k].is_array_summary,
            state@ == (AppModel {
                overrides: m0.overrides.union(selected_arrays(s.take(i as int))),
                collapsed: m0.collapsed.difference(selected_containers(s.take(i as int))),
                ..m0
            }),
        decreases sel@.len() - i,
    {
        let ghost t = s.take(i as int);
        let ghost t1 = s.take(i + 1);
        assert(t1 =~= t.push(s[i as int]));
        assert(pv(sel@[i as int].0@) == s[i as int].path);
        if sel[i].2 {
            let ap = array_path_for_summary_line(sel[i].0.as_slice());
            state.array_overrides.insert(ap);
            assert(selected_arrays(t1) =~= selected_arrays(t).insert(summary_array_path(s[i as int].path))) by {
                assert(t1[i as int] == s[i as int]);
                assert forall|p| selected_arrays(t1).contains(p) implies selected_arrays(t).insert(summary_array_path(s[i as int].path)).contains(p) by {
                    let j = choose|j: int| 0 <= j < t1.len() && #[trigger] t1[j].is_array_summary && p == summary_array_path(t1[j].path);
                    if j < i {
                        assert(t[j] == t1[j]);
                    }
                }
                assert forall|p| selected_arrays(t).contains(p) implies selected_arrays(t1).contains(p) by {
                    let j = choose|j: int| 0 <= j < t.len() && #[trigger] t[j].is_array_summary && p == summary_array_path(t[j].path);
                    assert(t1[j] == t[j]);
                }
            }
            assert(selected_containers(t1) =~= selected_containers(t)) by {
                assert forall|p| selected_containers(t1).contains(p) implies selected_containers(t).contains(p) by {
                    let j = choose|j: int| 0 <= j < t1.len() && !t1[j].is_array_summary && #[trigger] t1[j].has_children && p == t1[j].path;
                    assert(j < i);
                    assert(t[j] == t1[j]);
                }
                assert forall|p| selected_containers(t).contains(p) implies selected_containers(t1).contains(p) by {
                    let j = choose|j: int| 0 <= j < t.len() && !t[j].is_array_summary && #[trigger] t[j].has_children && p == t[j].path;
                    assert(t1[j] == t[j]);
                }
            }
        } else if sel[i].1 {
            state.collapsed.remove(sel[i].0.as_slice());
            assert(selected_containers(t1) =~= selected_containers(t).insert(s[i as int].path)) by {
                assert(t1[i as int] == s[i as int]);
                assert forall|p| selected_containers(t1).contains(p) implies selected_containers(t).insert(s[i as int].path).contains(p) by {
                    let j = choose|j: int| 0 <= j < t1.len() && !t1[j].is_array_summary && #[trigger] t1[j].has_children && p == t1[j].path;
                    if j < i {
                        assert(t[j] == t1[j]);
                    }
                }
                assert forall|p| selected_containers(t).contains(p) implies selected_containers(t1).contains(p) by {
                    let j = choose|j: int| 0 <= j < t.len() && !t[j].is_array_summary && #[trigger] t[j].has_children && p == t[j].path;
                    assert(t1[j] == t[j]);
                }
            }
            assert(selected_arrays(t1) =~= selected_arrays(t)) by {
                assert forall|p| selected_arrays(t1).contains(p) implies selected_arrays(t).contains(p) by {
                    let j = choose|j: int| 0 <= j < t1.len() && #[trigger] t1[j].is_array_summary && p == summary_array_path(t1[j].path);
                    assert(j < i);
                    assert(t[j] == t1[j]);
                }
                assert forall|p| selected_arrays(t).contains(p) implies selected_arrays(t1).contains(p) by {
                    let j = choose|j: int| 0 <= j < t.len() && #[trigger] t[j].is_array_summary && p == summary_array_path(t[j].path);
                    assert(t1[j] == t[j]);
                }
            }
        } else {
            assert(selected_arrays(t1) =~= selected_arrays(t)) by {
                assert forall|p| selected_arrays(t1).contains(p) implies selected_arrays(t).contains(p) by {
                    let j = choose|j: int| 0 <= j < t1.len() && #[trigger] t1[j].is_array_summary && p == summary_array_path(t1[j].path);
                    assert(j < i);
                    assert(t[j] == t1[j]);
                }
                assert forall|p| selected_arrays(t).contains(p) implies selected_arrays(t1).contains(p) by {
                    let j = choose|j: int| 0 <= j < t.len() && #[trigger] t[j].is_array_summary && p == summary_array_path(t[j].path);
                    assert(t1[j] == t[j]);
                }
            }
            assert(selected_containers(t1) =~= selected_containers(t)) by {
                assert forall|p| selected_containers(t1).contains(p) implies selected_containers(t).contains(p) by {
                    let j = choose|j: int| 0 <= j < t1.len() && !t1[j].is_array_summary && #[trigger] t1[j].has_children && p == t1[j].path;
                    assert(j < i);
                    assert(t[j] == t1[j]);
                }
                assert forall|p| selected_containers(t).contains(p) implies selected_containers(t1).contains(p) by {
                    let j = choose|j: int| 0 <= j < t.len() && !t[j].is_array_summary && #[trigger] t[j].has_children && p == t[j].path;
                    assert(t1[j] == t[j]);
                }
            }
        }
        assert(state.array_overrides.view() =~= m0.overrides.union(selected_arrays(t1)));
        assert(state.collapsed.view() =~= m0.collapsed.difference(selected_containers(t1)));
        i += 1;
    }
    assert(s.take(s.len() as int) == s);
    exit_visual_mode(state);
}

proof fn lemma_containers_step(s: Seq<LineView>, i: int)
    requires
        0 <= i < s.len(),
    ensures
        selected_containers(s.take(i + 1)) == if !s[i].is_array_summary && s[i].has_children {
            selected_containers(s.take(i)).insert(s[i].path)
        } else {
            selected_containers(s.take(i))
        },
{
    let t = s.take(i);
    let t1 = s.take(i + 1);
    assert(t1[i] == s[i]);
    let rhs = if !s[i].is_array_summary && s[i].has_children {
        selected_containers(t).insert(s[i].path)
    } else {
        selected_containers(t)
    };
    assert forall|p| selected_containers(t1).contains(p) implies rhs.contains(p) by {
        let j = choose|j: int|
            0 <= j < t1.len() && !t1[j].is_array_summary && #[trigger] t1[j].has_children && p
                == t1[j].path;
        if j < i {
            assert(t[j] == t1[j]);
        }
    }
    assert forall|p| rhs.contains(p) implies selected_containers(t1).contains(p) by {
        if selected_containers(t).contains(p) {
            let j = choose|j: int|
                0 <= j < t.len() && !t[j].is_array_summary && #[trigger] t[j].has_children && p
                    == t[j].path;
            assert(t1[j] == t[j]);
        }
    }
    assert(selected_containers(t1) =~= rhs);
}

fn visual_collapse(state: &mut AppState)
    ensures
        final(state)@ == visual_collapse_spec(old(state)@),
{
    let sel = selected_lines(state);
    let ghost s = selection(state@);
    let ghost m0 = state@;
    let mut i: usize = 0;
    assert(selected_containers(s.take(0)) =~= Set::empty());
    assert(m0.overrides.difference(Set::empty()) =~= m0.overrides);
    assert(m0.collapsed.union(Set::empty()) =~= m0.collapsed);
    while i < sel.len()
        invariant
            i <= sel@.len() == s.len(),
            s == selection(m0),
            forall|k: int|
                #![trigger sel@[k]]
                0 <= k < sel@.len() ==> pv(sel@[k].0@) == s[k].path && sel@[k].1
                    == s[k].has_children && sel@[k].2 == s[k].is_array_summary,
            state@ == (AppModel {
                collapsed: m0.collapsed.union(selected_containers(s.take(i as int))),
                overrides: m0.overrides.difference(selected_containers(s.take(i as int))),
                ..m0
            }),
        decreases sel@.len() - i,
    {
        assert(pv(sel@[i as int].0@) == s[i as int].path);
        proof {
            lemma_containers_step(s, i as int);
        }
        if sel[i].1 && !sel[i].2 {
            state.collapsed.insert(clone_path(sel[i].0.as_slice()));
            state.array_overrides.remove(sel[i].0.as_slice());
        }
        assert(state.collapsed.view() =~= m0.collapsed.union(selected_containers(s.take(i + 1))));
        assert(state.array_overrides.view() =~= m0.overrides.difference(
            selected_containers(s.take(i + 1)),
        ));
        i += 1;
    }
    assert(s.take(s.len() as int) == s);
    exit_visual_mode(state);
}

/// Whether `path` begins with the segments of `prefix`.
pub fn path_starts_with(path: &[String], prefix: &[String]) -> (r: bool)
    ensures
        r == starts_with(pv(path@), pv(prefix@)),
{
    if path.len() < prefix.len() {
        return false;
    }
    let mut k: usize = 0;
    while k < prefix.len()
        invariant
            k <= prefix@.len() <= path@.len(),
            forall|j: int| 0 <= j < k ==> path@[j]@ == prefix@[j]@,
        decreases prefix@.len() - k,
    {
        if path[k] != prefix[k] {
            assert(pv(path@).take(prefix@.len() as int)[k as int] != pv(prefix@)[k as int]);
            return false;
        }
        k += 1;
    }
    assert(pv(path@).take(prefix@.len() as int) =~= pv(prefix@));
    true
}

fn under_any_root(path: &[String], roots: &Vec<Vec<String>>) -> (r: bool)
    ensures
        r == under_any(pv(path@), roots@.map_values(|p: Vec<String>| pv(p@))),
{
    let ghost rv = roots@.map_values(|p: Vec<String>| pv(p@));
    let mut i: usize = 0;
    while i < roots.len()
        invariant
            i <= roots@.len(),
            rv == roots@.map_values(|p: Vec<String>| pv(p@)),
            forall|j: int| 0 <= j < i ==> !starts_with(pv(path@), #[trigger] rv[j]),
        decreases roots@.len() - i,
    {
        assert(rv[i as int] == pv(roots@[i as int]@));
        if path_starts_with(path, roots[i].as_slice()) {
            return true;
        }
        i += 1;
    }
    false
}

/// The nodes the selected lines stand for.
fn selection_root_paths(state: &AppState) -> (r: Vec<Vec<String>>)
    ensures
        r@.map_values(|p: Vec<String>| pv(p@)) == selection_roots(selection(state@)),
{
    let sel = selected_lines(state);
    let ghost s = selection(state@);
    let mut out: Vec<Vec<String>> = Vec::new();
    let mut i: usize = 0;
    while i < sel.len()
        invariant
            i <= sel@.len() == s.len(),
            s == selection(state@),
            forall|k: int|
                #![trigger sel@[k]]
                0 <= k < sel@.len() ==> pv(sel@[k].0@) == s[k].path && sel@[k].1
                    == s[k].has_children && sel@[k].2 == s[k].is_array_summary,
            out@.len() == i,
            forall|k: int| #![trigger out@[k]] 0 <= k < i ==> pv(out@[k]@) == real_path(s[k]),
        decreases sel@.len() - i,
    {
        assert(pv(sel@[i as int].0@) == s[i as int].path);
        let r = if sel[i].2 {
            array_path_for_summary_line(sel[i].0.as_slice())
        } else {
            clone_path(sel[i].0.as_slice())
        };
        let ghost before = out@;
        out.push(r);
        assert forall|k: int| #![trigger out@[k]] 0 <= k < i + 1 implies pv(out@[k]@) == real_path(s[k]) by {
            if k < i {
                assert(out@[k] == before[k]);
            }
        }
        i += 1;
    }
    assert(out@.map_values(|p: Vec<String>| pv(p@)) =~= selection_roots(s));
    out
}

proof fn lemma_take_to_set(v: Seq<Seq<Seq<char>>>, i: int)
    requires
        0 <= i < v.len(),
    ensures
        v.take(i + 1).to_set() == v.take(i).to_set().insert(v[i]),
{
    assert(v.take(i + 1) =~= v.take(i).push(v[i]));
    v.take(i).lemma_push_to_set_commute(v[i]);
}

fn visual_collapse_all(state: &mut AppState)
    ensures
        final(state)@ == visual_collapse_all_spec(old(state)@),
{
    let roots = selection_root_paths(state);
    let ghost rv = roots@.map_values(|p: Vec<String>| pv(p@));
    let cs = state.all_container_paths.paths();
    let ghost cv = crate::tui::pathset::path_views(cs@);
    let ghost m0 = state@;
    let ghost pred = |p: Seq<Seq<char>>| under_any(p, rv);
    let mut i: usize = 0;
    assert(cv.take(0).to_set() =~= Set::empty());
    assert(cv.take(0).to_set().filter(pred) =~= Set::empty());
    assert(m0.overrides.difference(Set::empty()) =~= m0.overrides);
    assert(m0.collapsed.union(Set::empty()) =~= m0.collapsed);
    while i < cs.len()
        invariant
            i <= cs@.len(),
            cv == crate::tui::pathset::path_views(cs@),
            cv.to_set() == m0.containers,
            rv == roots@.map_values(|p: Vec<String>| pv(p@)),
            pred == (|p: Seq<Seq<char>>| under_any(p, rv)),
            state@ == (AppModel {
                overrides: m0.overrides.difference(cv.take(i as int).to_set().filter(pred)),
                collapsed: m0.collapsed.union(cv.take(i as int).to_set().filter(pred)),
                ..m0
            }),
        decreases cs@.len() - i,
    {
        proof {
            lemma_take_to_set(cv, i as int);
        }
        assert(cv[i as int] == pv(cs@[i as int]@));
        if under_any_root(cs[i].as_slice(), &roots) {
            state.array_overrides.remove(cs[i].as_slice());
            state.collapsed.insert(clone_path(cs[i].as_slice()));
        }
        assert(state.array_overrides.view() =~= m0.overrides.difference(
            cv.take(i + 1).to_set().filter(pred),
        ));
        assert(state.collapsed.view() =~= m0.collapsed.union(cv.take(i + 1).to_set().filter(pred)));
        i += 1;
    }
    assert(cv.take(cs@.len() as int) == cv);
    assert(m0.containers.filter(pred) =~= m0.containers.filter(|p: Seq<Seq<char>>| under_any(p, selection_roots(selection(m0)))));
    if roots.len() > 0 {
        let first = clone_path(roots[0].as_slice());
        assert(pv(first@) == rv[0]);
        state.pending_cursor_path = Some(first);
    }
    exit_visual_mode(state);
    state.status_message = Some(String::from_str("collapsed selection"));
}

fn visual_expand_all(state: &mut AppState)
    ensures
        final(state)@ == visual_expand_all_spec(old(state)@),
{
    let roots = selection_root_paths(state);
    let ghost rv = roots@.map_values(|p: Vec<String>| pv(p@));
    let cs = state.collapsed.paths();
    let ghost cv = crate::tui::pathset::path_views(cs@);
    let ghost m0 = state@;
    let ghost pred = |p: Seq<Seq<char>>| under_any(p, rv);
    let mut i: usize = 0;
    assert(cv.take(0).to_set() =~= Set::empty());
    assert(cv.take(0).to_set().filter(pred) =~= Set::empty());
    assert(m0.collapsed.difference(Set::empty()) =~= m0.collapsed);
    while i < cs.len()
        invariant
            i <= cs@.len(),
            cv == crate::tui::pathset::path_views(cs@),
            cv.to_set() == m0.collapsed,
            rv == roots@.map_values(|p: Vec<String>| pv(p@)),
            pred == (|p: Seq<Seq<char>>| under_any(p, rv)),
            state@ == (AppModel {
                collapsed: m0.collapsed.difference(cv.take(i as int).to_set().filter(pred)),
                ..m0
            }),
        decreases cs@.len() - i,
    {
        proof {
            lemma_take_to_set(cv, i as int);
        }
        assert(cv[i as int] == pv(cs@[i as int]@));
        if under_any_root(cs[i].as_slice(), &roots) {
            state.collapsed.remove(cs[i].as_slice());
        }
        assert(state.collapsed.view() =~= m0.collapsed.difference(
            cv.take(i + 1).to_set().filter(pred),
        ));
        i += 1;
    }
    assert(cv.take(cs@.len() as int) == cv);
    assert(m0.collapsed.filter(pred) =~= m0.collapsed.filter(|p: Seq<Seq<char>>| under_any(p, selection_roots(selection(m0)))));
    if roots.len() > 0 {
        let first = clone_path(roots[0].as_slice());
        assert(pv(first@) == rv[0]);
        state.pending_cursor_path = Some(first);
    }
    exit_visual_mode(state);
    state.status_message = Some(String::from_str("expanded selection"));
}

// ---------------------------------------------------------------------------
// Moving by the viewport.
// ---------------------------------------------------------------------------

/// The last line in the viewport as last drawn, kept on a line.
pub open spec fn viewport_bottom_spec(m: AppModel) -> nat {
    let h = if m.viewport_height > 0 {
        (m.viewport_height - 1) as nat
    } else {
        0
    };
    min_nat((m.scroll_offset + h) as int, last_index(m.lines.len()) as int)
}

fn viewport_bottom(state: &AppState) -> (r: usize)
    ensures
        r == viewport_bottom_spec(state@),
{
    let last = last_line(state);
    let h = state.viewport_height.saturating_sub(1);
    let b = state.scroll_offset.saturating_add(h);
    if b < last {
        b
    } else {
        last
    }
}

/// `H`, `M`, `L`: the first, middle and last line of the viewport.
pub open spec fn viewport_top_spec(m: AppModel) -> AppModel {
    AppModel { cursor: min_nat(m.scroll_offset as int, last_index(m.lines.len()) as int), ..m }
}

pub open spec fn viewport_middle_spec(m: AppModel) -> AppModel {
    let top = m.scroll_offset;
    let bottom = viewport_bottom_spec(m);
    AppModel { cursor: (top + (bottom - top) / 2) as nat, ..m }
}

pub open spec fn viewport_last_spec(m: AppModel) -> AppModel {
    AppModel { cursor: viewport_bottom_spec(m), ..m }
}

/// PgUp/PgDn: one viewport height up or down (one line before the first
/// frame), kept on a line.
pub open spec fn page_up_spec(m: AppModel) -> AppModel {
    let step = if m.viewport_height > 0 {
        m.viewport_height
    } else {
        1
    };
    AppModel {
        cursor: if m.cursor >= step {
            (m.cursor - step) as nat
        } else {
            0
        },
        ..m
    }
}

pub open spec fn page_down_spec(m: AppModel) -> AppModel {
    let step = if m.viewport_height > 0 {
        m.viewport_height
    } else {
        1
    };
    AppModel { cursor: min_nat((m.cursor + step) as int, last_index(m.lines.len()) as int), ..m }
}

fn jump_to_viewport_top(state: &mut AppState)
    ensures
        final(state)@ == viewport_top_spec(old(state)@),
{
    let last = last_line(state);
    state.cursor = if state.scroll_offset < last {
        state.scroll_offset
    } else {
        last
    };
}

fn jump_to_viewport_middle(state: &mut AppState)
    requires
        old(state)@.scroll_offset <= last_index(old(state)@.lines.len()),
    ensures
        final(state)@ == viewport_middle_spec(old(state)@),
{
    let top = state.scroll_offset;
    let bottom = viewport_bottom(state);
    state.cursor = top + (bottom - top) / 2;
}

fn jump_to_viewport_bottom(state: &mut AppState)
    ensures
        final(state)@ == viewport_last_spec(old(state)@),
{
    state.cursor = viewport_bottom(state);
}

fn page_up(state: &mut AppState)
    ensures
        final(state)@ == page_up_spec(old(state)@),
{
    let step = if state.viewport_height > 0 {
        state.viewport_height
    } else {
        1
    };
    state.cursor = state.cursor.saturating_sub(step);
}

fn page_down(state: &mut AppState)
    ensures
        final(state)@ == page_down_spec(old(state)@),
{
    let step = if state.viewport_height > 0 {
        state.viewport_height
    } else {
        1
    };
    let last = last_line(state);
    let target = state.cursor.saturating_add(step);
    state.cursor = if target < last {
        target
    } else {
        last
    };
}

// ---------------------------------------------------------------------------
// Every key.
// ---------------------------------------------------------------------------

/// `↓`/`j`, `↑`/`k`: one line, kept on a line.
pub open spec fn line_down(m: AppModel) -> AppModel {
    AppModel { cursor: min_nat((m.cursor + 1) as int, last_index(m.lines.len()) as int), ..m }
}

pub open spec fn line_up(m: AppModel) -> AppModel {
    AppModel {
        cursor: if m.cursor > 0 {
            (m.cursor - 1) as nat
        } else {
            0
        },
        ..m
    }
}

/// A key in visual mode: `q` quits; Esc/`V` cancel; `↓`/`↑` extend the
/// selection; `l`/`h`/`c`/`e` act on it. The flag is whether to quit.
pub open spec fn visual_key(m: AppModel, key: Key) -> (AppModel, bool) {
    if key == Key::Char('q') {
        (m, true)
    } else if key == Key::Esc || key == Key::Char('V') {
        (AppModel { visual_anchor: None, ..m }, false)
    } else if key == Key::Down || key == Key::Char('j') {
        (line_down(m), false)
    } else if key == Key::Up || key == Key::Char('k') {
        (line_up(m), false)
    } else if key == Key::Char('l') {
        (visual_expand_spec(m), false)
    } else if key == Key::Char('h') {
        (visual_collapse_spec(m), false)
    } else if key == Key::Char('c') {
        (visual_collapse_all_spec(m), false)
    } else if key == Key::Char('e') {
        (visual_expand_all_spec(m), false)
    } else {
        (m, false)
    }
}

fn move_down(state: &mut AppState)
    ensures
        final(state)@ == line_down(old(state)@),
{
    let last = last_line(state);
    let target = state.cursor.saturating_add(1);
    state.cursor = if target < last {
        target
    } else {
        last
    };
}

fn move_up(state: &mut AppState)
    ensures
        final(state)@ == line_up(old(state)@),
{
    state.cursor = state.cursor.saturating_sub(1);
}

fn handle_visual_key(state: &mut AppState, key: Key) -> (quit: bool)
    ensures
        (final(state)@, quit) == visual_key(old(state)@, key),
{
    match key {
        Key::Char('q') => {
            return true;
        },
        Key::Esc | Key::Char('V') => exit_visual_mode(state),
        Key::Down | Key::Char('j') => move_down(state),
        Key::Up | Key::Char('k') => move_up(state),
        Key::Char('l') => visual_expand(state),
        Key::Char('h') => visual_collapse(state),
        Key::Char('c') => visual_collapse_all(state),
        Key::Char('e') => visual_expand_all(state),
        _ => {},
    }
    false
}

/// Tab/Space: reveals the rest of a truncated array from its `N more` line;
/// toggles a container (collapsing resets its array preview); the view
/// scrolls when rows were revealed.
pub open spec fn toggle_expand(m: AppModel) -> AppModel {
    if m.cursor >= m.lines.len() {
        m
    } else {
        let l = m.lines[m.cursor as int];
        if l.is_array_summary {
            let ap = summary_array_path(l.path);
            if m.overrides.contains(ap) {
                m
            } else {
                reveal_cursor(AppModel { overrides: m.overrides.insert(ap), ..m })
            }
        } else if l.has_children {
            if m.collapsed.contains(l.path) {
                reveal_cursor(AppModel { collapsed: m.collapsed.remove(l.path), ..m })
            } else {
                AppModel {
                    collapsed: m.collapsed.insert(l.path),
                    overrides: m.overrides.remove(l.path),
                    ..m
                }
            }
        } else {
            m
        }
    }
}

fn toggle_current(state: &mut AppState)
    ensures
        final(state)@ == toggle_expand(old(state)@),
{
    if state.cursor >= state.lines.len() {
        return;
    }
    let ghost m = state@;
    let c = state.cursor;
    let ghost l = m.lines[c as int];
    assert(l == state.lines@[c as int]@);
    if state.lines[c].is_array_summary {
        let ap = array_path_for_summary_line(state.lines[c].path.as_slice());
        let ghost apv = summary_array_path(l.path);
        if state.array_overrides.insert(ap) {
            assert(state@ == (AppModel { overrides: m.overrides.insert(apv), ..m }));
            reveal_cursor_in_viewport(state);
        } else {
            assert(state.array_overrides.view() =~= m.overrides);
            assert(state@ == m);
        }
    } else if state.lines[c].has_children {
        let path = clone_path(state.lines[c].path.as_slice());
        if state.collapsed.remove(path.as_slice()) {
            assert(state@ == (AppModel { collapsed: m.collapsed.remove(l.path), ..m }));
            reveal_cursor_in_viewport(state);
        } else {
            state.array_overrides.remove(path.as_slice());
            state.collapsed.insert(path);
            assert(state.collapsed.view() =~= m.collapsed.insert(l.path));
        }
    }
}

/// What `--pick` prints for the node under the cursor: its jq path for
/// JSON, its dotted path for XML.
pub open spec fn pick_text(m: AppModel) -> Seq<char> {
    let rp = real_path(m.lines[m.cursor as int]);
    if m.is_json {
        jq_path(rp)
    } else {
        join_dot(rp)
    }
}

/// `y`: the cursor node's dotted path goes to the clipboard, named on the
/// status line by its printed form.
pub open spec fn yank_spec(m: AppModel) -> AppModel {
    if m.cursor < m.lines.len() {
        let rp = real_path(m.lines[m.cursor as int]);
        AppModel { clipboard: Some((join_dot(rp), display_path_spec(rp))), ..m }
    } else {
        m
    }
}

/// `Y`: the cursor node's jq path goes to the clipboard (JSON only).
pub open spec fn yank_jq_spec(m: AppModel) -> AppModel {
    if !m.is_json {
        AppModel { status: Some("jq path is only available for JSON documents"@), ..m }
    } else if m.cursor < m.lines.len() {
        let jq = jq_path(real_path(m.lines[m.cursor as int]));
        AppModel { clipboard: Some((jq, escape_display(jq))), ..m }
    } else {
        m
    }
}

pub open spec fn is_tag_key(c: char) -> bool {
    '1' <= c && c <= '8'
}

/// A key outside every overlay and mode (the status line already cleared).
pub open spec fn normal_key(m: AppModel, key: Key) -> (AppModel, bool) {
    if key == Key::Char('q') || key == Key::Esc {
        (m, true)
    } else if key == Key::Char('V') && m.lines.len() > 0 {
        (AppModel { visual_anchor: Some(m.cursor), ..m }, false)
    } else if key == Key::Enter && m.pick_mode {
        (
            if m.cursor < m.lines.len() {
                AppModel { pick_result: Some(pick_text(m)), ..m }
            } else {
                m
            },
            true,
        )
    } else if key == Key::Char('?') {
        (AppModel { help_visible: true, ..m }, false)
    } else if key == Key::Char('g') {
        (AppModel { count_buffer: Some(Seq::empty()), ..m }, false)
    } else if key == Key::Char('G') {
        (AppModel { cursor: last_index(m.lines.len()), ..m }, false)
    } else if key == Key::Down || key == Key::Char('j') {
        (line_down(m), false)
    } else if key == Key::Up || key == Key::Char('k') {
        (line_up(m), false)
    } else if key == Key::Char('l') {
        (expand_current_spec(m), false)
    } else if key == Key::Char('h') {
        (collapse_or_parent(m), false)
    } else if key == Key::Char('H') {
        (viewport_top_spec(m), false)
    } else if key == Key::Char('M') {
        (viewport_middle_spec(m), false)
    } else if key == Key::Char('L') {
        (viewport_last_spec(m), false)
    } else if key == Key::PageUp {
        (page_up_spec(m), false)
    } else if key == Key::PageDown {
        (page_down_spec(m), false)
    } else if key == Key::Char('n') {
        (cycle(m, 1), false)
    } else if key == Key::Char('N') {
        (cycle(m, -1), false)
    } else if key == Key::Tab || key == Key::Char(' ') {
        (toggle_expand(m), false)
    } else if key == Key::Char('/') {
        (AppModel { searching: true, search: Seq::empty(), ..m }, false)
    } else if key == Key::Char('F') {
        (AppModel { popup_visible: true, popup_query: m.search, popup_selected: 0, ..m }, false)
    } else if key == Key::Char('i') {
        (AppModel { inspect_visible: true, ..m }, false)
    } else if key == Key::Char('y') {
        (yank_spec(m), false)
    } else if key == Key::Char('Y') {
        (yank_jq_spec(m), false)
    } else if key == Key::Backspace {
        (collapse_parent(m), false)
    } else if key == Key::Char('C') {
        (collapse_ancestors(m), false)
    } else if key matches Key::Char(c) && is_tag_key(c) {
        (toggle_tag_spec(m, (key->Char_0 as u32 - 48) as u8), false)
    } else if key == Key::Char('c') {
        (collapse_all_spec(m), false)
    } else if key == Key::Char('e') {
        (expand_all_spec(m), false)
    } else if key == Key::Char('x') {
        (
            AppModel {
                tags: Map::empty(),
                status: Some("cleared "@ + decimal(m.tags.len()) + " tags"@),
                ..m
            },
            false,
        )
    } else {
        (m, false)
    }
}

/// A key while typing the `/` search: Enter/Esc stop typing; Backspace
/// deletes; Tab/Shift+Tab cycle through every match; a character extends the
/// query and moves to the next match.
pub open spec fn search_key(m: AppModel, key: Key) -> AppModel {
    match key {
        Key::Enter | Key::Esc => AppModel { searching: false, ..m },
        Key::Backspace => AppModel {
            search: if m.search.len() > 0 {
                m.search.drop_last()
            } else {
                m.search
            },
            ..m
        },
        Key::Tab => cycle(m, 1),
        Key::BackTab => cycle(m, -1),
        Key::Char(c) => jump_next(AppModel { search: m.search.push(c), ..m }),
        _ => m,
    }
}

/// Whether no overlay or mode takes the key: it goes to `normal_key`.
pub open spec fn normal_mode(m: AppModel) -> bool {
    !m.searching && !m.help_visible && !m.popup_visible && !m.inspect_visible
        && m.count_buffer is None && m.visual_anchor is None
}

/// What a key does, and whether the browser quits: the search being typed,
/// the help, the popup, the inspector, a count jump and visual mode each
/// take keys first, in that order; otherwise the status line is cleared
/// and `normal_key` applies.
pub open spec fn key_step(m: AppModel, key: Key) -> (AppModel, bool) {
    if m.searching {
        (search_key(m, key), false)
    } else if m.help_visible {
        if key == Key::Char('q') {
            (m, true)
        } else if key == Key::Char('?') || key == Key::Esc {
            (AppModel { help_visible: false, ..m }, false)
        } else {
            (m, false)
        }
    } else if m.popup_visible {
        (popup_key(m, key), false)
    } else if m.inspect_visible {
        if key == Key::Char('q') {
            (m, true)
        } else if key == Key::Char('i') || key == Key::Esc {
            (AppModel { inspect_visible: false, ..m }, false)
        } else {
            (m, false)
        }
    } else if m.count_buffer is Some {
        (count_jump(m, key), false)
    } else if m.visual_anchor is Some {
        visual_key(m, key)
    } else {
        normal_key(AppModel { status: None, ..m }, key)
    }
}

/// The one key whose effect can fail: `M` needs the viewport's top line on
/// a line.
pub open spec fn key_allowed(m: AppModel, key: Key) -> bool {
    normal_mode(m) && key == Key::Char('M') ==> m.scroll_offset <= last_index(m.lines.len())
}

fn handle_search_key(state: &mut AppState, key: Key)
    ensures
        final(state)@ == search_key(old(state)@, key),
{
    match key {
        Key::Enter | Key::Esc => {
            state.searching = false;
        },
        Key::Backspace => {
            state.search.pop();
        },
        Key::Tab => cycle_search_match(state, 1),
        Key::BackTab => cycle_search_match(state, -1),
        Key::Char(c) => {
            state.search.push(c);
            jump_to_next_match(state);
        },
        _ => {},
    }
}

fn yank(state: &mut AppState)
    ensures
        final(state)@ == yank_spec(old(state)@),
{
    if state.cursor < state.lines.len() {
        assert(old(state)@.lines[state.cursor as int] == state.lines@[state.cursor as int]@);
        let rp = line_real_path(&state.lines[state.cursor]);
        let raw = search_text(rp.as_slice(), None);
        assert(raw@ =~= join_dot(pv(rp@)));
        let shown = display_path(rp.as_slice());
        state.clipboard_request = Some(ClipboardRequest { text: raw, shown });
    }
}

fn yank_jq(state: &mut AppState)
    ensures
        final(state)@ == yank_jq_spec(old(state)@),
{
    if !state.is_json {
        state.status_message = Some(String::from_str("jq path is only available for JSON documents"));
    } else if state.cursor < state.lines.len() {
        assert(old(state)@.lines[state.cursor as int] == state.lines@[state.cursor as int]@);
        let rp = line_real_path(&state.lines[state.cursor]);
        let jq = to_jq_path(rp.as_slice());
        let shown = escape_display_str(jq.as_str());
        state.clipboard_request = Some(ClipboardRequest { text: jq, shown });
    }
}

fn pick(state: &mut AppState)
    ensures
        final(state)@ == (if old(state)@.cursor < old(state)@.lines.len() {
            AppModel { pick_result: Some(pick_text(old(state)@)), ..old(state)@ }
        } else {
            old(state)@
        }),
{
    if state.cursor < state.lines.len() {
        assert(old(state)@.lines[state.cursor as int] == state.lines@[state.cursor as int]@);
        let rp = line_real_path(&state.lines[state.cursor]);
        let text = if state.is_json {
            to_jq_path(rp.as_slice())
        } else {
            let t = search_text(rp.as_slice(), None);
            assert(t@ =~= join_dot(pv(rp@)));
            t
        };
        state.pick_result = Some(text);
    }
}

fn clear_tags(state: &mut AppState)
    ensures
        final(state)@ == (AppModel {
            tags: Map::empty(),
            status: Some("cleared "@ + decimal(old(state)@.tags.len()) + " tags"@),
            ..old(state)@
        }),
{
    let n = state.tags.len();
    state.tags.clear();
    let mut msg = String::from_str("cleared ");
    let d = decimal_string(n);
    push_str(&mut msg, d.as_str());
    push_str(&mut msg, " tags");
    state.status_message = Some(msg);
}

#[verifier::spinoff_prover]
#[verifier::rlimit(60)]
fn handle_normal_key(state: &mut AppState, key: Key) -> (quit: bool)
    requires
        key == Key::Char('M') ==> old(state)@.scroll_offset <= last_index(old(state)@.lines.len()),
    ensures
        (final(state)@, quit) == normal_key(old(state)@, key),
{
    match key {
        Key::Char('q') | Key::Esc => {
            return true;
        },
        Key::Char('V') if state.lines.len() > 0 => {
            state.visual_anchor = Some(state.cursor);
        },
        Key::Enter if state.pick_mode => {
            pick(state);
            return true;
        },
        Key::Char('?') => {
            state.help_visible = true;
        },
        Key::Char('g') => {
            state.count_buffer = Some(String::new());
        },
        Key::Char('G') => {
            state.cursor = last_line(state);
        },
        Key::Down | Key::Char('j') => move_down(state),
        Key::Up | Key::Char('k') => move_up(state),
        Key::Char('l') => expand_current(state),
        Key::Char('h') => collapse_current_or_jump_to_parent(state),
        Key::Char('H') => jump_to_viewport_top(state),
        Key::Char('M') => jump_to_viewport_middle(state),
        Key::Char('L') => jump_to_viewport_bottom(state),
        Key::PageUp => page_up(state),
        Key::PageDown => page_down(state),
        Key::Char('n') => cycle_search_match(state, 1),
        Key::Char('N') => cycle_search_match(state, -1),
        Key::Tab | Key::Char(' ') => toggle_current(state),
        Key::Char('/') => {
            state.searching = true;
            state.search = String::new();
        },
        Key::Char('F') => {
            state.popup_visible = true;
            state.popup_query = state.search.clone();
            state.popup_selected = 0;
        },
        Key::Char('i') => {
            state.inspect_visible = true;
        },
        Key::Char('y') => yank(state),
        Key::Char('Y') => yank_jq(state),
        Key::Backspace => collapse_nearest_parent(state),
        Key::Char('C') => collapse_all_ancestors(state),
        Key::Char(c) if '1' <= c && c <= '8' => {
            let tag = (c as u32 - 48) as u8;
            toggle_tag(state, tag);
        },
        Key::Char('c') => collapse_all(state),
        Key::Char('e') => expand_all(state),
        Key::Char('x') => clear_tags(state),
        _ => {},
    }
    false
}

/// Applies one key press to the browser's state and returns whether to quit
/// (see `key_step`). A copy to the clipboard (`y`, `Y`) is left in
/// `clipboard_request` for the caller to make.
pub fn handle_key(state: &mut AppState, key: Key) -> (quit: bool)
    requires
        key_allowed(old(state)@, key),
    ensures
        (final(state)@, quit) == key_step(old(state)@, key),
{
    if state.searching {
        handle_search_key(state, key);
        return false;
    }
    if state.help_visible {
        match key {
            Key::Char('q') => {
                return true;
            },
            Key::Char('?') | Key::Esc => {
                state.help_visible = false;
            },
            _ => {},
        }
        return false;
    }
    if state.popup_visible {
        apply_popup_key(state, key);
        return false;
    }
    if state.inspect_visible {
        match key {
            Key::Char('q') => {
                return true;
            },
            Key::Char('i') | Key::Esc => {
                state.inspect_visible = false;
            },
            _ => {},
        }
        return false;
    }
    if state.count_buffer.is_some() {
        apply_count_jump(state, key);
        return false;
    }
    if state.visual_anchor.is_some() {
        return handle_visual_key(state, key);
    }
    state.status_message = None;
    handle_normal_key(state, key)
}

/// Records the outcome of the clipboard copy a key asked for: the status
/// line says what was copied, or why the copy failed.
pub fn finish_clipboard(state: &mut AppState, outcome: Result<(), String>)
    ensures
        final(state)@ == match old(state)@.clipboard {
            Some(req) => AppModel {
                clipboard: None,
                status: Some(
                    match outcome {
                        Ok(_) => "copied: "@ + req.1,
                        Err(e) => "copy failed: "@ + e@,
                    },
                ),
                ..old(state)@
            },
            None => old(state)@,
        },
{
    let req = state.clipboard_request.take();
    match req {
        Some(r) => {
            let msg = match outcome {
                Ok(_) => {
                    let mut m = String::from_str("copied: ");
                    push_str(&mut m, r.shown.as_str());
                    m
                },
                Err(e) => {
                    let mut m = String::from_str("copy failed: ");
                    push_str(&mut m, e.as_str());
                    m
                },
            };
            state.status_message = Some(msg);
        },
        None => {},
    }
}


// ---------------------------------------------------------------------------
// Keys that undo each other.
// ---------------------------------------------------------------------------

/// Pressing the same tag key twice on a node leaves the tags as they were,
/// unless the node carried a different tag before.
pub proof fn lemma_tag_twice_restores(m: AppModel, d: char)
    requires
        normal_mode(m),
        is_tag_key(d),
        m.cursor < m.lines.len(),
        m.tags.contains_key(real_path(m.lines[m.cursor as int])) ==> m.tags[real_path(
            m.lines[m.cursor as int],
        )] == (d as u32 - 48) as u8,
    ensures
        key_step(key_step(m, Key::Char(d)).0, Key::Char(d)).0.tags == m.tags,
{
    let m1 = key_step(m, Key::Char(d)).0;
    let t = (d as u32 - 48) as u8;
    let p = real_path(m.lines[m.cursor as int]);
    assert(m1 == toggle_tag_spec(AppModel { status: None, ..m }, t));
    assert(normal_mode(m1));
    let m2 = key_step(m1, Key::Char(d)).0;
    assert(m2 == toggle_tag_spec(AppModel { status: None, ..m1 }, t));
    if m.tags.contains_key(p) {
        assert(m1.tags == m.tags.remove(p));
        assert(m2.tags == m.tags.remove(p).insert(p, t));
        assert(m2.tags =~= m.tags);
    } else {
        assert(m1.tags == m.tags.insert(p, t));
        assert(m2.tags == m.tags.insert(p, t).remove(p));
        assert(m2.tags =~= m.tags);
    }
}

/// Tab on a container collapses or expands it, and a second Tab undoes
/// that: the collapsed set is as it was.
pub proof fn lemma_toggle_twice_restores(m: AppModel)
    requires
        normal_mode(m),
        m.cursor < m.lines.len(),
        m.lines[m.cursor as int].has_children,
        !m.lines[m.cursor as int].is_array_summary,
    ensures
        key_step(key_step(m, Key::Tab).0, Key::Tab).0.collapsed == m.collapsed,
{
    let m1 = key_step(m, Key::Tab).0;
    let p = m.lines[m.cursor as int].path;
    assert(m1 == toggle_expand(AppModel { status: None, ..m }));
    assert(normal_mode(m1));
    let m2 = key_step(m1, Key::Tab).0;
    assert(m2 == toggle_expand(AppModel { status: None, ..m1 }));
    if m.collapsed.contains(p) {
        assert(m1.collapsed == m.collapsed.remove(p));
        assert(m2.collapsed == m.collapsed.remove(p).insert(p));
    } else {
        assert(m1.collapsed == m.collapsed.insert(p));
        assert(m2.collapsed == m.collapsed.insert(p).remove(p));
    }
    assert(m2.collapsed =~= m.collapsed);
}

proof fn lemma_jump_next_keeps_search(m: AppModel)
    ensures
        jump_next(m).search == m.search,
        jump_next(m).searching == m.searching,
{
}

/// While typing a search, a character followed by Backspace leaves the
/// query as it was.
pub proof fn lemma_type_then_backspace(m: AppModel, c: char)
    requires
        m.searching,
    ensures
        key_step(key_step(m, Key::Char(c)).0, Key::Backspace).0.search == m.search,
        key_step(key_step(m, Key::Char(c)).0, Key::Backspace).0.searching,
{
    let m1 = key_step(m, Key::Char(c)).0;
    assert(m1 == jump_next(AppModel { search: m.search.push(c), ..m }));
    lemma_jump_next_keeps_search(AppModel { search: m.search.push(c), ..m });
    assert(m1.search == m.search.push(c));
    assert(m1.search.drop_last() == m.search);
}


// ---------------------------------------------------------------------------
// The cursor stays on a line.
// ---------------------------------------------------------------------------

proof fn lemma_nth_path_index_in_range(lines: Seq<LineView>, path: Seq<Seq<char>>, occ: nat, from: nat)
    ensures
        nth_path_index(lines, path, occ, from) matches Some(i) ==> from <= i < lines.len(),
    decreases lines.len() - from,
{
    if from < lines.len() {
        if lines[from as int].path == path {
            if occ > 0 {
                lemma_nth_path_index_in_range(lines, path, (occ - 1) as nat, from + 1);
            }
        } else {
            lemma_nth_path_index_in_range(lines, path, occ, from + 1);
        }
    }
}

proof fn lemma_moves_stay_on_a_line()
    ensures
        forall|m: AppModel, p: Seq<Seq<char>>, occ: nat|
            m.cursor < m.lines.len() ==> (#[trigger] move_to_nth_path(m, p, occ)).cursor
                < m.lines.len() && move_to_nth_path(m, p, occ).lines == m.lines,
{
    assert forall|m: AppModel, p: Seq<Seq<char>>, occ: nat|
        m.cursor < m.lines.len() implies (#[trigger] move_to_nth_path(m, p, occ)).cursor
        < m.lines.len() && move_to_nth_path(m, p, occ).lines == m.lines by {
        lemma_nth_path_index_in_range(m.lines, p, occ, 0);
    }
}

proof fn lemma_visible_match_in_range(m: AppModel, k: nat)
    ensures
        visible_match_from(m, k) matches Some(i) ==> i < m.lines.len(),
    decreases m.lines.len() + 1 - k,
{
    let n = m.lines.len();
    if n > 0 && k <= n {
        let idx = (((m.cursor + k) as int) % (n as int));
        assert(0 <= idx < n);
        lemma_visible_match_in_range(m, k + 1);
    }
}

proof fn lemma_jump_next_on_a_line(m: AppModel)
    requires
        m.cursor < m.lines.len(),
    ensures
        jump_next(m).cursor < m.lines.len(),
        jump_next(m).lines == m.lines,
{
    lemma_visible_match_in_range(m, 1);
}

proof fn lemma_viewport_on_a_line(m: AppModel)
    requires
        m.cursor < m.lines.len(),
        m.scroll_offset <= last_index(m.lines.len()),
    ensures
        viewport_middle_spec(m).cursor < m.lines.len(),
{
}

/// Whatever key is pressed, the lines stay as they are and a cursor on a
/// line stays on a line (until the lines are rebuilt, which clamps it).
pub proof fn lemma_key_keeps_cursor_on_a_line(m: AppModel, key: Key)
    requires
        m.cursor < m.lines.len(),
        key_allowed(m, key),
    ensures
        key_step(m, key).0.lines == m.lines,
        key_step(m, key).0.cursor < m.lines.len(),
{
    lemma_moves_stay_on_a_line();
    if m.searching {
        if let Key::Char(c) = key {
            lemma_jump_next_on_a_line(AppModel { search: m.search.push(c), ..m });
        }
    } else if !m.help_visible && !m.popup_visible && !m.inspect_visible && m.count_buffer is None
        && m.visual_anchor is None {
        let m0 = AppModel { status: None, ..m };
        if key == Key::Char('M') {
            lemma_viewport_on_a_line(m0);
        }
    }
}

/// Rebuilt lines keep the cursor on a line whenever there is one.
pub proof fn lemma_rebuilt_cursor_on_a_line(m: AppModel, lines: Seq<LineView>)
    requires
        lines.len() > 0,
    ensures
        rebuilt(m, lines).cursor < lines.len(),
        rebuilt(m, lines).lines == lines,
{
    let a = AppModel { lines, ..m };
    lemma_moves_stay_on_a_line();
    if let Some(p) = m.pending_path {
        lemma_nth_path_index_in_range(lines, p, m.pending_occurrence, 0);
        assert(apply_pending(a).lines == lines);
    }
}


/// In the search popup, Tab then Shift+Tab leaves the selection where it
/// was.
pub proof fn lemma_popup_tab_then_backtab(m: AppModel)
    requires
        !m.searching,
        !m.help_visible,
        m.popup_visible,
        m.popup_selected < popup_paths(m).len(),
    ensures
        key_step(key_step(m, Key::Tab).0, Key::BackTab).0.popup_selected == m.popup_selected,
{
    let n = popup_paths(m).len() as int;
    let p = m.popup_selected as int;
    let m1 = key_step(m, Key::Tab).0;
    assert(m1 == cycle_popup(m, 1));
    let s1 = (p + 1) % n;
    assert(m1.popup_selected == s1);
    assert(popup_paths(m1) == popup_paths(m));
    let m2 = key_step(m1, Key::BackTab).0;
    assert(m2 == cycle_popup(m1, -1));
    assert(m2.popup_selected == ((s1 - 1) % n) as nat);
    if p + 1 < n {
        lemma_small_mod((p + 1) as nat, n as nat);
        lemma_small_mod(p as nat, n as nat);
    } else {
        lemma_fundamental_div_mod_converse(p + 1, n, 1, 0);
        lemma_fundamental_div_mod_converse(-1, n, -1, n - 1);
    }
}


// ---------------------------------------------------------------------------
// Quitting, toggling, cycling and searching, key by key.
// ---------------------------------------------------------------------------

/// Whether a key quits: `q` in the help, in the inspector, in visual mode
/// or in normal mode; Esc in normal mode; Enter in normal pick mode. Never
/// while a search is typed, the popup is open or a count is pending.
pub open spec fn quits(m: AppModel, key: Key) -> bool {
    &&& !m.searching
    &&& if m.help_visible {
        key == Key::Char('q')
    } else if m.popup_visible {
        false
    } else if m.inspect_visible {
        key == Key::Char('q')
    } else if m.count_buffer is Some {
        false
    } else if m.visual_anchor is Some {
        key == Key::Char('q')
    } else {
        key == Key::Char('q') || key == Key::Esc || (key == Key::Enter && m.pick_mode)
    }
}

/// A key quits the browser exactly as `quits` says.
pub proof fn lemma_when_a_key_quits(m: AppModel, key: Key)
    ensures
        key_step(m, key).1 == quits(m, key),
{
    if !m.searching && !m.help_visible && !m.popup_visible && !m.inspect_visible
        && m.count_buffer is None {
        if m.visual_anchor is Some {
            lemma_visual_key_quits(m, key);
        } else {
            lemma_normal_key_quits(AppModel { status: None, ..m }, key);
        }
    }
}

proof fn lemma_normal_key_quits(m: AppModel, key: Key)
    ensures
        normal_key(m, key).1 == (key == Key::Char('q') || key == Key::Esc || (key == Key::Enter
            && m.pick_mode)),
{
}

proof fn lemma_visual_key_quits(m: AppModel, key: Key)
    ensures
        visual_key(m, key).1 == (key == Key::Char('q')),
{
}

/// What Tab (or space) does to the line under the cursor: a `N more` line
/// lists its array in full; a collapsed container expands; an expanded one
/// collapses (and loses any full listing); a leaf is left alone. The lines
/// and the cursor stay.
pub open spec fn tab_effect(m: AppModel, r: AppModel) -> bool {
    let l = m.lines[m.cursor as int];
    &&& r.lines == m.lines
    &&& r.cursor == m.cursor
    &&& l.is_array_summary ==> r.overrides == m.overrides.insert(summary_array_path(l.path))
        && r.collapsed == m.collapsed
    &&& !l.is_array_summary && l.has_children && m.collapsed.contains(l.path) ==> r.collapsed
        == m.collapsed.remove(l.path) && r.overrides == m.overrides
    &&& !l.is_array_summary && l.has_children && !m.collapsed.contains(l.path) ==> r.collapsed
        == m.collapsed.insert(l.path) && !r.overrides.contains(l.path)
    &&& !l.is_array_summary && !l.has_children ==> r.collapsed == m.collapsed && r.overrides
        == m.overrides
}

/// Tab (or space) in normal mode on a line has `tab_effect` and does not
/// quit.
pub proof fn lemma_tab_toggles_the_line(m: AppModel, key: Key)
    requires
        normal_mode(m),
        key == Key::Tab || key == Key::Char(' '),
        m.cursor < m.lines.len(),
    ensures
        !key_step(m, key).1,
        tab_effect(m, key_step(m, key).0),
{
    let m0 = AppModel { status: None, ..m };
    assert(key_step(m, key) == (toggle_expand(m0), false));
    let l = m.lines[m.cursor as int];
    if l.is_array_summary {
        let ap = summary_array_path(l.path);
        if m.overrides.contains(ap) {
            assert(m.overrides.insert(ap) =~= m.overrides);
        }
    }
}

/// In the popup, Tab and Shift+Tab move the selection one place forward or
/// back, wrapping around the listed matches, and it stays on one of them.
pub proof fn lemma_popup_cycle_wraps(m: AppModel)
    requires
        !m.searching,
        !m.help_visible,
        m.popup_visible,
        popup_paths(m).len() > 0,
    ensures
        key_step(m, Key::Tab).0.popup_selected as int == (m.popup_selected as int + 1) % (popup_paths(
            m,
        ).len() as int),
        key_step(m, Key::BackTab).0.popup_selected as int == (m.popup_selected as int - 1) % (
        popup_paths(m).len() as int),
        key_step(m, Key::Tab).0.popup_selected < popup_paths(m).len(),
        key_step(m, Key::BackTab).0.popup_selected < popup_paths(m).len(),
{
    assert(key_step(m, Key::Tab).0 == cycle_popup(m, 1));
    assert(key_step(m, Key::BackTab).0 == cycle_popup(m, -1));
}

/// Whether the visible line `k` places after the cursor (wrapping) matches
/// the search.
pub open spec fn matches_after(m: AppModel, k: nat) -> bool {
    matches(line_text(m.lines[((m.cursor + k) as int) % (m.lines.len() as int)]), m.search)
}

/// The line `k` places after the cursor (wrapping).
pub open spec fn index_after(m: AppModel, k: nat) -> nat {
    (((m.cursor + k) as int) % (m.lines.len() as int)) as nat
}

/// `k0` is the nearest place after the cursor (1 to `n`) whose line
/// matches.
pub open spec fn nearest_match_after(m: AppModel, k0: nat) -> bool {
    &&& 1 <= k0 <= m.lines.len()
    &&& matches_after(m, k0)
    &&& forall|j: nat| 1 <= j < k0 ==> !#[trigger] matches_after(m, j)
}

/// No visible line matches the search.
pub open spec fn no_match_after(m: AppModel) -> bool {
    forall|j: nat| 1 <= j <= m.lines.len() ==> !#[trigger] matches_after(m, j)
}

/// The fallback of the next-match search: the first matching entry of the
/// whole document expanded into view and made the pending cursor target.
pub open spec fn document_match(m: AppModel) -> AppModel {
    match first_entry_match(m.all_paths, m.search, 0) {
        Some(j) => AppModel {
            pending_path: Some(m.all_paths[j as int].0),
            ..expand_into_view(m, m.all_paths[j as int].0)
        },
        None => m,
    }
}

proof fn lemma_visible_match_first(m: AppModel, k: nat, k0: nat)
    requires
        1 <= k <= k0 <= m.lines.len(),
        matches_after(m, k0),
        forall|j: nat| k <= j < k0 ==> !#[trigger] matches_after(m, j),
    ensures
        visible_match_from(m, k) == Some(index_after(m, k0)),
    decreases k0 - k,
{
    let n = m.lines.len() as int;
    assert(0 <= ((m.cursor + k) as int) % n < n);
    if k < k0 {
        assert(!matches_after(m, k));
        lemma_visible_match_first(m, k + 1, k0);
    }
}

proof fn lemma_no_visible_match(m: AppModel, k: nat)
    requires
        1 <= k,
        forall|j: nat| k <= j <= m.lines.len() ==> !#[trigger] matches_after(m, j),
    ensures
        visible_match_from(m, k) is None,
    decreases m.lines.len() + 1 - k,
{
    if m.lines.len() > 0 && k <= m.lines.len() {
        assert(!matches_after(m, k));
        lemma_no_visible_match(m, k + 1);
    }
}

/// The next-match search: with an empty query nothing changes; otherwise
/// the cursor moves to the nearest matching visible line after it
/// (wrapping), nothing else changing; only when no visible line matches is
/// the first match of the whole document expanded into view and made the
/// pending cursor target.
pub proof fn lemma_next_match_prefers_visible_lines(m: AppModel, k0: nat)
    ensures
        m.search.len() == 0 ==> jump_next(m) == m,
        m.search.len() > 0 && nearest_match_after(m, k0) ==> jump_next(m) == (AppModel {
            cursor: index_after(m, k0),
            ..m
        }),
        m.search.len() > 0 && no_match_after(m) ==> jump_next(m) == document_match(m),
{
    if m.search.len() > 0 {
        if nearest_match_after(m, k0) {
            lemma_visible_match_first(m, 1, k0);
        }
        if no_match_after(m) {
            lemma_no_visible_match(m, 1);
        }
    }
}

/// In the popup, Tab moves the selection as `cycle_popup(.., 1)` and
/// Shift+Tab as `cycle_popup(.., -1)`.
pub proof fn lemma_popup_keys_cycle(x: AppModel)
    requires
        !x.searching,
        !x.help_visible,
        x.popup_visible,
    ensures
        key_step(x, Key::Tab).0 == cycle_popup(x, 1),
        key_step(x, Key::BackTab).0 == cycle_popup(x, -1),
{
}

/// The popup after `k` moves of `delta` places each.
pub open spec fn cycles(m: AppModel, delta: int, k: nat) -> AppModel
    decreases k,
{
    if k == 0 {
        m
    } else {
        cycle_popup(cycles(m, delta, (k - 1) as nat), delta)
    }
}

proof fn lemma_cycles(m: AppModel, delta: int, k: nat)
    requires
        m.popup_selected < popup_paths(m).len(),
        delta == 1 || delta == -1,
    ensures
        cycles(m, delta, k) == (AppModel {
            popup_selected: ((m.popup_selected as int + delta * k) % (popup_paths(m).len() as int)) as nat,
            ..m
        }),
    decreases k,
{
    let n = popup_paths(m).len() as int;
    if k > 0 {
        lemma_cycles(m, delta, (k - 1) as nat);
        let x = cycles(m, delta, (k - 1) as nat);
        assert(popup_paths(x) == popup_paths(m));
        let a = m.popup_selected as int + delta * (k - 1);
        assert(delta * k == delta * (k - 1) + delta) by (nonlinear_arith);
        assert(0 <= a % n < n);
        assert(x.popup_selected as int == a % n);
        lemma_add_mod_noop_right(delta, a, n);
        assert((x.popup_selected as int + delta) % n == (m.popup_selected as int + delta * k) % n);
        assert(cycles(m, delta, k) == cycle_popup(x, delta));
        assert(popup_paths(x).len() > 0);
        assert(cycle_popup(x, delta).popup_selected as int == (m.popup_selected as int + delta * k) % n);
        assert(cycle_popup(x, delta) == (AppModel {
            popup_selected: ((m.popup_selected as int + delta * k) % n) as nat,
            ..m
        }));
    } else {
        lemma_small_mod(m.popup_selected, n as nat);
        assert(delta * k == 0) by (nonlinear_arith)
            requires
                k == 0,
        ;
        assert(cycles(m, delta, k) == m);
    }
}

/// In the popup, as many Tabs as there are matches (or as many
/// Shift+Tabs), each moving the selection as `lemma_popup_keys_cycle`
/// says, bring the selection back to where it started.
pub proof fn lemma_popup_full_cycle(m: AppModel)
    requires
        m.popup_selected < popup_paths(m).len(),
    ensures
        cycles(m, 1, popup_paths(m).len()).popup_selected == m.popup_selected,
        cycles(m, -1, popup_paths(m).len()).popup_selected == m.popup_selected,
{
    let n = popup_paths(m).len() as int;
    let s = m.popup_selected as int;
    lemma_cycles(m, 1, n as nat);
    lemma_cycles(m, -1, n as nat);
    lemma_mod_add_multiples_vanish(s, n);
    lemma_small_mod(s as nat, n as nat);
    lemma_fundamental_div_mod_converse(s - n, n, -1, s);
}

} // verus!
