//! Fuzzy (case-insensitive subsequence) matching for search.
use crate::text::chars_of;
use vstd::prelude::*;

verus! {

broadcast use vstd::string::group_string_axioms;

/// What `str::to_lowercase` gives for a string with characters `s`.
pub uninterp spec fn lowercase(s: Seq<char>) -> Seq<char>;

/// `str::to_lowercase`: the string's lowercase form under Unicode's
/// `Lowercase` property. Its result is named by `lowercase`; nothing more is
/// stated of it.
#[verifier::external_body]
fn to_lowercase(s: &str) -> (r: String)
    ensures
        r@ == lowercase(s@),
{
    s.to_lowercase()
}

/// The first index at or after `from` holding `c`.
pub open spec fn find_from(t: Seq<char>, c: char, from: int) -> Option<int>
    decreases t.len() - from,
{
    if from < 0 || from >= t.len() {
        None
    } else if t[from] == c {
        Some(from)
    } else {
        find_from(t, c, from + 1)
    }
}

/// Where the greedy left-to-right scan places the first `k` characters of
/// `p` in `t`: each one at the first matching position after the previous.
pub open spec fn greedy_prefix(t: Seq<char>, p: Seq<char>, k: nat) -> Option<Seq<int>>
    decreases k,
{
    if k == 0 {
        Some(Seq::empty())
    } else {
        match greedy_prefix(t, p, (k - 1) as nat) {
            None => None,
            Some(idx) => {
                let from = if idx.len() == 0 {
                    0
                } else {
                    idx.last() + 1
                };
                match find_from(t, p[k - 1], from) {
                    None => None,
                    Some(j) => Some(idx.push(j)),
                }
            },
        }
    }
}

/// The text with each of its characters lowercased on its own (one
/// character may become several).
pub open spec fn lowered_text(t: Seq<char>) -> Seq<char>
    decreases t.len(),
{
    if t.len() == 0 {
        Seq::empty()
    } else {
        lowered_text(t.drop_last()) + lowercase(seq![t.last()])
    }
}

/// For each character of `lowered_text(t)`, the position in `t` of the
/// character it came from.
pub open spec fn lowered_origin(t: Seq<char>) -> Seq<int>
    decreases t.len(),
{
    if t.len() == 0 {
        Seq::empty()
    } else {
        lowered_origin(t.drop_last()) + Seq::new(
            lowercase(seq![t.last()]).len(),
            |j: int| t.len() - 1,
        )
    }
}

/// Where position `j` of the lowercased text lies in the text itself: the
/// same position when lowercasing kept the number of characters; otherwise
/// the text character it came from, counted by lowercasing each character
/// on its own (when that gives as many characters as lowercasing the whole
/// text); else the position as it is.
pub open spec fn text_position(text: Seq<char>, j: int) -> int {
    if lowercase(text).len() == text.len() {
        j
    } else if lowered_origin(text).len() == lowercase(text).len() {
        lowered_origin(text)[j]
    } else {
        j
    }
}

/// The positions that `fuzzy_match_char_indices` reports: the greedy
/// placement of the lowercased pattern in the lowercased text, each
/// position taken back to the text (`text_position`).
pub open spec fn fuzzy_spec(text: Seq<char>, pattern: Seq<char>) -> Option<Seq<int>> {
    let p = lowercase(pattern);
    match greedy_prefix(lowercase(text), p, p.len()) {
        Some(idx) => Some(idx.map_values(|j: int| text_position(text, j))),
        None => None,
    }
}

/// `idx` places every character of `p` at a position of `t` holding it, in
/// strictly increasing order.
pub open spec fn embeds(t: Seq<char>, p: Seq<char>, idx: Seq<int>) -> bool {
    &&& idx.len() == p.len()
    &&& forall|i: int| 0 <= i < p.len() ==> 0 <= #[trigger] idx[i] < t.len() && t[idx[i]] == p[i]
    &&& forall|i: int, j: int| 0 <= i < j < idx.len() ==> idx[i] < idx[j]
}

/// `p` occurs in `t` as a (not necessarily contiguous) subsequence.
pub open spec fn is_subsequence(p: Seq<char>, t: Seq<char>) -> bool {
    exists|idx: Seq<int>| embeds(t, p, idx)
}

proof fn lemma_find_from_sound(t: Seq<char>, c: char, from: int)
    ensures
        find_from(t, c, from) matches Some(j) ==> from <= j < t.len() && 0 <= j && t[j] == c,
    decreases t.len() - from,
{
    if from >= 0 && from < t.len() && t[from] != c {
        lemma_find_from_sound(t, c, from + 1);
    }
}

proof fn lemma_find_from_leftmost(t: Seq<char>, c: char, from: int, w: int)
    requires
        0 <= from <= w < t.len(),
        t[w] == c,
    ensures
        find_from(t, c, from) matches Some(j) && j <= w,
    decreases w - from,
{
    if t[from] != c {
        lemma_find_from_leftmost(t, c, from + 1, w);
    }
}

proof fn lemma_greedy_sound(t: Seq<char>, p: Seq<char>, k: nat)
    requires
        k <= p.len(),
    ensures
        greedy_prefix(t, p, k) matches Some(idx) ==> embeds(t, p.take(k as int), idx),
    decreases k,
{
    if k > 0 {
        lemma_greedy_sound(t, p, (k - 1) as nat);
        if let Some(idx) = greedy_prefix(t, p, (k - 1) as nat) {
            let from = if idx.len() == 0 {
                0
            } else {
                idx.last() + 1
            };
            lemma_find_from_sound(t, p[k - 1], from);
            if let Some(j) = find_from(t, p[k - 1], from) {
                let q = p.take(k as int);
                let n = idx.push(j);
                assert forall|i: int| 0 <= i < q.len() implies 0 <= #[trigger] n[i] < t.len()
                    && t[n[i]] == q[i] by {
                    if i < k - 1 {
                        assert(p.take(k - 1)[i] == q[i]);
                    }
                }
                assert forall|a: int, b: int| 0 <= a < b < n.len() implies n[a] < n[b] by {
                    if b < n.len() - 1 {
                    } else {
                        assert(idx[a] <= idx.last());
                    }
                }
            }
        }
    }
}

proof fn lemma_greedy_complete(t: Seq<char>, p: Seq<char>, w: Seq<int>, k: nat)
    requires
        embeds(t, p, w),
        1 <= k <= p.len(),
    ensures
        greedy_prefix(t, p, k) matches Some(idx) && idx.len() == k && idx.last() <= w[k - 1],
    decreases k,
{
    if k == 1 {
        assert(w[0] < t.len() && t[w[0]] == p[0]);
        lemma_find_from_leftmost(t, p[0], 0, w[0]);
        assert(greedy_prefix(t, p, 0) == Some(Seq::<int>::empty()));
    } else {
        lemma_greedy_complete(t, p, w, (k - 1) as nat);
        lemma_greedy_sound(t, p, (k - 1) as nat);
        let idx = greedy_prefix(t, p, (k - 1) as nat)->Some_0;
        assert(w[k - 2] < w[k - 1]);
        assert(0 <= w[k - 1] < t.len() && t[w[k - 1]] == p[k - 1]);
        assert(idx.len() > 0);
        assert(idx[idx.len() - 1] >= 0);
        lemma_find_from_leftmost(t, p[k - 1], idx.last() + 1, w[k - 1]);
    }
}

proof fn lemma_greedy_none_stays(t: Seq<char>, p: Seq<char>, k: nat, m: nat)
    requires
        k <= m,
        greedy_prefix(t, p, k) is None,
    ensures
        greedy_prefix(t, p, m) is None,
    decreases m - k,
{
    if k < m {
        lemma_greedy_none_stays(t, p, k, (m - 1) as nat);
    }
}

/// The greedy scan succeeds exactly when the pattern is a subsequence of the
/// text, and then reports an embedding of it.
pub proof fn lemma_greedy_iff_subsequence(t: Seq<char>, p: Seq<char>)
    ensures
        greedy_prefix(t, p, p.len()) is Some <==> is_subsequence(p, t),
        greedy_prefix(t, p, p.len()) matches Some(idx) ==> embeds(t, p, idx),
{
    lemma_greedy_sound(t, p, p.len());
    assert(p.take(p.len() as int) == p);
    if let Some(idx) = greedy_prefix(t, p, p.len()) {
        assert(embeds(t, p, idx));
    }
    if is_subsequence(p, t) {
        let w = choose|w: Seq<int>| embeds(t, p, w);
        if p.len() > 0 {
            lemma_greedy_complete(t, p, w, p.len());
        }
    }
}

/// The lowercase form of one character, as `str::to_lowercase` gives it
/// for a string of that character alone.
fn lower_char(c: char) -> (r: Vec<char>)
    ensures
        r@ == lowercase(seq![c]),
{
    let mut one = String::new();
    one.push(c);
    assert(one@ =~= seq![c]);
    let lowered = to_lowercase(one.as_str());
    chars_of(lowered.as_str())
}

/// The text lowercased character by character, with the text position each
/// lowered character came from.
fn lower_with_origin(text: &str) -> (r: (Vec<char>, Vec<usize>))
    ensures
        r.0@ == lowered_text(text@),
        r.1@.map_values(|i: usize| i as int) == lowered_origin(text@),
{
    let tc = chars_of(text);
    let mut lt: Vec<char> = Vec::new();
    let mut origin: Vec<usize> = Vec::new();
    let mut i: usize = 0;
    while i < tc.len()
        invariant
            i <= tc@.len(),
            tc@ == text@,
            lt@ == lowered_text(tc@.take(i as int)),
            origin@.map_values(|k: usize| k as int) == lowered_origin(tc@.take(i as int)),
        decreases tc@.len() - i,
    {
        let ghost pre = tc@.take(i as int);
        let ghost nxt = tc@.take(i + 1);
        assert(nxt.drop_last() == pre);
        assert(nxt.last() == tc@[i as int]);
        let low = lower_char(tc[i]);
        let ghost lt0 = lt@;
        let ghost or0 = origin@.map_values(|k: usize| k as int);
        let mut j: usize = 0;
        while j < low.len()
            invariant
                j <= low@.len(),
                i < tc@.len(),
                lt@ == lt0 + low@.take(j as int),
                origin@.map_values(|k: usize| k as int) == or0 + Seq::new(j as nat, |m: int| i as int),
            decreases low@.len() - j,
        {
            let ghost ob = origin@;
            lt.push(low[j]);
            origin.push(i);
            assert(low@.take(j + 1) == low@.take(j as int).push(low@[j as int]));
            let ghost want = or0 + Seq::new((j + 1) as nat, |m: int| i as int);
            let ghost have = origin@.map_values(|k: usize| k as int);
            let ghost pm = ob.map_values(|k: usize| k as int);
            assert(pm == or0 + Seq::new(j as nat, |m: int| i as int));
            assert(pm.len() == ob.len());
            assert(have.len() == origin@.len());
            assert(have.len() == want.len());
            assert forall|q: int| 0 <= q < have.len() implies have[q] == want[q] by {
                if q < ob.len() {
                    assert(origin@[q] == ob[q]);
                    assert(ob.map_values(|k: usize| k as int)[q] == ob[q] as int);
                } else {
                    assert(origin@[q] == i);
                }
            }
            assert(have =~= want);
            j += 1;
        }
        assert(low@.take(low@.len() as int) == low@);
        assert(lt@ == lowered_text(nxt));
        assert(origin@.map_values(|k: usize| k as int) =~= lowered_origin(nxt));
        i += 1;
    }
    assert(tc@.take(tc@.len() as int) == tc@);
    (lt, origin)
}

/// The position in `text` of the character each pattern character matched
/// (greedy, leftmost, case-insensitive: the lowercased pattern placed in
/// the lowercased text), or `None` when the pattern is not a subsequence of
/// the text. Positions count the text's own characters (see
/// `text_position`): where lowercasing changes the number of characters, a
/// character whose lowercase form is longer may be reported for more than
/// one pattern character. An empty pattern matches with no positions.
pub fn fuzzy_match_char_indices(text: &str, pattern: &str) -> (r: Option<Vec<usize>>)
    ensures
        match r {
            Some(v) => fuzzy_spec(text@, pattern@) == Some(v@.map_values(|i: usize| i as int)),
            None => fuzzy_spec(text@, pattern@) is None,
        },
{
    let lt = to_lowercase(text);
    let t = chars_of(lt.as_str());
    let lp = to_lowercase(pattern);
    let p = chars_of(lp.as_str());
    let ghost ts = t@;
    let ghost ps = p@;
    let mut found: Vec<usize> = Vec::new();
    let mut cursor: usize = 0;
    let mut k: usize = 0;
    while k < p.len()
        invariant
            ts == t@,
            ps == p@,
            ts == lowercase(text@),
            ps == lowercase(pattern@),
            k <= p@.len(),
            cursor <= t@.len(),
            greedy_prefix(ts, ps, k as nat) == Some(found@.map_values(|i: usize| i as int)),
            cursor == (if k == 0 {
                0
            } else {
                found@.last() + 1
            }),
            found@.len() == k,
        decreases p@.len() - k,
    {
        let c = p[k];
        let mut j: usize = cursor;
        while j < t.len() && t[j] != c
            invariant
                cursor <= j <= t@.len(),
                ts == t@,
                k < ps.len(),
                c == ps[k as int],
                find_from(ts, c, cursor as int) == find_from(ts, c, j as int),
            decreases t@.len() - j,
        {
            j += 1;
        }
        let ghost prev = found@.map_values(|i: usize| i as int);
        assert(prev.len() == k);
        if k > 0 {
            assert(prev.last() == found@.last() as int);
        }
        if j == t.len() {
            proof {
                assert(find_from(ts, c, j as int) is None);
                assert(greedy_prefix(ts, ps, (k + 1) as nat) is None);
                lemma_greedy_none_stays(ts, ps, (k + 1) as nat, ps.len());
            }
            return None;
        }
        found.push(j);
        assert(found@.map_values(|i: usize| i as int) == prev.push(j as int));
        cursor = j + 1;
        k += 1;
    }
    let ghost fi = found@.map_values(|i: usize| i as int);
    proof {
        lemma_greedy_sound(ts, ps, ps.len());
        assert(ps.take(ps.len() as int) == ps);
    }
    let tc = chars_of(text);
    let same = t.len() == tc.len();
    let origin: Vec<usize> = if same {
        Vec::new()
    } else {
        let (_, o) = lower_with_origin(text);
        o
    };
    let use_origin = !same && origin.len() == t.len();
    proof {
        if !same {
            assert(origin@.map_values(|i: usize| i as int).len() == origin@.len());
        }
    }
    let mut indices: Vec<usize> = Vec::new();
    let mut m: usize = 0;
    while m < found.len()
        invariant
            m <= found@.len(),
            fi == found@.map_values(|i: usize| i as int),
            embeds(ts, ps, fi),
            ts == lowercase(text@),
            tc@ == text@,
            same == (ts.len() == text@.len()),
            !same ==> origin@.map_values(|i: usize| i as int) == lowered_origin(text@),
            use_origin == (!same && lowered_origin(text@).len() == ts.len()),
            use_origin ==> origin@.len() == ts.len(),
            indices@.map_values(|i: usize| i as int) == fi.take(m as int).map_values(
                |j: int| text_position(text@, j),
            ),
        decreases found@.len() - m,
    {
        assert(fi[m as int] == found@[m as int] as int);
        assert(0 <= fi[m as int] < ts.len());
        let o = if use_origin {
            let v = origin[found[m]];
            assert(origin@.map_values(|i: usize| i as int)[fi[m as int]] == v as int);
            v
        } else {
            found[m]
        };
        assert(o as int == text_position(text@, fi[m as int]));
        let ghost ib = indices@;
        indices.push(o);
        let ghost want = fi.take(m + 1).map_values(|j: int| text_position(text@, j));
        let ghost have = indices@.map_values(|i: usize| i as int);
        let ghost pm = ib.map_values(|i: usize| i as int);
        assert(pm == fi.take(m as int).map_values(|j: int| text_position(text@, j)));
        assert(pm.len() == ib.len());
        assert(have.len() == indices@.len());
        assert(have.len() == want.len());
        assert forall|q: int| 0 <= q < have.len() implies have[q] == want[q] by {
            if q < m {
                assert(indices@[q] == ib[q]);
                assert(ib.map_values(|i: usize| i as int)[q] == ib[q] as int);
                assert(fi.take(m as int)[q] == fi.take(m + 1)[q]);
            } else {
                assert(indices@[q] == o);
            }
        }
        assert(have =~= want);
        m += 1;
    }
    assert(fi.take(found@.len() as int) == fi);
    Some(indices)
}

/// Whether `pattern` fuzzy-matches `text`: its characters occur in the text
/// in order, ignoring case (e.g. "nme" matches "name").
pub fn fuzzy_matches(text: &str, pattern: &str) -> (r: bool)
    ensures
        r == fuzzy_spec(text@, pattern@) is Some,
        r == is_subsequence(lowercase(pattern@), lowercase(text@)),
{
    proof {
        lemma_greedy_iff_subsequence(lowercase(text@), lowercase(pattern@));
    }
    fuzzy_match_char_indices(text, pattern).is_some()
}

} // verus!
