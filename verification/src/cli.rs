//! The command line's decisions: which options go together, which format
//! and output the input gets, and the text of the reports it prints.
use crate::detect::{detect_format, detected_format, Format};
use crate::stats::{JsonStats, XmlStats};
use crate::text::{chars_of, decimal, decimal_string, push_str, string_from_chars};
use vstd::prelude::*;

verus! {

broadcast use vstd::string::group_string_axioms;

/// The `--depth` that `--agent` uses when none is given.
pub const AGENT_DEFAULT_DEPTH: usize = 3;

/// `input` without a leading byte-order mark, which would otherwise defeat
/// format detection and every parser.
pub open spec fn without_bom(input: Seq<char>) -> Seq<char> {
    if input.len() > 0 && input[0] == '\u{feff}' {
        input.drop_first()
    } else {
        input
    }
}

/// `input` without a leading byte-order mark.
pub fn strip_bom(input: &str) -> (r: String)
    ensures
        r@ == without_bom(input@),
{
    let cs = chars_of(input);
    if cs.len() > 0 && cs[0] == '\u{feff}' {
        let mut rest: Vec<char> = Vec::new();
        let mut i: usize = 1;
        while i < cs.len()
            invariant
                1 <= i <= cs@.len(),
                rest@ == cs@.subrange(1, i as int),
            decreases cs@.len() - i,
        {
            rest.push(cs[i]);
            assert(cs@.subrange(1, i + 1) == cs@.subrange(1, i as int).push(cs@[i as int]));
            i += 1;
        }
        assert(cs@.subrange(1, cs@.len() as int) == cs@.drop_first());
        string_from_chars(rest.as_slice())
    } else {
        String::from_str(input)
    }
}

/// The combinations of options that are refused, with their messages.
pub open spec fn option_error(ndjson: bool, format: Option<Format>, pick: bool, static_mode: bool) -> Option<Seq<char>> {
    if ndjson && format == Some(Format::Xml) {
        Some("--ndjson is not supported with --format xml"@)
    } else if pick && static_mode {
        Some("--pick is not supported with --static"@)
    } else {
        None
    }
}

/// Refuses `--ndjson` with `--format xml`, and `--pick` with `--static`.
pub fn check_options(ndjson: bool, format: Option<Format>, pick: bool, static_mode: bool) -> (r: Result<(), String>)
    ensures
        match r {
            Ok(()) => option_error(ndjson, format, pick, static_mode) is None,
            Err(m) => option_error(ndjson, format, pick, static_mode) == Some(m@),
        },
{
    let is_xml = match format {
        Some(Format::Xml) => true,
        _ => false,
    };
    if ndjson && is_xml {
        Err(String::from_str("--ndjson is not supported with --format xml"))
    } else if pick && static_mode {
        Err(String::from_str("--pick is not supported with --static"))
    } else {
        Ok(())
    }
}

/// The format to read `input` as: the one asked for, else the detected one;
/// blank input has none.
pub fn choose_format(requested: Option<Format>, input: &str) -> (r: Result<Format, String>)
    ensures
        match requested {
            Some(f) => r == Ok::<Format, String>(f),
            None => match detected_format(input@) {
                Some(f) => r == Ok::<Format, String>(f),
                None => r matches Err(m) && m@ == "empty input"@,
            },
        },
{
    match requested {
        Some(f) => Ok(f),
        None => match detect_format(input) {
            Some(f) => Ok(f),
            None => Err(String::from_str("empty input")),
        },
    }
}

/// `--array-limit` has no meaning for XML.
pub fn check_array_limit(array_limit: Option<usize>, format: Format) -> (r: Result<(), String>)
    ensures
        (array_limit is Some && format == Format::Xml) <==> r is Err,
        r matches Err(m) ==> m@ == "--array-limit is not supported for XML input"@,
{
    match (array_limit, format) {
        (Some(_), Format::Xml) => Err(String::from_str("--array-limit is not supported for XML input")),
        _ => Ok(()),
    }
}

/// What a run prints.
#[derive(Debug, Clone, Copy, PartialEq, Eq)]
pub enum OutputMode {
    /// Statistics, a blank line, then the tree cut at a default depth.
    Agent,
    /// Every path, one per line.
    Paths,
    /// Statistics only.
    Stats,
    /// The inferred schema.
    Schema,
    /// The interactive browser.
    Interactive,
    /// The tree, printed.
    Static,
}

pub open spec fn output_mode_spec(
    agent: bool,
    paths: bool,
    stats: bool,
    schema: bool,
    static_mode: bool,
    pick: bool,
    stdout_is_terminal: bool,
) -> OutputMode {
    if agent {
        OutputMode::Agent
    } else if paths {
        OutputMode::Paths
    } else if stats {
        OutputMode::Stats
    } else if schema {
        OutputMode::Schema
    } else if !static_mode && (pick || stdout_is_terminal) {
        OutputMode::Interactive
    } else {
        OutputMode::Static
    }
}

/// Which output a run gives: `--agent`, `--paths`, `--stats`, `--schema` in
/// that order of precedence; otherwise the browser (with `--pick`, or on a
/// terminal, unless `--static`), else the printed tree.
pub fn output_mode(
    agent: bool,
    paths: bool,
    stats: bool,
    schema: bool,
    static_mode: bool,
    pick: bool,
    stdout_is_terminal: bool,
) -> (r: OutputMode)
    ensures
        r == output_mode_spec(agent, paths, stats, schema, static_mode, pick, stdout_is_terminal),
{
    if agent {
        OutputMode::Agent
    } else if paths {
        OutputMode::Paths
    } else if stats {
        OutputMode::Stats
    } else if schema {
        OutputMode::Schema
    } else if !static_mode && (pick || stdout_is_terminal) {
        OutputMode::Interactive
    } else {
        OutputMode::Static
    }
}

/// The depth the printed tree is cut at: `--agent` defaults it to
/// `AGENT_DEFAULT_DEPTH`.
pub fn render_depth(agent: bool, depth: Option<usize>) -> (r: Option<usize>)
    ensures
        r == (if agent && depth is None {
            Some(AGENT_DEFAULT_DEPTH)
        } else {
            depth
        }),
{
    if agent && depth.is_none() {
        Some(AGENT_DEFAULT_DEPTH)
    } else {
        depth
    }
}

/// One `name: value` report line.
pub open spec fn report_line(name: Seq<char>, value: nat) -> Seq<char> {
    name + ": "@ + decimal(value) + "\n"@
}

fn push_report_line(out: &mut String, name: &str, value: usize)
    ensures
        final(out)@ == old(out)@ + report_line(name@, value as nat),
{
    push_str(out, name);
    push_str(out, ": ");
    let d = decimal_string(value);
    push_str(out, d.as_str());
    push_str(out, "\n");
}

/// The `--stats` report of a JSON document read from `input_len` bytes.
pub fn json_stats_report(s: &JsonStats, input_len: usize) -> (r: String)
    ensures
        r@ == report_line("input_bytes"@, input_len as nat) + report_line(
            "max_depth"@,
            s.max_depth as nat,
        ) + report_line("objects"@, s.objects as nat) + report_line("arrays"@, s.arrays as nat)
            + report_line("scalars"@, s.scalars as nat),
{
    let mut out = String::new();
    push_report_line(&mut out, "input_bytes", input_len);
    push_report_line(&mut out, "max_depth", s.max_depth);
    push_report_line(&mut out, "objects", s.objects);
    push_report_line(&mut out, "arrays", s.arrays);
    push_report_line(&mut out, "scalars", s.scalars);
    out
}

/// The `--stats` report of an XML document read from `input_len` bytes.
pub fn xml_stats_report(s: &XmlStats, input_len: usize) -> (r: String)
    ensures
        r@ == report_line("input_bytes"@, input_len as nat) + report_line(
            "max_depth"@,
            s.max_depth as nat,
        ) + report_line("elements"@, s.elements as nat) + report_line(
            "attributes"@,
            s.attributes as nat,
        ) + report_line("text_nodes"@, s.text_nodes as nat),
{
    let mut out = String::new();
    push_report_line(&mut out, "input_bytes", input_len);
    push_report_line(&mut out, "max_depth", s.max_depth);
    push_report_line(&mut out, "elements", s.elements);
    push_report_line(&mut out, "attributes", s.attributes);
    push_report_line(&mut out, "text_nodes", s.text_nodes);
    out
}

/// Whether `pattern` occurs in `text` at position `i`.
pub open spec fn occurs_at(text: Seq<char>, pattern: Seq<char>, i: int) -> bool {
    0 <= i && i + pattern.len() <= text.len() && text.subrange(i, i + pattern.len()) == pattern
}

pub open spec fn contains_text(text: Seq<char>, pattern: Seq<char>) -> bool {
    exists|i: int| #[trigger] occurs_at(text, pattern, i)
}

/// Whether `pattern` occurs in `text`.
pub fn contains_str(text: &str, pattern: &str) -> (r: bool)
    ensures
        r == contains_text(text@, pattern@),
{
    let t = chars_of(text);
    let p = chars_of(pattern);
    if p.len() > t.len() {
        proof {
            assert forall|i: int| !occurs_at(text@, pattern@, i) by {}
        }
        return false;
    }
    let tl = t.len();
    let mut i: usize = 0;
    while i <= t.len() - p.len()
        invariant
            tl == t@.len(),
            t@ == text@,
            p@ == pattern@,
            p@.len() <= t@.len(),
            i <= t@.len() - p@.len() + 1,
            forall|k: int| 0 <= k < i ==> !occurs_at(text@, pattern@, k),
        decreases t@.len() - p@.len() + 1 - i,
    {
        let mut j: usize = 0;
        while j < p.len() && t[i + j] == p[j]
            invariant
                j <= p@.len(),
                i + p@.len() <= t@.len(),
                tl == t@.len(),
                t@ == text@,
                p@ == pattern@,
                forall|k: int| 0 <= k < j ==> t@[i + k] == p@[k],
            decreases p@.len() - j,
        {
            j += 1;
        }
        if j == p.len() {
            assert(t@.subrange(i as int, i + p@.len()) =~= p@);
            assert(occurs_at(text@, pattern@, i as int));
            return true;
        }
        assert(!occurs_at(text@, pattern@, i as int)) by {
            assert(t@.subrange(i as int, i + p@.len())[j as int] != p@[j as int]);
        }
        i += 1;
    }
    proof {
        assert forall|k: int| !occurs_at(text@, pattern@, k) by {
            if 0 <= k && k + pattern@.len() <= text@.len() {
                assert(k < i);
            }
        }
    }
    false
}

/// A YAML parser message as reported: a stream of several documents is
/// named as unsupported, any other message is kept.
pub open spec fn yaml_message_spec(msg: Seq<char>) -> Seq<char> {
    if contains_text(msg, "more than one document"@) {
        "multi-document YAML is not supported yet"@
    } else {
        msg
    }
}

/// The YAML parser's message as reported.
pub fn yaml_error_message(msg: &str) -> (r: String)
    ensures
        r@ == yaml_message_spec(msg@),
{
    if contains_str(msg, "more than one document") {
        String::from_str("multi-document YAML is not supported yet")
    } else {
        String::from_str(msg)
    }
}

} // verus!
