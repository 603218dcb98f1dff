//! What a non-interactive run prints for the node it was pointed at, in
//! each output mode.
use crate::cli::{json_stats_report, report_line, xml_stats_report, OutputMode, AGENT_DEFAULT_DEPTH};
use crate::color::ColorMode;
use crate::json_tree::JsonNode;
use crate::paths::{display_all, json_path_list, json_paths, strings_view, xml_path_list, xml_paths};
use crate::render::{render_json, render_json_spec};
use crate::render_xml::{render_xml, render_xml_spec};
use crate::schema::{json_schema, json_schema_spec, xml_schema, xml_schema_spec};
use crate::stats::{
    json_height, json_size, json_stats, json_stats_spec, lemma_json_height_lt_size,
    lemma_xml_height_lt_count, xml_count, xml_height, xml_stats, xml_stats_spec,
};
use crate::text::push_str;
use crate::xml_tree::XmlNode;
use vstd::prelude::*;

verus! {

broadcast use vstd::string::group_string_axioms;

/// Each line followed by a line break.
pub open spec fn lines_text(ls: Seq<Seq<char>>) -> Seq<char>
    decreases ls.len(),
{
    if ls.len() == 0 {
        Seq::empty()
    } else {
        lines_text(ls.drop_last()) + ls.last() + "\n"@
    }
}

/// The lines of `ls`, each followed by a line break.
pub fn joined_lines(ls: &Vec<String>) -> (r: String)
    ensures
        r@ == lines_text(strings_view(ls@)),
{
    let mut out = String::new();
    let mut i: usize = 0;
    while i < ls.len()
        invariant
            i <= ls@.len(),
            out@ == lines_text(strings_view(ls@.take(i as int))),
        decreases ls@.len() - i,
    {
        let ghost before = ls@.take(i as int);
        push_str(&mut out, ls[i].as_str());
        push_str(&mut out, "\n");
        assert(strings_view(ls@.take(i + 1)).drop_last() =~= strings_view(before));
        assert(strings_view(ls@.take(i + 1)).last() == ls@[i as int]@);
        i += 1;
    }
    assert(ls@.take(ls@.len() as int) == ls@);
    out
}

/// The depth `--agent` renders to: the one given, else the default.
pub open spec fn agent_depth(depth: Option<usize>) -> Option<usize> {
    if depth is None {
        Some(AGENT_DEFAULT_DEPTH)
    } else {
        depth
    }
}

/// The `--stats` report of a JSON node read from `input_len` bytes.
pub open spec fn json_stats_text(n: JsonNode, input_len: nat) -> Seq<char> {
    let s = json_stats_spec(n);
    report_line("input_bytes"@, input_len) + report_line("max_depth"@, s.0) + report_line(
        "objects"@,
        s.1,
    ) + report_line("arrays"@, s.2) + report_line("scalars"@, s.3)
}

/// The `--stats` report of an XML node read from `input_len` bytes.
pub open spec fn xml_stats_text(n: XmlNode, input_len: nat) -> Seq<char> {
    let s = xml_stats_spec(n);
    report_line("input_bytes"@, input_len) + report_line("max_depth"@, s.0) + report_line(
        "elements"@,
        s.1,
    ) + report_line("attributes"@, s.2) + report_line("text_nodes"@, s.3)
}

/// What a run prints for a JSON node: `--agent` the statistics, a blank
/// line and the tree cut at the agent depth; `--paths` every path on its
/// own line; `--stats` the statistics; `--schema` the schema; a static run
/// the tree. The browser prints nothing here.
pub open spec fn json_output_spec(
    n: JsonNode,
    input_len: nat,
    mode: OutputMode,
    depth: Option<usize>,
    limit: Option<usize>,
    color: ColorMode,
) -> Option<Seq<char>> {
    match mode {
        OutputMode::Agent => Some(
            json_stats_text(n, input_len) + "\n"@ + render_json_spec(
                n,
                "root"@,
                agent_depth(depth),
                limit,
                color,
            ),
        ),
        OutputMode::Paths => Some(lines_text(display_all(json_path_list(n, Seq::empty())))),
        OutputMode::Stats => Some(json_stats_text(n, input_len)),
        OutputMode::Schema => Some(json_schema_spec(n)),
        OutputMode::Static => Some(render_json_spec(n, "root"@, depth, limit, color)),
        OutputMode::Interactive => None,
    }
}

/// What a run prints for an XML element, mode by mode as for JSON.
pub open spec fn xml_output_spec(
    n: XmlNode,
    input_len: nat,
    mode: OutputMode,
    depth: Option<usize>,
    color: ColorMode,
) -> Option<Seq<char>> {
    match mode {
        OutputMode::Agent => Some(
            xml_stats_text(n, input_len) + "\n"@ + render_xml_spec(n, agent_depth(depth), color),
        ),
        OutputMode::Paths => Some(lines_text(display_all(xml_path_list(n, Seq::empty())))),
        OutputMode::Stats => Some(xml_stats_text(n, input_len)),
        OutputMode::Schema => Some(xml_schema_spec(n)),
        OutputMode::Static => Some(render_xml_spec(n, depth, color)),
        OutputMode::Interactive => None,
    }
}

/// What a run prints for the JSON node `target` of an input of
/// `input_len` bytes (`json_output_spec`); `None` for the browser. Every
/// node occupies memory, so the node count fits in a `usize`.
pub fn json_output(
    target: &JsonNode,
    input_len: usize,
    mode: OutputMode,
    depth: Option<usize>,
    limit: Option<usize>,
    color: ColorMode,
) -> (r: Option<String>)
    requires
        json_size(*target) <= usize::MAX,
    ensures
        match r {
            Some(s) => json_output_spec(*target, input_len as nat, mode, depth, limit, color) == Some(
                s@,
            ),
            None => json_output_spec(*target, input_len as nat, mode, depth, limit, color) is None,
        },
{
    proof {
        lemma_json_height_lt_size(*target);
    }
    match mode {
        OutputMode::Agent => {
            let mut out = json_stats_report(&json_stats(target), input_len);
            push_str(&mut out, "\n");
            let d = if depth.is_none() {
                Some(AGENT_DEFAULT_DEPTH)
            } else {
                depth
            };
            let tree = render_json(target, "root", d, limit, color);
            push_str(&mut out, tree.as_str());
            Some(out)
        },
        OutputMode::Paths => Some(joined_lines(&json_paths(target))),
        OutputMode::Stats => Some(json_stats_report(&json_stats(target), input_len)),
        OutputMode::Schema => Some(json_schema(target)),
        OutputMode::Static => Some(render_json(target, "root", depth, limit, color)),
        OutputMode::Interactive => None,
    }
}

/// What a run prints for the XML element `target` of an input of
/// `input_len` bytes (`xml_output_spec`); `None` for the browser. Every
/// element, attribute and text occupies memory, so their count fits in a
/// `usize`.
pub fn xml_output(
    target: &XmlNode,
    input_len: usize,
    mode: OutputMode,
    depth: Option<usize>,
    color: ColorMode,
) -> (r: Option<String>)
    requires
        xml_count(*target, 0) + xml_count(*target, 1) + xml_count(*target, 2) <= usize::MAX,
    ensures
        match r {
            Some(s) => xml_output_spec(*target, input_len as nat, mode, depth, color) == Some(s@),
            None => xml_output_spec(*target, input_len as nat, mode, depth, color) is None,
        },
{
    proof {
        lemma_xml_height_lt_count(*target);
    }
    match mode {
        OutputMode::Agent => {
            let mut out = xml_stats_report(&xml_stats(target), input_len);
            push_str(&mut out, "\n");
            let d = if depth.is_none() {
                Some(AGENT_DEFAULT_DEPTH)
            } else {
                depth
            };
            let tree = render_xml(target, d, color);
            push_str(&mut out, tree.as_str());
            Some(out)
        },
        OutputMode::Paths => Some(joined_lines(&xml_paths(target))),
        OutputMode::Stats => Some(xml_stats_report(&xml_stats(target), input_len)),
        OutputMode::Schema => Some(xml_schema(target)),
        OutputMode::Static => Some(render_xml(target, depth, color)),
        OutputMode::Interactive => None,
    }
}

} // verus!
