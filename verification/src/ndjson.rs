//! NDJSON (JSON Lines): one JSON text per non-blank line, gathered into
//! one array. Errors name the physical 1-based line, blank lines included.
use crate::documents::{json_document, json_parse_error, json_text_parses, parse_json_document};
use crate::error_context::{json_error_message, split_lines, text_lines};
use crate::json_tree::JsonNode;
use crate::text::{chars_of, decimal, decimal_string, push_str, string_from_chars, trim, trim_chars};
use vstd::prelude::*;

verus! {

broadcast use vstd::string::group_string_axioms;

/// The records of an NDJSON input: each non-blank line, trimmed, with its
/// 1-based line number (blank lines still count).
pub open spec fn ndjson_records_spec(input: Seq<char>) -> Seq<(nat, Seq<char>)>
    decreases text_lines(input).len(),
{
    records_upto(text_lines(input), text_lines(input).len())
}

pub open spec fn records_upto(lines: Seq<Seq<char>>, k: nat) -> Seq<(nat, Seq<char>)>
    decreases k,
{
    if k == 0 || k > lines.len() {
        Seq::empty()
    } else {
        let prev = records_upto(lines, (k - 1) as nat);
        let t = trim(lines[k - 1]);
        if t.len() == 0 {
            prev
        } else {
            prev.push((k, t))
        }
    }
}

/// The non-blank lines of an NDJSON input, trimmed, each with its 1-based
/// line number.
pub fn ndjson_records(input: &str) -> (r: Vec<(usize, String)>)
    ensures
        r@.map_values(|e: (usize, String)| (e.0 as nat, e.1@)) == ndjson_records_spec(input@),
{
    let lines = split_lines(input);
    let ghost ls = lines@.map_values(|l: String| l@);
    let mut out: Vec<(usize, String)> = Vec::new();
    let mut i: usize = 0;
    while i < lines.len()
        invariant
            i <= lines@.len(),
            ls == lines@.map_values(|l: String| l@),
            ls == text_lines(input@),
            out@.map_values(|e: (usize, String)| (e.0 as nat, e.1@)) == records_upto(ls, i as nat),
        decreases lines@.len() - i,
    {
        assert(ls[i as int] == lines@[i as int]@);
        let cs = chars_of(lines[i].as_str());
        let t = trim_chars(cs.as_slice());
        if t.len() > 0 {
            let ghost before = out@;
            out.push((i + 1, string_from_chars(t.as_slice())));
            assert(out@.map_values(|e: (usize, String)| (e.0 as nat, e.1@)) =~= before.map_values(
                |e: (usize, String)| (e.0 as nat, e.1@),
            ).push(((i + 1) as nat, trim(ls[i as int]))));
        }
        i += 1;
    }
    out
}

/// How an NDJSON record's parse error is reported.
pub fn ndjson_error(line_no: usize, message: &str) -> (r: String)
    ensures
        r@ == "line "@ + decimal(line_no as nat) + ": "@ + message@,
{
    let mut out = String::from_str("line ");
    let d = decimal_string(line_no);
    push_str(&mut out, d.as_str());
    push_str(&mut out, ": ");
    push_str(&mut out, message);
    out
}


/// The error text of a record at line `line_no` that failed with `message`.
pub open spec fn ndjson_error_text(line_no: nat, message: Seq<char>) -> Seq<char> {
    "line "@ + decimal(line_no) + ": "@ + message
}

/// Whether the first `k` records all parse as JSON.
pub open spec fn records_parse(recs: Seq<(nat, Seq<char>)>, k: int) -> bool {
    forall|j: int| 0 <= j < k ==> #[trigger] json_text_parses(recs[j].1)
}

/// The error text of record `i`: its line and the parser's message for its
/// text.
pub open spec fn record_error_text(recs: Seq<(nat, Seq<char>)>, i: int) -> Seq<char> {
    ndjson_error_text(recs[i].0, json_parse_error(recs[i].1).2)
}

/// The documents of the records, in order.
pub open spec fn record_documents(recs: Seq<(nat, Seq<char>)>) -> Seq<JsonNode> {
    recs.map_values(|rec: (nat, Seq<char>)| json_document(rec.1))
}

/// Parses every record of an NDJSON input (`ndjson_records`) and gathers
/// the documents into one array, in order. The first record that does not
/// parse gives the error, naming its line; an input without records gives
/// an empty array.
pub fn parse_ndjson(input: &str) -> (r: Result<JsonNode, String>)
    ensures
        r is Ok <==> records_parse(ndjson_records_spec(input@), ndjson_records_spec(input@).len() as int),
        r matches Ok(n) ==> n matches JsonNode::Array(items) && items@ == record_documents(
            ndjson_records_spec(input@),
        ),
        r matches Err(e) ==> exists|i: int|
            0 <= i < ndjson_records_spec(input@).len()
            && records_parse(ndjson_records_spec(input@), i)
            && !json_text_parses(ndjson_records_spec(input@)[i].1)
            && e@ == #[trigger] record_error_text(ndjson_records_spec(input@), i),
{
    let recs = ndjson_records(input);
    let ghost rv = recs@.map_values(|e: (usize, String)| (e.0 as nat, e.1@));
    assert(rv.len() == recs@.len());
    let mut values: Vec<JsonNode> = Vec::new();
    let mut i: usize = 0;
    while i < recs.len()
        invariant
            i <= recs@.len(),
            rv == recs@.map_values(|e: (usize, String)| (e.0 as nat, e.1@)),
            rv == ndjson_records_spec(input@),
            records_parse(rv, i as int),
            values@ == record_documents(rv.take(i as int)),
        decreases recs@.len() - i,
    {
        let (line_no, text) = &recs[i];
        assert(text@ == rv[i as int].1);
        match parse_json_document(text.as_str()) {
            Ok(v) => {
                let ghost before = values@;
                values.push(v);
                assert(rv.take(i + 1) == rv.take(i as int).push(rv[i as int]));
                assert(values@ =~= record_documents(rv.take(i + 1)));
            },
            Err(e) => {
                let message = json_error_message(&e);
                let err = ndjson_error(*line_no, message.as_str());
                assert(rv[i as int].0 == *line_no as nat);
                assert(err@ == record_error_text(rv, i as int));
                assert(!json_text_parses(rv[i as int].1));
                assert(!records_parse(rv, rv.len() as int));
                return Err(err);
            },
        }
        i += 1;
    }
    assert(rv.take(rv.len() as int) == rv);
    Ok(JsonNode::Array(values))
}

} // verus!
