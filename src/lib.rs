//! Enumerates the ways to draw every edge of an undirected graph exactly once
//! in one continuous stroke, starting from a chosen point.
use vstd::prelude::*;

pub mod graph;
pub mod search;
pub mod solver;
pub mod text;

use crate::solver::{find_trails, search_result, views};
use crate::text::{ascii, edges_of, format_trails, parse_edges, text_of_trails};
use vstd::string::StringSliceAdditionalSpecFns;
use vstd::utf8::encode_utf8;

verus! {

/// Relies on `String::from_utf8`: ASCII bytes are valid UTF-8, so it succeeds
/// and the string holds exactly those bytes.
#[verifier::external_body]
fn ascii_to_string(bytes: Vec<u8>) -> (r: String)
    requires
        ascii(bytes@),
    ensures
        encode_utf8(r@) == bytes@,
{
    String::from_utf8(bytes).unwrap()
}

/// Solves the puzzle given as text. The edges are pairs `x,y` between slashes;
/// the answer lists the drawings, each as its points between commas, the
/// drawings between slashes.
pub fn one_line_solver(graph_point: &str, start_point: i32, max_solutions: i32) -> (r: String)
    requires
        edges_of(graph_point.spec_bytes()) is Some,
    ensures
        exists|found: Seq<Seq<i32>>|
            search_result(edges_of(graph_point.spec_bytes())->0, start_point, max_solutions, found)
                && encode_utf8(r@) == text_of_trails(found),
{
    let edges = match parse_edges(graph_point.as_bytes()) {
        Some(e) => e,
        None => {
            return String::new();
        },
    };
    let found = find_trails(&edges, start_point, max_solutions);
    let bytes = format_trails(&found);
    assert(found@.map_values(|v: Vec<i32>| v@) == views(found@));
    ascii_to_string(bytes)
}

} // verus!
