//! The Insertion rule: any graph may be drawn inside an odd (negative) cut.

use vstd::prelude::*;
use crate::calculus::action::{Action, ActionV, actions_view};
use crate::calculus::error::{ProofError, ProofResult};
use crate::calculus::inference_rule::InferenceRule;
use crate::codec::{parse_spec, parse_graph_string_into_actions};
use crate::graph::{Graph, GraphView, CutId};
use crate::graph::error::GraphError;

verus! {

/// What compiling an Insertion must return: the parse of `new_content`
/// against `t`, provided `t` exists and sits at an odd level.
pub open spec fn insertion_post(
    g: GraphView,
    t: CutId,
    new_content: Seq<char>,
    r: ProofResult<Vec<Action>>,
) -> bool {
    if !g.nodes.contains_key(t) {
        r matches Err(ProofError::GraphError(e)) && e == GraphError::InvalidSubgraphTargetError(t)
    } else if g.nodes[t].level % 2 == 0 {
        r matches Err(ProofError::InvalidApplicationOfRule(_))
    } else {
        match parse_spec(new_content, t) {
            Ok(acts) => r matches Ok(v) && actions_view(v@) == acts,
            Err(pe) => r matches Err(ProofError::GraphError(e)) && e == pe,
        }
    }
}

/// Compiles an Insertion: checks that the target cut is at an odd level and
/// parses the new content into a batch against it.
pub fn gen_actions_from_insertion(rule: &InferenceRule, graph: &Graph) -> (r: ProofResult<
    Vec<Action>,
>)
    requires
        graph.well_formed(),
        rule is Insertion,
    ensures
        insertion_post(graph@, rule->Insertion_target, rule->Insertion_new_content@, r),
{
    let (target, new_content): (CutId, &String) = match rule {
        InferenceRule::Insertion { target, new_content } => (*target, new_content),
        _ => {
            proof {
                assert(false);
            }
            return Err(ProofError::InvalidApplicationOfRule(String::new()));
        },
    };
    let target_level = match graph.level_of(target) {
        Ok(l) => l,
        Err(e) => {
            return Err(ProofError::GraphError(e));
        },
    };
    if target_level % 2 == 0 {
        return Err(ProofError::InvalidApplicationOfRule(sel_err_message()));
    }
    match parse_graph_string_into_actions(graph, new_content.as_str(), target) {
        Ok(v) => Ok(v),
        Err(e) => Err(ProofError::GraphError(e)),
    }
}

/// The message reported when a rule's selection does not satisfy its
/// preconditions.
pub(crate) fn sel_err_message() -> (r: String) {
    "invalid selection".to_string()
}

} // verus!
