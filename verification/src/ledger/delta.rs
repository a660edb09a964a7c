use vstd::prelude::*;
use crate::graph::ids::NodeId;
use crate::graph::node::{NodeKind, SNode};
use crate::graph::store::{GraphStore, SGraph, replace_s};
use crate::graph::table::{ids_view, keys_sorted, tbl_get, tbl_insert};
use crate::graph::transpose::lemma_get_insert;
use crate::lisp::ast::{Expr, SExpr, copy_expr};
use crate::lisp::value::{copy_strings, strings_view};
use crate::graph::node::opt_string_view;
use crate::text::{nat_text, push_all};

verus! {

/// Function signature data carried by a delta.
#[derive(Debug, PartialEq, Eq)]
pub struct FuncSigData {
    pub name: String,
    pub args: Vec<String>,
    pub ret: Option<String>,
    pub effects: Vec<String>,
}

/// A structural delta: whole-node replacement.
#[derive(Debug, PartialEq, Eq)]
pub enum StructuralDelta {
    ReplaceSig { node_id: NodeId, new_sig: FuncSigData },
    ReplaceBody { node_id: NodeId, new_ast: Expr },
}

/// The model of a delta: the node it targets and what it writes there.
pub enum SDelta {
    ReplaceSig { node: u64, sig: SNode },
    ReplaceBody { node: u64, ast: SExpr },
}

/// The signature node that signature data describes.
pub open spec fn sig_node(d: FuncSigData) -> SNode {
    SNode::Sig {
        name: d.name@,
        args: strings_view(d.args@),
        ret: opt_string_view(d.ret),
        effects: strings_view(d.effects@),
    }
}

impl View for FuncSigData {
    type V = SNode;

    open spec fn view(&self) -> SNode {
        sig_node(*self)
    }
}

impl View for StructuralDelta {
    type V = SDelta;

    open spec fn view(&self) -> SDelta {
        match *self {
            StructuralDelta::ReplaceSig { node_id, new_sig } => SDelta::ReplaceSig {
                node: node_id.0,
                sig: new_sig@,
            },
            StructuralDelta::ReplaceBody { node_id, new_ast } => SDelta::ReplaceBody {
                node: node_id.0,
                ast: new_ast@,
            },
        }
    }
}

/// The node a delta targets.
pub open spec fn delta_target(d: SDelta) -> u64 {
    match d {
        SDelta::ReplaceSig { node, .. } => node,
        SDelta::ReplaceBody { node, .. } => node,
    }
}

/// `node <id> does not exist`
pub open spec fn missing_node_msg(id: u64) -> Seq<char> {
    "node "@ + nat_text(id as nat) + " does not exist"@
}

/// `node <id> is not a FuncBody`
pub open spec fn not_body_msg(id: u64) -> Seq<char> {
    "node "@ + nat_text(id as nat) + " is not a FuncBody"@
}

/// The graph after a delta, or the message that rejects it: the target must
/// exist, and a body replacement must target a body, whose signature it keeps.
pub open spec fn apply_s(g: SGraph, d: SDelta) -> Result<SGraph, Seq<char>> {
    match d {
        SDelta::ReplaceSig { node, sig } => match tbl_get(g.nodes, node) {
            Some(_) => Ok(replace_s(g, node, sig)),
            None => Err(missing_node_msg(node)),
        },
        SDelta::ReplaceBody { node, ast } => match tbl_get(g.nodes, node) {
            Some(SNode::Body { sig, .. }) => Ok(replace_s(g, node, SNode::Body { sig, ast })),
            Some(_) => Err(not_body_msg(node)),
            None => Err(missing_node_msg(node)),
        },
    }
}

/// A delta replaces exactly its target node and leaves every other node as
/// it was: `ReplaceSig` stores the given signature, with its name, parameters,
/// return type and effects, in place of any existing node; `ReplaceBody`
/// stores the new expression under the existing body's signature. A missing
/// target, or a `ReplaceBody` aimed at a signature, is refused.
pub proof fn law_apply_replaces_target(g: SGraph, d: SDelta)
    requires
        keys_sorted(g.nodes),
    ensures
        match d {
            SDelta::ReplaceSig { node, sig } => match tbl_get(g.nodes, node) {
                Some(_) => apply_s(g, d) matches Ok(g2) && tbl_get(g2.nodes, node) == Some(sig),
                None => apply_s(g, d) is Err,
            },
            SDelta::ReplaceBody { node, ast } => match tbl_get(g.nodes, node) {
                Some(SNode::Body { sig, .. }) => apply_s(g, d) matches Ok(g2) && tbl_get(
                    g2.nodes,
                    node,
                ) == Some(SNode::Body { sig, ast }),
                _ => apply_s(g, d) is Err,
            },
        },
        forall|j: u64|
            j != delta_target(d) && apply_s(g, d) is Ok ==> #[trigger] tbl_get(
                apply_s(g, d)->Ok_0.nodes,
                j,
            ) == tbl_get(g.nodes, j),
{
    let t = delta_target(d);
    if let Ok(g2) = apply_s(g, d) {
        let v = match d {
            SDelta::ReplaceSig { sig, .. } => sig,
            SDelta::ReplaceBody { node, ast } => SNode::Body {
                sig: tbl_get(g.nodes, node)->Some_0->Body_sig,
                ast,
            },
        };
        assert(g2.nodes == tbl_insert(g.nodes, t, v));
        lemma_get_insert(g.nodes, t, v, t);
        assert forall|j: u64| j != t implies #[trigger] tbl_get(g2.nodes, j) == tbl_get(
            g.nodes,
            j,
        ) by {
            lemma_get_insert(g.nodes, t, v, j);
        }
    }
}

fn node_message(id: NodeId, tail: &str) -> (s: String)
    ensures
        s@ == "node "@ + nat_text(id.0 as nat) + tail@,
{
    let mut s = String::from_str("node ");
    push_all(&mut s, &id.to_string());
    s.append(tail);
    s
}

impl StructuralDelta {
    /// The node identifiers affected by this delta: its target.
    pub fn affected_node_ids(&self) -> (r: Vec<NodeId>)
        ensures
            ids_view(r@) == seq![delta_target(self@)],
    {
        let id = match self {
            StructuralDelta::ReplaceSig { node_id, .. } => *node_id,
            StructuralDelta::ReplaceBody { node_id, .. } => *node_id,
        };
        let r = vec![id];
        assert(ids_view(r@) =~= seq![id.0]);
        r
    }

    /// Applies this delta to a graph store; on error the store is unchanged.
    pub fn apply(&self, graph: &mut GraphStore) -> (r: Result<(), String>)
        ensures
            match apply_s(old(graph)@, self@) {
                Ok(g) => r is Ok && final(graph)@ == g,
                Err(m) => r matches Err(e) && e@ == m && final(graph)@ == old(graph)@,
            },
    {
        match self {
            StructuralDelta::ReplaceSig { node_id, new_sig } => {
                if graph.get(*node_id).is_none() {
                    return Err(node_message(*node_id, " does not exist"));
                }
                let node = NodeKind::FuncSig {
                    name: new_sig.name.clone(),
                    args: copy_strings(&new_sig.args),
                    ret: match &new_sig.ret {
                        Some(s) => Some(s.clone()),
                        None => None,
                    },
                    effects: copy_strings(&new_sig.effects),
                };
                graph.replace(*node_id, node);
                Ok(())
            },
            StructuralDelta::ReplaceBody { node_id, new_ast } => {
                let sig_id = match graph.get(*node_id) {
                    None => {
                        return Err(node_message(*node_id, " does not exist"));
                    },
                    Some(NodeKind::FuncBody { sig_id, .. }) => *sig_id,
                    Some(_) => {
                        return Err(node_message(*node_id, " is not a FuncBody"));
                    },
                };
                let node = NodeKind::FuncBody { sig_id, ast: copy_expr(new_ast) };
                graph.replace(*node_id, node);
                Ok(())
            },
        }
    }
}

/// A copy of signature data.
pub fn copy_sig_data(d: &FuncSigData) -> (r: FuncSigData)
    ensures
        r@ == d@,
{
    FuncSigData {
        name: d.name.clone(),
        args: copy_strings(&d.args),
        ret: match &d.ret {
            Some(s) => Some(s.clone()),
            None => None,
        },
        effects: copy_strings(&d.effects),
    }
}

impl Clone for FuncSigData {
    fn clone(&self) -> (r: Self)
        ensures
            r@ == self@,
    {
        copy_sig_data(self)
    }
}

/// A copy of a delta.
pub fn copy_delta(d: &StructuralDelta) -> (r: StructuralDelta)
    ensures
        r@ == d@,
{
    match d {
        StructuralDelta::ReplaceSig { node_id, new_sig } => StructuralDelta::ReplaceSig {
            node_id: *node_id,
            new_sig: copy_sig_data(new_sig),
        },
        StructuralDelta::ReplaceBody { node_id, new_ast } => StructuralDelta::ReplaceBody {
            node_id: *node_id,
            new_ast: copy_expr(new_ast),
        },
    }
}

impl Clone for StructuralDelta {
    fn clone(&self) -> (r: Self)
        ensures
            r@ == self@,
    {
        copy_delta(self)
    }
}

} // verus!
