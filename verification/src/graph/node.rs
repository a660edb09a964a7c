use vstd::prelude::*;
use crate::graph::ids::NodeId;
use crate::lisp::ast::{Expr, SExpr, copy_expr};
use crate::lisp::value::{copy_strings, strings_view};

verus! {

/// The kind of node in the semantic graph.
#[derive(Debug, PartialEq, Eq)]
pub enum NodeKind {
    FuncSig { name: String, args: Vec<String>, ret: Option<String>, effects: Vec<String> },
    FuncBody { sig_id: NodeId, ast: Expr },
}

/// The model of a node.
pub enum SNode {
    Sig { name: Seq<char>, args: Seq<Seq<char>>, ret: Option<Seq<char>>, effects: Seq<Seq<char>> },
    Body { sig: u64, ast: SExpr },
}

pub open spec fn opt_string_view(o: Option<String>) -> Option<Seq<char>> {
    match o {
        Some(s) => Some(s@),
        None => None,
    }
}

pub open spec fn node_view(n: NodeKind) -> SNode {
    match n {
        NodeKind::FuncSig { name, args, ret, effects } => SNode::Sig {
            name: name@,
            args: strings_view(args@),
            ret: opt_string_view(ret),
            effects: strings_view(effects@),
        },
        NodeKind::FuncBody { sig_id, ast } => SNode::Body { sig: sig_id.0, ast: ast@ },
    }
}

impl View for NodeKind {
    type V = SNode;

    open spec fn view(&self) -> SNode {
        node_view(*self)
    }
}

/// A copy of a node.
pub fn copy_node(n: &NodeKind) -> (r: NodeKind)
    ensures
        r@ == n@,
{
    match n {
        NodeKind::FuncSig { name, args, ret, effects } => NodeKind::FuncSig {
            name: name.clone(),
            args: copy_strings(args),
            ret: match ret {
                Some(s) => Some(s.clone()),
                None => None,
            },
            effects: copy_strings(effects),
        },
        NodeKind::FuncBody { sig_id, ast } => NodeKind::FuncBody {
            sig_id: *sig_id,
            ast: copy_expr(ast),
        },
    }
}

impl Clone for NodeKind {
    fn clone(&self) -> (r: Self)
        ensures
            r@ == self@,
    {
        copy_node(self)
    }
}

/// The function name of a signature node.
pub open spec fn sig_name_s(n: SNode) -> Option<Seq<char>> {
    match n {
        SNode::Sig { name, .. } => Some(name),
        _ => None,
    }
}

impl NodeKind {
    /// Returns the function name if this is a `FuncSig`.
    pub fn sig_name(&self) -> (r: Option<&str>)
        ensures
            match sig_name_s(self@) {
                Some(n) => r matches Some(s) && s@ == n,
                None => r is None,
            },
    {
        match self {
            NodeKind::FuncSig { name, .. } => Some(name.as_str()),
            _ => None,
        }
    }
}

} // verus!
