//! The variable-declaration collector: turns one declaration node into a
//! scope entry.
use vstd::prelude::*;

use crate::ast::{last_text_of_kind, Node, NodeKind, NodeV};
use crate::text::{trim_leading, trim_leading_char, trim_trailing, trim_trailing_char};
use crate::{MetaData, MetaV};

verus! {

/// The scope after one variable declaration: the literal value loses its
/// surrounding quotes, and a declaration missing its name or value is
/// ignored.
pub open spec fn var_decl_spec(node: NodeV, scope: Seq<MetaV>) -> Seq<MetaV> {
    let name = last_text_of_kind(node.children, NodeKind::VariableName);
    let value = last_text_of_kind(node.children, NodeKind::StringLiteral);
    if name.len() == 0 || value.len() == 0 {
        scope
    } else {
        scope.push(
            MetaV::Variables {
                name,
                value: trim_leading(trim_trailing(value, '"'), '"'),
            },
        )
    }
}

/// Harvests one variable declaration into the scope.
pub fn process_variable_declaration(meta_data: Vec<MetaData>, node: &Node) -> (r: Vec<MetaData>)
    ensures
        r.deep_view() == var_decl_spec(node@, meta_data.deep_view()),
{
    let ghost scope0 = meta_data.deep_view();
    let name = match node.last_text_of(NodeKind::VariableName) {
        Some(t) => t,
        None => {
            return meta_data;
        },
    };
    let value = match node.last_text_of(NodeKind::StringLiteral) {
        Some(t) => t,
        None => {
            return meta_data;
        },
    };
    if name.as_str().unicode_len() == 0 || value.as_str().unicode_len() == 0 {
        return meta_data;
    }
    let unquoted = trim_leading_char(trim_trailing_char(value.as_str(), '"').as_str(), '"');
    let entry = MetaData::Variables { name: name.clone(), value: unquoted };
    let mut out = meta_data;
    proof {
        assert(out.deep_view().len() == scope0.len());
    }
    out.push(entry);
    proof {
        assert(out.deep_view() =~= scope0.push(entry.deep_view()));
    }
    out
}

} // verus!
