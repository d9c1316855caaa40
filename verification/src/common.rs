//! The variable resolver: substitutes `&name` references inside one
//! declaration against the scope accumulated so far.
use vstd::prelude::*;

use crate::ast::{lemma_nodes_view, node_view, Node, NodeKind, NodeV};
use crate::error::{error_context_spec, get_error_context, RCSSError};
use crate::text::{replace_token_spec, replace_token, trim, trim_leading, trim_leading_char, trim_spec};
use crate::{lookup_var, lookup_variable, MetaData, MetaV};

verus! {

/// The text of the first variable-reference child, if the declaration
/// has one.
pub open spec fn first_var_ref(children: Seq<NodeV>) -> Option<Seq<char>>
    decreases children.len(),
{
    if children.len() == 0 {
        None
    } else if children[0].kind == NodeKind::VariableReference {
        Some(children[0].text)
    } else {
        first_var_ref(children.subrange(1, children.len() as int))
    }
}

/// What resolving one declaration yields: the resolved text, or the name
/// of the variable that is not in scope.
pub open spec fn resolve_decl_spec(decl: NodeV, scope: Seq<MetaV>) -> Result<Seq<char>, Seq<char>> {
    let dv = trim_spec(decl.text);
    match first_var_ref(decl.children) {
        None => Ok(dv),
        Some(tok) => {
            if tok.len() == 0 {
                Ok(dv)
            } else {
                let name = trim_leading(tok, '&');
                match lookup_var(scope, name) {
                    Some(value) => Ok(replace_token_spec(dv, tok, value)),
                    None => Err(name),
                }
            }
        },
    }
}

proof fn lemma_first_var_ref_skip(children: Seq<NodeV>, i: int)
    requires
        0 <= i <= children.len(),
        forall|m: int| 0 <= m < i ==> (#[trigger] children[m]).kind != NodeKind::VariableReference,
    ensures
        first_var_ref(children) == first_var_ref(children.subrange(i, children.len() as int)),
    decreases i,
{
    if i == 0 {
        assert(children.subrange(0, children.len() as int) =~= children);
    } else {
        let t = children.subrange(1, children.len() as int);
        assert(forall|m: int|
            0 <= m < i - 1 ==> (#[trigger] t[m]).kind != NodeKind::VariableReference);
        lemma_first_var_ref_skip(t, i - 1);
        assert(t.subrange(i - 1, t.len() as int) =~= children.subrange(
            i,
            children.len() as int,
        ));
    }
}

/// A declaration whose reference names a variable in scope resolves to
/// its trimmed text with every occurrence of the token replaced, and the
/// variable's value stands verbatim in the result, in the token's place.
pub proof fn lemma_substituted_value_verbatim(
    decl: NodeV,
    scope: Seq<MetaV>,
    tok: Seq<char>,
    value: Seq<char>,
    i: int,
)
    requires
        first_var_ref(decl.children) == Some(tok),
        tok.len() > 0,
        lookup_var(scope, trim_leading(tok, '&')) == Some(value),
        crate::text::occurs_at(trim_spec(decl.text), tok, i),
    ensures
        resolve_decl_spec(decl, scope) == Ok::<Seq<char>, Seq<char>>(
            replace_token_spec(trim_spec(decl.text), tok, value),
        ),
        exists|k: int|
            #![trigger replace_token_spec(trim_spec(decl.text), tok, value).subrange(
                k,
                k + value.len(),
            )]
            0 <= k && k + value.len() <= replace_token_spec(trim_spec(decl.text), tok, value).len()
                && replace_token_spec(trim_spec(decl.text), tok, value).subrange(
                k,
                k + value.len(),
            ) == value,
{
    crate::text::lemma_replace_contains_value(trim_spec(decl.text), tok, value, i);
}

/// The text of the first variable-reference child of this node.
fn find_first_var_ref(node: &Node) -> (r: Option<&String>)
    ensures
        match r {
            Some(t) => first_var_ref(node@.children) == Some(t@),
            None => first_var_ref(node@.children) is None,
        },
{
    broadcast use lemma_nodes_view;

    let n = node.children.len();
    let mut i: usize = 0;
    proof {
        lemma_nodes_view(node.children@);
    }
    while i < n
        invariant
            0 <= i <= n,
            n == node.children.len(),
            node@.children.len() == n,
            forall|m: int|
                0 <= m < i ==> (#[trigger] node@.children[m]).kind
                    != NodeKind::VariableReference,
        decreases n - i,
    {
        proof {
            lemma_nodes_view(node.children@);
            assert(node@.children[i as int] == node_view(node.children@[i as int]));
        }
        if node.children[i].kind == NodeKind::VariableReference {
            proof {
                lemma_first_var_ref_skip(node@.children, i as int);
                assert(node@.children.subrange(i as int, n as int)[0] == node@.children[i as int]);
            }
            return Some(&node.children[i].text);
        }
        i = i + 1;
    }
    proof {
        lemma_first_var_ref_skip(node@.children, n as int);
        assert(node@.children.subrange(n as int, n as int) =~= Seq::<NodeV>::empty());
    }
    None
}

/// Resolves the variable reference of one declaration against the scope:
/// the first `&name` token found is looked up, and on success every
/// whole-identifier occurrence of it is replaced by the variable's value.
/// A reference whose name is not in scope is a hard error carrying the
/// exact identifier, the location, and a source snippet.
pub fn process_variable_declaration(
    declaration_node: &Node,
    meta_data: &Vec<MetaData>,
    raw_source: &str,
    input_path: &str,
) -> (r: Result<String, RCSSError>)
    requires
        declaration_node@.line + 2 <= usize::MAX,
    ensures
        match r {
            Ok(s) => resolve_decl_spec(declaration_node@, meta_data.deep_view()) == Ok::<
                Seq<char>,
                Seq<char>,
            >(s@),
            Err(e) => {
                &&& resolve_decl_spec(declaration_node@, meta_data.deep_view()) matches Err(name)
                &&& e matches RCSSError::VariableError {
                    file_path,
                    variable_name,
                    line,
                    column,
                    message,
                    context,
                }
                &&& file_path@ == input_path@
                &&& variable_name@ == name
                &&& line == declaration_node.line
                &&& column == declaration_node.column
                &&& message@ == "Could not find variable: "@ + name
                &&& context@ == error_context_spec(raw_source@, declaration_node.line as int, 2)
            },
        },
{
    let default_value = trim(declaration_node.text.as_str());
    let var_ref = match find_first_var_ref(declaration_node) {
        None => {
            return Ok(default_value);
        },
        Some(t) => t,
    };
    if var_ref.as_str().unicode_len() == 0 {
        return Ok(default_value);
    }
    let name = trim_leading_char(var_ref.as_str(), '&');
    match lookup_variable(meta_data, name.as_str()) {
        Some(value) => Ok(
            replace_token(default_value.as_str(), var_ref.as_str(), value.as_str()),
        ),
        None => {
            let context = get_error_context(raw_source, declaration_node.line, 2);
            let mut message = String::new();
            message.append("Could not find variable: ");
            message.append(name.as_str());
            Err(
                RCSSError::VariableError {
                    file_path: input_path.to_owned(),
                    variable_name: name,
                    line: declaration_node.line,
                    column: declaration_node.column,
                    message,
                    context,
                },
            )
        },
    }
}

} // verus!
