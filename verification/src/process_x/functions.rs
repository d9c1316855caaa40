//! The macro resolver: captures a reusable declaration block, resolving
//! each body line against the scope visible at the point of definition.
use vstd::prelude::*;

use crate::ast::{last_text_of_kind, lemma_nodes_view, node_lines_ok, node_view, Node, NodeKind,
    NodeV};
use crate::common::{process_variable_declaration, resolve_decl_spec};
use crate::error::{error_context_spec, RCSSError};
use crate::text::trim_spec;
use crate::{MetaData, MetaV};

verus! {

/// The body lines gathered from one function block, from child `i` on:
/// each declaration is resolved against the scope at definition time, and
/// the first unresolved reference aborts with its name and location.
pub open spec fn fn_block_decls(
    children: Seq<NodeV>,
    scope: Seq<MetaV>,
    i: int,
    acc: Seq<Seq<char>>,
) -> Result<Seq<Seq<char>>, (Seq<char>, int, int)>
    decreases children.len() - i,
{
    if i < 0 || i >= children.len() {
        Ok(acc)
    } else {
        let c = children[i];
        if c.kind == NodeKind::Declaration {
            match resolve_decl_spec(c, scope) {
                Ok(line) => fn_block_decls(children, scope, i + 1, acc.push(line)),
                Err(name) => Err((name, c.line, c.column)),
            }
        } else {
            fn_block_decls(children, scope, i + 1, acc)
        }
    }
}

/// The body lines gathered from every function block among the node's
/// children, from child `i` on.
pub open spec fn fn_def_decls(
    children: Seq<NodeV>,
    scope: Seq<MetaV>,
    i: int,
    acc: Seq<Seq<char>>,
) -> Result<Seq<Seq<char>>, (Seq<char>, int, int)>
    decreases children.len() - i,
{
    if i < 0 || i >= children.len() {
        Ok(acc)
    } else {
        let c = children[i];
        if c.kind == NodeKind::FunctionBlock {
            match fn_block_decls(c.children, scope, 0, acc) {
                Ok(acc2) => fn_def_decls(children, scope, i + 1, acc2),
                Err(e) => Err(e),
            }
        } else {
            fn_def_decls(children, scope, i + 1, acc)
        }
    }
}

/// The scope after one function definition: the captured, pre-resolved
/// body is appended under the function's name; or the unresolved variable
/// reference that aborted the capture.
pub open spec fn process_fn_def_spec(node: NodeV, scope: Seq<MetaV>) -> Result<
    Seq<MetaV>,
    (Seq<char>, int, int),
> {
    let name = trim_spec(last_text_of_kind(node.children, NodeKind::FunctionName));
    match fn_def_decls(node.children, scope, 0, Seq::empty()) {
        Ok(body) => Ok(scope.push(MetaV::Function { name, body })),
        Err(e) => Err(e),
    }
}

/// Captures a function definition into the scope. Declarations inside the
/// body are resolved now, against the scope accumulated up to this point
/// in the file, so later edits to the scope never change this body.
#[allow(unused_variables)]
pub fn process_function_definition(
    meta_data: Vec<MetaData>,
    node: &Node,
    raw_source: &str,
    input_path: &str,
    initial_compile: bool,
) -> (r: Result<Vec<MetaData>, RCSSError>)
    requires
        node_lines_ok(node@),
    ensures
        match r {
            Ok(v) => process_fn_def_spec(node@, meta_data.deep_view()) == Ok::<
                Seq<MetaV>,
                (Seq<char>, int, int),
            >(v.deep_view()),
            Err(e) => {
                &&& process_fn_def_spec(node@, meta_data.deep_view()) matches Err((name, l, c))
                &&& e matches RCSSError::VariableError {
                    file_path,
                    variable_name,
                    line,
                    column,
                    message,
                    context,
                }
                &&& file_path@ == input_path@
                &&& variable_name@ == name
                &&& line as int == l
                &&& column as int == c
                &&& message@ == "Could not find variable: "@ + name
                &&& context@ == error_context_spec(raw_source@, l, 2)
            },
        },
{
    let ghost scope = meta_data.deep_view();
    let ghost cs = node@.children;
    proof {
        lemma_nodes_view(node.children@);
    }
    let name = match node.last_text_of(NodeKind::FunctionName) {
        Some(t) => crate::text::trim(t.as_str()),
        None => {
            proof {
                assert(trim_spec(Seq::<char>::empty()) == Seq::<char>::empty());
            }
            String::new()
        },
    };
    let mut body: Vec<String> = Vec::new();
    let n = node.children.len();
    let mut i: usize = 0;
    proof {
        assert(body.deep_view() =~= Seq::<Seq<char>>::empty());
    }
    while i < n
        invariant
            0 <= i <= n,
            n == node.children.len(),
            cs == node@.children,
            cs.len() == n,
            node_lines_ok(node@),
            scope == meta_data.deep_view(),
            fn_def_decls(cs, scope, 0, Seq::empty()) == fn_def_decls(
                cs,
                scope,
                i as int,
                body.deep_view(),
            ),
        decreases n - i,
    {
        proof {
            lemma_nodes_view(node.children@);
            assert(cs[i as int] == node_view(node.children@[i as int]));
        }
        if node.children[i].kind == NodeKind::FunctionBlock {
            let block = &node.children[i];
            let ghost acc_enter = body.deep_view();
            let bn = block.children.len();
            let mut j: usize = 0;
            proof {
                lemma_nodes_view(block.children@);
                assert(node_lines_ok(cs[i as int]));
            }
            while j < bn
                invariant
                    0 <= j <= bn,
                    bn == block.children.len(),
                    cs == node@.children,
                    0 <= i < cs.len(),
                    cs[i as int] == block@,
                    block@.children.len() == bn,
                    node_lines_ok(block@),
                    scope == meta_data.deep_view(),
                    fn_def_decls(cs, scope, 0, Seq::empty()) == (match fn_block_decls(
                        block@.children,
                        scope,
                        j as int,
                        body.deep_view(),
                    ) {
                        Ok(a2) => fn_def_decls(cs, scope, i + 1, a2),
                        Err(e) => Err(e),
                    }),
                decreases bn - j,
            {
                proof {
                    lemma_nodes_view(block.children@);
                    assert(block@.children[j as int] == node_view(block.children@[j as int]));
                    assert(node_lines_ok(block@.children[j as int]));
                }
                if block.children[j].kind == NodeKind::Declaration {
                    let decl = &block.children[j];
                    match process_variable_declaration(decl, &meta_data, raw_source, input_path) {
                        Ok(line) => {
                            let ghost b0 = body.deep_view();
                            proof {
                                assert(body.deep_view().len() == body@.len());
                            }
                            body.push(line);
                            proof {
                                assert(body.deep_view() =~= b0.push(line@));
                            }
                        },
                        Err(e) => {
                            proof {
                                assert(resolve_decl_spec(block@.children[j as int], scope)
                                    matches Err(_));
                                assert(fn_block_decls(
                                    block@.children,
                                    scope,
                                    j as int,
                                    body.deep_view(),
                                ) matches Err(_));
                            }
                            return Err(e);
                        },
                    }
                }
                j = j + 1;
            }
            proof {
                assert(fn_block_decls(block@.children, scope, bn as int, body.deep_view())
                    == Ok::<Seq<Seq<char>>, (Seq<char>, int, int)>(body.deep_view()));
            }
        }
        i = i + 1;
    }
    let mut out = meta_data;
    let ghost body_final = body.deep_view();
    let entry = MetaData::Function { name, body };
    proof {
        assert(out.deep_view().len() == scope.len());
    }
    out.push(entry);
    proof {
        assert(out.deep_view() =~= scope.push(entry.deep_view()));
        assert(fn_def_decls(cs, scope, n as int, body_final) == Ok::<
            Seq<Seq<char>>,
            (Seq<char>, int, int),
        >(body_final));
    }
    Ok(out)
}

} // verus!
