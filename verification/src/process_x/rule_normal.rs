//! The selector engine: walks one rule's flat event stream, maintaining
//! the selector nesting stack, and accumulates resolved declarations
//! under flattened selector keys.
use vstd::prelude::*;

use crate::ast::{last_text_of_kind, lemma_nodes_view, node_lines_ok, node_view, Node, NodeKind,
    NodeV};
use crate::common::{process_variable_declaration, resolve_decl_spec};
use crate::error::{error_context_spec, get_error_context, RCSSError};
use crate::maps::{assoc_append, assoc_wf, StrMap};
use crate::text::{join_sep, lemma_join_sep_snoc, starts_with, starts_with_spec, trim,
    trim_leading, trim_leading_char, trim_spec};
use crate::{lookup_fn, lookup_function, MetaData, MetaV};

verus! {

/// One frame of the selector stack: the selector text as currently
/// flattened, and the texts it had before each pseudo-suffix was merged
/// onto it, newest last. A close restores the newest saved text; only a
/// frame with nothing saved is popped.
#[derive(Debug)]
pub struct SelFrame {
    pub text: String,
    pub saved: Vec<String>,
}

impl DeepView for SelFrame {
    type V = (Seq<char>, Seq<Seq<char>>);

    open spec fn deep_view(&self) -> (Seq<char>, Seq<Seq<char>>) {
        (self.text@, self.saved.deep_view())
    }
}

/// The selector engine's state: the nesting stack and the accumulated
/// declaration map.
pub struct RuleStateV {
    pub stack: Seq<(Seq<char>, Seq<Seq<char>>)>,
    pub decls: Seq<(Seq<char>, Seq<Seq<char>>)>,
}

/// What stops a rule walk: an unresolved variable or an unknown function,
/// with its name and location.
pub enum RuleErr {
    Var { name: Seq<char>, line: int, column: int },
    Fn { name: Seq<char>, line: int, column: int },
}

/// The texts of the stack frames, bottom first.
pub open spec fn frame_texts(stack: Seq<(Seq<char>, Seq<Seq<char>>)>) -> Seq<Seq<char>> {
    Seq::new(stack.len(), |i: int| stack[i].0)
}

/// The flattened selector key for the current stack: the frame texts
/// joined with single spaces, trimmed.
pub open spec fn sel_key(stack: Seq<(Seq<char>, Seq<Seq<char>>)>) -> Seq<char> {
    trim_spec(join_sep(frame_texts(stack), ' '))
}

/// One step of the selector engine per child node, from child `i` on.
///
/// A selector starting with the parent-reference marker and a colon is
/// merged onto the top frame without a space; any other selector pushes a
/// new frame. A closing brace strips the newest merged suffix if one is
/// present, and pops the frame otherwise. A declaration is resolved and
/// appended under the current key; a function call appends the called
/// function's captured body verbatim.
pub open spec fn rule_step(
    children: Seq<NodeV>,
    scope: Seq<MetaV>,
    i: int,
    st: RuleStateV,
) -> Result<RuleStateV, RuleErr>
    decreases children.len() - i,
{
    if i < 0 || i >= children.len() {
        Ok(st)
    } else {
        let c = children[i];
        if c.kind == NodeKind::Selector {
            let t = trim_spec(c.text);
            if starts_with_spec(t, "&:"@) && st.stack.len() > 0 {
                let top = st.stack[st.stack.len() - 1];
                let merged = (top.0 + trim_leading(t, '&'), top.1.push(top.0));
                rule_step(
                    children,
                    scope,
                    i + 1,
                    RuleStateV { stack: st.stack.update(st.stack.len() - 1, merged), ..st },
                )
            } else if starts_with_spec(t, "&:"@) {
                rule_step(
                    children,
                    scope,
                    i + 1,
                    RuleStateV {
                        stack: st.stack.push((trim_leading(t, '&'), Seq::empty())),
                        ..st
                    },
                )
            } else {
                rule_step(
                    children,
                    scope,
                    i + 1,
                    RuleStateV { stack: st.stack.push((t, Seq::empty())), ..st },
                )
            }
        } else if c.kind == NodeKind::RightCurlyBrace {
            if st.stack.len() > 0 {
                let top = st.stack[st.stack.len() - 1];
                if top.1.len() > 0 {
                    let restored = (top.1[top.1.len() - 1], top.1.subrange(0, top.1.len() - 1));
                    rule_step(
                        children,
                        scope,
                        i + 1,
                        RuleStateV { stack: st.stack.update(st.stack.len() - 1, restored), ..st },
                    )
                } else {
                    rule_step(
                        children,
                        scope,
                        i + 1,
                        RuleStateV { stack: st.stack.subrange(0, st.stack.len() - 1), ..st },
                    )
                }
            } else {
                rule_step(children, scope, i + 1, st)
            }
        } else if c.kind == NodeKind::Declaration {
            match resolve_decl_spec(c, scope) {
                Ok(line) => rule_step(
                    children,
                    scope,
                    i + 1,
                    RuleStateV {
                        decls: assoc_append(st.decls, sel_key(st.stack), seq![line]),
                        ..st
                    },
                ),
                Err(name) => Err(RuleErr::Var { name, line: c.line, column: c.column }),
            }
        } else if c.kind == NodeKind::UserCreatedFunctionCall {
            let fname = trim_spec(last_text_of_kind(c.children, NodeKind::FunctionName));
            match lookup_fn(scope, fname) {
                Some(body) => rule_step(
                    children,
                    scope,
                    i + 1,
                    RuleStateV { decls: assoc_append(st.decls, sel_key(st.stack), body), ..st },
                ),
                None => Err(RuleErr::Fn { name: fname, line: c.line, column: c.column }),
            }
        } else {
            rule_step(children, scope, i + 1, st)
        }
    }
}

/// The executable error that reports a walk failure `re` found in file
/// `input_path` with source text `src`: the matching taxonomy variant,
/// carrying the name, the location, and the rendered snippet.
pub open spec fn rule_err_matches(
    e: RCSSError,
    re: RuleErr,
    input_path: Seq<char>,
    src: Seq<char>,
) -> bool {
    match re {
        RuleErr::Var { name, line: l, column: c } => {
            &&& e matches RCSSError::VariableError {
                file_path,
                variable_name,
                line,
                column,
                message,
                context,
            }
            &&& file_path@ == input_path
            &&& variable_name@ == name
            &&& line as int == l
            &&& column as int == c
            &&& message@ == "Could not find variable: "@ + name
            &&& context@ == error_context_spec(src, l, 2)
        },
        RuleErr::Fn { name, line: l, column: c } => {
            &&& e matches RCSSError::FunctionError {
                file_path,
                line,
                column,
                function_name,
                message,
                context,
            }
            &&& file_path@ == input_path
            &&& function_name@ == name
            &&& line as int == l
            &&& column as int == c
            &&& message@ == "Function not declared in scope"@
            &&& context@ == error_context_spec(src, l, 2)
        },
    }
}

/// The whole walk of one rule node, from an empty stack.
pub open spec fn process_rule_spec(
    node: NodeV,
    scope: Seq<MetaV>,
    decls: Seq<(Seq<char>, Seq<Seq<char>>)>,
) -> Result<Seq<(Seq<char>, Seq<Seq<char>>)>, RuleErr> {
    match rule_step(node.children, scope, 0, RuleStateV { stack: Seq::empty(), decls }) {
        Ok(st) => Ok(st.decls),
        Err(e) => Err(e),
    }
}

/// Macro expansion is capture-by-value and context-independent: the same
/// call, made under the same scope from two different selector contexts,
/// appends the one captured body to each context's own key; and a
/// redefinition of the macro pushed onto the scope afterwards changes
/// only lookups made under the extended scope, never lines already
/// appended.
pub proof fn lemma_macro_expansion(
    c: NodeV,
    scope: Seq<MetaV>,
    st1: RuleStateV,
    st2: RuleStateV,
    body: Seq<Seq<char>>,
    newbody: Seq<Seq<char>>,
)
    requires
        c.kind == NodeKind::UserCreatedFunctionCall,
        lookup_fn(
            scope,
            crate::text::trim_spec(last_text_of_kind(c.children, NodeKind::FunctionName)),
        ) == Some(body),
    ensures
        rule_step(seq![c], scope, 0, st1) == Ok::<RuleStateV, RuleErr>(
            RuleStateV { decls: assoc_append(st1.decls, sel_key(st1.stack), body), ..st1 },
        ),
        rule_step(seq![c], scope, 0, st2) == Ok::<RuleStateV, RuleErr>(
            RuleStateV { decls: assoc_append(st2.decls, sel_key(st2.stack), body), ..st2 },
        ),
        lookup_fn(
            scope.push(
                MetaV::Function {
                    name: crate::text::trim_spec(
                        last_text_of_kind(c.children, NodeKind::FunctionName),
                    ),
                    body: newbody,
                },
            ),
            crate::text::trim_spec(last_text_of_kind(c.children, NodeKind::FunctionName)),
        ) == Some(newbody),
{
    let cs = seq![c];
    let fname = crate::text::trim_spec(last_text_of_kind(c.children, NodeKind::FunctionName));
    assert(cs[0] == c);
    assert(rule_step(cs, scope, 1, RuleStateV {
        decls: assoc_append(st1.decls, sel_key(st1.stack), body),
        ..st1
    }) == Ok::<RuleStateV, RuleErr>(RuleStateV {
        decls: assoc_append(st1.decls, sel_key(st1.stack), body),
        ..st1
    }));
    assert(rule_step(cs, scope, 1, RuleStateV {
        decls: assoc_append(st2.decls, sel_key(st2.stack), body),
        ..st2
    }) == Ok::<RuleStateV, RuleErr>(RuleStateV {
        decls: assoc_append(st2.decls, sel_key(st2.stack), body),
        ..st2
    }));
    let ext = scope.push(MetaV::Function { name: fname, body: newbody });
    assert(ext[ext.len() - 1] == MetaV::Function { name: fname, body: newbody });
}

/// The flattened selector key for the current exec stack.
fn selector_key(stack: &Vec<SelFrame>) -> (r: String)
    ensures
        r@ == sel_key(stack.deep_view()),
{
    let mut joined = String::new();
    let n = stack.len();
    let mut i: usize = 0;
    proof {
        assert(frame_texts(stack.deep_view().subrange(0, 0)) =~= Seq::<Seq<char>>::empty());
    }
    while i < n
        invariant
            0 <= i <= n,
            n == stack.len(),
            stack.deep_view().len() == n,
            joined@ == join_sep(frame_texts(stack.deep_view().subrange(0, i as int)), ' '),
        decreases n - i,
    {
        if i > 0 {
            joined.append(" ");
        }
        joined.append(stack[i].text.as_str());
        proof {
            reveal_strlit(" ");
            let pre = frame_texts(stack.deep_view().subrange(0, i as int));
            let cur = frame_texts(stack.deep_view().subrange(0, i + 1));
            assert(cur =~= pre.push(stack.deep_view()[i as int].0));
            lemma_join_sep_snoc(pre, stack.deep_view()[i as int].0, ' ');
            if i > 0 {
                assert(" "@ =~= seq![' ']);
                assert(joined@ =~= join_sep(cur, ' '));
            } else {
                assert(pre.len() == 0);
                assert(joined@ =~= join_sep(cur, ' '));
            }
        }
        i = i + 1;
    }
    proof {
        assert(stack.deep_view().subrange(0, n as int) =~= stack.deep_view());
    }
    trim(joined.as_str())
}

/// Walks one rule's event stream: selectors nest or merge, closing braces
/// unwind, declarations and function calls land under the flattened key.
/// Fails exactly where a declaration references an unknown variable or a
/// call names an unknown function.
pub fn process_rule_normal(
    meta_data: &Vec<MetaData>,
    declarations: StrMap,
    node: &Node,
    raw_source: &str,
    input_path: &str,
) -> (r: Result<StrMap, RCSSError>)
    requires
        node_lines_ok(node@),
        declarations.wf(),
    ensures
        match r {
            Ok(m) => process_rule_spec(node@, meta_data.deep_view(), declarations.view_spec())
                == Ok::<Seq<(Seq<char>, Seq<Seq<char>>)>, RuleErr>(m.view_spec()) && m.wf(),
            Err(e) => {
                &&& process_rule_spec(node@, meta_data.deep_view(), declarations.view_spec())
                    matches Err(re)
                &&& rule_err_matches(e, re, input_path@, raw_source@)
            },
        },
{
    let ghost scope = meta_data.deep_view();
    let ghost cs = node@.children;
    proof {
        lemma_nodes_view(node.children@);
    }
    let mut stack: Vec<SelFrame> = Vec::new();
    let mut decls = declarations;
    let n = node.children.len();
    let mut i: usize = 0;
    proof {
        assert(stack.deep_view() =~= Seq::<(Seq<char>, Seq<Seq<char>>)>::empty());
    }
    while i < n
        invariant
            0 <= i <= n,
            n == node.children.len(),
            cs == node@.children,
            cs.len() == n,
            node_lines_ok(node@),
            scope == meta_data.deep_view(),
            decls.wf(),
            rule_step(
                cs,
                scope,
                0,
                RuleStateV { stack: Seq::empty(), decls: declarations.view_spec() },
            ) == rule_step(
                cs,
                scope,
                i as int,
                RuleStateV { stack: stack.deep_view(), decls: decls.view_spec() },
            ),
        decreases n - i,
    {
        proof {
            lemma_nodes_view(node.children@);
            assert(cs[i as int] == node_view(node.children@[i as int]));
            assert(node_lines_ok(cs[i as int]));
        }
        let child = &node.children[i];
        let ghost st_cur = RuleStateV { stack: stack.deep_view(), decls: decls.view_spec() };
        if child.kind == NodeKind::Selector {
            let t = trim(child.text.as_str());
            if starts_with(t.as_str(), "&:") && stack.len() > 0 {
                let ghost stack0 = stack.deep_view();
                proof {
                    assert(stack.deep_view().len() == stack@.len());
                }
                let top = stack.pop().unwrap();
                proof {
                    assert(top.deep_view() == stack0[stack0.len() - 1]);
                    assert(stack.deep_view().len() == stack0.len() - 1);
                    assert(forall|m: int|
                        0 <= m < stack0.len() - 1 ==> #[trigger] stack.deep_view()[m]
                            == stack0[m]);
                }
                let SelFrame { text: old_text, saved: mut saved } = top;
                let suffix = trim_leading_char(t.as_str(), '&');
                let mut merged = old_text.clone();
                merged.append(suffix.as_str());
                let ghost saved0 = saved.deep_view();
                proof {
                    assert(saved.deep_view().len() == saved@.len());
                }
                saved.push(old_text);
                proof {
                    assert(saved@.len() == saved0.len() + 1);
                    assert(saved.deep_view() =~= saved0.push(stack0[stack0.len() - 1].0));
                }
                let frame = SelFrame { text: merged, saved };
                stack.push(frame);
                proof {
                    let topv = stack0[stack0.len() - 1];
                    let mergedv = (topv.0 + trim_leading(t@, '&'), topv.1.push(topv.0));
                    assert(stack.deep_view() =~= stack0.update(stack0.len() - 1, mergedv));
                    assert(RuleStateV { stack: stack.deep_view(), decls: decls.view_spec() }
                        == RuleStateV { stack: stack0.update(stack0.len() - 1, mergedv), ..st_cur });
                }
            } else if starts_with(t.as_str(), "&:") {
                let frame = SelFrame { text: trim_leading_char(t.as_str(), '&'), saved: Vec::new() };
                proof {
                    assert(stack.deep_view().len() == stack@.len());
                }
                stack.push(frame);
                proof {
                    assert(frame.saved.deep_view() =~= Seq::<Seq<char>>::empty());
                    assert(stack.deep_view() =~= st_cur.stack.push(
                        (trim_leading(t@, '&'), Seq::<Seq<char>>::empty()),
                    ));
                }
            } else {
                proof {
                    assert(stack.deep_view().len() == stack@.len());
                }
                let ghost tv = t@;
                let frame = SelFrame { text: t, saved: Vec::new() };
                stack.push(frame);
                proof {
                    assert(frame.saved.deep_view() =~= Seq::<Seq<char>>::empty());
                    assert(stack.deep_view() =~= st_cur.stack.push(
                        (tv, Seq::<Seq<char>>::empty()),
                    ));
                }
            }
        } else if child.kind == NodeKind::RightCurlyBrace {
            if stack.len() > 0 {
                let ghost stack0 = stack.deep_view();
                proof {
                    assert(stack.deep_view().len() == stack@.len());
                }
                let top = stack.pop().unwrap();
                proof {
                    assert(top.deep_view() == stack0[stack0.len() - 1]);
                    assert(stack.deep_view().len() == stack0.len() - 1);
                    assert(forall|m: int|
                        0 <= m < stack0.len() - 1 ==> #[trigger] stack.deep_view()[m]
                            == stack0[m]);
                }
                if top.saved.len() > 0 {
                    let SelFrame { text: _dropped, saved: mut saved } = top;
                    let ghost saved0 = saved.deep_view();
                    proof {
                        assert(saved.deep_view().len() == saved@.len());
                    }
                    let restored_text = saved.pop().unwrap();
                    proof {
                        assert(restored_text@ == saved0[saved0.len() - 1]);
                        assert(saved.deep_view() =~= saved0.subrange(0, saved0.len() - 1));
                    }
                    let frame = SelFrame { text: restored_text, saved };
                    stack.push(frame);
                    proof {
                        let topv = stack0[stack0.len() - 1];
                        let restoredv = (topv.1[topv.1.len() - 1], topv.1.subrange(
                            0,
                            topv.1.len() - 1,
                        ));
                        assert(stack.deep_view() =~= stack0.update(stack0.len() - 1, restoredv));
                    }
                } else {
                    proof {
                        assert(stack0[stack0.len() - 1].1.len() == 0);
                        assert(stack.deep_view() =~= stack0.subrange(0, stack0.len() - 1));
                    }
                }
            }
        } else if child.kind == NodeKind::Declaration {
            match process_variable_declaration(child, meta_data, raw_source, input_path) {
                Ok(line) => {
                    let key = selector_key(&stack);
                    decls.push_value(key.as_str(), line);
                },
                Err(e) => {
                    proof {
                        assert(resolve_decl_spec(cs[i as int], scope) matches Err(_));
                        assert(rule_step(cs, scope, i as int, st_cur) matches Err(_));
                    }
                    return Err(e);
                },
            }
        } else if child.kind == NodeKind::UserCreatedFunctionCall {
            let fname = match child.last_text_of(NodeKind::FunctionName) {
                Some(t) => trim(t.as_str()),
                None => {
                    proof {
                        assert(trim_spec(Seq::<char>::empty()) == Seq::<char>::empty());
                    }
                    String::new()
                },
            };
            match lookup_function(meta_data, fname.as_str()) {
                Some(body) => {
                    let key = selector_key(&stack);
                    decls.append_values(key.as_str(), body);
                },
                None => {
                    let context = get_error_context(raw_source, child.line, 2);
                    let mut message = String::new();
                    message.append("Function not declared in scope");
                    proof {
                        reveal_strlit("Function not declared in scope");
                        assert(message@ =~= "Function not declared in scope"@);
                        assert(lookup_fn(scope, fname@) is None);
                        assert(rule_step(cs, scope, i as int, st_cur) matches Err(_));
                    }
                    return Err(
                        RCSSError::FunctionError {
                            file_path: input_path.to_owned(),
                            line: child.line,
                            column: child.column,
                            function_name: fname,
                            message,
                            context,
                        },
                    );
                },
            }
        }
        proof {
            assert(rule_step(cs, scope, i as int, st_cur) == rule_step(
                cs,
                scope,
                i + 1,
                RuleStateV { stack: stack.deep_view(), decls: decls.view_spec() },
            ));
        }
        i = i + 1;
    }
    proof {
        assert(rule_step(
            cs,
            scope,
            n as int,
            RuleStateV { stack: stack.deep_view(), decls: decls.view_spec() },
        ) == Ok::<RuleStateV, RuleErr>(
            RuleStateV { stack: stack.deep_view(), decls: decls.view_spec() },
        ));
    }
    Ok(decls)
}

} // verus!
