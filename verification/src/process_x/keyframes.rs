//! The keyframe processor: collects one `@keyframes` table, resolving
//! each frame's declarations against the current scope.
use vstd::prelude::*;

use crate::ast::{last_text_of_kind, lemma_nodes_view, node_lines_ok, node_view, Node, NodeKind,
    NodeV};
use crate::common::{process_variable_declaration, resolve_decl_spec};
use crate::error::{error_context_spec, RCSSError};
use crate::maps::{assoc_append, assoc_set, NestedMap, StrMap};
use crate::{MetaData, MetaV};

verus! {

/// One keyframe block's walk from child `j` on: a frame selector opens a
/// frame, declarations land under the open frame, a closing brace shuts
/// it. Yields the frame selector still open and the frame map.
pub open spec fn kf_block_step(
    children: Seq<NodeV>,
    scope: Seq<MetaV>,
    j: int,
    cur: Seq<char>,
    frames: Seq<(Seq<char>, Seq<Seq<char>>)>,
) -> Result<(Seq<char>, Seq<(Seq<char>, Seq<Seq<char>>)>), (Seq<char>, int, int)>
    decreases children.len() - j,
{
    if j < 0 || j >= children.len() {
        Ok((cur, frames))
    } else {
        let c = children[j];
        if c.kind == NodeKind::KeyframeSelector {
            kf_block_step(children, scope, j + 1, c.text, frames)
        } else if c.kind == NodeKind::Declaration {
            if cur.len() > 0 {
                match resolve_decl_spec(c, scope) {
                    Ok(line) => kf_block_step(
                        children,
                        scope,
                        j + 1,
                        cur,
                        assoc_append(frames, cur, seq![line]),
                    ),
                    Err(name) => Err((name, c.line, c.column)),
                }
            } else {
                kf_block_step(children, scope, j + 1, cur, frames)
            }
        } else if c.kind == NodeKind::RightCurlyBrace {
            kf_block_step(children, scope, j + 1, Seq::empty(), frames)
        } else {
            kf_block_step(children, scope, j + 1, cur, frames)
        }
    }
}

/// The walk over the keyframes rule's children from child `i` on,
/// entering each selector block.
pub open spec fn kf_def_step(
    children: Seq<NodeV>,
    scope: Seq<MetaV>,
    i: int,
    cur: Seq<char>,
    frames: Seq<(Seq<char>, Seq<Seq<char>>)>,
) -> Result<(Seq<char>, Seq<(Seq<char>, Seq<Seq<char>>)>), (Seq<char>, int, int)>
    decreases children.len() - i,
{
    if i < 0 || i >= children.len() {
        Ok((cur, frames))
    } else {
        let c = children[i];
        if c.kind == NodeKind::KeyframeSelectorBlock {
            match kf_block_step(c.children, scope, 0, cur, frames) {
                Ok((cur2, frames2)) => kf_def_step(children, scope, i + 1, cur2, frames2),
                Err(e) => Err(e),
            }
        } else {
            kf_def_step(children, scope, i + 1, cur, frames)
        }
    }
}

/// The keyframe map after one `@keyframes` rule: its frame table is
/// stored under the key `@keyframes <name>`, replacing any earlier table
/// with that name.
pub open spec fn process_keyframes_spec(
    node: NodeV,
    scope: Seq<MetaV>,
    keyframes: Seq<(Seq<char>, Seq<(Seq<char>, Seq<Seq<char>>)>)>,
) -> Result<Seq<(Seq<char>, Seq<(Seq<char>, Seq<Seq<char>>)>)>, (Seq<char>, int, int)> {
    let name = last_text_of_kind(node.children, NodeKind::KeyframesName);
    match kf_def_step(node.children, scope, 0, Seq::empty(), Seq::empty()) {
        Ok((cur, frames)) => Ok(assoc_set(keyframes, "@keyframes "@ + name, frames)),
        Err(e) => Err(e),
    }
}

/// Collects one `@keyframes` rule into the keyframe map. Declarations
/// inside each frame are resolved against the current scope; a reference
/// to an unknown variable aborts with that identifier.
pub fn process_keyframes_definition(
    keyframes: NestedMap,
    node: &Node,
    meta_data: &Vec<MetaData>,
    raw_source: &str,
    input_path: &str,
) -> (r: Result<NestedMap, RCSSError>)
    requires
        node_lines_ok(node@),
        keyframes.wf(),
    ensures
        match r {
            Ok(m) => process_keyframes_spec(node@, meta_data.deep_view(), keyframes.view_spec())
                == Ok::<Seq<(Seq<char>, Seq<(Seq<char>, Seq<Seq<char>>)>)>, (Seq<char>, int, int)>(
                m.view_spec(),
            ) && m.wf(),
            Err(e) => {
                &&& process_keyframes_spec(node@, meta_data.deep_view(), keyframes.view_spec())
                    matches Err((name, l, c))
                &&& e matches RCSSError::VariableError {
                    file_path,
                    variable_name,
                    line,
                    column,
                    message,
                    context,
                }
                &&& file_path@ == input_path@
                &&& variable_name@ == name
                &&& line as int == l
                &&& column as int == c
                &&& message@ == "Could not find variable: "@ + name
                &&& context@ == error_context_spec(raw_source@, l, 2)
            },
        },
{
    let ghost scope = meta_data.deep_view();
    let ghost cs = node@.children;
    proof {
        lemma_nodes_view(node.children@);
    }
    let name = match node.last_text_of(NodeKind::KeyframesName) {
        Some(t) => t.clone(),
        None => String::new(),
    };
    let mut current_selector = String::new();
    let mut frames = StrMap::new();
    let n = node.children.len();
    let mut i: usize = 0;
    proof {
        assert(frames.view_spec() =~= Seq::<(Seq<char>, Seq<Seq<char>>)>::empty());
    }
    while i < n
        invariant
            0 <= i <= n,
            n == node.children.len(),
            cs == node@.children,
            cs.len() == n,
            node_lines_ok(node@),
            scope == meta_data.deep_view(),
            frames.wf(),
            kf_def_step(cs, scope, 0, Seq::empty(), Seq::empty()) == kf_def_step(
                cs,
                scope,
                i as int,
                current_selector@,
                frames.view_spec(),
            ),
        decreases n - i,
    {
        proof {
            lemma_nodes_view(node.children@);
            assert(cs[i as int] == node_view(node.children@[i as int]));
            assert(node_lines_ok(cs[i as int]));
        }
        if node.children[i].kind == NodeKind::KeyframeSelectorBlock {
            let block = &node.children[i];
            let bn = block.children.len();
            let mut j: usize = 0;
            proof {
                lemma_nodes_view(block.children@);
            }
            while j < bn
                invariant
                    0 <= j <= bn,
                    bn == block.children.len(),
                    cs == node@.children,
                    0 <= i < cs.len(),
                    cs[i as int] == block@,
                    block@.children.len() == bn,
                    node_lines_ok(block@),
                    scope == meta_data.deep_view(),
                    frames.wf(),
                    kf_def_step(cs, scope, 0, Seq::empty(), Seq::empty()) == (match kf_block_step(
                        block@.children,
                        scope,
                        j as int,
                        current_selector@,
                        frames.view_spec(),
                    ) {
                        Ok((cur2, frames2)) => kf_def_step(cs, scope, i + 1, cur2, frames2),
                        Err(e) => Err(e),
                    }),
                decreases bn - j,
            {
                proof {
                    lemma_nodes_view(block.children@);
                    assert(block@.children[j as int] == node_view(block.children@[j as int]));
                    assert(node_lines_ok(block@.children[j as int]));
                }
                let bchild = &block.children[j];
                if bchild.kind == NodeKind::KeyframeSelector {
                    current_selector = bchild.text.clone();
                } else if bchild.kind == NodeKind::Declaration {
                    if current_selector.as_str().unicode_len() > 0 {
                        match process_variable_declaration(
                            bchild,
                            meta_data,
                            raw_source,
                            input_path,
                        ) {
                            Ok(line) => {
                                frames.push_value(current_selector.as_str(), line);
                            },
                            Err(e) => {
                                proof {
                                    assert(resolve_decl_spec(block@.children[j as int], scope)
                                        matches Err(_));
                                    assert(kf_block_step(
                                        block@.children,
                                        scope,
                                        j as int,
                                        current_selector@,
                                        frames.view_spec(),
                                    ) matches Err(_));
                                }
                                return Err(e);
                            },
                        }
                    }
                } else if bchild.kind == NodeKind::RightCurlyBrace {
                    current_selector = String::new();
                }
                j = j + 1;
            }
            proof {
                assert(kf_block_step(
                    block@.children,
                    scope,
                    bn as int,
                    current_selector@,
                    frames.view_spec(),
                ) == Ok::<(Seq<char>, Seq<(Seq<char>, Seq<Seq<char>>)>), (Seq<char>, int, int)>(
                    (current_selector@, frames.view_spec()),
                ));
            }
        }
        i = i + 1;
    }
    proof {
        assert(kf_def_step(cs, scope, n as int, current_selector@, frames.view_spec()) == Ok::<
            (Seq<char>, Seq<(Seq<char>, Seq<Seq<char>>)>),
            (Seq<char>, int, int),
        >((current_selector@, frames.view_spec())));
    }
    let mut key = String::new();
    key.append("@keyframes ");
    key.append(name.as_str());
    proof {
        assert(key@ =~= "@keyframes "@ + last_text_of_kind(cs, NodeKind::KeyframesName));
    }
    let mut out = keyframes;
    out.set(key.as_str(), frames);
    Ok(out)
}

} // verus!
