//! The media query processor: collects the rules under one `@media`
//! condition into a fresh selector map, recursing into nested queries.
use vstd::prelude::*;

use crate::ast::{lemma_nodes_view, node_lines_ok, node_view, Node, NodeKind, NodeV};
use crate::error::RCSSError;
use crate::maps::{assoc_set, NestedMap, StrMap};
use crate::process_x::rule_normal::{process_rule_normal, process_rule_spec, rule_err_matches,
    RuleErr};
use crate::text::trim_spec;
use crate::{MetaData, MetaV};

verus! {

/// The walk over a media query's children from child `i` on: the
/// condition child names the block, each normal rule adds to this
/// query's own selector map, and a nested media query becomes a
/// top-level key of its own.
pub open spec fn media_step(
    children: Seq<NodeV>,
    scope: Seq<MetaV>,
    i: int,
    cond: Seq<char>,
    decls: Seq<(Seq<char>, Seq<Seq<char>>)>,
    media: Seq<(Seq<char>, Seq<(Seq<char>, Seq<Seq<char>>)>)>,
) -> Result<
    (Seq<char>, Seq<(Seq<char>, Seq<Seq<char>>)>, Seq<(Seq<char>, Seq<(Seq<char>, Seq<Seq<char>>)>)>),
    RuleErr,
>
    decreases children, children.len() - i,
{
    if i < 0 || i >= children.len() {
        Ok((cond, decls, media))
    } else {
        let c = children[i];
        if c.kind == NodeKind::MediaCondition {
            media_step(children, scope, i + 1, "@media "@ + trim_spec(c.text), decls, media)
        } else if c.kind == NodeKind::RuleNormal {
            match process_rule_spec(c, scope, decls) {
                Ok(d2) => media_step(children, scope, i + 1, cond, d2, media),
                Err(e) => Err(e),
            }
        } else if c.kind == NodeKind::MediaQuery {
            match process_media_spec(c, scope, media) {
                Ok(m2) => media_step(children, scope, i + 1, cond, decls, m2),
                Err(e) => Err(e),
            }
        } else {
            media_step(children, scope, i + 1, cond, decls, media)
        }
    }
}

/// The media map after one media query: the rules under its condition
/// are gathered into a fresh selector map and stored under the condition
/// text; a condition written twice keeps the later block.
pub open spec fn process_media_spec(
    node: NodeV,
    scope: Seq<MetaV>,
    media: Seq<(Seq<char>, Seq<(Seq<char>, Seq<Seq<char>>)>)>,
) -> Result<Seq<(Seq<char>, Seq<(Seq<char>, Seq<Seq<char>>)>)>, RuleErr>
    decreases node, 0int,
{
    match media_step(node.children, scope, 0, Seq::empty(), Seq::empty(), media) {
        Ok((cond, decls, m2)) => Ok(assoc_set(m2, cond, decls)),
        Err(e) => Err(e),
    }
}

/// Collects one media query into the media map. Nested rules resolve
/// against the current scope inside a selector map scoped to this
/// condition; nested media queries recurse, each claiming its own key.
pub fn process_media_query(
    media_queries: NestedMap,
    node: &Node,
    meta_data: &Vec<MetaData>,
    raw_source: &str,
    input_path: &str,
) -> (r: Result<NestedMap, RCSSError>)
    requires
        node_lines_ok(node@),
        media_queries.wf(),
    ensures
        match r {
            Ok(m) => process_media_spec(node@, meta_data.deep_view(), media_queries.view_spec())
                == Ok::<Seq<(Seq<char>, Seq<(Seq<char>, Seq<Seq<char>>)>)>, RuleErr>(m.view_spec())
                && m.wf(),
            Err(e) => {
                &&& process_media_spec(node@, meta_data.deep_view(), media_queries.view_spec())
                    matches Err(re)
                &&& rule_err_matches(e, re, input_path@, raw_source@)
            },
        },
    decreases *node,
{
    let ghost scope = meta_data.deep_view();
    let ghost cs = node@.children;
    let ghost media0 = media_queries.view_spec();
    proof {
        lemma_nodes_view(node.children@);
    }
    let mut condition = String::new();
    let mut decls = StrMap::new();
    let mut media = media_queries;
    let n = node.children.len();
    let mut i: usize = 0;
    proof {
        assert(decls.view_spec() =~= Seq::<(Seq<char>, Seq<Seq<char>>)>::empty());
    }
    while i < n
        invariant
            0 <= i <= n,
            n == node.children.len(),
            cs == node@.children,
            cs.len() == n,
            node_lines_ok(node@),
            scope == meta_data.deep_view(),
            media0 == media_queries.view_spec(),
            decls.wf(),
            media.wf(),
            media_step(cs, scope, 0, Seq::empty(), Seq::empty(), media0) == media_step(
                cs,
                scope,
                i as int,
                condition@,
                decls.view_spec(),
                media.view_spec(),
            ),
        decreases n - i,
    {
        proof {
            lemma_nodes_view(node.children@);
            assert(cs[i as int] == node_view(node.children@[i as int]));
            assert(node_lines_ok(cs[i as int]));
        }
        let child = &node.children[i];
        if child.kind == NodeKind::MediaCondition {
            let t = crate::text::trim(child.text.as_str());
            let mut c = String::new();
            c.append("@media ");
            c.append(t.as_str());
            proof {
                assert(c@ =~= "@media "@ + trim_spec(child@.text));
            }
            condition = c;
        } else if child.kind == NodeKind::RuleNormal {
            let ghost dv = decls.view_spec();
            match process_rule_normal(meta_data, decls, child, raw_source, input_path) {
                Ok(d2) => {
                    decls = d2;
                },
                Err(e) => {
                    proof {
                        assert(process_rule_spec(cs[i as int], scope, dv) matches Err(_));
                        assert(media_step(cs, scope, i as int, condition@, dv, media.view_spec())
                            matches Err(_));
                    }
                    return Err(e);
                },
            }
        } else if child.kind == NodeKind::MediaQuery {
            let ghost mv = media.view_spec();
            match process_media_query(media, child, meta_data, raw_source, input_path) {
                Ok(m2) => {
                    media = m2;
                },
                Err(e) => {
                    proof {
                        assert(process_media_spec(cs[i as int], scope, mv) matches Err(_));
                        assert(media_step(cs, scope, i as int, condition@, decls.view_spec(), mv)
                            matches Err(_));
                    }
                    return Err(e);
                },
            }
        }
        i = i + 1;
    }
    proof {
        assert(media_step(cs, scope, n as int, condition@, decls.view_spec(), media.view_spec())
            == Ok::<
            (
                Seq<char>,
                Seq<(Seq<char>, Seq<Seq<char>>)>,
                Seq<(Seq<char>, Seq<(Seq<char>, Seq<Seq<char>>)>)>,
            ),
            RuleErr,
        >((condition@, decls.view_spec(), media.view_spec())));
    }
    let mut out = media;
    out.set(condition.as_str(), decls);
    Ok(out)
}

} // verus!
