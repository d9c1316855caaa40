//! The import resolver: maps an import statement's segments to a cached
//! file path and merges that file's metadata into the current scope.
use vstd::prelude::*;

use crate::ast::{lemma_nodes_view, node_lines_ok, node_view, Node, NodeKind, NodeV};
use crate::error::{error_context_spec, get_error_context, RCSSError};
use crate::maps::{assoc_get, ProjectCache};
use crate::text::{join_sep, lemma_join_sep_snoc, str_eq};
use crate::{clone_meta_vec, MetaData, MetaV};

verus! {

/// The import path's segments from child `i` on: the identifier
/// children, with any wildcard segment ignored.
pub open spec fn import_segments(children: Seq<NodeV>, i: int) -> Seq<Seq<char>>
    decreases children.len() - i,
{
    if i < 0 || i >= children.len() {
        Seq::empty()
    } else {
        let c = children[i];
        if c.kind == NodeKind::Identifier && c.text != "*"@ {
            seq![c.text] + import_segments(children, i + 1)
        } else {
            import_segments(children, i + 1)
        }
    }
}

/// The file path an import statement names: the segments joined with
/// slashes under the project root, with the source extension appended.
pub open spec fn import_path_spec(rel: Seq<char>, segs: Seq<Seq<char>>) -> Seq<char> {
    rel + "/"@ + join_sep(segs, '/') + ".rcss"@
}

/// The scope after one import: the cached metadata of the named file
/// appended to the current scope, or the path that is not in the cache.
pub open spec fn process_import_spec(
    node: NodeV,
    cache: Seq<(Seq<char>, Seq<MetaV>)>,
    scope: Seq<MetaV>,
    rel: Seq<char>,
) -> Result<Seq<MetaV>, Seq<char>> {
    let path = import_path_spec(rel, import_segments(node.children, 0));
    match assoc_get(cache, path) {
        Some(data) => Ok(scope + data),
        None => Err(path),
    }
}

/// Resolves one import statement against the project cache. On success
/// the imported file's metadata entries become visible to everything
/// after this point in the file; a path that was never compiled into the
/// cache is a hard error.
pub fn process_import_statement(
    meta_data: Vec<MetaData>,
    project_meta_data: &ProjectCache,
    node: &Node,
    raw_source: &str,
    input_path: &str,
    relative_path: &str,
) -> (r: Result<Vec<MetaData>, RCSSError>)
    requires
        node@.line + 2 <= usize::MAX,
    ensures
        match r {
            Ok(v) => process_import_spec(
                node@,
                project_meta_data.view_spec(),
                meta_data.deep_view(),
                relative_path@,
            ) == Ok::<Seq<MetaV>, Seq<char>>(v.deep_view()),
            Err(e) => {
                &&& process_import_spec(
                    node@,
                    project_meta_data.view_spec(),
                    meta_data.deep_view(),
                    relative_path@,
                ) matches Err(p)
                &&& e matches RCSSError::ImportError {
                    file_path,
                    import_path,
                    line,
                    column,
                    message,
                    context,
                }
                &&& file_path@ == input_path@
                &&& import_path@ == p
                &&& line == node.line
                &&& column == node.column
                &&& message@ == "File not found"@
                &&& context@ == error_context_spec(raw_source@, node.line as int, 2)
            },
        },
{
    let ghost cs = node@.children;
    proof {
        lemma_nodes_view(node.children@);
    }
    // gather the path segments
    let mut segs: Vec<String> = Vec::new();
    let n = node.children.len();
    let mut i: usize = 0;
    proof {
        assert(segs.deep_view() =~= Seq::<Seq<char>>::empty());
        assert(segs.deep_view() + import_segments(cs, 0) =~= import_segments(cs, 0));
    }
    while i < n
        invariant
            0 <= i <= n,
            n == node.children.len(),
            cs == node@.children,
            cs.len() == n,
            segs.deep_view() + import_segments(cs, i as int) == import_segments(cs, 0),
        decreases n - i,
    {
        proof {
            lemma_nodes_view(node.children@);
            assert(cs[i as int] == node_view(node.children@[i as int]));
        }
        let child = &node.children[i];
        if child.kind == NodeKind::Identifier && !str_eq(child.text.as_str(), "*") {
            let ghost s0 = segs.deep_view();
            proof {
                assert(segs.deep_view().len() == segs@.len());
            }
            segs.push(child.text.clone());
            proof {
                assert(segs@.len() == s0.len() + 1);
                assert(segs.deep_view() =~= s0.push(cs[i as int].text));
                assert(s0.push(cs[i as int].text) + import_segments(cs, i + 1) =~= s0 + (seq![
                    cs[i as int].text] + import_segments(cs, i + 1)));
            }
        }
        i = i + 1;
    }
    proof {
        assert(import_segments(cs, n as int) =~= Seq::<Seq<char>>::empty());
        assert(segs.deep_view() + Seq::<Seq<char>>::empty() =~= segs.deep_view());
    }
    // build the path
    let mut full_path = relative_path.to_owned();
    full_path.append("/");
    let m = segs.len();
    let mut j: usize = 0;
    let ghost segv = segs.deep_view();
    proof {
        assert(join_sep(segv.subrange(0, 0), '/') =~= Seq::<char>::empty());
        assert(full_path@ + Seq::<char>::empty() =~= full_path@);
    }
    let mut joined = String::new();
    while j < m
        invariant
            0 <= j <= m,
            m == segs.len(),
            segv == segs.deep_view(),
            segv.len() == m,
            joined@ == join_sep(segv.subrange(0, j as int), '/'),
        decreases m - j,
    {
        if j > 0 {
            joined.append("/");
        }
        joined.append(segs[j].as_str());
        proof {
            reveal_strlit("/");
            let pre = segv.subrange(0, j as int);
            let cur = segv.subrange(0, j + 1);
            assert(cur =~= pre.push(segv[j as int]));
            lemma_join_sep_snoc(pre, segv[j as int], '/');
            if j > 0 {
                assert("/"@ =~= seq!['/']);
                assert(joined@ =~= join_sep(cur, '/'));
            } else {
                assert(pre.len() == 0);
                assert(joined@ =~= join_sep(cur, '/'));
            }
        }
        j = j + 1;
    }
    proof {
        assert(segv.subrange(0, m as int) =~= segv);
    }
    full_path.append(joined.as_str());
    full_path.append(".rcss");
    proof {
        assert(full_path@ =~= import_path_spec(relative_path@, import_segments(cs, 0)));
    }
    // look the path up
    match project_meta_data.get(full_path.as_str()) {
        Some(data) => {
            let mut out = meta_data;
            let ghost scope0 = out.deep_view();
            let mut imported = clone_meta_vec(data);
            let ghost imp0 = imported.deep_view();
            proof {
                assert(out.deep_view().len() == out@.len());
                assert(imported.deep_view().len() == imported@.len());
            }
            out.append(&mut imported);
            proof {
                assert(out@.len() == scope0.len() + imp0.len());
                assert(out.deep_view() =~= scope0 + imp0);
            }
            Ok(out)
        },
        None => {
            let context = get_error_context(raw_source, node.line, 2);
            let mut message = String::new();
            message.append("File not found");
            proof {
                reveal_strlit("File not found");
                assert(message@ =~= "File not found"@);
            }
            Err(
                RCSSError::ImportError {
                    file_path: input_path.to_owned(),
                    import_path: full_path,
                    line: node.line,
                    column: node.column,
                    message,
                    context,
                },
            )
        },
    }
}

} // verus!
