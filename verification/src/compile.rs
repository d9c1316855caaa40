//! The compilation driver and the stylesheet emitter.
//!
//! The emitter is a pure function of the accumulated maps. Its output is
//! byte-stable: selector keys, declaration lines and keyframe table names
//! sort lexicographically, frames sort numerically, and the two
//! formatting modes differ only in whitespace.
use vstd::prelude::*;

use crate::ast::{lemma_nodes_view, node_lines_ok, node_view, nodes_view, Node, NodeKind, NodeV};
use crate::error::{error_context_spec, RCSSError};
use crate::maps::{assoc_set, NestedMap, ProjectCache, StrMap};
use crate::process_x::functions::{process_fn_def_spec, process_function_definition};
use crate::process_x::imports::{process_import_spec, process_import_statement};
use crate::process_x::keyframes::{process_keyframes_definition, process_keyframes_spec};
use crate::process_x::media_queries::{process_media_query, process_media_spec};
use crate::process_x::rule_normal::{process_rule_normal, process_rule_spec, rule_err_matches,
    RuleErr};
use crate::process_x::variables::{process_variable_declaration, var_decl_spec};
use crate::sort::{sort_frames, sort_frames_spec, sort_lex, sort_nestedmap, sort_string_vec,
    sort_strmap, sort_strs};
use crate::text::{ends_with_char, ends_with_char_spec, trim_back, trim_spec};
use crate::{MetaData, MetaV};

verus! {

/// Every node of the stream leaves room for the error context window.
pub open spec fn nodes_lines_ok(ns: Seq<NodeV>) -> bool {
    forall|k: int| 0 <= k < ns.len() ==> node_lines_ok(#[trigger] ns[k])
}

/// The accumulating state of one file's compilation: the scope gathered
/// so far and the four output collections.
pub struct CompStateV {
    pub meta: Seq<MetaV>,
    pub decls: Seq<(Seq<char>, Seq<Seq<char>>)>,
    pub kfs: Seq<(Seq<char>, Seq<(Seq<char>, Seq<Seq<char>>)>)>,
    pub oneliners: Seq<Seq<char>>,
    pub media: Seq<(Seq<char>, Seq<(Seq<char>, Seq<Seq<char>>)>)>,
}

/// What aborts a compilation: a resolution error inside a block, or an
/// import path that is not in the cache.
pub enum CompErr {
    Rule(RuleErr),
    Import { path: Seq<char>, line: int, column: int },
}

/// The driver's walk over the top-level nodes from index `i` on. During
/// the initial whole-project pass only metadata is harvested: imports,
/// rules, keyframe tables and media queries are skipped.
pub open spec fn compile_step(
    nodes: Seq<NodeV>,
    cache: Seq<(Seq<char>, Seq<MetaV>)>,
    rel: Seq<char>,
    initial: bool,
    i: int,
    st: CompStateV,
) -> Result<CompStateV, CompErr>
    decreases nodes.len() - i,
{
    if i < 0 || i >= nodes.len() {
        Ok(st)
    } else {
        let c = nodes[i];
        if c.kind == NodeKind::ImportStatement {
            if initial {
                compile_step(nodes, cache, rel, initial, i + 1, st)
            } else {
                match process_import_spec(c, cache, st.meta, rel) {
                    Ok(m2) => compile_step(
                        nodes,
                        cache,
                        rel,
                        initial,
                        i + 1,
                        CompStateV { meta: m2, ..st },
                    ),
                    Err(p) => Err(CompErr::Import { path: p, line: c.line, column: c.column }),
                }
            }
        } else if c.kind == NodeKind::VariableDeclaration {
            compile_step(
                nodes,
                cache,
                rel,
                initial,
                i + 1,
                CompStateV { meta: var_decl_spec(c, st.meta), ..st },
            )
        } else if c.kind == NodeKind::FunctionDefinition {
            match process_fn_def_spec(c, st.meta) {
                Ok(m2) => compile_step(
                    nodes,
                    cache,
                    rel,
                    initial,
                    i + 1,
                    CompStateV { meta: m2, ..st },
                ),
                Err((name, l, col)) => Err(
                    CompErr::Rule(RuleErr::Var { name, line: l, column: col }),
                ),
            }
        } else if c.kind == NodeKind::RuleNormal {
            if initial {
                compile_step(nodes, cache, rel, initial, i + 1, st)
            } else {
                match process_rule_spec(c, st.meta, st.decls) {
                    Ok(d2) => compile_step(
                        nodes,
                        cache,
                        rel,
                        initial,
                        i + 1,
                        CompStateV { decls: d2, ..st },
                    ),
                    Err(re) => Err(CompErr::Rule(re)),
                }
            }
        } else if c.kind == NodeKind::KeyframesRule {
            if initial {
                compile_step(nodes, cache, rel, initial, i + 1, st)
            } else {
                match process_keyframes_spec(c, st.meta, st.kfs) {
                    Ok(k2) => compile_step(
                        nodes,
                        cache,
                        rel,
                        initial,
                        i + 1,
                        CompStateV { kfs: k2, ..st },
                    ),
                    Err((name, l, col)) => Err(
                        CompErr::Rule(RuleErr::Var { name, line: l, column: col }),
                    ),
                }
            }
        } else if c.kind == NodeKind::AtMethodsOneliner {
            compile_step(
                nodes,
                cache,
                rel,
                initial,
                i + 1,
                CompStateV { oneliners: st.oneliners.push(trim_spec(c.text)), ..st },
            )
        } else if c.kind == NodeKind::MediaQuery {
            if initial {
                compile_step(nodes, cache, rel, initial, i + 1, st)
            } else {
                match process_media_spec(c, st.meta, st.media) {
                    Ok(m2) => compile_step(
                        nodes,
                        cache,
                        rel,
                        initial,
                        i + 1,
                        CompStateV { media: m2, ..st },
                    ),
                    Err(re) => Err(CompErr::Rule(re)),
                }
            }
        } else {
            compile_step(nodes, cache, rel, initial, i + 1, st)
        }
    }
}

/// The empty state a file's compilation starts from.
pub open spec fn comp_state_empty() -> CompStateV {
    CompStateV {
        meta: Seq::empty(),
        decls: Seq::empty(),
        kfs: Seq::empty(),
        oneliners: Seq::empty(),
        media: Seq::empty(),
    }
}

/// The whole walk of one file's top-level nodes.
pub open spec fn compile_nodes_spec(
    nodes: Seq<NodeV>,
    cache: Seq<(Seq<char>, Seq<MetaV>)>,
    rel: Seq<char>,
    initial: bool,
) -> Result<CompStateV, CompErr> {
    compile_step(nodes, cache, rel, initial, 0, comp_state_empty())
}

/// The semicolon a declaration line still needs, if any.
pub open spec fn semi(d: Seq<char>) -> Seq<char> {
    if ends_with_char_spec(d, ';') {
        Seq::empty()
    } else {
        ";"@
    }
}

/// The declaration lines from index `i` on, each indented, terminated
/// with a semicolon where one is missing, and closed by the newline.
pub open spec fn emit_decls(ds: Seq<Seq<char>>, i: int, ind: Seq<char>, nl: Seq<char>) -> Seq<char>
    decreases ds.len() - i,
{
    if i < 0 || i >= ds.len() {
        Seq::empty()
    } else {
        ind + ds[i] + semi(ds[i]) + nl + emit_decls(ds, i + 1, ind, nl)
    }
}

/// The selector blocks from entry `i` on, each with its declaration
/// lines sorted.
pub open spec fn emit_blocks(
    es: Seq<(Seq<char>, Seq<Seq<char>>)>,
    i: int,
    sp: Seq<char>,
    nl: Seq<char>,
    ind: Seq<char>,
) -> Seq<char>
    decreases es.len() - i,
{
    if i < 0 || i >= es.len() {
        Seq::empty()
    } else {
        es[i].0 + sp + "{"@ + nl + emit_decls(sort_strs(es[i].1), 0, ind, nl) + "}"@ + nl + nl
            + emit_blocks(es, i + 1, sp, nl, ind)
    }
}

/// Appends the (pre-sorted) declaration lines to `out`.
fn emit_decls_exec(ds: &Vec<String>, ind: &str, nl: &str, out: &mut String)
    ensures
        final(out)@ == old(out)@ + emit_decls(ds.deep_view(), 0, ind@, nl@),
{
    let ghost out0 = out@;
    let ghost dv = ds.deep_view();
    let n = ds.len();
    let mut i: usize = 0;
    proof {
        assert(out0 + Seq::<char>::empty() =~= out0);
    }
    while i < n
        invariant
            0 <= i <= n,
            n == ds.len(),
            dv == ds.deep_view(),
            dv.len() == n,
            out@ + emit_decls(dv, i as int, ind@, nl@) == out0 + emit_decls(dv, 0, ind@, nl@),
        decreases n - i,
    {
        let ghost mid0 = out@;
        out.append(ind);
        out.append(ds[i].as_str());
        if !ends_with_char(ds[i].as_str(), ';') {
            out.append(";");
        }
        out.append(nl);
        proof {
            assert(dv[i as int] == ds@[i as int]@);
            assert(out@ =~= mid0 + (ind@ + dv[i as int] + semi(dv[i as int]) + nl@));
            assert(mid0 + (ind@ + dv[i as int] + semi(dv[i as int]) + nl@) + emit_decls(
                dv,
                i + 1,
                ind@,
                nl@,
            ) =~= mid0 + ((ind@ + dv[i as int] + semi(dv[i as int]) + nl@) + emit_decls(
                dv,
                i + 1,
                ind@,
                nl@,
            )));
            assert(emit_decls(dv, i as int, ind@, nl@) == ind@ + dv[i as int] + semi(dv[i as int])
                + nl@ + emit_decls(dv, i + 1, ind@, nl@));
            assert((ind@ + dv[i as int] + semi(dv[i as int]) + nl@) + emit_decls(
                dv,
                i + 1,
                ind@,
                nl@,
            ) =~= emit_decls(dv, i as int, ind@, nl@));
        }
        i = i + 1;
    }
    proof {
        assert(out@ + Seq::<char>::empty() =~= out@);
    }
}

/// Appends the (pre-sorted) selector blocks to `out`, sorting each
/// block's declaration lines.
fn emit_blocks_exec(es: &StrMap, sp: &str, nl: &str, ind: &str, out: &mut String)
    ensures
        final(out)@ == old(out)@ + emit_blocks(es.view_spec(), 0, sp@, nl@, ind@),
{
    let ghost out0 = out@;
    let ghost ev = es.view_spec();
    let n = es.entries.len();
    let mut i: usize = 0;
    proof {
        assert(out0 + Seq::<char>::empty() =~= out0);
    }
    while i < n
        invariant
            0 <= i <= n,
            n == es.entries.len(),
            ev == es.view_spec(),
            ev.len() == n,
            out@ + emit_blocks(ev, i as int, sp@, nl@, ind@) == out0 + emit_blocks(
                ev,
                0,
                sp@,
                nl@,
                ind@,
            ),
        decreases n - i,
    {
        let ghost mid0 = out@;
        proof {
            assert(ev[i as int] == es.entries@[i as int].deep_view());
        }
        out.append(es.entries[i].key.as_str());
        out.append(sp);
        out.append("{");
        out.append(nl);
        let sorted = sort_string_vec(&es.entries[i].values);
        emit_decls_exec(&sorted, ind, nl, out);
        out.append("}");
        out.append(nl);
        out.append(nl);
        proof {
            let piece = ev[i as int].0 + sp@ + "{"@ + nl@ + emit_decls(
                sort_strs(ev[i as int].1),
                0,
                ind@,
                nl@,
            ) + "}"@ + nl@ + nl@;
            assert(out@ =~= mid0 + piece);
            assert(emit_blocks(ev, i as int, sp@, nl@, ind@) == piece + emit_blocks(
                ev,
                i + 1,
                sp@,
                nl@,
                ind@,
            ));
            assert(mid0 + piece + emit_blocks(ev, i + 1, sp@, nl@, ind@) =~= mid0 + (piece
                + emit_blocks(ev, i + 1, sp@, nl@, ind@)));
        }
        i = i + 1;
    }
    proof {
        assert(out@ + Seq::<char>::empty() =~= out@);
    }
}

/// The one-liner at-rules from index `i` on, each on its own line.
pub open spec fn emit_oneliners(os: Seq<Seq<char>>, i: int, nl: Seq<char>) -> Seq<char>
    decreases os.len() - i,
{
    if i < 0 || i >= os.len() {
        Seq::empty()
    } else {
        os[i] + nl + emit_oneliners(os, i + 1, nl)
    }
}

/// The frames of one keyframe table from index `i` on, one indented
/// block each, the declarations indented once more.
pub open spec fn emit_frames(
    fs: Seq<(Seq<char>, Seq<Seq<char>>)>,
    i: int,
    sp: Seq<char>,
    nl: Seq<char>,
    ind: Seq<char>,
) -> Seq<char>
    decreases fs.len() - i,
{
    if i < 0 || i >= fs.len() {
        Seq::empty()
    } else {
        ind + fs[i].0 + sp + "{"@ + nl + emit_decls(sort_strs(fs[i].1), 0, ind + ind, nl) + ind
            + "}"@ + nl + nl + emit_frames(fs, i + 1, sp, nl, ind)
    }
}

/// The keyframe tables from entry `i` on, each with its frames in
/// emission order.
pub open spec fn emit_kf_tables(
    ks: Seq<(Seq<char>, Seq<(Seq<char>, Seq<Seq<char>>)>)>,
    i: int,
    sp: Seq<char>,
    nl: Seq<char>,
    ind: Seq<char>,
) -> Seq<char>
    decreases ks.len() - i,
{
    if i < 0 || i >= ks.len() {
        Seq::empty()
    } else {
        ks[i].0 + sp + "{"@ + nl + emit_frames(sort_frames_spec(ks[i].1), 0, sp, nl, ind) + "}"@
            + nl + nl + emit_kf_tables(ks, i + 1, sp, nl, ind)
    }
}

/// The selector blocks inside one media query from entry `i` on.
pub open spec fn emit_media_inner(
    es: Seq<(Seq<char>, Seq<Seq<char>>)>,
    i: int,
    sp: Seq<char>,
    nl: Seq<char>,
    ind: Seq<char>,
) -> Seq<char>
    decreases es.len() - i,
{
    if i < 0 || i >= es.len() {
        Seq::empty()
    } else {
        ind + trim_spec(es[i].0) + sp + "{"@ + nl + emit_decls(sort_strs(es[i].1), 0, ind + ind, nl)
            + ind + "}"@ + nl + emit_media_inner(es, i + 1, sp, nl, ind)
    }
}

/// The media blocks from entry `i` on, in map order, each with its inner
/// selectors sorted.
pub open spec fn emit_media_blocks(
    ms: Seq<(Seq<char>, Seq<(Seq<char>, Seq<Seq<char>>)>)>,
    i: int,
    sp: Seq<char>,
    nl: Seq<char>,
    ind: Seq<char>,
) -> Seq<char>
    decreases ms.len() - i,
{
    if i < 0 || i >= ms.len() {
        Seq::empty()
    } else {
        trim_spec(ms[i].0) + sp + "{"@ + nl + emit_media_inner(sort_lex(ms[i].1), 0, sp, nl, ind)
            + "}"@ + nl + emit_media_blocks(ms, i + 1, sp, nl, ind)
    }
}

/// The whole stylesheet: one-liners, then selectors sorted, then
/// keyframe tables sorted by name, then media blocks in map order. The
/// two modes differ only in the separator strings.
pub open spec fn css_output_spec(
    decls: Seq<(Seq<char>, Seq<Seq<char>>)>,
    kfs: Seq<(Seq<char>, Seq<(Seq<char>, Seq<Seq<char>>)>)>,
    oneliners: Seq<Seq<char>>,
    media: Seq<(Seq<char>, Seq<(Seq<char>, Seq<Seq<char>>)>)>,
    human: bool,
) -> Seq<char> {
    let nl = if human {
        "\n"@
    } else {
        Seq::<char>::empty()
    };
    let sp = if human {
        " "@
    } else {
        Seq::<char>::empty()
    };
    let ind = if human {
        "    "@
    } else {
        Seq::<char>::empty()
    };
    emit_oneliners(oneliners, 0, nl) + (if oneliners.len() > 0 {
        nl
    } else {
        Seq::<char>::empty()
    }) + emit_blocks(sort_lex(decls), 0, sp, nl, ind) + emit_kf_tables(sort_lex(kfs), 0, sp, nl, ind)
        + emit_media_blocks(media, 0, sp, nl, ind)
}

/// Appends the frames of one (pre-sorted) table to `out`.
fn emit_frames_exec(fs: &StrMap, sp: &str, nl: &str, ind: &str, ind2: &str, out: &mut String)
    requires
        ind2@ == ind@ + ind@,
    ensures
        final(out)@ == old(out)@ + emit_frames(fs.view_spec(), 0, sp@, nl@, ind@),
{
    let ghost out0 = out@;
    let ghost fv = fs.view_spec();
    let n = fs.entries.len();
    let mut i: usize = 0;
    proof {
        assert(out0 + Seq::<char>::empty() =~= out0);
    }
    while i < n
        invariant
            0 <= i <= n,
            n == fs.entries.len(),
            fv == fs.view_spec(),
            fv.len() == n,
            ind2@ == ind@ + ind@,
            out@ + emit_frames(fv, i as int, sp@, nl@, ind@) == out0 + emit_frames(
                fv,
                0,
                sp@,
                nl@,
                ind@,
            ),
        decreases n - i,
    {
        let ghost mid0 = out@;
        proof {
            assert(fv[i as int] == fs.entries@[i as int].deep_view());
        }
        out.append(ind);
        out.append(fs.entries[i].key.as_str());
        out.append(sp);
        out.append("{");
        out.append(nl);
        let sorted = sort_string_vec(&fs.entries[i].values);
        emit_decls_exec(&sorted, ind2, nl, out);
        out.append(ind);
        out.append("}");
        out.append(nl);
        out.append(nl);
        proof {
            let piece = ind@ + fv[i as int].0 + sp@ + "{"@ + nl@ + emit_decls(
                sort_strs(fv[i as int].1),
                0,
                ind@ + ind@,
                nl@,
            ) + ind@ + "}"@ + nl@ + nl@;
            assert(out@ =~= mid0 + piece);
            assert(emit_frames(fv, i as int, sp@, nl@, ind@) == piece + emit_frames(
                fv,
                i + 1,
                sp@,
                nl@,
                ind@,
            ));
            assert(mid0 + piece + emit_frames(fv, i + 1, sp@, nl@, ind@) =~= mid0 + (piece
                + emit_frames(fv, i + 1, sp@, nl@, ind@)));
        }
        i = i + 1;
    }
    proof {
        assert(out@ + Seq::<char>::empty() =~= out@);
    }
}

/// Appends the (pre-sorted) keyframe tables to `out`, putting each
/// table's frames into emission order.
fn emit_kf_tables_exec(ks: &NestedMap, sp: &str, nl: &str, ind: &str, ind2: &str, out: &mut String)
    requires
        ind2@ == ind@ + ind@,
    ensures
        final(out)@ == old(out)@ + emit_kf_tables(ks.view_spec(), 0, sp@, nl@, ind@),
{
    let ghost out0 = out@;
    let ghost kv = ks.view_spec();
    let n = ks.entries.len();
    let mut i: usize = 0;
    proof {
        assert(out0 + Seq::<char>::empty() =~= out0);
    }
    while i < n
        invariant
            0 <= i <= n,
            n == ks.entries.len(),
            kv == ks.view_spec(),
            kv.len() == n,
            ind2@ == ind@ + ind@,
            out@ + emit_kf_tables(kv, i as int, sp@, nl@, ind@) == out0 + emit_kf_tables(
                kv,
                0,
                sp@,
                nl@,
                ind@,
            ),
        decreases n - i,
    {
        let ghost mid0 = out@;
        proof {
            assert(kv[i as int] == ks.entries@[i as int].deep_view());
        }
        out.append(ks.entries[i].key.as_str());
        out.append(sp);
        out.append("{");
        out.append(nl);
        let frames = sort_frames(crate::clone_strmap(&ks.entries[i].inner));
        emit_frames_exec(&frames, sp, nl, ind, ind2, out);
        out.append("}");
        out.append(nl);
        out.append(nl);
        proof {
            let piece = kv[i as int].0 + sp@ + "{"@ + nl@ + emit_frames(
                sort_frames_spec(kv[i as int].1),
                0,
                sp@,
                nl@,
                ind@,
            ) + "}"@ + nl@ + nl@;
            assert(out@ =~= mid0 + piece);
            assert(emit_kf_tables(kv, i as int, sp@, nl@, ind@) == piece + emit_kf_tables(
                kv,
                i + 1,
                sp@,
                nl@,
                ind@,
            ));
            assert(mid0 + piece + emit_kf_tables(kv, i + 1, sp@, nl@, ind@) =~= mid0 + (piece
                + emit_kf_tables(kv, i + 1, sp@, nl@, ind@)));
        }
        i = i + 1;
    }
    proof {
        assert(out@ + Seq::<char>::empty() =~= out@);
    }
}

/// Appends the (pre-sorted) selector blocks of one media query to `out`.
fn emit_media_inner_exec(es: &StrMap, sp: &str, nl: &str, ind: &str, ind2: &str, out: &mut String)
    requires
        ind2@ == ind@ + ind@,
    ensures
        final(out)@ == old(out)@ + emit_media_inner(es.view_spec(), 0, sp@, nl@, ind@),
{
    let ghost out0 = out@;
    let ghost ev = es.view_spec();
    let n = es.entries.len();
    let mut i: usize = 0;
    proof {
        assert(out0 + Seq::<char>::empty() =~= out0);
    }
    while i < n
        invariant
            0 <= i <= n,
            n == es.entries.len(),
            ev == es.view_spec(),
            ev.len() == n,
            ind2@ == ind@ + ind@,
            out@ + emit_media_inner(ev, i as int, sp@, nl@, ind@) == out0 + emit_media_inner(
                ev,
                0,
                sp@,
                nl@,
                ind@,
            ),
        decreases n - i,
    {
        let ghost mid0 = out@;
        proof {
            assert(ev[i as int] == es.entries@[i as int].deep_view());
        }
        out.append(ind);
        let sel = crate::text::trim(es.entries[i].key.as_str());
        out.append(sel.as_str());
        out.append(sp);
        out.append("{");
        out.append(nl);
        let sorted = sort_string_vec(&es.entries[i].values);
        emit_decls_exec(&sorted, ind2, nl, out);
        out.append(ind);
        out.append("}");
        out.append(nl);
        proof {
            let piece = ind@ + trim_spec(ev[i as int].0) + sp@ + "{"@ + nl@ + emit_decls(
                sort_strs(ev[i as int].1),
                0,
                ind@ + ind@,
                nl@,
            ) + ind@ + "}"@ + nl@;
            assert(out@ =~= mid0 + piece);
            assert(emit_media_inner(ev, i as int, sp@, nl@, ind@) == piece + emit_media_inner(
                ev,
                i + 1,
                sp@,
                nl@,
                ind@,
            ));
            assert(mid0 + piece + emit_media_inner(ev, i + 1, sp@, nl@, ind@) =~= mid0 + (piece
                + emit_media_inner(ev, i + 1, sp@, nl@, ind@)));
        }
        i = i + 1;
    }
    proof {
        assert(out@ + Seq::<char>::empty() =~= out@);
    }
}

/// Appends the media blocks to `out`, in map order.
fn emit_media_blocks_exec(
    ms: &NestedMap,
    sp: &str,
    nl: &str,
    ind: &str,
    ind2: &str,
    out: &mut String,
)
    requires
        ind2@ == ind@ + ind@,
    ensures
        final(out)@ == old(out)@ + emit_media_blocks(ms.view_spec(), 0, sp@, nl@, ind@),
{
    let ghost out0 = out@;
    let ghost mv = ms.view_spec();
    let n = ms.entries.len();
    let mut i: usize = 0;
    proof {
        assert(out0 + Seq::<char>::empty() =~= out0);
    }
    while i < n
        invariant
            0 <= i <= n,
            n == ms.entries.len(),
            mv == ms.view_spec(),
            mv.len() == n,
            ind2@ == ind@ + ind@,
            out@ + emit_media_blocks(mv, i as int, sp@, nl@, ind@) == out0 + emit_media_blocks(
                mv,
                0,
                sp@,
                nl@,
                ind@,
            ),
        decreases n - i,
    {
        let ghost mid0 = out@;
        proof {
            assert(mv[i as int] == ms.entries@[i as int].deep_view());
        }
        let cond = crate::text::trim(ms.entries[i].key.as_str());
        out.append(cond.as_str());
        out.append(sp);
        out.append("{");
        out.append(nl);
        let inner = sort_strmap(crate::clone_strmap(&ms.entries[i].inner));
        emit_media_inner_exec(&inner, sp, nl, ind, ind2, out);
        out.append("}");
        out.append(nl);
        proof {
            let piece = trim_spec(mv[i as int].0) + sp@ + "{"@ + nl@ + emit_media_inner(
                sort_lex(mv[i as int].1),
                0,
                sp@,
                nl@,
                ind@,
            ) + "}"@ + nl@;
            assert(out@ =~= mid0 + piece);
            assert(emit_media_blocks(mv, i as int, sp@, nl@, ind@) == piece + emit_media_blocks(
                mv,
                i + 1,
                sp@,
                nl@,
                ind@,
            ));
            assert(mid0 + piece + emit_media_blocks(mv, i + 1, sp@, nl@, ind@) =~= mid0 + (piece
                + emit_media_blocks(mv, i + 1, sp@, nl@, ind@)));
        }
        i = i + 1;
    }
    proof {
        assert(out@ + Seq::<char>::empty() =~= out@);
    }
}

/// Serializes the accumulated maps into the final stylesheet text.
pub fn css_map_to_string(
    declarations: &StrMap,
    keyframes: &NestedMap,
    one_liners: &Vec<String>,
    media_queries: &NestedMap,
    human_readable: bool,
) -> (r: String)
    ensures
        r@ == css_output_spec(
            declarations.view_spec(),
            keyframes.view_spec(),
            one_liners.deep_view(),
            media_queries.view_spec(),
            human_readable,
        ),
{
    let nl: &str = if human_readable {
        "\n"
    } else {
        ""
    };
    let sp: &str = if human_readable {
        " "
    } else {
        ""
    };
    let ind: &str = if human_readable {
        "    "
    } else {
        ""
    };
    let ind2: &str = if human_readable {
        "        "
    } else {
        ""
    };
    proof {
        reveal_strlit("");
        reveal_strlit("    ");
        reveal_strlit("        ");
        assert(ind2@ =~= ind@ + ind@);
    }
    let mut out = String::new();
    // one-liner at-rules first, then a separating blank line
    let ghost ov = one_liners.deep_view();
    let n = one_liners.len();
    let mut i: usize = 0;
    proof {
        assert(out@ + Seq::<char>::empty() =~= out@);
        assert(out@ + emit_oneliners(ov, 0, nl@) =~= Seq::<char>::empty() + emit_oneliners(
            ov,
            0,
            nl@,
        ));
    }
    while i < n
        invariant
            0 <= i <= n,
            n == one_liners.len(),
            ov == one_liners.deep_view(),
            ov.len() == n,
            out@ + emit_oneliners(ov, i as int, nl@) == Seq::<char>::empty() + emit_oneliners(
                ov,
                0,
                nl@,
            ),
        decreases n - i,
    {
        let ghost mid0 = out@;
        out.append(one_liners[i].as_str());
        out.append(nl);
        proof {
            assert(ov[i as int] == one_liners@[i as int]@);
            assert(out@ =~= mid0 + (ov[i as int] + nl@));
            assert(emit_oneliners(ov, i as int, nl@) == ov[i as int] + nl@ + emit_oneliners(
                ov,
                i + 1,
                nl@,
            ));
            assert(mid0 + (ov[i as int] + nl@) + emit_oneliners(ov, i + 1, nl@) =~= mid0 + (
            ov[i as int] + nl@ + emit_oneliners(ov, i + 1, nl@)));
        }
        i = i + 1;
    }
    proof {
        assert(out@ + Seq::<char>::empty() =~= out@);
        assert(Seq::<char>::empty() + emit_oneliners(ov, 0, nl@) =~= emit_oneliners(ov, 0, nl@));
    }
    if one_liners.len() > 0 {
        out.append(nl);
    }
    let sorted_decls = sort_strmap(crate::clone_strmap(declarations));
    emit_blocks_exec(&sorted_decls, sp, nl, ind, &mut out);
    let sorted_kfs = sort_nestedmap(crate::clone_nestedmap(keyframes));
    emit_kf_tables_exec(&sorted_kfs, sp, nl, ind, ind2, &mut out);
    emit_media_blocks_exec(media_queries, sp, nl, ind, ind2, &mut out);
    proof {
        let nlv = if human_readable {
            "\n"@
        } else {
            Seq::<char>::empty()
        };
        let spv = if human_readable {
            " "@
        } else {
            Seq::<char>::empty()
        };
        let indv = if human_readable {
            "    "@
        } else {
            Seq::<char>::empty()
        };
        assert(nl@ =~= nlv);
        assert(sp@ =~= spv);
        assert(ind@ =~= indv);
        assert(out@ =~= css_output_spec(
            declarations.view_spec(),
            keyframes.view_spec(),
            ov,
            media_queries.view_spec(),
            human_readable,
        ));
    }
    out
}

/// The blocks of a flat selector map in map order: the older, simpler
/// emitter that serializes one map with no sorting of keys.
pub open spec fn gen_blocks(
    es: Seq<(Seq<char>, Seq<Seq<char>>)>,
    i: int,
    sp: Seq<char>,
    nl: Seq<char>,
    ind: Seq<char>,
) -> Seq<char>
    decreases es.len() - i,
{
    if i < 0 || i >= es.len() {
        Seq::empty()
    } else {
        trim_spec(es[i].0) + sp + "{"@ + nl + emit_decls(es[i].1, 0, ind, nl) + "}"@ + gen_blocks(
            es,
            i + 1,
            sp,
            nl,
            ind,
        )
    }
}

/// The flat emission of one selector map, with any trailing whitespace
/// removed.
pub open spec fn generate_css_spec(es: Seq<(Seq<char>, Seq<Seq<char>>)>, human: bool) -> Seq<char> {
    let nl = if human {
        "\n"@
    } else {
        Seq::<char>::empty()
    };
    let sp = if human {
        " "@
    } else {
        Seq::<char>::empty()
    };
    let ind = if human {
        "    "@
    } else {
        Seq::<char>::empty()
    };
    trim_back(gen_blocks(es, 0, sp, nl, ind))
}

/// Serializes one flat selector map in map order, adding the missing
/// semicolons, in either formatting mode.
pub fn generate_css(elements: &StrMap, human_readable: bool) -> (r: String)
    ensures
        r@ == generate_css_spec(elements.view_spec(), human_readable),
{
    let nl: &str = if human_readable {
        "\n"
    } else {
        ""
    };
    let sp: &str = if human_readable {
        " "
    } else {
        ""
    };
    let ind: &str = if human_readable {
        "    "
    } else {
        ""
    };
    proof {
        reveal_strlit("");
    }
    let mut out = String::new();
    let ghost ev = elements.view_spec();
    let n = elements.entries.len();
    let mut i: usize = 0;
    proof {
        assert(out@ + Seq::<char>::empty() =~= out@);
        assert(out@ + gen_blocks(ev, 0, sp@, nl@, ind@) =~= gen_blocks(ev, 0, sp@, nl@, ind@));
    }
    while i < n
        invariant
            0 <= i <= n,
            n == elements.entries.len(),
            ev == elements.view_spec(),
            ev.len() == n,
            out@ + gen_blocks(ev, i as int, sp@, nl@, ind@) == gen_blocks(ev, 0, sp@, nl@, ind@),
        decreases n - i,
    {
        let ghost mid0 = out@;
        proof {
            assert(ev[i as int] == elements.entries@[i as int].deep_view());
        }
        let sel = crate::text::trim(elements.entries[i].key.as_str());
        out.append(sel.as_str());
        out.append(sp);
        out.append("{");
        out.append(nl);
        emit_decls_exec(&elements.entries[i].values, ind, nl, &mut out);
        out.append("}");
        proof {
            let piece = trim_spec(ev[i as int].0) + sp@ + "{"@ + nl@ + emit_decls(
                ev[i as int].1,
                0,
                ind@,
                nl@,
            ) + "}"@;
            assert(out@ =~= mid0 + piece);
            assert(gen_blocks(ev, i as int, sp@, nl@, ind@) == piece + gen_blocks(
                ev,
                i + 1,
                sp@,
                nl@,
                ind@,
            ));
            assert(mid0 + piece + gen_blocks(ev, i + 1, sp@, nl@, ind@) =~= mid0 + (piece
                + gen_blocks(ev, i + 1, sp@, nl@, ind@)));
        }
        i = i + 1;
    }
    proof {
        assert(out@ + Seq::<char>::empty() =~= out@);
    }
    let trimmed = crate::text::trim_end(out.as_str());
    proof {
        let nlv = if human_readable {
            "\n"@
        } else {
            Seq::<char>::empty()
        };
        let spv = if human_readable {
            " "@
        } else {
            Seq::<char>::empty()
        };
        let indv = if human_readable {
            "    "@
        } else {
            Seq::<char>::empty()
        };
        assert(nl@ =~= nlv);
        assert(sp@ =~= spv);
        assert(ind@ =~= indv);
    }
    trimmed
}

/// The text with every ASCII whitespace character removed.
pub open spec fn strip_ws(s: Seq<char>) -> Seq<char> {
    s.filter(|c: char| !crate::text::is_space(c))
}

/// A string of whitespace only.
pub open spec fn ws_only(s: Seq<char>) -> bool {
    forall|k: int| 0 <= k < s.len() ==> crate::text::is_space(#[trigger] s[k])
}

proof fn lemma_strip_ws_only(s: Seq<char>)
    requires
        ws_only(s),
    ensures
        strip_ws(s) == Seq::<char>::empty(),
    decreases s.len(),
{
    reveal(Seq::filter);
    if s.len() != 0 {
        let t = s.drop_last();
        assert(forall|k: int| 0 <= k < t.len() ==> crate::text::is_space(#[trigger] t[k]));
        lemma_strip_ws_only(t);
        assert(crate::text::is_space(s.last()));
    }
}

proof fn lemma_strip_concat(a: Seq<char>, b: Seq<char>)
    ensures
        strip_ws(a + b) == strip_ws(a) + strip_ws(b),
{
    Seq::<char>::filter_distributes_over_add(a, b, |c: char| !crate::text::is_space(c));
}

proof fn lemma_emit_decls_ws(
    ds: Seq<Seq<char>>,
    i: int,
    ind1: Seq<char>,
    nl1: Seq<char>,
    ind2: Seq<char>,
    nl2: Seq<char>,
)
    requires
        ws_only(ind1),
        ws_only(nl1),
        ws_only(ind2),
        ws_only(nl2),
    ensures
        strip_ws(emit_decls(ds, i, ind1, nl1)) == strip_ws(emit_decls(ds, i, ind2, nl2)),
    decreases ds.len() - i,
{
    if 0 <= i < ds.len() {
        lemma_emit_decls_ws(ds, i + 1, ind1, nl1, ind2, nl2);
        let d = ds[i];
        let p1 = ind1 + d + semi(d) + nl1;
        let p2 = ind2 + d + semi(d) + nl2;
        assert(strip_ws(p1) =~= strip_ws(d) + strip_ws(semi(d))) by {
            lemma_strip_concat(ind1 + d + semi(d), nl1);
            lemma_strip_concat(ind1 + d, semi(d));
            lemma_strip_concat(ind1, d);
            lemma_strip_ws_only(ind1);
            lemma_strip_ws_only(nl1);
        }
        assert(strip_ws(p2) =~= strip_ws(d) + strip_ws(semi(d))) by {
            lemma_strip_concat(ind2 + d + semi(d), nl2);
            lemma_strip_concat(ind2 + d, semi(d));
            lemma_strip_concat(ind2, d);
            lemma_strip_ws_only(ind2);
            lemma_strip_ws_only(nl2);
        }
        lemma_strip_concat(p1, emit_decls(ds, i + 1, ind1, nl1));
        lemma_strip_concat(p2, emit_decls(ds, i + 1, ind2, nl2));
        assert(emit_decls(ds, i, ind1, nl1) == p1 + emit_decls(ds, i + 1, ind1, nl1));
        assert(emit_decls(ds, i, ind2, nl2) == p2 + emit_decls(ds, i + 1, ind2, nl2));
    }
}

proof fn lemma_emit_blocks_ws(
    es: Seq<(Seq<char>, Seq<Seq<char>>)>,
    i: int,
    sp1: Seq<char>,
    nl1: Seq<char>,
    ind1: Seq<char>,
    sp2: Seq<char>,
    nl2: Seq<char>,
    ind2: Seq<char>,
)
    requires
        ws_only(sp1),
        ws_only(nl1),
        ws_only(ind1),
        ws_only(sp2),
        ws_only(nl2),
        ws_only(ind2),
    ensures
        strip_ws(emit_blocks(es, i, sp1, nl1, ind1)) == strip_ws(emit_blocks(es, i, sp2, nl2, ind2)),
    decreases es.len() - i,
{
    if 0 <= i < es.len() {
        lemma_emit_blocks_ws(es, i + 1, sp1, nl1, ind1, sp2, nl2, ind2);
        let k = es[i].0;
        let body1 = emit_decls(sort_strs(es[i].1), 0, ind1, nl1);
        let body2 = emit_decls(sort_strs(es[i].1), 0, ind2, nl2);
        lemma_emit_decls_ws(sort_strs(es[i].1), 0, ind1, nl1, ind2, nl2);
        let p1 = k + sp1 + "{"@ + nl1 + body1 + "}"@ + nl1 + nl1;
        let p2 = k + sp2 + "{"@ + nl2 + body2 + "}"@ + nl2 + nl2;
        assert(strip_ws(p1) =~= strip_ws(k) + "{"@.filter(|c: char| !crate::text::is_space(c))
            + strip_ws(body1) + "}"@.filter(|c: char| !crate::text::is_space(c))) by {
            lemma_strip_concat(k + sp1 + "{"@ + nl1 + body1 + "}"@ + nl1, nl1);
            lemma_strip_concat(k + sp1 + "{"@ + nl1 + body1 + "}"@, nl1);
            lemma_strip_concat(k + sp1 + "{"@ + nl1 + body1, "}"@);
            lemma_strip_concat(k + sp1 + "{"@ + nl1, body1);
            lemma_strip_concat(k + sp1 + "{"@, nl1);
            lemma_strip_concat(k + sp1, "{"@);
            lemma_strip_concat(k, sp1);
            lemma_strip_ws_only(sp1);
            lemma_strip_ws_only(nl1);
        }
        assert(strip_ws(p2) =~= strip_ws(k) + "{"@.filter(|c: char| !crate::text::is_space(c))
            + strip_ws(body2) + "}"@.filter(|c: char| !crate::text::is_space(c))) by {
            lemma_strip_concat(k + sp2 + "{"@ + nl2 + body2 + "}"@ + nl2, nl2);
            lemma_strip_concat(k + sp2 + "{"@ + nl2 + body2 + "}"@, nl2);
            lemma_strip_concat(k + sp2 + "{"@ + nl2 + body2, "}"@);
            lemma_strip_concat(k + sp2 + "{"@ + nl2, body2);
            lemma_strip_concat(k + sp2 + "{"@, nl2);
            lemma_strip_concat(k + sp2, "{"@);
            lemma_strip_concat(k, sp2);
            lemma_strip_ws_only(sp2);
            lemma_strip_ws_only(nl2);
        }
        lemma_strip_concat(p1, emit_blocks(es, i + 1, sp1, nl1, ind1));
        lemma_strip_concat(p2, emit_blocks(es, i + 1, sp2, nl2, ind2));
        assert(emit_blocks(es, i, sp1, nl1, ind1) == p1 + emit_blocks(es, i + 1, sp1, nl1, ind1));
        assert(emit_blocks(es, i, sp2, nl2, ind2) == p2 + emit_blocks(es, i + 1, sp2, nl2, ind2));
    }
}

proof fn lemma_ws_only_concat(a: Seq<char>, b: Seq<char>)
    requires
        ws_only(a),
        ws_only(b),
    ensures
        ws_only(a + b),
{
    assert forall|k: int| 0 <= k < (a + b).len() implies crate::text::is_space(
        #[trigger] (a + b)[k],
    ) by {
        if k < a.len() {
            assert((a + b)[k] == a[k]);
        } else {
            assert((a + b)[k] == b[k - a.len()]);
        }
    }
}

proof fn lemma_emit_frames_ws(
    fs: Seq<(Seq<char>, Seq<Seq<char>>)>,
    i: int,
    sp1: Seq<char>,
    nl1: Seq<char>,
    ind1: Seq<char>,
    sp2: Seq<char>,
    nl2: Seq<char>,
    ind2: Seq<char>,
)
    requires
        ws_only(sp1),
        ws_only(nl1),
        ws_only(ind1),
        ws_only(sp2),
        ws_only(nl2),
        ws_only(ind2),
    ensures
        strip_ws(emit_frames(fs, i, sp1, nl1, ind1)) == strip_ws(emit_frames(fs, i, sp2, nl2, ind2)),
    decreases fs.len() - i,
{
    if 0 <= i < fs.len() {
        lemma_emit_frames_ws(fs, i + 1, sp1, nl1, ind1, sp2, nl2, ind2);
        lemma_ws_only_concat(ind1, ind1);
        lemma_ws_only_concat(ind2, ind2);
        let k = fs[i].0;
        let body1 = emit_decls(sort_strs(fs[i].1), 0, ind1 + ind1, nl1);
        let body2 = emit_decls(sort_strs(fs[i].1), 0, ind2 + ind2, nl2);
        lemma_emit_decls_ws(sort_strs(fs[i].1), 0, ind1 + ind1, nl1, ind2 + ind2, nl2);
        let p1 = ind1 + k + sp1 + "{"@ + nl1 + body1 + ind1 + "}"@ + nl1 + nl1;
        let p2 = ind2 + k + sp2 + "{"@ + nl2 + body2 + ind2 + "}"@ + nl2 + nl2;
        assert(strip_ws(p1) =~= strip_ws(k) + "{"@.filter(|c: char| !crate::text::is_space(c))
            + strip_ws(body1) + "}"@.filter(|c: char| !crate::text::is_space(c))) by {
            lemma_strip_concat(ind1 + k + sp1 + "{"@ + nl1 + body1 + ind1 + "}"@ + nl1, nl1);
            lemma_strip_concat(ind1 + k + sp1 + "{"@ + nl1 + body1 + ind1 + "}"@, nl1);
            lemma_strip_concat(ind1 + k + sp1 + "{"@ + nl1 + body1 + ind1, "}"@);
            lemma_strip_concat(ind1 + k + sp1 + "{"@ + nl1 + body1, ind1);
            lemma_strip_concat(ind1 + k + sp1 + "{"@ + nl1, body1);
            lemma_strip_concat(ind1 + k + sp1 + "{"@, nl1);
            lemma_strip_concat(ind1 + k + sp1, "{"@);
            lemma_strip_concat(ind1 + k, sp1);
            lemma_strip_concat(ind1, k);
            lemma_strip_ws_only(sp1);
            lemma_strip_ws_only(nl1);
            lemma_strip_ws_only(ind1);
        }
        assert(strip_ws(p2) =~= strip_ws(k) + "{"@.filter(|c: char| !crate::text::is_space(c))
            + strip_ws(body2) + "}"@.filter(|c: char| !crate::text::is_space(c))) by {
            lemma_strip_concat(ind2 + k + sp2 + "{"@ + nl2 + body2 + ind2 + "}"@ + nl2, nl2);
            lemma_strip_concat(ind2 + k + sp2 + "{"@ + nl2 + body2 + ind2 + "}"@, nl2);
            lemma_strip_concat(ind2 + k + sp2 + "{"@ + nl2 + body2 + ind2, "}"@);
            lemma_strip_concat(ind2 + k + sp2 + "{"@ + nl2 + body2, ind2);
            lemma_strip_concat(ind2 + k + sp2 + "{"@ + nl2, body2);
            lemma_strip_concat(ind2 + k + sp2 + "{"@, nl2);
            lemma_strip_concat(ind2 + k + sp2, "{"@);
            lemma_strip_concat(ind2 + k, sp2);
            lemma_strip_concat(ind2, k);
            lemma_strip_ws_only(sp2);
            lemma_strip_ws_only(nl2);
            lemma_strip_ws_only(ind2);
        }
        lemma_strip_concat(p1, emit_frames(fs, i + 1, sp1, nl1, ind1));
        lemma_strip_concat(p2, emit_frames(fs, i + 1, sp2, nl2, ind2));
        assert(emit_frames(fs, i, sp1, nl1, ind1) == p1 + emit_frames(fs, i + 1, sp1, nl1, ind1));
        assert(emit_frames(fs, i, sp2, nl2, ind2) == p2 + emit_frames(fs, i + 1, sp2, nl2, ind2));
    }
}

proof fn lemma_emit_kf_tables_ws(
    ks: Seq<(Seq<char>, Seq<(Seq<char>, Seq<Seq<char>>)>)>,
    i: int,
    sp1: Seq<char>,
    nl1: Seq<char>,
    ind1: Seq<char>,
    sp2: Seq<char>,
    nl2: Seq<char>,
    ind2: Seq<char>,
)
    requires
        ws_only(sp1),
        ws_only(nl1),
        ws_only(ind1),
        ws_only(sp2),
        ws_only(nl2),
        ws_only(ind2),
    ensures
        strip_ws(emit_kf_tables(ks, i, sp1, nl1, ind1)) == strip_ws(
            emit_kf_tables(ks, i, sp2, nl2, ind2),
        ),
    decreases ks.len() - i,
{
    if 0 <= i < ks.len() {
        lemma_emit_kf_tables_ws(ks, i + 1, sp1, nl1, ind1, sp2, nl2, ind2);
        let k = ks[i].0;
        let body1 = emit_frames(sort_frames_spec(ks[i].1), 0, sp1, nl1, ind1);
        let body2 = emit_frames(sort_frames_spec(ks[i].1), 0, sp2, nl2, ind2);
        lemma_emit_frames_ws(sort_frames_spec(ks[i].1), 0, sp1, nl1, ind1, sp2, nl2, ind2);
        let p1 = k + sp1 + "{"@ + nl1 + body1 + "}"@ + nl1 + nl1;
        let p2 = k + sp2 + "{"@ + nl2 + body2 + "}"@ + nl2 + nl2;
        assert(strip_ws(p1) =~= strip_ws(k) + "{"@.filter(|c: char| !crate::text::is_space(c))
            + strip_ws(body1) + "}"@.filter(|c: char| !crate::text::is_space(c))) by {
            lemma_strip_concat(k + sp1 + "{"@ + nl1 + body1 + "}"@ + nl1, nl1);
            lemma_strip_concat(k + sp1 + "{"@ + nl1 + body1 + "}"@, nl1);
            lemma_strip_concat(k + sp1 + "{"@ + nl1 + body1, "}"@);
            lemma_strip_concat(k + sp1 + "{"@ + nl1, body1);
            lemma_strip_concat(k + sp1 + "{"@, nl1);
            lemma_strip_concat(k + sp1, "{"@);
            lemma_strip_concat(k, sp1);
            lemma_strip_ws_only(sp1);
            lemma_strip_ws_only(nl1);
        }
        assert(strip_ws(p2) =~= strip_ws(k) + "{"@.filter(|c: char| !crate::text::is_space(c))
            + strip_ws(body2) + "}"@.filter(|c: char| !crate::text::is_space(c))) by {
            lemma_strip_concat(k + sp2 + "{"@ + nl2 + body2 + "}"@ + nl2, nl2);
            lemma_strip_concat(k + sp2 + "{"@ + nl2 + body2 + "}"@, nl2);
            lemma_strip_concat(k + sp2 + "{"@ + nl2 + body2, "}"@);
            lemma_strip_concat(k + sp2 + "{"@ + nl2, body2);
            lemma_strip_concat(k + sp2 + "{"@, nl2);
            lemma_strip_concat(k + sp2, "{"@);
            lemma_strip_concat(k, sp2);
            lemma_strip_ws_only(sp2);
            lemma_strip_ws_only(nl2);
        }
        lemma_strip_concat(p1, emit_kf_tables(ks, i + 1, sp1, nl1, ind1));
        lemma_strip_concat(p2, emit_kf_tables(ks, i + 1, sp2, nl2, ind2));
        assert(emit_kf_tables(ks, i, sp1, nl1, ind1) == p1 + emit_kf_tables(
            ks,
            i + 1,
            sp1,
            nl1,
            ind1,
        ));
        assert(emit_kf_tables(ks, i, sp2, nl2, ind2) == p2 + emit_kf_tables(
            ks,
            i + 1,
            sp2,
            nl2,
            ind2,
        ));
    }
}

proof fn lemma_emit_media_inner_ws(
    es: Seq<(Seq<char>, Seq<Seq<char>>)>,
    i: int,
    sp1: Seq<char>,
    nl1: Seq<char>,
    ind1: Seq<char>,
    sp2: Seq<char>,
    nl2: Seq<char>,
    ind2: Seq<char>,
)
    requires
        ws_only(sp1),
        ws_only(nl1),
        ws_only(ind1),
        ws_only(sp2),
        ws_only(nl2),
        ws_only(ind2),
    ensures
        strip_ws(emit_media_inner(es, i, sp1, nl1, ind1)) == strip_ws(
            emit_media_inner(es, i, sp2, nl2, ind2),
        ),
    decreases es.len() - i,
{
    if 0 <= i < es.len() {
        lemma_emit_media_inner_ws(es, i + 1, sp1, nl1, ind1, sp2, nl2, ind2);
        lemma_ws_only_concat(ind1, ind1);
        lemma_ws_only_concat(ind2, ind2);
        let k = trim_spec(es[i].0);
        let body1 = emit_decls(sort_strs(es[i].1), 0, ind1 + ind1, nl1);
        let body2 = emit_decls(sort_strs(es[i].1), 0, ind2 + ind2, nl2);
        lemma_emit_decls_ws(sort_strs(es[i].1), 0, ind1 + ind1, nl1, ind2 + ind2, nl2);
        let p1 = ind1 + k + sp1 + "{"@ + nl1 + body1 + ind1 + "}"@ + nl1;
        let p2 = ind2 + k + sp2 + "{"@ + nl2 + body2 + ind2 + "}"@ + nl2;
        assert(strip_ws(p1) =~= strip_ws(k) + "{"@.filter(|c: char| !crate::text::is_space(c))
            + strip_ws(body1) + "}"@.filter(|c: char| !crate::text::is_space(c))) by {
            lemma_strip_concat(ind1 + k + sp1 + "{"@ + nl1 + body1 + ind1 + "}"@, nl1);
            lemma_strip_concat(ind1 + k + sp1 + "{"@ + nl1 + body1 + ind1, "}"@);
            lemma_strip_concat(ind1 + k + sp1 + "{"@ + nl1 + body1, ind1);
            lemma_strip_concat(ind1 + k + sp1 + "{"@ + nl1, body1);
            lemma_strip_concat(ind1 + k + sp1 + "{"@, nl1);
            lemma_strip_concat(ind1 + k + sp1, "{"@);
            lemma_strip_concat(ind1 + k, sp1);
            lemma_strip_concat(ind1, k);
            lemma_strip_ws_only(sp1);
            lemma_strip_ws_only(nl1);
            lemma_strip_ws_only(ind1);
        }
        assert(strip_ws(p2) =~= strip_ws(k) + "{"@.filter(|c: char| !crate::text::is_space(c))
            + strip_ws(body2) + "}"@.filter(|c: char| !crate::text::is_space(c))) by {
            lemma_strip_concat(ind2 + k + sp2 + "{"@ + nl2 + body2 + ind2 + "}"@, nl2);
            lemma_strip_concat(ind2 + k + sp2 + "{"@ + nl2 + body2 + ind2, "}"@);
            lemma_strip_concat(ind2 + k + sp2 + "{"@ + nl2 + body2, ind2);
            lemma_strip_concat(ind2 + k + sp2 + "{"@ + nl2, body2);
            lemma_strip_concat(ind2 + k + sp2 + "{"@, nl2);
            lemma_strip_concat(ind2 + k + sp2, "{"@);
            lemma_strip_concat(ind2 + k, sp2);
            lemma_strip_concat(ind2, k);
            lemma_strip_ws_only(sp2);
            lemma_strip_ws_only(nl2);
            lemma_strip_ws_only(ind2);
        }
        lemma_strip_concat(p1, emit_media_inner(es, i + 1, sp1, nl1, ind1));
        lemma_strip_concat(p2, emit_media_inner(es, i + 1, sp2, nl2, ind2));
        assert(emit_media_inner(es, i, sp1, nl1, ind1) == p1 + emit_media_inner(
            es,
            i + 1,
            sp1,
            nl1,
            ind1,
        ));
        assert(emit_media_inner(es, i, sp2, nl2, ind2) == p2 + emit_media_inner(
            es,
            i + 1,
            sp2,
            nl2,
            ind2,
        ));
    }
}

proof fn lemma_emit_media_blocks_ws(
    ms: Seq<(Seq<char>, Seq<(Seq<char>, Seq<Seq<char>>)>)>,
    i: int,
    sp1: Seq<char>,
    nl1: Seq<char>,
    ind1: Seq<char>,
    sp2: Seq<char>,
    nl2: Seq<char>,
    ind2: Seq<char>,
)
    requires
        ws_only(sp1),
        ws_only(nl1),
        ws_only(ind1),
        ws_only(sp2),
        ws_only(nl2),
        ws_only(ind2),
    ensures
        strip_ws(emit_media_blocks(ms, i, sp1, nl1, ind1)) == strip_ws(
            emit_media_blocks(ms, i, sp2, nl2, ind2),
        ),
    decreases ms.len() - i,
{
    if 0 <= i < ms.len() {
        lemma_emit_media_blocks_ws(ms, i + 1, sp1, nl1, ind1, sp2, nl2, ind2);
        let k = trim_spec(ms[i].0);
        let body1 = emit_media_inner(sort_lex(ms[i].1), 0, sp1, nl1, ind1);
        let body2 = emit_media_inner(sort_lex(ms[i].1), 0, sp2, nl2, ind2);
        lemma_emit_media_inner_ws(sort_lex(ms[i].1), 0, sp1, nl1, ind1, sp2, nl2, ind2);
        let p1 = k + sp1 + "{"@ + nl1 + body1 + "}"@ + nl1;
        let p2 = k + sp2 + "{"@ + nl2 + body2 + "}"@ + nl2;
        assert(strip_ws(p1) =~= strip_ws(k) + "{"@.filter(|c: char| !crate::text::is_space(c))
            + strip_ws(body1) + "}"@.filter(|c: char| !crate::text::is_space(c))) by {
            lemma_strip_concat(k + sp1 + "{"@ + nl1 + body1 + "}"@, nl1);
            lemma_strip_concat(k + sp1 + "{"@ + nl1 + body1, "}"@);
            lemma_strip_concat(k + sp1 + "{"@ + nl1, body1);
            lemma_strip_concat(k + sp1 + "{"@, nl1);
            lemma_strip_concat(k + sp1, "{"@);
            lemma_strip_concat(k, sp1);
            lemma_strip_ws_only(sp1);
            lemma_strip_ws_only(nl1);
        }
        assert(strip_ws(p2) =~= strip_ws(k) + "{"@.filter(|c: char| !crate::text::is_space(c))
            + strip_ws(body2) + "}"@.filter(|c: char| !crate::text::is_space(c))) by {
            lemma_strip_concat(k + sp2 + "{"@ + nl2 + body2 + "}"@, nl2);
            lemma_strip_concat(k + sp2 + "{"@ + nl2 + body2, "}"@);
            lemma_strip_concat(k + sp2 + "{"@ + nl2, body2);
            lemma_strip_concat(k + sp2 + "{"@, nl2);
            lemma_strip_concat(k + sp2, "{"@);
            lemma_strip_concat(k, sp2);
            lemma_strip_ws_only(sp2);
            lemma_strip_ws_only(nl2);
        }
        lemma_strip_concat(p1, emit_media_blocks(ms, i + 1, sp1, nl1, ind1));
        lemma_strip_concat(p2, emit_media_blocks(ms, i + 1, sp2, nl2, ind2));
        assert(emit_media_blocks(ms, i, sp1, nl1, ind1) == p1 + emit_media_blocks(
            ms,
            i + 1,
            sp1,
            nl1,
            ind1,
        ));
        assert(emit_media_blocks(ms, i, sp2, nl2, ind2) == p2 + emit_media_blocks(
            ms,
            i + 1,
            sp2,
            nl2,
            ind2,
        ));
    }
}

proof fn lemma_emit_oneliners_ws(os: Seq<Seq<char>>, i: int, nl1: Seq<char>, nl2: Seq<char>)
    requires
        ws_only(nl1),
        ws_only(nl2),
    ensures
        strip_ws(emit_oneliners(os, i, nl1)) == strip_ws(emit_oneliners(os, i, nl2)),
    decreases os.len() - i,
{
    if 0 <= i < os.len() {
        lemma_emit_oneliners_ws(os, i + 1, nl1, nl2);
        lemma_strip_concat(os[i], nl1);
        lemma_strip_concat(os[i], nl2);
        lemma_strip_ws_only(nl1);
        lemma_strip_ws_only(nl2);
        lemma_strip_concat(os[i] + nl1, emit_oneliners(os, i + 1, nl1));
        lemma_strip_concat(os[i] + nl2, emit_oneliners(os, i + 1, nl2));
        assert(strip_ws(os[i] + nl1) =~= strip_ws(os[i] + nl2));
        assert(emit_oneliners(os, i, nl1) == os[i] + nl1 + emit_oneliners(os, i + 1, nl1));
        assert(emit_oneliners(os, i, nl2) == os[i] + nl2 + emit_oneliners(os, i + 1, nl2));
    }
}

/// The two formatting modes agree on everything but whitespace: the
/// human-readable and the compact serialization of the same maps have
/// the same text once every whitespace character is removed.
pub proof fn lemma_modes_agree_up_to_whitespace(
    decls: Seq<(Seq<char>, Seq<Seq<char>>)>,
    kfs: Seq<(Seq<char>, Seq<(Seq<char>, Seq<Seq<char>>)>)>,
    oneliners: Seq<Seq<char>>,
    media: Seq<(Seq<char>, Seq<(Seq<char>, Seq<Seq<char>>)>)>,
)
    ensures
        strip_ws(css_output_spec(decls, kfs, oneliners, media, true)) == strip_ws(
            css_output_spec(decls, kfs, oneliners, media, false),
        ),
{
    let nl = "\n"@;
    let sp = " "@;
    let ind = "    "@;
    let e = Seq::<char>::empty();
    assert(ws_only(nl)) by {
        reveal_strlit("\n");
    }
    assert(ws_only(sp)) by {
        reveal_strlit(" ");
    }
    assert(ws_only(ind)) by {
        reveal_strlit("    ");
    }
    assert(ws_only(e));
    let o1 = emit_oneliners(oneliners, 0, nl);
    let o2 = emit_oneliners(oneliners, 0, e);
    let s1 = if oneliners.len() > 0 {
        nl
    } else {
        e
    };
    let s2 = e;
    let b1 = emit_blocks(sort_lex(decls), 0, sp, nl, ind);
    let b2 = emit_blocks(sort_lex(decls), 0, e, e, e);
    let k1 = emit_kf_tables(sort_lex(kfs), 0, sp, nl, ind);
    let k2 = emit_kf_tables(sort_lex(kfs), 0, e, e, e);
    let m1 = emit_media_blocks(media, 0, sp, nl, ind);
    let m2 = emit_media_blocks(media, 0, e, e, e);
    lemma_emit_oneliners_ws(oneliners, 0, nl, e);
    lemma_emit_blocks_ws(sort_lex(decls), 0, sp, nl, ind, e, e, e);
    lemma_emit_kf_tables_ws(sort_lex(kfs), 0, sp, nl, ind, e, e, e);
    lemma_emit_media_blocks_ws(media, 0, sp, nl, ind, e, e, e);
    lemma_strip_ws_only(nl);
    lemma_strip_ws_only(e);
    lemma_strip_concat(o1 + s1 + b1 + k1, m1);
    lemma_strip_concat(o1 + s1 + b1, k1);
    lemma_strip_concat(o1 + s1, b1);
    lemma_strip_concat(o1, s1);
    lemma_strip_concat(o2 + s2 + b2 + k2, m2);
    lemma_strip_concat(o2 + s2 + b2, k2);
    lemma_strip_concat(o2 + s2, b2);
    lemma_strip_concat(o2, s2);
    assert(strip_ws(css_output_spec(decls, kfs, oneliners, media, true)) =~= strip_ws(
        css_output_spec(decls, kfs, oneliners, media, false),
    ));
}

/// `needle` occurs contiguously somewhere inside `hay`.
pub open spec fn contains_seq(hay: Seq<char>, needle: Seq<char>) -> bool {
    exists|k: int|
        #![trigger hay.subrange(k, k + needle.len())]
        0 <= k && k + needle.len() <= hay.len() && hay.subrange(k, k + needle.len()) == needle
}

proof fn lemma_contains_left(a: Seq<char>, b: Seq<char>, n: Seq<char>)
    requires
        contains_seq(a, n),
    ensures
        contains_seq(a + b, n),
{
    let k = choose|k: int|
        #![trigger a.subrange(k, k + n.len())]
        0 <= k && k + n.len() <= a.len() && a.subrange(k, k + n.len()) == n;
    assert((a + b).subrange(k, k + n.len()) =~= a.subrange(k, k + n.len()));
}

proof fn lemma_contains_right(a: Seq<char>, b: Seq<char>, n: Seq<char>)
    requires
        contains_seq(b, n),
    ensures
        contains_seq(a + b, n),
{
    let k = choose|k: int|
        #![trigger b.subrange(k, k + n.len())]
        0 <= k && k + n.len() <= b.len() && b.subrange(k, k + n.len()) == n;
    let k2 = k + a.len();
    assert((a + b).subrange(k2, k2 + n.len()) =~= b.subrange(k, k + n.len()));
}

proof fn lemma_emit_decls_contains(ds: Seq<Seq<char>>, i: int, j: int, ind: Seq<char>, nl: Seq<char>)
    requires
        0 <= i <= j < ds.len(),
    ensures
        contains_seq(emit_decls(ds, i, ind, nl), ds[j] + semi(ds[j])),
    decreases j - i,
{
    let d = ds[i];
    let piece = ind + d + semi(d) + nl;
    if i == j {
        let k = ind.len() as int;
        let target = d + semi(d);
        assert(piece.subrange(k, k + target.len()) =~= target);
        lemma_contains_left(piece, emit_decls(ds, i + 1, ind, nl), target);
        assert(piece + emit_decls(ds, i + 1, ind, nl) =~= emit_decls(ds, i, ind, nl));
    } else {
        lemma_emit_decls_contains(ds, i + 1, j, ind, nl);
        lemma_contains_right(piece, emit_decls(ds, i + 1, ind, nl), ds[j] + semi(ds[j]));
        assert(piece + emit_decls(ds, i + 1, ind, nl) =~= emit_decls(ds, i, ind, nl));
    }
}

proof fn lemma_emit_blocks_contains(
    es: Seq<(Seq<char>, Seq<Seq<char>>)>,
    i: int,
    bi: int,
    di: int,
    sp: Seq<char>,
    nl: Seq<char>,
    ind: Seq<char>,
)
    requires
        0 <= i <= bi < es.len(),
        0 <= di < sort_strs(es[bi].1).len(),
    ensures
        contains_seq(
            emit_blocks(es, i, sp, nl, ind),
            sort_strs(es[bi].1)[di] + semi(sort_strs(es[bi].1)[di]),
        ),
    decreases bi - i,
{
    let body = emit_decls(sort_strs(es[i].1), 0, ind, nl);
    let piece = es[i].0 + sp + "{"@ + nl + body + "}"@ + nl + nl;
    let rest = emit_blocks(es, i + 1, sp, nl, ind);
    if i == bi {
        let target = sort_strs(es[bi].1)[di] + semi(sort_strs(es[bi].1)[di]);
        lemma_emit_decls_contains(sort_strs(es[bi].1), 0, di, ind, nl);
        lemma_contains_right(es[i].0 + sp + "{"@ + nl, body, target);
        lemma_contains_left(es[i].0 + sp + "{"@ + nl + body, "}"@ + nl + nl, target);
        assert((es[i].0 + sp + "{"@ + nl + body) + ("}"@ + nl + nl) =~= piece);
        lemma_contains_left(piece, rest, target);
        assert(piece + rest =~= emit_blocks(es, i, sp, nl, ind));
    } else {
        lemma_emit_blocks_contains(es, i + 1, bi, di, sp, nl, ind);
        lemma_contains_right(piece, rest, sort_strs(es[bi].1)[di] + semi(sort_strs(es[bi].1)[di]));
        assert(piece + rest =~= emit_blocks(es, i, sp, nl, ind));
    }
}

proof fn lemma_multiset_member_has_index<A>(s: Seq<A>, x: A)
    requires
        s.to_multiset().count(x) > 0,
    ensures
        exists|k: int| 0 <= k < s.len() && s[k] == x,
{
    broadcast use vstd::seq_lib::group_to_multiset_ensures;

    assert(s.contains(x));
    let k = choose|k: int| 0 <= k < s.len() && s[k] == x;
    assert(s[k] == x);
}

/// Every declaration line accumulated under a selector reaches the final
/// stylesheet text: the serialized output contains the line itself,
/// followed by the semicolon the emitter owes it, as contiguous text.
pub proof fn lemma_output_contains_declaration(
    decls: Seq<(Seq<char>, Seq<Seq<char>>)>,
    kfs: Seq<(Seq<char>, Seq<(Seq<char>, Seq<Seq<char>>)>)>,
    oneliners: Seq<Seq<char>>,
    media: Seq<(Seq<char>, Seq<(Seq<char>, Seq<Seq<char>>)>)>,
    human: bool,
    ei: int,
    di: int,
)
    requires
        0 <= ei < decls.len(),
        0 <= di < decls[ei].1.len(),
    ensures
        contains_seq(
            css_output_spec(decls, kfs, oneliners, media, human),
            decls[ei].1[di] + semi(decls[ei].1[di]),
        ),
{
    broadcast use vstd::seq_lib::group_to_multiset_ensures;
    broadcast use vstd::multiset::group_multiset_axioms;

    let nl = if human {
        "\n"@
    } else {
        Seq::<char>::empty()
    };
    let sp = if human {
        " "@
    } else {
        Seq::<char>::empty()
    };
    let ind = if human {
        "    "@
    } else {
        Seq::<char>::empty()
    };
    let d = decls[ei].1[di];
    let target = d + semi(d);
    // the entry survives the key sort
    crate::sort::lemma_sort_lex_sorted(decls);
    assert(decls.to_multiset().count(decls[ei]) > 0) by {
        assert(decls.contains(decls[ei]));
    }
    lemma_multiset_member_has_index(sort_lex(decls), decls[ei]);
    let bi = choose|k: int| 0 <= k < sort_lex(decls).len() && sort_lex(decls)[k] == decls[ei];
    // the line survives the line sort
    crate::sort::lemma_sort_strs_sorted(decls[ei].1);
    assert(decls[ei].1.to_multiset().count(d) > 0) by {
        assert(decls[ei].1.contains(d));
    }
    lemma_multiset_member_has_index(sort_strs(decls[ei].1), d);
    let di2 = choose|k: int| 0 <= k < sort_strs(decls[ei].1).len() && sort_strs(decls[ei].1)[k]
        == d;
    assert(sort_lex(decls)[bi].1 == decls[ei].1);
    lemma_emit_blocks_contains(sort_lex(decls), 0, bi, di2, sp, nl, ind);
    assert(sort_strs(sort_lex(decls)[bi].1)[di2] == d);
    let blocks = emit_blocks(sort_lex(decls), 0, sp, nl, ind);
    let front = emit_oneliners(oneliners, 0, nl) + (if oneliners.len() > 0 {
        nl
    } else {
        Seq::<char>::empty()
    });
    let tail = emit_kf_tables(sort_lex(kfs), 0, sp, nl, ind) + emit_media_blocks(
        media,
        0,
        sp,
        nl,
        ind,
    );
    lemma_contains_right(front, blocks, target);
    lemma_contains_left(front + blocks, tail, target);
    assert((front + blocks) + tail =~= css_output_spec(decls, kfs, oneliners, media, human));
}

/// Compiles one parsed file. The node stream is walked in order,
/// threading the scope and the output maps; the finished metadata record
/// replaces this file's cache entry. During the initial whole-project
/// pass only metadata is harvested and no stylesheet text is produced.
/// On any resolution error the cache is left untouched.
pub fn compile(
    nodes: &Vec<Node>,
    raw_source: &str,
    input_path: &str,
    relative_path: &str,
    project_meta_data: &mut ProjectCache,
    human_readable: bool,
    initial_compile: bool,
) -> (r: Result<Option<String>, RCSSError>)
    requires
        nodes_lines_ok(nodes_view(nodes@)),
        old(project_meta_data).wf(),
    ensures
        match r {
            Ok(out) => {
                &&& compile_nodes_spec(
                    nodes_view(nodes@),
                    old(project_meta_data).view_spec(),
                    relative_path@,
                    initial_compile,
                ) matches Ok(st)
                &&& final(project_meta_data).view_spec() == assoc_set(
                    old(project_meta_data).view_spec(),
                    input_path@,
                    st.meta,
                )
                &&& final(project_meta_data).wf()
                &&& if initial_compile {
                    out is None
                } else {
                    out matches Some(css) && css@ == css_output_spec(
                        st.decls,
                        st.kfs,
                        st.oneliners,
                        st.media,
                        human_readable,
                    )
                }
            },
            Err(e) => {
                &&& compile_nodes_spec(
                    nodes_view(nodes@),
                    old(project_meta_data).view_spec(),
                    relative_path@,
                    initial_compile,
                ) matches Err(ce)
                &&& *final(project_meta_data) == *old(project_meta_data)
                &&& match ce {
                    CompErr::Rule(re) => rule_err_matches(e, re, input_path@, raw_source@),
                    CompErr::Import { path, line: l, column: c } => {
                        &&& e matches RCSSError::ImportError {
                            file_path,
                            import_path,
                            line,
                            column,
                            message,
                            context,
                        }
                        &&& file_path@ == input_path@
                        &&& import_path@ == path
                        &&& line as int == l
                        &&& column as int == c
                        &&& message@ == "File not found"@
                        &&& context@ == error_context_spec(raw_source@, l, 2)
                    },
                }
            },
        },
{
    let ghost nv = nodes_view(nodes@);
    let ghost cache0 = project_meta_data.view_spec();
    proof {
        lemma_nodes_view(nodes@);
    }
    let mut meta_data: Vec<MetaData> = Vec::new();
    let mut declarations = StrMap::new();
    let mut keyframes = NestedMap::new();
    let mut one_liners: Vec<String> = Vec::new();
    let mut media_queries = NestedMap::new();
    let n = nodes.len();
    let mut i: usize = 0;
    proof {
        assert(meta_data.deep_view() =~= Seq::<MetaV>::empty());
        assert(one_liners.deep_view() =~= Seq::<Seq<char>>::empty());
        assert(CompStateV {
            meta: meta_data.deep_view(),
            decls: declarations.view_spec(),
            kfs: keyframes.view_spec(),
            oneliners: one_liners.deep_view(),
            media: media_queries.view_spec(),
        } == comp_state_empty());
    }
    while i < n
        invariant
            0 <= i <= n,
            n == nodes.len(),
            nv == nodes_view(nodes@),
            nv.len() == n,
            nodes_lines_ok(nv),
            cache0 == project_meta_data.view_spec(),
            *project_meta_data == *old(project_meta_data),
            project_meta_data.wf(),
            declarations.wf(),
            keyframes.wf(),
            media_queries.wf(),
            compile_step(nv, cache0, relative_path@, initial_compile, 0, comp_state_empty())
                == compile_step(
                nv,
                cache0,
                relative_path@,
                initial_compile,
                i as int,
                CompStateV {
                    meta: meta_data.deep_view(),
                    decls: declarations.view_spec(),
                    kfs: keyframes.view_spec(),
                    oneliners: one_liners.deep_view(),
                    media: media_queries.view_spec(),
                },
            ),
        decreases n - i,
    {
        proof {
            lemma_nodes_view(nodes@);
            assert(nv[i as int] == node_view(nodes@[i as int]));
            assert(node_lines_ok(nv[i as int]));
        }
        let node = &nodes[i];
        let ghost st_cur = CompStateV {
            meta: meta_data.deep_view(),
            decls: declarations.view_spec(),
            kfs: keyframes.view_spec(),
            oneliners: one_liners.deep_view(),
            media: media_queries.view_spec(),
        };
        if node.kind == NodeKind::ImportStatement {
            if !initial_compile {
                let ghost mv = meta_data.deep_view();
                match process_import_statement(
                    meta_data,
                    project_meta_data,
                    node,
                    raw_source,
                    input_path,
                    relative_path,
                ) {
                    Ok(m2) => {
                        meta_data = m2;
                    },
                    Err(e) => {
                        proof {
                            assert(process_import_spec(nv[i as int], cache0, mv, relative_path@)
                                matches Err(_));
                            assert(compile_step(
                                nv,
                                cache0,
                                relative_path@,
                                initial_compile,
                                i as int,
                                st_cur,
                            ) matches Err(_));
                        }
                        return Err(e);
                    },
                }
            }
        } else if node.kind == NodeKind::VariableDeclaration {
            meta_data = process_variable_declaration(meta_data, node);
        } else if node.kind == NodeKind::FunctionDefinition {
            let ghost mv = meta_data.deep_view();
            match process_function_definition(
                meta_data,
                node,
                raw_source,
                input_path,
                initial_compile,
            ) {
                Ok(m2) => {
                    meta_data = m2;
                },
                Err(e) => {
                    proof {
                        assert(process_fn_def_spec(nv[i as int], mv) matches Err(_));
                        assert(compile_step(
                            nv,
                            cache0,
                            relative_path@,
                            initial_compile,
                            i as int,
                            st_cur,
                        ) matches Err(_));
                    }
                    return Err(e);
                },
            }
        } else if node.kind == NodeKind::RuleNormal {
            if !initial_compile {
                let ghost dv = declarations.view_spec();
                match process_rule_normal(&meta_data, declarations, node, raw_source, input_path) {
                    Ok(d2) => {
                        declarations = d2;
                    },
                    Err(e) => {
                        proof {
                            assert(process_rule_spec(nv[i as int], meta_data.deep_view(), dv)
                                matches Err(_));
                            assert(compile_step(
                                nv,
                                cache0,
                                relative_path@,
                                initial_compile,
                                i as int,
                                st_cur,
                            ) matches Err(_));
                        }
                        return Err(e);
                    },
                }
            }
        } else if node.kind == NodeKind::KeyframesRule {
            if !initial_compile {
                let ghost kv = keyframes.view_spec();
                match process_keyframes_definition(
                    keyframes,
                    node,
                    &meta_data,
                    raw_source,
                    input_path,
                ) {
                    Ok(k2) => {
                        keyframes = k2;
                    },
                    Err(e) => {
                        proof {
                            assert(process_keyframes_spec(nv[i as int], meta_data.deep_view(), kv)
                                matches Err(_));
                            assert(compile_step(
                                nv,
                                cache0,
                                relative_path@,
                                initial_compile,
                                i as int,
                                st_cur,
                            ) matches Err(_));
                        }
                        return Err(e);
                    },
                }
            }
        } else if node.kind == NodeKind::AtMethodsOneliner {
            let ghost ov = one_liners.deep_view();
            let line = crate::text::trim(node.text.as_str());
            proof {
                assert(one_liners.deep_view().len() == one_liners@.len());
            }
            one_liners.push(line);
            proof {
                assert(one_liners@.len() == ov.len() + 1);
                assert(one_liners.deep_view() =~= ov.push(trim_spec(nv[i as int].text)));
            }
        } else if node.kind == NodeKind::MediaQuery {
            if !initial_compile {
                let ghost mqv = media_queries.view_spec();
                match process_media_query(
                    media_queries,
                    node,
                    &meta_data,
                    raw_source,
                    input_path,
                ) {
                    Ok(m2) => {
                        media_queries = m2;
                    },
                    Err(e) => {
                        proof {
                            assert(process_media_spec(nv[i as int], meta_data.deep_view(), mqv)
                                matches Err(_));
                            assert(compile_step(
                                nv,
                                cache0,
                                relative_path@,
                                initial_compile,
                                i as int,
                                st_cur,
                            ) matches Err(_));
                        }
                        return Err(e);
                    },
                }
            }
        }
        proof {
            assert(compile_step(nv, cache0, relative_path@, initial_compile, i as int, st_cur)
                == compile_step(
                nv,
                cache0,
                relative_path@,
                initial_compile,
                i + 1,
                CompStateV {
                    meta: meta_data.deep_view(),
                    decls: declarations.view_spec(),
                    kfs: keyframes.view_spec(),
                    oneliners: one_liners.deep_view(),
                    media: media_queries.view_spec(),
                },
            ));
        }
        i = i + 1;
    }
    let ghost st_fin = CompStateV {
        meta: meta_data.deep_view(),
        decls: declarations.view_spec(),
        kfs: keyframes.view_spec(),
        oneliners: one_liners.deep_view(),
        media: media_queries.view_spec(),
    };
    proof {
        assert(compile_step(nv, cache0, relative_path@, initial_compile, n as int, st_fin)
            == Ok::<CompStateV, CompErr>(st_fin));
    }
    let css = if initial_compile {
        None
    } else {
        Some(
            css_map_to_string(
                &declarations,
                &keyframes,
                &one_liners,
                &media_queries,
                human_readable,
            ),
        )
    };
    project_meta_data.set(input_path, meta_data);
    Ok(css)
}

} // verus!
