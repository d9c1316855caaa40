//! A verified core for a nested stylesheet compiler: syntax-node model,
//! variable and macro resolution, selector flattening, keyframe and media
//! handling, a cross-file metadata cache, and deterministic emission.
use vstd::prelude::*;

pub mod ast;
pub mod common;
pub mod compile;
pub mod error;
pub mod maps;
pub mod process_x;
pub mod sort;
pub mod text;

use maps::StrMap;

verus! {

/// A metadata entry harvested while compiling one file: a substitutable
/// variable, a reusable declaration block, or a keyframe table.
#[derive(Debug)]
pub enum MetaData {
    Variables { name: String, value: String },
    Function { name: String, body: Vec<String> },
    Keyframes { name: String, body: StrMap },
}

/// The mathematical view of a metadata entry.
pub enum MetaV {
    Variables { name: Seq<char>, value: Seq<char> },
    Function { name: Seq<char>, body: Seq<Seq<char>> },
    Keyframes { name: Seq<char>, body: Seq<(Seq<char>, Seq<Seq<char>>)> },
}

impl DeepView for MetaData {
    type V = MetaV;

    open spec fn deep_view(&self) -> MetaV {
        match self {
            MetaData::Variables { name, value } => MetaV::Variables {
                name: name@,
                value: value@,
            },
            MetaData::Function { name, body } => MetaV::Function {
                name: name@,
                body: body.deep_view(),
            },
            MetaData::Keyframes { name, body } => MetaV::Keyframes {
                name: name@,
                body: body.view_spec(),
            },
        }
    }
}

/// The value of the first variable named `name` in the scope, scanning
/// from the front; later declarations of the same name do not shadow it.
pub open spec fn lookup_var(scope: Seq<MetaV>, name: Seq<char>) -> Option<Seq<char>>
    decreases scope.len(),
{
    if scope.len() == 0 {
        None
    } else {
        match scope[0] {
            MetaV::Variables { name: n, value: v } => if n == name {
                Some(v)
            } else {
                lookup_var(scope.subrange(1, scope.len() as int), name)
            },
            _ => lookup_var(scope.subrange(1, scope.len() as int), name),
        }
    }
}

/// The body of the last function named `name` in the scope, scanning
/// from the back; a redefinition shadows an earlier one.
pub open spec fn lookup_fn(scope: Seq<MetaV>, name: Seq<char>) -> Option<Seq<Seq<char>>>
    decreases scope.len(),
{
    if scope.len() == 0 {
        None
    } else {
        match scope[scope.len() - 1] {
            MetaV::Function { name: n, body } => if n == name {
                Some(body)
            } else {
                lookup_fn(scope.subrange(0, scope.len() - 1), name)
            },
            _ => lookup_fn(scope.subrange(0, scope.len() - 1), name),
        }
    }
}

/// A copy of a vector of strings, equal in view.
pub fn clone_string_vec(v: &Vec<String>) -> (r: Vec<String>)
    ensures
        r.deep_view() == v.deep_view(),
{
    let mut r: Vec<String> = Vec::new();
    let n = v.len();
    let mut i: usize = 0;
    while i < n
        invariant
            0 <= i <= n,
            n == v.len(),
            r.deep_view() == v.deep_view().subrange(0, i as int),
        decreases n - i,
    {
        let ghost r0 = r.deep_view();
        let x = v[i].clone();
        proof {
            assert(r.deep_view().len() == i);
            assert(r@.len() == i);
            assert(x@ == v.deep_view()[i as int]);
        }
        r.push(x);
        proof {
            assert(r@.len() == i + 1);
            assert(r.deep_view().len() == i + 1);
            assert(forall|m: int| 0 <= m < i ==> #[trigger] r.deep_view()[m] == r0[m]);
            assert(r.deep_view() =~= v.deep_view().subrange(0, i + 1));
        }
        i = i + 1;
    }
    proof {
        assert(v.deep_view().subrange(0, n as int) =~= v.deep_view());
    }
    r
}

/// A copy of a declaration map, equal in view.
pub fn clone_strmap(m: &StrMap) -> (r: StrMap)
    ensures
        r.view_spec() == m.view_spec(),
{
    let mut entries: Vec<maps::MapEntry> = Vec::new();
    let n = m.entries.len();
    let mut i: usize = 0;
    while i < n
        invariant
            0 <= i <= n,
            n == m.entries.len(),
            entries.deep_view() == m.entries.deep_view().subrange(0, i as int),
        decreases n - i,
    {
        let e = maps::MapEntry {
            key: m.entries[i].key.clone(),
            values: clone_string_vec(&m.entries[i].values),
        };
        proof {
            assert(entries.deep_view().len() == i);
            assert(entries@.len() == i);
        }
        entries.push(e);
        proof {
            assert(entries@.len() == i + 1);
            assert(entries.deep_view() =~= m.entries.deep_view().subrange(0, i + 1));
        }
        i = i + 1;
    }
    proof {
        assert(m.entries.deep_view().subrange(0, n as int) =~= m.entries.deep_view());
    }
    StrMap { entries }
}

/// A copy of a nested block map, equal in view.
pub fn clone_nestedmap(m: &maps::NestedMap) -> (r: maps::NestedMap)
    ensures
        r.view_spec() == m.view_spec(),
{
    let mut entries: Vec<maps::NestedEntry> = Vec::new();
    let n = m.entries.len();
    let mut i: usize = 0;
    while i < n
        invariant
            0 <= i <= n,
            n == m.entries.len(),
            entries.deep_view() == m.entries.deep_view().subrange(0, i as int),
        decreases n - i,
    {
        let e = maps::NestedEntry {
            key: m.entries[i].key.clone(),
            inner: clone_strmap(&m.entries[i].inner),
        };
        proof {
            assert(entries.deep_view().len() == i);
            assert(entries@.len() == i);
        }
        entries.push(e);
        proof {
            assert(entries@.len() == i + 1);
            assert(entries.deep_view() =~= m.entries.deep_view().subrange(0, i + 1));
        }
        i = i + 1;
    }
    proof {
        assert(m.entries.deep_view().subrange(0, n as int) =~= m.entries.deep_view());
    }
    maps::NestedMap { entries }
}

/// A copy of one metadata entry, equal in view.
pub fn clone_meta(m: &MetaData) -> (r: MetaData)
    ensures
        r.deep_view() == m.deep_view(),
{
    match m {
        MetaData::Variables { name, value } => MetaData::Variables {
            name: name.clone(),
            value: value.clone(),
        },
        MetaData::Function { name, body } => MetaData::Function {
            name: name.clone(),
            body: clone_string_vec(body),
        },
        MetaData::Keyframes { name, body } => MetaData::Keyframes {
            name: name.clone(),
            body: clone_strmap(body),
        },
    }
}

/// A copy of a metadata record, equal in view.
pub fn clone_meta_vec(v: &Vec<MetaData>) -> (r: Vec<MetaData>)
    ensures
        r.deep_view() == v.deep_view(),
{
    let mut r: Vec<MetaData> = Vec::new();
    let n = v.len();
    let mut i: usize = 0;
    while i < n
        invariant
            0 <= i <= n,
            n == v.len(),
            r.deep_view() == v.deep_view().subrange(0, i as int),
        decreases n - i,
    {
        let e = clone_meta(&v[i]);
        proof {
            assert(r.deep_view().len() == i);
            assert(r@.len() == i);
        }
        r.push(e);
        proof {
            assert(r@.len() == i + 1);
            assert(r.deep_view() =~= v.deep_view().subrange(0, i + 1));
        }
        i = i + 1;
    }
    proof {
        assert(v.deep_view().subrange(0, n as int) =~= v.deep_view());
    }
    r
}

proof fn lemma_lookup_var_skip(scope: Seq<MetaV>, name: Seq<char>, i: int)
    requires
        0 <= i <= scope.len(),
        forall|m: int|
            0 <= m < i ==> !((#[trigger] scope[m]) matches MetaV::Variables { name: n, .. } && n == name),
    ensures
        lookup_var(scope, name) == lookup_var(scope.subrange(i, scope.len() as int), name),
    decreases i,
{
    if i == 0 {
        assert(scope.subrange(0, scope.len() as int) =~= scope);
    } else {
        let t = scope.subrange(1, scope.len() as int);
        assert(forall|m: int|
            0 <= m < i - 1 ==> !((#[trigger] t[m]) matches MetaV::Variables { name: n, .. } && n == name));
        lemma_lookup_var_skip(t, name, i - 1);
        assert(t.subrange(i - 1, t.len() as int) =~= scope.subrange(i, scope.len() as int));
    }
}

/// The value of the first variable named `name`, found by scanning.
pub fn lookup_variable(scope: &Vec<MetaData>, name: &str) -> (r: Option<String>)
    ensures
        match r {
            Some(v) => lookup_var(scope.deep_view(), name@) == Some(v@),
            None => lookup_var(scope.deep_view(), name@) is None,
        },
{
    let n = scope.len();
    let mut i: usize = 0;
    while i < n
        invariant
            0 <= i <= n,
            n == scope.len(),
            scope.deep_view().len() == n,
            forall|m: int|
                0 <= m < i ==> !((#[trigger] scope.deep_view()[m]) matches MetaV::Variables {
                    name: nm,
                    ..
                } && nm == name@),
        decreases n - i,
    {
        match &scope[i] {
            MetaData::Variables { name: nm, value } => {
                if text::str_eq(nm.as_str(), name) {
                    proof {
                        lemma_lookup_var_skip(scope.deep_view(), name@, i as int);
                        assert(scope.deep_view().subrange(i as int, n as int)[0]
                            == scope.deep_view()[i as int]);
                    }
                    return Some(value.clone());
                }
            },
            _ => {},
        }
        i = i + 1;
    }
    proof {
        lemma_lookup_var_skip(scope.deep_view(), name@, n as int);
        assert(scope.deep_view().subrange(n as int, n as int) =~= Seq::<MetaV>::empty());
    }
    None
}

proof fn lemma_lookup_fn_skip(scope: Seq<MetaV>, name: Seq<char>, i: int)
    requires
        0 <= i <= scope.len(),
        forall|m: int|
            i <= m < scope.len() ==> !((#[trigger] scope[m]) matches MetaV::Function { name: n, .. } && n
                == name),
    ensures
        lookup_fn(scope, name) == lookup_fn(scope.subrange(0, i), name),
    decreases scope.len() - i,
{
    if i == scope.len() {
        assert(scope.subrange(0, scope.len() as int) =~= scope);
    } else {
        let t = scope.subrange(0, scope.len() - 1);
        assert(forall|m: int|
            i <= m < t.len() ==> !((#[trigger] t[m]) matches MetaV::Function { name: n, .. } && n == name));
        lemma_lookup_fn_skip(t, name, i);
        assert(t.subrange(0, i) =~= scope.subrange(0, i));
    }
}

/// The body of the last function named `name`, found by scanning from
/// the back.
pub fn lookup_function(scope: &Vec<MetaData>, name: &str) -> (r: Option<Vec<String>>)
    ensures
        match r {
            Some(b) => lookup_fn(scope.deep_view(), name@) == Some(b.deep_view()),
            None => lookup_fn(scope.deep_view(), name@) is None,
        },
{
    let n = scope.len();
    let mut i: usize = n;
    while i > 0
        invariant
            0 <= i <= n,
            n == scope.len(),
            scope.deep_view().len() == n,
            forall|m: int|
                i <= m < n ==> !((#[trigger] scope.deep_view()[m]) matches MetaV::Function {
                    name: nm,
                    ..
                } && nm == name@),
        decreases i,
    {
        i = i - 1;
        match &scope[i] {
            MetaData::Function { name: nm, body } => {
                if text::str_eq(nm.as_str(), name) {
                    proof {
                        lemma_lookup_fn_skip(scope.deep_view(), name@, i + 1);
                        let t = scope.deep_view().subrange(0, i + 1);
                        assert(t[t.len() - 1] == scope.deep_view()[i as int]);
                    }
                    return Some(clone_string_vec(body));
                }
            },
            _ => {},
        }
    }
    proof {
        lemma_lookup_fn_skip(scope.deep_view(), name@, 0);
        assert(scope.deep_view().subrange(0, 0) =~= Seq::<MetaV>::empty());
    }
    None
}

/// Variable lookup distributes over scope concatenation: the front part
/// wins where it has the name.
pub proof fn lemma_lookup_var_concat(a: Seq<MetaV>, b: Seq<MetaV>, name: Seq<char>)
    ensures
        lookup_var(a + b, name) == (if lookup_var(a, name) is Some {
            lookup_var(a, name)
        } else {
            lookup_var(b, name)
        }),
    decreases a.len(),
{
    if a.len() == 0 {
        assert(a + b =~= b);
    } else {
        let s = a + b;
        assert(s[0] == a[0]);
        assert(s.subrange(1, s.len() as int) =~= a.subrange(1, a.len() as int) + b);
        lemma_lookup_var_concat(a.subrange(1, a.len() as int), b, name);
    }
}

/// Function lookup distributes over scope concatenation: the back part
/// wins where it has the name.
pub proof fn lemma_lookup_fn_concat(a: Seq<MetaV>, b: Seq<MetaV>, name: Seq<char>)
    ensures
        lookup_fn(a + b, name) == (if lookup_fn(b, name) is Some {
            lookup_fn(b, name)
        } else {
            lookup_fn(a, name)
        }),
    decreases b.len(),
{
    if b.len() == 0 {
        assert(a + b =~= a);
    } else {
        let s = a + b;
        assert(s[s.len() - 1] == b[b.len() - 1]);
        assert(s.subrange(0, s.len() - 1) =~= a + b.subrange(0, b.len() - 1));
        lemma_lookup_fn_concat(a, b.subrange(0, b.len() - 1), name);
    }
}

/// Importing the same metadata record twice resolves every variable
/// exactly as importing it once does.
pub proof fn lemma_import_idempotent_var(scope: Seq<MetaV>, imported: Seq<MetaV>, name: Seq<char>)
    ensures
        lookup_var((scope + imported) + imported, name) == lookup_var(scope + imported, name),
{
    lemma_lookup_var_concat(scope + imported, imported, name);
    lemma_lookup_var_concat(scope, imported, name);
}

/// Importing the same metadata record twice resolves every function
/// exactly as importing it once does.
pub proof fn lemma_import_idempotent_fn(scope: Seq<MetaV>, imported: Seq<MetaV>, name: Seq<char>)
    ensures
        lookup_fn((scope + imported) + imported, name) == lookup_fn(scope + imported, name),
{
    lemma_lookup_fn_concat(scope + imported, imported, name);
    lemma_lookup_fn_concat(scope, imported, name);
}

} // verus!
