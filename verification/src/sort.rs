//! Stable insertion sorts used by the emitter: declaration lines and
//! selector keys sort lexicographically by code point, keyframe frames
//! numerically by their percentage.
use vstd::prelude::*;

use vstd::multiset::Multiset;
use vstd::seq_lib::lemma_multiset_commutative;

use crate::maps::{MapEntry, NestedEntry, NestedMap, StrMap};
use crate::text::{ends_with_char, ends_with_char_spec, lex_le, lex_le_exec, percent_rank,
    percent_rank_exec};

verus! {

/// `e` inserted after every line at most it, before the rest.
pub open spec fn insert_str(s: Seq<Seq<char>>, e: Seq<char>) -> Seq<Seq<char>>
    decreases s.len(),
{
    if s.len() == 0 {
        seq![e]
    } else if lex_le(s[0], e) {
        seq![s[0]] + insert_str(s.subrange(1, s.len() as int), e)
    } else {
        seq![e] + s
    }
}

/// The lines from index `i` on, folded into `acc` one insertion at a
/// time: a stable insertion sort.
pub open spec fn sort_strs_acc(s: Seq<Seq<char>>, i: int, acc: Seq<Seq<char>>) -> Seq<Seq<char>>
    decreases s.len() - i,
{
    if i < 0 || i >= s.len() {
        acc
    } else {
        sort_strs_acc(s, i + 1, insert_str(acc, s[i]))
    }
}

/// The lines sorted lexicographically, equal lines keeping their order.
pub open spec fn sort_strs(s: Seq<Seq<char>>) -> Seq<Seq<char>> {
    sort_strs_acc(s, 0, Seq::empty())
}

/// `e` inserted among entries ordered lexicographically by key.
pub open spec fn insert_lex<V>(s: Seq<(Seq<char>, V)>, e: (Seq<char>, V)) -> Seq<(Seq<char>, V)>
    decreases s.len(),
{
    if s.len() == 0 {
        seq![e]
    } else if lex_le(s[0].0, e.0) {
        seq![s[0]] + insert_lex(s.subrange(1, s.len() as int), e)
    } else {
        seq![e] + s
    }
}

/// The entries from index `i` on, folded into `acc`.
pub open spec fn sort_lex_acc<V>(
    s: Seq<(Seq<char>, V)>,
    i: int,
    acc: Seq<(Seq<char>, V)>,
) -> Seq<(Seq<char>, V)>
    decreases s.len() - i,
{
    if i < 0 || i >= s.len() {
        acc
    } else {
        sort_lex_acc(s, i + 1, insert_lex(acc, s[i]))
    }
}

/// The entries sorted lexicographically by key.
pub open spec fn sort_lex<V>(s: Seq<(Seq<char>, V)>) -> Seq<(Seq<char>, V)> {
    sort_lex_acc(s, 0, Seq::empty())
}

/// `e` inserted among frames ordered by numeric rank.
pub open spec fn insert_rank(
    s: Seq<(Seq<char>, Seq<Seq<char>>)>,
    e: (Seq<char>, Seq<Seq<char>>),
) -> Seq<(Seq<char>, Seq<Seq<char>>)>
    decreases s.len(),
{
    if s.len() == 0 {
        seq![e]
    } else if percent_rank(s[0].0) <= percent_rank(e.0) {
        seq![s[0]] + insert_rank(s.subrange(1, s.len() as int), e)
    } else {
        seq![e] + s
    }
}

/// The frames from index `i` on, folded into `acc`.
pub open spec fn sort_rank_acc(
    s: Seq<(Seq<char>, Seq<Seq<char>>)>,
    i: int,
    acc: Seq<(Seq<char>, Seq<Seq<char>>)>,
) -> Seq<(Seq<char>, Seq<Seq<char>>)>
    decreases s.len() - i,
{
    if i < 0 || i >= s.len() {
        acc
    } else {
        sort_rank_acc(s, i + 1, insert_rank(acc, s[i]))
    }
}

/// The frames sorted numerically ascending, equal ranks keeping their
/// order.
pub open spec fn sort_rank(s: Seq<(Seq<char>, Seq<Seq<char>>)>) -> Seq<(Seq<char>, Seq<Seq<char>>)> {
    sort_rank_acc(s, 0, Seq::empty())
}

/// Every frame selector ends with a percent sign.
pub open spec fn all_percent(s: Seq<(Seq<char>, Seq<Seq<char>>)>) -> bool {
    forall|k: int| 0 <= k < s.len() ==> ends_with_char_spec((#[trigger] s[k]).0, '%')
}

/// How one keyframe table's frames are ordered at emission: numerically
/// where every selector is a percentage, lexicographically otherwise.
pub open spec fn sort_frames_spec(s: Seq<(Seq<char>, Seq<Seq<char>>)>) -> Seq<
    (Seq<char>, Seq<Seq<char>>),
> {
    if all_percent(s) {
        sort_rank(s)
    } else {
        sort_lex(s)
    }
}

/// Entries stand in ascending lexicographic order of their keys.
pub open spec fn lex_sorted<V>(s: Seq<(Seq<char>, V)>) -> bool {
    forall|i: int, j: int| 0 <= i < j < s.len() ==> lex_le((#[trigger] s[i]).0, (#[trigger] s[j]).0)
}

/// Lines stand in ascending lexicographic order.
pub open spec fn strs_sorted(s: Seq<Seq<char>>) -> bool {
    forall|i: int, j: int| 0 <= i < j < s.len() ==> lex_le(#[trigger] s[i], #[trigger] s[j])
}

/// The first position whose key exceeds `e`'s, or `s.len()`.
spec fn lex_pos<V>(s: Seq<(Seq<char>, V)>, e: (Seq<char>, V)) -> int
    decreases s.len(),
{
    if s.len() == 0 {
        0
    } else if !lex_le(s[0].0, e.0) {
        0
    } else {
        1 + lex_pos(s.subrange(1, s.len() as int), e)
    }
}

proof fn lemma_lex_pos<V>(s: Seq<(Seq<char>, V)>, e: (Seq<char>, V))
    ensures
        0 <= lex_pos(s, e) <= s.len(),
        forall|k: int| 0 <= k < lex_pos(s, e) ==> lex_le((#[trigger] s[k]).0, e.0),
        lex_pos(s, e) < s.len() ==> !lex_le(s[lex_pos(s, e)].0, e.0),
    decreases s.len(),
{
    if s.len() > 0 && lex_le(s[0].0, e.0) {
        let t = s.subrange(1, s.len() as int);
        lemma_lex_pos(t, e);
        assert forall|k: int| 0 <= k < lex_pos(s, e) implies lex_le((#[trigger] s[k]).0, e.0) by {
            if k > 0 {
                assert(t[k - 1] == s[k]);
            }
        }
    }
}

proof fn lemma_insert_lex_sorted<V>(s: Seq<(Seq<char>, V)>, e: (Seq<char>, V))
    requires
        lex_sorted(s),
    ensures
        lex_sorted(insert_lex(s, e)),
        insert_lex(s, e).to_multiset() == s.push(e).to_multiset(),
{
    broadcast use vstd::seq_lib::lemma_multiset_commutative;
    broadcast use vstd::seq_lib::group_to_multiset_ensures;
    broadcast use vstd::multiset::group_multiset_axioms;

    let p = lex_pos(s, e);
    lemma_lex_pos(s, e);
    lemma_insert_lex_at(s, e, p);
    let r = insert_lex(s, e);
    assert(r == s.subrange(0, p) + seq![e] + s.subrange(p, s.len() as int));
    assert(r.len() == s.len() + 1);
    assert forall|i: int, j: int|
        0 <= i < j < r.len() implies lex_le((#[trigger] r[i]).0, (#[trigger] r[j]).0) by {
        let ri = if i < p {
            s[i]
        } else if i == p {
            e
        } else {
            s[i - 1]
        };
        let rj = if j < p {
            s[j]
        } else if j == p {
            e
        } else {
            s[j - 1]
        };
        assert(r[i] == ri);
        assert(r[j] == rj);
        if i < p && j == p {
        } else if i == p && j > p {
            assert(!lex_le(s[p].0, e.0));
            crate::text::lemma_lex_le_total(s[p].0, e.0);
            assert(lex_le(e.0, s[p].0));
            if j - 1 > p {
                assert(lex_le(s[p].0, s[j - 1].0));
                crate::text::lemma_lex_le_trans(e.0, s[p].0, s[j - 1].0);
            }
        } else if i < p && j > p {
        } else {
        }
    }
    assert(s.subrange(0, p) + s.subrange(p, s.len() as int) =~= s);
    assert((s.subrange(0, p) + seq![e] + s.subrange(p, s.len() as int)).to_multiset()
        =~= s.push(e).to_multiset()) by {
        let a = s.subrange(0, p);
        let b = s.subrange(p, s.len() as int);
        lemma_multiset_commutative(a + seq![e], b);
        lemma_multiset_commutative(a, seq![e]);
        lemma_multiset_commutative(a, b);
        assert(seq![e].to_multiset() =~= Multiset::empty().insert(e));
        assert(s.push(e).to_multiset() =~= s.to_multiset().insert(e));
    }
}

proof fn lemma_sort_lex_acc_sorted<V>(s: Seq<(Seq<char>, V)>, i: int, acc: Seq<(Seq<char>, V)>)
    requires
        lex_sorted(acc),
    ensures
        lex_sorted(sort_lex_acc(s, i, acc)),
        sort_lex_acc(s, i, acc).to_multiset() == acc.to_multiset().add(
            s.subrange(if 0 <= i <= s.len() {
                i
            } else {
                s.len() as int
            }, s.len() as int).to_multiset(),
        ),
    decreases s.len() - i,
{
    broadcast use vstd::seq_lib::lemma_multiset_commutative;
    broadcast use vstd::seq_lib::group_to_multiset_ensures;
    broadcast use vstd::multiset::group_multiset_axioms;

    if i < 0 || i >= s.len() {
        let rest = s.subrange(s.len() as int, s.len() as int);
        assert(rest =~= Seq::<(Seq<char>, V)>::empty());
        assert(rest.to_multiset() =~= Multiset::empty());
        assert(acc.to_multiset().add(Multiset::empty()) =~= acc.to_multiset());
        if 0 <= i <= s.len() {
            assert(s.subrange(i, s.len() as int) =~= rest);
        }
    } else {
        lemma_insert_lex_sorted(acc, s[i]);
        lemma_sort_lex_acc_sorted(s, i + 1, insert_lex(acc, s[i]));
        let rest = s.subrange(i, s.len() as int);
        let rest1 = s.subrange(i + 1, s.len() as int);
        assert(rest =~= seq![s[i]] + rest1);
        lemma_multiset_commutative(seq![s[i]], rest1);
        assert(seq![s[i]].to_multiset() =~= Multiset::empty().insert(s[i]));
        assert(insert_lex(acc, s[i]).to_multiset() == acc.push(s[i]).to_multiset());
        assert(acc.push(s[i]).to_multiset() =~= acc.to_multiset().insert(s[i]));
        assert(acc.to_multiset().insert(s[i]).add(rest1.to_multiset()) =~= acc.to_multiset().add(
            rest.to_multiset(),
        ));
    }
}

/// The emitter's key order is deterministic: sorting entries by key
/// yields a lexicographically ascending permutation of the entries,
/// whatever order they were inserted in.
pub proof fn lemma_sort_lex_sorted<V>(s: Seq<(Seq<char>, V)>)
    ensures
        lex_sorted(sort_lex(s)),
        sort_lex(s).to_multiset() == s.to_multiset(),
{
    broadcast use vstd::seq_lib::lemma_multiset_commutative;
    broadcast use vstd::seq_lib::group_to_multiset_ensures;
    broadcast use vstd::multiset::group_multiset_axioms;

    lemma_sort_lex_acc_sorted(s, 0, Seq::empty());
    assert(s.subrange(0, s.len() as int) =~= s);
    assert(Seq::<(Seq<char>, V)>::empty().to_multiset() =~= Multiset::empty());
    assert(Multiset::empty().add(s.to_multiset()) =~= s.to_multiset());
}

/// The first position whose line exceeds `e`, or `s.len()`.
spec fn str_pos(s: Seq<Seq<char>>, e: Seq<char>) -> int
    decreases s.len(),
{
    if s.len() == 0 {
        0
    } else if !lex_le(s[0], e) {
        0
    } else {
        1 + str_pos(s.subrange(1, s.len() as int), e)
    }
}

proof fn lemma_str_pos(s: Seq<Seq<char>>, e: Seq<char>)
    ensures
        0 <= str_pos(s, e) <= s.len(),
        forall|k: int| 0 <= k < str_pos(s, e) ==> lex_le(#[trigger] s[k], e),
        str_pos(s, e) < s.len() ==> !lex_le(s[str_pos(s, e)], e),
    decreases s.len(),
{
    if s.len() > 0 && lex_le(s[0], e) {
        let t = s.subrange(1, s.len() as int);
        lemma_str_pos(t, e);
        assert forall|k: int| 0 <= k < str_pos(s, e) implies lex_le(#[trigger] s[k], e) by {
            if k > 0 {
                assert(t[k - 1] == s[k]);
            }
        }
    }
}

proof fn lemma_insert_str_sorted(s: Seq<Seq<char>>, e: Seq<char>)
    requires
        strs_sorted(s),
    ensures
        strs_sorted(insert_str(s, e)),
        insert_str(s, e).to_multiset() == s.push(e).to_multiset(),
{
    broadcast use vstd::seq_lib::lemma_multiset_commutative;
    broadcast use vstd::seq_lib::group_to_multiset_ensures;
    broadcast use vstd::multiset::group_multiset_axioms;

    let p = str_pos(s, e);
    lemma_str_pos(s, e);
    lemma_insert_str_at(s, e, p);
    let r = insert_str(s, e);
    assert(r == s.subrange(0, p) + seq![e] + s.subrange(p, s.len() as int));
    assert(r.len() == s.len() + 1);
    assert forall|i: int, j: int|
        0 <= i < j < r.len() implies lex_le(#[trigger] r[i], #[trigger] r[j]) by {
        let ri = if i < p {
            s[i]
        } else if i == p {
            e
        } else {
            s[i - 1]
        };
        let rj = if j < p {
            s[j]
        } else if j == p {
            e
        } else {
            s[j - 1]
        };
        assert(r[i] == ri);
        assert(r[j] == rj);
        if i == p && j > p {
            assert(!lex_le(s[p], e));
            crate::text::lemma_lex_le_total(s[p], e);
            assert(lex_le(e, s[p]));
            if j - 1 > p {
                assert(lex_le(s[p], s[j - 1]));
                crate::text::lemma_lex_le_trans(e, s[p], s[j - 1]);
            }
        }
    }
    assert(s.subrange(0, p) + s.subrange(p, s.len() as int) =~= s);
    assert((s.subrange(0, p) + seq![e] + s.subrange(p, s.len() as int)).to_multiset()
        =~= s.push(e).to_multiset()) by {
        let a = s.subrange(0, p);
        let b = s.subrange(p, s.len() as int);
        lemma_multiset_commutative(a + seq![e], b);
        lemma_multiset_commutative(a, seq![e]);
        lemma_multiset_commutative(a, b);
        assert(seq![e].to_multiset() =~= Multiset::empty().insert(e));
        assert(s.push(e).to_multiset() =~= s.to_multiset().insert(e));
    }
}

proof fn lemma_sort_strs_acc_sorted(s: Seq<Seq<char>>, i: int, acc: Seq<Seq<char>>)
    requires
        strs_sorted(acc),
    ensures
        strs_sorted(sort_strs_acc(s, i, acc)),
        sort_strs_acc(s, i, acc).to_multiset() == acc.to_multiset().add(
            s.subrange(if 0 <= i <= s.len() {
                i
            } else {
                s.len() as int
            }, s.len() as int).to_multiset(),
        ),
    decreases s.len() - i,
{
    broadcast use vstd::seq_lib::lemma_multiset_commutative;
    broadcast use vstd::seq_lib::group_to_multiset_ensures;
    broadcast use vstd::multiset::group_multiset_axioms;

    if i < 0 || i >= s.len() {
        let rest = s.subrange(s.len() as int, s.len() as int);
        assert(rest =~= Seq::<Seq<char>>::empty());
        assert(rest.to_multiset() =~= Multiset::empty());
        assert(acc.to_multiset().add(Multiset::empty()) =~= acc.to_multiset());
        if 0 <= i <= s.len() {
            assert(s.subrange(i, s.len() as int) =~= rest);
        }
    } else {
        lemma_insert_str_sorted(acc, s[i]);
        lemma_sort_strs_acc_sorted(s, i + 1, insert_str(acc, s[i]));
        let rest = s.subrange(i, s.len() as int);
        let rest1 = s.subrange(i + 1, s.len() as int);
        assert(rest =~= seq![s[i]] + rest1);
        lemma_multiset_commutative(seq![s[i]], rest1);
        assert(seq![s[i]].to_multiset() =~= Multiset::empty().insert(s[i]));
        assert(insert_str(acc, s[i]).to_multiset() == acc.push(s[i]).to_multiset());
        assert(acc.push(s[i]).to_multiset() =~= acc.to_multiset().insert(s[i]));
        assert(acc.to_multiset().insert(s[i]).add(rest1.to_multiset()) =~= acc.to_multiset().add(
            rest.to_multiset(),
        ));
    }
}

/// The emitter's line order is deterministic: sorting a selector's
/// declaration lines yields a lexicographically ascending permutation of
/// them, whatever order they were appended in.
pub proof fn lemma_sort_strs_sorted(s: Seq<Seq<char>>)
    ensures
        strs_sorted(sort_strs(s)),
        sort_strs(s).to_multiset() == s.to_multiset(),
{
    broadcast use vstd::seq_lib::lemma_multiset_commutative;
    broadcast use vstd::seq_lib::group_to_multiset_ensures;
    broadcast use vstd::multiset::group_multiset_axioms;

    lemma_sort_strs_acc_sorted(s, 0, Seq::empty());
    assert(s.subrange(0, s.len() as int) =~= s);
    assert(Seq::<Seq<char>>::empty().to_multiset() =~= Multiset::empty());
    assert(Multiset::empty().add(s.to_multiset()) =~= s.to_multiset());
}

/// Frames stand in ascending numeric order.
pub open spec fn rank_sorted(s: Seq<(Seq<char>, Seq<Seq<char>>)>) -> bool {
    forall|i: int, j: int|
        0 <= i < j < s.len() ==> percent_rank((#[trigger] s[i]).0) <= percent_rank(
            (#[trigger] s[j]).0,
        )
}

/// The first position whose frame outranks `e`, or `s.len()`.
spec fn rank_pos(s: Seq<(Seq<char>, Seq<Seq<char>>)>, e: (Seq<char>, Seq<Seq<char>>)) -> int
    decreases s.len(),
{
    if s.len() == 0 {
        0
    } else if !(percent_rank(s[0].0) <= percent_rank(e.0)) {
        0
    } else {
        1 + rank_pos(s.subrange(1, s.len() as int), e)
    }
}

proof fn lemma_rank_pos(s: Seq<(Seq<char>, Seq<Seq<char>>)>, e: (Seq<char>, Seq<Seq<char>>))
    ensures
        0 <= rank_pos(s, e) <= s.len(),
        forall|k: int|
            0 <= k < rank_pos(s, e) ==> percent_rank((#[trigger] s[k]).0) <= percent_rank(e.0),
        rank_pos(s, e) < s.len() ==> !(percent_rank(s[rank_pos(s, e)].0) <= percent_rank(e.0)),
    decreases s.len(),
{
    if s.len() > 0 && percent_rank(s[0].0) <= percent_rank(e.0) {
        let t = s.subrange(1, s.len() as int);
        lemma_rank_pos(t, e);
        assert forall|k: int|
            0 <= k < rank_pos(s, e) implies percent_rank((#[trigger] s[k]).0) <= percent_rank(
            e.0,
        ) by {
            if k > 0 {
                assert(t[k - 1] == s[k]);
            }
        }
    }
}

proof fn lemma_insert_rank_sorted(s: Seq<(Seq<char>, Seq<Seq<char>>)>, e: (Seq<char>, Seq<Seq<char>>))
    requires
        rank_sorted(s),
    ensures
        rank_sorted(insert_rank(s, e)),
        insert_rank(s, e).to_multiset() == s.push(e).to_multiset(),
{
    broadcast use vstd::seq_lib::lemma_multiset_commutative;
    broadcast use vstd::seq_lib::group_to_multiset_ensures;
    broadcast use vstd::multiset::group_multiset_axioms;

    let p = rank_pos(s, e);
    lemma_rank_pos(s, e);
    lemma_insert_rank_at(s, e, p);
    let r = insert_rank(s, e);
    assert(r == s.subrange(0, p) + seq![e] + s.subrange(p, s.len() as int));
    assert(r.len() == s.len() + 1);
    assert forall|i: int, j: int|
        0 <= i < j < r.len() implies percent_rank((#[trigger] r[i]).0) <= percent_rank(
        (#[trigger] r[j]).0,
    ) by {
        let ri = if i < p {
            s[i]
        } else if i == p {
            e
        } else {
            s[i - 1]
        };
        let rj = if j < p {
            s[j]
        } else if j == p {
            e
        } else {
            s[j - 1]
        };
        assert(r[i] == ri);
        assert(r[j] == rj);
        if i < p && j == p {
        } else if i == p && j > p {
            assert(!(percent_rank(s[p].0) <= percent_rank(e.0)));
            assert(percent_rank(s[p].0) <= percent_rank(s[j - 1].0));
        } else {
        }
    }
    // the inserted sequence is a permutation of the pushed one
    assert(s.subrange(0, p) + s.subrange(p, s.len() as int) =~= s);
    assert((s.subrange(0, p) + seq![e] + s.subrange(p, s.len() as int)).to_multiset()
        =~= s.push(e).to_multiset()) by {
        let a = s.subrange(0, p);
        let b = s.subrange(p, s.len() as int);
        lemma_multiset_commutative(a + seq![e], b);
        lemma_multiset_commutative(a, seq![e]);
        lemma_multiset_commutative(a, b);
        assert(seq![e].to_multiset() =~= Multiset::empty().insert(e));
        assert(s.push(e).to_multiset() =~= s.to_multiset().insert(e));
    }
}

proof fn lemma_sort_rank_acc_sorted(
    s: Seq<(Seq<char>, Seq<Seq<char>>)>,
    i: int,
    acc: Seq<(Seq<char>, Seq<Seq<char>>)>,
)
    requires
        rank_sorted(acc),
    ensures
        rank_sorted(sort_rank_acc(s, i, acc)),
        sort_rank_acc(s, i, acc).to_multiset() == acc.to_multiset().add(
            s.subrange(if 0 <= i <= s.len() {
                i
            } else {
                s.len() as int
            }, s.len() as int).to_multiset(),
        ),
    decreases s.len() - i,
{
    broadcast use vstd::seq_lib::lemma_multiset_commutative;
    broadcast use vstd::seq_lib::group_to_multiset_ensures;
    broadcast use vstd::multiset::group_multiset_axioms;

    if i < 0 || i >= s.len() {
        let rest = s.subrange(s.len() as int, s.len() as int);
        assert(rest =~= Seq::<(Seq<char>, Seq<Seq<char>>)>::empty());
        assert(rest.to_multiset() =~= Multiset::empty());
        assert(acc.to_multiset().add(Multiset::empty()) =~= acc.to_multiset());
        if 0 <= i <= s.len() {
            assert(s.subrange(i, s.len() as int) =~= rest);
        }
    } else {
        lemma_insert_rank_sorted(acc, s[i]);
        lemma_sort_rank_acc_sorted(s, i + 1, insert_rank(acc, s[i]));
        let rest = s.subrange(i, s.len() as int);
        let rest1 = s.subrange(i + 1, s.len() as int);
        assert(rest =~= seq![s[i]] + rest1);
        lemma_multiset_commutative(seq![s[i]], rest1);
        assert(seq![s[i]].to_multiset() =~= Multiset::empty().insert(s[i]));
        assert(insert_rank(acc, s[i]).to_multiset() == acc.push(s[i]).to_multiset());
        assert(acc.push(s[i]).to_multiset() =~= acc.to_multiset().insert(s[i]));
        assert(acc.to_multiset().insert(s[i]).add(rest1.to_multiset()) =~= acc.to_multiset().add(
            rest.to_multiset(),
        ));
    }
}

/// Where every frame selector is a percentage, the emitted frame order
/// is numerically ascending by that percentage, whatever order the
/// source declared them in; and no frame is lost or invented.
pub proof fn lemma_frames_numeric_order(s: Seq<(Seq<char>, Seq<Seq<char>>)>)
    requires
        all_percent(s),
    ensures
        rank_sorted(sort_frames_spec(s)),
        sort_frames_spec(s).to_multiset() == s.to_multiset(),
{
    broadcast use vstd::seq_lib::lemma_multiset_commutative;
    broadcast use vstd::seq_lib::group_to_multiset_ensures;
    broadcast use vstd::multiset::group_multiset_axioms;

    lemma_sort_rank_acc_sorted(s, 0, Seq::empty());
    assert(s.subrange(0, s.len() as int) =~= s);
    assert(Seq::<(Seq<char>, Seq<Seq<char>>)>::empty().to_multiset() =~= Multiset::empty());
    assert(Multiset::empty().add(s.to_multiset()) =~= s.to_multiset());
}

proof fn lemma_insert_str_at(s: Seq<Seq<char>>, e: Seq<char>, p: int)
    requires
        0 <= p <= s.len(),
        forall|k: int| 0 <= k < p ==> lex_le(#[trigger] s[k], e),
        p == s.len() || !lex_le(s[p], e),
    ensures
        insert_str(s, e) == s.subrange(0, p) + seq![e] + s.subrange(p, s.len() as int),
    decreases p,
{
    if p == 0 {
        if s.len() == 0 {
            assert(insert_str(s, e) =~= s.subrange(0, 0) + seq![e] + s.subrange(
                0,
                s.len() as int,
            ));
        } else {
            assert(insert_str(s, e) =~= s.subrange(0, 0) + seq![e] + s.subrange(
                0,
                s.len() as int,
            ));
        }
    } else {
        let t = s.subrange(1, s.len() as int);
        assert(forall|k: int| 0 <= k < p - 1 ==> lex_le(#[trigger] t[k], e));
        assert(p - 1 == t.len() || !lex_le(t[p - 1], e));
        lemma_insert_str_at(t, e, p - 1);
        assert(t.subrange(0, p - 1) =~= s.subrange(1, p));
        assert(t.subrange(p - 1, t.len() as int) =~= s.subrange(p, s.len() as int));
        assert(seq![s[0]] + (s.subrange(1, p) + seq![e] + s.subrange(p, s.len() as int)) =~= s
            .subrange(0, p) + seq![e] + s.subrange(p, s.len() as int));
    }
}

proof fn lemma_insert_lex_at<V>(s: Seq<(Seq<char>, V)>, e: (Seq<char>, V), p: int)
    requires
        0 <= p <= s.len(),
        forall|k: int| 0 <= k < p ==> lex_le((#[trigger] s[k]).0, e.0),
        p == s.len() || !lex_le(s[p].0, e.0),
    ensures
        insert_lex(s, e) == s.subrange(0, p) + seq![e] + s.subrange(p, s.len() as int),
    decreases p,
{
    if p == 0 {
        assert(insert_lex(s, e) =~= s.subrange(0, 0) + seq![e] + s.subrange(0, s.len() as int));
    } else {
        let t = s.subrange(1, s.len() as int);
        assert(forall|k: int| 0 <= k < p - 1 ==> lex_le((#[trigger] t[k]).0, e.0));
        assert(p - 1 == t.len() || !lex_le(t[p - 1].0, e.0));
        lemma_insert_lex_at(t, e, p - 1);
        assert(t.subrange(0, p - 1) =~= s.subrange(1, p));
        assert(t.subrange(p - 1, t.len() as int) =~= s.subrange(p, s.len() as int));
        assert(seq![s[0]] + (s.subrange(1, p) + seq![e] + s.subrange(p, s.len() as int)) =~= s
            .subrange(0, p) + seq![e] + s.subrange(p, s.len() as int));
    }
}

proof fn lemma_insert_rank_at(s: Seq<(Seq<char>, Seq<Seq<char>>)>, e: (Seq<char>, Seq<Seq<char>>), p: int)
    requires
        0 <= p <= s.len(),
        forall|k: int| 0 <= k < p ==> percent_rank((#[trigger] s[k]).0) <= percent_rank(e.0),
        p == s.len() || !(percent_rank(s[p].0) <= percent_rank(e.0)),
    ensures
        insert_rank(s, e) == s.subrange(0, p) + seq![e] + s.subrange(p, s.len() as int),
    decreases p,
{
    if p == 0 {
        assert(insert_rank(s, e) =~= s.subrange(0, 0) + seq![e] + s.subrange(0, s.len() as int));
    } else {
        let t = s.subrange(1, s.len() as int);
        assert(forall|k: int|
            0 <= k < p - 1 ==> percent_rank((#[trigger] t[k]).0) <= percent_rank(e.0));
        assert(p - 1 == t.len() || !(percent_rank(t[p - 1].0) <= percent_rank(e.0)));
        lemma_insert_rank_at(t, e, p - 1);
        assert(t.subrange(0, p - 1) =~= s.subrange(1, p));
        assert(t.subrange(p - 1, t.len() as int) =~= s.subrange(p, s.len() as int));
        assert(seq![s[0]] + (s.subrange(1, p) + seq![e] + s.subrange(p, s.len() as int)) =~= s
            .subrange(0, p) + seq![e] + s.subrange(p, s.len() as int));
    }
}

/// The lines sorted lexicographically, by stable insertion.
pub fn sort_string_vec(v: &Vec<String>) -> (r: Vec<String>)
    ensures
        r.deep_view() == sort_strs(v.deep_view()),
{
    let ghost sv = v.deep_view();
    let mut out: Vec<String> = Vec::new();
    let n = v.len();
    let mut i: usize = 0;
    proof {
        assert(out.deep_view() =~= Seq::<Seq<char>>::empty());
    }
    while i < n
        invariant
            0 <= i <= n,
            n == v.len(),
            sv == v.deep_view(),
            sv.len() == n,
            sort_strs_acc(sv, 0, Seq::empty()) == sort_strs_acc(sv, i as int, out.deep_view()),
        decreases n - i,
    {
        let e = v[i].clone();
        // find the insertion position
        let m = out.len();
        let mut p: usize = 0;
        while p < m && lex_le_exec(out[p].as_str(), e.as_str())
            invariant
                0 <= p <= m,
                m == out.len(),
                out.deep_view().len() == m,
                e@ == sv[i as int],
                0 <= i < sv.len(),
                sv == v.deep_view(),
                forall|k: int| 0 <= k < p ==> lex_le(#[trigger] out.deep_view()[k], e@),
            decreases m - p,
        {
            proof {
                assert(out.deep_view()[p as int] == out@[p as int]@);
            }
            p = p + 1;
        }
        let ghost out0 = out.deep_view();
        proof {
            assert(out.deep_view().len() == out@.len());
            if p < m {
                assert(out.deep_view()[p as int] == out@[p as int]@);
            }
            lemma_insert_str_at(out0, e@, p as int);
        }
        out.insert(p, e);
        proof {
            assert(out@.len() == out0.len() + 1);
            assert(out.deep_view() =~= out0.subrange(0, p as int) + seq![sv[i as int]]
                + out0.subrange(p as int, out0.len() as int));
            assert(out.deep_view() =~= insert_str(out0, sv[i as int]));
        }
        i = i + 1;
    }
    proof {
        assert(sort_strs_acc(sv, n as int, out.deep_view()) == out.deep_view());
    }
    out
}

/// The map's entries sorted lexicographically by key.
pub fn sort_strmap(m: StrMap) -> (r: StrMap)
    ensures
        r.view_spec() == sort_lex(m.view_spec()),
{
    let ghost sv = m.view_spec();
    let input = m.entries;
    let mut out: Vec<MapEntry> = Vec::new();
    let n = input.len();
    proof {
        assert(out.deep_view() =~= Seq::<(Seq<char>, Seq<Seq<char>>)>::empty());
    }
    let mut i: usize = 0;
    while i < n
        invariant
            0 <= i <= n,
            n == input.len(),
            sv == input.deep_view(),
            sv.len() == n,
            sort_lex_acc(sv, 0, Seq::empty()) == sort_lex_acc(sv, i as int, out.deep_view()),
        decreases n - i,
    {
        let e = MapEntry {
            key: input[i].key.clone(),
            values: crate::clone_string_vec(&input[i].values),
        };
        let m2 = out.len();
        let mut p: usize = 0;
        while p < m2 && lex_le_exec(out[p].key.as_str(), e.key.as_str())
            invariant
                0 <= p <= m2,
                m2 == out.len(),
                out.deep_view().len() == m2,
                e.deep_view() == sv[i as int],
                0 <= i < sv.len(),
                sv == input.deep_view(),
                forall|k: int| 0 <= k < p ==> lex_le((#[trigger] out.deep_view()[k]).0, e.key@),
            decreases m2 - p,
        {
            proof {
                assert(out.deep_view()[p as int] == out@[p as int].deep_view());
            }
            p = p + 1;
        }
        let ghost out0 = out.deep_view();
        proof {
            assert(out.deep_view().len() == out@.len());
            if p < m2 {
                assert(out.deep_view()[p as int] == out@[p as int].deep_view());
            }
            lemma_insert_lex_at(out0, sv[i as int], p as int);
        }
        out.insert(p, e);
        proof {
            assert(out@.len() == out0.len() + 1);
            assert(out.deep_view() =~= out0.subrange(0, p as int) + seq![sv[i as int]]
                + out0.subrange(p as int, out0.len() as int));
            assert(out.deep_view() =~= insert_lex(out0, sv[i as int]));
        }
        i = i + 1;
    }
    proof {
        assert(sort_lex_acc(sv, n as int, out.deep_view()) == out.deep_view());
    }
    StrMap { entries: out }
}

/// The nested map's entries sorted lexicographically by key.
pub fn sort_nestedmap(m: NestedMap) -> (r: NestedMap)
    ensures
        r.view_spec() == sort_lex(m.view_spec()),
{
    let ghost sv = m.view_spec();
    let input = m.entries;
    let mut out: Vec<NestedEntry> = Vec::new();
    let n = input.len();
    proof {
        assert(out.deep_view() =~= Seq::<(Seq<char>, Seq<(Seq<char>, Seq<Seq<char>>)>)>::empty());
    }
    let mut i: usize = 0;
    while i < n
        invariant
            0 <= i <= n,
            n == input.len(),
            sv == input.deep_view(),
            sv.len() == n,
            sort_lex_acc(sv, 0, Seq::empty()) == sort_lex_acc(sv, i as int, out.deep_view()),
        decreases n - i,
    {
        let e = NestedEntry {
            key: input[i].key.clone(),
            inner: crate::clone_strmap(&input[i].inner),
        };
        let m2 = out.len();
        let mut p: usize = 0;
        while p < m2 && lex_le_exec(out[p].key.as_str(), e.key.as_str())
            invariant
                0 <= p <= m2,
                m2 == out.len(),
                out.deep_view().len() == m2,
                e.deep_view() == sv[i as int],
                0 <= i < sv.len(),
                sv == input.deep_view(),
                forall|k: int| 0 <= k < p ==> lex_le((#[trigger] out.deep_view()[k]).0, e.key@),
            decreases m2 - p,
        {
            proof {
                assert(out.deep_view()[p as int] == out@[p as int].deep_view());
            }
            p = p + 1;
        }
        let ghost out0 = out.deep_view();
        proof {
            assert(out.deep_view().len() == out@.len());
            if p < m2 {
                assert(out.deep_view()[p as int] == out@[p as int].deep_view());
            }
            lemma_insert_lex_at(out0, sv[i as int], p as int);
        }
        out.insert(p, e);
        proof {
            assert(out@.len() == out0.len() + 1);
            assert(out.deep_view() =~= out0.subrange(0, p as int) + seq![sv[i as int]]
                + out0.subrange(p as int, out0.len() as int));
            assert(out.deep_view() =~= insert_lex(out0, sv[i as int]));
        }
        i = i + 1;
    }
    proof {
        assert(sort_lex_acc(sv, n as int, out.deep_view()) == out.deep_view());
    }
    NestedMap { entries: out }
}

/// One keyframe table's frames in emission order: numeric where every
/// selector is a percentage, lexicographic otherwise.
pub fn sort_frames(m: StrMap) -> (r: StrMap)
    ensures
        r.view_spec() == sort_frames_spec(m.view_spec()),
{
    let ghost sv = m.view_spec();
    // do all frame selectors end with a percent sign?
    let mut numeric = true;
    let n = m.entries.len();
    let mut i: usize = 0;
    while i < n
        invariant
            0 <= i <= n,
            n == m.entries.len(),
            sv == m.view_spec(),
            sv.len() == n,
            numeric == (forall|k: int|
                0 <= k < i ==> ends_with_char_spec((#[trigger] sv[k]).0, '%')),
        decreases n - i,
    {
        proof {
            assert(sv[i as int] == m.entries@[i as int].deep_view());
        }
        if !ends_with_char(m.entries[i].key.as_str(), '%') {
            numeric = false;
        }
        i = i + 1;
    }
    if !numeric {
        proof {
            assert(!all_percent(sv));
        }
        return sort_strmap(m);
    }
    proof {
        assert(all_percent(sv));
    }
    let input = m.entries;
    let mut out: Vec<MapEntry> = Vec::new();
    let cnt = input.len();
    proof {
        assert(out.deep_view() =~= Seq::<(Seq<char>, Seq<Seq<char>>)>::empty());
    }
    let mut i: usize = 0;
    while i < cnt
        invariant
            0 <= i <= cnt,
            cnt == input.len(),
            sv == input.deep_view(),
            sv.len() == cnt,
            sort_rank_acc(sv, 0, Seq::empty()) == sort_rank_acc(sv, i as int, out.deep_view()),
        decreases cnt - i,
    {
        let e = MapEntry {
            key: input[i].key.clone(),
            values: crate::clone_string_vec(&input[i].values),
        };
        let erank = percent_rank_exec(e.key.as_str());
        let m2 = out.len();
        let mut p: usize = 0;
        while p < m2 && percent_rank_exec(out[p].key.as_str()) <= erank
            invariant
                0 <= p <= m2,
                m2 == out.len(),
                out.deep_view().len() == m2,
                e.deep_view() == sv[i as int],
                erank as int == percent_rank(e.key@),
                0 <= i < sv.len(),
                sv == input.deep_view(),
                forall|k: int|
                    0 <= k < p ==> percent_rank((#[trigger] out.deep_view()[k]).0)
                        <= percent_rank(e.key@),
            decreases m2 - p,
        {
            proof {
                assert(out.deep_view()[p as int] == out@[p as int].deep_view());
            }
            p = p + 1;
        }
        let ghost out0 = out.deep_view();
        proof {
            assert(out.deep_view().len() == out@.len());
            if p < m2 {
                assert(out.deep_view()[p as int] == out@[p as int].deep_view());
            }
            lemma_insert_rank_at(out0, sv[i as int], p as int);
        }
        out.insert(p, e);
        proof {
            assert(out@.len() == out0.len() + 1);
            assert(out.deep_view() =~= out0.subrange(0, p as int) + seq![sv[i as int]]
                + out0.subrange(p as int, out0.len() as int));
            assert(out.deep_view() =~= insert_rank(out0, sv[i as int]));
        }
        i = i + 1;
    }
    proof {
        assert(sort_rank_acc(sv, cnt as int, out.deep_view()) == out.deep_view());
    }
    StrMap { entries: out }
}

} // verus!
