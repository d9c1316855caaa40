//! Verified text utilities: trimming, identifier-aware token replacement,
//! line splitting, lexicographic comparison and decimal rendering.
//!
//! Whitespace here is the ASCII whitespace that stylesheet sources use:
//! space, tab, carriage return and line feed.
use vstd::prelude::*;

verus! {

/// An ASCII whitespace character.
pub open spec fn is_space(c: char) -> bool {
    c == ' ' || c == '\t' || c == '\r' || c == '\n'
}

/// A character that may occur inside an identifier; a variable token
/// `&name` only counts as referenced where the following character is
/// not one of these, so that one name being a prefix of another never
/// causes a wrong substitution.
pub open spec fn is_ident_char(c: char) -> bool {
    ('a' <= c && c <= 'z') || ('A' <= c && c <= 'Z') || ('0' <= c && c <= '9') || c == '_' || c
        == '-'
}

/// `s` with leading whitespace removed.
pub open spec fn trim_front(s: Seq<char>) -> Seq<char>
    decreases s.len(),
{
    if s.len() > 0 && is_space(s[0]) {
        trim_front(s.subrange(1, s.len() as int))
    } else {
        s
    }
}

/// `s` with trailing whitespace removed.
pub open spec fn trim_back(s: Seq<char>) -> Seq<char>
    decreases s.len(),
{
    if s.len() > 0 && is_space(s[s.len() - 1]) {
        trim_back(s.subrange(0, s.len() - 1))
    } else {
        s
    }
}

/// `s` with leading and trailing whitespace removed.
pub open spec fn trim_spec(s: Seq<char>) -> Seq<char> {
    trim_back(trim_front(s))
}

/// Exec check for ASCII whitespace.
pub fn is_space_char(c: char) -> (r: bool)
    ensures
        r == is_space(c),
{
    c == ' ' || c == '\t' || c == '\r' || c == '\n'
}

/// Exec check for identifier characters.
pub fn is_ident_char_exec(c: char) -> (r: bool)
    ensures
        r == is_ident_char(c),
{
    ('a' <= c && c <= 'z') || ('A' <= c && c <= 'Z') || ('0' <= c && c <= '9') || c == '_' || c
        == '-'
}

proof fn lemma_trim_front_range(s: Seq<char>, i: int)
    requires
        0 <= i <= s.len(),
        forall|k: int| 0 <= k < i ==> is_space(s[k]),
    ensures
        trim_front(s) == (if i < s.len() && !is_space(s[i]) {
            s.subrange(i, s.len() as int)
        } else {
            trim_front(s.subrange(i, s.len() as int))
        }),
    decreases i,
{
    if i == 0 {
        assert(s.subrange(0, s.len() as int) =~= s);
    } else {
        lemma_trim_front_range(s, i - 1);
        let t = s.subrange(i - 1, s.len() as int);
        assert(is_space(t[0]));
        assert(t.subrange(1, t.len() as int) =~= s.subrange(i, s.len() as int));
    }
    if i < s.len() && !is_space(s[i]) {
        let u = s.subrange(i, s.len() as int);
        assert(!is_space(u[0]));
        assert(trim_front(u) == u);
    }
}

proof fn lemma_trim_back_range(s: Seq<char>, j: int)
    requires
        0 <= j <= s.len(),
        forall|k: int| j <= k < s.len() ==> is_space(s[k]),
    ensures
        trim_back(s) == (if j > 0 && !is_space(s[j - 1]) {
            s.subrange(0, j)
        } else {
            trim_back(s.subrange(0, j))
        }),
    decreases s.len() - j,
{
    if j == s.len() {
        assert(s.subrange(0, s.len() as int) =~= s);
    } else {
        lemma_trim_back_range(s, j + 1);
        let t = s.subrange(0, j + 1);
        assert(is_space(t[t.len() - 1]));
        assert(t.subrange(0, t.len() - 1) =~= s.subrange(0, j));
    }
    if j > 0 && !is_space(s[j - 1]) {
        let u = s.subrange(0, j);
        assert(!is_space(u[u.len() - 1]));
        assert(trim_back(u) == u);
    }
}

/// `s` with leading and trailing ASCII whitespace removed.
pub fn trim(s: &str) -> (r: String)
    ensures
        r@ == trim_spec(s@),
{
    let n = s.unicode_len();
    let mut i: usize = 0;
    while i < n && is_space_char(s.get_char(i))
        invariant
            0 <= i <= n,
            n == s@.len(),
            forall|k: int| 0 <= k < i ==> is_space(s@[k]),
        decreases n - i,
    {
        i = i + 1;
    }
    proof {
        lemma_trim_front_range(s@, i as int);
    }
    if i == n {
        // all whitespace
        proof {
            assert(s@.subrange(i as int, s@.len() as int) =~= Seq::<char>::empty());
            assert(trim_spec(s@) =~= Seq::<char>::empty());
        }
        return String::new();
    }
    let mut j: usize = n;
    while j > i && is_space_char(s.get_char(j - 1))
        invariant
            i <= j <= n,
            n == s@.len(),
            forall|k: int| j <= k < n ==> is_space(s@[k]),
        decreases j,
    {
        j = j - 1;
    }
    // s[i] is not a space, so j > i and s[j-1] is not a space
    let sub = s.substring_char(i, j);
    proof {
        let f = s@.subrange(i as int, s@.len() as int);
        assert(trim_front(s@) == f);
        lemma_trim_back_range(f, j - i);
        assert(f.subrange(0, j - i) =~= s@.subrange(i as int, j as int));
        assert(f[j - i - 1] == s@[j - 1]);
    }
    sub.to_owned()
}

/// `s` with trailing ASCII whitespace removed.
pub fn trim_end(s: &str) -> (r: String)
    ensures
        r@ == trim_back(s@),
{
    let n = s.unicode_len();
    let mut j: usize = n;
    while j > 0 && is_space_char(s.get_char(j - 1))
        invariant
            0 <= j <= n,
            n == s@.len(),
            forall|k: int| j <= k < n ==> is_space(s@[k]),
        decreases j,
    {
        j = j - 1;
    }
    proof {
        lemma_trim_back_range(s@, j as int);
        if j > 0 {
            assert(!is_space(s@[j - 1]));
        } else {
            assert(s@.subrange(0, 0) =~= Seq::<char>::empty());
            assert(trim_back(s@.subrange(0, 0)) == Seq::<char>::empty());
        }
    }
    s.substring_char(0, j).to_owned()
}

/// The token `t` occurs literally in `s` at position `i`.
pub open spec fn matches_at(s: Seq<char>, t: Seq<char>, i: int) -> bool {
    0 <= i && i + t.len() <= s.len() && s.subrange(i, i + t.len()) == t
}

/// The token `t` occurs at `i` and is not followed by an identifier
/// character, so `&col` does not count as an occurrence inside `&color`.
pub open spec fn occurs_at(s: Seq<char>, t: Seq<char>, i: int) -> bool {
    matches_at(s, t, i) && (i + t.len() == s.len() || !is_ident_char(s[i + t.len()]))
}

/// `s` with every whole-identifier occurrence of the token `t` replaced
/// by `v`, scanning left to right.
pub open spec fn replace_token_spec(s: Seq<char>, t: Seq<char>, v: Seq<char>) -> Seq<char>
    decreases s.len(),
    when t.len() > 0
{
    if s.len() == 0 {
        Seq::empty()
    } else if occurs_at(s, t, 0) {
        v + replace_token_spec(s.subrange(t.len() as int, s.len() as int), t, v)
    } else {
        seq![s[0]] + replace_token_spec(s.subrange(1, s.len() as int), t, v)
    }
}

/// Whether the token occurs (whole-identifier) at position `i` of `s`.
pub fn occurs_at_exec(s: &str, t: &str, i: usize) -> (r: bool)
    requires
        i <= s@.len(),
    ensures
        r == occurs_at(s@, t@, i as int),
{
    let n = s.unicode_len();
    let tn = t.unicode_len();
    if tn > n - i {
        return false;
    }
    let mut k: usize = 0;
    while k < tn
        invariant
            0 <= k <= tn,
            i + tn <= n,
            n == s@.len(),
            tn == t@.len(),
            forall|m: int| 0 <= m < k ==> s@[i + m] == t@[m],
        decreases tn - k,
    {
        if s.get_char(i + k) != t.get_char(k) {
            assert(s@.subrange(i as int, i + t@.len()) != t@) by {
                assert(s@.subrange(i as int, i + t@.len())[k as int] == s@[i + k]);
            }
            return false;
        }
        k = k + 1;
    }
    assert(s@.subrange(i as int, i + t@.len()) =~= t@);
    if i + tn == n {
        true
    } else {
        !is_ident_char_exec(s.get_char(i + tn))
    }
}

proof fn lemma_replace_token_skip(s: Seq<char>, t: Seq<char>, v: Seq<char>, i: int, j: int)
    requires
        t.len() > 0,
        0 <= i <= j <= s.len(),
        forall|k: int| i <= k < j ==> !occurs_at(s, t, k),
    ensures
        replace_token_spec(s.subrange(i, s.len() as int), t, v) == s.subrange(i, j)
            + replace_token_spec(s.subrange(j, s.len() as int), t, v),
    decreases j - i,
{
    if i == j {
        assert(s.subrange(i, j) =~= Seq::<char>::empty());
        assert(s.subrange(i, j) + replace_token_spec(s.subrange(j, s.len() as int), t, v)
            =~= replace_token_spec(s.subrange(j, s.len() as int), t, v));
    } else {
        let u = s.subrange(i, s.len() as int);
        // an occurrence at the head of u would be an occurrence at i in s
        assert(!occurs_at(u, t, 0)) by {
            if occurs_at(u, t, 0) {
                assert(u.subrange(0, t.len() as int) =~= s.subrange(i, i + t.len()));
                assert(occurs_at(s, t, i));
            }
        }
        assert(u.len() > 0);
        assert(replace_token_spec(u, t, v) == seq![u[0]] + replace_token_spec(
            u.subrange(1, u.len() as int),
            t,
            v,
        ));
        assert(u.subrange(1, u.len() as int) =~= s.subrange(i + 1, s.len() as int));
        lemma_replace_token_skip(s, t, v, i + 1, j);
        assert(seq![u[0]] + s.subrange(i + 1, j) =~= s.subrange(i, j));
        assert(seq![u[0]] + (s.subrange(i + 1, j) + replace_token_spec(
            s.subrange(j, s.len() as int),
            t,
            v,
        )) =~= (seq![u[0]] + s.subrange(i + 1, j)) + replace_token_spec(
            s.subrange(j, s.len() as int),
            t,
            v,
        ));
    }
}

proof fn lemma_replace_token_hit(s: Seq<char>, t: Seq<char>, v: Seq<char>, i: int)
    requires
        t.len() > 0,
        occurs_at(s, t, i),
    ensures
        replace_token_spec(s.subrange(i, s.len() as int), t, v) == v + replace_token_spec(
            s.subrange(i + t.len(), s.len() as int),
            t,
            v,
        ),
{
    let u = s.subrange(i, s.len() as int);
    assert(u.subrange(0, t.len() as int) =~= s.subrange(i, i + t.len()));
    assert(occurs_at(u, t, 0));
    assert(u.subrange(t.len() as int, u.len() as int) =~= s.subrange(
        i + t.len(),
        s.len() as int,
    ));
}

/// `s` with every whole-identifier occurrence of `t` replaced by `v`.
pub fn replace_token(s: &str, t: &str, v: &str) -> (r: String)
    requires
        t@.len() > 0,
    ensures
        r@ == replace_token_spec(s@, t@, v@),
{
    let n = s.unicode_len();
    let tn = t.unicode_len();
    let mut r = String::new();
    let mut i: usize = 0;
    proof {
        assert(r@ + replace_token_spec(s@.subrange(0, n as int), t@, v@) =~= replace_token_spec(
            s@,
            t@,
            v@,
        )) by {
            assert(s@.subrange(0, n as int) =~= s@);
        }
    }
    while i < n
        invariant
            0 <= i <= n,
            n == s@.len(),
            tn == t@.len(),
            tn > 0,
            r@ + replace_token_spec(s@.subrange(i as int, n as int), t@, v@) == replace_token_spec(
                s@,
                t@,
                v@,
            ),
        decreases n - i,
    {
        if occurs_at_exec(s, t, i) {
            proof {
                lemma_replace_token_hit(s@, t@, v@, i as int);
            }
            r.append(v);
            i = i + tn;
        } else {
            proof {
                lemma_replace_token_skip(s@, t@, v@, i as int, i + 1);
                assert(s@.subrange(i as int, i + 1) =~= seq![s@[i as int]]);
            }
            let piece = s.substring_char(i, i + 1);
            r.append(piece);
            i = i + 1;
        }
    }
    proof {
        assert(s@.subrange(i as int, n as int) =~= Seq::<char>::empty());
        assert(r@ + Seq::<char>::empty() =~= r@);
    }
    r
}

/// Wherever the token occurs, the replaced text carries the value as a
/// contiguous run, in the token's place.
pub proof fn lemma_replace_contains_value(s: Seq<char>, t: Seq<char>, v: Seq<char>, i: int)
    requires
        t.len() > 0,
        occurs_at(s, t, i),
    ensures
        exists|k: int|
            #![trigger replace_token_spec(s, t, v).subrange(k, k + v.len())]
            0 <= k && k + v.len() <= replace_token_spec(s, t, v).len() && replace_token_spec(
                s,
                t,
                v,
            ).subrange(k, k + v.len()) == v,
    decreases s.len(),
{
    let r = replace_token_spec(s, t, v);
    if occurs_at(s, t, 0) {
        let rest = replace_token_spec(s.subrange(t.len() as int, s.len() as int), t, v);
        assert(r == v + rest);
        let z: int = 0;
        assert(r.subrange(z, z + v.len()) =~= v);
    } else {
        assert(i > 0);
        let u = s.subrange(1, s.len() as int);
        assert(occurs_at(u, t, i - 1)) by {
            assert(u.subrange(i - 1, i - 1 + t.len()) =~= s.subrange(i, i + t.len()));
            if i + t.len() < s.len() {
                assert(u[i - 1 + t.len()] == s[i + t.len()]);
            }
        }
        lemma_replace_contains_value(u, t, v, i - 1);
        let k2 = choose|k2: int|
            #![trigger replace_token_spec(u, t, v).subrange(k2, k2 + v.len())]
            0 <= k2 && k2 + v.len() <= replace_token_spec(u, t, v).len() && replace_token_spec(
                u,
                t,
                v,
            ).subrange(k2, k2 + v.len()) == v;
        let r2 = replace_token_spec(u, t, v);
        assert(r == seq![s[0]] + r2);
        let k3 = k2 + 1;
        assert(r.subrange(k3, k3 + v.len()) =~= r2.subrange(k2, k2 + v.len()));
    }
}

/// Exec equality on string slices, by contents.
pub fn str_eq(a: &str, b: &str) -> (r: bool)
    ensures
        r == (a@ == b@),
{
    let na = a.unicode_len();
    let nb = b.unicode_len();
    if na != nb {
        return false;
    }
    let mut i: usize = 0;
    while i < na
        invariant
            0 <= i <= na,
            na == a@.len(),
            na == b@.len(),
            forall|k: int| 0 <= k < i ==> a@[k] == b@[k],
        decreases na - i,
    {
        if a.get_char(i) != b.get_char(i) {
            return false;
        }
        i = i + 1;
    }
    proof {
        assert(a@ =~= b@);
    }
    true
}

/// `s` with every leading `c` removed.
pub open spec fn trim_leading(s: Seq<char>, c: char) -> Seq<char>
    decreases s.len(),
{
    if s.len() > 0 && s[0] == c {
        trim_leading(s.subrange(1, s.len() as int), c)
    } else {
        s
    }
}

proof fn lemma_trim_leading_range(s: Seq<char>, c: char, i: int)
    requires
        0 <= i <= s.len(),
        forall|k: int| 0 <= k < i ==> s[k] == c,
        i == s.len() || s[i] != c,
    ensures
        trim_leading(s, c) == s.subrange(i, s.len() as int),
    decreases i,
{
    if i == 0 {
        assert(s.subrange(0, s.len() as int) =~= s);
        let u = s.subrange(0, s.len() as int);
        assert(trim_leading(u, c) == u);
    } else {
        let t = s.subrange(1, s.len() as int);
        assert(s[0] == c);
        assert(forall|k: int| 0 <= k < i - 1 ==> t[k] == c);
        assert(i - 1 == t.len() || t[i - 1] != c);
        lemma_trim_leading_range(t, c, i - 1);
        assert(t.subrange(i - 1, t.len() as int) =~= s.subrange(i, s.len() as int));
    }
}

/// `s` with every leading occurrence of `c` removed.
pub fn trim_leading_char(s: &str, c: char) -> (r: String)
    ensures
        r@ == trim_leading(s@, c),
{
    let n = s.unicode_len();
    let mut i: usize = 0;
    while i < n && s.get_char(i) == c
        invariant
            0 <= i <= n,
            n == s@.len(),
            forall|k: int| 0 <= k < i ==> s@[k] == c,
        decreases n - i,
    {
        i = i + 1;
    }
    proof {
        lemma_trim_leading_range(s@, c, i as int);
    }
    s.substring_char(i, n).to_owned()
}

/// `s` with every trailing occurrence of `c` removed.
pub open spec fn trim_trailing(s: Seq<char>, c: char) -> Seq<char>
    decreases s.len(),
{
    if s.len() > 0 && s[s.len() - 1] == c {
        trim_trailing(s.subrange(0, s.len() - 1), c)
    } else {
        s
    }
}

proof fn lemma_trim_trailing_range(s: Seq<char>, c: char, j: int)
    requires
        0 <= j <= s.len(),
        forall|k: int| j <= k < s.len() ==> s[k] == c,
        j == 0 || s[j - 1] != c,
    ensures
        trim_trailing(s, c) == s.subrange(0, j),
    decreases s.len() - j,
{
    if j == s.len() {
        assert(s.subrange(0, s.len() as int) =~= s);
        let u = s.subrange(0, s.len() as int);
        assert(trim_trailing(u, c) == u);
    } else {
        let t = s.subrange(0, s.len() - 1);
        assert(s[s.len() - 1] == c);
        assert(forall|k: int| j <= k < t.len() ==> t[k] == c);
        lemma_trim_trailing_range(t, c, j);
        assert(t.subrange(0, j) =~= s.subrange(0, j));
    }
}

/// `s` with every trailing occurrence of `c` removed.
pub fn trim_trailing_char(s: &str, c: char) -> (r: String)
    ensures
        r@ == trim_trailing(s@, c),
{
    let n = s.unicode_len();
    let mut j: usize = n;
    while j > 0 && s.get_char(j - 1) == c
        invariant
            0 <= j <= n,
            n == s@.len(),
            forall|k: int| j <= k < n ==> s@[k] == c,
        decreases j,
    {
        j = j - 1;
    }
    proof {
        lemma_trim_trailing_range(s@, c, j as int);
    }
    s.substring_char(0, j).to_owned()
}

/// `s` starts with the prefix `p`.
pub open spec fn starts_with_spec(s: Seq<char>, p: Seq<char>) -> bool {
    p.len() <= s.len() && s.subrange(0, p.len() as int) == p
}

/// Whether `s` starts with the prefix `p`.
pub fn starts_with(s: &str, p: &str) -> (r: bool)
    ensures
        r == starts_with_spec(s@, p@),
{
    let n = s.unicode_len();
    let pn = p.unicode_len();
    if pn > n {
        return false;
    }
    let mut k: usize = 0;
    while k < pn
        invariant
            0 <= k <= pn,
            pn <= n,
            n == s@.len(),
            pn == p@.len(),
            forall|m: int| 0 <= m < k ==> s@[m] == p@[m],
        decreases pn - k,
    {
        if s.get_char(k) != p.get_char(k) {
            assert(s@.subrange(0, p@.len() as int) != p@) by {
                assert(s@.subrange(0, p@.len() as int)[k as int] == s@[k as int]);
            }
            return false;
        }
        k = k + 1;
    }
    assert(s@.subrange(0, p@.len() as int) =~= p@);
    true
}

/// `s` ends with the character `c`.
pub open spec fn ends_with_char_spec(s: Seq<char>, c: char) -> bool {
    s.len() > 0 && s[s.len() - 1] == c
}

/// Whether `s` ends with the character `c`.
pub fn ends_with_char(s: &str, c: char) -> (r: bool)
    ensures
        r == ends_with_char_spec(s@, c),
{
    let n = s.unicode_len();
    n > 0 && s.get_char(n - 1) == c
}

/// A line's optional trailing carriage return, removed.
pub open spec fn strip_cr(s: Seq<char>) -> Seq<char> {
    if s.len() > 0 && s[s.len() - 1] == '\r' {
        s.subrange(0, s.len() - 1)
    } else {
        s
    }
}

/// The index of the first line feed in `s`, or `s.len()` if there is none.
pub open spec fn first_nl(s: Seq<char>) -> int
    decreases s.len(),
{
    if s.len() == 0 {
        0
    } else if s[0] == '\n' {
        0
    } else {
        1 + first_nl(s.subrange(1, s.len() as int))
    }
}

proof fn lemma_first_nl_bounds(s: Seq<char>)
    ensures
        0 <= first_nl(s) <= s.len(),
    decreases s.len(),
{
    if s.len() > 0 && s[0] != '\n' {
        lemma_first_nl_bounds(s.subrange(1, s.len() as int));
    }
}

proof fn lemma_first_nl_at(s: Seq<char>, i: int)
    requires
        0 <= i <= s.len(),
        forall|k: int| 0 <= k < i ==> s[k] != '\n',
        i == s.len() || s[i] == '\n',
    ensures
        first_nl(s) == i,
    decreases i,
{
    if i == 0 {
    } else {
        let t = s.subrange(1, s.len() as int);
        assert(forall|k: int| 0 <= k < i - 1 ==> t[k] != '\n');
        lemma_first_nl_at(t, i - 1);
    }
}

/// The lines of `s`, split at line feeds, each with a trailing carriage
/// return removed; a final line ending yields no extra empty line.
pub open spec fn split_lines(s: Seq<char>) -> Seq<Seq<char>>
    decreases s.len(),
    via split_lines_decreases
{
    if s.len() == 0 {
        Seq::empty()
    } else {
        let i = first_nl(s);
        if i == s.len() {
            seq![s]
        } else {
            seq![strip_cr(s.subrange(0, i))] + split_lines(s.subrange(i + 1, s.len() as int))
        }
    }
}

#[via_fn]
proof fn split_lines_decreases(s: Seq<char>) {
    lemma_first_nl_bounds(s);
}

/// The lines of `s`, as fresh strings.
pub fn split_lines_exec(s: &str) -> (r: Vec<String>)
    ensures
        r.deep_view() == split_lines(s@),
{
    let n = s.unicode_len();
    let mut r: Vec<String> = Vec::new();
    let mut pos: usize = 0;
    proof {
        assert(s@.subrange(0, n as int) =~= s@);
        assert(r.deep_view() + split_lines(s@.subrange(0, n as int)) =~= split_lines(s@));
    }
    while pos < n
        invariant
            0 <= pos <= n,
            n == s@.len(),
            r.deep_view() + split_lines(s@.subrange(pos as int, n as int)) == split_lines(s@),
        decreases n - pos,
    {
        let ghost w = s@.subrange(pos as int, n as int);
        // find the next line feed
        let mut j: usize = pos;
        while j < n && s.get_char(j) != '\n'
            invariant
                pos <= j <= n,
                n == s@.len(),
                forall|k: int| pos <= k < j ==> s@[k] != '\n',
            decreases n - j,
        {
            j = j + 1;
        }
        proof {
            assert(forall|k: int| 0 <= k < j - pos ==> w[k] != '\n');
            if j < n {
                assert(w[j - pos] == '\n');
            }
            lemma_first_nl_at(w, j - pos);
        }
        if j == n {
            // last line, no trailing line feed
            let line = s.substring_char(pos, n).to_owned();
            proof {
                assert(split_lines(w) =~= seq![w]);
                assert(r.deep_view().push(w) + Seq::<Seq<char>>::empty() =~= r.deep_view().push(
                    w,
                ));
                assert(split_lines(s@.subrange(n as int, n as int)) =~= Seq::<Seq<char>>::empty());
                assert(r.deep_view().push(w) + split_lines(s@.subrange(n as int, n as int))
                    =~= r.deep_view() + split_lines(w));
            }
            r.push(line);
            pos = n;
            proof {
                assert(r.deep_view() =~= r.deep_view().subrange(0, r.deep_view().len() - 1).push(
                    w,
                ));
            }
        } else {
            // line runs to the line feed; drop one trailing carriage return
            let end = if j > pos && s.get_char(j - 1) == '\r' {
                j - 1
            } else {
                j
            };
            let line = s.substring_char(pos, end).to_owned();
            proof {
                let raw = w.subrange(0, j - pos);
                assert(raw =~= s@.subrange(pos as int, j as int));
                if j > pos && s@[j - 1] == '\r' {
                    assert(raw[raw.len() - 1] == '\r');
                    assert(strip_cr(raw) =~= s@.subrange(pos as int, j - 1));
                } else {
                    assert(strip_cr(raw) =~= s@.subrange(pos as int, j as int));
                }
                assert(line@ == strip_cr(raw));
                assert(w.subrange(j - pos + 1, w.len() as int) =~= s@.subrange(
                    j + 1,
                    n as int,
                ));
                assert(split_lines(w) =~= seq![strip_cr(raw)] + split_lines(
                    s@.subrange(j + 1, n as int),
                ));
            }
            r.push(line);
            proof {
                assert(r.deep_view() =~= r.deep_view().subrange(0, r.deep_view().len() - 1)
                    + seq![line@]);
                assert(r.deep_view() + split_lines(s@.subrange(j + 1, n as int)) =~= (
                r.deep_view().subrange(0, r.deep_view().len() - 1) + (seq![line@] + split_lines(
                    s@.subrange(j + 1, n as int),
                ))));
            }
            pos = j + 1;
        }
    }
    proof {
        assert(split_lines(s@.subrange(pos as int, n as int)) =~= Seq::<Seq<char>>::empty());
        assert(r.deep_view() + Seq::<Seq<char>>::empty() =~= r.deep_view());
    }
    r
}

/// `a` is lexicographically at most `b`, comparing code points.
pub open spec fn lex_le(a: Seq<char>, b: Seq<char>) -> bool
    decreases a.len(),
{
    if a.len() == 0 {
        true
    } else if b.len() == 0 {
        false
    } else if (a[0] as int) < (b[0] as int) {
        true
    } else if (a[0] as int) > (b[0] as int) {
        false
    } else {
        lex_le(a.subrange(1, a.len() as int), b.subrange(1, b.len() as int))
    }
}

proof fn lemma_lex_le_common(a: Seq<char>, b: Seq<char>, i: int)
    requires
        0 <= i <= a.len(),
        i <= b.len(),
        forall|k: int| 0 <= k < i ==> a[k] == b[k],
    ensures
        lex_le(a, b) == lex_le(a.subrange(i, a.len() as int), b.subrange(i, b.len() as int)),
    decreases i,
{
    if i == 0 {
        assert(a.subrange(0, a.len() as int) =~= a);
        assert(b.subrange(0, b.len() as int) =~= b);
    } else {
        lemma_lex_le_common(a, b, i - 1);
        let ta = a.subrange(i - 1, a.len() as int);
        let tb = b.subrange(i - 1, b.len() as int);
        assert(ta[0] == tb[0]);
        if ta.len() > 0 && tb.len() > 0 {
            assert(ta.subrange(1, ta.len() as int) =~= a.subrange(i, a.len() as int));
            assert(tb.subrange(1, tb.len() as int) =~= b.subrange(i, b.len() as int));
        } else {
            assert(ta.len() == 0);
            assert(a.subrange(i, a.len() as int) =~= Seq::<char>::empty());
            assert(lex_le(ta, tb));
            assert(lex_le(a.subrange(i, a.len() as int), b.subrange(i, b.len() as int)));
        }
    }
}

/// The lexicographic order is total.
pub proof fn lemma_lex_le_total(a: Seq<char>, b: Seq<char>)
    ensures
        lex_le(a, b) || lex_le(b, a),
    decreases a.len(),
{
    if a.len() > 0 && b.len() > 0 && a[0] == b[0] {
        lemma_lex_le_total(a.subrange(1, a.len() as int), b.subrange(1, b.len() as int));
    }
}

/// The lexicographic order is transitive.
pub proof fn lemma_lex_le_trans(a: Seq<char>, b: Seq<char>, c: Seq<char>)
    requires
        lex_le(a, b),
        lex_le(b, c),
    ensures
        lex_le(a, c),
    decreases a.len(),
{
    if a.len() > 0 && b.len() > 0 && c.len() > 0 {
        if a[0] == b[0] && b[0] == c[0] {
            lemma_lex_le_trans(
                a.subrange(1, a.len() as int),
                b.subrange(1, b.len() as int),
                c.subrange(1, c.len() as int),
            );
        }
    }
}

/// Whether `a` is lexicographically at most `b`.
pub fn lex_le_exec(a: &str, b: &str) -> (r: bool)
    ensures
        r == lex_le(a@, b@),
{
    let na = a.unicode_len();
    let nb = b.unicode_len();
    let mut i: usize = 0;
    loop
        invariant
            0 <= i,
            i <= na,
            i <= nb,
            na == a@.len(),
            nb == b@.len(),
            forall|k: int| 0 <= k < i ==> a@[k] == b@[k],
        ensures
            (i <= na && i <= nb),
            lex_le(a@, b@) == lex_le(
                a@.subrange(i as int, na as int),
                b@.subrange(i as int, nb as int),
            ),
            i == na || i == nb || a@[i as int] != b@[i as int],
        decreases na - i,
    {
        proof {
            lemma_lex_le_common(a@, b@, i as int);
        }
        if i == na || i == nb {
            break;
        }
        if a.get_char(i) != b.get_char(i) {
            break;
        }
        i = i + 1;
    }
    if i == na {
        proof {
            assert(a@.subrange(i as int, na as int) =~= Seq::<char>::empty());
        }
        return true;
    }
    if i == nb {
        proof {
            assert(b@.subrange(i as int, nb as int) =~= Seq::<char>::empty());
            assert(a@.subrange(i as int, na as int).len() > 0);
        }
        return false;
    }
    let ca = a.get_char(i);
    let cb = b.get_char(i);
    proof {
        assert(a@.subrange(i as int, na as int)[0] == a@[i as int]);
        assert(b@.subrange(i as int, nb as int)[0] == b@[i as int]);
    }
    (ca as u32) < (cb as u32)
}

/// The pieces joined with a single separator character between them:
/// the flattened form of a selector stack, or the segments of a path.
pub open spec fn join_sep(ts: Seq<Seq<char>>, sep: char) -> Seq<char>
    decreases ts.len(),
{
    if ts.len() == 0 {
        Seq::empty()
    } else if ts.len() == 1 {
        ts[0]
    } else {
        ts[0] + seq![sep] + join_sep(ts.subrange(1, ts.len() as int), sep)
    }
}

/// Joining one more piece appends the separator and the piece, except
/// onto an empty join.
pub proof fn lemma_join_sep_snoc(ts: Seq<Seq<char>>, t: Seq<char>, sep: char)
    ensures
        join_sep(ts.push(t), sep) == (if ts.len() == 0 {
            t
        } else {
            join_sep(ts, sep) + seq![sep] + t
        }),
    decreases ts.len(),
{
    if ts.len() == 0 {
        assert(ts.push(t).len() == 1);
        assert(ts.push(t)[0] == t);
    } else {
        let sub = ts.subrange(1, ts.len() as int);
        assert(ts.push(t).subrange(1, ts.push(t).len() as int) =~= sub.push(t));
        lemma_join_sep_snoc(sub, t, sep);
        if ts.len() == 1 {
            assert(sub.len() == 0);
            assert(join_sep(ts.push(t), sep) == ts[0] + seq![sep] + t);
            assert(join_sep(ts, sep) == ts[0]);
        } else {
            assert(join_sep(ts.push(t), sep) == ts.push(t)[0] + seq![sep] + (join_sep(sub, sep)
                + seq![sep] + t));
            assert(ts.push(t)[0] == ts[0]);
            assert(ts[0] + seq![sep] + (join_sep(sub, sep) + seq![sep] + t) =~= (ts[0] + seq![sep]
                + join_sep(sub, sep)) + seq![sep] + t);
        }
    }
}

/// A decimal digit.
pub open spec fn is_digit(c: char) -> bool {
    '0' <= c && c <= '9'
}

/// The value of a digit character.
pub open spec fn digit_val(c: char) -> int {
    (c as int) - ('0' as int)
}

/// Every character of `s` is a decimal digit.
pub open spec fn all_digits(s: Seq<char>) -> bool {
    forall|k: int| 0 <= k < s.len() ==> is_digit(s[k])
}

/// The value of the digit string `s` read in base ten.
pub open spec fn dec_val(s: Seq<char>) -> int
    decreases s.len(),
{
    if s.len() == 0 {
        0
    } else {
        dec_val(s.subrange(0, s.len() - 1)) * 10 + digit_val(s[s.len() - 1])
    }
}

/// The numeric rank a frame selector sorts by: the value of its digits
/// once every trailing percent sign is removed, or zero where that prefix
/// is empty, not numeric, or too large for a 32-bit count.
pub open spec fn percent_rank(s: Seq<char>) -> int {
    let p = trim_trailing(s, '%');
    if p.len() > 0 && all_digits(p) && dec_val(p) <= u32::MAX as int {
        dec_val(p)
    } else {
        0
    }
}

proof fn lemma_dec_val_overflow(p: Seq<char>, i: int)
    requires
        0 <= i <= p.len(),
        dec_val(p.subrange(0, i)) > u32::MAX as int,
    ensures
        !all_digits(p) || dec_val(p) > u32::MAX as int,
    decreases p.len() - i,
{
    if i == p.len() {
        assert(p.subrange(0, p.len() as int) =~= p);
    } else {
        if is_digit(p[i]) {
            let cur = p.subrange(0, i + 1);
            assert(cur.subrange(0, cur.len() - 1) =~= p.subrange(0, i));
            assert(digit_val(cur[cur.len() - 1]) >= 0);
            assert(dec_val(cur) > u32::MAX as int);
            lemma_dec_val_overflow(p, i + 1);
        } else {
            assert(!all_digits(p)) by {
                assert(!is_digit(p[i]));
            }
        }
    }
}

proof fn lemma_dec_val_nonneg(s: Seq<char>)
    requires
        all_digits(s),
    ensures
        dec_val(s) >= 0,
    decreases s.len(),
{
    if s.len() > 0 {
        let t = s.subrange(0, s.len() - 1);
        assert(all_digits(t));
        lemma_dec_val_nonneg(t);
    }
}

/// The numeric rank of a frame selector.
pub fn percent_rank_exec(s: &str) -> (r: u32)
    ensures
        r as int == percent_rank(s@),
{
    let p = trim_trailing_char(s, '%');
    let n = p.as_str().unicode_len();
    if n == 0 {
        return 0;
    }
    let mut acc: u64 = 0;
    let mut i: usize = 0;
    proof {
        assert(p@.subrange(0, 0) =~= Seq::<char>::empty());
    }
    while i < n
        invariant
            0 <= i <= n,
            n == p@.len(),
            n > 0,
            p@ == trim_trailing(s@, '%'),
            all_digits(p@.subrange(0, i as int)),
            acc as int == dec_val(p@.subrange(0, i as int)),
            acc <= u32::MAX,
        decreases n - i,
    {
        let c = p.as_str().get_char(i);
        if !('0' <= c && c <= '9') {
            assert(!all_digits(p@)) by {
                assert(!is_digit(p@[i as int]));
            }
            return 0;
        }
        let d: u64 = (c as u32 as u64) - ('0' as u32 as u64);
        let next: u64 = acc * 10 + d;
        proof {
            let pre = p@.subrange(0, i as int);
            let cur = p@.subrange(0, i + 1);
            assert(cur.subrange(0, cur.len() - 1) =~= pre);
            assert(cur[cur.len() - 1] == p@[i as int]);
            assert(all_digits(cur));
        }
        if next > u32::MAX as u64 {
            // the full prefix is already too large, so the whole string is
            proof {
                assert(dec_val(p@.subrange(0, i + 1)) > u32::MAX as int);
                lemma_dec_val_overflow(p@, i + 1);
            }
            return 0;
        }
        acc = next;
        i = i + 1;
    }
    proof {
        assert(p@.subrange(0, n as int) =~= p@);
    }
    acc as u32
}

/// The character for one decimal digit value.
pub open spec fn digit_char(d: int) -> char {
    if d == 0 {
        '0'
    } else if d == 1 {
        '1'
    } else if d == 2 {
        '2'
    } else if d == 3 {
        '3'
    } else if d == 4 {
        '4'
    } else if d == 5 {
        '5'
    } else if d == 6 {
        '6'
    } else if d == 7 {
        '7'
    } else if d == 8 {
        '8'
    } else {
        '9'
    }
}

/// The decimal rendering of `n`, most significant digit first.
pub open spec fn dec_str(n: int) -> Seq<char>
    decreases n,
{
    if n < 10 {
        seq![digit_char(n)]
    } else {
        dec_str(n / 10) + seq![digit_char(n % 10)]
    }
}

fn digit_str(d: usize) -> (r: &'static str)
    requires
        d < 10,
    ensures
        r@ == seq![digit_char(d as int)],
{
    proof {
        reveal_strlit("0");
        reveal_strlit("1");
        reveal_strlit("2");
        reveal_strlit("3");
        reveal_strlit("4");
        reveal_strlit("5");
        reveal_strlit("6");
        reveal_strlit("7");
        reveal_strlit("8");
        reveal_strlit("9");
    }
    let r = if d == 0 {
        "0"
    } else if d == 1 {
        "1"
    } else if d == 2 {
        "2"
    } else if d == 3 {
        "3"
    } else if d == 4 {
        "4"
    } else if d == 5 {
        "5"
    } else if d == 6 {
        "6"
    } else if d == 7 {
        "7"
    } else if d == 8 {
        "8"
    } else {
        "9"
    };
    proof {
        assert(r@ =~= seq![digit_char(d as int)]);
    }
    r
}

/// The decimal rendering of `n`.
pub fn usize_to_string(n: usize) -> (r: String)
    ensures
        r@ == dec_str(n as int),
    decreases n,
{
    if n < 10 {
        digit_str(n).to_owned()
    } else {
        let mut r = usize_to_string(n / 10);
        r.append(digit_str(n % 10));
        r
    }
}

} // verus!
