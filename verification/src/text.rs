//! Text utilities shared by the selection pipeline: case-insensitive
//! comparison, path-component joining and splitting, lexicographic order on
//! names, and file-extension extraction.

use vstd::prelude::*;

verus! {

/// What `str::to_lowercase` returns for a given character sequence.
pub uninterp spec fn lower_of(s: Seq<char>) -> Seq<char>;

/// Relies on `str::to_lowercase`: the result depends on the characters alone.
#[verifier::external_body]
pub(crate) fn lowercase(s: &str) -> (r: String)
    ensures
        r@ == lower_of(s@),
{
    s.to_lowercase()
}

/// Whether two names are equal ignoring case.
pub open spec fn eq_ci(a: Seq<char>, b: Seq<char>) -> bool {
    lower_of(a) == lower_of(b)
}

/// Compares two names ignoring case.
pub fn equals_ci(a: &str, b: &str) -> (r: bool)
    ensures
        r == eq_ci(a@, b@),
{
    let la = lowercase(a);
    let lb = lowercase(b);
    la == lb
}

/// Whether `name` occurs in `list`, ignoring case.
pub open spec fn in_list_ci(name: Seq<char>, list: Seq<Seq<char>>) -> bool {
    exists|i: int| 0 <= i < list.len() && eq_ci(name, list[i])
}

/// Looks `name` up in `list`, ignoring case.
pub fn contains_ci(list: &Vec<String>, name: &str) -> (r: bool)
    ensures
        r == in_list_ci(name@, list.deep_view()),
{
    let ghost model = list.deep_view();
    let mut i: usize = 0;
    while i < list.len()
        invariant
            0 <= i <= list.len(),
            model == list.deep_view(),
            model.len() == list.len(),
            forall|k: int| 0 <= k < i ==> !eq_ci(name@, model[k]),
        decreases list.len() - i,
    {
        assert(model[i as int] == list@[i as int]@);
        if equals_ci(name, list[i].as_str()) {
            return true;
        }
        i = i + 1;
    }
    false
}

/// The components of `parts` joined by `delim`.
pub open spec fn joined(parts: Seq<Seq<char>>, delim: Seq<char>) -> Seq<char>
    decreases parts.len(),
{
    if parts.len() == 0 {
        Seq::empty()
    } else if parts.len() == 1 {
        parts[0]
    } else {
        joined(parts.drop_last(), delim) + delim + parts.last()
    }
}

/// Joins `parts` with `delim` between each pair of neighbours.
pub fn join_components(parts: &Vec<String>, delim: &str) -> (r: String)
    ensures
        r@ == joined(parts.deep_view(), delim@),
{
    let ghost model = parts.deep_view();
    let mut r = String::new();
    let mut i: usize = 0;
    while i < parts.len()
        invariant
            0 <= i <= parts.len(),
            model == parts.deep_view(),
            model.len() == parts.len(),
            r@ == joined(model.subrange(0, i as int), delim@),
        decreases parts.len() - i,
    {
        assert(model[i as int] == parts@[i as int]@);
        if i > 0 {
            r.append(delim);
        }
        r.append(parts[i].as_str());
        proof {
            let pre = model.subrange(0, i as int);
            let cur = model.subrange(0, i + 1 as int);
            assert(cur.drop_last() =~= pre);
            assert(cur.last() == model[i as int]);
            if i == 0 {
                assert(joined(cur, delim@) == model[0]);
            }
        }
        i = i + 1;
    }
    proof {
        assert(model.subrange(0, model.len() as int) =~= model);
    }
    r
}

/// Splitting `s` on `sep` when `cur` holds the piece read so far.
pub open spec fn split_acc(s: Seq<char>, sep: char, cur: Seq<char>) -> Seq<Seq<char>>
    decreases s.len(),
{
    if s.len() == 0 {
        seq![cur]
    } else if s[0] == sep {
        seq![cur] + split_acc(s.drop_first(), sep, Seq::empty())
    } else {
        split_acc(s.drop_first(), sep, cur.push(s[0]))
    }
}

/// The pieces of `s` between occurrences of `sep`.
pub open spec fn split_comps(s: Seq<char>, sep: char) -> Seq<Seq<char>> {
    split_acc(s, sep, Seq::empty())
}

/// Splits `s` at every occurrence of `sep`.
pub fn split_components(s: &str, sep: char) -> (r: Vec<String>)
    ensures
        r.deep_view() == split_comps(s@, sep),
{
    let n = s.unicode_len();
    let mut done: Vec<String> = Vec::new();
    let mut st: usize = 0;
    let mut i: usize = 0;
    proof {
        assert(s@.skip(0) =~= s@);
        assert(s@.subrange(0, 0) =~= Seq::<char>::empty());
        assert(done.deep_view() + split_acc(s@, sep, Seq::empty()) =~= split_acc(
            s@,
            sep,
            Seq::empty(),
        ));
    }
    while i < n
        invariant
            0 <= st <= i <= n,
            n == s@.len(),
            done.deep_view() + split_acc(s@.skip(i as int), sep, s@.subrange(st as int, i as int))
                == split_comps(s@, sep),
        decreases n - i,
    {
        let c = s.get_char(i);
        proof {
            let rest = s@.skip(i as int);
            assert(rest.len() == n - i);
            assert(rest[0] == s@[i as int]);
            assert(rest.drop_first() =~= s@.skip(i + 1 as int));
        }
        if c == sep {
            let piece = s.substring_char(st, i);
            done.push(String::from_str(piece));
            st = i + 1;
            proof {
                assert(s@.subrange(st as int, st as int) =~= Seq::<char>::empty());
                let dv = done.deep_view();
                assert(dv.drop_last() + (seq![dv.last()] + split_acc(
                    s@.skip(i + 1 as int),
                    sep,
                    Seq::empty(),
                )) =~= dv + split_acc(s@.skip(i + 1 as int), sep, Seq::empty()));
            }
        } else {
            proof {
                assert(s@.subrange(st as int, i + 1 as int) =~= s@.subrange(
                    st as int,
                    i as int,
                ).push(s@[i as int]));
            }
        }
        i = i + 1;
    }
    let piece = s.substring_char(st, n);
    done.push(String::from_str(piece));
    proof {
        assert(s@.skip(n as int) =~= Seq::<char>::empty());
        let dv = done.deep_view();
        assert(dv.drop_last() + seq![dv.last()] =~= dv);
    }
    done
}

/// Strict lexicographic order on names by Unicode scalar value.
pub open spec fn lex_lt(a: Seq<char>, b: Seq<char>) -> bool
    decreases a.len(),
{
    if b.len() == 0 {
        false
    } else if a.len() == 0 {
        true
    } else if a[0] != b[0] {
        (a[0] as u32) < (b[0] as u32)
    } else {
        lex_lt(a.drop_first(), b.drop_first())
    }
}

proof fn lemma_lex_step(a: Seq<char>, b: Seq<char>, i: int)
    requires
        0 <= i < a.len(),
        0 <= i < b.len(),
        forall|k: int| 0 <= k < i ==> a[k] == b[k],
    ensures
        a[i] != b[i] ==> lex_lt(a, b) == ((a[i] as u32) < (b[i] as u32)),
        a[i] == b[i] && i + 1 == a.len() && i + 1 < b.len() ==> lex_lt(a, b),
        a[i] == b[i] && i + 1 == b.len() ==> !lex_lt(a, b),
    decreases i,
{
    let a1 = a.drop_first();
    let b1 = b.drop_first();
    if i == 0 {
        if a[0] == b[0] {
            if i + 1 == a.len() && i + 1 < b.len() {
                assert(a1.len() == 0 && b1.len() > 0);
                assert(lex_lt(a1, b1));
            }
            if i + 1 == b.len() {
                assert(b1.len() == 0);
                assert(!lex_lt(a1, b1));
            }
        }
    } else {
        assert(a1[i - 1] == a[i]);
        assert(b1[i - 1] == b[i]);
        assert(forall|k: int| 0 <= k < i - 1 ==> a1[k] == a[k + 1] && b1[k] == b[k + 1]);
        lemma_lex_step(a1, b1, i - 1);
        assert(a[0] == b[0]);
    }
}

proof fn lemma_lex_prefix(a: Seq<char>, b: Seq<char>)
    requires
        a.len() < b.len(),
        forall|k: int| 0 <= k < a.len() ==> a[k] == b[k],
    ensures
        lex_lt(a, b),
    decreases a.len(),
{
    if a.len() > 0 {
        assert(forall|k: int| 0 <= k < a.len() - 1 ==> a.drop_first()[k] == a[k + 1]
            && b.drop_first()[k] == b[k + 1]);
        lemma_lex_prefix(a.drop_first(), b.drop_first());
    }
}

/// Compares two names in the lexicographic order `lex_lt`.
pub fn str_lt(a: &str, b: &str) -> (r: bool)
    ensures
        r == lex_lt(a@, b@),
{
    let na = a.unicode_len();
    let nb = b.unicode_len();
    let mut i: usize = 0;
    loop
        invariant
            0 <= i,
            i <= na,
            i <= nb,
            na == a@.len(),
            nb == b@.len(),
            forall|k: int| 0 <= k < i ==> a@[k] == b@[k],
        decreases na - i,
    {
        if i >= nb {
            proof {
                if i == a@.len() && i == b@.len() {
                    assert(a@ =~= b@);
                    lemma_lex_not_refl(a@);
                } else if i < a@.len() {
                    lemma_lex_ge(a@, b@, i as int);
                }
            }
            return false;
        }
        if i >= na {
            proof {
                lemma_lex_prefix(a@, b@);
            }
            return true;
        }
        let ca = a.get_char(i);
        let cb = b.get_char(i);
        if ca != cb {
            proof {
                lemma_lex_step(a@, b@, i as int);
            }
            return (ca as u32) < (cb as u32);
        }
        i = i + 1;
    }
}

/// `lex_lt` is irreflexive.
pub proof fn lemma_lex_not_refl(a: Seq<char>)
    ensures
        !lex_lt(a, a),
    decreases a.len(),
{
    if a.len() > 0 {
        lemma_lex_not_refl(a.drop_first());
    }
}

proof fn lemma_lex_ge(a: Seq<char>, b: Seq<char>, i: int)
    requires
        0 <= i,
        i == b.len(),
        i < a.len(),
        forall|k: int| 0 <= k < i ==> a[k] == b[k],
    ensures
        !lex_lt(a, b),
    decreases i,
{
    if i > 0 {
        assert(forall|k: int| 0 <= k < i - 1 ==> a.drop_first()[k] == a[k + 1] && b.drop_first()[k]
            == b[k + 1]);
        lemma_lex_ge(a.drop_first(), b.drop_first(), i - 1);
    }
}

/// Distinct names are ordered one way or the other by `lex_lt`.
pub proof fn lemma_lex_connected(a: Seq<char>, b: Seq<char>)
    requires
        a != b,
    ensures
        lex_lt(a, b) || lex_lt(b, a),
    decreases a.len(),
{
    if a.len() == 0 && b.len() == 0 {
        assert(a =~= b);
    } else if a.len() > 0 && b.len() > 0 && a[0] == b[0] {
        let a1 = a.drop_first();
        let b1 = b.drop_first();
        assert(a1 != b1) by {
            if a1 == b1 {
                assert(a1.len() == a.len() - 1);
                assert(b1.len() == b.len() - 1);
                assert(a.len() == b.len());
                assert forall|k: int| 0 <= k < a.len() implies a[k] == b[k] by {
                    if k >= 1 {
                        assert(a1[k - 1] == a[k]);
                        assert(b1[k - 1] == b[k]);
                        assert(a1[k - 1] == b1[k - 1]);
                    }
                }
                assert(a =~= b);
            }
        }
        lemma_lex_connected(a1, b1);
    } else if a.len() == 0 {
        assert(lex_lt(a, b));
    } else if b.len() == 0 {
        assert(lex_lt(b, a));
    } else {
        assert(a[0] != b[0]);
        assert((a[0] as u32) != (b[0] as u32)) by {
            if (a[0] as u32) == (b[0] as u32) {
                vstd::utf8::char_u32_cast(a[0], a[0] as u32);
                vstd::utf8::char_u32_cast(b[0], b[0] as u32);
            }
        }
    }
}

/// `lex_lt` is transitive.
pub proof fn lemma_lex_transitive(a: Seq<char>, b: Seq<char>, c: Seq<char>)
    requires
        lex_lt(a, b),
        lex_lt(b, c),
    ensures
        lex_lt(a, c),
    decreases a.len(),
{
    if a.len() > 0 && b.len() > 0 && c.len() > 0 {
        if a[0] == b[0] && b[0] == c[0] {
            lemma_lex_transitive(a.drop_first(), b.drop_first(), c.drop_first());
        }
    }
}

/// The characters after the last `.` of `s`, if `s` holds any `.`.
pub open spec fn after_last_dot(s: Seq<char>) -> Option<Seq<char>>
    decreases s.len(),
{
    if s.len() == 0 {
        None
    } else if s.last() == '.' {
        Some(Seq::empty())
    } else {
        match after_last_dot(s.drop_last()) {
            None => None,
            Some(e) => Some(e.push(s.last())),
        }
    }
}

/// The extension of a file name: the part after the last `.`, or nothing
/// when the name has no `.` past its first character. A leading `.` alone
/// marks a hidden file, not an extension.
pub open spec fn ext_of(name: Seq<char>) -> Option<Seq<char>> {
    match after_last_dot(name) {
        None => None,
        Some(e) => if name.len() - e.len() - 1 == 0 {
            None
        } else {
            Some(e)
        },
    }
}

proof fn lemma_no_dot(s: Seq<char>)
    requires
        forall|k: int| 0 <= k < s.len() ==> s[k] != '.',
    ensures
        after_last_dot(s) is None,
    decreases s.len(),
{
    if s.len() > 0 {
        lemma_no_dot(s.drop_last());
    }
}

proof fn lemma_dot_at(s: Seq<char>, j: int)
    requires
        0 <= j < s.len(),
        s[j] == '.',
        forall|k: int| j < k < s.len() ==> s[k] != '.',
    ensures
        after_last_dot(s) == Some(s.subrange(j + 1, s.len() as int)),
    decreases s.len(),
{
    if j == s.len() - 1 {
        assert(s.subrange(j + 1, s.len() as int) =~= Seq::<char>::empty());
    } else {
        assert(forall|k: int| j < k < s.len() - 1 ==> s.drop_last()[k] == s[k]);
        lemma_dot_at(s.drop_last(), j);
        assert(s.subrange(j + 1, s.len() as int) =~= s.drop_last().subrange(
            j + 1,
            s.len() - 1,
        ).push(s.last()));
    }
}

/// Extracts the extension of a file name, as `ext_of` describes it.
pub fn extension_of(name: &str) -> (r: Option<String>)
    ensures
        match r {
            Some(e) => ext_of(name@) == Some(e@),
            None => ext_of(name@) is None,
        },
{
    let n = name.unicode_len();
    let mut j: usize = n;
    while j > 0
        invariant
            0 <= j <= n,
            n == name@.len(),
            forall|k: int| j <= k < n ==> name@[k] != '.',
        decreases j,
    {
        let c = name.get_char(j - 1);
        if c == '.' {
            proof {
                lemma_dot_at(name@, j - 1);
            }
            if j - 1 == 0 {
                return None;
            }
            let e = name.substring_char(j, n);
            return Some(String::from_str(e));
        }
        j = j - 1;
    }
    proof {
        lemma_no_dot(name@);
    }
    None
}

} // verus!
