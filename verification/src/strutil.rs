//! Small string helpers shared by the engine: decimal rendering of counters,
//! lexicographic ordering of names, and comma-separated joining for reports.

use vstd::prelude::*;

verus! {

/// The digit character for a single decimal digit.
pub open spec fn dec_digit(d: nat) -> char {
    if d == 0 {
        '0'
    } else if d == 1 {
        '1'
    } else if d == 2 {
        '2'
    } else if d == 3 {
        '3'
    } else if d == 4 {
        '4'
    } else if d == 5 {
        '5'
    } else if d == 6 {
        '6'
    } else if d == 7 {
        '7'
    } else if d == 8 {
        '8'
    } else {
        '9'
    }
}

/// The decimal rendering of a number, most significant digit first, with no
/// leading zeros (and `0` rendered as "0").
pub open spec fn dec_str(n: nat) -> Seq<char>
    decreases n,
{
    if n < 10 {
        seq![dec_digit(n)]
    } else {
        dec_str(n / 10).push(dec_digit(n % 10))
    }
}

/// Appends the decimal rendering of `n` to `out`.
pub fn push_dec(out: &mut String, n: u64)
    ensures
        final(out)@ == old(out)@ + dec_str(n as nat),
    decreases n,
{
    if n >= 10 {
        push_dec(out, n / 10);
    }
    let d: u64 = n % 10;
    let digit: &str = if d == 0 {
        "0"
    } else if d == 1 {
        "1"
    } else if d == 2 {
        "2"
    } else if d == 3 {
        "3"
    } else if d == 4 {
        "4"
    } else if d == 5 {
        "5"
    } else if d == 6 {
        "6"
    } else if d == 7 {
        "7"
    } else if d == 8 {
        "8"
    } else {
        "9"
    };
    proof {
        reveal_strlit("0");
        reveal_strlit("1");
        reveal_strlit("2");
        reveal_strlit("3");
        reveal_strlit("4");
        reveal_strlit("5");
        reveal_strlit("6");
        reveal_strlit("7");
        reveal_strlit("8");
        reveal_strlit("9");
        assert(digit@ =~= seq![dec_digit((n % 10) as nat)]);
        if n < 10 {
            assert(dec_str(n as nat) =~= seq![dec_digit(n as nat)]);
        }
    }
    out.append(digit);
    proof {
        if n >= 10 {
            assert(out@ =~= old(out)@ + dec_str(n as nat));
        } else {
            assert(out@ =~= old(out)@ + dec_str(n as nat));
        }
    }
}

/// The decimal rendering of `n` as a fresh string.
pub fn u64_to_string(n: u64) -> (s: String)
    ensures
        s@ == dec_str(n as nat),
{
    let mut s = String::new();
    push_dec(&mut s, n);
    proof {
        assert(s@ =~= dec_str(n as nat));
    }
    s
}

/// Strict lexicographic order on character sequences, by code point.
pub open spec fn lex_lt(a: Seq<char>, b: Seq<char>) -> bool
    decreases a.len(),
{
    if b.len() == 0 {
        false
    } else if a.len() == 0 {
        true
    } else if a[0] != b[0] {
        (a[0] as int) < (b[0] as int)
    } else {
        lex_lt(a.drop_first(), b.drop_first())
    }
}

/// Reflexive lexicographic order on character sequences.
pub open spec fn lex_le(a: Seq<char>, b: Seq<char>) -> bool {
    lex_lt(a, b) || a == b
}

/// Chopping an equal prefix off both sequences does not change their
/// lexicographic relation.
proof fn lemma_lex_lt_skip(a: Seq<char>, b: Seq<char>, i: int)
    requires
        0 <= i <= a.len(),
        i <= b.len(),
        forall|j: int| 0 <= j < i ==> a[j] == b[j],
    ensures
        lex_lt(a, b) == lex_lt(a.skip(i), b.skip(i)),
    decreases i,
{
    if i > 0 {
        assert(a[0] == b[0]);
        assert(a.len() > 0 && b.len() > 0);
        assert(lex_lt(a, b) == lex_lt(a.drop_first(), b.drop_first()));
        assert(forall|j: int|
            0 <= j < i - 1 ==> a.drop_first()[j] == b.drop_first()[j]) by {
            assert(forall|j: int|
                0 <= j < i - 1 ==> a.drop_first()[j] == a[j + 1] && b.drop_first()[j] == b[j + 1]);
        }
        lemma_lex_lt_skip(a.drop_first(), b.drop_first(), i - 1);
        assert(a.drop_first().skip(i - 1) =~= a.skip(i));
        assert(b.drop_first().skip(i - 1) =~= b.skip(i));
    } else {
        assert(a.skip(0) =~= a);
        assert(b.skip(0) =~= b);
    }
}

/// Nothing precedes itself lexicographically.
pub proof fn lemma_lex_lt_irrefl(a: Seq<char>)
    ensures
        !lex_lt(a, a),
    decreases a.len(),
{
    if a.len() > 0 {
        lemma_lex_lt_irrefl(a.drop_first());
    }
}

/// Decides whether two string slices hold the same characters.
pub fn str_eq(a: &str, b: &str) -> (r: bool)
    ensures
        r == (a@ == b@),
{
    let a_len = a.unicode_len();
    let b_len = b.unicode_len();
    if a_len != b_len {
        proof {
            assert(a@ != b@) by {
                assert(a@.len() != b@.len());
            }
        }
        return false;
    }
    let mut i: usize = 0;
    while i < a_len
        invariant
            a_len == a@.len() && a_len == b@.len(),
            0 <= i <= a_len,
            forall|j: int| 0 <= j < i ==> a@[j] == b@[j],
        decreases a_len - i,
    {
        if a.get_char(i) != b.get_char(i) {
            proof {
                assert(a@ != b@) by {
                    assert(a@[i as int] != b@[i as int]);
                }
            }
            return false;
        }
        i += 1;
    }
    proof {
        assert(a@ =~= b@);
    }
    true
}

/// Decides `lex_le` on two string slices.
pub fn str_le(a: &str, b: &str) -> (r: bool)
    ensures
        r == lex_le(a@, b@),
{
    let a_len = a.unicode_len();
    let b_len = b.unicode_len();
    let n = if a_len < b_len {
        a_len
    } else {
        b_len
    };
    let mut i: usize = 0;
    while i < n
        invariant
            n <= a_len && n <= b_len,
            a_len == a@.len() && b_len == b@.len(),
            n == if a_len < b_len { a_len } else { b_len },
            0 <= i <= n,
            forall|j: int| 0 <= j < i ==> a@[j] == b@[j],
        decreases n - i,
    {
        let ca = a.get_char(i);
        let cb = b.get_char(i);
        if ca != cb {
            proof {
                lemma_lex_lt_skip(a@, b@, i as int);
                assert(a@.skip(i as int)[0] == a@[i as int]);
                assert(b@.skip(i as int)[0] == b@[i as int]);
                assert(lex_lt(a@.skip(i as int), b@.skip(i as int)) == ((ca as int) < (cb as int)));
                assert(a@ != b@) by {
                    assert(a@[i as int] != b@[i as int]);
                }
            }
            return (ca as u32) < (cb as u32);
        }
        i += 1;
    }
    proof {
        lemma_lex_lt_skip(a@, b@, n as int);
        if a_len <= b_len {
            assert(a@.skip(n as int) =~= Seq::<char>::empty());
            if a_len == b_len {
                assert(b@.skip(n as int) =~= Seq::<char>::empty());
                assert(!lex_lt(a@, b@));
                assert(a@ =~= b@);
            } else {
                assert(b@.skip(n as int).len() > 0);
                assert(lex_lt(a@, b@));
            }
        } else {
            assert(b@.skip(n as int) =~= Seq::<char>::empty());
            assert(!lex_lt(a@, b@));
            assert(a@ != b@) by {
                assert(a@.len() != b@.len());
            }
        }
    }
    a_len <= b_len
}

/// The views of a vector of strings, in order.
pub open spec fn views_of(v: Seq<String>) -> Seq<Seq<char>> {
    v.map_values(|s: String| s@)
}

/// Whether a sequence of strings, seen through its views, holds `x`.
pub open spec fn views_contain(v: Seq<String>, x: Seq<char>) -> bool {
    exists|i: int| 0 <= i < v.len() && v[i]@ == x
}

/// Holding a string and the views holding its view are the same thing.
pub proof fn lemma_views_contain(v: Seq<String>, x: Seq<char>)
    ensures
        views_contain(v, x) == views_of(v).contains(x),
{
    if views_contain(v, x) {
        let i = choose|i: int| 0 <= i < v.len() && v[i]@ == x;
        assert(views_of(v)[i] == x);
    }
    if views_of(v).contains(x) {
        let i = choose|i: int| 0 <= i < views_of(v).len() && views_of(v)[i] == x;
        assert(v[i]@ == x);
    }
}

/// Decides whether `v` holds a string equal to `s`.
pub fn contains_string(v: &Vec<String>, s: &str) -> (r: bool)
    ensures
        r == views_contain(v@, s@),
{
    let mut i: usize = 0;
    while i < v.len()
        invariant
            0 <= i <= v@.len(),
            forall|j: int| 0 <= j < i ==> v@[j]@ != s@,
        decreases v@.len() - i,
    {
        if str_eq(v[i].as_str(), s) {
            return true;
        }
        i += 1;
    }
    false
}

/// Inserts `x` into a sequence sorted ascending by `leq`, after every entry
/// it does not precede: a stable insertion.
pub open spec fn insert_by_le<A>(s: Seq<A>, x: A, leq: spec_fn(A, A) -> bool) -> Seq<A>
    decreases s.len(),
{
    if s.len() == 0 {
        seq![x]
    } else if !leq(s.last(), x) {
        insert_by_le(s.drop_last(), x, leq).push(s.last())
    } else {
        s.push(x)
    }
}

/// Stable insertion sort, ascending by `leq`.
pub open spec fn sort_by_le<A>(s: Seq<A>, leq: spec_fn(A, A) -> bool) -> Seq<A>
    decreases s.len(),
{
    if s.len() == 0 {
        Seq::empty()
    } else {
        insert_by_le(sort_by_le(s.drop_last(), leq), s.last(), leq)
    }
}

/// Where an insertion scan stops, the inserted element splits the sequence
/// there.
pub proof fn lemma_insert_by_le_at<A>(s: Seq<A>, x: A, leq: spec_fn(A, A) -> bool, j: int)
    requires
        0 <= j <= s.len(),
        forall|k: int| j <= k < s.len() ==> !leq(#[trigger] s[k], x),
        j > 0 ==> leq(s[j - 1], x),
    ensures
        insert_by_le(s, x, leq) == s.take(j) + seq![x] + s.skip(j),
    decreases s.len(),
{
    if s.len() == 0 {
        assert(insert_by_le(s, x, leq) =~= s.take(0) + seq![x] + s.skip(0));
    } else if j == s.len() {
        assert(leq(s.last(), x));
        assert(insert_by_le(s, x, leq) == s.push(x));
        assert(s.push(x) =~= s.take(j) + seq![x] + s.skip(j));
    } else {
        assert(!leq(s.last(), x));
        let d = s.drop_last();
        assert(forall|k: int| j <= k < d.len() ==> !leq(#[trigger] d[k], x)) by {
            assert(forall|k: int| 0 <= k < d.len() ==> d[k] == s[k]);
        }
        assert(j > 0 ==> leq(d[j - 1], x)) by {
            if j > 0 {
                assert(d[j - 1] == s[j - 1]);
            }
        }
        lemma_insert_by_le_at(d, x, leq, j);
        assert(insert_by_le(s, x, leq) == insert_by_le(d, x, leq).push(s.last()));
        assert(insert_by_le(d, x, leq).push(s.last()) =~= s.take(j) + seq![x] + s.skip(j)) by {
            assert(insert_by_le(d, x, leq) == d.take(j) + seq![x] + d.skip(j));
            assert(d.take(j) =~= s.take(j));
        }
    }
}

/// The order of member and dependency names: ascending lexicographic by
/// view.
pub open spec fn str_leq() -> spec_fn(String, String) -> bool {
    |a: String, b: String| lex_le(a@, b@)
}

/// A vector of strings in ascending order, stably sorted.
pub open spec fn sort_strs(s: Seq<String>) -> Seq<String> {
    sort_by_le(s, str_leq())
}

/// Sorts a vector of strings into ascending order.
pub fn sort_string_vec(v: Vec<String>) -> (r: Vec<String>)
    ensures
        r@ == sort_strs(v@),
{
    let ghost orig = v@;
    let mut rest = v;
    let mut out: Vec<String> = Vec::new();
    proof {
        assert(out@ =~= sort_by_le(orig.take(0), str_leq()));
    }
    while rest.len() > 0
        invariant
            rest@.len() <= orig.len(),
            rest@ == orig.skip(orig.len() - rest@.len()),
            out@ == sort_by_le(orig.take(orig.len() - rest@.len()), str_leq()),
        decreases rest@.len(),
    {
        let ghost i = orig.len() - rest@.len();
        let x = rest.remove(0);
        proof {
            assert(orig.skip(i as int)[0] == orig[i as int]);
            assert(x == orig[i as int]);
            assert(rest@ =~= orig.skip(i + 1));
            assert(orig.take(i + 1).drop_last() =~= orig.take(i as int));
            assert(orig.take(i + 1).last() == orig[i as int]);
        }
        let mut j: usize = out.len();
        while j > 0 && !str_le(out[j - 1].as_str(), x.as_str())
            invariant
                0 <= j <= out@.len(),
                forall|k: int| j <= k < out@.len() ==> !str_leq()(#[trigger] out@[k], x),
            decreases j,
        {
            proof {
                assert(!str_leq()(out@[j - 1], x));
            }
            j -= 1;
        }
        proof {
            if j > 0 {
                assert(str_leq()(out@[j - 1], x));
            }
            lemma_insert_by_le_at(out@, x, str_leq(), j as int);
        }
        let ghost out_old = out@;
        out.insert(j, x);
        proof {
            assert(out@ =~= out_old.take(j as int) + seq![x] + out_old.skip(j as int));
            assert(out@ == insert_by_le(out_old, x, str_leq()));
        }
    }
    proof {
        assert(orig.take(orig.len() as int) =~= orig);
    }
    out
}

/// Clones a vector of strings.
pub fn clone_strings(v: &Vec<String>) -> (r: Vec<String>)
    ensures
        r@ == v@,
{
    let mut r: Vec<String> = Vec::new();
    let mut i: usize = 0;
    while i < v.len()
        invariant
            0 <= i <= v@.len(),
            r@ == v@.take(i as int),
        decreases v@.len() - i,
    {
        r.push(v[i].clone());
        proof {
            assert(r@ =~= v@.take(i + 1));
        }
        i += 1;
    }
    proof {
        assert(v@.take(v@.len() as int) =~= v@);
    }
    r
}

/// `elems` laid end to end with `sep` between consecutive elements.
pub open spec fn join_with(elems: Seq<Seq<char>>, sep: Seq<char>) -> Seq<char>
    decreases elems.len(),
{
    if elems.len() == 0 {
        Seq::empty()
    } else if elems.len() == 1 {
        elems[0]
    } else {
        join_with(elems.drop_last(), sep) + sep + elems.last()
    }
}

/// Appends the members of `elems` to `out`, separated by `sep`.
pub fn push_joined(out: &mut String, elems: &Vec<String>, sep: &str)
    ensures
        final(out)@ == old(out)@ + join_with(views_of(elems@), sep@),
{
    let ghost evs = views_of(elems@);
    let mut i: usize = 0;
    while i < elems.len()
        invariant
            0 <= i <= elems@.len(),
            evs == views_of(elems@),
            evs.len() == elems@.len(),
            out@ == old(out)@ + join_with(evs.take(i as int), sep@),
        decreases elems@.len() - i,
    {
        proof {
            assert(evs[i as int] == elems@[i as int]@);
        }
        if i > 0 {
            out.append(sep);
        }
        out.append(elems[i].as_str());
        proof {
            assert(evs.take(i + 1).drop_last() =~= evs.take(i as int));
            assert(evs.take(i + 1).last() == evs[i as int]);
            if i > 0 {
                assert(join_with(evs.take(i + 1), sep@) == join_with(evs.take(i as int), sep@)
                    + sep@ + evs[i as int]);
            } else {
                assert(join_with(evs.take(1), sep@) == evs[0]);
            }
        }
        i += 1;
    }
    proof {
        assert(evs.take(elems@.len() as int) =~= evs);
    }
}

} // verus!
