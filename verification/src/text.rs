//! Character-sequence helpers shared by the document parser and the
//! dependency grammar: substring search, splitting on a separator character,
//! and removal of a character.

use vstd::prelude::*;

verus! {

/// The pattern `p` occurs in `s` at position `i`.
pub open spec fn occurs_at(s: Seq<char>, p: Seq<char>, i: int) -> bool {
    &&& 0 <= i
    &&& i + p.len() <= s.len()
    &&& s.subrange(i, i + p.len()) == p
}

/// Position of the first occurrence of `p` in `s` at or after `i`.
pub open spec fn find_from(s: Seq<char>, p: Seq<char>, i: int) -> Option<int>
    decreases s.len() + 1 - i,
{
    if i < 0 || i + p.len() > s.len() {
        None
    } else if occurs_at(s, p, i) {
        Some(i)
    } else {
        find_from(s, p, i + 1)
    }
}

/// Position of the first occurrence of `p` in `s`, if any.
pub open spec fn find_sub(s: Seq<char>, p: Seq<char>) -> Option<int> {
    find_from(s, p, 0)
}

pub proof fn lemma_find_from_some(s: Seq<char>, p: Seq<char>, i: int, j: int)
    requires
        find_from(s, p, i) == Some(j),
    ensures
        i <= j,
        occurs_at(s, p, j),
        forall|k: int| i <= k < j ==> !occurs_at(s, p, k),
    decreases s.len() + 1 - i,
{
    if !(i < 0 || i + p.len() > s.len()) && !occurs_at(s, p, i) {
        lemma_find_from_some(s, p, i + 1, j);
    }
}

/// The first occurrence at or after `i` is also the first at or after `i`
/// whenever no occurrence lies in between.
pub proof fn lemma_find_from_step(s: Seq<char>, p: Seq<char>, i: int)
    requires
        0 <= i,
        !occurs_at(s, p, i),
    ensures
        find_from(s, p, i) == find_from(s, p, i + 1),
{
}

/// Equal characters at every position make equal sequences.
pub fn str_eq(a: &str, b: &str) -> (r: bool)
    ensures
        r <==> a@ == b@,
{
    let a_len = a.unicode_len();
    let b_len = b.unicode_len();
    if a_len != b_len {
        return false;
    }
    for i in 0..a_len
        invariant
            a_len == a@.len(),
            b_len == b@.len(),
            a_len == b_len,
            forall|k: int| 0 <= k < i ==> a@[k] == b@[k],
    {
        if a.get_char(i) != b.get_char(i) {
            return false;
        }
    }
    proof {
        assert(a@ =~= b@);
    }
    true
}

/// Whether `p` occurs in `s` at position `i`.
pub fn occurs_check(s: &str, p: &str, i: usize) -> (r: bool)
    requires
        i + p@.len() <= s@.len(),
    ensures
        r <==> occurs_at(s@, p@, i as int),
{
    let p_len = p.unicode_len();
    let s_len = s.unicode_len();
    for k in 0..p_len
        invariant
            p_len == p@.len(),
            s_len == s@.len(),
            i + p_len <= s_len,
            forall|m: int| 0 <= m < k ==> s@[i + m] == p@[m],
    {
        if s.get_char(i + k) != p.get_char(k) {
            proof {
                assert(s@.subrange(i as int, i + p@.len())[k as int] == s@[i + k]);
            }
            return false;
        }
    }
    proof {
        assert(s@.subrange(i as int, i + p@.len()) =~= p@);
    }
    true
}

/// Position of the first occurrence of `p` in `s`, if any.
pub fn find_first(s: &str, p: &str) -> (r: Option<usize>)
    requires
        p@.len() >= 1,
    ensures
        match r {
            Some(j) => find_sub(s@, p@) == Some(j as int),
            None => find_sub(s@, p@) == None::<int>,
        },
{
    let s_len = s.unicode_len();
    let p_len = p.unicode_len();
    if p_len > s_len {
        return None;
    }
    let bound = s_len - p_len;
    let mut i: usize = 0;
    while i <= bound
        invariant
            s_len == s@.len(),
            p_len == p@.len(),
            1 <= p_len <= s_len,
            bound == s_len - p_len,
            i <= bound + 1,
            find_sub(s@, p@) == find_from(s@, p@, i as int),
        decreases bound + 1 - i,
    {
        if occurs_check(s, p, i) {
            return Some(i);
        }
        proof {
            lemma_find_from_step(s@, p@, i as int);
        }
        i = i + 1;
    }
    None
}

/// Splitting `s` on separator `c`: the sequence of (possibly empty) pieces
/// between occurrences of `c`.  Splitting the empty sequence gives one empty
/// piece, so the result is never empty.
pub open spec fn split_char(s: Seq<char>, c: char) -> Seq<Seq<char>>
    decreases s.len(),
{
    if s.len() == 0 {
        seq![Seq::<char>::empty()]
    } else if s[0] == c {
        seq![Seq::<char>::empty()] + split_char(s.drop_first(), c)
    } else {
        let rest = split_char(s.drop_first(), c);
        seq![seq![s[0]] + rest.first()] + rest.drop_first()
    }
}

pub proof fn lemma_split_char_len(s: Seq<char>, c: char)
    ensures
        1 <= split_char(s, c).len() <= s.len() + 1,
    decreases s.len(),
{
    if s.len() > 0 {
        lemma_split_char_len(s.drop_first(), c);
    }
}

/// The predicate kept by `without_char`.
pub open spec fn keep_other(c: char) -> spec_fn(char) -> bool {
    |x: char| x != c
}

/// `s` with every occurrence of `c` removed.
pub open spec fn without_char(s: Seq<char>, c: char) -> Seq<char> {
    s.filter(keep_other(c))
}

/// Filtering the empty sequence yields the empty sequence.
pub proof fn lemma_filter_empty<A>(s: Seq<A>, pred: spec_fn(A) -> bool)
    requires
        s.len() == 0,
    ensures
        s.filter(pred) == s,
{
    reveal(Seq::filter);
}

/// An element of a filtered sequence is an element of the original.
pub proof fn lemma_filter_subset<A>(s: Seq<A>, pred: spec_fn(A) -> bool, x: A)
    requires
        s.filter(pred).contains(x),
    ensures
        s.contains(x),
    decreases s.len(),
{
    reveal(Seq::filter);
    if s.len() > 0 {
        if pred(s.last()) && x == s.last() {
            assert(s[s.len() - 1] == x);
        } else {
            let sub = s.drop_last().filter(pred);
            assert(sub.contains(x)) by {
                let i = choose|i: int|
                    0 <= i < s.filter(pred).len() && s.filter(pred)[i] == x;
                if pred(s.last()) {
                    assert(s.filter(pred) == sub.push(s.last()));
                    assert(i < sub.len());
                }
                assert(sub[i] == x);
            }
            lemma_filter_subset(s.drop_last(), pred, x);
            let j = choose|j: int| 0 <= j < s.drop_last().len() && s.drop_last()[j] == x;
            assert(s[j] == x);
        }
    }
}

/// One unfolding step of `Seq::filter` at the pushed end.
pub proof fn lemma_filter_push<A>(s: Seq<A>, pred: spec_fn(A) -> bool, x: A)
    ensures
        (s.push(x)).filter(pred) == if pred(x) {
            s.filter(pred).push(x)
        } else {
            s.filter(pred)
        },
{
    reveal(Seq::filter);
    assert(s.push(x).drop_last() =~= s);
    assert(s.push(x).last() == x);
}

/// `s` with every occurrence of `c` removed.
pub fn remove_char(s: &str, c: char) -> (r: String)
    ensures
        r@ == without_char(s@, c),
{
    let s_len = s.unicode_len();
    let mut out = String::new();
    proof {
        assert(s@.subrange(0, 0) =~= Seq::<char>::empty());
        assert(Seq::<char>::empty().filter(keep_other(c)) =~= Seq::<char>::empty());
    }
    for i in 0..s_len
        invariant
            s_len == s@.len(),
            out@ == without_char(s@.subrange(0, i as int), c),
    {
        let ch = s.get_char(i);
        if ch != c {
            out.append(s.substring_char(i, i + 1));
        }
        proof {
            assert(s@.subrange(0, i + 1) =~= s@.subrange(0, i as int).push(s@[i as int]));
            assert(s@.subrange(i as int, i + 1) =~= seq![s@[i as int]]);
            lemma_filter_push(s@.subrange(0, i as int), keep_other(c), s@[i as int]);
        }
    }
    proof {
        assert(s@.subrange(0, s@.len() as int) =~= s@);
    }
    out
}

/// The pieces that splitting the suffix of `s` from position `i` on still
/// yields.
pub open spec fn split_rest(s: Seq<char>, c: char, i: int) -> Seq<Seq<char>> {
    split_char(s.subrange(i, s.len() as int), c)
}

/// Split `s` on the separator `c`; the pieces in order, with no separator
/// characters in them.
pub fn split_str(s: &str, c: char) -> (r: Vec<String>)
    ensures
        r@.len() == split_char(s@, c).len(),
        forall|k: int| 0 <= k < r@.len() ==> r@[k]@ == split_char(s@, c)[k],
{
    let s_len = s.unicode_len();
    let mut done: Vec<String> = Vec::new();
    let mut cur = String::new();
    let ghost target = split_char(s@, c);
    let mut i: usize = 0;
    proof {
        assert(s@.subrange(0, s@.len() as int) =~= s@);
    }
    while i < s_len
        invariant
            s_len == s@.len(),
            i <= s_len,
            target == split_char(s@, c),
            split_rest(s@, c, i as int).len() >= 1,
            target.len() == done@.len() + split_rest(s@, c, i as int).len(),
            forall|k: int| 0 <= k < done@.len() ==> #[trigger] target[k] == done@[k]@,
            target[done@.len() as int] == cur@ + split_rest(s@, c, i as int).first(),
            forall|k: int|
                1 <= k < split_rest(s@, c, i as int).len() ==> target[done@.len() + k]
                    == #[trigger] split_rest(s@, c, i as int)[k],
        decreases s_len - i,
    {
        let ghost rem = split_rest(s@, c, i as int);
        let ghost rem2 = split_rest(s@, c, i + 1);
        let ghost old_done = done@;
        let ghost old_cur = cur@;
        proof {
            lemma_split_char_len(s@.subrange(i as int, s@.len() as int), c);
            lemma_split_char_len(s@.subrange(i + 1, s@.len() as int), c);
            assert(s@.subrange(i as int, s@.len() as int).drop_first() =~= s@.subrange(
                i + 1,
                s@.len() as int,
            ));
            assert(s@.subrange(i as int, s@.len() as int)[0] == s@[i as int]);
        }
        let ch = s.get_char(i);
        if ch == c {
            proof {
                assert(rem == seq![Seq::<char>::empty()] + rem2);
                assert(rem.first() =~= Seq::<char>::empty());
                assert(old_cur + rem.first() =~= old_cur);
                assert(rem.len() == 1 + rem2.len());
                assert(target[old_done.len() as int + 1] == rem[1]);
                assert(rem[1] == rem2[0]);
                assert(forall|k: int| 1 <= k < rem2.len() ==> #[trigger] rem2[k] == rem[k + 1]);
                assert(forall|k: int|
                    1 <= k < rem2.len() ==> target[old_done.len() + 1 + k] == #[trigger] rem[k
                        + 1]);
            }
            done.push(cur);
            cur = String::new();
            proof {
                assert(done@ == old_done.push(done@[old_done.len() as int]));
                assert(done@[old_done.len() as int]@ == old_cur);
                assert(cur@ + rem2.first() =~= rem2.first());
                assert forall|k: int|
                    1 <= k < rem2.len() implies target[done@.len() + k] == #[trigger] rem2[k] by {
                    assert(rem2[k] == rem[k + 1]);
                    assert(target[old_done.len() + 1 + k] == rem[k + 1]);
                }
            }
        } else {
            proof {
                assert(rem == seq![seq![s@[i as int]] + rem2.first()] + rem2.drop_first());
                assert(rem.first() == seq![s@[i as int]] + rem2.first());
                assert(old_cur + rem.first() =~= (old_cur + seq![s@[i as int]]) + rem2.first());
            }
            cur.append(s.substring_char(i, i + 1));
            proof {
                assert(s@.subrange(i as int, i + 1) =~= seq![s@[i as int]]);
                assert(cur@ == old_cur + seq![s@[i as int]]);
                assert(rem.len() == rem2.len());
                assert forall|k: int|
                    1 <= k < rem2.len() implies target[done@.len() + k] == #[trigger] rem2[k] by {
                    assert(rem[k] == rem2.drop_first()[k - 1]);
                    assert(rem2.drop_first()[k - 1] == rem2[k]);
                    assert(target[done@.len() + k] == rem[k]);
                }
            }
        }
        i = i + 1;
    }
    proof {
        assert(s@.subrange(s@.len() as int, s@.len() as int) =~= Seq::<char>::empty());
        assert(split_rest(s@, c, s@.len() as int) =~= seq![Seq::<char>::empty()]);
        assert(cur@ + split_rest(s@, c, s@.len() as int).first() =~= cur@);
    }
    done.push(cur);
    done
}

} // verus!
