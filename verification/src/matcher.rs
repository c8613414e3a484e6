//! The matcher: given a query and an ordered list of candidates, keep the
//! candidates that contain the query as a contiguous substring, ordered
//! ascending by the position of the first occurrence, ties in original order.

use crate::text::char_vec;
use vstd::prelude::*;
use vstd::string::StrSliceExecFns;

verus! {

/// The query `q` occurs in `c` starting at position `i`.
pub open spec fn match_at(c: Seq<char>, q: Seq<char>, i: int) -> bool {
    0 <= i && i + q.len() <= c.len() && c.subrange(i, i + q.len() as int) == q
}

/// The query `q` occurs somewhere in `c`; an empty query occurs in anything.
pub open spec fn contains_query(c: Seq<char>, q: Seq<char>) -> bool {
    exists|i: int| match_at(c, q, i)
}

/// Position of the first occurrence of `q` in `c` at or after `i`, if any.
pub open spec fn find_from(c: Seq<char>, q: Seq<char>, i: int) -> Option<int>
    decreases c.len() - i + 1,
{
    if i + q.len() > c.len() {
        None
    } else if match_at(c, q, i) {
        Some(i)
    } else {
        find_from(c, q, i + 1)
    }
}

/// Position of the first occurrence of `q` in `c`, if any.
pub open spec fn first_match(c: Seq<char>, q: Seq<char>) -> Option<int> {
    find_from(c, q, 0)
}

/// `find_from` returns the least match position at or after `i`, and `None`
/// exactly when there is no match at or after `i`.
pub proof fn lemma_find_from(c: Seq<char>, q: Seq<char>, i: int)
    requires
        0 <= i,
    ensures
        match find_from(c, q, i) {
            Some(j) => i <= j && match_at(c, q, j) && forall|k: int|
                i <= k < j ==> !match_at(c, q, k),
            None => forall|k: int| i <= k ==> !match_at(c, q, k),
        },
    decreases c.len() - i + 1,
{
    if i + q.len() > c.len() {
        assert forall|k: int| i <= k implies !match_at(c, q, k) by {
            assert(k + q.len() >= i + q.len());
        }
    } else if match_at(c, q, i) {
    } else {
        lemma_find_from(c, q, i + 1);
    }
}

/// A `first_match` position leaves room for the whole query.
pub proof fn lemma_first_match_bound(c: Seq<char>, q: Seq<char>, p: int)
    requires
        first_match(c, q) == Some(p),
    ensures
        0 <= p,
        p + q.len() <= c.len(),
{
    lemma_find_from(c, q, 0);
}

/// The predicate satisfied by candidates whose first match position is `p`.
pub open spec fn rank_is(q: Seq<char>, p: int) -> spec_fn(Seq<char>) -> bool {
    |c: Seq<char>| first_match(c, q) == Some(p)
}

/// The candidates of `cs` whose first match position is `p`, in their
/// original order.
pub open spec fn bucket(q: Seq<char>, cs: Seq<Seq<char>>, p: int) -> Seq<Seq<char>> {
    cs.filter(rank_is(q, p))
}

/// The buckets for match positions `0 .. n`, concatenated in ascending order.
pub open spec fn buckets_up_to(q: Seq<char>, cs: Seq<Seq<char>>, n: int) -> Seq<Seq<char>>
    decreases n,
{
    if n <= 0 {
        Seq::empty()
    } else {
        buckets_up_to(q, cs, n - 1) + bucket(q, cs, n - 1)
    }
}

/// The length of the longest candidate.
pub open spec fn max_len(cs: Seq<Seq<char>>) -> nat
    decreases cs.len(),
{
    if cs.len() == 0 {
        0
    } else {
        let m = max_len(cs.drop_last());
        if cs.last().len() > m {
            cs.last().len()
        } else {
            m
        }
    }
}

/// The matcher's result: the candidates that contain the query, sorted
/// ascending by first match position, ties keeping their original order.
/// Every match position is at most the longest candidate length, so the
/// bucket concatenation below covers every matching candidate.
pub open spec fn filter_spec(q: Seq<char>, cs: Seq<Seq<char>>) -> Seq<Seq<char>> {
    buckets_up_to(q, cs, max_len(cs) as int + 1)
}

/// An executable match position, as the spec-level option it stands for.
spec fn opt_int(r: Option<usize>) -> Option<int> {
    match r {
        Some(u) => Some(u as int),
        None => None,
    }
}

/// Every candidate is at most as long as the longest one.
pub proof fn lemma_max_len_ge(cs: Seq<Seq<char>>, i: int)
    requires
        0 <= i < cs.len(),
    ensures
        cs[i].len() <= max_len(cs),
    decreases cs.len(),
{
    if i < cs.len() - 1 {
        lemma_max_len_ge(cs.drop_last(), i);
    }
}

/// Filtering keeps a sequence whose elements all satisfy the predicate.
proof fn lemma_filter_all_true<A>(s: Seq<A>, pred: spec_fn(A) -> bool)
    requires
        forall|i: int| 0 <= i < s.len() ==> pred(#[trigger] s[i]),
    ensures
        s.filter(pred) == s,
    decreases s.len(),
{
    reveal(Seq::filter);
    if s.len() > 0 {
        lemma_filter_all_true(s.drop_last(), pred);
        assert(pred(s.last()));
        assert(s.drop_last().push(s.last()) =~= s);
    }
}

/// Filtering empties a sequence none of whose elements satisfy the predicate.
proof fn lemma_filter_all_false<A>(s: Seq<A>, pred: spec_fn(A) -> bool)
    requires
        forall|i: int| 0 <= i < s.len() ==> !pred(#[trigger] s[i]),
    ensures
        s.filter(pred) == Seq::<A>::empty(),
    decreases s.len(),
{
    reveal(Seq::filter);
    if s.len() == 0 {
        assert(s =~= Seq::<A>::empty());
    } else {
        lemma_filter_all_false(s.drop_last(), pred);
        assert(!pred(s.last()));
    }
}

/// An element of a filtered sequence is an element of the original sequence
/// and satisfies the predicate.
proof fn lemma_filter_sub<A>(s: Seq<A>, pred: spec_fn(A) -> bool, x: A)
    requires
        s.filter(pred).contains(x),
    ensures
        s.contains(x),
        pred(x),
    decreases s.len(),
{
    reveal(Seq::filter);
    if s.len() == 0 {
    } else {
        let sub = s.drop_last().filter(pred);
        if pred(s.last()) && x == s.last() {
            assert(s[s.len() - 1] == x);
        } else {
            assert(sub.contains(x));
            lemma_filter_sub(s.drop_last(), pred, x);
            let i = choose|i: int| 0 <= i < s.drop_last().len() && s.drop_last()[i] == x;
            assert(s[i] == x);
        }
    }
}

/// Concatenating only empty buckets between `n` and `m` changes nothing.
proof fn lemma_up_to_extend(q: Seq<char>, cs: Seq<Seq<char>>, n: int, m: int)
    requires
        0 <= n <= m,
        forall|p: int| n <= p < m ==> bucket(q, cs, p) == Seq::<Seq<char>>::empty(),
    ensures
        buckets_up_to(q, cs, m) == buckets_up_to(q, cs, n),
    decreases m,
{
    if m > n {
        lemma_up_to_extend(q, cs, n, m - 1);
        assert(bucket(q, cs, m - 1) == Seq::<Seq<char>>::empty());
        Seq::add_empty_right(buckets_up_to(q, cs, m - 1), bucket(q, cs, m - 1));
    }
}

/// No candidate matches at a position beyond the longest candidate length.
proof fn lemma_bucket_empty_beyond(q: Seq<char>, cs: Seq<Seq<char>>, p: int)
    requires
        p > max_len(cs),
    ensures
        bucket(q, cs, p) == Seq::<Seq<char>>::empty(),
{
    assert forall|i: int| 0 <= i < cs.len() implies !rank_is(q, p)(#[trigger] cs[i]) by {
        if first_match(cs[i], q) == Some(p) {
            lemma_first_match_bound(cs[i], q, p);
            lemma_max_len_ge(cs, i);
        }
    }
    lemma_filter_all_false(cs, rank_is(q, p));
}

/// An element of a bucket below `m` is an element of the concatenation up to `m`.
proof fn lemma_up_to_contains(q: Seq<char>, cs: Seq<Seq<char>>, m: int, p: int, x: Seq<char>)
    requires
        0 <= p < m,
        bucket(q, cs, p).contains(x),
    ensures
        buckets_up_to(q, cs, m).contains(x),
    decreases m,
{
    let prefix = buckets_up_to(q, cs, m - 1);
    let b = bucket(q, cs, m - 1);
    if p == m - 1 {
        let i = choose|i: int| 0 <= i < b.len() && b[i] == x;
        assert(buckets_up_to(q, cs, m)[prefix.len() + i] == x);
    } else {
        lemma_up_to_contains(q, cs, m - 1, p, x);
        let i = choose|i: int| 0 <= i < prefix.len() && prefix[i] == x;
        assert(buckets_up_to(q, cs, m)[i] == x);
    }
}

/// An element of the concatenation up to `m` lies in some bucket below `m`.
proof fn lemma_up_to_elem(q: Seq<char>, cs: Seq<Seq<char>>, m: int, x: Seq<char>)
    requires
        buckets_up_to(q, cs, m).contains(x),
    ensures
        exists|p: int| 0 <= p < m && #[trigger] bucket(q, cs, p).contains(x),
    decreases m,
{
    if m <= 0 {
        assert(false);
    } else {
        let prefix = buckets_up_to(q, cs, m - 1);
        let b = bucket(q, cs, m - 1);
        let i = choose|i: int|
            0 <= i < buckets_up_to(q, cs, m).len() && buckets_up_to(q, cs, m)[i] == x;
        if i < prefix.len() {
            assert(prefix[i] == x);
            lemma_up_to_elem(q, cs, m - 1, x);
        } else {
            assert(b[i - prefix.len()] == x);
            assert(bucket(q, cs, m - 1).contains(x));
        }
    }
}

/// An empty query yields every candidate in its original order: the filtered
/// view for the empty query is the candidate list itself.
pub proof fn lemma_empty_query_all(cs: Seq<Seq<char>>)
    ensures
        filter_spec(Seq::<char>::empty(), cs) == cs,
{
    let q = Seq::<char>::empty();
    assert forall|i: int| 0 <= i < cs.len() implies rank_is(q, 0)(#[trigger] cs[i]) by {
        assert(cs[i].subrange(0, 0) =~= q);
        assert(match_at(cs[i], q, 0));
        assert(find_from(cs[i], q, 0) == Some(0int));
    }
    lemma_filter_all_true(cs, rank_is(q, 0));
    assert forall|p: int| 1 <= p implies bucket(q, cs, p) == Seq::<Seq<char>>::empty() by {
        assert forall|i: int| 0 <= i < cs.len() implies !rank_is(q, p)(#[trigger] cs[i]) by {
            assert(cs[i].subrange(0, 0) =~= q);
            assert(match_at(cs[i], q, 0));
            assert(find_from(cs[i], q, 0) == Some(0int));
        }
        lemma_filter_all_false(cs, rank_is(q, p));
    }
    lemma_up_to_extend(q, cs, 1, max_len(cs) as int + 1);
    assert(buckets_up_to(q, cs, 1) == buckets_up_to(q, cs, 0) + bucket(q, cs, 0));
    assert(buckets_up_to(q, cs, 0) + bucket(q, cs, 0) =~= cs);
}

/// The matcher keeps exactly the candidates that contain the query: a
/// candidate appears in the result if and only if it appears in the input and
/// the query occurs in it; nothing else is ever included.
pub proof fn lemma_filter_membership(q: Seq<char>, cs: Seq<Seq<char>>)
    ensures
        forall|c: Seq<char>|
            #[trigger] filter_spec(q, cs).contains(c) <==> cs.contains(c) && contains_query(c, q),
{
    let bound = max_len(cs) as int + 1;
    assert forall|c: Seq<char>| #[trigger] filter_spec(q, cs).contains(c) implies cs.contains(c)
        && contains_query(c, q) by {
        lemma_up_to_elem(q, cs, bound, c);
        let p = choose|p: int| 0 <= p < bound && #[trigger] bucket(q, cs, p).contains(c);
        lemma_filter_sub(cs, rank_is(q, p), c);
        assert(first_match(c, q) == Some(p));
        lemma_find_from(c, q, 0);
        assert(match_at(c, q, p));
    }
    assert forall|c: Seq<char>| cs.contains(c) && contains_query(c, q) implies #[trigger] filter_spec(
        q,
        cs,
    ).contains(c) by {
        let i = choose|i: int| 0 <= i < cs.len() && cs[i] == c;
        let j = choose|j: int| match_at(c, q, j);
        lemma_find_from(c, q, 0);
        if first_match(c, q) is None {
            assert(!match_at(c, q, j));
            assert(false);
        }
        let p = first_match(c, q)->Some_0;
        lemma_find_from(c, q, 0);
        lemma_first_match_bound(c, q, p);
        lemma_max_len_ge(cs, i);
        assert(rank_is(q, p)(cs[i]));
        cs.lemma_filter_contains(rank_is(q, p), i);
        lemma_up_to_contains(q, cs, bound, p, c);
    }
}

/// Filtering the bucket concatenation by one match position leaves exactly
/// that bucket, when it is among the concatenated ones, and nothing otherwise.
proof fn lemma_up_to_filter(q: Seq<char>, cs: Seq<Seq<char>>, n: int, p2: int)
    ensures
        buckets_up_to(q, cs, n).filter(rank_is(q, p2)) == if 0 <= p2 < n {
            bucket(q, cs, p2)
        } else {
            Seq::<Seq<char>>::empty()
        },
    decreases n,
{
    let pred2 = rank_is(q, p2);
    if n <= 0 {
        lemma_filter_all_false(buckets_up_to(q, cs, n), pred2);
    } else {
        lemma_up_to_filter(q, cs, n - 1, p2);
        let prefix = buckets_up_to(q, cs, n - 1);
        let b = bucket(q, cs, n - 1);
        Seq::filter_distributes_over_add(prefix, b, pred2);
        if p2 == n - 1 {
            assert forall|i: int| 0 <= i < b.len() implies pred2(#[trigger] b[i]) by {
                assert(b.contains(b[i]));
                lemma_filter_sub(cs, rank_is(q, n - 1), b[i]);
            }
            lemma_filter_all_true(b, pred2);
            Seq::add_empty_left(prefix.filter(pred2), b.filter(pred2));
        } else {
            assert forall|i: int| 0 <= i < b.len() implies !pred2(#[trigger] b[i]) by {
                assert(b.contains(b[i]));
                lemma_filter_sub(cs, rank_is(q, n - 1), b[i]);
            }
            lemma_filter_all_false(b, pred2);
            Seq::add_empty_right(prefix.filter(pred2), b.filter(pred2));
        }
    }
}

/// The buckets of a matcher result agree with the buckets of its input.
proof fn lemma_up_to_of_result(q: Seq<char>, cs: Seq<Seq<char>>, m: int)
    requires
        0 <= m,
    ensures
        buckets_up_to(q, filter_spec(q, cs), m) == buckets_up_to(q, cs, m),
    decreases m,
{
    if m > 0 {
        lemma_up_to_of_result(q, cs, m - 1);
        let bound = max_len(cs) as int + 1;
        lemma_up_to_filter(q, cs, bound, m - 1);
        if m - 1 < bound {
        } else {
            lemma_bucket_empty_beyond(q, cs, m - 1);
        }
    }
}

/// Filtering is idempotent: running the matcher on its own output with the
/// same query returns that output unchanged.
pub proof fn lemma_filter_idempotent(q: Seq<char>, cs: Seq<Seq<char>>)
    ensures
        filter_spec(q, filter_spec(q, cs)) == filter_spec(q, cs),
{
    let r = filter_spec(q, cs);
    let b1 = max_len(cs) as int + 1;
    let b2 = max_len(r) as int + 1;
    lemma_up_to_of_result(q, cs, b2);
    if b2 <= b1 {
        assert forall|p: int| b2 <= p < b1 implies bucket(q, cs, p)
            == Seq::<Seq<char>>::empty() by {
            if bucket(q, cs, p).len() > 0 {
                let x = bucket(q, cs, p)[0];
                assert(bucket(q, cs, p).contains(x));
                lemma_filter_sub(cs, rank_is(q, p), x);
                lemma_first_match_bound(x, q, p);
                lemma_find_from(x, q, 0);
                assert(match_at(x, q, p));
                lemma_filter_membership(q, cs);
                assert(r.contains(x));
                let ix = choose|ix: int| 0 <= ix < r.len() && r[ix] == x;
                lemma_max_len_ge(r, ix);
                assert(false);
            }
            assert(bucket(q, cs, p) =~= Seq::<Seq<char>>::empty());
        }
        lemma_up_to_extend(q, cs, b2, b1);
    } else {
        assert forall|p: int| b1 <= p < b2 implies bucket(q, cs, p)
            == Seq::<Seq<char>>::empty() by {
            lemma_bucket_empty_beyond(q, cs, p);
        }
        lemma_up_to_extend(q, cs, b1, b2);
    }
}

/// Whether `q` occurs in `c` starting exactly at position `i`.
fn is_match_at(c: &Vec<char>, q: &Vec<char>, i: usize) -> (b: bool)
    requires
        i + q@.len() <= c@.len(),
    ensures
        b == match_at(c@, q@, i as int),
{
    let n = c.len();
    let mut j: usize = 0;
    while j < q.len()
        invariant
            j <= q@.len(),
            i + q@.len() <= c@.len(),
            n == c@.len(),
            forall|k: int| 0 <= k < j ==> c@[i + k] == q@[k],
        decreases q@.len() - j,
    {
        if c[i + j] != q[j] {
            proof {
                assert(c@.subrange(i as int, i + q@.len())[j as int] == c@[i + j]);
            }
            return false;
        }
        j += 1;
    }
    proof {
        assert(c@.subrange(i as int, i + q@.len()) =~= q@);
    }
    true
}

/// Position of the first occurrence of `q` in `c`, scanning left to right.
fn find_first(c: &Vec<char>, q: &Vec<char>) -> (r: Option<usize>)
    ensures
        match r {
            Some(j) => first_match(c@, q@) == Some(j as int),
            None => first_match(c@, q@) is None,
        },
{
    if q.len() == 0 {
        proof {
            assert(c@.subrange(0, 0) =~= q@);
            assert(match_at(c@, q@, 0));
        }
        return Some(0);
    }
    if q.len() > c.len() {
        return None;
    }
    let limit = c.len() - q.len();
    let mut i: usize = 0;
    while i <= limit
        invariant
            1 <= q@.len() <= c@.len(),
            limit == c@.len() - q@.len(),
            limit < usize::MAX,
            i <= limit + 1,
            find_from(c@, q@, 0) == find_from(c@, q@, i as int),
        decreases limit + 1 - i,
    {
        if is_match_at(c, q, i) {
            return Some(i);
        }
        proof {
            assert(find_from(c@, q@, i as int) == find_from(c@, q@, i + 1));
        }
        i += 1;
    }
    proof {
        assert(i + q@.len() > c@.len());
        assert(find_from(c@, q@, i as int) is None);
    }
    None
}

/// Match positions of every candidate, in candidate order.
fn all_ranks(search: &Vec<char>, branches: &Vec<String>) -> (ranks: Vec<Option<usize>>)
    ensures
        ranks@.len() == branches@.len(),
        forall|k: int|
            0 <= k < branches@.len() ==> opt_int(#[trigger] ranks@[k]) == first_match(
                branches.deep_view()[k],
                search@,
            ),
{
    let n = branches.len();
    let mut ranks: Vec<Option<usize>> = Vec::new();
    let mut j: usize = 0;
    while j < n
        invariant
            n == branches@.len(),
            j <= n,
            ranks@.len() == j,
            forall|k: int|
                0 <= k < j ==> opt_int(#[trigger] ranks@[k]) == first_match(
                    branches.deep_view()[k],
                    search@,
                ),
        decreases n - j,
    {
        let cv = char_vec(branches[j].as_str());
        proof {
            assert(cv@ == branches.deep_view()[j as int]);
        }
        let r = find_first(&cv, search);
        ranks.push(r);
        j += 1;
    }
    ranks
}

/// The length of the longest candidate string.
fn max_branch_len(branches: &Vec<String>) -> (m: usize)
    ensures
        m == max_len(branches.deep_view()),
{
    let ghost cs = branches.deep_view();
    let n = branches.len();
    let mut m: usize = 0;
    let mut j: usize = 0;
    while j < n
        invariant
            n == branches@.len(),
            j <= n,
            cs == branches.deep_view(),
            m == max_len(cs.take(j as int)),
        decreases n - j,
    {
        let l = branches[j].as_str().unicode_len();
        proof {
            assert(l == cs[j as int].len());
            assert(cs.take(j + 1).drop_last() =~= cs.take(j as int));
            assert(cs.take(j + 1).last() == cs[j as int]);
        }
        if l > m {
            m = l;
        }
        j += 1;
    }
    proof {
        assert(cs.take(n as int) =~= cs);
    }
    m
}

/// Returns the candidates of `branches` that contain `search` as a contiguous
/// substring, ordered ascending by the position of the first occurrence;
/// candidates with the same position keep their original relative order.
/// An empty query matches every candidate at position zero.
pub fn get_matching_branches(search: &String, branches: &Vec<String>) -> (res: Vec<String>)
    ensures
        res.deep_view() == filter_spec(search@, branches.deep_view()),
{
    let ghost cs = branches.deep_view();
    let q = char_vec(search.as_str());
    let n = branches.len();
    let ranks = all_ranks(&q, branches);
    let m = max_branch_len(branches);
    let mut res: Vec<String> = Vec::new();
    let mut p: usize = 0;
    loop
        invariant_except_break
            p <= m,
            res.deep_view() == buckets_up_to(search@, cs, p as int),
        invariant
            n == branches@.len(),
            cs == branches.deep_view(),
            q@ == search@,
            m == max_len(cs),
            ranks@.len() == n,
            forall|k: int|
                0 <= k < n ==> opt_int(#[trigger] ranks@[k]) == first_match(cs[k], search@),
        ensures
            res.deep_view() == buckets_up_to(search@, cs, m + 1),
        decreases m - p,
    {
        let ghost pred = rank_is(search@, p as int);
        let mut jj: usize = 0;
        while jj < n
            invariant
                jj <= n,
                p <= m,
                n == branches@.len(),
                cs == branches.deep_view(),
                m == max_len(cs),
                ranks@.len() == n,
                pred == rank_is(search@, p as int),
                forall|k: int|
                    0 <= k < n ==> opt_int(#[trigger] ranks@[k]) == first_match(cs[k], search@),
                res.deep_view() == buckets_up_to(search@, cs, p as int) + cs.take(
                    jj as int,
                ).filter(pred),
            decreases n - jj,
        {
            let keep = match ranks[jj] {
                Some(r) => r == p,
                None => false,
            };
            proof {
                assert(opt_int(ranks@[jj as int]) == first_match(cs[jj as int], search@));
                assert(keep == pred(cs[jj as int]));
                cs.lemma_take_succ_push(jj as int);
                cs.take(jj as int).lemma_filter_push(cs[jj as int], pred);
            }
            if keep {
                let ghost old_res = res.deep_view();
                res.push(branches[jj].clone());
                proof {
                    assert(res.deep_view() =~= old_res.push(cs[jj as int]));
                    Seq::push_distributes_over_add(
                        buckets_up_to(search@, cs, p as int),
                        cs.take(jj as int).filter(pred),
                        cs[jj as int],
                    );
                }
            }
            jj += 1;
        }
        proof {
            assert(cs.take(n as int) =~= cs);
            assert(buckets_up_to(search@, cs, p + 1) == buckets_up_to(search@, cs, p as int)
                + bucket(search@, cs, p as int));
        }
        if p == m {
            break;
        }
        p += 1;
    }
    res
}

/// The first ranked match for a query, if any: the non-interactive
/// quick-selection rule.
pub fn quick_match(search: &String, branches: &Vec<String>) -> (r: Option<String>)
    ensures
        ({
            let f = filter_spec(search@, branches.deep_view());
            match r {
                Some(b) => f.len() > 0 && b@ == f[0],
                None => f.len() == 0,
            }
        }),
{
    let matching = get_matching_branches(search, branches);
    if matching.len() == 0 {
        None
    } else {
        Some(matching[0].clone())
    }
}

} // verus!
