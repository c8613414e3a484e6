//! The backend-facing data handling: parsing the candidate enumeration
//! output into branch names, trimming a name before it is handed back to a
//! backend command, and the tagged failures a backend call can report.

use crate::text::{char_vec, chars_to_string};
use vstd::prelude::*;

verus! {

/// A failure reported by the action backend.
#[derive(Debug, PartialEq, Eq)]
pub enum BackendError {
    /// The backend command could not be invoked at all.
    Unavailable(String),
    /// The backend command ran and rejected the request; the payload is its
    /// verbatim message.
    Rejected(String),
}

impl BackendError {
    /// The human-readable message carried by the failure.
    pub fn message(&self) -> (m: &String)
        ensures
            match *self {
                BackendError::Unavailable(s) => *m == s,
                BackendError::Rejected(s) => *m == s,
            },
    {
        match self {
            BackendError::Unavailable(s) => s,
            BackendError::Rejected(s) => s,
        }
    }
}

/// The per-character cleanup applied to enumeration output: the marker on
/// the active item becomes a plain space, everything else is kept.
pub open spec fn star_to_space(c: char) -> char {
    if c == '*' {
        ' '
    } else {
        c
    }
}

/// The enumeration output with every marker turned into a space.
pub open spec fn unmarked(s: Seq<char>) -> Seq<char> {
    s.map_values(|c: char| star_to_space(c))
}

/// Index of the first newline in `s`, if any.
pub open spec fn first_newline(s: Seq<char>) -> Option<int>
    decreases s.len(),
{
    if s.len() == 0 {
        None
    } else if s[0] == '\n' {
        Some(0)
    } else {
        match first_newline(s.drop_first()) {
            None => None,
            Some(i) => Some(i + 1),
        }
    }
}

proof fn lemma_first_newline_at(s: Seq<char>, j: int)
    requires
        0 <= j < s.len(),
        s[j] == '\n',
        forall|k: int| 0 <= k < j ==> s[k] != '\n',
    ensures
        first_newline(s) == Some(j),
    decreases s.len(),
{
    if j > 0 {
        lemma_first_newline_at(s.drop_first(), j - 1);
    }
}

proof fn lemma_first_newline_none(s: Seq<char>)
    requires
        forall|k: int| 0 <= k < s.len() ==> s[k] != '\n',
    ensures
        first_newline(s) is None,
    decreases s.len(),
{
    if s.len() > 0 {
        lemma_first_newline_none(s.drop_first());
    }
}

proof fn lemma_first_newline_bound(s: Seq<char>)
    ensures
        match first_newline(s) {
            Some(i) => 0 <= i < s.len() && s[i] == '\n',
            None => true,
        },
    decreases s.len(),
{
    if s.len() > 0 && s[0] != '\n' {
        lemma_first_newline_bound(s.drop_first());
    }
}

/// The segments of `s` between newlines, in order; a trailing newline
/// contributes a final empty segment, and an empty input is one empty
/// segment.
pub open spec fn split_lines(s: Seq<char>) -> Seq<Seq<char>>
    decreases s.len(),
    via split_lines_decreases
{
    match first_newline(s) {
        None => seq![s],
        Some(i) => seq![s.subrange(0, i)] + split_lines(s.subrange(i + 1, s.len() as int)),
    }
}

#[via_fn]
proof fn split_lines_decreases(s: Seq<char>) {
    lemma_first_newline_bound(s);
}

/// The predicate keeping the segments that name a candidate.
pub open spec fn nonempty_line() -> spec_fn(Seq<char>) -> bool {
    |l: Seq<char>| l.len() != 0
}

/// What the enumeration output parses to: markers turned to spaces, split
/// at newlines, empty segments dropped.
pub open spec fn parse_branches(s: Seq<char>) -> Seq<Seq<char>> {
    split_lines(unmarked(s)).filter(nonempty_line())
}

/// Turns raw enumeration output into the candidate list: the active-item
/// marker is replaced by a space, the text is split at newlines, and empty
/// lines are dropped. Leading spaces are kept: they reserve the first
/// character slot for the selection marker.
pub fn get_branches(raw: &str) -> (res: Vec<String>)
    ensures
        res.deep_view() == parse_branches(raw@),
{
    let ghost m = unmarked(raw@);
    let ghost ne = nonempty_line();
    let src = char_vec(raw);
    let n = src.len();
    let mut mapped: Vec<char> = Vec::new();
    let mut i: usize = 0;
    while i < n
        invariant
            i <= n,
            n == raw@.len(),
            src@ == raw@,
            m == unmarked(raw@),
            mapped@ == m.take(i as int),
        decreases n - i,
    {
        let c = src[i];
        if c == '*' {
            mapped.push(' ');
        } else {
            mapped.push(c);
        }
        proof {
            assert(m[i as int] == star_to_space(raw@[i as int]));
            assert(m.take(i + 1) =~= m.take(i as int).push(m[i as int]));
        }
        i += 1;
    }
    proof {
        assert(m.take(n as int) =~= m);
    }
    let mut res: Vec<String> = Vec::new();
    let mut start: usize = 0;
    loop
        invariant_except_break
            start <= n,
            parse_branches(raw@) == res.deep_view() + split_lines(m.skip(start as int)).filter(ne),
        invariant
            n == m.len(),
            mapped@ == m,
            m == unmarked(raw@),
            ne == nonempty_line(),
        ensures
            res.deep_view() == parse_branches(raw@),
        decreases n - start,
    {
        let mut j: usize = start;
        while j < n && mapped[j] != '\n'
            invariant
                start <= j <= n,
                n == m.len(),
                mapped@ == m,
                forall|k: int| start <= k < j ==> m[k] != '\n',
            decreases n - j,
        {
            j += 1;
        }
        let ghost suffix = m.skip(start as int);
        let ghost old_res = res.deep_view();
        proof {
            assert(forall|k: int|
                0 <= k < suffix.len() ==> suffix[k] == m[start + k]);
        }
        let seg = chars_to_string(&mapped, start, j);
        proof {
            assert(seg@ =~= suffix.subrange(0, j - start));
        }
        if j < n {
            proof {
                lemma_first_newline_at(suffix, j - start);
                let tail = suffix.subrange(j - start + 1, suffix.len() as int);
                assert(split_lines(suffix) == seq![seg@] + split_lines(tail));
                split_lines(tail).lemma_filter_prepend(seg@, ne);
                assert(tail =~= m.skip(j + 1));
            }
            if j > start {
                res.push(seg);
                proof {
                    assert(res.deep_view() =~= old_res.push(seg@));
                    assert(old_res.push(seg@) =~= old_res + seq![seg@]);
                    assert(old_res + seq![seg@] + split_lines(m.skip(j + 1)).filter(ne) =~= old_res
                        + (seq![seg@] + split_lines(m.skip(j + 1)).filter(ne)));
                }
            } else {
                proof {
                    assert(!ne(seg@));
                    Seq::add_empty_left(
                        Seq::<Seq<char>>::empty(),
                        split_lines(m.skip(j + 1)).filter(ne),
                    );
                }
            }
            start = j + 1;
        } else {
            proof {
                lemma_first_newline_none(suffix);
                assert(split_lines(suffix) == seq![suffix]);
                assert(seg@ =~= suffix);
                Seq::<Seq<char>>::empty().lemma_filter_prepend(suffix, ne);
                assert(seq![suffix] =~= seq![suffix] + Seq::<Seq<char>>::empty());
                reveal(Seq::filter);
                assert(Seq::<Seq<char>>::empty().filter(ne) =~= Seq::<Seq<char>>::empty());
            }
            if j > start {
                res.push(seg);
                proof {
                    assert(res.deep_view() =~= old_res.push(suffix));
                    assert(old_res.push(suffix) =~= old_res + seq![suffix]);
                }
            }
            proof {
                assert(res.deep_view() == parse_branches(raw@));
            }
            break;
        }
    }
    res
}

/// The characters stripped from the ends of a name before a backend call.
pub open spec fn is_blank(c: char) -> bool {
    c == ' ' || c == '\t' || c == '\n' || c == '\r'
}

/// How many blank characters `s` starts with.
pub open spec fn leading_blanks(s: Seq<char>) -> int
    decreases s.len(),
{
    if s.len() == 0 {
        0
    } else if !is_blank(s[0]) {
        0
    } else {
        1 + leading_blanks(s.drop_first())
    }
}

/// How many blank characters `s` ends with.
pub open spec fn trailing_blanks(s: Seq<char>) -> int
    decreases s.len(),
{
    if s.len() == 0 {
        0
    } else if !is_blank(s.last()) {
        0
    } else {
        1 + trailing_blanks(s.drop_last())
    }
}

/// `s` without its leading and trailing blanks.
pub open spec fn trim_spec(s: Seq<char>) -> Seq<char> {
    if leading_blanks(s) == s.len() {
        Seq::empty()
    } else {
        s.subrange(leading_blanks(s), s.len() - trailing_blanks(s))
    }
}

proof fn lemma_leading_blanks_at(s: Seq<char>, a: int)
    requires
        0 <= a <= s.len(),
        forall|k: int| 0 <= k < a ==> is_blank(s[k]),
        a < s.len() ==> !is_blank(s[a]),
    ensures
        leading_blanks(s) == a,
    decreases s.len(),
{
    if a > 0 {
        lemma_leading_blanks_at(s.drop_first(), a - 1);
    }
}

proof fn lemma_trailing_blanks_at(s: Seq<char>, t: int)
    requires
        0 <= t <= s.len(),
        forall|k: int| s.len() - t <= k < s.len() ==> is_blank(s[k]),
        t < s.len() ==> !is_blank(s[s.len() - t - 1]),
    ensures
        trailing_blanks(s) == t,
    decreases s.len(),
{
    if t > 0 {
        lemma_trailing_blanks_at(s.drop_last(), t - 1);
    }
}

/// Whether `c` is stripped by trimming.
fn is_blank_char(c: char) -> (b: bool)
    ensures
        b == is_blank(c),
{
    c == ' ' || c == '\t' || c == '\n' || c == '\r'
}

/// A candidate name with leading and trailing blanks removed: the form in
/// which a name is handed to a backend command.
pub fn trimmed_name(s: &String) -> (r: String)
    ensures
        r@ == trim_spec(s@),
{
    let v = char_vec(s.as_str());
    let n = v.len();
    let mut a: usize = 0;
    while a < n && is_blank_char(v[a])
        invariant
            a <= n,
            n == s@.len(),
            v@ == s@,
            forall|k: int| 0 <= k < a ==> is_blank(s@[k]),
        decreases n - a,
    {
        a += 1;
    }
    proof {
        lemma_leading_blanks_at(s@, a as int);
    }
    if a == n {
        let r = String::new();
        proof {
            assert(r@ =~= trim_spec(s@));
        }
        return r;
    }
    let mut b: usize = n;
    while b > a && is_blank_char(v[b - 1])
        invariant
            a < b <= n || b == a,
            n == s@.len(),
            v@ == s@,
            a < n,
            !is_blank(s@[a as int]),
            forall|k: int| b <= k < n ==> is_blank(s@[k]),
        decreases b,
    {
        b -= 1;
    }
    proof {
        assert(b > a);
        lemma_trailing_blanks_at(s@, n - b);
    }
    chars_to_string(&v, a, b)
}

} // verus!
