//! Character-sequence utilities for the message pipeline: locating a space,
//! splitting on spaces, trimming, and appending characters to a `String`.

use vstd::prelude::*;

verus! {

use vstd::string::StrSliceExecFns;

/// True when no character of `s` is a space.
pub open spec fn has_no_space(s: Seq<char>) -> bool {
    forall|i: int| 0 <= i < s.len() ==> s[i] != ' '
}

/// Every character of `s` fits in one byte.
pub open spec fn one_byte_chars(s: Seq<char>) -> bool {
    forall|i: int| 0 <= i < s.len() ==> (s[i] as u32) < 256
}

/// Index of the first space in `s`, or -1 when there is none.
pub open spec fn first_space_idx(s: Seq<char>) -> int
    decreases s.len(),
{
    if s.len() == 0 {
        -1
    } else if s[0] == ' ' {
        0
    } else {
        let rest = first_space_idx(s.skip(1));
        if rest < 0 {
            -1
        } else {
            rest + 1
        }
    }
}

pub proof fn lemma_first_space_idx_bounds(s: Seq<char>)
    ensures
        first_space_idx(s) == -1 || 0 <= first_space_idx(s) < s.len(),
        first_space_idx(s) >= 0 ==> s[first_space_idx(s)] == ' ',
        first_space_idx(s) == -1 ==> has_no_space(s),
        forall|j: int| 0 <= j < first_space_idx(s) ==> s[j] != ' ',
    decreases s.len(),
{
    if s.len() == 0 {
    } else if s[0] == ' ' {
    } else {
        lemma_first_space_idx_bounds(s.skip(1));
        let rest = first_space_idx(s.skip(1));
        if rest < 0 {
            assert forall|i: int| 0 <= i < s.len() implies s[i] != ' ' by {
                if i > 0 {
                    assert(s[i] == s.skip(1)[i - 1]);
                }
            }
        } else {
            assert(s[rest + 1] == s.skip(1)[rest]);
            assert forall|j: int| 0 <= j < rest + 1 implies s[j] != ' ' by {
                if j > 0 {
                    assert(s[j] == s.skip(1)[j - 1]);
                }
            }
        }
    }
}

/// A sequence without spaces, followed by a space, puts its first space
/// exactly at the boundary.
pub proof fn lemma_first_space_idx_concat(s1: Seq<char>, s2: Seq<char>)
    requires
        has_no_space(s1),
    ensures
        first_space_idx(s1 + seq![' '] + s2) == s1.len(),
    decreases s1.len(),
{
    let s = s1 + seq![' '] + s2;
    if s1.len() == 0 {
        assert(s[0] == ' ');
    } else {
        assert(s[0] == s1[0]);
        lemma_first_space_idx_concat(s1.skip(1), s2);
        assert(s.skip(1) =~= s1.skip(1) + seq![' '] + s2);
    }
}

/// The tokens of `s` between its spaces, in order; empty tokens included,
/// as `str::split` with a space pattern produces them.
pub open spec fn split_spaces(s: Seq<char>) -> Seq<Seq<char>>
    decreases s.len(),
{
    let i = first_space_idx(s);
    if i < 0 || i >= s.len() {
        seq![s]
    } else {
        seq![s.take(i)] + split_spaces(s.skip(i + 1))
    }
}

/// `s` without its leading spaces.
pub open spec fn trim_start_spaces(s: Seq<char>) -> Seq<char>
    decreases s.len(),
{
    if s.len() > 0 && s[0] == ' ' {
        trim_start_spaces(s.skip(1))
    } else {
        s
    }
}

/// `s` without its trailing spaces.
pub open spec fn trim_end_spaces(s: Seq<char>) -> Seq<char>
    decreases s.len(),
{
    if s.len() > 0 && s.last() == ' ' {
        trim_end_spaces(s.drop_last())
    } else {
        s
    }
}

/// `s` without leading and trailing spaces.
pub open spec fn trim_spaces(s: Seq<char>) -> Seq<char> {
    trim_end_spaces(trim_start_spaces(s))
}

/// Tokens joined with one space after each, the form a message body takes.
pub open spec fn join_tokens(ts: Seq<Seq<char>>) -> Seq<char>
    decreases ts.len(),
{
    if ts.len() == 0 {
        Seq::empty()
    } else {
        ts[0] + seq![' '] + join_tokens(ts.skip(1))
    }
}

/// Tokens joined with a single space between them, no trailing space.
pub open spec fn join_tokens_trimmed(ts: Seq<Seq<char>>) -> Seq<char>
    decreases ts.len(),
{
    if ts.len() == 0 {
        Seq::empty()
    } else if ts.len() == 1 {
        ts[0]
    } else {
        ts[0] + seq![' '] + join_tokens_trimmed(ts.skip(1))
    }
}

/// Nonempty space-free tokens each of positive length.
pub open spec fn plain_tokens(ts: Seq<Seq<char>>) -> bool {
    forall|j: int|
        0 <= j < ts.len() ==> (#[trigger] ts[j]).len() >= 1 && has_no_space(ts[j])
}

/// The trailing-space join is the trimmed join plus one final space.
pub proof fn lemma_join_tokens_split(ts: Seq<Seq<char>>)
    requires
        ts.len() >= 1,
    ensures
        join_tokens(ts) == join_tokens_trimmed(ts) + seq![' '],
    decreases ts.len(),
{
    if ts.len() == 1 {
        assert(join_tokens(ts.skip(1)) =~= Seq::empty());
        assert(join_tokens(ts) =~= ts[0] + seq![' ']);
        assert(join_tokens_trimmed(ts) + seq![' '] =~= ts[0] + seq![' ']);
    } else {
        lemma_join_tokens_split(ts.skip(1));
        assert(join_tokens(ts) =~= join_tokens_trimmed(ts) + seq![' ']);
    }
}

/// The trimmed join of plain tokens neither starts nor ends with a space.
pub proof fn lemma_join_trimmed_ends(ts: Seq<Seq<char>>)
    requires
        ts.len() >= 1,
        plain_tokens(ts),
    ensures
        join_tokens_trimmed(ts).len() >= 1,
        join_tokens_trimmed(ts)[0] != ' ',
        join_tokens_trimmed(ts).last() != ' ',
    decreases ts.len(),
{
    if ts.len() == 1 {
        assert(ts[0].len() >= 1 && has_no_space(ts[0]));
    } else {
        assert(forall|j: int| 0 <= j < ts.skip(1).len() ==> ts.skip(1)[j] == ts[j + 1]);
        lemma_join_trimmed_ends(ts.skip(1));
        let w = join_tokens_trimmed(ts);
        assert(w[0] == ts[0][0]);
        assert(w.last() == join_tokens_trimmed(ts.skip(1)).last());
    }
}

/// Trimming the spaces off a joined body leaves the trimmed join.
pub proof fn lemma_trim_join(ts: Seq<Seq<char>>)
    requires
        ts.len() >= 1,
        plain_tokens(ts),
    ensures
        trim_spaces(join_tokens(ts)) == join_tokens_trimmed(ts),
{
    lemma_join_tokens_split(ts);
    lemma_join_trimmed_ends(ts);
    let w = join_tokens_trimmed(ts);
    let b = join_tokens(ts);
    assert(b[0] == w[0]);
    assert(trim_start_spaces(b) == b);
    assert(b.last() == ' ');
    assert(b.drop_last() =~= w);
    assert(trim_end_spaces(b) == trim_end_spaces(w));
    assert(trim_end_spaces(w) == w);
}

/// Splitting the trimmed join on spaces recovers the tokens.
pub proof fn lemma_split_join_trimmed(ts: Seq<Seq<char>>)
    requires
        ts.len() >= 1,
        plain_tokens(ts),
    ensures
        split_spaces(join_tokens_trimmed(ts)) == ts,
    decreases ts.len(),
{
    let w = join_tokens_trimmed(ts);
    if ts.len() == 1 {
        lemma_first_space_idx_bounds(w);
        if first_space_idx(w) >= 0 {
            assert(w[first_space_idx(w)] == ' ');
            assert(false);
        }
        assert(split_spaces(w) =~= ts);
    } else {
        assert(forall|j: int| 0 <= j < ts.skip(1).len() ==> ts.skip(1)[j] == ts[j + 1]);
        lemma_split_join_trimmed(ts.skip(1));
        let rest = join_tokens_trimmed(ts.skip(1));
        lemma_join_trimmed_ends(ts.skip(1));
        lemma_first_space_idx_concat(ts[0], rest);
        assert(w =~= ts[0] + seq![' '] + rest);
        let i = first_space_idx(w);
        assert(i == ts[0].len());
        assert(w.take(i) =~= ts[0]);
        assert(w.skip(i + 1) =~= rest);
        assert(split_spaces(w) =~= seq![ts[0]] + split_spaces(rest));
        assert(seq![ts[0]] + ts.skip(1) =~= ts);
    }
}

/// Splitting a trimmed joined body on spaces recovers the tokens exactly.
pub proof fn lemma_split_trim_join(ts: Seq<Seq<char>>)
    requires
        ts.len() >= 1,
        plain_tokens(ts),
    ensures
        split_spaces(trim_spaces(join_tokens(ts))) == ts,
{
    lemma_trim_join(ts);
    lemma_split_join_trimmed(ts);
}

/// Relies on std's `str` equality: two slices are equal exactly when
/// their character sequences are.
#[verifier::external_body]
pub(crate) fn str_eq(a: &str, b: &str) -> (r: bool)
    ensures
        r == (a@ == b@),
{
    a == b
}

/// Relies on std's `String::push`: appends exactly one character.
#[verifier::external_body]
pub(crate) fn push_char(s: &mut String, c: char) -> (u: ())
    ensures
        final(s)@ == old(s)@.push(c),
{
    s.push(c)
}

/// Index of the first space of `s`, if any.
pub fn find_space(s: &str) -> (r: Option<usize>)
    ensures
        match r {
            Some(i) => first_space_idx(s@) == i,
            None => first_space_idx(s@) == -1,
        },
{
    let n = s.unicode_len();
    let mut i: usize = 0;
    while i < n
        invariant
            0 <= i <= n,
            n == s@.len(),
            forall|j: int| 0 <= j < i ==> s@[j] != ' ',
        decreases n - i,
    {
        if s.get_char(i) == ' ' {
            proof {
                lemma_first_space_idx_at(s@, i as int);
            }
            return Some(i);
        }
        i += 1;
    }
    proof {
        lemma_first_space_idx_bounds(s@);
    }
    None
}

/// A space at `i` with none before it makes `i` the first space.
pub proof fn lemma_first_space_idx_at(s: Seq<char>, i: int)
    requires
        0 <= i < s.len(),
        s[i] == ' ',
        forall|j: int| 0 <= j < i ==> s[j] != ' ',
    ensures
        first_space_idx(s) == i,
    decreases i,
{
    if i == 0 {
    } else {
        assert(s.skip(1)[i - 1] == s[i]);
        assert forall|j: int| 0 <= j < i - 1 implies s.skip(1)[j] != ' ' by {
            assert(s.skip(1)[j] == s[j + 1]);
        }
        lemma_first_space_idx_at(s.skip(1), i - 1);
    }
}

/// Splits `s` on every space, as `str::split(' ')` does.
pub fn split_on_spaces(s: &str) -> (r: Vec<String>)
    ensures
        r.len() == split_spaces(s@).len(),
        forall|i: int| 0 <= i < r.len() ==> r[i]@ == split_spaces(s@)[i],
    decreases s@.len(),
{
    let n = s.unicode_len();
    match find_space(s) {
        None => {
            let mut toks: Vec<String> = Vec::new();
            toks.push(s.to_owned());
            toks
        },
        Some(i) => {
            proof {
                lemma_first_space_idx_bounds(s@);
            }
            let head = s.substring_char(0, i);
            let tail = s.substring_char(i + 1, n);
            let rest = split_on_spaces(tail);
            let mut toks: Vec<String> = Vec::new();
            toks.push(head.to_owned());
            let mut k: usize = 0;
            let ghost all = split_spaces(s@);
            proof {
                assert(s@.subrange(0, i as int) =~= s@.take(i as int));
                assert(s@.subrange(i + 1, n as int) =~= s@.skip(i + 1));
            }
            while k < rest.len()
                invariant
                    0 <= k <= rest.len(),
                    toks.len() == k + 1,
                    rest.len() + 1 == all.len(),
                    toks[0]@ == all[0],
                    forall|j: int| 0 <= j < rest.len() ==> rest[j]@ == all[j + 1],
                    forall|j: int| 1 <= j < toks.len() ==> toks[j]@ == all[j],
                decreases rest.len() - k,
            {
                let t = String::clone(&rest[k]);
                toks.push(t);
                k += 1;
            }
            toks
        },
    }
}

/// Trims leading and trailing spaces, as `str::trim` does on bodies that
/// contain no other whitespace.
pub fn trim_on_spaces(s: &str) -> (r: String)
    ensures
        r@ == trim_spaces(s@),
{
    let n = s.unicode_len();
    proof {
        assert(s@.skip(0) =~= s@);
    }
    let mut start: usize = 0;
    while start < n && s.get_char(start) == ' '
        invariant
            0 <= start <= n,
            n == s@.len(),
            trim_start_spaces(s@) == trim_start_spaces(s@.skip(start as int)),
        decreases n - start,
    {
        proof {
            assert(s@.skip(start as int).skip(1) =~= s@.skip(start + 1));
        }
        start += 1;
    }
    proof {
        if start < n {
            assert(s@.skip(start as int)[0] == s@[start as int]);
        }
        assert(trim_start_spaces(s@.skip(start as int)) == s@.skip(start as int));
        assert(s@.skip(start as int) =~= s@.subrange(start as int, n as int));
    }
    let mut end: usize = n;
    while end > start && s.get_char(end - 1) == ' '
        invariant
            start <= end <= n,
            n == s@.len(),
            trim_start_spaces(s@) == s@.skip(start as int),
            trim_end_spaces(s@.skip(start as int)) == trim_end_spaces(
                s@.subrange(start as int, end as int),
            ),
        decreases end,
    {
        proof {
            let cur = s@.subrange(start as int, end as int);
            assert(cur.last() == s@[end - 1]);
            assert(cur.drop_last() =~= s@.subrange(start as int, end - 1));
        }
        end -= 1;
    }
    let r = s.substring_char(start, end);
    proof {
        let cur = s@.subrange(start as int, end as int);
        if end > start {
            assert(cur.last() == s@[end - 1]);
        }
        assert(trim_end_spaces(cur) == cur);
    }
    r.to_owned()
}

} // verus!
