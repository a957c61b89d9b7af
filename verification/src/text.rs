//! Character sequences: searching, splitting at a separator, and lines.

use vstd::prelude::*;
use vstd::slice::slice_subrange;

verus! {

/// The position of the first `c` in `s`, or the length of `s` where `c` does not occur.
pub open spec fn first_index(s: Seq<char>, c: char) -> nat
    decreases s.len(),
{
    if s.len() == 0 || s[0] == c {
        0
    } else {
        1 + first_index(s.skip(1), c)
    }
}

/// The pieces of `s` between the occurrences of `c`, in order. There is always at least one
/// piece, and a piece may be empty.
pub open spec fn split(s: Seq<char>, c: char) -> Seq<Seq<char>>
    decreases s.len(),
{
    let k = first_index(s, c) as int;
    if k < s.len() {
        seq![s.take(k)] + split(s.skip(k + 1), c)
    } else {
        seq![s]
    }
}

/// `s` without one carriage return at its end, if it has one there.
pub open spec fn strip_cr(s: Seq<char>) -> Seq<char> {
    if s.len() > 0 && s.last() == '\r' {
        s.drop_last()
    } else {
        s
    }
}

/// The lines of `s`. A line ends at a line feed; the line feed, and one carriage return
/// directly before it, are not part of the line. What follows the last line feed is a line
/// too, unless it is empty, and is kept as it stands.
pub open spec fn lines(s: Seq<char>) -> Seq<Seq<char>>
    decreases s.len(),
{
    let k = first_index(s, '\n') as int;
    if s.len() == 0 {
        seq![]
    } else if k < s.len() {
        seq![strip_cr(s.take(k))] + lines(s.skip(k + 1))
    } else {
        seq![s]
    }
}

/// Whether `s` begins with `prefix`.
pub open spec fn starts_with(s: Seq<char>, prefix: Seq<char>) -> bool {
    prefix.len() <= s.len() && s.take(prefix.len() as int) == prefix
}

/// `first_index` lies within `s`, nothing before it is `c`, and `c` stands there if it lies
/// before the end.
pub proof fn lemma_first_index(s: Seq<char>, c: char)
    ensures
        first_index(s, c) <= s.len(),
        forall|j: int| 0 <= j < first_index(s, c) ==> s[j] != c,
        first_index(s, c) < s.len() ==> s[first_index(s, c) as int] == c,
    decreases s.len(),
{
    if s.len() == 0 || s[0] == c {
    } else {
        let t = s.skip(1);
        lemma_first_index(t, c);
        assert forall|j: int| 0 <= j < first_index(s, c) implies s[j] != c by {
            if j > 0 {
                assert(s[j] == t[j - 1]);
            }
        }
        if first_index(s, c) < s.len() {
            assert(s[first_index(s, c) as int] == t[first_index(t, c) as int]);
        }
    }
}

/// A position with no `c` before it, which holds `c` or is the end, is `first_index`.
pub proof fn lemma_first_index_is(s: Seq<char>, c: char, k: int)
    requires
        0 <= k <= s.len(),
        forall|j: int| 0 <= j < k ==> s[j] != c,
        k < s.len() ==> s[k] == c,
    ensures
        first_index(s, c) == k,
    decreases s.len(),
{
    if s.len() == 0 || s[0] == c {
    } else {
        let t = s.skip(1);
        assert forall|j: int| 0 <= j < k - 1 implies t[j] != c by {
            assert(t[j] == s[j + 1]);
        }
        lemma_first_index_is(t, c, k - 1);
    }
}

/// Every piece of `split` is made of characters of `s`, and none of them holds `c`.
pub proof fn lemma_split_pieces(s: Seq<char>, c: char)
    ensures
        split(s, c).len() >= 1,
        forall|i: int, j: int|
            0 <= i < split(s, c).len() && 0 <= j < split(s, c)[i].len() ==> s.contains(
                #[trigger] split(s, c)[i][j],
            ) && split(s, c)[i][j] != c,
    decreases s.len(),
{
    lemma_first_index(s, c);
    let k = first_index(s, c) as int;
    if k < s.len() {
        let rest = s.skip(k + 1);
        lemma_split_pieces(rest, c);
        assert forall|i: int, j: int|
            0 <= i < split(s, c).len() && 0 <= j < split(s, c)[i].len() implies s.contains(
            #[trigger] split(s, c)[i][j],
        ) && split(s, c)[i][j] != c by {
            if i == 0 {
                assert(split(s, c)[0][j] == s[j]);
            } else {
                assert(split(s, c)[i] == split(rest, c)[i - 1]);
                let x = split(rest, c)[i - 1][j];
                assert(rest.contains(x));
                let m = choose|m: int| 0 <= m < rest.len() && rest[m] == x;
                assert(s[k + 1 + m] == x);
            }
        }
    } else {
        assert forall|i: int, j: int|
            0 <= i < split(s, c).len() && 0 <= j < split(s, c)[i].len() implies s.contains(
            #[trigger] split(s, c)[i][j],
        ) && split(s, c)[i][j] != c by {
            assert(split(s, c)[0][j] == s[j]);
        }
    }
}

/// Every character of `s` other than `c` stands in one of the pieces of `split`.
pub proof fn lemma_split_covers(s: Seq<char>, c: char, x: char)
    requires
        s.contains(x),
        x != c,
    ensures
        exists|i: int| 0 <= i < split(s, c).len() && (#[trigger] split(s, c)[i]).contains(x),
    decreases s.len(),
{
    lemma_first_index(s, c);
    let k = first_index(s, c) as int;
    let j = choose|j: int| 0 <= j < s.len() && s[j] == x;
    if k < s.len() {
        let rest = s.skip(k + 1);
        if j < k {
            assert(s.take(k)[j] == x);
            assert(split(s, c)[0].contains(x));
        } else {
            assert(rest[j - k - 1] == x);
            lemma_split_covers(rest, c, x);
            let i = choose|i: int|
                0 <= i < split(rest, c).len() && (#[trigger] split(rest, c)[i]).contains(x);
            assert(split(s, c)[i + 1] == split(rest, c)[i]);
        }
    } else {
        assert(split(s, c)[0] == s);
    }
}

/// A text has a second piece exactly where `c` occurs in it.
pub proof fn lemma_split_second(s: Seq<char>, c: char)
    ensures
        split(s, c).len() >= 2 <==> s.contains(c),
{
    lemma_first_index(s, c);
    let k = first_index(s, c) as int;
    if k < s.len() {
        lemma_split_pieces(s.skip(k + 1), c);
    }
}

/// Every character of a line of `s` is a character of `s`.
pub proof fn lemma_lines_chars(s: Seq<char>)
    ensures
        forall|i: int, j: int|
            0 <= i < lines(s).len() && 0 <= j < lines(s)[i].len() ==> s.contains(
                #[trigger] lines(s)[i][j],
            ),
    decreases s.len(),
{
    lemma_first_index(s, '\n');
    let k = first_index(s, '\n') as int;
    if s.len() == 0 {
    } else if k < s.len() {
        let rest = s.skip(k + 1);
        lemma_lines_chars(rest);
        assert forall|i: int, j: int|
            0 <= i < lines(s).len() && 0 <= j < lines(s)[i].len() implies s.contains(
            #[trigger] lines(s)[i][j],
        ) by {
            if i == 0 {
                assert(lines(s)[0][j] == s[j]);
            } else {
                assert(lines(s)[i] == lines(rest)[i - 1]);
                let x = lines(rest)[i - 1][j];
                assert(rest.contains(x));
                let m = choose|m: int| 0 <= m < rest.len() && rest[m] == x;
                assert(s[k + 1 + m] == x);
            }
        }
    } else {
        assert forall|i: int, j: int|
            0 <= i < lines(s).len() && 0 <= j < lines(s)[i].len() implies s.contains(
            #[trigger] lines(s)[i][j],
        ) by {
            assert(lines(s)[0][j] == s[j]);
        }
    }
}

/// A text without `c` is its own single piece.
pub proof fn lemma_split_whole(s: Seq<char>, c: char)
    requires
        !s.contains(c),
    ensures
        split(s, c) == seq![s],
{
    lemma_first_index(s, c);
}

/// The characters of a string, in order.
pub fn chars_of(s: &str) -> (v: Vec<char>)
    ensures
        v@ == s@,
{
    let mut v: Vec<char> = Vec::new();
    for c in it: s.chars()
        invariant
            it.seq() == s@,
            v@ == it.seq().take(it.index()),
    {
        v.push(c);
        assert(v@ =~= it.seq().take(it.index() + 1));
    }
    assert(v@ =~= s@);
    v
}

/// Finds the first `c` in `s`.
pub fn find(s: &[char], c: char) -> (k: usize)
    ensures
        k == first_index(s@, c),
{
    let mut i: usize = 0;
    while i < s.len() && s[i] != c
        invariant
            i <= s.len(),
            forall|j: int| 0 <= j < i ==> s@[j] != c,
        decreases s.len() - i,
    {
        i = i + 1;
    }
    proof {
        lemma_first_index_is(s@, c, i as int);
    }
    i
}

/// Cuts `s` at its first `c`: the piece before it and, where `c` occurs, the rest after it.
pub fn split_first<'a>(s: &'a [char], c: char) -> (r: (&'a [char], Option<&'a [char]>))
    ensures
        r.0@ == s@.take(first_index(s@, c) as int),
        first_index(s@, c) >= s@.len() ==> r.1 is None,
        first_index(s@, c) < s@.len() ==> (r.1 matches Some(rest) && rest@ == s@.skip(
            first_index(s@, c) as int + 1,
        )),
        split(s@, c) == seq![r.0@] + match r.1 {
            Some(rest) => split(rest@, c),
            None => Seq::<Seq<char>>::empty(),
        },
{
    let k = find(s, c);
    proof {
        lemma_first_index(s@, c);
    }
    let head = slice_subrange(s, 0, k);
    if k < s.len() {
        let rest = slice_subrange(s, k + 1, s.len());
        (head, Some(rest))
    } else {
        assert(s@.take(k as int) =~= s@);
        assert(seq![s@] + Seq::<Seq<char>>::empty() =~= seq![s@]);
        (head, None)
    }
}

/// All the pieces of `s` between the occurrences of `c`.
pub fn split_all<'a>(s: &'a [char], c: char) -> (parts: Vec<&'a [char]>)
    ensures
        parts@.len() == split(s@, c).len(),
        forall|i: int| 0 <= i < parts@.len() ==> (#[trigger] parts@[i])@ == split(s@, c)[i],
{
    let mut parts: Vec<&'a [char]> = Vec::new();
    let mut rest: &'a [char] = s;
    loop
        invariant_except_break
            split(s@, c).len() == parts@.len() + split(rest@, c).len(),
            forall|i: int| 0 <= i < parts@.len() ==> (#[trigger] parts@[i])@ == split(s@, c)[i],
            forall|i: int|
                0 <= i < split(rest@, c).len() ==> split(rest@, c)[i] == #[trigger] split(
                    s@,
                    c,
                )[parts@.len() + i],
        ensures
            parts@.len() == split(s@, c).len(),
            forall|i: int| 0 <= i < parts@.len() ==> (#[trigger] parts@[i])@ == split(s@, c)[i],
        decreases rest@.len(),
    {
        let ghost before = split(rest@, c);
        let ghost n = parts@.len() as int;
        let (head, tail) = split_first(rest, c);
        proof {
            lemma_first_index(rest@, c);
        }
        assert(before[0] == head@);
        assert(before[0] == split(s@, c)[n + 0]);
        parts.push(head);
        match tail {
            Some(t) => {
                assert forall|i: int| 0 <= i < split(t@, c).len() implies split(t@, c)[i]
                    == #[trigger] split(s@, c)[parts@.len() + i] by {
                    assert(split(t@, c)[i] == before[i + 1]);
                    assert(before[i + 1] == split(s@, c)[n + (i + 1)]);
                }
                rest = t;
            },
            None => {
                break ;
            },
        }
    }
    parts
}

/// Takes the first line off a text that is not empty: the line, and the text after it.
pub fn next_line<'a>(s: &'a [char]) -> (r: (&'a [char], &'a [char]))
    requires
        s@.len() > 0,
    ensures
        r.0@ == if first_index(s@, '\n') < s@.len() {
            strip_cr(s@.take(first_index(s@, '\n') as int))
        } else {
            s@
        },
        r.1@ == if first_index(s@, '\n') < s@.len() {
            s@.skip(first_index(s@, '\n') as int + 1)
        } else {
            Seq::<char>::empty()
        },
        lines(s@) == seq![r.0@] + lines(r.1@),
        r.1@.len() < s@.len(),
{
    let k = find(s, '\n');
    proof {
        lemma_first_index(s@, '\n');
    }
    if k < s.len() {
        let rest = slice_subrange(s, k + 1, s.len());
        if k > 0 && s[k - 1] == '\r' {
            let line = slice_subrange(s, 0, k - 1);
            assert(line@ =~= strip_cr(s@.take(k as int)));
            (line, rest)
        } else {
            let line = slice_subrange(s, 0, k);
            assert(line@ =~= strip_cr(s@.take(k as int)));
            (line, rest)
        }
    } else {
        let rest = slice_subrange(s, s.len(), s.len());
        assert(rest@ =~= Seq::<char>::empty());
        assert(seq![s@] + lines(rest@) =~= seq![s@]);
        (s, rest)
    }
}

} // verus!
