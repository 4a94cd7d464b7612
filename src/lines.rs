//! Splitting text into lines, the way `str::lines` does: a line ends at a
//! line feed, a carriage return right before that line feed belongs to the
//! line ending, and a final line feed adds no empty line.
use vstd::prelude::*;

verus! {

/// The text of the line that starts at `start` and whose line feed stands at
/// `end`, without its line ending.
pub open spec fn terminated_line(s: Seq<char>, start: int, end: int) -> Seq<char> {
    if start < end && s[end - 1] == '\r' {
        s.subrange(start, end - 1)
    } else {
        s.subrange(start, end)
    }
}

/// The lines of `s` that are still to come when the current line began at
/// `start` and the scan has reached position `i`.
pub open spec fn split_lines(s: Seq<char>, start: int, i: int) -> Seq<Seq<char>>
    decreases s.len() - i,
{
    if i < s.len() {
        if s[i] == '\n' {
            seq![terminated_line(s, start, i)] + split_lines(s, i + 1, i + 1)
        } else {
            split_lines(s, start, i + 1)
        }
    } else if start < s.len() {
        seq![s.subrange(start, s.len() as int)]
    } else {
        seq![]
    }
}

/// The lines of `s`, in order.
pub open spec fn lines_of(s: Seq<char>) -> Seq<Seq<char>> {
    split_lines(s, 0, 0)
}

/// Splitting does not look back past the start of the current line: text
/// in front of it can be cut off.
pub proof fn lemma_split_shift(p: Seq<char>, r: Seq<char>, start: int, i: int)
    requires
        p.len() <= start <= i,
    ensures
        split_lines(p + r, start, i) == split_lines(r, start - p.len(), i - p.len()),
    decreases (p + r).len() - i,
{
    let s = p + r;
    let k = p.len() as int;
    if i < s.len() {
        assert(s[i] == r[i - k]);
        if s[i] == '\n' {
            lemma_split_shift(p, r, i + 1, i + 1);
            if start < i {
                assert(s[i - 1] == r[i - 1 - k]);
            }
            assert(terminated_line(s, start, i) =~= terminated_line(r, start - k, i - k));
        } else {
            lemma_split_shift(p, r, start, i + 1);
        }
    } else if start < s.len() {
        assert(s.subrange(start, s.len() as int) =~= r.subrange(start - k, r.len() as int));
    }
}

/// A line `t` that holds no line feed, does not end in a carriage return,
/// and is followed by a line feed, comes out of the split whole.
pub proof fn lemma_split_first_line(t: Seq<char>, r: Seq<char>, i: int)
    requires
        0 <= i <= t.len(),
        !t.contains('\n'),
        t.len() > 0 ==> t.last() != '\r',
    ensures
        split_lines(t + "\n"@ + r, 0, i) == seq![t] + lines_of(r),
    decreases t.len() - i,
{
    reveal_strlit("\n");
    let s = t + "\n"@ + r;
    let k = t.len() as int;
    if i < k {
        assert(s[i] == t[i]);
        lemma_split_first_line(t, r, i + 1);
    } else {
        assert(s[k] == '\n');
        assert(terminated_line(s, 0, k) =~= t);
        assert(s =~= (t + "\n"@) + r);
        lemma_split_shift(t + "\n"@, r, k + 1, k + 1);
    }
}

/// No line holds a line feed.
pub proof fn lemma_lines_lack_line_feed(s: Seq<char>, start: int, i: int)
    requires
        0 <= start <= i <= s.len(),
        forall|j: int| start <= j < i ==> s[j] != '\n',
    ensures
        forall|n: int| 0 <= n < split_lines(s, start, i).len()
            ==> !(#[trigger] split_lines(s, start, i)[n]).contains('\n'),
    decreases s.len() - i,
{
    if i < s.len() {
        if s[i] == '\n' {
            lemma_lines_lack_line_feed(s, i + 1, i + 1);
            let line = terminated_line(s, start, i);
            assert forall|j: int| 0 <= j < line.len() implies line[j] != '\n' by {
                assert(line[j] == s[start + j]);
            }
            assert(!line.contains('\n'));
            let rest = split_lines(s, i + 1, i + 1);
            assert forall|n: int| 0 <= n < split_lines(s, start, i).len()
                implies !(#[trigger] split_lines(s, start, i)[n]).contains('\n') by {
                if n > 0 {
                    assert(split_lines(s, start, i)[n] == rest[n - 1]);
                } else {
                    assert(split_lines(s, start, i)[n] == line);
                }
            }
        } else {
            lemma_lines_lack_line_feed(s, start, i + 1);
            assert(split_lines(s, start, i) == split_lines(s, start, i + 1));
        }
    } else if start < s.len() {
        let line = s.subrange(start, s.len() as int);
        assert forall|j: int| 0 <= j < line.len() implies line[j] != '\n' by {
            assert(line[j] == s[start + j]);
        }
        assert(!line.contains('\n'));
        assert(split_lines(s, start, i)[0] == line);
    }
}

} // verus!
