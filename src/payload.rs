//! The data block of the fragment-merge event: every line of the HTML
//! fragment, prefixed with the `elements` tag and a space, each followed by
//! a line feed.
use vstd::prelude::*;
use crate::lines::{
    lemma_lines_lack_line_feed, lemma_split_first_line, lines_of, split_lines, terminated_line,
};
use datastar::prelude::PatchElements;

verus! {

/// Name of the server-sent event that carries the fragment.
pub const MERGE_FRAGMENTS_EVENT: &'static str = "datastar-merge-fragments";

/// What each data line of the event begins with: the tag and one space.
pub const ELEMENTS_PREFIX: &'static str = "elements ";

/// One data line: the prefix, the line's text, a line feed.
pub open spec fn tagged_line(line: Seq<char>) -> Seq<char> {
    ELEMENTS_PREFIX@ + line + "\n"@
}

/// Each of `lines`, tagged.
pub open spec fn tagged_lines(lines: Seq<Seq<char>>) -> Seq<Seq<char>> {
    lines.map_values(|l: Seq<char>| tagged_line(l))
}

/// The data block for `fragment`: its lines, each tagged, one after another.
pub open spec fn tagged_payload(fragment: Seq<char>) -> Seq<char> {
    tagged_lines(lines_of(fragment)).flatten()
}

/// Builds the data block for `fragment`: one tagged line per line of it.
pub fn elements_payload(fragment: &str) -> (r: String)
    ensures
        r@ == tagged_payload(fragment@),
{
    let ghost s = fragment@;
    let n = fragment.unicode_len();
    let mut out = String::new();
    let ghost mut done: Seq<Seq<char>> = seq![];
    let mut start: usize = 0;
    let mut i: usize = 0;
    let mut after_cr = false;
    for c in it: fragment.chars()
        invariant
            s == fragment@,
            n == s.len(),
            it.seq() == s,
            i == it.index(),
            start <= i <= n,
            after_cr == (start < i && s[i - 1] == '\r'),
            lines_of(s) == done + split_lines(s, start as int, i as int),
            out@ == tagged_lines(done).flatten(),
    {
        assert(c == s[i as int]);
        if c == '\n' {
            let end = if after_cr { i - 1 } else { i };
            let line = fragment.substring_char(start, end);
            let ghost old_out = out@;
            assert(line@ == terminated_line(s, start as int, i as int));
            out.append(ELEMENTS_PREFIX);
            out.append(line);
            out.append("\n");
            proof {
                assert(out@ =~= old_out + tagged_line(line@));
                assert(tagged_lines(done.push(line@)) =~= tagged_lines(done).push(tagged_line(line@)));
                tagged_lines(done).lemma_flatten_push(tagged_line(line@));
                assert(done + split_lines(s, start as int, i as int) =~= done.push(line@)
                    + split_lines(s, i + 1, i + 1));
                done = done.push(line@);
            }
            start = i + 1;
        }
        after_cr = c == '\r';
        i = i + 1;
    }
    if start < i {
        let line = fragment.substring_char(start, i);
        let ghost old_out = out@;
        out.append(ELEMENTS_PREFIX);
        out.append(line);
        out.append("\n");
        proof {
            assert(out@ =~= old_out + tagged_line(line@));
            assert(tagged_lines(done.push(line@)) =~= tagged_lines(done).push(tagged_line(line@)));
            tagged_lines(done).lemma_flatten_push(tagged_line(line@));
            assert(done + split_lines(s, start as int, i as int) =~= done.push(line@));
            done = done.push(line@);
        }
    } else {
        assert(done + split_lines(s, start as int, i as int) =~= done);
    }
    out
}

/// Relies on datastar's `PatchElements::new`: it keeps the given HTML,
/// unchanged, as the event's elements.
#[verifier::external_body]
fn patch_elements(html: &str) -> (r: Option<String>)
    ensures
        r is Some,
        r->0@ == html@,
{
    PatchElements::new(html).elements
}

/// The data block of the fragment-merge event for `html`: the elements of a
/// datastar element patch made from `html`, one tagged line per line.
pub fn fragment_event_data(html: &str) -> (r: String)
    ensures
        r@ == tagged_payload(html@),
{
    match patch_elements(html) {
        Some(elements) => elements_payload(elements.as_str()),
        None => String::new(),
    }
}

/// The line-tagged text of `lines`, split into lines again, gives back
/// each line behind the prefix, as long as no line holds a line feed or
/// ends in a carriage return.
proof fn lemma_lines_of_tagged(lines: Seq<Seq<char>>)
    requires
        forall|n: int| 0 <= n < lines.len() ==> !(#[trigger] lines[n]).contains('\n'),
        forall|n: int| 0 <= n < lines.len() && (#[trigger] lines[n]).len() > 0
            ==> lines[n].last() != '\r',
    ensures
        lines_of(tagged_lines(lines).flatten()) == lines.map_values(
            |l: Seq<char>| ELEMENTS_PREFIX@ + l,
        ),
    decreases lines.len(),
{
    reveal_strlit("elements ");
    if lines.len() == 0 {
        assert(lines.map_values(|l: Seq<char>| ELEMENTS_PREFIX@ + l) =~= seq![]);
    } else {
        let first = lines[0];
        let rest = lines.drop_first();
        let t = ELEMENTS_PREFIX@ + first;
        assert forall|j: int| 0 <= j < t.len() implies t[j] != '\n' by {
            if j >= ELEMENTS_PREFIX@.len() {
                assert(t[j] == first[j - ELEMENTS_PREFIX@.len()]);
            }
        }
        assert(!t.contains('\n'));
        if first.len() > 0 {
            assert(t.last() == first.last());
        }
        assert(forall|n: int| 0 <= n < rest.len() ==> rest[n] == lines[n + 1]);
        lemma_lines_of_tagged(rest);
        let tail = tagged_lines(rest).flatten();
        assert(tagged_lines(lines).drop_first() =~= tagged_lines(rest));
        assert(tagged_lines(lines).flatten() =~= t + "\n"@ + tail);
        lemma_split_first_line(t, tail, 0);
        assert(lines.map_values(|l: Seq<char>| ELEMENTS_PREFIX@ + l) =~= seq![t]
            + rest.map_values(|l: Seq<char>| ELEMENTS_PREFIX@ + l));
    }
}

/// The data block holds exactly one line for each line of the fragment, in
/// the same order, and each is the prefix followed by that line. This needs
/// that no line of the fragment ends in a carriage return, which a line
/// would then lose.
pub proof fn lemma_payload_lines(fragment: Seq<char>)
    requires
        forall|n: int| 0 <= n < lines_of(fragment).len() && (#[trigger] lines_of(
            fragment,
        )[n]).len() > 0 ==> lines_of(fragment)[n].last() != '\r',
    ensures
        lines_of(tagged_payload(fragment)) == lines_of(fragment).map_values(
            |l: Seq<char>| ELEMENTS_PREFIX@ + l,
        ),
        lines_of(tagged_payload(fragment)).len() == lines_of(fragment).len(),
{
    lemma_lines_lack_line_feed(fragment, 0, 0);
    lemma_lines_of_tagged(lines_of(fragment));
}

} // verus!
