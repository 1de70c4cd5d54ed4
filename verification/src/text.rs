//! Text: building strings and splitting text into lines.

use vstd::prelude::*;

verus! {

/// `String::push` appends one character to the string.
pub assume_specification[ String::push ](text: &mut String, c: char)
    ensures
        final(text)@ == old(text)@.push(c),
;

/// `String::push_str` appends the characters of `tail` to the string.
pub assume_specification[ String::push_str ](text: &mut String, tail: &str)
    ensures
        final(text)@ == old(text)@ + tail@,
;

/// `line` without a carriage return at its end.
pub open spec fn without_cr(line: Seq<char>) -> Seq<char> {
    if line.len() > 0 && line.last() == '\r' {
        line.drop_last()
    } else {
        line
    }
}

/// The lines of `text` that are still to come when the line that is being
/// read began at `start` and the reading has got to `i`.
pub open spec fn lines_scan(text: Seq<char>, start: int, i: int) -> Seq<Seq<char>>
    decreases text.len() - i,
{
    if i >= text.len() {
        if start < text.len() {
            seq![text.subrange(start, text.len() as int)]
        } else {
            Seq::empty()
        }
    } else if text[i] == '\n' {
        seq![without_cr(text.subrange(start, i))] + lines_scan(text, i + 1, i + 1)
    } else {
        lines_scan(text, start, i + 1)
    }
}

/// The lines of `text`. A line ends at a line feed, or at a carriage return
/// that a line feed follows; neither belongs to the line. What follows the
/// last line feed is a line too, unless it is empty.
pub open spec fn lines(text: Seq<char>) -> Seq<Seq<char>> {
    lines_scan(text, 0, 0)
}

/// The views of the vectors of `rows`.
pub open spec fn row_views<T>(rows: Seq<Vec<T>>) -> Seq<Seq<T>> {
    rows.map_values(|row: Vec<T>| row@)
}

/// Splits `text` into its lines.
pub fn split_lines(text: &str) -> (out: Vec<Vec<char>>)
    ensures
        row_views(out@) == lines(text@),
{
    let mut out: Vec<Vec<char>> = Vec::new();
    let mut current: Vec<char> = Vec::new();
    let ghost mut start: int = 0;
    for c in it: text.chars()
        invariant
            it.seq() == text@,
            0 <= start <= it.index(),
            current@ == text@.subrange(start, it.index()),
            lines(text@) == row_views(out@) + lines_scan(text@, start, it.index()),
    {
        let ghost i = it.index();
        if c == '\n' {
            let n = current.len();
            if n > 0 && current[n - 1] == '\r' {
                current.pop();
            }
            proof {
                assert(current@ =~= without_cr(text@.subrange(start, i)));
                assert(row_views(out@.push(current)) =~= row_views(out@) + seq![current@]);
                assert(row_views(out@) + (seq![current@] + lines_scan(text@, i + 1, i + 1))
                    =~= row_views(out@) + seq![current@] + lines_scan(text@, i + 1, i + 1));
                start = i + 1;
            }
            out.push(current);
            current = Vec::new();
            proof {
                assert(current@ =~= text@.subrange(start, i + 1));
            }
        } else {
            current.push(c);
            proof {
                assert(current@ =~= text@.subrange(start, i + 1));
            }
        }
    }
    if current.len() > 0 {
        proof {
            assert(current@ =~= text@.subrange(start, text@.len() as int));
            assert(row_views(out@.push(current)) =~= row_views(out@) + seq![current@]);
        }
        out.push(current);
    } else {
        proof {
            assert(row_views(out@) + Seq::<Seq<char>>::empty() =~= row_views(out@));
        }
    }
    out
}

} // verus!
