//! Lines of a log: the stretches of bytes between line feeds.

use vstd::prelude::*;
use vstd::slice::*;

verus! {

/// The byte that ends a line.
pub const LINE_FEED: u8 = 10;

/// Where the line that starts at `from` ends: the position of the next line
/// feed, or the end of the text.
pub open spec fn line_end(text: Seq<u8>, from: int) -> int
    decreases text.len() - from,
{
    if from >= text.len() || text[from] == LINE_FEED {
        from
    } else {
        line_end(text, from + 1)
    }
}

/// The lines of `text` that start at or after position `from`, where `from` is
/// the start of a line. A line feed ends a line; the last line needs none.
pub open spec fn lines_from(text: Seq<u8>, from: int) -> Seq<Seq<u8>>
    decreases text.len() - from,
{
    if from >= text.len() || from < 0 {
        Seq::empty()
    } else {
        let end = line_end(text, from);
        if from <= end < text.len() {
            seq![text.subrange(from, end)] + lines_from(text, end + 1)
        } else {
            seq![text.subrange(from, text.len() as int)]
        }
    }
}

/// The lines of a log, without their line feeds.
pub open spec fn lines_of(text: Seq<u8>) -> Seq<Seq<u8>> {
    lines_from(text, 0)
}

/// A line ends at or after its start, inside the text, and holds no line feed.
pub proof fn lemma_line_end(text: Seq<u8>, from: int)
    requires
        0 <= from <= text.len(),
    ensures
        from <= line_end(text, from) <= text.len(),
        line_end(text, from) < text.len() ==> text[line_end(text, from)] == LINE_FEED,
        forall|i: int| from <= i < line_end(text, from) ==> text[i] != LINE_FEED,
    decreases text.len() - from,
{
    if from >= text.len() || text[from] == LINE_FEED {
    } else {
        lemma_line_end(text, from + 1);
    }
}

/// Splits a log into its lines.
pub fn split_lines<'a>(text: &'a [u8]) -> (lines: Vec<&'a [u8]>)
    ensures
        lines@.len() == lines_of(text@).len(),
        forall|i: int| 0 <= i < lines@.len() ==> (#[trigger] lines@[i])@ == lines_of(text@)[i],
{
    let mut lines: Vec<&'a [u8]> = Vec::new();
    let mut start: usize = 0;
    while start < text.len()
        invariant
            start <= text.len(),
            lines_of(text@).len() == lines@.len() + lines_from(text@, start as int).len(),
            forall|i: int| 0 <= i < lines@.len() ==> (#[trigger] lines@[i])@ == lines_of(text@)[i],
            forall|i: int|
                0 <= i < lines_from(text@, start as int).len() ==> lines_of(text@)[lines@.len() + i]
                    == #[trigger] lines_from(text@, start as int)[i],
        decreases text.len() - start,
    {
        let mut end: usize = start;
        while end < text.len() && text[end] != LINE_FEED
            invariant
                start <= end <= text.len(),
                line_end(text@, start as int) == line_end(text@, end as int),
            decreases text.len() - end,
        {
            end = end + 1;
        }
        let next: usize = if end < text.len() {
            end + 1
        } else {
            end
        };
        proof {
            lemma_line_end(text@, end as int);
            let rest = lines_from(text@, next as int);
            assert(lines_from(text@, start as int) == seq![text@.subrange(start as int, end as int)]
                + rest);
            assert forall|i: int| 0 <= i < rest.len() implies lines_of(text@)[lines@.len() + 1
                + i] == #[trigger] rest[i] by {
                assert(lines_from(text@, start as int)[i + 1] == rest[i]);
            }
            assert(lines_from(text@, start as int)[0] == text@.subrange(start as int, end as int));
        }
        lines.push(slice_subrange(text, start, end));
        start = next;
    }
    lines
}

/// A text without the line feeds at its end.
pub open spec fn trimmed(text: Seq<u8>) -> Seq<u8>
    decreases text.len(),
{
    if text.len() > 0 && text.last() == LINE_FEED {
        trimmed(text.drop_last())
    } else {
        text
    }
}

/// Cuts the line feeds off the end of a text.
pub fn trim_line_feeds<'a>(text: &'a [u8]) -> (head: &'a [u8])
    ensures
        head@ == trimmed(text@),
        head@.len() == 0 || head@.last() != LINE_FEED,
{
    let mut end: usize = text.len();
    assert(text@.subrange(0, end as int) == text@);
    while end > 0 && text[end - 1] == LINE_FEED
        invariant
            end <= text.len(),
            trimmed(text@) == trimmed(text@.subrange(0, end as int)),
        decreases end,
    {
        assert(text@.subrange(0, end as int).drop_last() == text@.subrange(0, end - 1));
        end = end - 1;
    }
    slice_subrange(text, 0, end)
}

/// Whether a text can take further lines at its end: it is empty, or its last
/// line is ended by a line feed.
pub open spec fn ends_lines(text: Seq<u8>) -> bool {
    text.len() == 0 || text.last() == LINE_FEED
}

/// Whether a stretch of bytes can stand as one line: it holds no line feed.
pub open spec fn is_line(bytes: Seq<u8>) -> bool {
    !bytes.contains(LINE_FEED)
}

/// The text made of the given lines, each followed by a line feed.
pub open spec fn joined_lines(lines: Seq<Seq<u8>>) -> Seq<u8>
    decreases lines.len(),
{
    if lines.len() == 0 {
        Seq::empty()
    } else {
        joined_lines(lines.drop_last()) + lines.last() + seq![LINE_FEED]
    }
}

/// A line that is ended inside a text ends at the same place in any longer text.
proof fn lemma_line_end_in_longer(text: Seq<u8>, more: Seq<u8>, from: int)
    requires
        0 <= from <= text.len(),
        line_end(text, from) < text.len(),
    ensures
        line_end(text + more, from) == line_end(text, from),
    decreases text.len() - from,
{
    if from < text.len() {
        assert((text + more)[from] == text[from]);
        if text[from] != LINE_FEED {
            lemma_line_end_in_longer(text, more, from + 1);
        }
    }
}

/// A line runs on over bytes that are no line feeds.
proof fn lemma_line_end_after(text: Seq<u8>, from: int, to: int)
    requires
        0 <= from <= to <= text.len(),
        forall|i: int| from <= i < to ==> text[i] != LINE_FEED,
    ensures
        line_end(text, from) == line_end(text, to),
    decreases to - from,
{
    if from < to {
        lemma_line_end_after(text, from + 1, to);
    }
}

/// The lines of a longer text, from a line start of the text on.
proof fn lemma_lines_from_with_one_more(text: Seq<u8>, line: Seq<u8>, from: int)
    requires
        ends_lines(text),
        is_line(line),
        0 <= from <= text.len(),
    ensures
        lines_from(text + line + seq![LINE_FEED], from) == lines_from(text, from).push(line),
    decreases text.len() - from,
{
    let longer = text + line + seq![LINE_FEED];
    if from == text.len() {
        let end = from + line.len();
        assert forall|i: int| from <= i < end implies longer[i] != LINE_FEED by {
            assert(longer[i] == line[i - from]);
        }
        lemma_line_end_after(longer, from, end);
        assert(longer[end] == LINE_FEED);
        assert(line_end(longer, end) == end);
        assert(longer.subrange(from, end) == line);
        assert(lines_from(longer, end + 1) == Seq::<Seq<u8>>::empty());
        assert(lines_from(text, from) == Seq::<Seq<u8>>::empty());
        assert(lines_from(longer, from) == seq![line] + Seq::<Seq<u8>>::empty());
    } else {
        let end = line_end(text, from);
        lemma_line_end(text, from);
        assert(end < text.len()) by {
            if end == text.len() {
                assert(text[text.len() - 1] != LINE_FEED);
            }
        }
        assert(longer == text + (line + seq![LINE_FEED]));
        lemma_line_end_in_longer(text, line + seq![LINE_FEED], from);
        assert(longer.subrange(from, end) == text.subrange(from, end));
        lemma_lines_from_with_one_more(text, line, end + 1);
        assert(lines_from(text, from) == seq![text.subrange(from, end)] + lines_from(
            text,
            end + 1,
        ));
        assert(lines_from(longer, from) == seq![text.subrange(from, end)] + lines_from(
            longer,
            end + 1,
        ));
    }
}

/// Lines added at the end of a text that can take them come after its own
/// lines, which stay as they were; and further lines can follow.
pub proof fn lemma_lines_of_appended(text: Seq<u8>, added: Seq<Seq<u8>>)
    requires
        ends_lines(text),
        forall|i: int| 0 <= i < added.len() ==> is_line(#[trigger] added[i]),
    ensures
        lines_of(text + joined_lines(added)) == lines_of(text) + added,
        ends_lines(text + joined_lines(added)),
    decreases added.len(),
{
    if added.len() == 0 {
        assert(text + joined_lines(added) == text);
        assert(lines_of(text) + added == lines_of(text));
    } else {
        let before = added.drop_last();
        let sofar = text + joined_lines(before);
        lemma_lines_of_appended(text, before);
        lemma_lines_from_with_one_more(sofar, added.last(), 0);
        assert(text + joined_lines(added) == sofar + added.last() + seq![LINE_FEED]);
        assert(added == before.push(added.last()));
        assert(lines_of(text) + added == (lines_of(text) + before).push(added.last()));
    }
}

/// The views of a sequence of lines.
pub open spec fn line_views(lines: Seq<&[u8]>) -> Seq<Seq<u8>> {
    lines.map_values(|line: &[u8]| line@)
}

/// Whether a byte is a space, a tab or a carriage return.
pub open spec fn is_blank_byte(byte: u8) -> bool {
    byte == 32 || byte == 9 || byte == 13
}

/// Whether a line is blank: it holds nothing but spaces, tabs and carriage
/// returns. A blank line is no row of a log.
pub open spec fn is_blank(line: Seq<u8>) -> bool {
    forall|i: int| 0 <= i < line.len() ==> is_blank_byte(#[trigger] line[i])
}

/// The lines that are not blank, in order.
pub open spec fn content_of(lines: Seq<Seq<u8>>) -> Seq<Seq<u8>>
    decreases lines.len(),
{
    if lines.len() == 0 {
        Seq::empty()
    } else if is_blank(lines.last()) {
        content_of(lines.drop_last())
    } else {
        content_of(lines.drop_last()).push(lines.last())
    }
}

/// Tells whether a line is blank.
pub fn line_is_blank(line: &[u8]) -> (blank: bool)
    ensures
        blank == is_blank(line@),
{
    let mut i: usize = 0;
    while i < line.len()
        invariant
            i <= line.len(),
            forall|j: int| 0 <= j < i ==> is_blank_byte(#[trigger] line@[j]),
        decreases line.len() - i,
    {
        let byte = line[i];
        if !(byte == 32 || byte == 9 || byte == 13) {
            assert(!is_blank_byte(line@[i as int]));
            return false;
        }
        i = i + 1;
    }
    true
}

/// Splits a log into its rows: the lines that are not blank.
pub fn content_lines<'a>(text: &'a [u8]) -> (rows: Vec<&'a [u8]>)
    ensures
        line_views(rows@) == content_of(lines_of(text@)),
{
    let lines = split_lines(text);
    let ghost all = lines_of(text@);
    let mut rows: Vec<&'a [u8]> = Vec::new();
    let mut i: usize = 0;
    assert(all.take(0) == Seq::<Seq<u8>>::empty());
    assert(line_views(rows@) == Seq::<Seq<u8>>::empty());
    while i < lines.len()
        invariant
            i <= lines.len(),
            all == lines_of(text@),
            lines@.len() == all.len(),
            forall|j: int| 0 <= j < lines@.len() ==> (#[trigger] lines@[j])@ == all[j],
            line_views(rows@) == content_of(all.take(i as int)),
        decreases lines.len() - i,
    {
        let line = lines[i];
        proof {
            assert(all.take(i + 1).drop_last() == all.take(i as int));
            assert(all.take(i + 1).last() == line@);
        }
        if !line_is_blank(line) {
            let ghost before = line_views(rows@);
            rows.push(line);
            assert(line_views(rows@) == before.push(line@));
        }
        i = i + 1;
    }
    assert(all.take(lines.len() as int) == all);
    rows
}

/// Whether a text begins with the byte-order mark of UTF-8.
pub open spec fn is_marked(text: Seq<u8>) -> bool {
    text.len() >= 3 && text[0] == 0xEF && text[1] == 0xBB && text[2] == 0xBF
}

/// A text without the byte-order mark at its head.
pub open spec fn unmarked(text: Seq<u8>) -> Seq<u8> {
    if is_marked(text) {
        text.subrange(3, text.len() as int)
    } else {
        text
    }
}

/// Cuts the byte-order mark off the head of a text.
pub fn strip_mark<'a>(text: &'a [u8]) -> (rest: &'a [u8])
    ensures
        rest@ == unmarked(text@),
{
    if text.len() >= 3 && text[0] == 0xEF && text[1] == 0xBB && text[2] == 0xBF {
        slice_subrange(text, 3, text.len())
    } else {
        text
    }
}

} // verus!
