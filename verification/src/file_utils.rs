//! Files as the library sees them: texts under paths, cut into lines.

use vstd::prelude::*;

use crate::order::same_path;
use crate::text::characters;

verus! {

/// The number of characters before the first line feed, or before the end.
pub open spec fn line_end(text: Seq<char>) -> int
    decreases text.len(),
{
    if text.len() == 0 || text[0] == '\n' {
        0
    } else {
        1 + line_end(text.skip(1))
    }
}

/// A line without the carriage return that belongs to its line ending.
pub open spec fn without_return(line: Seq<char>) -> Seq<char> {
    if line.len() > 0 && line.last() == '\r' {
        line.drop_last()
    } else {
        line
    }
}

/// The lines of a text. A line ends with a line feed or a carriage return and a line feed; the
/// last line needs no ending.
pub open spec fn text_lines(text: Seq<char>) -> Seq<Seq<char>>
    decreases text.len(),
{
    let end = line_end(text);
    if text.len() == 0 {
        seq![]
    } else if 0 <= end < text.len() {
        seq![without_return(text.take(end))] + text_lines(text.skip(end + 1))
    } else {
        seq![text]
    }
}

/// The lines of a file; one that cannot be read has none.
pub open spec fn file_lines(text: Option<Seq<char>>) -> Seq<Seq<char>> {
    match text {
        Some(text) => text_lines(text),
        None => seq![],
    }
}

/// The text that has the given lines, each followed by a line feed.
pub open spec fn lines_text(lines: Seq<Seq<char>>) -> Seq<char>
    decreases lines.len(),
{
    if lines.len() == 0 {
        seq![]
    } else {
        lines[0] + seq!['\n'] + lines_text(lines.skip(1))
    }
}

proof fn line_end_range(text: Seq<char>)
    ensures
        0 <= line_end(text) <= text.len(),
        line_end(text) < text.len() ==> text[line_end(text)] == '\n',
        forall|i: int| 0 <= i < line_end(text) ==> text[i] != '\n',
    decreases text.len(),
{
    if text.len() > 0 && text[0] != '\n' {
        line_end_range(text.skip(1));
        assert forall|i: int| 0 <= i < line_end(text) implies text[i] != '\n' by {
            if i > 0 {
                assert(text.skip(1)[i - 1] == text[i]);
            }
        }
    }
}

proof fn line_end_found(text: Seq<char>, end: int)
    requires
        0 <= end <= text.len(),
        end < text.len() ==> text[end] == '\n',
        forall|i: int| 0 <= i < end ==> text[i] != '\n',
    ensures
        line_end(text) == end,
{
    line_end_range(text);
    if line_end(text) < end {
        assert(text[line_end(text)] != '\n');
    }
}

/// What is written line by line is read back line by line, as long as no line holds a line feed
/// or ends with a carriage return.
pub proof fn lines_are_read_back(lines: Seq<Seq<char>>)
    requires
        forall|i: int|
            0 <= i < lines.len() ==> !(#[trigger] lines[i]).contains('\n') && !(lines[i].len() > 0
                && lines[i].last() == '\r'),
    ensures
        text_lines(lines_text(lines)) == lines,
    decreases lines.len(),
{
    if lines.len() > 0 {
        let line = lines[0];
        let rest = lines_text(lines.skip(1));
        let text = lines_text(lines);
        assert(!lines[0].contains('\n'));
        assert forall|i: int| 0 <= i < line.len() implies text[i] != '\n' by {
            assert(text[i] == line[i]);
            assert(line.contains(line[i]));
        }
        line_end_found(text, line.len() as int);
        assert(text.take(line.len() as int) == line);
        assert(text.skip(line.len() as int + 1) == rest);
        assert forall|i: int| 0 <= i < lines.skip(1).len() implies !(#[trigger] lines.skip(
            1,
        )[i]).contains('\n') && !(lines.skip(1)[i].len() > 0 && lines.skip(1)[i].last() == '\r') by {
            assert(lines.skip(1)[i] == lines[i + 1]);
        }
        lines_are_read_back(lines.skip(1));
        assert(seq![line] + lines.skip(1) == lines);
    } else {
        assert(text_lines(lines_text(lines)) =~= lines);
    }
}

/// The text between two positions.
fn slice_text(text: &Vec<char>, start: usize, end: usize) -> (r: String)
    requires
        start <= end <= text@.len(),
    ensures
        r@ == text@.subrange(start as int, end as int),
{
    let mut r = String::new();
    let mut i: usize = start;
    while i < end
        invariant
            start <= i <= end <= text@.len(),
            r@ == text@.subrange(start as int, i as int),
        decreases end - i,
    {
        r.push(text[i]);
        i = i + 1;
        assert(r@ =~= text@.subrange(start as int, i as int));
    }
    r
}

/// The lines of a file, given its text; a file that could not be read has no lines.
pub fn read_lines(text: Option<&String>) -> (r: Vec<String>)
    ensures
        r.deep_view() == file_lines(crate::text::text_view(text)),
{
    let mut r: Vec<String> = Vec::new();
    let Some(text) = text else {
        assert(r.deep_view() =~= seq![]);
        return r;
    };
    let text = characters(text.as_str());
    let mut start: usize = 0;
    assert(text@.skip(0) == text@);
    assert(r.deep_view() + text_lines(text@) =~= text_lines(text@));
    while start < text.len()
        invariant
            start <= text@.len(),
            r.deep_view() + text_lines(text@.skip(start as int)) == text_lines(text@),
        decreases text@.len() - start,
    {
        let ghost rest = text@.skip(start as int);
        let ghost done = r.deep_view();
        let mut end: usize = start;
        while end < text.len() && text[end] != '\n'
            invariant
                start <= end <= text@.len(),
                rest == text@.skip(start as int),
                forall|i: int| 0 <= i < end - start ==> rest[i] != '\n',
            decreases text@.len() - end,
        {
            end = end + 1;
        }
        proof {
            line_end_found(rest, end - start);
        }
        if end < text.len() {
            let mut stop: usize = end;
            if end > start && text[end - 1] == '\r' {
                stop = end - 1;
            }
            r.push(slice_text(&text, start, stop));
            assert(text@.subrange(start as int, stop as int) =~= without_return(
                rest.take(end - start),
            ));
            assert(rest.skip(end - start + 1) == text@.skip(end + 1));
            start = end + 1;
        } else {
            r.push(slice_text(&text, start, end));
            assert(text@.subrange(start as int, end as int) =~= rest);
            start = end;
            assert(text@.skip(start as int) =~= seq![]);
        }
        assert(r.deep_view() =~= done.push(r@.last()@));
        assert(r.deep_view() + text_lines(text@.skip(start as int)) =~= text_lines(text@));
    }
    assert(r.deep_view() + text_lines(text@.skip(start as int)) =~= r.deep_view());
    r
}

/// The text of a file after lines have been written to it, each followed by a line feed: after
/// the text that is there, if they are to be appended, or in its place.
pub fn write_lines(text: Option<&String>, lines: &Vec<String>, append: bool) -> (r: String)
    ensures
        r@ == match (text, append) {
            (Some(text), true) => text@ + lines_text(lines.deep_view()),
            _ => lines_text(lines.deep_view()),
        },
{
    let mut r = match (text, append) {
        (Some(text), true) => text.clone(),
        _ => String::new(),
    };
    let ghost start = r@;
    let ghost all = lines.deep_view();
    let mut i: usize = 0;
    assert(all.skip(0) == all);
    while i < lines.len()
        invariant
            i <= lines@.len(),
            all == lines.deep_view(),
            r@ + lines_text(all.skip(i as int)) == start + lines_text(all),
        decreases lines@.len() - i,
    {
        let ghost done = r@;
        assert(all.skip(i as int)[0] == lines@[i as int]@);
        assert(all.skip(i as int).skip(1) == all.skip(i + 1));
        r.append(lines[i].as_str());
        r.push('\n');
        i = i + 1;
        assert(r@ + lines_text(all.skip(i as int)) =~= start + lines_text(all));
    }
    assert(r@ + lines_text(all.skip(i as int)) =~= r@);
    assert(Seq::<char>::empty() + lines_text(all) =~= lines_text(all));
    r
}

/// A file to be replaced by a new text.
pub struct FileWrite {
    /// The components of the file's path.
    pub path: Vec<String>,
    /// The new text.
    pub text: String,
}

/// What a [`FileWrite`] is.
pub struct FileWriteView {
    pub path: Seq<Seq<char>>,
    pub text: Seq<char>,
}

impl DeepView for FileWrite {
    type V = FileWriteView;

    open spec fn deep_view(&self) -> FileWriteView {
        FileWriteView { path: self.path.deep_view(), text: self.text@ }
    }
}

/// The texts of files, by the components of their paths. A file that is not there is absent; one
/// that cannot be read as text counts as empty.
pub struct Files {
    files: Vec<FileWrite>,
}

/// The files after the given writes, in their order.
pub open spec fn written(
    files: Map<Seq<Seq<char>>, Seq<char>>,
    writes: Seq<FileWriteView>,
) -> Map<Seq<Seq<char>>, Seq<char>>
    decreases writes.len(),
{
    if writes.len() == 0 {
        files
    } else {
        written(files, writes.drop_last()).insert(writes.last().path, writes.last().text)
    }
}

impl View for Files {
    type V = Map<Seq<Seq<char>>, Seq<char>>;

    closed spec fn view(&self) -> Map<Seq<Seq<char>>, Seq<char>> {
        written(Map::empty(), self.files.deep_view())
    }
}

/// The text of a file, if it is there.
pub open spec fn text_of(
    files: Map<Seq<Seq<char>>, Seq<char>>,
    path: Seq<Seq<char>>,
) -> Option<Seq<char>> {
    if files.contains_key(path) {
        Some(files[path])
    } else {
        None
    }
}

impl Files {
    /// No files.
    pub fn new() -> (r: Files)
        ensures
            r@ == Map::<Seq<Seq<char>>, Seq<char>>::empty(),
    {
        let r = Files { files: Vec::new() };
        assert(r.files.deep_view().len() == 0);
        r
    }

    /// Replaces, or adds, a file.
    pub fn write(&mut self, file: FileWrite)
        ensures
            final(self)@ == old(self)@.insert(file.path.deep_view(), file.text@),
    {
        self.files.push(file);
        assert(self.files.deep_view().drop_last() =~= old(self).files.deep_view());
    }

    /// The text of a file.
    pub fn read(&self, path: &Vec<String>) -> (r: Option<&String>)
        ensures
            match r {
                Some(text) => text_of(self@, path.deep_view()) == Some(text@),
                None => text_of(self@, path.deep_view()) is None,
            },
    {
        let ghost all = self.files.deep_view();
        let mut i: usize = self.files.len();
        assert(all.take(all.len() as int) == all);
        while i > 0
            invariant
                i <= self.files@.len(),
                all == self.files.deep_view(),
                text_of(self@, path.deep_view()) == text_of(
                    written(Map::empty(), all.take(i as int)),
                    path.deep_view(),
                ),
            decreases i,
        {
            i = i - 1;
            assert(all.take(i + 1).drop_last() == all.take(i as int));
            if same_path(&self.files[i].path, path) {
                return Some(&self.files[i].text);
            }
        }
        None
    }
}

/// A line ends at the first line feed, and loses the carriage return before it, if there is one;
/// the lines of the rest follow.
pub proof fn a_line_ends_at_the_line_feed(line: Seq<char>, rest: Seq<char>)
    requires
        !line.contains('\n'),
    ensures
        file_lines(Some(line.push('\n') + rest)) == seq![
            if line.len() > 0 && line[line.len() - 1] == '\r' {
                line.take(line.len() - 1)
            } else {
                line
            },
        ] + file_lines(Some(rest)),
{
    let text = line.push('\n') + rest;
    let n = line.len() as int;
    assert forall|i: int| 0 <= i < n implies text[i] != '\n' by {
        assert(text[i] == line[i]);
        assert(line.contains(line[i]));
    }
    assert(text[n] == '\n');
    line_end_found(text, n);
    assert(text.take(n) =~= line);
    assert(text.skip(n + 1) =~= rest);
}

/// What is left without a line feed is a line, unless nothing is left; a file that cannot be read
/// has no lines.
pub proof fn the_last_line_needs_no_line_feed(line: Seq<char>)
    requires
        !line.contains('\n'),
    ensures
        file_lines(Some(line)) == if line.len() > 0 {
            seq![line]
        } else {
            seq![]
        },
        file_lines(None) == Seq::<Seq<char>>::empty(),
{
    assert forall|i: int| 0 <= i < line.len() implies line[i] != '\n' by {
        assert(line.contains(line[i]));
    }
    line_end_found(line, line.len() as int);
}

/// Lines are written one after the other, each with a line feed behind it.
pub proof fn lines_are_written_with_line_feeds(lines: Seq<Seq<char>>, line: Seq<char>)
    ensures
        lines_text(seq![]) == Seq::<char>::empty(),
        lines_text(lines.push(line)) == lines_text(lines) + line.push('\n'),
    decreases lines.len(),
{
    let all = lines.push(line);
    if lines.len() > 0 {
        lines_are_written_with_line_feeds(lines.skip(1), line);
        assert(all.skip(1) =~= lines.skip(1).push(line));
        assert(all[0] == lines[0]);
        assert(lines_text(all) =~= lines_text(lines) + line.push('\n'));
    } else {
        assert(all.skip(1).len() == 0);
        assert(lines_text(all.skip(1)) == Seq::<char>::empty());
        assert(lines_text(lines) == Seq::<char>::empty());
        assert(lines_text(all) =~= lines_text(lines) + line.push('\n'));
    }
}

/// Of the writes to a file the last one counts, and a file without writes stays.
pub proof fn the_last_write_counts(
    files: Map<Seq<Seq<char>>, Seq<char>>,
    writes: Seq<FileWriteView>,
    path: Seq<Seq<char>>,
    i: int,
)
    requires
        forall|j: int| i < j < writes.len() ==> (#[trigger] writes[j]).path != path,
        -1 <= i < writes.len(),
        i >= 0 ==> writes[i].path == path,
    ensures
        text_of(written(files, writes), path) == if i >= 0 {
            Some(writes[i].text)
        } else {
            text_of(files, path)
        },
    decreases writes.len(),
{
    if writes.len() > 0 && i < writes.len() - 1 {
        let rest = writes.drop_last();
        assert(writes[writes.len() - 1].path != path);
        assert forall|j: int| i < j < rest.len() implies (#[trigger] rest[j]).path != path by {
            assert(writes[j].path != path);
        }
        the_last_write_counts(files, rest, path, i);
    }
}

/// The text of a file is what the files have at its path; a file that is not there has none.
pub proof fn a_file_has_the_text_at_its_path(
    files: Map<Seq<Seq<char>>, Seq<char>>,
    path: Seq<Seq<char>>,
    text: Seq<char>,
)
    ensures
        text_of(files, path) is Some <==> files.dom().contains(path),
        text_of(files, path) == Some(text) <==> files.dom().contains(path) && files[path] == text,
{
}

} // verus!
