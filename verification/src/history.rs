//! The play history. Each track that was played leaves two lines in a log:
//! a marker line with tagged fields, and the path of the file that was
//! played. The last pair of the newest log is the track played last.

use vstd::prelude::*;
use vstd::string::StringExecFns;
use crate::decimal::{digit_run, digits_of, scan_digits};
use crate::digits::{digits_value, to_u64};
use crate::text::{
    begins_with, chars_of, find_from, first_at_or_after, line_views, slice_of, spec_lines,
    split_lines, stands_at, stands_here, string_of,
};

verus! {

/// The track that was played last.
#[derive(Debug, Clone, PartialEq, Eq)]
pub struct HistoryEntry {
    pub artist: String,
    pub title: String,
    pub file_path: String,
    /// When the track was played, as the log counts time.
    pub timestamp: u64,
}

/// What a history entry says.
pub struct HistoryView {
    pub artist: Seq<char>,
    pub title: Seq<char>,
    pub file_path: Seq<char>,
    pub timestamp: u64,
}

impl View for HistoryEntry {
    type V = HistoryView;

    open spec fn view(&self) -> HistoryView {
        HistoryView {
            artist: self.artist@,
            title: self.title@,
            file_path: self.file_path@,
            timestamp: self.timestamp,
        }
    }
}

/// What an optional history entry says.
pub open spec fn opt_history(o: Option<HistoryEntry>) -> Option<HistoryView> {
    match o {
        Some(entry) => Some(entry@),
        None => None,
    }
}

/// What a marker line begins with.
pub open spec fn marker_prefix() -> Seq<char> {
    "#EXTVDJ:"@
}

/// What stands for an artist or a title that the marker line does not give.
pub open spec fn unknown() -> Seq<char> {
    "Unknown"@
}

/// The tag that opens the field `name`.
pub open spec fn opening(name: Seq<char>) -> Seq<char> {
    seq!['<'] + name + seq!['>']
}

/// The tag that closes the field `name`.
pub open spec fn closing(name: Seq<char>) -> Seq<char> {
    seq!['<', '/'] + name + seq!['>']
}

/// What `line` holds between the first opening tag of `name` and the first
/// closing tag of `name` behind it; nothing where either is missing.
pub open spec fn spec_field(line: Seq<char>, name: Seq<char>) -> Option<Seq<char>> {
    match first_at_or_after(line, opening(name), 0) {
        Some(i) => match first_at_or_after(line, closing(name), i + opening(name).len()) {
            Some(j) => Some(line.subrange(i + opening(name).len(), j)),
            None => None,
        },
        None => None,
    }
}

/// The whole number that `t` writes in digits, with or without a `+` before
/// them, where it is one that a `u64` holds.
pub open spec fn spec_whole_number(t: Seq<char>) -> Option<u64> {
    let body = if t.len() > 0 && t[0] == '+' {
        t.skip(1)
    } else {
        t
    };
    if body.len() > 0 && digit_run(body) == body.len() && digits_value(digits_of(body))
        <= u64::MAX {
        Some(digits_value(digits_of(body)) as u64)
    } else {
        None
    }
}

/// The text of the field `name`, or `Unknown` where the line has no such
/// field.
pub open spec fn spec_text_field(line: Seq<char>, name: Seq<char>) -> Seq<char> {
    match spec_field(line, name) {
        Some(text) => text,
        None => unknown(),
    }
}

/// The number in the field `name`, or zero where the line has no such field
/// or the field holds no number.
pub open spec fn spec_number_field(line: Seq<char>, name: Seq<char>) -> u64 {
    match spec_field(line, name) {
        Some(text) => match spec_whole_number(text) {
            Some(number) => number,
            None => 0,
        },
        None => 0,
    }
}

/// The entry that a marker line and the line behind it make.
pub open spec fn spec_entry(marker: Seq<char>, path: Seq<char>) -> Option<HistoryView> {
    if begins_with(marker, marker_prefix()) {
        Some(
            HistoryView {
                artist: spec_text_field(marker, "artist"@),
                title: spec_text_field(marker, "title"@),
                file_path: path,
                timestamp: spec_number_field(marker, "lastplaytime"@),
            },
        )
    } else {
        None
    }
}

/// The track played last according to a log: the entry that the last two
/// lines make. A log of fewer than two lines has none, nor has one whose
/// line before the last is no marker line.
pub open spec fn spec_history(content: Seq<char>) -> Option<HistoryView> {
    let lines = spec_lines(content);
    if lines.len() < 2 {
        None
    } else {
        spec_entry(lines[lines.len() - 2], lines[lines.len() - 1])
    }
}

/// Puts `name` between `before` and a closing angle bracket.
fn tag_of(before: &Vec<char>, name: &Vec<char>) -> (r: Vec<char>)
    ensures
        r@ == before@ + name@ + seq!['>'],
{
    let mut r: Vec<char> = Vec::new();
    let mut i: usize = 0;
    while i < before.len()
        invariant
            i <= before.len(),
            r@ == before@.take(i as int),
        decreases before.len() - i,
    {
        r.push(before[i]);
        assert(r@ =~= before@.take(i + 1));
        i += 1;
    }
    assert(before@.take(before.len() as int) =~= before@);
    let mut k: usize = 0;
    while k < name.len()
        invariant
            k <= name.len(),
            r@ == before@ + name@.take(k as int),
        decreases name.len() - k,
    {
        r.push(name[k]);
        assert(r@ =~= before@ + name@.take(k + 1));
        k += 1;
    }
    assert(name@.take(name.len() as int) =~= name@);
    r.push('>');
    r
}

/// Reads the field `name` out of `line`.
pub fn field(line: &Vec<char>, name: &str) -> (r: Option<Vec<char>>)
    ensures
        match r {
            Some(text) => spec_field(line@, name@) == Some(text@),
            None => spec_field(line@, name@) is None,
        },
{
    let name_chars = chars_of(name);
    let mut lead: Vec<char> = Vec::new();
    lead.push('<');
    let open = tag_of(&lead, &name_chars);
    lead.push('/');
    let close = tag_of(&lead, &name_chars);
    assert(open@ =~= opening(name@));
    assert(close@ =~= closing(name@));
    let i = match find_from(line, &open, 0) {
        Some(i) => i,
        None => {
            return None;
        },
    };
    proof {
        crate::text::lemma_first_at_or_after(line@, open@, 0);
        assert(stands_at(line@, open@, i as int));
        assert(i + open.len() <= line.len());
    }
    let from = i + open.len();
    let j = match find_from(line, &close, from) {
        Some(j) => j,
        None => {
            return None;
        },
    };
    proof {
        crate::text::lemma_first_at_or_after(line@, close@, from as int);
        assert(stands_at(line@, close@, j as int));
    }
    Some(slice_of(line, from, j))
}

/// Reads a whole number.
pub fn whole_number(text: &Vec<char>) -> (r: Option<u64>)
    ensures
        r == spec_whole_number(text@),
{
    let start: usize = if text.len() > 0 && text[0] == '+' {
        1
    } else {
        0
    };
    assert(text@.skip(0) =~= text@);
    let mut digits: Vec<u8> = Vec::new();
    let end = scan_digits(text, start, &mut digits);
    if end != text.len() || end == start {
        return None;
    }
    assert(text@.subrange(start as int, end as int) =~= text@.skip(start as int));
    assert(digits@ =~= digits_of(text@.skip(start as int)));
    to_u64(&digits)
}

/// Reads the entry that a marker line and the line behind it make.
pub fn entry_of(marker: &Vec<char>, path: &Vec<char>) -> (r: Option<HistoryEntry>)
    ensures
        opt_history(r) == spec_entry(marker@, path@),
{
    let prefix = chars_of("#EXTVDJ:");
    if !stands_here(marker, &prefix, 0) {
        return None;
    }
    let artist = match field(marker, "artist") {
        Some(text) => string_of(&text),
        None => String::from_str("Unknown"),
    };
    let title = match field(marker, "title") {
        Some(text) => string_of(&text),
        None => String::from_str("Unknown"),
    };
    let timestamp = match field(marker, "lastplaytime") {
        Some(text) => match whole_number(&text) {
            Some(number) => number,
            None => 0,
        },
        None => 0,
    };
    Some(HistoryEntry { artist, title, file_path: string_of(path), timestamp })
}

/// Reads the track played last out of the text of a history log.
pub fn parse_history(content: &str) -> (r: Option<HistoryEntry>)
    ensures
        opt_history(r) == spec_history(content@),
{
    let chars = chars_of(content);
    let lines = split_lines(&chars);
    let n = lines.len();
    assert(line_views(lines@).len() == n);
    if n < 2 {
        return None;
    }
    assert(line_views(lines@)[n - 2] == lines@[n - 2]@);
    assert(line_views(lines@)[n - 1] == lines@[n - 1]@);
    entry_of(&lines[n - 2], &lines[n - 1])
}

/// Whatever else a log holds, its last two lines decide: a log that ends
/// with a marker line and a path gives the entry that the two make.
pub proof fn lemma_last_pair_decides(content: Seq<char>)
    requires
        spec_lines(content).len() >= 2,
    ensures
        spec_history(content) == spec_entry(
            spec_lines(content)[spec_lines(content).len() - 2],
            spec_lines(content)[spec_lines(content).len() - 1],
        ),
        begins_with(spec_lines(content)[spec_lines(content).len() - 2], marker_prefix())
            ==> spec_history(content) is Some && spec_history(content)->0.file_path == spec_lines(
            content,
        )[spec_lines(content).len() - 1],
{
}

/// A log of fewer than two lines gives no entry, and neither does a log
/// whose line before the last does not begin as a marker line does.
pub proof fn lemma_no_entry(content: Seq<char>)
    requires
        spec_lines(content).len() < 2 || !begins_with(
            spec_lines(content)[spec_lines(content).len() - 2],
            marker_prefix(),
        ),
    ensures
        spec_history(content) is None,
{
}


/// A file of the history folder, as its listing shows it.
#[derive(Debug, Clone, PartialEq, Eq)]
pub struct LogFile {
    pub path: String,
    /// The modification time, in nanoseconds since the start of 1970.
    pub modified: i128,
}

/// What the name of a history log ends with.
pub open spec fn log_extension() -> Seq<char> {
    ".m3u"@
}

/// `path` names a history log: it ends with the log extension, and the file
/// name has something before it.
pub open spec fn is_log_path(path: Seq<char>) -> bool {
    let stem = path.len() - log_extension().len();
    &&& stem > 0
    &&& stands_at(path, log_extension(), stem)
    &&& path[stem - 1] != '/'
    &&& path[stem - 1] != '\\'
}

/// Whether `path` names a history log.
pub fn names_log(path: &str) -> (r: bool)
    ensures
        r == is_log_path(path@),
{
    let chars = chars_of(path);
    let extension = chars_of(".m3u");
    if chars.len() <= extension.len() {
        return false;
    }
    let stem = chars.len() - extension.len();
    stands_here(&chars, &extension, stem) && chars[stem - 1] != '/' && chars[stem - 1] != '\\'
}

/// Picks the history log that was modified last. Of several that were
/// modified at the same latest time, any one may be picked.
pub fn newest_log(files: &Vec<LogFile>) -> (r: Option<usize>)
    ensures
        match r {
            Some(i) => i < files.len() && is_log_path(files@[i as int].path@) && forall|j: int|
                0 <= j < files.len() && is_log_path(#[trigger] files@[j].path@)
                    ==> files@[j].modified <= files@[i as int].modified,
            None => forall|j: int|
                0 <= j < files.len() ==> !is_log_path(#[trigger] files@[j].path@),
        },
{
    let mut best: Option<usize> = None;
    let mut i: usize = 0;
    while i < files.len()
        invariant
            i <= files.len(),
            match best {
                Some(b) => b < i && is_log_path(files@[b as int].path@) && forall|j: int|
                    0 <= j < i && is_log_path(#[trigger] files@[j].path@) ==> files@[j].modified
                        <= files@[b as int].modified,
                None => forall|j: int| 0 <= j < i ==> !is_log_path(#[trigger] files@[j].path@),
            },
        decreases files.len() - i,
    {
        if names_log(files[i].path.as_str()) {
            let newer = match best {
                Some(b) => files[i].modified > files[b].modified,
                None => true,
            };
            if newer {
                best = Some(i);
            }
        }
        i += 1;
    }
    best
}

} // verus!
