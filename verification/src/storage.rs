//! The format of the durable log, and recovery from it.
//!
//! The log is a file of lines, one CRC-framed JSON object per entry:
//! `{"crc":<u32>,"entry":{...}}\n`, with the checksum over the bytes of the
//! entry's JSON. An interrupted append can only leave an unterminated last
//! line, which recovery drops; every terminated line that is not a valid frame
//! is corruption, and recovery refuses the file.

use vstd::prelude::*;
use vstd::string::StringExecFns;
use vstd::utf8::encode_utf8;

use crate::cluster::truncated;
use crate::crc::{crc32, crc32_of};
use crate::text::{decimal, push_decimal, to_decimal};
use crate::types;
use crate::types::{Entry, LogIndex};

verus! {

/// The frame of an entry, by the bytes of its JSON, without the newline.
pub open spec fn framed(entry_json: Seq<u8>) -> Seq<u8> {
    encode_utf8("{\"crc\":"@) + encode_utf8(decimal(crc32_of(entry_json) as nat)) + encode_utf8(
        ",\"entry\":"@,
    ) + entry_json + encode_utf8("}"@)
}

/// One framed log line for an entry, given as its JSON.
pub fn frame_line(entry_json: &[u8]) -> (line: Vec<u8>)
    ensures
        line@ == framed(entry_json@).push(10u8),
{
    let crc: u32 = crc32(entry_json);
    let mut line: Vec<u8> = Vec::new();
    line.extend_from_slice("{\"crc\":".as_bytes());
    line.extend_from_slice(to_decimal(crc as u64).as_str().as_bytes());
    line.extend_from_slice(",\"entry\":".as_bytes());
    line.extend_from_slice(entry_json);
    line.extend_from_slice("}".as_bytes());
    line.push(10);
    assert(line@ =~= framed(entry_json@).push(10u8));
    line
}

/// The place of the first newline from the `i`-th byte on.
pub open spec fn newline_from(bytes: Seq<u8>, i: int) -> Option<int>
    decreases bytes.len() - i,
{
    if i >= bytes.len() {
        None
    } else if bytes[i] == 10 {
        Some(i)
    } else {
        newline_from(bytes, i + 1)
    }
}

/// The first newline is one, and there is none before it.
proof fn lemma_newline(bytes: Seq<u8>, i: int)
    requires
        0 <= i,
    ensures
        match newline_from(bytes, i) {
            Some(at) => i <= at < bytes.len() && bytes[at] == 10 && forall|j: int|
                i <= j < at ==> #[trigger] bytes[j] != 10,
            None => forall|j: int| i <= j < bytes.len() ==> #[trigger] bytes[j] != 10,
        },
    decreases bytes.len() - i,
{
    if i < bytes.len() && bytes[i] != 10 {
        lemma_newline(bytes, i + 1);
    }
}

/// The first newline is where there is one with none before it.
proof fn lemma_newline_is(bytes: Seq<u8>, i: int, at: int)
    requires
        0 <= i <= at < bytes.len(),
        bytes[at] == 10,
        forall|j: int| i <= j < at ==> #[trigger] bytes[j] != 10,
    ensures
        newline_from(bytes, i) == Some(at),
    decreases at - i,
{
    if i < at {
        lemma_newline_is(bytes, i + 1, at);
    }
}

/// The terminated lines from the `from`-th byte on, as ranges without the
/// newline, and where an unterminated last line begins.
pub open spec fn lines_from(bytes: Seq<u8>, from: int) -> (Seq<(int, int)>, Option<int>)
    decreases bytes.len() - from,
{
    if from < 0 || from >= bytes.len() {
        (Seq::empty(), None)
    } else {
        match newline_from(bytes, from) {
            Some(at) if from <= at && at < bytes.len() => {
                let (more, tail) = lines_from(bytes, at + 1);
                (seq![(from, at)] + more, tail)
            },
            _ => (Seq::empty(), Some(from)),
        }
    }
}

/// A line as a range of bytes, without its newline.
#[derive(Clone, Copy, Debug, PartialEq, Eq)]
pub struct Line {
    pub start: usize,
    pub end: usize,
}

/// The lines of a log file.
#[derive(Clone, Debug)]
pub struct LogLines {
    /// The terminated ones, in order.
    pub lines: Vec<Line>,
    /// Where an unterminated last one begins: the file is to be cut there.
    pub tail: Option<usize>,
}

/// Ranges as mathematical values.
pub open spec fn ranges(lines: Seq<Line>) -> Seq<(int, int)> {
    lines.map_values(|l: Line| (l.start as int, l.end as int))
}

/// Splits a log file into its lines.
pub fn split_lines(bytes: &[u8]) -> (out: LogLines)
    ensures
        ranges(out.lines@) == lines_from(bytes@, 0).0,
        match out.tail {
            Some(at) => lines_from(bytes@, 0).1 == Some(at as int),
            None => lines_from(bytes@, 0).1 is None,
        },
        forall|i: int|
            0 <= i < out.lines@.len() ==> (#[trigger] out.lines@[i]).start <= out.lines@[i].end
                <= bytes@.len(),
{
    let mut lines: Vec<Line> = Vec::new();
    let mut start: usize = 0;
    let mut i: usize = 0;
    assert(ranges(lines@) =~= Seq::empty());
    while i < bytes.len()
        invariant
            start <= i <= bytes@.len(),
            newline_from(bytes@, start as int) == newline_from(bytes@, i as int),
            lines_from(bytes@, 0) == (
                ranges(lines@) + lines_from(bytes@, start as int).0,
                lines_from(bytes@, start as int).1,
            ),
            forall|k: int|
                0 <= k < lines@.len() ==> (#[trigger] lines@[k]).start <= lines@[k].end
                    <= bytes@.len(),
        decreases bytes@.len() - i,
    {
        if bytes[i] == 10 {
            let ghost before = ranges(lines@);
            let ghost more = lines_from(bytes@, i + 1).0;
            lines.push(Line { start, end: i });
            proof {
                assert(ranges(lines@) =~= before.push((start as int, i as int)));
                assert(before + (seq![(start as int, i as int)] + more) =~= before.push(
                    (start as int, i as int),
                ) + more);
            }
            start = i + 1;
        }
        i = i + 1;
    }
    proof {
        lemma_newline(bytes@, start as int);
        assert(ranges(lines@) + lines_from(bytes@, start as int).0 =~= ranges(lines@));
    }
    LogLines {
        lines,
        tail: if start < bytes.len() {
            Some(start)
        } else {
            None
        },
    }
}

/// What a line of the log was read as.
#[derive(Debug)]
pub struct ParsedFrame {
    pub crc: u32,
    pub entry: Entry,
    /// The entry written as JSON again.
    pub entry_json: Vec<u8>,
}

/// Why a line is no valid frame.
#[derive(Debug)]
pub enum FrameFault {
    Unparseable(String),
    ReserializeFailed(String),
    CrcMismatch { stored: u32, computed: u32 },
    IndexGap { index: LogIndex, prev_index: LogIndex },
}

/// The fault in words.
pub open spec fn fault_words(fault: FrameFault) -> Seq<char> {
    match fault {
        FrameFault::Unparseable(e) => "unparseable frame: "@ + e@,
        FrameFault::ReserializeFailed(e) => "re-serialize failed: "@ + e@,
        FrameFault::CrcMismatch { stored, computed } => "crc mismatch: stored "@ + decimal(
            stored as nat,
        ) + ", computed "@ + decimal(computed as nat),
        FrameFault::IndexGap { index, prev_index } => "index gap: "@ + decimal(index as nat)
            + " follows "@ + decimal(prev_index as nat),
    }
}

impl FrameFault {
    /// The fault in words.
    pub fn describe(&self) -> (text: String)
        ensures
            text@ == fault_words(*self),
    {
        match self {
            FrameFault::Unparseable(e) => {
                let mut text = "unparseable frame: ".to_owned();
                text.append(e.as_str());
                text
            },
            FrameFault::ReserializeFailed(e) => {
                let mut text = "re-serialize failed: ".to_owned();
                text.append(e.as_str());
                text
            },
            FrameFault::CrcMismatch { stored, computed } => {
                let mut text = "crc mismatch: stored ".to_owned();
                push_decimal(&mut text, *stored as u64);
                text.append(", computed ");
                push_decimal(&mut text, *computed as u64);
                text
            },
            FrameFault::IndexGap { index, prev_index } => {
                let mut text = "index gap: ".to_owned();
                push_decimal(&mut text, *index);
                text.append(" follows ");
                push_decimal(&mut text, *prev_index);
                text
            },
        }
    }
}

/// What is wrong with a frame behind an entry of index `prev_index`, if
/// anything: that it could not be read, then that its checksum does not fit,
/// then that its index does not follow.
pub open spec fn frame_fault(
    frame: Result<ParsedFrame, FrameFault>,
    prev_index: int,
) -> Option<FrameFault> {
    match frame {
        Err(fault) => Some(fault),
        Ok(f) => {
            let computed = crc32_of(f.entry_json@);
            if computed != f.crc {
                Some(FrameFault::CrcMismatch { stored: f.crc, computed })
            } else if f.entry.index != prev_index + 1 {
                Some(
                    FrameFault::IndexGap { index: f.entry.index, prev_index: prev_index as u64 },
                )
            } else {
                None
            }
        },
    }
}

/// Checks a frame behind an entry of index `prev_index`.
pub fn check_frame(frame: Result<ParsedFrame, FrameFault>, prev_index: LogIndex) -> (out: Result<
    Entry,
    FrameFault,
>)
    ensures
        match out {
            Ok(entry) => frame_fault(frame, prev_index as int) is None && frame->Ok_0.entry
                == entry,
            Err(fault) => frame_fault(frame, prev_index as int) == Some(fault),
        },
{
    match frame {
        Err(fault) => Err(fault),
        Ok(f) => {
            let computed: u32 = crc32(f.entry_json.as_slice());
            if computed != f.crc {
                return Err(FrameFault::CrcMismatch { stored: f.crc, computed });
            }
            if prev_index == u64::MAX || f.entry.index != prev_index + 1 {
                return Err(FrameFault::IndexGap { index: f.entry.index, prev_index });
            }
            Ok(f.entry)
        },
    }
}

/// A terminated line of the log that is no valid frame, by where it begins.
#[derive(Debug)]
pub struct Corruption {
    pub offset: usize,
    pub fault: FrameFault,
}

impl Corruption {
    /// The corruption in words.
    pub fn describe(&self) -> (text: String)
        ensures
            text@ == "log.jsonl corrupt at byte offset "@ + decimal(self.offset as nat) + ": "@
                + fault_words(self.fault) + "; refusing to modify newline-terminated data"@,
    {
        let why = self.fault.describe();
        let mut text = "log.jsonl corrupt at byte offset ".to_owned();
        push_decimal(&mut text, self.offset as u64);
        text.append(": ");
        text.append(why.as_str());
        text.append("; refusing to modify newline-terminated data");
        text
    }
}

/// Whether this is what the lines of a log, each as it was read, come to.
pub open spec fn log_recovered(
    lines: Seq<Line>,
    frames: Seq<Result<ParsedFrame, FrameFault>>,
    out: Result<Vec<Entry>, Corruption>,
) -> bool {
    match out {
        Ok(entries) => {
            &&& entries@.len() == frames.len()
            &&& forall|i: int|
                0 <= i < frames.len() ==> frame_fault(#[trigger] frames[i], i) is None && entries@[i]
                    == frames[i]->Ok_0.entry
        },
        Err(c) => exists|k: int|
            {
                &&& 0 <= k < frames.len()
                &&& c.offset == lines[k].start
                &&& #[trigger] frame_fault(frames[k], k) == Some(c.fault)
                &&& forall|i: int| 0 <= i < k ==> frame_fault(#[trigger] frames[i], i) is None
            },
    }
}

/// Recovers the entries from the lines of a log, each as it was read: all of
/// them if every line is a valid frame and the indices run 1, 2, 3 and so on;
/// else the first line that breaks this is reported.
pub fn recover_log(
    lines: &[Line],
    frames: Vec<Result<ParsedFrame, FrameFault>>,
) -> (out: Result<Vec<Entry>, Corruption>)
    requires
        lines@.len() == frames@.len(),
    ensures
        match out {
            Ok(entries) => {
                &&& entries@.len() == frames@.len()
                &&& forall|i: int|
                    0 <= i < frames@.len() ==> frame_fault(#[trigger] frames@[i], i) is None
                        && entries@[i] == frames@[i]->Ok_0.entry
                &&& types::contiguous(entries@)
            },
            Err(c) => exists|k: int|
                {
                    &&& 0 <= k < frames@.len()
                    &&& c.offset == lines@[k].start
                    &&& #[trigger] frame_fault(frames@[k], k) == Some(c.fault)
                    &&& forall|i: int|
                        0 <= i < k ==> frame_fault(#[trigger] frames@[i], i) is None
                },
        },
        log_recovered(lines@, frames@, out),
{
    let ghost all = frames@;
    let count: usize = frames.len();
    let mut entries: Vec<Entry> = Vec::new();
    let mut i: usize = 0;
    for frame in items: frames
        invariant
            all.len() == count,
            items.seq() == all,
            lines@.len() == all.len(),
            i == items.index(),
            entries@.len() == i,
            forall|j: int|
                0 <= j < i ==> frame_fault(#[trigger] all[j], j) is None && entries@[j]
                    == all[j]->Ok_0.entry,
            types::contiguous(entries@),
    {
        let prev_index: LogIndex = if i == 0 {
            0
        } else {
            entries[i - 1].index
        };
        assert(prev_index == i);
        assert(frame == all[i as int]);
        match check_frame(frame, prev_index) {
            Ok(entry) => entries.push(entry),
            Err(fault) => {
                assert(frame_fault(all[i as int], i as int) == Some(fault));
                return Err(Corruption { offset: lines[i].start, fault });
            },
        }
        i = i + 1;
    }
    Ok(entries)
}

/// Whether these are the entries that stay where the log is truncated from an
/// index on.
pub open spec fn survived(entries: Seq<Entry>, from: LogIndex, out: Seq<Entry>) -> bool {
    out == entries.filter(|e: Entry| e.index < from)
}

/// The entries that stay where the log is truncated from an index on.
pub fn survivors(entries: Vec<Entry>, from: LogIndex) -> (out: Vec<Entry>)
    ensures
        out@ == entries@.filter(|e: Entry| e.index < from),
        survived(entries@, from, out@),
{
    let ghost all = entries@;
    let ghost keeps = |e: Entry| e.index < from;
    let mut out: Vec<Entry> = Vec::new();
    let ghost mut seen: int = 0;
    reveal(Seq::filter);
    for entry in items: entries
        invariant
            items.seq() == all,
            seen == items.index(),
            keeps == (|e: Entry| e.index < from),
            out@ == all.take(seen).filter(keeps),
    {
        proof {
            reveal(Seq::filter);
            assert(all.take(seen + 1).drop_last() =~= all.take(seen));
            assert(all.take(seen + 1).last() == entry);
        }
        if entry.index < from {
            out.push(entry);
        }
        proof {
            seen = seen + 1;
        }
    }
    assert(all.take(seen) =~= all);
    out
}

/// On a log that runs 1, 2, 3 and so on, the survivors are the entries before
/// the index: what a truncation means everywhere else.
pub proof fn law_survivors_are_the_prefix(log: Seq<Entry>, from: LogIndex)
    requires
        types::contiguous(log),
        1 <= from,
    ensures
        log.filter(|e: Entry| e.index < from) == truncated(log, Some(from)),
    decreases log.len(),
{
    reveal(Seq::filter);
    if log.len() > 0 {
        let less = log.drop_last();
        law_survivors_are_the_prefix(less, from);
        assert(log.last().index == log.len());
        if from <= log.len() {
            if from <= less.len() {
                assert(less.take(from - 1) =~= log.take(from - 1));
            } else {
                assert(less =~= log.take(from - 1));
            }
        } else {
            assert(less.push(log.last()) =~= log);
        }
    }
}

/// Lines, each followed by a newline.
pub open spec fn image(lines: Seq<Seq<u8>>) -> Seq<u8>
    decreases lines.len(),
{
    if lines.len() == 0 {
        Seq::empty()
    } else {
        lines[0].push(10u8) + image(lines.skip(1))
    }
}

/// The texts of the terminated lines, and of an unterminated last one.
pub open spec fn texts(bytes: Seq<u8>) -> (Seq<Seq<u8>>, Seq<u8>)
    decreases bytes.len(),
{
    match newline_from(bytes, 0) {
        Some(at) if 0 <= at && at < bytes.len() => {
            let (more, tail) = texts(bytes.skip(at + 1));
            (seq![bytes.take(at)] + more, tail)
        },
        _ => (Seq::empty(), bytes),
    }
}

/// Where a newline stands does not depend on what comes before.
proof fn lemma_newline_shift(bytes: Seq<u8>, from: int)
    requires
        0 <= from <= bytes.len(),
    ensures
        newline_from(bytes, from) == match newline_from(bytes.skip(from), 0) {
            Some(at) => Some(from + at),
            None => None::<int>,
        },
{
    lemma_newline(bytes, from);
    lemma_newline(bytes.skip(from), 0);
    let rest = bytes.skip(from);
    match newline_from(bytes, from) {
        Some(at) => {
            assert forall|j: int| 0 <= j < at - from implies #[trigger] rest[j] != 10 by {
                assert(rest[j] == bytes[from + j]);
            }
            lemma_newline_is(rest, 0, at - from);
        },
        None => {
            if let Some(at) = newline_from(rest, 0) {
                assert(bytes[from + at] == 10);
            }
        },
    }
}

/// The ranges that the lines of a file take up hold their texts, and the tail
/// begins where the rest of the file is the unterminated line.
pub proof fn lemma_ranges_hold_texts(bytes: Seq<u8>, from: int)
    requires
        0 <= from <= bytes.len(),
    ensures
        ({
            let (found, tail) = lines_from(bytes, from);
            let (lines, rest) = texts(bytes.skip(from));
            &&& found.len() == lines.len()
            &&& forall|i: int|
                0 <= i < found.len() ==> 0 <= (#[trigger] found[i]).0 <= found[i].1 <= bytes.len()
                    && bytes.subrange(found[i].0, found[i].1) == lines[i]
            &&& match tail {
                Some(at) => 0 <= at < bytes.len() && bytes.skip(at) == rest,
                None => rest.len() == 0,
            }
        }),
    decreases bytes.len() - from,
{
    let rest = bytes.skip(from);
    lemma_newline(bytes, from);
    lemma_newline_shift(bytes, from);
    if from < bytes.len() {
        match newline_from(bytes, from) {
            Some(at) => {
                lemma_ranges_hold_texts(bytes, at + 1);
                assert(rest.skip(at - from + 1) =~= bytes.skip(at + 1));
                assert(rest.take(at - from) =~= bytes.subrange(from, at));
                let (found, tail) = lines_from(bytes, from);
                let (lines, end) = texts(rest);
                let (more_found, more_tail) = lines_from(bytes, at + 1);
                let (more_lines, more_end) = texts(bytes.skip(at + 1));
                assert(found =~= seq![(from, at)] + more_found);
                assert(lines =~= seq![bytes.subrange(from, at)] + more_lines);
                assert forall|i: int| 0 <= i < found.len() implies 0 <= (#[trigger] found[i]).0
                    <= found[i].1 <= bytes.len() && bytes.subrange(found[i].0, found[i].1)
                    == lines[i] by {
                    if i > 0 {
                        assert(found[i] == more_found[i - 1]);
                        assert(lines[i] == more_lines[i - 1]);
                    }
                }
            },
            None => {},
        }
    }
}

/// The frames of entries, given as their JSON.
pub open spec fn frames(entry_jsons: Seq<Vec<u8>>) -> Seq<Seq<u8>> {
    entry_jsons.map_values(|json: Vec<u8>| framed(json@))
}

/// One line more at the end.
proof fn lemma_image_push(lines: Seq<Seq<u8>>, last: Seq<u8>)
    ensures
        image(lines.push(last)) == image(lines) + last.push(10u8),
    decreases lines.len(),
{
    let all = lines.push(last);
    if lines.len() == 0 {
        assert(all.skip(1) =~= lines);
        assert(image(lines) =~= Seq::empty());
        assert(image(all) =~= image(lines) + last.push(10u8));
    } else {
        lemma_image_push(lines.skip(1), last);
        assert(all.skip(1) =~= lines.skip(1).push(last));
        assert(image(all) =~= image(lines) + last.push(10u8));
    }
}

/// What is written in two parts is what is written at once.
pub proof fn law_images_add_up(a: Seq<Seq<u8>>, b: Seq<Seq<u8>>)
    ensures
        image(a + b) == image(a) + image(b),
    decreases a.len(),
{
    if a.len() == 0 {
        assert(a + b =~= b);
        assert(image(a) + image(b) =~= image(b));
    } else {
        law_images_add_up(a.skip(1), b);
        assert((a + b).skip(1) =~= a.skip(1) + b);
        assert(image(a + b) =~= image(a) + image(b));
    }
}

/// The log lines for entries, given as their JSON, one behind the other.
pub fn frame_lines(entry_jsons: &[Vec<u8>]) -> (bytes: Vec<u8>)
    ensures
        bytes@ == image(frames(entry_jsons@)),
{
    let ghost lines = frames(entry_jsons@);
    let mut bytes: Vec<u8> = Vec::new();
    let mut i: usize = 0;
    assert(bytes@ =~= image(lines.take(0)));
    while i < entry_jsons.len()
        invariant
            i <= entry_jsons@.len(),
            lines == frames(entry_jsons@),
            bytes@ == image(lines.take(i as int)),
        decreases entry_jsons@.len() - i,
    {
        let line = frame_line(entry_jsons[i].as_slice());
        bytes.extend_from_slice(line.as_slice());
        proof {
            lemma_image_push(lines.take(i as int), lines[i as int]);
            assert(lines.take(i + 1) =~= lines.take(i as int).push(lines[i as int]));
        }
        i = i + 1;
    }
    assert(lines.take(i as int) =~= lines);
    bytes
}

/// No newline inside any line.
pub open spec fn one_liners(lines: Seq<Seq<u8>>) -> bool {
    forall|i: int, j: int|
        0 <= i < lines.len() && 0 <= j < lines[i].len() ==> #[trigger] lines[i][j] != 10
}

/// What is written line by line is read back line by line.
pub proof fn law_lines_read_back(lines: Seq<Seq<u8>>)
    requires
        one_liners(lines),
    ensures
        texts(image(lines)) == (lines, Seq::<u8>::empty()),
    decreases lines.len(),
{
    let bytes = image(lines);
    if lines.len() == 0 {
        assert(lines =~= Seq::empty());
    } else {
        let first = lines[0];
        let rest = lines.skip(1);
        assert forall|i: int, j: int| 0 <= i < rest.len() && 0 <= j < rest[i].len() implies
            #[trigger] rest[i][j] != 10 by {
            assert(lines[i + 1][j] != 10);
        }
        law_lines_read_back(rest);
        assert forall|j: int| 0 <= j < first.len() implies #[trigger] bytes[j] != 10 by {
            assert(bytes[j] == lines[0][j]);
        }
        lemma_newline_is(bytes, 0, first.len() as int);
        assert(bytes.take(first.len() as int) =~= first);
        assert(bytes.skip(first.len() as int + 1) =~= image(rest));
        assert(seq![first] + rest =~= lines);
    }
}

/// Whole lines in front are read as they are, whatever comes behind them.
pub proof fn law_lines_in_front_stay(lines: Seq<Seq<u8>>, rest: Seq<u8>)
    requires
        one_liners(lines),
    ensures
        texts(image(lines) + rest) == (lines + texts(rest).0, texts(rest).1),
    decreases lines.len(),
{
    let bytes = image(lines) + rest;
    if lines.len() == 0 {
        assert(bytes =~= rest);
        assert(lines + texts(rest).0 =~= texts(rest).0);
    } else {
        let first = lines[0];
        let others = lines.skip(1);
        let n = first.len() as int;
        assert forall|i: int, j: int| 0 <= i < others.len() && 0 <= j < others[i].len() implies
            #[trigger] others[i][j] != 10 by {
            assert(lines[i + 1][j] != 10);
        }
        law_lines_in_front_stay(others, rest);
        assert forall|j: int| 0 <= j < n implies #[trigger] bytes[j] != 10 by {
            assert(bytes[j] == lines[0][j]);
        }
        lemma_newline_is(bytes, 0, n);
        assert(bytes.take(n) =~= first);
        assert(bytes.skip(n + 1) =~= image(others) + rest);
        assert(seq![first] + (others + texts(rest).0) =~= lines + texts(rest).0);
    }
}

/// A write that is interrupted anywhere leaves a number of whole lines and, at
/// most, the beginning of the next: recovery reads those lines and knows where
/// to cut.
pub proof fn law_torn_write_leaves_whole_lines(lines: Seq<Seq<u8>>, cut: int)
    requires
        one_liners(lines),
        0 <= cut <= image(lines).len(),
    ensures
        ({
            let (whole, tail) = texts(image(lines).take(cut));
            &&& whole.len() <= lines.len()
            &&& whole == lines.take(whole.len() as int)
            &&& image(whole) + tail == image(lines).take(cut)
            &&& tail.len() > 0 ==> whole.len() < lines.len() && tail.len() <= lines[whole.len() as int].len()
                && tail == lines[whole.len() as int].take(tail.len() as int)
        }),
    decreases lines.len(),
{
    let bytes = image(lines).take(cut);
    if lines.len() == 0 {
        assert(lines.take(0) =~= Seq::empty());
        assert(bytes =~= Seq::empty());
    } else {
        let first = lines[0];
        let rest = lines.skip(1);
        let n = first.len() as int;
        assert forall|i: int, j: int| 0 <= i < rest.len() && 0 <= j < rest[i].len() implies
            #[trigger] rest[i][j] != 10 by {
            assert(lines[i + 1][j] != 10);
        }
        assert forall|j: int| 0 <= j < n && j < cut implies #[trigger] bytes[j] != 10 by {
            assert(bytes[j] == lines[0][j]);
        }
        if cut <= n {
            lemma_newline(bytes, 0);
            assert(texts(bytes).0 =~= lines.take(0));
            assert(image(texts(bytes).0) + bytes =~= bytes);
            assert(bytes =~= first.take(cut));
        } else {
            lemma_newline_is(bytes, 0, n);
            assert(bytes.take(n) =~= first);
            assert(bytes.skip(n + 1) =~= image(rest).take(cut - n - 1));
            law_torn_write_leaves_whole_lines(rest, cut - n - 1);
            let (more, tail) = texts(image(rest).take(cut - n - 1));
            let whole = seq![first] + more;
            assert(texts(bytes) == (whole, tail));
            assert(whole =~= lines.take(whole.len() as int));
            assert(whole.skip(1) =~= more);
            assert(whole[0] == first);
            assert(image(whole) == first.push(10u8) + image(more));
            assert(image(whole) + tail =~= first.push(10u8) + (image(more) + tail));
            assert(bytes =~= first.push(10u8) + image(rest).take(cut - n - 1));
            if tail.len() > 0 {
                assert(lines[whole.len() as int] == rest[more.len() as int]);
            }
        }
    }
}

/// A frame holds no newline if the entry's JSON holds none: frames are lines.
pub proof fn law_frames_are_lines(entry_json: Seq<u8>)
    requires
        forall|i: int| 0 <= i < entry_json.len() ==> #[trigger] entry_json[i] != 10,
    ensures
        forall|i: int| 0 <= i < framed(entry_json).len() ==> #[trigger] framed(entry_json)[i] != 10,
{
    reveal_strlit("{\"crc\":");
    reveal_strlit(",\"entry\":");
    reveal_strlit("}");
    let digits = decimal(crc32_of(entry_json) as nat);
    crate::text::law_decimal_reads_back(crc32_of(entry_json) as nat);
    lemma_ascii_line("{\"crc\":"@);
    lemma_ascii_line(digits);
    lemma_ascii_line(",\"entry\":"@);
    lemma_ascii_line("}"@);
}

/// Printable text has no newline among its bytes.
proof fn lemma_ascii_line(chars: Seq<char>)
    requires
        forall|i: int| 0 <= i < chars.len() ==> ' ' <= #[trigger] chars[i] <= '~',
    ensures
        forall|i: int|
            0 <= i < encode_utf8(chars).len() ==> #[trigger] encode_utf8(chars)[i] != 10,
{
    vstd::utf8::is_ascii_chars_encode_utf8(chars);
}

/// A frame that reads as what was written passes, in its place; and one whose
/// checksum belongs to other bytes does not.
pub proof fn law_written_frames_pass(frame: ParsedFrame, prev_index: LogIndex)
    requires
        prev_index < u64::MAX,
        frame.entry.index == prev_index + 1,
    ensures
        frame_fault(Ok(frame), prev_index as int) is None <==> frame.crc == crc32_of(
            frame.entry_json@,
        ),
{
}

/// What is written to the log is recovered from it, wherever the writing breaks
/// off: the lines that are read back are the frames of the first entries, all of
/// them if nothing is missing, and each such frame, read as what was written,
/// passes in its place.
pub proof fn law_log_reads_back(
    entries: Seq<Entry>,
    jsons: Seq<Vec<u8>>,
    read: Seq<Result<ParsedFrame, FrameFault>>,
    cut: int,
)
    requires
        types::contiguous(entries),
        entries.len() == jsons.len(),
        entries.len() == read.len(),
        forall|i: int, j: int|
            0 <= i < jsons.len() && 0 <= j < jsons[i]@.len() ==> #[trigger] jsons[i]@[j] != 10,
        forall|i: int|
            0 <= i < read.len() ==> {
                &&& (#[trigger] read[i]) matches Ok(f)
                &&& f.entry == entries[i]
                &&& f.entry_json@ == jsons[i]@
                &&& f.crc == crc32_of(jsons[i]@)
            },
        0 <= cut <= image(frames(jsons)).len(),
    ensures
        ({
            let (whole, tail) = texts(image(frames(jsons)).take(cut));
            &&& whole.len() <= entries.len()
            &&& whole == frames(jsons).take(whole.len() as int)
            &&& cut == image(frames(jsons)).len() ==> whole.len() == entries.len() && tail.len() == 0
        }),
        forall|i: int| 0 <= i < read.len() ==> frame_fault(#[trigger] read[i], i) is None,
{
    let lines = frames(jsons);
    assert forall|i: int, j: int| 0 <= i < lines.len() && 0 <= j < lines[i].len() implies
        #[trigger] lines[i][j] != 10 by {
        let json = jsons[i]@;
        assert forall|k: int| 0 <= k < json.len() implies #[trigger] json[k] != 10 by {
            assert(jsons[i]@[k] != 10);
        }
        law_frames_are_lines(json);
    }
    law_torn_write_leaves_whole_lines(lines, cut);
    if cut == image(lines).len() {
        law_lines_read_back(lines);
        assert(image(lines).take(cut) =~= image(lines));
    }
    assert forall|i: int| 0 <= i < read.len() implies frame_fault(
        #[trigger] read[i],
        i,
    ) is None by {
        assert(entries[i].index == i + 1);
    }
}

/// A log line holds the entry's JSON as it is, behind its checksum in decimal, in
/// one JSON object.
pub proof fn law_a_frame_holds_checksum_and_entry(json: Seq<u8>)
    ensures
        exists|digits: Seq<char>|
            {
                &&& crate::text::number(digits) == crc32_of(json)
                &&& framed(json) == encode_utf8("{\"crc\":"@) + #[trigger] encode_utf8(digits)
                    + encode_utf8(",\"entry\":"@) + json + encode_utf8("}"@)
            },
{
    let digits = decimal(crc32_of(json) as nat);
    crate::text::law_decimal_reads_back(crc32_of(json) as nat);
    assert(framed(json) == encode_utf8("{\"crc\":"@) + encode_utf8(digits) + encode_utf8(
        ",\"entry\":"@,
    ) + json + encode_utf8("}"@));
}

/// The lines of a file, each with its newline, and what is left behind them are
/// the file; no line holds a newline, and neither does what is left.
pub proof fn law_lines_and_tail_are_the_file(bytes: Seq<u8>)
    ensures
        image(texts(bytes).0) + texts(bytes).1 == bytes,
        one_liners(texts(bytes).0),
        forall|i: int| 0 <= i < texts(bytes).1.len() ==> #[trigger] texts(bytes).1[i] != 10,
    decreases bytes.len(),
{
    lemma_newline(bytes, 0);
    match newline_from(bytes, 0) {
        Some(at) => {
            let rest = bytes.skip(at + 1);
            law_lines_and_tail_are_the_file(rest);
            let (more, tail) = texts(rest);
            let first = bytes.take(at);
            let lines = seq![first] + more;
            assert(lines.skip(1) =~= more);
            assert(image(lines) == first.push(10u8) + image(more));
            assert(bytes =~= first.push(10u8) + rest);
            assert(image(lines) + tail =~= first.push(10u8) + (image(more) + tail));
            assert forall|i: int, j: int| 0 <= i < lines.len() && 0 <= j < lines[i].len() implies
                #[trigger] lines[i][j] != 10 by {
                if i == 0 {
                    assert(bytes[j] != 10);
                } else {
                    assert(lines[i] == more[i - 1]);
                    assert(more[i - 1][j] != 10);
                }
            }
        },
        None => {
            assert(image(texts(bytes).0) + bytes =~= bytes);
        },
    }
}

/// A frame passes just where it could be read, its checksum is that of its entry,
/// and its index is the next; what is wrong first is what is told.
pub proof fn law_only_sound_frames_pass(frame: Result<ParsedFrame, FrameFault>, prev_index: LogIndex)
    ensures
        frame_fault(frame, prev_index as int) is None <==> (frame matches Ok(f) && f.crc
            == crc32_of(f.entry_json@) && f.entry.index == prev_index + 1),
        frame matches Err(fault) ==> frame_fault(frame, prev_index as int) == Some(fault),
        frame matches Ok(f) ==> {
            &&& f.crc != crc32_of(f.entry_json@) ==> frame_fault(frame, prev_index as int) == Some(
                FrameFault::CrcMismatch { stored: f.crc, computed: crc32_of(f.entry_json@) },
            )
            &&& f.crc == crc32_of(f.entry_json@) && f.entry.index != prev_index + 1 ==> frame_fault(
                frame,
                prev_index as int,
            ) == Some(FrameFault::IndexGap { index: f.entry.index, prev_index })
        },
{
}

/// Whether a frame could be read, holds the checksum of its entry, and stands in
/// its place, which is the `i`-th from 0.
pub open spec fn sound_frame(frame: Result<ParsedFrame, FrameFault>, i: int) -> bool {
    frame matches Ok(f) && f.crc == crc32_of(f.entry_json@) && f.entry.index == i + 1
}

/// A log is recovered just where all its frames are sound, and as the entries of
/// all of them, in order; else the first that is not sound is reported, by where
/// its line begins.
pub proof fn law_a_log_is_recovered_whole_or_not_at_all(
    lines: Seq<Line>,
    frames: Seq<Result<ParsedFrame, FrameFault>>,
    out: Result<Vec<Entry>, Corruption>,
)
    requires
        log_recovered(lines, frames, out),
    ensures
        out is Ok <==> forall|i: int|
            0 <= i < frames.len() ==> sound_frame(#[trigger] frames[i], i),
        out matches Ok(entries) ==> entries@.len() == frames.len() && forall|i: int|
            0 <= i < frames.len() ==> (frames[i] matches Ok(f) && #[trigger] entries@[i] == f.entry),
        out matches Err(c) ==> exists|k: int|
            {
                &&& 0 <= k < frames.len()
                &&& c.offset == lines[k].start
                &&& !sound_frame(#[trigger] frames[k], k)
                &&& forall|i: int| 0 <= i < k ==> sound_frame(#[trigger] frames[i], i)
            },
{
    if let Err(c) = out {
        let k = choose|k: int|
            {
                &&& 0 <= k < frames.len()
                &&& c.offset == lines[k].start
                &&& #[trigger] frame_fault(frames[k], k) == Some(c.fault)
                &&& forall|i: int| 0 <= i < k ==> frame_fault(#[trigger] frames[i], i) is None
            };
        assert(!sound_frame(frames[k], k));
    }
}

/// Of a log that runs 1, 2, 3 and so on, a truncation leaves the entries before the
/// index, all of them and no others.
pub proof fn law_a_truncation_leaves_the_front(log: Seq<Entry>, from: LogIndex, out: Seq<Entry>)
    requires
        types::contiguous(log),
        1 <= from,
        survived(log, from, out),
    ensures
        out == if from <= log.len() {
            log.take(from - 1)
        } else {
            log
        },
{
    law_survivors_are_the_prefix(log, from);
}

/// One entry more is one line more at the end, and the lines in front stay.
pub proof fn law_every_entry_has_its_line(jsons: Seq<Vec<u8>>, json: Vec<u8>)
    ensures
        image(frames(jsons.push(json))) == image(frames(jsons)) + framed(json@).push(10u8),
        image(frames(Seq::<Vec<u8>>::empty())) == Seq::<u8>::empty(),
{
    lemma_image_push(frames(jsons), framed(json@));
    assert(frames(jsons.push(json)) =~= frames(jsons).push(framed(json@)));
    assert(frames(Seq::<Vec<u8>>::empty()) =~= Seq::empty());
}

/// Lines are seen one by one, from where they begin to where they end.
pub proof fn law_lines_are_seen_as_they_are(lines: Seq<Line>, i: int)
    requires
        0 <= i < lines.len(),
    ensures
        ranges(lines).len() == lines.len(),
        ranges(lines)[i] == (lines[i].start as int, lines[i].end as int),
{
}

/// A fault is told with what was found: the parser's words, the two checksums, or
/// the index with the one before it.
pub proof fn law_a_fault_is_told_with_what_was_found(fault: FrameFault)
    ensures
        match fault {
            FrameFault::Unparseable(e) => "unparseable frame: "@.is_prefix_of(fault_words(fault))
                && e@.is_suffix_of(fault_words(fault)),
            FrameFault::ReserializeFailed(e) => "re-serialize failed: "@.is_prefix_of(
                fault_words(fault),
            ) && e@.is_suffix_of(fault_words(fault)),
            FrameFault::CrcMismatch { stored, computed } => {
                &&& ("crc mismatch: stored "@ + decimal(stored as nat)).is_prefix_of(
                    fault_words(fault),
                )
                &&& (", computed "@ + decimal(computed as nat)).is_suffix_of(fault_words(fault))
            },
            FrameFault::IndexGap { index, prev_index } => {
                &&& ("index gap: "@ + decimal(index as nat)).is_prefix_of(fault_words(fault))
                &&& (" follows "@ + decimal(prev_index as nat)).is_suffix_of(fault_words(fault))
            },
        },
{
    let words = fault_words(fault);
    match fault {
        FrameFault::Unparseable(e) => {
            assert(words.skip(words.len() - e@.len()) =~= e@);
        },
        FrameFault::ReserializeFailed(e) => {
            assert(words.skip(words.len() - e@.len()) =~= e@);
        },
        FrameFault::CrcMismatch { stored, computed } => {
            let end = ", computed "@ + decimal(computed as nat);
            assert(words.skip(words.len() - end.len()) =~= end);
        },
        FrameFault::IndexGap { index, prev_index } => {
            let end = " follows "@ + decimal(prev_index as nat);
            assert(words.skip(words.len() - end.len()) =~= end);
        },
    }
}

/// A frame with one damaged byte in its entry never passes, wherever the byte
/// stands and however long the entry is.
pub proof fn law_a_damaged_entry_is_refused(
    frame: ParsedFrame,
    json: Seq<u8>,
    at: int,
    byte: u8,
    prev_index: LogIndex,
)
    requires
        frame.crc == crc32_of(json),
        0 <= at < json.len(),
        byte != json[at],
        frame.entry_json@ == json.update(at, byte),
    ensures
        frame_fault(Ok(frame), prev_index as int) is Some,
{
    crate::crc::law_a_damaged_byte_changes_the_checksum(json, at, byte);
}

} // verus!
