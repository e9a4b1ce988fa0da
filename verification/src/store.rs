//! The files of a node's data directory: in which steps they are written, and
//! what is read back from them, wherever a step breaks off.
//!
//! The hard state is replaced as a whole: a new file is written, and then renamed
//! over the old one. So is the log where it is truncated; otherwise lines are
//! appended to it.

use vstd::prelude::*;
use vstd::string::StringExecFns;

use crate::crc::crc32_of;
use crate::storage;
use crate::storage::{
    frame_fault, framed, image, lines_from, one_liners, texts, FrameFault, ParsedFrame,
};
use crate::types;
use crate::types::{Entry, EntryView, HardState, LogIndex};

verus! {

/// The files of a data directory.
#[derive(Clone, Copy, Debug, PartialEq, Eq)]
pub enum FileName {
    HardState,
    /// A hard state that is about to replace the other.
    HardStateNew,
    Log,
    /// A log that is about to replace the other.
    LogNew,
}

/// What is done to the files, step by step.
#[derive(Debug)]
pub enum FileStep {
    /// Create the file, or empty it, write the bytes and sync them.
    Replace { file: FileName, bytes: Vec<u8> },
    /// Create the file if it is missing, append the bytes and sync them.
    Append { file: FileName, bytes: Vec<u8> },
    /// Put the one file in the other's place.
    Rename { from: FileName, to: FileName },
    Remove { file: FileName },
    /// Cut the file off after so many bytes and sync it.
    Cut { file: FileName, len: usize },
}

/// A step with its bytes as a mathematical sequence.
#[verifier::ext_equal]
pub enum StepView {
    Replace { file: FileName, bytes: Seq<u8> },
    Append { file: FileName, bytes: Seq<u8> },
    Rename { from: FileName, to: FileName },
    Remove { file: FileName },
    Cut { file: FileName, len: int },
}

impl View for FileStep {
    type V = StepView;

    open spec fn view(&self) -> StepView {
        match *self {
            FileStep::Replace { file, bytes } => StepView::Replace { file, bytes: bytes@ },
            FileStep::Append { file, bytes } => StepView::Append { file, bytes: bytes@ },
            FileStep::Rename { from, to } => StepView::Rename { from, to },
            FileStep::Remove { file } => StepView::Remove { file },
            FileStep::Cut { file, len } => StepView::Cut { file, len: len as int },
        }
    }
}

/// Steps as mathematical values.
pub open spec fn steps_view(steps: Seq<FileStep>) -> Seq<StepView> {
    steps.map_values(|s: FileStep| s@)
}

/// How a hard state, given as its JSON, is saved.
pub open spec fn save_plan(json: Seq<u8>) -> Seq<StepView> {
    seq![
        StepView::Replace { file: FileName::HardStateNew, bytes: json },
        StepView::Rename { from: FileName::HardStateNew, to: FileName::HardState },
    ]
}

/// The steps that save a hard state, given as its JSON. If one fails the others
/// must not be taken.
pub fn save_steps(json: Vec<u8>) -> (steps: Vec<FileStep>)
    ensures
        steps_view(steps@) == save_plan(json@),
{
    let steps: Vec<FileStep> = vec![
        FileStep::Replace { file: FileName::HardStateNew, bytes: json },
        FileStep::Rename { from: FileName::HardStateNew, to: FileName::HardState },
    ];
    assert(steps_view(steps@) =~= save_plan(json@));
    steps
}

/// How lines are appended to the log, once it has been replaced by `rewritten`,
/// if it is truncated.
pub open spec fn append_plan(rewritten: Option<Seq<u8>>, lines: Seq<u8>) -> Seq<StepView> {
    let rewrite = match rewritten {
        Some(bytes) => seq![
            StepView::Replace { file: FileName::LogNew, bytes },
            StepView::Rename { from: FileName::LogNew, to: FileName::Log },
        ],
        None => Seq::empty(),
    };
    let append = if lines.len() > 0 {
        seq![StepView::Append { file: FileName::Log, bytes: lines }]
    } else {
        Seq::empty()
    };
    rewrite + append
}

/// The steps that append lines to the log. Where it is truncated, `rewritten`
/// holds the lines that stay. If a step fails the others must not be taken.
pub fn append_steps(rewritten: Option<Vec<u8>>, lines: Vec<u8>) -> (steps: Vec<FileStep>)
    ensures
        steps_view(steps@) == append_plan(
            match rewritten {
                Some(bytes) => Some(bytes@),
                None => None,
            },
            lines@,
        ),
{
    let mut steps: Vec<FileStep> = Vec::new();
    if let Some(bytes) = rewritten {
        steps.push(FileStep::Replace { file: FileName::LogNew, bytes });
        steps.push(FileStep::Rename { from: FileName::LogNew, to: FileName::Log });
    }
    if lines.len() > 0 {
        steps.push(FileStep::Append { file: FileName::Log, bytes: lines });
    }
    assert(steps_view(steps@) =~= append_plan(
        match rewritten {
            Some(bytes) => Some(bytes@),
            None => None,
        },
        lines@,
    ));
    steps
}

/// How a hard state that was about to replace the other is dealt with when the
/// directory is opened.
pub open spec fn orphan_plan(left: bool) -> Seq<StepView> {
    if left {
        seq![StepView::Remove { file: FileName::HardStateNew }]
    } else {
        Seq::empty()
    }
}

/// A hard state that is still there to replace the other was never put in its
/// place: it must not be trusted, and goes.
pub fn orphan_steps(left: bool) -> (steps: Vec<FileStep>)
    ensures
        steps_view(steps@) == orphan_plan(left),
{
    let mut steps: Vec<FileStep> = Vec::new();
    if left {
        steps.push(FileStep::Remove { file: FileName::HardStateNew });
    }
    assert(steps_view(steps@) =~= orphan_plan(left));
    steps
}

/// How an unterminated last line of the log is dealt with.
pub open spec fn tail_plan(tail: Option<int>) -> Seq<StepView> {
    match tail {
        Some(at) => seq![StepView::Cut { file: FileName::Log, len: at }],
        None => Seq::empty(),
    }
}

/// An unterminated last line of the log, which begins at `tail`, is cut off.
pub fn tail_steps(tail: Option<usize>) -> (steps: Vec<FileStep>)
    ensures
        steps_view(steps@) == tail_plan(
            match tail {
                Some(at) => Some(at as int),
                None => None,
            },
        ),
{
    let mut steps: Vec<FileStep> = Vec::new();
    if let Some(at) = tail {
        steps.push(FileStep::Cut { file: FileName::Log, len: at });
    }
    assert(steps_view(steps@) =~= tail_plan(
        match tail {
            Some(at) => Some(at as int),
            None => None,
        },
    ));
    steps
}

/// The hard state of a directory that has none yet.
pub open spec fn no_hard_state() -> HardState {
    HardState { current_term: 0, voted_for: None }
}

/// Whether this is what a directory's hard state comes to that was read so.
pub open spec fn hard_recovered(
    read: Option<Result<HardState, String>>,
    out: Result<HardState, String>,
) -> bool {
    match read {
        None => out matches Ok(hard) && hard == no_hard_state(),
        Some(Ok(found)) => out matches Ok(hard) && hard == found,
        Some(Err(e)) => out matches Err(why) && why@ == "hardstate.json corrupt: "@ + e@,
    }
}

/// The hard state of a directory, from what its file was read as, if there is
/// one. A file that cannot be read is not made up for.
pub fn recover_hard_state(read: Option<Result<HardState, String>>) -> (out: Result<
    HardState,
    String,
>)
    ensures
        match read {
            None => out matches Ok(hard) && hard == no_hard_state(),
            Some(Ok(found)) => out matches Ok(hard) && hard == found,
            Some(Err(e)) => out matches Err(why) && why@ == "hardstate.json corrupt: "@ + e@,
        },
        hard_recovered(read, out),
{
    match read {
        None => Ok(HardState { current_term: 0, voted_for: None }),
        Some(Ok(found)) => Ok(found),
        Some(Err(e)) => {
            let mut why = "hardstate.json corrupt: ".to_owned();
            why.append(e.as_str());
            Err(why)
        },
    }
}

/// What a file holds, nothing if it is missing.
pub open spec fn held(files: Map<FileName, Seq<u8>>, file: FileName) -> Seq<u8> {
    if files.contains_key(file) {
        files[file]
    } else {
        Seq::empty()
    }
}

/// The files once the step is done.
pub open spec fn done(files: Map<FileName, Seq<u8>>, step: StepView) -> Map<FileName, Seq<u8>> {
    match step {
        StepView::Replace { file, bytes } => files.insert(file, bytes),
        StepView::Append { file, bytes } => files.insert(file, held(files, file) + bytes),
        StepView::Rename { from, to } => if files.contains_key(from) {
            files.remove(from).insert(to, files[from])
        } else {
            files
        },
        StepView::Remove { file } => files.remove(file),
        StepView::Cut { file, len } => if files.contains_key(file) && 0 <= len
            <= files[file].len() {
            files.insert(file, files[file].take(len))
        } else {
            files
        },
    }
}

/// The files once all the steps are done.
pub open spec fn all_done(files: Map<FileName, Seq<u8>>, steps: Seq<StepView>) -> Map<
    FileName,
    Seq<u8>,
>
    decreases steps.len(),
{
    if steps.len() == 0 {
        files
    } else {
        done(all_done(files, steps.drop_last()), steps.last())
    }
}

/// What a step can leave that breaks off: everything as it was, or, where bytes
/// are written, a part of them.
pub open spec fn breaks(
    files: Map<FileName, Seq<u8>>,
    step: StepView,
    left: Map<FileName, Seq<u8>>,
) -> bool {
    ||| left == files
    ||| match step {
        StepView::Replace { file, bytes } => exists|cut: int|
            0 <= cut <= bytes.len() && left == files.insert(file, #[trigger] bytes.take(cut)),
        StepView::Append { file, bytes } => exists|cut: int|
            0 <= cut <= bytes.len() && left == files.insert(
                file,
                held(files, file) + #[trigger] bytes.take(cut),
            ),
        _ => false,
    }
}

/// What steps can leave of which one breaks off.
pub open spec fn broken_off(
    files: Map<FileName, Seq<u8>>,
    steps: Seq<StepView>,
    left: Map<FileName, Seq<u8>>,
) -> bool {
    exists|k: int|
        0 <= k < steps.len() && #[trigger] breaks(all_done(files, steps.take(k)), steps[k], left)
}

/// How entries and hard states are written as JSON, and how a line of the log
/// and a hard state are read.
pub struct Codec {
    pub entry: spec_fn(EntryView) -> Seq<u8>,
    pub read: spec_fn(Seq<u8>) -> Result<ParsedFrame, FrameFault>,
    pub hard: spec_fn(HardState) -> Seq<u8>,
    pub read_hard: spec_fn(Seq<u8>) -> Option<HardState>,
}

/// The entry takes one line, and is read as what was written.
pub open spec fn legible(c: Codec, e: EntryView) -> bool {
    let json = (c.entry)(e);
    &&& forall|i: int| 0 <= i < json.len() ==> #[trigger] json[i] != 10
    &&& (c.read)(framed(json)) matches Ok(f) && f.entry@ == e && f.entry_json@ == json && f.crc
        == crc32_of(json)
}

/// The hard state is read as what was written.
pub open spec fn legible_hard(c: Codec, h: HardState) -> bool {
    (c.read_hard)((c.hard)(h)) == Some(h)
}

/// The frames of the entries.
pub open spec fn lines_of(c: Codec, log: Seq<EntryView>) -> Seq<Seq<u8>> {
    log.map_values(|e: EntryView| framed((c.entry)(e)))
}

/// The log as it stands in its file.
pub open spec fn stored(c: Codec, log: Seq<EntryView>) -> Seq<u8> {
    image(lines_of(c, log))
}

/// The entries that the log's file is recovered as: those of its whole lines, if
/// each of them passes in its place.
pub open spec fn recovered(c: Codec, files: Map<FileName, Seq<u8>>) -> Option<Seq<EntryView>> {
    let lines = texts(held(files, FileName::Log)).0;
    if forall|i: int| 0 <= i < lines.len() ==> frame_fault((c.read)(#[trigger] lines[i]), i) is None {
        Some(lines.map_values(|line: Seq<u8>| (c.read)(line)->Ok_0.entry@))
    } else {
        None
    }
}

/// The hard state that the directory is recovered with.
pub open spec fn recovered_hard(c: Codec, files: Map<FileName, Seq<u8>>) -> Option<HardState> {
    if files.contains_key(FileName::HardState) {
        (c.read_hard)(files[FileName::HardState])
    } else {
        Some(no_hard_state())
    }
}

/// The entries that stay where the log is truncated.
pub open spec fn kept(log: Seq<EntryView>, truncate_from: Option<LogIndex>) -> Seq<EntryView> {
    match truncate_from {
        Some(from) => log.filter(|e: EntryView| e.index < from),
        None => log,
    }
}

/// What a node has stored.
#[verifier::ext_equal]
pub struct Stored {
    pub hard: HardState,
    pub log: Seq<EntryView>,
}

/// Nothing stored yet.
pub open spec fn nothing_stored() -> Stored {
    Stored { hard: no_hard_state(), log: Seq::empty() }
}

/// The indices run 1, 2, 3 and so on.
pub open spec fn in_sequence(log: Seq<EntryView>) -> bool {
    forall|i: int| 0 <= i < log.len() ==> (#[trigger] log[i]).index == i + 1
}

pub open spec fn all_legible(c: Codec, log: Seq<EntryView>) -> bool {
    forall|i: int| 0 <= i < log.len() ==> legible(c, #[trigger] log[i])
}

/// The files hold what is stored.
pub open spec fn holds(c: Codec, files: Map<FileName, Seq<u8>>, s: Stored) -> bool {
    &&& if files.contains_key(FileName::HardState) {
        files[FileName::HardState] == (c.hard)(s.hard) && legible_hard(c, s.hard)
    } else {
        s.hard == no_hard_state()
    }
    &&& held(files, FileName::Log) == stored(c, s.log)
    &&& all_legible(c, s.log)
    &&& in_sequence(s.log)
}

/// What happens to a store.
pub enum StoreEvent {
    Saved { hard: HardState },
    /// The hard state could not be saved.
    SaveFailed { hard: HardState },
    Appended { truncate_from: Option<LogIndex>, entries: Seq<EntryView> },
    /// The entries could not be written, and the directory has been opened again.
    AppendFailed { truncate_from: Option<LogIndex>, entries: Seq<EntryView> },
    Opened,
}

/// How entries are appended to what is stored.
pub open spec fn entries_plan(
    c: Codec,
    files: Map<FileName, Seq<u8>>,
    truncate_from: Option<LogIndex>,
    entries: Seq<EntryView>,
) -> Seq<StepView> {
    append_plan(
        if truncate_from is Some {
            Some(stored(c, kept(recovered(c, files)->0, truncate_from)))
        } else {
            None
        },
        stored(c, entries),
    )
}

/// The files once the directory has been opened.
pub open spec fn opened(files: Map<FileName, Seq<u8>>) -> Map<FileName, Seq<u8>> {
    let cleared = all_done(files, orphan_plan(files.contains_key(FileName::HardStateNew)));
    all_done(cleared, tail_plan(lines_from(held(cleared, FileName::Log), 0).1))
}

/// Whether the event leaves these files.
pub open spec fn leads_to(
    c: Codec,
    files: Map<FileName, Seq<u8>>,
    event: StoreEvent,
    left: Map<FileName, Seq<u8>>,
) -> bool {
    match event {
        StoreEvent::Saved { hard } => left == all_done(files, save_plan((c.hard)(hard))),
        StoreEvent::SaveFailed { hard } => broken_off(files, save_plan((c.hard)(hard)), left),
        StoreEvent::Appended { truncate_from, entries } => left == all_done(
            files,
            entries_plan(c, files, truncate_from, entries),
        ),
        StoreEvent::AppendFailed { truncate_from, entries } => exists|torn: Map<FileName, Seq<u8>>|
            {
                &&& #[trigger] broken_off(
                    files,
                    entries_plan(c, files, truncate_from, entries),
                    torn,
                )
                &&& left == opened(torn)
            },
        StoreEvent::Opened => left == opened(files),
    }
}

/// What is written can be read, and the log stays in sequence.
pub open spec fn proper(c: Codec, s: Stored, event: StoreEvent) -> bool {
    match event {
        StoreEvent::Saved { hard } => legible_hard(c, hard),
        StoreEvent::Appended { truncate_from, entries }
        | StoreEvent::AppendFailed { truncate_from, entries } => all_legible(c, entries)
            && in_sequence(kept(s.log, truncate_from) + entries),
        _ => true,
    }
}

/// What is stored can become of the event: a hard state that could not be saved
/// does not count; of entries that could not be written, some of the first may
/// have been, and the log may have been truncated or not.
pub open spec fn becomes(s: Stored, event: StoreEvent, t: Stored) -> bool {
    match event {
        StoreEvent::Saved { hard } => t == (Stored { hard, ..s }),
        StoreEvent::SaveFailed { .. } => t == s,
        StoreEvent::Appended { truncate_from, entries } => t == (Stored {
            log: kept(s.log, truncate_from) + entries,
            ..s
        }),
        StoreEvent::AppendFailed { truncate_from, entries } => t == s || exists|n: int|
            0 <= n <= entries.len() && t == (Stored {
                log: kept(s.log, truncate_from) + #[trigger] entries.take(n),
                ..s
            }),
        StoreEvent::Opened => t == s,
    }
}

/// What survives a truncation, by what it holds.
pub proof fn law_survivors_are_what_is_kept(log: Seq<Entry>, from: LogIndex)
    ensures
        types::log_view(log.filter(|e: Entry| e.index < from)) == kept(
            types::log_view(log),
            Some(from),
        ),
    decreases log.len(),
{
    reveal(Seq::filter);
    let all = types::log_view(log);
    if log.len() > 0 {
        law_survivors_are_what_is_kept(log.drop_last(), from);
        assert(types::log_view(log.drop_last()) =~= all.drop_last());
        assert(all.last() == log.last()@);
    }
    assert(types::log_view(log.filter(|e: Entry| e.index < from)) =~= kept(all, Some(from)));
}

/// What is kept was there.
proof fn lemma_kept_legible(c: Codec, log: Seq<EntryView>, truncate_from: Option<LogIndex>)
    requires
        all_legible(c, log),
    ensures
        all_legible(c, kept(log, truncate_from)),
    decreases log.len(),
{
    reveal(Seq::filter);
    if log.len() > 0 {
        lemma_kept_legible(c, log.drop_last(), truncate_from);
        assert(legible(c, log.last()));
    }
}

/// Legible entries take a line each.
proof fn lemma_legible_lines(c: Codec, log: Seq<EntryView>)
    requires
        all_legible(c, log),
    ensures
        one_liners(lines_of(c, log)),
{
    let lines = lines_of(c, log);
    assert forall|i: int, j: int| 0 <= i < lines.len() && 0 <= j < lines[i].len() implies
        #[trigger] lines[i][j] != 10 by {
        assert(legible(c, log[i]));
        storage::law_frames_are_lines((c.entry)(log[i]));
    }
}

/// Two parts of a log are stored one behind the other.
proof fn lemma_stored_adds_up(c: Codec, a: Seq<EntryView>, b: Seq<EntryView>)
    ensures
        stored(c, a + b) == stored(c, a) + stored(c, b),
{
    storage::law_images_add_up(lines_of(c, a), lines_of(c, b));
    assert(lines_of(c, a + b) =~= lines_of(c, a) + lines_of(c, b));
}

/// What the files hold is what they are recovered as: hard state and log.
pub proof fn law_what_is_stored_is_recovered(c: Codec, files: Map<FileName, Seq<u8>>, s: Stored)
    requires
        holds(c, files, s),
    ensures
        recovered(c, files) == Some(s.log),
        recovered_hard(c, files) == Some(s.hard),
        texts(held(files, FileName::Log)) == (lines_of(c, s.log), Seq::<u8>::empty()),
{
    let lines = lines_of(c, s.log);
    lemma_legible_lines(c, s.log);
    storage::law_lines_read_back(lines);
    assert forall|i: int| 0 <= i < lines.len() implies frame_fault(
        (c.read)(#[trigger] lines[i]),
        i,
    ) is None by {
        assert(legible(c, s.log[i]));
        assert(s.log[i].index == i + 1);
    }
    assert(recovered(c, files)->0 =~= s.log) by {
        assert forall|i: int| 0 <= i < lines.len() implies (c.read)(
            #[trigger] lines[i],
        )->Ok_0.entry@ == s.log[i] by {
            assert(legible(c, s.log[i]));
        }
    }
}

/// Opening a directory leaves its hard state alone, and cuts the log off behind
/// its last whole line.
proof fn lemma_opened(files: Map<FileName, Seq<u8>>)
    ensures
        ({
            let (whole, tail) = texts(held(files, FileName::Log));
            let t = opened(files);
            &&& t.contains_key(FileName::HardState) == files.contains_key(FileName::HardState)
            &&& t.contains_key(FileName::HardState) ==> t[FileName::HardState]
                == files[FileName::HardState]
            &&& !t.contains_key(FileName::HardStateNew)
            &&& held(t, FileName::Log) == held(files, FileName::Log).take(
                held(files, FileName::Log).len() - tail.len(),
            )
        }),
{
    let orphan = files.contains_key(FileName::HardStateNew);
    let cleared = all_done(files, orphan_plan(orphan));
    reveal_with_fuel(all_done, 2);
    if orphan {
        assert(orphan_plan(orphan).drop_last() =~= Seq::empty());
    }
    let bytes = held(files, FileName::Log);
    assert(held(cleared, FileName::Log) == bytes);
    storage::lemma_ranges_hold_texts(bytes, 0);
    assert(bytes.skip(0) =~= bytes);
    let tail = lines_from(bytes, 0).1;
    match tail {
        Some(at) => {
            assert(tail_plan(tail).drop_last() =~= Seq::empty());
            assert(bytes.skip(at).len() == bytes.len() - at);
        },
        None => {
            assert(bytes.take(bytes.len() as int) =~= bytes);
        },
    }
}

/// Steps one behind the other.
proof fn lemma_all_done_push(files: Map<FileName, Seq<u8>>, steps: Seq<StepView>, step: StepView)
    ensures
        all_done(files, steps.push(step)) == done(all_done(files, steps), step),
{
    assert(steps.push(step).drop_last() =~= steps);
}

/// A new file has been written and put in the other's place.
proof fn lemma_replaced(
    files: Map<FileName, Seq<u8>>,
    new: FileName,
    file: FileName,
    bytes: Seq<u8>,
)
    requires
        new != file,
    ensures
        all_done(
            files,
            seq![StepView::Replace { file: new, bytes }, StepView::Rename { from: new, to: file }],
        ) == files.remove(new).insert(file, bytes),
{
    let none: Seq<StepView> = Seq::empty();
    let first = StepView::Replace { file: new, bytes };
    let second = StepView::Rename { from: new, to: file };
    lemma_all_done_push(files, none, first);
    lemma_all_done_push(files, none.push(first), second);
    assert(seq![first, second] =~= none.push(first).push(second));
    assert(files.insert(new, bytes).remove(new).insert(file, bytes) =~= files.remove(new).insert(
        file,
        bytes,
    ));
}

/// Replacing a file that breaks off leaves everything but the new file as it was.
proof fn lemma_not_replaced(
    files: Map<FileName, Seq<u8>>,
    steps: Seq<StepView>,
    new: FileName,
    file: FileName,
    bytes: Seq<u8>,
    k: int,
    left: Map<FileName, Seq<u8>>,
)
    requires
        steps.len() >= 2,
        steps[0] == (StepView::Replace { file: new, bytes }),
        steps[1] == (StepView::Rename { from: new, to: file }),
        0 <= k < 2,
        breaks(all_done(files, steps.take(k)), steps[k], left),
    ensures
        forall|f: FileName|
            f != new ==> #[trigger] left.contains_key(f) == files.contains_key(f) && (
            files.contains_key(f) ==> left[f] == files[f]),
{
    let none: Seq<StepView> = Seq::empty();
    if k == 0 {
        assert(steps.take(0) =~= none);
    } else {
        assert(steps.take(1) =~= none.push(steps[0]));
        lemma_all_done_push(files, none, steps[0]);
    }
}

/// The files hold what is stored if the two files do that count.
proof fn lemma_holds_still(
    c: Codec,
    files: Map<FileName, Seq<u8>>,
    left: Map<FileName, Seq<u8>>,
    s: Stored,
)
    requires
        holds(c, files, s),
        forall|f: FileName|
            f == FileName::HardState || f == FileName::Log ==> #[trigger] left.contains_key(f)
                == files.contains_key(f) && (files.contains_key(f) ==> left[f] == files[f]),
    ensures
        holds(c, left, s),
{
    assert(left.contains_key(FileName::HardState) == files.contains_key(FileName::HardState));
    assert(left.contains_key(FileName::Log) == files.contains_key(FileName::Log));
}

/// Opening a directory whose files hold what is stored changes none of it.
proof fn lemma_open_holds(c: Codec, files: Map<FileName, Seq<u8>>, s: Stored)
    requires
        holds(c, files, s),
    ensures
        holds(c, opened(files), s),
{
    law_what_is_stored_is_recovered(c, files, s);
    lemma_opened(files);
    let bytes = held(files, FileName::Log);
    assert(bytes.take(bytes.len() as int) =~= bytes);
}

/// Lines that were being appended when it broke off: some of the first are there
/// once the directory is opened.
proof fn lemma_torn(
    c: Codec,
    files: Map<FileName, Seq<u8>>,
    s: Stored,
    entries: Seq<EntryView>,
    left: Map<FileName, Seq<u8>>,
) -> (n: int)
    requires
        holds(c, files, s),
        all_legible(c, entries),
        in_sequence(s.log + entries),
        breaks(
            files,
            StepView::Append { file: FileName::Log, bytes: stored(c, entries) },
            left,
        ),
    ensures
        0 <= n <= entries.len(),
        holds(c, opened(left), Stored { log: s.log + entries.take(n), ..s }),
{
    if left == files {
        assert(s.log + entries.take(0) =~= s.log);
        lemma_open_holds(c, files, s);
        0
    } else {
        let front = lines_of(c, s.log);
        let lines = lines_of(c, entries);
        let bytes = image(lines);
        let cut = choose|cut: int|
            0 <= cut <= bytes.len() && left == files.insert(
                FileName::Log,
                held(files, FileName::Log) + #[trigger] bytes.take(cut),
            );
        lemma_legible_lines(c, s.log);
        lemma_legible_lines(c, entries);
        storage::law_lines_in_front_stay(front, bytes.take(cut));
        storage::law_torn_write_leaves_whole_lines(lines, cut);
        let (whole, tail) = texts(bytes.take(cut));
        let n = whole.len() as int;
        let some = entries.take(n);
        assert(whole =~= lines_of(c, some));
        lemma_opened(left);
        lemma_stored_adds_up(c, s.log, some);
        let file = held(left, FileName::Log);
        assert(file =~= (image(front) + image(whole)) + tail);
        assert(file.take(file.len() - tail.len()) =~= image(front) + image(whole));
        let log = s.log + some;
        assert forall|i: int| 0 <= i < log.len() implies legible(c, #[trigger] log[i]) by {
            if i < s.log.len() {
                assert(log[i] == s.log[i]);
            } else {
                assert(log[i] == entries[i - s.log.len()]);
            }
        }
        assert forall|i: int| 0 <= i < log.len() implies (#[trigger] log[i]).index == i + 1 by {
            assert(log[i] == (s.log + entries)[i]);
        }
        n
    }
}

/// The log's file has been replaced by what is kept, where it is truncated.
proof fn lemma_truncated(
    c: Codec,
    files: Map<FileName, Seq<u8>>,
    s: Stored,
    truncate_from: Option<LogIndex>,
    entries: Seq<EntryView>,
) -> (left: Map<FileName, Seq<u8>>)
    requires
        holds(c, files, s),
        in_sequence(kept(s.log, truncate_from) + entries),
    ensures
        holds(c, left, Stored { log: kept(s.log, truncate_from), ..s }),
        truncate_from is None ==> left == files,
        truncate_from is Some ==> left == all_done(
            files,
            entries_plan(c, files, truncate_from, entries).take(2),
        ),
        truncate_from is Some ==> entries_plan(c, files, truncate_from, entries).len() >= 2,
{
    let stays = kept(s.log, truncate_from);
    lemma_kept_legible(c, s.log, truncate_from);
    assert forall|i: int| 0 <= i < stays.len() implies (#[trigger] stays[i]).index == i + 1 by {
        assert(stays[i] == (stays + entries)[i]);
    }
    if truncate_from is Some {
        law_what_is_stored_is_recovered(c, files, s);
        let bytes = stored(c, stays);
        let steps = entries_plan(c, files, truncate_from, entries);
        let rewrite = seq![
            StepView::Replace { file: FileName::LogNew, bytes },
            StepView::Rename { from: FileName::LogNew, to: FileName::Log },
        ];
        assert(steps.take(2) =~= rewrite);
        lemma_replaced(files, FileName::LogNew, FileName::Log, bytes);
        all_done(files, rewrite)
    } else {
        files
    }
}

/// The last step appends the entries, where there are any.
proof fn lemma_append_is_last(
    c: Codec,
    files: Map<FileName, Seq<u8>>,
    truncate_from: Option<LogIndex>,
    entries: Seq<EntryView>,
)
    ensures
        ({
            let steps = entries_plan(c, files, truncate_from, entries);
            let rewrite = if truncate_from is Some {
                2int
            } else {
                0
            };
            if entries.len() > 0 {
                &&& steps.len() == rewrite + 1
                &&& steps.last() == (StepView::Append {
                    file: FileName::Log,
                    bytes: stored(c, entries),
                })
            } else {
                steps.len() == rewrite
            }
        }),
{
    if entries.len() > 0 {
        assert(lines_of(c, entries).len() == entries.len());
        assert(stored(c, entries).len() > 0);
    } else {
        assert(stored(c, entries) =~= Seq::empty());
    }
}

/// Entries that are appended are stored.
proof fn lemma_appended(
    c: Codec,
    files: Map<FileName, Seq<u8>>,
    s: Stored,
    truncate_from: Option<LogIndex>,
    entries: Seq<EntryView>,
)
    requires
        holds(c, files, s),
        all_legible(c, entries),
        in_sequence(kept(s.log, truncate_from) + entries),
    ensures
        holds(
            c,
            all_done(files, entries_plan(c, files, truncate_from, entries)),
            Stored { log: kept(s.log, truncate_from) + entries, ..s },
        ),
{
    let steps = entries_plan(c, files, truncate_from, entries);
    let left = lemma_truncated(c, files, s, truncate_from, entries);
    let stays = kept(s.log, truncate_from);
    lemma_append_is_last(c, files, truncate_from, entries);
    if entries.len() == 0 {
        assert(stays + entries =~= stays);
        if truncate_from is Some {
            assert(steps.take(2) =~= steps);
        }
        assert(all_done(files, steps) == left);
    } else {
        if truncate_from is Some {
            assert(steps.drop_last() =~= steps.take(2));
        }
        assert(all_done(files, steps.drop_last()) == left);
        assert(all_done(files, steps) == done(left, steps.last()));
        lemma_stored_adds_up(c, stays, entries);
        let log = stays + entries;
        assert forall|i: int| 0 <= i < log.len() implies legible(c, #[trigger] log[i]) by {
            if i < stays.len() {
                assert(log[i] == stays[i]);
            } else {
                assert(log[i] == entries[i - stays.len()]);
            }
        }
    }
}

/// Entries that could not be written: nothing has changed, or the log has been
/// truncated and some of the first entries are stored.
proof fn lemma_append_failed(
    c: Codec,
    files: Map<FileName, Seq<u8>>,
    s: Stored,
    truncate_from: Option<LogIndex>,
    entries: Seq<EntryView>,
    torn: Map<FileName, Seq<u8>>,
) -> (t: Stored)
    requires
        holds(c, files, s),
        all_legible(c, entries),
        in_sequence(kept(s.log, truncate_from) + entries),
        broken_off(files, entries_plan(c, files, truncate_from, entries), torn),
    ensures
        holds(c, opened(torn), t),
        becomes(s, StoreEvent::AppendFailed { truncate_from, entries }, t),
{
    let steps = entries_plan(c, files, truncate_from, entries);
    let k = choose|k: int|
        0 <= k < steps.len() && #[trigger] breaks(all_done(files, steps.take(k)), steps[k], torn);
    let stays = kept(s.log, truncate_from);
    lemma_append_is_last(c, files, truncate_from, entries);
    if truncate_from is Some && k < 2 {
        law_what_is_stored_is_recovered(c, files, s);
        lemma_not_replaced(
            files,
            steps,
            FileName::LogNew,
            FileName::Log,
            stored(c, stays),
            k,
            torn,
        );
        assert(torn.contains_key(FileName::HardState) == files.contains_key(FileName::HardState));
        assert(torn.contains_key(FileName::Log) == files.contains_key(FileName::Log));
        lemma_holds_still(c, files, torn, s);
        lemma_open_holds(c, torn, s);
        s
    } else {
        let left = lemma_truncated(c, files, s, truncate_from, entries);
        assert(truncate_from is None ==> steps.take(k) =~= Seq::empty());
        let n = lemma_torn(c, left, Stored { log: stays, ..s }, entries, torn);
        Stored { log: stays + entries.take(n), ..s }
    }
}

/// What is stored is what was written, also where writing fails: whatever
/// happens to a store, its files hold one of the things that can become of what
/// they held.
pub proof fn law_the_files_hold_what_was_written(
    c: Codec,
    files: Map<FileName, Seq<u8>>,
    s: Stored,
    event: StoreEvent,
    left: Map<FileName, Seq<u8>>,
) -> (t: Stored)
    requires
        holds(c, files, s),
        proper(c, s, event),
        leads_to(c, files, event, left),
    ensures
        holds(c, left, t),
        becomes(s, event, t),
{
    match event {
        StoreEvent::Saved { hard } => {
            lemma_replaced(files, FileName::HardStateNew, FileName::HardState, (c.hard)(hard));
            Stored { hard, ..s }
        },
        StoreEvent::SaveFailed { hard } => {
            let steps = save_plan((c.hard)(hard));
            let k = choose|k: int|
                0 <= k < steps.len() && #[trigger] breaks(
                    all_done(files, steps.take(k)),
                    steps[k],
                    left,
                );
            lemma_not_replaced(
                files,
                steps,
                FileName::HardStateNew,
                FileName::HardState,
                (c.hard)(hard),
                k,
                left,
            );
            assert(left.contains_key(FileName::HardState) == files.contains_key(
                FileName::HardState,
            ));
            assert(left.contains_key(FileName::Log) == files.contains_key(FileName::Log));
            lemma_holds_still(c, files, left, s);
            s
        },
        StoreEvent::Appended { truncate_from, entries } => {
            lemma_appended(c, files, s, truncate_from, entries);
            Stored { log: kept(s.log, truncate_from) + entries, ..s }
        },
        StoreEvent::AppendFailed { truncate_from, entries } => {
            let torn = choose|torn: Map<FileName, Seq<u8>>|
                {
                    &&& #[trigger] broken_off(
                        files,
                        entries_plan(c, files, truncate_from, entries),
                        torn,
                    )
                    &&& left == opened(torn)
                };
            lemma_append_failed(c, files, s, truncate_from, entries, torn)
        },
        StoreEvent::Opened => {
            lemma_open_holds(c, files, s);
            s
        },
    }
}

/// What is stored after the first `n` events, where no append fails: the hard
/// state last saved, and the log in which each append has dropped what it
/// truncates and added its entries.
pub open spec fn replayed(events: Seq<StoreEvent>, n: int) -> Stored
    decreases n,
{
    if n <= 0 {
        nothing_stored()
    } else {
        let s = replayed(events, n - 1);
        match events[n - 1] {
            StoreEvent::Saved { hard } => Stored { hard, ..s },
            StoreEvent::Appended { truncate_from, entries } => Stored {
                log: kept(s.log, truncate_from) + entries,
                ..s
            },
            _ => s,
        }
    }
}

/// A store is recovered with the hard state last saved, and with the log that its
/// appends and truncations amount to, in whatever order they came and however
/// often the directory was opened in between. A hard state that could not be
/// saved does not count, and once the directory is opened nothing is left of it.
pub proof fn law_a_store_is_recovered_as_it_was_written(
    c: Codec,
    files: Seq<Map<FileName, Seq<u8>>>,
    events: Seq<StoreEvent>,
    n: int,
)
    requires
        files.len() == events.len() + 1,
        0 <= n <= events.len(),
        files[0] == Map::<FileName, Seq<u8>>::empty(),
        forall|i: int|
            0 <= i < events.len() ==> !(#[trigger] events[i] is AppendFailed) && proper(
                c,
                replayed(events, i),
                events[i],
            ) && leads_to(c, files[i], events[i], files[i + 1]),
    ensures
        holds(c, files[n], replayed(events, n)),
        recovered(c, files[n]) == Some(replayed(events, n).log),
        recovered_hard(c, files[n]) == Some(replayed(events, n).hard),
        holds(c, opened(files[n]), replayed(events, n)),
        !opened(files[n]).contains_key(FileName::HardStateNew),
    decreases n,
{
    let s = replayed(events, n);
    if n == 0 {
        assert(stored(c, s.log) =~= Seq::empty());
    } else {
        law_a_store_is_recovered_as_it_was_written(c, files, events, n - 1);
        assert(!(events[n - 1] is AppendFailed));
        let t = law_the_files_hold_what_was_written(
            c,
            files[n - 1],
            replayed(events, n - 1),
            events[n - 1],
            files[n],
        );
        assert(t == s);
    }
    law_what_is_stored_is_recovered(c, files[n], s);
    lemma_open_holds(c, files[n], s);
    lemma_opened(files[n]);
}

/// What a directory is recovered with.
pub open spec fn found(c: Codec, files: Map<FileName, Seq<u8>>) -> Stored {
    Stored { hard: recovered_hard(c, files)->0, log: recovered(c, files)->0 }
}

/// Also where writes fail a store is recovered, and each time with what can become
/// of what it was recovered with before.
pub proof fn law_a_store_survives_failed_writes(
    c: Codec,
    files: Seq<Map<FileName, Seq<u8>>>,
    events: Seq<StoreEvent>,
    n: int,
)
    requires
        files.len() == events.len() + 1,
        0 <= n <= events.len(),
        files[0] == Map::<FileName, Seq<u8>>::empty(),
        forall|i: int|
            0 <= i < events.len() ==> proper(c, found(c, files[i]), #[trigger] events[i])
                && leads_to(c, files[i], events[i], files[i + 1]),
    ensures
        recovered(c, files[n]) is Some,
        recovered_hard(c, files[n]) is Some,
        holds(c, files[n], found(c, files[n])),
        n > 0 ==> becomes(found(c, files[n - 1]), events[n - 1], found(c, files[n])),
    decreases n,
{
    if n == 0 {
        let s = nothing_stored();
        assert(stored(c, s.log) =~= Seq::empty());
        law_what_is_stored_is_recovered(c, files[0], s);
    } else {
        law_a_store_survives_failed_writes(c, files, events, n - 1);
        let s = found(c, files[n - 1]);
        assert(proper(c, s, events[n - 1]));
        let t = law_the_files_hold_what_was_written(
            c,
            files[n - 1],
            s,
            events[n - 1],
            files[n],
        );
        law_what_is_stored_is_recovered(c, files[n], t);
    }
}

/// A directory without a hard state starts at term 0 with no vote; one that is
/// there is taken as it is; and one that cannot be read is an error that says why.
pub proof fn law_a_hard_state_is_taken_as_it_is(
    read: Option<Result<HardState, String>>,
    out: Result<HardState, String>,
)
    requires
        hard_recovered(read, out),
    ensures
        read is None ==> (out matches Ok(hard) && hard.current_term == 0 && hard.voted_for is None),
        read matches Some(Ok(found)) ==> (out matches Ok(hard) && hard == found),
        read matches Some(Err(e)) ==> (out matches Err(why) && why@ == "hardstate.json corrupt: "@
            + e@),
{
}

/// Steps are seen one by one, each with its files and bytes.
pub proof fn law_steps_are_seen_as_they_are(steps: Seq<FileStep>, i: int)
    requires
        0 <= i < steps.len(),
    ensures
        steps_view(steps).len() == steps.len(),
        match steps[i] {
            FileStep::Replace { file, bytes } => steps_view(steps)[i] == (StepView::Replace {
                file,
                bytes: bytes@,
            }),
            FileStep::Append { file, bytes } => steps_view(steps)[i] == (StepView::Append {
                file,
                bytes: bytes@,
            }),
            FileStep::Rename { from, to } => steps_view(steps)[i] == (StepView::Rename { from, to }),
            FileStep::Remove { file } => steps_view(steps)[i] == (StepView::Remove { file }),
            FileStep::Cut { file, len } => steps_view(steps)[i] == (StepView::Cut {
                file,
                len: len as int,
            }),
        },
{
}

} // verus!
