//! What goes over the wire and onto the disk, byte for byte: frames, log lines,
//! and recovery.

use micro_raft::http::{MAX_KEY_BYTES, MAX_VALUE_BYTES};
use micro_raft::kv::NodeRole;
use micro_raft::message::RaftMessage;
use micro_raft::node::{RaftNode, MAX_APPEND_ENTRIES};
use micro_raft::storage::{
    check_frame, frame_line, frame_lines, recover_log, split_lines, survivors, Corruption, FrameFault,
    ParsedFrame,
};
use micro_raft::store::{
    append_steps, orphan_steps, recover_hard_state, save_steps, tail_steps, FileName, FileStep,
};
use micro_raft::transport::{
    encode_frame, FrameDecoder, FrameError, Link, LinkAction, LinkEvent, MAX_FRAME_BYTES,
    REDIAL_MS,
};
use micro_raft::types::{Command, Entry, HardState, LogIndex, NodeId};
use serde_json::Value;

fn object(fields: Vec<(&str, Value)>) -> Value {
    let mut map = serde_json::Map::new();
    for (name, value) in fields {
        map.insert(name.to_string(), value);
    }
    Value::Object(map)
}

fn number(value: &Value, name: &str) -> Option<u64> {
    value.get(name)?.as_u64()
}

fn command_json(command: &Command) -> Value {
    match command {
        Command::Put { key, value } => object(vec![(
            "Put",
            object(vec![
                ("key", Value::from(key.as_str())),
                ("value", Value::from(value.as_str())),
            ]),
        )]),
        Command::Delete { key } => object(vec![(
            "Delete",
            object(vec![("key", Value::from(key.as_str()))]),
        )]),
        Command::NoOp => Value::from("NoOp"),
    }
}

fn command_from(value: &Value) -> Option<Command> {
    if value.as_str() == Some("NoOp") {
        return Some(Command::NoOp);
    }
    if let Some(put) = value.get("Put") {
        return Some(Command::Put {
            key: put.get("key")?.as_str()?.to_string(),
            value: put.get("value")?.as_str()?.to_string(),
        });
    }
    Some(Command::Delete {
        key: value.get("Delete")?.get("key")?.as_str()?.to_string(),
    })
}

fn entry_json(entry: &Entry) -> Value {
    object(vec![
        ("index", Value::from(entry.index)),
        ("term", Value::from(entry.term)),
        ("command", command_json(&entry.command)),
    ])
}

fn entry_from(value: &Value) -> Option<Entry> {
    Some(Entry {
        index: number(value, "index")?,
        term: number(value, "term")?,
        command: command_from(value.get("command")?)?,
    })
}

fn message_json(msg: &RaftMessage) -> Value {
    match msg {
        RaftMessage::RequestVote {
            term,
            candidate_id,
            last_log_index,
            last_log_term,
        } => object(vec![(
            "RequestVote",
            object(vec![
                ("term", Value::from(*term)),
                ("candidate_id", Value::from(*candidate_id)),
                ("last_log_index", Value::from(*last_log_index)),
                ("last_log_term", Value::from(*last_log_term)),
            ]),
        )]),
        RaftMessage::RequestVoteReply { term, vote_granted } => object(vec![(
            "RequestVoteReply",
            object(vec![
                ("term", Value::from(*term)),
                ("vote_granted", Value::from(*vote_granted)),
            ]),
        )]),
        RaftMessage::AppendEntries {
            term,
            leader_id,
            prev_log_index,
            prev_log_term,
            entries,
            leader_commit,
        } => object(vec![(
            "AppendEntries",
            object(vec![
                ("term", Value::from(*term)),
                ("leader_id", Value::from(*leader_id)),
                ("prev_log_index", Value::from(*prev_log_index)),
                ("prev_log_term", Value::from(*prev_log_term)),
                (
                    "entries",
                    Value::from(entries.iter().map(entry_json).collect::<Vec<_>>()),
                ),
                ("leader_commit", Value::from(*leader_commit)),
            ]),
        )]),
        RaftMessage::AppendEntriesReply {
            term,
            success,
            match_index,
        } => object(vec![(
            "AppendEntriesReply",
            object(vec![
                ("term", Value::from(*term)),
                ("success", Value::from(*success)),
                ("match_index", Value::from(*match_index)),
            ]),
        )]),
    }
}

fn small(value: &Value, name: &str) -> Option<NodeId> {
    u8::try_from(number(value, name)?).ok()
}

fn message_from(value: &Value) -> Option<RaftMessage> {
    if let Some(v) = value.get("RequestVote") {
        return Some(RaftMessage::RequestVote {
            term: number(v, "term")?,
            candidate_id: small(v, "candidate_id")?,
            last_log_index: number(v, "last_log_index")?,
            last_log_term: number(v, "last_log_term")?,
        });
    }
    if let Some(v) = value.get("RequestVoteReply") {
        return Some(RaftMessage::RequestVoteReply {
            term: number(v, "term")?,
            vote_granted: v.get("vote_granted")?.as_bool()?,
        });
    }
    if let Some(v) = value.get("AppendEntries") {
        return Some(RaftMessage::AppendEntries {
            term: number(v, "term")?,
            leader_id: small(v, "leader_id")?,
            prev_log_index: number(v, "prev_log_index")?,
            prev_log_term: number(v, "prev_log_term")?,
            entries: v
                .get("entries")?
                .as_array()?
                .iter()
                .map(entry_from)
                .collect::<Option<Vec<_>>>()?,
            leader_commit: number(v, "leader_commit")?,
        });
    }
    let v = value.get("AppendEntriesReply")?;
    Some(RaftMessage::AppendEntriesReply {
        term: number(v, "term")?,
        success: v.get("success")?.as_bool()?,
        match_index: number(v, "match_index")?,
    })
}

fn payload(from: NodeId, msg: &RaftMessage) -> Vec<u8> {
    let pair = Value::from(vec![Value::from(from), message_json(msg)]);
    serde_json::to_vec(&pair).unwrap()
}

fn read_payload(bytes: &[u8]) -> (NodeId, RaftMessage) {
    let pair: Value = serde_json::from_slice(bytes).unwrap();
    let from = u8::try_from(pair[0].as_u64().unwrap()).unwrap();
    (from, message_from(&pair[1]).unwrap())
}

/// One message per RaftMessage variant, with entries covering every
/// Command variant.
fn all_variants() -> Vec<RaftMessage> {
    vec![
        RaftMessage::RequestVote {
            term: 3,
            candidate_id: 1,
            last_log_index: 7,
            last_log_term: 2,
        },
        RaftMessage::RequestVoteReply {
            term: 3,
            vote_granted: true,
        },
        RaftMessage::AppendEntries {
            term: 4,
            leader_id: 2,
            prev_log_index: 9,
            prev_log_term: 3,
            entries: vec![
                Entry {
                    index: 10,
                    term: 4,
                    command: Command::Put {
                        key: "k".into(),
                        value: "v".into(),
                    },
                },
                Entry {
                    index: 11,
                    term: 4,
                    command: Command::Delete { key: "k".into() },
                },
                Entry {
                    index: 12,
                    term: 4,
                    command: Command::NoOp,
                },
            ],
            leader_commit: 9,
        },
        RaftMessage::AppendEntriesReply {
            term: 4,
            success: false,
            match_index: 5,
        },
    ]
}

#[test]
fn frame_roundtrip() {
    for (i, msg) in all_variants().into_iter().enumerate() {
        let from = u8::try_from(i + 1).unwrap();
        let bytes = encode_frame(&payload(from, &msg)).unwrap();
        let mut dec = FrameDecoder::default();
        dec.push_bytes(&bytes);
        let (f, m) = read_payload(&dec.next_frame().unwrap().expect("one complete frame"));
        assert_eq!((f, &m), (from, &msg));
        assert_eq!(
            encode_frame(&payload(f, &m)).unwrap(),
            bytes,
            "re-encoding the decoded message reproduces the frame byte-exactly"
        );
        assert!(dec.next_frame().unwrap().is_none(), "no residue left over");
    }
}

#[test]
fn frame_partial_read() {
    let msgs = all_variants();
    let mut wire = Vec::new();
    for m in &msgs {
        wire.extend_from_slice(&encode_frame(&payload(9, m)).unwrap());
    }
    let mut dec = FrameDecoder::default();
    let mut got = Vec::new();
    for &b in &wire {
        dec.push_bytes(&[b]);
        while let Some(bytes) = dec.next_frame().unwrap() {
            let (from, m) = read_payload(&bytes);
            assert_eq!(from, 9);
            got.push(m);
        }
    }
    assert_eq!(got, msgs, "1-byte chunking decodes every frame correctly");
}

#[test]
fn frame_oversize_rejected() {
    let mut dec = FrameDecoder::default();
    dec.push_bytes(&(MAX_FRAME_BYTES + 1).to_be_bytes());
    match dec.next_frame() {
        Err(FrameError::Oversize { len }) => assert_eq!(len, MAX_FRAME_BYTES + 1),
        other => panic!("expected Oversize protocol error, got {other:?}"),
    }
}

#[test]
fn maximum_http_commands_fit_one_replication_frame() {
    let key = "\0".repeat(MAX_KEY_BYTES);
    let value = "\0".repeat(MAX_VALUE_BYTES);
    let entries = (1..=MAX_APPEND_ENTRIES)
        .map(|index| Entry {
            index: index as u64,
            term: 1,
            command: Command::Put {
                key: key.clone(),
                value: value.clone(),
            },
        })
        .collect();
    let message = RaftMessage::AppendEntries {
        term: 1,
        leader_id: 1,
        prev_log_index: 0,
        prev_log_term: 0,
        entries,
        leader_commit: 0,
    };

    let frame =
        encode_frame(&payload(1, &message)).expect("maximum API-originated batch must fit");
    assert!(frame.len() - 4 <= MAX_FRAME_BYTES as usize);
}

#[test]
fn a_frame_is_its_length_and_its_payload() {
    assert_eq!(encode_frame(b"ab").unwrap(), vec![0, 0, 0, 2, b'a', b'b']);
    assert_eq!(encode_frame(b"").unwrap(), vec![0, 0, 0, 0]);
    let most = vec![7; MAX_FRAME_BYTES as usize];
    assert_eq!(encode_frame(&most).unwrap().len(), most.len() + 4);
    let over = vec![7; MAX_FRAME_BYTES as usize + 1];
    assert_eq!(
        encode_frame(&over),
        Err(FrameError::Oversize {
            len: MAX_FRAME_BYTES + 1
        })
    );
}

#[test]
fn an_incomplete_frame_stays_until_the_rest_comes() {
    let mut dec = FrameDecoder::default();
    dec.push_bytes(&[0, 0, 0, 3, 1]);
    assert_eq!(dec.next_frame(), Ok(None));
    dec.push_bytes(&[2, 3, 0, 0]);
    assert_eq!(dec.next_frame(), Ok(Some(vec![1, 2, 3])));
    assert_eq!(dec.next_frame(), Ok(None));
    dec.push_bytes(&[0, 1, 9]);
    assert_eq!(dec.next_frame(), Ok(Some(vec![9])));
}

#[test]
fn all_complete_frames_are_taken_at_once() {
    let mut dec = FrameDecoder::default();
    dec.push_bytes(&[0, 0, 0, 1, 7, 0, 0, 0, 0, 0, 0, 0, 2, 8]);
    let taken = dec.take_frames();
    assert_eq!(taken.frames, vec![vec![7], vec![]]);
    assert_eq!(taken.error, None);
    assert_eq!(dec.buf, vec![0, 0, 0, 2, 8]);

    dec.push_bytes(&[9]);
    dec.push_bytes(&(MAX_FRAME_BYTES + 1).to_be_bytes());
    let taken = dec.take_frames();
    assert_eq!(taken.frames, vec![vec![8, 9]], "the frames before the error");
    assert_eq!(
        taken.error,
        Some(FrameError::Oversize {
            len: MAX_FRAME_BYTES + 1
        })
    );
    assert!(dec.take_frames().frames.is_empty());
}

#[test]
fn a_link_dials_again_and_drops_what_comes_meanwhile() {
    let message = LinkEvent::Message { encodable: true };
    let mut link = Link::Dialing;
    assert_eq!(
        link.next(LinkEvent::DialFailed),
        LinkAction::Wait { ms: 200 }
    );
    assert_eq!(REDIAL_MS, 200);
    assert_eq!(link, Link::Waiting);
    assert_eq!(link.next(message), LinkAction::Drop);
    assert_eq!(link, Link::Waiting);
    assert_eq!(link.next(LinkEvent::WaitOver), LinkAction::Dial);
    assert_eq!(link.next(LinkEvent::Dialed), LinkAction::Receive);
    assert_eq!(link, Link::Up);
    assert_eq!(link.next(message), LinkAction::Write);
    assert_eq!(
        link.next(LinkEvent::Message { encodable: false }),
        LinkAction::Drop
    );
    assert_eq!(link, Link::Up, "the connection stays");
}

#[test]
fn a_message_lost_in_a_failed_write_is_not_written_again() {
    let message = LinkEvent::Message { encodable: true };
    let mut link = Link::Up;
    assert_eq!(link.next(message), LinkAction::Write);
    assert_eq!(link.next(LinkEvent::WriteFailed), LinkAction::Dial);
    assert_eq!(link, Link::Dialing);
    assert_eq!(link.next(LinkEvent::Dialed), LinkAction::Receive);
    assert_eq!(link.next(message), LinkAction::Write, "the next message");
}

#[test]
fn a_closed_queue_ends_a_link() {
    for mut link in [Link::Dialing, Link::Up, Link::Waiting] {
        assert_eq!(link.next(LinkEvent::Closed), LinkAction::Stop);
    }
}

/// A data directory in memory.
struct Disk {
    /// The log's file.
    bytes: Vec<u8>,
    log_new: Option<Vec<u8>>,
    hard: Option<Vec<u8>>,
    hard_new: Option<Vec<u8>>,
    /// How many steps still succeed.
    steps_left: usize,
}

fn hard_json(hard: &HardState) -> Vec<u8> {
    let voted_for = match hard.voted_for {
        Some(id) => Value::from(id),
        None => Value::Null,
    };
    serde_json::to_vec(&object(vec![
        ("current_term", Value::from(hard.current_term)),
        ("voted_for", voted_for),
    ]))
    .unwrap()
}

fn read_hard(bytes: &[u8]) -> Result<HardState, String> {
    let value: Value = serde_json::from_slice(bytes).map_err(|e| e.to_string())?;
    Ok(HardState {
        current_term: number(&value, "current_term").ok_or("no term")?,
        voted_for: small(&value, "voted_for"),
    })
}

fn parse(line: &[u8]) -> Result<ParsedFrame, FrameFault> {
    let value: Value = serde_json::from_slice(line)
        .map_err(|e| FrameFault::Unparseable(e.to_string()))?;
    let entry = value
        .get("entry")
        .and_then(entry_from)
        .ok_or_else(|| FrameFault::Unparseable("no entry".to_string()))?;
    let crc = number(&value, "crc")
        .and_then(|crc| u32::try_from(crc).ok())
        .ok_or_else(|| FrameFault::Unparseable("no crc".to_string()))?;
    let entry_json = serde_json::to_vec(&entry_json(&entry))
        .map_err(|e| FrameFault::ReserializeFailed(e.to_string()))?;
    Ok(ParsedFrame {
        crc,
        entry,
        entry_json,
    })
}

fn line_of(entry: &Entry) -> Vec<u8> {
    frame_line(&serde_json::to_vec(&entry_json(entry)).unwrap())
}

fn lines_of(entries: &[Entry]) -> Vec<u8> {
    let jsons: Vec<Vec<u8>> = entries
        .iter()
        .map(|entry| serde_json::to_vec(&entry_json(entry)).unwrap())
        .collect();
    frame_lines(&jsons)
}

impl Disk {
    fn new() -> Disk {
        Disk {
            bytes: Vec::new(),
            log_new: None,
            hard: None,
            hard_new: None,
            steps_left: usize::MAX,
        }
    }

    /// Takes the steps, up to the first that fails.
    fn perform(&mut self, steps: Vec<FileStep>) -> Result<(), &'static str> {
        for step in steps {
            if self.steps_left == 0 {
                return Err("a step failed");
            }
            self.steps_left -= 1;
            match step {
                FileStep::Replace {
                    file: FileName::HardStateNew,
                    bytes,
                } => self.hard_new = Some(bytes),
                FileStep::Replace {
                    file: FileName::LogNew,
                    bytes,
                } => self.log_new = Some(bytes),
                FileStep::Append {
                    file: FileName::Log,
                    bytes,
                } => self.bytes.extend_from_slice(&bytes),
                FileStep::Rename {
                    from: FileName::HardStateNew,
                    to: FileName::HardState,
                } => self.hard = self.hard_new.take(),
                FileStep::Rename {
                    from: FileName::LogNew,
                    to: FileName::Log,
                } => self.bytes = self.log_new.take().unwrap(),
                FileStep::Remove {
                    file: FileName::HardStateNew,
                } => self.hard_new = None,
                FileStep::Cut {
                    file: FileName::Log,
                    len,
                } => self.bytes.truncate(len),
                other => panic!("unexpected step {other:?}"),
            }
        }
        Ok(())
    }

    fn open(&mut self) -> Result<Vec<Entry>, Corruption> {
        self.perform(orphan_steps(self.hard_new.is_some())).unwrap();
        let lines = split_lines(&self.bytes);
        let frames = lines
            .lines
            .iter()
            .map(|line| parse(&self.bytes[line.start..line.end]))
            .collect();
        let entries = recover_log(&lines.lines, frames)?;
        self.perform(tail_steps(lines.tail)).unwrap();
        Ok(entries)
    }

    fn open_hard(&mut self) -> HardState {
        self.open().unwrap();
        recover_hard_state(self.hard.as_deref().map(read_hard)).unwrap()
    }

    fn save_hard_state(&mut self, hard: &HardState) -> Result<(), &'static str> {
        self.perform(save_steps(hard_json(hard)))
    }

    fn try_append(
        &mut self,
        truncate_from: Option<LogIndex>,
        entries: &[Entry],
    ) -> Result<(), &'static str> {
        let rewritten =
            truncate_from.map(|from| lines_of(&survivors(self.open().unwrap(), from)));
        self.perform(append_steps(rewritten, lines_of(entries)))
    }

    fn append_entries(&mut self, truncate_from: Option<LogIndex>, entries: &[Entry]) {
        self.try_append(truncate_from, entries).unwrap();
    }
}

/// Deterministic entry content so recovered logs can be compared exactly.
fn entry(index: LogIndex, term: u64) -> Entry {
    Entry {
        index,
        term,
        command: Command::Put {
            key: format!("k{index}"),
            value: format!("v{index}-t{term}"),
        },
    }
}

fn entries(range: std::ops::RangeInclusive<u64>, term: u64) -> Vec<Entry> {
    range.map(|i| entry(i, term)).collect()
}

/// Byte offset where the last line of the file starts.
fn last_line_start(bytes: &[u8]) -> usize {
    bytes[..bytes.len() - 1]
        .iter()
        .rposition(|&b| b == b'\n')
        .map_or(0, |p| p + 1)
}

fn assert_invalid_recovery_preserves_file(disk: &mut Disk, expected_reason: &str) {
    let before = disk.bytes.clone();
    let error = match disk.open() {
        Ok(_) => panic!("newline-terminated corruption must fail recovery"),
        Err(error) => error.describe(),
    };
    assert!(
        error.contains(expected_reason),
        "unexpected recovery error: {error}"
    );
    assert!(
        error.contains("refusing to modify newline-terminated data"),
        "unexpected recovery error: {error}"
    );
    assert_eq!(
        disk.bytes, before,
        "failed recovery must leave the corrupt file untouched"
    );
}

#[test]
fn log_roundtrip_replay() {
    let mut disk = Disk::new();
    assert_eq!(
        disk.open_hard(),
        HardState::default(),
        "fresh dir recovers {{0, null}}"
    );
    assert!(disk.open().unwrap().is_empty());
    disk.append_entries(None, &entries(1..=34, 1));

    assert_eq!(disk.open().unwrap().len(), 34);
    disk.append_entries(None, &entries(35..=67, 2));

    assert_eq!(disk.open().unwrap().len(), 67);
    disk.append_entries(None, &entries(68..=100, 3));

    let log = disk.open().unwrap();
    assert_eq!(
        log.len(),
        100,
        "all 100 entries survive 3 open/append cycles"
    );
    for (i, e) in log.iter().enumerate() {
        assert_eq!(e.index, i as u64 + 1, "strictly ordered, contiguous");
        assert_eq!(*e, entry(e.index, e.term), "content roundtrips exactly");
    }
}

#[test]
fn unterminated_tail_is_truncated_on_recovery() {
    // Crash mid-append: the file ends in a partial line.
    let mut disk = Disk::new();
    disk.append_entries(None, &entries(1..=10, 1));
    let lls = last_line_start(&disk.bytes);
    let cut = lls + (disk.bytes.len() - lls) / 2;
    disk.bytes.truncate(cut);
    let log = disk.open().unwrap();
    assert_eq!(log.len(), 9, "partial last line must be cut");
    assert_eq!(log.last().unwrap().index, 9);
    assert_eq!(
        disk.bytes.len(),
        lls,
        "file must be physically truncated at the bad line's offset"
    );
}

#[test]
fn newline_terminated_final_crc_error_fails_without_modifying_log() {
    let mut disk = Disk::new();
    disk.append_entries(None, &entries(1..=10, 1));
    let last_start = last_line_start(&disk.bytes);
    let at = last_start
        + disk.bytes[last_start..]
            .windows(7)
            .position(|w| w == b"v10-t1\"")
            .expect("frame format carries an entry field");
    disk.bytes[at] ^= 0x01;

    assert_invalid_recovery_preserves_file(&mut disk, "crc mismatch");
}

#[test]
fn newline_terminated_final_json_error_fails_without_modifying_log() {
    let mut disk = Disk::new();
    disk.append_entries(None, &entries(1..=2, 1));
    disk.bytes.extend_from_slice(b"{not-json}\n");

    assert_invalid_recovery_preserves_file(&mut disk, "unparseable frame");
}

#[test]
fn newline_terminated_final_index_gap_fails_without_modifying_log() {
    let mut disk = Disk::new();
    disk.append_entries(None, &entries(1..=2, 1));
    disk.bytes.extend_from_slice(&line_of(&entry(4, 1)));

    assert_invalid_recovery_preserves_file(&mut disk, "index gap: 4 follows 2");
}

#[test]
fn interior_corruption_fails_without_modifying_log() {
    let mut disk = Disk::new();
    disk.append_entries(None, &entries(1..=3, 1));
    let at = disk
        .bytes
        .windows(6)
        .position(|w| w == b"v2-t1\"")
        .expect("frame format carries an entry field");
    disk.bytes[at] ^= 0x01;

    let second = disk.bytes.iter().position(|&b| b == b'\n').unwrap() + 1;
    let before = disk.bytes.clone();
    let error = match disk.open() {
        Ok(_) => panic!("interior corruption must fail recovery"),
        Err(error) => error,
    };
    assert_eq!(error.offset, second);
    assert!(error
        .describe()
        .contains("refusing to modify newline-terminated data"));
    assert_eq!(
        disk.bytes, before,
        "failed recovery must leave the corrupt file untouched"
    );
}

#[test]
fn truncate_from_rewrites_suffix() {
    let mut disk = Disk::new();
    disk.append_entries(None, &entries(1..=10, 1));
    // Conflict repair drops 6..=10 and installs a newer-term tail.
    disk.append_entries(Some(6), &[entry(6, 2), entry(7, 2)]);

    let log = disk.open().unwrap();
    assert_eq!(log.len(), 7, "recovery yields indices 1..=7");
    assert_eq!(
        log.iter().map(|e| e.index).collect::<Vec<_>>(),
        (1..=7).collect::<Vec<_>>()
    );
    assert_eq!(
        log[4].term, 1,
        "prefix below the truncation point untouched"
    );
    assert_eq!(
        (log[5].term, log[6].term),
        (2, 2),
        "new tail carries the new term"
    );
}

#[test]
fn hardstate_persist_roundtrip() {
    let mut disk = Disk::new();
    assert_eq!(
        disk.open_hard(),
        HardState::default(),
        "missing file recovers {{0, null}}"
    );
    disk.save_hard_state(&HardState {
        current_term: 7,
        voted_for: Some(2),
    })
    .unwrap();

    assert_eq!(
        disk.open_hard(),
        HardState {
            current_term: 7,
            voted_for: Some(2)
        }
    );

    // A crash between write and rename leaves a stale new file; recovery must
    // trust the old one and remove the orphan.
    disk.hard_new = Some(br#"{"current_term":9999,"voted_for":3}"#.to_vec());
    assert_eq!(
        disk.open_hard(),
        HardState {
            current_term: 7,
            voted_for: Some(2)
        },
        "the orphaned .new must never be trusted"
    );
    assert_eq!(disk.hard_new, None, "stale .new is removed on open");
}

#[test]
fn hardstate_replaces_existing_file_repeatedly() {
    let mut disk = Disk::new();
    for term in 1..=5 {
        disk.save_hard_state(&HardState {
            current_term: term,
            voted_for: Some((term % 3 + 1) as u8),
        })
        .unwrap();
    }

    let hard = disk.open_hard();
    assert_eq!(hard.current_term, 5);
    assert_eq!(hard.voted_for, Some(3));
}

#[test]
fn failed_hardstate_swap_preserves_previous_state() {
    let original = HardState {
        current_term: 4,
        voted_for: Some(2),
    };
    for steps_left in 0..2 {
        let mut disk = Disk::new();
        disk.save_hard_state(&original).unwrap();

        disk.steps_left = steps_left;
        let result = disk.save_hard_state(&HardState {
            current_term: 5,
            voted_for: Some(3),
        });
        assert!(result.is_err(), "the filesystem failure must be returned");
        disk.steps_left = usize::MAX;

        assert_eq!(
            disk.open_hard(),
            original,
            "the last completed swap remains valid"
        );
    }
}

#[test]
fn a_hard_state_that_cannot_be_read_is_an_error() {
    assert_eq!(
        recover_hard_state(Some(Err("no term".to_string()))),
        Err("hardstate.json corrupt: no term".to_string())
    );
}

#[test]
fn an_append_that_fails_leaves_a_log_that_is_recovered() {
    let before = entries(1..=5, 1);
    let new = [entry(4, 2), entry(5, 2), entry(6, 2)];
    for steps_left in 0..3 {
        let mut disk = Disk::new();
        disk.append_entries(None, &before);
        disk.steps_left = steps_left;
        assert!(disk.try_append(Some(4), &new).is_err());
        disk.steps_left = usize::MAX;
        let expected = if steps_left < 2 {
            before.clone()
        } else {
            entries(1..=3, 1)
        };
        assert_eq!(disk.open().unwrap(), expected);
    }

    // Torn at every byte of the last append.
    let lines = lines_of(&new);
    for cut in 0..=lines.len() {
        let mut disk = Disk::new();
        disk.append_entries(None, &before);
        disk.append_entries(Some(4), &[]);
        disk.bytes.extend_from_slice(&lines[..cut]);
        let whole = lines[..cut].iter().filter(|b| **b == b'\n').count();
        let mut expected = entries(1..=3, 1);
        expected.extend_from_slice(&new[..whole]);
        assert_eq!(disk.open().unwrap(), expected);
        assert_eq!(disk.bytes, lines_of(&expected), "the torn line is cut off");

        let more = entry(expected.len() as u64 + 1, 3);
        disk.append_entries(None, &[more.clone()]);
        expected.push(more);
        assert_eq!(disk.open().unwrap(), expected, "and writing goes on");
    }
}

#[test]
fn kv_node_recovers_from_disk() {
    let expected_hard = HardState {
        current_term: 7,
        voted_for: Some(2),
    };
    let expected_log = vec![Entry {
        index: 1,
        term: 6,
        command: Command::Put {
            key: "durable".into(),
            value: "yes".into(),
        },
    }];

    let mut disk = Disk::new();
    disk.save_hard_state(&expected_hard).expect("save hard state");
    disk.append_entries(None, &expected_log);

    let log = disk.open().expect("reopen storage");
    let node = RaftNode::restore(1, vec![2, 3], 99, disk.open_hard(), log).expect("restore node");
    assert_eq!(node.hard, expected_hard);
    assert_eq!(node.log, expected_log);
    assert_eq!(node.commit_index, 0);
    assert_eq!(node.last_applied, 0);
    assert_eq!(NodeRole::from(&node.role), NodeRole::Follower);
}

#[test]
fn a_log_line_is_its_checksum_and_its_entry() {
    assert_eq!(
        frame_line(b"123456789"),
        b"{\"crc\":3421780262,\"entry\":123456789}\n".to_vec()
    );
}

#[test]
fn lines_are_found_by_their_newlines() {
    let found = split_lines(b"ab\n\ncd");
    assert_eq!(
        found
            .lines
            .iter()
            .map(|l| (l.start, l.end))
            .collect::<Vec<_>>(),
        vec![(0, 2), (3, 3)]
    );
    assert_eq!(found.tail, Some(4));
    assert_eq!(split_lines(b"").tail, None);
    assert_eq!(split_lines(b"ab\n").tail, None);
}

#[test]
fn frame_faults_come_in_order_and_in_words() {
    let good = |index: LogIndex, crc: u32| {
        Ok(ParsedFrame {
            crc,
            entry: entry(index, 1),
            entry_json: b"123456789".to_vec(),
        })
    };
    assert_eq!(check_frame(good(3, 0xCBF4_3926), 2).unwrap(), entry(3, 1));
    assert_eq!(
        check_frame(good(9, 7), 2).unwrap_err().describe(),
        "crc mismatch: stored 7, computed 3421780262"
    );
    assert_eq!(
        check_frame(good(9, 0xCBF4_3926), 2).unwrap_err().describe(),
        "index gap: 9 follows 2"
    );
    assert_eq!(
        check_frame(good(9, 0xCBF4_3926), LogIndex::MAX)
            .unwrap_err()
            .describe(),
        "index gap: 9 follows 18446744073709551615"
    );
    assert_eq!(
        check_frame(Err(FrameFault::Unparseable("x".into())), 2)
            .unwrap_err()
            .describe(),
        "unparseable frame: x"
    );
    assert_eq!(
        check_frame(Err(FrameFault::ReserializeFailed("y".into())), 2)
            .unwrap_err()
            .describe(),
        "re-serialize failed: y"
    );
    assert_eq!(
        Corruption {
            offset: 12,
            fault: FrameFault::Unparseable("x".into()),
        }
        .describe(),
        "log.jsonl corrupt at byte offset 12: unparseable frame: x; refusing to modify newline-terminated data"
    );
}
