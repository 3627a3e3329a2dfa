//! The write-ahead log: appending, recovery and compaction.
//!
//! A log is a header line and one line for each mutation. Recovery replays the mutations
//! over the data of the snapshot; a log that is damaged anywhere is refused as a whole.

use vstd::prelude::*;
use vstd::utf8::{decode_utf8, encode_utf8, valid_utf8};

use super::error::{PersistenceError, PersistenceErrorView};
use super::format::{
    decode_header, decode_record, decoded_header, decoded_record, encode_header, encode_record,
    header_line, header_text, law_header_round_trip, law_record_round_trip,
    lemma_header_characters, lemma_record_characters, lemma_record_len, logged_parts, record_line,
    record_text, FormatError, FormatErrorView, MAX_RECORD_BYTES,
};
use super::script::{
    after_steps, bytes_of, durable_at, flushed_before_sync, flushes,
    law_failed_script_leaves_alone, law_untouched_files_stay, leaves_alone, lemma_after_steps,
    lemma_ran_in_order, made_durable, plain_step, ran, reported, same_file, script_after,
    step_views, synchronised_at, syncs, writes, Failure, FileContent, FileOperation,
    FileOperationView, FileScript, FileStep, FileStepView, Files, ScriptView,
};
use super::snapshot::directory_steps;
use crate::domain::{answer, applied, is_mutation_view, validation, Command, CommandView, Store};
use crate::lines::{
    copy_bytes, lemma_line_len, lemma_line_len_append, lemma_line_len_bounds, line_end, line_len,
};
use crate::number::{decimal, push_decimal};
use crate::result_view;
use crate::text::{decode_text, lemma_decode_of_encode, lemma_encode_ascii_text, split};
use crate::text_map::Contents;

verus! {

// ---------------------------------------------------------------------------------------
// What a log holds
// ---------------------------------------------------------------------------------------

/// Where and why a log cannot be read: the number of the line, the place of its first byte
/// and the reason.
pub ghost struct Damage {
    pub line: nat,
    pub offset: nat,
    pub reason: Seq<char>,
}

/// The base sequence number that the header of a log states.
#[verifier::opaque]
pub open spec fn header_base(log: Seq<u8>, snapshot_seq: u64) -> Result<u64, Seq<char>> {
    let line = log.take(line_len(log) as int);
    if line.len() == 0 || line.last() != 0x0a {
        Err("truncated WAL header"@)
    } else if !valid_utf8(line.drop_last()) {
        Err("WAL header is not valid UTF-8"@)
    } else {
        match decoded_header(decode_utf8(line.drop_last())) {
            Err(FormatErrorView::Invalid(reason)) => Err(reason),
            Err(FormatErrorView::UnsupportedCommand) => Err("unsupported command in WAL header"@),
            Ok(base_seq) => if base_seq > snapshot_seq {
                Err(
                    "WAL starts after sequence "@ + decimal(base_seq as nat)
                        + ", but snapshot only contains "@ + decimal(snapshot_seq as nat),
                )
            } else if base_seq == u64::MAX {
                Err("WAL base sequence overflow"@)
            } else {
                Ok(base_seq)
            },
        }
    }
}

/// What the store holds after one line of the log. A record that the snapshot covers is
/// checked and not applied again.
#[verifier::opaque]
pub open spec fn replayed_line(
    line: Seq<u8>,
    contents: Contents,
    snapshot_seq: u64,
    expected_seq: u64,
) -> Result<Contents, Seq<char>> {
    if line.len() > MAX_RECORD_BYTES {
        Err("record exceeds the maximum size"@)
    } else if line.len() == 0 || line.last() != 0x0a {
        Err("truncated final record"@)
    } else if !valid_utf8(line.drop_last()) {
        Err("record is not valid UTF-8"@)
    } else {
        match decoded_record(decode_utf8(line.drop_last())) {
            Err(FormatErrorView::Invalid(reason)) => Err(reason),
            Err(FormatErrorView::UnsupportedCommand) => Err("unsupported command in WAL"@),
            Ok((seq, command)) => if seq != expected_seq {
                Err(
                    "expected sequence "@ + decimal(expected_seq as nat) + ", found "@ + decimal(
                        seq as nat,
                    ),
                )
            } else if seq > snapshot_seq && answer(contents, command) is Err {
                Err("invalid mutation history: "@ + answer(contents, command)->Err_0.text())
            } else if expected_seq == u64::MAX {
                Err("sequence number overflow"@)
            } else if seq > snapshot_seq {
                Ok(applied(contents, command))
            } else {
                Ok(contents)
            },
        }
    }
}

/// What the store holds after the lines `rest` of a log, and the next sequence number.
pub open spec fn replayed(
    rest: Seq<u8>,
    contents: Contents,
    snapshot_seq: u64,
    expected_seq: u64,
    line: nat,
    offset: nat,
) -> Result<(Contents, u64), Damage>
    decreases rest.len(),
{
    if rest.len() == 0 {
        if expected_seq - 1 < snapshot_seq {
            Err(
                Damage {
                    line,
                    offset,
                    reason: "WAL ends at sequence "@ + decimal((expected_seq - 1) as nat)
                        + ", before snapshot sequence "@ + decimal(snapshot_seq as nat),
                },
            )
        } else {
            Ok((contents, expected_seq))
        }
    } else {
        proof {
            lemma_line_len_bounds(rest);
        }
        let len = line_len(rest);
        match replayed_line(rest.take(len as int), contents, snapshot_seq, expected_seq) {
            Err(reason) => Err(Damage { line, offset, reason }),
            Ok(next) => replayed(
                rest.skip(len as int),
                next,
                snapshot_seq,
                (expected_seq + 1) as u64,
                line + 1,
                offset + len,
            ),
        }
    }
}

/// What the store holds after a log was replayed over the data of a snapshot, and the next
/// sequence number.
pub open spec fn recovered(log: Seq<u8>, contents: Contents, snapshot_seq: u64) -> Result<
    (Contents, u64),
    Damage,
> {
    match header_base(log, snapshot_seq) {
        Err(reason) => Err(Damage { line: 1, offset: 0, reason }),
        Ok(base_seq) => replayed(
            log.skip(line_len(log) as int),
            contents,
            snapshot_seq,
            (base_seq + 1) as u64,
            2,
            line_len(log),
        ),
    }
}

/// The error for a damaged log.
pub open spec fn damage_error(path: Seq<char>, damage: Damage) -> PersistenceErrorView {
    PersistenceErrorView::Corrupt {
        path,
        line: damage.line,
        offset: damage.offset,
        reason: damage.reason,
    }
}

// ---------------------------------------------------------------------------------------
// Recovery
// ---------------------------------------------------------------------------------------

fn corrupt(path: &str, line: usize, offset: u64, reason: String) -> (error: PersistenceError)
    ensures
        error@ == (PersistenceErrorView::Corrupt {
            path: path@,
            line: line as nat,
            offset: offset as nat,
            reason: reason@,
        }),
{
    PersistenceError::Corrupt { path: path.to_owned(), line, offset, reason }
}

fn numbers_message(before: &str, first: u64, between: &str, second: u64) -> (text: String)
    ensures
        text@ == before@ + decimal(first as nat) + between@ + decimal(second as nat),
{
    let mut text = before.to_owned();
    push_decimal(&mut text, first as u128);
    text.append(between);
    push_decimal(&mut text, second as u128);
    text
}

fn read_header(log: &[u8], end: usize, snapshot_seq: u64) -> (result: Result<u64, String>)
    requires
        end == line_len(log@),
        end <= log@.len(),
    ensures
        result_view(result) == header_base(log@, snapshot_seq),
        result is Ok ==> end >= 2 && result->Ok_0 < u64::MAX,
{
    reveal(header_base);
    let ghost line = log@.take(line_len(log@) as int);
    if end == 0 || log[end - 1] != 0x0a {
        return Err("truncated WAL header".to_owned());
    }
    let bytes = copy_bytes(log, 0, end - 1);
    assert(bytes@ =~= line.drop_last());
    let header = match decode_text(bytes) {
        Some(header) => header,
        None => {
            return Err("WAL header is not valid UTF-8".to_owned());
        },
    };
    match decode_header(header.as_str()) {
        Err(FormatError::Invalid(reason)) => Err(reason),
        Err(FormatError::UnsupportedCommand) => Err("unsupported command in WAL header".to_owned()),
        Ok(base_seq) => {
            proof {
                if end == 1 {
                    assert(line.drop_last() =~= encode_utf8(Seq::<char>::empty()));
                    lemma_decode_of_encode(Seq::empty());
                    reveal_strlit("RUST_KV_WAL\t1");
                    assert(split(Seq::empty(), '\t').len() == 1);
                }
            }
            if base_seq > snapshot_seq {
                Err(
                    numbers_message(
                        "WAL starts after sequence ",
                        base_seq,
                        ", but snapshot only contains ",
                        snapshot_seq,
                    ),
                )
            } else if base_seq == u64::MAX {
                Err("WAL base sequence overflow".to_owned())
            } else {
                Ok(base_seq)
            }
        },
    }
}

fn replay_line(
    log: &[u8],
    from: usize,
    end: usize,
    store: &mut Store,
    snapshot_seq: u64,
    expected_seq: u64,
) -> (result: Result<(), String>)
    requires
        from <= end <= log@.len(),
    ensures
        match replayed_line(
            log@.subrange(from as int, end as int),
            old(store)@,
            snapshot_seq,
            expected_seq,
        ) {
            Ok(contents) => result is Ok && final(store)@ == contents && expected_seq < u64::MAX,
            Err(reason) => result is Err && result->Err_0@ == reason,
        },
{
    reveal(replayed_line);
    let ghost line = log@.subrange(from as int, end as int);
    if end - from > MAX_RECORD_BYTES {
        return Err("record exceeds the maximum size".to_owned());
    }
    if end == from || log[end - 1] != 0x0a {
        return Err("truncated final record".to_owned());
    }
    let bytes = copy_bytes(log, from, end - 1);
    assert(bytes@ =~= line.drop_last());
    let text = match decode_text(bytes) {
        Some(text) => text,
        None => {
            return Err("record is not valid UTF-8".to_owned());
        },
    };
    let (seq, command) = match decode_record(text.as_str()) {
        Err(FormatError::Invalid(reason)) => {
            return Err(reason);
        },
        Err(FormatError::UnsupportedCommand) => {
            return Err("unsupported command in WAL".to_owned());
        },
        Ok(record) => record,
    };
    if seq != expected_seq {
        return Err(numbers_message("expected sequence ", expected_seq, ", found ", seq));
    }
    if seq > snapshot_seq {
        match store.execute(command) {
            Ok(_) => {},
            Err(error) => {
                let mut reason = "invalid mutation history: ".to_owned();
                reason.append(error.message().as_str());
                return Err(reason);
            },
        }
    }
    if expected_seq == u64::MAX {
        return Err("sequence number overflow".to_owned());
    }
    Ok(())
}

/// Replays a log over a store that holds the data of the snapshot.
pub fn recover_store(path: &str, log: &[u8], store: Store, snapshot_seq: u64) -> (result: Result<
    (Store, u64),
    PersistenceError,
>)
    ensures
        match recovered(log@, store@, snapshot_seq) {
            Ok((contents, next_seq)) => result is Ok && result->Ok_0.0@ == contents
                && result->Ok_0.1 == next_seq && next_seq > snapshot_seq,
            Err(damage) => result is Err && result->Err_0@ == damage_error(path@, damage),
        },
{
    assert(log@.skip(0) =~= log@);
    let header_end: usize = line_end(log, 0);
    let base_seq: u64 = match read_header(log, header_end, snapshot_seq) {
        Ok(base_seq) => base_seq,
        Err(reason) => {
            return Err(corrupt(path, 1, 0, reason));
        },
    };
    let ghost whole = recovered(log@, store@, snapshot_seq);
    let mut current = store;
    let mut expected_seq: u64 = base_seq + 1;
    let mut line_number: usize = 2;
    let mut offset: usize = header_end;
    while offset < log.len()
        invariant
            2 <= line_number <= offset <= log@.len(),
            expected_seq >= 1,
            whole == recovered(log@, store@, snapshot_seq),
            whole == replayed(
                log@.skip(offset as int),
                current@,
                snapshot_seq,
                expected_seq,
                line_number as nat,
                offset as nat,
            ),
        decreases log@.len() - offset,
    {
        let ghost rest = log@.skip(offset as int);
        let end: usize = line_end(log, offset);
        proof {
            lemma_line_len_bounds(rest);
            assert(rest.take(line_len(rest) as int) =~= log@.subrange(offset as int, end as int));
            assert(rest.skip(line_len(rest) as int) =~= log@.skip(end as int));
        }
        match replay_line(log, offset, end, &mut current, snapshot_seq, expected_seq) {
            Ok(()) => {},
            Err(reason) => {
                return Err(corrupt(path, line_number, offset as u64, reason));
            },
        }
        expected_seq = expected_seq + 1;
        line_number = line_number + 1;
        offset = end;
    }
    assert(log@.skip(offset as int).len() == 0);
    if expected_seq - 1 < snapshot_seq {
        return Err(
            corrupt(
                path,
                line_number,
                offset as u64,
                numbers_message(
                    "WAL ends at sequence ",
                    expected_seq - 1,
                    ", before snapshot sequence ",
                    snapshot_seq,
                ),
            ),
        );
    }
    Ok((current, expected_seq))
}

// ---------------------------------------------------------------------------------------
// The log as a value
// ---------------------------------------------------------------------------------------

/// What is known of an open log: its path, the sequence number of the next record, and
/// whether a write failed.
pub ghost struct WalView {
    pub path: Seq<char>,
    pub next_seq: u64,
    pub failed: bool,
}

/// An open log. Each record carries an ascending sequence number and a checksum.
///
/// The log decides what is to be written; whoever writes it says how that went.
#[derive(Debug)]
pub struct Wal {
    path: String,
    next_seq: u64,
    failed: bool,
}

impl View for Wal {
    type V = WalView;

    closed spec fn view(&self) -> WalView {
        WalView { path: self.path@, next_seq: self.next_seq, failed: self.failed }
    }
}

/// Whether recovery accepts the record of a command by its size.
pub open spec fn record_fits(seq: u64, command: CommandView) -> bool {
    encode_utf8(record_text(seq, command)).len() <= MAX_RECORD_BYTES
}

/// The record that is to be appended for a command. A record that recovery would not accept
/// is refused before anything is written.
pub open spec fn append_plan(wal: WalView, command: CommandView) -> Result<
    Seq<char>,
    PersistenceErrorView,
> {
    if wal.failed {
        Err(PersistenceErrorView::Unavailable { path: wal.path })
    } else if !is_mutation_view(command) {
        Err(PersistenceErrorView::UnsupportedCommand)
    } else if !record_fits(wal.next_seq, command) {
        Err(
            PersistenceErrorView::Corrupt {
                path: wal.path,
                line: 0,
                offset: 0,
                reason: "record exceeds the maximum size"@,
            },
        )
    } else {
        Ok(record_text(wal.next_seq, command))
    }
}

/// The log and the result after a record was written.
pub open spec fn after_append(wal: WalView) -> (WalView, Result<u64, PersistenceErrorView>) {
    if wal.next_seq == u64::MAX {
        (
            WalView { failed: true, ..wal },
            Err(
                PersistenceErrorView::Corrupt {
                    path: wal.path,
                    line: 0,
                    offset: 0,
                    reason: "sequence number overflow"@,
                },
            ),
        )
    } else {
        (WalView { next_seq: (wal.next_seq + 1) as u64, ..wal }, Ok(wal.next_seq))
    }
}

impl Wal {
    #[verifier::type_invariant]
    spec fn well_formed(self) -> bool {
        self.next_seq >= 1
    }

    /// Opens a log without a snapshot.
    pub fn open(path: String, log: &[u8]) -> (result: Result<(Wal, Store), PersistenceError>)
        ensures
            match recovered(log@, Contents::empty(), 0) {
                Ok((contents, next_seq)) => result is Ok && result->Ok_0.1@ == contents
                    && result->Ok_0.0@ == (WalView { path: path@, next_seq, failed: false }),
                Err(damage) => result is Err && result->Err_0@ == damage_error(path@, damage),
            },
    {
        Wal::open_with_store(path, log, Store::new(), 0)
    }

    /// Replays a log over a store that holds the data of the snapshot, and opens it.
    pub fn open_with_store(
        path: String,
        log: &[u8],
        store: Store,
        snapshot_seq: u64,
    ) -> (result: Result<(Wal, Store), PersistenceError>)
        ensures
            match recovered(log@, store@, snapshot_seq) {
                Ok((contents, next_seq)) => result is Ok && result->Ok_0.1@ == contents
                    && result->Ok_0.0@ == (WalView { path: path@, next_seq, failed: false })
                    && next_seq > snapshot_seq,
                Err(damage) => result is Err && result->Err_0@ == damage_error(path@, damage),
            },
    {
        match recover_store(path.as_str(), log, store, snapshot_seq) {
            Ok((store, next_seq)) => Ok((Wal { path, next_seq, failed: false }, store)),
            Err(error) => Err(error),
        }
    }

    /// The record to append for a command. It is refused after an earlier write failed, and
    /// where it is larger than what recovery accepts; the latter leaves the log usable.
    pub fn append(&self, command: &Command) -> (result: Result<String, PersistenceError>)
        ensures
            result_view(result) == append_plan(self@, command@),
    {
        if self.failed {
            return Err(PersistenceError::Unavailable { path: self.path.clone() });
        }
        match encode_record(self.next_seq, command) {
            Ok(record) => if record.as_str().as_bytes().len() > MAX_RECORD_BYTES {
                Err(
                    corrupt(
                        self.path.as_str(),
                        0,
                        0,
                        "record exceeds the maximum size".to_owned(),
                    ),
                )
            } else {
                Ok(record)
            },
            Err(FormatError::UnsupportedCommand) => Err(PersistenceError::UnsupportedCommand),
            Err(FormatError::Invalid(reason)) => Err(corrupt(self.path.as_str(), 0, 0, reason)),
        }
    }

    /// Takes note that the record was written and synchronised; hands back its sequence
    /// number.
    pub fn appended(&mut self) -> (result: Result<u64, PersistenceError>)
        ensures
            (final(self)@, result_view(result)) == after_append(old(self)@),
    {
        proof {
            use_type_invariant(&*self);
        }
        let seq: u64 = self.next_seq;
        match seq.checked_add(1) {
            Some(next_seq) => {
                self.next_seq = next_seq;
                Ok(seq)
            },
            None => {
                self.failed = true;
                Err(corrupt(self.path.as_str(), 0, 0, "sequence number overflow".to_owned()))
            },
        }
    }

    /// Takes note that a write failed: the log is not written to any more.
    pub fn mark_failed(&mut self)
        ensures
            final(self)@ == (WalView { failed: true, ..old(self)@ }),
    {
        proof {
            use_type_invariant(&*self);
        }
        self.failed = true;
    }

    /// The sequence number of the last record that was written.
    #[must_use]
    pub fn last_seq(&self) -> (seq: u64)
        ensures
            seq == self@.next_seq - 1,
    {
        proof {
            use_type_invariant(self);
        }
        self.next_seq - 1
    }

    /// The log that takes the place of this one once a snapshot holds its data: a header
    /// with the last sequence number, and no record.
    ///
    /// Where the log was not yet replaced when the program stopped, the records that the
    /// snapshot holds are passed over; where it was, the snapshot holds all data.
    #[must_use]
    pub fn compact(&self) -> (header: String)
        ensures
            header@ == header_text((self@.next_seq - 1) as u64),
    {
        encode_header(self.last_seq())
    }
}

// ---------------------------------------------------------------------------------------
// Writing the log
// ---------------------------------------------------------------------------------------

/// The steps that append a record to the open log: it is written, flushed and synchronised.
pub open spec fn append_steps(path: Seq<char>, record: Seq<char>) -> Seq<FileStepView> {
    seq![
        FileStepView {
            operation: FileOperationView::WriteText(record),
            path,
            action: "append WAL"@,
            skip: 0,
        },
        FileStepView {
            operation: FileOperationView::Flush,
            path,
            action: "flush WAL"@,
            skip: 0,
        },
        FileStepView {
            operation: FileOperationView::SyncData,
            path,
            action: "sync WAL"@,
            skip: 0,
        },
    ]
}

/// The steps that put a compacted log in place: it is written to a temporary file,
/// synchronised and opened, and only at the end takes the name of the old one. It stays open
/// under its new name, so that nothing can fail after that.
pub open spec fn compact_steps(
    path: Seq<char>,
    temporary: Seq<char>,
    header: Seq<char>,
) -> Seq<FileStepView> {
    seq![
        FileStepView {
            operation: FileOperationView::CreateFile,
            path: temporary,
            action: "create temporary WAL"@,
            skip: 0,
        },
        FileStepView {
            operation: FileOperationView::WriteText(header),
            path: temporary,
            action: "write temporary WAL"@,
            skip: 0,
        },
        FileStepView {
            operation: FileOperationView::SyncAll,
            path: temporary,
            action: "sync temporary WAL"@,
            skip: 0,
        },
        FileStepView {
            operation: FileOperationView::OpenForAppend,
            path: temporary,
            action: "reopen compacted WAL"@,
            skip: 0,
        },
        FileStepView {
            operation: FileOperationView::RenameFrom(temporary),
            path,
            action: "replace WAL"@,
            skip: 0,
        },
    ]
}

/// The steps that create a log where there is none: its directory, and a file that holds a
/// header.
pub open spec fn create_steps(
    parent: Option<Seq<char>>,
    path: Seq<char>,
    header: Seq<char>,
) -> Seq<FileStepView> {
    directory_steps(parent, "create data directory"@) + seq![
        FileStepView {
            operation: FileOperationView::CreateNewFile,
            path,
            action: "create WAL"@,
            skip: 2,
        },
        FileStepView {
            operation: FileOperationView::WriteText(header),
            path,
            action: "write WAL header"@,
            skip: 0,
        },
        FileStepView {
            operation: FileOperationView::SyncAll,
            path,
            action: "sync WAL header"@,
            skip: 0,
        },
    ]
}

/// The steps that create a log where there is none, for a snapshot that holds the given
/// sequence number.
pub open spec fn new_log_steps(
    parent: Option<Seq<char>>,
    path: Seq<char>,
    base_seq: u64,
) -> Seq<FileStepView> {
    create_steps(parent, path, header_text(base_seq))
}

/// The script that appends a record.
#[must_use]
pub fn append_script(path: &String, record: String) -> (script: FileScript)
    ensures
        script@ == (ScriptView { steps: append_steps(path@, record@), at: 0 }),
{
    let mut steps: Vec<FileStep> = Vec::new();
    steps.push(plain_step(FileOperation::WriteText(record), path, "append WAL"));
    steps.push(plain_step(FileOperation::Flush, path, "flush WAL"));
    steps.push(plain_step(FileOperation::SyncData, path, "sync WAL"));
    assert(step_views(steps@) =~= append_steps(path@, record@));
    FileScript::new(steps)
}

/// The script that puts a compacted log in place.
#[must_use]
pub fn compact_script(path: &String, temporary: &String, header: String) -> (script: FileScript)
    ensures
        script@ == (ScriptView { steps: compact_steps(path@, temporary@, header@), at: 0 }),
{
    let mut steps: Vec<FileStep> = Vec::new();
    steps.push(plain_step(FileOperation::CreateFile, temporary, "create temporary WAL"));
    steps.push(plain_step(FileOperation::WriteText(header), temporary, "write temporary WAL"));
    steps.push(plain_step(FileOperation::SyncAll, temporary, "sync temporary WAL"));
    steps.push(plain_step(FileOperation::OpenForAppend, temporary, "reopen compacted WAL"));
    steps.push(
        plain_step(FileOperation::RenameFrom(temporary.clone()), path, "replace WAL"),
    );
    assert(step_views(steps@) =~= compact_steps(path@, temporary@, header@));
    FileScript::new(steps)
}

/// The script that creates a log where there is none, for a snapshot that holds the given
/// sequence number.
#[must_use]
pub fn create_script(parent: &Option<String>, path: &String, base_seq: u64) -> (script: FileScript)
    ensures
        script@ == (ScriptView {
            steps: new_log_steps(crate::option_view(*parent), path@, base_seq),
            at: 0,
        }),
{
    let header = encode_header(base_seq);
    let mut steps: Vec<FileStep> = Vec::new();
    match parent {
        None => {},
        Some(directory) => {
            steps.push(
                plain_step(FileOperation::CreateDirectory, directory, "create data directory"),
            );
        },
    }
    steps.push(
        FileStep {
            operation: FileOperation::CreateNewFile,
            path: path.clone(),
            action: "create WAL",
            skip: 2,
        },
    );
    steps.push(plain_step(FileOperation::WriteText(header), path, "write WAL header"));
    steps.push(plain_step(FileOperation::SyncAll, path, "sync WAL header"));
    assert(step_views(steps@) =~= create_steps(
        crate::option_view(*parent),
        path@,
        header_text(base_seq),
    ));
    FileScript::new(steps)
}

/// A compacted log that cannot be put in place leaves the old one alone: up to the last step
/// the log holds what it held. The last step gives it the header, and nothing else. The paths
/// must differ.
pub proof fn law_old_log_stays_until_it_is_replaced(
    path: Seq<char>,
    temporary: Seq<char>,
    header: Seq<char>,
    files: Files,
    done: int,
)
    requires
        temporary != path,
        0 <= done <= compact_steps(path, temporary, header).len(),
    ensures
        ({
            let steps = compact_steps(path, temporary, header);
            let stopped = after_steps(files, steps.take(done));
            &&& done < steps.len() ==> bytes_of(stopped, path) == bytes_of(files, path)
            &&& done < steps.len() ==> same_file(files, stopped, path)
            &&& done == steps.len() ==> stopped.contents.contains_key(path)
                && stopped.contents[path] == FileContent::Bytes(encode_utf8(header))
        }),
{
    let steps = compact_steps(path, temporary, header);
    let part = steps.take(done);
    if done < steps.len() {
        assert forall|i: int| 0 <= i < part.len() implies leaves_alone(
            #[trigger] part[i],
            path,
        ) by {
            assert(part[i] == steps[i]);
        }
        law_untouched_files_stay(files, part, path);
    } else {
        assert(steps.take(0) =~= Seq::empty());
        lemma_after_steps(files, steps, 0);
        lemma_after_steps(files, steps, 1);
        lemma_after_steps(files, steps, 2);
        assert(Seq::<u8>::empty() + encode_utf8(header) =~= encode_utf8(header));
        lemma_after_steps(files, steps, 3);
        lemma_after_steps(files, steps, 4);
    }
}

/// A script for a compacted log that ends with an error, wherever and however it fails, leaves
/// the log as it was. The paths must differ.
pub proof fn law_failed_compaction_keeps_the_log(
    path: Seq<char>,
    temporary: Seq<char>,
    header: Seq<char>,
    files: Files,
    failure: Option<Failure>,
)
    requires
        temporary != path,
        ran(
            files,
            ScriptView { steps: compact_steps(path, temporary, header), at: 0 },
            failure,
        ).2 is Err,
    ensures
        ({
            let script = ScriptView { steps: compact_steps(path, temporary, header), at: 0 };
            let after = ran(files, script, failure).0;
            &&& same_file(files, after, path)
            &&& bytes_of(after, path) == bytes_of(files, path)
        }),
{
    let script = ScriptView { steps: compact_steps(path, temporary, header), at: 0 };
    law_failed_script_leaves_alone(files, script, failure, path);
}

/// A record that was appended stands at the end of the log, behind all that was there.
pub proof fn law_appended_record_is_at_the_end(
    path: Seq<char>,
    record: Seq<char>,
    files: Files,
)
    ensures
        bytes_of(after_steps(files, append_steps(path, record)), path) == bytes_of(files, path)
            + encode_utf8(record),
{
    let steps = append_steps(path, record);
    assert(steps.take(0) =~= Seq::empty());
    lemma_after_steps(files, steps, 0);
    lemma_after_steps(files, steps, 1);
    lemma_after_steps(files, steps, 2);
    assert(steps.take(3) =~= steps);
}

/// A log that was created holds its header and nothing else.
pub proof fn law_new_log_holds_its_header(
    parent: Option<Seq<char>>,
    path: Seq<char>,
    header: Seq<char>,
    files: Files,
)
    ensures
        bytes_of(after_steps(files, create_steps(parent, path, header)), path) == encode_utf8(
            header,
        ),
{
    let steps = create_steps(parent, path, header);
    let first = steps.len() - 3;
    assert(steps.take(0) =~= Seq::empty());
    if first == 1 {
        lemma_after_steps(files, steps, 0);
    }
    lemma_after_steps(files, steps, first);
    lemma_after_steps(files, steps, first + 1);
    lemma_after_steps(files, steps, first + 2);
    assert(Seq::<u8>::empty() + encode_utf8(header) =~= encode_utf8(header));
    assert(steps.take(first + 3) =~= steps);
}

/// A log is created only where there is none: a script that is resumed with what is reported
/// of each step, on files where nothing fails, leaves a log that is there as it is, and else
/// makes one that holds its header and nothing else.
pub proof fn law_create_script_runs(
    parent: Option<Seq<char>>,
    path: Seq<char>,
    header: Seq<char>,
    files: Files,
)
    ensures
        ({
            let steps = create_steps(parent, path, header);
            let (after, script, result) = ran(files, ScriptView { steps, at: 0 }, None);
            &&& result is Ok
            &&& script == (ScriptView { steps, at: steps.len() })
            &&& files.contents.contains_key(path) ==> after == files
            &&& !files.contents.contains_key(path) ==> after == after_steps(files, steps)
                && bytes_of(after, path) == encode_utf8(header)
        }),
{
    let steps = create_steps(parent, path, header);
    let n = steps.len();
    let first = n - 3;
    law_new_log_holds_its_header(parent, path, header, files);
    assert(steps.take(0) =~= Seq::empty());
    if first == 1 {
        lemma_after_steps(files, steps, 0);
    }
    lemma_after_steps(files, steps, first);
    lemma_after_steps(files, steps, first + 1);
    lemma_after_steps(files, steps, first + 2);
    assert(steps.take(n as int) =~= steps);
    if files.contents.contains_key(path) {
        lemma_ran_in_order(files, steps, first as nat);
        assert(ran(files, ScriptView { steps, at: first as nat }, None) == ran(
            files,
            ScriptView { steps, at: n },
            None,
        ));
    } else {
        assert forall|i: int| 0 <= i < n implies {
            let before = after_steps(files, #[trigger] steps.take(i));
            let script = ScriptView { steps, at: i as nat };
            &&& !(reported(before, steps[i]) is NotNeeded)
            &&& script_after(script, reported(before, steps[i])) == Ok::<_, PersistenceErrorView>(
                ScriptView { steps, at: (i + 1) as nat },
            )
        } by {}
        lemma_ran_in_order(files, steps, n);
    }
}

// ---------------------------------------------------------------------------------------
// Laws
// ---------------------------------------------------------------------------------------

/// Whether a record fits depends on the bytes of the key and of the value alone, but for the
/// digits of the sequence number. Up to half of what recovery accepts, less twenty-one bytes,
/// they always fit.
pub proof fn law_which_records_fit(seq: u64, command: CommandView)
    requires
        is_mutation_view(command),
    ensures
        ({
            let (_, key, value) = logged_parts(command);
            let bytes = encode_utf8(key).len() + encode_utf8(value).len();
            &&& record_fits(seq, command) <==> decimal(seq as nat).len() + 2 * bytes + 22
                <= MAX_RECORD_BYTES
            &&& bytes + 21 <= MAX_RECORD_BYTES / 2 ==> record_fits(seq, command)
            &&& bytes + 21 <= 512 * 1024 ==> record_fits(seq, command)
        }),
{
    lemma_record_len(seq, command);
}

/// Lines that were replayed stay replayed when more lines follow.
proof fn lemma_replayed_append(
    first: Seq<u8>,
    more: Seq<u8>,
    contents: Contents,
    snapshot_seq: u64,
    expected_seq: u64,
    line: nat,
    offset: nat,
) -> (next_line: nat)
    requires
        replayed(first, contents, snapshot_seq, expected_seq, line, offset) is Ok,
    ensures
        replayed(first + more, contents, snapshot_seq, expected_seq, line, offset) == ({
            let (middle, next_seq) = replayed(
                first,
                contents,
                snapshot_seq,
                expected_seq,
                line,
                offset,
            )->Ok_0;
            replayed(more, middle, snapshot_seq, next_seq, next_line, offset + first.len())
        }),
    decreases first.len(),
{
    if first.len() == 0 {
        assert(first + more =~= more);
        line
    } else {
        let len = line_len(first) as int;
        lemma_line_len_bounds(first);
        let head = first.take(len);
        assert(head.last() == 0x0a) by {
            reveal(replayed_line);
        }
        lemma_line_len_append(first, more);
        assert((first + more).take(len) =~= head);
        assert((first + more).skip(len) =~= first.skip(len) + more);
        let next = replayed_line(head, contents, snapshot_seq, expected_seq)->Ok_0;
        lemma_replayed_append(
            first.skip(len),
            more,
            next,
            snapshot_seq,
            (expected_seq + 1) as u64,
            line + 1,
            offset + line_len(first),
        )
    }
}

/// A log that was replayed stays replayed when more lines follow.
proof fn lemma_recovered_append(
    log: Seq<u8>,
    more: Seq<u8>,
    contents: Contents,
    snapshot_seq: u64,
) -> (next_line: nat)
    requires
        recovered(log, contents, snapshot_seq) is Ok,
    ensures
        recovered(log + more, contents, snapshot_seq) == ({
            let (middle, next_seq) = recovered(log, contents, snapshot_seq)->Ok_0;
            replayed(more, middle, snapshot_seq, next_seq, next_line, log.len())
        }),
{
    let len = line_len(log) as int;
    lemma_line_len_bounds(log);
    assert(log.len() > 0 && log[len - 1] == 0x0a) by {
        reveal(header_base);
        assert(log.take(len).last() == log[len - 1]);
    }
    lemma_line_len_append(log, more);
    assert((log + more).take(len) =~= log.take(len));
    assert((log + more).skip(len) =~= log.skip(len) + more);
    assert(header_base(log + more, snapshot_seq) == header_base(log, snapshot_seq)) by {
        reveal(header_base);
    }
    let base_seq = header_base(log, snapshot_seq)->Ok_0;
    lemma_replayed_append(
        log.skip(len),
        more,
        contents,
        snapshot_seq,
        (base_seq + 1) as u64,
        2,
        line_len(log),
    )
}

/// The bytes of a record are one line.
proof fn lemma_record_bytes(seq: u64, command: CommandView)
    requires
        is_mutation_view(command),
    ensures
        ({
            let bytes = encode_utf8(record_text(seq, command));
            &&& bytes.len() > 1
            &&& bytes.last() == 0x0a
            &&& bytes.drop_last() == encode_utf8(record_line(seq, command))
            &&& forall|i: int| 0 <= i < bytes.len() - 1 ==> #[trigger] bytes[i] != 0x0a
        }),
{
    lemma_record_characters(seq, command);
    lemma_ascii_line(record_line(seq, command));
}

proof fn lemma_not_a_break(c: char)
    requires
        (c as u32) < 0x80,
        c != '\n',
    ensures
        c as u8 != 0x0a,
{
}

/// A line of ASCII characters, as bytes.
proof fn lemma_ascii_line(line: Seq<char>)
    requires
        line.len() > 0,
        forall|i: int|
            0 <= i < line.len() ==> (#[trigger] line[i] as u32) < 0x80 && line[i] != '\n',
    ensures
        ({
            let bytes = encode_utf8(line.push('\n'));
            &&& bytes.len() == line.len() + 1
            &&& bytes.last() == 0x0a
            &&& bytes.drop_last() == encode_utf8(line)
            &&& forall|i: int| 0 <= i < bytes.len() - 1 ==> #[trigger] bytes[i] != 0x0a
        }),
{
    let text = line.push('\n');
    let bytes = encode_utf8(text);
    assert forall|i: int| 0 <= i < text.len() implies (#[trigger] text[i] as u32) < 0x80 by {
        if i < line.len() {
            assert(text[i] == line[i]);
        }
    }
    lemma_encode_ascii_text(text);
    lemma_encode_ascii_text(line);
    assert(bytes[text.len() - 1] == '\n' as u8);
    assert forall|i: int| 0 <= i < line.len() implies #[trigger] bytes[i] != 0x0a && bytes[i]
        == encode_utf8(line)[i] by {
        let c: char = line[i];
        assert(text[i] == c && bytes[i] == c as u8 && encode_utf8(line)[i] == c as u8);
        lemma_not_a_break(c);
    }
    assert(bytes.drop_last() =~= encode_utf8(line));
}

/// A mutation survives a restart: recovery of a log to which its record was appended gives
/// the data after the mutation. The next sequence number must exist.
pub proof fn law_append_then_recover(
    log: Seq<u8>,
    contents: Contents,
    snapshot_seq: u64,
    wal: WalView,
    command: CommandView,
)
    requires
        recovered(log, contents, snapshot_seq) is Ok,
        append_plan(wal, command) is Ok,
        wal.next_seq < u64::MAX,
        ({
            let (current, next_seq) = recovered(log, contents, snapshot_seq)->Ok_0;
            &&& validation(current, command) is Ok
            &&& next_seq == wal.next_seq
        }),
    ensures
        ({
            let (current, next_seq) = recovered(log, contents, snapshot_seq)->Ok_0;
            recovered(
                log + encode_utf8(append_plan(wal, command)->Ok_0),
                contents,
                snapshot_seq,
            ) == Ok::<_, Damage>((applied(current, command), (next_seq + 1) as u64))
        }),
{
    let (current, next_seq) = recovered(log, contents, snapshot_seq)->Ok_0;
    let record = encode_utf8(record_text(next_seq, command));
    let next_line = lemma_recovered_append(log, record, contents, snapshot_seq);
    lemma_recovered_bound(log, contents, snapshot_seq);
    lemma_record_bytes(next_seq, command);
    lemma_line_len(record, record.len() as int);
    assert(record.take(record.len() as int) =~= record);
    lemma_decode_of_encode(record_line(next_seq, command));
    law_record_round_trip(next_seq, command);
    assert(replayed_line(record, current, snapshot_seq, next_seq) == Ok::<_, Seq<char>>(
        applied(current, command),
    )) by {
        reveal(replayed_line);
    }
    let rest = record.skip(record.len() as int);
    assert(rest.len() == 0);
    assert(replayed(
        rest,
        applied(current, command),
        snapshot_seq,
        (next_seq + 1) as u64,
        next_line + 1,
        log.len() + record.len(),
    ) == Ok::<_, Damage>((applied(current, command), (next_seq + 1) as u64)));
}

/// A record that was only written in part is noticed: recovery refuses the log and names
/// the place where the record begins.
pub proof fn law_torn_append_is_refused(
    log: Seq<u8>,
    contents: Contents,
    snapshot_seq: u64,
    seq: u64,
    command: CommandView,
    written: int,
)
    requires
        recovered(log, contents, snapshot_seq) is Ok,
        is_mutation_view(command),
        0 < written < encode_utf8(record_text(seq, command)).len(),
    ensures
        ({
            let torn = encode_utf8(record_text(seq, command)).take(written);
            let result = recovered(log + torn, contents, snapshot_seq);
            result is Err && result->Err_0.offset == log.len()
        }),
{
    let record = encode_utf8(record_text(seq, command));
    let torn = record.take(written);
    let next_line = lemma_recovered_append(log, torn, contents, snapshot_seq);
    let (current, next_seq) = recovered(log, contents, snapshot_seq)->Ok_0;
    lemma_record_bytes(seq, command);
    assert forall|i: int| 0 <= i < torn.len() implies #[trigger] torn[i] != 0x0a by {
        assert(torn[i] == record[i]);
    }
    lemma_line_len(torn, written);
    assert(torn.take(written) =~= torn);
    assert(replayed_line(torn, current, snapshot_seq, next_seq) is Err) by {
        reveal(replayed_line);
        assert(torn.last() == torn[written - 1]);
    }
}

proof fn lemma_replayed_bound(
    rest: Seq<u8>,
    contents: Contents,
    snapshot_seq: u64,
    expected_seq: u64,
    line: nat,
    offset: nat,
)
    requires
        replayed(rest, contents, snapshot_seq, expected_seq, line, offset) is Ok,
        expected_seq >= 1,
    ensures
        ({
            let next_seq = replayed(
                rest,
                contents,
                snapshot_seq,
                expected_seq,
                line,
                offset,
            )->Ok_0.1;
            &&& next_seq >= expected_seq
            &&& rest.len() > 0 ==> next_seq > expected_seq
            &&& next_seq > snapshot_seq
        }),
    decreases rest.len(),
{
    if rest.len() > 0 {
        let len = line_len(rest) as int;
        lemma_line_len_bounds(rest);
        assert(expected_seq < u64::MAX) by {
            reveal(replayed_line);
        }
        let next = replayed_line(rest.take(len), contents, snapshot_seq, expected_seq)->Ok_0;
        lemma_replayed_bound(
            rest.skip(len),
            next,
            snapshot_seq,
            (expected_seq + 1) as u64,
            line + 1,
            offset + line_len(rest),
        );
    }
}

/// The sequence number that follows a recovered log is above that of the snapshot.
pub proof fn lemma_recovered_bound(log: Seq<u8>, contents: Contents, snapshot_seq: u64)
    requires
        recovered(log, contents, snapshot_seq) is Ok,
    ensures
        recovered(log, contents, snapshot_seq)->Ok_0.1 > snapshot_seq,
        header_base(log, snapshot_seq) is Ok,
        header_base(log, snapshot_seq)->Ok_0 <= snapshot_seq,
        header_base(log, snapshot_seq)->Ok_0 < u64::MAX,
        header_base(log, snapshot_seq)->Ok_0 < recovered(log, contents, snapshot_seq)->Ok_0.1,
{
    let base_seq = header_base(log, snapshot_seq)->Ok_0;
    assert(base_seq <= snapshot_seq && base_seq < u64::MAX) by {
        reveal(header_base);
    }
    lemma_replayed_bound(
        log.skip(line_len(log) as int),
        contents,
        snapshot_seq,
        (base_seq + 1) as u64,
        2,
        line_len(log),
    );
}

proof fn lemma_replayed_covered(
    rest: Seq<u8>,
    contents: Contents,
    snapshot_seq: u64,
    expected_seq: u64,
    line: nat,
    offset: nat,
    covered: Contents,
)
    requires
        replayed(rest, contents, snapshot_seq, expected_seq, line, offset) is Ok,
        expected_seq >= 1,
    ensures
        ({
            let next_seq = replayed(
                rest,
                contents,
                snapshot_seq,
                expected_seq,
                line,
                offset,
            )->Ok_0.1;
            replayed(rest, covered, (next_seq - 1) as u64, expected_seq, line, offset) == Ok::<
                _,
                Damage,
            >((covered, next_seq))
        }),
    decreases rest.len(),
{
    let next_seq = replayed(rest, contents, snapshot_seq, expected_seq, line, offset)->Ok_0.1;
    lemma_replayed_bound(rest, contents, snapshot_seq, expected_seq, line, offset);
    if rest.len() > 0 {
        let len = line_len(rest) as int;
        lemma_line_len_bounds(rest);
        let head = rest.take(len);
        let next = replayed_line(head, contents, snapshot_seq, expected_seq)->Ok_0;
        assert(expected_seq < u64::MAX && replayed_line(
            head,
            covered,
            (next_seq - 1) as u64,
            expected_seq,
        ) == Ok::<_, Seq<char>>(covered)) by {
            reveal(replayed_line);
        }
        lemma_replayed_covered(
            rest.skip(len),
            next,
            snapshot_seq,
            (expected_seq + 1) as u64,
            line + 1,
            offset + line_len(rest),
            covered,
        );
    }
}

/// Records that the snapshot holds are not applied again: when a new snapshot holds all
/// that a log led to, the old log leads from the snapshot to the same data and the same
/// next sequence number. So nothing is lost and nothing is done twice where the program
/// stops between the new snapshot and the compaction of the log.
pub proof fn law_covered_log_changes_nothing(
    log: Seq<u8>,
    contents: Contents,
    snapshot_seq: u64,
    covered: Contents,
)
    requires
        recovered(log, contents, snapshot_seq) is Ok,
    ensures
        ({
            let next_seq = recovered(log, contents, snapshot_seq)->Ok_0.1;
            recovered(log, covered, (next_seq - 1) as u64) == Ok::<_, Damage>((covered, next_seq))
        }),
{
    let next_seq = recovered(log, contents, snapshot_seq)->Ok_0.1;
    lemma_recovered_bound(log, contents, snapshot_seq);
    let base_seq = header_base(log, snapshot_seq)->Ok_0;
    assert(header_base(log, (next_seq - 1) as u64) == Ok::<u64, Seq<char>>(base_seq)) by {
        reveal(header_base);
    }
    lemma_replayed_covered(
        log.skip(line_len(log) as int),
        contents,
        snapshot_seq,
        (base_seq + 1) as u64,
        2,
        line_len(log),
        covered,
    );
}

/// A compacted log leads from its snapshot to the data of the snapshot; so does the log of a
/// first start. The next sequence number must exist.
pub proof fn law_compacted_log_recovers(contents: Contents, last_seq: u64)
    requires
        last_seq < u64::MAX,
    ensures
        recovered(encode_utf8(header_text(last_seq)), contents, last_seq) == Ok::<_, Damage>(
            (contents, (last_seq + 1) as u64),
        ),
{
    let log = encode_utf8(header_text(last_seq));
    lemma_header_characters(last_seq);
    lemma_ascii_line(header_line(last_seq));
    lemma_line_len(log, log.len() as int);
    assert(log.take(log.len() as int) =~= log);
    lemma_decode_of_encode(header_line(last_seq));
    law_header_round_trip(last_seq);
    assert(header_base(log, last_seq) == Ok::<u64, Seq<char>>(last_seq)) by {
        reveal(header_base);
    }
    assert(log.skip(log.len() as int).len() == 0);
}

proof fn lemma_replayed_finite(
    rest: Seq<u8>,
    contents: Contents,
    snapshot_seq: u64,
    expected_seq: u64,
    line: nat,
    offset: nat,
)
    requires
        contents.dom().finite(),
        replayed(rest, contents, snapshot_seq, expected_seq, line, offset) is Ok,
    ensures
        replayed(
            rest,
            contents,
            snapshot_seq,
            expected_seq,
            line,
            offset,
        )->Ok_0.0.dom().finite(),
    decreases rest.len(),
{
    if rest.len() > 0 {
        let len = line_len(rest) as int;
        lemma_line_len_bounds(rest);
        let next = replayed_line(rest.take(len), contents, snapshot_seq, expected_seq)->Ok_0;
        assert(next.dom().finite()) by {
            reveal(replayed_line);
        }
        lemma_replayed_finite(
            rest.skip(len),
            next,
            snapshot_seq,
            (expected_seq + 1) as u64,
            line + 1,
            offset + line_len(rest),
        );
    }
}

/// Recovery from finite data gives finite data.
pub proof fn lemma_recovered_finite(log: Seq<u8>, contents: Contents, snapshot_seq: u64)
    requires
        contents.dom().finite(),
        recovered(log, contents, snapshot_seq) is Ok,
    ensures
        recovered(log, contents, snapshot_seq)->Ok_0.0.dom().finite(),
{
    let base_seq = header_base(log, snapshot_seq)->Ok_0;
    lemma_replayed_finite(
        log.skip(line_len(log) as int),
        contents,
        snapshot_seq,
        (base_seq + 1) as u64,
        2,
        line_len(log),
    );
}

/// A record of the log counts just where it has the sequence number that is expected, there is
/// a next one, and, unless the snapshot holds it already, its mutation is allowed. It then does
/// what it stands for, once.
pub proof fn law_replay_follows_the_rules(
    seq: u64,
    command: CommandView,
    contents: Contents,
    snapshot_seq: u64,
    expected_seq: u64,
)
    requires
        seq > 0,
        is_mutation_view(command),
        record_fits(seq, command),
    ensures
        ({
            let line = encode_utf8(record_text(seq, command));
            let result = replayed_line(line, contents, snapshot_seq, expected_seq);
            &&& result is Ok <==> seq == expected_seq && seq < u64::MAX && (seq <= snapshot_seq
                || answer(contents, command) is Ok)
            &&& result is Ok && seq <= snapshot_seq ==> result->Ok_0 == contents
            &&& result is Ok && seq > snapshot_seq ==> result->Ok_0 == applied(contents, command)
            &&& seq != expected_seq ==> result == Err::<Contents, _>(
                "expected sequence "@ + decimal(expected_seq as nat) + ", found "@ + decimal(
                    seq as nat,
                ),
            )
            &&& seq == expected_seq && seq > snapshot_seq ==> (answer(contents, command)
                matches Err(error) ==> error.text().is_suffix_of(result->Err_0))
        }),
{
    reveal(replayed_line);
    if answer(contents, command) is Err {
        let cause = answer(contents, command)->Err_0.text();
        let reason = "invalid mutation history: "@ + cause;
        assert(reason.skip(reason.len() - cause.len()) =~= cause);
    }
    lemma_record_bytes(seq, command);
    lemma_decode_of_encode(record_line(seq, command));
    law_record_round_trip(seq, command);
}

/// A line that is too long, has no line break or is no UTF-8 is refused.
pub proof fn law_which_lines_are_refused(
    line: Seq<u8>,
    contents: Contents,
    snapshot_seq: u64,
    expected_seq: u64,
)
    requires
        line.len() > MAX_RECORD_BYTES || line.len() == 0 || line.last() != 0x0a || !valid_utf8(
            line.drop_last(),
        ),
    ensures
        replayed_line(line, contents, snapshot_seq, expected_seq) is Err,
        line.len() > 1024 * 1024 ==> replayed_line(line, contents, snapshot_seq, expected_seq)
            == Err::<Contents, _>("record exceeds the maximum size"@),
{
    reveal(replayed_line);
}

/// A log must begin where its snapshot ends, or before that, and reach it: one that begins
/// behind it is refused at its header, and one that ends before it is refused too.
pub proof fn law_log_must_meet_the_snapshot(
    base_seq: u64,
    rest: Seq<u8>,
    contents: Contents,
    snapshot_seq: u64,
)
    ensures
        base_seq > snapshot_seq ==> {
            let result = recovered(
                encode_utf8(header_text(base_seq)) + rest,
                contents,
                snapshot_seq,
            );
            &&& result is Err
            &&& result->Err_0.line == 1
            &&& result->Err_0.offset == 0
            &&& result->Err_0.reason == "WAL starts after sequence "@ + decimal(base_seq as nat)
                + ", but snapshot only contains "@ + decimal(snapshot_seq as nat)
        },
        base_seq < snapshot_seq ==> recovered(
            encode_utf8(header_text(base_seq)),
            contents,
            snapshot_seq,
        ) is Err,
{
    let header = encode_utf8(header_text(base_seq));
    let log = header + rest;
    lemma_header_characters(base_seq);
    lemma_ascii_line(header_line(base_seq));
    lemma_line_len(header, header.len() as int);
    lemma_line_len_append(header, rest);
    assert(log.take(header.len() as int) =~= header);
    assert(header.take(header.len() as int) =~= header);
    lemma_decode_of_encode(header_line(base_seq));
    law_header_round_trip(base_seq);
    reveal(header_base);
    assert(header.skip(header.len() as int).len() == 0);
}

/// The number of line breaks in a byte string.
pub open spec fn breaks(bytes: Seq<u8>) -> nat
    decreases bytes.len(),
{
    if bytes.len() == 0 {
        0
    } else {
        breaks(bytes.drop_last()) + if bytes.last() == 0x0a {
            1nat
        } else {
            0
        }
    }
}

proof fn lemma_breaks_add_up(a: Seq<u8>, b: Seq<u8>)
    ensures
        breaks(a + b) == breaks(a) + breaks(b),
    decreases b.len(),
{
    if b.len() == 0 {
        assert(a + b =~= a);
    } else {
        lemma_breaks_add_up(a, b.drop_last());
        assert((a + b).drop_last() =~= a + b.drop_last());
    }
}

proof fn lemma_no_break(bytes: Seq<u8>)
    requires
        forall|i: int| 0 <= i < bytes.len() ==> #[trigger] bytes[i] != 0x0a,
    ensures
        breaks(bytes) == 0,
    decreases bytes.len(),
{
    if bytes.len() > 0 {
        let front = bytes.drop_last();
        assert forall|i: int| 0 <= i < front.len() implies #[trigger] front[i] != 0x0a by {
            assert(bytes[i] == front[i]);
        }
        lemma_no_break(front);
        assert(bytes[bytes.len() - 1] != 0x0a);
    }
}

proof fn lemma_one_break(bytes: Seq<u8>)
    requires
        bytes.len() > 0,
        line_len(bytes) > 0,
        bytes[line_len(bytes) - 1] == 0x0a,
    ensures
        breaks(bytes.take(line_len(bytes) as int)) == 1,
{
    let len = line_len(bytes) as int;
    crate::lines::law_line_ends_at_its_break(bytes);
    let head = bytes.take(len);
    let front = head.drop_last();
    assert forall|i: int| 0 <= i < front.len() implies #[trigger] front[i] != 0x0a by {
        assert(bytes[i] == front[i]);
    }
    lemma_no_break(front);
}

proof fn lemma_damage_in_lines(
    rest: Seq<u8>,
    contents: Contents,
    snapshot_seq: u64,
    expected_seq: u64,
    line: nat,
    offset: nat,
)
    requires
        replayed(rest, contents, snapshot_seq, expected_seq, line, offset) is Err,
    ensures
        ({
            let damage = replayed(
                rest,
                contents,
                snapshot_seq,
                expected_seq,
                line,
                offset,
            )->Err_0;
            &&& offset <= damage.offset <= offset + rest.len()
            &&& damage.line == line + breaks(rest.take(damage.offset - offset))
        }),
    decreases rest.len(),
{
    let damage = replayed(rest, contents, snapshot_seq, expected_seq, line, offset)->Err_0;
    assert(rest.take(0) =~= Seq::empty());
    if rest.len() > 0 {
        let len = line_len(rest) as int;
        lemma_line_len_bounds(rest);
        let head = rest.take(len);
        let result = replayed_line(head, contents, snapshot_seq, expected_seq);
        if result is Ok {
            assert(head.last() == 0x0a) by {
                reveal(replayed_line);
            }
            assert(rest[len - 1] == head.last());
            lemma_one_break(rest);
            lemma_damage_in_lines(
                rest.skip(len),
                result->Ok_0,
                snapshot_seq,
                (expected_seq + 1) as u64,
                line + 1,
                offset + line_len(rest),
            );
            let left = rest.skip(len).take(damage.offset - offset - len);
            lemma_breaks_add_up(head, left);
            assert(rest.take(damage.offset - offset) =~= head + left);
        }
    }
}

/// A damaged log is refused with the place of the damage: the line is the one in which the
/// byte stands, counted from one.
pub proof fn law_damage_is_located(log: Seq<u8>, contents: Contents, snapshot_seq: u64)
    ensures
        recovered(log, contents, snapshot_seq) matches Err(damage) ==> damage.offset <= log.len()
            && damage.line == 1 + breaks(log.take(damage.offset as int)),
{
    assert(log.take(0) =~= Seq::empty());
    if recovered(log, contents, snapshot_seq) is Err && header_base(log, snapshot_seq) is Ok {
        let damage = recovered(log, contents, snapshot_seq)->Err_0;
        let len = line_len(log) as int;
        lemma_line_len_bounds(log);
        let head = log.take(len);
        assert(head.len() > 0 && head.last() == 0x0a) by {
            reveal(header_base);
        }
        assert(log[len - 1] == head.last());
        lemma_one_break(log);
        let base_seq = header_base(log, snapshot_seq)->Ok_0;
        lemma_damage_in_lines(
            log.skip(len),
            contents,
            snapshot_seq,
            (base_seq + 1) as u64,
            2,
            line_len(log),
        );
        let left = log.skip(len).take(damage.offset - len);
        lemma_breaks_add_up(head, left);
        assert(log.take(damage.offset as int) =~= head + left);
    }
}

/// The damage of a log is reported as it is, with the path of the log.
pub proof fn law_damage_is_reported(path: Seq<char>, damage: Damage)
    ensures
        damage_error(path, damage) matches PersistenceErrorView::Corrupt {
            path: named,
            line,
            offset,
            reason,
        } && named == path && line == damage.line && offset == damage.offset && reason
            == damage.reason,
{
}

/// Each record takes the next sequence number, which is handed back; behind the largest one the
/// log is not written to any more.
pub proof fn law_sequence_numbers_ascend(wal: WalView)
    ensures
        ({
            let (next, result) = after_append(wal);
            &&& wal.next_seq < u64::MAX ==> {
                &&& result == Ok::<_, PersistenceErrorView>(wal.next_seq)
                &&& next.next_seq == wal.next_seq + 1
                &&& next.failed == wal.failed
            }
            &&& wal.next_seq == u64::MAX ==> result is Err && next.failed && next.next_seq
                == wal.next_seq
            &&& next.path == wal.path
        }),
{
}

/// A record is planned just for a mutation that fits, in a log that has not failed. It is read
/// back as that mutation, under the next sequence number.
pub proof fn law_planned_record_is_read_back(wal: WalView, command: CommandView)
    requires
        wal.next_seq > 0,
    ensures
        append_plan(wal, command) is Ok <==> !wal.failed && is_mutation_view(command)
            && record_fits(wal.next_seq, command),
        append_plan(wal, command) matches Ok(record) ==> {
            &&& record.len() > 0 && record.last() == '\n'
            &&& decoded_record(record.drop_last()) == Ok::<_, FormatErrorView>(
                (wal.next_seq, command),
            )
        },
        wal.failed ==> append_plan(wal, command) == Err::<Seq<char>, _>(
            PersistenceErrorView::Unavailable { path: wal.path },
        ),
        !wal.failed && !is_mutation_view(command) ==> append_plan(wal, command) == Err::<
            Seq<char>,
            _,
        >(PersistenceErrorView::UnsupportedCommand),
{
    if append_plan(wal, command) is Ok {
        law_record_round_trip(wal.next_seq, command);
        assert(record_text(wal.next_seq, command).drop_last() =~= record_line(
            wal.next_seq,
            command,
        ));
    }
}

/// What is written to the log is synchronised before the script comes to its end, and before
/// the file takes another name; what is appended is flushed before that.
pub proof fn law_written_logs_are_synchronised(
    parent: Option<Seq<char>>,
    path: Seq<char>,
    temporary: Seq<char>,
    text: Seq<char>,
)
    ensures
        made_durable(append_steps(path, text)),
        made_durable(compact_steps(path, temporary, text)),
        made_durable(create_steps(parent, path, text)),
        flushed_before_sync(append_steps(path, text)),
{
    let appended = append_steps(path, text);
    assert(syncs(appended[2], path));
    assert(flushes(appended[1], path));
    let compacted = compact_steps(path, temporary, text);
    assert(syncs(compacted[2], temporary));
    let created = create_steps(parent, path, text);
    let n = created.len() as int;
    assert(syncs(created[n - 1], path));
    assert forall|i: int| 0 <= i < n && writes(#[trigger] created[i]) implies durable_at(
        created,
        i,
    ) by {
        assert(i == n - 2);
        assert(synchronised_at(created, i, n - 1));
    }
    assert forall|i: int|
        0 <= i < appended.len() && writes(#[trigger] appended[i]) implies durable_at(
        appended,
        i,
    ) by {
        assert(synchronised_at(appended, i, 2));
    }
    assert forall|i: int|
        0 <= i < compacted.len() && writes(#[trigger] compacted[i]) implies durable_at(
        compacted,
        i,
    ) by {
        assert(synchronised_at(compacted, i, 2));
    }
}

/// A log that was created for a snapshot leads from the snapshot to its data, with the next
/// sequence number. That number must exist.
pub proof fn law_new_log_goes_on_from_its_snapshot(
    parent: Option<Seq<char>>,
    path: Seq<char>,
    base_seq: u64,
    files: Files,
    contents: Contents,
)
    requires
        base_seq < u64::MAX,
        !files.contents.contains_key(path),
    ensures
        ({
            let script = ScriptView { steps: new_log_steps(parent, path, base_seq), at: 0 };
            let (after, _, result) = ran(files, script, None);
            &&& result is Ok
            &&& recovered(bytes_of(after, path), contents, base_seq) == Ok::<_, Damage>(
                (contents, (base_seq + 1) as u64),
            )
        }),
{
    law_create_script_runs(parent, path, header_text(base_seq), files);
    law_compacted_log_recovers(contents, base_seq);
}

/// A log whose first line is no header of this program is refused at its first line: one
/// without a line break, one that is no UTF-8, and one that says something else.
pub proof fn law_log_must_have_a_header(log: Seq<u8>, contents: Contents, snapshot_seq: u64)
    requires
        ({
            let line = log.take(line_len(log) as int);
            ||| line.len() == 0
            ||| line.last() != 0x0a
            ||| !valid_utf8(line.drop_last())
            ||| decoded_header(decode_utf8(line.drop_last())) is Err
        }),
    ensures
        recovered(log, contents, snapshot_seq) matches Err(damage) && damage.line == 1
            && damage.offset == 0,
{
    reveal(header_base);
}

} // verus!
