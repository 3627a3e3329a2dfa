//! The text format of the log.
//!
//! Keys and values are written in hexadecimal, so that tabs and line breaks cannot break the
//! bounds of a record. Each record carries a checksum, by which recovery notices a record
//! that was cut off or changed. Files of version 1 are still read; version 2 is written.

use vstd::prelude::*;
use vstd::utf8::{decode_utf8, encode_utf8, valid_utf8};

use crate::domain::{is_mutation_view, Command, CommandView};
use crate::number::{
    all_digits, decimal, decimal_text, digit_char, digit_of, hex16_text, hex_fixed,
    law_parse_of_decimal, law_parse_of_hex, lemma_decimal_digits, lemma_decimal_len_u64,
    lemma_hex_digits, parse_number_text, parsed, push_decimal,
};
use crate::result_view;
use crate::text::{
    decode_text, join, join_texts, law_join_of_split, law_split_of_join, lemma_decode_of_encode,
    lemma_encode_ascii_text, lemma_split_append, same_text, split, split_text, views,
};

verus! {

/// The largest number of bytes that a record may take, its line break included.
pub const MAX_RECORD_BYTES: usize = 1024 * 1024;

/// Why a line of the log cannot be read or written.
#[derive(Debug, Clone, PartialEq, Eq)]
pub enum FormatError {
    Invalid(String),
    UnsupportedCommand,
}

/// A format error over character sequences.
pub ghost enum FormatErrorView {
    Invalid(Seq<char>),
    UnsupportedCommand,
}

impl View for FormatError {
    type V = FormatErrorView;

    open spec fn view(&self) -> FormatErrorView {
        match self {
            FormatError::Invalid(reason) => FormatErrorView::Invalid(reason@),
            FormatError::UnsupportedCommand => FormatErrorView::UnsupportedCommand,
        }
    }
}

// ---------------------------------------------------------------------------------------
// Checksum
// ---------------------------------------------------------------------------------------

/// One step of the checksum: the next byte is mixed in, then the value is multiplied.
pub open spec fn checksum_step(hash: u64, byte: u8) -> u64 {
    (((hash ^ byte as u64) * 0x100000001b3) % 0x1_0000_0000_0000_0000) as u64
}

/// The 64-bit FNV-1a checksum of a byte string.
pub open spec fn checksum(bytes: Seq<u8>) -> u64
    decreases bytes.len(),
{
    if bytes.len() == 0 {
        0xcbf29ce484222325
    } else {
        checksum_step(checksum(bytes.drop_last()), bytes.last())
    }
}

/// Finds accidental changes of a file and records that were cut off, by FNV-1a. It is no
/// cryptographic checksum.
pub fn checksum64(bytes: &[u8]) -> (hash: u64)
    ensures
        hash == checksum(bytes@),
{
    let mut hash: u64 = 0xcbf29ce484222325;
    let mut i: usize = 0;
    while i < bytes.len()
        invariant
            i <= bytes@.len(),
            hash == checksum(bytes@.take(i as int)),
        decreases bytes@.len() - i,
    {
        assert(bytes@.take(i + 1).drop_last() =~= bytes@.take(i as int));
        hash = (hash ^ (bytes[i] as u64)).wrapping_mul(0x100000001b3);
        i += 1;
    }
    assert(bytes@.take(i as int) =~= bytes@);
    hash
}

proof fn lemma_multiplication_undone(x: u64)
    ensures
        ((x * 0x100000001b3) % 0x1_0000_0000_0000_0000 * 0xce965057aff6957b)
            % 0x1_0000_0000_0000_0000 == x,
{
    let m: int = 0x1_0000_0000_0000_0000;
    let p: int = 0x100000001b3;
    let inverse: int = 0xce965057aff6957b;
    let k: int = 887285111055;
    let r = (x * p) % m;
    let q = (x * p) / m;
    assert(p * inverse == 1 + k * m);
    vstd::arithmetic::div_mod::lemma_fundamental_div_mod(x * p, m);
    assert(r * inverse == m * (x * k - q * inverse) + x) by (nonlinear_arith)
        requires
            x * p == m * q + r,
            p * inverse == 1 + k * m,
    ;
    vstd::arithmetic::div_mod::lemma_mod_multiples_vanish(x * k - q * inverse, x as int, m);
    vstd::arithmetic::div_mod::lemma_small_mod(x as nat, m as nat);
}

proof fn lemma_checksum_step_injective(hash1: u64, byte1: u8, hash2: u64, byte2: u8)
    requires
        checksum_step(hash1, byte1) == checksum_step(hash2, byte2),
    ensures
        hash1 == hash2 ==> byte1 == byte2,
        byte1 == byte2 ==> hash1 == hash2,
{
    lemma_multiplication_undone(hash1 ^ byte1 as u64);
    lemma_multiplication_undone(hash2 ^ byte2 as u64);
    assert(hash1 ^ byte1 as u64 == hash2 ^ byte2 as u64);
    assert(hash1 ^ byte1 as u64 == hash2 ^ byte2 as u64 && hash1 == hash2 ==> byte1 == byte2)
        by (bit_vector);
    assert(hash1 ^ byte1 as u64 == hash2 ^ byte2 as u64 && byte1 == byte2 ==> hash1 == hash2)
        by (bit_vector);
}

/// Changing one byte changes the checksum.
pub proof fn law_checksum_notices_a_changed_byte(bytes: Seq<u8>, at: int, byte: u8)
    requires
        0 <= at < bytes.len(),
        bytes[at] != byte,
    ensures
        checksum(bytes.update(at, byte)) != checksum(bytes),
    decreases bytes.len(),
{
    let changed = bytes.update(at, byte);
    if checksum(changed) == checksum(bytes) {
        lemma_checksum_step_injective(
            checksum(changed.drop_last()),
            changed.last(),
            checksum(bytes.drop_last()),
            bytes.last(),
        );
        if at == bytes.len() - 1 {
            assert(changed.drop_last() =~= bytes.drop_last());
        } else {
            assert(changed.drop_last() =~= bytes.drop_last().update(at, byte));
            law_checksum_notices_a_changed_byte(bytes.drop_last(), at, byte);
        }
    }
}

// ---------------------------------------------------------------------------------------
// Hexadecimal
// ---------------------------------------------------------------------------------------

/// A byte string in hexadecimal, two digits for each byte.
pub open spec fn hex_of(bytes: Seq<u8>) -> Seq<char> {
    Seq::new(
        2 * bytes.len(),
        |i: int|
            if i % 2 == 0 {
                digit_char((bytes[i / 2] / 16) as nat)
            } else {
                digit_char((bytes[i / 2] % 16) as nat)
            },
    )
}

/// The value of a byte that is the code of a hexadecimal digit.
pub open spec fn hex_value(byte: u8) -> Option<u8> {
    if 0x30 <= byte <= 0x39 {
        Some((byte - 0x30) as u8)
    } else if 0x61 <= byte <= 0x66 {
        Some((byte - 0x61 + 10) as u8)
    } else if 0x41 <= byte <= 0x46 {
        Some((byte - 0x41 + 10) as u8)
    } else {
        None
    }
}

/// Whether every byte is the code of a hexadecimal digit.
pub open spec fn all_hex(raw: Seq<u8>) -> bool {
    forall|i: int| 0 <= i < raw.len() ==> hex_value(#[trigger] raw[i]) is Some
}

/// The bytes that pairs of hexadecimal digits stand for.
pub open spec fn unhexed(raw: Seq<u8>) -> Seq<u8> {
    Seq::new(
        raw.len() / 2,
        |i: int| (16 * hex_value(raw[2 * i])->0 + hex_value(raw[2 * i + 1])->0) as u8,
    )
}

/// The text that a field in hexadecimal stands for.
pub open spec fn decoded_hex(field: Seq<char>, name: Seq<char>) -> Result<
    Seq<char>,
    FormatErrorView,
> {
    let raw = encode_utf8(field);
    if raw.len() % 2 != 0 {
        Err(FormatErrorView::Invalid(name + " has an odd number of hexadecimal digits"@))
    } else if !all_hex(raw) {
        Err(FormatErrorView::Invalid(name + " contains invalid hexadecimal data"@))
    } else if !valid_utf8(unhexed(raw)) {
        Err(FormatErrorView::Invalid(name + " is not valid UTF-8"@))
    } else {
        Ok(decode_utf8(unhexed(raw)))
    }
}

/// A byte string in hexadecimal.
pub fn encode_hex(bytes: &[u8]) -> (text: String)
    ensures
        text@ == hex_of(bytes@),
{
    let mut output = String::new();
    let mut i: usize = 0;
    assert(output@ =~= hex_of(bytes@.take(0)));
    while i < bytes.len()
        invariant
            i <= bytes@.len(),
            output@ == hex_of(bytes@.take(i as int)),
        decreases bytes@.len() - i,
    {
        let byte: u8 = bytes[i];
        output.push(digit_of(byte / 16));
        output.push(digit_of(byte % 16));
        proof {
            let before = bytes@.take(i as int);
            let after = bytes@.take(i + 1);
            assert forall|k: int| 0 <= k < hex_of(after).len() implies hex_of(after)[k]
                == output@[k] by {
                if k < 2 * i {
                    assert(hex_of(before)[k] == hex_of(after)[k]);
                }
            }
            assert(output@ =~= hex_of(after));
        }
        i += 1;
    }
    assert(bytes@.take(i as int) =~= bytes@);
    output
}

fn hex_digit(byte: u8) -> (value: Option<u8>)
    ensures
        value == hex_value(byte),
{
    if 0x30 <= byte && byte <= 0x39 {
        Some(byte - 0x30)
    } else if 0x61 <= byte && byte <= 0x66 {
        Some(byte - 0x61 + 10)
    } else if 0x41 <= byte && byte <= 0x46 {
        Some(byte - 0x41 + 10)
    } else {
        None
    }
}

fn field_error(name: &str, reason: &str) -> (error: FormatError)
    ensures
        error@ == FormatErrorView::Invalid(name@ + reason@),
{
    let mut text = name.to_owned();
    text.append(reason);
    FormatError::Invalid(text)
}

/// The text that a field in hexadecimal stands for.
pub fn decode_utf8_hex(value: &str, field_name: &str) -> (result: Result<String, FormatError>)
    ensures
        result_view(result) == decoded_hex(value@, field_name@),
{
    let raw = value.as_bytes();
    if raw.len() % 2 != 0 {
        return Err(field_error(field_name, " has an odd number of hexadecimal digits"));
    }
    let mut bytes: Vec<u8> = Vec::new();
    let mut i: usize = 0;
    while i < raw.len()
        invariant
            raw@ == encode_utf8(value@),
            raw@.len() % 2 == 0,
            i <= raw@.len(),
            i % 2 == 0,
            bytes@ == unhexed(raw@.take(i as int)),
            all_hex(raw@.take(i as int)),
        decreases raw@.len() - i,
    {
        let ghost before = raw@.take(i as int);
        let ghost after = raw@.take(i + 2);
        match (hex_digit(raw[i]), hex_digit(raw[i + 1])) {
            (Some(high), Some(low)) => {
                bytes.push(16 * high + low);
                proof {
                    assert forall|k: int| 0 <= k < after.len() implies hex_value(
                        #[trigger] after[k],
                    ) is Some by {
                        if k < i {
                            assert(after[k] == before[k]);
                        }
                    }
                    assert forall|k: int| 0 <= k < bytes@.len() implies #[trigger] bytes@[k]
                        == unhexed(after)[k] by {
                        if k < i / 2 {
                            assert(bytes@[k] == unhexed(before)[k]);
                            assert(after[2 * k] == before[2 * k]);
                            assert(after[2 * k + 1] == before[2 * k + 1]);
                        }
                    }
                    assert(bytes@ =~= unhexed(after));
                }
            },
            _ => {
                assert(hex_value(raw@[i as int]) is None || hex_value(raw@[i + 1]) is None);
                return Err(field_error(field_name, " contains invalid hexadecimal data"));
            },
        }
        i += 2;
    }
    assert(raw@.take(i as int) =~= raw@);
    match decode_text(bytes) {
        Some(text) => Ok(text),
        None => Err(field_error(field_name, " is not valid UTF-8")),
    }
}

/// A text that was written in hexadecimal is read back.
pub proof fn law_hex_round_trip(text: Seq<char>, name: Seq<char>)
    ensures
        decoded_hex(hex_of(encode_utf8(text)), name) == Ok::<_, FormatErrorView>(text),
{
    let bytes = encode_utf8(text);
    let field = hex_of(bytes);
    lemma_hex_of_digits(bytes);
    assert forall|i: int| 0 <= i < field.len() implies (#[trigger] field[i] as u32) < 0x80 by {}
    lemma_encode_ascii_text(field);
    let raw = encode_utf8(field);
    assert forall|i: int| 0 <= i < raw.len() implies hex_value(#[trigger] raw[i]) is Some by {
        assert(raw[i] == field[i] as u8);
    }
    assert forall|i: int| 0 <= i < bytes.len() implies #[trigger] unhexed(raw)[i] == bytes[i] by {
        let b = bytes[i];
        assert(raw[2 * i] == field[2 * i] as u8);
        assert(raw[2 * i + 1] == field[2 * i + 1] as u8);
        assert(field[2 * i] == digit_char((b / 16) as nat));
        assert((2 * i + 1) / 2 == i);
        assert(field[2 * i + 1] == digit_char((b % 16) as nat));
        assert(hex_value(raw[2 * i]) == Some((b / 16) as u8));
        assert(hex_value(raw[2 * i + 1]) == Some((b % 16) as u8));
    }
    assert(unhexed(raw) =~= bytes);
    lemma_decode_of_encode(text);
}

proof fn lemma_hex_of_digits(bytes: Seq<u8>)
    ensures
        all_digits(hex_of(bytes)),
{
    let s = hex_of(bytes);
    assert forall|i: int| 0 <= i < s.len() implies ('0' <= #[trigger] s[i] <= '9' || 'A' <= s[i]
        <= 'F') by {}
}

// ---------------------------------------------------------------------------------------
// Header
// ---------------------------------------------------------------------------------------

/// The header line of version 2 without its line break.
pub open spec fn header_line(base_seq: u64) -> Seq<char> {
    join(seq!["RUST_KV_WAL"@, "2"@, decimal(base_seq as nat)], seq!['\t'])
}

/// The header of version 2.
pub open spec fn header_text(base_seq: u64) -> Seq<char> {
    header_line(base_seq).push('\n')
}

/// What a header line says: the last sequence number that the snapshot already holds. The
/// header of version 1 has no such number.
pub open spec fn decoded_header(line: Seq<char>) -> Result<u64, FormatErrorView> {
    let fields = split(line, '\t');
    if line == "RUST_KV_WAL\t1"@ {
        Ok(0)
    } else if fields.len() != 3 || fields[0] != "RUST_KV_WAL"@ || fields[1] != "2"@ {
        Err(FormatErrorView::Invalid("missing or unsupported WAL header"@))
    } else {
        match parsed(fields[2], 10, u64::MAX as nat) {
            Some(base_seq) => Ok(base_seq as u64),
            None => Err(FormatErrorView::Invalid("invalid WAL base sequence"@)),
        }
    }
}

/// The header of version 2. `base_seq` is the last sequence number that the snapshot already
/// holds.
pub fn encode_header(base_seq: u64) -> (text: String)
    ensures
        text@ == header_text(base_seq),
{
    let mut text = "RUST_KV_WAL\t2\t".to_owned();
    push_decimal(&mut text, base_seq as u128);
    text.push('\n');
    proof {
        reveal_strlit("RUST_KV_WAL\t2\t");
        reveal_strlit("RUST_KV_WAL");
        reveal_strlit("2");
        let parts = seq!["RUST_KV_WAL"@, "2"@, decimal(base_seq as nat)];
        lemma_join_three(parts, seq!['\t']);
        assert(text@ =~= header_text(base_seq));
    }
    text
}

/// Reads a header line, of version 2 or of version 1.
pub fn decode_header(line: &str) -> (result: Result<u64, FormatError>)
    ensures
        result_view(result) == decoded_header(line@),
{
    if same_text(line, "RUST_KV_WAL\t1") {
        return Ok(0);
    }
    let fields = split_text(line, '\t');
    assert(forall|i: int|
        0 <= i < fields@.len() ==> #[trigger] fields@[i]@ == views(fields@)[i]);
    if fields.len() != 3 || !same_text(fields[0].as_str(), "RUST_KV_WAL") || !same_text(
        fields[1].as_str(),
        "2",
    ) {
        return Err(FormatError::Invalid("missing or unsupported WAL header".to_owned()));
    }
    match parse_number_text(fields[2].as_str(), 10, u64::MAX) {
        Some(base_seq) => Ok(base_seq),
        None => Err(FormatError::Invalid("invalid WAL base sequence".to_owned())),
    }
}

proof fn lemma_join_three(parts: Seq<Seq<char>>, sep: Seq<char>)
    requires
        parts.len() == 3,
    ensures
        join(parts, sep) == parts[0] + sep + parts[1] + sep + parts[2],
{
    let two = parts.drop_last();
    assert(two.drop_last() =~= seq![parts[0]]);
    assert(join(two, sep) == join(two.drop_last(), sep) + sep + two.last());
}

/// A header that was written is read back.
pub proof fn law_header_round_trip(base_seq: u64)
    ensures
        decoded_header(header_line(base_seq)) == Ok::<_, FormatErrorView>(base_seq),
        decoded_header("RUST_KV_WAL\t1"@) == Ok::<_, FormatErrorView>(0u64),
{
    reveal_strlit("RUST_KV_WAL");
    reveal_strlit("RUST_KV_WAL\t1");
    reveal_strlit("2");
    let digits = decimal(base_seq as nat);
    let parts = seq!["RUST_KV_WAL"@, "2"@, digits];
    lemma_decimal_digits(base_seq as nat);
    assert forall|i: int| 0 <= i < parts.len() implies !(#[trigger] parts[i]).contains('\t') by {
        if i == 2 {
            assert forall|k: int| 0 <= k < digits.len() implies digits[k] != '\t' by {}
        }
    }
    law_split_of_join(parts, '\t');
    law_parse_of_decimal(base_seq as nat, u64::MAX as nat);
    lemma_join_three(parts, seq!['\t']);
    assert(header_line(base_seq)[12] == '2');
    assert("RUST_KV_WAL\t1"@[12] == '1');
}

// ---------------------------------------------------------------------------------------
// Records
// ---------------------------------------------------------------------------------------

/// The letter, the key and the value under which a mutation is logged.
pub open spec fn logged_parts(command: CommandView) -> (Seq<char>, Seq<char>, Seq<char>) {
    match command {
        CommandView::SetValue { key, value } => ("S"@, key, value),
        CommandView::Update { key, value } => ("U"@, key, value),
        CommandView::Delete { key } => ("D"@, key, ""@),
        _ => (""@, ""@, ""@),
    }
}

/// The fields of a record before its checksum.
pub open spec fn payload_fields(seq: u64, command: CommandView) -> Seq<Seq<char>> {
    let (operation, key, value) = logged_parts(command);
    seq![
        decimal(seq as nat),
        operation,
        hex_of(encode_utf8(key)),
        hex_of(encode_utf8(value)),
    ]
}

/// The checksum of the fields of a record.
pub open spec fn payload_checksum(fields: Seq<Seq<char>>) -> u64 {
    checksum(encode_utf8(join(fields, seq!['\t'])))
}

/// The fields of a record.
pub open spec fn record_fields(seq: u64, command: CommandView) -> Seq<Seq<char>> {
    let payload = payload_fields(seq, command);
    payload.push(hex_fixed(payload_checksum(payload) as nat, 16))
}

/// The line of a record without its line break.
pub open spec fn record_line(seq: u64, command: CommandView) -> Seq<char> {
    join(record_fields(seq, command), seq!['\t'])
}

/// A record.
pub open spec fn record_text(seq: u64, command: CommandView) -> Seq<char> {
    record_line(seq, command).push('\n')
}

/// The command that a record stands for, by its letter, its key and its value.
pub open spec fn decoded_command(
    operation: Seq<char>,
    key: Seq<char>,
    value: Seq<char>,
) -> Result<CommandView, FormatErrorView> {
    if operation == "S"@ {
        Ok(CommandView::SetValue { key, value })
    } else if operation == "U"@ {
        Ok(CommandView::Update { key, value })
    } else if operation == "D"@ {
        if value.len() > 0 {
            Err(FormatErrorView::Invalid("DELETE record contains a value"@))
        } else {
            Ok(CommandView::Delete { key })
        }
    } else {
        Err(FormatErrorView::Invalid("unknown operation: "@ + operation))
    }
}

/// The text of a checksum error.
pub open spec fn mismatch_text(expected: u64, actual: u64) -> Seq<char> {
    "checksum mismatch: expected "@ + hex_fixed(expected as nat, 16) + ", calculated "@
        + hex_fixed(actual as nat, 16)
}

/// The sequence number and the command that a line of the log stands for.
pub open spec fn decoded_record(line: Seq<char>) -> Result<(u64, CommandView), FormatErrorView> {
    let fields = split(line, '\t');
    if fields.len() != 5 {
        Err(FormatErrorView::Invalid("expected 5 fields, found "@ + decimal(fields.len())))
    } else {
        let seq = parsed(fields[0], 10, u64::MAX as nat);
        let expected = parsed(fields[4], 16, u64::MAX as nat);
        let actual = payload_checksum(fields.take(4));
        if seq is None {
            Err(FormatErrorView::Invalid("invalid sequence number"@))
        } else if seq->0 == 0 {
            Err(FormatErrorView::Invalid("sequence number must be greater than zero"@))
        } else if expected is None {
            Err(FormatErrorView::Invalid("invalid checksum"@))
        } else if expected->0 != actual {
            Err(FormatErrorView::Invalid(mismatch_text(expected->0 as u64, actual)))
        } else {
            match (decoded_hex(fields[2], "key"@), decoded_hex(fields[3], "value"@)) {
                (Err(error), _) => Err(error),
                (_, Err(error)) => Err(error),
                (Ok(key), Ok(value)) => match decoded_command(fields[1], key, value) {
                    Ok(command) => Ok((seq->0 as u64, command)),
                    Err(error) => Err(error),
                },
            }
        }
    }
}

/// The record of a mutation. Commands that only read are not logged.
pub fn encode_record(seq: u64, command: &Command) -> (result: Result<String, FormatError>)
    ensures
        result_view(result) == (if is_mutation_view(command@) {
            Ok::<Seq<char>, FormatErrorView>(record_text(seq, command@))
        } else {
            Err(FormatErrorView::UnsupportedCommand)
        }),
{
    let (operation, key, value) = match command {
        Command::SetValue { key, value } => ("S", key.as_str(), value.as_str()),
        Command::Update { key, value } => ("U", key.as_str(), value.as_str()),
        Command::Delete { key } => ("D", key.as_str(), ""),
        _ => {
            return Err(FormatError::UnsupportedCommand);
        },
    };
    let mut fields: Vec<String> = Vec::new();
    fields.push(decimal_text(seq as u128));
    fields.push(operation.to_owned());
    fields.push(encode_hex(key.as_bytes()));
    fields.push(encode_hex(value.as_bytes()));
    let mut text = join_texts(&fields, "\t");
    proof {
        reveal_strlit("\t");
        assert("\t"@ =~= seq!['\t']);
        assert(views(fields@) =~= payload_fields(seq, command@));
    }
    let checksum: u64 = checksum64(text.as_str().as_bytes());
    text.append("\t");
    text.append(hex16_text(checksum).as_str());
    text.push('\n');
    proof {
        let payload = payload_fields(seq, command@);
        assert(record_fields(seq, command@).drop_last() =~= payload);
    }
    Ok(text)
}

pub(crate) fn mismatch_message(expected: u64, actual: u64) -> (text: String)
    ensures
        text@ == mismatch_text(expected, actual),
{
    let mut text = "checksum mismatch: expected ".to_owned();
    text.append(hex16_text(expected).as_str());
    text.append(", calculated ");
    text.append(hex16_text(actual).as_str());
    text
}

fn decode_command(operation: &str, key: String, value: String) -> (result: Result<
    Command,
    FormatError,
>)
    ensures
        result_view(result) == decoded_command(operation@, key@, value@),
{
    if same_text(operation, "S") {
        Ok(Command::SetValue { key, value })
    } else if same_text(operation, "U") {
        Ok(Command::Update { key, value })
    } else if same_text(operation, "D") {
        if !value.as_str().is_empty() {
            Err(FormatError::Invalid("DELETE record contains a value".to_owned()))
        } else {
            Ok(Command::Delete { key })
        }
    } else {
        let mut text = "unknown operation: ".to_owned();
        text.append(operation);
        Err(FormatError::Invalid(text))
    }
}

/// Reads a line of the log.
pub fn decode_record(line: &str) -> (result: Result<(u64, Command), FormatError>)
    ensures
        match result {
            Ok((seq, command)) => decoded_record(line@) == Ok::<_, FormatErrorView>(
                (seq, command@),
            ),
            Err(error) => decoded_record(line@) == Err::<(u64, CommandView), _>(error@),
        },
{
    let fields = split_text(line, '\t');
    assert(forall|i: int|
        0 <= i < fields@.len() ==> #[trigger] fields@[i]@ == views(fields@)[i]);
    if fields.len() != 5 {
        let mut text = "expected 5 fields, found ".to_owned();
        push_decimal(&mut text, fields.len() as u128);
        return Err(FormatError::Invalid(text));
    }
    let seq: u64 = match parse_number_text(fields[0].as_str(), 10, u64::MAX) {
        Some(seq) => seq,
        None => {
            return Err(FormatError::Invalid("invalid sequence number".to_owned()));
        },
    };
    if seq == 0 {
        return Err(FormatError::Invalid("sequence number must be greater than zero".to_owned()));
    }
    let expected_checksum: u64 = match parse_number_text(fields[4].as_str(), 16, u64::MAX) {
        Some(checksum) => checksum,
        None => {
            return Err(FormatError::Invalid("invalid checksum".to_owned()));
        },
    };
    let mut first_four: Vec<String> = Vec::new();
    first_four.push(fields[0].clone());
    first_four.push(fields[1].clone());
    first_four.push(fields[2].clone());
    first_four.push(fields[3].clone());
    let payload = join_texts(&first_four, "\t");
    let actual_checksum: u64 = checksum64(payload.as_str().as_bytes());
    proof {
        reveal_strlit("\t");
        assert("\t"@ =~= seq!['\t']);
        assert(views(first_four@) =~= split(line@, '\t').take(4));
    }
    if expected_checksum != actual_checksum {
        return Err(FormatError::Invalid(mismatch_message(expected_checksum, actual_checksum)));
    }
    let key = match decode_utf8_hex(fields[2].as_str(), "key") {
        Ok(key) => key,
        Err(error) => {
            return Err(error);
        },
    };
    let value = match decode_utf8_hex(fields[3].as_str(), "value") {
        Ok(value) => value,
        Err(error) => {
            return Err(error);
        },
    };
    match decode_command(fields[1].as_str(), key, value) {
        Ok(command) => Ok((seq, command)),
        Err(error) => Err(error),
    }
}

/// A record consists of ASCII characters other than a line break.
pub proof fn lemma_record_characters(seq: u64, command: CommandView)
    requires
        is_mutation_view(command),
    ensures
        forall|i: int|
            0 <= i < record_line(seq, command).len() ==> (#[trigger] record_line(
                seq,
                command,
            )[i] as u32) < 0x80 && record_line(seq, command)[i] != '\n',
        record_line(seq, command).len() > 0,
{
    let fields = record_fields(seq, command);
    lemma_field_characters(seq, command);
    lemma_join_characters(fields);
    assert(fields[4].len() == 16);
}

/// A header consists of ASCII characters other than a line break.
pub proof fn lemma_header_characters(base_seq: u64)
    ensures
        forall|i: int|
            0 <= i < header_line(base_seq).len() ==> (#[trigger] header_line(base_seq)[i] as u32)
                < 0x80 && header_line(base_seq)[i] != '\n',
        header_line(base_seq).len() >= 14,
{
    reveal_strlit("RUST_KV_WAL");
    reveal_strlit("2");
    let digits = decimal(base_seq as nat);
    let fields = seq!["RUST_KV_WAL"@, "2"@, digits];
    lemma_decimal_digits(base_seq as nat);
    assert forall|i: int| 0 <= i < fields.len() implies plain_field(#[trigger] fields[i]) by {}
    lemma_join_characters(fields);
    lemma_join_three(fields, seq!['\t']);
}

spec fn plain_field(field: Seq<char>) -> bool {
    forall|k: int|
        0 <= k < field.len() ==> (#[trigger] field[k] as u32) < 0x80 && field[k] != '\n'
            && field[k] != '\t'
}

proof fn lemma_field_characters(seq: u64, command: CommandView)
    requires
        is_mutation_view(command),
    ensures
        forall|i: int|
            0 <= i < 5 ==> plain_field(#[trigger] record_fields(seq, command)[i]),
        record_fields(seq, command).len() == 5,
        record_fields(seq, command)[4].len() == 16,
{
    reveal_strlit("S");
    reveal_strlit("U");
    reveal_strlit("D");
    let (operation, key, value) = logged_parts(command);
    let fields = record_fields(seq, command);
    lemma_decimal_digits(seq as nat);
    lemma_hex_of_digits(encode_utf8(key));
    lemma_hex_of_digits(encode_utf8(value));
    lemma_hex_digits(payload_checksum(payload_fields(seq, command)) as nat, 16);
    assert forall|i: int| 0 <= i < 5 implies plain_field(#[trigger] fields[i]) by {
        if i != 1 {
            assert(all_digits(fields[i]));
        }
    }
}

proof fn lemma_join_characters(fields: Seq<Seq<char>>)
    requires
        forall|i: int| 0 <= i < fields.len() ==> plain_field(#[trigger] fields[i]),
    ensures
        forall|k: int|
            0 <= k < join(fields, seq!['\t']).len() ==> (#[trigger] join(
                fields,
                seq!['\t'],
            )[k] as u32) < 0x80 && join(fields, seq!['\t'])[k] != '\n',
        fields.len() > 0 ==> join(fields, seq!['\t']).len() >= fields.last().len(),
    decreases fields.len(),
{
    if fields.len() == 1 {
        assert(plain_field(fields[0]));
    } else if fields.len() > 1 {
        let before = fields.drop_last();
        assert forall|i: int| 0 <= i < before.len() implies plain_field(#[trigger] before[i]) by {
            assert(before[i] == fields[i]);
        }
        lemma_join_characters(before);
        let head = join(before, seq!['\t']);
        let last = fields[fields.len() - 1];
        assert(plain_field(last));
        let whole = join(fields, seq!['\t']);
        assert(whole == head + seq!['\t'] + last);
        assert forall|k: int| 0 <= k < whole.len() implies (#[trigger] whole[k] as u32) < 0x80
            && whole[k] != '\n' by {
            if k < head.len() {
                assert(whole[k] == head[k]);
            } else if k == head.len() {
                assert(whole[k] == '\t');
            } else {
                assert(whole[k] == last[k - head.len() - 1]);
            }
        }
    }
}

/// A record has two characters for each byte of its key and its value, and at most
/// forty-two more.
pub proof fn lemma_record_len(seq: u64, command: CommandView)
    requires
        is_mutation_view(command),
    ensures
        ({
            let (_, key, value) = logged_parts(command);
            let len = encode_utf8(record_text(seq, command)).len();
            &&& len == decimal(seq as nat).len() + 2 * (encode_utf8(key).len() + encode_utf8(
                value,
            ).len()) + 22
            &&& decimal(seq as nat).len() <= 20
        }),
{
    let (operation, key, value) = logged_parts(command);
    let fields = record_fields(seq, command);
    let sep = seq!['\t'];
    let text = record_text(seq, command);
    reveal_strlit("S");
    reveal_strlit("U");
    reveal_strlit("D");
    lemma_decimal_len_u64(seq);
    lemma_hex_digits(payload_checksum(payload_fields(seq, command)) as nat, 16);
    lemma_record_characters(seq, command);
    assert forall|i: int| 0 <= i < text.len() implies (#[trigger] text[i] as u32) < 0x80 by {
        if i < text.len() - 1 {
            assert(text[i] == record_line(seq, command)[i]);
        }
    }
    lemma_encode_ascii_text(text);
    let four = fields.drop_last();
    let three = four.drop_last();
    let two = three.drop_last();
    assert(two.drop_last() =~= seq![fields[0]]);
    assert(two.last() == operation && operation.len() == 1);
    assert(join(two.drop_last(), sep) == fields[0]);
    assert(join(two, sep) == join(two.drop_last(), sep) + sep + two.last());
    assert(join(three, sep).len() == join(two, sep).len() + 1 + fields[2].len());
    assert(join(four, sep).len() == join(three, sep).len() + 1 + fields[3].len());
    assert(join(fields, sep).len() == join(four, sep).len() + 1 + 16);
}

/// A record that was written is read back, with its sequence number. Sequence numbers start
/// at one.
pub proof fn law_record_round_trip(seq: u64, command: CommandView)
    requires
        seq > 0,
        is_mutation_view(command),
    ensures
        decoded_record(record_line(seq, command)) == Ok::<_, FormatErrorView>((seq, command)),
{
    let fields = record_fields(seq, command);
    let (operation, key, value) = logged_parts(command);
    lemma_field_characters(seq, command);
    assert forall|i: int| 0 <= i < fields.len() implies !(#[trigger] fields[i]).contains('\t') by {
        assert(plain_field(fields[i]));
    }
    law_split_of_join(fields, '\t');
    assert(fields.take(4) =~= payload_fields(seq, command));
    law_parse_of_decimal(seq as nat, u64::MAX as nat);
    law_parse_of_hex(payload_checksum(payload_fields(seq, command)));
    law_hex_round_trip(key, "key"@);
    law_hex_round_trip(value, "value"@);
    reveal_strlit("");
    reveal_strlit("S");
    reveal_strlit("U");
    reveal_strlit("D");
    assert("S"@[0] != "U"@[0] && "S"@[0] != "D"@[0] && "U"@[0] != "D"@[0]);
}

/// A record in which one byte before the checksum was changed is refused.
pub proof fn law_changed_record_is_refused(
    payload: Seq<char>,
    changed: Seq<char>,
    at: int,
    byte: u8,
)
    requires
        0 <= at < encode_utf8(payload).len(),
        encode_utf8(payload)[at] != byte,
        encode_utf8(changed) == encode_utf8(payload).update(at, byte),
    ensures
        decoded_record(
            changed.push('\t') + hex_fixed(checksum(encode_utf8(payload)) as nat, 16),
        ) is Err,
{
    let stored = checksum(encode_utf8(payload));
    let digits = hex_fixed(stored as nat, 16);
    law_checksum_notices_a_changed_byte(encode_utf8(payload), at, byte);
    lemma_hex_digits(stored as nat, 16);
    assert forall|k: int| 0 <= k < digits.len() implies digits[k] != '\t' by {}
    lemma_split_append(changed, '\t', digits);
    law_join_of_split(changed, '\t');
    law_parse_of_hex(stored);
    let fields = split(changed.push('\t') + digits, '\t');
    assert(fields.len() == 5 ==> fields.take(4) =~= split(changed, '\t'));
}

/// A line is read as a record only where it has a sequence number above zero, the letter of a
/// mutation, a key and a value in hexadecimal, and the checksum of what stands before it; it
/// is then that mutation of that key and value.
pub proof fn law_what_a_record_must_hold(line: Seq<char>)
    ensures
        decoded_record(line) matches Ok((seq, command)) ==> {
            let fields = split(line, '\t');
            let (_, key, value) = logged_parts(command);
            &&& fields.len() == 5
            &&& seq > 0
            &&& parsed(fields[0], 10, u64::MAX as nat) == Some(seq as nat)
            &&& is_mutation_view(command)
            &&& fields[1] == "S"@ <==> command is SetValue
            &&& fields[1] == "U"@ <==> command is Update
            &&& fields[1] == "D"@ <==> command is Delete
            &&& decoded_hex(fields[2], "key"@) == Ok::<_, FormatErrorView>(key)
            &&& decoded_hex(fields[3], "value"@) == Ok::<_, FormatErrorView>(value)
            &&& parsed(fields[4], 16, u64::MAX as nat) == Some(
                checksum(encode_utf8(join(fields.take(4), seq!['\t']))) as nat,
            )
        },
{
    reveal_strlit("S");
    reveal_strlit("U");
    reveal_strlit("D");
    reveal_strlit("");
    assert("S"@[0] != "U"@[0] && "S"@[0] != "D"@[0] && "U"@[0] != "D"@[0]);
    if let Ok((seq, command)) = decoded_record(line) {
        if let CommandView::Delete { key } = command {
            let value = decoded_hex(split(line, '\t')[3], "value"@)->Ok_0;
            assert(value =~= ""@);
        }
    }
}

/// A header is that of version 1, or names version 2 and a number, which is the one that is
/// read; every other line is refused.
pub proof fn law_what_a_header_must_hold(line: Seq<char>)
    ensures
        decoded_header(line) matches Ok(base_seq) ==> {
            let fields = split(line, '\t');
            ||| line == "RUST_KV_WAL\t1"@ && base_seq == 0
            ||| fields.len() == 3 && fields[0] == "RUST_KV_WAL"@ && fields[1] == "2"@ && parsed(
                fields[2],
                10,
                u64::MAX as nat,
            ) == Some(base_seq as nat)
        },
{
}

/// A hexadecimal digit may be written in lower or upper case; no other byte is one.
pub proof fn law_hex_digits_in_either_case(digit: u8, byte: u8)
    requires
        digit < 16,
    ensures
        digit < 10 ==> hex_value((0x30 + digit) as u8) == Some(digit),
        digit >= 10 ==> hex_value((0x61 + digit - 10) as u8) == Some(digit) && hex_value(
            (0x41 + digit - 10) as u8,
        ) == Some(digit),
        hex_value(byte) is Some <==> 0x30 <= byte <= 0x39 || 0x61 <= byte <= 0x66 || 0x41 <= byte
            <= 0x46,
        hex_value(byte) is Some ==> hex_value(byte)->0 < 16,
{
}

/// Each byte is written with two digits, the higher first, behind those of the bytes before it.
pub proof fn law_hex_is_written_byte_by_byte(bytes: Seq<u8>, byte: u8)
    ensures
        hex_of(bytes.push(byte)) == hex_of(bytes).push(digit_char((byte / 16) as nat)).push(
            digit_char((byte % 16) as nat),
        ),
        hex_of(Seq::empty()).len() == 0,
{
    let all = hex_of(bytes.push(byte));
    let front = hex_of(bytes);
    let whole = front.push(digit_char((byte / 16) as nat)).push(digit_char((byte % 16) as nat));
    assert forall|i: int| 0 <= i < all.len() implies all[i] == whole[i] by {
        if i < front.len() {
            assert(bytes.push(byte)[i / 2] == bytes[i / 2]);
        } else {
            assert(i / 2 == bytes.len());
        }
    }
    assert(all =~= whole);
}

/// The checksum is the 64-bit FNV-1a: it starts from its offset, and each byte is mixed in
/// before the multiplication by its prime, modulo two to the sixty-fourth.
pub proof fn law_checksum_is_fnv(bytes: Seq<u8>, byte: u8)
    ensures
        checksum(Seq::empty()) == 14695981039346656037,
        checksum(bytes.push(byte)) == ((checksum(bytes) ^ byte as u64) * 1099511628211)
            % 0x1_0000_0000_0000_0000,
{
    assert(bytes.push(byte).drop_last() =~= bytes);
}

/// A field in hexadecimal is read strictly: two digits for each byte of the text, the higher
/// first, and nothing else. What is wrong is told with the name of the field.
pub proof fn law_hex_is_read_strictly(field: Seq<char>, name: Seq<char>)
    ensures
        decoded_hex(field, name) matches Ok(text) ==> {
            let (raw, bytes) = (encode_utf8(field), encode_utf8(text));
            &&& raw.len() == 2 * bytes.len()
            &&& forall|i: int|
                0 <= i < bytes.len() ==> hex_value(raw[2 * i]) is Some && hex_value(raw[2 * i + 1])
                    is Some && #[trigger] bytes[i] == 16 * hex_value(raw[2 * i])->0 + hex_value(
                    raw[2 * i + 1],
                )->0
        },
        decoded_hex(field, name) matches Err(error) ==> (error matches FormatErrorView::Invalid(
            reason,
        ) && name.is_prefix_of(reason)),
{
    let raw = encode_utf8(field);
    match decoded_hex(field, name) {
        Ok(text) => {
            vstd::utf8::decode_utf8_encode_utf8(unhexed(raw));
            let bytes = encode_utf8(text);
            assert(bytes == unhexed(raw));
            assert forall|i: int| 0 <= i < bytes.len() implies hex_value(raw[2 * i]) is Some
                && hex_value(raw[2 * i + 1]) is Some && #[trigger] bytes[i] == 16 * hex_value(
                raw[2 * i],
            )->0 + hex_value(raw[2 * i + 1])->0 by {
                assert(hex_value(raw[2 * i]) is Some);
                assert(hex_value(raw[2 * i + 1]) is Some);
            }
        },
        Err(error) => {
            let reason = error->Invalid_0;
            assert(reason.take(name.len() as int) =~= name);
        },
    }
}

/// A checksum error tells the checksum that stands in the file first, and then the one of what
/// was read.
pub proof fn law_mismatch_tells_both_checksums(expected: u64, actual: u64)
    ensures
        ({
            let text = mismatch_text(expected, actual);
            &&& text.take(28) == "checksum mismatch: expected "@
            &&& text.subrange(28, 44) == hex_fixed(expected as nat, 16)
            &&& text.skip(text.len() - 16) == hex_fixed(actual as nat, 16)
        }),
{
    let text = mismatch_text(expected, actual);
    reveal_strlit("checksum mismatch: expected ");
    lemma_hex_digits(expected as nat, 16);
    lemma_hex_digits(actual as nat, 16);
    assert(text.take(28) =~= "checksum mismatch: expected "@);
    assert(text.subrange(28, 44) =~= hex_fixed(expected as nat, 16));
    assert(text.skip(text.len() - 16) =~= hex_fixed(actual as nat, 16));
}

} // verus!
