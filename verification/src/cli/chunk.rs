//! The `chunk` commands.

use vstd::prelude::*;
use vstd::string::*;

use crate::cli::add::UsageError;
use crate::data::client::chunk::{ChunkPeerGetResult, DataChunk};
use crate::data::error::{joined, message_text, Error};
use crate::protocol::MAX_CHUNK_SIZE;
use crate::text::{
    complains_about, decimal, decimal_text, digit, digit_char, hex_bytes, hex_complaint, hex_decode,
    hex_text, is_ascii_text, is_hex, push_decimal,
};
use crate::uint256::be_value;
use crate::xor::XORNAME_BYTE_LEN;

verus! {

/// Chunk subcommands.
#[derive(Debug)]
pub enum ChunkAction {
    /// Store a single chunk. Reads from a file or stdin.
    Put {
        /// Input file; stdin where there is none.
        file: Option<String>,
    },
    /// Retrieve a single chunk. Writes to a file or stdout.
    Get {
        /// Hex-encoded chunk address (64 hex digits).
        address: String,
        /// Output file; stdout where there is none.
        output: Option<String>,
        /// Try every close-group peer and print ranked per-peer results.
        all_peers: bool,
    },
}

/// Tests the length of an input file before it is read.
pub fn check_file_length(len: u64) -> (r: Result<(), UsageError>)
    ensures
        r is Ok <==> len <= MAX_CHUNK_SIZE,
        r matches Err(e) ==> e.message@ == "Input file exceeds MAX_CHUNK_SIZE ("@ + decimal_text(
            MAX_CHUNK_SIZE as nat,
        ) + " bytes): "@ + decimal_text(len as nat) + " bytes"@,
{
    if len > MAX_CHUNK_SIZE as u64 {
        let mut message = "Input file exceeds MAX_CHUNK_SIZE (".to_owned();
        push_decimal(&mut message, MAX_CHUNK_SIZE as u128);
        message.append(" bytes): ");
        push_decimal(&mut message, len as u128);
        message.append(" bytes");
        return Err(UsageError { message });
    }
    Ok(())
}

/// How many bytes are read from stdin at most: one more than a chunk may hold.
pub fn stdin_limit() -> (r: u64)
    ensures
        r == MAX_CHUNK_SIZE + 1,
{
    (MAX_CHUNK_SIZE + 1) as u64
}

/// Tests the number of bytes that came from stdin.
pub fn check_stdin_length(len: usize) -> (r: Result<(), UsageError>)
    ensures
        r is Ok <==> len <= MAX_CHUNK_SIZE,
        r matches Err(e) ==> e.message@ == "Stdin input exceeds MAX_CHUNK_SIZE ("@ + decimal_text(
            MAX_CHUNK_SIZE as nat,
        ) + " bytes)"@,
{
    if len > MAX_CHUNK_SIZE {
        let mut message = "Stdin input exceeds MAX_CHUNK_SIZE (".to_owned();
        push_decimal(&mut message, MAX_CHUNK_SIZE as u128);
        message.append(" bytes)");
        return Err(UsageError { message });
    }
    Ok(())
}

/// How often each outcome occurred.
#[derive(Debug, Clone, Copy, PartialEq, Eq, Structural)]
pub struct PeerGetSummary {
    pub found: usize,
    pub not_found: usize,
    pub timeout: usize,
    pub network_error: usize,
    pub error: usize,
}

impl Default for PeerGetSummary {
    fn default() -> (r: PeerGetSummary)
        ensures
            r == (PeerGetSummary {
                found: 0,
                not_found: 0,
                timeout: 0,
                network_error: 0,
                error: 0,
            }),
    {
        PeerGetSummary { found: 0, not_found: 0, timeout: 0, network_error: 0, error: 0 }
    }
}

/// How a peer's answer reads in the report.
pub open spec fn status_text(result: ChunkPeerGetResult) -> Seq<char> {
    match result.chunk_result {
        Ok(Some(chunk)) => "found bytes="@ + decimal_text(chunk.content@.len()),
        Ok(None) => "not_found"@,
        Err(Error::Timeout(e)) => "timeout message="@ + e@,
        Err(Error::Network(e)) => "network_error message="@ + e@,
        Err(e) => "error message="@ + message_text(e),
    }
}

/// The summary with one more answer counted.
pub open spec fn counted(summary: PeerGetSummary, result: ChunkPeerGetResult) -> PeerGetSummary {
    match result.chunk_result {
        Ok(Some(_)) => PeerGetSummary { found: (summary.found + 1) as usize, ..summary },
        Ok(None) => PeerGetSummary { not_found: (summary.not_found + 1) as usize, ..summary },
        Err(Error::Timeout(_)) => PeerGetSummary {
            timeout: (summary.timeout + 1) as usize,
            ..summary
        },
        Err(Error::Network(_)) => PeerGetSummary {
            network_error: (summary.network_error + 1) as usize,
            ..summary
        },
        Err(_) => PeerGetSummary { error: (summary.error + 1) as usize, ..summary },
    }
}

/// The number of answers counted.
pub open spec fn total(summary: PeerGetSummary) -> int {
    summary.found + summary.not_found + summary.timeout + summary.network_error + summary.error
}

/// The counter that an answer is counted by.
pub open spec fn counter_for(summary: PeerGetSummary, result: ChunkPeerGetResult) -> usize {
    match result.chunk_result {
        Ok(Some(_)) => summary.found,
        Ok(None) => summary.not_found,
        Err(Error::Timeout(_)) => summary.timeout,
        Err(Error::Network(_)) => summary.network_error,
        Err(_) => summary.error,
    }
}

/// Counts a peer's answer and says how it reads in the report.
pub fn peer_get_status(result: &ChunkPeerGetResult, summary: &mut PeerGetSummary) -> (r: String)
    requires
        counter_for(*old(summary), *result) < usize::MAX,
    ensures
        r@ == status_text(*result),
        *final(summary) == counted(*old(summary), *result),
{
    match &result.chunk_result {
        Ok(Some(chunk)) => {
            summary.found = summary.found + 1;
            joined("found bytes=", decimal(chunk.content.len() as u128).as_str())
        },
        Ok(None) => {
            summary.not_found = summary.not_found + 1;
            "not_found".to_owned()
        },
        Err(Error::Timeout(e)) => {
            summary.timeout = summary.timeout + 1;
            joined("timeout message=", e.as_str())
        },
        Err(Error::Network(e)) => {
            summary.network_error = summary.network_error + 1;
            joined("network_error message=", e.as_str())
        },
        Err(e) => {
            summary.error = summary.error + 1;
            joined("error message=", e.message().as_str())
        },
    }
}

/// The summary of a list of answers.
pub open spec fn summarised(results: Seq<ChunkPeerGetResult>) -> PeerGetSummary
    decreases results.len(),
{
    if results.len() == 0 {
        PeerGetSummary { found: 0, not_found: 0, timeout: 0, network_error: 0, error: 0 }
    } else {
        counted(summarised(results.drop_last()), results.last())
    }
}

/// The line of the report on the answer at `index`.
pub open spec fn result_line(result: ChunkPeerGetResult, index: int) -> Seq<char> {
    decimal_text((index + 1) as nat) + ". peer="@ + hex_text(result.peer_id@) + " distance="@
        + decimal_text(be_value(result.xor_distance@)) + " addrs="@ + decimal_text(
        result.peer_addrs@.len(),
    ) + " result="@ + status_text(result)
}

/// The last line of the report.
pub open spec fn summary_line(s: PeerGetSummary) -> Seq<char> {
    "Summary: found="@ + decimal_text(s.found as nat) + " not_found="@ + decimal_text(
        s.not_found as nat,
    ) + " timeout="@ + decimal_text(s.timeout as nat) + " network_error="@ + decimal_text(
        s.network_error as nat,
    ) + " error="@ + decimal_text(s.error as nat)
}

proof fn lemma_summary_total(results: Seq<ChunkPeerGetResult>)
    requires
        results.len() <= usize::MAX,
    ensures
        total(summarised(results)) == results.len(),
    decreases results.len(),
{
    if results.len() > 0 {
        lemma_summary_total(results.drop_last());
    }
}

/// The report on what each peer of the close group answered: a heading, one
/// line for each peer by rank, and the summary.
pub fn peer_get_report(address: &str, results: &Vec<ChunkPeerGetResult>) -> (r: (
    Vec<String>,
    PeerGetSummary,
))
    ensures
        r.1 == summarised(results@),
        total(r.1) == results@.len(),
        r.0@.len() == results@.len() + 2,
        r.0@[0]@ == "Close group GET results for "@ + address@ + ":"@,
        forall|i: int|
            0 <= i < results@.len() ==> (#[trigger] r.0@[i + 1])@ == result_line(results@[i], i),
        r.0@.last()@ == summary_line(r.1),
{
    let mut summary = PeerGetSummary::default();
    let mut lines: Vec<String> = Vec::new();
    let mut head = joined("Close group GET results for ", address);
    head.append(":");
    lines.push(head);
    let mut i: usize = 0;
    assert(results@.take(0) =~= Seq::empty());
    while i < results.len()
        invariant
            i <= results.len(),
            lines.len() == i + 1,
            lines@[0]@ == "Close group GET results for "@ + address@ + ":"@,
            forall|k: int|
                0 <= k < i ==> (#[trigger] lines@[k + 1])@ == result_line(results@[k], k),
            summary == summarised(results@.take(i as int)),
        decreases results.len() - i,
    {
        let result = &results[i];
        proof {
            lemma_summary_total(results@.take(i as int));
            assert(results@.take(i + 1).drop_last() =~= results@.take(i as int));
        }
        let distance = xor_distance_decimal(&result.xor_distance);
        let status = peer_get_status(result, &mut summary);
        let mut line = decimal(i as u128 + 1);
        line.append(". peer=");
        line.append(result.peer_id.to_hex().as_str());
        line.append(" distance=");
        line.append(distance.as_str());
        line.append(" addrs=");
        push_decimal(&mut line, result.peer_addrs.len() as u128);
        line.append(" result=");
        line.append(status.as_str());
        lines.push(line);
        i = i + 1;
    }
    proof {
        assert(results@.take(i as int) =~= results@);
        lemma_summary_total(results@);
    }
    let mut last = joined("Summary: found=", decimal(summary.found as u128).as_str());
    last.append(" not_found=");
    push_decimal(&mut last, summary.not_found as u128);
    last.append(" timeout=");
    push_decimal(&mut last, summary.timeout as u128);
    last.append(" network_error=");
    push_decimal(&mut last, summary.network_error as u128);
    last.append(" error=");
    push_decimal(&mut last, summary.error as u128);
    lines.push(last);
    (lines, summary)
}

/// Whether a peer delivered the chunk.
pub open spec fn delivered(result: ChunkPeerGetResult) -> bool {
    result.chunk_result matches Ok(Some(_))
}

/// The message when no peer has the chunk.
pub fn chunk_not_found(address: &str) -> (r: UsageError)
    ensures
        r.message@ == "Chunk not found for address "@ + address@,
{
    UsageError { message: joined("Chunk not found for address ", address) }
}

/// The chunk that the closest successful peer delivered.
pub fn closest_delivered<'a>(address: &str, results: &'a Vec<ChunkPeerGetResult>) -> (r: Result<
    &'a DataChunk,
    UsageError,
>)
    ensures
        match r {
            Ok(chunk) => exists|i: int|
                0 <= i < results@.len() && (#[trigger] results@[i]).chunk_result == Ok::<
                    Option<DataChunk>,
                    Error,
                >(Some(*chunk)) && forall|k: int| 0 <= k < i ==> !delivered(#[trigger] results@[k]),
            Err(e) => (forall|k: int| 0 <= k < results@.len() ==> !delivered(#[trigger] results@[k]))
                && e.message@ == "Chunk not found for address "@ + address@,
        },
{
    let mut i: usize = 0;
    while i < results.len()
        invariant
            i <= results.len(),
            forall|k: int| 0 <= k < i ==> !delivered(#[trigger] results@[k]),
        decreases results.len() - i,
    {
        match &results[i].chunk_result {
            Ok(Some(chunk)) => {
                assert(results@[i as int].chunk_result == Ok::<Option<DataChunk>, Error>(
                    Some(*chunk),
                ));
                return Ok(chunk);
            },
            Ok(None) => {},
            Err(_) => {},
        }
        i = i + 1;
    }
    Err(chunk_not_found(address))
}

/// The number that decimal digits spell, least significant first.
pub open spec fn le_digits_value(digits: Seq<u8>) -> nat
    decreases digits.len(),
{
    if digits.len() == 0 {
        0
    } else {
        digits[0] as nat + 10 * le_digits_value(digits.drop_first())
    }
}

spec fn pow10(n: nat) -> nat
    decreases n,
{
    if n == 0 {
        1
    } else {
        10 * pow10((n - 1) as nat)
    }
}

spec fn all_below_ten(digits: Seq<u8>) -> bool {
    forall|i: int| 0 <= i < digits.len() ==> #[trigger] digits[i] < 10
}

proof fn lemma_digits_push(digits: Seq<u8>, d: u8)
    ensures
        le_digits_value(digits.push(d)) == le_digits_value(digits) + pow10(digits.len()) * d,
    decreases digits.len(),
{
    let all = digits.push(d);
    if digits.len() == 0 {
        assert(all.drop_first() =~= Seq::<u8>::empty());
        assert(le_digits_value(all.drop_first()) == 0);
        assert(pow10(0) * d == d) by (nonlinear_arith)
            requires
                pow10(0) == 1,
        ;
    } else {
        let rest = digits.drop_first();
        assert(all.drop_first() =~= rest.push(d));
        lemma_digits_push(rest, d);
        let p = pow10(rest.len());
        assert(10 * (p * d) == (10 * p) * d) by (nonlinear_arith);
    }
}

proof fn lemma_digits_text(digits: Seq<u8>)
    requires
        digits.len() > 0,
        all_below_ten(digits),
        digits.len() == 1 || digits.last() != 0,
    ensures
        decimal_text(le_digits_value(digits)) == Seq::new(
            digits.len(),
            |i: int| digit_char(digits[digits.len() - 1 - i] as nat),
        ),
        digits.last() != 0 ==> le_digits_value(digits) > 0,
    decreases digits.len(),
{
    let n = le_digits_value(digits);
    let text = Seq::new(
        digits.len(),
        |i: int| digit_char(digits[digits.len() - 1 - i] as nat),
    );
    let rest = digits.drop_first();
    assert(digits[0] < 10);
    if digits.len() == 1 {
        assert(rest =~= Seq::<u8>::empty());
        assert(le_digits_value(rest) == 0);
        assert(n == digits[0]);
        assert(decimal_text(n) =~= text);
    } else {
        assert(rest.last() == digits.last());
        assert(all_below_ten(rest)) by {
            assert forall|i: int| 0 <= i < rest.len() implies #[trigger] rest[i] < 10 by {
                assert(rest[i] == digits[i + 1]);
            }
        }
        lemma_digits_text(rest);
        let m = le_digits_value(rest);
        assert(n == digits[0] as nat + 10 * m);
        assert(n / 10 == m && n % 10 == digits[0]);
        assert(decimal_text(n) =~= text);
    }
}

/// `distance` multiplied by 256, plus `byte`, on decimal digits.
fn shift_in_byte(digits: &mut Vec<u8>, byte: u8)
    requires
        old(digits)@.len() > 0,
        old(digits)@.len() < 1000,
        all_below_ten(old(digits)@),
        old(digits)@.len() == 1 || old(digits)@.last() != 0,
    ensures
        le_digits_value(final(digits)@) == le_digits_value(old(digits)@) * 256 + byte,
        old(digits)@.len() <= final(digits)@.len() <= old(digits)@.len() + 3,
        all_below_ten(final(digits)@),
        final(digits)@.len() == 1 || final(digits)@.last() != 0,
{
    let ghost before = digits@;
    let ghost target = le_digits_value(before) * 256 + byte;
    let mut carry: u16 = byte as u16;
    let mut j: usize = 0;
    let n: usize = digits.len();
    proof {
        assert(before.skip(0) =~= before);
        assert(digits@.take(0) =~= Seq::<u8>::empty());
        let v = le_digits_value(before);
        assert(pow10(0) * (carry + 256 * v) == carry + 256 * v) by (nonlinear_arith)
            requires
                pow10(0) == 1,
        ;
    }
    while j < n
        invariant
            j <= n,
            n == before.len(),
            n == digits.len(),
            n > 0,
            carry <= 255,
            all_below_ten(before),
            all_below_ten(digits@.take(j as int)),
            digits@.skip(j as int) == before.skip(j as int),
            before.len() == 1 || before.last() != 0,
            le_digits_value(digits@.take(j as int)) + pow10(j as nat) * (carry + 256
                * le_digits_value(before.skip(j as int))) == target,
            j == n && n > 1 ==> carry > 0,
        decreases n - j,
    {
        let ghost low = digits@.take(j as int);
        let ghost high = before.skip(j as int);
        proof {
            assert(digits@.skip(j as int)[0] == digits@[j as int]);
            assert(high[0] == before[j as int]);
            assert(before[j as int] < 10);
        }
        let old_digit: u8 = digits[j];
        let old_carry: u16 = carry;
        let value: u16 = old_digit as u16 * 256 + old_carry;
        let d: u8 = (value % 10) as u8;
        carry = value / 10;
        digits.set(j, d);
        proof {
            let rest = before.skip(j + 1);
            assert(high.drop_first() =~= rest);
            let r = le_digits_value(rest);
            assert(le_digits_value(high) == old_digit + 10 * r);
            assert(digits@.take(j + 1) =~= low.push(d));
            lemma_digits_push(low, d);
            let p = pow10(j as nat);
            assert(pow10((j + 1) as nat) == 10 * p);
            let c = carry as int;
            assert(old_carry + 256 * (old_digit + 10 * r) == 10 * c + d + 2560 * r);
            assert(p * (10 * c + d + 2560 * r) == p * d + (10 * p) * (c + 256 * r))
                by (nonlinear_arith);
            assert(digits@.skip(j + 1) =~= rest);
            assert(all_below_ten(digits@.take(j + 1))) by {
                assert forall|i: int| 0 <= i < j + 1 implies #[trigger] digits@.take(j + 1)[i]
                    < 10 by {
                    if i < j {
                        assert(digits@.take(j + 1)[i] == low[i]);
                    }
                }
            }
        }
        j = j + 1;
    }
    proof {
        assert(digits@.take(n as int) =~= digits@);
        assert(before.skip(n as int) =~= Seq::<u8>::empty());
    }
    while carry > 0
        invariant
            carry <= 255,
            digits.len() >= n,
            n > 0,
            n == before.len(),
            all_below_ten(digits@),
            le_digits_value(digits@) + pow10(digits@.len()) * carry == target,
            carry > 0 || digits.len() == 1 || digits@.last() != 0,
            carry >= 100 ==> digits.len() <= n,
            carry >= 10 ==> digits.len() <= n + 1,
            carry >= 1 ==> digits.len() <= n + 2,
            digits.len() <= n + 3,
        decreases carry,
    {
        let d: u8 = (carry % 10) as u8;
        let ghost low = digits@;
        let ghost c0 = carry as int;
        digits.push(d);
        carry = carry / 10;
        proof {
            lemma_digits_push(low, d);
            let p = pow10(low.len());
            let c = carry as int;
            assert(c0 == 10 * c + d);
            assert(p * (10 * c + d) == p * d + (10 * p) * c) by (nonlinear_arith);
            assert(pow10(digits@.len()) == 10 * p);
        }
    }
    assert(pow10(digits@.len()) * carry == 0) by (nonlinear_arith)
        requires
            carry == 0,
    ;
}

/// An XOR distance in decimal.
pub fn xor_distance_decimal(distance: &[u8; 32]) -> (r: String)
    ensures
        r@ == decimal_text(be_value(distance@)),
{
    let mut digits: Vec<u8> = Vec::new();
    digits.push(0);
    let mut i: usize = 0;
    proof {
        assert(distance@.take(0) =~= Seq::<u8>::empty());
        assert(digits@.drop_first() =~= Seq::<u8>::empty());
        assert(le_digits_value(digits@.drop_first()) == 0);
    }
    while i < 32
        invariant
            i <= 32,
            0 < digits.len() <= 1 + 3 * i,
            all_below_ten(digits@),
            digits.len() == 1 || digits@.last() != 0,
            le_digits_value(digits@) == be_value(distance@.take(i as int)),
        decreases 32 - i,
    {
        shift_in_byte(&mut digits, distance[i]);
        proof {
            assert(distance@.take(i + 1).drop_last() =~= distance@.take(i as int));
        }
        i = i + 1;
    }
    let mut text = String::new();
    let mut k: usize = digits.len();
    while k > 0
        invariant
            k <= digits.len(),
            all_below_ten(digits@),
            text@ =~= Seq::new(
                (digits.len() - k) as nat,
                |i: int| digit_char(digits@[digits@.len() - 1 - i] as nat),
            ),
        decreases k,
    {
        k = k - 1;
        assert(digits@[k as int] < 10);
        text.push(digit(digits[k]));
    }
    proof {
        assert(distance@.take(32) =~= distance@);
        lemma_digits_text(digits@);
        assert(text@ =~= decimal_text(be_value(distance@)));
    }
    text
}

/// Why a text is not an address.
#[derive(Debug)]
pub enum AddressError {
    /// Not hexadecimal, and what the decoder says about it.
    InvalidHex(String),
    /// Not 32 bytes.
    InvalidLength { actual: usize },
}

impl AddressError {
    /// The text that describes the error to the user.
    pub fn message(&self) -> (r: String)
        ensures
            r@ == match *self {
                AddressError::InvalidHex(reason) => reason@,
                AddressError::InvalidLength { actual } =>
                    "Invalid address length: expected "@ + decimal_text(XORNAME_BYTE_LEN as nat)
                    + " bytes, got "@ + decimal_text(actual as nat),
            },
    {
        match self {
            AddressError::InvalidHex(reason) => reason.clone(),
            AddressError::InvalidLength { actual } => {
                let mut m = "Invalid address length: expected ".to_owned();
                push_decimal(&mut m, XORNAME_BYTE_LEN as u128);
                m.append(" bytes, got ");
                push_decimal(&mut m, *actual as u128);
                m
            },
        }
    }
}

/// Reads an address of 64 hexadecimal digits.
pub fn parse_address(address: &str) -> (r: Result<[u8; 32], AddressError>)
    ensures
        match r {
            Ok(bytes) => is_hex(address@) && bytes@ == hex_bytes(address@),
            Err(AddressError::InvalidHex(reason)) => {
                &&& !is_hex(address@)
                &&& reason@ == hex_complaint(address@)
                &&& is_ascii_text(address@) ==> complains_about(address@, reason@)
            },
            Err(AddressError::InvalidLength { actual }) => is_hex(address@) && actual == hex_bytes(
                address@,
            ).len() && actual != XORNAME_BYTE_LEN,
        },
{
    let bytes = match hex_decode(address) {
        Ok(bytes) => bytes,
        Err(reason) => {
            return Err(AddressError::InvalidHex(reason));
        },
    };
    if bytes.len() != XORNAME_BYTE_LEN {
        return Err(AddressError::InvalidLength { actual: bytes.len() });
    }
    let mut out: [u8; 32] = [0u8; 32];
    let mut i: usize = 0;
    while i < 32
        invariant
            i <= 32,
            bytes.len() == 32,
            forall|k: int| 0 <= k < i ==> out@[k] == bytes@[k],
        decreases 32 - i,
    {
        out[i] = bytes[i];
        i = i + 1;
    }
    assert(out@ =~= bytes@);
    Ok(out)
}

/// Each answer is counted once and by its kind: a chunk, no chunk, a timeout, a network
/// error, or any other error.
pub proof fn answers_are_counted_by_kind(results: Seq<ChunkPeerGetResult>)
    requires
        results.len() <= usize::MAX,
    ensures
        ({
            let s = summarised(results);
            &&& s.found == results.filter(
                |r: ChunkPeerGetResult| r.chunk_result is Ok && r.chunk_result->Ok_0 is Some,
            ).len()
            &&& s.not_found == results.filter(
                |r: ChunkPeerGetResult| r.chunk_result is Ok && r.chunk_result->Ok_0 is None,
            ).len()
            &&& s.timeout == results.filter(
                |r: ChunkPeerGetResult|
                    r.chunk_result is Err && r.chunk_result->Err_0 is Timeout,
            ).len()
            &&& s.network_error == results.filter(
                |r: ChunkPeerGetResult|
                    r.chunk_result is Err && r.chunk_result->Err_0 is Network,
            ).len()
            &&& s.found + s.not_found + s.timeout + s.network_error + s.error == results.len()
        }),
    decreases results.len(),
{
    reveal(Seq::filter);
    if results.len() > 0 {
        answers_are_counted_by_kind(results.drop_last());
    }
}

} // verus!
