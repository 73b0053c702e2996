//! The page store as the engine's caller sees it: where a page lies in the
//! page blob, when a failed request is tried again, and which storage
//! account a connection string names.
//!
//! The requests themselves are made by the caller.

use vstd::prelude::*;
use vstd::slice::{slice_subrange, slice_to_vec};
use crate::error::{Fault, IronCladError};
use crate::page::PAGE_SIZE;
use vstd::string::StringExecFns;
use crate::text::{decimal_text, numbered, push_decimal_text, text_of};

verus! {

/// Offsets and lengths in a page blob are multiples of this.
pub const AZURE_PAGE_ALIGNMENT: usize = 512;

/// The size that the page blob is created with: 100 GiB.
pub const MAX_BLOB_SIZE: u64 = 107_374_182_400;

/// How often a failed request is tried again.
pub const DISK_RETRIES: u32 = 3;

/// The pause before the first retry, in milliseconds. Each further retry
/// waits this much longer than the one before.
pub const DISK_BACKOFF_MS: u64 = 100;

/// The bytes of a page in the page blob, from `offset` to `end`, both included.
#[derive(Debug, Clone, Copy, PartialEq, Eq)]
pub struct PageRange {
    pub offset: u64,
    pub end: u64,
}

/// What a request for a page came back with.
#[derive(Debug)]
pub enum ReadReply {
    /// The page store answered with these bytes.
    Page(Vec<u8>),
    /// The page store answered, but the body of its answer could not be
    /// read; the text says why.
    BodyFailed(String),
    /// The request failed; the text says why.
    Failed(String),
    /// The page store gave no answer.
    Nothing,
}

/// What to do after a request for a page has come back.
#[derive(Debug)]
pub enum ReadStep {
    /// The request has ended with this result.
    Done(Result<Vec<u8>, IronCladError>),
    /// Wait `delay_ms` milliseconds and ask again.
    Retry { delay_ms: u64 },
}

/// What to do after a request to write a page has come back.
#[derive(Debug)]
pub enum WriteStep {
    /// The request has ended with this result.
    Done(Result<(), IronCladError>),
    /// Wait `delay_ms` milliseconds and ask again.
    Retry { delay_ms: u64 },
}

/// A page starts and ends where the page blob allows it: the size of a
/// page is a multiple of the alignment.
pub proof fn lemma_pages_are_aligned()
    ensures
        PAGE_SIZE % AZURE_PAGE_ALIGNMENT == 0,
{
}

/// The offsets of the bytes of page `page_id` are 64-bit numbers.
pub open spec fn addressable(page_id: u64) -> bool {
    page_id * PAGE_SIZE + PAGE_SIZE - 1 <= u64::MAX
}

/// The text of the error for a page that was read with `len` bytes, which
/// is not one page: `Expected 4096 bytes, got ` and `len` in decimal.
pub open spec fn short_read_text(len: nat) -> Seq<char> {
    "Expected 4096 bytes, got "@ + decimal_text(len)
}

/// The text of the error for a page of `len` bytes, which is not one page,
/// that is to be written: `Page size must be 4096, got ` and `len` in decimal.
pub open spec fn bad_write_text(len: nat) -> Seq<char> {
    "Page size must be 4096, got "@ + decimal_text(len)
}

/// The text of the error for a request for page `page_id` that is given up
/// after `attempts` retries because of `cause`.
pub open spec fn failed_read_text(page_id: u64, attempts: u32, cause: Seq<char>) -> Seq<char> {
    "Failed to read page "@ + decimal_text(page_id as nat) + " after "@ + decimal_text(
        attempts as nat,
    ) + " attempts: "@ + cause
}

/// The text of the error for a request to write page `page_id` that is
/// given up after `attempts` retries because of `cause`.
pub open spec fn failed_write_text(page_id: u64, attempts: u32, cause: Seq<char>) -> Seq<char> {
    "Failed to write page "@ + decimal_text(page_id as nat) + " after "@ + decimal_text(
        attempts as nat,
    ) + " attempts: "@ + cause
}

/// The cause that is named when the page store gave no answer.
pub open spec fn no_data_text() -> Seq<char> {
    "No data received"@
}

/// Builds the text of the error for a request that is given up.
fn given_up(head: &str, page_id: u64, attempts: u32, cause: &str) -> (text: String)
    ensures
        text@ == head@ + decimal_text(page_id as nat) + " after "@ + decimal_text(attempts as nat)
            + " attempts: "@ + cause@,
{
    let mut text = numbered(head, page_id);
    text.append(" after ");
    push_decimal_text(&mut text, attempts as u64);
    text.append(" attempts: ");
    text.append(cause);
    text
}

/// The bytes that page `page_id` takes up in the page blob: page 0 starts
/// at offset 0, and each page starts where the one before it ends. They
/// start and end at a multiple of the alignment.
///
/// Fails with `PageNotFound` for a page whose offsets are no 64-bit numbers.
pub fn page_range(page_id: u64) -> (r: Result<PageRange, IronCladError>)
    ensures
        match r {
            Ok(range) => {
                &&& addressable(page_id)
                &&& range.offset == page_id * PAGE_SIZE
                &&& range.end == range.offset + PAGE_SIZE - 1
                &&& range.offset as int % AZURE_PAGE_ALIGNMENT as int == 0
                &&& (range.end + 1) % AZURE_PAGE_ALIGNMENT as int == 0
            },
            Err(e) => !addressable(page_id) && e@ == (Fault::PageNotFound { page_id }),
        },
{
    let last = (u64::MAX - (PAGE_SIZE as u64 - 1)) / (PAGE_SIZE as u64);
    assert(0xffff_ffff_ffff_f000u64 / 4096u64 == 0xf_ffff_ffff_ffffu64) by (bit_vector);
    assert(last == 0xf_ffff_ffff_ffff);
    if page_id > last {
        assert(!addressable(page_id)) by (nonlinear_arith)
            requires
                page_id > 0xf_ffff_ffff_ffff,
                PAGE_SIZE == 4096,
        ;
        return Err(IronCladError::PageNotFound { page_id });
    }
    assert(addressable(page_id)) by (nonlinear_arith)
        requires
            page_id <= 0xf_ffff_ffff_ffff,
            PAGE_SIZE == 4096,
    ;
    let offset = page_id * (PAGE_SIZE as u64);
    let end = offset + (PAGE_SIZE as u64 - 1);
    assert(offset % 512 == 0 && (end + 1) % 512 == 0) by (nonlinear_arith)
        requires
            offset == page_id * 4096,
            end == offset + 4095,
    ;
    Ok(PageRange { offset, end })
}

/// How long to wait before a request that has failed `failures` times is
/// made again, in milliseconds; `None` when it is not made again.
pub fn retry_delay_ms(failures: u32) -> (delay: Option<u64>)
    ensures
        delay == if 1 <= failures <= DISK_RETRIES {
            Some((DISK_BACKOFF_MS * failures) as u64)
        } else {
            None
        },
{
    if 1 <= failures && failures <= DISK_RETRIES {
        Some(DISK_BACKOFF_MS * (failures as u64))
    } else {
        None
    }
}

/// Decides what follows a request for page `page_id` that has failed
/// `failures` times before and now came back with `reply`.
///
/// A page of `PAGE_SIZE` bytes is the result; a page of another size fails
/// with `InvalidPageFormat`. An answer whose body could not be read fails
/// with `AzureStorageError`. A request that failed is made again
/// `DISK_RETRIES` times and then fails with `AzureError`, as does a request
/// without an answer at once.
pub fn after_read(page_id: u64, failures: u32, reply: ReadReply) -> (next: ReadStep)
    ensures
        match reply {
            ReadReply::Page(page) => {
                if page@.len() == PAGE_SIZE {
                    next == ReadStep::Done(Ok(page))
                } else {
                    &&& next matches ReadStep::Done(Err(e))
                    &&& e@ == (Fault::InvalidPageFormat { reason: short_read_text(page@.len()) })
                }
            },
            ReadReply::BodyFailed(cause) => {
                &&& next matches ReadStep::Done(Err(e))
                &&& e@ == Fault::AzureStorageError(cause@)
            },
            ReadReply::Failed(cause) => {
                if failures < DISK_RETRIES {
                    next == (ReadStep::Retry {
                        delay_ms: (DISK_BACKOFF_MS * (failures + 1)) as u64,
                    })
                } else {
                    &&& next matches ReadStep::Done(Err(e))
                    &&& e@ == Fault::AzureError(failed_read_text(page_id, failures, cause@))
                }
            },
            ReadReply::Nothing => {
                &&& next matches ReadStep::Done(Err(e))
                &&& e@ == Fault::AzureError(failed_read_text(page_id, failures, no_data_text()))
            },
        },
{
    match reply {
        ReadReply::Page(page) => {
            if page.len() == PAGE_SIZE {
                ReadStep::Done(Ok(page))
            } else {
                ReadStep::Done(
                    Err(
                        IronCladError::InvalidPageFormat {
                            reason: numbered("Expected 4096 bytes, got ", page.len() as u64),
                        },
                    ),
                )
            }
        },
        ReadReply::BodyFailed(cause) => ReadStep::Done(Err(IronCladError::AzureStorageError(cause))),
        ReadReply::Failed(cause) => {
            match retry_delay_ms(if failures < DISK_RETRIES {
                failures + 1
            } else {
                0
            }) {
                Some(delay_ms) => ReadStep::Retry { delay_ms },
                None => ReadStep::Done(
                    Err(
                        IronCladError::AzureError(
                            given_up("Failed to read page ", page_id, failures, cause.as_str()),
                        ),
                    ),
                ),
            }
        },
        ReadReply::Nothing => ReadStep::Done(
            Err(
                IronCladError::AzureError(
                    given_up("Failed to read page ", page_id, failures, "No data received"),
                ),
            ),
        ),
    }
}

/// Decides what follows a request to write page `page_id` that has failed
/// `failures` times before and now came back with `result`, whose error
/// is the text of the failure.
///
/// A request that failed is made again `DISK_RETRIES` times and then
/// fails with `AzureError`.
pub fn after_write(page_id: u64, failures: u32, result: Result<(), String>) -> (next: WriteStep)
    ensures
        match result {
            Ok(()) => next == WriteStep::Done(Ok(())),
            Err(cause) => {
                if failures < DISK_RETRIES {
                    next == (WriteStep::Retry {
                        delay_ms: (DISK_BACKOFF_MS * (failures + 1)) as u64,
                    })
                } else {
                    &&& next matches WriteStep::Done(Err(e))
                    &&& e@ == Fault::AzureError(failed_write_text(page_id, failures, cause@))
                }
            },
        },
{
    match result {
        Ok(()) => WriteStep::Done(Ok(())),
        Err(cause) => {
            match retry_delay_ms(if failures < DISK_RETRIES {
                failures + 1
            } else {
                0
            }) {
                Some(delay_ms) => WriteStep::Retry { delay_ms },
                None => WriteStep::Done(
                    Err(
                        IronCladError::AzureError(
                            given_up("Failed to write page ", page_id, failures, cause.as_str()),
                        ),
                    ),
                ),
            }
        },
    }
}

/// Checks that `page` can be written: it is `PAGE_SIZE` bytes long.
///
/// Fails with `ConfigError` else.
pub fn check_write(page: &[u8]) -> (r: Result<(), IronCladError>)
    ensures
        match r {
            Ok(()) => page@.len() == PAGE_SIZE,
            Err(e) => {
                &&& page@.len() != PAGE_SIZE
                &&& e@ == Fault::ConfigError(bad_write_text(page@.len()))
            },
        },
{
    if page.len() == PAGE_SIZE {
        Ok(())
    } else {
        Err(
            IronCladError::ConfigError(
                numbered("Page size must be 4096, got ", page.len() as u64),
            ),
        )
    }
}

// ---------------------------------------------------------------------------
// Connection strings
// ---------------------------------------------------------------------------

/// `;`, which separates the fields of a connection string.
pub const FIELD_END: u8 = 0x3b;

/// `=`, which separates the name of a field from its value.
pub const NAME_END: u8 = 0x3d;

/// The offset at which the field that starts at `from` ends: that of the
/// next `;`, or the length of the string.
pub open spec fn field_end(text: Seq<u8>, from: int) -> int
    decreases text.len() - from,
{
    if from < 0 || from >= text.len() || text[from] == FIELD_END {
        from
    } else {
        field_end(text, from + 1)
    }
}

/// The field that starts at `from` has the name `name`.
pub open spec fn names_field(text: Seq<u8>, from: int, name: Seq<u8>) -> bool {
    &&& from + name.len() < field_end(text, from)
    &&& text.subrange(from, from + name.len()) == name
    &&& text[from + name.len()] == NAME_END
}

/// The value of the first field at or after `from` that has the name
/// `name`: the bytes between the `=` behind the name and the end of the field.
pub open spec fn field_value(text: Seq<u8>, name: Seq<u8>, from: int) -> Option<Seq<u8>>
    decreases text.len() - from,
{
    let end = field_end(text, from);
    if from < 0 || from > text.len() {
        None
    } else if names_field(text, from, name) {
        Some(text.subrange(from + name.len() + 1, end))
    } else if from <= end < text.len() {
        field_value(text, name, end + 1)
    } else {
        None
    }
}

/// Finds where the field that starts at `from` ends.
fn find_field_end(text: &[u8], from: usize) -> (end: usize)
    requires
        from <= text@.len(),
    ensures
        end == field_end(text@, from as int),
        from <= end <= text@.len(),
{
    let mut at = from;
    while at < text.len() && text[at] != FIELD_END
        invariant
            from <= at <= text@.len(),
            field_end(text@, from as int) == field_end(text@, at as int),
        decreases text@.len() - at,
    {
        at += 1;
    }
    at
}

/// Tells whether the field from `from` to `end` has the name `name`.
fn has_name(text: &[u8], from: usize, end: usize, name: &[u8]) -> (named: bool)
    requires
        from <= end <= text@.len(),
        end == field_end(text@, from as int),
    ensures
        named == names_field(text@, from as int, name@),
{
    let n = name.len();
    if end - from <= n {
        return false;
    }
    let mut i: usize = 0;
    while i < n
        invariant
            i <= n,
            n == name@.len(),
            from + n < end <= text@.len(),
            forall|j: int| 0 <= j < i ==> text@[from + j] == name@[j],
        decreases n - i,
    {
        if text[from + i] != name[i] {
            proof {
                assert(text@.subrange(from as int, from + n)[i as int] != name@[i as int]);
            }
            return false;
        }
        i += 1;
    }
    proof {
        assert(text@.subrange(from as int, from + n) =~= name@);
    }
    text[from + n] == NAME_END
}

/// Finds the value of the first field of `text` that has the name `name`.
pub fn find_field(text: &[u8], name: &[u8]) -> (value: Option<Vec<u8>>)
    ensures
        match value {
            Some(bytes) => field_value(text@, name@, 0) == Some(bytes@),
            None => field_value(text@, name@, 0) is None,
        },
{
    let mut from: usize = 0;
    loop
        invariant
            from <= text@.len(),
            field_value(text@, name@, 0) == field_value(text@, name@, from as int),
        decreases text@.len() - from,
    {
        let end = find_field_end(text, from);
        if has_name(text, from, end, name) {
            let start = from + name.len() + 1;
            return Some(slice_to_vec(slice_subrange(text, start, end)));
        }
        if end >= text.len() {
            return None;
        }
        from = end + 1;
    }
}

/// The storage account that a connection string names.
#[derive(Debug)]
pub struct ConnectionInfo {
    pub account_name: String,
    pub account_key: String,
    /// The address of the blob service, where the connection string gives
    /// one: the account is then reached there, as an emulator is.
    pub blob_endpoint: Option<String>,
}

/// The value of a field as text, where its bytes are text.
pub open spec fn field_text(text: Seq<u8>, name: Seq<u8>) -> Option<Seq<u8>> {
    match field_value(text, name, 0) {
        Some(bytes) => if vstd::utf8::valid_utf8(bytes) {
            Some(bytes)
        } else {
            None
        },
        None => None,
    }
}

fn find_text(text: &[u8], name: &[u8]) -> (value: Option<String>)
    ensures
        match value {
            Some(s) => field_text(text@, name@) == Some(vstd::utf8::encode_utf8(s@)),
            None => field_text(text@, name@) is None,
        },
{
    match find_field(text, name) {
        Some(bytes) => text_of(bytes),
        None => None,
    }
}

/// `AccountName`
pub open spec fn account_name_field() -> Seq<u8> {
    seq![0x41u8, 0x63u8, 0x63u8, 0x6fu8, 0x75u8, 0x6eu8, 0x74u8, 0x4eu8, 0x61u8, 0x6du8, 0x65u8]
}

/// `AccountKey`
pub open spec fn account_key_field() -> Seq<u8> {
    seq![0x41u8, 0x63u8, 0x63u8, 0x6fu8, 0x75u8, 0x6eu8, 0x74u8, 0x4bu8, 0x65u8, 0x79u8]
}

/// `BlobEndpoint`
pub open spec fn blob_endpoint_field() -> Seq<u8> {
    seq![
        0x42u8,
        0x6cu8,
        0x6fu8,
        0x62u8,
        0x45u8,
        0x6eu8,
        0x64u8,
        0x70u8,
        0x6fu8,
        0x69u8,
        0x6eu8,
        0x74u8,
    ]
}

/// The text of the error for a connection string without an account name.
pub open spec fn no_account_name_text() -> Seq<char> {
    "Missing AccountName in connection string"@
}

/// The text of the error for a connection string without an account key.
pub open spec fn no_account_key_text() -> Seq<char> {
    "Missing AccountKey in connection string"@
}

/// Reads the account name, the account key and, where there is one, the
/// blob endpoint out of a connection string: a list of `name=value` fields
/// separated by `;`. The first field of a name counts.
///
/// Fails with `ConfigError` where the account name or the account key is
/// missing.
pub fn parse_connection_string(connection_string: &str) -> (r: Result<
    ConnectionInfo,
    IronCladError,
>)
    ensures
        match r {
            Ok(info) => {
                let text = vstd::utf8::encode_utf8(connection_string@);
                &&& field_text(text, account_name_field()) == Some(
                    vstd::utf8::encode_utf8(info.account_name@),
                )
                &&& field_text(text, account_key_field()) == Some(
                    vstd::utf8::encode_utf8(info.account_key@),
                )
                &&& match info.blob_endpoint {
                    Some(uri) => field_text(text, blob_endpoint_field()) == Some(
                        vstd::utf8::encode_utf8(uri@),
                    ),
                    None => field_text(text, blob_endpoint_field()) is None,
                }
            },
            Err(e) => {
                let text = vstd::utf8::encode_utf8(connection_string@);
                if field_text(text, account_name_field()) is None {
                    e@ == Fault::ConfigError(no_account_name_text())
                } else {
                    &&& field_text(text, account_key_field()) is None
                    &&& e@ == Fault::ConfigError(no_account_key_text())
                }
            },
        },
{
    let text = connection_string.as_bytes();
    let name_field: Vec<u8> = vec![
        0x41u8,
        0x63u8,
        0x63u8,
        0x6fu8,
        0x75u8,
        0x6eu8,
        0x74u8,
        0x4eu8,
        0x61u8,
        0x6du8,
        0x65u8,
    ];
    let key_field: Vec<u8> = vec![
        0x41u8,
        0x63u8,
        0x63u8,
        0x6fu8,
        0x75u8,
        0x6eu8,
        0x74u8,
        0x4bu8,
        0x65u8,
        0x79u8,
    ];
    let endpoint_field: Vec<u8> = vec![
        0x42u8,
        0x6cu8,
        0x6fu8,
        0x62u8,
        0x45u8,
        0x6eu8,
        0x64u8,
        0x70u8,
        0x6fu8,
        0x69u8,
        0x6eu8,
        0x74u8,
    ];
    proof {
        assert(name_field@ =~= account_name_field());
        assert(key_field@ =~= account_key_field());
        assert(endpoint_field@ =~= blob_endpoint_field());
    }
    let account_name = match find_text(text, name_field.as_slice()) {
        Some(name) => name,
        None => {
            return Err(
                IronCladError::ConfigError("Missing AccountName in connection string".to_string()),
            );
        },
    };
    let account_key = match find_text(text, key_field.as_slice()) {
        Some(key) => key,
        None => {
            return Err(
                IronCladError::ConfigError("Missing AccountKey in connection string".to_string()),
            );
        },
    };
    let blob_endpoint = find_text(text, endpoint_field.as_slice());
    Ok(ConnectionInfo { account_name, account_key, blob_endpoint })
}

} // verus!
