//! Quota-enforced ingestion of translation files into the content-addressed
//! object store, with an advisory cache projection and a reconciling index
//! upsert.
//!
//! The pipeline is: decode and count every file (a malformed pre-packed
//! payload rejects the whole request before any write), enforce per-file
//! and aggregate quotas as a pre-flight barrier, then write each file's
//! object under a deterministic key, project its cache metadata, and
//! finally upsert one index row per file.

use vstd::prelude::*;
use vstd::string::StrSliceExecFns;
use vstd::string::StringExecFns;
use vstd::utf8::encode_utf8;
use crate::packed::{base64_decoded, decode_base64, packed_key_count, packed_key_count_of};
use crate::render::{
    append_sql_escaped, cache_metadata_of, entry_views, json_object_of, render_cache_metadata,
    render_string_object, sql_escaped,
};
use crate::store::{
    D1FileRecord, IndexTable, ObjectStore, ObjectV, RowV, StoredObject, row_key, upserted,
};
use crate::text::dec_of_int;
use crate::text::i64_dec;
use crate::{MAX_BYTES_PER_FILE, MAX_KEYS_PER_FILE, MAX_TOTAL_BYTES, MAX_TOTAL_KEYS};

verus! {

/// One translation file handed to the ingestion pipeline. When a
/// pre-packed payload is present it is authoritative for byte size and key
/// count; otherwise both derive from the structured content map.
pub struct FileToUpload {
    pub lang: String,
    pub filename: String,
    pub contents: Vec<(String, String)>,
    pub source_hash: String,
    pub packed_data: Option<String>,
}

/// One ingestion request: a batch of files for a project revision.
pub struct UploadRequest {
    pub project_id: String,
    pub branch: String,
    pub commit_sha: String,
    pub files: Vec<FileToUpload>,
}

/// What a successful ingestion reports: the uploaded identifiers and the
/// storage keys written.
#[derive(Debug)]
pub struct UploadResponse {
    pub success: bool,
    pub uploaded_files: Vec<String>,
    pub r2_keys: Vec<String>,
}

/// A request to store one miscellaneous metadata blob next to an already
/// ingested object.
pub struct MiscGitRequest {
    pub project_id: String,
    pub r2_key: String,
    pub metadata_base64: String,
    pub lang: Option<String>,
    pub filename: Option<String>,
}

/// Why a pre-packed payload could not be decoded.
#[derive(Debug, Clone, Copy, PartialEq, Eq, Structural)]
pub enum PackedError {
    /// The payload is not canonical base64.
    InvalidBase64,
    /// The decoded bytes are not exactly one well-formed packed value.
    InvalidPacked,
}

/// Why an ingestion request was rejected before any write. A malformed
/// payload is a client input error; everything else is an exceeded quota.
#[derive(Debug, Clone, Copy, PartialEq, Eq, Structural)]
pub enum IngestError {
    /// A file's pre-packed payload did not decode.
    MalformedPayload { index: usize, kind: PackedError },
    /// A file carries more keys than one file may.
    TooManyKeys { index: usize, keys: u64 },
    /// A file is larger than one file may be.
    FileTooLarge { index: usize, bytes: usize },
    /// The batch carries more keys than one request may.
    TotalKeysExceeded,
    /// The batch is larger than one request may be.
    TotalBytesExceeded,
}

impl IngestError {
    /// The HTTP status the rejection surfaces as: 400 for a malformed
    /// payload, 413 for an exceeded quota.
    pub open spec fn spec_status(&self) -> u16 {
        match self {
            IngestError::MalformedPayload { .. } => 400,
            _ => 413,
        }
    }

    /// The HTTP status of this rejection.
    pub fn status(&self) -> (s: u16)
        ensures
            s == self.spec_status(),
    {
        match self {
            IngestError::MalformedPayload { .. } => 400,
            _ => 413,
        }
    }
}

/// Relies on uuid::Uuid::new_v4 and its hyphenated rendering: the value is
/// random, so only the rendered length — 36 characters — is assumed.
#[verifier::external_body]
fn new_uuid_string() -> (r: String)
    ensures
        r@.len() == 36,
{
    uuid::Uuid::new_v4().to_string()
}

/// Relies on chrono::Utc::now and DateTime::to_rfc3339. The result depends
/// on the clock, so nothing is assumed of it.
#[verifier::external_body]
fn now_rfc3339() -> String {
    chrono::Utc::now().to_rfc3339()
}

/// The bytes a file's structured content map serializes to.
pub open spec fn content_bytes_of(f: FileToUpload) -> Seq<u8> {
    encode_utf8(json_object_of(entry_views(f.contents@)))
}

/// The key count and byte length of one file: derived from the pre-packed
/// payload when present (after base64 and packed decoding, either of which
/// may fail), else from the structured content map.
pub open spec fn file_measure(f: FileToUpload) -> Result<(nat, nat), PackedError> {
    match f.packed_data {
        Some(p) => match base64_decoded(p@) {
            None => Err(PackedError::InvalidBase64),
            Some(bytes) => match packed_key_count_of(bytes) {
                None => Err(PackedError::InvalidPacked),
                Some(k) => Ok((k, bytes.len())),
            },
        },
        None => Ok((f.contents@.len(), content_bytes_of(f).len())),
    }
}

/// Measure one file.
pub fn count_keys_and_bytes(file: &FileToUpload) -> (r: Result<(u64, usize), PackedError>)
    ensures
        ({
            let m = file_measure(*file);
            match r {
                Ok(km) => m == Ok::<(nat, nat), PackedError>(((km.0 as nat), (km.1 as nat))),
                Err(e) => m == Err::<(nat, nat), PackedError>(e),
            }
        }),
{
    match &file.packed_data {
        Some(p) => match decode_base64(p.as_str()) {
            None => Err(PackedError::InvalidBase64),
            Some(bytes) => match packed_key_count(bytes.as_slice()) {
                None => Err(PackedError::InvalidPacked),
                Some(k) => Ok((k, bytes.len())),
            },
        },
        None => {
            let rendered = render_string_object(&file.contents);
            Ok((file.contents.len() as u64, rendered.as_str().as_bytes().len()))
        },
    }
}

/// Measure every file left to right; the first failure, with its index.
pub open spec fn decode_all(files: Seq<FileToUpload>) -> Result<
    Seq<(nat, nat)>,
    (int, PackedError),
>
    decreases files.len(),
{
    if files.len() == 0 {
        Ok(Seq::empty())
    } else {
        match decode_all(files.drop_last()) {
            Err(e) => Err(e),
            Ok(ms) => match file_measure(files.last()) {
                Err(e) => Err((files.len() - 1, e)),
                Ok(m) => Ok(ms.push(m)),
            },
        }
    }
}

/// A failure among the first files decides the whole batch.
proof fn lemma_decode_all_err_extend(files: Seq<FileToUpload>, i: int)
    requires
        0 <= i <= files.len(),
        decode_all(files.take(i)) is Err,
    ensures
        decode_all(files) == decode_all(files.take(i)),
    decreases files.len() - i,
{
    if i == files.len() {
        assert(files.take(i) =~= files);
    } else {
        assert(files.take(i + 1).drop_last() =~= files.take(i));
        lemma_decode_all_err_extend(files, i + 1);
    }
}

/// A successful decode measures every file.
proof fn lemma_decode_all_ok(files: Seq<FileToUpload>)
    requires
        decode_all(files) is Ok,
    ensures
        (decode_all(files)->Ok_0).len() == files.len(),
        forall|i: int|
            0 <= i < files.len() ==> file_measure(#[trigger] files[i]) == Ok::<
                (nat, nat),
                PackedError,
            >(((decode_all(files)->Ok_0)[i].0, (decode_all(files)->Ok_0)[i].1)),
    decreases files.len(),
{
    if files.len() > 0 {
        lemma_decode_all_ok(files.drop_last());
        assert forall|i: int| 0 <= i < files.len() implies file_measure(#[trigger] files[i])
            == Ok::<(nat, nat), PackedError>(
            ((decode_all(files)->Ok_0)[i].0, (decode_all(files)->Ok_0)[i].1),
        ) by {
            if i < files.len() - 1 {
                assert(files.drop_last()[i] == files[i]);
                assert(file_measure(files.drop_last()[i]) == Ok::<(nat, nat), PackedError>(
                    (
                        (decode_all(files.drop_last())->Ok_0)[i].0,
                        (decode_all(files.drop_last())->Ok_0)[i].1,
                    ),
                ));
            }
        }
    }
}

/// The first file, in order, that breaks a per-file limit: its index, and
/// whether the key limit (true) or the byte limit (false) broke.
pub open spec fn first_violation(ms: Seq<(nat, nat)>) -> Option<(int, bool)>
    decreases ms.len(),
{
    if ms.len() == 0 {
        None
    } else {
        match first_violation(ms.drop_last()) {
            Some(v) => Some(v),
            None => {
                if ms.last().0 > MAX_KEYS_PER_FILE as nat {
                    Some((ms.len() - 1, true))
                } else if ms.last().1 > MAX_BYTES_PER_FILE as nat {
                    Some((ms.len() - 1, false))
                } else {
                    None
                }
            },
        }
    }
}

/// A violation among the first files decides the whole batch.
proof fn lemma_first_violation_extend(ms: Seq<(nat, nat)>, i: int)
    requires
        0 <= i <= ms.len(),
        first_violation(ms.take(i)) is Some,
    ensures
        first_violation(ms) == first_violation(ms.take(i)),
    decreases ms.len() - i,
{
    if i == ms.len() {
        assert(ms.take(i) =~= ms);
    } else {
        assert(ms.take(i + 1).drop_last() =~= ms.take(i));
        lemma_first_violation_extend(ms, i + 1);
    }
}

/// Without a violation, every file is within both per-file limits.
proof fn lemma_first_violation_none(ms: Seq<(nat, nat)>)
    requires
        first_violation(ms) is None,
    ensures
        forall|i: int|
            0 <= i < ms.len() ==> (#[trigger] ms[i]).0 <= MAX_KEYS_PER_FILE as nat && ms[i].1
                <= MAX_BYTES_PER_FILE as nat,
    decreases ms.len(),
{
    if ms.len() > 0 {
        lemma_first_violation_none(ms.drop_last());
        assert forall|i: int| 0 <= i < ms.len() implies (#[trigger] ms[i]).0
            <= MAX_KEYS_PER_FILE as nat && ms[i].1 <= MAX_BYTES_PER_FILE as nat by {
            if i < ms.len() - 1 {
                assert(ms.drop_last()[i] == ms[i]);
            }
        }
    }
}

/// The key count of a whole batch.
pub open spec fn total_keys_of(ms: Seq<(nat, nat)>) -> nat
    decreases ms.len(),
{
    if ms.len() == 0 {
        0
    } else {
        total_keys_of(ms.drop_last()) + ms.last().0
    }
}

/// The byte size of a whole batch.
pub open spec fn total_bytes_of(ms: Seq<(nat, nat)>) -> nat
    decreases ms.len(),
{
    if ms.len() == 0 {
        0
    } else {
        total_bytes_of(ms.drop_last()) + ms.last().1
    }
}

/// Totals only grow with more files.
proof fn lemma_totals_mono(ms: Seq<(nat, nat)>, i: int)
    requires
        0 <= i <= ms.len(),
    ensures
        total_keys_of(ms.take(i)) <= total_keys_of(ms),
        total_bytes_of(ms.take(i)) <= total_bytes_of(ms),
    decreases ms.len() - i,
{
    if i == ms.len() {
        assert(ms.take(i) =~= ms);
    } else {
        assert(ms.take(i + 1).drop_last() =~= ms.take(i));
        lemma_totals_mono(ms, i + 1);
    }
}

/// The pre-flight decision over a batch: the first decode failure, else
/// the first per-file violation, else the key total, else the byte total;
/// when all pass, the measures of every file. No write happens before this
/// decision, and a rejection carries the status its kind demands.
pub open spec fn quota_verdict(files: Seq<FileToUpload>) -> Result<Seq<(nat, nat)>, IngestError> {
    match decode_all(files) {
        Err((i, e)) => Err(IngestError::MalformedPayload { index: i as usize, kind: e }),
        Ok(ms) => match first_violation(ms) {
            Some(v) => {
                if v.1 {
                    Err(IngestError::TooManyKeys { index: v.0 as usize, keys: ms[v.0].0 as u64 })
                } else {
                    Err(IngestError::FileTooLarge { index: v.0 as usize, bytes: ms[v.0].1 as usize })
                }
            },
            None => {
                if total_keys_of(ms) > MAX_TOTAL_KEYS as nat {
                    Err(IngestError::TotalKeysExceeded)
                } else if total_bytes_of(ms) > MAX_TOTAL_BYTES as nat {
                    Err(IngestError::TotalBytesExceeded)
                } else {
                    Ok(ms)
                }
            },
        },
    }
}

/// The mathematical measures of an executable measure list.
pub open spec fn measures_view(ms: Seq<(u64, usize)>) -> Seq<(nat, nat)> {
    ms.map_values(|m: (u64, usize)| ((m.0 as nat), (m.1 as nat)))
}

/// Decode, count and quota-check a batch before any write: exactly the
/// pre-flight decision of `quota_verdict`.
pub fn check_quotas(files: &Vec<FileToUpload>) -> (r: Result<Vec<(u64, usize)>, IngestError>)
    ensures
        ({
            let v = quota_verdict(files@);
            match r {
                Ok(ms) => v == Ok::<Seq<(nat, nat)>, IngestError>(measures_view(ms@)),
                Err(e) => v == Err::<Seq<(nat, nat)>, IngestError>(e),
            }
        }),
{
    let n = files.len();
    let mut ms: Vec<(u64, usize)> = Vec::new();
    proof {
        assert(files@.take(0) =~= Seq::<FileToUpload>::empty());
        assert(measures_view(ms@) =~= Seq::<(nat, nat)>::empty());
    }
    let mut i: usize = 0;
    while i < n
        invariant
            n == files@.len(),
            i <= n,
            ms@.len() == i,
            decode_all(files@.take(i as int)) == Ok::<Seq<(nat, nat)>, (int, PackedError)>(
                measures_view(ms@),
            ),
        decreases n - i,
    {
        let ghost before = measures_view(ms@);
        match count_keys_and_bytes(&files[i]) {
            Err(e) => {
                proof {
                    assert(files@.take(i + 1).drop_last() =~= files@.take(i as int));
                    assert(files@.take(i + 1).last() == files@[i as int]);
                    assert(decode_all(files@.take(i + 1)) == Err::<
                        Seq<(nat, nat)>,
                        (int, PackedError),
                    >((i as int, e)));
                    lemma_decode_all_err_extend(files@, i + 1);
                }
                return Err(IngestError::MalformedPayload { index: i, kind: e });
            },
            Ok(m) => {
                ms.push(m);
                proof {
                    assert(files@.take(i + 1).drop_last() =~= files@.take(i as int));
                    assert(files@.take(i + 1).last() == files@[i as int]);
                    assert(measures_view(ms@) =~= before.push(((m.0 as nat), (m.1 as nat))));
                }
            },
        }
        i += 1;
    }
    proof {
        assert(files@.take(n as int) =~= files@);
    }
    let ghost sms = measures_view(ms@);
    proof {
        assert(sms.take(0) =~= Seq::<(nat, nat)>::empty());
    }
    let mut j: usize = 0;
    while j < n
        invariant
            n == ms@.len(),
            j <= n,
            sms == measures_view(ms@),
            sms.len() == n,
            decode_all(files@) == Ok::<Seq<(nat, nat)>, (int, PackedError)>(sms),
            first_violation(sms.take(j as int)) is None,
        decreases n - j,
    {
        let k = ms[j].0;
        let b = ms[j].1;
        proof {
            assert(sms.take(j + 1).drop_last() =~= sms.take(j as int));
            assert(sms.take(j + 1).last() == sms[j as int]);
            assert(sms[j as int] == ((k as nat), (b as nat)));
        }
        if k > MAX_KEYS_PER_FILE as u64 {
            proof {
                assert(first_violation(sms.take(j + 1)) == Some((j as int, true)));
                lemma_first_violation_extend(sms, j + 1);
            }
            return Err(IngestError::TooManyKeys { index: j, keys: k });
        }
        if b > MAX_BYTES_PER_FILE {
            proof {
                assert(first_violation(sms.take(j + 1)) == Some((j as int, false)));
                lemma_first_violation_extend(sms, j + 1);
            }
            return Err(IngestError::FileTooLarge { index: j, bytes: b });
        }
        proof {
            assert(first_violation(sms.take(j + 1)) is None);
        }
        j += 1;
    }
    proof {
        assert(sms.take(n as int) =~= sms);
        lemma_first_violation_none(sms);
    }
    let mut total_keys: u64 = 0;
    let mut idx: usize = 0;
    proof {
        assert(sms.take(0) =~= Seq::<(nat, nat)>::empty());
    }
    while idx < n
        invariant
            n == ms@.len(),
            idx <= n,
            sms == measures_view(ms@),
            sms.len() == n,
            first_violation(sms) is None,
            decode_all(files@) == Ok::<Seq<(nat, nat)>, (int, PackedError)>(sms),
            total_keys == total_keys_of(sms.take(idx as int)),
            total_keys <= MAX_TOTAL_KEYS as u64,
        decreases n - idx,
    {
        let k = ms[idx].0;
        proof {
            lemma_first_violation_none(sms);
            assert(sms[idx as int].0 == k as nat);
            assert(sms[idx as int].0 <= MAX_KEYS_PER_FILE as nat);
            assert(sms.take(idx + 1).drop_last() =~= sms.take(idx as int));
            assert(sms.take(idx + 1).last() == sms[idx as int]);
        }
        total_keys = total_keys + k;
        if total_keys > MAX_TOTAL_KEYS as u64 {
            proof {
                assert(total_keys == total_keys_of(sms.take(idx + 1)));
                lemma_totals_mono(sms, idx + 1);
                assert(total_keys_of(sms) > MAX_TOTAL_KEYS as nat);
            }
            return Err(IngestError::TotalKeysExceeded);
        }
        idx += 1;
    }
    proof {
        assert(sms.take(n as int) =~= sms);
    }
    let mut total_bytes: usize = 0;
    let mut idx2: usize = 0;
    proof {
        assert(sms.take(0) =~= Seq::<(nat, nat)>::empty());
    }
    while idx2 < n
        invariant
            n == ms@.len(),
            idx2 <= n,
            sms == measures_view(ms@),
            sms.len() == n,
            first_violation(sms) is None,
            total_keys_of(sms) <= MAX_TOTAL_KEYS as nat,
            decode_all(files@) == Ok::<Seq<(nat, nat)>, (int, PackedError)>(sms),
            total_bytes == total_bytes_of(sms.take(idx2 as int)),
            total_bytes <= MAX_TOTAL_BYTES,
        decreases n - idx2,
    {
        let b = ms[idx2].1;
        proof {
            lemma_first_violation_none(sms);
            assert(sms[idx2 as int].1 == b as nat);
            assert(sms[idx2 as int].1 <= MAX_BYTES_PER_FILE as nat);
            assert(sms.take(idx2 + 1).drop_last() =~= sms.take(idx2 as int));
            assert(sms.take(idx2 + 1).last() == sms[idx2 as int]);
        }
        total_bytes = total_bytes + b;
        if total_bytes > MAX_TOTAL_BYTES {
            proof {
                assert(total_bytes == total_bytes_of(sms.take(idx2 + 1)));
                lemma_totals_mono(sms, idx2 + 1);
                assert(total_bytes_of(sms) > MAX_TOTAL_BYTES as nat);
            }
            return Err(IngestError::TotalBytesExceeded);
        }
        idx2 += 1;
    }
    proof {
        assert(sms.take(n as int) =~= sms);
    }
    Ok(ms)
}

/// Path separators flattened out of a filename.
pub open spec fn sanitized_of(name: Seq<char>) -> Seq<char> {
    name.map_values(
        |c: char|
            if c == '/' || c == '\\' {
                '-'
            } else {
                c
            },
    )
}

/// The deterministic storage key of one ingested file: project, language
/// and flattened filename. The same tuple always addresses the same
/// object, so re-ingestion overwrites.
pub open spec fn storage_key_of(project: Seq<char>, lang: Seq<char>, filename: Seq<char>) -> Seq<
    char,
> {
    project + "-"@ + lang + "-"@ + sanitized_of(filename)
}

/// Derive the storage key of one file.
pub fn generate_r2_key(project_id: &str, lang: &str, filename: &str) -> (r: String)
    ensures
        r@ == storage_key_of(project_id@, lang@, filename@),
{
    let mut out = String::new();
    out.append(project_id);
    out.append("-");
    out.append(lang);
    out.append("-");
    let ghost prefix = out@;
    let n = filename.unicode_len();
    proof {
        assert(sanitized_of(filename@.take(0)) =~= Seq::<char>::empty());
        assert(out@ =~= prefix + sanitized_of(filename@.take(0)));
    }
    let mut i: usize = 0;
    while i < n
        invariant
            n == filename@.len(),
            i <= n,
            prefix == project_id@ + "-"@ + lang@ + "-"@,
            out@ == prefix + sanitized_of(filename@.take(i as int)),
        decreases n - i,
    {
        let c = filename.get_char(i);
        if c == '/' || c == '\\' {
            out.push('-');
        } else {
            out.push(c);
        }
        proof {
            assert(sanitized_of(filename@.take(i + 1)) =~= sanitized_of(
                filename@.take(i as int),
            ).push(
                if filename@[i as int] == '/' || filename@[i as int] == '\\' {
                    '-'
                } else {
                    filename@[i as int]
                },
            ));
            assert(out@ =~= prefix + sanitized_of(filename@.take(i + 1)));
        }
        i += 1;
    }
    proof {
        assert(filename@.take(n as int) =~= filename@);
    }
    out
}

/// The key of a file's advisory cache projection; the filename stands as
/// it is.
pub open spec fn cache_key_of(project: Seq<char>, lang: Seq<char>, filename: Seq<char>) -> Seq<
    char,
> {
    "meta-"@ + project + "-"@ + lang + "-"@ + filename
}

/// Derive the cache key of one file.
pub fn generate_cache_key(project_id: &str, lang: &str, filename: &str) -> (r: String)
    ensures
        r@ == cache_key_of(project_id@, lang@, filename@),
{
    let mut out = String::new();
    out.append("meta-");
    out.append(project_id);
    out.append("-");
    out.append(lang);
    out.append("-");
    out.append(filename);
    out
}

/// The key of a miscellaneous metadata blob stored next to an object.
pub open spec fn misc_git_key_of(r2_key: Seq<char>) -> Seq<char> {
    r2_key + "-misc-git"@
}

/// The identifier an ingested file is reported under.
pub open spec fn uploaded_id_of(lang: Seq<char>, filename: Seq<char>) -> Seq<char> {
    lang + "/"@ + filename
}

/// The bytes written for one file: the decoded pre-packed payload verbatim
/// when present, else the serialized content map.
pub open spec fn payload_bytes_of(f: FileToUpload) -> Seq<u8> {
    match f.packed_data {
        Some(p) => match base64_decoded(p@) {
            Some(b) => b,
            None => Seq::empty(),
        },
        None => content_bytes_of(f),
    }
}

/// The descriptive metadata tagged onto one stored object.
pub open spec fn object_metadata_of(
    project: Seq<char>,
    commit: Seq<char>,
    now: Seq<char>,
    f: FileToUpload,
) -> Seq<(Seq<char>, Seq<char>)> {
    seq![
        ("project"@, project),
        ("lang"@, f.lang@),
        ("filename"@, f.filename@),
        ("commitSha"@, commit),
        ("sourceHash"@, f.source_hash@),
        ("uploadedAt"@, now),
    ]
}

/// The object one file's ingestion writes.
pub open spec fn main_object_of(
    project: Seq<char>,
    commit: Seq<char>,
    now: Seq<char>,
    f: FileToUpload,
) -> ObjectV {
    ObjectV {
        bytes: payload_bytes_of(f),
        content_type: "application/msgpack"@,
        metadata: object_metadata_of(project, commit, now, f),
    }
}

/// The advisory cache object one file's ingestion writes.
pub open spec fn cache_object_of(
    project: Seq<char>,
    now: Seq<char>,
    f: FileToUpload,
    keys: nat,
) -> ObjectV {
    ObjectV {
        bytes: encode_utf8(
            cache_metadata_of(project, f.lang@, f.filename@, keys, f.source_hash@, now),
        ),
        content_type: "application/json"@,
        metadata: Seq::empty(),
    }
}

/// The object store after ingesting a batch: per file, in order, its main
/// object then its cache projection, each keyed deterministically — so a
/// repeated tuple overwrites rather than accumulates.
pub open spec fn stores_after(
    m: Map<Seq<char>, ObjectV>,
    project: Seq<char>,
    commit: Seq<char>,
    now: Seq<char>,
    files: Seq<FileToUpload>,
    ms: Seq<(nat, nat)>,
) -> Map<Seq<char>, ObjectV>
    decreases files.len(),
{
    if files.len() == 0 {
        m
    } else {
        let prev = stores_after(m, project, commit, now, files.drop_last(), ms.drop_last());
        let f = files.last();
        prev.insert(
            storage_key_of(project, f.lang@, f.filename@),
            main_object_of(project, commit, now, f),
        ).insert(
            cache_key_of(project, f.lang@, f.filename@),
            cache_object_of(project, now, f, ms.last().0),
        )
    }
}

/// The index row one file's ingestion reconciles.
pub open spec fn row_of(
    project: Seq<char>,
    branch: Seq<char>,
    commit: Seq<char>,
    now: Seq<char>,
    f: FileToUpload,
    keys: nat,
    id: Seq<char>,
) -> RowV {
    RowV {
        id: id,
        project_id: project,
        branch: branch,
        commit_sha: commit,
        lang: f.lang@,
        filename: f.filename@,
        r2_key: storage_key_of(project, f.lang@, f.filename@),
        source_hash: f.source_hash@,
        total_keys: keys as int,
        uploaded_at: now,
        last_updated: now,
    }
}

/// The rows a batch reconciles, in file order.
pub open spec fn rows_of(
    project: Seq<char>,
    branch: Seq<char>,
    commit: Seq<char>,
    now: Seq<char>,
    files: Seq<FileToUpload>,
    ms: Seq<(nat, nat)>,
    ids: Seq<Seq<char>>,
) -> Seq<RowV> {
    Seq::new(files.len(), |i: int| row_of(project, branch, commit, now, files[i], ms[i].0, ids[i]))
}

/// The index after upserting rows in order.
pub open spec fn rows_after(
    t: Map<(Seq<char>, Seq<char>, Seq<char>, Seq<char>), RowV>,
    rows: Seq<RowV>,
) -> Map<(Seq<char>, Seq<char>, Seq<char>, Seq<char>), RowV>
    decreases rows.len(),
{
    if rows.len() == 0 {
        t
    } else {
        upserted(rows_after(t, rows.drop_last()), rows.last())
    }
}

/// The views of a sequence of owned strings.
pub open spec fn strings_view(v: Seq<String>) -> Seq<Seq<char>> {
    v.map_values(|s: String| s@)
}

/// Every storage and cache key a batch writes.
pub open spec fn batch_keys(project: Seq<char>, files: Seq<FileToUpload>) -> Set<Seq<char>> {
    Set::new(
        |k: Seq<char>|
            exists|i: int|
                0 <= i < files.len() && (k == storage_key_of(
                    project,
                    (#[trigger] files[i]).lang@,
                    files[i].filename@,
                ) || k == cache_key_of(project, files[i].lang@, files[i].filename@)),
    )
}

/// A batch writes exactly its derived keys: afterwards the store holds the
/// old keys and the batch's keys, nothing else.
pub proof fn lemma_stores_after_dom(
    m: Map<Seq<char>, ObjectV>,
    project: Seq<char>,
    commit: Seq<char>,
    now: Seq<char>,
    files: Seq<FileToUpload>,
    ms: Seq<(nat, nat)>,
)
    ensures
        stores_after(m, project, commit, now, files, ms).dom() == m.dom().union(
            batch_keys(project, files),
        ),
    decreases files.len(),
{
    if files.len() == 0 {
        assert(batch_keys(project, files) =~= Set::<Seq<char>>::empty());
        assert(stores_after(m, project, commit, now, files, ms).dom() =~= m.dom().union(
            batch_keys(project, files),
        ));
    } else {
        let files0 = files.drop_last();
        lemma_stores_after_dom(m, project, commit, now, files0, ms.drop_last());
        let f = files.last();
        let sk = storage_key_of(project, f.lang@, f.filename@);
        let ck = cache_key_of(project, f.lang@, f.filename@);
        assert forall|k: Seq<char>| #[trigger] batch_keys(project, files0).contains(
            k,
        ) implies batch_keys(project, files).contains(k) by {
            let i = choose|i: int|
                0 <= i < files0.len() && (k == storage_key_of(
                    project,
                    (#[trigger] files0[i]).lang@,
                    files0[i].filename@,
                ) || k == cache_key_of(project, files0[i].lang@, files0[i].filename@));
            assert(files[i] == files0[i]);
        }
        assert forall|k: Seq<char>| #[trigger] batch_keys(project, files).contains(k) implies (
        batch_keys(project, files0).contains(k) || k == sk || k == ck) by {
            let i = choose|i: int|
                0 <= i < files.len() && (k == storage_key_of(
                    project,
                    (#[trigger] files[i]).lang@,
                    files[i].filename@,
                ) || k == cache_key_of(project, files[i].lang@, files[i].filename@));
            if i < files.len() - 1 {
                assert(files0[i] == files[i]);
            } else {
                assert(files[i] == f);
            }
        }
        assert(batch_keys(project, files).contains(sk)) by {
            assert(files[files.len() - 1] == f);
        }
        assert(batch_keys(project, files).contains(ck)) by {
            assert(files[files.len() - 1] == f);
        }
        assert(stores_after(m, project, commit, now, files, ms).dom() =~= m.dom().union(
            batch_keys(project, files),
        ));
    }
}

/// Re-ingesting overwrites: a batch whose keys are all already stored
/// leaves the set of stored keys exactly as it was — every write lands on
/// an existing object.
pub proof fn lemma_reingest_overwrites_objects(
    m: Map<Seq<char>, ObjectV>,
    project: Seq<char>,
    commit: Seq<char>,
    now: Seq<char>,
    files: Seq<FileToUpload>,
    ms: Seq<(nat, nat)>,
)
    requires
        batch_keys(project, files).subset_of(m.dom()),
    ensures
        stores_after(m, project, commit, now, files, ms).dom() == m.dom(),
{
    lemma_stores_after_dom(m, project, commit, now, files, ms);
    assert(m.dom().union(batch_keys(project, files)) =~= m.dom());
}

/// Every tuple a batch of rows addresses.
pub open spec fn batch_tuples(rows: Seq<RowV>) -> Set<
    (Seq<char>, Seq<char>, Seq<char>, Seq<char>),
> {
    Set::new(
        |k: (Seq<char>, Seq<char>, Seq<char>, Seq<char>)|
            exists|i: int| 0 <= i < rows.len() && row_key(#[trigger] rows[i]) == k,
    )
}

/// A batch of upserts reconciles exactly its tuples: afterwards the index
/// holds the old tuples and the batch's tuples, nothing else — one row per
/// tuple, however often a tuple recurs.
pub proof fn lemma_rows_after_dom(
    t: Map<(Seq<char>, Seq<char>, Seq<char>, Seq<char>), RowV>,
    rows: Seq<RowV>,
)
    ensures
        rows_after(t, rows).dom() == t.dom().union(batch_tuples(rows)),
    decreases rows.len(),
{
    if rows.len() == 0 {
        assert(batch_tuples(rows) =~= Set::<(Seq<char>, Seq<char>, Seq<char>, Seq<char>)>::empty());
        assert(rows_after(t, rows).dom() =~= t.dom().union(batch_tuples(rows)));
    } else {
        let rows0 = rows.drop_last();
        lemma_rows_after_dom(t, rows0);
        let r = rows.last();
        assert forall|k: (Seq<char>, Seq<char>, Seq<char>, Seq<char>)| #[trigger] batch_tuples(
            rows0,
        ).contains(k) implies batch_tuples(rows).contains(k) by {
            let i = choose|i: int| 0 <= i < rows0.len() && row_key(#[trigger] rows0[i]) == k;
            assert(rows[i] == rows0[i]);
        }
        assert forall|k: (Seq<char>, Seq<char>, Seq<char>, Seq<char>)| #[trigger] batch_tuples(
            rows,
        ).contains(k) implies (batch_tuples(rows0).contains(k) || k == row_key(r)) by {
            let i = choose|i: int| 0 <= i < rows.len() && row_key(#[trigger] rows[i]) == k;
            if i < rows.len() - 1 {
                assert(rows0[i] == rows[i]);
            } else {
                assert(rows[i] == r);
            }
        }
        assert(batch_tuples(rows).contains(row_key(r))) by {
            assert(rows[rows.len() - 1] == r);
        }
        assert(rows_after(t, rows).dom() =~= t.dom().union(batch_tuples(rows)));
    }
}

/// Re-ingesting updates, never duplicates: a batch of upserts whose tuples
/// are all already in the index adds no row.
pub proof fn lemma_reingest_updates_rows(
    t: Map<(Seq<char>, Seq<char>, Seq<char>, Seq<char>), RowV>,
    rows: Seq<RowV>,
)
    requires
        batch_tuples(rows).subset_of(t.dom()),
    ensures
        rows_after(t, rows).dom() == t.dom(),
{
    lemma_rows_after_dom(t, rows);
    assert(t.dom().union(batch_tuples(rows)) =~= t.dom());
}

/// One successful ingestion, as a relation between the store and index
/// before and after: the quotas pass, and both capabilities hold exactly
/// what the batch wrote over what they held.
pub open spec fn ingest_transition(
    store0: Map<Seq<char>, ObjectV>,
    store1: Map<Seq<char>, ObjectV>,
    index0: Map<(Seq<char>, Seq<char>, Seq<char>, Seq<char>), RowV>,
    index1: Map<(Seq<char>, Seq<char>, Seq<char>, Seq<char>), RowV>,
    req: UploadRequest,
    now: Seq<char>,
    ids: Seq<Seq<char>>,
) -> bool {
    &&& quota_verdict(req.files@) is Ok
    &&& ids.len() == req.files@.len()
    &&& store1 == stores_after(
        store0,
        req.project_id@,
        req.commit_sha@,
        now,
        req.files@,
        quota_verdict(req.files@)->Ok_0,
    )
    &&& index1 == rows_after(
        index0,
        rows_of(
            req.project_id@,
            req.branch@,
            req.commit_sha@,
            now,
            req.files@,
            quota_verdict(req.files@)->Ok_0,
            ids,
        ),
    )
}

/// Ingest a batch at a given time with given row identifiers: the whole
/// pipeline over the in-memory capabilities. A rejected batch — malformed
/// payload or exceeded quota — leaves both capabilities exactly as they
/// were: not one write happens. An accepted batch writes every file's
/// object and cache projection, then reconciles the index, and reports the
/// uploaded identifiers and storage keys in file order.
#[verifier::rlimit(100)]
pub fn ingest_at(
    store: &mut ObjectStore,
    index: &mut IndexTable,
    req: &UploadRequest,
    now: &str,
    ids: &Vec<String>,
) -> (r: Result<UploadResponse, IngestError>)
    requires
        old(store).wf(),
        old(index).wf(),
        ids@.len() == req.files@.len(),
    ensures
        final(store).wf(),
        final(index).wf(),
        r is Err <==> quota_verdict(req.files@) is Err,
        quota_verdict(req.files@) is Err ==> r->Err_0 == quota_verdict(req.files@)->Err_0
            && final(store)@ == old(store)@ && final(index)@ == old(index)@
            && final(store).spec_len() == old(store).spec_len()
            && final(index).spec_len() == old(index).spec_len(),
        quota_verdict(req.files@) is Ok ==> ingest_transition(
            old(store)@,
            final(store)@,
            old(index)@,
            final(index)@,
            *req,
            now@,
            strings_view(ids@),
        ) && (r->Ok_0).success == true && strings_view((r->Ok_0).uploaded_files@) == Seq::new(
            req.files@.len(),
            |i: int| uploaded_id_of(req.files@[i].lang@, req.files@[i].filename@),
        ) && strings_view((r->Ok_0).r2_keys@) == Seq::new(
            req.files@.len(),
            |i: int| storage_key_of(req.project_id@, req.files@[i].lang@, req.files@[i].filename@),
        ),
{
    let ms = match check_quotas(&req.files) {
        Err(e) => {
            return Err(e);
        },
        Ok(v) => v,
    };
    let ghost sms = measures_view(ms@);
    let ghost pv = req.project_id@;
    let ghost bv = req.branch@;
    let ghost cv = req.commit_sha@;
    let ghost nv = now@;
    let ghost idsv = strings_view(ids@);
    proof {
        lemma_decode_all_ok(req.files@);
        assert(req.files@.take(0) =~= Seq::<FileToUpload>::empty());
        assert(sms.take(0) =~= Seq::<(nat, nat)>::empty());
    }
    let n = req.files.len();
    let mut uploaded: Vec<String> = Vec::new();
    let mut r2_keys: Vec<String> = Vec::new();
    let mut records: Vec<D1FileRecord> = Vec::new();
    let mut i: usize = 0;
    while i < n
        invariant
            n == req.files@.len(),
            ms@.len() == n,
            sms == measures_view(ms@),
            sms.len() == n,
            ids@.len() == n,
            idsv == strings_view(ids@),
            pv == req.project_id@,
            bv == req.branch@,
            cv == req.commit_sha@,
            nv == now@,
            decode_all(req.files@) == Ok::<Seq<(nat, nat)>, (int, PackedError)>(sms),
            first_violation(sms) is None,
            i <= n,
            store.wf(),
            index.wf(),
            index@ == old(index)@,
            index.spec_len() == old(index).spec_len(),
            store@ == stores_after(old(store)@, pv, cv, nv, req.files@.take(i as int), sms.take(i as int)),
            records@.len() == i,
            forall|j: int|
                0 <= j < i ==> (#[trigger] records@[j])@ == row_of(
                    pv,
                    bv,
                    cv,
                    nv,
                    req.files@[j],
                    sms[j].0,
                    idsv[j],
                ),
            uploaded@.len() == i,
            forall|j: int|
                0 <= j < i ==> (#[trigger] uploaded@[j])@ == uploaded_id_of(
                    req.files@[j].lang@,
                    req.files@[j].filename@,
                ),
            r2_keys@.len() == i,
            forall|j: int|
                0 <= j < i ==> (#[trigger] r2_keys@[j])@ == storage_key_of(
                    pv,
                    req.files@[j].lang@,
                    req.files@[j].filename@,
                ),
        decreases n - i,
    {
        proof {
            lemma_decode_all_ok(req.files@);
            lemma_first_violation_none(sms);
        }
        let f = &req.files[i];
        let key = generate_r2_key(req.project_id.as_str(), f.lang.as_str(), f.filename.as_str());
        let bytes: Vec<u8> = match &f.packed_data {
            Some(p) => match decode_base64(p.as_str()) {
                Some(bts) => bts,
                None => {
                    proof {
                        assert(file_measure(req.files@[i as int]) is Ok);
                        assert(false);
                    }
                    Vec::new()
                },
            },
            None => {
                let rendered = render_string_object(&f.contents);
                rendered.as_str().as_bytes_vec()
            },
        };
        proof {
            assert(bytes@ == payload_bytes_of(req.files@[i as int]));
        }
        let mut meta: Vec<(String, String)> = Vec::new();
        meta.push((String::from_str("project"), req.project_id.clone()));
        meta.push((String::from_str("lang"), f.lang.clone()));
        meta.push((String::from_str("filename"), f.filename.clone()));
        meta.push((String::from_str("commitSha"), req.commit_sha.clone()));
        meta.push((String::from_str("sourceHash"), f.source_hash.clone()));
        meta.push((String::from_str("uploadedAt"), String::from_str(now)));
        let obj = StoredObject {
            key: key.clone(),
            bytes,
            content_type: String::from_str("application/msgpack"),
            metadata: meta,
        };
        proof {
            assert(entry_views(obj.metadata@) =~= object_metadata_of(
                pv,
                cv,
                nv,
                req.files@[i as int],
            ));
            assert(obj@ == main_object_of(pv, cv, nv, req.files@[i as int]));
            assert(obj.key@ == storage_key_of(
                pv,
                req.files@[i as int].lang@,
                req.files@[i as int].filename@,
            ));
        }
        store.put(obj);
        let keys_count = ms[i].0;
        let ck = generate_cache_key(req.project_id.as_str(), f.lang.as_str(), f.filename.as_str());
        let cm = render_cache_metadata(
            req.project_id.as_str(),
            f.lang.as_str(),
            f.filename.as_str(),
            keys_count,
            f.source_hash.as_str(),
            now,
        );
        let cobj = StoredObject {
            key: ck,
            bytes: cm.as_str().as_bytes_vec(),
            content_type: String::from_str("application/json"),
            metadata: Vec::new(),
        };
        proof {
            assert(entry_views(cobj.metadata@) =~= Seq::<(Seq<char>, Seq<char>)>::empty());
            assert(sms[i as int] == ((keys_count as nat), (ms@[i as int].1 as nat)));
            assert(cobj@ == cache_object_of(pv, nv, req.files@[i as int], sms[i as int].0));
        }
        store.put(cobj);
        proof {
            assert(req.files@.take(i + 1).drop_last() =~= req.files@.take(i as int));
            assert(sms.take(i + 1).drop_last() =~= sms.take(i as int));
            assert(req.files@.take(i + 1).last() == req.files@[i as int]);
            assert(sms.take(i + 1).last() == sms[i as int]);
            assert(store@ == stores_after(
                old(store)@,
                pv,
                cv,
                nv,
                req.files@.take(i + 1),
                sms.take(i + 1),
            ));
        }
        let mut uid = String::new();
        uid.append(f.lang.as_str());
        uid.append("/");
        uid.append(f.filename.as_str());
        uploaded.push(uid);
        let rec = D1FileRecord {
            id: ids[i].clone(),
            project_id: req.project_id.clone(),
            branch: req.branch.clone(),
            commit_sha: req.commit_sha.clone(),
            lang: f.lang.clone(),
            filename: f.filename.clone(),
            r2_key: key.clone(),
            source_hash: f.source_hash.clone(),
            total_keys: keys_count as i32,
            uploaded_at: String::from_str(now),
            last_updated: String::from_str(now),
        };
        proof {
            assert(sms[i as int].0 <= MAX_KEYS_PER_FILE as nat);
            assert(rec@ == row_of(pv, bv, cv, nv, req.files@[i as int], sms[i as int].0, idsv[
                i as int
            ]));
        }
        records.push(rec);
        r2_keys.push(key);
        i += 1;
    }
    proof {
        assert(req.files@.take(n as int) =~= req.files@);
        assert(sms.take(n as int) =~= sms);
    }
    let ghost rows_v = rows_of(pv, bv, cv, nv, req.files@, sms, idsv);
    let ghost recs0 = records@;
    proof {
        assert(rows_v.len() == n);
        assert(recs0.skip(0) =~= recs0);
        assert(rows_v.take(0) =~= Seq::<RowV>::empty());
    }
    while records.len() > 0
        invariant
            index.wf(),
            recs0.len() == n,
            rows_v.len() == n,
            records@.len() <= n,
            records@ == recs0.skip(n - records@.len()),
            forall|j: int| 0 <= j < n ==> (#[trigger] recs0[j])@ == rows_v[j],
            index@ == rows_after(old(index)@, rows_v.take(n - records@.len())),
        decreases records@.len(),
    {
        let ghost k = n - records@.len();
        let rec = records.remove(0);
        proof {
            assert(rec == recs0[k]);
            assert(records@ =~= recs0.skip(k + 1));
        }
        index.upsert(rec);
        proof {
            assert(rows_v.take(k + 1).drop_last() =~= rows_v.take(k));
            assert(rows_v.take(k + 1).last() == rows_v[k]);
            assert(index@ == rows_after(old(index)@, rows_v.take(k + 1)));
        }
    }
    proof {
        assert(rows_v.take(n as int) =~= rows_v);
        assert(strings_view(uploaded@) =~= Seq::new(
            req.files@.len(),
            |j: int| uploaded_id_of(req.files@[j].lang@, req.files@[j].filename@),
        ));
        assert(strings_view(r2_keys@) =~= Seq::new(
            req.files@.len(),
            |j: int| storage_key_of(pv, req.files@[j].lang@, req.files@[j].filename@),
        ));
    }
    Ok(UploadResponse { success: true, uploaded_files: uploaded, r2_keys })
}

/// Ingest a batch: draw one row identifier per file, stamp the current
/// time, and run the pipeline. A rejected batch leaves both capabilities
/// untouched; an accepted one performs exactly one ingestion transition
/// for some timestamp and identifiers.
pub fn ingest(store: &mut ObjectStore, index: &mut IndexTable, req: &UploadRequest) -> (r: Result<
    UploadResponse,
    IngestError,
>)
    requires
        old(store).wf(),
        old(index).wf(),
    ensures
        final(store).wf(),
        final(index).wf(),
        r is Err <==> quota_verdict(req.files@) is Err,
        quota_verdict(req.files@) is Err ==> r->Err_0 == quota_verdict(req.files@)->Err_0
            && final(store)@ == old(store)@ && final(index)@ == old(index)@,
        quota_verdict(req.files@) is Ok ==> (r->Ok_0).success == true && strings_view(
            (r->Ok_0).uploaded_files@,
        ) == Seq::new(
            req.files@.len(),
            |i: int| uploaded_id_of(req.files@[i].lang@, req.files@[i].filename@),
        ) && strings_view((r->Ok_0).r2_keys@) == Seq::new(
            req.files@.len(),
            |i: int| storage_key_of(req.project_id@, req.files@[i].lang@, req.files@[i].filename@),
        ) && exists|now: Seq<char>, ids: Seq<Seq<char>>|
            ingest_transition(
                old(store)@,
                final(store)@,
                old(index)@,
                final(index)@,
                *req,
                now,
                ids,
            ),
{
    let now = now_rfc3339();
    let n = req.files.len();
    let mut ids: Vec<String> = Vec::new();
    let mut i: usize = 0;
    while i < n
        invariant
            i <= n,
            ids@.len() == i,
        decreases n - i,
    {
        ids.push(new_uuid_string());
        i += 1;
    }
    let r = ingest_at(store, index, req, now.as_str(), &ids);
    proof {
        if quota_verdict(req.files@) is Ok {
            assert(ingest_transition(
                old(store)@,
                store@,
                old(index)@,
                index@,
                *req,
                now@,
                strings_view(ids@),
            ));
        }
    }
    r
}

/// Store one miscellaneous metadata blob next to an ingested object, under
/// the object's key with a fixed suffix. A payload that does not decode
/// fails the request before any write.
pub fn upload_misc_git(store: &mut ObjectStore, body: &MiscGitRequest) -> (r: Result<
    String,
    PackedError,
>)
    requires
        old(store).wf(),
    ensures
        final(store).wf(),
        r is Err <==> base64_decoded(body.metadata_base64@) is None,
        r is Err ==> r->Err_0 == PackedError::InvalidBase64 && final(store)@ == old(store)@,
        r is Ok ==> (r->Ok_0)@ == misc_git_key_of(body.r2_key@) && final(store)@ == old(
            store,
        )@.insert(
            misc_git_key_of(body.r2_key@),
            ObjectV {
                bytes: base64_decoded(body.metadata_base64@)->Some_0,
                content_type: "application/msgpack"@,
                metadata: misc_metadata_of(*body),
            },
        ),
{
    match decode_base64(body.metadata_base64.as_str()) {
        None => Err(PackedError::InvalidBase64),
        Some(decoded) => {
            let mut key = String::new();
            key.append(body.r2_key.as_str());
            key.append("-misc-git");
            let mut meta: Vec<(String, String)> = Vec::new();
            meta.push((String::from_str("project"), body.project_id.clone()));
            match &body.lang {
                Some(l) => meta.push((String::from_str("lang"), l.clone())),
                None => (),
            }
            match &body.filename {
                Some(fname) => meta.push((String::from_str("filename"), fname.clone())),
                None => (),
            }
            let obj = StoredObject {
                key: key.clone(),
                bytes: decoded,
                content_type: String::from_str("application/msgpack"),
                metadata: meta,
            };
            proof {
                assert(entry_views(obj.metadata@) =~= misc_metadata_of(*body));
                assert(obj@ == ObjectV {
                    bytes: base64_decoded(body.metadata_base64@)->Some_0,
                    content_type: "application/msgpack"@,
                    metadata: misc_metadata_of(*body),
                });
            }
            store.put(obj);
            Ok(key)
        },
    }
}

/// The metadata tagged onto a miscellaneous blob: the project, and the
/// language and filename when given.
pub open spec fn misc_metadata_of(body: MiscGitRequest) -> Seq<(Seq<char>, Seq<char>)> {
    seq![("project"@, body.project_id@)] + (if body.lang is Some {
        seq![("lang"@, body.lang->0@)]
    } else {
        Seq::empty()
    }) + (if body.filename is Some {
        seq![("filename"@, body.filename->0@)]
    } else {
        Seq::empty()
    })
}

/// The value tuple of one row in the batch upsert statement.
pub open spec fn insert_values_of(r: RowV) -> Seq<char> {
    "('"@ + r.id + "','"@ + r.project_id + "','"@ + r.branch + "','"@ + r.commit_sha + "','"@
        + r.lang + "','"@ + r.filename + "','"@ + r.r2_key + "','"@ + r.source_hash + "',"@
        + dec_of_int(r.total_keys) + ",'"@ + r.uploaded_at + "','"@ + r.last_updated + "')"@
}

/// The comma-separated value tuples, in row order.
pub open spec fn joined_values_of(rows: Seq<RowV>) -> Seq<char>
    decreases rows.len(),
{
    if rows.len() == 0 {
        Seq::empty()
    } else if rows.len() == 1 {
        insert_values_of(rows[0])
    } else {
        joined_values_of(rows.drop_last()) + seq![','] + insert_values_of(rows.last())
    }
}

/// The batch upsert statement: one value tuple per row, inserting on a new
/// tuple and updating the commit reference, storage key, fingerprint, key
/// count and update timestamp on a conflicting one.
pub open spec fn upsert_sql_of(rows: Seq<RowV>) -> Seq<char> {
    "INSERT INTO R2File (id, projectId, branch, commitSha, lang, filename, r2Key, sourceHash, totalKeys, uploadedAt, lastUpdated) VALUES "@
        + joined_values_of(rows)
        + " ON CONFLICT(projectId, branch, lang, filename) DO UPDATE SET commitSha = excluded.commitSha, r2Key = excluded.r2Key, sourceHash = excluded.sourceHash, totalKeys = excluded.totalKeys, lastUpdated = excluded.lastUpdated"@
}

/// The views of a sequence of records.
pub open spec fn rows_view(records: Seq<D1FileRecord>) -> Seq<RowV> {
    records.map_values(|r: D1FileRecord| r@)
}

/// Append one row's value tuple.
#[verifier::rlimit(50)]
fn append_values(out: &mut String, rec: &D1FileRecord)
    ensures
        final(out)@ == old(out)@ + insert_values_of(rec@),
{
    out.append("('");
    out.append(rec.id.as_str());
    out.append("','");
    out.append(rec.project_id.as_str());
    out.append("','");
    out.append(rec.branch.as_str());
    out.append("','");
    out.append(rec.commit_sha.as_str());
    out.append("','");
    out.append(rec.lang.as_str());
    out.append("','");
    out.append(rec.filename.as_str());
    out.append("','");
    out.append(rec.r2_key.as_str());
    out.append("','");
    out.append(rec.source_hash.as_str());
    out.append("',");
    let num = i64_dec(rec.total_keys as i64);
    out.append(num.as_str());
    out.append(",'");
    out.append(rec.uploaded_at.as_str());
    out.append("','");
    out.append(rec.last_updated.as_str());
    out.append("')");
    proof {
        assert(out@ =~= old(out)@ + insert_values_of(rec@));
    }
}

/// Build the batch upsert statement for a list of records.
pub fn build_upsert_sql(records: &Vec<D1FileRecord>) -> (r: String)
    ensures
        r@ == upsert_sql_of(rows_view(records@)),
{
    let ghost rows = rows_view(records@);
    let mut out = String::new();
    out.append(
        "INSERT INTO R2File (id, projectId, branch, commitSha, lang, filename, r2Key, sourceHash, totalKeys, uploadedAt, lastUpdated) VALUES ",
    );
    let ghost header = out@;
    let n = records.len();
    proof {
        assert(rows.take(0) =~= Seq::<RowV>::empty());
        assert(out@ =~= header + joined_values_of(rows.take(0)));
    }
    let mut i: usize = 0;
    while i < n
        invariant
            n == records@.len(),
            rows == rows_view(records@),
            rows.len() == n,
            i <= n,
            header
                == "INSERT INTO R2File (id, projectId, branch, commitSha, lang, filename, r2Key, sourceHash, totalKeys, uploadedAt, lastUpdated) VALUES "@,
            out@ == header + joined_values_of(rows.take(i as int)),
        decreases n - i,
    {
        let ghost before = out@;
        if i > 0 {
            out.push(',');
        }
        append_values(&mut out, &records[i]);
        proof {
            assert(rows[i as int] == records@[i as int]@);
            assert(rows.take(i + 1).drop_last() =~= rows.take(i as int));
            assert(rows.take(i + 1).last() == rows[i as int]);
            if i == 0 {
                assert(out@ =~= header + joined_values_of(rows.take(1)));
            } else {
                assert(out@ =~= before + seq![','] + insert_values_of(rows[i as int]));
                assert(out@ =~= header + joined_values_of(rows.take(i + 1)));
            }
        }
        i += 1;
    }
    proof {
        assert(rows.take(n as int) =~= rows);
    }
    out.append(
        " ON CONFLICT(projectId, branch, lang, filename) DO UPDATE SET commitSha = excluded.commitSha, r2Key = excluded.r2Key, sourceHash = excluded.sourceHash, totalKeys = excluded.totalKeys, lastUpdated = excluded.lastUpdated",
    );
    proof {
        assert(out@ =~= upsert_sql_of(rows));
    }
    out
}

/// The statement that records a miscellaneous blob's key next to its
/// object's index row, with both keys SQL-escaped.
pub open spec fn misc_update_sql_of(misc_key: Seq<char>, r2_key: Seq<char>) -> Seq<char> {
    "UPDATE R2File SET miscR2Key = '"@ + sql_escaped(misc_key) + "' WHERE r2Key = '"@ + sql_escaped(
        r2_key,
    ) + "'"@
}

/// Build the statement that records a miscellaneous blob's key.
pub fn build_misc_update_sql(misc_key: &str, r2_key: &str) -> (r: String)
    ensures
        r@ == misc_update_sql_of(misc_key@, r2_key@),
{
    let mut out = String::new();
    out.append("UPDATE R2File SET miscR2Key = '");
    append_sql_escaped(&mut out, misc_key);
    out.append("' WHERE r2Key = '");
    append_sql_escaped(&mut out, r2_key);
    out.append("'");
    proof {
        assert(out@ =~= misc_update_sql_of(misc_key@, r2_key@));
    }
    out
}

} // verus!
