//! The rules of an indexing run: which files are taken, how a document's
//! passages are prepared and fingerprinted, how embedding batches are cut, the
//! run's control flags and the progress it reports.
use vstd::prelude::*;
use vstd::utf8::encode_utf8;
use sha2::Digest;
use crate::chunking::{chunk_sections, chunk_views, chunks_of, section_views, ParsedSection};
use crate::extract::{
    display_name, extension, extract_sections, spec_display_name, spec_extension,
    pdf_view, spec_extract_sections, ExtractError,
};
use crate::models::{ChunkInput, IndexProgress, IndexStatus};
use crate::text::{chars_of, str_eq, string_from_chars};

verus! {

/// What SHA-256 gives for a byte string.
pub uninterp spec fn spec_sha256(data: Seq<u8>) -> Seq<u8>;

/// `sha2::Sha256::digest`. Claimed: the digest is a function of the data, 32 bytes long.
#[verifier::external_body]
pub(crate) fn sha256(data: &[u8]) -> (r: Vec<u8>)
    ensures
        r@ == spec_sha256(data@),
        r@.len() == 32,
{
    sha2::Sha256::digest(data).to_vec()
}

/// The lower-case hexadecimal digit for `d`.
pub open spec fn hex_digit(d: int) -> char {
    if d < 10 {
        ((d + 48) as char)
    } else {
        ((d + 87) as char)
    }
}

/// Lower-case hexadecimal notation of bytes, two digits per byte.
pub open spec fn hex(data: Seq<u8>) -> Seq<char>
    decreases data.len(),
{
    if data.len() == 0 {
        Seq::empty()
    } else {
        hex(data.drop_last()) + seq![
            hex_digit(data.last() as int / 16),
            hex_digit(data.last() as int % 16),
        ]
    }
}

fn hex_digit_exec(d: u8) -> (c: char)
    requires
        d < 16,
    ensures
        c == hex_digit(d as int),
{
    if d < 10 {
        (d + 48) as char
    } else {
        (d + 87) as char
    }
}

/// Lower-case hexadecimal notation of `data`.
pub fn to_hex(data: &Vec<u8>) -> (r: String)
    ensures
        r@ == hex(data@),
{
    let mut out: Vec<char> = Vec::new();
    let mut i: usize = 0;
    while i < data.len()
        invariant
            i <= data@.len(),
            out@ == hex(data@.take(i as int)),
        decreases data@.len() - i,
    {
        let b = data[i];
        out.push(hex_digit_exec(b / 16));
        out.push(hex_digit_exec(b % 16));
        i += 1;
        assert(data@.take(i as int).drop_last() =~= data@.take(i - 1));
        assert(out@ =~= hex(data@.take(i as int)));
    }
    assert(data@.take(data@.len() as int) =~= data@);
    string_from_chars(&out)
}

/// The UTF-8 bytes of all passage texts, in order.
pub open spec fn chunk_bytes(chunks: Seq<ChunkInput>) -> Seq<u8>
    decreases chunks.len(),
{
    if chunks.len() == 0 {
        Seq::empty()
    } else {
        chunk_bytes(chunks.drop_last()) + encode_utf8(chunks.last().content@)
    }
}

/// The fingerprint of a document's passages: SHA-256 of their concatenated text,
/// in lower-case hexadecimal.
pub fn hash_chunks(chunks: &Vec<ChunkInput>) -> (r: String)
    ensures
        r@ == hex(spec_sha256(chunk_bytes(chunks@))),
{
    let mut data: Vec<u8> = Vec::new();
    let mut i: usize = 0;
    while i < chunks.len()
        invariant
            i <= chunks@.len(),
            data@ == chunk_bytes(chunks@.take(i as int)),
        decreases chunks@.len() - i,
    {
        let bytes = chunks[i].content.as_str().as_bytes();
        let mut k: usize = 0;
        let ghost start = data@;
        while k < bytes.len()
            invariant
                k <= bytes@.len(),
                data@ == start + bytes@.take(k as int),
            decreases bytes@.len() - k,
        {
            data.push(bytes[k]);
            k += 1;
            assert(data@ =~= start + bytes@.take(k as int));
        }
        assert(bytes@.take(bytes@.len() as int) =~= bytes@);
        i += 1;
        assert(chunks@.take(i as int).drop_last() =~= chunks@.take(i - 1));
    }
    assert(chunks@.take(chunks@.len() as int) =~= chunks@);
    let digest = sha256(data.as_slice());
    to_hex(&digest)
}

/// What `mime_guess` names as the media type of a path, falling back to
/// `application/octet-stream`.
pub uninterp spec fn spec_mime_type(path: Seq<char>) -> Seq<char>;

/// `mime_guess::from_path`, `MimeGuess::first_or_octet_stream` and
/// `Mime::essence_str`. Claimed: the media type is a function of the path alone;
/// the table of types is not stated.
#[verifier::external_body]
pub(crate) fn mime_type(path: &str) -> (r: String)
    ensures
        r@ == spec_mime_type(path@),
{
    mime_guess::from_path(path).first_or_octet_stream().essence_str().to_owned()
}

/// How a file is labelled in the document list: its name, its lower-cased
/// extension and its media type.
#[derive(Debug, Clone)]
pub struct FileLabels {
    pub name: String,
    pub extension: String,
    pub mime_type: String,
}

/// The labels of the file at `path`, also recorded for a file that could not be read.
pub fn file_labels(path: &str) -> (r: FileLabels)
    ensures
        r.name@ == spec_display_name(path@),
        r.extension@ == spec_extension(path@),
        r.mime_type@ == spec_mime_type(path@),
{
    FileLabels { name: display_name(path), extension: extension(path), mime_type: mime_type(path) }
}

/// Why a file could not be indexed.
#[derive(Debug, Clone, PartialEq, Eq)]
pub enum IndexError {
    Extract(ExtractError),
    NoReadableText,
}

impl IndexError {
    /// The message recorded for the file.
    pub fn message(&self) -> (r: String)
        ensures
            *self is NoReadableText ==> r@ == "no readable text was found"@,
            self matches IndexError::Extract(e) ==> r@ == e@.spec_message(),
    {
        match self {
            IndexError::Extract(e) => e.message(),
            IndexError::NoReadableText => "no readable text was found".to_owned(),
        }
    }

    /// The message recorded for the file at `path`: an unreadable PDF is named
    /// by its path; every other failure reads as `message`.
    pub fn message_for(&self, path: &str) -> (r: String)
        ensures
            self matches IndexError::Extract(e) ==> (e is PdfUnreadable ==> r@
                == "could not read PDF "@ + path@),
            *self is NoReadableText ==> r@ == "no readable text was found"@,
            self matches IndexError::Extract(e) ==> (!(e is PdfUnreadable) ==> r@
                == e@.spec_message()),
    {
        match self {
            IndexError::Extract(ExtractError::PdfUnreadable) => {
                let mut r = "could not read PDF ".to_owned();
                r.append(path);
                r
            },
            _ => self.message(),
        }
    }
}

/// A document ready to be stored: its name, type, media type, fingerprint and passages.
#[derive(Debug, Clone)]
pub struct PreparedDocument {
    pub name: String,
    pub extension: String,
    pub mime_type: String,
    pub content_hash: String,
    pub chunks: Vec<ChunkInput>,
}

/// Extracts, chunks and fingerprints a file's contents: the passages of its
/// sections; refused when extraction fails or no passage results. For a PDF,
/// `pdf_text` is what the PDF reader gave for `bytes` (`None` when it failed).
pub fn prepare_document(
    path: &str,
    bytes: &[u8],
    pdf_text: Option<&str>,
    chunk_size: usize,
    chunk_overlap: usize,
) -> (r:
    Result<PreparedDocument, IndexError>)
    ensures
        match spec_extract_sections(path@, bytes@, pdf_view(pdf_text)) {
            Err(e) => r matches Err(IndexError::Extract(x)) && x@ == e,
            Ok(sections) => {
                let passages = chunks_of(sections, chunk_size as nat, chunk_overlap as nat);
                if passages.len() == 0 {
                    r matches Err(IndexError::NoReadableText)
                } else {
                    r is Ok && {
                        let d = r->Ok_0;
                        &&& chunk_views(d.chunks@) == passages
                        &&& d.name@ == spec_display_name(path@)
                        &&& d.extension@ == spec_extension(path@)
                        &&& d.mime_type@ == spec_mime_type(path@)
                        &&& d.content_hash@ == hex(spec_sha256(chunk_bytes(d.chunks@)))
                    }
                }
            },
        },
{
    let sections = match extract_sections(path, bytes, pdf_text) {
        Ok(s) => s,
        Err(e) => return Err(IndexError::Extract(e)),
    };
    let chunks = chunk_sections(sections, chunk_size, chunk_overlap);
    if chunks.len() == 0 {
        return Err(IndexError::NoReadableText);
    }
    let content_hash = hash_chunks(&chunks);
    let labels = file_labels(path);
    Ok(PreparedDocument {
        name: labels.name,
        extension: labels.extension,
        mime_type: labels.mime_type,
        content_hash,
        chunks,
    })
}

/// The text the embedding model reads for a stored passage: the passage behind
/// the `passage: ` marker that the multilingual E5 models expect.
pub fn passage_input(text: &str) -> (r: String)
    ensures
        r@ == "passage: "@ + text@,
{
    let mut r = "passage: ".to_owned();
    r.append(text);
    r
}

/// The text the embedding model reads for a search: the query behind the
/// `query: ` marker.
pub fn query_input(query: &str) -> (r: String)
    ensures
        r@ == "query: "@ + query@,
{
    let mut r = "query: ".to_owned();
    r.append(query);
    r
}

/// Passages embedded per batch.
pub const EMBEDDING_BATCH: usize = 32;

/// The end of batch `k` of `n` passages.
pub open spec fn batch_end(k: int, n: int) -> int {
    if (k + 1) * (EMBEDDING_BATCH as int) < n {
        (k + 1) * (EMBEDDING_BATCH as int)
    } else {
        n
    }
}

/// Batch `k` of `n` passages is `[32 k, batch_end(k, n))`.
pub open spec fn is_batch(b: (usize, usize), k: int, n: int) -> bool {
    b.0 == k * (EMBEDDING_BATCH as int) && b.1 == batch_end(k, n)
}

/// Law: the embedding batches of `n` passages cover each passage exactly once:
/// passage `i` lies in batch `i / 32`, which exists, and in no other batch.
pub proof fn lemma_batches_cover(n: int, i: int, k: int)
    requires
        0 <= i < n,
        0 <= k,
    ensures
        i / (EMBEDDING_BATCH as int) < (n + EMBEDDING_BATCH - 1) / (EMBEDDING_BATCH as int),
        (k * (EMBEDDING_BATCH as int) <= i < batch_end(k, n)) <==> k == i / (EMBEDDING_BATCH as int),
{
    let q = i / 32;
    assert(0 <= i - 32 * q < 32) by (nonlinear_arith)
        requires
            q == i / 32,
            i >= 0,
    ;
    assert(q < (n + 31) / 32) by (nonlinear_arith)
        requires
            q == i / 32,
            0 <= i < n,
    ;
    if k * 32 <= i && i < batch_end(k, n) {
        assert(i < (k + 1) * 32);
        assert(k == q) by (nonlinear_arith)
            requires
                k * 32 <= i < (k + 1) * 32,
                0 <= i - 32 * q < 32,
        ;
    }
    if k == q {
        assert(k * 32 <= i < (k + 1) * 32) by (nonlinear_arith)
            requires
                k == q,
                0 <= i - 32 * q < 32,
        ;
    }
}

/// The half-open ranges in which `n` passages are embedded: `[0, 32)`, `[32, 64)`, ...
pub fn embedding_batches(n: usize) -> (r: Vec<(usize, usize)>)
    ensures
        r@.len() == (n + EMBEDDING_BATCH - 1) / (EMBEDDING_BATCH as int),
        forall|k: int| 0 <= k < r@.len() ==> is_batch(#[trigger] r@[k], k, n as int),
{
    let mut r: Vec<(usize, usize)> = Vec::new();
    let mut start: usize = 0;
    while start < n
        invariant
            start <= n,
            start == r@.len() * EMBEDDING_BATCH,
            r@.len() == (start + EMBEDDING_BATCH - 1) / (EMBEDDING_BATCH as int),
            forall|k: int| 0 <= k < r@.len() ==> is_batch(#[trigger] r@[k], k, n as int),
        decreases n - start,
    {
        let end = if n - start > EMBEDDING_BATCH { start + EMBEDDING_BATCH } else { n };
        let ghost k = r@.len() as int;
        let ghost prev = r@;
        r.push((start, end));
        assert(is_batch(r@[k], k, n as int));
        assert forall|j: int| 0 <= j < r@.len() implies is_batch(#[trigger] r@[j], j, n as int) by {
            if j < k {
                assert(r@[j] == prev[j]);
            }
        }
        if end == n {
            assert(r@.len() == (n + EMBEDDING_BATCH - 1) / (EMBEDDING_BATCH as int));
            return r;
        }
        start = end;
    }
    r
}

/// The flags that coordinate indexing runs: whether a run holds the index,
/// whether the user paused, whether the application is shutting down, and the
/// file being read.
#[derive(Debug, Clone)]
pub struct IndexControl {
    indexing: bool,
    paused: bool,
    shutting_down: bool,
    current_file: Option<String>,
}

/// The plain content of the indexing flags.
pub struct IndexFlags {
    pub indexing: bool,
    pub paused: bool,
    pub shutting_down: bool,
    pub current_file: Option<Seq<char>>,
}

impl View for IndexControl {
    type V = IndexFlags;

    closed spec fn view(&self) -> IndexFlags {
        IndexFlags {
            indexing: self.indexing,
            paused: self.paused,
            shutting_down: self.shutting_down,
            current_file: crate::models::opt_view(self.current_file),
        }
    }
}

/// Claiming (`value`) or releasing the index: a claim succeeds only when no run
/// holds it; a release always succeeds. Other flags are untouched.
pub open spec fn claim_step(f: IndexFlags, value: bool) -> (bool, IndexFlags) {
    if value {
        if f.indexing {
            (false, f)
        } else {
            (true, IndexFlags { indexing: true, ..f })
        }
    } else {
        (true, IndexFlags { indexing: false, ..f })
    }
}

/// Law: from any state, a claim succeeds exactly when no run holds the index; a
/// second claim right after a successful one is refused; after a release the
/// next claim succeeds.
pub proof fn lemma_claims_exclusive(f: IndexFlags)
    ensures
        claim_step(f, true).0 == !f.indexing,
        !claim_step(claim_step(f, true).1, true).0,
        claim_step(claim_step(claim_step(f, true).1, false).1, true).0,
{
}

/// The status shown: paused takes precedence over indexing, else idle.
pub open spec fn spec_status(f: IndexFlags) -> IndexStatus {
    if f.paused {
        IndexStatus::Paused
    } else if f.indexing {
        IndexStatus::Indexing
    } else {
        IndexStatus::Idle
    }
}

impl IndexControl {
    /// The state of a freshly started application.
    pub fn new() -> (r: Self)
        ensures
            r@ == (IndexFlags { indexing: false, paused: false, shutting_down: false, current_file: None }),
    {
        IndexControl { indexing: false, paused: false, shutting_down: false, current_file: None }
    }

    /// Claims the index for a run (`true`) or releases it (`false`); returns
    /// whether that succeeded (see `claim_step`).
    pub fn set_indexing(&mut self, value: bool) -> (claimed: bool)
        ensures
            (claimed, final(self)@) == claim_step(old(self)@, value),
    {
        if value {
            if self.indexing {
                false
            } else {
                self.indexing = true;
                true
            }
        } else {
            self.indexing = false;
            true
        }
    }

    /// Whether a run holds the index.
    pub fn is_indexing(&self) -> (r: bool)
        ensures
            r == self@.indexing,
    {
        self.indexing
    }

    /// Pauses or resumes.
    pub fn set_paused(&mut self, paused: bool)
        ensures
            final(self)@ == (IndexFlags { paused, ..old(self)@ }),
    {
        self.paused = paused;
    }

    /// Whether the user paused indexing.
    pub fn is_paused(&self) -> (r: bool)
        ensures
            r == self@.paused,
    {
        self.paused
    }

    /// Marks the application as shutting down; runs stop at the next file.
    pub fn shutdown(&mut self)
        ensures
            final(self)@ == (IndexFlags { shutting_down: true, ..old(self)@ }),
    {
        self.shutting_down = true;
    }

    /// Whether the application is shutting down.
    pub fn is_shutting_down(&self) -> (r: bool)
        ensures
            r == self@.shutting_down,
    {
        self.shutting_down
    }

    /// Records the file being read.
    pub fn set_current_file(&mut self, file: Option<String>)
        ensures
            final(self)@ == (IndexFlags { current_file: crate::models::opt_view(file), ..old(self)@ }),
    {
        self.current_file = file;
    }

    /// The file being read, if any.
    pub fn current_file(&self) -> (r: Option<String>)
        ensures
            crate::models::opt_view(r) == self@.current_file,
    {
        crate::models::clone_opt(&self.current_file)
    }

    /// Whether a run should stop before the next file.
    pub fn should_stop(&self) -> (r: bool)
        ensures
            r == (self@.paused || self@.shutting_down),
    {
        self.paused || self.shutting_down
    }

    /// The status shown (see `spec_status`).
    pub fn status(&self) -> (r: IndexStatus)
        ensures
            r == spec_status(self@),
    {
        if self.paused {
            IndexStatus::Paused
        } else if self.indexing {
            IndexStatus::Indexing
        } else {
            IndexStatus::Idle
        }
    }
}

/// What a full index run does before the file at some position.
#[derive(Debug, Clone, Copy, PartialEq, Eq, Structural)]
pub enum RunStep {
    /// Read and index the file at this position.
    Index(usize),
    /// End the run: when `reconcile`, remove the documents the run no longer
    /// found; then report the run as ended, paused or up to date.
    Finish { reconcile: bool, paused: bool },
}

/// The next step of a run over `total` files, before the file at `position`,
/// given the pause and shutdown flags: index that file while there is one and
/// nothing asks the run to stop; otherwise finish, removing missing documents
/// only when the run is not paused.
pub open spec fn spec_next_step(position: usize, total: usize, paused: bool, shutting_down: bool) -> RunStep {
    if position < total && !paused && !shutting_down {
        RunStep::Index(position)
    } else {
        RunStep::Finish { reconcile: !paused, paused }
    }
}

/// Decides the next step of a run (see `spec_next_step`) from the flags read now.
pub fn next_step(position: usize, total: usize, paused: bool, shutting_down: bool) -> (r: RunStep)
    ensures
        r == spec_next_step(position, total, paused, shutting_down),
{
    if position < total && !paused && !shutting_down {
        RunStep::Index(position)
    } else {
        RunStep::Finish { reconcile: !paused, paused }
    }
}

/// What follows a file once the run tried to index it.
#[derive(Debug, Clone, Copy, PartialEq, Eq, Structural)]
pub struct FileFollowUp {
    /// The failure is recorded against the file (its stale vectors removed and
    /// the document marked failed).
    pub record_failure: bool,
    /// The position the run goes on with.
    pub next: usize,
}

/// The failure policy of a run: a file that could not be indexed is recorded as
/// failed, and the run goes on with the next file whether it failed or not.
pub open spec fn spec_after_file(position: usize, indexed: bool) -> FileFollowUp {
    FileFollowUp { record_failure: !indexed, next: (position + 1) as usize }
}

/// Decides what follows the file at `position` (see `spec_after_file`).
pub fn after_file(position: usize, total: usize, indexed: bool) -> (r: FileFollowUp)
    requires
        position < total,
    ensures
        r == spec_after_file(position, indexed),
        r.next == position + 1,
{
    FileFollowUp { record_failure: !indexed, next: position + 1 }
}

/// The files a run indexes from `position` on, the failures it records, and how
/// it ends, when it is neither paused nor shut down and `indexed[i]` tells
/// whether file `i` could be indexed: the steps of `spec_next_step` and
/// `spec_after_file` taken one after the other.
pub open spec fn unstopped_run(total: usize, indexed: Seq<bool>, position: usize) -> (
    Seq<usize>,
    Seq<usize>,
    RunStep,
)
    decreases total - position,
{
    match spec_next_step(position, total, false, false) {
        RunStep::Index(p) => {
            let follow = spec_after_file(p, indexed[p as int]);
            if follow.next > position {
                let rest = unstopped_run(total, indexed, follow.next);
                (
                    seq![p] + rest.0,
                    if follow.record_failure {
                        seq![p] + rest.1
                    } else {
                        rest.1
                    },
                    rest.2,
                )
            } else {
                (Seq::empty(), Seq::empty(), spec_next_step(position, total, false, false))
            }
        },
        step => (Seq::empty(), Seq::empty(), step),
    }
}

/// Law: a run that is neither paused nor shut down indexes every file once, in
/// order; a failure is recorded for exactly the files that could not be indexed
/// and never stops the run; and the run ends by removing the documents it no
/// longer found.
pub proof fn lemma_unstopped_run(total: usize, indexed: Seq<bool>, position: usize)
    requires
        position <= total,
        indexed.len() == total,
    ensures
        unstopped_run(total, indexed, position).0 == Seq::new(
            (total - position) as nat,
            |i: int| (position + i) as usize,
        ),
        forall|f: usize|
            #[trigger] unstopped_run(total, indexed, position).1.contains(f) <==> (position <= f
                < total && !indexed[f as int]),
        unstopped_run(total, indexed, position).2 == (RunStep::Finish { reconcile: true, paused: false }),
    decreases total - position,
{
    let run = unstopped_run(total, indexed, position);
    if position < total {
        let next = (position + 1) as usize;
        assert(spec_next_step(position, total, false, false) == RunStep::Index(position));
        let follow = spec_after_file(position, indexed[position as int]);
        assert(follow.next == next && next > position);
        lemma_unstopped_run(total, indexed, next);
        let rest = unstopped_run(total, indexed, next);
        assert(run.0 == seq![position] + rest.0);
        assert(run.2 == rest.2);
        assert(run.0 =~= Seq::new((total - position) as nat, |i: int| (position + i) as usize));
        if indexed[position as int] {
            assert(run.1 == rest.1);
            assert forall|f: usize| #[trigger] unstopped_run(total, indexed, position).1.contains(f) <==> (position <= f < total
                && !indexed[f as int]) by {
                assert(rest.1.contains(f) <==> (next <= f < total && !indexed[f as int]));
            }
        } else {
            assert(run.1 == seq![position] + rest.1);
            assert forall|f: usize| #[trigger] unstopped_run(total, indexed, position).1.contains(f) <==> (position <= f < total
                && !indexed[f as int]) by {
                assert(rest.1.contains(f) <==> (next <= f < total && !indexed[f as int]));
                if f == position {
                    assert(run.1[0] == f);
                } else {
                    if rest.1.contains(f) {
                        let k = choose|k: int| 0 <= k < rest.1.len() && rest.1[k] == f;
                        assert(run.1[k + 1] == f);
                    }
                    if run.1.contains(f) {
                        let k = choose|k: int| 0 <= k < run.1.len() && run.1[k] == f;
                        assert(k > 0);
                        assert(rest.1[k - 1] == f);
                    }
                }
            }
        }
    } else {
        assert(spec_next_step(position, total, false, false) == (RunStep::Finish {
            reconcile: true,
            paused: false,
        }));
        assert(run.1.len() == 0);
        assert forall|f: usize| #[trigger] unstopped_run(total, indexed, position).1.contains(f) <==> (position <= f < total && !indexed[f as int]) by {
            if run.1.contains(f) {
                let k = choose|k: int| 0 <= k < run.1.len() && run.1[k] == f;
            }
        }
        assert(run.0 =~= Seq::new((total - position) as nat, |i: int| (position + i) as usize));
    }
}

/// Progress reported when a run starts looking for files.
pub fn scanning_progress() -> (r: IndexProgress)
    ensures
        r.processed == 0,
        r.total == 0,
        r.current_file is None,
        r.status == IndexStatus::Scanning,
        r.message@ == "Finding supported files\u{2026}"@,
{
    IndexProgress {
        processed: 0,
        total: 0,
        current_file: None,
        status: IndexStatus::Scanning,
        message: "Finding supported files\u{2026}".to_owned(),
    }
}

/// Progress reported before reading the file at `position` of `total`.
pub fn file_progress(position: u64, total: u64, name: String) -> (r: IndexProgress)
    ensures
        r.processed == position,
        r.total == total,
        r.current_file == Some(name),
        r.status == IndexStatus::Indexing,
        r.message@ == "Reading and indexing locally\u{2026}"@,
{
    IndexProgress {
        processed: position,
        total,
        current_file: Some(name),
        status: IndexStatus::Indexing,
        message: "Reading and indexing locally\u{2026}".to_owned(),
    }
}

/// Progress reported when a run ends: paused, or up to date.
pub fn finished_progress(total: u64, paused: bool) -> (r: IndexProgress)
    ensures
        r.processed == total,
        r.total == total,
        r.current_file is None,
        r.status == if paused { IndexStatus::Paused } else { IndexStatus::Idle },
        r.message@ == if paused { "Indexing paused"@ } else { "Your library is up to date"@ },
{
    IndexProgress {
        processed: total,
        total,
        current_file: None,
        status: if paused { IndexStatus::Paused } else { IndexStatus::Idle },
        message: if paused { "Indexing paused".to_owned() } else { "Your library is up to date".to_owned() },
    }
}

/// Largest file taken, in bytes, for a limit in megabytes.
pub fn max_file_bytes(max_file_size_mb: u64) -> (r: u64)
    requires
        max_file_size_mb * 1048576 <= u64::MAX,
    ensures
        r == max_file_size_mb * 1048576,
{
    max_file_size_mb * 1024 * 1024
}

/// Some component of a path is one of the excluded names.
pub open spec fn spec_is_excluded(components: Seq<String>, excluded: Seq<String>) -> bool {
    exists|i: int, j: int|
        0 <= i < components.len() && 0 <= j < excluded.len() && #[trigger] components[i]@
            == #[trigger] excluded[j]@
}

/// Law: a path is excluded exactly when one of its components, at any position,
/// equals one of the excluded names, at any position.
pub proof fn lemma_excluded_by_any_component(components: Seq<String>, excluded: Seq<String>)
    ensures
        spec_is_excluded(components, excluded) <==> exists|i: int, j: int|
            0 <= i < components.len() && 0 <= j < excluded.len() && #[trigger] components[i]@
                == #[trigger] excluded[j]@,
        forall|i: int, j: int|
            0 <= i < components.len() && 0 <= j < excluded.len() && #[trigger] components[i]@
                == #[trigger] excluded[j]@ ==> spec_is_excluded(components, excluded),
{
}

/// Whether some component of a path is an excluded name.
pub fn is_excluded(components: &Vec<String>, excluded: &Vec<String>) -> (r: bool)
    ensures
        r == spec_is_excluded(components@, excluded@),
{
    let mut i: usize = 0;
    while i < components.len()
        invariant
            i <= components@.len(),
            forall|a: int, b: int|
                0 <= a < i && 0 <= b < excluded@.len() ==> #[trigger] components@[a]@
                    != #[trigger] excluded@[b]@,
        decreases components@.len() - i,
    {
        let mut j: usize = 0;
        while j < excluded.len()
            invariant
                i < components@.len(),
                j <= excluded@.len(),
                forall|a: int, b: int|
                    0 <= a < i && 0 <= b < excluded@.len() ==> #[trigger] components@[a]@
                        != #[trigger] excluded@[b]@,
                forall|b: int| 0 <= b < j ==> components@[i as int]@ != #[trigger] excluded@[b]@,
            decreases excluded@.len() - j,
        {
            if str_eq(components[i].as_str(), excluded[j].as_str()) {
                return true;
            }
            j += 1;
        }
        i += 1;
    }
    false
}

/// A discovered file is taken when its lower-cased extension is one of the
/// chosen file types (compared lower-cased) and it is no larger than the limit.
pub open spec fn spec_accepts_file(
    include_extensions: Seq<String>,
    ext: Seq<char>,
    size: u64,
    max_bytes: u64,
) -> bool {
    (exists|i: int|
        0 <= i < include_extensions.len() && crate::text::ascii_lowercase(
            #[trigger] include_extensions[i]@,
        ) == ext) && size <= max_bytes
}

/// Law: a discovered file is taken exactly when it is within the size limit and
/// its extension is, lower-cased, any one of the chosen file types, wherever
/// that type stands in the list.
pub proof fn lemma_accepts_any_chosen_type(
    include_extensions: Seq<String>,
    ext: Seq<char>,
    size: u64,
    max_bytes: u64,
)
    ensures
        forall|i: int|
            0 <= i < include_extensions.len() && size <= max_bytes && crate::text::ascii_lowercase(
                #[trigger] include_extensions[i]@,
            ) == ext ==> spec_accepts_file(include_extensions, ext, size, max_bytes),
        spec_accepts_file(include_extensions, ext, size, max_bytes) ==> size <= max_bytes && exists|
            i: int,
        | 0 <= i < include_extensions.len() && crate::text::ascii_lowercase(
            #[trigger] include_extensions[i]@,
        ) == ext,
{
}

/// Whether a discovered file is indexed (see `spec_accepts_file`).
pub fn accepts_file(include_extensions: &Vec<String>, ext: &str, size: u64, max_bytes: u64) -> (r:
    bool)
    ensures
        r == spec_accepts_file(include_extensions@, ext@, size, max_bytes),
{
    if size > max_bytes {
        return false;
    }
    let mut i: usize = 0;
    while i < include_extensions.len()
        invariant
            i <= include_extensions@.len(),
            size <= max_bytes,
            forall|k: int|
                0 <= k < i ==> crate::text::ascii_lowercase(#[trigger] include_extensions@[k]@)
                    != ext@,
        decreases include_extensions@.len() - i,
    {
        let lowered = crate::text::to_ascii_lowercase(include_extensions[i].as_str());
        if str_eq(lowered.as_str(), ext) {
            assert(crate::text::ascii_lowercase(include_extensions@[i as int]@) == ext@);
            return true;
        }
        i += 1;
    }
    false
}

} // verus!
