//! The library's records: settings, index statistics, documents, passages,
//! search and answer requests, and what a grounded answer returns.
use vstd::prelude::*;
use vstd::utf8::encode_utf8;
use crate::text::{chars_of, str_eq, trim, trim_str};

verus! {

/// Length of the embedding vectors stored for every passage.
pub const EMBEDDING_DIMENSION: usize = 384;

/// Maps an optional string to its optional character sequence.
pub open spec fn opt_view(o: Option<String>) -> Option<Seq<char>> {
    match o {
        Some(s) => Some(s@),
        None => None,
    }
}

/// Copies an optional string.
pub fn clone_opt(o: &Option<String>) -> (r: Option<String>)
    ensures
        opt_view(r) == opt_view(*o),
{
    match o {
        Some(s) => Some(s.clone()),
        None => None,
    }
}

/// Settings that the user controls: library folders, file types, passage
/// sizing, the answer model and endpoint, and the local API.
#[derive(Debug, Clone)]
pub struct AppSettings {
    pub library_paths: Vec<String>,
    pub excluded_paths: Vec<String>,
    pub include_extensions: Vec<String>,
    pub max_file_size_mb: u64,
    pub chunk_size: usize,
    pub chunk_overlap: usize,
    pub answer_model: String,
    pub send_context_to_redrob: bool,
    pub local_api_enabled: bool,
    pub local_api_port: u16,
    pub redrob_base_url: String,
}

/// Each string by its characters.
pub open spec fn string_views(v: Seq<String>) -> Seq<Seq<char>> {
    v.map_values(|s: String| s@)
}

impl Default for AppSettings {
    /// The settings of a fresh library.
    fn default() -> (r: Self)
        ensures
            r.library_paths@.len() == 0,
            string_views(r.excluded_paths@) == seq![".git"@, "node_modules"@, ".cache"@, "target"@, "dist"@],
            string_views(r.include_extensions@) == seq![
                "pdf"@, "docx"@, "txt"@, "md"@, "markdown"@, "rst"@, "csv"@, "json"@, "html"@,
                "htm"@, "log"@, "xml"@,
            ],
            r.max_file_size_mb == 50,
            r.chunk_size == 1200,
            r.chunk_overlap == 180,
            r.answer_model@ == "auto"@,
            r.send_context_to_redrob,
            r.local_api_enabled,
            r.local_api_port == 47331,
            r.redrob_base_url@ == "https://console.redrob.ai/api/backend/v1"@,
    {
        let excluded_paths = vec![
            ".git".to_owned(),
            "node_modules".to_owned(),
            ".cache".to_owned(),
            "target".to_owned(),
            "dist".to_owned(),
        ];
        let include_extensions = vec![
            "pdf".to_owned(),
            "docx".to_owned(),
            "txt".to_owned(),
            "md".to_owned(),
            "markdown".to_owned(),
            "rst".to_owned(),
            "csv".to_owned(),
            "json".to_owned(),
            "html".to_owned(),
            "htm".to_owned(),
            "log".to_owned(),
            "xml".to_owned(),
        ];
        assert(string_views(excluded_paths@) =~= seq![".git"@, "node_modules"@, ".cache"@, "target"@, "dist"@]);
        assert(string_views(include_extensions@) =~= seq![
            "pdf"@, "docx"@, "txt"@, "md"@, "markdown"@, "rst"@, "csv"@, "json"@, "html"@,
            "htm"@, "log"@, "xml"@,
        ]);
        AppSettings {
            library_paths: Vec::new(),
            excluded_paths,
            include_extensions,
            max_file_size_mb: 50,
            chunk_size: 1200,
            chunk_overlap: 180,
            answer_model: "auto".to_owned(),
            send_context_to_redrob: true,
            local_api_enabled: true,
            local_api_port: 47331,
            redrob_base_url: "https://console.redrob.ai/api/backend/v1".to_owned(),
        }
    }
}

/// Why a set of settings was refused.
#[derive(Debug, Clone, Copy, PartialEq, Eq, Structural)]
pub enum SettingsError {
    FileSize,
    PassageSize,
    PassageOverlap,
    AnswerModel,
    LocalApiPort,
    ExtensionCount,
    InvalidExtension,
    InvalidEndpoint,
    InsecureEndpoint,
}

impl SettingsError {
    /// The message shown for this refusal.
    pub open spec fn spec_message(self) -> Seq<char> {
        match self {
            SettingsError::FileSize => "maximum file size must be between 1 MB and 250 MB"@,
            SettingsError::PassageSize => "passage size must be between 256 and 8192 characters"@,
            SettingsError::PassageOverlap => "passage overlap must be smaller than the passage size"@,
            SettingsError::AnswerModel => "answer model is invalid"@,
            SettingsError::LocalApiPort => "local API port must be between 1024 and 65535"@,
            SettingsError::ExtensionCount => "choose between 1 and 32 supported file types"@,
            SettingsError::InvalidExtension => "supported file types contain an invalid extension"@,
            SettingsError::InvalidEndpoint => "Redrob API URL is invalid"@,
            SettingsError::InsecureEndpoint => "Redrob API URL must use HTTPS (HTTP is allowed only for localhost)"@,
        }
    }

    /// The message shown for this refusal.
    pub fn message(&self) -> (r: String)
        ensures
            r@ == self.spec_message(),
    {
        match self {
            SettingsError::FileSize => "maximum file size must be between 1 MB and 250 MB".to_owned(),
            SettingsError::PassageSize => "passage size must be between 256 and 8192 characters".to_owned(),
            SettingsError::PassageOverlap => "passage overlap must be smaller than the passage size".to_owned(),
            SettingsError::AnswerModel => "answer model is invalid".to_owned(),
            SettingsError::LocalApiPort => "local API port must be between 1024 and 65535".to_owned(),
            SettingsError::ExtensionCount => "choose between 1 and 32 supported file types".to_owned(),
            SettingsError::InvalidExtension => "supported file types contain an invalid extension".to_owned(),
            SettingsError::InvalidEndpoint => "Redrob API URL is invalid".to_owned(),
            SettingsError::InsecureEndpoint => "Redrob API URL must use HTTPS (HTTP is allowed only for localhost)".to_owned(),
        }
    }
}

/// What `url::Url::parse` makes of an address: its scheme and host, or `None`
/// when the address does not parse.
pub uninterp spec fn spec_url_endpoint(input: Seq<char>) -> Option<(Seq<char>, Option<Seq<char>>)>;

/// `url::Url::parse` followed by `Url::scheme` and `Url::host_str`. Claimed: the
/// result is the scheme and host of the parsed address, or `None` when parsing
/// fails, as a function of the address alone; the parsing rules are not stated.
#[verifier::external_body]
pub(crate) fn parse_endpoint(input: &str) -> (r: Option<(String, Option<String>)>)
    ensures
        match r {
            None => spec_url_endpoint(input@) is None,
            Some((scheme, host)) => spec_url_endpoint(input@) == Some((scheme@, opt_view(host))),
        },
{
    match url::Url::parse(input) {
        Ok(endpoint) => Some((endpoint.scheme().to_string(), endpoint.host_str().map(|h| h.to_string()))),
        Err(_) => None,
    }
}

/// `c` is an ASCII letter or digit.
pub open spec fn is_ascii_alphanumeric(c: char) -> bool {
    ('0' <= c && c <= '9') || ('a' <= c && c <= 'z') || ('A' <= c && c <= 'Z')
}

/// A file type is 1 to 16 ASCII letters or digits.
pub open spec fn valid_extension(e: Seq<char>) -> bool {
    0 < e.len() <= 16 && forall|i: int| 0 <= i < e.len() ==> is_ascii_alphanumeric(#[trigger] e[i])
}

/// HTTPS anywhere, plain HTTP only on the local machine: `localhost`, the IPv4
/// loopback, or the IPv6 loopback (a parsed host names it in brackets, `[::1]`).
pub open spec fn endpoint_allowed(scheme: Seq<char>, host: Option<Seq<char>>) -> bool {
    scheme == "https"@ || (scheme == "http"@ && match host {
        Some(h) => h == "localhost"@ || h == "127.0.0.1"@ || h == "[::1]"@,
        None => false,
    })
}

/// The verdict on a parsed endpoint (see `endpoint_allowed`).
pub open spec fn endpoint_verdict(parsed: Option<(Seq<char>, Option<Seq<char>>)>) -> Option<SettingsError> {
    match parsed {
        None => Some(SettingsError::InvalidEndpoint),
        Some((scheme, host)) => if endpoint_allowed(scheme, host) {
            None
        } else {
            Some(SettingsError::InsecureEndpoint)
        },
    }
}

/// The first rule that `s` breaks, in the order they are checked, or `None`.
pub open spec fn settings_error(s: AppSettings) -> Option<SettingsError> {
    if !(1 <= s.max_file_size_mb <= 250) {
        Some(SettingsError::FileSize)
    } else if !(256 <= s.chunk_size <= 8192) {
        Some(SettingsError::PassageSize)
    } else if !(s.chunk_overlap < s.chunk_size && s.chunk_overlap <= 2048) {
        Some(SettingsError::PassageOverlap)
    } else if trim(s.answer_model@).len() == 0 || (encode_utf8(s.answer_model@).len() as usize) > 128 {
        Some(SettingsError::AnswerModel)
    } else if s.local_api_port < 1024 {
        Some(SettingsError::LocalApiPort)
    } else if !(1 <= s.include_extensions@.len() <= 32) {
        Some(SettingsError::ExtensionCount)
    } else if exists|i: int| 0 <= i < s.include_extensions@.len() && !valid_extension(#[trigger] s.include_extensions@[i]@) {
        Some(SettingsError::InvalidExtension)
    } else {
        endpoint_verdict(spec_url_endpoint(trim(s.redrob_base_url@)))
    }
}

/// Law: once the rules checked before it pass, a set of settings with any file
/// type, at any position of the list, that is empty, longer than 16 characters
/// or holds a character other than an ASCII letter or digit is refused as an
/// invalid extension.
pub proof fn lemma_every_file_type_is_checked(s: AppSettings, i: int)
    requires
        1 <= s.max_file_size_mb <= 250,
        256 <= s.chunk_size <= 8192,
        s.chunk_overlap < s.chunk_size && s.chunk_overlap <= 2048,
        trim(s.answer_model@).len() > 0,
        (encode_utf8(s.answer_model@).len() as usize) <= 128,
        s.local_api_port >= 1024,
        1 <= s.include_extensions@.len() <= 32,
        0 <= i < s.include_extensions@.len(),
        s.include_extensions@[i]@.len() == 0 || s.include_extensions@[i]@.len() > 16 || exists|k: int|
            0 <= k < s.include_extensions@[i]@.len() && !({
                let c = #[trigger] s.include_extensions@[i]@[k];
                ('0' <= c && c <= '9') || ('a' <= c && c <= 'z') || ('A' <= c && c <= 'Z')
            }),
    ensures
        settings_error(s) == Some(SettingsError::InvalidExtension),
{
    assert(!valid_extension(s.include_extensions@[i]@));
}

/// Law: settings that pass every rule hold only file types of 1 to 16 ASCII
/// letters or digits, every one of them.
pub proof fn lemma_accepted_file_types_are_valid(s: AppSettings)
    requires
        settings_error(s) is None,
    ensures
        forall|i: int|
            0 <= i < s.include_extensions@.len() ==> {
                let e = #[trigger] s.include_extensions@[i]@;
                &&& 0 < e.len() <= 16
                &&& forall|k: int|
                    0 <= k < e.len() ==> ('0' <= e[k] && e[k] <= '9') || ('a' <= e[k] && e[k]
                        <= 'z') || ('A' <= e[k] && e[k] <= 'Z')
            },
{
    assert forall|i: int| 0 <= i < s.include_extensions@.len() implies valid_extension(
        #[trigger] s.include_extensions@[i]@,
    ) by {
        if !valid_extension(s.include_extensions@[i]@) {
            assert(exists|j: int|
                0 <= j < s.include_extensions@.len() && !valid_extension(
                    #[trigger] s.include_extensions@[j]@,
                ));
        }
    }
}

/// Law: settings are accepted exactly when the file size limit is 1 to 250 MB,
/// the passage size 256 to 8192 characters, the overlap below the passage size
/// and at most 2048, the answer model non-blank and at most 128 bytes, the local
/// API port at least 1024, there are 1 to 32 file types each of 1 to 16 ASCII
/// letters or digits, and the answer endpoint parses as HTTPS, or as HTTP to
/// `localhost`, `127.0.0.1` or `[::1]`.
pub proof fn lemma_settings_rules(s: AppSettings)
    ensures
        settings_error(s) is None <==> ({
            &&& 1 <= s.max_file_size_mb <= 250
            &&& 256 <= s.chunk_size <= 8192
            &&& s.chunk_overlap < s.chunk_size
            &&& s.chunk_overlap <= 2048
            &&& trim(s.answer_model@).len() > 0
            &&& (encode_utf8(s.answer_model@).len() as usize) <= 128
            &&& s.local_api_port >= 1024
            &&& 1 <= s.include_extensions@.len() <= 32
            &&& forall|i: int|
                0 <= i < s.include_extensions@.len() ==> {
                    let e = #[trigger] s.include_extensions@[i]@;
                    &&& 0 < e.len() <= 16
                    &&& forall|k: int|
                        0 <= k < e.len() ==> ('0' <= e[k] && e[k] <= '9') || ('a' <= e[k] && e[k]
                            <= 'z') || ('A' <= e[k] && e[k] <= 'Z')
                }
            &&& match spec_url_endpoint(trim(s.redrob_base_url@)) {
                None => false,
                Some((scheme, host)) => scheme == "https"@ || (scheme == "http"@ && match host {
                    Some(h) => h == "localhost"@ || h == "127.0.0.1"@ || h == "[::1]"@,
                    None => false,
                }),
            }
        }),
{
    if settings_error(s) is None {
        lemma_accepted_file_types_are_valid(s);
    }
}

fn is_ascii_alnum_char(c: char) -> (r: bool)
    ensures
        r == is_ascii_alphanumeric(c),
{
    ('0' <= c && c <= '9') || ('a' <= c && c <= 'z') || ('A' <= c && c <= 'Z')
}

/// Whether `e` is an acceptable file type (see `valid_extension`).
pub fn is_valid_extension(e: &str) -> (r: bool)
    ensures
        r == valid_extension(e@),
{
    let chars = chars_of(e);
    if chars.len() == 0 || chars.len() > 16 {
        return false;
    }
    let mut i: usize = 0;
    while i < chars.len()
        invariant
            i <= chars@.len(),
            chars@ == e@,
            forall|k: int| 0 <= k < i ==> is_ascii_alphanumeric(#[trigger] chars@[k]),
        decreases chars@.len() - i,
    {
        if !is_ascii_alnum_char(chars[i]) {
            return false;
        }
        i += 1;
    }
    true
}

/// The verdict on the parsed scheme and host of the answer endpoint.
pub fn check_endpoint(parsed: Option<(String, Option<String>)>) -> (r: Result<(), SettingsError>)
    ensures
        r == match endpoint_verdict(match parsed {
            None => None,
            Some((s, h)) => Some((s@, opt_view(h))),
        }) {
            None => Ok(()),
            Some(e) => Err(e),
        },
{
    match parsed {
        None => Err(SettingsError::InvalidEndpoint),
        Some((scheme, host)) => {
            let https = str_eq(scheme.as_str(), "https");
            let http = str_eq(scheme.as_str(), "http");
            let local = match &host {
                Some(h) => str_eq(h.as_str(), "localhost") || str_eq(h.as_str(), "127.0.0.1")
                    || str_eq(h.as_str(), "[::1]"),
                None => false,
            };
            if https || (http && local) {
                Ok(())
            } else {
                Err(SettingsError::InsecureEndpoint)
            }
        },
    }
}

impl AppSettings {
    /// Checks every rule on the settings and reports the first one broken.
    #[verifier::loop_isolation(false)]
    pub fn validate(&self) -> (r: Result<(), SettingsError>)
        ensures
            r == match settings_error(*self) {
                None => Ok(()),
                Some(e) => Err(e),
            },
    {
        if !(1 <= self.max_file_size_mb && self.max_file_size_mb <= 250) {
            return Err(SettingsError::FileSize);
        }
        if !(256 <= self.chunk_size && self.chunk_size <= 8192) {
            return Err(SettingsError::PassageSize);
        }
        if !(self.chunk_overlap < self.chunk_size && self.chunk_overlap <= 2048) {
            return Err(SettingsError::PassageOverlap);
        }
        let model = trim_str(self.answer_model.as_str());
        if model.as_str().is_empty() || self.answer_model.as_str().len() > 128 {
            return Err(SettingsError::AnswerModel);
        }
        if self.local_api_port < 1024 {
            return Err(SettingsError::LocalApiPort);
        }
        let count = self.include_extensions.len();
        if !(1 <= count && count <= 32) {
            return Err(SettingsError::ExtensionCount);
        }
        let mut i: usize = 0;
        while i < count
            invariant
                i <= count,
                count == self.include_extensions@.len(),
                forall|k: int| 0 <= k < i ==> valid_extension(#[trigger] self.include_extensions@[k]@),
            decreases count - i,
        {
            if !is_valid_extension(self.include_extensions[i].as_str()) {
                assert(!valid_extension(self.include_extensions@[i as int]@));
                return Err(SettingsError::InvalidExtension);
            }
            i += 1;
        }
        let endpoint = trim_str(self.redrob_base_url.as_str());
        check_endpoint(parse_endpoint(endpoint.as_str()))
    }
}

/// Where indexing stands.
#[derive(Debug, Clone, Copy, PartialEq, Eq, Structural)]
pub enum IndexStatus {
    Idle,
    Scanning,
    Indexing,
    Paused,
    Error,
}

impl Default for IndexStatus {
    fn default() -> (r: Self)
        ensures
            r == IndexStatus::Idle,
    {
        IndexStatus::Idle
    }
}

/// Counters and state of the local index.
#[derive(Debug, Clone)]
pub struct IndexStats {
    pub documents: u64,
    pub indexed_chunks: u64,
    pub pending: u64,
    pub failed: u64,
    pub total_bytes: u64,
    pub status: IndexStatus,
    pub current_file: Option<String>,
    pub last_indexed_at: Option<String>,
}

impl Default for IndexStats {
    fn default() -> (r: Self)
        ensures
            r.documents == 0 && r.indexed_chunks == 0 && r.pending == 0 && r.failed == 0,
            r.total_bytes == 0,
            r.status == IndexStatus::Idle,
            r.current_file is None,
            r.last_indexed_at is None,
    {
        IndexStats {
            documents: 0,
            indexed_chunks: 0,
            pending: 0,
            failed: 0,
            total_bytes: 0,
            status: IndexStatus::Idle,
            current_file: None,
            last_indexed_at: None,
        }
    }
}

/// Whether an answer service key is present, and where requests go.
#[derive(Debug, Clone)]
pub struct ConnectionStatus {
    pub connected: bool,
    pub key_label: Option<String>,
    pub endpoint: String,
    pub error: Option<String>,
}

/// Everything the interface shows at a glance.
#[derive(Debug, Clone)]
pub struct AppSnapshot {
    pub settings: AppSettings,
    pub stats: IndexStats,
    pub connection: ConnectionStatus,
    pub data_directory: String,
    pub app_version: String,
}

/// One indexed (or failed) source file.
#[derive(Debug, Clone)]
pub struct DocumentRecord {
    pub id: i64,
    pub path: String,
    pub name: String,
    pub extension: String,
    pub mime_type: String,
    pub modified_at: String,
    pub size_bytes: u64,
    pub status: String,
    pub chunk_count: u64,
    pub last_error: Option<String>,
}

/// A passage about to be stored: its text, page and heading.
#[derive(Debug, Clone)]
pub struct ChunkInput {
    pub content: String,
    pub page: Option<u32>,
    pub heading: Option<String>,
}

/// The mathematical content of a passage.
pub struct ChunkView {
    pub content: Seq<char>,
    pub page: Option<u32>,
    pub heading: Option<Seq<char>>,
}

impl View for ChunkInput {
    type V = ChunkView;

    open spec fn view(&self) -> ChunkView {
        ChunkView { content: self.content@, page: self.page, heading: opt_view(self.heading) }
    }
}

/// A stored passage together with the document it belongs to.
#[derive(Debug, Clone)]
pub struct ChunkRecord {
    pub id: u64,
    pub document_id: i64,
    pub chunk_index: u32,
    pub content: String,
    pub page: Option<u32>,
    pub heading: Option<String>,
    pub path: String,
    pub name: String,
    pub extension: String,
    pub modified_at: String,
}

/// Restrictions on search results: allowed extensions and a path prefix.
#[derive(Debug, Clone)]
pub struct SearchFilters {
    pub extensions: Vec<String>,
    pub path_prefix: Option<String>,
}

impl Default for SearchFilters {
    fn default() -> (r: Self)
        ensures
            r.extensions@.len() == 0,
            r.path_prefix is None,
    {
        SearchFilters { extensions: Vec::new(), path_prefix: None }
    }
}

/// A search query with its result limit and filters.
#[derive(Debug, Clone)]
pub struct SearchRequest {
    pub query: String,
    pub limit: usize,
    pub filters: SearchFilters,
}

/// Result limit used when a search request names none.
pub fn default_search_limit() -> (r: usize)
    ensures
        r == 12,
{
    12
}

/// A question, optionally with the passages to answer from.
#[derive(Debug, Clone)]
pub struct AskRequest {
    pub query: String,
    pub source_ids: Vec<u64>,
    pub max_sources: usize,
}

/// Source limit used when a question names none.
pub fn default_source_limit() -> (r: usize)
    ensures
        r == 6,
{
    6
}

/// A numbered excerpt that an answer may cite.
#[derive(Debug, Clone)]
pub struct AnswerSource {
    pub number: usize,
    pub chunk_id: u64,
    pub path: String,
    pub name: String,
    pub page: Option<u32>,
    pub excerpt: String,
}

/// A grounded answer with its sources and usage figures.
#[derive(Debug, Clone)]
pub struct AskResponse {
    pub answer: String,
    pub sources: Vec<AnswerSource>,
    pub model: String,
    pub input_tokens: Option<u64>,
    pub output_tokens: Option<u64>,
    pub latency_ms: u64,
}

/// Progress of an indexing run.
#[derive(Debug, Clone)]
pub struct IndexProgress {
    pub processed: u64,
    pub total: u64,
    pub current_file: Option<String>,
    pub status: IndexStatus,
    pub message: String,
}

} // verus!
