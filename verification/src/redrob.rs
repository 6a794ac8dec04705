//! Preparing grounded questions for the answer service and judging its replies:
//! the privacy and connection gates, source selection and numbering, the
//! size-bounded evidence context, the request text, and the classification of
//! failures without exposing upstream bodies.
use vstd::prelude::*;
use crate::models::{
    clone_opt, opt_view, AnswerSource, AskRequest, AskResponse, ChunkRecord,
};
use crate::text::{
    chars_of, copy_range, extend_from_range, join_with, string_from_chars, trim, trim_str,
};

verus! {

/// Longest question accepted, in characters.
pub const MAX_QUESTION_CHARACTERS: usize = 4000;

/// Most excerpt characters sent with one question.
pub const MAX_CONTEXT_CHARACTERS: usize = 60000;

/// Largest reply body read from the answer service, in bytes.
pub const MAX_RESPONSE_BYTES: usize = 2097152;

/// Most sources attached to one question.
pub const MAX_SOURCES: usize = 10;

/// A classified failure of a question: a stable code, a message safe to show,
/// the HTTP status to report and, for rate limits, how long to wait.
#[derive(Debug, Clone)]
pub struct RedrobError {
    pub code: String,
    pub message: String,
    pub http_status: u16,
    pub retry_after_seconds: Option<u64>,
}

/// The plain content of an error.
pub struct ErrorView {
    pub code: Seq<char>,
    pub message: Seq<char>,
    pub http_status: u16,
    pub retry_after_seconds: Option<u64>,
}

impl View for RedrobError {
    type V = ErrorView;

    open spec fn view(&self) -> ErrorView {
        ErrorView {
            code: self.code@,
            message: self.message@,
            http_status: self.http_status,
            retry_after_seconds: self.retry_after_seconds,
        }
    }
}

/// An error with the given code, message and status, and no retry delay.
pub open spec fn error_view(code: Seq<char>, message: Seq<char>, http_status: u16) -> ErrorView {
    ErrorView { code, message, http_status, retry_after_seconds: None }
}

/// Code, message and reported status for an unsuccessful upstream status.
pub open spec fn response_class(status: u16) -> (Seq<char>, Seq<char>, u16) {
    if status == 401 || status == 403 {
        (
            "authentication_required"@,
            "Your Redrob API key was rejected. Reconnect this device with a valid key."@,
            401,
        )
    } else if status == 402 {
        (
            "insufficient_balance"@,
            "This workspace does not have enough balance for an answer."@,
            402,
        )
    } else if status == 429 {
        (
            "rate_limited"@,
            "Redrob is receiving too many requests. Wait a moment and try again."@,
            429,
        )
    } else if 500 <= status <= 599 {
        (
            "service_unavailable"@,
            "Redrob is temporarily unavailable. Your local files were not affected."@,
            503,
        )
    } else {
        (
            "request_rejected"@,
            "Redrob could not accept this request. Review the connection settings and try again."@,
            400,
        )
    }
}

impl RedrobError {
    /// An error with the given code, message and status, and no retry hint.
    pub fn new(code: &str, message: &str, http_status: u16) -> (r: Self)
        ensures
            r@ == error_view(code@, message@, http_status),
    {
        RedrobError {
            code: code.to_owned(),
            message: message.to_owned(),
            http_status,
            retry_after_seconds: None,
        }
    }

    /// The error reported when local evidence could not be prepared; the cause
    /// is not exposed.
    pub fn local() -> (r: Self)
        ensures
            r@ == error_view(
                "local_error"@,
                "The local evidence could not be prepared. Check your library and try again."@,
                500,
            ),
    {
        Self::new(
            "local_error",
            "The local evidence could not be prepared. Check your library and try again.",
            500,
        )
    }

    /// Classifies an unsuccessful upstream status (see `response_class`),
    /// keeping the retry hint.
    pub fn from_response(status: u16, retry_after_seconds: Option<u64>) -> (r: Self)
        ensures
            r.code@ == response_class(status).0,
            r.message@ == response_class(status).1,
            r.http_status == response_class(status).2,
            r.retry_after_seconds == retry_after_seconds,
    {
        let (code, message, http_status) = if status == 401 || status == 403 {
            (
                "authentication_required",
                "Your Redrob API key was rejected. Reconnect this device with a valid key.",
                401u16,
            )
        } else if status == 402 {
            (
                "insufficient_balance",
                "This workspace does not have enough balance for an answer.",
                402u16,
            )
        } else if status == 429 {
            (
                "rate_limited",
                "Redrob is receiving too many requests. Wait a moment and try again.",
                429u16,
            )
        } else if 500 <= status && status <= 599 {
            (
                "service_unavailable",
                "Redrob is temporarily unavailable. Your local files were not affected.",
                503u16,
            )
        } else {
            (
                "request_rejected",
                "Redrob could not accept this request. Review the connection settings and try again.",
                400u16,
            )
        };
        RedrobError {
            code: code.to_owned(),
            message: message.to_owned(),
            http_status,
            retry_after_seconds,
        }
    }

    /// The text shown for this error.
    pub fn to_display_string(&self) -> (r: String)
        ensures
            r@ == self.message@,
    {
        self.message.clone()
    }
}

/// How the sources of a question are found: by a local search for the question
/// with a result limit, or by the passage identifiers the caller chose.
#[derive(Debug, Clone)]
pub enum SourceLookup {
    Search { query: String, limit: usize },
    Ids(Vec<u64>),
}

/// A question that passed the gates, ready for source lookup.
#[derive(Debug, Clone)]
pub struct AskPlan {
    pub api_key: String,
    pub query: String,
    pub max_sources: usize,
    pub lookup: SourceLookup,
}

/// The number of sources used for a question: the request's figure kept within 1 to 10.
pub open spec fn clamp_sources(n: usize) -> usize {
    if n < 1 {
        1
    } else if n > MAX_SOURCES {
        MAX_SOURCES
    } else {
        n
    }
}

/// The refusal owed to a question, if any: excerpt sending disabled, no key, or a
/// question that is empty or longer than 4000 characters once trimmed.
pub open spec fn ask_refusal(send_context: bool, has_key: bool, query: Seq<char>) -> Option<ErrorView> {
    if !send_context {
        Some(
            error_view(
                "privacy_disabled"@,
                "Sending selected excerpts to Redrob is disabled in Privacy settings."@,
                403,
            ),
        )
    } else if !has_key {
        Some(
            error_view(
                "not_connected"@,
                "Connect Redrob or paste an API key before asking."@,
                401,
            ),
        )
    } else if trim(query).len() == 0 || trim(query).len() > MAX_QUESTION_CHARACTERS {
        Some(
            error_view(
                "invalid_request"@,
                "Enter a question between 1 and 4,000 characters."@,
                400,
            ),
        )
    } else {
        None
    }
}

/// The passage identifiers kept from an explicit selection: the first `max` of them.
pub open spec fn kept_ids(ids: Seq<u64>, max: usize) -> Seq<u64> {
    if ids.len() <= max {
        ids
    } else {
        ids.take(max as int)
    }
}

/// Applies the gates to a question and decides how its sources are found.
pub fn plan_question(send_context_to_redrob: bool, api_key: Option<String>, request: &AskRequest) -> (r:
    Result<AskPlan, RedrobError>)
    ensures
        match ask_refusal(send_context_to_redrob, api_key is Some, request.query@) {
            Some(e) => r is Err && r->Err_0@ == e,
            None => r is Ok && {
                let plan = r->Ok_0;
                &&& plan.api_key@ == api_key->Some_0@
                &&& plan.query@ == trim(request.query@)
                &&& plan.max_sources == clamp_sources(request.max_sources)
                &&& if request.source_ids@.len() == 0 {
                    plan.lookup matches SourceLookup::Search { query, limit } && query@ == trim(
                        request.query@,
                    ) && limit == plan.max_sources
                } else {
                    plan.lookup matches SourceLookup::Ids(ids) && ids@ == kept_ids(
                        request.source_ids@,
                        plan.max_sources,
                    )
                }
            },
        },
{
    if !send_context_to_redrob {
        return Err(
            RedrobError::new(
                "privacy_disabled",
                "Sending selected excerpts to Redrob is disabled in Privacy settings.",
                403,
            ),
        );
    }
    let api_key = match api_key {
        Some(key) => key,
        None => {
            return Err(
                RedrobError::new(
                    "not_connected",
                    "Connect Redrob or paste an API key before asking.",
                    401,
                ),
            );
        },
    };
    let query = trim_str(request.query.as_str());
    let count = chars_of(query.as_str()).len();
    if count == 0 || count > MAX_QUESTION_CHARACTERS {
        return Err(
            RedrobError::new(
                "invalid_request",
                "Enter a question between 1 and 4,000 characters.",
                400,
            ),
        );
    }
    let max_sources = if request.max_sources < 1 {
        1
    } else if request.max_sources > MAX_SOURCES {
        MAX_SOURCES
    } else {
        request.max_sources
    };
    let lookup = if request.source_ids.len() == 0 {
        SourceLookup::Search { query: query.clone(), limit: max_sources }
    } else {
        let n = if request.source_ids.len() <= max_sources {
            request.source_ids.len()
        } else {
            max_sources
        };
        let mut ids: Vec<u64> = Vec::new();
        let mut i: usize = 0;
        while i < n
            invariant
                i <= n <= request.source_ids@.len(),
                ids@ == request.source_ids@.take(i as int),
            decreases n - i,
        {
            ids.push(request.source_ids[i]);
            i += 1;
            assert(ids@ =~= request.source_ids@.take(i as int));
        }
        assert(ids@ =~= kept_ids(request.source_ids@, max_sources));
        SourceLookup::Ids(ids)
    };
    Ok(AskPlan { api_key, query, max_sources, lookup })
}

/// The excerpt a passage contributes as source `i + 1`.
pub open spec fn source_matches(source: AnswerSource, chunk: ChunkRecord, i: int) -> bool {
    &&& source.number == i + 1
    &&& source.chunk_id == chunk.id
    &&& source.path@ == chunk.path@
    &&& source.name@ == chunk.name@
    &&& source.page == chunk.page
    &&& source.excerpt@ == chunk.content@
}

/// Numbers the retrieved passages 1, 2, ... as citable sources; refuses when there
/// are none.
pub fn number_sources(chunks: &Vec<ChunkRecord>) -> (r: Result<Vec<AnswerSource>, RedrobError>)
    ensures
        chunks@.len() == 0 <==> r is Err,
        r is Err ==> r->Err_0@ == error_view(
            "no_sources"@,
            "No relevant local sources were found for this question."@,
            404,
        ),
        r matches Ok(sources) ==> sources@.len() == chunks@.len() && forall|i: int|
            0 <= i < chunks@.len() ==> source_matches(#[trigger] sources@[i], chunks@[i], i),
{
    if chunks.len() == 0 {
        return Err(
            RedrobError::new(
                "no_sources",
                "No relevant local sources were found for this question.",
                404,
            ),
        );
    }
    let mut sources: Vec<AnswerSource> = Vec::new();
    let mut i: usize = 0;
    while i < chunks.len()
        invariant
            i <= chunks@.len(),
            sources@.len() == i,
            forall|k: int| 0 <= k < i ==> source_matches(#[trigger] sources@[k], chunks@[k], k),
        decreases chunks@.len() - i,
    {
        let chunk = &chunks[i];
        sources.push(
            AnswerSource {
                number: i + 1,
                chunk_id: chunk.id,
                path: chunk.path.clone(),
                name: chunk.name.clone(),
                page: chunk.page,
                excerpt: chunk.content.clone(),
            },
        );
        i += 1;
    }
    Ok(sources)
}

/// The character of a decimal digit.
pub open spec fn digit_char(d: int) -> char {
    if d == 0 {
        '0'
    } else if d == 1 {
        '1'
    } else if d == 2 {
        '2'
    } else if d == 3 {
        '3'
    } else if d == 4 {
        '4'
    } else if d == 5 {
        '5'
    } else if d == 6 {
        '6'
    } else if d == 7 {
        '7'
    } else if d == 8 {
        '8'
    } else {
        '9'
    }
}

/// The decimal notation of `n`, without leading zeros.
pub open spec fn decimal(n: nat) -> Seq<char>
    decreases n,
{
    if n < 10 {
        seq![digit_char(n as int)]
    } else {
        decimal(n / 10).push(digit_char((n % 10) as int))
    }
}

fn digit(d: usize) -> (c: char)
    requires
        d < 10,
    ensures
        c == digit_char(d as int),
{
    if d == 0 {
        '0'
    } else if d == 1 {
        '1'
    } else if d == 2 {
        '2'
    } else if d == 3 {
        '3'
    } else if d == 4 {
        '4'
    } else if d == 5 {
        '5'
    } else if d == 6 {
        '6'
    } else if d == 7 {
        '7'
    } else if d == 8 {
        '8'
    } else {
        '9'
    }
}

/// Appends the decimal notation of `n`.
pub fn push_decimal(out: &mut Vec<char>, n: usize)
    ensures
        final(out)@ == old(out)@ + decimal(n as nat),
    decreases n,
{
    if n >= 10 {
        push_decimal(out, n / 10);
    }
    out.push(digit(n % 10));
    if n >= 10 {
        assert(final(out)@ =~= old(out)@ + decimal(n as nat)) by {
            assert(decimal(n as nat) == decimal((n / 10) as nat).push(digit_char((n % 10) as int)));
        }
    } else {
        assert(final(out)@ =~= old(out)@ + decimal(n as nat));
    }
}

/// The label that introduces source `number` in the evidence context.
pub open spec fn source_label(number: nat) -> Seq<char> {
    seq!['['] + decimal(number) + seq![']', '\n']
}

/// The context entries for `sources` with `remaining` excerpt characters left:
/// each source contributes its label and as much of its excerpt as still fits;
/// nothing follows once the budget is spent.
pub open spec fn context_pieces(sources: Seq<(nat, Seq<char>)>, remaining: nat) -> Seq<Seq<char>>
    decreases sources.len(),
{
    if sources.len() == 0 || remaining == 0 {
        Seq::empty()
    } else {
        let excerpt = if remaining < sources[0].1.len() {
            sources[0].1.take(remaining as int)
        } else {
            sources[0].1
        };
        seq![source_label(sources[0].0) + excerpt] + context_pieces(
            sources.drop_first(),
            (remaining - excerpt.len()) as nat,
        )
    }
}

/// Excerpt characters that `context_pieces` takes from `sources`.
pub open spec fn excerpt_chars_sent(sources: Seq<(nat, Seq<char>)>, remaining: nat) -> nat
    decreases sources.len(),
{
    if sources.len() == 0 || remaining == 0 {
        0
    } else {
        let excerpt = if remaining < sources[0].1.len() {
            sources[0].1.take(remaining as int)
        } else {
            sources[0].1
        };
        excerpt.len() + excerpt_chars_sent(sources.drop_first(), (remaining - excerpt.len()) as nat)
    }
}

/// Each source as its number and excerpt: all of it that reaches the context.
pub open spec fn numbered_excerpts(sources: Seq<AnswerSource>) -> Seq<(nat, Seq<char>)> {
    sources.map_values(|s: AnswerSource| (s.number as nat, s.excerpt@))
}

/// The evidence sent with a question: the context entries of all sources,
/// separated by blank lines, within `MAX_CONTEXT_CHARACTERS` excerpt characters.
pub open spec fn evidence_context(sources: Seq<AnswerSource>) -> Seq<char> {
    join_with(
        context_pieces(numbered_excerpts(sources), MAX_CONTEXT_CHARACTERS as nat),
        seq!['\n', '\n'],
    )
}

/// Law: the excerpts placed in the evidence context never hold more characters
/// than the budget they were given.
pub proof fn lemma_context_within_budget(sources: Seq<(nat, Seq<char>)>, remaining: nat)
    ensures
        excerpt_chars_sent(sources, remaining) <= remaining,
    decreases sources.len(),
{
    if sources.len() > 0 && remaining > 0 {
        let excerpt = if remaining < sources[0].1.len() {
            sources[0].1.take(remaining as int)
        } else {
            sources[0].1
        };
        lemma_context_within_budget(sources.drop_first(), (remaining - excerpt.len()) as nat);
    }
}

/// Law: the evidence sent with a question depends on the sources' numbers and
/// excerpts alone; their file names and paths never reach it.
pub proof fn lemma_context_ignores_locations(a: Seq<AnswerSource>, b: Seq<AnswerSource>)
    requires
        a.len() == b.len(),
        forall|i: int|
            0 <= i < a.len() ==> #[trigger] a[i].number == b[i].number && a[i].excerpt@ == b[i].excerpt@,
    ensures
        evidence_context(a) == evidence_context(b),
{
    assert(numbered_excerpts(a) =~= numbered_excerpts(b));
}

/// Builds the evidence context (see `evidence_context`).
pub fn build_context(sources: &Vec<AnswerSource>) -> (r: String)
    ensures
        r@ == evidence_context(sources@),
{
    let ghost all = numbered_excerpts(sources@);
    let n = sources.len();
    let mut out: Vec<char> = Vec::new();
    let mut remaining: usize = MAX_CONTEXT_CHARACTERS;
    let mut i: usize = 0;
    let ghost mut done: Seq<Seq<char>> = Seq::empty();
    assert(all.subrange(0, n as int) =~= all);
    while i < n && remaining > 0
        invariant
            i <= n == sources@.len(),
            done.len() == i,
            all == numbered_excerpts(sources@),
            remaining <= MAX_CONTEXT_CHARACTERS,
            context_pieces(all, MAX_CONTEXT_CHARACTERS as nat) == done + context_pieces(
                all.subrange(i as int, n as int),
                remaining as nat,
            ),
            out@ == join_with(done, seq!['\n', '\n']),
        decreases n - i,
    {
        let source = &sources[i];
        let excerpt_chars = chars_of(source.excerpt.as_str());
        let take = if remaining < excerpt_chars.len() { remaining } else { excerpt_chars.len() };
        let mut piece: Vec<char> = Vec::new();
        piece.push('[');
        push_decimal(&mut piece, source.number);
        piece.push(']');
        piece.push('\n');
        extend_from_range(&mut piece, &excerpt_chars, 0, take);
        let ghost before = done;
        let ghost pre_out = out@;
        if i > 0 {
            out.push('\n');
            out.push('\n');
        }
        extend_from_range(&mut out, &piece, 0, piece.len());
        proof {
            let rest = all.subrange(i as int, n as int);
            assert(rest[0] == (source.number as nat, source.excerpt@));
            assert(rest.drop_first() =~= all.subrange(i + 1, n as int));
            let excerpt = if remaining < rest[0].1.len() {
                rest[0].1.take(remaining as int)
            } else {
                rest[0].1
            };
            assert(excerpt_chars@.subrange(0, take as int) =~= excerpt);
            assert(piece@ =~= source_label(source.number as nat) + excerpt);
            assert(piece@.subrange(0, piece@.len() as int) =~= piece@);
            done = done.push(piece@);
            assert(done.drop_last() =~= before);
            assert(before + context_pieces(rest, remaining as nat) =~= done + context_pieces(
                all.subrange(i + 1, n as int),
                (remaining - take) as nat,
            ));
            if before.len() == 0 {
                assert(out@ =~= piece@);
            } else {
                assert(out@ =~= join_with(before, seq!['\n', '\n']) + seq!['\n', '\n'] + piece@);
            }
        }
        remaining = remaining - take;
        i += 1;
    }
    proof {
        assert(context_pieces(all.subrange(i as int, n as int), remaining as nat) =~= Seq::<Seq<char>>::empty());
        assert(done + Seq::<Seq<char>>::empty() =~= done);
    }
    string_from_chars(&out)
}

/// One message of a chat request.
#[derive(Debug, Clone)]
pub struct ChatMessage {
    pub role: String,
    pub content: String,
}

/// The standing instruction sent with every question.
pub open spec fn spec_system_prompt() -> Seq<char> {
    "Answer only from the supplied local sources. Cite factual statements with [1], [2], and so on. If the sources do not contain the answer, say so clearly. Reply in the language of the user's question."@
}

/// The question message: the evidence context, then the question.
pub open spec fn spec_user_prompt(context: Seq<char>, query: Seq<char>) -> Seq<char> {
    "LOCAL SOURCES\n"@ + context + "\n\nQUESTION\n"@ + query
}

/// The two messages of a question: the standing instruction and the question
/// with its evidence.
pub fn chat_messages(context: &str, query: &str) -> (r: Vec<ChatMessage>)
    ensures
        r@.len() == 2,
        r@[0].role@ == "system"@,
        r@[0].content@ == spec_system_prompt(),
        r@[1].role@ == "user"@,
        r@[1].content@ == spec_user_prompt(context@, query@),
{
    let system = ChatMessage {
        role: "system".to_owned(),
        content: "Answer only from the supplied local sources. Cite factual statements with [1], [2], and so on. If the sources do not contain the answer, say so clearly. Reply in the language of the user's question.".to_owned(),
    };
    let mut content = "LOCAL SOURCES\n".to_owned();
    content.append(context);
    content.append("\n\nQUESTION\n");
    content.append(query);
    let user = ChatMessage { role: "user".to_owned(), content };
    vec![system, user]
}

/// `s` without its trailing slashes.
pub open spec fn strip_trailing_slashes(s: Seq<char>) -> Seq<char>
    decreases s.len(),
{
    if s.len() > 0 && s.last() == '/' {
        strip_trailing_slashes(s.drop_last())
    } else {
        s
    }
}

/// The chat completion address under the configured base address.
pub fn chat_endpoint(base_url: &str) -> (r: String)
    ensures
        r@ == strip_trailing_slashes(base_url@) + "/chat/completions"@,
{
    let chars = chars_of(base_url);
    let mut end = chars.len();
    assert(chars@.subrange(0, chars@.len() as int) =~= chars@);
    while end > 0 && chars[end - 1] == '/'
        invariant
            end <= chars@.len(),
            strip_trailing_slashes(chars@) == strip_trailing_slashes(chars@.subrange(0, end as int)),
        decreases end,
    {
        assert(chars@.subrange(0, end as int).drop_last() =~= chars@.subrange(0, end - 1));
        end -= 1;
    }
    assert(chars@.subrange(0, chars@.len() as int) =~= chars@);
    let mut r = string_from_chars(&copy_range(&chars, 0, end));
    r.append("/chat/completions");
    r
}

/// The error for an answer service that could not be reached, or timed out.
pub fn network_failure(timed_out: bool) -> (r: RedrobError)
    ensures
        r@ == if timed_out {
            error_view(
                "timeout"@,
                "Redrob took too long to respond. Check your connection and try again."@,
                503,
            )
        } else {
            error_view(
                "network_error"@,
                "Redrob could not be reached. Check your connection and try again."@,
                503,
            )
        },
{
    if timed_out {
        RedrobError::new(
            "timeout",
            "Redrob took too long to respond. Check your connection and try again.",
            503,
        )
    } else {
        RedrobError::new(
            "network_error",
            "Redrob could not be reached. Check your connection and try again.",
            503,
        )
    }
}

/// Accepts a 2xx status; classifies any other (see `RedrobError::from_response`).
pub fn check_status(status: u16, retry_after_seconds: Option<u64>) -> (r: Result<(), RedrobError>)
    ensures
        200 <= status <= 299 <==> r is Ok,
        r matches Err(e) ==> {
            &&& e.code@ == response_class(status).0
            &&& e.message@ == response_class(status).1
            &&& e.http_status == response_class(status).2
            &&& e.retry_after_seconds == retry_after_seconds
        },
{
    if 200 <= status && status <= 299 {
        Ok(())
    } else {
        Err(RedrobError::from_response(status, retry_after_seconds))
    }
}

/// The value of a string of decimal digits.
pub open spec fn digits_value(s: Seq<char>) -> int
    decreases s.len(),
{
    if s.len() == 0 {
        0
    } else {
        digits_value(s.drop_last()) * 10 + (s.last() as int - '0' as int)
    }
}

/// An ASCII decimal digit.
pub open spec fn is_digit(c: char) -> bool {
    '0' <= c && c <= '9'
}

/// Every character is an ASCII decimal digit.
pub open spec fn all_digits(s: Seq<char>) -> bool {
    forall|i: int| 0 <= i < s.len() ==> is_digit(#[trigger] s[i])
}

/// `s` without one leading `+`.
pub open spec fn unsigned_body(s: Seq<char>) -> Seq<char> {
    if s.len() > 0 && s[0] == '+' {
        s.drop_first()
    } else {
        s
    }
}

/// What `u64::from_str` accepts: an optional `+`, then one or more decimal
/// digits whose value fits in 64 bits.
pub open spec fn parse_u64_spec(s: Seq<char>) -> Option<u64> {
    let body = unsigned_body(s);
    if body.len() > 0 && all_digits(body) && digits_value(body) <= u64::MAX {
        Some(digits_value(body) as u64)
    } else {
        None
    }
}

proof fn lemma_digits_value_nonneg(s: Seq<char>)
    requires
        forall|i: int| 0 <= i < s.len() ==> is_digit(#[trigger] s[i]),
    ensures
        digits_value(s) >= 0,
    decreases s.len(),
{
    if s.len() > 0 {
        assert(is_digit(s[s.len() - 1]));
        lemma_digits_value_nonneg(s.drop_last());
    }
}

proof fn lemma_digits_value_grows(s: Seq<char>, k: int)
    requires
        0 <= k <= s.len(),
        forall|i: int| 0 <= i < s.len() ==> is_digit(#[trigger] s[i]),
    ensures
        digits_value(s.subrange(0, k)) <= digits_value(s),
    decreases s.len() - k,
{
    if k < s.len() {
        lemma_digits_value_grows(s, k + 1);
        assert(s.subrange(0, k + 1).drop_last() =~= s.subrange(0, k));
        assert(s.subrange(0, k + 1).last() == s[k]);
        assert(is_digit(s[k]));
        lemma_digits_value_nonneg(s.subrange(0, k));
    } else {
        assert(s.subrange(0, k) =~= s);
    }
}

/// Parses a `Retry-After` value given in seconds (see `parse_u64_spec`).
pub fn parse_retry_after(value: &str) -> (r: Option<u64>)
    ensures
        r == parse_u64_spec(value@),
{
    let chars = chars_of(value);
    let ghost s = chars@;
    let start: usize = if chars.len() > 0 && chars[0] == '+' { 1 } else { 0 };
    let ghost body = unsigned_body(s);
    assert(body =~= s.subrange(start as int, s.len() as int));
    if start >= chars.len() {
        return None;
    }
    let mut acc: u64 = 0;
    let mut i = start;
    while i < chars.len()
        invariant
            start <= i <= chars@.len(),
            s == chars@,
            s == value@,
            body == unsigned_body(s),
            body == s.subrange(start as int, s.len() as int),
            acc as int == digits_value(body.subrange(0, i - start)),
            forall|k: int| 0 <= k < i - start ==> is_digit(#[trigger] body[k]),
        decreases chars@.len() - i,
    {
        let c = chars[i];
        if !('0' <= c && c <= '9') {
            assert(!is_digit(body[i - start]));
            assert(!all_digits(body));
            return None;
        }
        let d = (c as u32 - '0' as u32) as u64;
        assert(body.subrange(0, i + 1 - start).drop_last() =~= body.subrange(0, i - start));
        if acc > (u64::MAX - d) / 10 {
            proof {
                assert(acc * 10 + d > u64::MAX) by (nonlinear_arith)
                    requires
                        acc > (u64::MAX - d) / 10,
                        d <= 9,
                ;
                assert(body.subrange(0, i + 1 - start).last() == c);
                assert(digits_value(body.subrange(0, i + 1 - start)) > u64::MAX);
                if all_digits(body) {
                    lemma_digits_value_grows(body, i + 1 - start);
                }
            }
            return None;
        }
        assert(acc * 10 + d <= u64::MAX) by (nonlinear_arith)
            requires
                acc <= (u64::MAX - d) / 10,
                d <= 9,
        ;
        acc = acc * 10 + d;
        i += 1;
    }
    assert(body.subrange(0, body.len() as int) =~= body);
    Some(acc)
}

/// The refusal of a reply larger than `MAX_RESPONSE_BYTES`.
pub open spec fn too_large_view() -> ErrorView {
    error_view("invalid_response"@, "Redrob returned an unexpectedly large response."@, 502)
}

/// The error for a reply that is larger than `MAX_RESPONSE_BYTES`.
pub fn too_large_reply() -> (r: RedrobError)
    ensures
        r@ == too_large_view(),
{
    RedrobError::new("invalid_response", "Redrob returned an unexpectedly large response.", 502)
}

/// The error for a reply whose body could not be read.
pub fn unreadable_reply() -> (r: RedrobError)
    ensures
        r@ == error_view(
            "invalid_response"@,
            "The Redrob response could not be read. Try again."@,
            502,
        ),
{
    RedrobError::new("invalid_response", "The Redrob response could not be read. Try again.", 502)
}

/// The error for a reply that is not a chat completion.
pub fn unexpected_reply() -> (r: RedrobError)
    ensures
        r@ == error_view(
            "invalid_response"@,
            "Redrob returned an unexpected response. Try again later."@,
            502,
        ),
{
    RedrobError::new(
        "invalid_response",
        "Redrob returned an unexpected response. Try again later.",
        502,
    )
}

/// Refuses a reply whose announced length exceeds `MAX_RESPONSE_BYTES`.
pub fn check_content_length(content_length: Option<u64>) -> (r: Result<(), RedrobError>)
    ensures
        r is Err <==> (content_length matches Some(n) && n > MAX_RESPONSE_BYTES),
        r matches Err(e) ==> e@ == too_large_view(),
{
    match content_length {
        Some(n) if n > MAX_RESPONSE_BYTES as u64 => Err(too_large_reply()),
        _ => Ok(()),
    }
}

/// Counts the bytes of a reply as they arrive and refuses the piece that would
/// take the total past `MAX_RESPONSE_BYTES`.
#[derive(Debug, Clone, Copy)]
pub struct ResponseBudget {
    received: usize,
}

impl ResponseBudget {
    #[verifier::type_invariant]
    spec fn within_limit(self) -> bool {
        self.received <= MAX_RESPONSE_BYTES
    }

    /// Bytes accepted so far.
    pub closed spec fn spec_received(self) -> nat {
        self.received as nat
    }

    /// A budget with nothing received yet.
    pub fn new() -> (r: Self)
        ensures
            r.spec_received() == 0,
    {
        ResponseBudget { received: 0 }
    }

    /// Bytes accepted so far.
    pub fn received(&self) -> (r: usize)
        ensures
            r == self.spec_received(),
            r <= MAX_RESPONSE_BYTES,
    {
        proof {
            use_type_invariant(self);
        }
        self.received
    }

    /// Accepts a piece of `len` bytes when the total stays within the limit;
    /// otherwise refuses it and leaves the count unchanged.
    pub fn accept(&mut self, len: usize) -> (r: Result<(), RedrobError>)
        ensures
            old(self).spec_received() + len <= MAX_RESPONSE_BYTES <==> r is Ok,
            r is Ok ==> final(self).spec_received() == old(self).spec_received() + len,
            r is Err ==> final(self).spec_received() == old(self).spec_received(),
            r matches Err(e) ==> e@ == too_large_view(),
            final(self).spec_received() <= MAX_RESPONSE_BYTES,
    {
        proof {
            use_type_invariant(&*self);
        }
        if len > MAX_RESPONSE_BYTES - self.received {
            Err(too_large_reply())
        } else {
            self.received = self.received + len;
            Ok(())
        }
    }
}

/// The usage figures a completion may report.
#[derive(Debug, Clone, Copy)]
pub struct CompletionUsage {
    pub prompt_tokens: u64,
    pub completion_tokens: u64,
}

/// The parts of a chat completion that an answer is made from.
#[derive(Debug, Clone)]
pub struct Completion {
    pub first_choice: Option<String>,
    pub model: Option<String>,
    pub usage: Option<CompletionUsage>,
}

/// Makes the answer from a completion: the first choice's text, when it is not
/// blank; the reported model, or the configured one; the token counts reported.
pub fn finish_answer(
    completion: Completion,
    default_model: String,
    sources: Vec<AnswerSource>,
    latency_ms: u64,
) -> (r: Result<AskResponse, RedrobError>)
    ensures
        r is Ok <==> (completion.first_choice matches Some(a) && trim(a@).len() > 0),
        r matches Err(e) ==> e@ == error_view(
            "empty_response"@,
            "Redrob returned no answer. Try a more specific question."@,
            502,
        ),
        r matches Ok(resp) ==> {
            &&& resp.answer@ == completion.first_choice->Some_0@
            &&& resp.sources@ == sources@
            &&& resp.model@ == match completion.model {
                Some(m) => m@,
                None => default_model@,
            }
            &&& resp.input_tokens == match completion.usage {
                Some(u) => Some(u.prompt_tokens),
                None => None,
            }
            &&& resp.output_tokens == match completion.usage {
                Some(u) => Some(u.completion_tokens),
                None => None,
            }
            &&& resp.latency_ms == latency_ms
        },
{
    let answer = match completion.first_choice {
        Some(a) => {
            if crate::text::is_blank(a.as_str()) {
                return Err(
                    RedrobError::new(
                        "empty_response",
                        "Redrob returned no answer. Try a more specific question.",
                        502,
                    ),
                );
            }
            a
        },
        None => {
            return Err(
                RedrobError::new(
                    "empty_response",
                    "Redrob returned no answer. Try a more specific question.",
                    502,
                ),
            );
        },
    };
    let model = match completion.model {
        Some(m) => m,
        None => default_model,
    };
    let (input_tokens, output_tokens) = match completion.usage {
        Some(u) => (Some(u.prompt_tokens), Some(u.completion_tokens)),
        None => (None, None),
    };
    Ok(AskResponse { answer, sources, model, input_tokens, output_tokens, latency_ms })
}

} // verus!
