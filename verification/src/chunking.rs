//! Splitting extracted text into overlapping passages that end, where possible,
//! at a sentence or line boundary.
use vstd::prelude::*;
use crate::models::{clone_opt, opt_view, ChunkInput, ChunkView};
use crate::text::{chars_of, clean, clean_chars, copy_range, lemma_clean_shorter, string_from_chars};

verus! {

/// A run of extracted text with its page number and heading.
#[derive(Debug, Clone)]
pub struct ParsedSection {
    pub text: String,
    pub page: Option<u32>,
    pub heading: Option<String>,
}

/// The mathematical content of a section.
pub struct SectionView {
    pub text: Seq<char>,
    pub page: Option<u32>,
    pub heading: Option<Seq<char>>,
}

impl View for ParsedSection {
    type V = SectionView;

    open spec fn view(&self) -> SectionView {
        SectionView { text: self.text@, page: self.page, heading: opt_view(self.heading) }
    }
}

/// Characters after which a passage may end early.
pub open spec fn is_sentence_break(c: char) -> bool {
    c == '\n' || c == '.' || c == '!' || c == '?' || c == '\u{3002}' || c == '\u{ff01}' || c
        == '\u{ff1f}'
}

/// Scanning `chars[lo..i)` from the right: the position just after the last
/// sentence break found there, or `fallback` when it holds none.
pub open spec fn break_end(chars: Seq<char>, lo: int, i: int, fallback: int) -> int
    decreases i - lo,
{
    if i <= lo {
        fallback
    } else if is_sentence_break(chars[i - 1]) {
        i
    } else {
        break_end(chars, lo, i - 1, fallback)
    }
}

/// Where `break_end` lands: the fallback, or inside `(lo, i]`.
pub proof fn lemma_break_end_bounds(chars: Seq<char>, lo: int, i: int, fallback: int)
    ensures
        break_end(chars, lo, i, fallback) == fallback || lo < break_end(chars, lo, i, fallback) <= i,
    decreases i - lo,
{
    if i > lo && !is_sentence_break(chars[i - 1]) {
        lemma_break_end_bounds(chars, lo, i - 1, fallback);
    }
}

/// A passage ends between its start and the end of the text.
pub proof fn lemma_passage_end_bounds(chars: Seq<char>, start: int, target: nat)
    requires
        0 <= start < chars.len(),
    ensures
        start <= passage_end(chars, start, target as int) <= chars.len(),
{
    let upper = if start + target < chars.len() { start + target } else { chars.len() as int };
    lemma_break_end_bounds(chars, start + target / 2, upper, upper);
}

/// Where the passage that starts at `start` ends: `target` characters on, pulled
/// back to just after the last sentence break in the second half of that window
/// when the window does not reach the end of the text.
pub open spec fn passage_end(chars: Seq<char>, start: int, target: int) -> int {
    let upper = if start + target < chars.len() { start + target } else { chars.len() as int };
    if upper < chars.len() {
        break_end(chars, start + target / 2, upper, upper)
    } else {
        upper
    }
}

/// Where the passage after one spanning `[start, end)` starts: `overlap`
/// characters before `end`, but always past `start`.
pub open spec fn next_start(start: int, end: int, overlap: int) -> int {
    let back = if end >= overlap { end - overlap } else { 0 };
    if back > start + 1 { back } else { start + 1 }
}

/// The passages of `chars` from position `start` on: each window cleaned, kept
/// only when at least 20 characters remain.
pub open spec fn passages_from(chars: Seq<char>, start: int, target: nat, overlap: nat) -> Seq<
    Seq<char>,
>
    decreases chars.len() - start,
{
    if start < 0 || start >= chars.len() {
        Seq::empty()
    } else {
        let end = passage_end(chars, start, target as int);
        proof {
            lemma_passage_end_bounds(chars, start, target);
        }
        let content = clean(chars.subrange(start, end));
        let rest = if end >= chars.len() {
            Seq::<Seq<char>>::empty()
        } else {
            passages_from(chars, next_start(start, end, overlap as int), target, overlap)
        };
        if content.len() >= 20 {
            seq![content] + rest
        } else {
            rest
        }
    }
}

/// The passages of one section, each carrying the section's page and heading.
pub open spec fn section_chunks(section: SectionView, target: nat, overlap: nat) -> Seq<ChunkView> {
    passages_from(section.text, 0, target, overlap).map_values(
        |c: Seq<char>| ChunkView { content: c, page: section.page, heading: section.heading },
    )
}

/// The passages of all sections, in section order.
pub open spec fn chunks_of(sections: Seq<SectionView>, target: nat, overlap: nat) -> Seq<ChunkView>
    decreases sections.len(),
{
    if sections.len() == 0 {
        Seq::empty()
    } else {
        chunks_of(sections.drop_last(), target, overlap) + section_chunks(
            sections.last(),
            target,
            overlap,
        )
    }
}

/// Every passage cut from `chars` from `start` on holds at least 20 and at most
/// `target` characters.
proof fn lemma_passages_sized(chars: Seq<char>, start: int, target: nat, overlap: nat)
    ensures
        forall|k: int|
            0 <= k < passages_from(chars, start, target, overlap).len() ==> 20 <= #[trigger] passages_from(
                chars,
                start,
                target,
                overlap,
            )[k].len() <= target,
    decreases chars.len() - start,
{
    if 0 <= start < chars.len() {
        let end = passage_end(chars, start, target as int);
        let upper = if start + target < chars.len() { start + target } else { chars.len() as int };
        lemma_break_end_bounds(chars, start + target / 2, upper, upper);
        lemma_passage_end_bounds(chars, start, target);
        assert(end - start <= target);
        let content = clean(chars.subrange(start, end));
        lemma_clean_shorter(chars.subrange(start, end));
        let rest = if end >= chars.len() {
            Seq::<Seq<char>>::empty()
        } else {
            passages_from(chars, next_start(start, end, overlap as int), target, overlap)
        };
        if end < chars.len() {
            lemma_passages_sized(chars, next_start(start, end, overlap as int), target, overlap);
        }
        let all = passages_from(chars, start, target, overlap);
        assert forall|k: int| 0 <= k < all.len() implies 20 <= #[trigger] all[k].len() <= target by {
            if content.len() >= 20 {
                assert(all == seq![content] + rest);
                if k > 0 {
                    assert(all[k] == rest[k - 1]);
                }
            } else {
                assert(all == rest);
            }
        }
    }
}

/// Law: every passage of a document holds at least 20 and at most `target`
/// characters, the passage size chosen in the settings.
pub proof fn lemma_passage_sizes(sections: Seq<SectionView>, target: nat, overlap: nat)
    ensures
        forall|k: int|
            0 <= k < chunks_of(sections, target, overlap).len() ==> 20 <= #[trigger] chunks_of(
                sections,
                target,
                overlap,
            )[k].content.len() <= target,
    decreases sections.len(),
{
    if sections.len() > 0 {
        let init = chunks_of(sections.drop_last(), target, overlap);
        let last = section_chunks(sections.last(), target, overlap);
        lemma_passage_sizes(sections.drop_last(), target, overlap);
        lemma_passages_sized(sections.last().text, 0, target, overlap);
        let all = chunks_of(sections, target, overlap);
        assert(all == init + last);
        assert forall|k: int| 0 <= k < all.len() implies 20 <= #[trigger] all[k].content.len()
            <= target by {
            if k >= init.len() {
                assert(all[k] == last[k - init.len()]);
                assert(last[k - init.len()].content == passages_from(
                    sections.last().text,
                    0,
                    target,
                    overlap,
                )[k - init.len()]);
            } else {
                assert(all[k] == init[k]);
            }
        }
    }
}

/// Law: the window of a passage is cleaned and kept when at least 20
/// characters remain; otherwise it is dropped. After a window that stops short
/// of the end, the next one starts `overlap` characters before its end, but
/// always past its start.
pub proof fn lemma_window_kept_when_long_enough(chars: Seq<char>, start: int, target: nat, overlap: nat)
    requires
        0 <= start < chars.len(),
    ensures
        ({
            let end = passage_end(chars, start, target as int);
            let content = clean(chars.subrange(start, end));
            let next = if end - overlap > start + 1 { end - overlap } else { start + 1 };
            let rest = if end < chars.len() {
                passages_from(chars, next, target, overlap)
            } else {
                Seq::empty()
            };
            &&& content.len() >= 20 ==> passages_from(chars, start, target, overlap) == seq![content]
                + rest
            &&& content.len() < 20 ==> passages_from(chars, start, target, overlap) == rest
        }),
{
    let end = passage_end(chars, start, target as int);
    lemma_passage_end_bounds(chars, start, target);
    let next = if end - overlap > start + 1 { end - overlap } else { start + 1 };
    assert(next_start(start, end, overlap as int) == next);
}

/// `break_end` scanning down from `i` finds the break at `j` when nothing after
/// it, below `i`, is a break.
proof fn lemma_break_end_finds(chars: Seq<char>, lo: int, i: int, fallback: int, j: int)
    requires
        lo <= j < i,
        is_sentence_break(chars[j]),
        forall|k: int| j < k < i ==> !is_sentence_break(#[trigger] chars[k]),
    ensures
        break_end(chars, lo, i, fallback) == j + 1,
    decreases i - lo,
{
    if i - 1 > j {
        lemma_break_end_finds(chars, lo, i - 1, fallback, j);
    }
}

/// `break_end` gives the fallback when `chars[lo..i)` holds no break.
proof fn lemma_break_end_none(chars: Seq<char>, lo: int, i: int, fallback: int)
    requires
        forall|k: int| lo <= k < i ==> !is_sentence_break(#[trigger] chars[k]),
    ensures
        break_end(chars, lo, i, fallback) == fallback,
    decreases i - lo,
{
    if i > lo {
        lemma_break_end_none(chars, lo, i - 1, fallback);
    }
}

/// Law: a passage whose window `[start, start + target)` stops short of the end
/// of the text ends just after the last line feed, `.`, `!`, `?`, `。`, `！` or
/// `？` in the second half of that window.
pub proof fn lemma_passage_ends_after_last_break(chars: Seq<char>, start: int, target: int, j: int)
    requires
        0 <= start,
        0 <= target,
        start + target < chars.len(),
        start + target / 2 <= j < start + target,
        chars[j] == '\n' || chars[j] == '.' || chars[j] == '!' || chars[j] == '?' || chars[j]
            == '\u{3002}' || chars[j] == '\u{ff01}' || chars[j] == '\u{ff1f}',
        forall|k: int|
            j < k < start + target ==> !(#[trigger] chars[k] == '\n' || chars[k] == '.' || chars[k]
                == '!' || chars[k] == '?' || chars[k] == '\u{3002}' || chars[k] == '\u{ff01}'
                || chars[k] == '\u{ff1f}'),
    ensures
        passage_end(chars, start, target) == j + 1,
{
    lemma_break_end_finds(chars, start + target / 2, start + target, start + target, j);
}

/// Law: a passage whose window stops short of the end of the text, and whose
/// second half holds none of those marks, ends at the full window.
pub proof fn lemma_passage_ends_at_window(chars: Seq<char>, start: int, target: int)
    requires
        0 <= start,
        0 <= target,
        start + target < chars.len(),
        forall|k: int|
            start + target / 2 <= k < start + target ==> !(#[trigger] chars[k] == '\n' || chars[k]
                == '.' || chars[k] == '!' || chars[k] == '?' || chars[k] == '\u{3002}' || chars[k]
                == '\u{ff01}' || chars[k] == '\u{ff1f}'),
    ensures
        passage_end(chars, start, target) == start + target,
{
    lemma_break_end_none(chars, start + target / 2, start + target, start + target);
}

/// Law: a passage that reaches the end of the text takes all of it.
pub proof fn lemma_last_passage_takes_the_rest(chars: Seq<char>, start: int, target: int)
    requires
        0 <= start,
        chars.len() <= start + target,
    ensures
        passage_end(chars, start, target) == chars.len(),
{
}

/// Each passage by its view.
pub open spec fn chunk_views(chunks: Seq<ChunkInput>) -> Seq<ChunkView> {
    chunks.map_values(|c: ChunkInput| c@)
}

/// Each section by its view.
pub open spec fn section_views(sections: Seq<ParsedSection>) -> Seq<SectionView> {
    sections.map_values(|s: ParsedSection| s@)
}

fn is_break_char(c: char) -> (r: bool)
    ensures
        r == is_sentence_break(c),
{
    c == '\n' || c == '.' || c == '!' || c == '?' || c == '\u{3002}' || c == '\u{ff01}' || c
        == '\u{ff1f}'
}

/// The end of the passage that starts at `start` (see `passage_end`).
fn find_passage_end(characters: &Vec<char>, start: usize, target_size: usize) -> (end: usize)
    requires
        start < characters@.len(),
    ensures
        end == passage_end(characters@, start as int, target_size as int),
        start <= end <= characters@.len(),
{
    let n = characters.len();
    let upper = if target_size >= n - start { n } else { start + target_size };
    if upper < n {
        let half = target_size / 2;
        let lo = if half >= n - start { n } else { start + half };
        proof {
            if lo != start + half {
                assert(break_end(characters@, lo as int, upper as int, upper as int) == upper);
                assert(break_end(characters@, start + half, upper as int, upper as int) == upper);
            }
        }
        let mut candidate = upper;
        while candidate > lo && !is_break_char(characters[candidate - 1])
            invariant
                candidate <= upper < n,
                n == characters@.len(),
                break_end(characters@, lo as int, upper as int, upper as int) == break_end(
                    characters@,
                    lo as int,
                    candidate as int,
                    upper as int,
                ),
            decreases candidate,
        {
            candidate -= 1;
        }
        if candidate > lo {
            candidate
        } else {
            upper
        }
    } else {
        upper
    }
}

/// The passages of one section's characters, appended to `chunks`.
fn chunk_one_section(
    chunks: &mut Vec<ChunkInput>,
    characters: &Vec<char>,
    section: &ParsedSection,
    target_size: usize,
    overlap: usize,
)
    requires
        characters@ == section.text@,
    ensures
        chunk_views(final(chunks)@) == chunk_views(old(chunks)@) + section_chunks(
            section@,
            target_size as nat,
            overlap as nat,
        ),
{
    let ghost chars = characters@;
    let ghost prefix = chunk_views(old(chunks)@);
    let ghost mk = |c: Seq<char>|
        ChunkView { content: c, page: section@.page, heading: section@.heading };
    let n = characters.len();
    let mut start: usize = 0;
    let ghost mut done: Seq<Seq<char>> = Seq::empty();
    if n == 0 {
        assert(chunk_views(chunks@) =~= prefix + section_chunks(
            section@,
            target_size as nat,
            overlap as nat,
        ));
        return ;
    }
    loop
        invariant_except_break
            start <= n,
            passages_from(chars, 0, target_size as nat, overlap as nat) == done + passages_from(
                chars,
                start as int,
                target_size as nat,
                overlap as nat,
            ),
        invariant
            n == chars.len(),
            chars == characters@,
            chars == section.text@,
            mk == (|c: Seq<char>|
                ChunkView { content: c, page: section@.page, heading: section@.heading }),
            chunk_views(chunks@) == prefix + done.map_values(mk),
        ensures
            passages_from(chars, 0, target_size as nat, overlap as nat) == done,
        decreases n - start,
    {
        if start >= n {
            proof {
                assert(done + passages_from(chars, start as int, target_size as nat, overlap as nat) =~= done);
            }
            break;
        }
        let end = find_passage_end(characters, start, target_size);
        let window = copy_range(characters, start, end);
        let content = clean_chars(&window);
        let ghost before = done;
        if content.len() >= 20 {
            let heading = clone_opt(&section.heading);
            let ghost pre = chunks@;
            chunks.push(ChunkInput { content: string_from_chars(&content), page: section.page, heading });
            proof {
                done = done.push(content@);
                assert(done.map_values(mk) =~= before.map_values(mk).push(mk(content@)));
                assert(chunk_views(chunks@) =~= chunk_views(pre).push(mk(content@)));
                assert(chunk_views(chunks@) =~= prefix + done.map_values(mk));
            }
        }
        if end >= n {
            proof {
                assert(done =~= before + passages_from(chars, start as int, target_size as nat, overlap as nat));
            }
            break;
        }
        let back = if end >= overlap { end - overlap } else { 0 };
        let next = if back > start + 1 { back } else { start + 1 };
        proof {
            assert(done + passages_from(chars, next as int, target_size as nat, overlap as nat)
                =~= before + passages_from(chars, start as int, target_size as nat, overlap as nat));
        }
        start = next;
    }
    assert(section_chunks(section@, target_size as nat, overlap as nat) =~= done.map_values(mk));
}

/// Splits every section into passages of about `target_size` characters that
/// overlap by `overlap` characters (see `chunks_of`).
pub fn chunk_sections(sections: Vec<ParsedSection>, target_size: usize, overlap: usize) -> (chunks:
    Vec<ChunkInput>)
    ensures
        chunk_views(chunks@) == chunks_of(
            section_views(sections@),
            target_size as nat,
            overlap as nat,
        ),
{
    let mut chunks: Vec<ChunkInput> = Vec::new();
    let mut k: usize = 0;
    while k < sections.len()
        invariant
            k <= sections@.len(),
            chunk_views(chunks@) == chunks_of(
                section_views(sections@).take(k as int),
                target_size as nat,
                overlap as nat,
            ),
        decreases sections@.len() - k,
    {
        let section = &sections[k];
        let characters = chars_of(section.text.as_str());
        chunk_one_section(&mut chunks, &characters, section, target_size, overlap);
        proof {
            let sv = section_views(sections@);
            assert(sv.take(k + 1).drop_last() =~= sv.take(k as int));
            assert(sv.take(k + 1).last() == section@);
        }
        k += 1;
    }
    assert(section_views(sections@).take(sections@.len() as int) =~= section_views(sections@));
    chunks
}

} // verus!
