//! The chunked detection engine.

use vstd::prelude::*;
use vstd::slice::slice_subrange;
use vstd::slice::slice_to_vec;
use vstd::string::StringExecFns;
use crate::entry::Pattern;
use crate::entry::ResultEntry;
use crate::entry::EntryView;
use crate::entry::Summary;
use crate::entry::entries_view;
use crate::entry::lemma_entries_view_push;
use crate::entry::lemma_entries_view_concat;
use crate::text::push_char;
use crate::scan_laws::lemma_counts_by_label;

verus! {

/// A byte counts as text when it is a graphic ASCII character or a space.
pub open spec fn is_printable(b: u8) -> bool {
    0x20 <= b && b <= 0x7e
}

/// Where the stretch of text bytes that covers position `i` stops: the
/// first position from `i` on that holds no text byte, or the chunk's end.
pub open spec fn run_end(c: Seq<u8>, i: int) -> int
    decreases c.len() - i,
{
    if 0 <= i < c.len() && is_printable(c[i]) {
        run_end(c, i + 1)
    } else {
        i
    }
}

/// A maximal run of text starts at `i`: a text byte with no text byte
/// before it.
pub open spec fn is_run_start(c: Seq<u8>, i: int) -> bool {
    0 <= i < c.len() && is_printable(c[i]) && (i == 0 || !is_printable(c[i - 1]))
}

/// Text bytes read as characters, one for one.
pub open spec fn ascii_text(bytes: Seq<u8>) -> Seq<char> {
    Seq::new(bytes.len(), |i: int| bytes[i] as char)
}

/// The label of a text finding.
pub open spec fn ascii_label(bytes: Seq<u8>) -> Seq<char> {
    "ASCII String '"@ + ascii_text(bytes) + "'"@
}

/// The finding for the text run `[s, e)` of a chunk that starts at `base`.
pub open spec fn ascii_entry(c: Seq<u8>, base: int, s: int, e: int) -> EntryView {
    EntryView {
        content: ascii_label(c.subrange(s, e)),
        address: base + s,
        bytes: c.subrange(s, e),
    }
}

/// The text findings of a chunk whose runs start at `i` or later, by
/// ascending start: one for every maximal run of at least `min` bytes.
pub open spec fn ascii_entries_from(c: Seq<u8>, base: int, min: int, i: int) -> Seq<EntryView>
    decreases c.len() - i,
{
    if i < 0 || i >= c.len() {
        Seq::empty()
    } else {
        let rest = ascii_entries_from(c, base, min, i + 1);
        if is_run_start(c, i) && run_end(c, i) - i >= min {
            seq![ascii_entry(c, base, i, run_end(c, i))] + rest
        } else {
            rest
        }
    }
}

/// All text findings of a chunk.
pub open spec fn ascii_entries(c: Seq<u8>, base: int, min: int) -> Seq<EntryView> {
    ascii_entries_from(c, base, min, 0)
}

/// Inside a run no further run starts, so the findings from any inner
/// position are those from the run's end.
proof fn lemma_skip_run(c: Seq<u8>, base: int, min: int, j: int, e: int)
    requires
        0 < j <= e <= c.len(),
        forall|k: int| j - 1 <= k < e ==> is_printable(#[trigger] c[k]),
    ensures
        ascii_entries_from(c, base, min, j) == ascii_entries_from(c, base, min, e),
    decreases e - j,
{
    if j < e {
        assert(is_printable(c[j - 1]));
        lemma_skip_run(c, base, min, j + 1, e);
    }
}

fn is_printable_byte(b: u8) -> (r: bool)
    ensures
        r == is_printable(b),
{
    b >= 0x20 && b <= 0x7e
}

fn ascii_result(chunk: &[u8], chunk_offset: usize, s: usize, e: usize) -> (r: ResultEntry)
    requires
        s <= e <= chunk@.len(),
        chunk_offset + chunk@.len() <= usize::MAX,
        forall|k: int| s <= k < e ==> is_printable(#[trigger] chunk@[k]),
    ensures
        r@ == ascii_entry(chunk@, chunk_offset as int, s as int, e as int),
{
    let run = slice_subrange(chunk, s, e);
    let mut content = String::from_str("ASCII String '");
    let mut k: usize = 0;
    proof {
        assert("ASCII String '"@ + ascii_text(run@.take(0)) =~= "ASCII String '"@);
    }
    while k < run.len()
        invariant
            k <= run@.len(),
            content@ == "ASCII String '"@ + ascii_text(run@.take(k as int)),
        decreases run@.len() - k,
    {
        let b: u8 = run[k];
        push_char(&mut content, b as char);
        k = k + 1;
        proof {
            assert(content@ =~= "ASCII String '"@ + ascii_text(run@.take(k as int)));
        }
    }
    proof {
        assert(run@.take(run@.len() as int) =~= run@);
    }
    content.append("'");
    ResultEntry { content, address: chunk_offset + s, bytes: slice_to_vec(run) }
}

/// Finds the runs of printable text in a chunk.
///
/// A run is a maximal stretch of graphic ASCII characters and spaces.
/// Every run of at least `min_length` bytes gives one entry, in order of
/// position, whose address is the run's start counted from `chunk_offset`.
pub fn find_ascii_strings(chunk: &[u8], chunk_offset: usize, min_length: usize) -> (result: Vec<
    ResultEntry,
>)
    requires
        min_length > 0,
        chunk_offset + chunk@.len() <= usize::MAX,
    ensures
        entries_view(result@) == ascii_entries(chunk@, chunk_offset as int, min_length as int),
{
    let mut result: Vec<ResultEntry> = Vec::new();
    let mut i: usize = 0;
    let n: usize = chunk.len();
    let ghost c = chunk@;
    let ghost base = chunk_offset as int;
    let ghost min = min_length as int;
    proof {
        assert(entries_view(result@) =~= Seq::<EntryView>::empty());
    }
    while i < n
        invariant
            n == chunk@.len(),
            c == chunk@,
            base == chunk_offset as int,
            min == min_length as int,
            min > 0,
            chunk_offset + chunk@.len() <= usize::MAX,
            i <= n,
            i == 0 || i == n || !is_printable(c[i - 1]),
            entries_view(result@) + ascii_entries_from(c, base, min, i as int) == ascii_entries(
                c,
                base,
                min,
            ),
        decreases n - i,
    {
        if !is_printable_byte(chunk[i]) {
            i = i + 1;
        } else {
            let s: usize = i;
            let mut e: usize = i + 1;
            while e < n && is_printable_byte(chunk[e])
                invariant
                    n == chunk@.len(),
                    c == chunk@,
                    s < e <= n,
                    forall|k: int| s <= k < e ==> is_printable(#[trigger] c[k]),
                    run_end(c, s as int) == run_end(c, e as int),
                decreases n - e,
            {
                e = e + 1;
            }
            proof {
                assert(run_end(c, e as int) == e);
                assert(is_run_start(c, s as int));
                lemma_skip_run(c, base, min, s as int + 1, e as int);
            }
            if e - s >= min_length {
                let entry = ascii_result(chunk, chunk_offset, s, e);
                proof {
                    lemma_entries_view_push(result@, entry);
                    assert(entries_view(result@).push(entry@) + ascii_entries_from(
                        c,
                        base,
                        min,
                        e as int,
                    ) =~= entries_view(result@) + ascii_entries_from(c, base, min, s as int));
                }
                result.push(entry);
            }
            if e < n {
                proof {
                    assert(!is_run_start(c, e as int));
                }
                i = e + 1;
            } else {
                i = e;
            }
        }
    }
    proof {
        assert(entries_view(result@) + Seq::<EntryView>::empty() =~= entries_view(result@));
    }
    result
}

/// The pattern `p` stands in `c` at position `i`.
pub open spec fn occurs_at(c: Seq<u8>, p: Seq<u8>, i: int) -> bool {
    0 <= i && i + p.len() <= c.len() && c.subrange(i, i + p.len()) == p
}

/// What a search for the first occurrence answers: the lowest position at
/// which the needle stands, or nothing when it stands nowhere.
pub open spec fn is_first_occurrence(hay: Seq<u8>, needle: Seq<u8>, r: Option<usize>) -> bool {
    match r {
        Some(i) => occurs_at(hay, needle, i as int) && forall|j: int|
            0 <= j < i ==> !occurs_at(hay, needle, j),
        None => forall|j: int| !occurs_at(hay, needle, j),
    }
}

/// Calls `memchr::memmem::find`. The contract claims what that function
/// documents: it returns the index of the first occurrence of the needle
/// in the haystack, and `None` when the needle does not occur.
#[verifier::external_body]
fn memmem_find(haystack: &[u8], needle: &[u8]) -> (r: Option<usize>)
    ensures
        is_first_occurrence(haystack@, needle@, r),
{
    memchr::memmem::find(haystack, needle)
}

/// The label of a signature finding.
pub open spec fn pattern_label(name: Seq<char>) -> Seq<char> {
    "Pattern '"@ + name + "'"@
}

/// The finding for a signature that stands at `address`.
pub open spec fn pattern_entry(name: Seq<char>, p: Seq<u8>, address: int) -> EntryView {
    EntryView { content: pattern_label(name), address, bytes: p }
}

/// The findings of one signature in a chunk at positions `i` and later, by
/// ascending position. Every position at which the signature stands
/// counts, also one inside an earlier occurrence.
pub open spec fn occurrences_from(
    c: Seq<u8>,
    base: int,
    name: Seq<char>,
    p: Seq<u8>,
    i: int,
) -> Seq<EntryView>
    decreases c.len() + 1 - i,
{
    if i < 0 || i > c.len() {
        Seq::empty()
    } else {
        let rest = occurrences_from(c, base, name, p, i + 1);
        if occurs_at(c, p, i) {
            seq![pattern_entry(name, p, base + i)] + rest
        } else {
            rest
        }
    }
}

/// The findings of a table of signatures in a chunk: signature after
/// signature in table order, each with all its occurrences.
pub open spec fn pattern_entries(c: Seq<u8>, base: int, patterns: Seq<Pattern>) -> Seq<EntryView>
    decreases patterns.len(),
{
    if patterns.len() == 0 {
        Seq::empty()
    } else {
        pattern_entries(c, base, patterns.drop_last()) + occurrences_from(
            c,
            base,
            patterns.last().name@,
            patterns.last().bytes@,
            0,
        )
    }
}

/// Every signature of the table has at least one byte.
pub open spec fn patterns_wf(patterns: Seq<Pattern>) -> bool {
    forall|k: int| 0 <= k < patterns.len() ==> (#[trigger] patterns[k]).bytes@.len() > 0
}

/// Positions without an occurrence contribute nothing.
proof fn lemma_skip_no_occurrence(
    c: Seq<u8>,
    base: int,
    name: Seq<char>,
    p: Seq<u8>,
    a: int,
    b: int,
)
    requires
        0 <= a <= b,
        forall|j: int| a <= j < b ==> !occurs_at(c, p, j),
    ensures
        occurrences_from(c, base, name, p, a) == occurrences_from(c, base, name, p, b),
    decreases b - a,
{
    if a < b {
        lemma_skip_no_occurrence(c, base, name, p, a + 1, b);
        if a > c.len() {
            assert(occurrences_from(c, base, name, p, b) == Seq::<EntryView>::empty());
        }
    }
}

/// An occurrence in the tail of a chunk is an occurrence in the chunk,
/// shifted by where the tail starts.
proof fn lemma_occurs_in_tail(c: Seq<u8>, p: Seq<u8>, start: int, j: int)
    requires
        0 <= start <= c.len(),
        0 <= j,
    ensures
        occurs_at(c.subrange(start, c.len() as int), p, j) == occurs_at(c, p, start + j),
{
    let tail = c.subrange(start, c.len() as int);
    if j + p.len() <= tail.len() {
        assert(tail.subrange(j, j + p.len()) =~= c.subrange(start + j, start + j + p.len()));
    }
}

/// Finds the occurrences of each signature in a chunk.
///
/// The signatures are taken in table order. For each, every position at
/// which its bytes stand in the chunk gives one entry, by ascending
/// position; the search resumes one byte after each match, so occurrences
/// that overlap are all found. The address is the position counted from
/// `chunk_offset`.
pub fn detect_patterns(chunk: &[u8], chunk_offset: usize, patterns: &[Pattern]) -> (results: Vec<
    ResultEntry,
>)
    requires
        patterns_wf(patterns@),
        chunk_offset + chunk@.len() <= usize::MAX,
    ensures
        entries_view(results@) == pattern_entries(chunk@, chunk_offset as int, patterns@),
{
    let mut results: Vec<ResultEntry> = Vec::new();
    let n: usize = chunk.len();
    let ghost c = chunk@;
    let ghost base = chunk_offset as int;
    let mut k: usize = 0;
    proof {
        assert(entries_view(results@) =~= Seq::<EntryView>::empty());
        assert(patterns@.take(0) =~= Seq::<Pattern>::empty());
    }
    while k < patterns.len()
        invariant
            n == chunk@.len(),
            c == chunk@,
            base == chunk_offset as int,
            patterns_wf(patterns@),
            chunk_offset + chunk@.len() <= usize::MAX,
            k <= patterns@.len(),
            entries_view(results@) == pattern_entries(c, base, patterns@.take(k as int)),
        decreases patterns@.len() - k,
    {
        let pattern = &patterns[k];
        let ghost name = pattern.name@;
        let ghost p = pattern.bytes@;
        let ghost before = entries_view(results@);
        let mut start: usize = 0;
        let mut searching: bool = true;
        proof {
            assert(patterns@[k as int].bytes@.len() > 0);
        }
        while searching
            invariant
                n == chunk@.len(),
                c == chunk@,
                base == chunk_offset as int,
                chunk_offset + chunk@.len() <= usize::MAX,
                name == pattern.name@,
                p == pattern.bytes@,
                p.len() > 0,
                start <= n,
                !searching ==> occurrences_from(c, base, name, p, start as int)
                    == Seq::<EntryView>::empty(),
                entries_view(results@) + occurrences_from(c, base, name, p, start as int)
                    == before + occurrences_from(c, base, name, p, 0),
            decreases n - start + (if searching { 1int } else { 0int }),
        {
            let tail = slice_subrange(chunk, start, n);
            match memmem_find(tail, pattern.bytes.as_slice()) {
                Some(pos) => {
                    proof {
                        assert forall|j: int| start <= j < start + pos implies !occurs_at(
                            c,
                            p,
                            j,
                        ) by {
                            lemma_occurs_in_tail(c, p, start as int, j - start);
                        }
                        lemma_occurs_in_tail(c, p, start as int, pos as int);
                        lemma_skip_no_occurrence(
                            c,
                            base,
                            name,
                            p,
                            start as int,
                            start as int + pos as int,
                        );
                    }
                    let mut content = String::from_str("Pattern '");
                    content.append(pattern.name.as_str());
                    content.append("'");
                    let entry = ResultEntry {
                        content,
                        address: chunk_offset + start + pos,
                        bytes: pattern.bytes.clone(),
                    };
                    proof {
                        lemma_entries_view_push(results@, entry);
                        assert(entry@ == pattern_entry(name, p, base + start + pos));
                        assert(entries_view(results@).push(entry@) + occurrences_from(
                            c,
                            base,
                            name,
                            p,
                            start + pos + 1,
                        ) =~= entries_view(results@) + occurrences_from(
                            c,
                            base,
                            name,
                            p,
                            start + pos,
                        ));
                    }
                    results.push(entry);
                    start = start + pos + 1;
                },
                None => {
                    proof {
                        assert forall|j: int| start <= j < n + 1 implies !occurs_at(c, p, j) by {
                            lemma_occurs_in_tail(c, p, start as int, j - start);
                        }
                        lemma_skip_no_occurrence(c, base, name, p, start as int, n as int + 1);
                    }
                    searching = false;
                },
            }
        }
        proof {
            assert(patterns@.take(k as int + 1).drop_last() =~= patterns@.take(k as int));
            assert(patterns@.take(k as int + 1).last() == patterns@[k as int]);
            assert(entries_view(results@) + Seq::<EntryView>::empty() =~= entries_view(results@));
        }
        k = k + 1;
    }
    proof {
        assert(patterns@.take(patterns@.len() as int) =~= patterns@);
    }
    results
}

/// Where the chunk that starts at `base` ends: `size` bytes on, or at the
/// buffer's end when fewer are left.
pub open spec fn chunk_end(len: int, base: int, size: int) -> int {
    if base + size < len {
        base + size
    } else {
        len
    }
}

/// The chunk of `buf` that starts at `base`.
pub open spec fn chunk_at(buf: Seq<u8>, base: int, size: int) -> Seq<u8> {
    buf.subrange(base, chunk_end(buf.len() as int, base, size))
}

/// The findings of the chunks that start at `base` and later. Each chunk is
/// scanned by itself: first its text runs, then its signatures. Nothing
/// that crosses from one chunk into the next is joined.
pub open spec fn scan_from(
    buf: Seq<u8>,
    patterns: Seq<Pattern>,
    size: int,
    min: int,
    base: int,
) -> Seq<EntryView>
    decreases buf.len() - base,
{
    if size <= 0 || base < 0 || base >= buf.len() {
        Seq::empty()
    } else {
        let chunk = chunk_at(buf, base, size);
        ascii_entries(chunk, base, min) + pattern_entries(chunk, base, patterns) + scan_from(
            buf,
            patterns,
            size,
            min,
            chunk_end(buf.len() as int, base, size),
        )
    }
}

/// The findings of a whole buffer.
pub open spec fn scan_entries(buf: Seq<u8>, patterns: Seq<Pattern>, size: int, min: int) -> Seq<
    EntryView,
> {
    scan_from(buf, patterns, size, min, 0)
}

/// How many text findings the chunks from `base` on hold.
pub open spec fn ascii_count_from(buf: Seq<u8>, size: int, min: int, base: int) -> int
    decreases buf.len() - base,
{
    if size <= 0 || base < 0 || base >= buf.len() {
        0
    } else {
        ascii_entries(chunk_at(buf, base, size), base, min).len() + ascii_count_from(
            buf,
            size,
            min,
            chunk_end(buf.len() as int, base, size),
        )
    }
}

/// How many signature findings the chunks from `base` on hold.
pub open spec fn pattern_count_from(buf: Seq<u8>, patterns: Seq<Pattern>, size: int, base: int) -> int
    decreases buf.len() - base,
{
    if size <= 0 || base < 0 || base >= buf.len() {
        0
    } else {
        pattern_entries(chunk_at(buf, base, size), base, patterns).len() + pattern_count_from(
            buf,
            patterns,
            size,
            chunk_end(buf.len() as int, base, size),
        )
    }
}

/// What the label of every signature finding starts with.
pub open spec fn pattern_prefix() -> Seq<char> {
    "Pattern '"@
}

/// What the label of every text finding starts with.
pub open spec fn text_prefix() -> Seq<char> {
    "ASCII String '"@
}

/// The text begins with the prefix.
pub open spec fn starts_with(text: Seq<char>, prefix: Seq<char>) -> bool {
    prefix.len() <= text.len() && text.subrange(0, prefix.len() as int) == prefix
}

/// How many of the findings have a label that begins with the prefix.
pub open spec fn count_labelled(entries: Seq<EntryView>, prefix: Seq<char>) -> int
    decreases entries.len(),
{
    if entries.len() == 0 {
        0
    } else {
        count_labelled(entries.drop_last(), prefix) + if starts_with(
            entries.last().content,
            prefix,
        ) {
            1int
        } else {
            0int
        }
    }
}

/// Scans a dump chunk by chunk.
///
/// The buffer is cut into consecutive chunks of `chunk_size` bytes, the
/// last one possibly shorter. The entries come chunk after chunk; within a
/// chunk the text runs stand before the signature matches. The summary
/// counts both classes, told apart by how their labels begin, and its
/// total is their sum.
pub fn analyze_dump(
    data: &[u8],
    patterns: &[Pattern],
    chunk_size: usize,
    min_string_length: usize,
) -> (r: (Vec<ResultEntry>, Summary))
    requires
        chunk_size > 0,
        min_string_length > 0,
        patterns_wf(patterns@),
    ensures
        entries_view(r.0@) == scan_entries(
            data@,
            patterns@,
            chunk_size as int,
            min_string_length as int,
        ),
        r.1.total_ascii_strings == ascii_count_from(
            data@,
            chunk_size as int,
            min_string_length as int,
            0,
        ),
        r.1.total_patterns == pattern_count_from(data@, patterns@, chunk_size as int, 0),
        r.1.total_patterns == count_labelled(entries_view(r.0@), pattern_prefix()),
        r.1.total_ascii_strings == count_labelled(entries_view(r.0@), text_prefix()),
        r.1.total_entries == r.0@.len(),
        r.1.total_entries == r.1.total_patterns + r.1.total_ascii_strings,
{
    let mut all_results: Vec<ResultEntry> = Vec::new();
    let mut pattern_count: usize = 0;
    let mut ascii_count: usize = 0;
    let n: usize = data.len();
    let mut base: usize = 0;
    let ghost buf = data@;
    let ghost size = chunk_size as int;
    let ghost min = min_string_length as int;
    proof {
        assert(entries_view(all_results@) =~= Seq::<EntryView>::empty());
    }
    while base < n
        invariant
            n == data@.len(),
            buf == data@,
            size == chunk_size as int,
            min == min_string_length as int,
            size > 0,
            min > 0,
            patterns_wf(patterns@),
            base <= n,
            ascii_count + pattern_count == all_results@.len(),
            entries_view(all_results@) + scan_from(buf, patterns@, size, min, base as int)
                == scan_entries(buf, patterns@, size, min),
            ascii_count + ascii_count_from(buf, size, min, base as int) == ascii_count_from(
                buf,
                size,
                min,
                0,
            ),
            pattern_count + pattern_count_from(buf, patterns@, size, base as int)
                == pattern_count_from(buf, patterns@, size, 0),
        decreases n - base,
    {
        let end: usize = if n - base > chunk_size {
            base + chunk_size
        } else {
            n
        };
        let chunk = slice_subrange(data, base, end);
        let mut ascii_results = find_ascii_strings(chunk, base, min_string_length);
        let mut pattern_results = detect_patterns(chunk, base, patterns);
        proof {
            assert(chunk@ == chunk_at(buf, base as int, size));
            lemma_entries_view_concat(all_results@, ascii_results@);
            lemma_entries_view_concat(all_results@ + ascii_results@, pattern_results@);
            assert(entries_view(ascii_results@).len() == ascii_results@.len());
            assert(entries_view(pattern_results@).len() == pattern_results@.len());
            assert(entries_view(all_results@ + ascii_results@ + pattern_results@) + scan_from(
                buf,
                patterns@,
                size,
                min,
                end as int,
            ) =~= entries_view(all_results@) + scan_from(buf, patterns@, size, min, base as int));
        }
        all_results.append(&mut ascii_results);
        ascii_count = all_results.len() - pattern_count;
        all_results.append(&mut pattern_results);
        pattern_count = all_results.len() - ascii_count;
        base = end;
    }
    let summary = Summary {
        total_entries: all_results.len(),
        total_patterns: pattern_count,
        total_ascii_strings: ascii_count,
    };
    proof {
        assert(entries_view(all_results@) + Seq::<EntryView>::empty() =~= entries_view(
            all_results@,
        ));
        lemma_counts_by_label(buf, patterns@, size, min, 0);
    }
    (all_results, summary)
}

} // verus!
