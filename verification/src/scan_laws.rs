//! Laws of the detection engine, proved from its definitions.

use vstd::prelude::*;
use crate::entry::EntryView;
use crate::entry::Pattern;
use crate::scan::is_printable;
use crate::scan::run_end;
use crate::scan::is_run_start;
use crate::scan::ascii_entry;
use crate::scan::ascii_entries_from;
use crate::scan::ascii_entries;
use crate::scan::occurs_at;
use crate::scan::pattern_entry;
use crate::scan::occurrences_from;
use crate::scan::pattern_entries;
use crate::scan::chunk_at;
use crate::scan::chunk_end;
use crate::scan::scan_from;
use crate::scan::scan_entries;
use crate::scan::ascii_count_from;
use crate::scan::pattern_count_from;
use crate::scan::pattern_label;
use crate::scan::ascii_label;
use crate::scan::pattern_prefix;
use crate::scan::text_prefix;
use crate::scan::starts_with;
use crate::scan::count_labelled;

verus! {

/// A run is maximal: from its start to where it stops every byte is text,
/// and it stops at the chunk's end or before a byte that is no text.
pub proof fn lemma_run_end_is_maximal(c: Seq<u8>, i: int)
    requires
        0 <= i <= c.len(),
    ensures
        i <= run_end(c, i) <= c.len(),
        forall|k: int| i <= k < run_end(c, i) ==> is_printable(#[trigger] c[k]),
        run_end(c, i) < c.len() ==> !is_printable(c[run_end(c, i)]),
    decreases c.len() - i,
{
    if i < c.len() && is_printable(c[i]) {
        lemma_run_end_is_maximal(c, i + 1);
    }
}

/// `[s, e)` is a maximal run of text of at least `min` bytes.
pub open spec fn is_reported_run(c: Seq<u8>, min: int, s: int, e: int) -> bool {
    is_run_start(c, s) && e == run_end(c, s) && e - s >= min
}

/// Every text finding of a chunk is a maximal run of at least `min`
/// bytes: shorter runs give no finding.
pub proof fn lemma_ascii_entries_sound(c: Seq<u8>, base: int, min: int, i: int, k: int)
    requires
        0 <= i,
        0 <= k < ascii_entries_from(c, base, min, i).len(),
    ensures
        exists|s: int|
            i <= s && is_reported_run(c, min, s, run_end(c, s)) && ascii_entries_from(
                c,
                base,
                min,
                i,
            )[k] == #[trigger] ascii_entry(c, base, s, run_end(c, s)),
    decreases c.len() - i,
{
    if i < c.len() {
        let rest = ascii_entries_from(c, base, min, i + 1);
        if is_run_start(c, i) && run_end(c, i) - i >= min {
            if k == 0 {
                assert(is_reported_run(c, min, i, run_end(c, i)));
                assert(ascii_entries_from(c, base, min, i)[k] == ascii_entry(
                    c,
                    base,
                    i,
                    run_end(c, i),
                ));
            } else {
                lemma_ascii_entries_sound(c, base, min, i + 1, k - 1);
                let s = choose|s: int|
                    i + 1 <= s && is_reported_run(c, min, s, run_end(c, s)) && rest[k - 1]
                        == #[trigger] ascii_entry(c, base, s, run_end(c, s));
                assert(ascii_entries_from(c, base, min, i)[k] == ascii_entry(
                    c,
                    base,
                    s,
                    run_end(c, s),
                ));
            }
        } else {
            lemma_ascii_entries_sound(c, base, min, i + 1, k);
            let s = choose|s: int|
                i + 1 <= s && is_reported_run(c, min, s, run_end(c, s)) && rest[k]
                    == #[trigger] ascii_entry(c, base, s, run_end(c, s));
            assert(ascii_entries_from(c, base, min, i)[k] == ascii_entry(
                c,
                base,
                s,
                run_end(c, s),
            ));
        }
    }
}

/// Every maximal run of at least `min` bytes is among the text findings of
/// its chunk, with the run's bytes and its start as the address.
pub proof fn lemma_ascii_entries_complete(c: Seq<u8>, base: int, min: int, i: int, s: int)
    requires
        0 <= i <= s,
        is_reported_run(c, min, s, run_end(c, s)),
    ensures
        ascii_entries_from(c, base, min, i).contains(ascii_entry(c, base, s, run_end(c, s))),
    decreases s - i,
{
    let all = ascii_entries_from(c, base, min, i);
    let rest = ascii_entries_from(c, base, min, i + 1);
    let target = ascii_entry(c, base, s, run_end(c, s));
    if i == s {
        assert(all[0] == target);
    } else {
        lemma_ascii_entries_complete(c, base, min, i + 1, s);
        let k = choose|k: int| 0 <= k < rest.len() && rest[k] == target;
        if is_run_start(c, i) && run_end(c, i) - i >= min {
            assert(all[k + 1] == target);
        } else {
            assert(all[k] == target);
        }
    }
}

/// Every position at which a signature stands in a chunk gives a finding
/// for it, at that position counted from the chunk's base.
pub proof fn lemma_occurrence_is_found(
    c: Seq<u8>,
    base: int,
    name: Seq<char>,
    p: Seq<u8>,
    i: int,
    j: int,
)
    requires
        0 <= i <= j,
        occurs_at(c, p, j),
    ensures
        occurrences_from(c, base, name, p, i).contains(pattern_entry(name, p, base + j)),
    decreases j - i,
{
    let all = occurrences_from(c, base, name, p, i);
    let rest = occurrences_from(c, base, name, p, i + 1);
    let target = pattern_entry(name, p, base + j);
    if i == j {
        assert(all[0] == target);
    } else {
        lemma_occurrence_is_found(c, base, name, p, i + 1, j);
        let k = choose|k: int| 0 <= k < rest.len() && rest[k] == target;
        if occurs_at(c, p, i) {
            assert(all[k + 1] == target);
        } else {
            assert(all[k] == target);
        }
    }
}

/// Every finding of a signature stands where the signature's bytes stand
/// in the chunk.
pub proof fn lemma_found_is_occurrence(
    c: Seq<u8>,
    base: int,
    name: Seq<char>,
    p: Seq<u8>,
    i: int,
    k: int,
)
    requires
        0 <= i,
        0 <= k < occurrences_from(c, base, name, p, i).len(),
    ensures
        exists|j: int|
            i <= j && #[trigger] occurs_at(c, p, j) && occurrences_from(c, base, name, p, i)[k]
                == pattern_entry(name, p, base + j),
    decreases c.len() + 1 - i,
{
    if i <= c.len() {
        let rest = occurrences_from(c, base, name, p, i + 1);
        if occurs_at(c, p, i) {
            if k == 0 {
                assert(occurrences_from(c, base, name, p, i)[k] == pattern_entry(
                    name,
                    p,
                    base + i,
                ));
            } else {
                lemma_found_is_occurrence(c, base, name, p, i + 1, k - 1);
                let j = choose|j: int|
                    i + 1 <= j && #[trigger] occurs_at(c, p, j) && rest[k - 1] == pattern_entry(
                        name,
                        p,
                        base + j,
                    );
                assert(occurrences_from(c, base, name, p, i)[k] == pattern_entry(
                    name,
                    p,
                    base + j,
                ));
            }
        } else {
            lemma_found_is_occurrence(c, base, name, p, i + 1, k);
            let j = choose|j: int|
                i + 1 <= j && #[trigger] occurs_at(c, p, j) && rest[k] == pattern_entry(
                    name,
                    p,
                    base + j,
                );
            assert(occurrences_from(c, base, name, p, i)[k] == pattern_entry(name, p, base + j));
        }
    }
}

/// Every occurrence of every signature of the table is among the
/// signature findings of the chunk.
pub proof fn lemma_table_occurrence_is_found(
    c: Seq<u8>,
    base: int,
    patterns: Seq<Pattern>,
    k: int,
    j: int,
)
    requires
        0 <= k < patterns.len(),
        occurs_at(c, patterns[k].bytes@, j),
    ensures
        pattern_entries(c, base, patterns).contains(
            pattern_entry(patterns[k].name@, patterns[k].bytes@, base + j),
        ),
    decreases patterns.len(),
{
    let target = pattern_entry(patterns[k].name@, patterns[k].bytes@, base + j);
    let front = pattern_entries(c, base, patterns.drop_last());
    let tail = occurrences_from(c, base, patterns.last().name@, patterns.last().bytes@, 0);
    if k == patterns.len() - 1 {
        lemma_occurrence_is_found(c, base, patterns[k].name@, patterns[k].bytes@, 0, j);
        let w = choose|w: int| 0 <= w < tail.len() && tail[w] == target;
        assert((front + tail)[front.len() + w] == target);
    } else {
        assert(patterns.drop_last()[k] == patterns[k]);
        lemma_table_occurrence_is_found(c, base, patterns.drop_last(), k, j);
        let w = choose|w: int| 0 <= w < front.len() && front[w] == target;
        assert((front + tail)[w] == target);
    }
}

/// A buffer that fits one chunk is scanned as that one chunk: its text
/// runs, then its signatures, with addresses counted from zero.
pub proof fn lemma_single_chunk(buf: Seq<u8>, patterns: Seq<Pattern>, size: int, min: int)
    requires
        size > 0,
        0 < buf.len() <= size,
    ensures
        scan_entries(buf, patterns, size, min) == ascii_entries(buf, 0, min) + pattern_entries(
            buf,
            0,
            patterns,
        ),
{
    assert(chunk_at(buf, 0, size) =~= buf);
    assert(scan_from(buf, patterns, size, min, buf.len() as int) == Seq::<EntryView>::empty());
    assert(scan_entries(buf, patterns, size, min) =~= ascii_entries(buf, 0, min) + pattern_entries(
        buf,
        0,
        patterns,
    ));
}

/// For every chunk size the findings are as many as the text findings and
/// the signature findings together, and neither count is negative.
pub proof fn lemma_totals_add_up(
    buf: Seq<u8>,
    patterns: Seq<Pattern>,
    size: int,
    min: int,
    base: int,
)
    ensures
        scan_from(buf, patterns, size, min, base).len() == ascii_count_from(buf, size, min, base)
            + pattern_count_from(buf, patterns, size, base),
        ascii_count_from(buf, size, min, base) >= 0,
        pattern_count_from(buf, patterns, size, base) >= 0,
    decreases buf.len() - base,
{
    if !(size <= 0 || base < 0 || base >= buf.len()) {
        lemma_totals_add_up(buf, patterns, size, min, chunk_end(buf.len() as int, base, size));
    }
}

/// `b` is where a chunk starts when the buffer is cut into chunks of
/// `size` bytes.
pub open spec fn is_chunk_start(len: int, size: int, b: int) -> bool {
    size > 0 && 0 <= b < len && b % size == 0
}

/// `all` is `before`, then `piece`, then `after`.
pub open spec fn is_split(
    all: Seq<EntryView>,
    before: Seq<EntryView>,
    piece: Seq<EntryView>,
    after: Seq<EntryView>,
) -> bool {
    all == before + (piece + after)
}

/// The findings of every chunk are part of the findings of the buffer, in
/// one piece: the scan of the buffer from an earlier chunk on holds them
/// after some findings and before some others.
pub proof fn lemma_chunk_findings_are_kept(
    buf: Seq<u8>,
    patterns: Seq<Pattern>,
    size: int,
    min: int,
    base: int,
    b: int,
)
    requires
        is_chunk_start(buf.len() as int, size, base),
        is_chunk_start(buf.len() as int, size, b),
        base <= b,
    ensures
        exists|before: Seq<EntryView>, after: Seq<EntryView>| #[trigger]
            is_split(
                scan_from(buf, patterns, size, min, base),
                before,
                ascii_entries(chunk_at(buf, b, size), b, min) + pattern_entries(
                    chunk_at(buf, b, size),
                    b,
                    patterns,
                ),
                after,
            ),
    decreases b - base,
{
    let own = ascii_entries(chunk_at(buf, base, size), base, min) + pattern_entries(
        chunk_at(buf, base, size),
        base,
        patterns,
    );
    let next = chunk_end(buf.len() as int, base, size);
    let rest = scan_from(buf, patterns, size, min, next);
    let target = ascii_entries(chunk_at(buf, b, size), b, min) + pattern_entries(
        chunk_at(buf, b, size),
        b,
        patterns,
    );
    if base == b {
        let before = Seq::<EntryView>::empty();
        assert(scan_from(buf, patterns, size, min, base) =~= before + (target + rest));
        assert(is_split(scan_from(buf, patterns, size, min, base), before, target, rest));
    } else {
        assert(base + size <= b) by (nonlinear_arith)
            requires
                size > 0,
                base % size == 0,
                b % size == 0,
                base < b,
        ;
        assert((base + size) % size == 0) by (nonlinear_arith)
            requires
                size > 0,
                base % size == 0,
        ;
        lemma_chunk_findings_are_kept(buf, patterns, size, min, next, b);
        let (before, after) = choose|before: Seq<EntryView>, after: Seq<EntryView>| #[trigger]
            is_split(rest, before, target, after);
        assert(scan_from(buf, patterns, size, min, base) =~= (own + before) + (target + after));
        assert(is_split(
            scan_from(buf, patterns, size, min, base),
            own + before,
            target,
            after,
        ));
    }
}

/// A signature that stands wholly inside one chunk is found, at its
/// offset in the buffer: `j` is the offset within the chunk that starts at
/// `b`.
pub proof fn lemma_signature_inside_chunk_is_found(
    buf: Seq<u8>,
    patterns: Seq<Pattern>,
    size: int,
    min: int,
    b: int,
    k: int,
    j: int,
)
    requires
        is_chunk_start(buf.len() as int, size, b),
        0 <= k < patterns.len(),
        occurs_at(chunk_at(buf, b, size), patterns[k].bytes@, j),
    ensures
        scan_entries(buf, patterns, size, min).contains(
            pattern_entry(patterns[k].name@, patterns[k].bytes@, b + j),
        ),
{
    let chunk = chunk_at(buf, b, size);
    let target = pattern_entry(patterns[k].name@, patterns[k].bytes@, b + j);
    let texts = ascii_entries(chunk, b, min);
    let found = pattern_entries(chunk, b, patterns);
    lemma_table_occurrence_is_found(chunk, b, patterns, k, j);
    let w = choose|w: int| 0 <= w < found.len() && found[w] == target;
    assert(0int % size == 0) by (nonlinear_arith)
        requires
            size > 0,
    ;
    lemma_chunk_findings_are_kept(buf, patterns, size, min, 0, b);
    let (before, after) = choose|before: Seq<EntryView>, after: Seq<EntryView>| #[trigger]
        is_split(scan_from(buf, patterns, size, min, 0), before, texts + found, after);
    let all = before + (texts + found + after);
    assert(all[before.len() + texts.len() + w] == target);
}

/// A maximal run of text of at least `min` bytes inside one chunk is
/// found, with its start in the buffer as the address: `s` is the start
/// within the chunk that starts at `b`. The run is maximal within the
/// chunk; text that goes on into the next chunk is cut at the boundary.
pub proof fn lemma_run_inside_chunk_is_found(
    buf: Seq<u8>,
    patterns: Seq<Pattern>,
    size: int,
    min: int,
    b: int,
    s: int,
)
    requires
        is_chunk_start(buf.len() as int, size, b),
        is_reported_run(chunk_at(buf, b, size), min, s, run_end(chunk_at(buf, b, size), s)),
    ensures
        scan_entries(buf, patterns, size, min).contains(
            ascii_entry(chunk_at(buf, b, size), b, s, run_end(chunk_at(buf, b, size), s)),
        ),
{
    let chunk = chunk_at(buf, b, size);
    let target = ascii_entry(chunk, b, s, run_end(chunk, s));
    let texts = ascii_entries(chunk, b, min);
    let found = pattern_entries(chunk, b, patterns);
    lemma_ascii_entries_complete(chunk, b, min, 0, s);
    let w = choose|w: int| 0 <= w < texts.len() && texts[w] == target;
    assert(0int % size == 0) by (nonlinear_arith)
        requires
            size > 0,
    ;
    lemma_chunk_findings_are_kept(buf, patterns, size, min, 0, b);
    let (before, after) = choose|before: Seq<EntryView>, after: Seq<EntryView>| #[trigger]
        is_split(scan_from(buf, patterns, size, min, 0), before, texts + found, after);
    let all = before + (texts + found + after);
    assert(all[before.len() + w] == target);
}

/// A signature label begins as signature labels do and not as text labels
/// do, and a text label the other way round.
pub proof fn lemma_label_classes(name: Seq<char>, bytes: Seq<u8>)
    ensures
        starts_with(pattern_label(name), pattern_prefix()),
        !starts_with(pattern_label(name), text_prefix()),
        starts_with(ascii_label(bytes), text_prefix()),
        !starts_with(ascii_label(bytes), pattern_prefix()),
{
    reveal_strlit("Pattern '");
    reveal_strlit("ASCII String '");
    let p = pattern_label(name);
    let t = ascii_label(bytes);
    assert(p.subrange(0, pattern_prefix().len() as int) =~= pattern_prefix());
    assert(t.subrange(0, text_prefix().len() as int) =~= text_prefix());
    assert(p[0] == 'P');
    assert(t[0] == 'A');
    if starts_with(p, text_prefix()) {
        assert(p.subrange(0, text_prefix().len() as int)[0] == 'A');
    }
    if starts_with(t, pattern_prefix()) {
        assert(t.subrange(0, pattern_prefix().len() as int)[0] == 'P');
    }
}

/// The label of every finding begins with `yes` and with none does it
/// begin with `no`.
pub open spec fn all_of_class(entries: Seq<EntryView>, yes: Seq<char>, no: Seq<char>) -> bool {
    forall|k: int|
        0 <= k < entries.len() ==> starts_with((#[trigger] entries[k]).content, yes)
            && !starts_with(entries[k].content, no)
}

/// Counting by label over findings of one class gives all of them for that
/// class and none for the other.
proof fn lemma_count_of_one_class(entries: Seq<EntryView>, yes: Seq<char>, no: Seq<char>)
    requires
        all_of_class(entries, yes, no),
    ensures
        count_labelled(entries, yes) == entries.len(),
        count_labelled(entries, no) == 0,
    decreases entries.len(),
{
    if entries.len() > 0 {
        let front = entries.drop_last();
        assert(forall|k: int| 0 <= k < front.len() ==> front[k] == entries[k]);
        lemma_count_of_one_class(front, yes, no);
        assert(entries.last() == entries[entries.len() - 1]);
    }
}

/// Counting by label over two stretches of findings adds up.
proof fn lemma_count_concat(a: Seq<EntryView>, b: Seq<EntryView>, prefix: Seq<char>)
    ensures
        count_labelled(a + b, prefix) == count_labelled(a, prefix) + count_labelled(b, prefix),
    decreases b.len(),
{
    if b.len() == 0 {
        assert(a + b =~= a);
    } else {
        assert((a + b).drop_last() =~= a + b.drop_last());
        assert((a + b).last() == b.last());
        lemma_count_concat(a, b.drop_last(), prefix);
    }
}

/// Every text finding of a chunk carries a text label.
pub proof fn lemma_ascii_entries_class(c: Seq<u8>, base: int, min: int)
    ensures
        all_of_class(ascii_entries(c, base, min), text_prefix(), pattern_prefix()),
{
    let all = ascii_entries(c, base, min);
    assert forall|k: int| 0 <= k < all.len() implies starts_with(
        (#[trigger] all[k]).content,
        text_prefix(),
    ) && !starts_with(all[k].content, pattern_prefix()) by {
        lemma_ascii_entries_sound(c, base, min, 0, k);
        let s = choose|s: int|
            0 <= s && is_reported_run(c, min, s, run_end(c, s)) && all[k] == #[trigger] ascii_entry(
                c,
                base,
                s,
                run_end(c, s),
            );
        lemma_label_classes(Seq::empty(), c.subrange(s, run_end(c, s)));
    }
}

/// Every signature finding of a chunk carries a signature label.
pub proof fn lemma_pattern_entries_class(c: Seq<u8>, base: int, patterns: Seq<Pattern>)
    ensures
        all_of_class(pattern_entries(c, base, patterns), pattern_prefix(), text_prefix()),
    decreases patterns.len(),
{
    if patterns.len() > 0 {
        let front = pattern_entries(c, base, patterns.drop_last());
        let name = patterns.last().name@;
        let p = patterns.last().bytes@;
        let tail = occurrences_from(c, base, name, p, 0);
        let all = pattern_entries(c, base, patterns);
        lemma_pattern_entries_class(c, base, patterns.drop_last());
        lemma_label_classes(name, p);
        assert forall|k: int| 0 <= k < all.len() implies starts_with(
            (#[trigger] all[k]).content,
            pattern_prefix(),
        ) && !starts_with(all[k].content, text_prefix()) by {
            if k < front.len() {
                assert(all[k] == front[k]);
            } else {
                let w = k - front.len();
                assert(all[k] == tail[w]);
                lemma_found_is_occurrence(c, base, name, p, 0, w);
            }
        }
    }
}

/// The two counts of a scan are the numbers of findings whose labels begin
/// as signature labels and as text labels do.
pub proof fn lemma_counts_by_label(
    buf: Seq<u8>,
    patterns: Seq<Pattern>,
    size: int,
    min: int,
    base: int,
)
    ensures
        count_labelled(scan_from(buf, patterns, size, min, base), pattern_prefix())
            == pattern_count_from(buf, patterns, size, base),
        count_labelled(scan_from(buf, patterns, size, min, base), text_prefix())
            == ascii_count_from(buf, size, min, base),
    decreases buf.len() - base,
{
    if !(size <= 0 || base < 0 || base >= buf.len()) {
        let chunk = chunk_at(buf, base, size);
        let texts = ascii_entries(chunk, base, min);
        let found = pattern_entries(chunk, base, patterns);
        let rest = scan_from(buf, patterns, size, min, chunk_end(buf.len() as int, base, size));
        lemma_counts_by_label(buf, patterns, size, min, chunk_end(buf.len() as int, base, size));
        lemma_ascii_entries_class(chunk, base, min);
        lemma_pattern_entries_class(chunk, base, patterns);
        lemma_count_of_one_class(texts, text_prefix(), pattern_prefix());
        lemma_count_of_one_class(found, pattern_prefix(), text_prefix());
        lemma_count_concat(texts, found, pattern_prefix());
        lemma_count_concat(texts, found, text_prefix());
        lemma_count_concat(texts + found, rest, pattern_prefix());
        lemma_count_concat(texts + found, rest, text_prefix());
    }
}

/// Every finding of a scan is of exactly one class: its label begins as a
/// signature label or as a text label does, never as both.
pub proof fn lemma_every_finding_has_one_class(
    buf: Seq<u8>,
    patterns: Seq<Pattern>,
    size: int,
    min: int,
    base: int,
    k: int,
)
    requires
        0 <= k < scan_from(buf, patterns, size, min, base).len(),
    ensures
        starts_with(scan_from(buf, patterns, size, min, base)[k].content, pattern_prefix())
            != starts_with(scan_from(buf, patterns, size, min, base)[k].content, text_prefix()),
    decreases buf.len() - base,
{
    if !(size <= 0 || base < 0 || base >= buf.len()) {
        let chunk = chunk_at(buf, base, size);
        let texts = ascii_entries(chunk, base, min);
        let found = pattern_entries(chunk, base, patterns);
        let rest = scan_from(buf, patterns, size, min, chunk_end(buf.len() as int, base, size));
        let all = scan_from(buf, patterns, size, min, base);
        lemma_ascii_entries_class(chunk, base, min);
        lemma_pattern_entries_class(chunk, base, patterns);
        if k < texts.len() {
            assert(all[k] == texts[k]);
        } else if k < texts.len() + found.len() {
            assert(all[k] == found[k - texts.len()]);
        } else {
            assert(all[k] == rest[k - texts.len() - found.len()]);
            lemma_every_finding_has_one_class(
                buf,
                patterns,
                size,
                min,
                chunk_end(buf.len() as int, base, size),
                k - texts.len() - found.len(),
            );
        }
    }
}

} // verus!
