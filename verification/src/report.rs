//! Bounded, terminal-safe error reports.
//!
//! An error and its causes may come from anywhere, so the text of a report is
//! sanitized as it is written (each control character becomes `?`) and capped:
//! once the next character would not fit, the report stops, remembers that it
//! was cut, and ends with ` [truncated]`.

use vstd::prelude::*;
use vstd::string::StringExecFns;

use crate::packs::{char_is_control, has_control, is_control, push_char};
use crate::packs::format::texts;

verus! {

/// The most causes a report follows before it says that more were omitted.
pub const MAX_ERROR_CAUSES: usize = 8;
/// The most bytes of a report, its truncation marker included.
pub const MAX_ERROR_REPORT_BYTES: usize = 16384;
/// The bytes of the truncation marker.
pub const TRUNCATED_SUFFIX_BYTES: usize = 12;
/// The most bytes of text before the truncation marker.
pub const REPORT_PAYLOAD_LIMIT: usize = 16372;

pub open spec fn suffix_spec() -> Seq<char> {
    " [truncated]"@
}

/// The marker that ends a truncated report.
pub fn truncated_suffix() -> (r: &'static str)
    ensures
        r@ == suffix_spec(),
{
    " [truncated]"
}

/// The note that ends a report whose cause chain goes on past the causes shown.
pub fn omitted_causes_note() -> (r: &'static str)
    ensures
        r@ == ": additional causes omitted"@,
{
    ": additional causes omitted"
}

/// The bytes of a character in UTF-8.
pub open spec fn char_len(c: char) -> nat {
    if (c as u32) < 0x80 {
        1
    } else if (c as u32) < 0x800 {
        2
    } else if (c as u32) < 0x10000 {
        3
    } else {
        4
    }
}

/// The bytes of a text in UTF-8.
pub open spec fn text_len(s: Seq<char>) -> nat
    decreases s.len(),
{
    if s.len() == 0 {
        0
    } else {
        text_len(s.drop_last()) + char_len(s.last())
    }
}

/// A character as a report writes it.
pub open spec fn safe_char(c: char) -> char {
    if is_control(c) {
        '?'
    } else {
        c
    }
}

/// The first `k` characters of a text as a report writes them.
pub open spec fn safe_prefix(s: Seq<char>, k: int) -> Seq<char> {
    s.take(k).map_values(|c: char| safe_char(c))
}

/// Whether a report holding `text` can take the first `k` characters of `input`.
pub open spec fn fits(text: Seq<char>, input: Seq<char>, k: int) -> bool {
    text_len(text + safe_prefix(input, k)) <= REPORT_PAYLOAD_LIMIT
}

pub fn utf8_len(c: char) -> (r: usize)
    ensures
        r == char_len(c),
{
    let code = c as u32;
    if code < 0x80 {
        1
    } else if code < 0x800 {
        2
    } else if code < 0x10000 {
        3
    } else {
        4
    }
}

/// A report being written.
pub struct SafeErrorReport {
    text: String,
    bytes: usize,
    truncated: bool,
}

impl SafeErrorReport {
    pub closed spec fn text_view(&self) -> Seq<char> {
        self.text@
    }

    pub closed spec fn truncated_view(&self) -> bool {
        self.truncated
    }

    /// What every report keeps: its text is sanitized and within the payload limit.
    pub closed spec fn wf(&self) -> bool {
        &&& self.bytes == text_len(self.text@)
        &&& self.bytes <= REPORT_PAYLOAD_LIMIT
        &&& !has_control(self.text@)
    }

    /// An empty report.
    pub fn new() -> (r: Self)
        ensures
            r.wf(),
            r.text_view() == Seq::<char>::empty(),
            !r.truncated_view(),
    {
        let r = SafeErrorReport { text: String::new(), bytes: 0, truncated: false };
        assert(r.text@ =~= Seq::<char>::empty());
        r
    }

    /// Writes as much of `input` as fits, each control character as `?`.
    /// Returns whether all of it fit; if not, the report is marked truncated
    /// and keeps the longest prefix that fit.
    pub fn write_text(&mut self, input: &str) -> (r: bool)
        requires
            old(self).wf(),
        ensures
            final(self).wf(),
            ({
                let k = final(self).text_view().len() - old(self).text_view().len();
                &&& 0 <= k <= input@.len()
                &&& final(self).text_view() == old(self).text_view() + safe_prefix(input@, k)
                &&& r == (k == input@.len())
                &&& !r ==> !fits(old(self).text_view(), input@, k + 1)
            }),
            final(self).truncated_view() == (old(self).truncated_view() || !r),
    {
        broadcast use vstd::string::group_string_axioms;

        let ghost start = self.text@;
        let n = input.unicode_len();
        let mut i: usize = 0;
        let mut fitted = true;
        while fitted && i < n
            invariant
                n == input@.len(),
                i <= n,
                self.wf(),
                self.text@ == start + safe_prefix(input@, i as int),
                self.truncated == old(self).truncated,
                !fitted ==> i < n && !fits(start, input@, i + 1),
            decreases n - i + if fitted { 1int } else { 0int },
        {
            let character = input.get_char(i);
            let safe = if char_is_control(character) {
                '?'
            } else {
                character
            };
            let width = utf8_len(safe);
            proof {
                assert(safe_prefix(input@, i + 1) =~= safe_prefix(input@, i as int).push(safe));
                assert(start + safe_prefix(input@, i + 1) =~= self.text@.push(safe));
                assert((self.text@.push(safe)).drop_last() =~= self.text@);
                assert(text_len(self.text@.push(safe)) == text_len(self.text@) + char_len(safe));
            }
            if self.bytes > REPORT_PAYLOAD_LIMIT - width {
                fitted = false;
            } else {
                push_char(&mut self.text, safe);
                self.bytes = self.bytes + width;
                proof {
                    assert(!has_control(self.text@)) by {
                        assert forall|j: int| 0 <= j < self.text@.len() implies !is_control(#[trigger] self.text@[j]) by {
                            if j < self.text@.len() - 1 {
                                assert(self.text@[j] == (self.text@.drop_last())[j]);
                            }
                        }
                    }
                }
                i = i + 1;
            }
        }
        if !fitted {
            self.truncated = true;
        } else {
            assert(input@.take(n as int) =~= input@);
        }
        fitted
    }

    /// Whether any write did not fit.
    pub fn is_truncated(&self) -> (r: bool)
        ensures
            r == self.truncated_view(),
    {
        self.truncated
    }

    /// The finished report: its text, then ` [truncated]` if a write did not fit.
    /// It never holds a control character and never exceeds its byte limit.
    pub fn finish(self) -> (r: String)
        requires
            self.wf(),
        ensures
            r@ == if self.truncated_view() {
                self.text_view() + suffix_spec()
            } else {
                self.text_view()
            },
            text_len(r@) <= MAX_ERROR_REPORT_BYTES,
            !has_control(r@),
    {
        let mut text = self.text;
        if self.truncated {
            let ghost before = text@;
            text.append(truncated_suffix());
            proof {
                reveal_strlit(" [truncated]");
                lemma_text_len_append(before, suffix_spec());
                lemma_text_len_ascii(suffix_spec());
                assert forall|j: int| 0 <= j < text@.len() implies !is_control(#[trigger] text@[j]) by {
                    if j < before.len() {
                        assert(text@[j] == before[j]);
                    }
                }
            }
        }
        text
    }
}

/// A text of ASCII characters has a byte for each character.
pub proof fn lemma_text_len_ascii(s: Seq<char>)
    requires
        forall|i: int| 0 <= i < s.len() ==> (#[trigger] s[i] as u32) < 0x80,
    ensures
        text_len(s) == s.len(),
    decreases s.len(),
{
    if s.len() > 0 {
        lemma_text_len_ascii(s.drop_last());
    }
}

/// The bytes of two texts together are the bytes of each.
pub proof fn lemma_text_len_append(a: Seq<char>, b: Seq<char>)
    ensures
        text_len(a + b) == text_len(a) + text_len(b),
    decreases b.len(),
{
    if b.len() == 0 {
        assert(a + b =~= a);
    } else {
        lemma_text_len_append(a, b.drop_last());
        assert((a + b).drop_last() =~= a + b.drop_last());
        assert((a + b).last() == b.last());
    }
}

// ---------------------------------------------------------------------------
// A report of a failure and its causes
// ---------------------------------------------------------------------------

/// `: ` and each of the first `k` causes, in order.
pub open spec fn joined_causes(causes: Seq<Seq<char>>, k: int) -> Seq<char>
    decreases k,
{
    if k <= 0 {
        Seq::empty()
    } else {
        joined_causes(causes, k - 1) + ": "@ + causes[k - 1]
    }
}

/// The whole text of a failure's report before it is bounded: `error: ` and the
/// failure, then `: ` and each of at most eight causes, then a note when more
/// causes remain.
pub open spec fn report_text(head: Seq<char>, causes: Seq<Seq<char>>) -> Seq<char> {
    let shown = if causes.len() > MAX_ERROR_CAUSES { MAX_ERROR_CAUSES as int } else { causes.len() as int };
    "error: "@ + head + joined_causes(causes, shown) + if causes.len() > MAX_ERROR_CAUSES {
        ": additional causes omitted"@
    } else {
        Seq::<char>::empty()
    }
}

/// The longest length up to `k` whose sanitized prefix of `s` fits a report.
pub open spec fn fitting_len(s: Seq<char>, k: int) -> int
    decreases k,
{
    if k <= 0 {
        0
    } else if text_len(safe_prefix(s, k)) <= REPORT_PAYLOAD_LIMIT {
        k
    } else {
        fitting_len(s, k - 1)
    }
}

/// A text as a report holds it: the longest sanitized prefix that fits, and
/// ` [truncated]` after it when that is not the whole text.
pub open spec fn bounded_report(s: Seq<char>) -> Seq<char> {
    let k = fitting_len(s, s.len() as int);
    if k == s.len() {
        safe_prefix(s, k)
    } else {
        safe_prefix(s, k) + suffix_spec()
    }
}

/// A report that holds the longest fitting prefix of `done`, marked truncated
/// exactly when that prefix is not all of `done`.
spec fn holds_prefix(text: Seq<char>, truncated: bool, done: Seq<char>) -> bool {
    let k = text.len() as int;
    &&& k <= done.len()
    &&& text == safe_prefix(done, k)
    &&& text_len(text) <= REPORT_PAYLOAD_LIMIT
    &&& (k < done.len() ==> text_len(safe_prefix(done, k + 1)) > REPORT_PAYLOAD_LIMIT)
    &&& truncated == (k < done.len())
}

/// A sanitized prefix of a text followed by more is the prefix of the whole.
proof fn lemma_safe_prefix_append(a: Seq<char>, b: Seq<char>, j: int)
    requires
        0 <= j <= b.len(),
    ensures
        safe_prefix(a + b, a.len() + j) == safe_prefix(a, a.len() as int) + safe_prefix(b, j),
{
    assert(safe_prefix(a + b, a.len() + j) =~= safe_prefix(a, a.len() as int) + safe_prefix(b, j));
}

/// A longer sanitized prefix takes at least as many bytes.
proof fn lemma_prefix_len_grows(s: Seq<char>, j: int, k: int)
    requires
        0 <= j <= k <= s.len(),
    ensures
        text_len(safe_prefix(s, j)) <= text_len(safe_prefix(s, k)),
{
    let rest = s.subrange(j, k).map_values(|c: char| safe_char(c));
    assert(safe_prefix(s, k) =~= safe_prefix(s, j) + rest);
    lemma_text_len_append(safe_prefix(s, j), rest);
}

/// The fitting length is the length that fits while one more character does not.
proof fn lemma_fitting_len(s: Seq<char>, k: int, m: int)
    requires
        0 <= k <= m <= s.len(),
        text_len(safe_prefix(s, k)) <= REPORT_PAYLOAD_LIMIT,
        k < m ==> text_len(safe_prefix(s, k + 1)) > REPORT_PAYLOAD_LIMIT,
    ensures
        fitting_len(s, m) == k,
    decreases m,
{
    if m > k {
        lemma_prefix_len_grows(s, k + 1, m);
        lemma_fitting_len(s, k, m - 1);
    }
}

/// Writes one piece into a report that holds the fitting prefix of `done`.
fn write_piece(report: &mut SafeErrorReport, piece: &str, done: Ghost<Seq<char>>) -> (r: bool)
    requires
        old(report).wf(),
        holds_prefix(old(report).text_view(), old(report).truncated_view(), done@),
        old(report).text_view().len() == done@.len(),
    ensures
        final(report).wf(),
        holds_prefix(final(report).text_view(), final(report).truncated_view(), done@ + piece@),
        r == (final(report).text_view().len() == (done@ + piece@).len()),
{
    let ghost before = report.text_view();
    let r = report.write_text(piece);
    proof {
        let k = report.text_view().len() - before.len();
        let all = done@ + piece@;
        assert(safe_prefix(done@, done@.len() as int) == before);
        lemma_safe_prefix_append(done@, piece@, k);
        assert(safe_prefix(piece@, k).len() == k);
        if !r {
            lemma_safe_prefix_append(done@, piece@, k + 1);
        }
    }
    r
}

/// A prefix of a text agrees with the text on its own sanitized prefixes.
proof fn lemma_prefix_of(done: Seq<char>, all: Seq<char>, k: int)
    requires
        done.len() <= all.len(),
        all.subrange(0, done.len() as int) == done,
        0 <= k <= done.len(),
    ensures
        safe_prefix(all, k) == safe_prefix(done, k),
{
    assert(all.take(k) =~= done.take(k));
}

/// The causes joined so far lead the causes joined further on.
proof fn lemma_joined_prefix(causes: Seq<Seq<char>>, i: int, k: int)
    requires
        0 <= i <= k,
    ensures
        joined_causes(causes, k).subrange(0, joined_causes(causes, i).len() as int) == joined_causes(causes, i),
        joined_causes(causes, i).len() <= joined_causes(causes, k).len(),
    decreases k,
{
    if k > i {
        lemma_joined_prefix(causes, i, k - 1);
        let a = joined_causes(causes, k - 1);
        let b = joined_causes(causes, i);
        assert(joined_causes(causes, k) == a + ": "@ + causes[k - 1]);
        assert((a + ": "@ + causes[k - 1]).subrange(0, b.len() as int) =~= a.subrange(0, b.len() as int));
    }
}

/// The report of a failure and its causes: the failure, then each of at most
/// eight causes, then a note when more remain, sanitized and bounded.
pub fn compose_report(head: &str, causes: &[String]) -> (r: String)
    ensures
        r@ == bounded_report(report_text(head@, texts(causes@))),
        text_len(r@) <= MAX_ERROR_REPORT_BYTES,
        !has_control(r@),
{
    let ghost cs = texts(causes@);
    let ghost all = report_text(head@, cs);
    let shown: usize = if causes.len() > MAX_ERROR_CAUSES {
        MAX_ERROR_CAUSES
    } else {
        causes.len()
    };
    let ghost note: Seq<char> = if causes.len() > MAX_ERROR_CAUSES {
        ": additional causes omitted"@
    } else {
        Seq::<char>::empty()
    };
    let ghost lead = "error: "@ + head@;
    proof {
        reveal_strlit("error: ");
        reveal_strlit(": ");
        reveal_strlit(": additional causes omitted");
        assert(all == lead + joined_causes(cs, shown as int) + note);
    }
    let mut report = SafeErrorReport::new();
    let ghost mut done: Seq<char> = Seq::empty();
    proof {
        assert(safe_prefix(done, 0) =~= Seq::<char>::empty());
        assert(text_len(Seq::<char>::empty()) == 0);
    }
    let mut complete = write_piece(&mut report, "error: ", Ghost(done));
    proof {
        done = done + "error: "@;
    }
    if complete {
        complete = write_piece(&mut report, head, Ghost(done));
        proof {
            done = done + head@;
        }
    }
    proof {
        assert(done.len() <= lead.len() && lead.subrange(0, done.len() as int) =~= done);
        assert(complete ==> done =~= lead);
        assert(joined_causes(cs, 0) =~= Seq::<char>::empty());
    }
    let mut i: usize = 0;
    while complete && i < shown
        invariant
            report.wf(),
            holds_prefix(report.text_view(), report.truncated_view(), done),
            complete == (report.text_view().len() == done.len()),
            i <= shown,
            shown <= causes@.len(),
            shown == if causes@.len() > MAX_ERROR_CAUSES { MAX_ERROR_CAUSES as int } else { causes@.len() as int },
            cs == texts(causes@),
            all == lead + joined_causes(cs, shown as int) + note,
            complete ==> done == lead + joined_causes(cs, i as int),
            !complete ==> done.len() <= all.len() && all.subrange(0, done.len() as int) == done,
        decreases shown - i + if complete { 1int } else { 0int },
    {
        let ghost base = done;
        proof {
            lemma_joined_prefix(cs, i as int + 1, shown as int);
            lemma_joined_prefix(cs, i as int, shown as int);
        }
        complete = write_piece(&mut report, ": ", Ghost(done));
        proof {
            done = done + ": "@;
        }
        if complete {
            complete = write_piece(&mut report, causes[i].as_str(), Ghost(done));
            proof {
                assert(causes@[i as int]@ == cs[i as int]);
                done = done + cs[i as int];
            }
        }
        proof {
            let next = joined_causes(cs, i + 1);
            assert(next == joined_causes(cs, i as int) + ": "@ + cs[i as int]);
            assert(base + ": "@ + cs[i as int] == lead + next);
            if !complete {
                let j = joined_causes(cs, shown as int);
                assert(j.subrange(0, next.len() as int) == next);
                assert(all.subrange(0, (lead + next).len() as int) =~= lead + next);
                assert((lead + next).subrange(0, done.len() as int) =~= done);
                assert(all.subrange(0, done.len() as int) =~= done);
            }
        }
        i = i + 1;
    }
    if complete && causes.len() > MAX_ERROR_CAUSES {
        let _written = write_piece(&mut report, omitted_causes_note(), Ghost(done));
        proof {
            done = done + note;
        }
    }
    proof {
        if complete {
            assert(i == shown);
            assert(done =~= all);
        } else {
            if report.text_view().len() == done.len() {
                assert(done =~= all);
            }
        }
        let k = report.text_view().len() as int;
        assert(done.len() <= all.len() && all.subrange(0, done.len() as int) =~= done);
        lemma_prefix_of(done, all, k);
        if k < done.len() {
            lemma_prefix_of(done, all, k + 1);
        } else {
            assert(done =~= all);
        }
        lemma_fitting_len(all, k, all.len() as int);
    }
    report.finish()
}

} // verus!
