//! Timestamp-delimited segmentation of raw log text.
//!
//! A record boundary is a fixed-shape timestamp token
//! `[YYYY-MM-DD HH:MM:SS]` appearing anywhere, also several times on
//! one line. Scanning is strictly forward and single-pass: every
//! occurrence starts a new record, and all text between the end of one
//! token and the start of the next — across line breaks, which are
//! preserved as single `'\n'` separators — belongs to the body of the
//! record the earlier token started, trimmed of leading and trailing
//! whitespace. Text before the first token of the whole text is
//! discarded, and a text with no token yields no records.

use vstd::prelude::*;

verus! {

/// Length in characters of the timestamp token `[YYYY-MM-DD HH:MM:SS]`.
pub const STAMP_LEN: usize = 21;

/// A decimal digit.
pub open spec fn is_digit_char(c: char) -> bool {
    '0' <= c && c <= '9'
}

/// What the character at position `j` of a timestamp token must be:
/// brackets around the token, `-` between the date fields, a space
/// between date and time, `:` between the time fields, digits elsewhere.
pub open spec fn stamp_char_ok(j: int, c: char) -> bool {
    if j == 0 {
        c == '['
    } else if j == 5 || j == 8 {
        c == '-'
    } else if j == 11 {
        c == ' '
    } else if j == 14 || j == 17 {
        c == ':'
    } else if j == 20 {
        c == ']'
    } else {
        is_digit_char(c)
    }
}

/// A timestamp token starts at position `i` of `line`.
pub open spec fn stamp_at(line: Seq<char>, i: int) -> bool {
    &&& 0 <= i
    &&& i + STAMP_LEN <= line.len()
    &&& forall|j: int| 0 <= j < STAMP_LEN ==> stamp_char_ok(j, #[trigger] line[i + j])
}

/// The leftmost position at or after `i` where a timestamp token starts.
pub open spec fn first_stamp_from(line: Seq<char>, i: int) -> Option<int>
    decreases line.len() - i,
{
    if i < 0 || i + STAMP_LEN > line.len() {
        None
    } else if stamp_at(line, i) {
        Some(i)
    } else {
        first_stamp_from(line, i + 1)
    }
}

/// The leftmost position where a timestamp token starts in `line`.
pub open spec fn first_stamp(line: Seq<char>) -> Option<int> {
    first_stamp_from(line, 0)
}

fn stamp_char_matches(j: usize, c: char) -> (r: bool)
    requires
        j < STAMP_LEN,
    ensures
        r == stamp_char_ok(j as int, c),
{
    if j == 0 {
        c == '['
    } else if j == 5 || j == 8 {
        c == '-'
    } else if j == 11 {
        c == ' '
    } else if j == 14 || j == 17 {
        c == ':'
    } else if j == 20 {
        c == ']'
    } else {
        '0' <= c && c <= '9'
    }
}

fn stamp_matches_at(line: &str, n: usize, i: usize) -> (r: bool)
    requires
        n == line@.len(),
        i + STAMP_LEN <= n,
    ensures
        r == stamp_at(line@, i as int),
{
    let mut j: usize = 0;
    while j < STAMP_LEN
        invariant
            n == line@.len(),
            i + STAMP_LEN <= n,
            j <= STAMP_LEN,
            forall|k: int| 0 <= k < j ==> stamp_char_ok(k, #[trigger] line@[i + k]),
        decreases STAMP_LEN - j,
    {
        let c = line.get_char(i + j);
        if !stamp_char_matches(j, c) {
            assert(!stamp_char_ok(j as int, line@[i + j]));
            return false;
        }
        j = j + 1;
    }
    true
}

/// The positions of all timestamp tokens in `line` at or after `i`,
/// left to right: the forward scan takes each token it meets and
/// resumes past its end. Tokens cannot overlap (nothing inside a token
/// is a `[`), so this is every occurrence.
pub open spec fn stamp_positions_from(line: Seq<char>, i: int) -> Seq<int>
    decreases line.len() - i,
{
    if i < 0 || i + STAMP_LEN > line.len() {
        Seq::empty()
    } else if stamp_at(line, i) {
        seq![i] + stamp_positions_from(line, i + STAMP_LEN)
    } else {
        stamp_positions_from(line, i + 1)
    }
}

/// The positions of all timestamp tokens in `line`, left to right.
pub open spec fn stamp_positions(line: Seq<char>) -> Seq<int> {
    stamp_positions_from(line, 0)
}

/// Two timestamp tokens never overlap: no character inside a token is
/// a `[`, so a second token can only start past the first one's end.
pub proof fn lemma_stamps_disjoint(line: Seq<char>, i: int, j: int)
    requires
        stamp_at(line, i),
        stamp_at(line, j),
        i < j,
    ensures
        i + STAMP_LEN <= j,
{
    if j < i + STAMP_LEN {
        let d = j - i;
        assert(line[i + d] == line[j + 0]);
        assert(stamp_char_ok(d, line[i + d]));
        assert(stamp_char_ok(0, line[j + 0]));
    }
}

/// Every found position carries a token, lies at or after the scan
/// start, and leaves a full token's distance to the next one.
proof fn lemma_positions_sound(line: Seq<char>, i: int)
    ensures
        forall|k: int|
            0 <= k < stamp_positions_from(line, i).len() ==> stamp_at(
                line,
                #[trigger] stamp_positions_from(line, i)[k],
            ) && stamp_positions_from(line, i)[k] >= i,
        forall|k: int|
            0 <= k && k + 1 < stamp_positions_from(line, i).len()
                ==> #[trigger] stamp_positions_from(line, i)[k] + STAMP_LEN
                <= stamp_positions_from(line, i)[k + 1],
    decreases line.len() - i,
{
    let ms = stamp_positions_from(line, i);
    if i < 0 || i + STAMP_LEN > line.len() {
    } else if stamp_at(line, i) {
        lemma_positions_sound(line, i + STAMP_LEN);
        let rest = stamp_positions_from(line, i + STAMP_LEN);
        let ms2 = seq![i] + rest;
        assert(ms == ms2);
        assert(ms2[0] == i);
        assert(forall|t: int| 1 <= t < ms2.len() ==> #[trigger] ms2[t] == rest[t - 1]);
        assert forall|k: int|
            0 <= k < ms.len() implies stamp_at(line, #[trigger] ms[k]) && ms[k] >= i by {
            if k > 0 {
                assert(ms2[k] == rest[k - 1]);
                assert(stamp_at(line, rest[k - 1]) && rest[k - 1] >= i + STAMP_LEN);
            }
        }
        assert forall|k: int| 0 <= k && k + 1 < ms.len() implies #[trigger] ms[k] + STAMP_LEN <= ms[k
            + 1] by {
            if k == 0 {
                assert(ms2[1] == rest[0]);
                assert(stamp_at(line, rest[0]) && rest[0] >= i + STAMP_LEN);
            } else {
                assert(ms2[k] == rest[k - 1]);
                assert(ms2[k + 1] == rest[k]);
                assert(rest[k - 1] + STAMP_LEN <= rest[k]);
            }
        }
    } else {
        lemma_positions_sound(line, i + 1);
        let rest = stamp_positions_from(line, i + 1);
        assert(ms == rest);
        assert forall|k: int|
            0 <= k < ms.len() implies stamp_at(line, #[trigger] ms[k]) && ms[k] >= i by {
            assert(stamp_at(line, rest[k]) && rest[k] >= i + 1);
        }
        assert forall|k: int| 0 <= k && k + 1 < ms.len() implies #[trigger] ms[k] + STAMP_LEN
            <= ms[k + 1] by {
            assert(rest[k] + STAMP_LEN <= rest[k + 1]);
        }
    }
}

/// Every position that carries a token is found by the scan.
proof fn lemma_positions_complete(line: Seq<char>, i: int, p: int)
    requires
        0 <= i,
        stamp_at(line, p),
        p >= i,
    ensures
        stamp_positions_from(line, i).contains(p),
    decreases line.len() - i,
{
    let ms = stamp_positions_from(line, i);
    if i + STAMP_LEN > line.len() {
        assert(p + STAMP_LEN <= line.len());
        assert(false);
    } else if stamp_at(line, i) {
        let rest = stamp_positions_from(line, i + STAMP_LEN);
        let ms2 = seq![i] + rest;
        assert(ms == ms2);
        if p == i {
            assert(ms2[0] == p);
            assert(ms.contains(p));
        } else {
            lemma_stamps_disjoint(line, i, p);
            lemma_positions_complete(line, i + STAMP_LEN, p);
            let k = choose|k: int| 0 <= k < rest.len() && rest[k] == p;
            assert(ms2[k + 1] == rest[k]);
            assert(ms[k + 1] == p);
            assert(ms.contains(p));
        }
    } else {
        assert(p != i);
        lemma_positions_complete(line, i + 1, p);
    }
}

/// The scan's positions are exactly the timestamp occurrences of the
/// line, each a full token's distance from the next.
pub proof fn lemma_stamp_positions_exact(line: Seq<char>)
    ensures
        forall|p: int| #[trigger] stamp_positions(line).contains(p) <==> stamp_at(line, p),
        forall|k: int|
            0 <= k && k + 1 < stamp_positions(line).len() ==> #[trigger] stamp_positions(line)[k]
                + STAMP_LEN <= stamp_positions(line)[k + 1],
{
    lemma_positions_sound(line, 0);
    let ms = stamp_positions(line);
    assert forall|p: int| #[trigger] ms.contains(p) <==> stamp_at(line, p) by {
        if ms.contains(p) {
            let k = choose|k: int| 0 <= k < ms.len() && ms[k] == p;
            assert(stamp_at(line, ms[k]));
        }
        if stamp_at(line, p) {
            lemma_positions_complete(line, 0, p);
        }
    }
}

/// The scan finds no token exactly when no leftmost token exists.
proof fn lemma_positions_empty_iff_none(line: Seq<char>, i: int)
    ensures
        (stamp_positions_from(line, i).len() == 0) == (first_stamp_from(line, i) is None),
    decreases line.len() - i,
{
    if !(i < 0 || i + STAMP_LEN > line.len()) && !stamp_at(line, i) {
        lemma_positions_empty_iff_none(line, i + 1);
    }
}

/// A sequence of machine positions read as mathematical ones.
spec fn usize_ints(s: Seq<usize>) -> Seq<int> {
    Seq::new(s.len(), |k: int| s[k] as int)
}

/// Finds every timestamp token in one line, left to right.
pub fn find_stamps(line: &str) -> (r: Vec<usize>)
    ensures
        r@.len() == stamp_positions(line@).len(),
        forall|k: int| 0 <= k < r@.len() ==> #[trigger] r@[k] as int == stamp_positions(line@)[k],
{
    let n = line.unicode_len();
    let mut out: Vec<usize> = Vec::new();
    if n < STAMP_LEN {
        assert(stamp_positions(line@) =~= Seq::<int>::empty());
        return out;
    }
    let mut i: usize = 0;
    proof {
        assert(usize_ints(out@) =~= Seq::<int>::empty());
        assert(Seq::<int>::empty() + stamp_positions_from(line@, 0) =~= stamp_positions_from(
            line@,
            0,
        ));
    }
    while i <= n - STAMP_LEN
        invariant
            n == line@.len(),
            STAMP_LEN <= n,
            i <= n,
            stamp_positions(line@) == usize_ints(out@) + stamp_positions_from(line@, i as int),
        decreases n - i,
    {
        if stamp_matches_at(line, n, i) {
            let ghost prev = usize_ints(out@);
            out.push(i);
            proof {
                assert(usize_ints(out@) =~= prev + seq![i as int]);
                assert(stamp_positions_from(line@, i as int) == seq![i as int]
                    + stamp_positions_from(line@, i + STAMP_LEN));
                assert((prev + seq![i as int]) + stamp_positions_from(line@, i + STAMP_LEN)
                    =~= prev + (seq![i as int] + stamp_positions_from(line@, i + STAMP_LEN)));
            }
            i = i + STAMP_LEN;
        } else {
            assert(stamp_positions_from(line@, i as int) == stamp_positions_from(line@, i + 1));
            i = i + 1;
        }
    }
    proof {
        assert(stamp_positions_from(line@, i as int) =~= Seq::<int>::empty());
        assert(usize_ints(out@) + Seq::<int>::empty() =~= usize_ints(out@));
    }
    out
}

/// The whitespace characters a body is trimmed of: the Unicode
/// white-space set, the same characters `char::is_whitespace` accepts.
pub open spec fn is_space_char(c: char) -> bool {
    ||| c == ' '
    ||| ('\u{0009}' <= c && c <= '\u{000D}')
    ||| c == '\u{0085}'
    ||| c == '\u{00A0}'
    ||| c == '\u{1680}'
    ||| ('\u{2000}' <= c && c <= '\u{200A}')
    ||| c == '\u{2028}'
    ||| c == '\u{2029}'
    ||| c == '\u{202F}'
    ||| c == '\u{205F}'
    ||| c == '\u{3000}'
}

/// `s` without leading and trailing whitespace.
pub open spec fn trim(s: Seq<char>) -> Seq<char>
    decreases s.len(),
{
    if s.len() == 0 {
        s
    } else if is_space_char(s[0]) {
        trim(s.drop_first())
    } else if is_space_char(s[s.len() - 1]) {
        trim(s.drop_last())
    } else {
        s
    }
}

/// The trim of `s` is the subrange between its first and last
/// non-whitespace characters.
proof fn lemma_trim_subrange(s: Seq<char>, lo: int, hi: int)
    requires
        0 <= lo <= hi <= s.len(),
        forall|k: int| 0 <= k < lo ==> is_space_char(#[trigger] s[k]),
        forall|k: int| hi <= k < s.len() ==> is_space_char(#[trigger] s[k]),
        lo == hi || (!is_space_char(s[lo]) && !is_space_char(s[hi - 1])),
    ensures
        trim(s) =~= s.subrange(lo, hi),
    decreases s.len(),
{
    if s.len() == 0 {
    } else if is_space_char(s[0]) {
        if lo == hi {
            if lo == 0 {
                lemma_trim_subrange(s.drop_first(), 0, 0);
            } else {
                lemma_trim_subrange(s.drop_first(), lo - 1, hi - 1);
            }
        } else {
            assert(lo >= 1);
            lemma_trim_subrange(s.drop_first(), lo - 1, hi - 1);
            assert(s.drop_first().subrange(lo - 1, hi - 1) =~= s.subrange(lo, hi));
        }
    } else if is_space_char(s[s.len() - 1]) {
        assert(hi <= s.len() - 1);
        lemma_trim_subrange(s.drop_last(), lo, hi);
        assert(s.drop_last().subrange(lo, hi) =~= s.subrange(lo, hi));
    } else {
        assert(lo == 0);
        assert(hi == s.len());
        assert(s.subrange(0, s.len() as int) =~= s);
    }
}

/// A trimmed body carries no leading and no trailing whitespace.
pub proof fn lemma_trim_no_outer_space(s: Seq<char>)
    ensures
        trim(s).len() > 0 ==> !is_space_char(trim(s)[0]),
        trim(s).len() > 0 ==> !is_space_char(trim(s)[trim(s).len() - 1]),
    decreases s.len(),
{
    if s.len() == 0 {
    } else if is_space_char(s[0]) {
        lemma_trim_no_outer_space(s.drop_first());
    } else if is_space_char(s[s.len() - 1]) {
        lemma_trim_no_outer_space(s.drop_last());
    }
}

fn is_space_exec(c: char) -> (r: bool)
    ensures
        r == is_space_char(c),
{
    c == ' ' || ('\u{0009}' <= c && c <= '\u{000D}') || c == '\u{0085}' || c == '\u{00A0}'
        || c == '\u{1680}' || ('\u{2000}' <= c && c <= '\u{200A}') || c == '\u{2028}'
        || c == '\u{2029}' || c == '\u{202F}' || c == '\u{205F}' || c == '\u{3000}'
}

/// Removes leading and trailing whitespace from a body.
pub fn trim_text(s: &str) -> (r: String)
    ensures
        r@ == trim(s@),
{
    let n = s.unicode_len();
    let mut lo: usize = 0;
    while lo < n && is_space_exec(s.get_char(lo))
        invariant
            n == s@.len(),
            lo <= n,
            forall|k: int| 0 <= k < lo ==> is_space_char(#[trigger] s@[k]),
        decreases n - lo,
    {
        lo = lo + 1;
    }
    let mut hi: usize = n;
    while hi > lo && is_space_exec(s.get_char(hi - 1))
        invariant
            n == s@.len(),
            lo <= hi <= n,
            forall|k: int| hi <= k < n ==> is_space_char(#[trigger] s@[k]),
        decreases hi,
    {
        hi = hi - 1;
    }
    proof {
        lemma_trim_subrange(s@, lo as int, hi as int);
    }
    let r = s.substring_char(lo, hi);
    r.to_owned()
}

/// Finds the leftmost timestamp token in one line of text.
pub fn find_stamp(line: &str) -> (r: Option<usize>)
    ensures
        match r {
            Some(i) => first_stamp(line@) == Some(i as int),
            None => first_stamp(line@) is None,
        },
{
    let n = line.unicode_len();
    if n < STAMP_LEN {
        return None;
    }
    let mut i: usize = 0;
    while i <= n - STAMP_LEN
        invariant
            n == line@.len(),
            STAMP_LEN <= n,
            i <= n - STAMP_LEN + 1,
            first_stamp(line@) == first_stamp_from(line@, i as int),
        decreases n - i,
    {
        if stamp_matches_at(line, n, i) {
            return Some(i);
        }
        i = i + 1;
    }
    None
}

/// A line as read from a `'\n'`-terminated piece of text: one trailing
/// `'\r'` is dropped, so `"\r\n"` line endings read like plain `"\n"`.
pub open spec fn strip_cr(line: Seq<char>) -> Seq<char> {
    if line.len() > 0 && line[line.len() - 1] == '\r' {
        line.drop_last()
    } else {
        line
    }
}

/// Splits `text` into lines from position `i` on, with `cur` the part of
/// the current line read so far: a `'\n'` ends the current line (minus a
/// trailing `'\r'`), and a last line without a terminator is kept as it
/// stands unless it is empty.
pub open spec fn split_lines_from(text: Seq<char>, i: int, cur: Seq<char>) -> Seq<Seq<char>>
    decreases text.len() - i,
{
    if i < 0 || i >= text.len() {
        if cur.len() == 0 {
            Seq::empty()
        } else {
            seq![cur]
        }
    } else if text[i] == '\n' {
        seq![strip_cr(cur)] + split_lines_from(text, i + 1, Seq::empty())
    } else {
        split_lines_from(text, i + 1, cur.push(text[i]))
    }
}

/// The lines of `text`, as a line-based reader yields them.
pub open spec fn split_lines(text: Seq<char>) -> Seq<Seq<char>> {
    split_lines_from(text, 0, Seq::empty())
}

/// Splitting from `i` with a newline-free stretch up to `j` yields the
/// stretch appended to `cur` as the next line.
proof fn lemma_split_lines_chunk(text: Seq<char>, i: int, cur: Seq<char>, j: int)
    requires
        0 <= i <= j <= text.len(),
        forall|k: int| i <= k < j ==> #[trigger] text[k] != '\n',
        j == text.len() || text[j] == '\n',
    ensures
        split_lines_from(text, i, cur) == if j == text.len() {
            if cur.len() + (j - i) == 0 {
                Seq::<Seq<char>>::empty()
            } else {
                seq![cur + text.subrange(i, j)]
            }
        } else {
            seq![strip_cr(cur + text.subrange(i, j))] + split_lines_from(text, j + 1, Seq::empty())
        },
    decreases j - i,
{
    if i == j {
        assert(cur + text.subrange(i, j) =~= cur);
    } else {
        lemma_split_lines_chunk(text, i + 1, cur.push(text[i]), j);
        assert(cur.push(text[i]) + text.subrange(i + 1, j) =~= cur + text.subrange(i, j));
    }
}

/// Splits raw text into its lines.
pub fn split_into_lines(text: &str) -> (lines: Vec<String>)
    ensures
        lines.deep_view() == split_lines(text@),
{
    let n = text.unicode_len();
    let mut lines: Vec<String> = Vec::new();
    let mut start: usize = 0;
    let mut i: usize = 0;
    while i < n
        invariant
            n == text@.len(),
            start <= i <= n,
            forall|k: int| start <= k < i ==> #[trigger] text@[k] != '\n',
            split_lines(text@) == lines.deep_view() + split_lines_from(
                text@,
                start as int,
                Seq::empty(),
            ),
        decreases n - i,
    {
        let c = text.get_char(i);
        if c == '\n' {
            proof {
                lemma_split_lines_chunk(text@, start as int, Seq::empty(), i as int);
            }
            let mut end: usize = i;
            if end > start && text.get_char(end - 1) == '\r' {
                end = end - 1;
            }
            assert(Seq::empty() + text@.subrange(start as int, i as int) =~= text@.subrange(
                start as int,
                i as int,
            ));
            assert(strip_cr(text@.subrange(start as int, i as int)) =~= text@.subrange(
                start as int,
                end as int,
            ));
            let piece = text.substring_char(start, end).to_owned();
            let ghost old_lines = lines.deep_view();
            lines.push(piece);
            assert(lines.deep_view() =~= old_lines.push(text@.subrange(
                start as int,
                end as int,
            )));
            start = i + 1;
        }
        i = i + 1;
    }
    if start < n {
        proof {
            lemma_split_lines_chunk(text@, start as int, Seq::empty(), n as int);
        }
        assert(Seq::empty() + text@.subrange(start as int, n as int) =~= text@.subrange(
            start as int,
            n as int,
        ));
        let piece = text.substring_char(start, n).to_owned();
        let ghost old_lines = lines.deep_view();
        lines.push(piece);
        assert(lines.deep_view() =~= old_lines.push(text@.subrange(start as int, n as int)));
        assert(lines.deep_view() =~= split_lines(text@));
    } else {
        assert(lines.deep_view() + Seq::<Seq<char>>::empty() =~= lines.deep_view());
    }
    lines
}

/// State of the forward scan: the records closed so far and the body
/// being collected for the most recent timestamp, `None` while no
/// timestamp has been seen yet.
pub struct SegState {
    pub stamps: Seq<Seq<char>>,
    pub bodies: Seq<Seq<char>>,
    pub buffer: Option<Seq<char>>,
}

/// The scan starts with no records and no open body, so lines before the
/// first timestamp token fall through without effect.
pub open spec fn seg_init() -> SegState {
    SegState { stamps: Seq::empty(), bodies: Seq::empty(), buffer: None }
}

/// A continuation line joins the open body with a single `'\n'`
/// separator; the separator is dropped while the body is still empty.
pub open spec fn body_extend(buf: Seq<char>, line: Seq<char>) -> Seq<char> {
    if buf.len() == 0 {
        line
    } else {
        buf + seq!['\n'] + line
    }
}

/// The bodies once the open body, if any, is closed: it is trimmed and
/// appended as the body of the most recent timestamp.
pub open spec fn close_bodies(st: SegState) -> Seq<Seq<char>> {
    match st.buffer {
        Some(b) => st.bodies.push(trim(b)),
        None => st.bodies,
    }
}

/// The tokens a line's occurrences record, in line order.
pub open spec fn stamps_of(line: Seq<char>, ms: Seq<int>) -> Seq<Seq<char>> {
    Seq::new(ms.len(), |j: int| line.subrange(ms[j], ms[j] + STAMP_LEN))
}

/// The bodies closed within one line: for each pair of neighbouring
/// tokens, the text strictly between the earlier one's end and the
/// later one's start, trimmed.
pub open spec fn inner_bodies(line: Seq<char>, ms: Seq<int>) -> Seq<Seq<char>>
    recommends
        ms.len() >= 1,
{
    Seq::new((ms.len() - 1) as nat, |j: int| trim(line.subrange(ms[j] + STAMP_LEN, ms[j + 1])))
}

/// One line of the scan. A line without a token extends the open body,
/// or is discarded while no token has been seen yet. On a token-bearing
/// line every occurrence starts a record: the text before the first
/// token joins and closes the open body, the text between two tokens
/// closes as the body of the earlier one, and the text after the last
/// token opens that record's body.
pub open spec fn seg_line(st: SegState, line: Seq<char>) -> SegState {
    let ms = stamp_positions(line);
    if ms.len() == 0 {
        match st.buffer {
            Some(b) => SegState {
                stamps: st.stamps,
                bodies: st.bodies,
                buffer: Some(body_extend(b, line)),
            },
            None => st,
        }
    } else {
        SegState {
            stamps: st.stamps + stamps_of(line, ms),
            bodies: (match st.buffer {
                Some(b) => st.bodies.push(trim(body_extend(b, line.subrange(0, ms[0])))),
                None => st.bodies,
            }) + inner_bodies(line, ms),
            buffer: Some(line.subrange(ms[ms.len() - 1] + STAMP_LEN, line.len() as int)),
        }
    }
}

/// The scan folded over a sequence of lines.
pub open spec fn seg_lines(st: SegState, lines: Seq<Seq<char>>) -> SegState
    decreases lines.len(),
{
    if lines.len() == 0 {
        st
    } else {
        seg_lines(seg_line(st, lines[0]), lines.drop_first())
    }
}

/// The records segmentation extracts from a sequence of lines: the
/// timestamp tokens and their bodies, in file order, index-aligned.
pub open spec fn segment_spec(lines: Seq<Seq<char>>) -> (Seq<Seq<char>>, Seq<Seq<char>>) {
    let st = seg_lines(seg_init(), lines);
    (st.stamps, close_bodies(st))
}

/// Folding over concatenated line sequences is folding over each in turn.
proof fn lemma_seg_lines_app(st: SegState, l1: Seq<Seq<char>>, l2: Seq<Seq<char>>)
    ensures
        seg_lines(st, l1 + l2) == seg_lines(seg_lines(st, l1), l2),
    decreases l1.len(),
{
    if l1.len() == 0 {
        assert(l1 + l2 =~= l2);
    } else {
        assert((l1 + l2)[0] == l1[0]);
        assert((l1 + l2).drop_first() =~= l1.drop_first() + l2);
        lemma_seg_lines_app(seg_line(st, l1[0]), l1.drop_first(), l2);
    }
}

/// Extending the fold by one line applies the scan to that line.
proof fn lemma_seg_lines_snoc(st: SegState, lines: Seq<Seq<char>>, k: int)
    requires
        0 <= k < lines.len(),
    ensures
        seg_lines(st, lines.take(k + 1)) == seg_line(seg_lines(st, lines.take(k)), lines[k]),
{
    assert(lines.take(k + 1) =~= lines.take(k) + seq![lines[k]]);
    lemma_seg_lines_app(st, lines.take(k), seq![lines[k]]);
    let one = seq![lines[k]];
    let st2 = seg_lines(st, lines.take(k));
    assert(one[0] == lines[k]);
    assert(one.drop_first() =~= Seq::<Seq<char>>::empty());
    assert(seg_lines(st2, one) == seg_lines(seg_line(st2, lines[k]), one.drop_first()));
    assert(seg_lines(seg_line(st2, lines[k]), one.drop_first()) == seg_line(st2, lines[k]));
}

/// How many timestamp occurrences `lines` carry in all.
pub open spec fn stamp_count(lines: Seq<Seq<char>>) -> nat
    decreases lines.len(),
{
    if lines.len() == 0 {
        0
    } else {
        stamp_positions(lines[0]).len() + stamp_count(lines.drop_first())
    }
}

/// The scan keeps one body, open or closed, per recorded timestamp.
pub open spec fn seg_inv(st: SegState) -> bool {
    st.stamps.len() == st.bodies.len() + (if st.buffer is Some {
        1nat
    } else {
        0nat
    })
}

/// The fold records one timestamp per occurrence and keeps one body,
/// open or closed, per timestamp.
proof fn lemma_seg_lines_count(st: SegState, lines: Seq<Seq<char>>)
    ensures
        seg_lines(st, lines).stamps.len() == st.stamps.len() + stamp_count(lines),
        seg_inv(st) ==> seg_inv(seg_lines(st, lines)),
    decreases lines.len(),
{
    if lines.len() > 0 {
        lemma_seg_lines_count(seg_line(st, lines[0]), lines.drop_first());
    }
}

/// Segmentation correctness, counted: lines carrying `N` timestamp
/// occurrences in all yield exactly `N` (timestamp, body) records,
/// index-aligned; with `lemma_stamp_positions_exact`, an occurrence is
/// exactly a position where the token shape matches.
pub proof fn lemma_segmentation_count(lines: Seq<Seq<char>>)
    ensures
        segment_spec(lines).0.len() == stamp_count(lines),
        segment_spec(lines).1.len() == segment_spec(lines).0.len(),
{
    lemma_seg_lines_count(seg_init(), lines);
}

/// No-match text: lines without any timestamp token yield no records.
pub proof fn lemma_no_match_yields_nothing(lines: Seq<Seq<char>>)
    requires
        forall|k: int| 0 <= k < lines.len() ==> first_stamp(#[trigger] lines[k]) is None,
    ensures
        segment_spec(lines).0 =~= Seq::<Seq<char>>::empty(),
        segment_spec(lines).1 =~= Seq::<Seq<char>>::empty(),
    decreases lines.len(),
{
    lemma_stamp_count_zero(lines);
    lemma_segmentation_count(lines);
}

proof fn lemma_stamp_count_zero(lines: Seq<Seq<char>>)
    requires
        forall|k: int| 0 <= k < lines.len() ==> first_stamp(#[trigger] lines[k]) is None,
    ensures
        stamp_count(lines) == 0,
    decreases lines.len(),
{
    if lines.len() > 0 {
        lemma_positions_empty_iff_none(lines[0], 0);
        assert(forall|k: int|
            0 <= k < lines.drop_first().len() ==> first_stamp(
                #[trigger] lines.drop_first()[k],
            ) is None);
        lemma_stamp_count_zero(lines.drop_first());
    }
}

proof fn lemma_seg_lines_no_stamp(st: SegState, lines: Seq<Seq<char>>)
    requires
        st.buffer is None,
        forall|k: int| 0 <= k < lines.len() ==> first_stamp(#[trigger] lines[k]) is None,
    ensures
        seg_lines(st, lines) == st,
    decreases lines.len(),
{
    if lines.len() > 0 {
        lemma_positions_empty_iff_none(lines[0], 0);
        assert(seg_line(st, lines[0]) == st);
        assert(forall|k: int|
            0 <= k < lines.drop_first().len() ==> first_stamp(
                #[trigger] lines.drop_first()[k],
            ) is None);
        lemma_seg_lines_no_stamp(st, lines.drop_first());
    }
}

/// Text before the first timestamp token is discarded: lines without a
/// token ahead of the rest contribute no record and no body text.
pub proof fn lemma_leading_text_dropped(pre: Seq<Seq<char>>, rest: Seq<Seq<char>>)
    requires
        forall|k: int| 0 <= k < pre.len() ==> first_stamp(#[trigger] pre[k]) is None,
    ensures
        segment_spec(pre + rest) == segment_spec(rest),
{
    lemma_seg_lines_no_stamp(seg_init(), pre);
    lemma_seg_lines_app(seg_init(), pre, rest);
}

proof fn lemma_seg_lines_stamps(st: SegState, lines: Seq<Seq<char>>)
    requires
        forall|k: int|
            0 <= k < st.stamps.len() ==> (#[trigger] st.stamps[k]).len() == STAMP_LEN && stamp_at(
                st.stamps[k],
                0,
            ),
    ensures
        forall|k: int|
            0 <= k < seg_lines(st, lines).stamps.len() ==> (#[trigger] seg_lines(
                st,
                lines,
            ).stamps[k]).len() == STAMP_LEN && stamp_at(seg_lines(st, lines).stamps[k], 0),
    decreases lines.len(),
{
    if lines.len() > 0 {
        let line = lines[0];
        let st2 = seg_line(st, line);
        let ms = stamp_positions(line);
        lemma_positions_sound(line, 0);
        if ms.len() > 0 {
            assert forall|k: int|
                0 <= k < st2.stamps.len() implies (#[trigger] st2.stamps[k]).len() == STAMP_LEN
                && stamp_at(st2.stamps[k], 0) by {
                if k < st.stamps.len() {
                    assert(st2.stamps[k] == st.stamps[k]);
                } else {
                    let j = k - st.stamps.len();
                    assert(st2.stamps[k] == stamps_of(line, ms)[j]);
                    assert(stamps_of(line, ms)[j] == line.subrange(ms[j], ms[j] + STAMP_LEN));
                    assert(stamp_at(line, ms[j]));
                    let sub = line.subrange(ms[j], ms[j] + STAMP_LEN);
                    assert(forall|t: int|
                        0 <= t < STAMP_LEN ==> #[trigger] sub[t] == line[ms[j] + t]);
                    assert(stamp_at(sub, 0));
                }
            }
        }
        lemma_seg_lines_stamps(st2, lines.drop_first());
    }
}

/// Every timestamp the segmentation records is a well-shaped token of
/// exactly the delimiter's length.
pub proof fn lemma_stamps_well_shaped(lines: Seq<Seq<char>>)
    ensures
        forall|k: int|
            0 <= k < segment_spec(lines).0.len() ==> (#[trigger] segment_spec(
                lines,
            ).0[k]).len() == STAMP_LEN && stamp_at(segment_spec(lines).0[k], 0),
{
    lemma_seg_lines_stamps(seg_init(), lines);
}

/// The ghost scan state an executable buffer stands for.
pub open spec fn buffer_view(buffer: Option<String>) -> Option<Seq<char>> {
    match buffer {
        Some(b) => Some(b@),
        None => None,
    }
}

/// Splits a sequence of lines into timestamp-delimited records: the
/// timestamp tokens in file order, and the trimmed, `'\n'`-joined body
/// following each.
#[verifier::rlimit(100)]
pub fn segment_lines(lines: &Vec<String>) -> (r: (Vec<String>, Vec<String>))
    ensures
        r.0.deep_view() == segment_spec(lines.deep_view()).0,
        r.1.deep_view() == segment_spec(lines.deep_view()).1,
{
    let mut stamps: Vec<String> = Vec::new();
    let mut bodies: Vec<String> = Vec::new();
    let mut buffer: Option<String> = None;
    let n = lines.len();
    let mut k: usize = 0;
    proof {
        assert(lines.deep_view().take(0) =~= Seq::<Seq<char>>::empty());
        assert(stamps.deep_view() =~= Seq::<Seq<char>>::empty());
        assert(bodies.deep_view() =~= Seq::<Seq<char>>::empty());
    }
    while k < n
        invariant
            n == lines.len(),
            k <= n,
            seg_lines(seg_init(), lines.deep_view().take(k as int)) == (SegState {
                stamps: stamps.deep_view(),
                bodies: bodies.deep_view(),
                buffer: buffer_view(buffer),
            }),
        decreases n - k,
    {
        proof {
            lemma_seg_lines_snoc(seg_init(), lines.deep_view(), k as int);
            assert(lines.deep_view()[k as int] == lines[k as int]@);
        }
        let ghost pre = SegState {
            stamps: stamps.deep_view(),
            bodies: bodies.deep_view(),
            buffer: buffer_view(buffer),
        };
        let line: &String = &lines[k];
        let ms = find_stamps(line.as_str());
        let ghost mspec = stamp_positions(line@);
        proof {
            lemma_positions_sound(line@, 0);
        }
        let m = ms.len();
        if m == 0 {
            match &mut buffer {
                Some(b) => {
                    if b.as_str().is_empty() {
                        assert(body_extend(b@, line@) == line@);
                        *b = line.clone();
                    } else {
                        proof {
                            reveal_strlit("\n");
                            assert("\n"@ =~= seq!['\n']);
                        }
                        assert(b@ + "\n"@ + line@ =~= body_extend(b@, line@));
                        b.append("\n");
                        b.append(line.as_str());
                    }
                },
                None => {},
            }
            assert(seg_lines(seg_init(), lines.deep_view().take(k + 1)) == (SegState {
                stamps: stamps.deep_view(),
                bodies: bodies.deep_view(),
                buffer: buffer_view(buffer),
            }));
        } else {
            let line_len = line.as_str().unicode_len();
            let first = ms[0];
            proof {
                assert(first as int == mspec[0]);
                assert(stamp_at(line@, mspec[0]));
            }
            match &buffer {
                Some(b) => {
                    let prefix = line.as_str().substring_char(0, first);
                    let joined: String = if b.as_str().is_empty() {
                        prefix.to_owned()
                    } else {
                        let mut tmp = b.clone();
                        proof {
                            reveal_strlit("\n");
                            assert("\n"@ =~= seq!['\n']);
                        }
                        tmp.append("\n");
                        tmp.append(prefix);
                        tmp
                    };
                    assert(joined@ == body_extend(b@, line@.subrange(0, mspec[0])));
                    let t = trim_text(joined.as_str());
                    let ghost old_bodies = bodies.deep_view();
                    bodies.push(t);
                    assert(bodies.deep_view() =~= old_bodies.push(
                        trim(body_extend(b@, line@.subrange(0, mspec[0]))),
                    ));
                },
                None => {},
            }
            let ghost base_stamps = stamps.deep_view();
            let ghost base_bodies = bodies.deep_view();
            let mut j: usize = 0;
            proof {
                assert(stamps_of(line@, mspec).take(0) =~= Seq::<Seq<char>>::empty());
                assert(base_stamps + Seq::<Seq<char>>::empty() =~= base_stamps);
            }
            while j < m
                invariant
                    m == ms.len(),
                    j <= m,
                    line_len == line@.len(),
                    mspec == stamp_positions(line@),
                    ms@.len() == mspec.len(),
                    forall|t: int| 0 <= t < m ==> #[trigger] ms@[t] as int == mspec[t],
                    forall|t: int| 0 <= t < m ==> stamp_at(line@, #[trigger] mspec[t]),
                    stamps.deep_view() == base_stamps + stamps_of(line@, mspec).take(j as int),
                decreases m - j,
            {
                let pos = ms[j];
                proof {
                    assert(pos as int == mspec[j as int]);
                    assert(stamp_at(line@, mspec[j as int]));
                }
                let tok = line.as_str().substring_char(pos, pos + STAMP_LEN).to_owned();
                let ghost prev = stamps.deep_view();
                stamps.push(tok);
                proof {
                    let so = stamps_of(line@, mspec);
                    assert(so[j as int] == line@.subrange(
                        mspec[j as int],
                        mspec[j as int] + STAMP_LEN,
                    ));
                    assert(stamps.deep_view() =~= prev.push(so[j as int]));
                    assert(so.take(j as int + 1) =~= so.take(j as int).push(so[j as int]));
                    assert(base_stamps + so.take(j as int + 1) =~= (base_stamps + so.take(
                        j as int,
                    )).push(so[j as int]));
                }
                j = j + 1;
            }
            proof {
                assert(stamps_of(line@, mspec).take(m as int) =~= stamps_of(line@, mspec));
            }
            let mut j: usize = 0;
            proof {
                assert(inner_bodies(line@, mspec).take(0) =~= Seq::<Seq<char>>::empty());
                assert(base_bodies + Seq::<Seq<char>>::empty() =~= base_bodies);
            }
            while j + 1 < m
                invariant
                    m == ms.len(),
                    m >= 1,
                    j < m,
                    line_len == line@.len(),
                    mspec == stamp_positions(line@),
                    ms@.len() == mspec.len(),
                    forall|t: int| 0 <= t < m ==> #[trigger] ms@[t] as int == mspec[t],
                    forall|t: int| 0 <= t < m ==> stamp_at(line@, #[trigger] mspec[t]),
                    forall|t: int|
                        0 <= t && t + 1 < m ==> #[trigger] mspec[t] + STAMP_LEN <= mspec[t + 1],
                    bodies.deep_view() == base_bodies + inner_bodies(line@, mspec).take(j as int),
                decreases m - j,
            {
                let s = ms[j] + STAMP_LEN;
                let e = ms[j + 1];
                proof {
                    assert(ms@[j as int] as int == mspec[j as int]);
                    assert(ms@[j as int + 1] as int == mspec[j as int + 1]);
                    assert(stamp_at(line@, mspec[j as int]));
                    assert(stamp_at(line@, mspec[j as int + 1]));
                    assert(mspec[j as int] + STAMP_LEN <= mspec[j as int + 1]);
                }
                let inner = trim_text(line.as_str().substring_char(s, e));
                let ghost prevb = bodies.deep_view();
                bodies.push(inner);
                proof {
                    let ib = inner_bodies(line@, mspec);
                    assert(ib[j as int] == trim(line@.subrange(
                        mspec[j as int] + STAMP_LEN,
                        mspec[j as int + 1],
                    )));
                    assert(bodies.deep_view() =~= prevb.push(ib[j as int]));
                    assert(ib.take(j as int + 1) =~= ib.take(j as int).push(ib[j as int]));
                    assert(base_bodies + ib.take(j as int + 1) =~= (base_bodies + ib.take(
                        j as int,
                    )).push(ib[j as int]));
                }
                j = j + 1;
            }
            proof {
                assert(inner_bodies(line@, mspec).take(j as int) =~= inner_bodies(line@, mspec));
            }
            let last = ms[m - 1];
            proof {
                assert(last as int == mspec[m - 1]);
                assert(stamp_at(line@, mspec[m - 1]));
            }
            let rest = line.as_str().substring_char(last + STAMP_LEN, line_len).to_owned();
            buffer = Some(rest);
            proof {
                assert(seg_lines(seg_init(), lines.deep_view().take(k + 1)) == (SegState {
                    stamps: stamps.deep_view(),
                    bodies: bodies.deep_view(),
                    buffer: buffer_view(buffer),
                }));
            }
        }
        k = k + 1;
    }
    proof {
        assert(lines.deep_view().take(n as int) =~= lines.deep_view());
    }
    match &buffer {
        Some(b) => {
            let t = trim_text(b.as_str());
            let ghost old_bodies = bodies.deep_view();
            bodies.push(t);
            assert(bodies.deep_view() =~= old_bodies.push(trim(b@)));
        },
        None => {},
    }
    (stamps, bodies)
}

/// Splits raw text into timestamp-delimited records: `segment_lines`
/// applied to the lines of the text.
pub fn segment(text: &str) -> (r: (Vec<String>, Vec<String>))
    ensures
        r.0.deep_view() == segment_spec(split_lines(text@)).0,
        r.1.deep_view() == segment_spec(split_lines(text@)).1,
{
    let lines = split_into_lines(text);
    segment_lines(&lines)
}

} // verus!
