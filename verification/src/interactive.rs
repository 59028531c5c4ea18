use vstd::prelude::*;
use vstd::utf8::*;
use vstd::string::StringSliceAdditionalSpecFns;

use crate::lines::{line_ranges, line_ranges_from, line_end, next_newline, lemma_next_newline, line_ranges_of, ranges_agree, good_ranges, lemma_boundary_at_ascii};
use crate::pattern::{Pattern, regex_find_spans, regex_replace_first, spans_in_order};
use crate::text::{lemma_encode_concat, slice_str, lemma_view_is_decoded, byte_len};

verus! {



/// The user's answer to one proposed change.
#[derive(PartialEq, Eq, Structural, Clone, Copy, Debug)]
pub enum Answer {
    /// Make the change.
    Apply,
    /// Leave this match as it is.
    Skip,
    /// Stop: keep the changes made so far and leave the rest of the text alone.
    Quit,
}

/// The number of lines of the text whose bytes are `c`.
pub open spec fn line_count(c: Seq<u8>) -> int {
    line_ranges(c).len() as int
}

/// The bytes of line `i`.
pub open spec fn line_bytes(c: Seq<u8>, i: int) -> Seq<u8> {
    c.subrange(line_ranges(c)[i].0, line_ranges(c)[i].1)
}

/// The byte spans of the matches of `p` in line `i`.
pub open spec fn line_spans(p: Seq<char>, c: Seq<u8>, i: int) -> Seq<(usize, usize)> {
    regex_find_spans(p, decode_utf8(line_bytes(c, i)))
}

/// Where the `k`-th span ends (0 before the first).
pub open spec fn span_end(spans: Seq<(usize, usize)>, k: int) -> int {
    if k <= 0 {
        0
    } else {
        spans[k - 1].1 as int
    }
}

/// What a match turns into: the pattern's first replacement applied to the
/// matched text alone.
pub open spec fn match_piece(p: Seq<char>, rep: Seq<char>, l: Seq<u8>, s: (usize, usize)) -> Seq<u8> {
    encode_utf8(regex_replace_first(p, decode_utf8(l.subrange(s.0 as int, s.1 as int)), rep))
}

/// The bytes of `l` up to the end of its span number `ch.len() - 1`, where
/// each of the first `ch.len()` spans is replaced or kept as `ch` says.
pub open spec fn edited_prefix(
    p: Seq<char>,
    rep: Seq<char>,
    l: Seq<u8>,
    spans: Seq<(usize, usize)>,
    ch: Seq<bool>,
) -> Seq<u8>
    decreases ch.len(),
{
    if ch.len() == 0 {
        seq![]
    } else {
        let k = ch.len() - 1;
        let s = spans[k];
        edited_prefix(p, rep, l, spans, ch.drop_last()) + l.subrange(span_end(spans, k), s.0 as int)
            + (if ch[k] {
            match_piece(p, rep, l, s)
        } else {
            l.subrange(s.0 as int, s.1 as int)
        })
    }
}

/// Line `l` with its first `ch.len()` matches decided by `ch`, the rest of
/// it as it was.
pub open spec fn edited_line(
    p: Seq<char>,
    rep: Seq<char>,
    l: Seq<u8>,
    spans: Seq<(usize, usize)>,
    ch: Seq<bool>,
) -> Seq<u8> {
    edited_prefix(p, rep, l, spans, ch) + l.subrange(span_end(spans, ch.len() as int), l.len() as int)
}

/// Line `i` of the text with its matches decided by `ch`.
pub open spec fn decided_line(p: Seq<char>, rep: Seq<char>, c: Seq<u8>, i: int, ch: Seq<bool>) -> Seq<u8> {
    edited_line(p, rep, line_bytes(c, i), line_spans(p, c, i), ch)
}

/// The lines, each followed by a newline.
pub open spec fn with_newlines(ls: Seq<Seq<u8>>) -> Seq<u8>
    decreases ls.len(),
{
    if ls.len() == 0 {
        seq![]
    } else {
        with_newlines(ls.drop_last()) + ls.last() + seq![10u8]
    }
}

/// The first `m` lines, each as `d` decides it.
pub open spec fn decided_lines(p: Seq<char>, rep: Seq<char>, c: Seq<u8>, d: Seq<Seq<bool>>, m: int) -> Seq<Seq<u8>> {
    Seq::new(m as nat, |i: int| decided_line(p, rep, c, i, d[i]))
}

/// Whether the text ends with a newline.
pub open spec fn ends_with_newline(c: Seq<u8>) -> bool {
    c.len() > 0 && c.last() == 10
}

/// The text once every match has been decided: each line as decided,
/// followed by a newline, except that the last newline goes where the text
/// did not end with one.
pub open spec fn finished_text(p: Seq<char>, rep: Seq<char>, c: Seq<u8>, d: Seq<Seq<bool>>) -> Seq<u8> {
    let t = with_newlines(decided_lines(p, rep, c, d, line_count(c)));
    if line_count(c) > 0 && !ends_with_newline(c) {
        t.drop_last()
    } else {
        t
    }
}

/// The lines when the user quits on line `i`: the lines before it as
/// decided, line `i` as decided so far, the lines after it as they were,
/// each followed by a newline.
pub open spec fn quit_lines(p: Seq<char>, rep: Seq<char>, c: Seq<u8>, d: Seq<Seq<bool>>, i: int) -> Seq<u8> {
    with_newlines(decided_lines(p, rep, c, d, i)) + decided_line(p, rep, c, i, d[i]) + seq![10u8]
        + with_newlines(unchanged_lines(c, i + 1, line_count(c) - i - 1))
}

/// The text when the user quits on line `i`: `quit_lines`, with the last
/// newline dropped where the text did not end with one, as for a finished
/// text.
pub open spec fn quit_text(p: Seq<char>, rep: Seq<char>, c: Seq<u8>, d: Seq<Seq<bool>>, i: int) -> Seq<u8> {
    let t = quit_lines(p, rep, c, d, i);
    if line_count(c) > 0 && !ends_with_newline(c) {
        t.drop_last()
    } else {
        t
    }
}

/// `m` lines of the text from line `from` on, as they are.
pub open spec fn unchanged_lines(c: Seq<u8>, from: int, m: int) -> Seq<Seq<u8>> {
    Seq::new(m as nat, |k: int| line_bytes(c, from + k))
}

/// The first line at or after `from` in which the pattern matches, or the
/// number of lines when there is none.
pub open spec fn next_matching_line(p: Seq<char>, c: Seq<u8>, from: int) -> int
    decreases line_count(c) - from,
{
    if from < 0 || from >= line_count(c) {
        line_count(c)
    } else if line_spans(p, c, from).len() > 0 {
        from
    } else {
        next_matching_line(p, c, from + 1)
    }
}

/// The decisions once line `j` is reached after the lines of `d`: the lines
/// in between had no match and so no decisions, and line `j`, where there
/// is one, starts with none.
pub open spec fn reach(d: Seq<Seq<bool>>, j: int, n: int) -> Seq<Seq<bool>> {
    d + Seq::new((j - d.len()) as nat, |k: int| Seq::<bool>::empty()) + (if j < n {
        seq![Seq::<bool>::empty()]
    } else {
        Seq::<Seq<bool>>::empty()
    })
}

/// The matches of each of the first `m` lines lie in that line in order,
/// without overlapping.
pub open spec fn lines_ordered(p: Seq<char>, c: Seq<u8>, m: int) -> bool {
    forall|j: int| 0 <= j < m ==> spans_in_order(#[trigger] line_spans(p, c, j), line_bytes(c, j))
}

/// How many answers the decisions record.
pub open spec fn answered(d: Seq<Seq<bool>>) -> int
    decreases d.len(),
{
    if d.len() == 0 {
        0
    } else {
        answered(d.drop_last()) + d.last().len()
    }
}

/// A counter that stops at the largest `usize`.
pub open spec fn capped(x: int) -> usize {
    if x < usize::MAX {
        x as usize
    } else {
        usize::MAX
    }
}


/// The text "\n" is the one byte 10.
proof fn lemma_newline_bytes()
    ensures
        encode_utf8("\n"@) == seq![10u8],
{
    reveal_strlit("\n");
    assert("\n"@ =~= seq!['\n']);
    is_ascii_chars_encode_utf8(seq!['\n']);
    assert(encode_utf8(seq!['\n']) =~= seq![10u8]);
}

/// Appends a newline.
fn push_newline(s: &mut String)
    ensures
        encode_utf8(final(s)@) == encode_utf8(old(s)@) + seq![10u8],
{
    let ghost before = s@;
    s.append("\n");
    proof {
        lemma_newline_bytes();
        lemma_encode_concat(before, "\n"@);
    }
}

/// Appends `t`.
fn push_str(s: &mut String, t: &str)
    ensures
        encode_utf8(final(s)@) == encode_utf8(old(s)@) + t.spec_bytes(),
{
    let ghost before = s@;
    s.append(t);
    proof {
        lemma_encode_concat(before, t@);
    }
}

/// Line `i` of `content`.
fn line_str<'a>(content: &'a str, ranges: &Vec<(usize, usize)>, i: usize) -> (l: &'a str)
    requires
        ranges_agree(ranges@, line_ranges(content.spec_bytes())),
        good_ranges(content.spec_bytes(), line_ranges(content.spec_bytes())),
        i < ranges@.len(),
    ensures
        l.spec_bytes() == line_bytes(content.spec_bytes(), i as int),
        l@ == decode_utf8(line_bytes(content.spec_bytes(), i as int)),
{
    let (s, e) = ranges[i];
    proof {
        assert(line_ranges(content.spec_bytes())[i as int].0 == s);
    }
    slice_str(content, s, e)
}

/// A boundary of `l` at or after `from` is one of `pre` followed by the
/// tail of `l` from `from`, shifted accordingly.
proof fn lemma_boundary_shifted(cb: Seq<u8>, pre: Seq<u8>, l: Seq<u8>, from: int, idx: int)
    requires
        valid_utf8(cb),
        valid_utf8(l),
        cb == pre + l.subrange(from, l.len() as int),
        0 <= from <= idx <= l.len(),
        is_char_boundary(l, idx),
    ensures
        is_char_boundary(cb, pre.len() + idx - from),
{
    is_char_boundary_start_end_of_seq(cb);
    if idx < l.len() {
        is_char_boundary_iff_not_is_continuation_byte(l, idx);
        assert(cb[pre.len() + idx - from] == l[idx]);
        is_char_boundary_iff_not_is_continuation_byte(cb, pre.len() + idx - from);
    }
}

/// The current line with the match at `s..e` (offsets in the unedited
/// line `l`) replaced; `cur` is `pre` followed by `l` from `e_prev` on.
/// Also gives the length of everything up to the end of the replacement.
fn apply_match(
    pattern: &Pattern,
    rep: &str,
    cur: &str,
    cur_prefix: usize,
    e_prev: usize,
    s: usize,
    e: usize,
    Ghost(l): Ghost<Seq<u8>>,
    Ghost(pre): Ghost<Seq<u8>>,
) -> (res: (String, usize))
    requires
        cur.spec_bytes() == pre + l.subrange(e_prev as int, l.len() as int),
        cur_prefix == pre.len(),
        valid_utf8(l),
        e_prev <= s <= e <= l.len(),
        is_char_boundary(l, s as int),
        is_char_boundary(l, e as int),
    ensures
        encode_utf8(res.0@) == pre + l.subrange(e_prev as int, s as int) + match_piece(pattern@, rep@, l, (s, e))
            + l.subrange(e as int, l.len() as int),
        res.1 == (pre + l.subrange(e_prev as int, s as int) + match_piece(pattern@, rep@, l, (s, e))).len(),
{
    let ghost cb = cur.spec_bytes();
    let n = byte_len(cur);
    let a = cur_prefix + (s - e_prev);
    let b = cur_prefix + (e - e_prev);
    proof {
        lemma_view_is_decoded(cur);
        lemma_boundary_shifted(cb, pre, l, e_prev as int, s as int);
        lemma_boundary_shifted(cb, pre, l, e_prev as int, e as int);
        is_char_boundary_start_end_of_seq(cb);
    }
    let before = slice_str(cur, 0, a);
    let matched = slice_str(cur, a, b);
    let after = slice_str(cur, b, n);
    proof {
        assert(before.spec_bytes() =~= pre + l.subrange(e_prev as int, s as int));
        assert(matched.spec_bytes() =~= l.subrange(s as int, e as int));
        assert(after.spec_bytes() =~= l.subrange(e as int, l.len() as int));
    }
    let piece = pattern.replace_first(matched, rep);
    let mut out = String::new();
    proof {
        assert(encode_utf8(out@) =~= Seq::<u8>::empty());
    }
    push_str(&mut out, before);
    push_str(&mut out, piece.as_str());
    push_str(&mut out, after);
    let out_len = byte_len(out.as_str());
    let piece_len = byte_len(piece.as_str());
    proof {
        assert(encode_utf8(piece@) == match_piece(pattern@, rep@, l, (s, e)));
        // The new line holds the text before the match and the replacement,
        // so their lengths add up without overflow.
        assert(a + piece_len <= out_len);
    }
    let prefix_len = a + piece_len;
    (out, prefix_len)
}


/// One proposed change, as the user is shown it: the line as it stands, the
/// line with the change made, where it is, and how far along the session is.
pub struct Prompt {
    pub old_line: String,
    pub new_line: String,
    pub line_num: usize,
    pub match_num: usize,
    pub total_matches: usize,
}

/// A session that goes through the matches of a text line by line and
/// asks, for each, whether to make the change.
pub struct Session<'a> {
    pattern: &'a Pattern,
    replacement: String,
    content: String,
    ranges: Vec<(usize, usize)>,
    total: usize,
    line_idx: usize,
    spans: Vec<(usize, usize)>,
    match_idx: usize,
    answered: usize,
    cur: String,
    cur_prefix: usize,
    pending: String,
    pending_prefix: usize,
    out: String,
    decided: Ghost<Seq<Seq<bool>>>,
}

/// What a session does next: ask about one more change, or hand back the
/// finished text.
pub enum Step<'a> {
    Ask(Session<'a>, Prompt),
    Done(String),
}

impl<'a> Session<'a> {
    /// The search pattern.
    pub closed spec fn pattern(&self) -> Seq<char> {
        self.pattern@
    }

    /// The replacement.
    pub closed spec fn replacement(&self) -> Seq<char> {
        self.replacement@
    }

    /// The text being edited.
    pub closed spec fn text(&self) -> Seq<char> {
        self.content@
    }

    /// The line whose match is being asked about.
    pub closed spec fn line(&self) -> int {
        self.line_idx as int
    }

    /// The answers so far, line by line: for each line up to the current
    /// one, whether each of its matches was replaced.
    pub closed spec fn decided(&self) -> Seq<Seq<bool>> {
        self.decided@
    }

    /// The session's internal consistency, kept by every step.
    #[verifier::type_invariant]
    spec fn inv(&self) -> bool {
        let p = self.pattern@;
        let rep = self.replacement@;
        let c = encode_utf8(self.content@);
        let i = self.line_idx as int;
        let d = self.decided@;
        let ch = d.last();
        let l = line_bytes(c, i);
        let sp = line_spans(p, c, i);
        &&& ranges_agree(self.ranges@, line_ranges(c))
        &&& good_ranges(c, line_ranges(c))
        &&& self.total == regex_find_spans(p, self.content@).len()
        &&& 0 <= i < line_count(c)
        &&& d.len() == i + 1
        &&& forall|j: int| 0 <= j < i ==> (#[trigger] d[j]).len() == line_spans(p, c, j).len()
        &&& self.spans@ == sp
        &&& lines_ordered(p, c, i + 1)
        &&& valid_utf8(l)
        &&& self.match_idx == ch.len()
        &&& ch.len() < sp.len()
        &&& encode_utf8(self.cur@) == edited_line(p, rep, l, sp, ch)
        &&& self.cur_prefix == edited_prefix(p, rep, l, sp, ch).len()
        &&& encode_utf8(self.pending@) == edited_line(p, rep, l, sp, ch.push(true))
        &&& self.pending_prefix == edited_prefix(p, rep, l, sp, ch.push(true)).len()
        &&& encode_utf8(self.out@) == with_newlines(decided_lines(p, rep, c, d, i))
        &&& self.answered == capped(answered(d))
    }

    /// `pr` is the question the session asks now: the current line as it
    /// stands and with the next match replaced, its number, the number of
    /// this question and the number of matches in the whole text.
    pub open spec fn shows(&self, pr: Prompt) -> bool {
        let c = encode_utf8(self.text());
        let d = self.decided();
        &&& encode_utf8(pr.old_line@) == decided_line(self.pattern(), self.replacement(), c, self.line(), d.last())
        &&& encode_utf8(pr.new_line@) == decided_line(
            self.pattern(),
            self.replacement(),
            c,
            self.line(),
            d.last().push(true),
        )
        &&& pr.line_num == self.line() + 1
        &&& pr.match_num == capped(answered(d) + 1)
        &&& pr.total_matches == regex_find_spans(self.pattern(), self.text()).len()
    }
}

/// `step` asks about the next match of line `line`, in a session on the same
/// text, pattern and replacement, with the decisions `d`.
pub open spec fn asking<'a>(step: Step<'a>, p: Seq<char>, rep: Seq<char>, text: Seq<char>, line: int, d: Seq<Seq<bool>>) -> bool {
    match step {
        Step::Ask(s, pr) => {
            &&& s.pattern() == p
            &&& s.replacement() == rep
            &&& s.text() == text
            &&& s.line() == line
            &&& s.decided() == d
            &&& s.shows(pr)
            &&& lines_ordered(p, encode_utf8(text), line + 1)
        },
        Step::Done(_) => false,
    }
}

/// `step` is what comes once the lines before `from` are decided by `d`:
/// a question on the first line from `from` on with a match, or, where
/// none has one, the finished text.
pub open spec fn reached<'a>(step: Step<'a>, p: Seq<char>, rep: Seq<char>, text: Seq<char>, d: Seq<Seq<bool>>, from: int) -> bool {
    let c = encode_utf8(text);
    let n = line_count(c);
    let j = next_matching_line(p, c, from);
    if j < n {
        asking(step, p, rep, text, j, reach(d, j, n))
    } else {
        step matches Step::Done(t) && encode_utf8(t@) == finished_text(p, rep, c, reach(d, n, n)) && lines_ordered(
            p,
            c,
            n,
        )
    }
}

/// `step` is what a session in state (`line`, `d`) does on answer `a`.
pub open spec fn answered_with<'a>(
    step: Step<'a>,
    p: Seq<char>,
    rep: Seq<char>,
    text: Seq<char>,
    line: int,
    d: Seq<Seq<bool>>,
    a: Answer,
) -> bool {
    let c = encode_utf8(text);
    if a == Answer::Quit {
        step matches Step::Done(t) && encode_utf8(t@) == quit_text(p, rep, c, d, line) && lines_ordered(
            p,
            c,
            line + 1,
        )
    } else {
        let d2 = d.drop_last().push(d.last().push(a == Answer::Apply));
        if d.last().len() + 1 < line_spans(p, c, line).len() {
            asking(step, p, rep, text, line, d2)
        } else {
            reached(step, p, rep, text, d2, line + 1)
        }
    }
}

proof fn lemma_with_newlines_push(ls: Seq<Seq<u8>>, x: Seq<u8>)
    ensures
        with_newlines(ls.push(x)) == with_newlines(ls) + x + seq![10u8],
{
    assert(ls.push(x).drop_last() =~= ls);
}

proof fn lemma_answered_nonneg(d: Seq<Seq<bool>>)
    ensures
        answered(d) >= 0,
    decreases d.len(),
{
    if d.len() > 0 {
        lemma_answered_nonneg(d.drop_last());
    }
}

proof fn lemma_edited_push(p: Seq<char>, rep: Seq<char>, l: Seq<u8>, sp: Seq<(usize, usize)>, ch: Seq<bool>, b: bool)
    requires
        ch.len() < sp.len(),
    ensures
        edited_prefix(p, rep, l, sp, ch.push(b)) == edited_prefix(p, rep, l, sp, ch) + l.subrange(
            span_end(sp, ch.len() as int),
            sp[ch.len() as int].0 as int,
        ) + (if b {
            match_piece(p, rep, l, sp[ch.len() as int])
        } else {
            l.subrange(sp[ch.len() as int].0 as int, sp[ch.len() as int].1 as int)
        }),
{
    assert(ch.push(b).drop_last() =~= ch);
}

proof fn lemma_span_step(sp: Seq<(usize, usize)>, l: Seq<u8>, k: int)
    requires
        spans_in_order(sp, l),
        0 <= k < sp.len(),
    ensures
        0 <= span_end(sp, k) <= sp[k].0 <= sp[k].1 <= l.len(),
        is_char_boundary(l, sp[k].0 as int),
        is_char_boundary(l, sp[k].1 as int),
{
    assert(sp[k].0 <= sp[k].1);
    if k > 0 {
        assert(sp[k - 1].1 <= sp[k].0);
    }
}

/// Drops the final newline byte of `s`.
fn drop_last_newline(s: String) -> (t: String)
    requires
        encode_utf8(s@).len() > 0,
        encode_utf8(s@).last() == 10,
    ensures
        encode_utf8(t@) == encode_utf8(s@).drop_last(),
{
    let st = s.as_str();
    let n = byte_len(st);
    let ghost b = st.spec_bytes();
    proof {
        lemma_view_is_decoded(st);
        lemma_boundary_at_ascii(b, n - 1);
    }
    let head = slice_str(st, 0, n - 1);
    proof {
        lemma_view_is_decoded(head);
        assert(b.subrange(0, n - 1) =~= b.drop_last());
    }
    head.to_owned()
}

/// Goes on from line `from`: copies lines without a match, and asks about
/// the first match of the next line that has one; with no such line left,
/// finishes the text.
fn advance<'a>(
    pattern: &'a Pattern,
    replacement: String,
    content: String,
    ranges: Vec<(usize, usize)>,
    total: usize,
    answered_so_far: usize,
    out: String,
    from: usize,
    Ghost(d): Ghost<Seq<Seq<bool>>>,
) -> (step: Step<'a>)
    requires
        ranges_agree(ranges@, line_ranges(encode_utf8(content@))),
        good_ranges(encode_utf8(content@), line_ranges(encode_utf8(content@))),
        total == regex_find_spans(pattern@, content@).len(),
        from <= line_count(encode_utf8(content@)),
        d.len() == from,
        forall|j: int| 0 <= j < from ==> (#[trigger] d[j]).len() == line_spans(pattern@, encode_utf8(content@), j).len(),
        encode_utf8(out@) == with_newlines(decided_lines(pattern@, replacement@, encode_utf8(content@), d, from as int)),
        answered_so_far == capped(answered(d)),
        lines_ordered(pattern@, encode_utf8(content@), from as int),
    ensures
        reached(step, pattern@, replacement@, content@, d, from as int),
{
    let ghost p = pattern@;
    let ghost rep = replacement@;
    let ghost c = encode_utf8(content@);
    let n = ranges.len();
    let mut idx = from;
    let mut out = out;
    let ghost mut dd = d;
    while idx < n
        invariant
            ranges_agree(ranges@, line_ranges(c)),
            good_ranges(c, line_ranges(c)),
            c == encode_utf8(content@),
            p == pattern@,
            rep == replacement@,
            n == line_count(c),
            from <= idx <= n,
            dd.len() == idx,
            dd == d + Seq::new((idx - from) as nat, |k: int| Seq::<bool>::empty()),
            forall|j: int| 0 <= j < idx ==> (#[trigger] dd[j]).len() == line_spans(p, c, j).len(),
            next_matching_line(p, c, from as int) == next_matching_line(p, c, idx as int),
            encode_utf8(out@) == with_newlines(decided_lines(p, rep, c, dd, idx as int)),
            answered(dd) == answered(d),
            total == regex_find_spans(p, content@).len(),
            answered_so_far == capped(answered(d)),
            lines_ordered(p, c, idx as int),
        decreases n - idx,
    {
        let line = line_str(content.as_str(), &ranges, idx);
        let ghost l = line_bytes(c, idx as int);
        proof {
            lemma_view_is_decoded(line);
        }
        if pattern.is_match(line) {
            let spans = pattern.find_spans(line);
            let cur = line.to_owned();
            let (s0, e0) = spans[0];
            proof {
                lemma_span_step(spans@, l, 0);
                assert(line.spec_bytes() =~= Seq::<u8>::empty() + l.subrange(0, l.len() as int));
            }
            let (pending, pending_prefix) = apply_match(
                pattern,
                replacement.as_str(),
                line,
                0,
                0,
                s0,
                e0,
                Ghost(l),
                Ghost(Seq::<u8>::empty()),
            );
            let ghost d2 = dd.push(Seq::<bool>::empty());
            proof {
                let e: Seq<bool> = Seq::empty();
                lemma_edited_push(p, rep, l, spans@, e, true);
                assert(e.push(true) =~= seq![true]);
                assert(d2.last() =~= e);
                assert(encode_utf8(cur@) =~= edited_line(p, rep, l, spans@, e));
                assert(decided_lines(p, rep, c, d2, idx as int) =~= decided_lines(p, rep, c, dd, idx as int));
                assert(d2.drop_last() =~= dd);
                assert(next_matching_line(p, c, idx as int) == idx);
                assert(d2 =~= reach(d, idx as int, n as int));
                lemma_answered_nonneg(d);
            }
            let prompt = Prompt {
                old_line: cur.clone(),
                new_line: pending.clone(),
                line_num: idx + 1,
                match_num: answered_so_far.saturating_add(1),
                total_matches: total,
            };
            let session = Session {
                pattern,
                replacement,
                content,
                ranges,
                total,
                line_idx: idx,
                spans,
                match_idx: 0,
                answered: answered_so_far,
                cur,
                cur_prefix: 0,
                pending,
                pending_prefix,
                out,
                decided: Ghost(d2),
            };
            proof {
                assert(session.inv());
                assert(session.shows(prompt));
                assert(next_matching_line(p, c, from as int) == idx);
            }
            return Step::Ask(session, prompt);
        }
        push_str(&mut out, line);
        push_newline(&mut out);
        proof {
            let e: Seq<bool> = Seq::empty();
            let dd2 = dd.push(e);
            assert(l.subrange(0, l.len() as int) =~= l);
            assert(decided_line(p, rep, c, idx as int, e) =~= l);
            assert(decided_lines(p, rep, c, dd2, idx + 1) =~= decided_lines(p, rep, c, dd, idx as int).push(l));
            lemma_with_newlines_push(decided_lines(p, rep, c, dd, idx as int), l);
            assert(dd2 =~= d + Seq::new((idx + 1 - from) as nat, |k: int| Seq::<bool>::empty()));
            assert(dd2.drop_last() =~= dd);
            dd = dd2;
        }
        idx = idx + 1;
    }
    let cb = content.as_str().as_bytes();
    let ends = cb.len() > 0 && cb[cb.len() - 1] == 10;
    proof {
        assert(dd =~= reach(d, n as int, n as int));
        assert(ends == ends_with_newline(c));
    }
    if n > 0 && !ends {
        proof {
            let ls = decided_lines(p, rep, c, dd, n as int);
            assert(ls.drop_last() =~= decided_lines(p, rep, c, dd, n - 1));
        }
        let text = drop_last_newline(out);
        Step::Done(text)
    } else {
        Step::Done(out)
    }
}

impl<'a> Session<'a> {
    /// Starts a session on `content`: asks about the first match, or, where
    /// there is none, hands back the text with its lines rejoined.
    pub fn start(content: String, pattern: &'a Pattern, replacement: String) -> (step: Step<'a>)
        ensures
            reached(step, pattern@, replacement@, content@, Seq::empty(), 0),
    {
        let ranges = line_ranges_of(content.as_str());
        let total = pattern.find_spans(content.as_str()).len();
        let out = String::new();
        proof {
            assert(encode_utf8(out@) =~= with_newlines(decided_lines(pattern@, replacement@, encode_utf8(content@), Seq::empty(), 0)));
        }
        advance(pattern, replacement, content, ranges, total, 0, out, 0, Ghost(Seq::empty()))
    }
}

impl<'a> Session<'a> {
    /// Takes the user's answer to the current question: `Quit` hands back
    /// the text as it stands, with the rest of the lines as they were;
    /// otherwise the match is replaced or kept and the session moves on.
    pub fn answer(self, a: Answer) -> (step: Step<'a>)
        ensures
            answered_with(step, self.pattern(), self.replacement(), self.text(), self.line(), self.decided(), a),
    {
        proof {
            use_type_invariant(&self);
        }
        let ghost p = self.pattern@;
        let ghost rep = self.replacement@;
        let ghost c = encode_utf8(self.content@);
        let ghost i = self.line_idx as int;
        let ghost d = self.decided@;
        let ghost ch = d.last();
        let ghost l = line_bytes(c, i);
        let ghost sp = line_spans(p, c, i);
        let Session {
            pattern,
            replacement,
            content,
            ranges,
            total,
            line_idx,
            spans,
            match_idx,
            answered: answered_so_far,
            cur,
            cur_prefix,
            pending,
            pending_prefix,
            out,
            decided: _,
        } = self;
        let n_spans = spans.len();
        let n_lines = ranges.len();
        let mut out = out;
        match a {
            Answer::Quit => {
                push_str(&mut out, cur.as_str());
                push_newline(&mut out);
                let n = n_lines;
                let mut r = line_idx + 1;
                proof {
                    assert(d[i] == ch);
                    assert(unchanged_lines(c, i + 1, 0) =~= Seq::<Seq<u8>>::empty());
                }
                while r < n
                    invariant
                        ranges_agree(ranges@, line_ranges(c)),
                        good_ranges(c, line_ranges(c)),
                        c == encode_utf8(content@),
                        n == line_count(c),
                        i == line_idx,
                        i + 1 <= r <= n,
                        encode_utf8(out@) == with_newlines(decided_lines(p, rep, c, d, i))
                            + decided_line(p, rep, c, i, d[i]) + seq![10u8]
                            + with_newlines(unchanged_lines(c, i + 1, r - i - 1)),
                    decreases n - r,
                {
                    let line = line_str(content.as_str(), &ranges, r);
                    push_str(&mut out, line);
                    push_newline(&mut out);
                    proof {
                        let ls = unchanged_lines(c, i + 1, r - i - 1);
                        assert(unchanged_lines(c, i + 1, r + 1 - i - 1) =~= ls.push(line_bytes(c, r as int)));
                        lemma_with_newlines_push(ls, line_bytes(c, r as int));
                    }
                    r = r + 1;
                }
                let cb = content.as_str().as_bytes();
                let ends = cb.len() > 0 && cb[cb.len() - 1] == 10;
                proof {
                    assert(ends == ends_with_newline(c));
                    let ls = unchanged_lines(c, i + 1, n - i - 1);
                    let head = with_newlines(decided_lines(p, rep, c, d, i)) + decided_line(p, rep, c, i, d[i]) + seq![10u8];
                    if ls.len() == 0 {
                        assert(with_newlines(ls) =~= Seq::<u8>::empty());
                        assert(encode_utf8(out@) =~= head);
                    } else {
                        assert(with_newlines(ls) == with_newlines(ls.drop_last()) + ls.last() + seq![10u8]);
                    }
                    assert(encode_utf8(out@).len() > 0);
                    assert(encode_utf8(out@).last() == 10);
                }
                if !ends {
                    let text = drop_last_newline(out);
                    Step::Done(text)
                } else {
                    Step::Done(out)
                }
            },
            _ => {
                let apply = match a {
                    Answer::Apply => true,
                    _ => false,
                };
                let k = match_idx;
                let (s, e) = spans[k];
                let e_prev = if k == 0 {
                    0
                } else {
                    spans[k - 1].1
                };
                let cur_len = byte_len(cur.as_str());
                let ghost ch2 = ch.push(apply);
                let ghost d2 = d.drop_last().push(ch2);
                proof {
                    lemma_span_step(sp, l, k as int);
                    lemma_edited_push(p, rep, l, sp, ch, apply);
                    lemma_edited_push(p, rep, l, sp, ch, true);
                    assert(e_prev == span_end(sp, k as int));
                }
                let (cur2, prefix2) = if apply {
                    (pending, pending_prefix)
                } else {
                    proof {
                        assert(edited_line(p, rep, l, sp, ch2) =~= edited_line(p, rep, l, sp, ch));
                    }
                    (cur, cur_prefix + (e - e_prev))
                };
                let answered2 = answered_so_far.saturating_add(1);
                proof {
                    assert(d2.drop_last() =~= d.drop_last());
                    lemma_answered_nonneg(d.drop_last());
                    assert(answered(d2) == answered(d) + 1);
                    assert(forall|j: int| 0 <= j < i ==> d2[j] == d[j]);
                    assert(decided_lines(p, rep, c, d2, i) =~= decided_lines(p, rep, c, d, i));
                    assert(encode_utf8(cur2@) == edited_prefix(p, rep, l, sp, ch2) + l.subrange(e as int, l.len() as int));
                    assert(d2.last() == ch2);
                }
                if k + 1 < n_spans {
                    let (s2, e2) = spans[k + 1];
                    proof {
                        lemma_span_step(sp, l, k + 1);
                        lemma_edited_push(p, rep, l, sp, ch2, true);
                    }
                    let (pend, pprefix) = apply_match(
                        pattern,
                        replacement.as_str(),
                        cur2.as_str(),
                        prefix2,
                        e,
                        s2,
                        e2,
                        Ghost(l),
                        Ghost(edited_prefix(p, rep, l, sp, ch2)),
                    );
                    let prompt = Prompt {
                        old_line: cur2.clone(),
                        new_line: pend.clone(),
                        line_num: line_idx + 1,
                        match_num: answered2.saturating_add(1),
                        total_matches: total,
                    };
                    let session = Session {
                        pattern,
                        replacement,
                        content,
                        ranges,
                        total,
                        line_idx,
                        spans,
                        match_idx: k + 1,
                        answered: answered2,
                        cur: cur2,
                        cur_prefix: prefix2,
                        pending: pend,
                        pending_prefix: pprefix,
                        out,
                        decided: Ghost(d2),
                    };
                    proof {
                        assert(session.inv());
                    }
                    Step::Ask(session, prompt)
                } else {
                    push_str(&mut out, cur2.as_str());
                    push_newline(&mut out);
                    proof {
                        assert(l.subrange(e as int, l.len() as int) =~= l.subrange(span_end(sp, ch2.len() as int), l.len() as int));
                        assert(decided_lines(p, rep, c, d2, i + 1) =~= decided_lines(p, rep, c, d2, i).push(
                            decided_line(p, rep, c, i, ch2),
                        ));
                        lemma_with_newlines_push(decided_lines(p, rep, c, d2, i), decided_line(p, rep, c, i, ch2));
                        assert forall|j: int| 0 <= j < i + 1 implies (#[trigger] d2[j]).len() == line_spans(p, c, j).len() by {
                            if j < i {
                                assert(d2[j] == d[j]);
                            }
                        }
                    }
                    advance(pattern, replacement, content, ranges, total, answered2, out, line_idx + 1, Ghost(d2))
                }
            },
        }
    }
}

/// The text rebuilt from its lines as they are: each followed by a
/// newline, the last newline dropped where the text did not end with one.
pub open spec fn rejoined(c: Seq<u8>) -> Seq<u8> {
    let t = with_newlines(unchanged_lines(c, 0, line_count(c)));
    if line_count(c) > 0 && !ends_with_newline(c) {
        t.drop_last()
    } else {
        t
    }
}

proof fn lemma_skipped_prefix(p: Seq<char>, rep: Seq<char>, l: Seq<u8>, sp: Seq<(usize, usize)>, ch: Seq<bool>)
    requires
        spans_in_order(sp, l),
        ch.len() <= sp.len(),
        forall|k: int| 0 <= k < ch.len() ==> !ch[k],
    ensures
        edited_prefix(p, rep, l, sp, ch) == l.subrange(0, span_end(sp, ch.len() as int)),
        0 <= span_end(sp, ch.len() as int) <= l.len(),
    decreases ch.len(),
{
    if ch.len() > 0 {
        let k = ch.len() - 1;
        lemma_skipped_prefix(p, rep, l, sp, ch.drop_last());
        lemma_span_step(sp, l, k);
        assert(l.subrange(0, span_end(sp, k)) + l.subrange(span_end(sp, k), sp[k].0 as int) + l.subrange(
            sp[k].0 as int,
            sp[k].1 as int,
        ) =~= l.subrange(0, sp[k].1 as int));
    }
}

/// Declining a change keeps the line: a line whose decided matches were
/// all skipped is the line as it was.
pub proof fn lemma_skipping_keeps_line(p: Seq<char>, rep: Seq<char>, l: Seq<u8>, sp: Seq<(usize, usize)>, ch: Seq<bool>)
    requires
        spans_in_order(sp, l),
        ch.len() <= sp.len(),
        forall|k: int| 0 <= k < ch.len() ==> !ch[k],
    ensures
        edited_line(p, rep, l, sp, ch) == l,
{
    lemma_skipped_prefix(p, rep, l, sp, ch);
    assert(l.subrange(0, span_end(sp, ch.len() as int)) + l.subrange(span_end(sp, ch.len() as int), l.len() as int) =~= l);
}

/// Declining every change gives back the text with its lines rejoined.
pub proof fn lemma_skipping_all_rejoins(p: Seq<char>, rep: Seq<char>, c: Seq<u8>, d: Seq<Seq<bool>>)
    requires
        d.len() == line_count(c),
        lines_ordered(p, c, d.len() as int),
        forall|i: int| 0 <= i < d.len() ==> (#[trigger] d[i]).len() <= line_spans(p, c, i).len(),
        forall|i: int, k: int| 0 <= i < d.len() && 0 <= k < d[i].len() ==> !(#[trigger] d[i][k]),
    ensures
        finished_text(p, rep, c, d) == rejoined(c),
{
    assert forall|i: int| 0 <= i < line_count(c) implies #[trigger] decided_line(p, rep, c, i, d[i]) == line_bytes(c, i) by {
        lemma_skipping_keeps_line(p, rep, line_bytes(c, i), line_spans(p, c, i), d[i]);
    }
    assert(decided_lines(p, rep, c, d, line_count(c)) =~= unchanged_lines(c, 0, line_count(c)));
}

/// The bytes of each range of `c`.
pub open spec fn range_texts(c: Seq<u8>, r: Seq<(int, int)>) -> Seq<Seq<u8>> {
    Seq::new(r.len(), |i: int| c.subrange(r[i].0, r[i].1))
}

proof fn lemma_with_newlines_cons(x: Seq<u8>, rest: Seq<Seq<u8>>)
    ensures
        with_newlines(seq![x] + rest) == x + seq![10u8] + with_newlines(rest),
    decreases rest.len(),
{
    if rest.len() == 0 {
        assert(seq![x] + rest =~= seq![x]);
        assert(seq![x].drop_last() =~= Seq::<Seq<u8>>::empty());
        assert(x + seq![10u8] + with_newlines(rest) =~= x + seq![10u8]);
        assert(with_newlines(seq![x]) == with_newlines(Seq::<Seq<u8>>::empty()) + x + seq![10u8]);
        assert(with_newlines(Seq::<Seq<u8>>::empty()) + x + seq![10u8] =~= x + seq![10u8]);
    } else {
        let whole = seq![x] + rest;
        assert(whole.drop_last() =~= seq![x] + rest.drop_last());
        assert(whole.last() == rest.last());
        lemma_with_newlines_cons(x, rest.drop_last());
        assert(with_newlines(whole) == with_newlines(whole.drop_last()) + whole.last() + seq![10u8]);
        assert(with_newlines(rest) == with_newlines(rest.drop_last()) + rest.last() + seq![10u8]);
        assert(x + seq![10u8] + with_newlines(rest.drop_last()) + rest.last() + seq![10u8] =~= x + seq![10u8] + (
        with_newlines(rest.drop_last()) + rest.last() + seq![10u8]));
    }
}

proof fn lemma_rejoin_from(c: Seq<u8>, pos: int)
    requires
        0 <= pos <= c.len(),
        forall|k: int| 0 <= k < c.len() ==> c[k] != 13,
    ensures
        with_newlines(range_texts(c, line_ranges_from(c, pos))) == (if pos == c.len() || ends_with_newline(c) {
            c.subrange(pos, c.len() as int)
        } else {
            c.subrange(pos, c.len() as int).push(10u8)
        }),
    decreases c.len() - pos,
{
    if pos == c.len() {
        assert(range_texts(c, line_ranges_from(c, pos)) =~= Seq::<Seq<u8>>::empty());
        assert(c.subrange(pos, c.len() as int) =~= Seq::<u8>::empty());
    } else {
        lemma_next_newline(c, pos);
        let nl = next_newline(c, pos);
        let e = line_end(c, pos);
        assert(e == nl);
        let rest = line_ranges_from(c, nl + 1);
        assert(line_ranges_from(c, pos) == seq![(pos, e)] + rest);
        assert(range_texts(c, seq![(pos, e)] + rest) =~= seq![c.subrange(pos, nl)] + range_texts(c, rest));
        lemma_with_newlines_cons(c.subrange(pos, nl), range_texts(c, rest));
        if nl < c.len() {
            lemma_rejoin_from(c, nl + 1);
            if nl + 1 == c.len() {
                assert(ends_with_newline(c));
                assert(c.subrange(pos, nl) + seq![10u8] + c.subrange(nl + 1, c.len() as int) =~= c.subrange(pos, c.len() as int));
            } else if ends_with_newline(c) {
                assert(c.subrange(pos, nl) + seq![10u8] + c.subrange(nl + 1, c.len() as int) =~= c.subrange(pos, c.len() as int));
            } else {
                assert(c.subrange(pos, nl) + seq![10u8] + c.subrange(nl + 1, c.len() as int).push(10u8) =~= c.subrange(pos, c.len() as int).push(10u8));
            }
        } else {
            assert(!ends_with_newline(c)) by {
                assert(c[c.len() - 1] != 10);
            }
            assert(rest =~= Seq::<(int, int)>::empty());
            assert(range_texts(c, rest) =~= Seq::<Seq<u8>>::empty());
            assert(c.subrange(pos, nl) + seq![10u8] =~= c.subrange(pos, c.len() as int).push(10u8));
        }
    }
}

/// A text without carriage returns is its lines rejoined.
pub proof fn lemma_rejoined_without_cr(c: Seq<u8>)
    requires
        forall|k: int| 0 <= k < c.len() ==> c[k] != 13,
    ensures
        rejoined(c) == c,
{
    lemma_rejoin_from(c, 0);
    assert(unchanged_lines(c, 0, line_count(c)) =~= range_texts(c, line_ranges(c)));
    assert(c.subrange(0, c.len() as int) =~= c);
    if c.len() == 0 {
        assert(line_count(c) == 0);
    } else {
        assert(line_count(c) > 0);
        assert(c.push(10u8).drop_last() =~= c);
    }
}

/// Declining every proposed change leaves a text without carriage returns
/// exactly as it was.
pub proof fn lemma_declining_keeps_text(p: Seq<char>, rep: Seq<char>, c: Seq<u8>, d: Seq<Seq<bool>>)
    requires
        forall|k: int| 0 <= k < c.len() ==> c[k] != 13,
        d.len() == line_count(c),
        lines_ordered(p, c, d.len() as int),
        forall|i: int| 0 <= i < d.len() ==> (#[trigger] d[i]).len() <= line_spans(p, c, i).len(),
        forall|i: int, k: int| 0 <= i < d.len() && 0 <= k < d[i].len() ==> !(#[trigger] d[i][k]),
    ensures
        finished_text(p, rep, c, d) == c,
{
    lemma_skipping_all_rejoins(p, rep, c, d);
    lemma_rejoined_without_cr(c);
}

proof fn lemma_with_newlines_concat(a: Seq<Seq<u8>>, b: Seq<Seq<u8>>)
    ensures
        with_newlines(a + b) == with_newlines(a) + with_newlines(b),
    decreases b.len(),
{
    if b.len() == 0 {
        assert(a + b =~= a);
        assert(with_newlines(a) + with_newlines(b) =~= with_newlines(a));
    } else {
        assert((a + b).drop_last() =~= a + b.drop_last());
        assert((a + b).last() == b.last());
        lemma_with_newlines_concat(a, b.drop_last());
        assert(with_newlines(a) + (with_newlines(b.drop_last()) + b.last() + seq![10u8]) =~= with_newlines(a)
            + with_newlines(b.drop_last()) + b.last() + seq![10u8]);
    }
}

/// Quitting after declining every change so far gives back the text with
/// its lines rejoined; a text without carriage returns comes back exactly.
pub proof fn lemma_quitting_after_declining(p: Seq<char>, rep: Seq<char>, c: Seq<u8>, d: Seq<Seq<bool>>, i: int)
    requires
        0 <= i < line_count(c),
        d.len() == i + 1,
        lines_ordered(p, c, d.len() as int),
        forall|j: int| 0 <= j < d.len() ==> (#[trigger] d[j]).len() <= line_spans(p, c, j).len(),
        forall|j: int, k: int| 0 <= j < d.len() && 0 <= k < d[j].len() ==> !(#[trigger] d[j][k]),
    ensures
        quit_text(p, rep, c, d, i) == rejoined(c),
        (forall|k: int| 0 <= k < c.len() ==> c[k] != 13) ==> quit_text(p, rep, c, d, i) == c,
{
    let n = line_count(c);
    assert forall|j: int| 0 <= j <= i implies #[trigger] decided_line(p, rep, c, j, d[j]) == line_bytes(c, j) by {
        lemma_skipping_keeps_line(p, rep, line_bytes(c, j), line_spans(p, c, j), d[j]);
    }
    let before = decided_lines(p, rep, c, d, i);
    let after = unchanged_lines(c, i + 1, n - i - 1);
    assert(before =~= unchanged_lines(c, 0, i));
    lemma_with_newlines_push(before, line_bytes(c, i));
    lemma_with_newlines_concat(before.push(line_bytes(c, i)), after);
    assert(before.push(line_bytes(c, i)) + after =~= unchanged_lines(c, 0, n));
    assert(quit_lines(p, rep, c, d, i) == with_newlines(unchanged_lines(c, 0, n)));
    if forall|k: int| 0 <= k < c.len() ==> c[k] != 13 {
        lemma_rejoined_without_cr(c);
    }
}

} // verus!
