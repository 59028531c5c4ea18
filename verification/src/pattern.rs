use vstd::prelude::*;
use vstd::utf8::*;
use vstd::string::StringSliceAdditionalSpecFns;

verus! {

#[verifier::external_type_specification]
#[verifier::external_body]
pub struct ExRegex(regex::Regex);

/// What `regex::Regex::new` makes of a pattern: `Ok(())` where it compiles
/// it, the text of its error (as `Display` writes it) where it refuses it.
pub uninterp spec fn regex_compile_result(pattern: Seq<char>) -> Result<(), Seq<char>>;

/// Whether `regex::Regex::is_match` finds a match of the pattern in the text.
pub uninterp spec fn regex_is_match(pattern: Seq<char>, text: Seq<char>) -> bool;

/// The byte spans of the matches that `regex::Regex::find_iter` yields, in order.
pub uninterp spec fn regex_find_spans(pattern: Seq<char>, text: Seq<char>) -> Seq<(usize, usize)>;

/// What `regex::Regex::replace_all` makes of the text with this replacement.
pub uninterp spec fn regex_replace_all(pattern: Seq<char>, text: Seq<char>, rep: Seq<char>) -> Seq<char>;

/// What `regex::Regex::replace` (the first match only) makes of the text.
pub uninterp spec fn regex_replace_first(pattern: Seq<char>, text: Seq<char>, rep: Seq<char>) -> Seq<char>;

/// Spans of matches in `bytes`: each lies inside the text with both ends on
/// character boundaries, and they come in order without overlapping.
pub open spec fn spans_in_order(spans: Seq<(usize, usize)>, bytes: Seq<u8>) -> bool {
    &&& forall|i: int|
        0 <= i < spans.len() ==> {
            &&& (#[trigger] spans[i]).0 <= spans[i].1 <= bytes.len()
            &&& is_char_boundary(bytes, spans[i].0 as int)
            &&& is_char_boundary(bytes, spans[i].1 as int)
        }
    &&& forall|i: int, j: int|
        0 <= i < j < spans.len() ==> (#[trigger] spans[i]).1 <= (#[trigger] spans[j]).0
}

/// `b` with the spans (given in order) replaced by `pieces`, one piece per
/// span.
pub open spec fn spliced(b: Seq<u8>, spans: Seq<(usize, usize)>, pieces: Seq<Seq<u8>>) -> Seq<u8>
    decreases spans.len(),
{
    if spans.len() == 0 || pieces.len() == 0 {
        b
    } else {
        let k = spans.len() - 1;
        spliced(b.subrange(0, spans[k].0 as int), spans.drop_last(), pieces.drop_last()) + pieces.last()
            + b.subrange(spans[k].1 as int, b.len() as int)
    }
}

/// `res` is `text` with each of the spans replaced by some text of its own.
pub open spec fn replaces_spans(res: Seq<u8>, text: Seq<u8>, spans: Seq<(usize, usize)>) -> bool {
    exists|pieces: Seq<Seq<u8>>| pieces.len() == spans.len() && res == spliced(text, spans, pieces)
}

/// `regex::Regex::new`. The contract names its outcome; on an error it hands
/// back the error's text, which is how the caller reports it.
#[verifier::external_body]
fn compile_regex(pattern: &str) -> (res: Result<regex::Regex, String>)
    ensures
        res is Ok <==> regex_compile_result(pattern@) is Ok,
        res is Err ==> regex_compile_result(pattern@) == Err::<(), Seq<char>>(res->Err_0@),
{
    match regex::Regex::new(pattern) {
        Ok(regex) => Ok(regex),
        Err(e) => Err(e.to_string()),
    }
}

/// A regular expression, kept as the pattern it is compiled from. Each
/// search compiles `source` afresh with `regex::Regex::new`, so what a
/// pattern does is always what the regex crate makes of its source; the
/// invariant records that the source compiles.
pub struct Pattern {
    source: String,
}

impl Pattern {
    #[verifier::type_invariant]
    spec fn compiles(self) -> bool {
        regex_compile_result(self.source@) is Ok
    }
}

impl View for Pattern {
    type V = Seq<char>;

    closed spec fn view(&self) -> Seq<char> {
        self.source@
    }
}

/// `regex::Regex::is_match` on the pattern's compiled form.
#[verifier::external_body]
fn regex_is_match_exec(p: &Pattern, text: &str) -> (found: bool)
    requires
        regex_compile_result(p@) is Ok,
    ensures
        found == regex_is_match(p@, text@),
        found <==> regex_find_spans(p@, text@).len() > 0,
{
    match regex::Regex::new(&p.source) {
        Ok(regex) => regex.is_match(text),
        Err(_) => false,
    }
}

/// `regex::Regex::find_iter`, each match taken as its byte span. The
/// documentation guarantees the order, the absence of overlaps and that
/// both ends fall on character boundaries.
#[verifier::external_body]
fn regex_find_spans_exec(p: &Pattern, text: &str) -> (spans: Vec<(usize, usize)>)
    requires
        regex_compile_result(p@) is Ok,
    ensures
        spans@ == regex_find_spans(p@, text@),
        spans_in_order(spans@, text.spec_bytes()),
{
    match regex::Regex::new(&p.source) {
        Ok(regex) => regex.find_iter(text).map(|m| (m.start(), m.end())).collect(),
        Err(_) => Vec::new(),
    }
}

/// `regex::Regex::replace_all`, owned. Each match is replaced by its
/// expansion of `rep` and the text between matches is copied; without a
/// match the text comes back unchanged.
#[verifier::external_body]
fn regex_replace_all_exec(p: &Pattern, text: &str, rep: &str) -> (res: String)
    requires
        regex_compile_result(p@) is Ok,
    ensures
        res@ == regex_replace_all(p@, text@, rep@),
        regex_find_spans(p@, text@).len() == 0 ==> res@ == text@,
        replaces_spans(encode_utf8(res@), text.spec_bytes(), regex_find_spans(p@, text@)),
{
    match regex::Regex::new(&p.source) {
        Ok(regex) => regex.replace_all(text, rep).into_owned(),
        Err(_) => text.to_owned(),
    }
}

/// `regex::Regex::replace`, owned. Without a match the text comes back unchanged.
#[verifier::external_body]
fn regex_replace_first_exec(p: &Pattern, text: &str, rep: &str) -> (res: String)
    requires
        regex_compile_result(p@) is Ok,
    ensures
        res@ == regex_replace_first(p@, text@, rep@),
        regex_find_spans(p@, text@).len() == 0 ==> res@ == text@,
{
    match regex::Regex::new(&p.source) {
        Ok(regex) => regex.replace(text, rep).into_owned(),
        Err(_) => text.to_owned(),
    }
}

impl Pattern {
    /// Compiles `source`; on failure gives the regex crate's error text.
    pub fn new(source: &str) -> (res: Result<Pattern, String>)
        ensures
            res is Ok <==> regex_compile_result(source@) is Ok,
            res matches Ok(p) ==> p@ == source@,
            res matches Err(msg) ==> regex_compile_result(source@) == Err::<(), Seq<char>>(msg@),
    {
        match compile_regex(source) {
            Ok(_) => Ok(Pattern { source: source.to_owned() }),
            Err(msg) => Err(msg),
        }
    }

    /// The pattern this was compiled from.
    pub fn source(&self) -> (s: &str)
        ensures
            s@ == self@,
    {
        self.source.as_str()
    }

    /// Whether the pattern matches anywhere in `text`.
    pub fn is_match(&self, text: &str) -> (found: bool)
        ensures
            found == regex_is_match(self@, text@),
            found <==> regex_find_spans(self@, text@).len() > 0,
    {
        proof {
            use_type_invariant(self);
        }
        regex_is_match_exec(self, text)
    }

    /// The byte spans of all matches in `text`, in order.
    pub fn find_spans(&self, text: &str) -> (spans: Vec<(usize, usize)>)
        ensures
            spans@ == regex_find_spans(self@, text@),
            spans_in_order(spans@, text.spec_bytes()),
    {
        proof {
            use_type_invariant(self);
        }
        regex_find_spans_exec(self, text)
    }

    /// Every match in `text` replaced by `rep`, with `$N` expanded.
    pub fn replace_all(&self, text: &str, rep: &str) -> (res: String)
        ensures
            res@ == regex_replace_all(self@, text@, rep@),
            regex_find_spans(self@, text@).len() == 0 ==> res@ == text@,
            replaces_spans(encode_utf8(res@), text.spec_bytes(), regex_find_spans(self@, text@)),
    {
        proof {
            use_type_invariant(self);
        }
        regex_replace_all_exec(self, text, rep)
    }

    /// The first match in `text` replaced by `rep`, with `$N` expanded.
    pub fn replace_first(&self, text: &str, rep: &str) -> (res: String)
        ensures
            res@ == regex_replace_first(self@, text@, rep@),
            regex_find_spans(self@, text@).len() == 0 ==> res@ == text@,
    {
        proof {
            use_type_invariant(self);
        }
        regex_replace_first_exec(self, text, rep)
    }
}

/// A pattern made from `source` does what the regex crate's compilation of
/// `source` does: it finds, matches and replaces exactly as
/// `regex::Regex::new(source)` would, whatever the text and replacement.
pub proof fn lemma_pattern_acts_as_its_source(
    source: &str,
    p: Pattern,
    text: &str,
    rep: &str,
    found: bool,
    spans: Vec<(usize, usize)>,
    all: String,
    first: String,
)
    requires
        call_ensures(Pattern::new, (source,), Ok::<Pattern, String>(p)),
        call_ensures(Pattern::is_match, (&p, text), found),
        call_ensures(Pattern::find_spans, (&p, text), spans),
        call_ensures(Pattern::replace_all, (&p, text, rep), all),
        call_ensures(Pattern::replace_first, (&p, text, rep), first),
    ensures
        found == regex_is_match(source@, text@),
        spans@ == regex_find_spans(source@, text@),
        all@ == regex_replace_all(source@, text@, rep@),
        first@ == regex_replace_first(source@, text@, rep@),
{
}

} // verus!

verus! {

/// The spans lie within `len` bytes, in order, without overlapping.
pub open spec fn spans_ordered(spans: Seq<(usize, usize)>, len: int) -> bool {
    &&& forall|i: int| 0 <= i < spans.len() ==> (#[trigger] spans[i]).0 <= spans[i].1 <= len
    &&& forall|i: int, j: int| 0 <= i < j < spans.len() ==> (#[trigger] spans[i]).1 <= (#[trigger] spans[j]).0
}

proof fn lemma_spliced_keeps_ends(b: Seq<u8>, spans: Seq<(usize, usize)>, pieces: Seq<Seq<u8>>)
    requires
        spans_ordered(spans, b.len() as int),
        spans.len() > 0,
        pieces.len() == spans.len(),
    ensures
        spliced(b, spans, pieces).len() >= spans[0].0 + (b.len() - spans[spans.len() - 1].1),
        spliced(b, spans, pieces).subrange(0, spans[0].0 as int) == b.subrange(0, spans[0].0 as int),
        spliced(b, spans, pieces).subrange(
            spliced(b, spans, pieces).len() - (b.len() - spans[spans.len() - 1].1),
            spliced(b, spans, pieces).len() as int,
        ) == b.subrange(spans[spans.len() - 1].1 as int, b.len() as int),
    decreases spans.len(),
{
    let k = spans.len() - 1;
    let front = b.subrange(0, spans[k].0 as int);
    let inner = spliced(front, spans.drop_last(), pieces.drop_last());
    let whole = spliced(b, spans, pieces);
    assert(spans[k].0 <= spans[k].1 <= b.len());
    assert(whole == inner + pieces.last() + b.subrange(spans[k].1 as int, b.len() as int));
    if k == 0 {
        assert(spans.drop_last().len() == 0);
        assert(inner == front);
        assert(whole.subrange(0, spans[0].0 as int) =~= b.subrange(0, spans[0].0 as int));
    } else {
        assert(spans[0].0 <= spans[0].1 <= spans[k].0);
        let rest = spans.drop_last();
        assert(spans_ordered(rest, front.len() as int)) by {
            assert forall|i: int| 0 <= i < rest.len() implies (#[trigger] rest[i]).0 <= rest[i].1 <= front.len() by {
                assert(rest[i] == spans[i]);
                assert(spans[i].1 <= spans[k].0);
            }
            assert forall|i: int, j: int| 0 <= i < j < rest.len() implies (#[trigger] rest[i]).1 <= (#[trigger] rest[j]).0 by {
                assert(rest[i] == spans[i]);
                assert(rest[j] == spans[j]);
            }
        }
        lemma_spliced_keeps_ends(front, rest, pieces.drop_last());
        assert(rest[0] == spans[0]);
        assert(whole.subrange(0, spans[0].0 as int) =~= inner.subrange(0, spans[0].0 as int));
        assert(front.subrange(0, spans[0].0 as int) =~= b.subrange(0, spans[0].0 as int));
    }
    assert(whole.subrange(whole.len() - (b.len() - spans[k].1), whole.len() as int) =~= b.subrange(
        spans[k].1 as int,
        b.len() as int,
    ));
}

/// Replacing every match leaves the text before the first match and the
/// text after the last one as they were.
pub proof fn lemma_replacement_keeps_ends(res: Seq<u8>, text: Seq<u8>, spans: Seq<(usize, usize)>)
    requires
        spans_in_order(spans, text),
        spans.len() > 0,
        replaces_spans(res, text, spans),
    ensures
        res.len() >= spans[0].0 + (text.len() - spans[spans.len() - 1].1),
        res.subrange(0, spans[0].0 as int) == text.subrange(0, spans[0].0 as int),
        res.subrange(res.len() - (text.len() - spans[spans.len() - 1].1), res.len() as int) == text.subrange(
            spans[spans.len() - 1].1 as int,
            text.len() as int,
        ),
{
    let pieces = choose|pieces: Seq<Seq<u8>>| pieces.len() == spans.len() && res == spliced(text, spans, pieces);
    assert(spans_ordered(spans, text.len() as int)) by {
        assert forall|i: int| 0 <= i < spans.len() implies (#[trigger] spans[i]).0 <= spans[i].1 <= text.len() by {}
    }
    lemma_spliced_keeps_ends(text, spans, pieces);
}

} // verus!
