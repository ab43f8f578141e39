//! The span-marker codec that carries cue lines through a translation service.
//!
//! Each line of a cue is wrapped in `<span>`…`</span>` and the wrapped lines
//! are concatenated; the service keeps the markup and returns one string per
//! cue. Decoding undoes HTML entity escaping and then takes, in order, the
//! text of each span found by a non-greedy scan.

use vstd::prelude::*;

use crate::srt::{cue_views, string_views, Cue, Subtitle, Subtitles};
use crate::text::{chars_of, chars_to_string};

verus! {

pub open spec fn open_tag() -> Seq<char> {
    seq!['<', 's', 'p', 'a', 'n', '>']
}

pub open spec fn close_tag() -> Seq<char> {
    seq!['<', '/', 's', 'p', 'a', 'n', '>']
}

/// Whether `s` begins with `m`.
pub open spec fn starts_with(s: Seq<char>, m: Seq<char>) -> bool {
    m.len() <= s.len() && s.take(m.len() as int) == m
}

/// Whether `m` occurs anywhere in `s`.
pub open spec fn occurs_in(m: Seq<char>, s: Seq<char>) -> bool {
    exists|i: int| 0 <= i <= s.len() && #[trigger] starts_with(s.skip(i), m)
}

/// One line in its span.
pub open spec fn span_of(line: Seq<char>) -> Seq<char> {
    open_tag() + line + close_tag()
}

/// The markup that stands for a cue's lines: each line in its span, one after
/// the other, with nothing between them.
pub open spec fn html_of(lines: Seq<Seq<char>>) -> Seq<char>
    decreases lines.len(),
{
    if lines.len() == 0 {
        Seq::empty()
    } else {
        html_of(lines.drop_last()) + span_of(lines.last())
    }
}

/// Where the first closing tag starts in `s`, provided no newline comes before it.
pub open spec fn close_offset(s: Seq<char>) -> Option<nat>
    decreases s.len(),
{
    if s.len() == 0 {
        None
    } else if starts_with(s, close_tag()) {
        Some(0)
    } else if s[0] == '\n' {
        None
    } else {
        match close_offset(s.drop_first()) {
            Some(n) => Some(n + 1),
            None => None,
        }
    }
}

pub proof fn lemma_close_offset(s: Seq<char>)
    ensures
        close_offset(s) matches Some(n) ==> n + 7 <= s.len() && starts_with(s.skip(n as int), close_tag())
            && forall|i: int| 0 <= i < n ==> #[trigger] s[i] != '\n',
    decreases s.len(),
{
    if s.len() > 0 && !starts_with(s, close_tag()) && s[0] != '\n' {
        lemma_close_offset(s.drop_first());
        if let Some(n) = close_offset(s) {
            assert(s.skip(n as int) =~= s.drop_first().skip(n - 1));
            assert forall|i: int| 0 <= i < n implies #[trigger] s[i] != '\n' by {
                if i > 0 {
                    assert(s[i] == s.drop_first()[i - 1]);
                }
            }
        }
    } else if s.len() > 0 && starts_with(s, close_tag()) {
        assert(s.skip(0) =~= s);
    }
}

/// The length of the text of the span that `s` begins with, if it begins with
/// one: an opening tag, at least one character, and the nearest closing tag
/// after that character, with no newline in the text.
pub open spec fn span_at_start(s: Seq<char>) -> Option<nat> {
    if starts_with(s, open_tag()) && s.len() > 6 && s[6] != '\n' {
        match close_offset(s.skip(7)) {
            Some(n) => Some(n + 1),
            None => None,
        }
    } else {
        None
    }
}

/// The texts of the spans in `s`, in order: the scan takes the leftmost span,
/// then goes on after its closing tag.
pub open spec fn span_texts(s: Seq<char>) -> Seq<Seq<char>>
    decreases s.len(),
{
    if s.len() == 0 {
        Seq::empty()
    } else if span_at_start(s) is Some {
        let n = span_at_start(s)->0;
        proof {
            lemma_close_offset(s.skip(7));
        }
        seq![s.subrange(6, 6 + n as int)] + span_texts(s.skip((n + 13) as int))
    } else {
        span_texts(s.drop_first())
    }
}

/// A line that the span form carries unchanged: not empty, with no newline
/// and no closing tag in it.
pub open spec fn span_safe(line: Seq<char>) -> bool {
    line.len() > 0 && !line.contains('\n') && !occurs_in(close_tag(), line)
}

proof fn lemma_html_of_front(lines: Seq<Seq<char>>)
    requires
        lines.len() > 0,
    ensures
        html_of(lines) == span_of(lines[0]) + html_of(lines.drop_first()),
    decreases lines.len(),
{
    if lines.len() == 1 {
        assert(lines.drop_first() =~= Seq::<Seq<char>>::empty());
        assert(html_of(lines.drop_last()) =~= Seq::<char>::empty()) by {
            assert(lines.drop_last() =~= Seq::<Seq<char>>::empty());
        }
        assert(html_of(lines) =~= span_of(lines[0]));
    } else {
        lemma_html_of_front(lines.drop_last());
        assert(lines.drop_last().drop_first() =~= lines.drop_first().drop_last());
        assert(lines.drop_first().last() == lines.last());
        assert(html_of(lines) =~= span_of(lines[0]) + html_of(lines.drop_first()));
    }
}

proof fn lemma_close_offset_after(t: Seq<char>, rest: Seq<char>)
    requires
        forall|j: int| 0 <= j < t.len() ==> #[trigger] t[j] != '\n',
        forall|j: int|
            0 <= j < t.len() ==> !starts_with(#[trigger] (t + close_tag() + rest).skip(j), close_tag()),
    ensures
        close_offset(t + close_tag() + rest) == Some(t.len()),
    decreases t.len(),
{
    let s = t + close_tag() + rest;
    if t.len() == 0 {
        assert(s.take(7) =~= close_tag());
    } else {
        assert(s.skip(0) =~= s);
        assert(s[0] == t[0]);
        let t1 = t.drop_first();
        assert(s.drop_first() =~= t1 + close_tag() + rest);
        assert forall|j: int| 0 <= j < t1.len() implies !starts_with(
            #[trigger] (t1 + close_tag() + rest).skip(j),
            close_tag(),
        ) by {
            assert((t1 + close_tag() + rest).skip(j) =~= s.skip(j + 1));
            assert(t[j + 1] == t1[j]);
        }
        assert forall|j: int| 0 <= j < t1.len() implies #[trigger] t1[j] != '\n' by {
            assert(t[j + 1] == t1[j]);
        }
        lemma_close_offset_after(t1, rest);
    }
}

proof fn lemma_span_texts_front(line: Seq<char>, rest: Seq<char>)
    requires
        span_safe(line),
    ensures
        span_texts(span_of(line) + rest) == seq![line] + span_texts(rest),
{
    let s = span_of(line) + rest;
    let t = line.drop_first();
    let c = close_tag();
    assert(s.take(6) =~= open_tag());
    assert(s[6] == line[0]);
    assert(s.skip(7) =~= t + c + rest);
    assert forall|j: int| 0 <= j < t.len() implies #[trigger] t[j] != '\n' by {
        assert(t[j] == line[j + 1]);
    }
    assert forall|j: int| 0 <= j < t.len() implies !starts_with(
        #[trigger] (t + c + rest).skip(j),
        c,
    ) by {
        let u = (t + c + rest).skip(j);
        if j + 7 <= t.len() {
            if starts_with(u, c) {
                assert(line.skip(j + 1).take(7) =~= u.take(7));
                assert(starts_with(line.skip(j + 1), c));
            }
        } else {
            let m = t.len() - j;
            assert(u[m] == '<');
            assert(c[m] != '<');
            if starts_with(u, c) {
                assert(u.take(7)[m] == u[m]);
            }
        }
    }
    lemma_close_offset_after(t, rest);
    assert(span_at_start(s) == Some(line.len()));
    assert(s.subrange(6, 6 + line.len() as int) =~= line);
    assert(s.skip((line.len() + 13) as int) =~= rest);
}

/// Decoding the span form of a cue's lines gives those lines back, where each
/// line is non-empty and holds no newline and no closing tag.
pub proof fn lemma_span_round_trip(lines: Seq<Seq<char>>)
    requires
        forall|i: int| 0 <= i < lines.len() ==> span_safe(#[trigger] lines[i]),
    ensures
        span_texts(html_of(lines)) == lines,
    decreases lines.len(),
{
    if lines.len() == 0 {
        assert(span_texts(html_of(lines)) =~= lines);
    } else {
        let rest = lines.drop_first();
        lemma_html_of_front(lines);
        assert(span_safe(lines[0]));
        lemma_span_texts_front(lines[0], html_of(rest));
        assert forall|i: int| 0 <= i < rest.len() implies span_safe(#[trigger] rest[i]) by {
            assert(rest[i] == lines[i + 1]);
        }
        lemma_span_round_trip(rest);
        assert(seq![lines[0]] + rest =~= lines);
    }
}

fn tag_at(s: &Vec<char>, i: usize, tag: &Vec<char>) -> (r: bool)
    requires
        i <= s.len(),
    ensures
        r == starts_with(s@.skip(i as int), tag@),
{
    if tag.len() > s.len() - i {
        return false;
    }
    let mut k: usize = 0;
    while k < tag.len()
        invariant
            k <= tag.len(),
            i + tag.len() <= s.len(),
            forall|j: int| 0 <= j < k ==> s@[i + j] == tag@[j],
        decreases tag.len() - k,
    {
        if s[i + k] != tag[k] {
            proof {
                assert(s@.skip(i as int).take(tag.len() as int)[k as int] != tag@[k as int]);
            }
            return false;
        }
        k = k + 1;
    }
    proof {
        assert(s@.skip(i as int).take(tag.len() as int) =~= tag@);
    }
    true
}

/// The length of the text of the span that starts at `i`, if one does.
fn span_len_at(s: &Vec<char>, i: usize, open: &Vec<char>, close: &Vec<char>) -> (r: Option<usize>)
    requires
        i <= s.len(),
        open@ == open_tag(),
        close@ == close_tag(),
    ensures
        r matches Some(n) ==> span_at_start(s@.skip(i as int)) == Some(n as nat),
        r is None ==> span_at_start(s@.skip(i as int)) is None,
{
    let ghost t = s@.skip(i as int);
    if !tag_at(s, i, open) || s.len() - i <= 6 || s[i + 6] == '\n' {
        return None;
    }
    let mut k: usize = i + 7;
    let ghost start = s@.skip(i + 7);
    proof {
        assert(t.skip(7) =~= start);
        assert(t[6] == s@[i + 6]);
        assert(s@.skip(k as int) =~= start);
        assert(span_at_start(t) == match close_offset(start) {
            Some(n) => Some(n + 1),
            None => None::<nat>,
        });
    }
    loop
        invariant
            i + 7 <= k <= s.len(),
            start == s@.skip(i + 7),
            close@ == close_tag(),
            span_at_start(s@.skip(i as int)) == match close_offset(start) {
                Some(n) => Some(n + 1),
                None => None::<nat>,
            },
            close_offset(start) == match close_offset(s@.skip(k as int)) {
                Some(m) => Some((m + (k - i - 7)) as nat),
                None => None::<nat>,
            },
        decreases s.len() - k,
    {
        let ghost u = s@.skip(k as int);
        if k == s.len() {
            proof {
                assert(u.len() == 0);
            }
            return None;
        }
        if tag_at(s, k, close) {
            proof {
                assert(close_offset(u) == Some(0nat));
            }
            return Some(k - i - 6);
        }
        if s[k] == '\n' {
            proof {
                assert(u[0] == s@[k as int]);
            }
            return None;
        }
        proof {
            assert(u.drop_first() =~= s@.skip(k + 1));
        }
        k = k + 1;
    }
}

/// The texts of the spans in `html`, in order.
fn span_texts_of(html: &str) -> (r: Vec<String>)
    ensures
        string_views(r@) == span_texts(html@),
{
    let s = chars_of(html);
    let open = vec!['<', 's', 'p', 'a', 'n', '>'];
    let close = vec!['<', '/', 's', 'p', 'a', 'n', '>'];
    proof {
        assert(open@ =~= open_tag());
        assert(close@ =~= close_tag());
    }
    let mut out: Vec<String> = Vec::new();
    let mut i: usize = 0;
    proof {
        assert(s@.skip(0) =~= s@);
        assert(string_views(out@) =~= Seq::<Seq<char>>::empty());
        assert(Seq::<Seq<char>>::empty() + span_texts(html@) =~= span_texts(html@));
    }
    while i < s.len()
        invariant
            i <= s.len(),
            s@ == html@,
            open@ == open_tag(),
            close@ == close_tag(),
            string_views(out@) + span_texts(s@.skip(i as int)) == span_texts(html@),
        decreases s.len() - i,
    {
        let ghost t = s@.skip(i as int);
        let ghost before = out@;
        match span_len_at(&s, i, &open, &close) {
            Some(n) => {
                proof {
                    lemma_close_offset(t.skip(7));
                }
                let text = chars_to_string(&s, i + 6, i + 6 + n);
                out.push(text);
                proof {
                    assert(t.subrange(6, 6 + n as int) =~= text@);
                    assert(t.skip(n + 13) =~= s@.skip(i + n + 13));
                    assert(string_views(out@) =~= string_views(before).push(text@));
                }
                i = i + n + 13;
            },
            None => {
                proof {
                    assert(t.drop_first() =~= s@.skip(i + 1));
                }
                i = i + 1;
            },
        }
    }
    proof {
        assert(span_texts(s@.skip(i as int)) =~= Seq::<Seq<char>>::empty());
    }
    out
}

impl Subtitle {
    /// The span form of this cue's lines.
    pub fn to_html(&self) -> (r: String)
        ensures
            r@ == html_of(self@.lines),
    {
        let ghost ls = self@.lines;
        let mut r = String::new();
        let mut i: usize = 0;
        proof {
            reveal_strlit("<span>");
            reveal_strlit("</span>");
            assert("<span>"@ =~= open_tag());
            assert("</span>"@ =~= close_tag());
        }
        while i < self.lines.len()
            invariant
                i <= self.lines.len(),
                ls == string_views(self.lines@),
                "<span>"@ == open_tag(),
                "</span>"@ == close_tag(),
                r@ == html_of(ls.take(i as int)),
            decreases self.lines.len() - i,
        {
            proof {
                assert(ls.take(i + 1).drop_last() =~= ls.take(i as int));
            }
            r.append("<span>");
            r.append(self.lines[i].as_str());
            r.append("</span>");
            proof {
                assert(r@ =~= html_of(ls.take(i as int)) + span_of(ls[i as int]));
            }
            i = i + 1;
        }
        proof {
            assert(ls.take(self.lines.len() as int) =~= ls);
        }
        r
    }

    /// A cue under `counter` and `timestamp` whose lines are the span texts of `html`.
    pub fn from_html(counter: u32, timestamp: String, html: &str) -> (r: Subtitle)
        ensures
            r@ == (Cue { counter, timestamp: timestamp@, lines: span_texts(html@) }),
    {
        let lines = span_texts_of(html);
        Subtitle { counter, timestamp, lines }
    }
}

/// What HTML entity decoding makes of a text.
pub uninterp spec fn html_unescaped(s: Seq<char>) -> Seq<char>;

/// Relies on `html_escape::decode_html_entities`, which replaces each complete
/// named or numeric character reference by the text it stands for; its result
/// depends on the text alone, and a text without `&` holds no reference and
/// comes back unchanged.
#[verifier::external_body]
fn decode_entities(s: &str) -> (r: String)
    ensures
        r@ == html_unescaped(s@),
        !s@.contains('&') ==> r@ == s@,
{
    html_escape::decode_html_entities(s).into_owned()
}

/// The cue that translated markup gives for an original cue: the original's
/// counter and time range, and the span texts of the markup as its lines.
pub open spec fn translated_cue(original: Cue, html: Seq<char>) -> Cue {
    Cue { counter: original.counter, timestamp: original.timestamp, lines: span_texts(html) }
}

/// Translated cues, position by position.
pub open spec fn translated_track(original: Seq<Cue>, htmls: Seq<Seq<char>>) -> Seq<Cue> {
    Seq::new(original.len(), |i: int| translated_cue(original[i], htmls[i]))
}

/// The span form of each cue of a track.
pub open spec fn track_html(cs: Seq<Cue>) -> Seq<Seq<char>> {
    cs.map_values(|c: Cue| html_of(c.lines))
}

/// Every line of every cue is carried unchanged by the span form.
pub open spec fn track_span_safe(cs: Seq<Cue>) -> bool {
    forall|i: int, j: int|
        0 <= i < cs.len() && 0 <= j < cs[i].lines.len() ==> span_safe(#[trigger] cs[i].lines[j])
}

/// Decoding the unchanged span form of a batch gives the batch back, where
/// every line of every cue is non-empty and holds no newline and no closing tag.
pub proof fn lemma_batch_round_trip(cs: Seq<Cue>)
    requires
        track_span_safe(cs),
    ensures
        translated_track(cs, track_html(cs)) == cs,
{
    assert forall|i: int| 0 <= i < cs.len() implies #[trigger] translated_track(
        cs,
        track_html(cs),
    )[i] == cs[i] by {
        assert forall|j: int| 0 <= j < cs[i].lines.len() implies span_safe(
            #[trigger] cs[i].lines[j],
        ) by {}
        lemma_span_round_trip(cs[i].lines);
    }
    assert(translated_track(cs, track_html(cs)) =~= cs);
}

/// Why a translation response could not be paired with its batch.
#[derive(Debug, PartialEq, Eq, Clone, Copy)]
pub enum TranslationError {
    /// The response holds another number of translations than the batch had cues.
    CountMismatch { requested: usize, received: usize },
}

/// A translation service's answer to one batch.
pub struct TranslationResponse {
    pub data: Data,
}

pub struct Data {
    pub translations: Vec<Translation>,
}

/// The translated markup for one cue, as the service returns it.
pub struct Translation {
    pub translated_text: String,
}

/// The unescaped text of each translation.
pub open spec fn unescaped_texts(ts: Seq<Translation>) -> Seq<Seq<char>> {
    ts.map_values(|t: Translation| html_unescaped(t.translated_text@))
}

/// The translated markup of each translation, as it came.
pub open spec fn raw_texts(ts: Seq<Translation>) -> Seq<Seq<char>> {
    ts.map_values(|t: Translation| t.translated_text@)
}

/// No translation holds an `&`, so none holds an entity.
pub open spec fn no_entities(ts: Seq<Translation>) -> bool {
    forall|i: int| 0 <= i < ts.len() ==> !(#[trigger] ts[i]).translated_text@.contains('&')
}

impl Translation {
    /// The translated markup with its HTML entities decoded.
    pub fn decode(&self) -> (r: String)
        ensures
            r@ == html_unescaped(self.translated_text@),
            !self.translated_text@.contains('&') ==> r@ == self.translated_text@,
    {
        decode_entities(self.translated_text.as_str())
    }
}

impl Subtitles {
    /// The span form of each cue, in order: what is sent for translation.
    pub fn to_translatable_texts(&self) -> (r: Vec<String>)
        ensures
            string_views(r@) == track_html(self@),
    {
        let mut r: Vec<String> = Vec::new();
        let mut i: usize = 0;
        while i < self.0.len()
            invariant
                i <= self.0.len(),
                r.len() == i,
                forall|k: int| 0 <= k < i ==> #[trigger] r@[k]@ == html_of(self.0@[k]@.lines),
            decreases self.0.len() - i,
        {
            r.push(self.0[i].to_html());
            i = i + 1;
        }
        proof {
            assert(string_views(r@) =~= track_html(self@));
        }
        r
    }

    /// The translated batch for already unescaped translated markup, one text
    /// per cue of `original`, in the same order.
    pub fn from_texts(texts: &Vec<String>, original: &Subtitles) -> (r: Result<
        Subtitles,
        TranslationError,
    >)
        ensures
            texts.len() == original.0.len() ==> r is Ok && r->Ok_0@ == translated_track(
                original@,
                string_views(texts@),
            ),
            texts.len() != original.0.len() ==> r == Err::<Subtitles, TranslationError>(
                TranslationError::CountMismatch {
                    requested: original.0.len(),
                    received: texts.len(),
                },
            ),
    {
        if texts.len() != original.0.len() {
            return Err(
                TranslationError::CountMismatch {
                    requested: original.0.len(),
                    received: texts.len(),
                },
            );
        }
        let ghost goal = translated_track(original@, string_views(texts@));
        let mut out: Vec<Subtitle> = Vec::new();
        let mut i: usize = 0;
        while i < texts.len()
            invariant
                i <= texts.len() == original.0.len(),
                goal == translated_track(original@, string_views(texts@)),
                out.len() == i,
                forall|k: int| 0 <= k < i ==> #[trigger] out@[k]@ == goal[k],
            decreases texts.len() - i,
        {
            let cue = &original.0[i];
            let translated = Subtitle::from_html(
                cue.counter,
                cue.timestamp.clone(),
                texts[i].as_str(),
            );
            out.push(translated);
            i = i + 1;
        }
        proof {
            assert(cue_views(out@) =~= goal);
        }
        Ok(Subtitles(out))
    }

    /// The translated batch for a service response to the span form of
    /// `original`: each translation is unescaped and its span texts become the
    /// lines of the cue at the same position.
    pub fn from(response: TranslationResponse, original: &Subtitles) -> (r: Result<
        Subtitles,
        TranslationError,
    >)
        ensures
            response.data.translations.len() == original.0.len() ==> r is Ok && r->Ok_0@
                == translated_track(original@, unescaped_texts(response.data.translations@)),
            response.data.translations.len() != original.0.len() ==> r == Err::<
                Subtitles,
                TranslationError,
            >(
                TranslationError::CountMismatch {
                    requested: original.0.len(),
                    received: response.data.translations.len(),
                },
            ),
            response.data.translations.len() == original.0.len() && no_entities(
                response.data.translations@,
            ) ==> r is Ok && r->Ok_0@ == translated_track(
                original@,
                raw_texts(response.data.translations@),
            ),
    {
        let translations = &response.data.translations;
        let mut texts: Vec<String> = Vec::new();
        let mut i: usize = 0;
        while i < translations.len()
            invariant
                i <= translations.len(),
                texts.len() == i,
                forall|k: int|
                    0 <= k < i ==> #[trigger] texts@[k]@ == html_unescaped(
                        translations@[k].translated_text@,
                    ),
                forall|k: int|
                    0 <= k < i && !translations@[k].translated_text@.contains('&')
                        ==> #[trigger] texts@[k]@ == translations@[k].translated_text@,
            decreases translations.len() - i,
        {
            texts.push(translations[i].decode());
            i = i + 1;
        }
        proof {
            assert(string_views(texts@) =~= unescaped_texts(translations@));
            if no_entities(translations@) {
                assert(string_views(texts@) =~= raw_texts(translations@));
            }
        }
        Subtitles::from_texts(&texts, original)
    }
}

} // verus!
