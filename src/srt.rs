//! The cue model: cues and tracks, their text form, and the positional merge.

use vstd::prelude::*;

use crate::decimal::{
    all_digits, decimal, lemma_decimal_parses, lemma_parse_decimal, parse_counter, parse_u32,
    push_decimal,
};
use crate::text::{lemma_split_line_front, push_char, split_lines};

verus! {

/// One cue as a mathematical value: its counter, its time range as written,
/// and its text lines.
pub struct Cue {
    pub counter: u32,
    pub timestamp: Seq<char>,
    pub lines: Seq<Seq<char>>,
}

/// The characters of each string, in order.
pub open spec fn string_views(v: Seq<String>) -> Seq<Seq<char>> {
    v.map_values(|s: String| s@)
}

/// One subtitle cue.
#[derive(Debug, Clone, PartialEq)]
pub struct Subtitle {
    pub counter: u32,
    pub timestamp: String,
    pub lines: Vec<String>,
}

impl View for Subtitle {
    type V = Cue;

    open spec fn view(&self) -> Cue {
        Cue { counter: self.counter, timestamp: self.timestamp@, lines: string_views(self.lines@) }
    }
}

/// An ordered track of cues.
#[derive(Debug)]
pub struct Subtitles(pub Vec<Subtitle>);

/// The models of a sequence of cues.
pub open spec fn cue_views(v: Seq<Subtitle>) -> Seq<Cue> {
    v.map_values(|c: Subtitle| c@)
}

impl View for Subtitles {
    type V = Seq<Cue>;

    open spec fn view(&self) -> Seq<Cue> {
        cue_views(self.0@)
    }
}

/// Lines, each followed by a newline.
pub open spec fn lines_text(ls: Seq<Seq<char>>) -> Seq<char>
    decreases ls.len(),
{
    if ls.len() == 0 {
        Seq::empty()
    } else {
        lines_text(ls.drop_last()) + ls.last() + seq!['\n']
    }
}

/// The text form of a cue: the counter line, the time-range line, the text
/// lines, each ended by a newline.
pub open spec fn render_cue(c: Cue) -> Seq<char> {
    decimal(c.counter as nat) + seq!['\n'] + c.timestamp + seq!['\n'] + lines_text(c.lines)
}

/// The text form of a track: its cues in order, with one blank line between two cues.
pub open spec fn render_track(cs: Seq<Cue>) -> Seq<char>
    decreases cs.len(),
{
    if cs.len() == 0 {
        Seq::empty()
    } else if cs.len() == 1 {
        render_cue(cs[0])
    } else {
        render_track(cs.drop_last()) + seq!['\n'] + render_cue(cs.last())
    }
}

/// A cue with the lines of `a` followed by those of `b`, and the counter and
/// time range of `a`.
pub open spec fn merge_cue(a: Cue, b: Cue) -> Cue {
    Cue { counter: a.counter, timestamp: a.timestamp, lines: a.lines + b.lines }
}

/// Two tracks of the same length merged position by position.
pub open spec fn merge_tracks(a: Seq<Cue>, b: Seq<Cue>) -> Seq<Cue>
    recommends
        a.len() == b.len(),
{
    Seq::new(a.len(), |i: int| merge_cue(a[i], b[i]))
}

fn push_lines(s: &mut String, lines: &Vec<String>)
    ensures
        final(s)@ == old(s)@ + lines_text(string_views(lines@)),
{
    let ghost ls = string_views(lines@);
    let mut i: usize = 0;
    while i < lines.len()
        invariant
            i <= lines.len(),
            ls == string_views(lines@),
            s@ == old(s)@ + lines_text(ls.take(i as int)),
        decreases lines.len() - i,
    {
        proof {
            assert(ls.take(i + 1).drop_last() =~= ls.take(i as int));
        }
        s.append(lines[i].as_str());
        push_char(s, '\n');
        i = i + 1;
    }
    proof {
        assert(ls.take(lines.len() as int) =~= ls);
    }
}

impl Subtitle {
    /// The text form of this cue.
    pub fn to_string(&self) -> (r: String)
        ensures
            r@ == render_cue(self@),
    {
        let mut s = String::new();
        push_decimal(&mut s, self.counter);
        push_char(&mut s, '\n');
        s.append(self.timestamp.as_str());
        push_char(&mut s, '\n');
        push_lines(&mut s, &self.lines);
        s
    }
}

impl core::ops::Add for Subtitle {
    type Output = Subtitle;

    /// Merges two cues: the lines of `self`, then those of `other`, under the
    /// counter and time range of `self`.
    fn add(self, other: Subtitle) -> (r: Subtitle)
        ensures
            r@ == merge_cue(self@, other@),
    {
        let Subtitle { counter, timestamp, lines } = self;
        let ghost first = lines@;
        let mut lines = lines;
        let mut other_lines = other.lines;
        lines.append(&mut other_lines);
        proof {
            assert(string_views(lines@) =~= string_views(first) + string_views(other.lines@));
        }
        Subtitle { counter, timestamp, lines }
    }
}

// What `+` does is stated on `add` itself; this impl only lets `+` reach it.
impl vstd::std_specs::ops::AddSpecImpl for Subtitle {
    open spec fn obeys_add_spec() -> bool {
        false
    }

    open spec fn add_req(self, rhs: Subtitle) -> bool {
        true
    }

    open spec fn add_spec(self, rhs: Subtitle) -> Subtitle {
        self
    }
}

impl Subtitles {
    /// The text form of this track.
    pub fn to_string(&self) -> (r: String)
        ensures
            r@ == render_track(self@),
    {
        let ghost cs = self@;
        let mut s = String::new();
        let mut i: usize = 0;
        while i < self.0.len()
            invariant
                i <= self.0.len(),
                cs == cue_views(self.0@),
                s@ == render_track(cs.take(i as int)),
            decreases self.0.len() - i,
        {
            proof {
                assert(cs.take(i + 1).drop_last() =~= cs.take(i as int));
                if i == 0 {
                    assert(cs.take(1) =~= seq![cs[0]]);
                }
            }
            if i > 0 {
                push_char(&mut s, '\n');
            }
            let cue = self.0[i].to_string();
            s.append(cue.as_str());
            i = i + 1;
        }
        proof {
            assert(cs.take(self.0.len() as int) =~= cs);
        }
        s
    }
}

impl core::ops::Add for Subtitles {
    type Output = Subtitles;

    /// Merges two tracks of the same length cue by cue, position by position.
    fn add(self, other: Subtitles) -> (r: Subtitles)
        ensures
            r@ == merge_tracks(self@, other@),
    {
        let ghost goal = merge_tracks(self@, other@);
        let mut a = self.0;
        let mut b = other.0;
        let n = a.len();
        let mut reversed: Vec<Subtitle> = Vec::new();
        while a.len() > 0
            invariant
                a.len() == b.len(),
                a.len() + reversed.len() == n,
                goal.len() == n,
                forall|i: int| 0 <= i < a.len() ==> merge_cue(#[trigger] a@[i]@, b@[i]@) == goal[i],
                forall|k: int|
                    0 <= k < reversed.len() ==> #[trigger] reversed@[k]@ == goal[n - 1 - k],
            decreases a.len(),
        {
            let x = a.pop().unwrap();
            let y = b.pop().unwrap();
            reversed.push(x + y);
        }
        let mut merged: Vec<Subtitle> = Vec::new();
        while reversed.len() > 0
            invariant
                reversed.len() + merged.len() == n,
                goal.len() == n,
                forall|k: int|
                    0 <= k < reversed.len() ==> #[trigger] reversed@[k]@ == goal[n - 1 - k],
                forall|i: int| 0 <= i < merged.len() ==> #[trigger] merged@[i]@ == goal[i],
            decreases reversed.len(),
        {
            let c = reversed.pop().unwrap();
            merged.push(c);
        }
        proof {
            assert(cue_views(merged@) =~= goal);
        }
        Subtitles(merged)
    }
}

// What `+` does is stated on `add` itself; this impl lets `+` reach it, and
// admits only tracks with the same number of cues.
impl vstd::std_specs::ops::AddSpecImpl for Subtitles {
    open spec fn obeys_add_spec() -> bool {
        false
    }

    open spec fn add_req(self, rhs: Subtitles) -> bool {
        self.0.len() == rhs.0.len()
    }

    open spec fn add_spec(self, rhs: Subtitles) -> Subtitles {
        self
    }
}

/// How many lines at the start of `ls` are not blank.
pub open spec fn text_run(ls: Seq<Seq<char>>) -> nat
    decreases ls.len(),
{
    if ls.len() == 0 || ls[0].len() == 0 {
        0
    } else {
        1 + text_run(ls.drop_first())
    }
}

pub proof fn lemma_text_run_bound(ls: Seq<Seq<char>>)
    ensures
        text_run(ls) <= ls.len(),
        forall|i: int| 0 <= i < text_run(ls) ==> #[trigger] ls[i].len() > 0,
        text_run(ls) < ls.len() ==> ls[text_run(ls) as int].len() == 0,
    decreases ls.len(),
{
    if ls.len() > 0 && ls[0].len() > 0 {
        lemma_text_run_bound(ls.drop_first());
        assert forall|i: int| 0 <= i < text_run(ls) implies #[trigger] ls[i].len() > 0 by {
            if i > 0 {
                assert(ls[i] == ls.drop_first()[i - 1]);
            }
        }
    }
}

/// The cue that a read at the start of `ls` yields: a counter line that reads
/// as a number, a time-range line taken as it stands, and the text lines up to
/// the next blank line or the end.
pub open spec fn cue_at_start(ls: Seq<Seq<char>>) -> Option<Cue> {
    if ls.len() >= 2 && parse_u32(ls[0]) is Some {
        Some(
            Cue {
                counter: parse_u32(ls[0])->0,
                timestamp: ls[1],
                lines: ls.subrange(2, 2 + text_run(ls.skip(2)) as int),
            },
        )
    } else {
        None
    }
}

/// How many lines the read of that cue takes: its own lines and the blank
/// line after them, where there is one.
pub open spec fn cue_extent(ls: Seq<Seq<char>>) -> nat {
    let e = 2 + text_run(ls.skip(2));
    if e < ls.len() {
        e + 1
    } else {
        e
    }
}

/// The cues that a sequence of lines holds: read one after the other, until
/// the lines run out or a counter line does not read as a number.
pub open spec fn parse_track(ls: Seq<Seq<char>>) -> Seq<Cue>
    decreases ls.len(),
{
    if cue_at_start(ls) is Some {
        proof {
            lemma_text_run_bound(ls.skip(2));
        }
        seq![cue_at_start(ls)->0] + parse_track(ls.skip(cue_extent(ls) as int))
    } else {
        Seq::empty()
    }
}

/// Reads cues one at a time from a sequence of lines.
///
/// Once a read finds no cue, the sequence has ended and every later read finds
/// none.
pub struct SubtitleIter {
    /// The lines not read yet, last line first.
    pending: Vec<String>,
    ended: bool,
}

impl View for SubtitleIter {
    type V = Seq<Cue>;

    /// The cues still to come.
    closed spec fn view(&self) -> Seq<Cue> {
        if self.ended {
            Seq::empty()
        } else {
            parse_track(self.rest())
        }
    }
}

impl SubtitleIter {
    /// The lines not read yet, in order.
    closed spec fn rest(&self) -> Seq<Seq<char>> {
        string_views(self.pending@).reverse()
    }

    fn pop_line(&mut self) -> (r: Option<String>)
        ensures
            final(self).ended == old(self).ended,
            old(self).rest().len() == 0 ==> r is None && final(self).rest() == old(self).rest(),
            old(self).rest().len() > 0 ==> r is Some && r->0@ == old(self).rest()[0]
                && final(self).rest() == old(self).rest().drop_first(),
    {
        let r = self.pending.pop();
        proof {
            if old(self).pending.len() > 0 {
                assert(self.rest() =~= old(self).rest().drop_first());
            }
        }
        r
    }

    /// Reads the next cue.
    pub fn next(&mut self) -> (r: Option<Subtitle>)
        ensures
            r matches Some(c) ==> old(self)@ == seq![c@] + final(self)@,
            r is None ==> old(self)@.len() == 0 && final(self)@.len() == 0,
    {
        if self.ended {
            return None;
        }
        let ghost ls = self.rest();
        proof {
            lemma_text_run_bound(ls.skip(2));
        }
        let first = match self.pop_line() {
            Some(l) => l,
            None => {
                self.ended = true;
                return None;
            },
        };
        let counter = match parse_counter(first.as_str()) {
            Some(n) => n,
            None => {
                self.ended = true;
                return None;
            },
        };
        let timestamp = match self.pop_line() {
            Some(t) => t,
            None => {
                self.ended = true;
                return None;
            },
        };
        let ghost run = text_run(ls.skip(2));
        let mut lines: Vec<String> = Vec::new();
        loop
            invariant_except_break
                self.rest() == ls.skip(2 + lines.len()),
            invariant
                !self.ended,
                ls.len() >= 2,
                run == text_run(ls.skip(2)),
                2 + lines.len() <= ls.len(),
                run == lines.len() + text_run(ls.skip(2 + lines.len())),
                string_views(lines@) == ls.subrange(2, 2 + lines.len()),
            ensures
                lines.len() == run,
                string_views(lines@) == ls.subrange(2, 2 + lines.len()),
                self.rest() == ls.skip(cue_extent(ls) as int),
            decreases self.rest().len(),
        {
            let ghost before = lines@;
            let ghost k = 2 + lines.len();
            match self.pop_line() {
                None => {
                    proof {
                        assert(ls.skip(ls.len() as int) =~= Seq::<Seq<char>>::empty());
                    }
                    break;
                },
                Some(l) => {
                    proof {
                        assert(ls.skip(k).drop_first() =~= ls.skip(k + 1));
                        assert(ls.skip(k)[0] == l@);
                    }
                    if l.as_str().is_empty() {
                        break;
                    }
                    lines.push(l);
                    proof {
                        assert(string_views(lines@) =~= string_views(before).push(l@));
                        assert(ls.subrange(2, k + 1) =~= ls.subrange(2, k).push(l@));
                    }
                },
            }
        }
        Some(Subtitle { counter, timestamp, lines })
    }

    /// Reads every cue that is left.
    pub fn collect(self) -> (r: Vec<Subtitle>)
        ensures
            cue_views(r@) == self@,
    {
        let ghost all = self@;
        let mut it = self;
        let mut out: Vec<Subtitle> = Vec::new();
        loop
            invariant
                all == cue_views(out@) + it@,
            ensures
                all == cue_views(out@),
            decreases it@.len(),
        {
            let ghost before = out@;
            match it.next() {
                Some(c) => {
                    out.push(c);
                    proof {
                        assert(cue_views(out@) =~= cue_views(before).push(c@));
                    }
                },
                None => {
                    proof {
                        assert(all =~= cue_views(out@));
                    }
                    break;
                },
            }
        }
        out
    }

    /// Reads the next `max` cues, or all that are left where fewer are.
    pub fn next_batch(&mut self, max: usize) -> (r: Subtitles)
        ensures
            r@.len() == if old(self)@.len() < max {
                old(self)@.len()
            } else {
                max as nat
            },
            old(self)@ == r@ + final(self)@,
    {
        let mut out: Vec<Subtitle> = Vec::new();
        while out.len() < max
            invariant
                old(self)@ == cue_views(out@) + self@,
                out.len() <= max,
                out.len() < max ==> out.len() <= old(self)@.len(),
            ensures
                old(self)@ == cue_views(out@) + self@,
                out.len() == max || self@.len() == 0,
            decreases max - out.len(),
        {
            let ghost before = out@;
            match self.next() {
                Some(c) => {
                    out.push(c);
                    proof {
                        assert(cue_views(out@) =~= cue_views(before).push(c@));
                    }
                },
                None => {
                    break;
                },
            }
        }
        Subtitles(out)
    }
}

/// Reads the cues held by a sequence of lines, one at a time.
pub fn subtitles(lines: Vec<String>) -> (r: SubtitleIter)
    ensures
        r@ == parse_track(string_views(lines@)),
{
    let ghost ls = string_views(lines@);
    let mut lines = lines;
    let mut pending: Vec<String> = Vec::new();
    while lines.len() > 0
        invariant
            ls == string_views(lines@) + string_views(pending@).reverse(),
        decreases lines.len(),
    {
        let ghost before = pending@;
        let ghost rest = lines@;
        let l = lines.pop().unwrap();
        pending.push(l);
        proof {
            assert(string_views(pending@).reverse() =~= seq![l@] + string_views(before).reverse());
            assert(string_views(rest) =~= string_views(lines@).push(l@));
        }
    }
    proof {
        assert(string_views(lines@) =~= Seq::<Seq<char>>::empty());
        assert(string_views(pending@).reverse() =~= ls);
    }
    SubtitleIter { pending, ended: false }
}

/// A line that the line format keeps as it is: no newline in it, and no
/// carriage return at its end.
pub open spec fn line_ok(l: Seq<char>) -> bool {
    !l.contains('\n') && (l.len() == 0 || l.last() != '\r')
}

/// A cue whose text form reads back as the same cue: a time range and text
/// lines that the line format keeps, and no blank text line.
pub open spec fn cue_writable(c: Cue) -> bool {
    &&& line_ok(c.timestamp)
    &&& forall|j: int| 0 <= j < c.lines.len() ==> #[trigger] c.lines[j].len() > 0 && line_ok(c.lines[j])
}

proof fn lemma_render_track_front(cs: Seq<Cue>)
    requires
        cs.len() > 1,
    ensures
        render_track(cs) == render_cue(cs[0]) + seq!['\n'] + render_track(cs.drop_first()),
    decreases cs.len(),
{
    if cs.len() == 2 {
        assert(cs.drop_last() =~= seq![cs[0]]);
        assert(cs.drop_first() =~= seq![cs[1]]);
        assert(render_track(cs.drop_last()) == render_cue(cs[0]));
        assert(render_track(cs.drop_first()) == render_cue(cs[1]));
        assert(render_track(cs) =~= render_cue(cs[0]) + seq!['\n'] + render_track(cs.drop_first()));
    } else {
        lemma_render_track_front(cs.drop_last());
        assert(cs.drop_last().drop_first() =~= cs.drop_first().drop_last());
        assert(cs.drop_first().last() == cs.last());
        assert(cs.drop_last()[0] == cs[0]);
        assert(render_track(cs) =~= render_cue(cs[0]) + seq!['\n'] + render_track(cs.drop_first()));
    }
}

proof fn lemma_lines_text_front(ls: Seq<Seq<char>>)
    requires
        ls.len() > 0,
    ensures
        lines_text(ls) == ls[0] + seq!['\n'] + lines_text(ls.drop_first()),
    decreases ls.len(),
{
    if ls.len() == 1 {
        assert(ls.drop_last() =~= Seq::<Seq<char>>::empty());
        assert(ls.drop_first() =~= Seq::<Seq<char>>::empty());
        assert(lines_text(ls) =~= ls[0] + seq!['\n'] + lines_text(ls.drop_first()));
    } else {
        lemma_lines_text_front(ls.drop_last());
        assert(ls.drop_last().drop_first() =~= ls.drop_first().drop_last());
        assert(ls.drop_first().last() == ls.last());
        assert(ls.drop_last()[0] == ls[0]);
        assert(lines_text(ls) =~= ls[0] + seq!['\n'] + lines_text(ls.drop_first()));
    }
}

proof fn lemma_split_lines_text(ls: Seq<Seq<char>>, rest: Seq<char>)
    requires
        forall|j: int| 0 <= j < ls.len() ==> line_ok(#[trigger] ls[j]),
    ensures
        split_lines(lines_text(ls) + rest) == ls + split_lines(rest),
    decreases ls.len(),
{
    if ls.len() == 0 {
        assert(lines_text(ls) + rest =~= rest);
        assert(ls + split_lines(rest) =~= split_lines(rest));
    } else {
        assert(line_ok(ls[0]));
        let tail = ls.drop_first();
        lemma_lines_text_front(ls);
        assert forall|j: int| 0 <= j < tail.len() implies line_ok(#[trigger] tail[j]) by {
            assert(tail[j] == ls[j + 1]);
        }
        lemma_split_lines_text(tail, rest);
        let inner = lines_text(tail) + rest;
        assert(lines_text(ls) + rest =~= ls[0] + seq!['\n'] + inner);
        lemma_split_line_front(ls[0], inner);
        assert(seq![ls[0]] + (tail + split_lines(rest)) =~= ls + split_lines(rest));
    }
}

proof fn lemma_decimal_line_ok(n: nat)
    ensures
        line_ok(decimal(n)),
{
    lemma_decimal_parses(n);
    let d = decimal(n);
    assert(all_digits(d));
    if d.contains('\n') {
        let j = choose|j: int| 0 <= j < d.len() && d[j] == '\n';
        assert('0' <= d[j] <= '9');
    }
    assert('0' <= d[d.len() - 1] <= '9');
}

proof fn lemma_split_cue(c: Cue, rest: Seq<char>)
    requires
        cue_writable(c),
    ensures
        split_lines(render_cue(c) + rest) == seq![decimal(c.counter as nat), c.timestamp] + c.lines
            + split_lines(rest),
{
    let d = decimal(c.counter as nat);
    lemma_decimal_line_ok(c.counter as nat);
    assert forall|j: int| 0 <= j < c.lines.len() implies line_ok(#[trigger] c.lines[j]) by {
        assert(c.lines[j].len() > 0 && line_ok(c.lines[j]));
    }
    lemma_split_lines_text(c.lines, rest);
    let after_ts = lines_text(c.lines) + rest;
    lemma_split_line_front(c.timestamp, after_ts);
    let after_d = c.timestamp + seq!['\n'] + after_ts;
    lemma_split_line_front(d, after_d);
    assert(render_cue(c) + rest =~= d + seq!['\n'] + after_d);
    assert(seq![d] + (seq![c.timestamp] + (c.lines + split_lines(rest))) =~= seq![d, c.timestamp]
        + c.lines + split_lines(rest));
}

proof fn lemma_text_run_prefix(ls: Seq<Seq<char>>, tail: Seq<Seq<char>>)
    requires
        forall|j: int| 0 <= j < ls.len() ==> (#[trigger] ls[j]).len() > 0,
        tail.len() == 0 || tail[0].len() == 0,
    ensures
        text_run(ls + tail) == ls.len(),
    decreases ls.len(),
{
    if ls.len() > 0 {
        assert((ls + tail)[0] == ls[0]);
        assert((ls + tail).drop_first() =~= ls.drop_first() + tail);
        assert forall|j: int| 0 <= j < ls.drop_first().len() implies (
        #[trigger] ls.drop_first()[j]).len() > 0 by {
            assert(ls.drop_first()[j] == ls[j + 1]);
        }
        lemma_text_run_prefix(ls.drop_first(), tail);
    } else {
        assert(ls + tail =~= tail);
    }
}

proof fn lemma_parse_cue_front(c: Cue, tail: Seq<Seq<char>>)
    requires
        cue_writable(c),
        tail.len() == 0 || tail[0].len() == 0,
    ensures
        parse_track(seq![decimal(c.counter as nat), c.timestamp] + c.lines + tail) == seq![c]
            + parse_track(if tail.len() == 0 {
            tail
        } else {
            tail.drop_first()
        }),
{
    let ls = seq![decimal(c.counter as nat), c.timestamp] + c.lines + tail;
    lemma_parse_decimal(c.counter);
    assert(ls[0] == decimal(c.counter as nat));
    assert(ls[1] == c.timestamp);
    assert(ls.skip(2) =~= c.lines + tail);
    assert forall|j: int| 0 <= j < c.lines.len() implies (#[trigger] c.lines[j]).len() > 0 by {}
    lemma_text_run_prefix(c.lines, tail);
    assert(ls.subrange(2, 2 + c.lines.len() as int) =~= c.lines);
    assert(cue_at_start(ls) == Some(c));
    if tail.len() == 0 {
        assert(ls.skip(cue_extent(ls) as int) =~= tail);
    } else {
        assert(ls.skip(cue_extent(ls) as int) =~= tail.drop_first());
    }
}

/// Reading back the text form of a track gives the track, where every cue is
/// one whose text form reads back as itself.
pub proof fn lemma_track_round_trip(cs: Seq<Cue>)
    requires
        forall|i: int| 0 <= i < cs.len() ==> cue_writable(#[trigger] cs[i]),
    ensures
        parse_track(split_lines(render_track(cs))) == cs,
    decreases cs.len(),
{
    if cs.len() == 0 {
        assert(split_lines(render_track(cs)) =~= Seq::<Seq<char>>::empty());
        assert(parse_track(Seq::<Seq<char>>::empty()) =~= cs);
    } else {
        let c = cs[0];
        assert(cue_writable(c));
        let head = seq![decimal(c.counter as nat), c.timestamp] + c.lines;
        if cs.len() == 1 {
            lemma_split_cue(c, Seq::empty());
            assert(render_cue(c) + Seq::<char>::empty() =~= render_cue(c));
            assert(split_lines(Seq::<char>::empty()) =~= Seq::<Seq<char>>::empty());
            lemma_parse_cue_front(c, Seq::empty());
            assert(head + Seq::<Seq<char>>::empty() =~= head);
            assert(parse_track(Seq::<Seq<char>>::empty()) =~= Seq::<Cue>::empty());
            assert(seq![c] + Seq::<Cue>::empty() =~= cs);
        } else {
            let rest = cs.drop_first();
            let r = render_track(rest);
            lemma_render_track_front(cs);
            lemma_split_cue(c, seq!['\n'] + r);
            assert(render_track(cs) =~= render_cue(c) + (seq!['\n'] + r));
            lemma_split_line_front(Seq::empty(), r);
            assert(Seq::<char>::empty() + seq!['\n'] + r =~= seq!['\n'] + r);
            let tail = seq![Seq::<char>::empty()] + split_lines(r);
            assert(split_lines(render_track(cs)) =~= head + tail);
            lemma_parse_cue_front(c, tail);
            assert(tail.drop_first() =~= split_lines(r));
            assert forall|i: int| 0 <= i < rest.len() implies cue_writable(#[trigger] rest[i]) by {
                assert(rest[i] == cs[i + 1]);
            }
            lemma_track_round_trip(rest);
            assert(seq![c] + rest =~= cs);
        }
    }
}

/// Lines with no cue: none at all, only blank lines, or a first line that
/// does not read as a counter, all give an empty track.
pub proof fn lemma_no_cues(ls: Seq<Seq<char>>)
    requires
        ls.len() == 0 || (forall|i: int| 0 <= i < ls.len() ==> (#[trigger] ls[i]).len() == 0)
            || parse_u32(ls[0]) is None,
    ensures
        parse_track(ls) == Seq::<Cue>::empty(),
{
    if ls.len() > 0 && ls[0].len() == 0 {
        assert(parse_u32(ls[0]) is None);
    }
}

/// A cue with a single text line reads back from its text form as itself,
/// whatever characters the line holds, provided the line format keeps its
/// time range and line.
pub proof fn lemma_single_line_round_trip(c: Cue)
    requires
        c.lines.len() == 1,
        c.lines[0].len() > 0,
        line_ok(c.lines[0]),
        line_ok(c.timestamp),
    ensures
        parse_track(split_lines(render_cue(c))) == seq![c],
{
    assert(cue_writable(c));
    lemma_track_round_trip(seq![c]);
    assert(render_track(seq![c]) == render_cue(c));
}

} // verus!
