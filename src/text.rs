//! The lines of a text, and character-level helpers on strings.

use vstd::prelude::*;

verus! {

/// Relies on `String::push`, which appends one character.
#[verifier::external_body]
pub fn push_char(s: &mut String, c: char)
    ensures
        final(s)@ == old(s)@.push(c),
{
    s.push(c);
}


/// Where the first newline is in `s`, if it holds one.
pub open spec fn first_newline(s: Seq<char>) -> Option<nat>
    decreases s.len(),
{
    if s.len() == 0 {
        None
    } else if s[0] == '\n' {
        Some(0)
    } else {
        match first_newline(s.drop_first()) {
            Some(k) => Some(k + 1),
            None => None,
        }
    }
}

/// A line without the carriage return that ended it, if it had one.
pub open spec fn strip_cr(l: Seq<char>) -> Seq<char> {
    if l.len() > 0 && l.last() == '\r' {
        l.drop_last()
    } else {
        l
    }
}

/// The lines of a text: each ended by a newline, or by the end of the text
/// where the last holds something; a line ended by a carriage return and a
/// newline loses both.
pub open spec fn split_lines(s: Seq<char>) -> Seq<Seq<char>>
    decreases s.len(),
{
    if s.len() == 0 {
        Seq::empty()
    } else if first_newline(s) is Some {
        let k = first_newline(s)->0;
        proof {
            lemma_first_newline(s);
        }
        seq![strip_cr(s.take(k as int))] + split_lines(s.skip((k + 1) as int))
    } else {
        seq![s]
    }
}

pub proof fn lemma_first_newline(s: Seq<char>)
    ensures
        first_newline(s) matches Some(k) ==> k < s.len() && s[k as int] == '\n'
            && !s.take(k as int).contains('\n'),
        first_newline(s) is None ==> !s.contains('\n'),
    decreases s.len(),
{
    if s.len() > 0 && s[0] != '\n' {
        lemma_first_newline(s.drop_first());
        if let Some(k) = first_newline(s) {
            assert(s.take(k as int) =~= seq![s[0]] + s.drop_first().take(k - 1));
        } else {
            assert(s =~= seq![s[0]] + s.drop_first());
        }
    } else if s.len() > 0 {
        assert(s.take(0) =~= Seq::<char>::empty());
    }
}

/// A line followed by a newline splits off as that line, where it holds no
/// newline and does not end with a carriage return.
pub proof fn lemma_split_line_front(l: Seq<char>, rest: Seq<char>)
    requires
        !l.contains('\n'),
        l.len() == 0 || l.last() != '\r',
    ensures
        split_lines(l + seq!['\n'] + rest) == seq![l] + split_lines(rest),
    decreases l.len(),
{
    let s = l + seq!['\n'] + rest;
    lemma_first_newline_after(l, rest);
    assert(s.take(l.len() as int) =~= l);
    assert(s.skip((l.len() + 1) as int) =~= rest);
}

proof fn lemma_first_newline_after(l: Seq<char>, rest: Seq<char>)
    requires
        !l.contains('\n'),
    ensures
        first_newline(l + seq!['\n'] + rest) == Some(l.len()),
    decreases l.len(),
{
    let s = l + seq!['\n'] + rest;
    if l.len() > 0 {
        assert(s[0] == l[0]);
        assert(s.drop_first() =~= l.drop_first() + seq!['\n'] + rest);
        assert(!l.drop_first().contains('\n')) by {
            if l.drop_first().contains('\n') {
                let j = choose|j: int| 0 <= j < l.drop_first().len() && l.drop_first()[j] == '\n';
                assert(l[j + 1] == '\n');
            }
        }
        lemma_first_newline_after(l.drop_first(), rest);
    } else {
        assert(s[0] == '\n');
    }
}

/// Splits a text into its lines.
pub fn lines_of(text: &str) -> (r: Vec<String>)
    ensures
        r@.map_values(|l: String| l@) == split_lines(text@),
{
    let mut out: Vec<String> = Vec::new();
    let mut cur: Vec<char> = Vec::new();
    proof {
        assert(cur@ + text@.skip(0) =~= text@);
        assert(out@.map_values(|l: String| l@) + split_lines(text@) =~= split_lines(text@));
    }
    for c in it: text.chars()
        invariant
            it.seq() == text@,
            !cur@.contains('\n'),
            out@.map_values(|l: String| l@) + split_lines(cur@ + text@.skip(it.index()))
                == split_lines(text@),
    {
        let ghost rest = text@.skip(it.index() + 1);
        let ghost before = out@;
        proof {
            assert(text@.skip(it.index()) =~= seq![c] + rest);
        }
        if c == '\n' {
            proof {
                assert(cur@ + text@.skip(it.index()) =~= cur@ + seq!['\n'] + rest);
                lemma_first_newline_after(cur@, rest);
                assert((cur@ + seq!['\n'] + rest).take(cur@.len() as int) =~= cur@);
                assert((cur@ + seq!['\n'] + rest).skip((cur@.len() + 1) as int) =~= rest);
            }
            let line = without_cr(&cur);
            out.push(line);
            cur = Vec::new();
            proof {
                assert(out@.map_values(|l: String| l@) =~= before.map_values(|l: String| l@).push(
                    line@,
                ));
                assert(cur@ + rest =~= rest);
            }
        } else {
            let ghost old_cur = cur@;
            cur.push(c);
            proof {
                assert(cur@ + rest =~= old_cur + text@.skip(it.index()));
                assert(!cur@.contains('\n')) by {
                    if cur@.contains('\n') {
                        let j = choose|j: int| 0 <= j < cur@.len() && cur@[j] == '\n';
                        assert(j < old_cur.len());
                        assert(old_cur[j] == '\n');
                    }
                }
            }
        }
    }
    let ghost before = out@;
    proof {
        assert(cur@ + text@.skip(text@.len() as int) =~= cur@);
        lemma_first_newline(cur@);
    }
    if cur.len() > 0 {
        let n = cur.len();
        let line = chars_to_string(&cur, 0, n);
        out.push(line);
        proof {
            assert(cur@.subrange(0, n as int) =~= cur@);
            assert(out@.map_values(|l: String| l@) =~= before.map_values(|l: String| l@).push(
                line@,
            ));
        }
    } else {
        proof {
            assert(before.map_values(|l: String| l@) + Seq::<Seq<char>>::empty() =~= before.map_values(|l: String| l@));
        }
    }
    out
}

fn without_cr(cur: &Vec<char>) -> (r: String)
    ensures
        r@ == strip_cr(cur@),
{
    let n = cur.len();
    if n > 0 && cur[n - 1] == '\r' {
        proof {
            assert(cur@.subrange(0, n - 1) =~= cur@.drop_last());
        }
        chars_to_string(cur, 0, n - 1)
    } else {
        proof {
            assert(cur@.subrange(0, n as int) =~= cur@);
        }
        chars_to_string(cur, 0, n)
    }
}

/// The characters `s[from..to]` as a string.
pub fn chars_to_string(s: &Vec<char>, from: usize, to: usize) -> (r: String)
    requires
        from <= to <= s.len(),
    ensures
        r@ == s@.subrange(from as int, to as int),
{
    let mut r = String::new();
    let mut k = from;
    while k < to
        invariant
            from <= k <= to <= s.len(),
            r@ == s@.subrange(from as int, k as int),
        decreases to - k,
    {
        proof {
            assert(s@.subrange(from as int, k + 1) =~= r@.push(s@[k as int]));
        }
        push_char(&mut r, s[k]);
        k = k + 1;
    }
    r
}

/// The characters of a text, in order.
pub fn chars_of(s: &str) -> (r: Vec<char>)
    ensures
        r@ == s@,
{
    let mut r: Vec<char> = Vec::new();
    for c in it: s.chars()
        invariant
            it.seq() == s@,
            r@ == s@.take(it.index()),
    {
        proof {
            assert(s@.take(it.index() + 1) =~= r@.push(c));
        }
        r.push(c);
    }
    proof {
        assert(s@.take(s@.len() as int) =~= s@);
    }
    r
}

} // verus!
