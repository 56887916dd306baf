//! Splitting a byte stream into lines, and reversing each line in stream
//! order, stopping at the first line that is not valid UTF-8.

use crate::reverse::{push_text, reverse_line, reversed_line};
use vstd::prelude::*;
use vstd::utf8::{decode_utf8, valid_utf8};

verus! {

/// The line terminator.
pub const NEWLINE: u8 = 10;

/// A carriage return, dropped before a line terminator.
pub const RETURN: u8 = 13;

/// The byte sequences held by a list of vectors.
pub open spec fn byte_lines(v: Seq<Vec<u8>>) -> Seq<Seq<u8>> {
    v.map_values(|l: Vec<u8>| l@)
}

/// Lines written out, each followed by a terminator.
pub open spec fn joined(ls: Seq<Seq<u8>>) -> Seq<u8> {
    ls.map_values(|l: Seq<u8>| l.push(NEWLINE)).flatten()
}

/// A stream whose last line, if it has no terminator, is given one.
pub open spec fn terminated(s: Seq<u8>) -> Seq<u8> {
    if s.len() == 0 || s.last() == NEWLINE {
        s
    } else {
        s.push(NEWLINE)
    }
}

/// A sequence without a line terminator in it.
pub open spec fn no_newline(l: Seq<u8>) -> bool {
    forall|j: int| 0 <= j < l.len() ==> l[j] != NEWLINE
}

/// `ls` are the lines of `s`: no line holds a terminator, and writing each
/// line out with one gives `s` with its last line terminated.
pub open spec fn lines_of(s: Seq<u8>, ls: Seq<Seq<u8>>) -> bool {
    &&& forall|i: int| 0 <= i < ls.len() ==> no_newline(#[trigger] ls[i])
    &&& joined(ls) == terminated(s)
}

/// The text of a line as read: one trailing terminator dropped, then one
/// trailing carriage return.
pub open spec fn line_text(raw: Seq<u8>) -> Seq<u8> {
    let l = if raw.len() > 0 && raw.last() == NEWLINE {
        raw.drop_last()
    } else {
        raw
    };
    if l.len() > 0 && l.last() == RETURN {
        l.drop_last()
    } else {
        l
    }
}

/// Whether a line decodes as text.
pub open spec fn line_ok(raw: Seq<u8>) -> bool {
    valid_utf8(line_text(raw))
}

/// What is written for a line that decodes: its clusters reversed, and one
/// terminator.
pub open spec fn flipped(raw: Seq<u8>) -> Seq<char> {
    reversed_line(decode_utf8(line_text(raw))).push('\n')
}

/// Relies on `std::str::from_utf8`: it succeeds exactly on valid UTF-8, and
/// the text then holds the characters that the bytes encode.
#[verifier::external_body]
fn decode(b: &[u8]) -> (r: Option<String>)
    ensures
        r is Some <==> valid_utf8(b@),
        r is Some ==> r->Some_0@ == decode_utf8(b@),
{
    std::str::from_utf8(b).ok().map(|s| s.to_string())
}

/// Splits a byte stream into its lines, terminators removed; a last line
/// without a terminator is still a line.
pub fn split_lines(input: &[u8]) -> (r: Vec<Vec<u8>>)
    ensures
        lines_of(input@, byte_lines(r@)),
        r@.len() <= input@.len(),
{
    let mut lines: Vec<Vec<u8>> = Vec::new();
    let mut cur: Vec<u8> = Vec::new();
    let mut i: usize = 0;
    while i < input.len()
        invariant
            i <= input@.len(),
            forall|k: int| 0 <= k < lines@.len() ==> no_newline(#[trigger] byte_lines(lines@)[k]),
            no_newline(cur@),
            joined(byte_lines(lines@)) + cur@ == input@.subrange(0, i as int),
            cur@.len() == 0 && i > 0 ==> input@[i - 1] == NEWLINE,
            lines@.len() + (if cur@.len() > 0 { 1int } else { 0int }) <= i,
        decreases input@.len() - i,
    {
        let b = input[i];
        let ghost before = byte_lines(lines@);
        if b == NEWLINE {
            let line = cur;
            cur = Vec::new();
            lines.push(line);
            proof {
                let ends = before.map_values(|l: Seq<u8>| l.push(NEWLINE));
                assert(byte_lines(lines@) =~= before.push(line@));
                assert(byte_lines(lines@).map_values(|l: Seq<u8>| l.push(NEWLINE)) =~= ends.push(
                    line@.push(NEWLINE),
                ));
                ends.lemma_flatten_push(line@.push(NEWLINE));
                assert(input@.subrange(0, i + 1) =~= input@.subrange(0, i as int).push(b));
            }
        } else {
            cur.push(b);
            proof {
                assert(input@.subrange(0, i + 1) =~= input@.subrange(0, i as int).push(b));
            }
        }
        i = i + 1;
    }
    proof {
        assert(input@.subrange(0, input@.len() as int) =~= input@);
    }
    if cur.len() > 0 {
        let ghost before = byte_lines(lines@);
        let ghost last = cur@;
        lines.push(cur);
        proof {
            let ends = before.map_values(|l: Seq<u8>| l.push(NEWLINE));
            assert(byte_lines(lines@) =~= before.push(last));
            assert(byte_lines(lines@).map_values(|l: Seq<u8>| l.push(NEWLINE)) =~= ends.push(
                last.push(NEWLINE),
            ));
            ends.lemma_flatten_push(last.push(NEWLINE));
            assert(input@.last() == last.last());
            assert(joined(byte_lines(lines@)) =~= input@.push(NEWLINE));
        }
    }
    lines
}

/// Writing out lines that hold no terminator begins with the first line and
/// its terminator.
proof fn lemma_joined_first(ls: Seq<Seq<u8>>)
    requires
        ls.len() > 0,
    ensures
        joined(ls) == ls[0].push(NEWLINE) + joined(ls.drop_first()),
{
    let ends = ls.map_values(|l: Seq<u8>| l.push(NEWLINE));
    assert(ends.drop_first() =~= ls.drop_first().map_values(|l: Seq<u8>| l.push(NEWLINE)));
}

/// Lines without terminators are read back unchanged from their written form.
proof fn lemma_joined_injective(a: Seq<Seq<u8>>, b: Seq<Seq<u8>>)
    requires
        forall|i: int| 0 <= i < a.len() ==> no_newline(#[trigger] a[i]),
        forall|i: int| 0 <= i < b.len() ==> no_newline(#[trigger] b[i]),
        joined(a) == joined(b),
    ensures
        a == b,
    decreases a.len(),
{
    if a.len() == 0 || b.len() == 0 {
        if a.len() > 0 {
            lemma_joined_first(a);
            assert(b.map_values(|l: Seq<u8>| l.push(NEWLINE)).len() == 0);
            assert(joined(a).len() > 0);
        }
        if b.len() > 0 {
            lemma_joined_first(b);
            assert(a.map_values(|l: Seq<u8>| l.push(NEWLINE)).len() == 0);
            assert(joined(b).len() > 0);
        }
        assert(a =~= b);
    } else {
        lemma_joined_first(a);
        lemma_joined_first(b);
        let x = a[0];
        let y = b[0];
        let j = joined(a);
        assert(no_newline(x));
        assert(no_newline(y));
        if x.len() < y.len() {
            assert(j[x.len() as int] == NEWLINE);
            assert(j[x.len() as int] == y[x.len() as int]);
        } else if y.len() < x.len() {
            assert(j[y.len() as int] == NEWLINE);
            assert(j[y.len() as int] == x[y.len() as int]);
        }
        assert(x.len() == y.len());
        assert(x =~= j.subrange(0, x.len() as int));
        assert(y =~= j.subrange(0, y.len() as int));
        assert(joined(a.drop_first()) =~= j.subrange(x.len() as int + 1, j.len() as int));
        assert(joined(b.drop_first()) =~= j.subrange(y.len() as int + 1, j.len() as int));
        assert forall|i: int| 0 <= i < a.drop_first().len() implies no_newline(
            #[trigger] a.drop_first()[i],
        ) by {
            assert(a.drop_first()[i] == a[i + 1]);
        }
        assert forall|i: int| 0 <= i < b.drop_first().len() implies no_newline(
            #[trigger] b.drop_first()[i],
        ) by {
            assert(b.drop_first()[i] == b[i + 1]);
        }
        lemma_joined_injective(a.drop_first(), b.drop_first());
        assert(a =~= seq![x] + a.drop_first());
        assert(b =~= seq![y] + b.drop_first());
    }
}

/// A stream has one way only of being cut into lines.
pub proof fn lemma_lines_unique(s: Seq<u8>, a: Seq<Seq<u8>>, b: Seq<Seq<u8>>)
    requires
        lines_of(s, a),
        lines_of(s, b),
    ensures
        a == b,
{
    lemma_joined_injective(a, b);
}

/// Where the text of a raw line ends.
fn text_end(raw: &[u8]) -> (n: usize)
    ensures
        n <= raw@.len(),
        raw@.subrange(0, n as int) == line_text(raw@),
{
    let mut n: usize = raw.len();
    if n > 0 && raw[n - 1] == NEWLINE {
        n = n - 1;
    }
    if n > 0 && raw[n - 1] == RETURN {
        n = n - 1;
    }
    proof {
        let l = if raw@.len() > 0 && raw@.last() == NEWLINE {
            raw@.drop_last()
        } else {
            raw@
        };
        assert(l =~= raw@.subrange(0, l.len() as int));
        if l.len() > 0 && l.last() == RETURN {
            assert(l.drop_last() =~= raw@.subrange(0, n as int));
        } else {
            assert(l =~= raw@.subrange(0, n as int));
        }
    }
    n
}

/// Reverses one raw line, which may still end in its terminator: `None` when
/// its text is not valid UTF-8.
pub fn flip_line(raw: &[u8]) -> (r: Option<String>)
    ensures
        r is Some <==> line_ok(raw@),
        r is Some ==> r->Some_0@ == flipped(raw@),
{
    let n = text_end(raw);
    let text = &raw[0..n];
    match decode(text) {
        None => None,
        Some(s) => {
            let mut out = reverse_line(s.as_str());
            push_text(&mut out, "\n");
            proof {
                reveal_strlit("\n");
            }
            assert(out@ =~= flipped(raw@));
            Some(out)
        },
    }
}

/// The line, counted from 1, at which reading or decoding failed.
#[derive(PartialEq, Eq, Structural, Debug, Clone, Copy)]
pub struct LineError {
    pub line: usize,
}

/// Reverses the lines of a stream one at a time, in order, and stops for good
/// at the first failure.
pub struct LineReverser {
    done: usize,
    halted: bool,
}

impl LineReverser {
    /// Number of lines taken so far, the failing one included.
    pub closed spec fn line_count(self) -> nat {
        self.done as nat
    }

    /// A line has failed; no more are taken.
    pub closed spec fn halted(self) -> bool {
        self.halted
    }

    /// An engine that has taken no line.
    pub fn new() -> (r: LineReverser)
        ensures
            r.line_count() == 0,
            !r.halted(),
    {
        LineReverser { done: 0, halted: false }
    }

    /// Number of lines taken so far.
    pub fn lines_taken(&self) -> (r: usize)
        ensures
            r == self.line_count(),
    {
        self.done
    }

    /// Whether a line has failed.
    pub fn is_halted(&self) -> (r: bool)
        ensures
            r == self.halted(),
    {
        self.halted
    }

    /// Takes the next raw line and gives its reversal, or the failure with
    /// the line's number when its text is not valid UTF-8.
    pub fn feed(&mut self, raw: &[u8]) -> (r: Result<String, LineError>)
        requires
            !old(self).halted(),
            old(self).line_count() < usize::MAX,
        ensures
            final(self).line_count() == old(self).line_count() + 1,
            line_ok(raw@) ==> r is Ok && r->Ok_0@ == flipped(raw@) && !final(self).halted(),
            !line_ok(raw@) ==> r == Err::<String, LineError>(
                LineError { line: (old(self).line_count() + 1) as usize },
            ) && final(self).halted(),
    {
        self.done = self.done + 1;
        match flip_line(raw) {
            Some(s) => Ok(s),
            None => {
                self.halted = true;
                Err(LineError { line: self.done })
            },
        }
    }

    /// Records that the next line could not be read, and gives the failure
    /// with that line's number.
    pub fn read_failed(&mut self) -> (r: LineError)
        requires
            !old(self).halted(),
            old(self).line_count() < usize::MAX,
        ensures
            r.line == old(self).line_count() + 1,
            final(self).line_count() == old(self).line_count() + 1,
            final(self).halted(),
    {
        self.done = self.done + 1;
        self.halted = true;
        LineError { line: self.done }
    }
}

/// The reversed lines written before a failure, and the failure if there
/// was one.
pub struct Reversal {
    pub lines: Vec<String>,
    pub error: Option<LineError>,
}

/// The character sequences held by a list of strings.
pub open spec fn char_lines(v: Seq<String>) -> Seq<Seq<char>> {
    v.map_values(|l: String| l@)
}

/// `out` and `error` are what reversing the lines `ls` in order gives: every
/// line reversed, or those before the first that fails, and its number.
pub open spec fn reversal_of(ls: Seq<Seq<u8>>, out: Seq<Seq<char>>, error: Option<LineError>) -> bool {
    &&& out.len() <= ls.len()
    &&& forall|i: int| 0 <= i < out.len() ==> line_ok(#[trigger] ls[i]) && out[i] == flipped(ls[i])
    &&& match error {
        None => out.len() == ls.len(),
        Some(e) => out.len() < ls.len() && !line_ok(ls[out.len() as int]) && e.line == out.len() + 1,
    }
}

/// Reverses every line of a whole stream, stopping at the first line that
/// is not valid UTF-8.
pub fn flip_text(input: &[u8]) -> (r: Reversal)
    ensures
        exists|ls: Seq<Seq<u8>>| lines_of(input@, ls) && reversal_of(ls, char_lines(r.lines@), r.error),
{
    let raw = split_lines(input);
    let ghost ls = byte_lines(raw@);
    let mut engine = LineReverser::new();
    let mut out: Vec<String> = Vec::new();
    let mut i: usize = 0;
    while i < raw.len()
        invariant
            i <= raw@.len(),
            raw@.len() <= input@.len(),
            ls == byte_lines(raw@),
            lines_of(input@, ls),
            engine.line_count() == i,
            !engine.halted(),
            out@.len() == i,
            forall|k: int| 0 <= k < i ==> line_ok(#[trigger] ls[k]) && char_lines(out@)[k] == flipped(ls[k]),
        decreases raw@.len() - i,
    {
        match engine.feed(raw[i].as_slice()) {
            Ok(s) => {
                assert(raw@[i as int]@ == ls[i as int]);
                out.push(s);
                assert(char_lines(out@)[i as int] == s@);
            },
            Err(e) => {
                assert(raw@[i as int]@ == ls[i as int]);
                assert(lines_of(input@, ls));
                assert(reversal_of(ls, char_lines(out@), Some(e)));
                return Reversal { lines: out, error: Some(e) };
            },
        }
        i = i + 1;
    }
    assert(lines_of(input@, ls));
    assert(reversal_of(ls, char_lines(out@), None));
    Reversal { lines: out, error: None }
}

/// However the stream is read, a run that meets no failure writes exactly one
/// line for each line of input, a last line without a terminator and empty
/// lines included.
pub proof fn lemma_line_count(input: Seq<u8>, ls: Seq<Seq<u8>>, out: Seq<Seq<char>>)
    requires
        lines_of(input, ls),
        reversal_of(ls, out, None),
    ensures
        out.len() == ls.len(),
        forall|i: int| 0 <= i < out.len() ==> (#[trigger] out[i]).last() == '\n',
{
    assert forall|i: int| 0 <= i < out.len() implies (#[trigger] out[i]).last() == '\n' by {
        assert(line_ok(ls[i]) && out[i] == flipped(ls[i]));
    }
}

} // verus!
