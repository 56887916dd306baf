//! The decisions of a reader that presents an ordered list of byte sources as
//! one stream. The caller owns the sources and performs each read that
//! `next_step` asks for, then reports how many bytes it got.

use vstd::prelude::*;

verus! {

/// What the caller of a read does next.
#[derive(PartialEq, Eq, Structural, Debug, Clone, Copy)]
pub enum Step {
    /// Read from the source at index `source` into the buffer from `offset` on.
    Read { source: usize, offset: usize },
    /// The read is over: report `written` bytes to the caller.
    Done { written: usize },
}

/// A cursor over `count` sources, consumed strictly in order.
pub struct MultiReader {
    cursor: usize,
    count: usize,
}

/// The whole stream: the sources' contents, one after the other.
pub open spec fn concat(parts: Seq<Seq<u8>>) -> Seq<u8> {
    parts.flatten()
}

impl MultiReader {
    /// Index of the source being read.
    pub closed spec fn cursor(self) -> nat {
        self.cursor as nat
    }

    /// Number of sources.
    pub closed spec fn count(self) -> nat {
        self.count as nat
    }

    /// The cursor never runs past the end of the list.
    pub open spec fn wf(self) -> bool {
        self.cursor() <= self.count()
    }

    /// Every source has reported its end.
    pub open spec fn exhausted(self) -> bool {
        self.cursor() >= self.count()
    }

    /// The step after `filled` bytes of a buffer of `capacity` bytes are written.
    pub open spec fn step_spec(self, filled: usize, capacity: usize) -> Step {
        if filled == capacity || self.exhausted() {
            Step::Done { written: filled }
        } else {
            Step::Read { source: self.cursor() as usize, offset: filled }
        }
    }

    /// The cursor after the current source handed out `got` bytes: a read of
    /// zero bytes means that source is at its end.
    pub open spec fn cursor_after(self, got: nat) -> nat {
        advance(self.cursor(), got)
    }

    /// The bytes still to come, where `rest[i]` is what source `i` has not yet
    /// handed out.
    pub open spec fn pending(self, rest: Seq<Seq<u8>>) -> Seq<u8> {
        tail(rest, self.cursor(), self.count())
    }

    /// A reader positioned at the first of `count` sources.
    pub fn new(count: usize) -> (r: MultiReader)
        ensures
            r.wf(),
            r.cursor() == 0,
            r.count() == count,
    {
        MultiReader { cursor: 0, count }
    }

    /// Whether every source has reported its end.
    pub fn is_exhausted(&self) -> (r: bool)
        ensures
            r == self.exhausted(),
    {
        self.cursor >= self.count
    }

    /// Index of the source being read.
    pub fn current(&self) -> (r: usize)
        ensures
            r == self.cursor(),
    {
        self.cursor
    }

    /// Decides the next step of a read into a buffer of `capacity` bytes, of
    /// which `filled` are written already.
    pub fn next_step(&self, filled: usize, capacity: usize) -> (r: Step)
        requires
            filled <= capacity,
        ensures
            r == self.step_spec(filled, capacity),
    {
        if filled == capacity || self.cursor >= self.count {
            Step::Done { written: filled }
        } else {
            Step::Read { source: self.cursor, offset: filled }
        }
    }

    /// Records that the current source handed out `got` bytes; zero bytes
    /// moves the cursor past it for good.
    pub fn record_read(&mut self, got: usize)
        requires
            old(self).wf(),
            !old(self).exhausted(),
        ensures
            final(self).wf(),
            final(self).count() == old(self).count(),
            final(self).cursor() == old(self).cursor_after(got as nat),
    {
        if got == 0 {
            self.cursor = self.cursor + 1;
        }
    }
}

/// Once a reader is exhausted, every read, whatever its buffer, ends at once
/// having written nothing: end of stream is a terminal state.
pub proof fn lemma_exhausted_is_final(r: MultiReader, capacity: usize)
    requires
        r.wf(),
        r.exhausted(),
    ensures
        r.step_spec(0, capacity) == (Step::Done { written: 0 }),
{
}

/// The bytes from source `cursor` on, where `rest[i]` is what source `i`
/// has not yet handed out.
pub open spec fn tail(rest: Seq<Seq<u8>>, cursor: nat, count: nat) -> Seq<u8> {
    concat(rest.subrange(cursor as int, count as int))
}

/// The cursor after the source at `cursor` handed out `got` bytes.
pub open spec fn advance(cursor: nat, got: nat) -> nat {
    if got == 0 {
        cursor + 1
    } else {
        cursor
    }
}

/// What the sources still hold after the one at `cursor` handed out `got`
/// bytes.
pub open spec fn consume(rest: Seq<Seq<u8>>, cursor: nat, got: nat) -> Seq<Seq<u8>> {
    rest.update(cursor as int, rest[cursor as int].skip(got as int))
}

/// A read of `got` bytes from the source at `cursor` is one that a finite,
/// blocking source can give: no more than it holds, and zero only at its end.
pub open spec fn honest_read(rest: Seq<Seq<u8>>, cursor: nat, count: nat, got: nat) -> bool {
    &&& cursor < count
    &&& got <= rest[cursor as int].len()
    &&& got == 0 <==> rest[cursor as int].len() == 0
}

proof fn lemma_step(rest: Seq<Seq<u8>>, cursor: nat, count: nat, got: nat)
    requires
        rest.len() == count,
        honest_read(rest, cursor, count, got),
    ensures
        rest[cursor as int].take(got as int) + tail(consume(rest, cursor, got), advance(cursor, got), count)
            == tail(rest, cursor, count),
        (count - advance(cursor, got)) + tail(consume(rest, cursor, got), advance(cursor, got), count).len()
            < (count - cursor) + tail(rest, cursor, count).len(),
{
    let c = cursor as int;
    let n = count as int;
    let rest2 = consume(rest, cursor, got);
    let sub = rest.subrange(c, n);
    let sub2 = rest2.subrange(advance(cursor, got) as int, n);
    assert(sub.first() == rest[c]);
    if got == 0 {
        assert(sub2 =~= sub.drop_first());
        assert(rest[c].take(0) + concat(sub2) =~= concat(sub));
    } else {
        assert(sub2.first() == rest[c].skip(got as int));
        assert(sub2.drop_first() =~= sub.drop_first());
        assert(rest[c].take(got as int) + rest[c].skip(got as int) =~= rest[c]);
        assert(rest[c].take(got as int) + concat(sub2) =~= concat(sub));
    }
}

/// One read from the current source keeps the stream intact: the bytes it
/// hands out, followed by what is still pending after it, are exactly what was
/// pending before. This holds for a short read of any length. The amount of
/// work left shrinks, so reading to completion ends.
pub proof fn lemma_read_keeps_stream(r: MultiReader, rest: Seq<Seq<u8>>, got: nat)
    requires
        r.wf(),
        rest.len() == r.count(),
        honest_read(rest, r.cursor(), r.count(), got),
    ensures
        ({
            let c = r.cursor();
            let after = tail(consume(rest, c, got), r.cursor_after(got), r.count());
            &&& rest[c as int].take(got as int) + after == r.pending(rest)
            &&& (r.count() - r.cursor_after(got)) + after.len() < (r.count() - c) + r.pending(rest).len()
        }),
{
    lemma_step(rest, r.cursor(), r.count(), got);
}

/// Whether reads that handed out `gots[0]`, `gots[1]`, ... in turn, starting
/// at source `cursor`, are each one that the sources can give.
pub open spec fn honest_reads(rest: Seq<Seq<u8>>, cursor: nat, count: nat, gots: Seq<nat>) -> bool
    decreases gots.len(),
{
    gots.len() == 0 || (honest_read(rest, cursor, count, gots[0]) && honest_reads(
        consume(rest, cursor, gots[0]),
        advance(cursor, gots[0]),
        count,
        gots.drop_first(),
    ))
}

/// The bytes that reads handing out `gots[0]`, `gots[1]`, ... deliver, in
/// order, and the cursor after them.
pub open spec fn replay(rest: Seq<Seq<u8>>, cursor: nat, gots: Seq<nat>) -> (Seq<u8>, nat)
    decreases gots.len(),
{
    if gots.len() == 0 {
        (Seq::empty(), cursor)
    } else {
        let g = gots[0];
        let next = replay(consume(rest, cursor, g), advance(cursor, g), gots.drop_first());
        (rest[cursor as int].take(g as int) + next.0, next.1)
    }
}

proof fn lemma_replay_keeps_stream(rest: Seq<Seq<u8>>, cursor: nat, count: nat, gots: Seq<nat>)
    requires
        rest.len() == count,
        cursor <= count,
        honest_reads(rest, cursor, count, gots),
    ensures
        replay(rest, cursor, gots).1 <= count,
        replay(rest, cursor, gots).1 == count ==> replay(rest, cursor, gots).0 == tail(rest, cursor, count),
    decreases gots.len(),
{
    if gots.len() > 0 {
        let g = gots[0];
        lemma_step(rest, cursor, count, g);
        lemma_replay_keeps_stream(consume(rest, cursor, g), advance(cursor, g), count, gots.drop_first());
        let next = replay(consume(rest, cursor, g), advance(cursor, g), gots.drop_first());
        if next.1 == count {
            assert(rest[cursor as int].take(g as int) + next.0 == tail(rest, cursor, count));
        }
    } else {
        if cursor == count {
            assert(rest.subrange(cursor as int, count as int) =~= Seq::<Seq<u8>>::empty());
        }
    }
}

/// Reading a stream to its end, with any buffer size and any pattern of short
/// reads that the sources give, delivers exactly the sources' contents one
/// after the other: nothing duplicated, dropped, reordered or inserted. `gots`
/// are the byte counts that the sources handed out, as reported to
/// `record_read`.
pub proof fn lemma_concatenation_fidelity(contents: Seq<Seq<u8>>, gots: Seq<nat>)
    requires
        honest_reads(contents, 0, contents.len(), gots),
        replay(contents, 0, gots).1 == contents.len(),
    ensures
        replay(contents, 0, gots).0 == concat(contents),
{
    lemma_replay_keeps_stream(contents, 0, contents.len(), gots);
    assert(contents.subrange(0, contents.len() as int) =~= contents);
}

/// A read that ends before its buffer is full has drained every source: no
/// byte of the stream is left behind.
pub proof fn lemma_short_done_is_drained(
    r: MultiReader,
    rest: Seq<Seq<u8>>,
    filled: usize,
    capacity: usize,
)
    requires
        r.wf(),
        rest.len() == r.count(),
        filled < capacity,
        r.step_spec(filled, capacity) is Done,
    ensures
        r.pending(rest) == Seq::<u8>::empty(),
{
    assert(rest.subrange(r.cursor() as int, r.count() as int) =~= Seq::<Seq<u8>>::empty());
}

} // verus!
