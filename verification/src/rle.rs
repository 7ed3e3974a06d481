//! The first run-length coding, which also cuts the input into blocks.
//!
//! A run of four to 255 equal bytes is written as four of them and a count
//! of the rest; a longer run goes on as a new one. A block takes as much of
//! the input as its coded form has room for.

use crate::crc32::{checksum, crc32};
use vstd::prelude::*;

verus! {

/// The coding of a byte string as it stands after the last byte taken in:
/// what is written, the last byte, and how long its run has grown. The
/// count that ends a run of four or more is still to be written.
pub struct Run {
    pub out: Seq<u8>,
    pub last: u8,
    pub len: int,
}

/// What is written once the run is ended.
pub open spec fn closed(run: Run) -> Seq<u8> {
    if run.len >= 4 {
        run.out.push((run.len - 4) as u8)
    } else {
        run.out
    }
}

/// The coding after one more byte. The byte lengthens the run if it equals
/// the last and the run is short of 255: it is written while the run is
/// short of four and counted after that. Any other byte ends the run and
/// starts the next.
pub open spec fn extended(run: Run, x: u8) -> Run {
    if run.len > 0 && run.last == x && run.len < 255 {
        Run {
            out: if run.len < 4 {
                run.out.push(x)
            } else {
                run.out
            },
            last: x,
            len: run.len + 1,
        }
    } else {
        Run { out: closed(run).push(x), last: x, len: 1 }
    }
}

/// The coding after a byte string.
pub open spec fn run_after(s: Seq<u8>) -> Run
    decreases s.len(),
{
    if s.len() == 0 {
        Run { out: Seq::empty(), last: 0, len: 0 }
    } else {
        extended(run_after(s.drop_last()), s.last())
    }
}

/// The run-length coding of a byte string.
pub open spec fn rle1(s: Seq<u8>) -> Seq<u8> {
    closed(run_after(s))
}

/// The room in a block of level `level`: one less than its size, so that
/// the end of the block can be marked.
pub open spec fn block_room(level: int) -> int {
    100_000 * level - 1
}

/// How much of `s` goes into a block with room `room`: the longest prefix
/// whose coding fits.
pub open spec fn is_block_len(s: Seq<u8>, room: int, c: int) -> bool {
    &&& 0 <= c <= s.len()
    &&& rle1(s.take(c)).len() <= room
    &&& forall|k: int| c < k <= s.len() ==> (#[trigger] rle1(s.take(k))).len() > room
}

/// The run of the byte `b` that a coding ends with and a further `b` would
/// lengthen.
pub open spec fn tail(run: Run, b: u8) -> int {
    if run.len > 0 && run.last == b && run.len < 255 {
        run.len
    } else {
        0
    }
}

/// Taking in byte `j` after the `j` bytes before it.
pub proof fn lemma_step(buf: Seq<u8>, j: int)
    requires
        0 <= j < buf.len(),
    ensures
        run_after(buf.take(j + 1)) == extended(run_after(buf.take(j)), buf[j]),
        run_after(buf.take(j + 1)).last == buf[j],
        1 <= run_after(buf.take(j + 1)).len <= 255,
        0 <= run_after(buf.take(j)).len <= 255,
        j > 0 ==> run_after(buf.take(j)).last == buf[j - 1] && run_after(buf.take(j)).len >= 1,
        j == 0 ==> run_after(buf.take(j)).len == 0,
        rle1(buf.take(j + 1)).len() >= rle1(buf.take(j)).len(),
    decreases j,
{
    assert(buf.take(j + 1).drop_last() =~= buf.take(j));
    assert(buf.take(j + 1).last() == buf[j]);
    if j > 0 {
        lemma_step(buf, j - 1);
    } else {
        assert(buf.take(0) =~= Seq::<u8>::empty());
    }
}

/// The coding never gets shorter as bytes are taken in.
pub proof fn lemma_grows(buf: Seq<u8>, c: int, k: int)
    requires
        0 <= c <= k <= buf.len(),
    ensures
        rle1(buf.take(k)).len() >= rle1(buf.take(c)).len(),
    decreases k - c,
{
    if c < k {
        lemma_grows(buf, c, k - 1);
        lemma_step(buf, k - 1);
    }
}

/// The reading of a coded string as it stands after the last byte read in:
/// what it stands for so far, the last byte, and how many equal bytes end
/// what was read, up to four, after which a count is due.
pub struct Unrun {
    pub out: Seq<u8>,
    pub last: u8,
    pub len: int,
}

/// `n` times the byte `b`.
pub open spec fn repeated(b: u8, n: int) -> Seq<u8> {
    Seq::new(n as nat, |i: int| b)
}

/// The reading after one more byte. After four equal bytes the byte is a
/// count, and so many more of them follow; any other byte stands for
/// itself.
pub open spec fn unrun_more(d: Unrun, y: u8) -> Unrun {
    if d.len == 4 {
        Unrun { out: d.out + repeated(d.last, y as int), last: d.last, len: 0 }
    } else if d.len > 0 && d.last == y {
        Unrun { out: d.out.push(y), last: y, len: d.len + 1 }
    } else {
        Unrun { out: d.out.push(y), last: y, len: 1 }
    }
}

/// The reading after a coded string.
pub open spec fn unrun_after(e: Seq<u8>) -> Unrun
    decreases e.len(),
{
    if e.len() == 0 {
        Unrun { out: Seq::empty(), last: 0, len: 0 }
    } else {
        unrun_more(unrun_after(e.drop_last()), e.last())
    }
}

/// What a run-length coded string stands for.
pub open spec fn unrle1(e: Seq<u8>) -> Seq<u8> {
    unrun_after(e).out
}

/// How the reading of what is written follows the coding, byte by byte.
pub proof fn lemma_reading_follows(s: Seq<u8>)
    ensures
        0 <= run_after(s).len <= 255,
        unrun_after(run_after(s).out).out + repeated(
            run_after(s).last,
            if run_after(s).len > 4 {
                run_after(s).len - 4
            } else {
                0
            },
        ) == s,
        run_after(s).len >= 1 ==> unrun_after(run_after(s).out).last == run_after(s).last,
        unrun_after(run_after(s).out).len == if run_after(s).len > 4 {
            4
        } else {
            run_after(s).len
        },
    decreases s.len(),
{
    if s.len() == 0 {
        assert(unrun_after(run_after(s).out).out + repeated(run_after(s).last, 0) =~= s);
    } else {
        let before = s.drop_last();
        let x = s.last();
        lemma_reading_follows(before);
        let st = run_after(before);
        let d = unrun_after(st.out);
        let st2 = run_after(s);
        assert(st2 == extended(st, x));
        assert(s =~= before.push(x));
        let extra = if st.len > 4 {
            st.len - 4
        } else {
            0
        };
        if st.len > 0 && st.last == x && st.len < 255 {
            if st.len < 4 {
                assert(st2.out.drop_last() =~= st.out);
                assert(repeated(st.last, 0) =~= Seq::<u8>::empty());
                assert(d.out =~= before);
                assert(unrun_after(st2.out).out + repeated(x, 0) =~= s);
            } else {
                assert(d.out + repeated(x, st.len + 1 - 4) =~= (d.out + repeated(x, extra)).push(
                    x,
                ));
            }
        } else {
            let c = closed(st);
            assert(st2.out.drop_last() =~= c);
            if st.len >= 4 {
                assert(c.drop_last() =~= st.out);
                assert(unrun_after(c).out =~= before);
            } else {
                assert(repeated(st.last, 0) =~= Seq::<u8>::empty());
                assert(d.out =~= before);
            }
            assert(unrun_after(st2.out).out + repeated(x, 0) =~= s);
        }
    }
}

/// The run-length coding of a byte string stands for that string.
pub proof fn lemma_rle1_decodes(s: Seq<u8>)
    ensures
        unrle1(rle1(s)) == s,
{
    lemma_reading_follows(s);
    let st = run_after(s);
    if st.len >= 4 {
        assert(closed(st).drop_last() =~= st.out);
        if st.len == 4 {
            assert(repeated(st.last, 0) =~= Seq::<u8>::empty());
        }
    } else {
        assert(repeated(st.last, 0) =~= Seq::<u8>::empty());
        assert(unrun_after(st.out).out =~= s);
    }
}

/// A buffer with a bound on what may still be added.
pub struct BoundedBuffer {
    pub bound: usize,
    pub buffer: Vec<u8>,
}

impl BoundedBuffer {
    /// An empty buffer that may take `bound` bytes.
    pub fn new(bound: usize) -> (b: Self)
        ensures
            b.bound == bound,
            b.buffer@ == Seq::<u8>::empty(),
    {
        BoundedBuffer { bound, buffer: Vec::new() }
    }

    /// Adds a byte.
    pub fn push(&mut self, byte: u8)
        requires
            old(self).bound > 0,
        ensures
            final(self).buffer@ == old(self).buffer@.push(byte),
            final(self).bound == old(self).bound - 1,
    {
        self.buffer.push(byte);
        self.bound -= 1;
    }
}

/// One block of input in run-length coded form: the coding, the checksum of
/// the input that went into it, the input that is left if any is, and the
/// number of bytes that went in.
pub struct Rle {
    pub output: Vec<u8>,
    pub chk: u32,
    pub raw: Option<Vec<u8>>,
    pub consumed: usize,
}

/// What holds whenever the coding loop starts over at byte `i`.
pub open spec fn at_top(buf: Seq<u8>, i: int, floor: int, out: Seq<u8>) -> bool {
    let st = run_after(buf.take(i));
    &&& 0 <= floor <= i < buf.len()
    &&& out == closed(st)
    &&& tail(st, buf[i]) <= 2
    &&& (tail(st, buf[i]) == 2 && i + 1 < buf.len() ==> buf[i + 1] != buf[i])
    &&& (i > floor ==> st.len <= 3)
    &&& (i == floor ==> st.len == 0 || st.len >= 4)
}

/// What holds when the coding loop is left with `i` bytes taken.
pub open spec fn at_end(buf: Seq<u8>, i: int, out: Seq<u8>, room: int) -> bool {
    &&& 0 < i <= buf.len()
    &&& out == rle1(buf.take(i))
    &&& out.len() <= room
    &&& (i < buf.len() ==> rle1(buf.take(i + 1)).len() > room)
}

/// Codes as much of `raw` as a block of level `level` has room for.
pub fn rle_one(raw: Vec<u8>, level: usize) -> (rle: Rle)
    requires
        1 <= level <= 9,
    ensures
        rle.output@ == rle1(raw@.take(rle.consumed as int)),
        is_block_len(raw@, block_room(level as int), rle.consumed as int),
        raw@.len() > 0 ==> rle.consumed > 0,
        rle.chk == crc32(raw@.take(rle.consumed as int)),
        match rle.raw {
            Some(rest) => rle.consumed < raw@.len() && rest@ == raw@.skip(rle.consumed as int),
            None => rle.consumed == raw@.len(),
        },
{
    let mut raw = raw;
    let n: usize = raw.len();
    let ghost buf = raw@;
    if n == 0 {
        proof {
            assert(buf.take(0) =~= Seq::<u8>::empty());
            assert(crc32(Seq::<u8>::empty()) == 0) by {
                assert(0xFFFF_FFFFu32 ^ 0xFFFF_FFFFu32 == 0) by (bit_vector);
            }
        }
        return Rle { output: Vec::new(), chk: 0, raw: None, consumed: 0 };
    }
    let max_len: usize = 100_000 * level - 1;
    let mut out = BoundedBuffer::new(max_len);
    let mut floor: usize = 0;
    let mut i: usize = 0;
    let mut b: u8 = raw[i];
    proof {
        assert(buf.take(0) =~= Seq::<u8>::empty());
    }
    loop
        invariant_except_break
            at_top(buf, i as int, floor as int, out.buffer@),
            b == buf[i as int],
        invariant
            buf == raw@,
            n == buf.len(),
            max_len == block_room(level as int),
            max_len >= 99_999,
            out.bound + out.buffer@.len() == max_len,
        ensures
            at_end(buf, i as int, out.buffer@, max_len as int),
        decreases n - i,
    {
        let ghost i0 = i;
        let ghost st0 = run_after(buf.take(i as int));
        let ghost st1 = extended(st0, b);
        proof {
            lemma_step(buf, i as int);
        }
        if out.bound == 0 {
            proof {
                assert(i > 0) by {
                    if i == 0 {
                        assert(out.buffer@.len() == 0);
                    }
                }
            }
            break;
        } else if out.bound == 1 {
            out.push(b);
            i += 1;
            proof {
                if i < n {
                    lemma_step(buf, i as int);
                }
            }
            break;
        } else {
            out.push(b);
        }
        assert(out.buffer@ == closed(st1) && st1.len <= 3 && st1.last == b);

        if n - i <= 2 {
            if n - i == 2 {
                proof {
                    lemma_step(buf, i + 1);
                }
                out.push(raw[i + 1]);
                i += 2;
            } else {
                i += 1;
            }
            break;
        }
        let hop: u8 = raw[i + 2];
        let ghost st2 = extended(st1, buf[i + 1]);
        proof {
            lemma_step(buf, i + 1);
            lemma_step(buf, i + 2);
        }
        out.push(raw[i + 1]);
        assert(out.buffer@ == closed(st2) && st2.len <= 3);

        if b == hop && b == raw[i + 1] {
            let mut run: bool = false;
            if i > floor && b == raw[i - 1] {
                assert(st0.len == 1 && st2.len == 3);
                if out.bound < 2 {
                    i += 2;
                    break;
                }
                out.push(hop);
                i += 3;
                run = true;
            }
            if !run && i + 3 < n {
                let step: u8 = raw[i + 3];
                if b == step {
                    assert(st2.len == 2);
                    proof {
                        lemma_step(buf, i + 3);
                    }
                    if out.bound == 0 {
                        i += 2;
                        break;
                    }
                    out.push(hop);
                    if out.bound < 2 {
                        i += 3;
                        break;
                    }
                    out.push(step);
                    i += 4;
                    run = true;
                }
            }
            if run {
                let mut rep_count: u8 = 0;
                while rep_count < 251 && i < n && raw[i] == b
                    invariant
                        buf == raw@,
                        n == buf.len(),
                        floor < i <= n,
                        i0 < i,
                        rep_count <= 251,
                        run_after(buf.take(i as int)).len == 4 + rep_count,
                        run_after(buf.take(i as int)).last == b,
                        run_after(buf.take(i as int)).out == out.buffer@,
                        out.bound + out.buffer@.len() == max_len,
                        out.bound >= 1,
                    decreases 251 - rep_count,
                {
                    proof {
                        lemma_step(buf, i as int);
                    }
                    rep_count += 1;
                    i += 1;
                }
                out.push(rep_count);
                floor = i;
                proof {
                    if i < n {
                        lemma_step(buf, i as int);
                    }
                }
                if i >= n {
                    break;
                } else {
                    b = raw[i];
                    continue;
                }
            }
        }
        proof {
            if i + 3 < n {
                lemma_step(buf, i + 3);
            }
        }
        i += 2;
        b = hop;
    }
    proof {
        assert forall|k: int| i < k <= n implies (#[trigger] rle1(buf.take(k))).len()
            > max_len by {
            lemma_grows(buf, i + 1, k);
        }
    }
    let remainder: Option<Vec<u8>> = if i < n {
        Some(raw.split_off(i))
    } else {
        None
    };
    proof {
        assert(raw@ =~= buf.take(i as int));
    }
    let block_crc: u32 = checksum(&raw);
    Rle { output: out.buffer, chk: block_crc, raw: remainder, consumed: i }
}

} // verus!
