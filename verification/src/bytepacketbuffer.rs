use vstd::prelude::*;
use vstd::string::*;
use crate::text::{from_utf8_lossy, lowercase, to_lowercase, utf8_lossy};

verus! {

/// Size of a DNS packet buffer, in bytes.
pub const BUFFER_SIZE: usize = 512;

/// Why an operation on a packet buffer failed.
#[derive(Debug, Clone, Copy, PartialEq, Eq, Structural)]
pub enum BufferError {
    EndOfBufferToRead,
    EndOfBufferToWrite,
    EndOfBufferToGet,
    EndOfBufferToGetRange,
    EndOfBufferToWriteU16,
    EndOfBufferToWriteU32,
}

impl BufferError {
    /// The text that describes the error.
    pub fn message(&self) -> (r: &'static str)
        ensures
            *self == BufferError::EndOfBufferToRead ==> r@ == "End of buffer to read"@,
            *self == BufferError::EndOfBufferToWrite ==> r@ == "End of buffer to write"@,
            *self == BufferError::EndOfBufferToGet ==> r@ == "End of buffer to get"@,
            *self == BufferError::EndOfBufferToGetRange ==> r@ == "End of buffer to get range"@,
            *self == BufferError::EndOfBufferToWriteU16 ==> r@ == "End of buffer to write_u16"@,
            *self == BufferError::EndOfBufferToWriteU32 ==> r@ == "End of buffer to write_u32"@,
    {
        match self {
            BufferError::EndOfBufferToRead => "End of buffer to read",
            BufferError::EndOfBufferToWrite => "End of buffer to write",
            BufferError::EndOfBufferToGet => "End of buffer to get",
            BufferError::EndOfBufferToGetRange => "End of buffer to get range",
            BufferError::EndOfBufferToWriteU16 => "End of buffer to write_u16",
            BufferError::EndOfBufferToWriteU32 => "End of buffer to write_u32",
        }
    }
}

/// A 512-byte DNS packet together with a read/write cursor.
pub struct BytePacketBuffer {
    pub buf: [u8; 512],
    pub pos: usize,
}

/// Position of the cursor after trying to consume `n` bytes at `pos`:
/// on success it moves past them; on failure it stops at the end of the
/// buffer (or stays where it was if it already stood beyond it).
pub open spec fn read_end(pos: int, n: int) -> int {
    if pos + n <= 512 {
        pos + n
    } else if pos < 512 {
        512
    } else {
        pos
    }
}

/// Big-endian value of the two bytes at `i`.
pub open spec fn be16(b: Seq<u8>, i: int) -> int {
    b[i] * 256 + b[i + 1]
}

/// Big-endian value of the four bytes at `i`.
pub open spec fn be32(b: Seq<u8>, i: int) -> int {
    be16(b, i) * 65536 + be16(b, i + 2)
}


/// One primitive action of a write: a bounds check that fails with the given
/// error when the cursor is at or past the end, or the writing of one byte.
pub enum WStep {
    Check(BufferError),
    Byte(u8),
}

/// The buffer contents, the cursor, and the error that stopped a write (if any).
pub struct WriteState {
    pub buf: Seq<u8>,
    pub pos: int,
    pub err: Option<BufferError>,
}

pub open spec fn apply_step(st: WriteState, s: WStep) -> WriteState {
    if st.err is Some {
        st
    } else if st.pos >= 512 {
        WriteState {
            buf: st.buf,
            pos: st.pos,
            err: Some(
                match s {
                    WStep::Check(k) => k,
                    WStep::Byte(_) => BufferError::EndOfBufferToWrite,
                },
            ),
        }
    } else {
        match s {
            WStep::Check(_) => st,
            WStep::Byte(b) => WriteState { buf: st.buf.update(st.pos, b), pos: st.pos + 1, err: None },
        }
    }
}

/// Performs the steps in order; the first failing step stops the write.
pub open spec fn run(st: WriteState, steps: Seq<WStep>) -> WriteState
    decreases steps.len(),
{
    if steps.len() == 0 {
        st
    } else {
        run(apply_step(st, steps[0]), steps.drop_first())
    }
}

/// Steps that write the given bytes one after the other.
pub open spec fn byte_steps(bytes: Seq<u8>) -> Seq<WStep> {
    bytes.map_values(|b: u8| WStep::Byte(b))
}

/// What `write_u16` does: a bounds check, then a zero byte (the high half of
/// the value is shifted out before it is written), then the low byte.
pub open spec fn u16_steps(v: u16) -> Seq<WStep> {
    seq![WStep::Check(BufferError::EndOfBufferToWriteU16), WStep::Byte(0u8), WStep::Byte((v % 256) as u8)]
}

/// What `write_u32` does: a bounds check, then `write_u16` of zero (the high
/// half is shifted out), then `write_u16` of the low half.
pub open spec fn u32_steps(v: u32) -> Seq<WStep> {
    seq![WStep::Check(BufferError::EndOfBufferToWriteU32)] + u16_steps(0u16) + u16_steps((v % 65536) as u16)
}

pub open spec fn err_of<T>(r: Result<T, BufferError>) -> Option<BufferError> {
    match r {
        Ok(_) => None,
        Err(e) => Some(e),
    }
}

pub open spec fn state_of(b: BytePacketBuffer) -> WriteState {
    WriteState { buf: b.buf@, pos: b.pos as int, err: None }
}

/// `after` with result `r` is what performing `steps` on `before` gives.
pub open spec fn wrote<T>(before: BytePacketBuffer, after: BytePacketBuffer, r: Result<T, BufferError>, steps: Seq<WStep>) -> bool {
    run(state_of(before), steps) == WriteState { buf: after.buf@, pos: after.pos as int, err: err_of(r) }
}

pub proof fn lemma_run_err(st: WriteState, steps: Seq<WStep>)
    requires
        st.err is Some,
    ensures
        run(st, steps) == st,
    decreases steps.len(),
{
    if steps.len() > 0 {
        lemma_run_err(apply_step(st, steps[0]), steps.drop_first());
    }
}

pub proof fn lemma_run_append(st: WriteState, a: Seq<WStep>, b: Seq<WStep>)
    ensures
        run(st, a + b) == run(run(st, a), b),
    decreases a.len(),
{
    if a.len() == 0 {
        assert(a + b =~= b);
    } else {
        assert((a + b)[0] == a[0]);
        assert((a + b).drop_first() =~= a.drop_first() + b);
        lemma_run_append(apply_step(st, a[0]), a.drop_first(), b);
    }
}

pub proof fn lemma_run_one(st: WriteState, s: WStep)
    ensures
        run(st, seq![s]) == apply_step(st, s),
{
    let one = seq![s];
    assert(one.drop_first() =~= Seq::<WStep>::empty());
    assert(one[0] == s);
    assert(run(apply_step(st, s), Seq::<WStep>::empty()) == apply_step(st, s));
}

pub proof fn lemma_run_three(st: WriteState, a: WStep, b: WStep, c: WStep)
    ensures
        run(st, seq![a, b, c]) == apply_step(apply_step(apply_step(st, a), b), c),
{
    assert(seq![a, b, c] =~= seq![a] + seq![b] + seq![c]);
    lemma_run_append(st, seq![a] + seq![b], seq![c]);
    lemma_run_append(st, seq![a], seq![b]);
    lemma_run_one(st, a);
    lemma_run_one(apply_step(st, a), b);
    lemma_run_one(apply_step(apply_step(st, a), b), c);
}

/// How reading a domain name from a buffer ends: with the text appended to
/// the output, the position the cursor is moved to (if any), and the error
/// that stopped the read (if any); or never, when compression pointers loop.
pub enum NameWalk {
    Done { text: Seq<char>, seek: Option<int>, err: Option<BufferError> },
    Endless,
}

/// The text of one label: its bytes decoded (lossily) as UTF-8, lowercased.
pub open spec fn label_text(label: Seq<u8>) -> Seq<char> {
    lowercase(utf8_lossy(label))
}

/// Reading a name at `pos`, with at most `fuel` labels and pointers.
/// `jumped`: a compression pointer was already followed (the cursor is then
/// no longer moved); `dotted`: a label was already appended (the next one is
/// preceded by a dot).
/// A length byte of 192 or more starts a pointer to offset
/// `(len - 192) * 256 + next byte`; a zero byte ends the name.
pub open spec fn walk_name(buf: Seq<u8>, pos: int, jumped: bool, dotted: bool, fuel: nat) -> NameWalk
    decreases fuel,
{
    if fuel == 0 {
        NameWalk::Endless
    } else if pos < 0 || pos >= 512 {
        NameWalk::Done { text: Seq::empty(), seek: None, err: Some(BufferError::EndOfBufferToGet) }
    } else {
        let len = buf[pos];
        if len >= 192 {
            let seek = if jumped {
                None
            } else {
                Some(pos + 2)
            };
            if pos + 1 >= 512 {
                NameWalk::Done { text: Seq::empty(), seek, err: Some(BufferError::EndOfBufferToGet) }
            } else {
                match walk_name(buf, (len - 192) * 256 + buf[pos + 1], true, dotted, (fuel - 1) as nat) {
                    NameWalk::Endless => NameWalk::Endless,
                    NameWalk::Done { text, seek: _, err } => NameWalk::Done { text, seek, err },
                }
            }
        } else if len == 0 {
            NameWalk::Done {
                text: Seq::empty(),
                seek: if jumped {
                    None
                } else {
                    Some(pos + 1)
                },
                err: None,
            }
        } else {
            let start = pos + 1;
            let sep = if dotted {
                seq!['.']
            } else {
                Seq::empty()
            };
            if start + len >= 512 {
                NameWalk::Done { text: sep, seek: None, err: Some(BufferError::EndOfBufferToGetRange) }
            } else {
                match walk_name(buf, start + len, jumped, true, (fuel - 1) as nat) {
                    NameWalk::Endless => NameWalk::Endless,
                    NameWalk::Done { text, seek, err } => NameWalk::Done {
                        text: sep + label_text(buf.subrange(start, start + len)) + text,
                        seek,
                        err,
                    },
                }
            }
        }
    }
}

/// Reading a name at `pos` ends: compression pointers that form a cycle
/// would make `read_qname` follow them forever.
pub open spec fn name_ends(buf: Seq<u8>, pos: int) -> bool {
    exists|f: nat| !(#[trigger] walk_name(buf, pos, false, false, f) is Endless)
}

/// How reading a name at `pos` ends, where it ends.
pub open spec fn name_walk(buf: Seq<u8>, pos: int) -> NameWalk {
    walk_name(buf, pos, false, false, choose|f: nat| !(#[trigger] walk_name(buf, pos, false, false, f) is Endless))
}

pub proof fn lemma_jumped_walk_no_seek(buf: Seq<u8>, pos: int, dotted: bool, fuel: nat)
    ensures
        walk_name(buf, pos, true, dotted, fuel) is Done ==> walk_name(buf, pos, true, dotted, fuel)->seek is None,
    decreases fuel,
{
    if fuel > 0 && 0 <= pos < 512 {
        let len = buf[pos];
        if len >= 192 {
        } else if len != 0 && pos + 1 + len < 512 {
            lemma_jumped_walk_no_seek(buf, pos + 1 + len, true, (fuel - 1) as nat);
        }
    }
}

/// More fuel does not change how a name read ends once it ends.
pub proof fn lemma_walk_fuel(buf: Seq<u8>, pos: int, jumped: bool, dotted: bool, f1: nat, f2: nat)
    requires
        f1 <= f2,
        walk_name(buf, pos, jumped, dotted, f1) is Done,
    ensures
        walk_name(buf, pos, jumped, dotted, f2) == walk_name(buf, pos, jumped, dotted, f1),
    decreases f1,
{
    if 0 <= pos < 512 {
        let len = buf[pos];
        if len >= 192 {
            if pos + 1 < 512 {
                lemma_walk_fuel(buf, (len - 192) * 256 + buf[pos + 1], true, dotted, (f1 - 1) as nat, (f2 - 1) as nat);
            }
        } else if len != 0 && pos + 1 + len < 512 {
            lemma_walk_fuel(buf, pos + 1 + len, jumped, true, (f1 - 1) as nat, (f2 - 1) as nat);
        }
    }
}

/// Number of bytes before the first '.' (46) of `b`, or all of them.
pub open spec fn label_len(b: Seq<u8>) -> nat
    decreases b.len(),
{
    if b.len() == 0 {
        0
    } else if b[0] == 46 {
        0
    } else {
        1 + label_len(b.drop_first())
    }
}

pub proof fn lemma_label_len_bound(b: Seq<u8>)
    ensures
        label_len(b) <= b.len(),
        label_len(b) < b.len() ==> b[label_len(b) as int] == 46,
        forall|k: int| 0 <= k < label_len(b) ==> b[k] != 46,
    decreases b.len(),
{
    if b.len() > 0 && b[0] != 46 {
        lemma_label_len_bound(b.drop_first());
        assert forall|k: int| 0 <= k < label_len(b) implies b[k] != 46 by {
            if k > 0 {
                assert(b[k] == b.drop_first()[k - 1]);
            }
        }
    }
}

pub proof fn lemma_label_len(b: Seq<u8>, m: int)
    requires
        0 <= m <= b.len(),
        forall|k: int| 0 <= k < m ==> b[k] != 46,
        m == b.len() || b[m] == 46,
    ensures
        label_len(b) == m,
    decreases b.len(),
{
    if b.len() > 0 && b[0] != 46 {
        lemma_label_len(b.drop_first(), m - 1);
    }
}

/// Wire form of the dot-separated labels of `b`: each label preceded by its
/// length (truncated to a byte). The final zero byte is not included.
pub open spec fn encode_labels(b: Seq<u8>) -> Seq<u8>
    decreases b.len(),
{
    let k = label_len(b);
    seq![(k % 256) as u8] + b.subrange(0, k as int) + (if k < b.len() {
        proof {
            lemma_label_len_bound(b);
        }
        encode_labels(b.subrange((k + 1) as int, b.len() as int))
    } else {
        Seq::empty()
    })
}

/// Wire form of a domain name given by its bytes.
pub open spec fn encode_name(b: Seq<u8>) -> Seq<u8> {
    encode_labels(b) + seq![0u8]
}

pub proof fn lemma_byte_steps_append(a: Seq<u8>, b: Seq<u8>)
    ensures
        byte_steps(a + b) == byte_steps(a) + byte_steps(b),
{
    assert(byte_steps(a + b) =~= byte_steps(a) + byte_steps(b));
}

/// Writing `a` and then `b` is writing `a + b`.
pub proof fn lemma_write_bytes_append(st: WriteState, a: Seq<u8>, b: Seq<u8>)
    ensures
        run(st, byte_steps(a + b)) == run(run(st, byte_steps(a)), byte_steps(b)),
{
    lemma_byte_steps_append(a, b);
    lemma_run_append(st, byte_steps(a), byte_steps(b));
}

/// Once a write has failed, what follows it does not change the outcome.
pub proof fn lemma_run_prefix_err(st: WriteState, a: Seq<WStep>, b: Seq<WStep>)
    requires
        run(st, a).err is Some,
    ensures
        run(st, a + b) == run(st, a),
{
    lemma_run_append(st, a, b);
    lemma_run_err(run(st, a), b);
}

/// Writing `done` and then one more byte `b` is writing `done.push(b)`.
pub proof fn lemma_write_push(st: WriteState, done: Seq<u8>, b: u8)
    ensures
        run(st, byte_steps(done.push(b))) == run(run(st, byte_steps(done)), seq![WStep::Byte(b)]),
{
    lemma_write_bytes_append(st, done, seq![b]);
    assert(done + seq![b] == done.push(b));
    assert(byte_steps(seq![b]) =~= seq![WStep::Byte(b)]);
}

/// A write that succeeded, followed by another write, is the write of both.
pub proof fn lemma_wrote_then(
    b0: BytePacketBuffer,
    b1: BytePacketBuffer,
    b2: BytePacketBuffer,
    r: Result<(), BufferError>,
    a: Seq<WStep>,
    b: Seq<WStep>,
)
    requires
        wrote(b0, b1, Ok::<(), BufferError>(()), a),
        wrote(b1, b2, r, b),
    ensures
        wrote(b0, b2, r, a + b),
{
    lemma_run_append(state_of(b0), a, b);
}

/// A write that failed is also what any longer write starting with it does.
pub proof fn lemma_wrote_stop(b0: BytePacketBuffer, b1: BytePacketBuffer, r: Result<(), BufferError>, a: Seq<WStep>, full: Seq<WStep>)
    requires
        wrote(b0, b1, r, a),
        r is Err,
        a.len() <= full.len(),
        full.subrange(0, a.len() as int) == a,
    ensures
        wrote(b0, b1, r, full),
{
    let rest = full.subrange(a.len() as int, full.len() as int);
    assert(full =~= a + rest);
    lemma_run_prefix_err(state_of(b0), a, rest);
}

/// A name read that starts without having followed a pointer, and that ends
/// without an error, always moves the cursor.
pub proof fn lemma_walk_seek(buf: Seq<u8>, pos: int, dotted: bool, fuel: nat)
    ensures
        walk_name(buf, pos, false, dotted, fuel) matches NameWalk::Done { seek, err, .. } ==> (err is None ==> seek is Some),
    decreases fuel,
{
    if fuel > 0 && 0 <= pos < 512 {
        let len = buf[pos];
        if len < 192 && len != 0 && pos + 1 + len < 512 {
            lemma_walk_seek(buf, pos + 1 + len, true, (fuel - 1) as nat);
        }
    }
}

/// Where the cursor stands after reading a name at `pos`.
pub open spec fn name_end(buf: Seq<u8>, pos: int) -> int {
    match name_walk(buf, pos)->seek {
        Some(s) => s,
        None => pos,
    }
}

/// Steps never move the cursor back, and never past the end of the buffer
/// when it starts within it.
pub proof fn lemma_run_pos(st: WriteState, steps: Seq<WStep>)
    ensures
        run(st, steps).pos >= st.pos,
        st.pos <= 512 ==> run(st, steps).pos <= 512,
        st.buf.len() == 512 && st.pos >= 0 ==> run(st, steps).buf.len() == 512,
    decreases steps.len(),
{
    if steps.len() > 0 {
        lemma_run_pos(apply_step(st, steps[0]), steps.drop_first());
    }
}

/// A successful `write_u16` started at least two bytes before the end.
pub proof fn lemma_u16_ok(st: WriteState, v: u16)
    requires
        st.err is None,
        run(st, u16_steps(v)).err is None,
    ensures
        st.pos + 2 <= 512,
        run(st, u16_steps(v)).pos == st.pos + 2,
{
    lemma_run_three(st, WStep::Check(BufferError::EndOfBufferToWriteU16), WStep::Byte(0u8), WStep::Byte((v % 256) as u8));
}

impl BytePacketBuffer {
    /// A zero-filled buffer with the cursor at the start.
    pub fn new() -> (r: BytePacketBuffer)
        ensures
            r.pos == 0,
            r.buf@ == Seq::new(512, |i: int| 0u8),
    {
        let r = BytePacketBuffer { buf: [0u8; 512], pos: 0 };
        assert(r.buf@ =~= Seq::new(512, |i: int| 0u8));
        r
    }

    pub fn pos(&self) -> (r: usize)
        ensures
            r == self.pos,
    {
        self.pos
    }

    pub fn read(&mut self) -> (r: Result<u8, BufferError>)
        ensures
            final(self).buf == old(self).buf,
            old(self).pos < 512 ==> r == Ok::<u8, BufferError>(old(self).buf@[old(self).pos as int])
                && final(self).pos == old(self).pos + 1,
            old(self).pos >= 512 ==> r == Err::<u8, BufferError>(BufferError::EndOfBufferToRead)
                && final(self).pos == old(self).pos,
    {
        if self.pos >= 512 {
            return Err(BufferError::EndOfBufferToRead);
        }
        let res = self.buf[self.pos];
        self.pos += 1;
        Ok(res)
    }

    pub fn write(&mut self, b: u8) -> (r: Result<(), BufferError>)
        ensures
            wrote(*old(self), *final(self), r, seq![WStep::Byte(b)]),
            old(self).pos < 512 ==> r is Ok && final(self).pos == old(self).pos + 1
                && final(self).buf@ == old(self).buf@.update(old(self).pos as int, b),
            old(self).pos >= 512 ==> r == Err::<(), BufferError>(BufferError::EndOfBufferToWrite)
                && final(self).pos == old(self).pos && final(self).buf == old(self).buf,
    {
        if self.pos >= 512 {
            proof { lemma_run_one(state_of(*old(self)), WStep::Byte(b)); }
            return Err(BufferError::EndOfBufferToWrite);
        }
        self.buf[self.pos] = b;
        self.pos += 1;
        proof { lemma_run_one(state_of(*old(self)), WStep::Byte(b)); }
        Ok(())
    }
    /// Moves the cursor forward by `steps` bytes (no bounds check).
    pub fn step(&mut self, steps: usize) -> (r: Result<(), BufferError>)
        requires
            old(self).pos + steps <= usize::MAX,
        ensures
            r is Ok,
            final(self).pos == old(self).pos + steps,
            final(self).buf == old(self).buf,
    {
        self.pos += steps;
        Ok(())
    }

    /// Puts the cursor at `pos` (no bounds check).
    pub fn seek(&mut self, pos: usize) -> (r: Result<(), BufferError>)
        ensures
            r is Ok,
            final(self).pos == pos,
            final(self).buf == old(self).buf,
    {
        self.pos = pos;
        Ok(())
    }

    fn get(&self, pos: usize) -> (r: Result<u8, BufferError>)
        ensures
            r == (if pos < 512 {
                Ok::<u8, BufferError>(self.buf@[pos as int])
            } else {
                Err(BufferError::EndOfBufferToGet)
            }),
    {
        if pos >= 512 {
            return Err(BufferError::EndOfBufferToGet);
        }
        Ok(self.buf[pos])
    }

    fn get_range(&self, start: usize, len: usize) -> (r: Result<&[u8], BufferError>)
        requires
            start + len <= usize::MAX,
        ensures
            start + len >= 512 ==> r == Err::<&[u8], BufferError>(BufferError::EndOfBufferToGetRange),
            start + len < 512 ==> (r matches Ok(s) && s@ == self.buf@.subrange(
                start as int,
                start + len,
            )),
    {
        if start + len >= 512 {
            return Err(BufferError::EndOfBufferToGetRange);
        }
        Ok(&self.buf[start..start + len])
    }

    /// Reads a big-endian 16-bit value.
    pub fn read_u16(&mut self) -> (r: Result<u16, BufferError>)
        ensures
            final(self).buf == old(self).buf,
            final(self).pos == read_end(old(self).pos as int, 2),
            r == (if old(self).pos + 2 <= 512 {
                Ok::<u16, BufferError>(be16(old(self).buf@, old(self).pos as int) as u16)
            } else {
                Err(BufferError::EndOfBufferToRead)
            }),
    {
        let hi = self.read()?;
        let lo = self.read()?;
        let res = ((hi as u16) << 8) | (lo as u16);
        assert(res == hi as int * 256 + lo as int) by (bit_vector)
            requires
                res == ((hi as u16) << 8) | (lo as u16),
        ;
        Ok(res)
    }

    /// Reads a big-endian 32-bit value.
    pub fn read_u32(&mut self) -> (r: Result<u32, BufferError>)
        ensures
            final(self).buf == old(self).buf,
            final(self).pos == read_end(old(self).pos as int, 4),
            r == (if old(self).pos + 4 <= 512 {
                Ok::<u32, BufferError>(be32(old(self).buf@, old(self).pos as int) as u32)
            } else {
                Err(BufferError::EndOfBufferToRead)
            }),
    {
        let hi = self.read_u16()?;
        let lo = self.read_u16()?;
        let res = ((hi as u32) << 16) | (lo as u32);
        assert(res == hi as int * 65536 + lo as int) by (bit_vector)
            requires
                res == ((hi as u32) << 16) | (lo as u32),
        ;
        Ok(res)
    }

    /// Writes a 16-bit value. The high byte is shifted out before it is
    /// written, so the two bytes written are zero and the low byte of `buf`.
    pub fn write_u16(&mut self, buf: u16) -> (r: Result<(), BufferError>)
        ensures
            wrote(*old(self), *final(self), r, u16_steps(buf)),
    {
        let ghost st0 = state_of(*self);
        proof {
            lemma_run_three(
                st0,
                WStep::Check(BufferError::EndOfBufferToWriteU16),
                WStep::Byte(0u8),
                WStep::Byte((buf % 256) as u8),
            );
        }
        if self.pos >= 512 {
            return Err(BufferError::EndOfBufferToWriteU16);
        }
        let hi = (buf << 8) as u8;
        assert(hi == 0) by (bit_vector)
            requires
                hi == (buf << 8) as u8,
        ;
        self.write(hi)?;
        let lo = (buf & 0xff) as u8;
        assert(lo == (buf % 256) as u8) by (bit_vector)
            requires
                lo == (buf & 0xff) as u8,
        ;
        self.write(lo)?;
        Ok(())
    }

    /// Writes a 32-bit value. The high half is shifted out before it is
    /// written: the bytes written are `write_u16(0)` then `write_u16` of the low half.
    pub fn write_u32(&mut self, buf: u32) -> (r: Result<(), BufferError>)
        ensures
            wrote(*old(self), *final(self), r, u32_steps(buf)),
    {
        let ghost st0 = state_of(*self);
        let ghost c = seq![WStep::Check(BufferError::EndOfBufferToWriteU32)];
        proof {
            lemma_run_one(st0, WStep::Check(BufferError::EndOfBufferToWriteU32));
            lemma_run_append(st0, c + u16_steps(0u16), u16_steps((buf % 65536) as u16));
            lemma_run_append(st0, c, u16_steps(0u16));
        }
        if self.pos >= 512 {
            proof {
                lemma_run_err(run(st0, c), u16_steps(0u16));
                lemma_run_err(run(st0, c + u16_steps(0u16)), u16_steps((buf % 65536) as u16));
            }
            return Err(BufferError::EndOfBufferToWriteU32);
        }
        let hi = (buf << 16) as u16;
        assert(hi == 0) by (bit_vector)
            requires
                hi == (buf << 16) as u16,
        ;
        let r1 = self.write_u16(hi);
        if r1.is_err() {
            proof {
                lemma_run_err(run(st0, c + u16_steps(0u16)), u16_steps((buf % 65536) as u16));
            }
            return r1;
        }
        let lo = (buf & 0xffff) as u16;
        assert(lo == (buf % 65536) as u16) by (bit_vector)
            requires
                lo == (buf & 0xffff) as u16,
        ;
        self.write_u16(lo)
    }

    /// Sets the byte at `pos` without moving the cursor.
    pub fn set(&mut self, pos: usize, val: u8) -> (r: Result<(), BufferError>)
        requires
            pos < 512,
        ensures
            r is Ok,
            final(self).pos == old(self).pos,
            final(self).buf@ == old(self).buf@.update(pos as int, val),
    {
        self.buf[pos] = val;
        Ok(())
    }

    /// Sets the two bytes at `pos` to `val`, big-endian, without moving the cursor.
    pub fn set_u16(&mut self, pos: usize, val: u16) -> (r: Result<(), BufferError>)
        requires
            pos + 1 < 512,
        ensures
            r is Ok,
            final(self).pos == old(self).pos,
            final(self).buf@ == old(self).buf@.update(pos as int, (val / 256) as u8).update(
                pos + 1,
                (val % 256) as u8,
            ),
    {
        let hi = (val >> 8) as u8;
        assert(hi == (val / 256) as u8) by (bit_vector)
            requires
                hi == (val >> 8) as u8,
        ;
        self.buf[pos] = hi;
        let lo = (val & 0xff) as u8;
        assert(lo == (val % 256) as u8) by (bit_vector)
            requires
                lo == (val & 0xff) as u8,
        ;
        self.buf[pos + 1] = lo;
        Ok(())
    }
    /// Reads a domain name at the cursor and appends its text to `outstr`:
    /// labels are lowercased and joined by dots, compression pointers are
    /// followed. The cursor moves past the name, or, if a pointer was
    /// followed, to just after the first pointer.
    pub fn read_qname(&mut self, outstr: &mut String) -> (r: Result<(), BufferError>)
        requires
            name_ends(old(self).buf@, old(self).pos as int),
        ensures
            final(self).buf@ == old(self).buf@,
            name_walk(old(self).buf@, old(self).pos as int) is Done,
            final(outstr)@ == old(outstr)@ + name_walk(old(self).buf@, old(self).pos as int)->text,
            err_of(r) == name_walk(old(self).buf@, old(self).pos as int)->err,
            final(self).pos == (match name_walk(old(self).buf@, old(self).pos as int)->seek {
                Some(s) => s,
                None => old(self).pos as int,
            }),
    {
        let ghost buf = self.buf@;
        let ghost p0 = self.pos as int;
        let ghost f0 = choose|f: nat| !(#[trigger] walk_name(buf, p0, false, false, f) is Endless);
        let ghost w0 = walk_name(buf, p0, false, false, f0);
        let ghost out0 = outstr@;
        let ghost mut fl: nat = f0;
        let ghost mut dotted = false;
        let mut pos = self.pos();
        let mut jumped = false;
        let mut delim = "";
        proof {
            reveal_strlit("");
            reveal_strlit(".");
        }
        loop
            invariant_except_break
                walk_name(buf, pos as int, jumped, dotted, fl) is Done,
                outstr@ + walk_name(buf, pos as int, jumped, dotted, fl)->text == out0 + w0->text,
                w0->err == walk_name(buf, pos as int, jumped, dotted, fl)->err,
                !jumped ==> self.pos == p0 && w0->seek == walk_name(buf, pos as int, jumped, dotted, fl)->seek,
                delim@ == (if dotted { seq!['.'] } else { Seq::<char>::empty() }),
            invariant
                self.buf@ == buf,
                buf == old(self).buf@,
                p0 == old(self).pos,
                out0 == old(outstr)@,
                buf.len() == 512,
                w0 == name_walk(buf, p0),
                w0 is Done,
                "."@ == seq!['.'],
                jumped ==> w0->seek == Some(self.pos as int),
            ensures
                self.buf@ == buf,
                outstr@ == out0 + w0->text,
                w0->err is None,
                !jumped ==> self.pos == p0 && w0->seek == Some(pos as int),
                jumped ==> w0->seek == Some(self.pos as int),
            decreases fl,
        {
            let ghost cur = walk_name(buf, pos as int, jumped, dotted, fl);
            proof {
                if jumped {
                    lemma_jumped_walk_no_seek(buf, pos as int, dotted, fl);
                }
            }
            let len = match self.get(pos) {
                Ok(v) => v,
                Err(e) => {
                    return Err(e);
                },
            };
            let is_pointer = (len & 0xc0) == 0xc0;
            assert(is_pointer == (len >= 192)) by (bit_vector)
                requires
                    is_pointer == ((len & 0xc0) == 0xc0),
            ;
            if is_pointer {
                if !jumped {
                    let _ = self.seek(pos + 2);
                }
                let b2 = match self.get(pos + 1) {
                    Ok(v) => v as u16,
                    Err(e) => {
                        return Err(e);
                    },
                };
                let offset = (((len as u16) ^ 0xc0) << 8) | b2;
                assert(offset == (len - 192) * 256 + b2) by (bit_vector)
                    requires
                        len >= 192,
                        b2 < 256,
                        offset == (((len as u16) ^ 0xc0) << 8) | b2,
                ;
                pos = offset as usize;
                jumped = true;
                proof {
                    fl = (fl - 1) as nat;
                }
                continue;
            }
            pos += 1;
            if len == 0 {
                break;
            }
            outstr.append(delim);
            let str_buffer = match self.get_range(pos, len as usize) {
                Ok(s) => s,
                Err(e) => {
                    return Err(e);
                },
            };
            let lossy = from_utf8_lossy(str_buffer);
            let lower = to_lowercase(lossy.as_str());
            outstr.append(lower.as_str());
            delim = ".";
            pos += len as usize;
            proof {
                fl = (fl - 1) as nat;
                dotted = true;
                assert(outstr@ + walk_name(buf, pos as int, jumped, dotted, fl)->text =~= out0 + w0->text);
            }
        }
        if !jumped {
            let _ = self.seek(pos);
        }
        Ok(())
    }
    /// Writes a domain name: for each dot-separated label, its length
    /// (truncated to a byte) and its bytes; then a zero byte.
    pub fn write_qname(&mut self, qname: &str) -> (r: Result<(), BufferError>)
        ensures
            wrote(*old(self), *final(self), r, byte_steps(encode_name(qname.spec_bytes()))),
    {
        let ghost st0 = state_of(*self);
        let ghost all = qname.spec_bytes();
        let bytes = qname.as_bytes();
        let n = bytes.len();
        let ghost mut done: Seq<u8> = Seq::empty();
        let mut start: usize = 0;
        assert(bytes@.subrange(0, n as int) =~= all);
        assert(byte_steps(done) =~= Seq::<WStep>::empty());
        assert(done + encode_labels(all) =~= encode_labels(all));
        loop
            invariant_except_break
                start <= n,
                done + encode_labels(bytes@.subrange(start as int, n as int)) == encode_labels(all),
            invariant
                bytes@ == all,
                all == qname.spec_bytes(),
                n == bytes@.len(),
                run(st0, byte_steps(done)) == state_of(*self),
                st0 == state_of(*old(self)),
            ensures
                done == encode_labels(all),
            decreases n - start,
        {
            let ghost rest = bytes@.subrange(start as int, n as int);
            let mut end: usize = start;
            while end < n && bytes[end] != 46u8
                invariant
                    start <= end <= n,
                    n == bytes@.len(),
                    forall|k: int| start <= k < end ==> bytes@[k] != 46,
                decreases n - end,
            {
                end += 1;
            }
            let len = end - start;
            let ghost tail = if end < n {
                encode_labels(bytes@.subrange(end + 1, n as int))
            } else {
                Seq::<u8>::empty()
            };
            proof {
                lemma_label_len(rest, end - start);
                assert(rest.subrange(0, end - start) =~= bytes@.subrange(start as int, end as int));
                if end < n {
                    assert(rest.subrange(end - start + 1, rest.len() as int) =~= bytes@.subrange(end + 1, n as int));
                }
                assert(encode_labels(rest) == seq![(len % 256) as u8] + bytes@.subrange(start as int, end as int) + tail);
            }
            assert((len as u8) == (len % 256) as u8) by (bit_vector);
            proof {
                lemma_write_push(st0, done, len as u8);
                lemma_run_one(state_of(*self), WStep::Byte(len as u8));
            }
            let r1 = self.write(len as u8);
            proof {
                let d0 = done;
                done = done.push((len % 256) as u8);
                assert(done + bytes@.subrange(start as int, end as int) + tail =~= d0 + encode_labels(rest));
            }
            if r1.is_err() {
                proof {
                    let remaining = bytes@.subrange(start as int, end as int) + tail + seq![0u8];
                    assert(done + remaining =~= encode_name(all));
                    lemma_run_prefix_err(st0, byte_steps(done), byte_steps(remaining));
                    lemma_byte_steps_append(done, remaining);

                }
                return r1;
            }
            let mut i: usize = start;
            while i < end
                invariant
                    start <= i <= end,
                    end <= n,
                    n == bytes@.len(),
                    bytes@ == all,
                    all == qname.spec_bytes(),
                    st0 == state_of(*old(self)),
                    run(st0, byte_steps(done)) == state_of(*self),
                    done + bytes@.subrange(i as int, end as int) + tail == encode_labels(all),
                decreases end - i,
            {
                let ghost d0 = done;
                proof {
                    lemma_write_push(st0, done, bytes@[i as int]);
                    lemma_run_one(state_of(*self), WStep::Byte(bytes@[i as int]));
                }
                let r2 = self.write(bytes[i]);
                proof {
                    done = done.push(bytes@[i as int]);
                    assert(d0 + bytes@.subrange(i as int, end as int) + tail =~= done + bytes@.subrange(i + 1, end as int) + tail);
                }
                if r2.is_err() {
                    proof {
                        let remaining = bytes@.subrange(i + 1, end as int) + tail + seq![0u8];
                        assert(done + remaining =~= encode_name(all));
                        lemma_run_prefix_err(st0, byte_steps(done), byte_steps(remaining));
                        lemma_byte_steps_append(done, remaining);
                    }
                    return r2;
                }
                i += 1;
            }
            proof {
                assert(done + bytes@.subrange(end as int, end as int) + tail =~= done + tail);
            }
            if end >= n {
                assert(done =~= done + tail);
                break;
            }
            start = end + 1;
        }
        proof {
            lemma_write_push(st0, done, 0u8);
            lemma_run_one(state_of(*self), WStep::Byte(0u8));
            assert(done.push(0u8) =~= encode_name(all));
        }
        self.write(0)
    }
}

} // verus!
