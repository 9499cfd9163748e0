use vstd::prelude::*;
use vstd::string::StringSliceAdditionalSpecFns;

verus! {

/// Capacity of the log ring buffer, in bytes.
pub const LOG_BUF_SIZE: usize = 4096;

/// The log ring buffer: bytes are written at `head` and read from `tail`.
/// The bytes waiting to be read are those from `tail` up to (not including)
/// `head`, going round the end of the buffer. The buffer never refuses a
/// write: writing more than it can hold wraps `head` past `tail`.
pub struct LogBuffer {
    buf: Vec<u8>,
    head: usize,
    tail: usize,
}

/// Position of the `k`-th pending byte, counting from `tail`.
pub open spec fn ring_pos(tail: int, k: int) -> int {
    if tail + k < LOG_BUF_SIZE as int {
        tail + k
    } else {
        tail + k - LOG_BUF_SIZE as int
    }
}

/// Number of bytes between `tail` and `head`, going round the ring.
pub open spec fn ring_count(head: int, tail: int) -> int {
    if head >= tail {
        head - tail
    } else {
        head + LOG_BUF_SIZE as int - tail
    }
}

/// What stays pending when `msg` is written behind `pending`: the bytes of
/// `pending + msg` that still lie between `tail` and `head` once `head` has
/// advanced by `msg.len()` places round a ring of `LOG_BUF_SIZE` bytes, i.e.
/// the last `(pending.len() + msg.len()) % LOG_BUF_SIZE` of them.
pub open spec fn log_after_write(pending: Seq<u8>, msg: Seq<u8>) -> Seq<u8> {
    let s = pending + msg;
    let total = s.len() as int;
    s.subrange(total - total % (LOG_BUF_SIZE as int), total)
}

/// What a single byte written behind `pending` leaves pending.
pub open spec fn log_after_byte(pending: Seq<u8>, b: u8) -> Seq<u8> {
    if pending.len() + 1 < LOG_BUF_SIZE {
        pending.push(b)
    } else {
        Seq::empty()
    }
}

impl LogBuffer {
    /// Well-formedness: a full-size buffer and both cursors inside it.
    pub closed spec fn wf(&self) -> bool {
        &&& self.buf@.len() == LOG_BUF_SIZE
        &&& self.head < LOG_BUF_SIZE
        &&& self.tail < LOG_BUF_SIZE
    }

    /// The bytes written and not yet read, oldest first.
    pub closed spec fn pending(&self) -> Seq<u8> {
        Seq::new(
            ring_count(self.head as int, self.tail as int) as nat,
            |k: int| self.buf@[ring_pos(self.tail as int, k)],
        )
    }

    /// An empty log.
    pub fn new() -> (log: Self)
        ensures
            log.wf(),
            log@ == Seq::<u8>::empty(),
    {
        let mut buf: Vec<u8> = Vec::new();
        let mut i: usize = 0;
        while i < LOG_BUF_SIZE
            invariant
                i <= LOG_BUF_SIZE,
                buf@.len() == i,
            decreases LOG_BUF_SIZE - i,
        {
            buf.push(0u8);
            i = i + 1;
        }
        let log = LogBuffer { buf, head: 0, tail: 0 };
        assert(log.pending() =~= Seq::<u8>::empty());
        log
    }

    /// Number of bytes waiting to be read.
    pub fn pending_len(&self) -> (n: usize)
        requires
            self.wf(),
        ensures
            n == self@.len(),
    {
        if self.head >= self.tail {
            self.head - self.tail
        } else {
            self.head + LOG_BUF_SIZE - self.tail
        }
    }

    /// Appends one byte at `head`.
    fn push_byte(&mut self, b: u8)
        requires
            old(self).wf(),
        ensures
            final(self).wf(),
            final(self)@ == log_after_byte(old(self)@, b),
    {
        let ghost p = self@;
        let ghost h = self.head as int;
        let ghost t = self.tail as int;
        let head = self.head;
        self.buf.set(head, b);
        if head + 1 == LOG_BUF_SIZE {
            self.head = 0;
        } else {
            self.head = head + 1;
        }
        proof {
            if p.len() + 1 < LOG_BUF_SIZE {
                assert forall|k: int| 0 <= k < p.len() implies ring_pos(t, k) != h by {}
                assert(ring_pos(t, p.len() as int) == h);
                assert(self@ =~= p.push(b));
            } else {
                assert(self@ =~= Seq::<u8>::empty());
            }
        }
    }

    /// Takes the oldest pending byte, at `tail`.
    fn pop_byte(&mut self) -> (b: u8)
        requires
            old(self).wf(),
            old(self)@.len() > 0,
        ensures
            final(self).wf(),
            b == old(self)@[0],
            final(self)@ == old(self)@.drop_first(),
    {
        let ghost p = self@;
        let tail = self.tail;
        let b = self.buf[tail];
        if tail + 1 == LOG_BUF_SIZE {
            self.tail = 0;
        } else {
            self.tail = tail + 1;
        }
        assert(self@ =~= p.drop_first());
        b
    }

    /// Whether any byte is waiting to be read.
    pub fn has_pending(&self) -> (r: bool)
        requires
            self.wf(),
        ensures
            r == (self@.len() > 0),
    {
        self.tail != self.head
    }
}

impl View for LogBuffer {
    type V = Seq<u8>;

    closed spec fn view(&self) -> Seq<u8> {
        self.pending()
    }
}

/// Writing one more byte of a message is the same as writing that byte
/// behind what the message's prefix left pending.
pub proof fn lemma_log_after_write_step(pending: Seq<u8>, msg: Seq<u8>, i: int)
    requires
        0 <= i < msg.len(),
    ensures
        log_after_write(pending, msg.take(i + 1)) == log_after_byte(
            log_after_write(pending, msg.take(i)),
            msg[i],
        ),
{
    let n = LOG_BUF_SIZE as int;
    let s = pending + msg.take(i);
    let s1 = pending + msg.take(i + 1);
    assert(s1 =~= s.push(msg[i]));
    let t = s.len() as int;
    let r = t % n;
    assert(0 <= r < n);
    assert((t + 1) % n == if r + 1 < n { r + 1 } else { 0 }) by {
        assert(t == (t / n) * n + r);
        if r + 1 < n {
            assert(t + 1 == (t / n) * n + (r + 1));
        } else {
            assert(t + 1 == (t / n + 1) * n);
        }
    }
    let prev = log_after_write(pending, msg.take(i));
    assert(prev == s.subrange(t - r, t));
    if r + 1 < n {
        assert(log_after_write(pending, msg.take(i + 1)) =~= prev.push(msg[i]));
    } else {
        assert(log_after_write(pending, msg.take(i + 1)) =~= Seq::<u8>::empty());
    }
}

/// Appends the bytes of `msg` to the log (one byte at a time, at `head`).
pub fn log_write(log: &mut LogBuffer, msg: &str)
    requires
        old(log).wf(),
    ensures
        final(log).wf(),
        final(log)@ == log_after_write(old(log)@, msg.spec_bytes()),
{
    let bytes = msg.as_bytes();
    log_write_bytes(log, bytes);
}

/// Moves pending bytes, oldest first, into `out` until the log is empty or
/// `out` is full; returns how many were moved. Bytes of `out` past that
/// count are left as they were.
pub fn log_read(log: &mut LogBuffer, out: &mut [u8]) -> (n: usize)
    requires
        old(log).wf(),
    ensures
        final(log).wf(),
        n == if old(log)@.len() < old(out)@.len() { old(log)@.len() } else { old(out)@.len() },
        final(out)@ == old(log)@.take(n as int) + old(out)@.skip(n as int),
        final(log)@ == old(log)@.skip(n as int),
{
    let ghost p = log@;
    let ghost o = out@;
    let mut n: usize = 0;
    while log.has_pending() && n < out.len()
        invariant
            log.wf(),
            n <= o.len(),
            n <= p.len(),
            out@.len() == o.len(),
            out@ =~= p.take(n as int) + o.skip(n as int),
            log@ =~= p.skip(n as int),
        decreases p.len() - n,
    {
        let b = log.pop_byte();
        out[n] = b;
        n = n + 1;
    }
    n
}

/// Longest log line, in bytes.
pub const LOG_LINE_MAX: usize = 256;

/// A valid UTF-8 sequence whose first `i` bytes are valid UTF-8 on their
/// own is cut at a character boundary there.
proof fn lemma_valid_prefix_is_boundary(b: Seq<u8>, i: int)
    requires
        vstd::utf8::valid_utf8(b),
        0 <= i <= b.len(),
        vstd::utf8::valid_utf8(b.subrange(0, i)),
    ensures
        vstd::utf8::is_char_boundary(b, i),
    decreases b.len(),
{
    if i > 0 {
        let p = b.subrange(0, i);
        assert(p[0] == b[0]);
        assert(vstd::utf8::valid_first_scalar(p));
        let l = vstd::utf8::length_of_first_scalar(p);
        assert(l == vstd::utf8::length_of_first_scalar(b));
        assert(1 <= l <= i);
        assert(forall|j: int| 0 <= j < l ==> p[j] == b[j]);
        assert(vstd::utf8::valid_first_scalar(b));
        let pb = vstd::utf8::pop_first_scalar(b);
        assert(vstd::utf8::valid_utf8(pb));
        assert(vstd::utf8::pop_first_scalar(p) =~= pb.subrange(0, i - l));
        assert(vstd::utf8::valid_utf8(vstd::utf8::pop_first_scalar(p)));
        lemma_valid_prefix_is_boundary(pb, i - l);
    }
}

/// The first `i` bytes of a valid UTF-8 sequence are valid UTF-8 exactly
/// when the byte after them does not continue a character.
proof fn lemma_valid_prefix_iff(b: Seq<u8>, i: int)
    requires
        vstd::utf8::valid_utf8(b),
        0 < i < b.len(),
    ensures
        vstd::utf8::valid_utf8(b.take(i)) <==> !(0x80 <= b[i] && b[i] <= 0xBF),
{
    assert(b.take(i) =~= b.subrange(0, i));
    vstd::utf8::is_char_boundary_iff_not_is_continuation_byte(b, i);
    if vstd::utf8::valid_utf8(b.take(i)) {
        lemma_valid_prefix_is_boundary(b, i);
    }
    if !(0x80 <= b[i] && b[i] <= 0xBF) {
        vstd::utf8::valid_utf8_split(b, i);
    }
}

/// What a log line adds to the log: the whole line when it fits in
/// `LOG_LINE_MAX` bytes; otherwise its first `LOG_LINE_MAX` bytes when they
/// are valid UTF-8 on their own, and "<log>" when the cut splits a
/// character.
pub open spec fn log_line_bytes(line: Seq<u8>) -> Seq<u8> {
    if line.len() <= LOG_LINE_MAX {
        line
    } else if vstd::utf8::valid_utf8(line.take(LOG_LINE_MAX as int)) {
        line.take(LOG_LINE_MAX as int)
    } else {
        "<log>".spec_bytes()
    }
}

/// A line that fits in `LOG_LINE_MAX` bytes is logged whole, whatever
/// characters it holds; a longer valid UTF-8 line is cut to its first
/// `LOG_LINE_MAX` bytes, and replaced by "<log>" exactly when the cut falls
/// inside a character (the byte after the cut continues one).
pub proof fn lemma_log_line_whole_or_cut(line: Seq<u8>)
    ensures
        line.len() <= LOG_LINE_MAX ==> log_line_bytes(line) == line,
        vstd::utf8::valid_utf8(line) && line.len() > LOG_LINE_MAX ==> {
            let cut_splits = 0x80 <= line[LOG_LINE_MAX as int] && line[LOG_LINE_MAX as int]
                <= 0xBF;
            &&& cut_splits ==> log_line_bytes(line) == "<log>".spec_bytes()
            &&& !cut_splits ==> log_line_bytes(line) == line.take(LOG_LINE_MAX as int)
        },
{
    if vstd::utf8::valid_utf8(line) && line.len() > LOG_LINE_MAX {
        lemma_valid_prefix_iff(line, LOG_LINE_MAX as int);
    }
}

/// Logs one formatted line, cut to `LOG_LINE_MAX` bytes (see
/// `log_line_bytes`).
pub fn log_line(log: &mut LogBuffer, line: &str)
    requires
        old(log).wf(),
    ensures
        final(log).wf(),
        final(log)@ == log_after_write(old(log)@, log_line_bytes(line.spec_bytes())),
        line.spec_bytes().len() <= LOG_LINE_MAX ==> final(log)@ == log_after_write(
            old(log)@,
            line.spec_bytes(),
        ),
{
    proof {
        lemma_log_line_whole_or_cut(line.spec_bytes());
    }
    let b = line.as_bytes();
    if b.len() <= LOG_LINE_MAX {
        log_write_bytes(log, b);
    } else {
        proof {
            vstd::utf8::encode_utf8_valid_utf8(line@);
            lemma_valid_prefix_iff(b@, LOG_LINE_MAX as int);
        }
        if 0x80u8 <= b[LOG_LINE_MAX] && b[LOG_LINE_MAX] <= 0xBFu8 {
            log_write(log, "<log>");
        } else {
            let head = vstd::slice::slice_subrange(b, 0, LOG_LINE_MAX);
            assert(head@ =~= b@.take(LOG_LINE_MAX as int));
            log_write_bytes(log, head);
        }
    }
}

/// Logs one formatted line made of `a` followed by `b`, cut to
/// `LOG_LINE_MAX` bytes (see `log_line_bytes`).
pub fn log_line_parts(log: &mut LogBuffer, a: &str, b: &str)
    requires
        old(log).wf(),
    ensures
        final(log).wf(),
        final(log)@ == log_after_write(
            old(log)@,
            log_line_bytes(a.spec_bytes() + b.spec_bytes()),
        ),
        a.spec_bytes().len() + b.spec_bytes().len() <= LOG_LINE_MAX ==> final(log)@
            == log_after_write(old(log)@, a.spec_bytes() + b.spec_bytes()),
{
    proof {
        lemma_log_line_whole_or_cut(a.spec_bytes() + b.spec_bytes());
    }
    let ab = a.as_bytes();
    let bb = b.as_bytes();
    let mut line: Vec<u8> = Vec::new();
    let mut i: usize = 0;
    while i < ab.len()
        invariant
            i <= ab@.len(),
            line@ == ab@.take(i as int),
        decreases ab@.len() - i,
    {
        line.push(ab[i]);
        i = i + 1;
        assert(line@ =~= ab@.take(i as int));
    }
    let mut j: usize = 0;
    while j < bb.len()
        invariant
            i == ab@.len(),
            j <= bb@.len(),
            line@ == ab@ + bb@.take(j as int),
        decreases bb@.len() - j,
    {
        line.push(bb[j]);
        j = j + 1;
        assert(line@ =~= ab@ + bb@.take(j as int));
    }
    assert(line@ =~= a.spec_bytes() + b.spec_bytes());
    if line.len() <= LOG_LINE_MAX {
        log_write_bytes(log, line.as_slice());
    } else {
        proof {
            vstd::utf8::encode_utf8_valid_utf8(a@);
            vstd::utf8::encode_utf8_valid_utf8(b@);
            vstd::utf8::valid_utf8_concat(ab@, bb@);
            lemma_valid_prefix_iff(line@, LOG_LINE_MAX as int);
        }
        if 0x80u8 <= line[LOG_LINE_MAX] && line[LOG_LINE_MAX] <= 0xBFu8 {
            log_write(log, "<log>");
        } else {
            let head = vstd::slice::slice_subrange(line.as_slice(), 0, LOG_LINE_MAX);
            assert(head@ =~= line@.take(LOG_LINE_MAX as int));
            log_write_bytes(log, head);
        }
    }
}

/// Appends `bytes` to the log.
pub fn log_write_bytes(log: &mut LogBuffer, bytes: &[u8])
    requires
        old(log).wf(),
    ensures
        final(log).wf(),
        final(log)@ == log_after_write(old(log)@, bytes@),
{
    let ghost p = log@;
    let mut i: usize = 0;
    assert(log@ =~= log_after_write(p, bytes@.take(0)));
    while i < bytes.len()
        invariant
            log.wf(),
            i <= bytes@.len(),
            log@ == log_after_write(p, bytes@.take(i as int)),
        decreases bytes@.len() - i,
    {
        proof {
            lemma_log_after_write_step(p, bytes@, i as int);
        }
        log.push_byte(bytes[i]);
        i = i + 1;
    }
    assert(bytes@.take(i as int) =~= bytes@);
}

/// As long as the pending bytes and a new message together stay below
/// the buffer's capacity, the message is appended whole behind them and
/// nothing is lost, so a later read gives back exactly what was written, in
/// order.
pub proof fn lemma_write_within_capacity_appends(pending: Seq<u8>, msg: Seq<u8>)
    requires
        pending.len() + msg.len() < LOG_BUF_SIZE,
    ensures
        log_after_write(pending, msg) == pending + msg,
{
    let s = pending + msg;
    assert((s.len() as int) % (LOG_BUF_SIZE as int) == s.len() as int);
    assert(log_after_write(pending, msg) =~= s);
}

/// The number of bytes pending after a write is the old count plus the
/// message length, taken modulo the capacity (a full ring reads as empty).
pub proof fn lemma_write_pending_len(pending: Seq<u8>, msg: Seq<u8>)
    ensures
        log_after_write(pending, msg).len() == ((pending.len() + msg.len()) as int) % (LOG_BUF_SIZE as int),
{
}

/// Writing `a` and then `b` leaves the log as writing `a + b` at once.
pub proof fn lemma_writes_compose(pending: Seq<u8>, a: Seq<u8>, b: Seq<u8>)
    ensures
        log_after_write(log_after_write(pending, a), b) == log_after_write(pending, a + b),
{
    let n = LOG_BUF_SIZE as int;
    let s1 = pending + a;
    let t1 = s1.len() as int;
    let r1 = t1 % n;
    let q = log_after_write(pending, a);
    assert(q =~= s1.subrange(t1 - r1, t1));
    let whole = pending + (a + b);
    assert(whole =~= s1 + b);
    let t = whole.len() as int;
    let lb = b.len() as int;
    assert(t == t1 + lb);
    let k = t % n;
    assert((r1 + lb) % n == k) by {
        assert(t1 == (t1 / n) * n + r1);
        vstd::arithmetic::div_mod::lemma_mod_multiples_vanish(t1 / n, r1 + lb, n);
    }
    let qb = q + b;
    assert(qb.len() == r1 + lb);
    assert(k <= r1 + lb) by {
        vstd::arithmetic::div_mod::lemma_mod_decreases((r1 + lb) as nat, n as nat);
    }
    assert(log_after_write(q, b) =~= qb.subrange(r1 + lb - k, r1 + lb));
    assert(log_after_write(pending, a + b) =~= whole.subrange(t - k, t));
    assert(qb.subrange(r1 + lb - k, r1 + lb) =~= whole.subrange(t - k, t));
}

} // verus!
