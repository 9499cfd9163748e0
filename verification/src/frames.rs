use vstd::prelude::*;

verus! {

/// Size of one physical frame (2 MiB).
pub const FRAME_SIZE: usize = 2 * 1024 * 1024;

/// Number of frames the allocator manages.
pub const MAX_FRAMES: usize = 128;

/// Bitmap frame allocator: one byte per frame, 0 for free and 1 for used.
/// Frame `i` starts at address `i * FRAME_SIZE`.
pub struct FrameAllocator {
    bitmap: Vec<u8>,
}

/// Frames `b .. b + n` all exist and are free.
pub open spec fn free_run(s: Seq<u8>, b: int, n: int) -> bool {
    &&& 0 <= b
    &&& b + n <= s.len()
    &&& forall|j: int| b <= j < b + n ==> s[j] == 0
}

/// `b` starts a free run of `n` frames and no free run of `n` frames starts
/// before it.
pub open spec fn is_first_free_run(s: Seq<u8>, b: int, n: int) -> bool {
    &&& free_run(s, b, n)
    &&& forall|c: int| 0 <= c < b ==> !free_run(s, c, n)
}

/// Some run of `n` free frames exists.
pub open spec fn has_free_run(s: Seq<u8>, n: int) -> bool {
    exists|b: int| free_run(s, b, n)
}

/// The start of the first run of `n` free frames (meaningful when
/// `has_free_run(s, n)`).
pub open spec fn first_free_run(s: Seq<u8>, n: int) -> int {
    choose|b: int| is_first_free_run(s, b, n)
}

/// The bitmap `s` with frames `b .. b + n` marked used.
pub open spec fn mark_used(s: Seq<u8>, b: int, n: int) -> Seq<u8> {
    Seq::new(s.len(), |j: int| if b <= j < b + n { 1u8 } else { s[j] })
}

/// The bitmap after freeing the frame that holds address `addr`: the frame
/// index is `addr / FRAME_SIZE`, and an index past the last frame changes
/// nothing.
pub open spec fn freed(s: Seq<u8>, addr: usize) -> Seq<u8> {
    if addr / FRAME_SIZE < MAX_FRAMES {
        s.update((addr / FRAME_SIZE) as int, 0u8)
    } else {
        s
    }
}

/// Number of frames that cover `size` bytes.
pub open spec fn frames_needed(size: usize) -> int {
    (size + FRAME_SIZE - 1) / (FRAME_SIZE as int)
}

/// A run that starts at frame `b` starts at an address that is a multiple
/// of `align`.
pub open spec fn aligned_start(b: int, align: usize) -> bool {
    (b * FRAME_SIZE) % (align as int) == 0
}

/// `b` starts a free run of `n` frames at an address that is a multiple of
/// `align`, and no such run starts before it.
pub open spec fn is_first_aligned_free_run(s: Seq<u8>, b: int, n: int, align: usize) -> bool {
    &&& free_run(s, b, n)
    &&& aligned_start(b, align)
    &&& forall|c: int| 0 <= c < b && aligned_start(c, align) ==> !free_run(s, c, n)
}

/// Some run of `n` free frames starts at a multiple of `align`.
pub open spec fn has_aligned_free_run(s: Seq<u8>, n: int, align: usize) -> bool {
    exists|b: int| free_run(s, b, n) && aligned_start(b, align)
}

/// The start of the first run of `n` free frames whose address is a
/// multiple of `align` (meaningful when `has_aligned_free_run(s, n, align)`).
pub open spec fn first_aligned_free_run(s: Seq<u8>, n: int, align: usize) -> int {
    choose|b: int| is_first_aligned_free_run(s, b, n, align)
}

/// Two first free runs of the same length start at the same frame.
pub proof fn lemma_first_free_run_unique(s: Seq<u8>, b: int, c: int, n: int)
    requires
        is_first_free_run(s, b, n),
        is_first_free_run(s, c, n),
    ensures
        b == c,
{
}

/// When `b` is the first free run, `first_free_run` names it.
proof fn lemma_first_free_run_is(s: Seq<u8>, b: int, n: int)
    requires
        is_first_free_run(s, b, n),
    ensures
        first_free_run(s, n) == b,
        has_free_run(s, n),
{
    let c = first_free_run(s, n);
    assert(is_first_free_run(s, c, n));
    lemma_first_free_run_unique(s, b, c, n);
}

/// When `b` is the first aligned free run, `first_aligned_free_run` names it.
proof fn lemma_first_aligned_run_is(s: Seq<u8>, b: int, n: int, align: usize)
    requires
        is_first_aligned_free_run(s, b, n, align),
    ensures
        first_aligned_free_run(s, n, align) == b,
        has_aligned_free_run(s, n, align),
{
    let c = first_aligned_free_run(s, n, align);
    assert(is_first_aligned_free_run(s, c, n, align));
    if c < b {
    } else if b < c {
    }
}

impl View for FrameAllocator {
    type V = Seq<u8>;

    closed spec fn view(&self) -> Seq<u8> {
        self.bitmap@
    }
}

impl FrameAllocator {
    /// Well-formedness: one byte for each of the `MAX_FRAMES` frames.
    pub open spec fn wf(&self) -> bool {
        self@.len() == MAX_FRAMES
    }

    /// An allocator with every frame free.
    pub fn new() -> (a: Self)
        ensures
            a.wf(),
            a@ == Seq::new(MAX_FRAMES as nat, |i: int| 0u8),
    {
        let mut bitmap: Vec<u8> = Vec::new();
        let mut i: usize = 0;
        while i < MAX_FRAMES
            invariant
                i <= MAX_FRAMES,
                bitmap@ == Seq::new(i as nat, |k: int| 0u8),
            decreases MAX_FRAMES - i,
        {
            bitmap.push(0u8);
            i = i + 1;
        }
        FrameAllocator { bitmap }
    }

    /// Whether frame `i` is in use.
    pub fn is_used(&self, i: usize) -> (r: bool)
        requires
            self.wf(),
            i < MAX_FRAMES,
        ensures
            r == (self@[i as int] != 0),
    {
        self.bitmap[i] != 0
    }

    /// Finds the first run of `n` free frames, scanning from frame 0.
    fn find_free_run(&self, n: usize) -> (r: Option<usize>)
        requires
            self.wf(),
            n > 0,
        ensures
            match r {
                Some(b) => is_first_free_run(self@, b as int, n as int),
                None => !has_free_run(self@, n as int),
            },
    {
        let ghost s = self@;
        let mut start: Option<usize> = None;
        let mut count: usize = 0;
        let mut i: usize = 0;
        while i < MAX_FRAMES
            invariant
                self.wf(),
                s == self@,
                n > 0,
                i <= MAX_FRAMES,
                count <= i,
                count < n,
                forall|j: int| i - count <= j < i ==> s[j] == 0,
                i - count > 0 ==> s[i - count - 1] != 0,
                start == (if count > 0 { Some((i - count) as usize) } else { None::<usize> }),
                forall|c: int| 0 <= c && c + n <= i ==> !free_run(s, c, n as int),
            decreases MAX_FRAMES - i,
        {
            if self.bitmap[i] == 0 {
                if start.is_none() {
                    start = Some(i);
                }
                count = count + 1;
                if count == n {
                    let base = start.unwrap();
                    proof {
                        assert(base == i + 1 - n);
                        assert forall|c: int| 0 <= c < base implies !free_run(s, c, n as int) by {
                            if c + n > i {
                                assert(c + n == i + 1);
                            }
                        }
                    }
                    return Some(base);
                }
            } else {
                proof {
                    assert forall|c: int| 0 <= c && c + n <= i + 1 implies !free_run(
                        s,
                        c,
                        n as int,
                    ) by {
                        if c + n == i + 1 {
                            assert(s[i as int] != 0);
                        }
                    }
                }
                start = None;
                count = 0;
            }
            proof {
                assert forall|c: int| 0 <= c && c + n <= i + 1 implies !free_run(
                    s,
                    c,
                    n as int,
                ) by {
                    if c + n == i + 1 && s[i as int] == 0 {
                        assert(c < i + 1 - count);
                        assert(s[(i - (count - 1) - 1) as int] != 0);
                    }
                }
            }
            i = i + 1;
        }
        proof {
            assert forall|c: int| free_run(s, c, n as int) implies false by {
                assert(c + n <= MAX_FRAMES);
            }
        }
        None
    }

    /// Finds the first run of `n` free frames that starts at a multiple of
    /// `align`, trying each start frame in turn.
    fn find_aligned_run(&self, n: usize, align: usize) -> (r: Option<usize>)
        requires
            self.wf(),
            n > 0,
            align > 0,
        ensures
            match r {
                Some(b) => is_first_aligned_free_run(self@, b as int, n as int, align),
                None => !has_aligned_free_run(self@, n as int, align),
            },
    {
        let ghost s = self@;
        if n > MAX_FRAMES {
            proof {
                assert forall|c: int| free_run(s, c, n as int) implies false by {}
            }
            return None;
        }
        let mut b: usize = 0;
        while b + n <= MAX_FRAMES
            invariant
                self.wf(),
                s == self@,
                0 < n <= MAX_FRAMES,
                align > 0,
                b <= MAX_FRAMES,
                forall|c: int| 0 <= c < b && aligned_start(c, align) ==> !free_run(s, c, n as int),
            decreases MAX_FRAMES - b,
        {
            assert(b * FRAME_SIZE <= 128 * FRAME_SIZE) by (nonlinear_arith)
                requires
                    b <= 128,
            ;
            if (b * FRAME_SIZE) % align == 0 {
                let mut j: usize = b;
                while j < b + n && self.bitmap[j] == 0
                    invariant
                        self.wf(),
                        s == self@,
                        b <= j <= b + n,
                        b + n <= MAX_FRAMES,
                        forall|i: int| b <= i < j ==> s[i] == 0,
                    decreases b + n - j,
                {
                    j = j + 1;
                }
                if j == b + n {
                    return Some(b);
                }
                proof {
                    assert(s[j as int] != 0);
                    assert(!free_run(s, b as int, n as int));
                }
            }
            b = b + 1;
        }
        proof {
            assert forall|c: int| free_run(s, c, n as int) && aligned_start(c, align) implies false by {
                assert(c < b);
            }
        }
        None
    }

    /// Marks frames `b .. b + n` used.
    fn mark_run(&mut self, b: usize, n: usize)
        requires
            old(self).wf(),
            b + n <= MAX_FRAMES,
        ensures
            final(self).wf(),
            final(self)@ == mark_used(old(self)@, b as int, n as int),
    {
        let ghost s = self@;
        let mut j: usize = b;
        while j < b + n
            invariant
                self.wf(),
                b <= j <= b + n,
                b + n <= MAX_FRAMES,
                self@ =~= mark_used(s, b as int, j - b),
            decreases b + n - j,
        {
            self.bitmap.set(j, 1u8);
            j = j + 1;
        }
    }
}

/// Takes the first free frame, marks it used and returns its address.
fn alloc_frame_impl(frames: &mut FrameAllocator) -> (r: Option<usize>)
    requires
        old(frames).wf(),
    ensures
        final(frames).wf(),
        has_free_run(old(frames)@, 1) ==> r == Some(
            (first_free_run(old(frames)@, 1) * FRAME_SIZE) as usize,
        ) && final(frames)@ == old(frames)@.update(first_free_run(old(frames)@, 1), 1u8),
        !has_free_run(old(frames)@, 1) ==> r is None && final(frames)@ == old(frames)@,
{
    let ghost s = frames@;
    match frames.find_free_run(1) {
        Some(i) => {
            proof {
                lemma_first_free_run_is(s, i as int, 1);
            }
            frames.mark_run(i, 1);
            assert(frames@ =~= s.update(i as int, 1u8));
            assert(i * FRAME_SIZE <= 127 * FRAME_SIZE) by (nonlinear_arith)
                requires
                    i < 128,
            ;
            Some(i * FRAME_SIZE)
        },
        None => None,
    }
}

/// Takes the first free frame and marks it used; the address is not
/// returned (drivers only need the effect).
pub fn alloc_frame(frames: &mut FrameAllocator)
    requires
        old(frames).wf(),
    ensures
        final(frames).wf(),
        has_free_run(old(frames)@, 1) ==> final(frames)@ == old(frames)@.update(
            first_free_run(old(frames)@, 1),
            1u8,
        ),
        !has_free_run(old(frames)@, 1) ==> final(frames)@ == old(frames)@,
{
    let _ = alloc_frame_impl(frames);
}

/// Takes the first free frame, marks it used and returns its address; `None`
/// when every frame is in use.
pub fn alloc_frame_get(frames: &mut FrameAllocator) -> (r: Option<usize>)
    requires
        old(frames).wf(),
    ensures
        final(frames).wf(),
        has_free_run(old(frames)@, 1) ==> r == Some(
            (first_free_run(old(frames)@, 1) * FRAME_SIZE) as usize,
        ) && final(frames)@ == old(frames)@.update(first_free_run(old(frames)@, 1), 1u8),
        !has_free_run(old(frames)@, 1) ==> r is None && final(frames)@ == old(frames)@,
{
    alloc_frame_impl(frames)
}

/// Marks free the frame that holds `addr`; an address past the last frame
/// changes nothing.
pub fn free_frame(frames: &mut FrameAllocator, addr: usize)
    requires
        old(frames).wf(),
    ensures
        final(frames).wf(),
        final(frames)@ == freed(old(frames)@, addr),
{
    let i = addr / FRAME_SIZE;
    if i < MAX_FRAMES {
        frames.bitmap.set(i, 0u8);
    }
}

/// Reserves the first run of free frames that covers `size` bytes and
/// starts at a multiple of `align`, and returns the run's start address.
/// `None` when no such run exists, and when `size` is 0 (no run of zero
/// frames is ever reported).
pub fn alloc_aligned(frames: &mut FrameAllocator, size: usize, align: usize) -> (r: Option<usize>)
    requires
        old(frames).wf(),
        size + FRAME_SIZE - 1 <= usize::MAX,
        align > 0,
    ensures
        final(frames).wf(),
        ({
            let n = frames_needed(size);
            let s = old(frames)@;
            if n > 0 && has_aligned_free_run(s, n, align) {
                let b = first_aligned_free_run(s, n, align);
                &&& r == Some((b * FRAME_SIZE) as usize)
                &&& final(frames)@ == mark_used(s, b, n)
            } else {
                &&& r is None
                &&& final(frames)@ == s
            }
        }),
{
    let ghost s = frames@;
    let needed = (size + (FRAME_SIZE - 1)) / FRAME_SIZE;
    if needed == 0 {
        return None;
    }
    match frames.find_aligned_run(needed, align) {
        Some(base) => {
            proof {
                lemma_first_aligned_run_is(s, base as int, needed as int, align);
            }
            frames.mark_run(base, needed);
            assert(base * FRAME_SIZE <= 127 * FRAME_SIZE) by (nonlinear_arith)
                requires
                    base < 128,
            ;
            Some(base * FRAME_SIZE)
        },
        None => None,
    }
}

/// The frame `alloc_frame_get` hands out was free, lies inside the
/// bitmap, and its address is a whole multiple of `FRAME_SIZE`.
pub proof fn lemma_allocated_frame_was_free(s: Seq<u8>)
    requires
        s.len() == MAX_FRAMES,
        has_free_run(s, 1),
    ensures
        0 <= first_free_run(s, 1) < MAX_FRAMES,
        s[first_free_run(s, 1)] == 0,
        (first_free_run(s, 1) * FRAME_SIZE) % (FRAME_SIZE as int) == 0,
{
    let b = choose|b: int| free_run(s, b, 1);
    lemma_first_exists(s, b, 1);
    let f = first_free_run(s, 1);
    assert(is_first_free_run(s, f, 1));
    assert(s[f] == 0);
    vstd::arithmetic::div_mod::lemma_mod_multiples_basic(f, FRAME_SIZE as int);
}

/// Whenever some run exists, a first one exists.
pub proof fn lemma_first_exists(s: Seq<u8>, b: int, n: int)
    requires
        free_run(s, b, n),
    ensures
        is_first_free_run(s, first_free_run(s, n), n),
    decreases b,
{
    if forall|c: int| 0 <= c < b ==> !free_run(s, c, n) {
        assert(is_first_free_run(s, b, n));
    } else {
        let c = choose|c: int| 0 <= c < b && free_run(s, c, n);
        lemma_first_exists(s, c, n);
    }
}

/// Freeing the frame that `alloc_frame_get` just handed out gives back
/// the bitmap as it was before the allocation.
pub proof fn lemma_alloc_then_free_restores(s: Seq<u8>)
    requires
        s.len() == MAX_FRAMES,
        has_free_run(s, 1),
    ensures
        freed(
            s.update(first_free_run(s, 1), 1u8),
            (first_free_run(s, 1) * FRAME_SIZE) as usize,
        ) == s,
{
    lemma_allocated_frame_was_free(s);
    let b = first_free_run(s, 1);
    assert(b * FRAME_SIZE <= 127 * FRAME_SIZE) by (nonlinear_arith)
        requires
            0 <= b < 128,
    ;
    assert(b * FRAME_SIZE >= 0) by (nonlinear_arith)
        requires
            0 <= b,
    ;
    let a = (b * FRAME_SIZE) as usize;
    assert(a as int == b * FRAME_SIZE);
    assert((b * FRAME_SIZE) / (FRAME_SIZE as int) == b) by {
        vstd::arithmetic::div_mod::lemma_div_multiples_vanish(b, FRAME_SIZE as int);
    }
    assert(a / FRAME_SIZE == b);
    assert(s.update(b, 1u8).update(b, 0u8) =~= s);
}

/// The run `alloc_aligned` reserves lies inside the bitmap, was free
/// before, starts at a multiple of the alignment, and no earlier run of that
/// length that starts at a multiple of the alignment was free.
pub proof fn lemma_reserved_run_was_free(s: Seq<u8>, n: int, align: usize)
    requires
        s.len() == MAX_FRAMES,
        has_aligned_free_run(s, n, align),
    ensures
        is_first_aligned_free_run(s, first_aligned_free_run(s, n, align), n, align),
        0 <= first_aligned_free_run(s, n, align),
        first_aligned_free_run(s, n, align) + n <= MAX_FRAMES,
        (first_aligned_free_run(s, n, align) * FRAME_SIZE) % (align as int) == 0,
        forall|j: int|
            first_aligned_free_run(s, n, align) <= j < first_aligned_free_run(s, n, align) + n
                ==> s[j] == 0,
{
    let b = choose|b: int| free_run(s, b, n) && aligned_start(b, align);
    lemma_first_aligned_exists(s, b, n, align);
}

/// Whenever some aligned run exists, a first one exists.
proof fn lemma_first_aligned_exists(s: Seq<u8>, b: int, n: int, align: usize)
    requires
        free_run(s, b, n),
        aligned_start(b, align),
    ensures
        is_first_aligned_free_run(s, first_aligned_free_run(s, n, align), n, align),
    decreases b,
{
    if forall|c: int| 0 <= c < b && aligned_start(c, align) ==> !free_run(s, c, n) {
        assert(is_first_aligned_free_run(s, b, n, align));
    } else {
        let c = choose|c: int| 0 <= c < b && aligned_start(c, align) && free_run(s, c, n);
        lemma_first_aligned_exists(s, c, n, align);
    }
}

/// Two allocations in a row never hand out the same frame.
pub proof fn lemma_consecutive_allocations_differ(s: Seq<u8>)
    requires
        s.len() == MAX_FRAMES,
        has_free_run(s, 1),
        has_free_run(s.update(first_free_run(s, 1), 1u8), 1),
    ensures
        first_free_run(s.update(first_free_run(s, 1), 1u8), 1) != first_free_run(s, 1),
{
    lemma_allocated_frame_was_free(s);
    let b = first_free_run(s, 1);
    let t = s.update(b, 1u8);
    lemma_allocated_frame_was_free(t);
}

/// Freeing the same address twice leaves the bitmap as freeing it once.
pub proof fn lemma_free_idempotent(s: Seq<u8>, addr: usize)
    requires
        s.len() == MAX_FRAMES,
    ensures
        freed(freed(s, addr), addr) == freed(s, addr),
{
    if addr / FRAME_SIZE < MAX_FRAMES {
        assert(freed(freed(s, addr), addr) =~= freed(s, addr));
    }
}

/// The frames `alloc_aligned` reserves cover the requested size, with
/// less than one frame to spare.
pub proof fn lemma_frames_needed_covers(size: usize)
    ensures
        frames_needed(size) * FRAME_SIZE >= size,
        frames_needed(size) * FRAME_SIZE < size + FRAME_SIZE,
{
    let f = FRAME_SIZE as int;
    let t = size + f - 1;
    vstd::arithmetic::div_mod::lemma_fundamental_div_mod(t, f);
    assert(t == f * (t / f) + t % f);
    assert(0 <= t % f < f) by {
        vstd::arithmetic::div_mod::lemma_mod_pos_bound(t, f);
    }
    let q = t / f;
    assert(q * f == f * q) by (nonlinear_arith);
    assert(frames_needed(size) == q);
}

/// One allocator call that does not free frame `b`: nothing changed (a
/// failed request), a single frame allocated, a run of frames reserved, or
/// an address outside frame `b` freed.
pub open spec fn step_keeps_frame(s0: Seq<u8>, s1: Seq<u8>, b: int) -> bool {
    ||| s1 == s0
    ||| (has_free_run(s0, 1) && s1 == s0.update(first_free_run(s0, 1), 1u8))
    ||| exists|c: int, n: int| s1 == mark_used(s0, c, n)
    ||| exists|addr: usize| addr / FRAME_SIZE != b && s1 == freed(s0, addr)
}

/// Along a run of allocator calls none of which frees frame `b`, a frame in
/// use stays in use.
proof fn lemma_frame_stays_used(run: Seq<Seq<u8>>, b: int, k: int)
    requires
        0 <= b < MAX_FRAMES,
        0 <= k < run.len(),
        forall|i: int| 0 <= i < run.len() ==> #[trigger] run[i].len() == MAX_FRAMES,
        run[0][b] != 0,
        forall|i: int| 0 <= i < run.len() - 1 ==> step_keeps_frame(#[trigger] run[i], run[i + 1], b),
    ensures
        run[k][b] != 0,
    decreases k,
{
    if k > 0 {
        lemma_frame_stays_used(run, b, k - 1);
        let s0 = run[k - 1];
        let s1 = run[k];
        assert(step_keeps_frame(s0, s1, b));
        assert(s0.len() == MAX_FRAMES);
        if has_free_run(s0, 1) && s1 == s0.update(first_free_run(s0, 1), 1u8) {
            lemma_allocated_frame_was_free(s0);
        } else if exists|c: int, n: int| s1 == mark_used(s0, c, n) {
            let (c, n) = choose|c: int, n: int| s1 == mark_used(s0, c, n);
            assert(s1[b] == mark_used(s0, c, n)[b]);
        } else if exists|addr: usize| addr / FRAME_SIZE != b && s1 == freed(s0, addr) {
            let addr = choose|addr: usize| addr / FRAME_SIZE != b && s1 == freed(s0, addr);
            assert(s1[b] == freed(s0, addr)[b]);
        }
    }
}

/// No frame is handed out twice while in use: once frame `b` is in use,
/// along any run of allocator calls that does not free it, it stays in use
/// and `alloc_frame_get` never returns it.
pub proof fn lemma_frame_not_reissued(run: Seq<Seq<u8>>, b: int)
    requires
        0 <= b < MAX_FRAMES,
        run.len() > 0,
        forall|i: int| 0 <= i < run.len() ==> #[trigger] run[i].len() == MAX_FRAMES,
        run[0][b] != 0,
        forall|i: int| 0 <= i < run.len() - 1 ==> step_keeps_frame(#[trigger] run[i], run[i + 1], b),
    ensures
        forall|k: int| 0 <= k < run.len() ==> run[k][b] != 0,
        forall|k: int|
            0 <= k < run.len() && has_free_run(run[k], 1) ==> first_free_run(run[k], 1) != b,
{
    assert forall|k: int| 0 <= k < run.len() implies run[k][b] != 0 && (has_free_run(run[k], 1)
        ==> first_free_run(run[k], 1) != b) by {
        lemma_frame_stays_used(run, b, k);
        assert(run[k].len() == MAX_FRAMES);
        if has_free_run(run[k], 1) {
            lemma_allocated_frame_was_free(run[k]);
        }
    }
}

} // verus!
