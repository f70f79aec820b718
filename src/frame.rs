use vstd::prelude::*;

verus! {

/// One link-layer payload in a buffer slot. The frame shows the window
/// `[head, tail)` of its allocation; moving `head` widens or narrows that
/// window without copying a byte.
pub struct Frame {
    buf: Vec<u8>,
    head: usize,
    tail: usize,
}

impl View for Frame {
    type V = Seq<u8>;

    /// The bytes the frame currently presents.
    closed spec fn view(&self) -> Seq<u8> {
        self.buf@.subrange(self.head as int, self.tail as int)
    }
}

impl Frame {
    /// The whole underlying allocation.
    pub closed spec fn allocation(&self) -> Seq<u8> {
        self.buf@
    }

    /// Start of the window within the allocation.
    pub closed spec fn head_spec(&self) -> int {
        self.head as int
    }

    /// End of the window within the allocation.
    pub closed spec fn tail_spec(&self) -> int {
        self.tail as int
    }

    /// The window lies inside the allocation.
    pub open spec fn wf(&self) -> bool {
        0 <= self.head_spec() <= self.tail_spec() <= self.allocation().len()
    }

    /// The presented bytes, as a function of the three parts above.
    pub broadcast proof fn lemma_view(f: &Frame)
        ensures
            #[trigger] f@ == f.allocation().subrange(f.head_spec(), f.tail_spec()),
    {
    }

    /// The same allocation and tail, with the head moved by `delta`.
    pub closed spec fn shifted(&self, delta: int) -> Frame {
        Frame { buf: self.buf, head: (self.head + delta) as usize, tail: self.tail }
    }

    /// Whether moving the head by `delta` keeps the window inside the allocation.
    pub open spec fn can_shift(&self, delta: int) -> bool {
        0 <= self.head_spec() + delta <= self.tail_spec()
    }

    pub broadcast proof fn lemma_shifted(f: &Frame, delta: int)
        requires
            f.wf(),
            f.can_shift(delta),
        ensures
            #[trigger] f.shifted(delta).allocation() == f.allocation(),
            f.shifted(delta).head_spec() == f.head_spec() + delta,
            f.shifted(delta).tail_spec() == f.tail_spec(),
            f.shifted(delta).wf(),
    {
    }

    /// A frame over `buf` whose window starts after `headroom` bytes, which
    /// stay free for headers added later.
    pub fn new(buf: Vec<u8>, headroom: usize) -> (r: Frame)
        requires
            headroom <= buf@.len(),
        ensures
            r.wf(),
            r.allocation() == buf@,
            r.head_spec() == headroom,
            r.tail_spec() == buf@.len(),
            r@ == buf@.subrange(headroom as int, buf@.len() as int),
    {
        let tail = buf.len();
        Frame { buf, head: headroom, tail }
    }

    /// A frame presenting all of `data`, with no headroom.
    pub fn from_bytes(data: Vec<u8>) -> (r: Frame)
        ensures
            r.wf(),
            r@ == data@,
            r.head_spec() == 0,
    {
        let tail = data.len();
        let r = Frame { buf: data, head: 0, tail };
        assert(r@ =~= data@);
        r
    }

    /// Number of bytes presented.
    pub fn len(&self) -> (r: usize)
        requires
            self.wf(),
        ensures
            r == self@.len(),
    {
        self.tail - self.head
    }

    /// Bytes free in front of the window.
    pub fn headroom(&self) -> (r: usize)
        ensures
            r == self.head_spec(),
    {
        self.head
    }

    /// A read view of the presented bytes.
    pub fn data_ref(&self) -> (r: &[u8])
        requires
            self.wf(),
        ensures
            r@ == self@,
    {
        &self.buf.as_slice()[self.head..self.tail]
    }

    /// A copy of the presented bytes.
    pub fn to_vec(&self) -> (r: Vec<u8>)
        requires
            self.wf(),
        ensures
            r@ == self@,
    {
        let mut r: Vec<u8> = Vec::new();
        let mut i: usize = self.head;
        while i < self.tail
            invariant
                self.wf(),
                self.head <= i <= self.tail,
                r@ == self.buf@.subrange(self.head as int, i as int),
            decreases self.tail - i,
        {
            r.push(self.buf[i]);
            i += 1;
            assert(r@ =~= self.buf@.subrange(self.head as int, i as int));
        }
        r
    }

    /// Overwrites the presented byte at `index`.
    pub fn set_byte(&mut self, index: usize, value: u8)
        requires
            old(self).wf(),
            index < old(self)@.len(),
        ensures
            final(self).wf(),
            final(self).head_spec() == old(self).head_spec(),
            final(self).tail_spec() == old(self).tail_spec(),
            final(self)@ == old(self)@.update(index as int, value),
    {
        let at = self.head + index;
        self.buf.set(at, value);
        assert(self@ =~= old(self)@.update(index as int, value));
    }

    /// Whether `adjust_head(delta)` is allowed.
    pub fn can_adjust_head(&self, delta: isize) -> (r: bool)
        requires
            self.wf(),
        ensures
            r == self.can_shift(delta as int),
    {
        if delta < 0 {
            let back = (0 - (delta as i128)) as usize;
            back <= self.head
        } else {
            (delta as usize) <= self.tail - self.head
        }
    }

    /// Moves the start of the window by `delta` bytes: a negative `delta`
    /// exposes bytes in front (room for a new header), a positive one drops
    /// leading bytes (strips a header). Nothing is copied.
    pub fn adjust_head(&mut self, delta: isize)
        requires
            old(self).wf(),
            old(self).can_shift(delta as int),
        ensures
            *final(self) == old(self).shifted(delta as int),
            final(self).wf(),
    {
        if delta < 0 {
            let back = (0 - (delta as i128)) as usize;
            self.head = self.head - back;
        } else {
            self.head = self.head + (delta as usize);
        }
    }

    /// Moving the head back by `h` and then forward by `h` gives back the
    /// same frame: the same allocation, the same window, the same bytes.
    pub proof fn lemma_adjust_round_trip(f: Frame, h: int)
        requires
            f.wf(),
            0 <= h <= f.head_spec(),
        ensures
            f.shifted(-h).shifted(h) == f,
            f.shifted(-h).shifted(h)@ == f@,
            f.shifted(-h)@.len() == f@.len() + h,
            f.shifted(-h)@.subrange(h, h + f@.len()) == f@,
    {
        let g = f.shifted(-h);
        assert(g@.subrange(h, h + f@.len()) =~= f@);
    }
}

} // verus!
