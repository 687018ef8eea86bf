//! The window of three consecutive chunks kept while a file is streamed, so
//! that a chunk can be decrypted with the bytes just before and after it.

use vstd::prelude::*;

use crate::encryption::{
    decrypt_in_place, parse_record, ranges_valid, read_record, spec_decrypt, DecryptError,
    EncryptionId, Pos, pos_index, BLOCK_SIZE,
};

verus! {

/// File data read at `file_offset` (relative to the start of the file).
#[derive(Debug)]
pub struct Chunk {
    pub data: Vec<u8>,
    pub file_offset: i64,
}

pub open spec fn chunk_view(c: Option<Chunk>) -> Option<(Seq<u8>, i64)> {
    match c {
        Some(c) => Some((c.data@, c.file_offset)),
        None => None,
    }
}

/// Three chunk slots used round-robin: after a push, the slot before `pos`
/// holds the chunk being decrypted when it has a predecessor, the slot two
/// back holds the chunk before it and `pos` the chunk after it.
#[derive(Debug)]
pub struct CiphertextBuffer {
    s0: Option<Chunk>,
    s1: Option<Chunk>,
    s2: Option<Chunk>,
    pos: Pos,
    is_pushed: bool,
}

pub ghost struct BufferView {
    pub slots: Seq<Option<(Seq<u8>, i64)>>,
    pub pos: int,
    pub pushed: bool,
}

impl View for CiphertextBuffer {
    type V = BufferView;

    closed spec fn view(&self) -> BufferView {
        BufferView {
            slots: seq![chunk_view(self.s0), chunk_view(self.s1), chunk_view(self.s2)],
            pos: pos_index(self.pos),
            pushed: self.is_pushed,
        }
    }
}

pub open spec fn prev_index(i: int) -> int {
    (i + 2) % 3
}

impl BufferView {
    pub open spec fn wf(self) -> bool {
        &&& self.slots.len() == 3
        &&& 0 <= self.pos < 3
    }

    pub open spec fn has_predecessor(self) -> bool {
        self.slots[prev_index(self.pos)] is Some
    }

    /// The slot of the chunk to decrypt.
    pub open spec fn curr_index(self) -> int {
        if self.has_predecessor() {
            prev_index(self.pos)
        } else {
            self.pos
        }
    }

    pub open spec fn curr(self) -> Option<(Seq<u8>, i64)> {
        self.slots[self.curr_index()]
    }

    /// The bytes of the chunk before the current one.
    pub open spec fn prev_bytes(self) -> Seq<u8> {
        if !self.has_predecessor() {
            Seq::empty()
        } else {
            match self.slots[prev_index(prev_index(self.pos))] {
                Some((d, _)) => d,
                None => Seq::empty(),
            }
        }
    }

    /// The bytes of the chunk after the current one.
    pub open spec fn next_bytes(self) -> Seq<u8> {
        if !self.has_predecessor() {
            Seq::empty()
        } else {
            match self.slots[self.pos] {
                Some((d, _)) => d,
                None => Seq::empty(),
            }
        }
    }

    /// The view after `c` is put in the next slot.
    pub open spec fn pushed_with(self, c: Option<(Seq<u8>, i64)>) -> BufferView {
        let p = (self.pos + 1) % 3;
        BufferView { slots: self.slots.update(p, c), pos: p, pushed: true }
    }
}

/// The window after the chunks `cs` were pushed, one after the other, into
/// an empty one (`None` for the end of the stream).
pub open spec fn after_pushes(cs: Seq<Option<(Seq<u8>, i64)>>) -> BufferView
    decreases cs.len(),
{
    if cs.len() == 0 {
        BufferView { slots: seq![None, None, None], pos: 1, pushed: false }
    } else {
        after_pushes(cs.drop_last()).pushed_with(cs.last())
    }
}

/// The chunk pushed `j` pushes before the last one, if there is one.
pub open spec fn pushed_back(cs: Seq<Option<(Seq<u8>, i64)>>, j: int) -> Option<(Seq<u8>, i64)> {
    if 0 <= j < cs.len() {
        cs[cs.len() - 1 - j]
    } else {
        None
    }
}

proof fn lemma_after_pushes(cs: Seq<Option<(Seq<u8>, i64)>>)
    ensures
        after_pushes(cs).wf(),
        after_pushes(cs).pushed == (cs.len() > 0),
        after_pushes(cs).slots[after_pushes(cs).pos] == pushed_back(cs, 0),
        after_pushes(cs).slots[prev_index(after_pushes(cs).pos)] == pushed_back(cs, 1),
        after_pushes(cs).slots[prev_index(prev_index(after_pushes(cs).pos))] == pushed_back(cs, 2),
    decreases cs.len(),
{
    if cs.len() > 0 {
        let init = cs.drop_last();
        lemma_after_pushes(init);
        let v = after_pushes(init);
        let w = after_pushes(cs);
        assert(w == v.pushed_with(cs.last()));
        assert(prev_index(w.pos) == v.pos);
        assert(prev_index(prev_index(w.pos)) == prev_index(v.pos));
        assert(pushed_back(cs, 1) == pushed_back(init, 0));
        assert(pushed_back(cs, 2) == pushed_back(init, 1));
    }
}

/// The chunks `cs` as pushed.
pub open spec fn as_pushed(cs: Seq<(Seq<u8>, i64)>) -> Seq<Option<(Seq<u8>, i64)>> {
    cs.map_values(|c: (Seq<u8>, i64)| Some(c))
}

/// Pushing chunks into an empty window keeps one chunk of lookahead: after
/// one chunk, it is the current one, with nothing around it; after `k >= 2`
/// chunks, the current one is chunk `k - 2`, with chunk `k - 3` (if any)
/// before it and chunk `k - 1` after it. Once the end of the stream is
/// pushed, the current chunk is the last one, with the one before it (if
/// any) and nothing after it.
pub proof fn lemma_lookahead(cs: Seq<(Seq<u8>, i64)>)
    requires
        cs.len() >= 1,
    ensures
        ({
            let n = cs.len() as int;
            let v = after_pushes(as_pushed(cs));
            let f = after_pushes(as_pushed(cs).push(None));
            &&& v.wf() && v.pushed && f.wf() && f.pushed
            &&& n == 1 ==> v.curr() == Some(cs[0]) && v.prev_bytes() == Seq::<u8>::empty()
                && v.next_bytes() == Seq::<u8>::empty()
            &&& n >= 2 ==> v.curr() == Some(cs[n - 2]) && v.next_bytes() == cs[n - 1].0
                && v.prev_bytes() == (if n >= 3 {
                cs[n - 3].0
            } else {
                Seq::<u8>::empty()
            })
            &&& f.curr() == Some(cs[n - 1]) && f.next_bytes() == Seq::<u8>::empty()
                && f.prev_bytes() == (if n >= 2 {
                cs[n - 2].0
            } else {
                Seq::<u8>::empty()
            })
        }),
{
    let n = cs.len() as int;
    let ps = as_pushed(cs);
    let pf = ps.push(None);
    lemma_after_pushes(ps);
    lemma_after_pushes(pf);
    assert(pf.drop_last() =~= ps);
    assert(pushed_back(ps, 0) == Some(cs[n - 1]));
    assert(n >= 2 ==> pushed_back(ps, 1) == Some(cs[n - 2]));
    assert(n >= 3 ==> pushed_back(ps, 2) == Some(cs[n - 3]));
    assert(pushed_back(pf, 0) == None::<(Seq<u8>, i64)>);
    assert(pushed_back(pf, 1) == Some(cs[n - 1]));
    assert(n >= 2 ==> pushed_back(pf, 2) == Some(cs[n - 2]));
}

/// The last bytes of `prev` right-aligned in a block, zeros before them.
pub open spec fn head_block(prev: Seq<u8>) -> Seq<u8> {
    if prev.len() >= 16 {
        prev.subrange(prev.len() - 16, prev.len() as int)
    } else {
        Seq::new((16 - prev.len()) as nat, |i: int| 0u8) + prev
    }
}

/// The first bytes of `next` left-aligned in a block, zeros after them.
pub open spec fn tail_block(next: Seq<u8>) -> Seq<u8> {
    if next.len() >= 16 {
        next.subrange(0, 16)
    } else {
        next + Seq::new((16 - next.len()) as nat, |i: int| 0u8)
    }
}

impl CiphertextBuffer {
    /// An empty window.
    pub fn new() -> (r: CiphertextBuffer)
        ensures
            r@.wf(),
            r@.slots == seq![None::<(Seq<u8>, i64)>, None, None],
            r@.pos == 1,
            !r@.pushed,
    {
        CiphertextBuffer { s0: None, s1: None, s2: None, pos: Pos::P1, is_pushed: false }
    }

    /// Puts the next chunk of the stream in the window.
    pub fn push(&mut self, buf: Chunk)
        requires
            old(self)@.wf(),
        ensures
            final(self)@ == old(self)@.pushed_with(Some((buf.data@, buf.file_offset))),
            final(self)@.wf(),
    {
        self.do_push(Some(buf));
    }

    /// Marks the end of the stream.
    pub fn finish(&mut self)
        requires
            old(self)@.wf(),
        ensures
            final(self)@ == old(self)@.pushed_with(None),
            final(self)@.wf(),
    {
        self.do_push(None);
    }

    /// Whether nothing was pushed yet.
    pub fn is_empty(&self) -> (r: bool)
        ensures
            r == !self@.pushed,
    {
        !self.is_pushed
    }

    fn do_push(&mut self, buf: Option<Chunk>)
        requires
            old(self)@.wf(),
        ensures
            final(self)@ == old(self)@.pushed_with(chunk_view(buf)),
            final(self)@.wf(),
    {
        self.pos = self.pos.next();
        match self.pos {
            Pos::P0 => {
                self.s0 = buf;
            },
            Pos::P1 => {
                self.s1 = buf;
            },
            Pos::P2 => {
                self.s2 = buf;
            },
        }
        self.is_pushed = true;
        proof {
            assert(self@.slots =~= old(self)@.slots.update(pos_index(self.pos), chunk_view(buf)));
        }
    }

    fn slot(&self, p: Pos) -> (r: &Option<Chunk>)
        ensures
            chunk_view(*r) == self@.slots[pos_index(p)],
    {
        match p {
            Pos::P0 => &self.s0,
            Pos::P1 => &self.s1,
            Pos::P2 => &self.s2,
        }
    }

    fn has_predecessor(&self) -> (r: bool)
        requires
            self@.wf(),
        ensures
            r == self@.has_predecessor(),
    {
        self.slot(self.pos.prev()).is_some()
    }

    fn curr_pos(&self) -> (r: Pos)
        requires
            self@.wf(),
        ensures
            pos_index(r) == self@.curr_index(),
    {
        if self.has_predecessor() {
            self.pos.prev()
        } else {
            self.pos
        }
    }

    /// The chunk to decrypt: the one before the newest when there is one
    /// before it, else the newest.
    /// Pushed into an empty window, chunk after chunk, the current one
    /// lags one behind the newest until the end is pushed (see
    /// [`lemma_lookahead`]).
    pub fn curr(&self) -> (r: &Chunk)
        requires
            self@.wf(),
            self@.curr() is Some,
        ensures
            self@.curr() == Some((r.data@, r.file_offset)),
            forall|cs: Seq<(Seq<u8>, i64)>|
                #![trigger after_pushes(as_pushed(cs))]
                cs.len() >= 1 && self@ == after_pushes(as_pushed(cs)) ==> (r.data@, r.file_offset)
                    == (if cs.len() == 1 {
                    cs[0]
                } else {
                    cs[cs.len() - 2]
                }),
            forall|cs: Seq<(Seq<u8>, i64)>|
                #![trigger after_pushes(as_pushed(cs).push(None))]
                cs.len() >= 1 && self@ == after_pushes(as_pushed(cs).push(None)) ==> (
                r.data@,
                r.file_offset,
            ) == cs[cs.len() - 1],
    {
        proof {
            assert forall|cs: Seq<(Seq<u8>, i64)>|
                #![trigger after_pushes(as_pushed(cs))]
                cs.len() >= 1 && self@ == after_pushes(as_pushed(cs)) implies self@.curr() == Some(
                (if cs.len() == 1 {
                    cs[0]
                } else {
                    cs[cs.len() - 2]
                }),
            ) by {
                lemma_lookahead(cs);
            }
            assert forall|cs: Seq<(Seq<u8>, i64)>|
                #![trigger after_pushes(as_pushed(cs).push(None))]
                cs.len() >= 1 && self@ == after_pushes(as_pushed(cs).push(None)) implies self@.curr()
                == Some(cs[cs.len() - 1]) by {
                lemma_lookahead(cs);
            }
        }
        match self.slot(self.curr_pos()) {
            Some(c) => c,
            None => vstd::pervasive::unreached(),
        }
    }

    /// Cuts the current chunk's data to at most `len` bytes.
    pub fn truncate_curr(&mut self, len: usize)
        requires
            old(self)@.wf(),
            old(self)@.curr() is Some,
        ensures
            final(self)@.wf(),
            final(self)@.pos == old(self)@.pos,
            final(self)@.pushed == old(self)@.pushed,
            final(self)@.slots == old(self)@.slots.update(
                old(self)@.curr_index(),
                Some(
                    (
                        if len < old(self)@.curr().unwrap().0.len() {
                            old(self)@.curr().unwrap().0.subrange(0, len as int)
                        } else {
                            old(self)@.curr().unwrap().0
                        },
                        old(self)@.curr().unwrap().1,
                    ),
                ),
            ),
    {
        let p = self.curr_pos();
        let taken = self.take_slot(p);
        let cut = match taken {
            Some(mut c) => {
                c.data.truncate(len);
                Some(c)
            },
            None => None,
        };
        proof {
            let cv = old(self)@.curr().unwrap();
            if len == cv.0.len() {
                assert(cv.0.subrange(0, len as int) =~= cv.0);
            }
            assert(chunk_view(cut) == Some(
                (
                    if len < cv.0.len() {
                        cv.0.subrange(0, len as int)
                    } else {
                        cv.0
                    },
                    cv.1,
                ),
            ));
        }
        self.put_slot(p, cut);
        proof {
            assert(self@.slots =~= old(self)@.slots.update(
                old(self)@.curr_index(),
                Some(
                    (
                        if len < old(self)@.curr().unwrap().0.len() {
                            old(self)@.curr().unwrap().0.subrange(0, len as int)
                        } else {
                            old(self)@.curr().unwrap().0
                        },
                        old(self)@.curr().unwrap().1,
                    ),
                ),
            ));
        }
    }

    fn take_slot(&mut self, p: Pos) -> (r: Option<Chunk>)
        ensures
            chunk_view(r) == old(self)@.slots[pos_index(p)],
            final(self)@ == (BufferView {
                slots: old(self)@.slots.update(pos_index(p), None),
                ..old(self)@
            }),
    {
        let r = match p {
            Pos::P0 => self.s0.take(),
            Pos::P1 => self.s1.take(),
            Pos::P2 => self.s2.take(),
        };
        proof {
            assert(self@.slots =~= old(self)@.slots.update(pos_index(p), None));
        }
        r
    }

    fn put_slot(&mut self, p: Pos, c: Option<Chunk>)
        ensures
            final(self)@ == (BufferView {
                slots: old(self)@.slots.update(pos_index(p), chunk_view(c)),
                ..old(self)@
            }),
    {
        match p {
            Pos::P0 => {
                self.s0 = c;
            },
            Pos::P1 => {
                self.s1 = c;
            },
            Pos::P2 => {
                self.s2 = c;
            },
        }
        proof {
            assert(self@.slots =~= old(self)@.slots.update(pos_index(p), chunk_view(c)));
        }
    }

    fn prev_bytes(&self) -> (r: &[u8])
        requires
            self@.wf(),
        ensures
            r@ == self@.prev_bytes(),
    {
        if !self.has_predecessor() {
            return &[];
        }
        match self.slot(self.pos.prev().prev()) {
            Some(c) => c.data.as_slice(),
            None => &[],
        }
    }

    fn next_bytes(&self) -> (r: &[u8])
        requires
            self@.wf(),
        ensures
            r@ == self@.next_bytes(),
    {
        if !self.has_predecessor() {
            return &[];
        }
        match self.slot(self.pos) {
            Some(c) => c.data.as_slice(),
            None => &[],
        }
    }
}

impl Default for CiphertextBuffer {
    fn default() -> (r: CiphertextBuffer)
        ensures
            r@.wf(),
            r@.slots == seq![None::<(Seq<u8>, i64)>, None, None],
            r@.pos == 1,
            !r@.pushed,
    {
        CiphertextBuffer::new()
    }
}

/// The current chunk of a window, taken out of it for decryption, with the
/// block of bytes before it and the block after it.
#[derive(Debug)]
pub struct Ciphertext {
    pub body: Vec<u8>,
    pub head: [u8; BLOCK_SIZE],
    pub tail: [u8; BLOCK_SIZE],
    pub file_offset: u32,
}

impl Ciphertext {
    /// Takes the current chunk out of `buf`, leaving its slot with no data
    /// until `restore` puts it back.
    pub fn from_buffer(buf: &mut CiphertextBuffer) -> (r: Ciphertext)
        requires
            old(buf)@.wf(),
            old(buf)@.curr() matches Some((_, off)) && 0 <= off <= u32::MAX,
        ensures
            r.body@ == old(buf)@.curr().unwrap().0,
            r.file_offset == old(buf)@.curr().unwrap().1,
            r.head@ == head_block(old(buf)@.prev_bytes()),
            r.tail@ == tail_block(old(buf)@.next_bytes()),
            final(buf)@ == (BufferView {
                slots: old(buf)@.slots.update(
                    old(buf)@.curr_index(),
                    Some((Seq::empty(), old(buf)@.curr().unwrap().1)),
                ),
                ..old(buf)@
            }),
    {
        let mut head = [0u8; BLOCK_SIZE];
        let mut tail = [0u8; BLOCK_SIZE];
        {
            let prev = buf.prev_bytes();
            let left = if prev.len() < BLOCK_SIZE {
                BLOCK_SIZE - prev.len()
            } else {
                0
            };
            let right = if prev.len() > BLOCK_SIZE {
                prev.len() - BLOCK_SIZE
            } else {
                0
            };
            let plen = prev.len();
            let mut i: usize = 0;
            while i < BLOCK_SIZE - left
                invariant
                    0 <= i <= BLOCK_SIZE - left,
                    plen == prev@.len(),
                    left + prev@.len() - right == BLOCK_SIZE,
                    right <= prev@.len(),
                    head@.len() == 16,
                    forall|k: int| 0 <= k < left ==> head@[k] == 0,
                    forall|k: int| left <= k < left + i ==> head@[k] == prev@[right + k - left],
                decreases BLOCK_SIZE - left - i,
            {
                head[left + i] = prev[right + i];
                i = i + 1;
            }
            proof {
                assert(head@ =~= head_block(prev@));
            }
            let next = buf.next_bytes();
            let len = if next.len() < BLOCK_SIZE {
                next.len()
            } else {
                BLOCK_SIZE
            };
            let mut i: usize = 0;
            while i < len
                invariant
                    0 <= i <= len,
                    len <= next@.len(),
                    len == (if next@.len() < 16 {
                        next@.len() as int
                    } else {
                        16
                    }),
                    tail@.len() == 16,
                    forall|k: int| len <= k < 16 ==> tail@[k] == 0,
                    forall|k: int| 0 <= k < i ==> tail@[k] == next@[k],
                decreases len - i,
            {
                tail[i] = next[i];
                i = i + 1;
            }
            proof {
                assert(tail@ =~= tail_block(next@));
            }
        }
        let p = buf.curr_pos();
        let taken = buf.take_slot(p);
        let (body, file_offset) = match taken {
            Some(c) => (c.data, c.file_offset),
            None => {
                proof {
                    assert(false);
                }
                (Vec::new(), 0)
            },
        };
        buf.put_slot(p, Some(Chunk { data: Vec::new(), file_offset }));
        proof {
            assert(buf@.slots =~= old(buf)@.slots.update(
                old(buf)@.curr_index(),
                Some((Seq::empty(), old(buf)@.curr().unwrap().1)),
            ));
        }
        Ciphertext { body, head, tail, file_offset: file_offset as u32 }
    }

    /// Puts the (decrypted) body back as the data of the current chunk of `buf`.
    pub fn restore(self, buf: &mut CiphertextBuffer)
        requires
            old(buf)@.wf(),
            old(buf)@.curr() is Some,
        ensures
            final(buf)@ == (BufferView {
                slots: old(buf)@.slots.update(
                    old(buf)@.curr_index(),
                    Some((self.body@, old(buf)@.curr().unwrap().1)),
                ),
                ..old(buf)@
            }),
    {
        let p = buf.curr_pos();
        let taken = buf.take_slot(p);
        let file_offset = match taken {
            Some(c) => c.file_offset,
            None => 0,
        };
        buf.put_slot(p, Some(Chunk { data: self.body, file_offset }));
        proof {
            assert(buf@.slots =~= old(buf)@.slots.update(
                old(buf)@.curr_index(),
                Some((self.body@, old(buf)@.curr().unwrap().1)),
            ));
        }
    }
}

/// A store of encryption records that decrypts file data by record id.
pub trait EncryptionStore {
    spec fn store_bytes(&self) -> Seq<u8>;

    /// Decrypts `ciphertext` with the record `id`; fails, leaving it as it
    /// was, when no well-formed record starts there.
    fn decrypt(&self, id: EncryptionId, ciphertext: &mut Ciphertext) -> (r: Result<(), DecryptError>)
        requires
            parse_record(self.store_bytes(), id.spec_index()) matches Some((_, rs)) ==> ranges_valid(
                rs,
            ),
            old(ciphertext).file_offset + old(ciphertext).body@.len() <= u32::MAX,
        ensures
            match parse_record(self.store_bytes(), id.spec_index()) {
                None => r == Err::<(), DecryptError>(DecryptError::Id(id)) && *final(ciphertext)
                    == *old(ciphertext),
                Some((key, rs)) => r is Ok && final(ciphertext).body@ == spec_decrypt(
                    key,
                    rs,
                    old(ciphertext).body@,
                    old(ciphertext).head@,
                    old(ciphertext).tail@,
                    old(ciphertext).file_offset as int,
                ) && final(ciphertext).head == old(ciphertext).head && final(ciphertext).tail
                    == old(ciphertext).tail && final(ciphertext).file_offset == old(
                    ciphertext,
                ).file_offset,
            },
    ;
}

impl EncryptionStore for Vec<u8> {
    open spec fn store_bytes(&self) -> Seq<u8> {
        self@
    }

    fn decrypt(&self, id: EncryptionId, ciphertext: &mut Ciphertext) -> (r: Result<(), DecryptError>) {
        match read_record(self.as_slice(), id.into_index()) {
            None => Err(DecryptError::Id(id)),
            Some((key, ranges)) => {
                decrypt_in_place(
                    &key,
                    &ranges,
                    &mut ciphertext.body,
                    &ciphertext.head,
                    &ciphertext.tail,
                    ciphertext.file_offset,
                );
                Ok(())
            },
        }
    }
}

} // verus!
