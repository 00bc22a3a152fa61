//! Byte channels between tasks: a fixed number of bounded ring buffers.
use vstd::prelude::*;
use vstd::string::*;
use crate::text::push_char;

verus! {

pub const MAX_CHANNELS: usize = 4;
pub const CHANNEL_BUF_SIZE: usize = 64;

/// A bounded FIFO of bytes in a ring buffer.
pub struct Channel {
    pub buf: [u8; 64],
    pub read_pos: usize,
    pub write_pos: usize,
    pub count: usize,
}

/// The ring position `i` places after `start`.
pub open spec fn ring_at(start: int, i: int) -> int {
    if start + i < 64 { start + i } else { start + i - 64 }
}

impl Channel {
    /// The positions stay in the buffer and the write position follows the
    /// queued bytes.
    pub open spec fn wf(&self) -> bool {
        &&& self.read_pos < 64
        &&& self.write_pos < 64
        &&& self.count <= 64
        &&& self.write_pos == ring_at(self.read_pos as int, self.count as int) || (self.count == 64 && self.write_pos == self.read_pos)
        &&& self.count < 64 ==> self.write_pos == ring_at(self.read_pos as int, self.count as int)
    }

    /// The queued bytes, oldest first.
    pub open spec fn queue(&self) -> Seq<u8> {
        Seq::new(self.count as nat, |i: int| self.buf@[ring_at(self.read_pos as int, i)])
    }

    /// An empty channel.
    pub fn new() -> (c: Self)
        ensures
            c.wf(),
            c.queue() == Seq::<u8>::empty(),
    {
        let c = Channel { buf: [0u8; 64], read_pos: 0, write_pos: 0, count: 0 };
        assert(c.queue() =~= Seq::<u8>::empty());
        c
    }

    /// Queue a byte; false when the channel is full.
    pub fn send(&mut self, byte: u8) -> (r: bool)
        requires
            old(self).wf(),
        ensures
            final(self).wf(),
            r == (old(self).queue().len() < 64),
            r ==> final(self).queue() == old(self).queue().push(byte),
            !r ==> final(self).queue() == old(self).queue(),
    {
        if self.count >= CHANNEL_BUF_SIZE {
            return false;
        }
        let ghost q0 = self.queue();
        let w = self.write_pos;
        self.buf[w] = byte;
        self.write_pos = if w + 1 == CHANNEL_BUF_SIZE { 0 } else { w + 1 };
        self.count = self.count + 1;
        assert forall|i: int| 0 <= i < q0.len() implies #[trigger] self.queue()[i] == q0[i] by {
            assert(ring_at(self.read_pos as int, i) != w as int);
        }
        assert(self.queue() =~= q0.push(byte));
        true
    }

    /// Take the oldest byte; `None` when the channel is empty.
    pub fn recv(&mut self) -> (r: Option<u8>)
        requires
            old(self).wf(),
        ensures
            final(self).wf(),
            old(self).queue().len() == 0 ==> r is None && final(self).queue() == old(self).queue(),
            old(self).queue().len() > 0 ==> r == Some(old(self).queue()[0])
                && final(self).queue() == old(self).queue().drop_first(),
    {
        if self.count == 0 {
            return None;
        }
        let ghost q0 = self.queue();
        let byte = self.buf[self.read_pos];
        let rp = self.read_pos;
        self.read_pos = if rp + 1 == CHANNEL_BUF_SIZE { 0 } else { rp + 1 };
        self.count = self.count - 1;
        assert(self.queue() =~= q0.drop_first());
        Some(byte)
    }

    /// How many bytes are queued.
    pub fn len(&self) -> (r: usize)
        ensures
            r == self.queue().len(),
    {
        self.count
    }
}

/// A channel slot.
pub enum ChannelSlot {
    Free,
    Active(Channel),
}

/// A slot as plain values: the queued bytes of an active channel.
pub open spec fn slot_view(s: ChannelSlot) -> Option<Seq<u8>> {
    match s {
        ChannelSlot::Free => None,
        ChannelSlot::Active(c) => Some(c.queue()),
    }
}

/// The channel table.
pub struct Channels {
    pub slots: Vec<ChannelSlot>,
}

impl Channels {
    /// The slots as plain values.
    pub open spec fn view_slots(&self) -> Seq<Option<Seq<u8>>> {
        self.slots@.map_values(|s: ChannelSlot| slot_view(s))
    }

    /// `MAX_CHANNELS` slots, each active channel well formed.
    pub open spec fn wf(&self) -> bool {
        &&& self.slots@.len() == MAX_CHANNELS
        &&& forall|i: int| 0 <= i < self.slots@.len() ==> (#[trigger] self.slots@[i] matches ChannelSlot::Active(c) ==> c.wf())
    }

    /// All slots free.
    pub fn new() -> (t: Self)
        ensures
            t.wf(),
            t.view_slots() == Seq::new(MAX_CHANNELS as nat, |i: int| None::<Seq<u8>>),
    {
        let mut slots: Vec<ChannelSlot> = Vec::new();
        slots.push(ChannelSlot::Free);
        slots.push(ChannelSlot::Free);
        slots.push(ChannelSlot::Free);
        slots.push(ChannelSlot::Free);
        let t = Channels { slots };
        assert(t.view_slots() =~= Seq::new(MAX_CHANNELS as nat, |i: int| None::<Seq<u8>>));
        t
    }
}

fn set_slot(t: &mut Channels, i: usize, s: ChannelSlot)
    requires
        old(t).wf(),
        i < MAX_CHANNELS,
        s matches ChannelSlot::Active(c) ==> c.wf(),
    ensures
        final(t).wf(),
        final(t).view_slots() == old(t).view_slots().update(i as int, slot_view(s)),
{
    let ghost v0 = t.slots@;
    t.slots.remove(i);
    t.slots.insert(i, s);
    assert(t.slots@ =~= v0.update(i as int, s));
    assert(t.view_slots() =~= old(t).view_slots().update(i as int, slot_view(s)));
}

fn take_slot(t: &mut Channels, i: usize) -> (s: ChannelSlot)
    requires
        old(t).wf(),
        i < MAX_CHANNELS,
    ensures
        s == old(t).slots@[i as int],
        s matches ChannelSlot::Active(c) ==> c.wf(),
        final(t).wf(),
        final(t).view_slots() == old(t).view_slots().update(i as int, None),
{
    let ghost v0 = t.slots@;
    let s = t.slots.remove(i);
    t.slots.insert(i, ChannelSlot::Free);
    assert(t.slots@ =~= v0.update(i as int, ChannelSlot::Free));
    assert(t.view_slots() =~= old(t).view_slots().update(i as int, None));
    s
}

/// Index of the first free slot from `j` on (the slot count when none).
pub open spec fn free_index(v: Seq<Option<Seq<u8>>>, j: int) -> int
    decreases v.len() - j,
{
    if j < 0 || j >= v.len() {
        v.len() as int
    } else if v[j] is None {
        j
    } else {
        free_index(v, j + 1)
    }
}

/// Open a channel in the first free slot; `None` when all are in use.
pub fn create(t: &mut Channels) -> (r: Option<usize>)
    requires
        old(t).wf(),
    ensures
        final(t).wf(),
        ({
            let i = free_index(old(t).view_slots(), 0);
            if i < MAX_CHANNELS {
                r == Some(i as usize) && final(t).view_slots() == old(t).view_slots().update(i, Some(Seq::<u8>::empty()))
            } else {
                r is None && final(t).view_slots() == old(t).view_slots()
            }
        }),
{
    let mut i: usize = 0;
    while i < MAX_CHANNELS
        invariant
            t.wf(),
            *t == *old(t),
            i <= MAX_CHANNELS,
            free_index(t.view_slots(), 0) == free_index(t.view_slots(), i as int),
        decreases MAX_CHANNELS - i,
    {
        let free = match &t.slots[i] {
            ChannelSlot::Free => true,
            ChannelSlot::Active(_) => false,
        };
        assert(t.view_slots()[i as int] == slot_view(t.slots@[i as int]));
        if free {
            set_slot(t, i, ChannelSlot::Active(Channel::new()));
            return Some(i);
        }
        i = i + 1;
    }
    None
}

/// Close a channel (its queued bytes are lost).
pub fn destroy(t: &mut Channels, id: usize)
    requires
        old(t).wf(),
    ensures
        final(t).wf(),
        final(t).view_slots() == if id < MAX_CHANNELS { old(t).view_slots().update(id as int, None) } else { old(t).view_slots() },
{
    if id < MAX_CHANNELS {
        set_slot(t, id, ChannelSlot::Free);
    }
}

/// Queue a byte on a channel; false when the id is out of range, the slot
/// is free or the channel is full.
pub fn send(t: &mut Channels, id: usize, byte: u8) -> (r: bool)
    requires
        old(t).wf(),
    ensures
        final(t).wf(),
        r == (id < MAX_CHANNELS && old(t).view_slots()[id as int] is Some && old(t).view_slots()[id as int]->Some_0.len() < 64),
        r ==> final(t).view_slots() == old(t).view_slots().update(id as int, Some(old(t).view_slots()[id as int]->Some_0.push(byte))),
        !r ==> final(t).view_slots() == old(t).view_slots(),
{
    if id >= MAX_CHANNELS {
        return false;
    }
    assert(t.view_slots()[id as int] == slot_view(t.slots@[id as int]));
    let s = take_slot(t, id);
    match s {
        ChannelSlot::Active(mut c) => {
            let ok = c.send(byte);
            set_slot(t, id, ChannelSlot::Active(c));
            assert(t.view_slots() =~= if ok {
                old(t).view_slots().update(id as int, Some(old(t).view_slots()[id as int]->Some_0.push(byte)))
            } else {
                old(t).view_slots()
            });
            ok
        },
        ChannelSlot::Free => {
            set_slot(t, id, ChannelSlot::Free);
            assert(t.view_slots() =~= old(t).view_slots());
            false
        },
    }
}

/// Take the oldest byte of a channel; `None` when the id is out of range,
/// the slot is free or the channel is empty.
pub fn recv(t: &mut Channels, id: usize) -> (r: Option<u8>)
    requires
        old(t).wf(),
    ensures
        final(t).wf(),
        ({
            let ok = id < MAX_CHANNELS && old(t).view_slots()[id as int] is Some && old(t).view_slots()[id as int]->Some_0.len() > 0;
            if ok {
                let q = old(t).view_slots()[id as int]->Some_0;
                r == Some(q[0]) && final(t).view_slots() == old(t).view_slots().update(id as int, Some(q.drop_first()))
            } else {
                r is None && final(t).view_slots() == old(t).view_slots()
            }
        }),
{
    if id >= MAX_CHANNELS {
        return None;
    }
    assert(t.view_slots()[id as int] == slot_view(t.slots@[id as int]));
    let s = take_slot(t, id);
    match s {
        ChannelSlot::Active(mut c) => {
            let r = c.recv();
            set_slot(t, id, ChannelSlot::Active(c));
            assert(t.view_slots() =~= if r is Some {
                old(t).view_slots().update(id as int, Some(old(t).view_slots()[id as int]->Some_0.drop_first()))
            } else {
                old(t).view_slots()
            });
            r
        },
        ChannelSlot::Free => {
            set_slot(t, id, ChannelSlot::Free);
            assert(t.view_slots() =~= old(t).view_slots());
            None
        },
    }
}

/// How many of `n` bytes fit on channel `id`.
pub open spec fn room_for(v: Seq<Option<Seq<u8>>>, id: usize, n: nat) -> nat {
    if id < MAX_CHANNELS && v[id as int] is Some {
        let free = (64 - v[id as int]->Some_0.len()) as nat;
        if n < free { n } else { free }
    } else {
        0
    }
}

proof fn lemma_queue_bound(t: &Channels, id: usize)
    requires
        t.wf(),
        id < MAX_CHANNELS,
        t.view_slots()[id as int] is Some,
    ensures
        t.view_slots()[id as int]->Some_0.len() <= 64,
{
    assert(t.view_slots()[id as int] == slot_view(t.slots@[id as int]));
    assert(t.slots@[id as int] matches ChannelSlot::Active(c) ==> c.wf());
}

fn is_open(t: &Channels, id: usize) -> (r: bool)
    requires
        t.wf(),
    ensures
        r == (id < MAX_CHANNELS && t.view_slots()[id as int] is Some),
{
    if id >= MAX_CHANNELS {
        return false;
    }
    assert(t.view_slots()[id as int] == slot_view(t.slots@[id as int]));
    match &t.slots[id] {
        ChannelSlot::Active(_) => true,
        ChannelSlot::Free => false,
    }
}

/// Send the UTF-8 bytes of `s`, stopping at the first that does not fit;
/// returns how many were sent.
pub fn send_str(t: &mut Channels, id: usize, s: &str) -> (r: usize)
    requires
        old(t).wf(),
    ensures
        final(t).wf(),
        r == room_for(old(t).view_slots(), id, s.spec_bytes().len()),
        final(t).view_slots() == if r > 0 {
            old(t).view_slots().update(id as int, Some(old(t).view_slots()[id as int]->Some_0 + s.spec_bytes().subrange(0, r as int)))
        } else {
            old(t).view_slots()
        },
{
    let bytes = s.as_bytes();
    let n = bytes.len();
    if !is_open(t, id) {
        return 0;
    }
    proof {
        lemma_queue_bound(t, id);
    }
    let ghost v0 = t.view_slots();
    let ghost q0 = v0[id as int]->Some_0;
    let mut sent: usize = 0;
    while sent < n
        invariant_except_break
            t.wf(),
            n == bytes@.len(),
            bytes@ == s.spec_bytes(),
            v0 == old(t).view_slots(),
            v0.len() == MAX_CHANNELS,
            id < MAX_CHANNELS,
            v0[id as int] == Some(q0),
            sent <= n,
            q0.len() + sent <= 64,
            t.view_slots() == v0.update(id as int, Some(q0 + bytes@.subrange(0, sent as int))),
        ensures
            t.wf(),
            sent <= n,
            q0.len() + sent <= 64,
            sent == n || q0.len() + sent == 64,
            t.view_slots() == v0.update(id as int, Some(q0 + bytes@.subrange(0, sent as int))),
        decreases n - sent,
    {
        let ghost before = t.view_slots();
        assert(before[id as int] == Some(q0 + bytes@.subrange(0, sent as int)));
        if send(t, id, bytes[sent]) {
            sent = sent + 1;
            assert(q0 + bytes@.subrange(0, sent as int) =~= (q0 + bytes@.subrange(0, sent - 1)).push(bytes@[sent - 1]));
            assert(t.view_slots() =~= v0.update(id as int, Some(q0 + bytes@.subrange(0, sent as int))));
        } else {
            assert(t.view_slots() == before);
            break;
        }
    }
    if sent == 0 {
        assert(q0 + bytes@.subrange(0, 0) =~= q0);
        assert(t.view_slots() =~= v0);
    }
    sent
}

/// Everything queued on channel `id`, each byte read as the character of
/// the same number (Latin-1), oldest first; the channel is left empty.
pub fn recv_all(t: &mut Channels, id: usize) -> (r: String)
    requires
        old(t).wf(),
    ensures
        final(t).wf(),
        id < MAX_CHANNELS && old(t).view_slots()[id as int] is Some ==> {
            let q = old(t).view_slots()[id as int]->Some_0;
            &&& r@ == q.map_values(|b: u8| b as char)
            &&& final(t).view_slots() == old(t).view_slots().update(id as int, Some(Seq::<u8>::empty()))
        },
        !(id < MAX_CHANNELS && old(t).view_slots()[id as int] is Some) ==> r@.len() == 0 && final(t).view_slots() == old(t).view_slots(),
{
    let mut result = String::new();
    if !is_open(t, id) {
        return result;
    }
    let ghost v0 = t.view_slots();
    let ghost q0 = v0[id as int]->Some_0;
    proof {
        lemma_queue_bound(t, id);
    }
    assert(q0.subrange(0, q0.len() as int) =~= q0);
    assert(v0.update(id as int, Some(q0.subrange(0, q0.len() as int))) =~= v0);
    assert(result@ =~= q0.subrange(0, 0).map_values(|b: u8| b as char));
    let mut k: usize = 0;
    loop
        invariant_except_break
            t.wf(),
            v0 == old(t).view_slots(),
            v0.len() == MAX_CHANNELS,
            id < MAX_CHANNELS,
            v0[id as int] == Some(q0),
            q0.len() <= 64,
            k <= q0.len(),
            result@ == q0.subrange(0, k as int).map_values(|b: u8| b as char),
            t.view_slots() == v0.update(id as int, Some(q0.subrange(k as int, q0.len() as int))),
        ensures
            t.wf(),
            result@ == q0.map_values(|b: u8| b as char),
            t.view_slots() == v0.update(id as int, Some(Seq::<u8>::empty())),
        decreases q0.len() - k,
    {
        let ghost before = t.view_slots();
        assert(before[id as int] == Some(q0.subrange(k as int, q0.len() as int)));
        match recv(t, id) {
            Some(b) => {
                assert(b == q0[k as int]);
                push_char(&mut result, b as char);
                k = k + 1;
                assert(result@ =~= q0.subrange(0, k as int).map_values(|b: u8| b as char));
                assert(q0.subrange(k - 1, q0.len() as int).drop_first() =~= q0.subrange(k as int, q0.len() as int));
                assert(t.view_slots() =~= v0.update(id as int, Some(q0.subrange(k as int, q0.len() as int))));
            },
            None => {
                assert(k == q0.len());
                assert(q0.subrange(0, k as int) =~= q0);
                assert(q0.subrange(k as int, q0.len() as int) =~= Seq::<u8>::empty());
                assert(t.view_slots() =~= v0.update(id as int, Some(Seq::<u8>::empty())));
                break;
            },
        }
    }
    result
}

/// A channel and its queued byte count.
pub struct ChannelInfo {
    pub id: usize,
    pub pending: usize,
}

/// `(id, pending)` of every open channel, by id.
pub open spec fn channel_list(v: Seq<Option<Seq<u8>>>) -> Seq<(usize, usize)>
    decreases v.len(),
{
    if v.len() == 0 {
        Seq::empty()
    } else {
        channel_list(v.drop_last()) + match v.last() {
            Some(q) => seq![((v.len() - 1) as usize, q.len() as usize)],
            None => Seq::empty(),
        }
    }
}

/// The open channels with their queued byte counts.
pub fn list(t: &Channels) -> (r: Vec<ChannelInfo>)
    requires
        t.wf(),
    ensures
        r@.map_values(|c: ChannelInfo| (c.id, c.pending)) == channel_list(t.view_slots()),
{
    let mut out: Vec<ChannelInfo> = Vec::new();
    let mut i: usize = 0;
    while i < MAX_CHANNELS
        invariant
            t.wf(),
            i <= MAX_CHANNELS,
            out@.map_values(|c: ChannelInfo| (c.id, c.pending)) == channel_list(t.view_slots().subrange(0, i as int)),
        decreases MAX_CHANNELS - i,
    {
        let ghost pre = t.view_slots().subrange(0, i + 1);
        assert(pre.drop_last() =~= t.view_slots().subrange(0, i as int));
        assert(pre.last() == slot_view(t.slots@[i as int]));
        let ghost before = out@.map_values(|c: ChannelInfo| (c.id, c.pending));
        match &t.slots[i] {
            ChannelSlot::Active(c) => {
                let info = ChannelInfo { id: i, pending: c.len() };
                out.push(info);
                assert(out@.map_values(|c: ChannelInfo| (c.id, c.pending)) =~= before.push((info.id, info.pending)));
            },
            ChannelSlot::Free => {},
        }
        i = i + 1;
    }
    assert(t.view_slots().subrange(0, MAX_CHANNELS as int) =~= t.view_slots());
    out
}

// ---------------------------------------------------------------------------
// Laws
// ---------------------------------------------------------------------------

/// Channels are first in, first out: bytes sent after those already
/// queued come out after them, in the order they were sent.
pub proof fn law_fifo(q: Seq<u8>, b: u8)
    requires
        q.len() > 0,
    ensures
        q.push(b)[0] == q[0],
        q.push(b).drop_first() == q.drop_first().push(b),
{
    assert(q.push(b).drop_first() =~= q.drop_first().push(b));
}

/// A byte sent on an empty open channel is the next byte received, and
/// receiving it leaves the table as it was.
pub proof fn law_send_recv_roundtrip(v: Seq<Option<Seq<u8>>>, id: usize, b: u8)
    requires
        id < MAX_CHANNELS,
        v.len() == MAX_CHANNELS,
        v[id as int] == Some(Seq::<u8>::empty()),
    ensures
        ({
            let sent = v.update(id as int, Some(v[id as int]->Some_0.push(b)));
            let q = sent[id as int]->Some_0;
            &&& q.len() > 0 && q[0] == b
            &&& sent.update(id as int, Some(q.drop_first())) == v
        }),
{
    let sent = v.update(id as int, Some(v[id as int]->Some_0.push(b)));
    let q = sent[id as int]->Some_0;
    assert(q =~= seq![b]);
    assert(q.drop_first() =~= Seq::<u8>::empty());
    assert(sent.update(id as int, Some(q.drop_first())) =~= v);
}

/// A channel holds at most its buffer size: a send on a full channel is
/// refused.
pub proof fn law_capacity(c: Channel)
    requires
        c.wf(),
    ensures
        c.queue().len() <= CHANNEL_BUF_SIZE,
{
}

} // verus!
