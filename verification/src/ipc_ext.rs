//! Extended IPC: Unix domain sockets, priority message queues, counting
//! semaphores, shared memory segments, eventfd, signalfd, timerfd, epoll
//! and IPC namespaces. Each kind lives in a table of records with unique
//! ids handed out in order; the whole state is one `IpcExt` value.
use vstd::prelude::*;
use vstd::string::*;
use crate::idtable::{Keyed, keys_wf, has_key, key_index, by_key, find_key, remove_key, lemma_key_index,
    lemma_push_wf, lemma_update_wf};
use crate::libc::{wrap_inc, inc_wrapping};
use crate::text::{string_of, str_eq, push_dec, push_sdec, dec, sdec};

verus! {

pub const MAX_UNIX_SOCKETS: usize = 64;
pub const MAX_MESSAGE_QUEUES: usize = 32;
pub const MAX_MESSAGES_PER_QUEUE: usize = 128;
pub const MAX_MESSAGE_SIZE: usize = 4096;
pub const MAX_SEMAPHORES: usize = 64;
pub const MAX_SHM_SEGMENTS: usize = 32;
pub const MAX_EVENTFDS: usize = 64;
pub const MAX_SIGNALFDS: usize = 32;
pub const MAX_TIMERFDS: usize = 32;
pub const MAX_EPOLLS: usize = 32;
pub const MAX_EPOLL_FDS: usize = 64;
pub const MAX_IPC_NAMESPACES: usize = 16;

/// A table of records with unique ids below `next_id`.
pub struct Table<T> {
    pub items: Vec<T>,
    pub next_id: usize,
}

impl<T: Keyed> Table<T> {
    pub open spec fn wf(&self) -> bool {
        keys_wf(self.items@, self.next_id)
    }

    /// An empty table whose first id is 1.
    pub fn new() -> (t: Self)
        ensures
            t.wf(),
            t.items@.len() == 0,
            t.next_id == 1,
    {
        Table { items: Vec::new(), next_id: 1 }
    }
}

// ---------------------------------------------------------------------------
// Records
// ---------------------------------------------------------------------------

/// State of a Unix domain socket.
#[derive(PartialEq, Eq, Structural, Clone, Copy, Debug)]
pub enum SocketState {
    Created,
    Bound,
    Listening,
    Connected,
    Closed,
}

/// A Unix domain socket (in-kernel message passing).
pub struct UnixSocket {
    pub id: usize,
    pub address: String,
    pub state: SocketState,
    pub pid: usize,
    pub peer_id: Option<usize>,
    pub recv_buf: Vec<Vec<u8>>,
    pub backlog: Vec<usize>,
    pub max_backlog: usize,
    pub namespace_id: usize,
}

/// What a socket holds, as plain values.
pub struct SocketModel {
    pub id: usize,
    pub address: Seq<char>,
    pub state: SocketState,
    pub pid: usize,
    pub peer_id: Option<usize>,
    pub recv_buf: Seq<Seq<u8>>,
    pub backlog: Seq<usize>,
    pub max_backlog: usize,
    pub namespace_id: usize,
}

impl UnixSocket {
    pub open spec fn model(&self) -> SocketModel {
        SocketModel {
            id: self.id,
            address: self.address@,
            state: self.state,
            pid: self.pid,
            peer_id: self.peer_id,
            recv_buf: self.recv_buf@.map_values(|b: Vec<u8>| b@),
            backlog: self.backlog@,
            max_backlog: self.max_backlog,
            namespace_id: self.namespace_id,
        }
    }
}

/// A message with its priority.
pub struct MqMessage {
    pub data: Vec<u8>,
    pub priority: u32,
}

/// A POSIX message queue.
pub struct MessageQueue {
    pub id: usize,
    pub name: String,
    pub messages: Vec<MqMessage>,
    pub max_messages: usize,
    pub max_msg_size: usize,
    pub namespace_id: usize,
    pub total_sent: u64,
    pub total_received: u64,
}

pub struct MqModel {
    pub id: usize,
    pub name: Seq<char>,
    pub messages: Seq<(Seq<u8>, u32)>,
    pub max_messages: usize,
    pub max_msg_size: usize,
    pub namespace_id: usize,
    pub total_sent: u64,
    pub total_received: u64,
}

impl MessageQueue {
    pub open spec fn model(&self) -> MqModel {
        MqModel {
            id: self.id,
            name: self.name@,
            messages: self.messages@.map_values(|m: MqMessage| (m.data@, m.priority)),
            max_messages: self.max_messages,
            max_msg_size: self.max_msg_size,
            namespace_id: self.namespace_id,
            total_sent: self.total_sent,
            total_received: self.total_received,
        }
    }
}

/// A named semaphore.
pub struct Semaphore {
    pub id: usize,
    pub name: String,
    pub value: i32,
    pub max_value: i32,
    pub waiters: usize,
    pub namespace_id: usize,
    pub total_waits: u64,
    pub total_posts: u64,
}

pub struct SemModel {
    pub id: usize,
    pub name: Seq<char>,
    pub value: i32,
    pub max_value: i32,
    pub waiters: usize,
    pub namespace_id: usize,
    pub total_waits: u64,
    pub total_posts: u64,
}

impl Semaphore {
    pub open spec fn model(&self) -> SemModel {
        SemModel {
            id: self.id,
            name: self.name@,
            value: self.value,
            max_value: self.max_value,
            waiters: self.waiters,
            namespace_id: self.namespace_id,
            total_waits: self.total_waits,
            total_posts: self.total_posts,
        }
    }
}

/// A POSIX shared memory segment.
pub struct ShmSegment {
    pub id: usize,
    pub name: String,
    pub size: usize,
    pub data: Vec<u8>,
    pub attached_pids: Vec<usize>,
    pub namespace_id: usize,
}

pub struct ShmModel {
    pub id: usize,
    pub name: Seq<char>,
    pub size: usize,
    pub data: Seq<u8>,
    pub attached_pids: Seq<usize>,
    pub namespace_id: usize,
}

impl ShmSegment {
    pub open spec fn model(&self) -> ShmModel {
        ShmModel {
            id: self.id,
            name: self.name@,
            size: self.size,
            data: self.data@,
            attached_pids: self.attached_pids@,
            namespace_id: self.namespace_id,
        }
    }
}

/// An event file descriptor.
#[derive(Clone, Copy)]
pub struct EventFd {
    pub id: usize,
    pub counter: u64,
    pub pid: usize,
    pub semaphore_mode: bool,
}

/// A signal file descriptor.
pub struct SignalFd {
    pub id: usize,
    pub pid: usize,
    pub signal_mask: u64,
    pub pending: Vec<u32>,
}

pub struct SignalFdModel {
    pub id: usize,
    pub pid: usize,
    pub signal_mask: u64,
    pub pending: Seq<u32>,
}

impl SignalFd {
    pub open spec fn model(&self) -> SignalFdModel {
        SignalFdModel { id: self.id, pid: self.pid, signal_mask: self.signal_mask, pending: self.pending@ }
    }
}

/// A timer file descriptor.
#[derive(Clone, Copy)]
pub struct TimerFd {
    pub id: usize,
    pub pid: usize,
    pub interval_ticks: u64,
    pub next_expiry: u64,
    pub expirations: u64,
    pub armed: bool,
}

/// Events that epoll can watch for.
#[derive(PartialEq, Eq, Structural, Clone, Copy, Debug)]
pub enum EpollEvent {
    In,
    Out,
    Error,
    Hup,
}

/// A descriptor registered with an epoll instance.
pub struct EpollEntry {
    pub fd: usize,
    pub events: Vec<EpollEvent>,
}

/// An epoll instance.
pub struct EpollInstance {
    pub id: usize,
    pub pid: usize,
    pub entries: Vec<EpollEntry>,
}

pub struct EpollModel {
    pub id: usize,
    pub pid: usize,
    pub entries: Seq<(usize, Seq<EpollEvent>)>,
}

impl EpollInstance {
    pub open spec fn model(&self) -> EpollModel {
        EpollModel {
            id: self.id,
            pid: self.pid,
            entries: self.entries@.map_values(|e: EpollEntry| (e.fd, e.events@)),
        }
    }
}

/// An IPC namespace.
pub struct IpcNamespace {
    pub id: usize,
    pub name: String,
    pub pids: Vec<usize>,
}

pub struct NamespaceModel {
    pub id: usize,
    pub name: Seq<char>,
    pub pids: Seq<usize>,
}

impl IpcNamespace {
    pub open spec fn model(&self) -> NamespaceModel {
        NamespaceModel { id: self.id, name: self.name@, pids: self.pids@ }
    }
}

impl Keyed for UnixSocket {
    open spec fn key(&self) -> usize { self.id }
    fn get_key(&self) -> (r: usize) { self.id }
}

impl Keyed for MessageQueue {
    open spec fn key(&self) -> usize { self.id }
    fn get_key(&self) -> (r: usize) { self.id }
}

impl Keyed for Semaphore {
    open spec fn key(&self) -> usize { self.id }
    fn get_key(&self) -> (r: usize) { self.id }
}

impl Keyed for ShmSegment {
    open spec fn key(&self) -> usize { self.id }
    fn get_key(&self) -> (r: usize) { self.id }
}

impl Keyed for EventFd {
    open spec fn key(&self) -> usize { self.id }
    fn get_key(&self) -> (r: usize) { self.id }
}

impl Keyed for SignalFd {
    open spec fn key(&self) -> usize { self.id }
    fn get_key(&self) -> (r: usize) { self.id }
}

impl Keyed for TimerFd {
    open spec fn key(&self) -> usize { self.id }
    fn get_key(&self) -> (r: usize) { self.id }
}

impl Keyed for EpollInstance {
    open spec fn key(&self) -> usize { self.id }
    fn get_key(&self) -> (r: usize) { self.id }
}

impl Keyed for IpcNamespace {
    open spec fn key(&self) -> usize { self.id }
    fn get_key(&self) -> (r: usize) { self.id }
}

/// Global operation counters.
#[derive(Clone, Copy)]
pub struct IpcCounters {
    pub messages_sent: u64,
    pub messages_received: u64,
    pub sem_ops: u64,
    pub socket_ops: u64,
    pub initialized: bool,
}

/// The whole extended-IPC state.
pub struct IpcExt {
    pub sockets: Table<UnixSocket>,
    pub queues: Table<MessageQueue>,
    pub sems: Table<Semaphore>,
    pub shm: Table<ShmSegment>,
    pub eventfds: Table<EventFd>,
    pub signalfds: Table<SignalFd>,
    pub timerfds: Table<TimerFd>,
    pub epolls: Table<EpollInstance>,
    pub namespaces: Table<IpcNamespace>,
    pub counters: IpcCounters,
}

/// The parts of the state one operation may change.
pub enum Part {
    Sockets,
    Queues,
    Sems,
    Shm,
    EventFds,
    SignalFds,
    TimerFds,
    Epolls,
    Namespaces,
}

pub open spec fn sockets_view(s: Seq<UnixSocket>) -> Seq<SocketModel> {
    s.map_values(|x: UnixSocket| x.model())
}

pub open spec fn queues_view(s: Seq<MessageQueue>) -> Seq<MqModel> {
    s.map_values(|x: MessageQueue| x.model())
}

pub open spec fn sems_view(s: Seq<Semaphore>) -> Seq<SemModel> {
    s.map_values(|x: Semaphore| x.model())
}

pub open spec fn shm_view(s: Seq<ShmSegment>) -> Seq<ShmModel> {
    s.map_values(|x: ShmSegment| x.model())
}

pub open spec fn signalfds_view(s: Seq<SignalFd>) -> Seq<SignalFdModel> {
    s.map_values(|x: SignalFd| x.model())
}

pub open spec fn epolls_view(s: Seq<EpollInstance>) -> Seq<EpollModel> {
    s.map_values(|x: EpollInstance| x.model())
}

pub open spec fn namespaces_view(s: Seq<IpcNamespace>) -> Seq<NamespaceModel> {
    s.map_values(|x: IpcNamespace| x.model())
}

/// Every pending connection names an id that has been handed out.
pub open spec fn backlogs_below(s: Seq<UnixSocket>, next: usize) -> bool {
    forall|i: int, j: int| 0 <= i < s.len() && 0 <= j < s[i].backlog@.len() ==> #[trigger] s[i].backlog@[j] < next
}

impl IpcExt {
    pub open spec fn wf(&self) -> bool {
        &&& self.sockets.wf()
        &&& backlogs_below(self.sockets.items@, self.sockets.next_id)
        &&& self.queues.wf()
        &&& self.sems.wf()
        &&& self.shm.wf()
        &&& self.eventfds.wf()
        &&& self.signalfds.wf()
        &&& self.timerfds.wf()
        &&& self.epolls.wf()
        &&& self.namespaces.wf()
    }

    /// Every table other than `p`, and its id counter, is the same in `self`
    /// and `other`.
    pub open spec fn same_except(&self, other: &IpcExt, p: Part) -> bool {
        &&& (!(p is Sockets) ==> sockets_view(self.sockets.items@) == sockets_view(other.sockets.items@)
            && self.sockets.next_id == other.sockets.next_id && self.sockets.items@ == other.sockets.items@)
        &&& (!(p is Queues) ==> self.queues.next_id == other.queues.next_id
            && self.queues.items@ == other.queues.items@)
        &&& (!(p is Sems) ==> self.sems.next_id == other.sems.next_id && self.sems.items@ == other.sems.items@)
        &&& (!(p is Shm) ==> self.shm.next_id == other.shm.next_id && self.shm.items@ == other.shm.items@)
        &&& (!(p is EventFds) ==> self.eventfds.next_id == other.eventfds.next_id
            && self.eventfds.items@ == other.eventfds.items@)
        &&& (!(p is SignalFds) ==> self.signalfds.next_id == other.signalfds.next_id
            && self.signalfds.items@ == other.signalfds.items@)
        &&& (!(p is TimerFds) ==> self.timerfds.next_id == other.timerfds.next_id
            && self.timerfds.items@ == other.timerfds.items@)
        &&& (!(p is Epolls) ==> self.epolls.next_id == other.epolls.next_id
            && self.epolls.items@ == other.epolls.items@)
        &&& (!(p is Namespaces) ==> self.namespaces.next_id == other.namespaces.next_id
            && self.namespaces.items@ == other.namespaces.items@)
    }

    /// The state before `init`: every table empty, counters zero.
    pub fn new() -> (s: Self)
        ensures
            s.wf(),
            s.sockets.items@.len() == 0 && s.sockets.next_id == 1,
            s.queues.items@.len() == 0 && s.queues.next_id == 1,
            s.sems.items@.len() == 0 && s.sems.next_id == 1,
            s.shm.items@.len() == 0 && s.shm.next_id == 1,
            s.eventfds.items@.len() == 0 && s.eventfds.next_id == 1,
            s.signalfds.items@.len() == 0 && s.signalfds.next_id == 1,
            s.timerfds.items@.len() == 0 && s.timerfds.next_id == 1,
            s.epolls.items@.len() == 0 && s.epolls.next_id == 1,
            s.namespaces.items@.len() == 0 && s.namespaces.next_id == 1,
            s.counters == (IpcCounters {
                messages_sent: 0,
                messages_received: 0,
                sem_ops: 0,
                socket_ops: 0,
                initialized: false,
            }),
    {
        IpcExt {
            sockets: Table::new(),
            queues: Table::new(),
            sems: Table::new(),
            shm: Table::new(),
            eventfds: Table::new(),
            signalfds: Table::new(),
            timerfds: Table::new(),
            epolls: Table::new(),
            namespaces: Table::new(),
            counters: IpcCounters {
                messages_sent: 0,
                messages_received: 0,
                sem_ops: 0,
                socket_ops: 0,
                initialized: false,
            },
        }
    }
}

// ---------------------------------------------------------------------------
// Event file descriptors
// ---------------------------------------------------------------------------

/// Create an event file descriptor. `None` when the table is full.
pub fn eventfd_create(st: &mut IpcExt, pid: usize, init_val: u64, semaphore_mode: bool) -> (r: Option<usize>)
    requires
        old(st).wf(),
    ensures
        final(st).wf(),
        final(st).same_except(old(st), Part::EventFds),
        final(st).counters == old(st).counters,
        match r {
            Some(id) => {
                &&& old(st).eventfds.items@.len() < MAX_EVENTFDS
                &&& id == old(st).eventfds.next_id
                &&& final(st).eventfds.next_id == id + 1
                &&& final(st).eventfds.items@ == old(st).eventfds.items@.push(
                    EventFd { id, counter: init_val, pid, semaphore_mode })
            },
            None => (old(st).eventfds.items@.len() >= MAX_EVENTFDS || old(st).eventfds.next_id == usize::MAX)
                && final(st).eventfds == old(st).eventfds,
        },
{
    if st.eventfds.items.len() >= MAX_EVENTFDS || st.eventfds.next_id == usize::MAX {
        return None;
    }
    let id = st.eventfds.next_id;
    let fd = EventFd { id, counter: init_val, pid, semaphore_mode };
    proof {
        lemma_push_wf(st.eventfds.items@, id, fd);
    }
    st.eventfds.next_id = id + 1;
    st.eventfds.items.push(fd);
    Some(id)
}

/// An eventfd after a write of `value`: the counter grows, stopping at the
/// largest `u64`.
pub open spec fn eventfd_written(f: EventFd, value: u64) -> EventFd {
    EventFd { counter: if f.counter + value > u64::MAX { u64::MAX } else { (f.counter + value) as u64 }, ..f }
}

/// An eventfd after a read, and what the read gives: nothing while the
/// counter is zero; 1 in semaphore mode; else the whole counter.
pub open spec fn eventfd_after_read(f: EventFd) -> (EventFd, Option<u64>) {
    if f.counter == 0 {
        (f, None)
    } else if f.semaphore_mode {
        (EventFd { counter: (f.counter - 1) as u64, ..f }, Some(1u64))
    } else {
        (EventFd { counter: 0, ..f }, Some(f.counter))
    }
}

/// Add `value` to an eventfd's counter (saturating). False for an unknown id.
pub fn eventfd_write(st: &mut IpcExt, id: usize, value: u64) -> (r: bool)
    requires
        old(st).wf(),
    ensures
        final(st).wf(),
        final(st).same_except(old(st), Part::EventFds),
        final(st).counters == old(st).counters,
        final(st).eventfds.next_id == old(st).eventfds.next_id,
        r == has_key(old(st).eventfds.items@, id),
        r ==> ({
            let k = key_index(old(st).eventfds.items@, id);
            final(st).eventfds.items@ == old(st).eventfds.items@.update(k, eventfd_written(old(st).eventfds.items@[k], value))
        }),
        !r ==> final(st).eventfds.items@ == old(st).eventfds.items@,
{
    match find_key(&st.eventfds.items, id) {
        Some(i) => {
            let mut fd = st.eventfds.items[i];
            fd.counter = fd.counter.saturating_add(value);
            proof {
                lemma_key_index(st.eventfds.items@, st.eventfds.next_id, i as int);
                lemma_update_wf(st.eventfds.items@, st.eventfds.next_id, i as int, fd);
            }
            st.eventfds.items.set(i, fd);
            true
        }
        None => false,
    }
}

/// Read an eventfd: `None` when the counter is zero (would block); in
/// semaphore mode take 1, otherwise take the whole counter.
pub fn eventfd_read(st: &mut IpcExt, id: usize) -> (r: Option<u64>)
    requires
        old(st).wf(),
    ensures
        final(st).wf(),
        final(st).same_except(old(st), Part::EventFds),
        final(st).counters == old(st).counters,
        final(st).eventfds.next_id == old(st).eventfds.next_id,
        !has_key(old(st).eventfds.items@, id) ==> r is None && final(st).eventfds.items@ == old(st).eventfds.items@,
        has_key(old(st).eventfds.items@, id) ==> ({
            let k = key_index(old(st).eventfds.items@, id);
            let (f2, v) = eventfd_after_read(old(st).eventfds.items@[k]);
            &&& r == v
            &&& final(st).eventfds.items@ == old(st).eventfds.items@.update(k, f2)
        }),
{
    match find_key(&st.eventfds.items, id) {
        Some(i) => {
            let mut fd = st.eventfds.items[i];
            proof {
                lemma_key_index(st.eventfds.items@, st.eventfds.next_id, i as int);
            }
            if fd.counter == 0 {
                return None;
            }
            let out = if fd.semaphore_mode {
                fd.counter = fd.counter - 1;
                1
            } else {
                let v = fd.counter;
                fd.counter = 0;
                v
            };
            proof {
                lemma_update_wf(st.eventfds.items@, st.eventfds.next_id, i as int, fd);
            }
            st.eventfds.items.set(i, fd);
            Some(out)
        }
        None => None,
    }
}

/// Close an eventfd. False for an unknown id.
pub fn eventfd_close(st: &mut IpcExt, id: usize) -> (r: bool)
    requires
        old(st).wf(),
    ensures
        final(st).wf(),
        final(st).same_except(old(st), Part::EventFds),
        final(st).counters == old(st).counters,
        final(st).eventfds.next_id == old(st).eventfds.next_id,
        r == has_key(old(st).eventfds.items@, id),
        r ==> final(st).eventfds.items@ == old(st).eventfds.items@.remove(key_index(old(st).eventfds.items@, id)),
        !r ==> final(st).eventfds.items@ == old(st).eventfds.items@,
{
    remove_key(&mut st.eventfds.items, Ghost(st.eventfds.next_id), id)
}

// ---------------------------------------------------------------------------
// Message queues
// ---------------------------------------------------------------------------

/// Whether `i` is the first queue named `name` in namespace `ns`.
pub open spec fn first_queue_named(s: Seq<MessageQueue>, name: Seq<char>, ns: usize, i: int) -> bool {
    &&& 0 <= i < s.len()
    &&& s[i].name@ == name && s[i].namespace_id == ns
    &&& forall|j: int| 0 <= j < i ==> !(s[j].name@ == name && s[j].namespace_id == ns)
}

/// Where a message of priority `p` goes: before the first message of lower
/// priority, else at the end.
pub open spec fn is_insert_pos(s: Seq<(Seq<u8>, u32)>, p: u32, pos: int) -> bool {
    &&& 0 <= pos <= s.len()
    &&& forall|j: int| 0 <= j < pos ==> s[j].1 >= p
    &&& pos < s.len() ==> s[pos].1 < p
}

/// Open (or create) the message queue `name` in the global namespace.
/// An existing queue of that name is returned as it is; a new one holds at
/// most `MAX_MESSAGES_PER_QUEUE` messages of `MAX_MESSAGE_SIZE` bytes.
pub fn mq_open(st: &mut IpcExt, name: &str) -> (r: Option<usize>)
    requires
        old(st).wf(),
    ensures
        final(st).wf(),
        final(st).same_except(old(st), Part::Queues),
        final(st).counters == old(st).counters,
        forall|i: int| first_queue_named(old(st).queues.items@, name@, 0, i)
            ==> r == Some(old(st).queues.items@[i].id) && final(st).queues == old(st).queues,
        (forall|i: int| 0 <= i < old(st).queues.items@.len()
            ==> !(old(st).queues.items@[i].name@ == name@ && old(st).queues.items@[i].namespace_id == 0)) ==> match r {
            Some(id) => {
                &&& old(st).queues.items@.len() < MAX_MESSAGE_QUEUES
                &&& id == old(st).queues.next_id
                &&& final(st).queues.next_id == id + 1
                &&& queues_view(final(st).queues.items@) == queues_view(old(st).queues.items@).push(MqModel {
                    id,
                    name: name@,
                    messages: Seq::empty(),
                    max_messages: MAX_MESSAGES_PER_QUEUE,
                    max_msg_size: MAX_MESSAGE_SIZE,
                    namespace_id: 0,
                    total_sent: 0,
                    total_received: 0,
                })
            },
            None => (old(st).queues.items@.len() >= MAX_MESSAGE_QUEUES || old(st).queues.next_id == usize::MAX)
                && final(st).queues == old(st).queues,
        },
{
    let n = st.queues.items.len();
    let mut i: usize = 0;
    while i < n
        invariant
            n == st.queues.items@.len(),
            *st == *old(st),
            old(st).wf(),
            i <= n,
            forall|j: int| 0 <= j < i ==> !(st.queues.items@[j].name@ == name@ && st.queues.items@[j].namespace_id == 0),
        decreases n - i,
    {
        if str_eq(st.queues.items[i].name.as_str(), name) && st.queues.items[i].namespace_id == 0 {
            return Some(st.queues.items[i].id);
        }
        i = i + 1;
    }
    if st.queues.items.len() >= MAX_MESSAGE_QUEUES || st.queues.next_id == usize::MAX {
        return None;
    }
    let id = st.queues.next_id;
    let q = MessageQueue {
        id,
        name: string_of(name),
        messages: Vec::new(),
        max_messages: MAX_MESSAGES_PER_QUEUE,
        max_msg_size: MAX_MESSAGE_SIZE,
        namespace_id: 0,
        total_sent: 0,
        total_received: 0,
    };
    proof {
        lemma_push_wf(st.queues.items@, id, q);
    }
    let ghost before = st.queues.items@;
    st.queues.next_id = id + 1;
    st.queues.items.push(q);
    assert(queues_view(st.queues.items@) =~= queues_view(before).push(q.model()));
    assert(q.model().messages =~= Seq::<(Seq<u8>, u32)>::empty());
    Some(id)
}

fn insert_position(msgs: &Vec<MqMessage>, priority: u32) -> (pos: usize)
    ensures
        is_insert_pos(msgs@.map_values(|m: MqMessage| (m.data@, m.priority)), priority, pos as int),
{
    let n = msgs.len();
    let mut i: usize = 0;
    while i < n
        invariant
            n == msgs@.len(),
            i <= n,
            forall|j: int| 0 <= j < i ==> msgs@[j].priority >= priority,
        decreases n - i,
    {
        if msgs[i].priority < priority {
            return i;
        }
        i = i + 1;
    }
    n
}

/// Send a message to a queue. False for an unknown id, a full queue or an
/// oversized message; otherwise the message goes in before the first one of
/// lower priority and both the queue's and the global send counts go up.
pub fn mq_send(st: &mut IpcExt, id: usize, data: &[u8], priority: u32) -> (r: bool)
    requires
        old(st).wf(),
    ensures
        final(st).wf(),
        final(st).same_except(old(st), Part::Queues),
        final(st).queues.next_id == old(st).queues.next_id,
        ({
            let s = old(st).queues.items@;
            let k = key_index(s, id);
            r == (has_key(s, id) && s[k].messages@.len() < s[k].max_messages && data@.len() <= s[k].max_msg_size)
        }),
        !r ==> final(st).queues == old(st).queues && final(st).counters == old(st).counters,
        r ==> final(st).counters == (IpcCounters {
            messages_sent: wrap_inc(old(st).counters.messages_sent),
            ..old(st).counters
        }),
        r ==> ({
            let k = key_index(old(st).queues.items@, id);
            let q = queues_view(old(st).queues.items@)[k];
            forall|pos: int| is_insert_pos(q.messages, priority, pos) ==> queues_view(final(st).queues.items@)
                == queues_view(old(st).queues.items@).update(k, MqModel {
                    messages: q.messages.insert(pos, (data@, priority)),
                    total_sent: wrap_inc(q.total_sent),
                    ..q
                })
        }),
{
    let i = match find_key(&st.queues.items, id) {
        Some(i) => i,
        None => return false,
    };
    proof {
        lemma_key_index(st.queues.items@, st.queues.next_id, i as int);
    }
    if st.queues.items[i].messages.len() >= st.queues.items[i].max_messages {
        return false;
    }
    if data.len() > st.queues.items[i].max_msg_size {
        return false;
    }
    let ghost before = st.queues.items@;
    let mut q = st.queues.items.remove(i);
    let pos = insert_position(&q.messages, priority);
    let msg = MqMessage { data: vstd::slice::slice_to_vec(data), priority };
    let ghost old_msgs = q.messages@;
    q.messages.insert(pos, msg);
    q.total_sent = inc_wrapping(q.total_sent);
    proof {
        lemma_update_wf(before, st.queues.next_id, i as int, q);
        assert(before.remove(i as int).insert(i as int, q) =~= before.update(i as int, q));
    }
    st.queues.items.insert(i, q);
    st.counters.messages_sent = inc_wrapping(st.counters.messages_sent);
    proof {
        let m = before[i as int].model();
        assert(q.model().messages =~= m.messages.insert(pos as int, (data@, priority)));
        assert forall|p: int| is_insert_pos(m.messages, priority, p) implies p == pos by {
            if p < pos {
                assert(m.messages[p].1 < priority);
            }
            if p > pos {
                assert(m.messages[pos as int].1 < priority);
            }
        }
        assert(queues_view(st.queues.items@) =~= queues_view(before).update(i as int, q.model()));
    }
    true
}

/// Take the first (highest-priority) message of a queue with its priority.
/// `None` for an unknown id or an empty queue.
pub fn mq_receive(st: &mut IpcExt, id: usize) -> (r: Option<(Vec<u8>, u32)>)
    requires
        old(st).wf(),
    ensures
        final(st).wf(),
        final(st).same_except(old(st), Part::Queues),
        final(st).queues.next_id == old(st).queues.next_id,
        ({
            let s = old(st).queues.items@;
            let k = key_index(s, id);
            (r is Some) == (has_key(s, id) && s[k].messages@.len() > 0)
        }),
        r is None ==> final(st).queues == old(st).queues && final(st).counters == old(st).counters,
        r matches Some((data, prio)) ==> ({
            let k = key_index(old(st).queues.items@, id);
            let q = queues_view(old(st).queues.items@)[k];
            &&& (data@, prio) == q.messages[0]
            &&& queues_view(final(st).queues.items@) == queues_view(old(st).queues.items@).update(k, MqModel {
                messages: q.messages.drop_first(),
                total_received: wrap_inc(q.total_received),
                ..q
            })
            &&& final(st).counters == (IpcCounters {
                messages_received: wrap_inc(old(st).counters.messages_received),
                ..old(st).counters
            })
        }),
{
    let i = match find_key(&st.queues.items, id) {
        Some(i) => i,
        None => return None,
    };
    proof {
        lemma_key_index(st.queues.items@, st.queues.next_id, i as int);
    }
    if st.queues.items[i].messages.len() == 0 {
        return None;
    }
    let ghost before = st.queues.items@;
    let mut q = st.queues.items.remove(i);
    let msg = q.messages.remove(0);
    q.total_received = inc_wrapping(q.total_received);
    proof {
        lemma_update_wf(before, st.queues.next_id, i as int, q);
        assert(before.remove(i as int).insert(i as int, q) =~= before.update(i as int, q));
    }
    st.queues.items.insert(i, q);
    st.counters.messages_received = inc_wrapping(st.counters.messages_received);
    proof {
        let m = before[i as int].model();
        assert(q.model().messages =~= m.messages.drop_first());
        assert(queues_view(st.queues.items@) =~= queues_view(before).update(i as int, q.model()));
    }
    Some((msg.data, msg.priority))
}

/// Close and destroy a message queue. False for an unknown id.
pub fn mq_close(st: &mut IpcExt, id: usize) -> (r: bool)
    requires
        old(st).wf(),
    ensures
        final(st).wf(),
        final(st).same_except(old(st), Part::Queues),
        final(st).counters == old(st).counters,
        final(st).queues.next_id == old(st).queues.next_id,
        r == has_key(old(st).queues.items@, id),
        r ==> final(st).queues.items@ == old(st).queues.items@.remove(key_index(old(st).queues.items@, id)),
        !r ==> final(st).queues.items@ == old(st).queues.items@,
{
    remove_key(&mut st.queues.items, Ghost(st.queues.next_id), id)
}

// ---------------------------------------------------------------------------
// Semaphores
// ---------------------------------------------------------------------------

/// `x + 1` modulo the word size.
pub open spec fn wrap_inc_usize(x: usize) -> usize {
    if x == usize::MAX { 0 } else { (x + 1) as usize }
}

fn inc_usize(x: usize) -> (r: usize)
    ensures
        r == wrap_inc_usize(x),
{
    if x == usize::MAX { 0 } else { x + 1 }
}

/// `x + 1` with 32-bit wrap-around.
pub open spec fn wrap_inc_i32(x: i32) -> i32 {
    if x == i32::MAX { i32::MIN } else { (x + 1) as i32 }
}

fn inc_i32(x: i32) -> (r: i32)
    ensures
        r == wrap_inc_i32(x),
{
    if x == i32::MAX { i32::MIN } else { x + 1 }
}

/// Whether `i` is the first semaphore named `name` in namespace `ns`.
pub open spec fn first_sem_named(s: Seq<Semaphore>, name: Seq<char>, ns: usize, i: int) -> bool {
    &&& 0 <= i < s.len()
    &&& s[i].name@ == name && s[i].namespace_id == ns
    &&& forall|j: int| 0 <= j < i ==> !(s[j].name@ == name && s[j].namespace_id == ns)
}

/// Create or open the semaphore `name` in the global namespace with the
/// given initial value.
pub fn sem_init(st: &mut IpcExt, name: &str, value: i32) -> (r: Option<usize>)
    requires
        old(st).wf(),
    ensures
        final(st).wf(),
        final(st).same_except(old(st), Part::Sems),
        final(st).counters == old(st).counters,
        forall|i: int| first_sem_named(old(st).sems.items@, name@, 0, i)
            ==> r == Some(old(st).sems.items@[i].id) && final(st).sems == old(st).sems,
        (forall|i: int| 0 <= i < old(st).sems.items@.len()
            ==> !(old(st).sems.items@[i].name@ == name@ && old(st).sems.items@[i].namespace_id == 0)) ==> match r {
            Some(id) => {
                &&& old(st).sems.items@.len() < MAX_SEMAPHORES
                &&& id == old(st).sems.next_id
                &&& final(st).sems.next_id == id + 1
                &&& sems_view(final(st).sems.items@) == sems_view(old(st).sems.items@).push(SemModel {
                    id,
                    name: name@,
                    value,
                    max_value: i32::MAX,
                    waiters: 0,
                    namespace_id: 0,
                    total_waits: 0,
                    total_posts: 0,
                })
            },
            None => (old(st).sems.items@.len() >= MAX_SEMAPHORES || old(st).sems.next_id == usize::MAX)
                && final(st).sems == old(st).sems,
        },
{
    let n = st.sems.items.len();
    let mut i: usize = 0;
    while i < n
        invariant
            n == st.sems.items@.len(),
            *st == *old(st),
            old(st).wf(),
            i <= n,
            forall|j: int| 0 <= j < i ==> !(st.sems.items@[j].name@ == name@ && st.sems.items@[j].namespace_id == 0),
        decreases n - i,
    {
        if str_eq(st.sems.items[i].name.as_str(), name) && st.sems.items[i].namespace_id == 0 {
            return Some(st.sems.items[i].id);
        }
        i = i + 1;
    }
    if st.sems.items.len() >= MAX_SEMAPHORES || st.sems.next_id == usize::MAX {
        return None;
    }
    let id = st.sems.next_id;
    let sem = Semaphore {
        id,
        name: string_of(name),
        value,
        max_value: i32::MAX,
        waiters: 0,
        namespace_id: 0,
        total_waits: 0,
        total_posts: 0,
    };
    proof {
        lemma_push_wf(st.sems.items@, id, sem);
    }
    let ghost before = st.sems.items@;
    st.sems.next_id = id + 1;
    st.sems.items.push(sem);
    assert(sems_view(st.sems.items@) =~= sems_view(before).push(sem.model()));
    Some(id)
}

/// Replaces the semaphore at `i` by `sem` (same id).
fn put_sem(t: &mut Table<Semaphore>, i: usize, sem: Semaphore)
    requires
        old(t).wf(),
        i < old(t).items@.len(),
        sem.id == old(t).items@[i as int].id,
    ensures
        final(t).wf(),
        final(t).next_id == old(t).next_id,
        final(t).items@ == old(t).items@.update(i as int, sem),
        sems_view(final(t).items@) == sems_view(old(t).items@).update(i as int, sem.model()),
{
    proof {
        lemma_update_wf(t.items@, t.next_id, i as int, sem);
    }
    let ghost before = t.items@;
    t.items.remove(i);
    t.items.insert(i, sem);
    assert(t.items@ =~= before.update(i as int, sem));
    assert(sems_view(t.items@) =~= sems_view(before).update(i as int, sem.model()));
}

/// Clones the semaphore at `i`.
fn take_sem(t: &Table<Semaphore>, i: usize) -> (sem: Semaphore)
    requires
        i < t.items@.len(),
    ensures
        sem.model() == t.items@[i as int].model(),
        sem.id == t.items@[i as int].id,
{
    let s = &t.items[i];
    Semaphore {
        id: s.id,
        name: s.name.clone(),
        value: s.value,
        max_value: s.max_value,
        waiters: s.waiters,
        namespace_id: s.namespace_id,
        total_waits: s.total_waits,
        total_posts: s.total_posts,
    }
}

/// Decrement (wait on) a semaphore. True when it was positive and is now one
/// lower; when it was zero the caller would block: the waiter count goes up
/// and the result is false. False for an unknown id.
pub fn sem_wait(st: &mut IpcExt, id: usize) -> (r: bool)
    requires
        old(st).wf(),
    ensures
        final(st).wf(),
        final(st).same_except(old(st), Part::Sems),
        final(st).sems.next_id == old(st).sems.next_id,
        !has_key(old(st).sems.items@, id) ==> !r && final(st).sems == old(st).sems,
        has_key(old(st).sems.items@, id) ==> ({
            let k = key_index(old(st).sems.items@, id);
            let m = sems_view(old(st).sems.items@)[k];
            &&& r == (m.value > 0)
            &&& sems_view(final(st).sems.items@) == sems_view(old(st).sems.items@).update(k,
                if m.value > 0 {
                    SemModel { value: (m.value - 1) as i32, total_waits: wrap_inc(m.total_waits), ..m }
                } else {
                    SemModel { waiters: wrap_inc_usize(m.waiters), ..m }
                })
        }),
        r ==> final(st).counters == (IpcCounters { sem_ops: wrap_inc(old(st).counters.sem_ops), ..old(st).counters }),
        !r ==> final(st).counters == old(st).counters,
{
    let i = match find_key(&st.sems.items, id) {
        Some(i) => i,
        None => return false,
    };
    proof {
        lemma_key_index(st.sems.items@, st.sems.next_id, i as int);
    }
    let mut sem = take_sem(&st.sems, i);
    let ok = if sem.value > 0 {
        sem.value = sem.value - 1;
        sem.total_waits = inc_wrapping(sem.total_waits);
        true
    } else {
        sem.waiters = inc_usize(sem.waiters);
        false
    };
    put_sem(&mut st.sems, i, sem);
    if ok {
        st.counters.sem_ops = inc_wrapping(st.counters.sem_ops);
    }
    ok
}

/// Try to decrement a semaphore without blocking: true when it was positive.
pub fn sem_trywait(st: &mut IpcExt, id: usize) -> (r: bool)
    requires
        old(st).wf(),
    ensures
        final(st).wf(),
        final(st).same_except(old(st), Part::Sems),
        final(st).sems.next_id == old(st).sems.next_id,
        ({
            let k = key_index(old(st).sems.items@, id);
            r == (has_key(old(st).sems.items@, id) && sems_view(old(st).sems.items@)[k].value > 0)
        }),
        !r ==> final(st).sems == old(st).sems && final(st).counters == old(st).counters,
        r ==> ({
            let k = key_index(old(st).sems.items@, id);
            let m = sems_view(old(st).sems.items@)[k];
            &&& sems_view(final(st).sems.items@) == sems_view(old(st).sems.items@).update(k,
                SemModel { value: (m.value - 1) as i32, total_waits: wrap_inc(m.total_waits), ..m })
            &&& final(st).counters == (IpcCounters { sem_ops: wrap_inc(old(st).counters.sem_ops), ..old(st).counters })
        }),
{
    let i = match find_key(&st.sems.items, id) {
        Some(i) => i,
        None => return false,
    };
    proof {
        lemma_key_index(st.sems.items@, st.sems.next_id, i as int);
    }
    if st.sems.items[i].value <= 0 {
        return false;
    }
    let mut sem = take_sem(&st.sems, i);
    sem.value = sem.value - 1;
    sem.total_waits = inc_wrapping(sem.total_waits);
    put_sem(&mut st.sems, i, sem);
    st.counters.sem_ops = inc_wrapping(st.counters.sem_ops);
    true
}

/// Increment (post) a semaphore and release one waiter if there is one.
/// False for an unknown id.
pub fn sem_post(st: &mut IpcExt, id: usize) -> (r: bool)
    requires
        old(st).wf(),
    ensures
        final(st).wf(),
        final(st).same_except(old(st), Part::Sems),
        final(st).sems.next_id == old(st).sems.next_id,
        r == has_key(old(st).sems.items@, id),
        !r ==> final(st).sems == old(st).sems && final(st).counters == old(st).counters,
        r ==> ({
            let k = key_index(old(st).sems.items@, id);
            let m = sems_view(old(st).sems.items@)[k];
            &&& sems_view(final(st).sems.items@) == sems_view(old(st).sems.items@).update(k,
                SemModel {
                    value: wrap_inc_i32(m.value),
                    total_posts: wrap_inc(m.total_posts),
                    waiters: if m.waiters > 0 { (m.waiters - 1) as usize } else { 0 },
                    ..m
                })
            &&& final(st).counters == (IpcCounters { sem_ops: wrap_inc(old(st).counters.sem_ops), ..old(st).counters })
        }),
{
    let i = match find_key(&st.sems.items, id) {
        Some(i) => i,
        None => return false,
    };
    proof {
        lemma_key_index(st.sems.items@, st.sems.next_id, i as int);
    }
    let mut sem = take_sem(&st.sems, i);
    sem.value = inc_i32(sem.value);
    sem.total_posts = inc_wrapping(sem.total_posts);
    if sem.waiters > 0 {
        sem.waiters = sem.waiters - 1;
    }
    put_sem(&mut st.sems, i, sem);
    st.counters.sem_ops = inc_wrapping(st.counters.sem_ops);
    true
}

/// Destroy a semaphore. False for an unknown id.
pub fn sem_destroy(st: &mut IpcExt, id: usize) -> (r: bool)
    requires
        old(st).wf(),
    ensures
        final(st).wf(),
        final(st).same_except(old(st), Part::Sems),
        final(st).counters == old(st).counters,
        final(st).sems.next_id == old(st).sems.next_id,
        r == has_key(old(st).sems.items@, id),
        r ==> final(st).sems.items@ == old(st).sems.items@.remove(key_index(old(st).sems.items@, id)),
        !r ==> final(st).sems.items@ == old(st).sems.items@,
{
    remove_key(&mut st.sems.items, Ghost(st.sems.next_id), id)
}

// ---------------------------------------------------------------------------
// Shared memory
// ---------------------------------------------------------------------------

/// Whether `i` is the first segment named `name` in namespace `ns`.
pub open spec fn first_shm_named(s: Seq<ShmSegment>, name: Seq<char>, ns: usize, i: int) -> bool {
    &&& 0 <= i < s.len()
    &&& s[i].name@ == name && s[i].namespace_id == ns
    &&& forall|j: int| 0 <= j < i ==> !(s[j].name@ == name && s[j].namespace_id == ns)
}

fn find_shm_named(s: &Vec<ShmSegment>, name: &str) -> (r: Option<usize>)
    ensures
        match r {
            Some(i) => first_shm_named(s@, name@, 0, i as int),
            None => forall|i: int| 0 <= i < s@.len() ==> !(s@[i].name@ == name@ && s@[i].namespace_id == 0),
        },
{
    let n = s.len();
    let mut i: usize = 0;
    while i < n
        invariant
            n == s@.len(),
            i <= n,
            forall|j: int| 0 <= j < i ==> !(s@[j].name@ == name@ && s@[j].namespace_id == 0),
        decreases n - i,
    {
        if str_eq(s[i].name.as_str(), name) && s[i].namespace_id == 0 {
            return Some(i);
        }
        i = i + 1;
    }
    None
}

/// Open (or create) the shared memory segment `name` of `size` zeroed bytes
/// in the global namespace. An existing segment of that name is returned as
/// it is; `None` when the table is full or `size` is zero.
pub fn shm_open(st: &mut IpcExt, name: &str, size: usize) -> (r: Option<usize>)
    requires
        old(st).wf(),
    ensures
        final(st).wf(),
        final(st).same_except(old(st), Part::Shm),
        final(st).counters == old(st).counters,
        forall|i: int| first_shm_named(old(st).shm.items@, name@, 0, i)
            ==> r == Some(old(st).shm.items@[i].id) && final(st).shm == old(st).shm,
        (forall|i: int| 0 <= i < old(st).shm.items@.len()
            ==> !(old(st).shm.items@[i].name@ == name@ && old(st).shm.items@[i].namespace_id == 0)) ==> match r {
            Some(id) => {
                &&& old(st).shm.items@.len() < MAX_SHM_SEGMENTS
                &&& size != 0
                &&& id == old(st).shm.next_id
                &&& final(st).shm.next_id == id + 1
                &&& shm_view(final(st).shm.items@) == shm_view(old(st).shm.items@).push(ShmModel {
                    id,
                    name: name@,
                    size,
                    data: Seq::new(size as nat, |j: int| 0u8),
                    attached_pids: Seq::empty(),
                    namespace_id: 0,
                })
            },
            None => (old(st).shm.items@.len() >= MAX_SHM_SEGMENTS || size == 0 || old(st).shm.next_id == usize::MAX)
                && final(st).shm == old(st).shm,
        },
{
    if let Some(i) = find_shm_named(&st.shm.items, name) {
        return Some(st.shm.items[i].id);
    }
    if st.shm.items.len() >= MAX_SHM_SEGMENTS || size == 0 || st.shm.next_id == usize::MAX {
        return None;
    }
    let id = st.shm.next_id;
    let seg = ShmSegment {
        id,
        name: string_of(name),
        size,
        data: vec![0u8; size],
        attached_pids: Vec::new(),
        namespace_id: 0,
    };
    proof {
        lemma_push_wf(st.shm.items@, id, seg);
    }
    let ghost before = st.shm.items@;
    st.shm.next_id = id + 1;
    st.shm.items.push(seg);
    assert(seg.model().data =~= Seq::new(size as nat, |j: int| 0u8));
    assert(seg.model().attached_pids =~= Seq::<usize>::empty());
    assert(shm_view(st.shm.items@) =~= shm_view(before).push(seg.model()));
    Some(id)
}

/// Destroy the first global segment named `name`; false when there is none.
pub fn shm_unlink(st: &mut IpcExt, name: &str) -> (r: bool)
    requires
        old(st).wf(),
    ensures
        final(st).wf(),
        final(st).same_except(old(st), Part::Shm),
        final(st).counters == old(st).counters,
        final(st).shm.next_id == old(st).shm.next_id,
        forall|i: int| first_shm_named(old(st).shm.items@, name@, 0, i)
            ==> r && final(st).shm.items@ == old(st).shm.items@.remove(i),
        (forall|i: int| 0 <= i < old(st).shm.items@.len()
            ==> !(old(st).shm.items@[i].name@ == name@ && old(st).shm.items@[i].namespace_id == 0))
            ==> !r && final(st).shm == old(st).shm,
{
    match find_shm_named(&st.shm.items, name) {
        Some(i) => {
            proof {
                crate::idtable::lemma_remove_wf(st.shm.items@, st.shm.next_id, i as int);
            }
            st.shm.items.remove(i);
            true
        }
        None => false,
    }
}

/// Record `pid` as attached to a segment (once). False for an unknown id.
pub fn shm_attach(st: &mut IpcExt, id: usize, pid: usize) -> (r: bool)
    requires
        old(st).wf(),
    ensures
        final(st).wf(),
        final(st).same_except(old(st), Part::Shm),
        final(st).counters == old(st).counters,
        final(st).shm.next_id == old(st).shm.next_id,
        r == has_key(old(st).shm.items@, id),
        !r ==> final(st).shm == old(st).shm,
        r ==> ({
            let k = key_index(old(st).shm.items@, id);
            let m = shm_view(old(st).shm.items@)[k];
            shm_view(final(st).shm.items@) == shm_view(old(st).shm.items@).update(k,
                if m.attached_pids.contains(pid) { m } else { ShmModel { attached_pids: m.attached_pids.push(pid), ..m } })
        }),
{
    let i = match find_key(&st.shm.items, id) {
        Some(i) => i,
        None => return false,
    };
    proof {
        lemma_key_index(st.shm.items@, st.shm.next_id, i as int);
    }
    let ghost before = st.shm.items@;
    let mut seg = st.shm.items.remove(i);
    let found = position_of(&seg.attached_pids, pid).is_some();
    if !found {
        seg.attached_pids.push(pid);
    }
    proof {
        lemma_update_wf(before, st.shm.next_id, i as int, seg);
        assert(before.remove(i as int).insert(i as int, seg) =~= before.update(i as int, seg));
    }
    st.shm.items.insert(i, seg);
    assert(shm_view(st.shm.items@) =~= shm_view(before).update(i as int, seg.model()));
    true
}

/// Position of the first occurrence of `x`.
fn position_of(v: &Vec<usize>, x: usize) -> (r: Option<usize>)
    ensures
        match r {
            Some(i) => i < v@.len() && v@[i as int] == x && forall|j: int| 0 <= j < i ==> v@[j] != x,
            None => !v@.contains(x),
        },
{
    let n = v.len();
    let mut i: usize = 0;
    while i < n
        invariant
            n == v@.len(),
            i <= n,
            forall|j: int| 0 <= j < i ==> v@[j] != x,
        decreases n - i,
    {
        if v[i] == x {
            return Some(i);
        }
        i = i + 1;
    }
    None
}

/// Whether `i` is the first position holding `x`.
pub open spec fn first_pos(s: Seq<usize>, x: usize, i: int) -> bool {
    0 <= i < s.len() && s[i] == x && forall|j: int| 0 <= j < i ==> s[j] != x
}

/// Detach `pid` from a segment: true when it was attached.
pub fn shm_detach(st: &mut IpcExt, id: usize, pid: usize) -> (r: bool)
    requires
        old(st).wf(),
    ensures
        final(st).wf(),
        final(st).same_except(old(st), Part::Shm),
        final(st).counters == old(st).counters,
        final(st).shm.next_id == old(st).shm.next_id,
        ({
            let k = key_index(old(st).shm.items@, id);
            r == (has_key(old(st).shm.items@, id) && shm_view(old(st).shm.items@)[k].attached_pids.contains(pid))
        }),
        !r ==> final(st).shm == old(st).shm,
        r ==> ({
            let k = key_index(old(st).shm.items@, id);
            let m = shm_view(old(st).shm.items@)[k];
            forall|p: int| first_pos(m.attached_pids, pid, p) ==> shm_view(final(st).shm.items@)
                == shm_view(old(st).shm.items@).update(k, ShmModel { attached_pids: m.attached_pids.remove(p), ..m })
        }),
{
    let i = match find_key(&st.shm.items, id) {
        Some(i) => i,
        None => return false,
    };
    proof {
        lemma_key_index(st.shm.items@, st.shm.next_id, i as int);
    }
    let pos = match position_of(&st.shm.items[i].attached_pids, pid) {
        Some(p) => p,
        None => return false,
    };
    let ghost before = st.shm.items@;
    let mut seg = st.shm.items.remove(i);
    let ghost pids = seg.attached_pids@;
    seg.attached_pids.remove(pos);
    proof {
        lemma_update_wf(before, st.shm.next_id, i as int, seg);
        assert(before.remove(i as int).insert(i as int, seg) =~= before.update(i as int, seg));
    }
    st.shm.items.insert(i, seg);
    proof {
        assert(pids.contains(pid)) by {
            assert(pids[pos as int] == pid);
        }
        assert forall|p: int| first_pos(pids, pid, p) implies p == pos by {
            if p < pos {
                assert(pids[p] != pid);
            }
            if p > pos {
                assert(pids[pos as int] != pid);
            }
        }
        assert(shm_view(st.shm.items@) =~= shm_view(before).update(i as int, seg.model()));
    }
    true
}

// ---------------------------------------------------------------------------
// Signal file descriptors
// ---------------------------------------------------------------------------

/// Create a signal file descriptor watching `signal_mask`.
pub fn signalfd_create(st: &mut IpcExt, pid: usize, signal_mask: u64) -> (r: Option<usize>)
    requires
        old(st).wf(),
    ensures
        final(st).wf(),
        final(st).same_except(old(st), Part::SignalFds),
        final(st).counters == old(st).counters,
        match r {
            Some(id) => {
                &&& old(st).signalfds.items@.len() < MAX_SIGNALFDS
                &&& id == old(st).signalfds.next_id
                &&& final(st).signalfds.next_id == id + 1
                &&& signalfds_view(final(st).signalfds.items@) == signalfds_view(old(st).signalfds.items@).push(
                    SignalFdModel { id, pid, signal_mask, pending: Seq::empty() })
            },
            None => (old(st).signalfds.items@.len() >= MAX_SIGNALFDS || old(st).signalfds.next_id == usize::MAX)
                && final(st).signalfds == old(st).signalfds,
        },
{
    if st.signalfds.items.len() >= MAX_SIGNALFDS || st.signalfds.next_id == usize::MAX {
        return None;
    }
    let id = st.signalfds.next_id;
    let fd = SignalFd { id, pid, signal_mask, pending: Vec::new() };
    proof {
        lemma_push_wf(st.signalfds.items@, id, fd);
    }
    let ghost before = st.signalfds.items@;
    st.signalfds.next_id = id + 1;
    st.signalfds.items.push(fd);
    assert(fd.model().pending =~= Seq::<u32>::empty());
    assert(signalfds_view(st.signalfds.items@) =~= signalfds_view(before).push(fd.model()));
    Some(id)
}

/// Whether a signalfd of process `pid` watches `signal`.
pub open spec fn watches(m: SignalFdModel, pid: usize, signal: u32) -> bool {
    m.pid == pid && (m.signal_mask & (1u64 << signal)) != 0
}

/// A signalfd after `signal` is delivered to process `pid`: queued last
/// when the signalfd watches it.
pub open spec fn signalfd_delivered(m: SignalFdModel, pid: usize, signal: u32) -> SignalFdModel {
    if watches(m, pid, signal) { SignalFdModel { pending: m.pending.push(signal), ..m } } else { m }
}

/// A signalfd after a read, and the signal read: the oldest pending one.
pub open spec fn signalfd_after_read(m: SignalFdModel) -> (SignalFdModel, Option<u32>) {
    if m.pending.len() > 0 {
        (SignalFdModel { pending: m.pending.drop_first(), ..m }, Some(m.pending[0]))
    } else {
        (m, None)
    }
}

/// Queue `signal` on every signalfd of `pid` that watches it; true when at
/// least one did.
pub fn signalfd_deliver(st: &mut IpcExt, pid: usize, signal: u32) -> (r: bool)
    requires
        old(st).wf(),
        signal < 64,
    ensures
        final(st).wf(),
        final(st).same_except(old(st), Part::SignalFds),
        final(st).counters == old(st).counters,
        final(st).signalfds.next_id == old(st).signalfds.next_id,
        r == exists|i: int| 0 <= i < old(st).signalfds.items@.len()
            && #[trigger] watches(signalfds_view(old(st).signalfds.items@)[i], pid, signal),
        signalfds_view(final(st).signalfds.items@) == signalfds_view(old(st).signalfds.items@).map_values(
            |m: SignalFdModel| signalfd_delivered(m, pid, signal)),
{
    let n = st.signalfds.items.len();
    let ghost orig = st.signalfds.items@;
    let mut delivered = false;
    let mut i: usize = 0;
    while i < n
        invariant
            n == st.signalfds.items@.len(),
            n == orig.len(),
            i <= n,
            signal < 64,
            keys_wf(st.signalfds.items@, st.signalfds.next_id),
            st.signalfds.next_id == old(st).signalfds.next_id,
            orig == old(st).signalfds.items@,
            st.same_except(old(st), Part::SignalFds),
            st.counters == old(st).counters,
            forall|j: int| 0 <= j < n ==> #[trigger] st.signalfds.items@[j].id == orig[j].id,
            forall|j: int| 0 <= j < i ==> #[trigger] st.signalfds.items@[j].model() == (if watches(orig[j].model(), pid, signal) {
                SignalFdModel { pending: orig[j].model().pending.push(signal), ..orig[j].model() } } else { orig[j].model() }),
            forall|j: int| i <= j < n ==> #[trigger] st.signalfds.items@[j] == orig[j],
            delivered == exists|j: int| 0 <= j < i && #[trigger] watches(signalfds_view(orig)[j], pid, signal),
        decreases n - i,
    {
        let hit = st.signalfds.items[i].pid == pid && (st.signalfds.items[i].signal_mask & (1u64 << signal)) != 0;
        if hit {
            let ghost before = st.signalfds.items@;
            let mut fd = st.signalfds.items.remove(i);
            fd.pending.push(signal);
            proof {
                lemma_update_wf(before, st.signalfds.next_id, i as int, fd);
                assert(before.remove(i as int).insert(i as int, fd) =~= before.update(i as int, fd));
            }
            st.signalfds.items.insert(i, fd);
            delivered = true;
        }
        proof {
            assert(signalfds_view(orig)[i as int] == orig[i as int].model());
            if hit {
                assert(watches(signalfds_view(orig)[i as int], pid, signal));
            }
        }
        i = i + 1;
    }
    assert(signalfds_view(st.signalfds.items@) =~= signalfds_view(orig).map_values(
        |m: SignalFdModel| signalfd_delivered(m, pid, signal)));
    delivered
}

/// Take the oldest pending signal of a signalfd; `None` for an unknown id or
/// when nothing is pending.
pub fn signalfd_read(st: &mut IpcExt, id: usize) -> (r: Option<u32>)
    requires
        old(st).wf(),
    ensures
        final(st).wf(),
        final(st).same_except(old(st), Part::SignalFds),
        final(st).counters == old(st).counters,
        final(st).signalfds.next_id == old(st).signalfds.next_id,
        ({
            let k = key_index(old(st).signalfds.items@, id);
            let m = signalfds_view(old(st).signalfds.items@)[k];
            if has_key(old(st).signalfds.items@, id) && m.pending.len() > 0 {
                r == signalfd_after_read(m).1 && signalfds_view(final(st).signalfds.items@)
                    == signalfds_view(old(st).signalfds.items@).update(k, signalfd_after_read(m).0)
            } else {
                r is None && final(st).signalfds == old(st).signalfds
            }
        }),
{
    let i = match find_key(&st.signalfds.items, id) {
        Some(i) => i,
        None => return None,
    };
    proof {
        lemma_key_index(st.signalfds.items@, st.signalfds.next_id, i as int);
    }
    if st.signalfds.items[i].pending.len() == 0 {
        return None;
    }
    let ghost before = st.signalfds.items@;
    let mut fd = st.signalfds.items.remove(i);
    let sig = fd.pending.remove(0);
    proof {
        lemma_update_wf(before, st.signalfds.next_id, i as int, fd);
        assert(before.remove(i as int).insert(i as int, fd) =~= before.update(i as int, fd));
    }
    st.signalfds.items.insert(i, fd);
    assert(fd.model().pending =~= before[i as int].model().pending.drop_first());
    assert(signalfds_view(st.signalfds.items@) =~= signalfds_view(before).update(i as int, fd.model()));
    Some(sig)
}

/// Close a signalfd. False for an unknown id.
pub fn signalfd_close(st: &mut IpcExt, id: usize) -> (r: bool)
    requires
        old(st).wf(),
    ensures
        final(st).wf(),
        final(st).same_except(old(st), Part::SignalFds),
        final(st).counters == old(st).counters,
        final(st).signalfds.next_id == old(st).signalfds.next_id,
        r == has_key(old(st).signalfds.items@, id),
        r ==> final(st).signalfds.items@ == old(st).signalfds.items@.remove(key_index(old(st).signalfds.items@, id)),
        !r ==> final(st).signalfds.items@ == old(st).signalfds.items@,
{
    remove_key(&mut st.signalfds.items, Ghost(st.signalfds.next_id), id)
}

// ---------------------------------------------------------------------------
// Timer file descriptors
// ---------------------------------------------------------------------------

/// Create a disarmed timer file descriptor.
pub fn timerfd_create(st: &mut IpcExt, pid: usize) -> (r: Option<usize>)
    requires
        old(st).wf(),
    ensures
        final(st).wf(),
        final(st).same_except(old(st), Part::TimerFds),
        final(st).counters == old(st).counters,
        match r {
            Some(id) => {
                &&& old(st).timerfds.items@.len() < MAX_TIMERFDS
                &&& id == old(st).timerfds.next_id
                &&& final(st).timerfds.next_id == id + 1
                &&& final(st).timerfds.items@ == old(st).timerfds.items@.push(TimerFd {
                    id, pid, interval_ticks: 0, next_expiry: 0, expirations: 0, armed: false })
            },
            None => (old(st).timerfds.items@.len() >= MAX_TIMERFDS || old(st).timerfds.next_id == usize::MAX)
                && final(st).timerfds == old(st).timerfds,
        },
{
    if st.timerfds.items.len() >= MAX_TIMERFDS || st.timerfds.next_id == usize::MAX {
        return None;
    }
    let id = st.timerfds.next_id;
    let fd = TimerFd { id, pid, interval_ticks: 0, next_expiry: 0, expirations: 0, armed: false };
    proof {
        lemma_push_wf(st.timerfds.items@, id, fd);
    }
    st.timerfds.next_id = id + 1;
    st.timerfds.items.push(fd);
    Some(id)
}

/// Arm a timer: first expiry `initial_ticks` after `now` (wrapping), then
/// every `interval_ticks` (0 for one-shot); unread expirations are cleared.
pub fn timerfd_arm(st: &mut IpcExt, id: usize, initial_ticks: u64, interval_ticks: u64, now: u64) -> (r: bool)
    requires
        old(st).wf(),
    ensures
        final(st).wf(),
        final(st).same_except(old(st), Part::TimerFds),
        final(st).counters == old(st).counters,
        final(st).timerfds.next_id == old(st).timerfds.next_id,
        r == has_key(old(st).timerfds.items@, id),
        !r ==> final(st).timerfds == old(st).timerfds,
        r ==> ({
            let k = key_index(old(st).timerfds.items@, id);
            let f = old(st).timerfds.items@[k];
            final(st).timerfds.items@ == old(st).timerfds.items@.update(k, TimerFd {
                next_expiry: crate::libc::wrap_add(now, initial_ticks),
                interval_ticks,
                expirations: 0,
                armed: true,
                ..f
            })
        }),
{
    match find_key(&st.timerfds.items, id) {
        Some(i) => {
            let mut fd = st.timerfds.items[i];
            fd.next_expiry = now.wrapping_add(initial_ticks);
            fd.interval_ticks = interval_ticks;
            fd.expirations = 0;
            fd.armed = true;
            proof {
                lemma_key_index(st.timerfds.items@, st.timerfds.next_id, i as int);
                lemma_update_wf(st.timerfds.items@, st.timerfds.next_id, i as int, fd);
            }
            st.timerfds.items.set(i, fd);
            true
        }
        None => false,
    }
}

/// A timer after the clock reads `now`: an armed timer that is due counts
/// one more expiration and either re-arms `interval_ticks` later or disarms.
pub open spec fn timer_tick(f: TimerFd, now: u64) -> TimerFd {
    if f.armed && now >= f.next_expiry {
        if f.interval_ticks > 0 {
            TimerFd {
                expirations: wrap_inc(f.expirations),
                next_expiry: crate::libc::wrap_add(now, f.interval_ticks),
                ..f
            }
        } else {
            TimerFd { expirations: wrap_inc(f.expirations), armed: false, ..f }
        }
    } else {
        f
    }
}

/// Advance every timer to time `now`.
pub fn timerfd_tick(st: &mut IpcExt, now: u64)
    requires
        old(st).wf(),
    ensures
        final(st).wf(),
        final(st).same_except(old(st), Part::TimerFds),
        final(st).counters == old(st).counters,
        final(st).timerfds.next_id == old(st).timerfds.next_id,
        final(st).timerfds.items@ == old(st).timerfds.items@.map_values(|f: TimerFd| timer_tick(f, now)),
{
    let n = st.timerfds.items.len();
    let ghost orig = st.timerfds.items@;
    let mut i: usize = 0;
    while i < n
        invariant
            n == st.timerfds.items@.len(),
            n == orig.len(),
            i <= n,
            keys_wf(st.timerfds.items@, st.timerfds.next_id),
            st.timerfds.next_id == old(st).timerfds.next_id,
            orig == old(st).timerfds.items@,
            st.same_except(old(st), Part::TimerFds),
            st.counters == old(st).counters,
            forall|j: int| 0 <= j < i ==> st.timerfds.items@[j] == timer_tick(orig[j], now),
            forall|j: int| i <= j < n ==> st.timerfds.items@[j] == orig[j],
        decreases n - i,
    {
        let mut fd = st.timerfds.items[i];
        if fd.armed && now >= fd.next_expiry {
            fd.expirations = inc_wrapping(fd.expirations);
            if fd.interval_ticks > 0 {
                fd.next_expiry = now.wrapping_add(fd.interval_ticks);
            } else {
                fd.armed = false;
            }
        }
        proof {
            lemma_update_wf(st.timerfds.items@, st.timerfds.next_id, i as int, fd);
        }
        st.timerfds.items.set(i, fd);
        i = i + 1;
    }
    assert(st.timerfds.items@ =~= orig.map_values(|f: TimerFd| timer_tick(f, now)));
}

/// Take the count of unread expirations; `None` for an unknown id or when
/// there are none.
pub fn timerfd_read(st: &mut IpcExt, id: usize) -> (r: Option<u64>)
    requires
        old(st).wf(),
    ensures
        final(st).wf(),
        final(st).same_except(old(st), Part::TimerFds),
        final(st).counters == old(st).counters,
        final(st).timerfds.next_id == old(st).timerfds.next_id,
        ({
            let k = key_index(old(st).timerfds.items@, id);
            let f = old(st).timerfds.items@[k];
            if has_key(old(st).timerfds.items@, id) && f.expirations > 0 {
                r == Some(f.expirations) && final(st).timerfds.items@
                    == old(st).timerfds.items@.update(k, TimerFd { expirations: 0, ..f })
            } else {
                r is None && final(st).timerfds == old(st).timerfds
            }
        }),
{
    match find_key(&st.timerfds.items, id) {
        Some(i) => {
            let mut fd = st.timerfds.items[i];
            proof {
                lemma_key_index(st.timerfds.items@, st.timerfds.next_id, i as int);
            }
            if fd.expirations == 0 {
                return None;
            }
            let v = fd.expirations;
            fd.expirations = 0;
            proof {
                lemma_update_wf(st.timerfds.items@, st.timerfds.next_id, i as int, fd);
            }
            st.timerfds.items.set(i, fd);
            Some(v)
        }
        None => None,
    }
}

/// Close a timerfd. False for an unknown id.
pub fn timerfd_close(st: &mut IpcExt, id: usize) -> (r: bool)
    requires
        old(st).wf(),
    ensures
        final(st).wf(),
        final(st).same_except(old(st), Part::TimerFds),
        final(st).counters == old(st).counters,
        final(st).timerfds.next_id == old(st).timerfds.next_id,
        r == has_key(old(st).timerfds.items@, id),
        r ==> final(st).timerfds.items@ == old(st).timerfds.items@.remove(key_index(old(st).timerfds.items@, id)),
        !r ==> final(st).timerfds.items@ == old(st).timerfds.items@,
{
    remove_key(&mut st.timerfds.items, Ghost(st.timerfds.next_id), id)
}

// ---------------------------------------------------------------------------
// Epoll
// ---------------------------------------------------------------------------

/// Create an epoll instance.
pub fn epoll_create(st: &mut IpcExt, pid: usize) -> (r: Option<usize>)
    requires
        old(st).wf(),
    ensures
        final(st).wf(),
        final(st).same_except(old(st), Part::Epolls),
        final(st).counters == old(st).counters,
        match r {
            Some(id) => {
                &&& old(st).epolls.items@.len() < MAX_EPOLLS
                &&& id == old(st).epolls.next_id
                &&& final(st).epolls.next_id == id + 1
                &&& epolls_view(final(st).epolls.items@) == epolls_view(old(st).epolls.items@).push(
                    EpollModel { id, pid, entries: Seq::empty() })
            },
            None => (old(st).epolls.items@.len() >= MAX_EPOLLS || old(st).epolls.next_id == usize::MAX)
                && final(st).epolls == old(st).epolls,
        },
{
    if st.epolls.items.len() >= MAX_EPOLLS || st.epolls.next_id == usize::MAX {
        return None;
    }
    let id = st.epolls.next_id;
    let inst = EpollInstance { id, pid, entries: Vec::new() };
    proof {
        lemma_push_wf(st.epolls.items@, id, inst);
    }
    let ghost before = st.epolls.items@;
    st.epolls.next_id = id + 1;
    st.epolls.items.push(inst);
    assert(inst.model().entries =~= Seq::<(usize, Seq<EpollEvent>)>::empty());
    assert(epolls_view(st.epolls.items@) =~= epolls_view(before).push(inst.model()));
    Some(id)
}

/// Whether some entry watches descriptor `fd`.
pub open spec fn watches_fd(entries: Seq<(usize, Seq<EpollEvent>)>, fd: usize) -> bool {
    exists|j: int| 0 <= j < entries.len() && #[trigger] entries[j].0 == fd
}

/// Register `fd` with an epoll instance for `events`. False for an unknown
/// instance, a full instance or an `fd` already registered.
pub fn epoll_add(st: &mut IpcExt, epoll_id: usize, fd: usize, events: Vec<EpollEvent>) -> (r: bool)
    requires
        old(st).wf(),
    ensures
        final(st).wf(),
        final(st).same_except(old(st), Part::Epolls),
        final(st).counters == old(st).counters,
        final(st).epolls.next_id == old(st).epolls.next_id,
        ({
            let k = key_index(old(st).epolls.items@, epoll_id);
            let m = epolls_view(old(st).epolls.items@)[k];
            &&& r == (has_key(old(st).epolls.items@, epoll_id) && m.entries.len() < MAX_EPOLL_FDS
                && !watches_fd(m.entries, fd))
            &&& r ==> epolls_view(final(st).epolls.items@) == epolls_view(old(st).epolls.items@).update(k,
                EpollModel { entries: m.entries.push((fd, events@)), ..m })
        }),
        !r ==> final(st).epolls == old(st).epolls,
{
    let i = match find_key(&st.epolls.items, epoll_id) {
        Some(i) => i,
        None => return false,
    };
    proof {
        lemma_key_index(st.epolls.items@, st.epolls.next_id, i as int);
    }
    let ghost m = st.epolls.items@[i as int].model();
    if st.epolls.items[i].entries.len() >= MAX_EPOLL_FDS {
        return false;
    }
    if let Some(p) = find_entry(&st.epolls.items[i].entries, fd) {
        assert(m.entries[p as int].0 == fd);
        return false;
    }
    assert(!watches_fd(m.entries, fd)) by {
        assert forall|q: int| 0 <= q < m.entries.len() implies #[trigger] m.entries[q].0 != fd by {
            assert(m.entries[q].0 == st.epolls.items@[i as int].entries@[q].fd);
        }
    }
    let ghost before = st.epolls.items@;
    let mut inst = st.epolls.items.remove(i);
    inst.entries.push(EpollEntry { fd, events });
    proof {
        lemma_update_wf(before, st.epolls.next_id, i as int, inst);
        assert(before.remove(i as int).insert(i as int, inst) =~= before.update(i as int, inst));
    }
    st.epolls.items.insert(i, inst);
    assert(inst.model().entries =~= m.entries.push((fd, events@)));
    assert(epolls_view(st.epolls.items@) =~= epolls_view(before).update(i as int, inst.model()));
    true
}

fn find_entry(entries: &Vec<EpollEntry>, fd: usize) -> (r: Option<usize>)
    ensures
        match r {
            Some(p) => p < entries@.len() && entries@[p as int].fd == fd
                && forall|q: int| 0 <= q < p ==> entries@[q].fd != fd,
            None => forall|q: int| 0 <= q < entries@.len() ==> entries@[q].fd != fd,
        },
{
    let n = entries.len();
    let mut j: usize = 0;
    while j < n
        invariant
            n == entries@.len(),
            j <= n,
            forall|q: int| 0 <= q < j ==> entries@[q].fd != fd,
        decreases n - j,
    {
        if entries[j].fd == fd {
            return Some(j);
        }
        j = j + 1;
    }
    None
}

/// Whether `p` is the first entry watching `fd`.
pub open spec fn first_entry_for(entries: Seq<(usize, Seq<EpollEvent>)>, fd: usize, p: int) -> bool {
    0 <= p < entries.len() && entries[p].0 == fd && forall|q: int| 0 <= q < p ==> entries[q].0 != fd
}

/// Unregister `fd`: true when it was registered with the instance.
pub fn epoll_remove(st: &mut IpcExt, epoll_id: usize, fd: usize) -> (r: bool)
    requires
        old(st).wf(),
    ensures
        final(st).wf(),
        final(st).same_except(old(st), Part::Epolls),
        final(st).counters == old(st).counters,
        final(st).epolls.next_id == old(st).epolls.next_id,
        ({
            let k = key_index(old(st).epolls.items@, epoll_id);
            let m = epolls_view(old(st).epolls.items@)[k];
            &&& r == (has_key(old(st).epolls.items@, epoll_id) && watches_fd(m.entries, fd))
            &&& r ==> forall|p: int| first_entry_for(m.entries, fd, p) ==> epolls_view(final(st).epolls.items@)
                == epolls_view(old(st).epolls.items@).update(k, EpollModel { entries: m.entries.remove(p), ..m })
        }),
        !r ==> final(st).epolls == old(st).epolls,
{
    let i = match find_key(&st.epolls.items, epoll_id) {
        Some(i) => i,
        None => return false,
    };
    proof {
        lemma_key_index(st.epolls.items@, st.epolls.next_id, i as int);
    }
    let ghost m = st.epolls.items@[i as int].model();
    let j = match find_entry(&st.epolls.items[i].entries, fd) {
        Some(p) => p,
        None => {
            assert(!watches_fd(m.entries, fd)) by {
                assert forall|q: int| 0 <= q < m.entries.len() implies #[trigger] m.entries[q].0 != fd by {
                    assert(m.entries[q].0 == st.epolls.items@[i as int].entries@[q].fd);
                }
            }
            return false;
        }
    };
    assert(m.entries[j as int].0 == fd);
    assert forall|q: int| 0 <= q < j implies m.entries[q].0 != fd by {
        assert(m.entries[q].0 == st.epolls.items@[i as int].entries@[q].fd);
    }
    let ghost before = st.epolls.items@;
    let mut inst = st.epolls.items.remove(i);
    inst.entries.remove(j);
    proof {
        lemma_update_wf(before, st.epolls.next_id, i as int, inst);
        assert(before.remove(i as int).insert(i as int, inst) =~= before.update(i as int, inst));
    }
    st.epolls.items.insert(i, inst);
    proof {
        assert(inst.model().entries =~= m.entries.remove(j as int));
        assert forall|p: int| first_entry_for(m.entries, fd, p) implies p == j by {
            if p < j {
                assert(m.entries[p].0 != fd);
            }
            if p > j {
                assert(m.entries[j as int].0 != fd);
            }
        }
        assert(epolls_view(st.epolls.items@) =~= epolls_view(before).update(i as int, inst.model()));
    }
    true
}

/// The ready list that `epoll_wait` reports: every entry with at least one
/// event, paired with its first event.
pub open spec fn ready_list(entries: Seq<(usize, Seq<EpollEvent>)>) -> Seq<(usize, EpollEvent)>
    decreases entries.len(),
{
    if entries.len() == 0 {
        Seq::empty()
    } else {
        let last = entries.last();
        let rest = ready_list(entries.drop_last());
        if last.1.len() > 0 { rest.push((last.0, last.1[0])) } else { rest }
    }
}

/// Report the registered descriptors of an instance as ready, each with its
/// first event (no blocking happens here). Empty for an unknown instance.
pub fn epoll_wait(st: &IpcExt, epoll_id: usize) -> (r: Vec<(usize, EpollEvent)>)
    requires
        st.wf(),
    ensures
        has_key(st.epolls.items@, epoll_id) ==> r@ == ready_list(
            epolls_view(st.epolls.items@)[key_index(st.epolls.items@, epoll_id)].entries),
        !has_key(st.epolls.items@, epoll_id) ==> r@.len() == 0,
{
    let mut ready: Vec<(usize, EpollEvent)> = Vec::new();
    let i = match find_key(&st.epolls.items, epoll_id) {
        Some(i) => i,
        None => return ready,
    };
    proof {
        lemma_key_index(st.epolls.items@, st.epolls.next_id, i as int);
    }
    let ghost m = st.epolls.items@[i as int].model();
    let n = st.epolls.items[i].entries.len();
    let mut j: usize = 0;
    while j < n
        invariant
            n == m.entries.len(),
            i < st.epolls.items@.len(),
            m == st.epolls.items@[i as int].model(),
            j <= n,
            ready@ == ready_list(m.entries.subrange(0, j as int)),
        decreases n - j,
    {
        let e = &st.epolls.items[i].entries[j];
        assert(m.entries.subrange(0, j + 1).drop_last() =~= m.entries.subrange(0, j as int));
        if e.events.len() > 0 {
            ready.push((e.fd, e.events[0]));
        }
        j = j + 1;
    }
    assert(m.entries.subrange(0, n as int) =~= m.entries);
    ready
}

/// Close an epoll instance. False for an unknown id.
pub fn epoll_close(st: &mut IpcExt, id: usize) -> (r: bool)
    requires
        old(st).wf(),
    ensures
        final(st).wf(),
        final(st).same_except(old(st), Part::Epolls),
        final(st).counters == old(st).counters,
        final(st).epolls.next_id == old(st).epolls.next_id,
        r == has_key(old(st).epolls.items@, id),
        r ==> final(st).epolls.items@ == old(st).epolls.items@.remove(key_index(old(st).epolls.items@, id)),
        !r ==> final(st).epolls.items@ == old(st).epolls.items@,
{
    remove_key(&mut st.epolls.items, Ghost(st.epolls.next_id), id)
}

// ---------------------------------------------------------------------------
// IPC namespaces
// ---------------------------------------------------------------------------

/// Create a new IPC namespace for container isolation.
pub fn namespace_create(st: &mut IpcExt, name: &str) -> (r: Option<usize>)
    requires
        old(st).wf(),
    ensures
        final(st).wf(),
        final(st).same_except(old(st), Part::Namespaces),
        final(st).counters == old(st).counters,
        match r {
            Some(id) => {
                &&& old(st).namespaces.items@.len() < MAX_IPC_NAMESPACES
                &&& id == old(st).namespaces.next_id
                &&& final(st).namespaces.next_id == id + 1
                &&& namespaces_view(final(st).namespaces.items@) == namespaces_view(old(st).namespaces.items@).push(
                    NamespaceModel { id, name: name@, pids: Seq::empty() })
            },
            None => (old(st).namespaces.items@.len() >= MAX_IPC_NAMESPACES || old(st).namespaces.next_id == usize::MAX)
                && final(st).namespaces == old(st).namespaces,
        },
{
    if st.namespaces.items.len() >= MAX_IPC_NAMESPACES || st.namespaces.next_id == usize::MAX {
        return None;
    }
    let id = st.namespaces.next_id;
    let ns = IpcNamespace { id, name: string_of(name), pids: Vec::new() };
    proof {
        lemma_push_wf(st.namespaces.items@, id, ns);
    }
    let ghost before = st.namespaces.items@;
    st.namespaces.next_id = id + 1;
    st.namespaces.items.push(ns);
    assert(ns.model().pids =~= Seq::<usize>::empty());
    assert(namespaces_view(st.namespaces.items@) =~= namespaces_view(before).push(ns.model()));
    Some(id)
}

/// Add a process to a namespace (once). False for an unknown namespace.
pub fn namespace_add_pid(st: &mut IpcExt, ns_id: usize, pid: usize) -> (r: bool)
    requires
        old(st).wf(),
    ensures
        final(st).wf(),
        final(st).same_except(old(st), Part::Namespaces),
        final(st).counters == old(st).counters,
        final(st).namespaces.next_id == old(st).namespaces.next_id,
        r == has_key(old(st).namespaces.items@, ns_id),
        !r ==> final(st).namespaces == old(st).namespaces,
        r ==> ({
            let k = key_index(old(st).namespaces.items@, ns_id);
            let m = namespaces_view(old(st).namespaces.items@)[k];
            namespaces_view(final(st).namespaces.items@) == namespaces_view(old(st).namespaces.items@).update(k,
                if m.pids.contains(pid) { m } else { NamespaceModel { pids: m.pids.push(pid), ..m } })
        }),
{
    let i = match find_key(&st.namespaces.items, ns_id) {
        Some(i) => i,
        None => return false,
    };
    proof {
        lemma_key_index(st.namespaces.items@, st.namespaces.next_id, i as int);
    }
    let ghost before = st.namespaces.items@;
    let mut ns = st.namespaces.items.remove(i);
    if position_of(&ns.pids, pid).is_none() {
        ns.pids.push(pid);
    }
    proof {
        lemma_update_wf(before, st.namespaces.next_id, i as int, ns);
        assert(before.remove(i as int).insert(i as int, ns) =~= before.update(i as int, ns));
    }
    st.namespaces.items.insert(i, ns);
    assert(namespaces_view(st.namespaces.items@) =~= namespaces_view(before).update(i as int, ns.model()));
    true
}

/// Remove a process from a namespace: true when it was a member.
pub fn namespace_remove_pid(st: &mut IpcExt, ns_id: usize, pid: usize) -> (r: bool)
    requires
        old(st).wf(),
    ensures
        final(st).wf(),
        final(st).same_except(old(st), Part::Namespaces),
        final(st).counters == old(st).counters,
        final(st).namespaces.next_id == old(st).namespaces.next_id,
        ({
            let k = key_index(old(st).namespaces.items@, ns_id);
            r == (has_key(old(st).namespaces.items@, ns_id) && namespaces_view(old(st).namespaces.items@)[k].pids.contains(pid))
        }),
        !r ==> final(st).namespaces == old(st).namespaces,
        r ==> ({
            let k = key_index(old(st).namespaces.items@, ns_id);
            let m = namespaces_view(old(st).namespaces.items@)[k];
            forall|p: int| first_pos(m.pids, pid, p) ==> namespaces_view(final(st).namespaces.items@)
                == namespaces_view(old(st).namespaces.items@).update(k, NamespaceModel { pids: m.pids.remove(p), ..m })
        }),
{
    let i = match find_key(&st.namespaces.items, ns_id) {
        Some(i) => i,
        None => return false,
    };
    proof {
        lemma_key_index(st.namespaces.items@, st.namespaces.next_id, i as int);
    }
    let pos = match position_of(&st.namespaces.items[i].pids, pid) {
        Some(p) => p,
        None => return false,
    };
    let ghost before = st.namespaces.items@;
    let mut ns = st.namespaces.items.remove(i);
    let ghost pids = ns.pids@;
    ns.pids.remove(pos);
    proof {
        lemma_update_wf(before, st.namespaces.next_id, i as int, ns);
        assert(before.remove(i as int).insert(i as int, ns) =~= before.update(i as int, ns));
    }
    st.namespaces.items.insert(i, ns);
    proof {
        assert(pids.contains(pid)) by {
            assert(pids[pos as int] == pid);
        }
        assert forall|p: int| first_pos(pids, pid, p) implies p == pos by {
            if p < pos {
                assert(pids[p] != pid);
            }
            if p > pos {
                assert(pids[pos as int] != pid);
            }
        }
        assert(namespaces_view(st.namespaces.items@) =~= namespaces_view(before).update(i as int, ns.model()));
    }
    true
}

/// Destroy a namespace. False for an unknown id.
pub fn namespace_destroy(st: &mut IpcExt, ns_id: usize) -> (r: bool)
    requires
        old(st).wf(),
    ensures
        final(st).wf(),
        final(st).same_except(old(st), Part::Namespaces),
        final(st).counters == old(st).counters,
        final(st).namespaces.next_id == old(st).namespaces.next_id,
        r == has_key(old(st).namespaces.items@, ns_id),
        r ==> final(st).namespaces.items@ == old(st).namespaces.items@.remove(key_index(old(st).namespaces.items@, ns_id)),
        !r ==> final(st).namespaces.items@ == old(st).namespaces.items@,
{
    remove_key(&mut st.namespaces.items, Ghost(st.namespaces.next_id), ns_id)
}

// ---------------------------------------------------------------------------
// Unix domain sockets
// ---------------------------------------------------------------------------

/// A socket as `socket_create` makes it.
pub open spec fn fresh_socket(id: usize, pid: usize, ns: usize) -> SocketModel {
    SocketModel {
        id,
        address: Seq::empty(),
        state: SocketState::Created,
        pid,
        peer_id: None,
        recv_buf: Seq::empty(),
        backlog: Seq::empty(),
        max_backlog: 16,
        namespace_id: ns,
    }
}

proof fn lemma_socket_update(st: &IpcExt, i: int, x: UnixSocket)
    requires
        st.wf(),
        0 <= i < st.sockets.items@.len(),
        x.id == st.sockets.items@[i].id,
        forall|j: int| 0 <= j < x.backlog@.len() ==> #[trigger] x.backlog@[j] < st.sockets.next_id,
    ensures
        keys_wf(st.sockets.items@.update(i, x), st.sockets.next_id),
        backlogs_below(st.sockets.items@.update(i, x), st.sockets.next_id),
        sockets_view(st.sockets.items@.update(i, x)) == sockets_view(st.sockets.items@).update(i, x.model()),
        forall|k: usize| has_key(st.sockets.items@.update(i, x), k) == has_key(st.sockets.items@, k),
        forall|k: usize| has_key(st.sockets.items@, k) ==> key_index(st.sockets.items@.update(i, x), k)
            == key_index(st.sockets.items@, k),
{
    lemma_update_wf(st.sockets.items@, st.sockets.next_id, i, x);
    assert(sockets_view(st.sockets.items@.update(i, x)) =~= sockets_view(st.sockets.items@).update(i, x.model()));
}

/// Puts `x` back at `i` after it was taken out with `remove`.
fn put_socket(st: &mut IpcExt, i: usize, x: UnixSocket, before: Ghost<Seq<UnixSocket>>)
    requires
        old(st).sockets.items@ == before@.remove(i as int),
        0 <= i < before@.len(),
        keys_wf(before@, old(st).sockets.next_id),
        x.id == before@[i as int].id,
    ensures
        final(st).sockets.items@ == before@.update(i as int, x),
        final(st).sockets.next_id == old(st).sockets.next_id,
        final(st).same_except(old(st), Part::Sockets),
        final(st).counters == old(st).counters,
{
    st.sockets.items.insert(i, x);
    assert(before@.remove(i as int).insert(i as int, x) =~= before@.update(i as int, x));
}

/// Create a new Unix domain socket in the global namespace.
pub fn socket_create(st: &mut IpcExt, pid: usize) -> (r: Option<usize>)
    requires
        old(st).wf(),
    ensures
        final(st).wf(),
        final(st).same_except(old(st), Part::Sockets),
        match r {
            Some(id) => {
                &&& old(st).sockets.items@.len() < MAX_UNIX_SOCKETS
                &&& id == old(st).sockets.next_id
                &&& final(st).sockets.next_id == id + 1
                &&& sockets_view(final(st).sockets.items@) == sockets_view(old(st).sockets.items@).push(
                    fresh_socket(id, pid, 0))
                &&& final(st).counters == (IpcCounters { socket_ops: wrap_inc(old(st).counters.socket_ops), ..old(st).counters })
            },
            None => (old(st).sockets.items@.len() >= MAX_UNIX_SOCKETS || old(st).sockets.next_id == usize::MAX)
                && final(st).sockets == old(st).sockets && final(st).counters == old(st).counters,
        },
{
    let r = create_socket(st, pid, 0);
    if r.is_some() {
        st.counters.socket_ops = inc_wrapping(st.counters.socket_ops);
    }
    r
}

fn create_socket(st: &mut IpcExt, pid: usize, ns: usize) -> (r: Option<usize>)
    requires
        old(st).wf(),
    ensures
        final(st).wf(),
        final(st).same_except(old(st), Part::Sockets),
        final(st).counters == old(st).counters,
        match r {
            Some(id) => {
                &&& old(st).sockets.items@.len() < MAX_UNIX_SOCKETS
                &&& id == old(st).sockets.next_id
                &&& final(st).sockets.next_id == id + 1
                &&& sockets_view(final(st).sockets.items@) == sockets_view(old(st).sockets.items@).push(
                    fresh_socket(id, pid, ns))
                &&& final(st).sockets.items@.len() == old(st).sockets.items@.len() + 1
                &&& forall|j: int| 0 <= j < old(st).sockets.items@.len()
                    ==> #[trigger] final(st).sockets.items@[j] == old(st).sockets.items@[j]
                &&& final(st).sockets.items@.last().id == id
            },
            None => (old(st).sockets.items@.len() >= MAX_UNIX_SOCKETS || old(st).sockets.next_id == usize::MAX)
                && final(st).sockets == old(st).sockets,
        },
{
    if st.sockets.items.len() >= MAX_UNIX_SOCKETS || st.sockets.next_id == usize::MAX {
        return None;
    }
    let id = st.sockets.next_id;
    let sock = UnixSocket {
        id,
        address: String::new(),
        state: SocketState::Created,
        pid,
        peer_id: None,
        recv_buf: Vec::new(),
        backlog: Vec::new(),
        max_backlog: 16,
        namespace_id: ns,
    };
    proof {
        lemma_push_wf(st.sockets.items@, id, sock);
    }
    let ghost before = st.sockets.items@;
    st.sockets.next_id = id + 1;
    st.sockets.items.push(sock);
    proof {
        assert(sock.model().address =~= Seq::<char>::empty());
        assert(sock.model().recv_buf =~= Seq::<Seq<u8>>::empty());
        assert(sock.model().backlog =~= Seq::<usize>::empty());
        assert(sock.model() == fresh_socket(id, pid, ns));
        assert(sockets_view(st.sockets.items@) =~= sockets_view(before).push(sock.model()));
        assert forall|a: int, j: int| 0 <= a < st.sockets.items@.len() && 0 <= j < st.sockets.items@[a].backlog@.len()
            implies #[trigger] st.sockets.items@[a].backlog@[j] < st.sockets.next_id by {
            if a < before.len() {
                assert(st.sockets.items@[a] == before[a]);
            }
        }
    }
    Some(id)
}

/// Bind a freshly created socket to an address; false for an unknown id or
/// a socket that is not in the `Created` state.
pub fn socket_bind(st: &mut IpcExt, id: usize, address: &str) -> (r: bool)
    requires
        old(st).wf(),
    ensures
        final(st).wf(),
        final(st).same_except(old(st), Part::Sockets),
        final(st).counters == old(st).counters,
        final(st).sockets.next_id == old(st).sockets.next_id,
        ({
            let k = key_index(old(st).sockets.items@, id);
            let m = sockets_view(old(st).sockets.items@)[k];
            &&& r == (has_key(old(st).sockets.items@, id) && m.state == SocketState::Created)
            &&& r ==> sockets_view(final(st).sockets.items@) == sockets_view(old(st).sockets.items@).update(k,
                SocketModel { address: address@, state: SocketState::Bound, ..m })
        }),
        !r ==> final(st).sockets == old(st).sockets,
{
    let i = match find_key(&st.sockets.items, id) {
        Some(i) => i,
        None => return false,
    };
    proof {
        lemma_key_index(st.sockets.items@, st.sockets.next_id, i as int);
    }
    if st.sockets.items[i].state != SocketState::Created {
        return false;
    }
    let ghost before = st.sockets.items@;
    let ghost st0 = *st;
    let mut sock = st.sockets.items.remove(i);
    sock.address = string_of(address);
    sock.state = SocketState::Bound;
    proof {
        lemma_socket_update(&st0, i as int, sock);
    }
    put_socket(st, i, sock, Ghost(before));
    true
}

/// Start listening on a bound socket with the given backlog limit.
pub fn socket_listen(st: &mut IpcExt, id: usize, backlog: usize) -> (r: bool)
    requires
        old(st).wf(),
    ensures
        final(st).wf(),
        final(st).same_except(old(st), Part::Sockets),
        final(st).counters == old(st).counters,
        final(st).sockets.next_id == old(st).sockets.next_id,
        ({
            let k = key_index(old(st).sockets.items@, id);
            let m = sockets_view(old(st).sockets.items@)[k];
            &&& r == (has_key(old(st).sockets.items@, id) && m.state == SocketState::Bound)
            &&& r ==> sockets_view(final(st).sockets.items@) == sockets_view(old(st).sockets.items@).update(k,
                SocketModel { state: SocketState::Listening, max_backlog: backlog, ..m })
        }),
        !r ==> final(st).sockets == old(st).sockets,
{
    let i = match find_key(&st.sockets.items, id) {
        Some(i) => i,
        None => return false,
    };
    proof {
        lemma_key_index(st.sockets.items@, st.sockets.next_id, i as int);
    }
    if st.sockets.items[i].state != SocketState::Bound {
        return false;
    }
    let ghost before = st.sockets.items@;
    let ghost st0 = *st;
    let mut sock = st.sockets.items.remove(i);
    sock.state = SocketState::Listening;
    sock.max_backlog = backlog;
    proof {
        lemma_socket_update(&st0, i as int, sock);
    }
    put_socket(st, i, sock, Ghost(before));
    true
}

/// Whether `i` is the first bound or listening socket at `addr` in `ns`.
pub open spec fn first_at_address(s: Seq<SocketModel>, addr: Seq<char>, ns: usize, i: int) -> bool {
    &&& 0 <= i < s.len()
    &&& addr_match(s[i], addr, ns)
    &&& forall|j: int| 0 <= j < i ==> !addr_match(s[j], addr, ns)
}

pub open spec fn addr_match(m: SocketModel, addr: Seq<char>, ns: usize) -> bool {
    m.address == addr && m.namespace_id == ns && (m.state == SocketState::Bound || m.state == SocketState::Listening)
}

fn find_by_addr(st: &IpcExt, addr: &str, ns: usize) -> (r: Option<usize>)
    ensures
        match r {
            Some(i) => first_at_address(sockets_view(st.sockets.items@), addr@, ns, i as int),
            None => forall|j: int| 0 <= j < st.sockets.items@.len()
                ==> !addr_match(sockets_view(st.sockets.items@)[j], addr@, ns),
        },
{
    let n = st.sockets.items.len();
    let mut i: usize = 0;
    while i < n
        invariant
            n == st.sockets.items@.len(),
            i <= n,
            forall|j: int| 0 <= j < i ==> !addr_match(sockets_view(st.sockets.items@)[j], addr@, ns),
        decreases n - i,
    {
        let s = &st.sockets.items[i];
        assert(sockets_view(st.sockets.items@)[i as int] == s.model());
        if str_eq(s.address.as_str(), addr) && s.namespace_id == ns
            && (s.state == SocketState::Bound || s.state == SocketState::Listening) {
            return Some(i);
        }
        i = i + 1;
    }
    None
}

/// Connect socket `id` to the listening socket at `address` in its
/// namespace by queueing it on the listener's backlog. False when `id` is
/// unknown, the first bound or listening socket at that address is not
/// listening, or its backlog is full.
pub fn socket_connect(st: &mut IpcExt, id: usize, address: &str) -> (r: bool)
    requires
        old(st).wf(),
    ensures
        final(st).wf(),
        final(st).same_except(old(st), Part::Sockets),
        final(st).sockets.next_id == old(st).sockets.next_id,
        !has_key(old(st).sockets.items@, id) ==> !r,
        ({
            let v = sockets_view(old(st).sockets.items@);
            let ns = v[key_index(old(st).sockets.items@, id)].namespace_id;
            has_key(old(st).sockets.items@, id) ==> {
                &&& (forall|j: int| 0 <= j < v.len() ==> !addr_match(v[j], address@, ns)) ==> !r
                &&& forall|l: int| first_at_address(v, address@, ns, l) ==> {
                    &&& r == (v[l].state == SocketState::Listening && v[l].backlog.len() < v[l].max_backlog)
                    &&& r ==> sockets_view(final(st).sockets.items@) == v.update(l,
                        SocketModel { backlog: v[l].backlog.push(id), ..v[l] })
                }
            }
        }),
        r ==> final(st).counters == (IpcCounters { socket_ops: wrap_inc(old(st).counters.socket_ops), ..old(st).counters }),
        !r ==> final(st).sockets == old(st).sockets && final(st).counters == old(st).counters,
{
    let i = match find_key(&st.sockets.items, id) {
        Some(i) => i,
        None => return false,
    };
    proof {
        lemma_key_index(st.sockets.items@, st.sockets.next_id, i as int);
    }
    let ns = st.sockets.items[i].namespace_id;
    let l = match find_by_addr(st, address, ns) {
        Some(l) => l,
        None => return false,
    };
    if st.sockets.items[l].state != SocketState::Listening {
        return false;
    }
    if st.sockets.items[l].backlog.len() >= st.sockets.items[l].max_backlog {
        return false;
    }
    let ghost before = st.sockets.items@;
    let ghost st0 = *st;
    let mut listener = st.sockets.items.remove(l);
    listener.backlog.push(id);
    proof {
        assert(id < st0.sockets.next_id);
        assert forall|j: int| 0 <= j < listener.backlog@.len() implies #[trigger] listener.backlog@[j] < st0.sockets.next_id by {
            if j < before[l as int].backlog@.len() {
                assert(listener.backlog@[j] == before[l as int].backlog@[j]);
            }
        }
        lemma_socket_update(&st0, l as int, listener);
        assert forall|q: int| first_at_address(sockets_view(before), address@, ns, q) implies q == l by {
            if q < l {
                assert(!addr_match(sockets_view(before)[q], address@, ns));
            }
            if q > l {
                assert(!addr_match(sockets_view(before)[l as int], address@, ns));
            }
        }
        assert(listener.model().backlog =~= before[l as int].model().backlog.push(id));
    }
    put_socket(st, l, listener, Ghost(before));
    st.counters.socket_ops = inc_wrapping(st.counters.socket_ops);
    true
}

/// Accept the oldest pending connection on a listening socket: a new
/// socket of the listener's process and namespace is made and connected to
/// the pending one. The pending entry is taken off the backlog even when the
/// socket table is full (then the result is `None`).
pub fn socket_accept(st: &mut IpcExt, id: usize) -> (r: Option<usize>)
    requires
        old(st).wf(),
    ensures
        final(st).wf(),
        final(st).same_except(old(st), Part::Sockets),
        ({
            let s0 = old(st).sockets.items@;
            let v = sockets_view(s0);
            let k = key_index(s0, id);
            let l = v[k];
            if !(has_key(s0, id) && l.state == SocketState::Listening && l.backlog.len() > 0) {
                r is None && final(st).sockets == old(st).sockets && final(st).counters == old(st).counters
            } else {
                let c = l.backlog[0];
                let v1 = v.update(k, SocketModel { backlog: l.backlog.drop_first(), ..l });
                if s0.len() >= MAX_UNIX_SOCKETS || old(st).sockets.next_id == usize::MAX {
                    &&& r is None
                    &&& sockets_view(final(st).sockets.items@) == v1
                    &&& final(st).sockets.next_id == old(st).sockets.next_id
                    &&& final(st).counters == old(st).counters
                } else {
                    let sid = old(st).sockets.next_id;
                    let v2 = v1.push(SocketModel {
                        state: SocketState::Connected,
                        peer_id: Some(c),
                        ..fresh_socket(sid, l.pid, l.namespace_id)
                    });
                    let kc = key_index(s0, c);
                    &&& r == Some(sid)
                    &&& final(st).sockets.next_id == sid + 1
                    &&& sockets_view(final(st).sockets.items@) == (if has_key(s0, c) {
                        v2.update(kc, SocketModel { state: SocketState::Connected, peer_id: Some(sid), ..v2[kc] })
                    } else {
                        v2
                    })
                    &&& final(st).counters == (IpcCounters { socket_ops: wrap_inc(old(st).counters.socket_ops), ..old(st).counters })
                }
            }
        }),
{
    let i = match find_key(&st.sockets.items, id) {
        Some(i) => i,
        None => return None,
    };
    proof {
        lemma_key_index(st.sockets.items@, st.sockets.next_id, i as int);
    }
    if st.sockets.items[i].state != SocketState::Listening || st.sockets.items[i].backlog.len() == 0 {
        return None;
    }
    let ghost s0 = st.sockets.items@;
    let ghost st0 = *st;
    let mut listener = st.sockets.items.remove(i);
    let client_id = listener.backlog.remove(0);
    let pid = listener.pid;
    let ns = listener.namespace_id;
    proof {
        assert forall|j: int| 0 <= j < listener.backlog@.len() implies #[trigger] listener.backlog@[j] < st0.sockets.next_id by {
            assert(listener.backlog@[j] == s0[i as int].backlog@[j + 1]);
        }
        lemma_socket_update(&st0, i as int, listener);
        assert(listener.model().backlog =~= s0[i as int].model().backlog.drop_first());
        assert(client_id < st0.sockets.next_id);
    }
    put_socket(st, i, listener, Ghost(s0));
    let ghost st1 = *st;
    let ghost v1 = sockets_view(st.sockets.items@);
    let sid = match create_socket(st, pid, ns) {
        Some(sid) => sid,
        None => return None,
    };
    let ghost st2 = *st;
    // connect the new socket to the client
    let last = st.sockets.items.len() - 1;
    proof {
        lemma_key_index(st2.sockets.items@, st2.sockets.next_id, last as int);
    }
    let ghost b2 = st.sockets.items@;
    proof {
        assert(sockets_view(b2)[last as int] == b2[last as int].model());
        assert(sockets_view(b2)[last as int] == fresh_socket(sid, pid, ns));
    }
    let mut server = st.sockets.items.remove(last);
    server.state = SocketState::Connected;
    server.peer_id = Some(client_id);
    proof {
        lemma_socket_update(&st2, last as int, server);
    }
    put_socket(st, last, server, Ghost(b2));
    let ghost st3 = *st;
    let ghost v3 = sockets_view(st.sockets.items@);
    proof {
        assert(server.model() == SocketModel {
            state: SocketState::Connected,
            peer_id: Some(client_id),
            ..fresh_socket(sid, pid, ns)
        });
        assert(v3 =~= v1.push(server.model()));
        // the keys of st3 are those of s0 plus sid, at the same positions
        assert forall|q: int| 0 <= q < s0.len() implies #[trigger] st3.sockets.items@[q].id == s0[q].id by {
            assert(st3.sockets.items@[q] == st2.sockets.items@[q]);
            assert(st2.sockets.items@[q] == st1.sockets.items@[q]);
        }
    }
    match find_key(&st.sockets.items, client_id) {
        Some(kc) => {
            proof {
                lemma_key_index(st3.sockets.items@, st3.sockets.next_id, kc as int);
                assert(kc < s0.len()) by {
                    if kc == s0.len() {
                        assert(st3.sockets.items@[kc as int].id == sid);
                    }
                }
                assert(s0[kc as int].id == client_id);
                lemma_key_index(s0, st0.sockets.next_id, kc as int);
            }
            let ghost b3 = st.sockets.items@;
            let mut client = st.sockets.items.remove(kc);
            client.state = SocketState::Connected;
            client.peer_id = Some(sid);
            proof {
                lemma_socket_update(&st3, kc as int, client);
            }
            put_socket(st, kc, client, Ghost(b3));
        }
        None => {
            proof {
                if has_key(s0, client_id) {
                    let q = key_index(s0, client_id);
                    assert(st3.sockets.items@[q].id == client_id);
                }
            }
        }
    }
    st.counters.socket_ops = inc_wrapping(st.counters.socket_ops);
    Some(sid)
}

/// Send data through a connected socket to its peer's receive buffer.
/// False when the socket is unknown or not connected, or its peer is gone.
pub fn socket_send(st: &mut IpcExt, id: usize, data: &[u8]) -> (r: bool)
    requires
        old(st).wf(),
    ensures
        final(st).wf(),
        final(st).same_except(old(st), Part::Sockets),
        final(st).sockets.next_id == old(st).sockets.next_id,
        ({
            let s0 = old(st).sockets.items@;
            let v = sockets_view(s0);
            let m = v[key_index(s0, id)];
            let ok = has_key(s0, id) && m.state == SocketState::Connected && m.peer_id is Some
                && has_key(s0, m.peer_id->0);
            let kp = key_index(s0, m.peer_id->0);
            &&& r == ok
            &&& r ==> sockets_view(final(st).sockets.items@) == v.update(kp,
                SocketModel { recv_buf: v[kp].recv_buf.push(data@), ..v[kp] })
            &&& r ==> final(st).counters == (IpcCounters {
                messages_sent: wrap_inc(old(st).counters.messages_sent),
                ..old(st).counters
            })
        }),
        !r ==> final(st).sockets == old(st).sockets && final(st).counters == old(st).counters,
{
    let i = match find_key(&st.sockets.items, id) {
        Some(i) => i,
        None => return false,
    };
    proof {
        lemma_key_index(st.sockets.items@, st.sockets.next_id, i as int);
    }
    if st.sockets.items[i].state != SocketState::Connected {
        return false;
    }
    let peer = match st.sockets.items[i].peer_id {
        Some(p) => p,
        None => return false,
    };
    let kp = match find_key(&st.sockets.items, peer) {
        Some(kp) => kp,
        None => return false,
    };
    proof {
        lemma_key_index(st.sockets.items@, st.sockets.next_id, kp as int);
    }
    let ghost before = st.sockets.items@;
    let ghost st0 = *st;
    let mut p = st.sockets.items.remove(kp);
    p.recv_buf.push(vstd::slice::slice_to_vec(data));
    proof {
        lemma_socket_update(&st0, kp as int, p);
        assert(p.model().recv_buf =~= before[kp as int].model().recv_buf.push(data@));
    }
    put_socket(st, kp, p, Ghost(before));
    st.counters.messages_sent = inc_wrapping(st.counters.messages_sent);
    true
}

/// Take the oldest buffered message of a connected socket.
pub fn socket_recv(st: &mut IpcExt, id: usize) -> (r: Option<Vec<u8>>)
    requires
        old(st).wf(),
    ensures
        final(st).wf(),
        final(st).same_except(old(st), Part::Sockets),
        final(st).sockets.next_id == old(st).sockets.next_id,
        ({
            let s0 = old(st).sockets.items@;
            let v = sockets_view(s0);
            let k = key_index(s0, id);
            let m = v[k];
            if has_key(s0, id) && m.state == SocketState::Connected && m.recv_buf.len() > 0 {
                &&& r matches Some(d) && d@ == m.recv_buf[0]
                &&& sockets_view(final(st).sockets.items@) == v.update(k, SocketModel { recv_buf: m.recv_buf.drop_first(), ..m })
                &&& final(st).counters == (IpcCounters {
                    messages_received: wrap_inc(old(st).counters.messages_received),
                    ..old(st).counters
                })
            } else {
                r is None && final(st).sockets == old(st).sockets && final(st).counters == old(st).counters
            }
        }),
{
    let i = match find_key(&st.sockets.items, id) {
        Some(i) => i,
        None => return None,
    };
    proof {
        lemma_key_index(st.sockets.items@, st.sockets.next_id, i as int);
    }
    if st.sockets.items[i].state != SocketState::Connected || st.sockets.items[i].recv_buf.len() == 0 {
        return None;
    }
    let ghost before = st.sockets.items@;
    let ghost st0 = *st;
    let mut sock = st.sockets.items.remove(i);
    let d = sock.recv_buf.remove(0);
    proof {
        lemma_socket_update(&st0, i as int, sock);
        assert(sock.model().recv_buf =~= before[i as int].model().recv_buf.drop_first());
    }
    put_socket(st, i, sock, Ghost(before));
    st.counters.messages_received = inc_wrapping(st.counters.messages_received);
    Some(d)
}

/// Close a socket. False for an unknown id.
pub fn socket_close(st: &mut IpcExt, id: usize) -> (r: bool)
    requires
        old(st).wf(),
    ensures
        final(st).wf(),
        final(st).same_except(old(st), Part::Sockets),
        final(st).counters == old(st).counters,
        final(st).sockets.next_id == old(st).sockets.next_id,
        r == has_key(old(st).sockets.items@, id),
        r ==> final(st).sockets.items@ == old(st).sockets.items@.remove(key_index(old(st).sockets.items@, id)),
        !r ==> final(st).sockets.items@ == old(st).sockets.items@,
{
    let ghost s0 = st.sockets.items@;
    let r = remove_key(&mut st.sockets.items, Ghost(st.sockets.next_id), id);
    proof {
        if r {
            let k = key_index(s0, id);
            assert forall|a: int, j: int| 0 <= a < st.sockets.items@.len() && 0 <= j < st.sockets.items@[a].backlog@.len()
                implies #[trigger] st.sockets.items@[a].backlog@[j] < st.sockets.next_id by {
                let a2 = if a < k { a } else { a + 1 };
                assert(st.sockets.items@[a] == s0[a2]);
            }
        }
    }
    r
}

// ---------------------------------------------------------------------------
// Statistics and info
// ---------------------------------------------------------------------------

/// One line describing a message queue.
pub open spec fn mq_line(m: MqModel) -> Seq<char> {
    "mq '"@ + m.name + "': "@ + dec(m.messages.len()) + " pending, sent="@ + dec(m.total_sent as nat)
        + ", recv="@ + dec(m.total_received as nat) + "\n"@
}

/// The lines of all queues, each after `indent`.
pub open spec fn mq_lines(s: Seq<MqModel>, indent: Seq<char>) -> Seq<char>
    decreases s.len(),
{
    if s.len() == 0 {
        Seq::empty()
    } else {
        mq_lines(s.drop_last(), indent) + indent + mq_line(s.last())
    }
}

/// One line describing a semaphore.
pub open spec fn sem_line(m: SemModel) -> Seq<char> {
    "sem '"@ + m.name + "': val="@ + sdec(m.value as int) + ", waiters="@ + dec(m.waiters as nat)
        + ", waits="@ + dec(m.total_waits as nat) + ", posts="@ + dec(m.total_posts as nat) + "\n"@
}

/// The lines of all semaphores, each after `indent`.
pub open spec fn sem_lines(s: Seq<SemModel>, indent: Seq<char>) -> Seq<char>
    decreases s.len(),
{
    if s.len() == 0 {
        Seq::empty()
    } else {
        sem_lines(s.drop_last(), indent) + indent + sem_line(s.last())
    }
}

fn push_mq_lines(out: &mut String, qs: &Vec<MessageQueue>, indent: &str)
    ensures
        final(out)@ == old(out)@ + mq_lines(queues_view(qs@), indent@),
{
    let n = qs.len();
    let mut i: usize = 0;
    while i < n
        invariant
            n == qs@.len(),
            i <= n,
            out@ == old(out)@ + mq_lines(queues_view(qs@).subrange(0, i as int), indent@),
        decreases n - i,
    {
        let q = &qs[i];
        let ghost prefix = queues_view(qs@).subrange(0, i + 1);
        assert(prefix.drop_last() =~= queues_view(qs@).subrange(0, i as int));
        assert(prefix.last() == q.model());
        out.append(indent);
        out.append("mq '");
        out.append(q.name.as_str());
        out.append("': ");
        push_dec(out, q.messages.len() as u64);
        out.append(" pending, sent=");
        push_dec(out, q.total_sent);
        out.append(", recv=");
        push_dec(out, q.total_received);
        out.append("\n");
        i = i + 1;
        assert(out@ =~= old(out)@ + mq_lines(prefix, indent@));
    }
    assert(queues_view(qs@).subrange(0, n as int) =~= queues_view(qs@));
}

fn push_sem_lines(out: &mut String, ss: &Vec<Semaphore>, indent: &str)
    ensures
        final(out)@ == old(out)@ + sem_lines(sems_view(ss@), indent@),
{
    let n = ss.len();
    let mut i: usize = 0;
    while i < n
        invariant
            n == ss@.len(),
            i <= n,
            out@ == old(out)@ + sem_lines(sems_view(ss@).subrange(0, i as int), indent@),
        decreases n - i,
    {
        let q = &ss[i];
        let ghost prefix = sems_view(ss@).subrange(0, i + 1);
        assert(prefix.drop_last() =~= sems_view(ss@).subrange(0, i as int));
        assert(prefix.last() == q.model());
        out.append(indent);
        out.append("sem '");
        out.append(q.name.as_str());
        out.append("': val=");
        push_sdec(out, q.value as i64);
        out.append(", waiters=");
        push_dec(out, q.waiters as u64);
        out.append(", waits=");
        push_dec(out, q.total_waits);
        out.append(", posts=");
        push_dec(out, q.total_posts);
        out.append("\n");
        i = i + 1;
        assert(out@ =~= old(out)@ + sem_lines(prefix, indent@));
    }
    assert(sems_view(ss@).subrange(0, n as int) =~= sems_view(ss@));
}

/// The status report of the whole subsystem.
pub open spec fn ipc_ext_info_text(st: IpcExt) -> Seq<char> {
    "=== Extended IPC Status ===\n"@
        + "Unix sockets: "@ + dec(st.sockets.items@.len()) + "\n"@
        + "Message queues: "@ + dec(st.queues.items@.len()) + "\n"@
        + mq_lines(queues_view(st.queues.items@), "  "@)
        + "Semaphores: "@ + dec(st.sems.items@.len()) + "\n"@
        + sem_lines(sems_view(st.sems.items@), "  "@)
        + "Shared memory segments: "@ + dec(st.shm.items@.len()) + "\n"@
        + "Event FDs: "@ + dec(st.eventfds.items@.len()) + "\n"@
        + "Signal FDs: "@ + dec(st.signalfds.items@.len()) + "\n"@
        + "Timer FDs: "@ + dec(st.timerfds.items@.len()) + "\n"@
        + "Epoll instances: "@ + dec(st.epolls.items@.len()) + "\n"@
        + "IPC namespaces: "@ + dec(st.namespaces.items@.len()) + "\n"@
        + "Total messages sent: "@ + dec(st.counters.messages_sent as nat) + "\n"@
        + "Total messages received: "@ + dec(st.counters.messages_received as nat) + "\n"@
        + "Total semaphore ops: "@ + dec(st.counters.sem_ops as nat) + "\n"@
        + "Total socket ops: "@ + dec(st.counters.socket_ops as nat) + "\n"@
}

fn push_count_line(out: &mut String, label: &str, n: u64)
    ensures
        final(out)@ == old(out)@ + label@ + dec(n as nat) + "\n"@,
{
    out.append(label);
    push_dec(out, n);
    out.append("\n");
}

/// IPC statistics as text.
pub fn ipc_ext_info(st: &IpcExt) -> (out: String)
    ensures
        out@ == ipc_ext_info_text(*st),
{
    let mut out = string_of("=== Extended IPC Status ===\n");
    push_count_line(&mut out, "Unix sockets: ", st.sockets.items.len() as u64);
    push_count_line(&mut out, "Message queues: ", st.queues.items.len() as u64);
    push_mq_lines(&mut out, &st.queues.items, "  ");
    push_count_line(&mut out, "Semaphores: ", st.sems.items.len() as u64);
    push_sem_lines(&mut out, &st.sems.items, "  ");
    push_count_line(&mut out, "Shared memory segments: ", st.shm.items.len() as u64);
    push_count_line(&mut out, "Event FDs: ", st.eventfds.items.len() as u64);
    push_count_line(&mut out, "Signal FDs: ", st.signalfds.items.len() as u64);
    push_count_line(&mut out, "Timer FDs: ", st.timerfds.items.len() as u64);
    push_count_line(&mut out, "Epoll instances: ", st.epolls.items.len() as u64);
    push_count_line(&mut out, "IPC namespaces: ", st.namespaces.items.len() as u64);
    push_count_line(&mut out, "Total messages sent: ", st.counters.messages_sent);
    push_count_line(&mut out, "Total messages received: ", st.counters.messages_received);
    push_count_line(&mut out, "Total semaphore ops: ", st.counters.sem_ops);
    push_count_line(&mut out, "Total socket ops: ", st.counters.socket_ops);
    assert(out@ =~= ipc_ext_info_text(*st));
    out
}

/// One line per message queue, or `(no message queues)`.
pub fn mq_list_info(st: &IpcExt) -> (out: String)
    ensures
        out@ == if st.queues.items@.len() == 0 {
            "(no message queues)"@
        } else {
            mq_lines(queues_view(st.queues.items@), ""@)
        },
{
    if st.queues.items.len() == 0 {
        return string_of("(no message queues)");
    }
    let mut out = String::new();
    push_mq_lines(&mut out, &st.queues.items, "");
    assert(out@ =~= mq_lines(queues_view(st.queues.items@), ""@));
    out
}

/// One line per semaphore, or `(no semaphores)`.
pub fn sem_list_info(st: &IpcExt) -> (out: String)
    ensures
        out@ == if st.sems.items@.len() == 0 {
            "(no semaphores)"@
        } else {
            sem_lines(sems_view(st.sems.items@), ""@)
        },
{
    if st.sems.items.len() == 0 {
        return string_of("(no semaphores)");
    }
    let mut out = String::new();
    push_sem_lines(&mut out, &st.sems.items, "");
    assert(out@ =~= sem_lines(sems_view(st.sems.items@), ""@));
    out
}

/// Mark the subsystem initialised (once; later calls change nothing).
pub fn init(st: &mut IpcExt)
    ensures
        final(st).same_except(old(st), Part::Sockets),
        final(st).sockets == old(st).sockets,
        final(st).counters == (IpcCounters { initialized: true, ..old(st).counters }),
{
    st.counters.initialized = true;
}

// ---------------------------------------------------------------------------
// Laws
// ---------------------------------------------------------------------------

/// The messages of a queue ordered by priority, highest first.
pub open spec fn priority_sorted(s: Seq<(Seq<u8>, u32)>) -> bool {
    forall|i: int, j: int| 0 <= i <= j < s.len() ==> s[i].1 >= s[j].1
}

/// Queues serve the highest priority first and, within one priority, in
/// the order of sending: inserting where `mq_send` inserts keeps a queue
/// ordered, leaves every message of at least that priority ahead of the new
/// one, and the front that `mq_receive` takes has the highest priority;
/// taking it keeps the rest ordered.
pub proof fn law_mq_priority_order(s: Seq<(Seq<u8>, u32)>, data: Seq<u8>, p: u32, pos: int)
    requires
        priority_sorted(s),
        is_insert_pos(s, p, pos),
    ensures
        priority_sorted(s.insert(pos, (data, p))),
        s.insert(pos, (data, p))[pos] == (data, p),
        forall|j: int| 0 <= j < pos ==> s.insert(pos, (data, p))[j] == s[j],
        forall|j: int| 0 <= j < s.len() && s[j].1 >= p ==> j < pos,
        s.len() > 0 ==> forall|j: int| 0 <= j < s.len() ==> s[0].1 >= #[trigger] s[j].1,
        s.len() > 0 ==> priority_sorted(s.drop_first()),
{
    let t = s.insert(pos, (data, p));
    assert forall|i: int, j: int| 0 <= i <= j < t.len() implies t[i].1 >= t[j].1 by {
        if i < pos && j > pos {
            assert(t[j] == s[j - 1]);
        } else if i == pos && j > pos {
            assert(t[j] == s[j - 1]);
            assert(s[pos].1 >= s[j - 1].1);
        } else if i > pos {
            assert(t[i] == s[i - 1] && t[j] == s[j - 1]);
        }
    }
    assert forall|j: int| 0 <= j < s.len() && s[j].1 >= p implies j < pos by {
        if j >= pos {
            assert(s[pos].1 >= s[j].1);
        }
    }
    if s.len() > 0 {
        let d = s.drop_first();
        assert forall|i: int, j: int| 0 <= i <= j < d.len() implies d[i].1 >= d[j].1 by {
            assert(d[i] == s[i + 1] && d[j] == s[j + 1]);
        }
    }
}

/// A message sent to an empty queue is the next one received.
pub proof fn law_mq_send_to_empty_then_receive(data: Seq<u8>, p: u32, pos: int)
    requires
        is_insert_pos(Seq::<(Seq<u8>, u32)>::empty(), p, pos),
    ensures
        pos == 0,
        Seq::<(Seq<u8>, u32)>::empty().insert(pos, (data, p))[0] == (data, p),
        Seq::<(Seq<u8>, u32)>::empty().insert(pos, (data, p)).drop_first().len() == 0,
{
}

/// A post followed by a successful try-wait gives the semaphore its value
/// back, for every value a post does not wrap.
pub proof fn law_sem_post_then_trywait(v: i32)
    requires
        0 <= v < i32::MAX,
    ensures
        wrap_inc_i32(v) > 0,
        wrap_inc_i32(v) - 1 == v,
{
}

/// Writes add up (stopping at the largest `u64`), and a read in normal
/// mode then takes the whole sum and leaves zero; in semaphore mode it
/// takes 1 and leaves the rest.
pub proof fn law_eventfd_write_then_read(f: EventFd, a: u64, b: u64)
    requires
        f.counter == 0,
    ensures
        ({
            let g = eventfd_written(eventfd_written(f, a), b);
            let sum = if a + b > u64::MAX { u64::MAX as int } else { a + b };
            let (h, v) = eventfd_after_read(g);
            &&& g.counter == sum
            &&& sum == 0 ==> v is None && h == g
            &&& sum > 0 && !f.semaphore_mode ==> v == Some(sum as u64) && h.counter == 0
            &&& sum > 0 && f.semaphore_mode ==> v == Some(1u64) && h.counter == sum - 1
        }),
{
}

/// Signals delivered to a signalfd that watches them are read back in the
/// order they were delivered, and then nothing is pending.
pub proof fn law_signalfd_deliver_then_read(m: SignalFdModel, pid: usize, s1: u32, s2: u32)
    requires
        m.pending.len() == 0,
        watches(m, pid, s1),
        watches(m, pid, s2),
    ensures
        ({
            let d = signalfd_delivered(signalfd_delivered(m, pid, s1), pid, s2);
            let (r1, a) = signalfd_after_read(d);
            let (r2, b) = signalfd_after_read(r1);
            let (r3, c) = signalfd_after_read(r2);
            &&& a == Some(s1) && b == Some(s2) && c is None
            &&& r3.pending.len() == 0
        }),
{
    let d = signalfd_delivered(signalfd_delivered(m, pid, s1), pid, s2);
    assert(d.pending =~= seq![s1, s2]);
    assert(d.pending.drop_first() =~= seq![s2]);
    assert(d.pending.drop_first().drop_first() =~= Seq::<u32>::empty());
}

/// A descriptor added to an epoll instance with at least one event is
/// reported ready with its first event, after those registered before; and
/// removing it again gives back the instance's earlier entries.
pub proof fn law_epoll_add_wait_remove(e: Seq<(usize, Seq<EpollEvent>)>, fd: usize, evs: Seq<EpollEvent>, p: int)
    requires
        !watches_fd(e, fd),
        evs.len() > 0,
        first_entry_for(e.push((fd, evs)), fd, p),
    ensures
        ready_list(e.push((fd, evs))) == ready_list(e).push((fd, evs[0])),
        p == e.len(),
        e.push((fd, evs)).remove(p) == e,
{
    assert(e.push((fd, evs)).drop_last() =~= e);
    if p < e.len() {
        assert(e.push((fd, evs))[p] == e[p]);
        assert(watches_fd(e, fd));
    }
    assert(e.push((fd, evs)).remove(p) =~= e);
}

} // verus!
