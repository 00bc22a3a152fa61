//! Microkernel mode: services run as isolated servers that talk through
//! per-service message queues, with fault handling and hot restart.
//! Time comes in as a tick count from the caller.
use vstd::prelude::*;
use vstd::string::*;
use crate::libc::{wrap_inc, inc_wrapping};
use crate::text::{string_of, push_dec, dec, u128_to_dec, push_padded, push_dec_padded, pad_right};

verus! {

pub const MAX_SERVICES: usize = 32;
pub const MAX_QUEUE_LEN: usize = 64;

/// The kind of a service.
#[derive(PartialEq, Eq, Structural, Clone, Copy, Debug)]
pub enum ServiceType {
    Driver,
    Filesystem,
    Network,
    Security,
    Logger,
    Custom,
}

/// Lifecycle state of a service.
#[derive(PartialEq, Eq, Structural, Clone, Copy, Debug)]
pub enum ServiceState {
    Stopped,
    Starting,
    Running,
    Crashed,
    Restarting,
}

/// A service (server process).
pub struct Service {
    pub id: u32,
    pub name: String,
    pub service_type: ServiceType,
    pub state: ServiceState,
    pub pid: usize,
    pub restart_count: u32,
    pub max_restarts: u32,
    pub started_tick: u64,
    pub crashed_tick: u64,
    pub messages_sent: u64,
    pub messages_received: u64,
    pub faults: u32,
    pub dependencies: Vec<u32>,
}

/// A service as plain values.
pub struct ServiceModel {
    pub id: u32,
    pub name: Seq<char>,
    pub service_type: ServiceType,
    pub state: ServiceState,
    pub pid: usize,
    pub restart_count: u32,
    pub max_restarts: u32,
    pub started_tick: u64,
    pub crashed_tick: u64,
    pub messages_sent: u64,
    pub messages_received: u64,
    pub faults: u32,
    pub dependencies: Seq<u32>,
}

impl Service {
    pub open spec fn model(&self) -> ServiceModel {
        ServiceModel {
            id: self.id,
            name: self.name@,
            service_type: self.service_type,
            state: self.state,
            pid: self.pid,
            restart_count: self.restart_count,
            max_restarts: self.max_restarts,
            started_tick: self.started_tick,
            crashed_tick: self.crashed_tick,
            messages_sent: self.messages_sent,
            messages_received: self.messages_received,
            faults: self.faults,
            dependencies: self.dependencies@,
        }
    }
}

/// Message type.
#[derive(PartialEq, Eq, Structural, Clone, Copy, Debug)]
pub enum MsgType {
    Request,
    Response,
    Notification,
    Error,
}

/// A message between services.
pub struct IpcMessage {
    pub id: u64,
    pub from_service: u32,
    pub to_service: u32,
    pub msg_type: MsgType,
    pub payload: Vec<u8>,
    pub timestamp: u64,
    pub reply_to: Option<u64>,
}

/// A message as plain values.
pub struct MessageModel {
    pub id: u64,
    pub from_service: u32,
    pub to_service: u32,
    pub msg_type: MsgType,
    pub payload: Seq<u8>,
    pub timestamp: u64,
    pub reply_to: Option<u64>,
}

impl IpcMessage {
    pub open spec fn model(&self) -> MessageModel {
        MessageModel {
            id: self.id,
            from_service: self.from_service,
            to_service: self.to_service,
            msg_type: self.msg_type,
            payload: self.payload@,
            timestamp: self.timestamp,
            reply_to: self.reply_to,
        }
    }
}

/// A service's mailbox.
pub struct Mailbox {
    pub service: u32,
    pub messages: Vec<IpcMessage>,
}

pub open spec fn mailbox_model(m: Mailbox) -> (u32, Seq<MessageModel>) {
    (m.service, m.messages@.map_values(|x: IpcMessage| x.model()))
}

/// The subsystem state.
pub struct Microkernel {
    pub mode: bool,
    pub next_service_id: u64,
    pub next_msg_id: u64,
    pub total_messages: u64,
    pub total_faults: u64,
    pub total_restarts: u64,
    pub services: Vec<Service>,
    pub queues: Vec<Mailbox>,
}

/// The counters and switches of the subsystem.
pub struct Counters {
    pub mode: bool,
    pub next_service_id: u64,
    pub next_msg_id: u64,
    pub total_messages: u64,
    pub total_faults: u64,
    pub total_restarts: u64,
}

impl Microkernel {
    pub open spec fn counters(&self) -> Counters {
        Counters {
            mode: self.mode,
            next_service_id: self.next_service_id,
            next_msg_id: self.next_msg_id,
            total_messages: self.total_messages,
            total_faults: self.total_faults,
            total_restarts: self.total_restarts,
        }
    }

    pub open spec fn svcs(&self) -> Seq<ServiceModel> {
        self.services@.map_values(|s: Service| s.model())
    }

    pub open spec fn boxes(&self) -> Seq<(u32, Seq<MessageModel>)> {
        self.queues@.map_values(|m: Mailbox| mailbox_model(m))
    }

    /// At most `MAX_SERVICES` services are registered.
    pub open spec fn wf(&self) -> bool {
        self.services@.len() <= MAX_SERVICES
    }

    /// Monolithic mode, no services, counters at their start values.
    pub fn new() -> (k: Self)
        ensures
            k.wf(),
            k.counters() == (Counters {
                mode: false, next_service_id: 1, next_msg_id: 1, total_messages: 0, total_faults: 0, total_restarts: 0 }),
            k.svcs().len() == 0,
            k.boxes().len() == 0,
    {
        Microkernel {
            mode: false,
            next_service_id: 1,
            next_msg_id: 1,
            total_messages: 0,
            total_faults: 0,
            total_restarts: 0,
            services: Vec::new(),
            queues: Vec::new(),
        }
    }
}

/// Enable microkernel mode.
pub fn enable_microkernel_mode(k: &mut Microkernel)
    ensures
        final(k).counters() == (Counters { mode: true, ..old(k).counters() }),
        final(k).services@ == old(k).services@,
        final(k).queues@ == old(k).queues@,
{
    k.mode = true;
}

/// Disable microkernel mode (back to monolithic).
pub fn disable_microkernel_mode(k: &mut Microkernel)
    ensures
        final(k).counters() == (Counters { mode: false, ..old(k).counters() }),
        final(k).services@ == old(k).services@,
        final(k).queues@ == old(k).queues@,
{
    k.mode = false;
}

/// Whether microkernel mode is on.
pub fn is_microkernel_mode(k: &Microkernel) -> (r: bool)
    ensures
        r == k.mode,
{
    k.mode
}

// ---------------------------------------------------------------------------
// Registry
// ---------------------------------------------------------------------------

/// Index of the first service from `j` on with id `id`, or the length.
pub open spec fn svc_index(s: Seq<ServiceModel>, id: u32, j: int) -> int
    decreases s.len() - j,
{
    if j < 0 || j >= s.len() {
        s.len() as int
    } else if s[j].id == id {
        j
    } else {
        svc_index(s, id, j + 1)
    }
}

/// Index of the first mailbox from `j` on of service `id`, or the length.
pub open spec fn box_index(s: Seq<(u32, Seq<MessageModel>)>, id: u32, j: int) -> int
    decreases s.len() - j,
{
    if j < 0 || j >= s.len() {
        s.len() as int
    } else if s[j].0 == id {
        j
    } else {
        box_index(s, id, j + 1)
    }
}

fn find_service(k: &Microkernel, id: u32) -> (r: usize)
    ensures
        r == svc_index(k.svcs(), id, 0),
        r <= k.services@.len(),
{
    let n = k.services.len();
    let mut i: usize = 0;
    while i < n
        invariant
            n == k.services@.len(),
            n == k.svcs().len(),
            i <= n,
            svc_index(k.svcs(), id, 0) == svc_index(k.svcs(), id, i as int),
        decreases n - i,
    {
        assert(k.svcs()[i as int].id == k.services@[i as int].id);
        if k.services[i].id == id {
            return i;
        }
        i = i + 1;
    }
    n
}

fn find_box(k: &Microkernel, id: u32) -> (r: usize)
    ensures
        r == box_index(k.boxes(), id, 0),
        r <= k.queues@.len(),
{
    let n = k.queues.len();
    let mut i: usize = 0;
    while i < n
        invariant
            n == k.queues@.len(),
            n == k.boxes().len(),
            i <= n,
            box_index(k.boxes(), id, 0) == box_index(k.boxes(), id, i as int),
        decreases n - i,
    {
        assert(k.boxes()[i as int].0 == k.queues@[i as int].service);
        if k.queues[i].service == id {
            return i;
        }
        i = i + 1;
    }
    n
}

/// A service as `register_service` makes it.
pub open spec fn new_service(id: u32, name: Seq<char>, stype: ServiceType, max_restarts: u32) -> ServiceModel {
    ServiceModel {
        id,
        name,
        service_type: stype,
        state: ServiceState::Stopped,
        pid: 0,
        restart_count: 0,
        max_restarts,
        started_tick: 0,
        crashed_tick: 0,
        messages_sent: 0,
        messages_received: 0,
        faults: 0,
        dependencies: Seq::empty(),
    }
}

/// Register a service; its id is the low 32 bits of the service counter.
/// The service is kept only while fewer than `MAX_SERVICES` are
/// registered; its mailbox is always made.
pub fn register_service(k: &mut Microkernel, name: &str, stype: ServiceType, max_restarts: u32) -> (id: u32)
    requires
        old(k).wf(),
    ensures
        final(k).wf(),
        id == old(k).next_service_id as u32,
        final(k).counters() == (Counters { next_service_id: wrap_inc(old(k).next_service_id), ..old(k).counters() }),
        final(k).svcs() == if old(k).services@.len() < MAX_SERVICES {
            old(k).svcs().push(new_service(id, name@, stype, max_restarts))
        } else {
            old(k).svcs()
        },
        final(k).boxes() == old(k).boxes().push((id, Seq::empty())),
{
    let id = k.next_service_id as u32;
    k.next_service_id = inc_wrapping(k.next_service_id);
    let svc = Service {
        id,
        name: string_of(name),
        service_type: stype,
        state: ServiceState::Stopped,
        pid: 0,
        restart_count: 0,
        max_restarts,
        started_tick: 0,
        crashed_tick: 0,
        messages_sent: 0,
        messages_received: 0,
        faults: 0,
        dependencies: Vec::new(),
    };
    let ghost s0 = k.svcs();
    let ghost b0 = k.boxes();
    if k.services.len() < MAX_SERVICES {
        k.services.push(svc);
        assert(svc.model().dependencies =~= Seq::<u32>::empty());
        assert(k.svcs() =~= s0.push(new_service(id, name@, stype, max_restarts)));
    }
    let mb = Mailbox { service: id, messages: Vec::new() };
    k.queues.push(mb);
    assert(mailbox_model(mb).1 =~= Seq::<MessageModel>::empty());
    assert(k.boxes() =~= b0.push((id, Seq::empty())));
    id
}

/// `s` without the services whose id is `id`.
pub open spec fn without_service(s: Seq<ServiceModel>, id: u32) -> Seq<ServiceModel>
    decreases s.len(),
{
    if s.len() == 0 {
        s
    } else {
        let rest = without_service(s.drop_last(), id);
        if s.last().id == id { rest } else { rest.push(s.last()) }
    }
}

/// `s` without the mailboxes of service `id`.
pub open spec fn without_box(s: Seq<(u32, Seq<MessageModel>)>, id: u32) -> Seq<(u32, Seq<MessageModel>)>
    decreases s.len(),
{
    if s.len() == 0 {
        s
    } else {
        let rest = without_box(s.drop_last(), id);
        if s.last().0 == id { rest } else { rest.push(s.last()) }
    }
}

/// Remove every service and mailbox with the given id.
pub fn unregister_service(k: &mut Microkernel, id: u32)
    requires
        old(k).wf(),
    ensures
        final(k).wf(),
        final(k).counters() == old(k).counters(),
        final(k).svcs() == without_service(old(k).svcs(), id),
        final(k).boxes() == without_box(old(k).boxes(), id),
{
    let mut services: Vec<Service> = Vec::new();
    let ghost s0 = k.svcs();
    while k.services.len() > 0
        invariant
            s0 == old(k).svcs(),
            k.queues@ == old(k).queues@,
            k.counters() == old(k).counters(),
            k.services@.len() + services@.len() <= s0.len(),
            without_service(s0, id) == without_service(k.svcs(), id) + services@.map_values(|s: Service| s.model()),
            s0.len() <= MAX_SERVICES,
        decreases k.services@.len(),
    {
        let ghost before = k.svcs();
        let ghost acc = services@.map_values(|s: Service| s.model());
        let svc = k.services.pop().unwrap();
        assert(before.drop_last() =~= k.svcs());
        assert(before.last() == svc.model());
        if svc.id != id {
            assert(without_service(before, id) == without_service(k.svcs(), id).push(svc.model()));
            services.insert(0, svc);
            assert(services@.map_values(|s: Service| s.model()) =~= seq![svc.model()] + acc);
            assert(without_service(k.svcs(), id).push(svc.model()) + acc
                =~= without_service(k.svcs(), id) + (seq![svc.model()] + acc));
        } else {
            assert(without_service(before, id) == without_service(k.svcs(), id));
        }
    }
    assert(k.svcs() =~= Seq::<ServiceModel>::empty());
    assert(without_service(k.svcs(), id) =~= Seq::<ServiceModel>::empty());
    k.services = services;
    assert(without_service(s0, id) =~= k.svcs());
    let mut queues: Vec<Mailbox> = Vec::new();
    let ghost b0 = k.boxes();
    let ghost s1 = k.svcs();
    while k.queues.len() > 0
        invariant
            b0 == old(k).boxes(),
            s1 == without_service(old(k).svcs(), id),
            k.svcs() == s1,
            k.wf(),
            k.counters() == old(k).counters(),
            without_box(b0, id) == without_box(k.boxes(), id) + queues@.map_values(|m: Mailbox| mailbox_model(m)),
        decreases k.queues@.len(),
    {
        let ghost before = k.boxes();
        let ghost acc = queues@.map_values(|m: Mailbox| mailbox_model(m));
        let mb = k.queues.pop().unwrap();
        assert(before.drop_last() =~= k.boxes());
        assert(before.last() == mailbox_model(mb));
        if mb.service != id {
            assert(without_box(before, id) == without_box(k.boxes(), id).push(mailbox_model(mb)));
            queues.insert(0, mb);
            assert(queues@.map_values(|m: Mailbox| mailbox_model(m)) =~= seq![mailbox_model(mb)] + acc);
            assert(without_box(k.boxes(), id).push(mailbox_model(mb)) + acc
                =~= without_box(k.boxes(), id) + (seq![mailbox_model(mb)] + acc));
        } else {
            assert(without_box(before, id) == without_box(k.boxes(), id));
        }
    }
    assert(k.boxes() =~= Seq::<(u32, Seq<MessageModel>)>::empty());
    assert(without_box(k.boxes(), id) =~= Seq::<(u32, Seq<MessageModel>)>::empty());
    k.queues = queues;
    assert(without_box(b0, id) =~= k.boxes());
}

// ---------------------------------------------------------------------------
// Lifecycle
// ---------------------------------------------------------------------------

/// `x + 1`, wrapping at `u32::MAX`.
pub open spec fn wrap_inc32(x: u32) -> u32 {
    if x == u32::MAX { 0 } else { (x + 1) as u32 }
}

fn inc32(x: u32) -> (r: u32)
    ensures
        r == wrap_inc32(x),
{
    if x == u32::MAX { 0 } else { x + 1 }
}

fn take_service(k: &mut Microkernel, i: usize) -> (svc: Service)
    requires
        i < old(k).services@.len(),
    ensures
        svc == old(k).services@[i as int],
        final(k).services@ == old(k).services@.remove(i as int),
        final(k).queues@ == old(k).queues@,
        final(k).counters() == old(k).counters(),
{
    k.services.remove(i)
}

fn put_service(k: &mut Microkernel, i: usize, svc: Service)
    requires
        i <= old(k).services@.len(),
    ensures
        final(k).services@ == old(k).services@.insert(i as int, svc),
        final(k).queues@ == old(k).queues@,
        final(k).counters() == old(k).counters(),
{
    k.services.insert(i, svc);
}

proof fn lemma_put_back(s: Seq<Service>, i: int, x: Service)
    requires
        0 <= i < s.len(),
    ensures
        s.remove(i).insert(i, x).map_values(|v: Service| v.model())
            == s.map_values(|v: Service| v.model()).update(i, x.model()),
        s.remove(i).insert(i, x).len() == s.len(),
{
    assert(s.remove(i).insert(i, x) =~= s.update(i, x));
    assert(s.update(i, x).map_values(|v: Service| v.model())
        =~= s.map_values(|v: Service| v.model()).update(i, x.model()));
}

/// What `start_service` does to the registry, or the error it reports.
pub open spec fn start_result(s: Seq<ServiceModel>, id: u32, now: u64) -> Result<Seq<ServiceModel>, Seq<char>> {
    let i = svc_index(s, id, 0);
    if i >= s.len() {
        Err("service not found"@)
    } else if s[i].state == ServiceState::Running {
        Err("service already running"@)
    } else if s[i].state == ServiceState::Starting {
        Err("service is starting"@)
    } else {
        Ok(s.update(i, ServiceModel { state: ServiceState::Running, started_tick: now, pid: id as usize, ..s[i] }))
    }
}

/// Start a service at tick `now`: it becomes `Running` with its id as pid.
pub fn start_service(k: &mut Microkernel, id: u32, now: u64) -> (r: Result<(), &'static str>)
    requires
        old(k).wf(),
    ensures
        final(k).wf(),
        final(k).counters() == old(k).counters(),
        final(k).queues@ == old(k).queues@,
        match start_result(old(k).svcs(), id, now) {
            Ok(s) => r is Ok && final(k).svcs() == s,
            Err(e) => r matches Err(m) && m@ == e && final(k).svcs() == old(k).svcs(),
        },
{
    let i = find_service(k, id);
    if i >= k.services.len() {
        return Err("service not found");
    }
    assert(k.svcs()[i as int].state == k.services@[i as int].state);
    match k.services[i].state {
        ServiceState::Running => return Err("service already running"),
        ServiceState::Starting => return Err("service is starting"),
        _ => {},
    }
    let ghost before = k.services@;
    let mut svc = take_service(k, i);
    svc.state = ServiceState::Running;
    svc.started_tick = now;
    svc.pid = id as usize;
    put_service(k, i, svc);
    proof {
        lemma_put_back(before, i as int, svc);
    }
    Ok(())
}

/// What `stop_service` does to the registry, or the error it reports.
pub open spec fn stop_result(s: Seq<ServiceModel>, id: u32) -> Result<Seq<ServiceModel>, Seq<char>> {
    let i = svc_index(s, id, 0);
    if i >= s.len() {
        Err("service not found"@)
    } else if s[i].state == ServiceState::Stopped {
        Err("service already stopped"@)
    } else {
        Ok(s.update(i, ServiceModel { state: ServiceState::Stopped, pid: 0, ..s[i] }))
    }
}

/// Stop a service that is not stopped; its pid goes back to 0.
pub fn stop_service(k: &mut Microkernel, id: u32) -> (r: Result<(), &'static str>)
    requires
        old(k).wf(),
    ensures
        final(k).wf(),
        final(k).counters() == old(k).counters(),
        final(k).queues@ == old(k).queues@,
        match stop_result(old(k).svcs(), id) {
            Ok(s) => r is Ok && final(k).svcs() == s,
            Err(e) => r matches Err(m) && m@ == e && final(k).svcs() == old(k).svcs(),
        },
{
    let i = find_service(k, id);
    if i >= k.services.len() {
        return Err("service not found");
    }
    assert(k.svcs()[i as int].state == k.services@[i as int].state);
    if k.services[i].state == ServiceState::Stopped {
        return Err("service already stopped");
    }
    let ghost before = k.services@;
    let mut svc = take_service(k, i);
    svc.state = ServiceState::Stopped;
    svc.pid = 0;
    put_service(k, i, svc);
    proof {
        lemma_put_back(before, i as int, svc);
    }
    Ok(())
}

/// What `add_dependency` does to the registry, or the error it reports.
pub open spec fn dependency_result(s: Seq<ServiceModel>, id: u32, dep: u32) -> Result<Seq<ServiceModel>, Seq<char>> {
    let i = svc_index(s, id, 0);
    if i >= s.len() {
        Err("service not found"@)
    } else if s[i].dependencies.contains(dep) {
        Ok(s)
    } else {
        Ok(s.update(i, ServiceModel { dependencies: s[i].dependencies.push(dep), ..s[i] }))
    }
}

fn vec_contains(v: &Vec<u32>, x: u32) -> (r: bool)
    ensures
        r == v@.contains(x),
{
    let mut i: usize = 0;
    while i < v.len()
        invariant
            i <= v@.len(),
            forall|j: int| 0 <= j < i ==> v@[j] != x,
        decreases v@.len() - i,
    {
        if v[i] == x {
            return true;
        }
        i = i + 1;
    }
    false
}

/// Record that `service_id` depends on `dependency_id` (once).
pub fn add_dependency(k: &mut Microkernel, service_id: u32, dependency_id: u32) -> (r: Result<(), &'static str>)
    requires
        old(k).wf(),
    ensures
        final(k).wf(),
        final(k).counters() == old(k).counters(),
        final(k).queues@ == old(k).queues@,
        match dependency_result(old(k).svcs(), service_id, dependency_id) {
            Ok(s) => r is Ok && final(k).svcs() == s,
            Err(e) => r matches Err(m) && m@ == e && final(k).svcs() == old(k).svcs(),
        },
{
    let i = find_service(k, service_id);
    if i >= k.services.len() {
        return Err("service not found");
    }
    assert(k.svcs()[i as int].dependencies == k.services@[i as int].dependencies@);
    if vec_contains(&k.services[i].dependencies, dependency_id) {
        return Ok(());
    }
    let ghost before = k.services@;
    let mut svc = take_service(k, i);
    svc.dependencies.push(dependency_id);
    put_service(k, i, svc);
    proof {
        lemma_put_back(before, i as int, svc);
    }
    Ok(())
}

/// What `restart_service` does to the registry, or the error it reports.
pub open spec fn restart_result(s: Seq<ServiceModel>, id: u32, now: u64) -> Result<Seq<ServiceModel>, Seq<char>> {
    let i = svc_index(s, id, 0);
    if i >= s.len() {
        Err("service not found"@)
    } else if s[i].state == ServiceState::Running {
        Err("service is already running"@)
    } else if s[i].state == ServiceState::Starting || s[i].state == ServiceState::Restarting {
        Err("service is already starting"@)
    } else {
        Ok(s.update(i, ServiceModel {
            state: ServiceState::Running,
            restart_count: wrap_inc32(s[i].restart_count),
            started_tick: now,
            pid: s[i].id as usize,
            ..s[i]
        }))
    }
}

/// Hot-restart a crashed or stopped service at tick `now`; the restart
/// counters wrap around.
pub fn restart_service(k: &mut Microkernel, service_id: u32, now: u64) -> (r: Result<(), &'static str>)
    requires
        old(k).wf(),
    ensures
        final(k).wf(),
        final(k).queues@ == old(k).queues@,
        match restart_result(old(k).svcs(), service_id, now) {
            Ok(s) => r is Ok && final(k).svcs() == s
                && final(k).counters() == (Counters { total_restarts: wrap_inc(old(k).total_restarts), ..old(k).counters() }),
            Err(e) => r matches Err(m) && m@ == e && final(k).svcs() == old(k).svcs()
                && final(k).counters() == old(k).counters(),
        },
{
    let i = find_service(k, service_id);
    if i >= k.services.len() {
        return Err("service not found");
    }
    assert(k.svcs()[i as int].state == k.services@[i as int].state);
    match k.services[i].state {
        ServiceState::Running => return Err("service is already running"),
        ServiceState::Starting | ServiceState::Restarting => return Err("service is already starting"),
        _ => {},
    }
    let ghost before = k.services@;
    let mut svc = take_service(k, i);
    svc.state = ServiceState::Running;
    svc.restart_count = inc32(svc.restart_count);
    svc.started_tick = now;
    svc.pid = svc.id as usize;
    put_service(k, i, svc);
    proof {
        lemma_put_back(before, i as int, svc);
    }
    k.total_restarts = inc_wrapping(k.total_restarts);
    Ok(())
}

/// Lower-case name of a service type.
pub open spec fn service_type_name(t: ServiceType) -> Seq<char> {
    match t {
        ServiceType::Driver => "driver"@,
        ServiceType::Filesystem => "filesystem"@,
        ServiceType::Network => "network"@,
        ServiceType::Security => "security"@,
        ServiceType::Logger => "logger"@,
        ServiceType::Custom => "custom"@,
    }
}

/// Lower-case name of a service state.
pub open spec fn service_state_name(s: ServiceState) -> Seq<char> {
    match s {
        ServiceState::Stopped => "stopped"@,
        ServiceState::Starting => "starting"@,
        ServiceState::Running => "running"@,
        ServiceState::Crashed => "crashed"@,
        ServiceState::Restarting => "restarting"@,
    }
}

/// Lower-case name of a service type.
pub fn type_str(t: ServiceType) -> (r: &'static str)
    ensures
        r@ == service_type_name(t),
{
    match t {
        ServiceType::Driver => "driver",
        ServiceType::Filesystem => "filesystem",
        ServiceType::Network => "network",
        ServiceType::Security => "security",
        ServiceType::Logger => "logger",
        ServiceType::Custom => "custom",
    }
}

/// Lower-case name of a service state.
pub fn state_str(s: ServiceState) -> (r: &'static str)
    ensures
        r@ == service_state_name(s),
{
    match s {
        ServiceState::Stopped => "stopped",
        ServiceState::Starting => "starting",
        ServiceState::Running => "running",
        ServiceState::Crashed => "crashed",
        ServiceState::Restarting => "restarting",
    }
}

// ---------------------------------------------------------------------------
// Message passing
// ---------------------------------------------------------------------------

/// The mailboxes after `m` is queued for service `to`: into its first
/// mailbox, unless that one already holds `MAX_QUEUE_LEN` messages (then
/// the message is dropped), and nowhere when `to` has no mailbox.
pub open spec fn enqueue(b: Seq<(u32, Seq<MessageModel>)>, to: u32, m: MessageModel) -> Seq<(u32, Seq<MessageModel>)> {
    let i = box_index(b, to, 0);
    if i < b.len() && b[i].1.len() < MAX_QUEUE_LEN {
        b.update(i, (b[i].0, b[i].1.push(m)))
    } else {
        b
    }
}

/// The registry after the first service with id `id` counts a sent message.
pub open spec fn bump_sent(s: Seq<ServiceModel>, id: u32) -> Seq<ServiceModel> {
    let i = svc_index(s, id, 0);
    if i < s.len() {
        s.update(i, ServiceModel { messages_sent: wrap_inc(s[i].messages_sent), ..s[i] })
    } else {
        s
    }
}

/// The registry after the first service with id `id` counts a received message.
pub open spec fn bump_received(s: Seq<ServiceModel>, id: u32) -> Seq<ServiceModel> {
    let i = svc_index(s, id, 0);
    if i < s.len() {
        s.update(i, ServiceModel { messages_received: wrap_inc(s[i].messages_received), ..s[i] })
    } else {
        s
    }
}

fn take_box(k: &mut Microkernel, i: usize) -> (mb: Mailbox)
    requires
        i < old(k).queues@.len(),
    ensures
        mb == old(k).queues@[i as int],
        final(k).queues@ == old(k).queues@.remove(i as int),
        final(k).services@ == old(k).services@,
        final(k).counters() == old(k).counters(),
{
    k.queues.remove(i)
}

fn put_box(k: &mut Microkernel, i: usize, mb: Mailbox)
    requires
        i <= old(k).queues@.len(),
    ensures
        final(k).queues@ == old(k).queues@.insert(i as int, mb),
        final(k).services@ == old(k).services@,
        final(k).counters() == old(k).counters(),
{
    k.queues.insert(i, mb);
}

proof fn lemma_box_back(s: Seq<Mailbox>, i: int, x: Mailbox)
    requires
        0 <= i < s.len(),
    ensures
        s.remove(i).insert(i, x).map_values(|m: Mailbox| mailbox_model(m))
            == s.map_values(|m: Mailbox| mailbox_model(m)).update(i, mailbox_model(x)),
{
    assert(s.remove(i).insert(i, x) =~= s.update(i, x));
    assert(s.update(i, x).map_values(|m: Mailbox| mailbox_model(m))
        =~= s.map_values(|m: Mailbox| mailbox_model(m)).update(i, mailbox_model(x)));
}

fn bump_service(k: &mut Microkernel, id: u32, sent: bool)
    requires
        old(k).wf(),
    ensures
        final(k).wf(),
        final(k).queues@ == old(k).queues@,
        final(k).counters() == old(k).counters(),
        final(k).svcs() == if sent { bump_sent(old(k).svcs(), id) } else { bump_received(old(k).svcs(), id) },
{
    let i = find_service(k, id);
    if i < k.services.len() {
        let ghost before = k.services@;
        let mut svc = take_service(k, i);
        if sent {
            svc.messages_sent = inc_wrapping(svc.messages_sent);
        } else {
            svc.messages_received = inc_wrapping(svc.messages_received);
        }
        put_service(k, i, svc);
        proof {
            lemma_put_back(before, i as int, svc);
        }
    }
}

fn deliver(k: &mut Microkernel, msg: IpcMessage)
    requires
        old(k).wf(),
    ensures
        final(k).wf(),
        final(k).boxes() == enqueue(old(k).boxes(), msg.to_service, msg.model()),
        final(k).svcs() == bump_received(bump_sent(old(k).svcs(), msg.from_service), msg.to_service),
        final(k).counters() == (Counters { total_messages: wrap_inc(old(k).total_messages), ..old(k).counters() }),
{
    let from = msg.from_service;
    let to = msg.to_service;
    let ghost mm = msg.model();
    let bi = find_box(k, to);
    if bi < k.queues.len() && k.queues[bi].messages.len() < MAX_QUEUE_LEN {
        let ghost before = k.queues@;
        let mut mb = take_box(k, bi);
        let ghost old_msgs = mb.messages@;
        mb.messages.push(msg);
        assert(mb.messages@.map_values(|x: IpcMessage| x.model())
            =~= old_msgs.map_values(|x: IpcMessage| x.model()).push(mm));
        put_box(k, bi, mb);
        proof {
            lemma_box_back(before, bi as int, mb);
        }
    }
    bump_service(k, from, true);
    bump_service(k, to, false);
    k.total_messages = inc_wrapping(k.total_messages);
}

/// Send a message at tick `now`; it gets the next message id, which is
/// returned. A full or missing mailbox drops it silently; the counters
/// move either way.
pub fn send_message(k: &mut Microkernel, from: u32, to: u32, msg_type: MsgType, payload: Vec<u8>, now: u64) -> (id: u64)
    requires
        old(k).wf(),
    ensures
        final(k).wf(),
        id == old(k).next_msg_id,
        final(k).boxes() == enqueue(old(k).boxes(), to, MessageModel {
            id, from_service: from, to_service: to, msg_type, payload: payload@, timestamp: now, reply_to: None }),
        final(k).svcs() == bump_received(bump_sent(old(k).svcs(), from), to),
        final(k).counters() == (Counters {
            next_msg_id: wrap_inc(old(k).next_msg_id),
            total_messages: wrap_inc(old(k).total_messages),
            ..old(k).counters()
        }),
{
    let id = k.next_msg_id;
    k.next_msg_id = inc_wrapping(id);
    let msg = IpcMessage { id, from_service: from, to_service: to, msg_type, payload, timestamp: now, reply_to: None };
    deliver(k, msg);
    id
}

/// Take the oldest message from the first mailbox of a service.
pub fn recv_message(k: &mut Microkernel, service_id: u32) -> (r: Option<IpcMessage>)
    requires
        old(k).wf(),
    ensures
        final(k).wf(),
        final(k).counters() == old(k).counters(),
        final(k).services@ == old(k).services@,
        ({
            let b = old(k).boxes();
            let i = box_index(b, service_id, 0);
            if i < b.len() && b[i].1.len() > 0 {
                &&& r matches Some(m) && m.model() == b[i].1[0]
                &&& final(k).boxes() == b.update(i, (b[i].0, b[i].1.drop_first()))
            } else {
                r is None && final(k).boxes() == b
            }
        }),
{
    let bi = find_box(k, service_id);
    if bi < k.queues.len() && k.queues[bi].messages.len() > 0 {
        let ghost before = k.queues@;
        let mut mb = take_box(k, bi);
        let ghost old_msgs = mb.messages@;
        let m = mb.messages.remove(0);
        assert(mb.messages@.map_values(|x: IpcMessage| x.model())
            =~= old_msgs.map_values(|x: IpcMessage| x.model()).drop_first());
        put_box(k, bi, mb);
        proof {
            lemma_box_back(before, bi as int, mb);
        }
        Some(m)
    } else {
        None
    }
}

/// Answer message `original_msg_id`: a `Response` from `from` to `to`,
/// sent at tick `now` with the next message id.
pub fn reply(k: &mut Microkernel, original_msg_id: u64, from: u32, to: u32, payload: Vec<u8>, now: u64)
    requires
        old(k).wf(),
    ensures
        final(k).wf(),
        final(k).boxes() == enqueue(old(k).boxes(), to, MessageModel {
            id: old(k).next_msg_id,
            from_service: from,
            to_service: to,
            msg_type: MsgType::Response,
            payload: payload@,
            timestamp: now,
            reply_to: Some(original_msg_id),
        }),
        final(k).svcs() == bump_received(bump_sent(old(k).svcs(), from), to),
        final(k).counters() == (Counters {
            next_msg_id: wrap_inc(old(k).next_msg_id),
            total_messages: wrap_inc(old(k).total_messages),
            ..old(k).counters()
        }),
{
    let id = k.next_msg_id;
    k.next_msg_id = inc_wrapping(id);
    let msg = IpcMessage {
        id,
        from_service: from,
        to_service: to,
        msg_type: MsgType::Response,
        payload,
        timestamp: now,
        reply_to: Some(original_msg_id),
    };
    deliver(k, msg);
}

/// Number of messages waiting in all mailboxes.
pub open spec fn pending_total(b: Seq<(u32, Seq<MessageModel>)>) -> nat
    decreases b.len(),
{
    if b.len() == 0 {
        0
    } else {
        pending_total(b.drop_last()) + b.last().1.len()
    }
}

/// The IPC statistics report.
pub open spec fn message_stats_text(k: Microkernel) -> Seq<char> {
    "IPC Statistics\n  total messages: "@ + dec(k.total_messages as nat)
        + "\n  pending in queues: "@ + dec(pending_total(k.boxes()))
        + "\n  queue slots: "@ + dec(k.queues@.len()) + "\n"@
}

/// IPC statistics as text.
pub fn message_stats(k: &Microkernel) -> (out: String)
    ensures
        out@ == message_stats_text(*k),
{
    let n = k.queues.len();
    let mut pending: u128 = 0;
    let mut i: usize = 0;
    while i < n
        invariant
            n == k.queues@.len(),
            n == k.boxes().len(),
            i <= n,
            pending == pending_total(k.boxes().subrange(0, i as int)),
            pending <= i * (usize::MAX as int),
        decreases n - i,
    {
        let ghost prefix = k.boxes().subrange(0, i + 1);
        assert(prefix.drop_last() =~= k.boxes().subrange(0, i as int));
        assert(prefix.last().1.len() == k.queues@[i as int].messages@.len());
        let len = k.queues[i].messages.len();
        assert(pending + len <= (i + 1) * (usize::MAX as int)) by (nonlinear_arith)
            requires
                pending <= i * (usize::MAX as int),
                len <= usize::MAX,
        ;
        assert((i + 1) * (usize::MAX as int) <= (usize::MAX as int) * (usize::MAX as int)) by (nonlinear_arith)
            requires
                i < usize::MAX,
        ;
        pending = pending + len as u128;
        i = i + 1;
    }
    assert(k.boxes().subrange(0, n as int) =~= k.boxes());
    let mut out = string_of("IPC Statistics\n  total messages: ");
    push_dec(&mut out, k.total_messages);
    out.append("\n  pending in queues: ");
    let p = u128_to_dec(pending);
    out.append(p.as_str());
    out.append("\n  queue slots: ");
    push_dec(&mut out, n as u64);
    out.append("\n");
    assert(out@ =~= message_stats_text(*k));
    out
}

// ---------------------------------------------------------------------------
// Faults
// ---------------------------------------------------------------------------

/// Whether a crashed service may be restarted automatically.
pub open spec fn can_restart(m: ServiceModel) -> bool {
    m.max_restarts == 0 || m.restart_count < m.max_restarts
}

/// A service after a fault at tick `now`: crashed, one more fault, and
/// restarted at once when its restart limit allows.
pub open spec fn after_fault(m: ServiceModel, now: u64) -> ServiceModel {
    let crashed = ServiceModel { state: ServiceState::Crashed, crashed_tick: now, faults: wrap_inc32(m.faults), ..m };
    if can_restart(m) {
        ServiceModel {
            state: ServiceState::Running,
            restart_count: wrap_inc32(m.restart_count),
            started_tick: now,
            ..crashed
        }
    } else {
        crashed
    }
}

/// The report of `handle_fault` for a known service.
pub open spec fn fault_text(m: ServiceModel, id: u32, now: u64) -> Seq<char> {
    let a = after_fault(m, now);
    "Service '"@ + m.name + "' (#"@ + dec(id as nat) + ") crashed (fault #"@ + dec(a.faults as nat) + "). "@
        + if can_restart(m) {
            "Auto-restarted (restart #"@ + dec(a.restart_count as nat) + ").\n"@
        } else {
            "Restart limit reached ("@ + dec(m.max_restarts as nat) + ").\n"@
        }
}

/// The report for an unknown service id.
pub open spec fn not_found_text(id: u32) -> Seq<char> {
    "Service #"@ + dec(id as nat) + " not found.\n"@
}

fn push_fault_text(out: &mut String, svc: &Service, id: u32, restarted: bool)
    ensures
        final(out)@ == old(out)@ + "Service '"@ + svc.name@ + "' (#"@ + dec(id as nat) + ") crashed (fault #"@
            + dec(svc.faults as nat) + "). "@ + if restarted {
                "Auto-restarted (restart #"@ + dec(svc.restart_count as nat) + ").\n"@
            } else {
                "Restart limit reached ("@ + dec(svc.max_restarts as nat) + ").\n"@
            },
{
    out.append("Service '");
    out.append(svc.name.as_str());
    out.append("' (#");
    push_dec(out, id as u64);
    out.append(") crashed (fault #");
    push_dec(out, svc.faults as u64);
    out.append("). ");
    if restarted {
        out.append("Auto-restarted (restart #");
        push_dec(out, svc.restart_count as u64);
        out.append(").\n");
    } else {
        out.append("Restart limit reached (");
        push_dec(out, svc.max_restarts as u64);
        out.append(").\n");
    }
}

/// Handle a crash of a service at tick `now`: it is marked crashed and,
/// within its restart limit (0 means none), restarted at once. The fault
/// and restart counters wrap around.
pub fn handle_fault(k: &mut Microkernel, service_id: u32, now: u64) -> (out: String)
    requires
        old(k).wf(),
    ensures
        final(k).wf(),
        final(k).queues@ == old(k).queues@,
        ({
            let s = old(k).svcs();
            let i = svc_index(s, service_id, 0);
            if i < s.len() {
                &&& final(k).svcs() == s.update(i, after_fault(s[i], now))
                &&& out@ == fault_text(s[i], service_id, now)
                &&& final(k).counters() == (Counters {
                        total_faults: wrap_inc(old(k).total_faults),
                        total_restarts: if can_restart(s[i]) { wrap_inc(old(k).total_restarts) } else { old(k).total_restarts },
                        ..old(k).counters()
                    })
            } else {
                &&& final(k).svcs() == s
                &&& out@ == not_found_text(service_id)
                &&& final(k).counters() == (Counters { total_faults: wrap_inc(old(k).total_faults), ..old(k).counters() })
            }
        }),
{
    k.total_faults = inc_wrapping(k.total_faults);
    let i = find_service(k, service_id);
    if i >= k.services.len() {
        let mut out = string_of("Service #");
        push_dec(&mut out, service_id as u64);
        out.append(" not found.\n");
        return out;
    }
    let ghost before = k.services@;
    let ghost m = k.svcs()[i as int];
    let mut svc = take_service(k, i);
    assert(svc.model() == m);
    svc.state = ServiceState::Crashed;
    svc.crashed_tick = now;
    svc.faults = inc32(svc.faults);
    let restart = svc.max_restarts == 0 || svc.restart_count < svc.max_restarts;
    if restart {
        svc.restart_count = inc32(svc.restart_count);
        svc.state = ServiceState::Running;
        svc.started_tick = now;
    }
    assert(svc.model() == after_fault(m, now)) by {
        assert(svc.model().dependencies == m.dependencies);
        assert(svc.model().name == m.name);
    }
    let mut out = String::new();
    push_fault_text(&mut out, &svc, service_id, restart);
    put_service(k, i, svc);
    proof {
        lemma_put_back(before, i as int, svc);
    }
    if restart {
        k.total_restarts = inc_wrapping(k.total_restarts);
    }
    assert(out@ =~= fault_text(m, service_id, now));
    out
}

// ---------------------------------------------------------------------------
// Reports
// ---------------------------------------------------------------------------

/// The first four columns of a row of the service table.
pub open spec fn row_head(m: ServiceModel) -> Seq<char> {
    pad_right(dec(m.id as nat), 3) + " "@ + pad_right(m.name, 16) + " "@
        + pad_right(service_type_name(m.service_type), 11) + " "@
}

/// The last four columns of a row of the service table.
pub open spec fn row_tail(m: ServiceModel) -> Seq<char> {
    pad_right(service_state_name(m.state), 11) + " "@
        + pad_right(dec(m.pid as nat), 4) + " "@
        + pad_right(dec(m.restart_count as nat), 9) + " "@ + dec(m.faults as nat) + "\n"@
}

/// One row of the service table.
pub open spec fn service_row(m: ServiceModel) -> Seq<char> {
    row_head(m) + row_tail(m)
}

/// The rows of the service table.
pub open spec fn service_rows(s: Seq<ServiceModel>) -> Seq<char>
    decreases s.len(),
{
    if s.len() == 0 {
        Seq::empty()
    } else {
        service_rows(s.drop_last()) + service_row(s.last())
    }
}

/// The service table.
pub open spec fn list_services_text(s: Seq<ServiceModel>) -> Seq<char> {
    if s.len() == 0 {
        "No services registered.\n"@
    } else {
        "ID  NAME             TYPE        STATE       PID  RESTARTS  FAULTS\n"@
            + "--- ---------------- ----------- ----------- ---- --------- ------\n"@
            + service_rows(s)
    }
}

fn push_row_head(out: &mut String, svc: &Service)
    ensures
        final(out)@ == old(out)@ + row_head(svc.model()),
{
    push_dec_padded(out, svc.id as u64, 3);
    out.append(" ");
    push_padded(out, svc.name.as_str(), 16);
    out.append(" ");
    push_padded(out, type_str(svc.service_type), 11);
    out.append(" ");
    assert(final(out)@ =~= old(out)@ + row_head(svc.model()));
}

fn push_row_tail(out: &mut String, svc: &Service)
    ensures
        final(out)@ == old(out)@ + row_tail(svc.model()),
{
    push_padded(out, state_str(svc.state), 11);
    out.append(" ");
    push_dec_padded(out, svc.pid as u64, 4);
    out.append(" ");
    push_dec_padded(out, svc.restart_count as u64, 9);
    out.append(" ");
    push_dec(out, svc.faults as u64);
    out.append("\n");
    assert(final(out)@ =~= old(out)@ + row_tail(svc.model()));
}

fn push_service_row(out: &mut String, svc: &Service)
    ensures
        final(out)@ == old(out)@ + service_row(svc.model()),
{
    push_row_head(out, svc);
    push_row_tail(out, svc);
    assert(final(out)@ =~= old(out)@ + service_row(svc.model()));
}

/// All registered services as a table.
pub fn list_services(k: &Microkernel) -> (out: String)
    ensures
        out@ == list_services_text(k.svcs()),
{
    let n = k.services.len();
    if n == 0 {
        return string_of("No services registered.\n");
    }
    let mut out = string_of("ID  NAME             TYPE        STATE       PID  RESTARTS  FAULTS\n");
    out.append("--- ---------------- ----------- ----------- ---- --------- ------\n");
    let ghost head = out@;
    let mut i: usize = 0;
    while i < n
        invariant
            n == k.services@.len(),
            n == k.svcs().len(),
            i <= n,
            out@ == head + service_rows(k.svcs().subrange(0, i as int)),
        decreases n - i,
    {
        let ghost prefix = k.svcs().subrange(0, i + 1);
        assert(prefix.drop_last() =~= k.svcs().subrange(0, i as int));
        assert(prefix.last() == k.services@[i as int].model());
        push_service_row(&mut out, &k.services[i]);
        i = i + 1;
        assert(out@ =~= head + service_rows(prefix));
    }
    assert(k.svcs().subrange(0, n as int) =~= k.svcs());
    assert(out@ =~= list_services_text(k.svcs()));
    out
}

/// Dependency ids separated by `, `.
pub open spec fn join_ids(d: Seq<u32>) -> Seq<char>
    decreases d.len(),
{
    if d.len() == 0 {
        Seq::empty()
    } else if d.len() == 1 {
        dec(d[0] as nat)
    } else {
        join_ids(d.drop_last()) + ", "@ + dec(d.last() as nat)
    }
}

/// The detail report of one service.
pub open spec fn service_info_text(m: ServiceModel) -> Seq<char> {
    "Service #"@ + dec(m.id as nat)
        + "\n  name:         "@ + m.name
        + "\n  type:         "@ + service_type_name(m.service_type)
        + "\n  state:        "@ + service_state_name(m.state)
        + "\n  pid:          "@ + dec(m.pid as nat)
        + "\n  restarts:     "@ + dec(m.restart_count as nat) + "/"@
        + (if m.max_restarts == 0 { "unlimited"@ } else { dec(m.max_restarts as nat) })
        + "\n  started:      tick "@ + dec(m.started_tick as nat)
        + "\n  crashed:      tick "@ + dec(m.crashed_tick as nat)
        + "\n  msgs sent:    "@ + dec(m.messages_sent as nat)
        + "\n  msgs recv:    "@ + dec(m.messages_received as nat)
        + "\n  faults:       "@ + dec(m.faults as nat)
        + "\n  dependencies: "@ + (if m.dependencies.len() == 0 { "none"@ } else { join_ids(m.dependencies) })
        + "\n"@
}

fn push_join_ids(out: &mut String, d: &Vec<u32>)
    ensures
        final(out)@ == old(out)@ + join_ids(d@),
{
    let n = d.len();
    let mut i: usize = 0;
    while i < n
        invariant
            n == d@.len(),
            i <= n,
            out@ == old(out)@ + join_ids(d@.subrange(0, i as int)),
        decreases n - i,
    {
        let ghost prefix = d@.subrange(0, i + 1);
        assert(prefix.drop_last() =~= d@.subrange(0, i as int));
        if i > 0 {
            out.append(", ");
        }
        push_dec(out, d[i] as u64);
        i = i + 1;
        assert(out@ =~= old(out)@ + join_ids(prefix));
    }
    assert(d@.subrange(0, n as int) =~= d@);
}

fn push_info_head(out: &mut String, svc: &Service)
    ensures
        final(out)@ == old(out)@ + "Service #"@ + dec(svc.id as nat)
            + "\n  name:         "@ + svc.name@
            + "\n  type:         "@ + service_type_name(svc.service_type)
            + "\n  state:        "@ + service_state_name(svc.state)
            + "\n  pid:          "@ + dec(svc.pid as nat)
            + "\n  restarts:     "@ + dec(svc.restart_count as nat) + "/"@
            + (if svc.max_restarts == 0 { "unlimited"@ } else { dec(svc.max_restarts as nat) }),
{
    out.append("Service #");
    push_dec(out, svc.id as u64);
    out.append("\n  name:         ");
    out.append(svc.name.as_str());
    out.append("\n  type:         ");
    out.append(type_str(svc.service_type));
    out.append("\n  state:        ");
    out.append(state_str(svc.state));
    out.append("\n  pid:          ");
    push_dec(out, svc.pid as u64);
    out.append("\n  restarts:     ");
    push_dec(out, svc.restart_count as u64);
    out.append("/");
    if svc.max_restarts == 0 {
        out.append("unlimited");
    } else {
        push_dec(out, svc.max_restarts as u64);
    }
}

fn push_info_tail(out: &mut String, svc: &Service)
    ensures
        final(out)@ == old(out)@
            + "\n  started:      tick "@ + dec(svc.started_tick as nat)
            + "\n  crashed:      tick "@ + dec(svc.crashed_tick as nat)
            + "\n  msgs sent:    "@ + dec(svc.messages_sent as nat)
            + "\n  msgs recv:    "@ + dec(svc.messages_received as nat)
            + "\n  faults:       "@ + dec(svc.faults as nat)
            + "\n  dependencies: "@ + (if svc.dependencies@.len() == 0 { "none"@ } else { join_ids(svc.dependencies@) })
            + "\n"@,
{
    out.append("\n  started:      tick ");
    push_dec(out, svc.started_tick);
    out.append("\n  crashed:      tick ");
    push_dec(out, svc.crashed_tick);
    out.append("\n  msgs sent:    ");
    push_dec(out, svc.messages_sent);
    out.append("\n  msgs recv:    ");
    push_dec(out, svc.messages_received);
    out.append("\n  faults:       ");
    push_dec(out, svc.faults as u64);
    out.append("\n  dependencies: ");
    if svc.dependencies.len() == 0 {
        out.append("none");
    } else {
        push_join_ids(out, &svc.dependencies);
    }
    out.append("\n");
}

/// The detail report of a service, or the not-found line.
pub fn service_info(k: &Microkernel, id: u32) -> (out: String)
    ensures
        ({
            let s = k.svcs();
            let i = svc_index(s, id, 0);
            out@ == if i < s.len() { service_info_text(s[i]) } else { not_found_text(id) }
        }),
{
    let i = find_service(k, id);
    if i >= k.services.len() {
        let mut out = string_of("Service #");
        push_dec(&mut out, id as u64);
        out.append(" not found.\n");
        return out;
    }
    let svc = &k.services[i];
    assert(svc.model() == k.svcs()[i as int]);
    let mut out = String::new();
    push_info_head(&mut out, svc);
    push_info_tail(&mut out, svc);
    assert(out@ =~= service_info_text(svc.model()));
    out
}

/// The health word of a state.
pub open spec fn health_status(st: ServiceState) -> Seq<char> {
    match st {
        ServiceState::Running => "OK"@,
        ServiceState::Crashed => "CRASHED"@,
        ServiceState::Stopped => "STOPPED"@,
        _ => "TRANSITIONING"@,
    }
}

/// One line of the health report.
pub open spec fn health_line(m: ServiceModel) -> Seq<char> {
    "  ["@ + health_status(m.state) + "] "@ + m.name + " (#"@ + dec(m.id as nat) + ") — "@ + dec(m.faults as nat) + " faults\n"@
}

/// The lines of the health report.
pub open spec fn health_lines(s: Seq<ServiceModel>) -> Seq<char>
    decreases s.len(),
{
    if s.len() == 0 {
        Seq::empty()
    } else {
        health_lines(s.drop_last()) + health_line(s.last())
    }
}

/// How many services are in state `st`.
pub open spec fn count_state(s: Seq<ServiceModel>, st: ServiceState) -> nat
    decreases s.len(),
{
    if s.len() == 0 {
        0
    } else {
        count_state(s.drop_last(), st) + if s.last().state == st { 1nat } else { 0nat }
    }
}

/// The health report.
pub open spec fn health_check_text(s: Seq<ServiceModel>) -> Seq<char> {
    if s.len() == 0 {
        "No services to check.\n"@
    } else {
        "Health Check\n"@ + health_lines(s) + "Summary: "@ + dec(count_state(s, ServiceState::Running))
            + " healthy, "@ + dec(count_state(s, ServiceState::Crashed)) + " unhealthy\n"@
    }
}

proof fn lemma_count_bound(s: Seq<ServiceModel>, st: ServiceState)
    ensures
        count_state(s, st) <= s.len(),
    decreases s.len(),
{
    if s.len() > 0 {
        lemma_count_bound(s.drop_last(), st);
    }
}

fn count_in_state(k: &Microkernel, st: ServiceState) -> (c: usize)
    ensures
        c == count_state(k.svcs(), st),
{
    let n = k.services.len();
    let mut c: usize = 0;
    let mut i: usize = 0;
    while i < n
        invariant
            n == k.services@.len(),
            n == k.svcs().len(),
            i <= n,
            c == count_state(k.svcs().subrange(0, i as int), st),
        decreases n - i,
    {
        let ghost prefix = k.svcs().subrange(0, i + 1);
        assert(prefix.drop_last() =~= k.svcs().subrange(0, i as int));
        assert(prefix.last() == k.services@[i as int].model());
        proof {
            lemma_count_bound(k.svcs().subrange(0, i as int), st);
        }
        if k.services[i].state == st {
            c = c + 1;
        }
        i = i + 1;
    }
    assert(k.svcs().subrange(0, n as int) =~= k.svcs());
    c
}

fn push_health_line(out: &mut String, svc: &Service)
    ensures
        final(out)@ == old(out)@ + health_line(svc.model()),
{
    out.append("  [");
    match svc.state {
        ServiceState::Running => out.append("OK"),
        ServiceState::Crashed => out.append("CRASHED"),
        ServiceState::Stopped => out.append("STOPPED"),
        _ => out.append("TRANSITIONING"),
    }
    out.append("] ");
    out.append(svc.name.as_str());
    out.append(" (#");
    push_dec(out, svc.id as u64);
    out.append(") — ");
    push_dec(out, svc.faults as u64);
    out.append(" faults\n");
    assert(final(out)@ =~= old(out)@ + health_line(svc.model()));
}

/// A health report of every service, with a healthy/unhealthy summary.
pub fn health_check(k: &Microkernel) -> (out: String)
    ensures
        out@ == health_check_text(k.svcs()),
{
    let n = k.services.len();
    if n == 0 {
        return string_of("No services to check.\n");
    }
    let mut out = string_of("Health Check\n");
    let ghost head = out@;
    let mut i: usize = 0;
    while i < n
        invariant
            n == k.services@.len(),
            n == k.svcs().len(),
            i <= n,
            out@ == head + health_lines(k.svcs().subrange(0, i as int)),
        decreases n - i,
    {
        let ghost prefix = k.svcs().subrange(0, i + 1);
        assert(prefix.drop_last() =~= k.svcs().subrange(0, i as int));
        assert(prefix.last() == k.services@[i as int].model());
        push_health_line(&mut out, &k.services[i]);
        i = i + 1;
        assert(out@ =~= head + health_lines(prefix));
    }
    assert(k.svcs().subrange(0, n as int) =~= k.svcs());
    let healthy = count_in_state(k, ServiceState::Running);
    let unhealthy = count_in_state(k, ServiceState::Crashed);
    out.append("Summary: ");
    push_dec(&mut out, healthy as u64);
    out.append(" healthy, ");
    push_dec(&mut out, unhealthy as u64);
    out.append(" unhealthy\n");
    assert(out@ =~= health_check_text(k.svcs()));
    out
}

/// The subsystem statistics report.
pub open spec fn ukernel_stats_text(k: Microkernel) -> Seq<char> {
    "Microkernel Statistics\n  mode:           "@ + (if k.mode { "enabled"@ } else { "disabled"@ })
        + "\n  services:       "@ + dec(k.services@.len()) + " total, "@
        + dec(count_state(k.svcs(), ServiceState::Running)) + " running, "@
        + dec(count_state(k.svcs(), ServiceState::Crashed)) + " crashed"@
        + "\n  messages:       "@ + dec(k.total_messages as nat)
        + "\n  faults:         "@ + dec(k.total_faults as nat)
        + "\n  restarts:       "@ + dec(k.total_restarts as nat) + "\n"@
}

/// Overall statistics of the subsystem as text.
pub fn ukernel_stats(k: &Microkernel) -> (out: String)
    ensures
        out@ == ukernel_stats_text(*k),
{
    let running = count_in_state(k, ServiceState::Running);
    let crashed = count_in_state(k, ServiceState::Crashed);
    let mut out = string_of("Microkernel Statistics\n  mode:           ");
    if k.mode {
        out.append("enabled");
    } else {
        out.append("disabled");
    }
    out.append("\n  services:       ");
    push_dec(&mut out, k.services.len() as u64);
    out.append(" total, ");
    push_dec(&mut out, running as u64);
    out.append(" running, ");
    push_dec(&mut out, crashed as u64);
    out.append(" crashed");
    out.append("\n  messages:       ");
    push_dec(&mut out, k.total_messages);
    out.append("\n  faults:         ");
    push_dec(&mut out, k.total_faults);
    out.append("\n  restarts:       ");
    push_dec(&mut out, k.total_restarts);
    out.append("\n");
    assert(out@ =~= ukernel_stats_text(*k));
    out
}

// ---------------------------------------------------------------------------
// Initialisation
// ---------------------------------------------------------------------------

/// The registry after `register_service`.
pub open spec fn registered(s: Seq<ServiceModel>, id: u32, name: Seq<char>, t: ServiceType, max: u32) -> Seq<ServiceModel> {
    if s.len() < MAX_SERVICES { s.push(new_service(id, name, t, max)) } else { s }
}

/// The registry an operation leaves: its result, or `s` when it failed.
pub open spec fn or_unchanged(r: Result<Seq<ServiceModel>, Seq<char>>, s: Seq<ServiceModel>) -> Seq<ServiceModel> {
    match r {
        Ok(x) => x,
        Err(_) => s,
    }
}

/// The registry after `init`: the four built-in servers registered (with
/// the ids `n`, `n+1`, `n+2`, `n+3` of the service counter), their two
/// dependencies recorded, and all four started at tick `now`.
pub open spec fn init_services(s0: Seq<ServiceModel>, n: u64, now: u64) -> Seq<ServiceModel> {
    let vfs = n as u32;
    let net = wrap_inc(n) as u32;
    let log = wrap_inc(wrap_inc(n)) as u32;
    let sec = wrap_inc(wrap_inc(wrap_inc(n))) as u32;
    let s1 = registered(s0, vfs, "vfs-server"@, ServiceType::Filesystem, 0);
    let s2 = registered(s1, net, "net-server"@, ServiceType::Network, 5);
    let s3 = registered(s2, log, "log-server"@, ServiceType::Logger, 0);
    let s4 = registered(s3, sec, "sec-server"@, ServiceType::Security, 3);
    let s5 = or_unchanged(dependency_result(s4, net, vfs), s4);
    let s6 = or_unchanged(dependency_result(s5, sec, log), s5);
    let s7 = or_unchanged(start_result(s6, vfs, now), s6);
    let s8 = or_unchanged(start_result(s7, log, now), s7);
    let s9 = or_unchanged(start_result(s8, net, now), s8);
    or_unchanged(start_result(s9, sec, now), s9)
}

/// Register the built-in servers (vfs, net, log, sec), record that net
/// depends on vfs and sec on log, start them all at tick `now`, and turn
/// microkernel mode on.
pub fn init(k: &mut Microkernel, now: u64)
    requires
        old(k).wf(),
    ensures
        final(k).wf(),
        final(k).svcs() == init_services(old(k).svcs(), old(k).next_service_id, now),
        final(k).boxes() == old(k).boxes()
            .push((old(k).next_service_id as u32, Seq::empty()))
            .push((wrap_inc(old(k).next_service_id) as u32, Seq::empty()))
            .push((wrap_inc(wrap_inc(old(k).next_service_id)) as u32, Seq::empty()))
            .push((wrap_inc(wrap_inc(wrap_inc(old(k).next_service_id))) as u32, Seq::empty())),
        final(k).counters() == (Counters {
            mode: true,
            next_service_id: wrap_inc(wrap_inc(wrap_inc(wrap_inc(old(k).next_service_id)))),
            ..old(k).counters()
        }),
{
    let vfs_id = register_service(k, "vfs-server", ServiceType::Filesystem, 0);
    let net_id = register_service(k, "net-server", ServiceType::Network, 5);
    let log_id = register_service(k, "log-server", ServiceType::Logger, 0);
    let sec_id = register_service(k, "sec-server", ServiceType::Security, 3);
    let _ = add_dependency(k, net_id, vfs_id);
    let _ = add_dependency(k, sec_id, log_id);
    let _ = start_service(k, vfs_id, now);
    let _ = start_service(k, log_id, now);
    let _ = start_service(k, net_id, now);
    let _ = start_service(k, sec_id, now);
    enable_microkernel_mode(k);
}

// ---------------------------------------------------------------------------
// Laws
// ---------------------------------------------------------------------------

proof fn lemma_box_index(b: Seq<(u32, Seq<MessageModel>)>, id: u32, j: int)
    requires
        0 <= j <= b.len(),
    ensures
        j <= box_index(b, id, j) <= b.len(),
        forall|k: int| j <= k < box_index(b, id, j) ==> b[k].0 != id,
        box_index(b, id, j) < b.len() ==> b[box_index(b, id, j)].0 == id,
    decreases b.len() - j,
{
    if j < b.len() && b[j].0 != id {
        lemma_box_index(b, id, j + 1);
    }
}

proof fn lemma_box_index_at(b: Seq<(u32, Seq<MessageModel>)>, id: u32, j: int, i: int)
    requires
        0 <= j <= i < b.len(),
        b[i].0 == id,
        forall|k: int| j <= k < i ==> b[k].0 != id,
    ensures
        box_index(b, id, j) == i,
    decreases i - j,
{
    if j < i {
        lemma_box_index_at(b, id, j + 1, i);
    }
}

/// A message sent to a service whose mailbox is empty is the next one
/// that service receives, and receiving it empties the mailbox again.
pub proof fn law_send_then_recv(b: Seq<(u32, Seq<MessageModel>)>, to: u32, m: MessageModel)
    requires
        box_index(b, to, 0) < b.len(),
        b[box_index(b, to, 0)].1.len() == 0,
    ensures
        ({
            let b2 = enqueue(b, to, m);
            let i = box_index(b2, to, 0);
            &&& i < b2.len() && b2[i].1.len() > 0 && b2[i].1[0] == m
            &&& b2.update(i, (b2[i].0, b2[i].1.drop_first())) == b
        }),
{
    lemma_box_index(b, to, 0);
    let i = box_index(b, to, 0);
    let b2 = enqueue(b, to, m);
    assert(b2 == b.update(i, (b[i].0, b[i].1.push(m))));
    lemma_box_index_at(b2, to, 0, i);
    assert(b2[i].1 =~= seq![m]);
    assert(b2[i].1.drop_first() =~= b[i].1);
    assert(b2.update(i, (b2[i].0, b2[i].1.drop_first())) =~= b);
}

proof fn lemma_svc_index(s: Seq<ServiceModel>, id: u32, j: int)
    requires
        0 <= j <= s.len(),
    ensures
        j <= svc_index(s, id, j) <= s.len(),
        forall|k: int| j <= k < svc_index(s, id, j) ==> s[k].id != id,
        svc_index(s, id, j) < s.len() ==> s[svc_index(s, id, j)].id == id,
    decreases s.len() - j,
{
    if j < s.len() && s[j].id != id {
        lemma_svc_index(s, id, j + 1);
    }
}

proof fn lemma_svc_index_at(s: Seq<ServiceModel>, id: u32, j: int, i: int)
    requires
        0 <= j <= i < s.len(),
        s[i].id == id,
        forall|k: int| j <= k < i ==> s[k].id != id,
    ensures
        svc_index(s, id, j) == i,
    decreases i - j,
{
    if j < i {
        lemma_svc_index_at(s, id, j + 1, i);
    }
}

/// Starting a stopped or crashed service and then stopping it leaves it
/// stopped with pid 0, its start tick recorded.
pub proof fn law_start_then_stop(s: Seq<ServiceModel>, id: u32, now: u64)
    requires
        start_result(s, id, now) is Ok,
    ensures
        ({
            let s1 = start_result(s, id, now)->Ok_0;
            let i = svc_index(s1, id, 0);
            &&& i < s1.len() && s1[i].state == ServiceState::Running && s1[i].started_tick == now
            &&& stop_result(s1, id) is Ok
            &&& stop_result(s1, id)->Ok_0[i].state == ServiceState::Stopped
            &&& stop_result(s1, id)->Ok_0[i].pid == 0
        }),
{
    lemma_svc_index(s, id, 0);
    let i = svc_index(s, id, 0);
    let s1 = start_result(s, id, now)->Ok_0;
    lemma_svc_index_at(s1, id, 0, i);
}

/// After `unregister_service` no service with that id is left.
pub proof fn law_unregister_removes(s: Seq<ServiceModel>, id: u32)
    ensures
        forall|i: int| 0 <= i < without_service(s, id).len() ==> #[trigger] without_service(s, id)[i].id != id,
    decreases s.len(),
{
    if s.len() > 0 {
        law_unregister_removes(s.drop_last(), id);
        let rest = without_service(s.drop_last(), id);
        if s.last().id != id {
            assert forall|i: int| 0 <= i < rest.push(s.last()).len() implies #[trigger] rest.push(s.last())[i].id != id by {
                if i < rest.len() {
                    assert(rest.push(s.last())[i] == rest[i]);
                }
            }
        }
    }
}

/// A fault restarts the service at once while its restart budget lasts
/// (a budget of 0 is unlimited) and leaves it crashed once it is spent.
pub proof fn law_fault_restart_budget(m: ServiceModel, now: u64)
    ensures
        (m.max_restarts == 0 || m.restart_count < m.max_restarts) ==> after_fault(m, now).state == ServiceState::Running,
        (m.max_restarts != 0 && m.restart_count >= m.max_restarts) ==> after_fault(m, now).state == ServiceState::Crashed
            && after_fault(m, now).restart_count == m.restart_count,
{
}

} // verus!
