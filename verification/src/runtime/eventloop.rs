//! Readiness events: what the kernel facilities of three platforms are asked
//! for, and what their answers mean.
//!
//! * `kqueue`: [`KqueueLoop`] keeps the registrations and plans the changes to
//!   the kernel's list; [`kqueue_ready`] reads an event.
//! * I/O completion ports: [`IocpLoop`] keeps the registered handles with
//!   their keys; every completion reports both readable and writable.
//!
//! The system calls themselves are made by the caller.
use vstd::prelude::*;

verus! {

/// Opaque per-registration identifier handed back to handlers.
pub type Token = u64;

/// Readiness/completion bitset.
#[derive(Debug, Clone, Copy, PartialEq, Eq, Structural)]
pub struct Ready(pub u8);

impl Default for Ready {
    /// No events.
    fn default() -> (r: Ready)
        ensures
            r == Ready::empty(),
    {
        Ready::empty()
    }
}

impl Ready {
    /// No events.
    #[verifier::allow_in_spec]
    pub fn empty() -> Ready
        returns
            Ready(0),
    {
        Ready(0)
    }

    /// Readable / completed receive.
    #[verifier::allow_in_spec]
    pub fn read() -> Ready
        returns
            Ready(1),
    {
        Ready(1)
    }

    /// Writable / completed send.
    #[verifier::allow_in_spec]
    pub fn write() -> Ready
        returns
            Ready(2),
    {
        Ready(2)
    }

    /// Error condition.
    #[verifier::allow_in_spec]
    pub fn error() -> Ready
        returns
            Ready(4),
    {
        Ready(4)
    }

    /// Whether any of `other`'s bits are set.
    pub open spec fn meets(self, other: Ready) -> bool {
        self.0 & other.0 != 0
    }

    /// Whether all of `other`'s bits are set.
    pub open spec fn covers(self, other: Ready) -> bool {
        self.0 & other.0 == other.0
    }

    /// The bits of either.
    pub open spec fn or(self, other: Ready) -> Ready {
        Ready(self.0 | other.0)
    }

    /// True if any of `other`'s bits are set.
    pub fn intersects(self, other: Ready) -> (r: bool)
        ensures
            r == self.meets(other),
    {
        self.0 & other.0 != 0
    }

    /// True if all of `other`'s bits are set.
    pub fn contains(self, other: Ready) -> (r: bool)
        ensures
            r == self.covers(other),
    {
        self.0 & other.0 == other.0
    }

    /// The bits of either.
    pub fn union(self, other: Ready) -> (r: Ready)
        ensures
            r == self.or(other),
    {
        Ready(self.0 | other.0)
    }
}

/// A union has every bit of its two parts and no other.
pub proof fn law_union_of_readiness(a: Ready, b: Ready, c: Ready)
    ensures
        a.or(b).covers(a),
        a.or(b).covers(b),
        a.or(b).meets(c) <==> a.meets(c) || b.meets(c),
        c.covers(a.or(b)) <==> c.covers(a) && c.covers(b),
{
    let (x, y, z) = (a.0, b.0, c.0);
    assert((x | y) & x == x && (x | y) & y == y) by (bit_vector);
    assert((x | y) & z != 0 <==> (x & z != 0 || y & z != 0)) by (bit_vector);
    assert(z & (x | y) == (x | y) <==> (z & x == x && z & y == y)) by (bit_vector);
}

/// What to watch: file descriptors on Unix, raw handle addresses on Windows.
#[derive(Debug, Clone, Copy, PartialEq, Eq, Hash, Structural)]
pub enum Target {
    /// Unix file descriptor (socket, pipe, evdev node...).
    Fd(i32),
    /// Win32 handle as its raw address.
    Handle(usize),
}

impl Target {
    /// Builds [`Target::Handle`] from a raw pointer-sized handle value.
    pub fn handle_raw(h: usize) -> (r: Target)
        ensures
            r == Target::Handle(h),
    {
        Target::Handle(h)
    }
}

/// Consumer of readiness events.
pub trait EventHandler: Sized {
    /// Being told of `ready` under `token` can lead from `before` to `after`.
    spec fn handles(before: Self, after: Self, token: Token, ready: Ready) -> bool;

    /// Called once per ready registration. Must stay cheap; long work belongs
    /// on dedicated threads fed by rings.
    fn ready(&mut self, token: Token, ready: Ready)
        ensures
            Self::handles(*old(self), *final(self), token, ready),
    ;
}

/// A readiness event, as a handler is told of it.
#[derive(Debug, Clone, Copy, PartialEq, Eq, Structural)]
pub struct Event {
    /// Registration that is ready.
    pub token: Token,
    /// What it is ready for.
    pub ready: Ready,
}

/// Telling a handler of several events in order can lead from `before` to
/// `after`.
pub open spec fn delivers<H: EventHandler>(before: H, after: H, events: Seq<Event>) -> bool
    decreases events.len(),
{
    if events.len() == 0 {
        after == before
    } else {
        exists|mid: H| #[trigger]
            H::handles(mid, after, events.last().token, events.last().ready) && delivers(
                before,
                mid,
                events.drop_last(),
            )
    }
}

/// Feeds events to `handler` in order. Returns how many were delivered.
pub fn deliver<H: EventHandler>(events: &[Event], handler: &mut H) -> (n: usize)
    ensures
        n == events@.len(),
        delivers(*old(handler), *final(handler), events@),
{
    let mut i: usize = 0;
    proof {
        assert(events@.take(0) =~= Seq::<Event>::empty());
    }
    while i < events.len()
        invariant
            i <= events@.len(),
            delivers(*old(handler), *handler, events@.take(i as int)),
        decreases events@.len() - i,
    {
        let ghost mid = *handler;
        handler.ready(events[i].token, events[i].ready);
        proof {
            let upto = events@.take(i + 1);
            assert(upto.drop_last() =~= events@.take(i as int));
            assert(H::handles(mid, *handler, upto.last().token, upto.last().ready));
        }
        i = i + 1;
    }
    proof {
        assert(events@.take(i as int) =~= events@);
    }
    i
}

/// A platform event loop, as the programs that drive it see it.
pub trait EventLoop: Sized {
    /// Starts watching `target`, reporting under `token`.
    fn register(&mut self, target: Target, token: Token, interest: Ready) -> Result<(), String>;

    /// Stops watching `target` (no-op if unknown).
    fn unregister(&mut self, target: Target) -> Result<(), String>;

    /// Waits up to `timeout` (`None` = forever) and feeds events to `handler`.
    /// Returns how many events were delivered.
    fn dispatch<H: EventHandler>(&mut self, timeout: Option<Timeout>, handler: &mut H) -> Result<
        usize,
        String,
    >;
}

/// How long to wait.
#[derive(Debug, Clone, Copy, PartialEq, Eq, Structural)]
pub struct Timeout {
    /// Whole seconds.
    pub secs: u64,
    /// Nanoseconds beyond them.
    pub nanos: u32,
}

// --- kqueue ------------------------------------------------------------------------

/// Adds the entry.
pub const KQ_EV_ADD: u16 = 0x0001;

/// Takes the entry off.
pub const KQ_EV_DELETE: u16 = 0x0002;

/// Lets the entry report.
pub const KQ_EV_ENABLE: u16 = 0x0004;

/// Resets the entry after it reported.
pub const KQ_EV_CLEAR: u16 = 0x0020;

/// The other side has closed.
pub const KQ_EV_EOF: u16 = 0x8000;

/// An error is reported.
pub const KQ_EV_ERROR: u16 = 0x4000;

/// Readable.
pub const KQ_EVFILT_READ: i16 = -1;

/// Writable.
pub const KQ_EVFILT_WRITE: i16 = -2;

/// Flags of an entry that is added: it reports once for every change.
pub const KQ_EV_ARM: u16 = 0x0025;

/// One change to the kernel's list.
#[derive(Debug, Clone, Copy, PartialEq, Eq, Structural)]
pub struct Change {
    /// File descriptor.
    pub fd: i32,
    /// Filter of the entry.
    pub filter: i16,
    /// What to do with it.
    pub flags: u16,
    /// Token that the entry reports under.
    pub token: Token,
}

/// The filters that watch for `interest`.
pub open spec fn filters_for(interest: Ready) -> Seq<i16> {
    let read = if interest.meets(Ready::read()) {
        seq![KQ_EVFILT_READ]
    } else {
        Seq::empty()
    };
    let write = if interest.meets(Ready::write()) {
        seq![KQ_EVFILT_WRITE]
    } else {
        Seq::empty()
    };
    read + write
}

/// One change per filter.
pub open spec fn changes(filters: Seq<i16>, fd: i32, flags: u16, token: Token) -> Seq<Change> {
    filters.map_values(|filter: i16| Change { fd, filter, flags, token })
}

/// What is watched under a token.
#[derive(Debug)]
struct Registration {
    token: Token,
    fd: i32,
    filters: Vec<i16>,
}

/// What is watched under a token.
#[verifier::ext_equal]
pub ghost struct Watched {
    pub token: Token,
    pub fd: i32,
    pub filters: Seq<i16>,
}

/// The registrations of a kqueue (edge-triggered).
#[derive(Debug)]
pub struct KqueueLoop {
    regs: Vec<Registration>,
}

spec fn watched(r: Registration) -> Watched {
    Watched { token: r.token, fd: r.fd, filters: r.filters@ }
}

impl View for KqueueLoop {
    type V = Seq<Watched>;

    closed spec fn view(&self) -> Seq<Watched> {
        self.regs@.map_values(|r: Registration| watched(r))
    }
}

/// The registrations other than that under `token`.
pub open spec fn other_tokens(regs: Seq<Watched>, token: Token) -> Seq<Watched>
    decreases regs.len(),
{
    if regs.len() == 0 {
        Seq::empty()
    } else if regs[0].token == token {
        other_tokens(regs.drop_first(), token)
    } else {
        seq![regs[0]] + other_tokens(regs.drop_first(), token)
    }
}

/// Where the first registration of `fd` stands.
pub open spec fn fd_at(regs: Seq<Watched>, fd: i32) -> Option<int>
    decreases regs.len(),
{
    if regs.len() == 0 {
        None
    } else if regs[0].fd == fd {
        Some(0)
    } else {
        match fd_at(regs.drop_first(), fd) {
            Some(i) => Some(i + 1),
            None => None,
        }
    }
}

impl KqueueLoop {
    /// No registrations.
    pub fn new() -> (r: KqueueLoop)
        ensures
            r@ == Seq::<Watched>::empty(),
    {
        let r: KqueueLoop = KqueueLoop { regs: Vec::new() };
        assert(r@ =~= Seq::<Watched>::empty());
        r
    }

    /// The changes that start watching `target`. Handles are not watched.
    pub fn plan(target: Target, token: Token, interest: Ready) -> (r: Result<Vec<Change>, String>)
        ensures
            match target {
                Target::Fd(fd) => r is Ok && r->Ok_0@ == changes(
                    filters_for(interest),
                    fd,
                    KQ_EV_ARM,
                    token,
                ),
                Target::Handle(_) => r is Err && r->Err_0@ == "handles are Windows-only"@,
            },
    {
        let fd: i32 = match target {
            Target::Fd(fd) => fd,
            Target::Handle(_) => {
                return Err("handles are Windows-only".to_owned());
            },
        };
        let filters: Vec<i16> = filters_of(interest);
        Ok(changes_of(filters.as_slice(), fd, KQ_EV_ARM, token))
    }

    /// Keeps a registration whose changes the kernel took. It replaces an
    /// earlier one under the same token.
    pub fn armed(&mut self, fd: i32, token: Token, interest: Ready)
        ensures
            final(self)@ == other_tokens(old(self)@, token).push(
                Watched { token, fd, filters: filters_for(interest) },
            ),
    {
        let ghost all = self@;
        let ghost mut k: int = 0;
        let mut i: usize = 0;
        proof {
            assert(all.skip(0) =~= all);
            assert(self@.take(0) + other_tokens(all, token) =~= other_tokens(all, token));
            assert(self@.skip(0) =~= all);
        }
        while i < self.regs.len()
            invariant
                0 <= k <= all.len(),
                i <= self@.len(),
                self@.len() == self.regs@.len(),
                self@.take(i as int) + other_tokens(all.skip(k), token) == other_tokens(all, token),
                self@.skip(i as int) == all.skip(k),
            decreases self.regs@.len() - i,
        {
            let ghost before = self@;
            proof {
                assert(before.skip(i as int).len() == all.skip(k).len());
                assert(before[i as int] == before.skip(i as int)[0]);
                assert(all.skip(k).drop_first() =~= all.skip(k + 1));
                assert(before.skip(i as int).drop_first() =~= before.skip(i + 1));
            }
            if self.regs[i].token == token {
                let gone: Registration = self.regs.remove(i);
                assert(self@ =~= before.remove(i as int));
                assert(self@.take(i as int) =~= before.take(i as int));
                assert(self@.skip(i as int) =~= before.skip(i + 1));
            } else {
                proof {
                    let more = other_tokens(all.skip(k + 1), token);
                    assert(before.take(i as int) + (seq![before[i as int]] + more) =~= before.take(
                        i + 1,
                    ) + more);
                }
                i = i + 1;
            }
            proof {
                k = k + 1;
            }
        }
        proof {
            assert(all.skip(k).len() == 0);
            assert(self@.take(i as int) =~= self@);
            assert(self@ + Seq::<Watched>::empty() =~= self@);
        }
        let ghost before = self@;
        let filters: Vec<i16> = filters_of(interest);
        self.regs.push(Registration { token, fd, filters });
        assert(self@ =~= before.push(Watched { token, fd, filters: filters_for(interest) }));
    }

    /// Forgets the registration of `target` and returns the changes that stop
    /// watching it. There is nothing to do for what is unknown.
    pub fn disarm(&mut self, target: Target) -> (r: Vec<Change>)
        ensures
            match target {
                Target::Fd(fd) => match fd_at(old(self)@, fd) {
                    Some(i) => {
                        &&& final(self)@ == old(self)@.remove(i)
                        &&& r@ == changes(old(self)@[i].filters, fd, KQ_EV_DELETE, 0)
                    },
                    None => final(self)@ == old(self)@ && r@ == Seq::<Change>::empty(),
                },
                Target::Handle(_) => final(self)@ == old(self)@ && r@ == Seq::<Change>::empty(),
            },
    {
        let none: Vec<Change> = Vec::new();
        assert(none@ =~= Seq::<Change>::empty());
        let fd: i32 = match target {
            Target::Fd(fd) => fd,
            Target::Handle(_) => {
                return none;
            },
        };
        let mut i: usize = 0;
        proof {
            assert(self@.skip(0) =~= self@);
        }
        while i < self.regs.len()
            invariant
                i <= self.regs@.len(),
                self@ == old(self)@,
                self@.len() == self.regs@.len(),
                target == Target::Fd(fd),
                match fd_at(self@.skip(i as int), fd) {
                    Some(k) => fd_at(self@, fd) == Some(k + i),
                    None => fd_at(self@, fd) is None,
                },
            decreases self.regs@.len() - i,
        {
            proof {
                assert(self@.skip(i as int)[0] == self@[i as int]);
                assert(self@.skip(i as int).drop_first() =~= self@.skip(i + 1));
            }
            if self.regs[i].fd == fd {
                let ghost before = self@;
                let gone: Registration = self.regs.remove(i);
                assert(self@ =~= before.remove(i as int));
                return changes_of(gone.filters.as_slice(), fd, KQ_EV_DELETE, 0);
            }
            i = i + 1;
        }
        none
    }
}

fn filters_of(interest: Ready) -> (r: Vec<i16>)
    ensures
        r@ == filters_for(interest),
{
    let mut filters: Vec<i16> = Vec::new();
    if interest.intersects(Ready::read()) {
        filters.push(KQ_EVFILT_READ);
    }
    if interest.intersects(Ready::write()) {
        filters.push(KQ_EVFILT_WRITE);
    }
    assert(filters@ =~= filters_for(interest));
    filters
}

fn changes_of(filters: &[i16], fd: i32, flags: u16, token: Token) -> (r: Vec<Change>)
    ensures
        r@ == changes(filters@, fd, flags, token),
{
    let mut out: Vec<Change> = Vec::new();
    let mut i: usize = 0;
    while i < filters.len()
        invariant
            i <= filters@.len(),
            out@.len() == i,
            forall|j: int|
                0 <= j < i ==> #[trigger] out@[j] == (Change {
                    fd,
                    filter: filters@[j],
                    flags,
                    token,
                }),
        decreases filters@.len() - i,
    {
        out.push(Change { fd, filter: filters[i], flags, token });
        i = i + 1;
    }
    assert(out@ =~= changes(filters@, fd, flags, token));
    out
}

/// What an event of a kqueue says is ready.
pub open spec fn kqueue_readiness(flags: u16, filter: i16) -> Ready {
    let trouble = if flags & 0xc000 != 0 {
        Ready::error()
    } else {
        Ready::empty()
    };
    if filter == KQ_EVFILT_READ {
        trouble.or(Ready::read())
    } else if filter == KQ_EVFILT_WRITE {
        trouble.or(Ready::write())
    } else {
        trouble
    }
}

/// What an event of a kqueue says is ready.
pub fn kqueue_ready(flags: u16, filter: i16) -> (r: Ready)
    ensures
        r == kqueue_readiness(flags, filter),
{
    let mut ready: Ready = Ready::empty();
    assert(KQ_EV_ERROR | KQ_EV_EOF == 0xc000u16) by (bit_vector);
    if flags & (KQ_EV_ERROR | KQ_EV_EOF) != 0 {
        ready = ready.union(Ready::error());
        assert(0u8 | 4u8 == 4u8) by (bit_vector);
    }
    if filter == KQ_EVFILT_READ {
        ready = ready.union(Ready::read());
    } else if filter == KQ_EVFILT_WRITE {
        ready = ready.union(Ready::write());
    }
    ready
}

/// Taking a registration off removes the entries that starting it added: the
/// changes of the two name the same descriptor and the same filters.
pub proof fn law_disarm_undoes_arm(regs: Seq<Watched>, fd: i32, token: Token, interest: Ready)
    requires
        fd_at(regs, fd) is None,
        other_tokens(regs, token) == regs,
    ensures
        ({
            let after = other_tokens(regs, token).push(
                Watched { token, fd, filters: filters_for(interest) },
            );
            &&& fd_at(after, fd) == Some(regs.len() as int)
            &&& after.remove(regs.len() as int) == regs
        }),
{
    let w = Watched { token, fd, filters: filters_for(interest) };
    lemma_fd_at_push(regs, fd, w);
    assert(regs.push(w).remove(regs.len() as int) =~= regs);
}

proof fn lemma_fd_at_push(regs: Seq<Watched>, fd: i32, w: Watched)
    requires
        fd_at(regs, fd) is None,
        w.fd == fd,
    ensures
        fd_at(regs.push(w), fd) == Some(regs.len() as int),
    decreases regs.len(),
{
    if regs.len() > 0 {
        lemma_fd_at_push(regs.drop_first(), fd, w);
        assert(regs.push(w).drop_first() =~= regs.drop_first().push(w));
    }
}

// --- I/O completion ports ------------------------------------------------------------

/// A handle with the key that its completions carry.
#[derive(Debug, Clone, Copy)]
struct Association {
    handle: usize,
    key: usize,
}

/// The handles that a completion port serves, each with the key that its
/// completions carry.
#[derive(Debug)]
pub struct IocpLoop {
    registered: Vec<Association>,
}

/// The place of a handle among associations, one past the last where it has none.
spec fn place_of(regs: Seq<Association>, h: usize) -> int
    decreases regs.len(),
{
    if regs.len() == 0 || regs[0].handle == h {
        0
    } else {
        1 + place_of(regs.drop_first(), h)
    }
}

proof fn lemma_place_of(regs: Seq<Association>, h: usize, i: int)
    requires
        0 <= i <= regs.len(),
        i < regs.len() ==> regs[i].handle == h,
        forall|j: int| 0 <= j < i ==> (#[trigger] regs[j]).handle != h,
    ensures
        place_of(regs, h) == i,
    decreases regs.len(),
{
    if i > 0 {
        let rest = regs.drop_first();
        assert forall|j: int| 0 <= j < i - 1 implies (#[trigger] rest[j]).handle != h by {
            assert(rest[j] == regs[j + 1]);
        }
        lemma_place_of(rest, h, i - 1);
    }
}

proof fn lemma_place_of_range(regs: Seq<Association>, h: usize)
    ensures
        0 <= place_of(regs, h) <= regs.len(),
        place_of(regs, h) < regs.len() ==> regs[place_of(regs, h)].handle == h,
    decreases regs.len(),
{
    if regs.len() > 0 && regs[0].handle != h {
        lemma_place_of_range(regs.drop_first(), h);
    }
}

/// Whether a handle's completions carry `key`.
pub open spec fn serves(regs: Map<usize, usize>, key: usize) -> bool {
    exists|h: usize| #[trigger] regs.contains_key(h) && regs[h] == key
}

/// What a completion makes known. One that was posted is always passed on; one
/// of a handle only while that handle is registered, for a port cannot let go
/// of a handle and may still report on one that was taken off.
pub open spec fn completion(regs: Map<usize, usize>, key: usize, posted: bool) -> Option<Event> {
    if posted || serves(regs, key) {
        Some(Event { token: key as u64, ready: Ready::read().or(Ready::write()) })
    } else {
        None
    }
}

impl View for IocpLoop {
    type V = Map<usize, usize>;

    /// The key of each handle.
    closed spec fn view(&self) -> Map<usize, usize> {
        Map::new(
            |h: usize| place_of(self.registered@, h) < self.registered@.len(),
            |h: usize| self.registered@[place_of(self.registered@, h)].key,
        )
    }
}

impl IocpLoop {
    /// Every handle stands once.
    pub closed spec fn wf(&self) -> bool {
        forall|i: int, j: int|
            0 <= i < j < self.registered@.len() ==> (#[trigger] self.registered@[i]).handle != (
            #[trigger] self.registered@[j]).handle
    }

    /// No handles.
    pub fn new() -> (r: IocpLoop)
        ensures
            r.wf(),
            r@ == Map::<usize, usize>::empty(),
    {
        let r: IocpLoop = IocpLoop { registered: Vec::new() };
        assert(r@ =~= Map::<usize, usize>::empty());
        r
    }

    /// The handle to associate with the port. Descriptors are not watched.
    pub fn plan(target: Target) -> (r: Result<usize, String>)
        ensures
            match target {
                Target::Handle(h) => r is Ok && r->Ok_0 == h,
                Target::Fd(_) => r is Err && r->Err_0@ == "fds are Unix-only"@,
            },
    {
        match target {
            Target::Handle(h) => Ok(h),
            Target::Fd(_) => Err("fds are Unix-only".to_owned()),
        }
    }

    fn find(&self, h: usize) -> (r: usize)
        ensures
            r == place_of(self.registered@, h),
            r <= self.registered@.len(),
            r < self.registered@.len() ==> self.registered@[r as int].handle == h,
    {
        let mut i: usize = 0;
        while i < self.registered.len()
            invariant
                i <= self.registered@.len(),
                forall|j: int| 0 <= j < i ==> (#[trigger] self.registered@[j]).handle != h,
            decreases self.registered@.len() - i,
        {
            if self.registered[i].handle == h {
                proof {
                    lemma_place_of(self.registered@, h, i as int);
                }
                return i;
            }
            i = i + 1;
        }
        proof {
            lemma_place_of(self.registered@, h, i as int);
        }
        i
    }

    /// The view holds exactly what stands in the list.
    proof fn lemma_listed(&self, i: int)
        requires
            self.wf(),
            0 <= i < self.registered@.len(),
        ensures
            self@.contains_key(self.registered@[i].handle),
            self@[self.registered@[i].handle] == self.registered@[i].key,
    {
        lemma_place_of(self.registered@, self.registered@[i].handle, i);
    }

    /// Keeps a handle that the port took, with the key it was given.
    pub fn associated(&mut self, h: usize, key: usize)
        requires
            old(self).wf(),
        ensures
            final(self).wf(),
            final(self)@ == old(self)@.insert(h, key),
    {
        let i: usize = self.find(h);
        let ghost before = self.registered@;
        let a: Association = Association { handle: h, key };
        if i < self.registered.len() {
            self.registered.set(i, a);
        } else {
            self.registered.push(a);
            assert forall|j: int| 0 <= j < before.len() implies (#[trigger] before[j]).handle
                != h by {
                if before[j].handle == h {
                    old(self).lemma_listed(j);
                }
            }
        }
        proof {
            let after = self.registered@;
            assert(after[i as int] == a);
            self.lemma_listed(i as int);
            assert forall|x: usize| x != h && #[trigger] old(self)@.contains_key(
                x,
            ) implies self@.contains_key(x) && self@[x] == old(self)@[x] by {
                lemma_place_of_range(before, x);
                let k = place_of(before, x);
                assert(after[k] == before[k]);
                self.lemma_listed(k);
            }
            assert forall|x: usize| #[trigger] self@.contains_key(x) implies x == h || old(
                self,
            )@.contains_key(x) by {
                lemma_place_of_range(after, x);
                let k = place_of(after, x);
                if k != i {
                    assert(after[k] == before[k]);
                    old(self).lemma_listed(k);
                }
            }
            assert(self@ =~= old(self)@.insert(h, key));
        }
    }

    /// Forgets a handle. The port itself cannot let go of it.
    pub fn unregister(&mut self, target: Target)
        requires
            old(self).wf(),
        ensures
            final(self).wf(),
            final(self)@ == (match target {
                Target::Handle(h) => old(self)@.remove(h),
                Target::Fd(_) => old(self)@,
            }),
    {
        if let Target::Handle(h) = target {
            let i: usize = self.find(h);
            let ghost before = self.registered@;
            if i < self.registered.len() {
                self.registered.remove(i);
                proof {
                    let after = self.registered@;
                    assert(after =~= before.remove(i as int));
                    assert forall|x: usize| x != h && #[trigger] old(self)@.contains_key(
                        x,
                    ) implies self@.contains_key(x) && self@[x] == old(self)@[x] by {
                        lemma_place_of_range(before, x);
                        let k = place_of(before, x);
                        let j = if k < i {
                            k
                        } else {
                            k - 1
                        };
                        assert(after[j] == before[k]);
                        self.lemma_listed(j);
                    }
                    assert forall|x: usize| #[trigger] self@.contains_key(x) implies x != h
                        && old(self)@.contains_key(x) by {
                        lemma_place_of_range(after, x);
                        let k = place_of(after, x);
                        let j = if k < i {
                            k
                        } else {
                            k + 1
                        };
                        assert(before[j] == after[k]);
                        old(self).lemma_listed(j);
                    }
                }
            }
            assert(self@ =~= old(self)@.remove(h));
        }
    }

    /// What a completion makes known, if it is to be passed on: it carries no
    /// direction.
    pub fn completed(&self, key: usize, posted: bool) -> (r: Option<Event>)
        requires
            self.wf(),
        ensures
            r == completion(self@, key, posted),
    {
        let mut due: bool = posted;
        let mut i: usize = 0;
        while i < self.registered.len()
            invariant
                i <= self.registered@.len(),
                self.wf(),
                due ==> posted || serves(self@, key),
                posted ==> due,
                !due ==> forall|j: int|
                    0 <= j < i ==> (#[trigger] self.registered@[j]).key != key,
            decreases self.registered@.len() - i,
        {
            if self.registered[i].key == key {
                proof {
                    self.lemma_listed(i as int);
                }
                due = true;
            }
            i = i + 1;
        }
        if due {
            Some(Event { token: key as u64, ready: Ready::read().union(Ready::write()) })
        } else {
            proof {
                if serves(self@, key) {
                    let h = choose|h: usize| #[trigger] self@.contains_key(h) && self@[h] == key;
                    lemma_place_of_range(self.registered@, h);
                }
            }
            None
        }
    }
}

/// A handle that was taken off is heard of no more: while no other handle has
/// its key, completions that carry it are dropped, and those that were posted
/// still arrive.
pub proof fn law_unregistered_is_silent(regs: Map<usize, usize>, h: usize)
    requires
        regs.contains_key(h),
        forall|other: usize| #[trigger]
            regs.contains_key(other) && other != h ==> regs[other] != regs[h],
    ensures
        completion(regs, regs[h], false) is Some,
        completion(regs.remove(h), regs[h], false) is None,
        completion(regs.remove(h), regs[h], true) == completion(regs, regs[h], true),
{
    assert(!serves(regs.remove(h), regs[h])) by {
        if serves(regs.remove(h), regs[h]) {
            let o = choose|o: usize| #[trigger]
                regs.remove(h).contains_key(o) && regs.remove(h)[o] == regs[h];
            assert(regs.contains_key(o));
        }
    }
}

/// A waiting time in milliseconds, as a completion port takes it: at most the
/// largest number, which also stands for no limit.
pub open spec fn wait_millis(timeout: Option<Timeout>) -> u32 {
    match timeout {
        Some(t) => {
            let ms = t.secs * 1000 + t.nanos as int / 1_000_000;
            if ms > u32::MAX {
                u32::MAX
            } else {
                ms as u32
            }
        },
        None => u32::MAX,
    }
}

/// A waiting time in milliseconds, as a completion port takes it.
pub fn wait_ms(timeout: Option<Timeout>) -> (r: u32)
    ensures
        r == wait_millis(timeout),
{
    match timeout {
        Some(t) => {
            let ms: u128 = t.secs as u128 * 1000 + (t.nanos / 1_000_000) as u128;
            if ms > u32::MAX as u128 {
                u32::MAX
            } else {
                ms as u32
            }
        },
        None => u32::MAX,
    }
}

/// A descriptor is watched for reading, filter -1, exactly if the lowest bit of the
/// interest is set, and for writing, filter -2, exactly if the next one is.
pub proof fn law_filters_follow_the_interest(interest: Ready)
    ensures
        filters_for(interest).contains(-1i16) <==> interest.0 % 2 == 1,
        filters_for(interest).contains(-2i16) <==> (interest.0 / 2) % 2 == 1,
        forall|i: int|
            0 <= i < filters_for(interest).len() ==> #[trigger] filters_for(interest)[i] == -1i16
                || filters_for(interest)[i] == -2i16,
{
    let b = interest.0;
    assert(b & 1 != 0 <==> b % 2 == 1) by (bit_vector);
    assert(b & 2 != 0 <==> (b / 2) % 2 == 1) by (bit_vector);
    let f = filters_for(interest);
    if b & 1 != 0 {
        assert(f[0] == -1i16);
    }
    if b & 2 != 0 {
        assert(f[f.len() - 1] == -2i16);
    }
}

/// A filter that fired says that its side is ready, and the two highest bits of
/// the flags, error and end of file, that there is trouble.
pub proof fn law_readiness_of_a_filter(flags: u16, filter: i16)
    ensures
        kqueue_readiness(flags, filter).covers(Ready::read()) <==> filter == -1,
        kqueue_readiness(flags, filter).covers(Ready::write()) <==> filter == -2,
        kqueue_readiness(flags, filter).covers(Ready::error()) <==> flags >= 0x4000,
{
    assert(flags & 0xc000 != 0 <==> flags >= 0x4000) by (bit_vector);
    assert(0u8 | 1u8 == 1 && 0u8 | 2u8 == 2 && 4u8 | 1u8 == 5 && 4u8 | 2u8 == 6) by (bit_vector);
    assert(0u8 & 1u8 == 0 && 0u8 & 2u8 == 0 && 0u8 & 4u8 == 0 && 1u8 & 1u8 == 1 && 1u8 & 2u8 == 0
        && 1u8 & 4u8 == 0 && 2u8 & 1u8 == 0 && 2u8 & 2u8 == 2 && 2u8 & 4u8 == 0 && 4u8 & 1u8 == 0
        && 4u8 & 2u8 == 0 && 4u8 & 4u8 == 4 && 5u8 & 1u8 == 1 && 5u8 & 2u8 == 0 && 5u8 & 4u8 == 4
        && 6u8 & 1u8 == 0 && 6u8 & 2u8 == 2 && 6u8 & 4u8 == 4) by (bit_vector);
}

/// A wait is given in whole milliseconds: never longer than asked for, and less
/// than one millisecond short of it, as long as it fits; longer ones, and none,
/// are the longest there is.
pub proof fn law_wait_in_milliseconds(t: Timeout)
    ensures
        ({
            let ns = t.secs * 1_000_000_000 + t.nanos;
            let ms = wait_millis(Some(t));
            &&& ms * 1_000_000 <= ns
            &&& ms < u32::MAX ==> ns < (ms + 1) * 1_000_000
        }),
        wait_millis(None) == u32::MAX,
{
}

/// A completion is delivered under its key, ready for reading and for writing.
pub proof fn law_completions_are_ready(regs: Map<usize, usize>, key: usize, posted: bool)
    ensures
        posted ==> completion(regs, key, posted) is Some,
        completion(regs, key, posted) matches Some(e) ==> {
            &&& e.token == key
            &&& e.ready.covers(Ready::read())
            &&& e.ready.covers(Ready::write())
            &&& !e.ready.covers(Ready::error())
        },
{
    assert(1u8 | 2u8 == 3 && 3u8 & 1u8 == 1 && 3u8 & 2u8 == 2 && 3u8 & 4u8 == 0) by (bit_vector);
}

} // verus!
