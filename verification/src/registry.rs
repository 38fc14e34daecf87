//! Client registry: who is connected, under which name, and where to write
//! to reach them.
//!
//! Every operation takes the registry by reference and is one step: a caller
//! that shares a registry between connections keeps it behind one lock and
//! holds that lock for a single call. No operation performs I/O. `broadcast`
//! returns the deliveries to make, so the writes happen after the lock is
//! released.
//!
//! Names are compared after trimming whitespace, byte for byte.

use vstd::prelude::*;
use crate::text::{trimmed, trim, bytes_eq, to_bytes, lemma_trimmed_idempotent};

verus! {

/// Identifies the outbound write handle of one connection.
pub type SinkId = u64;

/// One registered client, as contracts see it.
pub struct Member {
    pub name: Seq<u8>,
    pub sink: SinkId,
}

/// One message to write to one client.
#[derive(Clone, Debug, PartialEq, Eq)]
pub struct Delivery {
    /// The registered name of the client to write to.
    pub recipient: Vec<u8>,
    /// Where to write.
    pub sink: SinkId,
    /// The text to write, not yet framed.
    pub payload: Vec<u8>,
}

/// A [`Delivery`] as contracts see it.
pub struct DeliveryView {
    pub recipient: Seq<u8>,
    pub sink: SinkId,
    pub payload: Seq<u8>,
}

impl View for Delivery {
    type V = DeliveryView;

    open spec fn view(&self) -> DeliveryView {
        DeliveryView { recipient: self.recipient@, sink: self.sink, payload: self.payload@ }
    }
}

/// The views of a sequence of deliveries.
pub open spec fn delivery_views(v: Seq<Delivery>) -> Seq<DeliveryView> {
    Seq::new(v.len(), |i: int| v[i]@)
}

/// Why a registration was refused.
#[derive(Clone, Copy, Debug, PartialEq, Eq, Structural)]
pub enum RegisterError {
    /// Another client holds the name.
    UsernameTaken,
    /// Nothing is left of the name after trimming.
    BlankUsername,
}

/// Proof of a successful registration: names the client in later calls.
#[derive(Debug)]
pub struct RegistrationHandle {
    name: Vec<u8>,
}

impl View for RegistrationHandle {
    type V = Seq<u8>;

    closed spec fn view(&self) -> Seq<u8> {
        self.name@
    }
}

impl RegistrationHandle {
    /// The name that was registered, trimmed.
    pub fn username(&self) -> (name: &Vec<u8>)
        ensures
            name@ == self@,
    {
        &self.name
    }
}

/// Index of the member called `name`, or `ms.len()` if there is none.
pub open spec fn index_of_name(ms: Seq<Member>, name: Seq<u8>) -> nat
    decreases ms.len(),
{
    if ms.len() > 0 && ms[0].name != name {
        1 + index_of_name(ms.skip(1), name)
    } else {
        0
    }
}

/// Whether some member is called `name`.
pub open spec fn is_registered(ms: Seq<Member>, name: Seq<u8>) -> bool {
    index_of_name(ms, name) < ms.len()
}

/// The sink of the member called `name`.
pub open spec fn sink_of(ms: Seq<Member>, name: Seq<u8>) -> Option<SinkId> {
    if is_registered(ms, name) {
        Some(ms[index_of_name(ms, name) as int].sink)
    } else {
        None
    }
}

/// The names of the members, in order.
pub open spec fn names(ms: Seq<Member>) -> Seq<Seq<u8>> {
    Seq::new(ms.len(), |i: int| ms[i].name)
}

/// A valid registry: every name is non-empty and trimmed, and no two members
/// share a name.
pub open spec fn well_formed(ms: Seq<Member>) -> bool {
    &&& forall|i: int|
        0 <= i < ms.len() ==> (#[trigger] ms[i]).name.len() > 0 && trimmed(ms[i].name)
            == ms[i].name
    &&& forall|i: int, j: int|
        0 <= i < j < ms.len() ==> (#[trigger] ms[i]).name != (#[trigger] ms[j]).name
}

/// Whether `username` can be registered: something is left of it after
/// trimming, and nobody holds that.
pub open spec fn can_register(ms: Seq<Member>, username: Seq<u8>) -> bool {
    trimmed(username).len() > 0 && !is_registered(ms, trimmed(username))
}

/// The members after an attempt to register `username` with `sink`: the new
/// member at the back if the name can be registered, no change otherwise.
pub open spec fn with_member(ms: Seq<Member>, username: Seq<u8>, sink: SinkId) -> Seq<Member> {
    if can_register(ms, username) {
        ms.push(Member { name: trimmed(username), sink })
    } else {
        ms
    }
}

/// The members without the one called `username` after trimming, if any.
pub open spec fn without_member(ms: Seq<Member>, username: Seq<u8>) -> Seq<Member> {
    if is_registered(ms, trimmed(username)) {
        ms.remove(index_of_name(ms, trimmed(username)) as int)
    } else {
        ms
    }
}

/// The deliveries of a broadcast of `text`: one to each member but the one
/// called `exclude`, in registration order.
pub open spec fn fan_out(ms: Seq<Member>, text: Seq<u8>, exclude: Seq<u8>) -> Seq<DeliveryView>
    decreases ms.len(),
{
    if ms.len() == 0 {
        Seq::empty()
    } else if ms.last().name == exclude {
        fan_out(ms.drop_last(), text, exclude)
    } else {
        fan_out(ms.drop_last(), text, exclude).push(
            DeliveryView { recipient: ms.last().name, sink: ms.last().sink, payload: text },
        )
    }
}

/// Number of deliveries in `ds` addressed to `name`.
pub open spec fn count_to(ds: Seq<DeliveryView>, name: Seq<u8>) -> nat
    decreases ds.len(),
{
    if ds.len() == 0 {
        0
    } else if ds.last().recipient == name {
        1 + count_to(ds.drop_last(), name)
    } else {
        count_to(ds.drop_last(), name)
    }
}

/// The members after registering each of `requests` in turn, starting from
/// nobody. A request's `name` is the name as the client sent it.
pub open spec fn after_registrations(requests: Seq<Member>) -> Seq<Member>
    decreases requests.len(),
{
    if requests.len() == 0 {
        Seq::empty()
    } else {
        with_member(
            after_registrations(requests.drop_last()),
            requests.last().name,
            requests.last().sink,
        )
    }
}

/// `index_of_name(ms, name)` is the one index `a` with no member called
/// `name` before it and either the end of `ms` or such a member at it.
pub proof fn lemma_index_of_name(ms: Seq<Member>, name: Seq<u8>, a: int)
    requires
        0 <= a <= ms.len(),
        forall|i: int| 0 <= i < a ==> (#[trigger] ms[i]).name != name,
        a == ms.len() || ms[a].name == name,
    ensures
        index_of_name(ms, name) == a,
    decreases a,
{
    if a > 0 {
        let t = ms.skip(1);
        assert forall|i: int| 0 <= i < a - 1 implies (#[trigger] t[i]).name != name by {
            assert(t[i] == ms[i + 1]);
        }
        lemma_index_of_name(t, name, a - 1);
    }
}

/// The bounds of `index_of_name`, and what stands before and at the index it
/// gives.
pub proof fn lemma_index_of_name_bounds(ms: Seq<Member>, name: Seq<u8>)
    ensures
        index_of_name(ms, name) <= ms.len(),
        forall|i: int| 0 <= i < index_of_name(ms, name) ==> (#[trigger] ms[i]).name != name,
        is_registered(ms, name) ==> ms[index_of_name(ms, name) as int].name == name,
        is_registered(ms, name) <==> exists|i: int| 0 <= i < ms.len() && (#[trigger] ms[i]).name == name,
    decreases ms.len(),
{
    let at = index_of_name(ms, name);
    if ms.len() > 0 && ms[0].name != name {
        let t = ms.skip(1);
        lemma_index_of_name_bounds(t, name);
        assert forall|i: int| 0 <= i < at implies (#[trigger] ms[i]).name != name by {
            if i > 0 {
                assert(ms[i] == t[i - 1]);
            }
        }
        if at < ms.len() {
            assert(ms[at as int] == t[at - 1]);
        }
    }
    if at < ms.len() {
        assert(ms[at as int].name == name);
    }
}

/// A registration keeps the registry valid.
pub proof fn lemma_with_member_well_formed(ms: Seq<Member>, username: Seq<u8>, sink: SinkId)
    requires
        well_formed(ms),
    ensures
        well_formed(with_member(ms, username, sink)),
{
    if can_register(ms, username) {
        let name = trimmed(username);
        let after = with_member(ms, username, sink);
        lemma_trimmed_idempotent(username);
        lemma_index_of_name_bounds(ms, name);
        assert forall|i: int| 0 <= i < after.len() implies (#[trigger] after[i]).name.len() > 0
            && trimmed(after[i].name) == after[i].name by {
            if i < ms.len() {
                assert(after[i] == ms[i]);
            }
        }
        assert forall|i: int, j: int| 0 <= i < j < after.len() implies (#[trigger] after[i]).name
            != (#[trigger] after[j]).name by {
            assert(after[i] == ms[i]);
            if j < ms.len() {
                assert(after[j] == ms[j]);
            }
        }
    }
}

/// A removal keeps the registry valid.
pub proof fn lemma_without_member_well_formed(ms: Seq<Member>, username: Seq<u8>)
    requires
        well_formed(ms),
    ensures
        well_formed(without_member(ms, username)),
{
    let name = trimmed(username);
    if is_registered(ms, name) {
        let at = index_of_name(ms, name) as int;
        let after = without_member(ms, username);
        assert forall|i: int| 0 <= i < after.len() implies (#[trigger] after[i]).name.len() > 0
            && trimmed(after[i].name) == after[i].name by {
            if i < at {
                assert(after[i] == ms[i]);
            } else {
                assert(after[i] == ms[i + 1]);
            }
        }
        assert forall|i: int, j: int| 0 <= i < j < after.len() implies (#[trigger] after[i]).name
            != (#[trigger] after[j]).name by {
            let oi = if i < at { i } else { i + 1 };
            let oj = if j < at { j } else { j + 1 };
            assert(after[i] == ms[oi]);
            assert(after[j] == ms[oj]);
        }
    }
}

/// Whatever registrations arrive and in whatever order they are served, no
/// two members ever share a name, and every name is non-empty and trimmed.
pub proof fn lemma_names_stay_unique(requests: Seq<Member>)
    ensures
        well_formed(after_registrations(requests)),
    decreases requests.len(),
{
    if requests.len() > 0 {
        lemma_names_stay_unique(requests.drop_last());
        lemma_with_member_well_formed(
            after_registrations(requests.drop_last()),
            requests.last().name,
            requests.last().sink,
        );
    }
}

/// A registration under a name that is held changes nothing: the holder
/// keeps its place and its sink.
pub proof fn lemma_taken_name_leaves_holder(ms: Seq<Member>, username: Seq<u8>, sink: SinkId)
    requires
        is_registered(ms, trimmed(username)),
    ensures
        with_member(ms, username, sink) == ms,
        sink_of(with_member(ms, username, sink), trimmed(username)) == sink_of(
            ms,
            trimmed(username),
        ),
{
}

/// Once a name is unregistered, looking it up finds nobody, and the name can
/// be registered again at once.
pub proof fn lemma_unregister_frees_name(ms: Seq<Member>, username: Seq<u8>, sink: SinkId)
    requires
        well_formed(ms),
    ensures
        sink_of(without_member(ms, username), trimmed(username)) == None::<SinkId>,
        !is_registered(without_member(ms, username), trimmed(username)),
        trimmed(username).len() > 0 ==> can_register(without_member(ms, username), username)
            && sink_of(
            with_member(without_member(ms, username), username, sink),
            trimmed(username),
        ) == Some(sink),
{
    let name = trimmed(username);
    let after = without_member(ms, username);
    lemma_index_of_name_bounds(ms, name);
    if is_registered(ms, name) {
        let at = index_of_name(ms, name) as int;
        assert forall|i: int| 0 <= i < after.len() implies (#[trigger] after[i]).name != name by {
            if i < at {
                assert(after[i] == ms[i]);
            } else {
                assert(after[i] == ms[i + 1]);
            }
        }
    }
    lemma_index_of_name(after, name, after.len() as int);
    if name.len() > 0 {
        let again = with_member(after, username, sink);
        assert forall|i: int| 0 <= i < after.len() implies (#[trigger] again[i]).name != name by {
            assert(again[i] == after[i]);
        }
        lemma_index_of_name(again, name, after.len() as int);
    }
}

/// A broadcast reaches every member but the excluded one exactly once, and
/// the excluded one never. Every delivery carries the text, to the sink of
/// the member it is addressed to.
pub proof fn lemma_broadcast_reaches_each_once(
    ms: Seq<Member>,
    text: Seq<u8>,
    exclude: Seq<u8>,
    name: Seq<u8>,
)
    requires
        well_formed(ms),
    ensures
        count_to(fan_out(ms, text, exclude), name) == if is_registered(ms, name) && name
            != exclude {
            1nat
        } else {
            0nat
        },
        forall|k: int|
            0 <= k < fan_out(ms, text, exclude).len() ==> {
                let d = #[trigger] fan_out(ms, text, exclude)[k];
                d.payload == text && d.recipient != exclude && sink_of(ms, d.recipient) == Some(
                    d.sink,
                )
            },
    decreases ms.len(),
{
    lemma_index_of_name_bounds(ms, name);
    if ms.len() > 0 {
        let front = ms.drop_last();
        let last = ms.last();
        assert forall|i: int| 0 <= i < front.len() implies (#[trigger] front[i]).name.len() > 0
            && trimmed(front[i].name) == front[i].name by {
            assert(front[i] == ms[i]);
        }
        assert forall|i: int, j: int| 0 <= i < j < front.len() implies (#[trigger] front[i]).name
            != (#[trigger] front[j]).name by {
            assert(front[i] == ms[i]);
            assert(front[j] == ms[j]);
        }
        lemma_broadcast_reaches_each_once(front, text, exclude, name);
        lemma_index_of_name_bounds(front, name);
        // `name` is registered in `ms` exactly if it is in `front` or is the last name,
        // and never both.
        if is_registered(front, name) {
            let i = index_of_name(front, name) as int;
            assert(ms[i] == front[i]);
            assert(ms[i].name != last.name);
        }
        if is_registered(ms, name) && last.name != name {
            let i = index_of_name(ms, name) as int;
            assert(front[i] == ms[i]);
        }
        let ds = fan_out(ms, text, exclude);
        let fs = fan_out(front, text, exclude);
        if last.name != exclude {
            assert(ds.drop_last() =~= fs);
        }
        assert forall|k: int| 0 <= k < ds.len() implies {
            let d = #[trigger] ds[k];
            d.payload == text && d.recipient != exclude && sink_of(ms, d.recipient) == Some(d.sink)
        } by {
            let d = ds[k];
            if k < fs.len() {
                assert(d == fs[k]);
                lemma_index_of_name_bounds(front, d.recipient);
                let i = index_of_name(front, d.recipient) as int;
                assert forall|j: int| 0 <= j < i implies (#[trigger] ms[j]).name
                    != d.recipient by {
                    assert(ms[j] == front[j]);
                }
                assert(ms[i] == front[i]);
                lemma_index_of_name(ms, d.recipient, i);
            } else {
                assert forall|j: int| 0 <= j < ms.len() - 1 implies (#[trigger] ms[j]).name
                    != d.recipient by {}
                lemma_index_of_name(ms, d.recipient, ms.len() - 1);
            }
        }
    }
}

#[derive(Debug)]
struct Entry {
    name: Vec<u8>,
    sink: SinkId,
}

/// The registered clients, in registration order.
#[derive(Debug)]
pub struct Registry {
    entries: Vec<Entry>,
}

impl Registry {
    /// The registered clients, in registration order.
    pub closed spec fn members(&self) -> Seq<Member> {
        Seq::new(
            self.entries@.len(),
            |i: int| Member { name: self.entries@[i].name@, sink: self.entries@[i].sink },
        )
    }

    /// The internal invariant: names are non-empty, trimmed and unique.
    pub open spec fn wf(&self) -> bool {
        well_formed(self.members())
    }

    /// A registry with nobody in it.
    pub fn new() -> (r: Registry)
        ensures
            r.wf(),
            r.members() == Seq::<Member>::empty(),
    {
        let r = Registry { entries: Vec::new() };
        assert(r.members() =~= Seq::<Member>::empty());
        r
    }

    /// Number of registered clients.
    pub fn len(&self) -> (n: usize)
        ensures
            n == self.members().len(),
    {
        self.entries.len()
    }

    /// Whether nobody is registered.
    pub fn is_empty(&self) -> (b: bool)
        ensures
            b == (self.members().len() == 0),
    {
        self.entries.len() == 0
    }

    fn position(&self, name: &[u8]) -> (at: usize)
        ensures
            at == index_of_name(self.members(), name@),
            at <= self.members().len(),
            at < self.members().len() ==> self.entries@[at as int].name@ == name@,
    {
        let mut i: usize = 0;
        while i < self.entries.len() && !bytes_eq(self.entries[i].name.as_slice(), name)
            invariant
                i <= self.entries@.len(),
                forall|j: int| 0 <= j < i ==> (#[trigger] self.members()[j]).name != name@,
            decreases self.entries@.len() - i,
        {
            i += 1;
        }
        proof {
            if i < self.entries@.len() {
                assert(self.members()[i as int].name == name@);
            }
            lemma_index_of_name(self.members(), name@, i as int);
        }
        i
    }

    /// Whether a client is registered under `username`, trimmed.
    pub fn contains(&self, username: &[u8]) -> (b: bool)
        ensures
            b == is_registered(self.members(), trimmed(username@)),
    {
        let name = trim(username);
        self.position(name.as_slice()) < self.entries.len()
    }

    /// Registers `sink` under `username`, trimmed, if nobody holds that name.
    ///
    /// The check and the insertion are one step. A refusal changes nothing.
    pub fn register(&mut self, username: &[u8], sink: SinkId) -> (r: Result<
        RegistrationHandle,
        RegisterError,
    >)
        requires
            old(self).wf(),
        ensures
            final(self).wf(),
            final(self).members() == with_member(old(self).members(), username@, sink),
            match r {
                Ok(handle) => can_register(old(self).members(), username@) && handle@ == trimmed(
                    username@,
                ),
                Err(RegisterError::BlankUsername) => trimmed(username@).len() == 0,
                Err(RegisterError::UsernameTaken) => trimmed(username@).len() > 0 && is_registered(
                    old(self).members(),
                    trimmed(username@),
                ),
            },
    {
        let name = trim(username);
        if name.len() == 0 {
            return Err(RegisterError::BlankUsername);
        }
        if self.position(name.as_slice()) < self.entries.len() {
            return Err(RegisterError::UsernameTaken);
        }
        let held = to_bytes(name.as_slice());
        self.entries.push(Entry { name, sink });
        proof {
            assert(self.members() =~= with_member(old(self).members(), username@, sink));
            lemma_with_member_well_formed(old(self).members(), username@, sink);
        }
        Ok(RegistrationHandle { name: held })
    }

    /// Removes the client registered under `username`, trimmed. Does nothing
    /// if there is none, so a second call for the same name is harmless.
    pub fn unregister(&mut self, username: &[u8])
        requires
            old(self).wf(),
        ensures
            final(self).wf(),
            final(self).members() == without_member(old(self).members(), username@),
    {
        let name = trim(username);
        let at: usize = self.position(name.as_slice());
        if at < self.entries.len() {
            let _ = self.entries.remove(at);
            assert(self.members() =~= without_member(old(self).members(), username@));
        }
        proof {
            lemma_without_member_well_formed(old(self).members(), username@);
        }
    }

    /// The sink of the client registered under `username`, trimmed.
    pub fn lookup(&self, username: &[u8]) -> (r: Option<SinkId>)
        ensures
            r == sink_of(self.members(), trimmed(username@)),
    {
        let name = trim(username);
        let at: usize = self.position(name.as_slice());
        if at < self.entries.len() {
            Some(self.entries[at].sink)
        } else {
            None
        }
    }

    /// The registered names, in registration order.
    pub fn list(&self) -> (r: Vec<Vec<u8>>)
        ensures
            crate::codec::views(r@) == names(self.members()),
    {
        let mut out: Vec<Vec<u8>> = Vec::new();
        let mut i: usize = 0;
        while i < self.entries.len()
            invariant
                i <= self.entries@.len(),
                out@.len() == i,
                forall|j: int| 0 <= j < i ==> (#[trigger] out@[j])@ == self.members()[j].name,
            decreases self.entries@.len() - i,
        {
            out.push(to_bytes(self.entries[i].name.as_slice()));
            i += 1;
        }
        assert(crate::codec::views(out@) =~= names(self.members()));
        out
    }

    /// The deliveries that send `text` to every registered client but the one
    /// registered under `exclude`, trimmed.
    pub fn broadcast(&self, text: &[u8], exclude: &[u8]) -> (r: Vec<Delivery>)
        ensures
            delivery_views(r@) == fan_out(self.members(), text@, trimmed(exclude@)),
    {
        let skip = trim(exclude);
        let mut out: Vec<Delivery> = Vec::new();
        let mut i: usize = 0;
        assert(self.members().take(0) =~= Seq::<Member>::empty());
        assert(delivery_views(out@) =~= Seq::<DeliveryView>::empty());
        while i < self.entries.len()
            invariant
                i <= self.entries@.len(),
                skip@ == trimmed(exclude@),
                delivery_views(out@) == fan_out(self.members().take(i as int), text@, skip@),
            decreases self.entries@.len() - i,
        {
            let ghost before = delivery_views(out@);
            let ghost upto = self.members().take(i + 1);
            assert(upto.drop_last() =~= self.members().take(i as int));
            assert(upto.last() == self.members()[i as int]);
            let entry = &self.entries[i];
            if !bytes_eq(entry.name.as_slice(), skip.as_slice()) {
                out.push(
                    Delivery {
                        recipient: to_bytes(entry.name.as_slice()),
                        sink: entry.sink,
                        payload: to_bytes(text),
                    },
                );
                assert(delivery_views(out@) =~= before.push(
                    DeliveryView { recipient: upto.last().name, sink: upto.last().sink, payload: text@ },
                ));
            }
            i += 1;
        }
        assert(self.members().take(i as int) =~= self.members());
        out
    }
}

} // verus!
