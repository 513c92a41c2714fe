//! Store and peer bookkeeping: configuration, the lifecycle of a
//! store's handler task, and the per-peer connection registry that
//! refuses duplicate connections.

use vstd::prelude::*;

use crate::ecg::{Header, State};
use crate::twopmap::{TwoPMap, TwoPMapOp, CRDT};
use crate::util::{sha256_finalize, sha256_new, sha256_of, sha256_update, Nonce, Sha256Hash};
use crate::vecset::vec_contains;

verus! {

/// Node configuration: the IPv4 port the listener starts from.
#[derive(Clone, Copy, Debug)]
pub struct OdysseyConfig {
    pub port: u16,
}

/// The lifecycle of one store's handler: commands must queue while the
/// handler task is being spawned. `Ch` is the command channel the
/// running handler listens on.
pub enum StoreStatus<Ch> {
    /// Store is initializing and its async handler is being created.
    Initializing,
    /// Store's async handler is running.
    Running { send_command_chan: Ch },
}

impl<Ch> StoreStatus<Ch> {
    /// Whether the handler is still being created.
    pub fn is_initializing(&self) -> (r: bool)
        ensures
            r == (self is Initializing),
    {
        match self {
            StoreStatus::Initializing => true,
            StoreStatus::Running { .. } => false,
        }
    }

    /// Whether the handler is up.
    pub fn is_initialized(&self) -> (r: bool)
        ensures
            r == (self is Running),
    {
        !self.is_initializing()
    }

    /// The command channel of a running handler.
    pub fn command_channel(&self) -> (r: Option<&Ch>)
        ensures
            match r {
                Some(ch) => self matches StoreStatus::Running { send_command_chan } && ch
                    == send_command_chan,
                None => self is Initializing,
            },
    {
        match self {
            StoreStatus::Initializing => None,
            StoreStatus::Running { send_command_chan } => Some(send_command_chan),
        }
    }
}

/// A peer's identity: the hash of its long-lived signing public key.
#[derive(Clone, Copy, Debug)]
pub struct DeviceId(pub [u8; 32]);

impl View for DeviceId {
    type V = Seq<u8>;

    open spec fn view(&self) -> Seq<u8> {
        self.0@
    }
}

impl DeviceId {
    /// Whether two device ids hold the same bytes.
    pub fn same(&self, other: &DeviceId) -> (r: bool)
        ensures
            r == (self@ =~= other@),
    {
        let mut k: usize = 0;
        while k < 32
            invariant
                0 <= k <= 32,
                self@.len() == 32,
                other@.len() == 32,
                forall|t: int| 0 <= t < k ==> self@[t] == other@[t],
            decreases 32 - k,
        {
            if self.0[k] != other.0[k] {
                return false;
            }
            k += 1;
        }
        proof {
            assert(self@ =~= other@);
        }
        true
    }
}

/// The shared per-peer registry: one entry per connected peer, so a
/// second connection from the same device is refused.
pub struct PeerRegistry {
    peers: Vec<DeviceId>,
}

impl PeerRegistry {
    /// Whether a peer with these identity bytes is registered.
    pub open spec fn has_peer(self, id: Seq<u8>) -> bool {
        exists|i: int| 0 <= i < self.peer_ids().len() && (#[trigger] self.peer_ids()[i]) =~= id
    }

    /// The registered identities, in connection order.
    pub closed spec fn peer_ids(self) -> Seq<Seq<u8>> {
        self.peers@.map_values(|d: DeviceId| d@)
    }

    /// An empty registry.
    pub fn new() -> (r: PeerRegistry)
        ensures
            forall|id: Seq<u8>| !r.has_peer(id),
    {
        PeerRegistry { peers: Vec::new() }
    }
}

/// Initiates a peer: registers it and reports success, or reports a
/// duplicate connection (the caller must then disconnect, keeping the
/// existing session).
pub fn initiate_peer(registry: &mut PeerRegistry, peer_id: DeviceId) -> (r: bool)
    ensures
        r == !old(registry).has_peer(peer_id@),
        final(registry).has_peer(peer_id@),
        forall|id: Seq<u8>|
            #[trigger] final(registry).has_peer(id) == (old(registry).has_peer(id) || id
                =~= peer_id@),
{
    let mut k: usize = 0;
    while k < registry.peers.len()
        invariant
            *registry == *old(registry),
            0 <= k <= registry.peers@.len(),
            forall|t: int| 0 <= t < k ==> !((#[trigger] registry.peer_ids()[t]) =~= peer_id@),
        decreases registry.peers@.len() - k,
    {
        if registry.peers[k].same(&peer_id) {
            proof {
                assert(registry.peer_ids()[k as int] =~= peer_id@);
            }
            return false;
        }
        k += 1;
    }
    registry.peers.push(peer_id);
    proof {
        assert(registry.peer_ids() =~= old(registry).peer_ids().push(peer_id@));
        assert(registry.peer_ids()[registry.peer_ids().len() - 1] =~= peer_id@);
        assert forall|id: Seq<u8>| #[trigger] registry.has_peer(id) implies (old(
            registry,
        ).has_peer(id) || id =~= peer_id@) by {
            let i = choose|i: int|
                0 <= i < registry.peer_ids().len() && (#[trigger] registry.peer_ids()[i]) =~= id;
            if i < old(registry).peer_ids().len() {
                assert(old(registry).peer_ids()[i] =~= id);
            }
        }
        assert forall|id: Seq<u8>| old(registry).has_peer(id) implies registry.has_peer(id) by {
            let i = choose|i: int|
                0 <= i < old(registry).peer_ids().len() && (#[trigger] old(
                    registry,
                ).peer_ids()[i]) =~= id;
            assert(registry.peer_ids()[i] =~= id);
        }
    }
    true
}

/// Derives a fresh store's id: the digest of its creation nonce
/// followed by its serialized initial state.
pub fn derive_store_id(nonce: &Nonce, initial_state: &[u8]) -> (r: Sha256Hash)
    ensures
        r@ == sha256_of(nonce@ + initial_state@),
{
    let mut st = sha256_new();
    let mut prefix: Vec<u8> = Vec::new();
    let mut k: usize = 0;
    while k < 32
        invariant
            0 <= k <= 32,
            nonce@.len() == 32,
            prefix@ == nonce@.take(k as int),
        decreases 32 - k,
    {
        prefix.push(nonce[k]);
        proof {
            assert(prefix@ =~= nonce@.take(k as int + 1));
        }
        k += 1;
    }
    proof {
        assert(prefix@ =~= nonce@);
    }
    sha256_update(&mut st, prefix.as_slice());
    sha256_update(&mut st, initial_state);
    proof {
        assert(crate::util::sha_fed(st) =~= nonce@ + initial_state@);
    }
    sha256_finalize(st)
}

/// The stores a node is running, each under its id with its handler's
/// lifecycle state; ids are unique, so a creation that collides is
/// refused and retried with a fresh nonce.
pub struct StoreRegistry<Ch> {
    stores: Vec<(u64, StoreStatus<Ch>)>,
}

impl<Ch> StoreRegistry<Ch> {
    /// Whether a store with this id is registered.
    pub open spec fn has_store(self, id: u64) -> bool {
        exists|i: int|
            0 <= i < self.store_entries().len() && (#[trigger] self.store_entries()[i]).0 == id
    }

    /// The registered stores, in registration order.
    pub closed spec fn store_entries(self) -> Seq<(u64, StoreStatus<Ch>)> {
        self.stores@
    }

    /// An empty registry.
    pub fn new() -> (r: StoreRegistry<Ch>)
        ensures
            forall|id: u64| !r.has_store(id),
    {
        StoreRegistry { stores: Vec::new() }
    }
}

/// Registers a store under its id and reports success, or refuses a
/// colliding id (the caller then retries with a fresh nonce).
pub fn register_store<Ch>(reg: &mut StoreRegistry<Ch>, id: u64, st: StoreStatus<Ch>) -> (r: bool)
    ensures
        r == !old(reg).has_store(id),
        final(reg).has_store(id),
        forall|x: u64|
            #[trigger] final(reg).has_store(x) == (old(reg).has_store(x) || x == id),
        !r ==> *final(reg) == *old(reg),
{
    let mut k: usize = 0;
    while k < reg.stores.len()
        invariant
            *reg == *old(reg),
            0 <= k <= reg.stores@.len(),
            forall|t: int| 0 <= t < k ==> (#[trigger] reg.stores@[t]).0 != id,
        decreases reg.stores@.len() - k,
    {
        if reg.stores[k].0 == id {
            proof {
                assert(reg.store_entries()[k as int].0 == id);
            }
            return false;
        }
        k += 1;
    }
    reg.stores.push((id, st));
    proof {
        assert(reg.store_entries()[reg.store_entries().len() - 1].0 == id);
        assert(reg.has_store(id));
        assert forall|x: u64| #[trigger] reg.has_store(x) implies (old(reg).has_store(x) || x
            == id) by {
            let i = choose|i: int|
                0 <= i < reg.store_entries().len() && (#[trigger] reg.store_entries()[i]).0 == x;
            if i < old(reg).store_entries().len() {
                assert(old(reg).store_entries()[i].0 == x);
            }
        }
        assert forall|x: u64| old(reg).has_store(x) implies reg.has_store(x) by {
            let i = choose|i: int|
                0 <= i < old(reg).store_entries().len() && (#[trigger] old(
                    reg,
                ).store_entries()[i]).0 == x;
            assert(reg.store_entries()[i].0 == x);
        }
    }
    true
}

/// The identifier word a digest yields: its first eight bytes,
/// big-endian.
pub open spec fn id_word_of(d: Seq<u8>) -> u64
    recommends
        d.len() >= 8,
{
    ((d[0] as u64) << 56) | ((d[1] as u64) << 48) | ((d[2] as u64) << 40) | ((d[3] as u64)
        << 32) | ((d[4] as u64) << 24) | ((d[5] as u64) << 16) | ((d[6] as u64) << 8) | (
    d[7] as u64)
}

/// Folds a digest into the registry's identifier word.
pub fn id_word(h: &Sha256Hash) -> (r: u64)
    ensures
        r == id_word_of(h@),
{
    let b = &h.0;
    ((b[0] as u64) << 56u64) | ((b[1] as u64) << 48u64) | ((b[2] as u64) << 40u64) | ((b[3]
        as u64) << 32u64) | ((b[4] as u64) << 24u64) | ((b[5] as u64) << 16u64) | ((b[6]
        as u64) << 8u64) | (b[7] as u64)
}

/// Creates a fresh store id: draw a nonce, derive the id from it and
/// the initial state, and register the store as initializing; a
/// colliding id is retried with a fresh nonce. Fails only if every
/// drawn nonce collided.
pub fn create_store_id<Ch>(reg: &mut StoreRegistry<Ch>, initial_state: &[u8]) -> (r: Option<
    u64,
>)
    ensures
        match r {
            Some(id) => {
                &&& !old(reg).has_store(id)
                &&& final(reg).has_store(id)
                &&& forall|x: u64|
                    #[trigger] final(reg).has_store(x) == (old(reg).has_store(x) || x == id)
            },
            None => *final(reg) == *old(reg),
        },
{
    let mut attempts: usize = 0;
    while attempts < 16
        invariant
            *reg == *old(reg),
            0 <= attempts <= 16,
        decreases 16 - attempts,
    {
        let nonce = crate::util::generate_nonce();
        let id = id_word(&derive_store_id(&nonce, initial_state));
        if register_store(reg, id, StoreStatus::Initializing) {
            return Some(id);
        }
        attempts += 1;
    }
    None
}

/// One store handler step for an apply command: insert the header into
/// the DAG and, if it is accepted, apply its acceptable operations to
/// the materialized value in order (skipping any the map's invariants
/// refuse). A rejected header changes nothing.
pub fn handle_apply<V: CRDT<Time = u64>>(
    dag: &mut State,
    value: TwoPMap<V>,
    header: Header,
    ops: Vec<(u64, TwoPMapOp<V>)>,
) -> (r: (bool, TwoPMap<V>))
    requires
        old(dag).wf(),
        value.wf(),
    ensures
        final(dag).wf(),
        r.1.wf(),
        r.0 == old(dag).can_insert(header@.id, header@),
        r.0 ==> final(dag)@ == old(dag)@.push(old(dag).inserted_node(header@)),
        r.0 ==> crate::twopmap::ops_applied(value, ops@, r.1),
        !r.0 ==> *final(dag) == *old(dag) && r.1 == value,
{
    let hid = header.header_id;
    let accepted = dag.insert_header(hid, header);
    if !accepted {
        return (false, value);
    }
    let ghost v0 = value;
    let ghost ops0 = ops@;
    let mut cur = value;
    let mut rest = ops;
    let ghost done: int = 0;
    let ghost trace: Seq<TwoPMap<V>> = seq![value];
    proof {
        assert(rest@ =~= ops0.skip(0));
    }
    while rest.len() > 0
        invariant
            cur.wf(),
            0 <= done <= ops0.len(),
            rest@ == ops0.skip(done),
            trace.len() == done + 1,
            trace[0] == v0,
            trace.last() == cur,
            forall|i: int|
                0 <= i < done ==> crate::twopmap::step_applied(
                    trace[i],
                    (#[trigger] ops0[i]).0,
                    ops0[i].1,
                    trace[i + 1],
                ),
        decreases rest@.len(),
    {
        let ghost rest_pre = rest@;
        let (op_time, op) = rest.remove(0);
        let ghost opg = op;
        let ghost pre = cur;
        // the map's apply asks these of its callers; skip operations
        // that break them
        let acceptable = match &op {
            TwoPMapOp::Insert { .. } => cur.get(&op_time).is_none(),
            TwoPMapOp::Apply { key, .. } => {
                cur.get(key).is_some() || vec_contains(cur.tombstone_keys(), *key)
            },
            TwoPMapOp::Delete { .. } => true,
        };
        proof {
            assert(acceptable == crate::twopmap::op_acceptable(pre, op_time, opg));
        }
        if acceptable {
            cur = cur.apply(op_time, op);
        }
        proof {
            rest_pre.remove_ensures(0);
            assert(rest@ =~= ops0.skip(done + 1));
            assert(rest_pre[0] == ops0[done]);
            assert((op_time, opg) == ops0[done]);
            assert(crate::twopmap::step_applied(pre, op_time, opg, cur));
            trace = trace.push(cur);
            done = done + 1;
        }
    }
    proof {
        assert(crate::twopmap::ops_trace(v0, ops0, trace));
        assert(crate::twopmap::ops_applied(v0, ops0, cur));
    }
    (true, cur)
}

} // verus!
