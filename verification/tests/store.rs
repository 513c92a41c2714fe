use odyssey_core::ecg::{Header, State};
use odyssey_core::store::{
    create_store_id, derive_store_id, handle_apply, initiate_peer, register_store, DeviceId,
    PeerRegistry, StoreRegistry, StoreStatus,
};
use odyssey_core::twopmap::{TwoPMap, TwoPMapOp, CRDT};
use odyssey_core::util::sha256_digest;

#[test]
fn store_status_lifecycle() {
    let init: StoreStatus<u32> = StoreStatus::Initializing;
    assert!(init.is_initializing());
    assert!(!init.is_initialized());
    assert_eq!(init.command_channel(), None);
    let running: StoreStatus<u32> = StoreStatus::Running {
        send_command_chan: 7,
    };
    assert!(!running.is_initializing());
    assert!(running.is_initialized());
    assert_eq!(running.command_channel(), Some(&7));
}

#[test]
fn duplicate_peers_are_refused() {
    let mut reg = PeerRegistry::new();
    let a = DeviceId([1; 32]);
    let b = DeviceId([2; 32]);
    assert!(initiate_peer(&mut reg, a));
    assert!(initiate_peer(&mut reg, b));
    // a second connection from the same device fails
    assert!(!initiate_peer(&mut reg, DeviceId([1; 32])));
    assert!(!initiate_peer(&mut reg, b));
}

#[derive(Clone, Debug, PartialEq)]
struct Counter(u64);

impl CRDT for Counter {
    type Op = u64;
    type Time = u64;

    // the erased form of the trait's spec method: what apply yields
    fn apply_spec(self, _op_time: u64, op: u64) -> Counter {
        Counter(self.0 + op)
    }

    fn apply(self, _op_time: u64, op: u64) -> Counter {
        Counter(self.0 + op)
    }
}

#[test]
fn twopmap_insert_apply_delete() {
    let m: TwoPMap<Counter> = TwoPMap::new();
    assert_eq!(m.get(&10), None);
    // insert at time 10
    let m = m.apply(10, TwoPMap::insert(Counter(5)));
    assert_eq!(m.get(&10), Some(&Counter(5)));
    // apply an inner operation to the entry
    let m = m.apply(
        11,
        TwoPMapOp::Apply {
            key: 10,
            operation: 3,
        },
    );
    assert_eq!(m.get(&10), Some(&Counter(8)));
    // delete tombstones the key
    let m = m.apply(12, TwoPMapOp::Delete { key: 10 });
    assert_eq!(m.get(&10), None);
    // a later operation on the tombstoned key is a no-op
    let m = m.apply(
        13,
        TwoPMapOp::Apply {
            key: 10,
            operation: 9,
        },
    );
    assert_eq!(m.get(&10), None);
    assert_eq!(m.iter().len(), 0);
}

#[test]
fn twopmap_keys_operations() {
    let op: TwoPMapOp<Counter> = TwoPMap::insert(Counter(1));
    assert_eq!(op.key(&42), 42);
    let op: TwoPMapOp<Counter> = TwoPMapOp::Apply {
        key: 7,
        operation: 1,
    };
    assert_eq!(op.key(&42), 7);
    let op: TwoPMapOp<Counter> = TwoPMapOp::Delete { key: 9 };
    assert_eq!(op.key(&42), 9);
}

#[test]
fn twopmap_parts_round_trip() {
    let m: TwoPMap<Counter> = TwoPMap::new();
    let m = m.apply(1, TwoPMap::insert(Counter(10)));
    let m = m.apply(2, TwoPMap::insert(Counter(20)));
    let m = m.apply(3, TwoPMapOp::Delete { key: 2 });
    // a map's own parts always rebuild
    let entries = m.iter().clone();
    let tombstones = m.tombstone_keys().clone();
    let back = TwoPMap::<Counter>::from_parts(entries, tombstones).unwrap();
    assert_eq!(back.get(&1), Some(&Counter(10)));
    assert_eq!(back.get(&2), None);
    // parts that break the invariant are refused
    assert!(TwoPMap::<Counter>::from_parts(vec![(1, Counter(0)), (1, Counter(1))], vec![]).is_none());
    assert!(TwoPMap::<Counter>::from_parts(vec![(1, Counter(0))], vec![1]).is_none());
    assert!(TwoPMap::<Counter>::from_parts(vec![], vec![4, 4]).is_none());
}

#[test]
fn handle_apply_inserts_and_applies() {
    let mut dag = State::new();
    let value: TwoPMap<Counter> = TwoPMap::new();
    let header = Header {
        header_id: 7,
        parent_ids: vec![],
    };
    let ops = vec![(1u64, TwoPMap::insert(Counter(4))), (2, TwoPMapOp::Apply { key: 1, operation: 5 })];
    let (accepted, value) = handle_apply(&mut dag, value, header, ops);
    assert!(accepted);
    assert!(dag.contains(&7));
    assert_eq!(value.get(&1), Some(&Counter(9)));
    // a rejected header (missing parent) changes nothing
    let bad = Header {
        header_id: 8,
        parent_ids: vec![99],
    };
    let (accepted, value) = handle_apply(&mut dag, value, bad, vec![(3, TwoPMap::insert(Counter(1)))]);
    assert!(!accepted);
    assert!(!dag.contains(&8));
    assert_eq!(value.get(&3), None);
}

#[test]
fn store_registry_refuses_collisions() {
    let mut reg: StoreRegistry<u32> = StoreRegistry::new();
    assert!(register_store(&mut reg, 5, StoreStatus::Initializing));
    assert!(register_store(&mut reg, 6, StoreStatus::Running { send_command_chan: 1 }));
    // a colliding id is refused; the caller retries with a fresh nonce
    assert!(!register_store(&mut reg, 5, StoreStatus::Initializing));
}

#[test]
fn store_id_is_digest_of_nonce_and_state() {
    let nonce = [7u8; 32];
    let id = derive_store_id(&nonce, b"initial");
    let mut joined = nonce.to_vec();
    joined.extend_from_slice(b"initial");
    let expected = sha256_digest(&joined);
    assert!(id.same(&expected));
    // a different nonce gives a different id
    let other = derive_store_id(&[8u8; 32], b"initial");
    assert!(!id.same(&other));
}

#[test]
fn create_store_id_registers_fresh_ids() {
    let mut reg: StoreRegistry<u32> = StoreRegistry::new();
    let a = create_store_id(&mut reg, b"alpha").expect("nonce space exhausted");
    let b = create_store_id(&mut reg, b"alpha").expect("nonce space exhausted");
    // fresh nonces give distinct registered ids even for equal states
    assert_ne!(a, b);
    assert!(!register_store(&mut reg, a, StoreStatus::Initializing));
    assert!(!register_store(&mut reg, b, StoreStatus::Initializing));
}
