use ever_archive::block_id::{PREFIX_FULL, MASTERCHAIN_WORKCHAIN};
use ever_archive::{BlockId, ShardIdent};

fn outside(shard: &ShardIdent) -> everscale_types::models::ShardIdent {
    everscale_types::models::ShardIdent::new(shard.workchain(), shard.prefix()).unwrap()
}

fn same_as_outside(ours: &ShardIdent, theirs: &everscale_types::models::ShardIdent) -> bool {
    ours.workchain() == theirs.workchain() && ours.prefix() == theirs.prefix()
}

#[test]
fn shard_new_accepts_legal_prefixes() {
    assert!(ShardIdent::new(0, PREFIX_FULL).is_some());
    assert!(ShardIdent::new(0, 0x4000_0000_0000_0000).is_some());
    assert!(ShardIdent::new(MASTERCHAIN_WORKCHAIN, PREFIX_FULL).is_some());
    assert!(ShardIdent::new(0, 0x0000_0000_0000_0008).is_some());
}

#[test]
fn shard_new_rejects_illegal_prefixes() {
    assert!(ShardIdent::new(0, 0).is_none());
    assert!(ShardIdent::new(0, 0x8000_0000_0000_0004).is_none());
    assert!(ShardIdent::new(0, 1).is_none());
    assert!(ShardIdent::new(MASTERCHAIN_WORKCHAIN, 0x4000_0000_0000_0000).is_none());
}

#[test]
fn shard_new_agrees_with_everscale_types() {
    let prefixes = [0u64, 1, 4, 8, 0x10, 0x8000_0000_0000_0000, 0xc000_0000_0000_0000, 0x6000_0000_0000_0000, 0x8000_0000_0000_0008];
    for wc in [-1i32, 0, 1] {
        for p in prefixes {
            assert_eq!(
                ShardIdent::new(wc, p).is_some(),
                everscale_types::models::ShardIdent::new(wc, p).is_some(),
                "workchain {wc} prefix {p:x}"
            );
        }
    }
}

#[test]
fn shard_split_of_full_shard() {
    let s = ShardIdent::new(0, PREFIX_FULL).unwrap();
    let (l, r) = s.split().unwrap();
    assert_eq!(l, ShardIdent { workchain: 0, prefix: 0x4000_0000_0000_0000 });
    assert_eq!(r, ShardIdent { workchain: 0, prefix: 0xc000_0000_0000_0000 });
    assert_eq!(l.merge(), Some(s));
    assert_eq!(r.merge(), Some(s));
}

#[test]
fn shard_merge_of_full_shard_is_none() {
    let s = ShardIdent::new(0, PREFIX_FULL).unwrap();
    assert_eq!(s.merge(), None);
}

#[test]
fn shard_split_at_max_depth_is_none() {
    let s = ShardIdent::new(0, 0x8000_0000_0000_0008).unwrap();
    assert_eq!(s.split(), None);
}

#[test]
fn shard_split_and_merge_agree_with_everscale_types() {
    let mut frontier = vec![ShardIdent::new(0, PREFIX_FULL).unwrap()];
    for _ in 0..6 {
        let mut next = Vec::new();
        for s in &frontier {
            let theirs = outside(s);
            match (s.split(), theirs.split()) {
                (Some((l, r)), Some((tl, tr))) => {
                    assert!(same_as_outside(&l, &tl));
                    assert!(same_as_outside(&r, &tr));
                    next.push(l);
                    next.push(r);
                }
                (None, None) => {}
                _ => panic!("split differs for {:?}", s),
            }
            match (s.merge(), theirs.merge()) {
                (Some(p), Some(tp)) => assert!(same_as_outside(&p, &tp)),
                (None, None) => {}
                _ => panic!("merge differs for {:?}", s),
            }
        }
        frontier = next;
    }
    let deep = ShardIdent::new(3, 0x1234_5678_9abc_de10).unwrap();
    let theirs = outside(&deep);
    let (l, r) = deep.split().unwrap();
    let (tl, tr) = theirs.split().unwrap();
    assert!(same_as_outside(&l, &tl) && same_as_outside(&r, &tr));
    assert!(same_as_outside(&deep.merge().unwrap(), &theirs.merge().unwrap()));
}

#[test]
fn block_id_same_compares_every_field() {
    let shard = ShardIdent::new(0, PREFIX_FULL).unwrap();
    let a = BlockId { shard, seqno: 5, root_hash: [1; 32], file_hash: [2; 32] };
    let mut b = a;
    assert!(a.same(&b));
    b.file_hash[31] = 3;
    assert!(!a.same(&b));
    let mut c = a;
    c.root_hash[0] = 0;
    assert!(!a.same(&c));
    assert!(!a.same(&BlockId { seqno: 6, ..a }));
}

#[test]
fn masterchain_flag() {
    let mc = BlockId {
        shard: ShardIdent::new(-1, PREFIX_FULL).unwrap(),
        seqno: 1,
        root_hash: [0; 32],
        file_hash: [0; 32],
    };
    assert!(mc.is_masterchain());
    assert!(!BlockId { shard: ShardIdent::new(0, PREFIX_FULL).unwrap(), ..mc }.is_masterchain());
}
