use presto_pasta::tap::{
    Negotiation, Offloads, VnetHdr, TUN_F_CSUM, TUN_F_TSO4, TUN_F_TSO6, TUN_F_USO4, TUN_F_USO6,
};

#[test]
fn vnet_roundtrip() {
    let h = VnetHdr {
        flags: 1,
        gso_type: 4,
        hdr_len: 0x0203,
        gso_size: 0x0405,
        csum_start: 0x0607,
        csum_offset: 16,
    };
    let b = h.to_bytes();
    assert_eq!(b, [1, 4, 3, 2, 5, 4, 7, 6, 16, 0]);
    let p = VnetHdr::parse(&b);
    assert_eq!((p.flags, p.gso_type), (1, 4));
    assert_eq!((p.hdr_len, p.gso_size), (0x0203, 0x0405));
    assert_eq!((p.csum_start, p.csum_offset), (0x0607, 16));
}

#[test]
fn default_vnet_header_is_zero() {
    assert_eq!(VnetHdr::default().to_bytes(), [0u8; 10]);
}

#[test]
fn offload_flags() {
    let none = Offloads::default();
    assert!(!none.csum() && !none.tso() && !none.uso());
    let csum = Offloads::new(TUN_F_CSUM);
    assert!(csum.csum() && !csum.tso() && !csum.uso());
    assert!(Offloads::new(TUN_F_TSO4).tso());
    assert!(Offloads::new(TUN_F_TSO6).tso());
    assert!(Offloads::new(TUN_F_USO4).uso());
    assert!(Offloads::new(TUN_F_USO6).uso());
}

#[test]
fn negotiation_takes_the_first_accepted_set() {
    let all = TUN_F_CSUM | TUN_F_TSO4 | TUN_F_TSO6 | TUN_F_USO4 | TUN_F_USO6;
    let n = Negotiation::start();
    assert!(matches!(n, Negotiation::Offer { flags, .. } if flags == all));
    match n.answered(true) {
        Negotiation::Done(o) => assert!(o.csum() && o.tso() && o.uso()),
        Negotiation::Offer { .. } => panic!("accepted offer must end the negotiation"),
    }
}

#[test]
fn negotiation_falls_back() {
    let n = Negotiation::start().answered(false);
    let tso = TUN_F_CSUM | TUN_F_TSO4 | TUN_F_TSO6;
    assert!(matches!(n, Negotiation::Offer { flags, .. } if flags == tso));
    match n.answered(true) {
        Negotiation::Done(o) => assert!(o.csum() && o.tso() && !o.uso()),
        Negotiation::Offer { .. } => panic!("accepted offer must end the negotiation"),
    }
    let n = n.answered(false);
    assert!(matches!(n, Negotiation::Offer { flags: 0, .. }));
    for accepted in [true, false] {
        match n.answered(accepted) {
            Negotiation::Done(o) => assert!(!o.csum() && !o.tso() && !o.uso()),
            Negotiation::Offer { .. } => panic!("nothing is left to offer"),
        }
    }
}
