use nfd_core::collections::{map_insert, merge_union, set_insert};
use nfd_core::order::{compare, equivalent, less};
use nfd_core::packet_info::{extract_packet_info, transport_facts, ExtractError};
use nfd_core::symbol_table::{
    change_symbol, create_set, init_table, insert_mapping, insert_set, insert_symbol, launch_mapping,
    set_union, SymbolTable,
};
use nfd_core::value::{same_kind, Network, PacketField, PacketInfo, PacketMap, Variable};
use std::cmp::Ordering;

fn ip(a: u8, b: u8, c: u8, d: u8) -> u32 {
    u32::from_be_bytes([a, b, c, d])
}

fn net(addr: u32, prefix: u8) -> Variable {
    Variable::IP(Some(Network { addr, prefix }))
}

fn num(x: i32) -> Variable {
    Variable::Int(Some(x))
}

fn ethernet(ethertype: u16, payload: &[u8]) -> Vec<u8> {
    let mut f = vec![0x02, 0, 0, 0, 0, 1, 0x02, 0, 0, 0, 0, 2];
    f.extend_from_slice(&ethertype.to_be_bytes());
    f.extend_from_slice(payload);
    f
}

fn ipv4(proto: u8, src: [u8; 4], dst: [u8; 4], segment: &[u8]) -> Vec<u8> {
    let total = (20 + segment.len()) as u16;
    let mut p = vec![0x45, 0];
    p.extend_from_slice(&total.to_be_bytes());
    p.extend_from_slice(&[0, 0, 0, 0, 64, proto, 0, 0]);
    p.extend_from_slice(&src);
    p.extend_from_slice(&dst);
    p.extend_from_slice(segment);
    p
}

fn tcp(sport: u16, dport: u16, flags: u8) -> Vec<u8> {
    let mut s = Vec::new();
    s.extend_from_slice(&sport.to_be_bytes());
    s.extend_from_slice(&dport.to_be_bytes());
    s.extend_from_slice(&[0, 0, 0, 1, 0, 0, 0, 0, 0x50, flags, 0x20, 0, 0, 0, 0, 0]);
    s
}

fn udp(sport: u16, dport: u16) -> Vec<u8> {
    let mut s = Vec::new();
    s.extend_from_slice(&sport.to_be_bytes());
    s.extend_from_slice(&dport.to_be_bytes());
    s.extend_from_slice(&[0, 8, 0, 0]);
    s
}

fn fact(m: &PacketMap, f: PacketField) -> Option<PacketInfo> {
    m.entries.iter().find(|e| e.0 == f).map(|e| e.1)
}

fn set_of(t: &SymbolTable, id: &str) -> Vec<i32> {
    match t.get(&id.to_owned()) {
        Some(Variable::Collection(s)) => s
            .iter()
            .map(|v| match v {
                Variable::Int(Some(x)) => *x,
                _ => panic!("not an integer"),
            })
            .collect(),
        _ => panic!("not a set"),
    }
}

#[test]
fn tcp_frame_is_extracted() {
    let frame = ethernet(0x0800, &ipv4(6, [10, 0, 0, 1], [10, 0, 0, 2], &tcp(4321, 80, 0b0000_0010)));
    let mut m = PacketMap::new();
    assert_eq!(extract_packet_info(&frame, &mut m), Ok(true));
    assert_eq!(fact(&m, PacketField::Sip), Some(PacketInfo::IP(Some(ip(10, 0, 0, 1)))));
    assert_eq!(fact(&m, PacketField::Dip), Some(PacketInfo::IP(Some(ip(10, 0, 0, 2)))));
    assert_eq!(fact(&m, PacketField::Sport), Some(PacketInfo::Port(Some(4321))));
    assert_eq!(fact(&m, PacketField::Dport), Some(PacketInfo::Port(Some(80))));
    assert_eq!(fact(&m, PacketField::FlagTcp), Some(PacketInfo::Flag(true)));
    assert_eq!(fact(&m, PacketField::FlagUdp), Some(PacketInfo::Flag(false)));
    assert_eq!(fact(&m, PacketField::FlagSyn), Some(PacketInfo::Flag(true)));
    assert_eq!(fact(&m, PacketField::FlagAck), Some(PacketInfo::Flag(false)));
    assert_eq!(fact(&m, PacketField::FlagFin), Some(PacketInfo::Flag(false)));
    assert_eq!(m.entries.len(), 9);
    let ranks: Vec<u8> = m.entries.iter().map(|e| e.0.rank()).collect();
    assert_eq!(ranks, vec![0, 1, 2, 3, 4, 5, 6, 7, 8]);
}

#[test]
fn udp_destination_port_is_its_own() {
    let frame = ethernet(0x0800, &ipv4(17, [192, 168, 1, 5], [8, 8, 8, 8], &udp(53, 12345)));
    let mut m = PacketMap::new();
    assert_eq!(extract_packet_info(&frame, &mut m), Ok(true));
    assert_eq!(fact(&m, PacketField::Sport), Some(PacketInfo::Port(Some(53))));
    assert_eq!(fact(&m, PacketField::Dport), Some(PacketInfo::Port(Some(12345))));
    assert_eq!(fact(&m, PacketField::FlagTcp), Some(PacketInfo::Flag(false)));
    assert_eq!(fact(&m, PacketField::FlagUdp), Some(PacketInfo::Flag(true)));
    assert_eq!(fact(&m, PacketField::FlagSyn), Some(PacketInfo::Flag(false)));
    assert_eq!(fact(&m, PacketField::Sip), Some(PacketInfo::IP(Some(ip(192, 168, 1, 5)))));
}

#[test]
fn other_ethertype_is_not_applicable() {
    let frame = ethernet(0x0806, &[0u8; 28]);
    let mut m = PacketMap::new();
    assert_eq!(extract_packet_info(&frame, &mut m), Ok(false));
    assert!(m.entries.is_empty());
}

#[test]
fn ipv6_frame_fails_distinctly() {
    let frame = ethernet(0x86DD, &[0u8; 40]);
    let mut m = PacketMap::new();
    assert_eq!(extract_packet_info(&frame, &mut m), Err(ExtractError::Ipv6Unimplemented));
    assert!(m.entries.is_empty());
}

#[test]
fn short_frame_is_not_applicable() {
    let mut m = PacketMap::new();
    assert_eq!(extract_packet_info(&[0u8; 10], &mut m), Ok(false));
    let frame = ethernet(0x0800, &[0x45, 0, 0, 20]);
    assert_eq!(extract_packet_info(&frame, &mut m), Ok(false));
    assert!(m.entries.is_empty());
}

#[test]
fn other_transport_keeps_addresses_and_fails() {
    let frame = ethernet(0x0800, &ipv4(1, [10, 0, 0, 1], [10, 0, 0, 9], &[8, 0, 0, 0, 0, 0, 0, 0]));
    let mut m = PacketMap::new();
    assert_eq!(extract_packet_info(&frame, &mut m), Ok(false));
    assert_eq!(fact(&m, PacketField::Dip), Some(PacketInfo::IP(Some(ip(10, 0, 0, 9)))));
    assert_eq!(fact(&m, PacketField::Sport), Some(PacketInfo::Port(None)));
    assert_eq!(fact(&m, PacketField::Dport), Some(PacketInfo::Port(None)));
    assert_eq!(fact(&m, PacketField::FlagSyn), Some(PacketInfo::Flag(false)));
    assert_eq!(fact(&m, PacketField::FlagUdp), Some(PacketInfo::Flag(false)));
}

#[test]
fn truncated_tcp_segment_is_not_classified() {
    let frame = ethernet(0x0800, &ipv4(6, [10, 0, 0, 1], [10, 0, 0, 2], &[0u8; 10]));
    let mut m = PacketMap::new();
    assert_eq!(extract_packet_info(&frame, &mut m), Ok(false));
    assert_eq!(fact(&m, PacketField::Sip), Some(PacketInfo::IP(Some(ip(10, 0, 0, 1)))));
    assert_eq!(fact(&m, PacketField::Sport), None);
}

#[test]
fn transport_facts_read_all_tcp_flags() {
    let mut m = PacketMap::new();
    assert!(transport_facts(6, &tcp(1000, 2000, 0b0001_0001), &mut m));
    assert_eq!(fact(&m, PacketField::Sport), Some(PacketInfo::Port(Some(1000))));
    assert_eq!(fact(&m, PacketField::Dport), Some(PacketInfo::Port(Some(2000))));
    assert_eq!(fact(&m, PacketField::FlagAck), Some(PacketInfo::Flag(true)));
    assert_eq!(fact(&m, PacketField::FlagFin), Some(PacketInfo::Flag(true)));
    assert_eq!(fact(&m, PacketField::FlagSyn), Some(PacketInfo::Flag(false)));
}

#[test]
fn packet_map_insert_replaces() {
    let mut m = PacketMap::new();
    m.insert(PacketField::Dport, PacketInfo::Port(Some(1)));
    m.insert(PacketField::Sip, PacketInfo::IP(None));
    m.insert(PacketField::Dport, PacketInfo::Port(Some(2)));
    assert_eq!(m.entries, vec![(PacketField::Sip, PacketInfo::IP(None)), (PacketField::Dport, PacketInfo::Port(Some(2)))]);
}

#[test]
fn order_by_variant_then_payload() {
    assert_eq!(compare(&Variable::IP(None), &net(0, 0)), Ordering::Less);
    assert_eq!(compare(&net(ip(10, 0, 0, 1), 8), &Variable::Int(None)), Ordering::Less);
    assert_eq!(compare(&num(-5), &num(3)), Ordering::Less);
    assert_eq!(compare(&num(3), &num(-5)), Ordering::Greater);
    assert_eq!(compare(&net(ip(10, 0, 0, 2), 8), &net(ip(10, 0, 0, 1), 24)), Ordering::Greater);
    assert_eq!(compare(&net(ip(10, 0, 0, 1), 8), &net(ip(10, 0, 0, 1), 24)), Ordering::Less);
    assert_eq!(compare(&net(ip(200, 0, 0, 1), 8), &net(ip(10, 0, 0, 1), 8)), Ordering::Greater);
    let rule = Variable::Rule(Some((PacketField::Sip, Network { addr: ip(192, 168, 22, 0), prefix: 24 })));
    assert_eq!(compare(&Variable::Rule(None), &rule), Ordering::Less);
    assert_eq!(compare(&rule, &Variable::Mapping(Vec::new())), Ordering::Less);
    assert_eq!(compare(&Variable::Collection(Vec::new()), &Variable::Packet(PacketMap::new())), Ordering::Less);
    assert_eq!(compare(&rule, &rule), Ordering::Equal);
}

#[test]
fn order_of_containers_is_lexicographic() {
    let a = Variable::Collection(vec![num(1), num(2)]);
    let b = Variable::Collection(vec![num(1), num(2), num(0)]);
    let c = Variable::Collection(vec![num(1), num(3)]);
    let e = Variable::Collection(Vec::new());
    assert_eq!(compare(&a, &b), Ordering::Less);
    assert_eq!(compare(&b, &c), Ordering::Less);
    assert_eq!(compare(&a, &c), Ordering::Less);
    assert_eq!(compare(&e, &a), Ordering::Less);
    assert_eq!(compare(&c, &a), Ordering::Greater);
    assert!(equivalent(&Variable::Collection(vec![num(1), num(2)]), &a));
    assert!(less(&a, &b));
    let nested = Variable::Collection(vec![Variable::Collection(vec![num(1)])]);
    let nested2 = Variable::Collection(vec![Variable::Collection(vec![num(1)]), num(0)]);
    assert_eq!(compare(&nested, &nested2), Ordering::Less);
    let m1 = Variable::Mapping(vec![(num(1), num(9))]);
    let m2 = Variable::Mapping(vec![(num(1), num(10))]);
    assert_eq!(compare(&m1, &m2), Ordering::Less);
}

#[test]
fn same_kind_ignores_payload() {
    assert!(same_kind(&Variable::IP(None), &net(ip(1, 2, 3, 4), 32)));
    assert!(same_kind(&num(1), &num(2)));
    assert!(!same_kind(&num(1), &Variable::IP(None)));
    assert!(!same_kind(&Variable::Collection(Vec::new()), &Variable::Mapping(Vec::new())));
}

#[test]
fn network_prefix_is_bounded() {
    assert_eq!(Network::new(1, 32), Some(Network { addr: 1, prefix: 32 }));
    assert_eq!(Network::new(1, 33), None);
}

#[test]
fn init_table_binds_the_frame() {
    let mut m = PacketMap::new();
    m.insert(PacketField::FlagTcp, PacketInfo::Flag(true));
    let t = init_table(m);
    assert_eq!(t.entries.len(), 1);
    match t.get(&"f".to_owned()) {
        Some(Variable::Packet(p)) => assert_eq!(p.entries, vec![(PacketField::FlagTcp, PacketInfo::Flag(true))]),
        _ => panic!("frame not bound"),
    }
    let t2 = nfd_core::packet_info::init_table(PacketMap::new());
    assert!(matches!(t2.get(&"f".to_owned()), Some(Variable::Packet(_))));
}

#[test]
fn update_is_type_locked() {
    let mut t = SymbolTable::new();
    assert!(!change_symbol(&mut t, "x".to_owned(), num(1)));
    assert!(t.entries.is_empty());
    insert_symbol(&mut t, "x".to_owned(), Variable::Int(None));
    assert!(change_symbol(&mut t, "x".to_owned(), num(7)));
    assert!(matches!(t.get(&"x".to_owned()), Some(Variable::Int(Some(7)))));
    assert!(!change_symbol(&mut t, "x".to_owned(), Variable::IP(None)));
    assert!(matches!(t.get(&"x".to_owned()), Some(Variable::Int(Some(7)))));
    assert_eq!(t.entries.len(), 1);
}

#[test]
fn declare_overwrites_any_variant() {
    let mut t = SymbolTable::new();
    insert_symbol(&mut t, "x".to_owned(), num(1));
    insert_symbol(&mut t, "y".to_owned(), num(2));
    insert_symbol(&mut t, "x".to_owned(), Variable::IP(None));
    assert_eq!(t.entries.len(), 2);
    assert!(matches!(t.get(&"x".to_owned()), Some(Variable::IP(None))));
    assert!(matches!(t.get(&"y".to_owned()), Some(Variable::Int(Some(2)))));
    assert!(t.get(&"z".to_owned()).is_none());
}

#[test]
fn set_insertion_keeps_elements_unique() {
    let mut t = SymbolTable::new();
    create_set("s".to_owned(), num(5), &mut t);
    insert_set("s".to_owned(), num(2), &mut t);
    insert_set("s".to_owned(), num(5), &mut t);
    insert_set("s".to_owned(), num(9), &mut t);
    insert_set("s".to_owned(), num(2), &mut t);
    assert_eq!(set_of(&t, "s"), vec![2, 5, 9]);
}

#[test]
fn union_lists_each_element_once() {
    let mut t = SymbolTable::new();
    create_set("s1".to_owned(), num(1), &mut t);
    insert_set("s1".to_owned(), num(2), &mut t);
    create_set("s2".to_owned(), num(2), &mut t);
    insert_set("s2".to_owned(), num(3), &mut t);
    let a = t.get(&"s1".to_owned()).unwrap();
    let b = t.get(&"s2".to_owned()).unwrap();
    let u: Vec<i32> = set_union(a, b)
        .iter()
        .map(|v| match v {
            Variable::Int(Some(x)) => *x,
            _ => panic!("not an integer"),
        })
        .collect();
    assert_eq!(u, vec![1, 2, 3]);
    assert_eq!(set_union(a, b).len(), 3);
}

#[test]
fn merge_union_of_empty_and_nonempty() {
    let f: Vec<Variable> = Vec::new();
    let s = vec![num(4), num(8)];
    assert_eq!(merge_union(&f, &s).len(), 2);
    assert_eq!(merge_union(&s, &s).len(), 2);
}

#[test]
fn map_insert_overwrites_value() {
    let mut t = SymbolTable::new();
    launch_mapping("m".to_owned(), num(1), num(10), &mut t);
    insert_mapping("m".to_owned(), num(0), num(20), &mut t);
    insert_mapping("m".to_owned(), num(1), num(11), &mut t);
    insert_mapping("m".to_owned(), num(1), num(12), &mut t);
    match t.get(&"m".to_owned()) {
        Some(Variable::Mapping(m)) => {
            assert_eq!(m.len(), 2);
            assert!(matches!(m[0], (Variable::Int(Some(0)), Variable::Int(Some(20)))));
            assert!(matches!(m[1], (Variable::Int(Some(1)), Variable::Int(Some(12)))));
        },
        _ => panic!("not a map"),
    }
}

#[test]
fn raw_sorted_vector_operations() {
    let mut s: Vec<Variable> = Vec::new();
    set_insert(&mut s, Variable::IP(None));
    set_insert(&mut s, num(1));
    set_insert(&mut s, Variable::IP(None));
    assert_eq!(s.len(), 2);
    let mut m: Vec<(Variable, Variable)> = Vec::new();
    map_insert(&mut m, num(2), num(1));
    map_insert(&mut m, num(1), num(1));
    map_insert(&mut m, num(2), num(3));
    assert_eq!(m.len(), 2);
    assert!(matches!(m[1], (Variable::Int(Some(2)), Variable::Int(Some(3)))));
}
