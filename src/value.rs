use vstd::prelude::*;

verus! {

/// An attribute of a received frame that rules can inspect.
#[derive(Clone, Copy, PartialEq, Eq, Structural, Debug, Hash, PartialOrd, Ord)]
pub enum PacketField {
    Sip,
    Dip,
    Sport,
    Dport,
    FlagTcp,
    FlagUdp,
    FlagSyn,
    FlagAck,
    FlagFin,
    IpLen,
}

/// Position of a field in declaration order.
pub open spec fn field_rank(f: PacketField) -> int {
    match f {
        PacketField::Sip => 0,
        PacketField::Dip => 1,
        PacketField::Sport => 2,
        PacketField::Dport => 3,
        PacketField::FlagTcp => 4,
        PacketField::FlagUdp => 5,
        PacketField::FlagSyn => 6,
        PacketField::FlagAck => 7,
        PacketField::FlagFin => 8,
        PacketField::IpLen => 9,
    }
}

impl PacketField {
    /// Position of the field in declaration order.
    pub fn rank(&self) -> (r: u8)
        ensures
            r as int == field_rank(*self),
    {
        match self {
            PacketField::Sip => 0,
            PacketField::Dip => 1,
            PacketField::Sport => 2,
            PacketField::Dport => 3,
            PacketField::FlagTcp => 4,
            PacketField::FlagUdp => 5,
            PacketField::FlagSyn => 6,
            PacketField::FlagAck => 7,
            PacketField::FlagFin => 8,
            PacketField::IpLen => 9,
        }
    }
}

/// An IPv4 network: an address (as a big-endian integer) and a prefix length.
#[derive(Clone, Copy, PartialEq, Eq, Structural, Debug, Hash)]
pub struct Network {
    pub addr: u32,
    pub prefix: u8,
}

impl Network {
    /// A prefix length is at most the width of an address.
    pub open spec fn wf(self) -> bool {
        self.prefix <= 32
    }

    /// Builds a network; `None` when the prefix length exceeds 32.
    pub fn new(addr: u32, prefix: u8) -> (r: Option<Network>)
        ensures
            prefix <= 32 ==> r == Some(Network { addr, prefix }),
            prefix > 32 ==> r is None,
    {
        if prefix <= 32 {
            Some(Network { addr, prefix })
        } else {
            None
        }
    }
}

/// A fact extracted from a frame; `None` marks a fact that does not apply.
#[derive(Clone, Copy, PartialEq, Eq, Structural, Debug, Hash)]
pub enum PacketInfo {
    IP(Option<u32>),
    Port(Option<u32>),
    Flag(bool),
}

/// The facts of one frame, one entry per field, kept in ascending field order.
#[derive(Debug)]
pub struct PacketMap {
    pub entries: Vec<(PacketField, PacketInfo)>,
}

/// Entries in strictly ascending field order.
pub open spec fn fields_ascending(s: Seq<(PacketField, PacketInfo)>) -> bool {
    forall|i: int, j: int| 0 <= i < j < s.len() ==> field_rank(s[i].0) < field_rank(s[j].0)
}

/// What an entry sequence records for a field.
pub open spec fn entry_of(s: Seq<(PacketField, PacketInfo)>, f: PacketField) -> Option<PacketInfo>
    decreases s.len(),
{
    if s.len() == 0 {
        None
    } else if s.last().0 == f {
        Some(s.last().1)
    } else {
        entry_of(s.drop_last(), f)
    }
}

proof fn lemma_entry_of_index(s: Seq<(PacketField, PacketInfo)>, f: PacketField)
    requires
        fields_ascending(s),
    ensures
        entry_of(s, f) is None <==> (forall|i: int| 0 <= i < s.len() ==> s[i].0 != f),
        forall|i: int| 0 <= i < s.len() && s[i].0 == f ==> entry_of(s, f) == Some(s[i].1),
    decreases s.len(),
{
    if s.len() > 0 {
        let t = s.drop_last();
        assert(fields_ascending(t));
        lemma_entry_of_index(t, f);
        assert forall|i: int| 0 <= i < s.len() && s[i].0 == f implies entry_of(s, f) == Some(
            s[i].1,
        ) by {
            if i < s.len() - 1 {
                assert(field_rank(s[i].0) < field_rank(s.last().0));
                assert(t[i] == s[i]);
            }
        }
        if entry_of(s, f) is None {
            assert forall|i: int| 0 <= i < s.len() implies s[i].0 != f by {
                if i < s.len() - 1 {
                    assert(t[i] == s[i]);
                }
            }
        }
    }
}

impl PacketMap {
    /// The recorded facts as a map from field to fact.
    pub open spec fn view(&self) -> Map<PacketField, PacketInfo> {
        Map::new(|f: PacketField| entry_of(self.entries@, f) is Some, |f: PacketField| entry_of(self.entries@, f)->Some_0)
    }

    pub open spec fn wf(&self) -> bool {
        fields_ascending(self.entries@)
    }

    /// An empty table.
    pub fn new() -> (r: PacketMap)
        ensures
            r.wf(),
            r@ == Map::<PacketField, PacketInfo>::empty(),
    {
        let r = PacketMap { entries: Vec::new() };
        assert(r@ =~= Map::<PacketField, PacketInfo>::empty());
        r
    }

    /// Records `info` for `field`, replacing what was recorded for it.
    pub fn insert(&mut self, field: PacketField, info: PacketInfo)
        requires
            old(self).wf(),
        ensures
            final(self).wf(),
            final(self)@ == old(self)@.insert(field, info),
    {
        let ghost s0 = self.entries@;
        let rank = field.rank();
        let mut i: usize = 0;
        while i < self.entries.len() && self.entries[i].0.rank() < rank
            invariant
                self.entries@ == s0,
                fields_ascending(s0),
                rank as int == field_rank(field),
                0 <= i <= s0.len(),
                forall|k: int| 0 <= k < i ==> field_rank(s0[k].0) < rank,
            decreases s0.len() - i,
        {
            i = i + 1;
        }
        proof {
            lemma_entry_of_index(s0, field);
        }
        if i < self.entries.len() && self.entries[i].0.rank() == rank {
            self.entries.set(i, (field, info));
        } else {
            self.entries.insert(i, (field, info));
        }
        let ghost s1 = self.entries@;
        proof {
            assert(fields_ascending(s1)) by {
                assert forall|a: int, b: int| 0 <= a < b < s1.len() implies field_rank(s1[a].0)
                    < field_rank(s1[b].0) by {
                    if i < s0.len() && field_rank(s0[i as int].0) == rank {
                        assert(s0[i as int].0 == field);
                    }
                }
            }
            lemma_entry_of_index(s1, field);
            assert(s1[i as int] == (field, info));
            assert(entry_of(s1, field) == Some(info));
            assert forall|g: PacketField| g != field implies entry_of(s1, g) == entry_of(s0, g) by {
                lemma_entry_of_index(s1, g);
                lemma_entry_of_index(s0, g);
                if entry_of(s0, g) is Some {
                    let k = choose|k: int| 0 <= k < s0.len() && s0[k].0 == g;
                    if i < s0.len() && field_rank(s0[i as int].0) == rank {
                        assert(s1[k] == s0[k]);
                    } else if k < i {
                        assert(s1[k] == s0[k]);
                    } else {
                        assert(s1[k + 1] == s0[k]);
                    }
                }
                if entry_of(s1, g) is Some {
                    let k = choose|k: int| 0 <= k < s1.len() && s1[k].0 == g;
                    if i < s0.len() && field_rank(s0[i as int].0) == rank {
                        assert(s1[k] == s0[k]);
                    } else if k < i {
                        assert(s1[k] == s0[k]);
                    } else {
                        assert(s1[k] == s0[k - 1]);
                    }
                }
            }
            assert(self@ =~= old(self)@.insert(field, info));
        }
    }
}

/// A value of the rule language. `None` marks a declared but uninitialised value.
/// `Mapping` entries are kept in strictly ascending key order, `Collection` elements in
/// strictly ascending order, both by the total order of `order::compare`.
#[derive(Debug)]
pub enum Variable {
    IP(Option<Network>),
    Int(Option<i32>),
    Rule(Option<(PacketField, Network)>),
    Mapping(Vec<(Variable, Variable)>),
    Collection(Vec<Variable>),
    Packet(PacketMap),
}

/// Position of a value's variant in declaration order.
pub open spec fn kind(v: Variable) -> int {
    match v {
        Variable::IP(_) => 0,
        Variable::Int(_) => 1,
        Variable::Rule(_) => 2,
        Variable::Mapping(_) => 3,
        Variable::Collection(_) => 4,
        Variable::Packet(_) => 5,
    }
}

impl Variable {
    /// Position of the variant in declaration order.
    pub fn kind(&self) -> (r: u8)
        ensures
            r as int == kind(*self),
    {
        match self {
            Variable::IP(_) => 0,
            Variable::Int(_) => 1,
            Variable::Rule(_) => 2,
            Variable::Mapping(_) => 3,
            Variable::Collection(_) => 4,
            Variable::Packet(_) => 5,
        }
    }
}

/// Whether two values are of the same variant, whatever they hold.
pub fn same_kind(a: &Variable, b: &Variable) -> (r: bool)
    ensures
        r == (kind(*a) == kind(*b)),
{
    a.kind() == b.kind()
}

} // verus!
