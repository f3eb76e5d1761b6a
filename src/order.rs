use vstd::prelude::*;
use crate::value::{field_rank, kind, Network, PacketField, PacketInfo, PacketMap, Variable};
use std::cmp::Ordering;

verus! {

broadcast use vstd::std_specs::vec::group_vec_axioms;

/// Token that closes the contents of a container; it sorts before every variant tag.
pub const END: i64 = -1;

/// Lexicographic comparison of token sequences: -1, 0 or 1.
/// A proper prefix sorts first.
pub open spec fn lex(s: Seq<i64>, t: Seq<i64>) -> int
    decreases s.len(),
{
    if s.len() == 0 {
        if t.len() == 0 { 0 } else { -1 }
    } else if t.len() == 0 {
        1
    } else if s[0] < t[0] {
        -1
    } else if s[0] > t[0] {
        1
    } else {
        lex(s.drop_first(), t.drop_first())
    }
}

/// Tokens of an optional network: absent, or present with address and prefix.
pub open spec fn opt_net_tokens(o: Option<Network>) -> Seq<i64> {
    match o {
        None => seq![0i64],
        Some(n) => seq![1i64, n.addr as i64, n.prefix as i64],
    }
}

/// Tokens of an optional number: absent, or present with its value.
pub open spec fn opt_u32_tokens(o: Option<u32>) -> Seq<i64> {
    match o {
        None => seq![0i64],
        Some(x) => seq![1i64, x as i64],
    }
}

/// Tokens of a packet fact: its variant's position, then its payload.
pub open spec fn info_tokens(i: PacketInfo) -> Seq<i64> {
    match i {
        PacketInfo::IP(o) => seq![0i64] + opt_u32_tokens(o),
        PacketInfo::Port(o) => seq![1i64] + opt_u32_tokens(o),
        PacketInfo::Flag(b) => seq![2i64, if b { 1i64 } else { 0i64 }],
    }
}

/// Tokens of the first `n` entries of a packet table.
pub open spec fn packet_tokens(s: Seq<(PacketField, PacketInfo)>, n: int) -> Seq<i64>
    decreases n,
{
    if n <= 0 || n > s.len() {
        Seq::empty()
    } else {
        packet_tokens(s, n - 1) + seq![field_rank(s[n - 1].0) as i64] + info_tokens(s[n - 1].1)
    }
}

/// The token sequence that orders values: the variant's position first, then its
/// payload, an absent payload before a present one, and a container's contents in
/// their stored order followed by `END`. Every value's tokens are self-delimiting,
/// so comparing the tokens of two containers compares their contents element by
/// element, a shorter container that is a prefix of a longer one first.
pub open spec fn tokens(v: Variable) -> Seq<i64>
    decreases v, 0int,
{
    match v {
        Variable::IP(o) => seq![0i64] + opt_net_tokens(o),
        Variable::Int(o) => seq![1i64] + match o {
            None => seq![0i64],
            Some(x) => seq![1i64, x as i64],
        },
        Variable::Rule(o) => seq![2i64] + match o {
            None => seq![0i64],
            Some(r) => seq![1i64, field_rank(r.0) as i64, r.1.addr as i64, r.1.prefix as i64],
        },
        Variable::Mapping(m) => seq![3i64] + pair_tokens(m@, m@.len() as int) + seq![END],
        Variable::Collection(s) => seq![4i64] + list_tokens(s@, s@.len() as int) + seq![END],
        Variable::Packet(p) => seq![5i64] + packet_tokens(p.entries@, p.entries@.len() as int)
            + seq![END],
    }
}

/// Tokens of the first `n` elements of a sequence of values.
pub open spec fn list_tokens(s: Seq<Variable>, n: int) -> Seq<i64>
    decreases s, n,
{
    if n <= 0 || n > s.len() {
        Seq::empty()
    } else {
        list_tokens(s, n - 1) + tokens(s[n - 1])
    }
}

/// Tokens of the first `n` entries of a sequence of key/value pairs.
pub open spec fn pair_tokens(s: Seq<(Variable, Variable)>, n: int) -> Seq<i64>
    decreases s, n,
{
    if n <= 0 || n > s.len() {
        Seq::empty()
    } else {
        pair_tokens(s, n - 1) + tokens(s[n - 1].0) + tokens(s[n - 1].1)
    }
}

/// The total order on values: -1, 0 or 1.
pub open spec fn cmp_var(a: Variable, b: Variable) -> int {
    lex(tokens(a), tokens(b))
}

/// An `Ordering` as -1, 0 or 1.
pub open spec fn ordering_value(o: Ordering) -> int {
    match o {
        Ordering::Less => -1,
        Ordering::Equal => 0,
        Ordering::Greater => 1,
    }
}

proof fn lemma_lex_basics(s: Seq<i64>, t: Seq<i64>)
    ensures
        -1 <= lex(s, t) <= 1,
        lex(s, t) == -lex(t, s),
        lex(s, t) == 0 <==> s == t,
    decreases s.len(),
{
    if s.len() == 0 && t.len() == 0 {
        assert(s =~= t);
    }
    if s.len() > 0 && t.len() > 0 && s[0] == t[0] {
        lemma_lex_basics(s.drop_first(), t.drop_first());
        if s.drop_first() == t.drop_first() {
            assert forall|i: int| 0 <= i < s.len() implies s[i] == t[i] by {
                if i > 0 {
                    assert(s[i] == s.drop_first()[i - 1]);
                    assert(t[i] == t.drop_first()[i - 1]);
                }
            }
            assert(s =~= t);
        }
    }
}

proof fn lemma_lex_trans(s: Seq<i64>, t: Seq<i64>, u: Seq<i64>)
    requires
        lex(s, t) <= 0,
        lex(t, u) <= 0,
    ensures
        lex(s, u) <= 0,
    decreases s.len(),
{
    if s.len() > 0 && t.len() > 0 && u.len() > 0 && s[0] == t[0] && t[0] == u[0] {
        lemma_lex_trans(s.drop_first(), t.drop_first(), u.drop_first());
    }
}

/// `cmp_var` is a total order: every comparison is -1, 0 or 1; a value equals
/// itself; swapping the operands negates the result; and "at most", "below" and
/// "equal" are transitive.
pub proof fn lemma_total_order(a: Variable, b: Variable, c: Variable)
    ensures
        cmp_var(a, a) == 0,
        -1 <= cmp_var(a, b) <= 1,
        cmp_var(a, b) == -cmp_var(b, a),
        cmp_var(a, b) <= 0 && cmp_var(b, c) <= 0 ==> cmp_var(a, c) <= 0,
        cmp_var(a, b) < 0 && cmp_var(b, c) <= 0 ==> cmp_var(a, c) < 0,
        cmp_var(a, b) <= 0 && cmp_var(b, c) < 0 ==> cmp_var(a, c) < 0,
        cmp_var(a, b) == 0 && cmp_var(b, c) == 0 ==> cmp_var(a, c) == 0,
{
    let (x, y, z) = (tokens(a), tokens(b), tokens(c));
    lemma_lex_basics(x, x);
    lemma_lex_basics(x, y);
    lemma_lex_basics(y, z);
    lemma_lex_basics(x, z);
    if lex(x, y) <= 0 && lex(y, z) <= 0 {
        lemma_lex_trans(x, y, z);
        if lex(x, z) == 0 {
            lemma_lex_trans(y, z, x);
        }
    }
}

/// Values of different variants are ordered by the variants' declaration order.
pub proof fn lemma_variant_order(a: Variable, b: Variable)
    requires
        kind(a) < kind(b),
    ensures
        cmp_var(a, b) == -1,
{
    assert(tokens(a)[0] == kind(a) as i64);
    assert(tokens(b)[0] == kind(b) as i64);
}

/// An uninitialised value comes before every initialised value of its variant.
pub proof fn lemma_absent_first(a: Variable, b: Variable)
    requires
        (a matches Variable::IP(None) && b matches Variable::IP(Some(_)))
            || (a matches Variable::Int(None) && b matches Variable::Int(Some(_)))
            || (a matches Variable::Rule(None) && b matches Variable::Rule(Some(_))),
    ensures
        cmp_var(a, b) == -1,
{
    let (x, y) = (tokens(a), tokens(b));
    assert(x[0] == y[0] && x[1] == 0 && y[1] == 1);
    assert(x.drop_first()[0] == 0 && y.drop_first()[0] == 1);
    reveal_with_fuel(lex, 2);
}

fn push_opt_u32(o: Option<u32>, out: &mut Vec<i64>)
    ensures
        final(out)@ == old(out)@ + opt_u32_tokens(o),
{
    match o {
        None => out.push(0),
        Some(x) => {
            out.push(1);
            out.push(x as i64);
        },
    }
    assert(out@ =~= old(out)@ + opt_u32_tokens(o));
}

fn push_info(i: PacketInfo, out: &mut Vec<i64>)
    ensures
        final(out)@ == old(out)@ + info_tokens(i),
{
    match i {
        PacketInfo::IP(o) => {
            out.push(0);
            push_opt_u32(o, out);
        },
        PacketInfo::Port(o) => {
            out.push(1);
            push_opt_u32(o, out);
        },
        PacketInfo::Flag(b) => {
            out.push(2);
            out.push(if b { 1 } else { 0 });
        },
    }
    assert(out@ =~= old(out)@ + info_tokens(i));
}

fn push_packet(p: &PacketMap, out: &mut Vec<i64>)
    ensures
        final(out)@ == old(out)@ + packet_tokens(p.entries@, p.entries@.len() as int),
{
    let ghost start = out@;
    let mut i: usize = 0;
    while i < p.entries.len()
        invariant
            i <= p.entries@.len(),
            out@ == start + packet_tokens(p.entries@, i as int),
        decreases p.entries@.len() - i,
    {
        let (f, info) = p.entries[i];
        out.push(f.rank() as i64);
        push_info(info, out);
        assert(out@ =~= start + packet_tokens(p.entries@, i + 1));
        i = i + 1;
    }
}

/// Appends the tokens of `v` to `out`.
fn push_tokens(v: &Variable, out: &mut Vec<i64>)
    ensures
        final(out)@ == old(out)@ + tokens(*v),
    decreases v,
{
    let ghost start = out@;
    match v {
        Variable::IP(o) => {
            out.push(0);
            match o {
                None => out.push(0),
                Some(n) => {
                    out.push(1);
                    out.push(n.addr as i64);
                    out.push(n.prefix as i64);
                },
            }
        },
        Variable::Int(o) => {
            out.push(1);
            match o {
                None => out.push(0),
                Some(x) => {
                    out.push(1);
                    out.push(*x as i64);
                },
            }
        },
        Variable::Rule(o) => {
            out.push(2);
            match o {
                None => out.push(0),
                Some(r) => {
                    out.push(1);
                    out.push(r.0.rank() as i64);
                    out.push(r.1.addr as i64);
                    out.push(r.1.prefix as i64);
                },
            }
        },
        Variable::Mapping(m) => {
            out.push(3);
            let mut i: usize = 0;
            while i < m.len()
                invariant
                    i <= m@.len(),
                    v is Mapping && v->Mapping_0 == *m,
                    out@ == start + seq![3i64] + pair_tokens(m@, i as int),
                decreases m@.len() - i,
            {
                proof {
                    assert(decreases_to!(*v => v->Mapping_0));
                    assert(decreases_to!(*m => m[i as int]));
                    assert(decreases_to!(m[i as int] => m[i as int].0));
                    assert(decreases_to!(*v => m@[i as int].0));
                    assert(decreases_to!(*v => m@[i as int].1));
                }
                push_tokens(&m[i].0, out);
                push_tokens(&m[i].1, out);
                assert(out@ =~= start + seq![3i64] + pair_tokens(m@, i + 1));
                i = i + 1;
            }
            out.push(END);
        },
        Variable::Collection(s) => {
            out.push(4);
            let mut i: usize = 0;
            while i < s.len()
                invariant
                    i <= s@.len(),
                    v is Collection && v->Collection_0 == *s,
                    out@ == start + seq![4i64] + list_tokens(s@, i as int),
                decreases s@.len() - i,
            {
                proof {
                    assert(decreases_to!(*v => v->Collection_0));
                    assert(decreases_to!(*s => s[i as int]));
                    assert(decreases_to!(*v => s@[i as int]));
                }
                push_tokens(&s[i], out);
                assert(out@ =~= start + seq![4i64] + list_tokens(s@, i + 1));
                i = i + 1;
            }
            out.push(END);
        },
        Variable::Packet(p) => {
            out.push(5);
            push_packet(p, out);
            out.push(END);
        },
    }
    assert(out@ =~= start + tokens(*v));
}

fn compare_tokens(x: &Vec<i64>, y: &Vec<i64>) -> (r: Ordering)
    ensures
        ordering_value(r) == lex(x@, y@),
{
    let mut i: usize = 0;
    assert(x@.skip(0) =~= x@);
    assert(y@.skip(0) =~= y@);
    while i < x.len() && i < y.len()
        invariant
            i <= x@.len(),
            i <= y@.len(),
            lex(x@, y@) == lex(x@.skip(i as int), y@.skip(i as int)),
        decreases x@.len() - i,
    {
        if x[i] < y[i] {
            return Ordering::Less;
        }
        if x[i] > y[i] {
            return Ordering::Greater;
        }
        assert(x@.skip(i as int).drop_first() =~= x@.skip(i + 1));
        assert(y@.skip(i as int).drop_first() =~= y@.skip(i + 1));
        i = i + 1;
    }
    if i == x.len() && i == y.len() {
        Ordering::Equal
    } else if i == x.len() {
        Ordering::Less
    } else {
        Ordering::Greater
    }
}

/// Compares two values by the total order `cmp_var`.
pub fn compare(a: &Variable, b: &Variable) -> (r: Ordering)
    ensures
        ordering_value(r) == cmp_var(*a, *b),
{
    let mut x: Vec<i64> = Vec::new();
    push_tokens(a, &mut x);
    let mut y: Vec<i64> = Vec::new();
    push_tokens(b, &mut y);
    assert(x@ =~= tokens(*a));
    assert(y@ =~= tokens(*b));
    compare_tokens(&x, &y)
}

/// Whether `a` comes before `b` in the total order.
pub fn less(a: &Variable, b: &Variable) -> (r: bool)
    ensures
        r == (cmp_var(*a, *b) < 0),
{
    match compare(a, b) {
        Ordering::Less => true,
        _ => false,
    }
}

/// Whether `a` and `b` are equal in the total order.
pub fn equivalent(a: &Variable, b: &Variable) -> (r: bool)
    ensures
        r == (cmp_var(*a, *b) == 0),
{
    match compare(a, b) {
        Ordering::Equal => true,
        _ => false,
    }
}

} // verus!
