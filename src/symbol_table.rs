use vstd::prelude::*;
use crate::collections::{
    ascending_refs, covers, map_insert, map_put, merge_union, set_insert, set_put, well_formed,
};
use crate::value::{kind, same_kind, PacketMap, Variable};

verus! {

/// Whether no two entries carry the same identifier.
pub open spec fn unique_ids(s: Seq<(String, Variable)>) -> bool {
    forall|i: int, j: int| 0 <= i < j < s.len() ==> s[i].0@ != s[j].0@
}

/// Whether some entry carries identifier `id`.
pub open spec fn has_id(s: Seq<(String, Variable)>, id: Seq<char>) -> bool {
    exists|i: int| 0 <= i < s.len() && s[i].0@ == id
}

/// The binding of each identifier.
pub open spec fn bindings(s: Seq<(String, Variable)>) -> Map<Seq<char>, Variable> {
    Map::new(
        |id: Seq<char>| has_id(s, id),
        |id: Seq<char>| s[choose|i: int| 0 <= i < s.len() && s[i].0@ == id].1,
    )
}

proof fn lemma_bindings_index(s: Seq<(String, Variable)>, i: int)
    requires
        unique_ids(s),
        0 <= i < s.len(),
    ensures
        bindings(s).contains_key(s[i].0@),
        bindings(s)[s[i].0@] == s[i].1,
{
    let id = s[i].0@;
    assert(has_id(s, id));
    let j = choose|j: int| 0 <= j < s.len() && s[j].0@ == id;
    assert(i == j);
}

proof fn lemma_bindings_update(s: Seq<(String, Variable)>, i: int, e: (String, Variable))
    requires
        unique_ids(s),
        0 <= i < s.len(),
        e.0@ == s[i].0@,
    ensures
        unique_ids(s.update(i, e)),
        bindings(s.update(i, e)) == bindings(s).insert(e.0@, e.1),
{
    let t = s.update(i, e);
    assert(unique_ids(t));
    lemma_bindings_index(t, i);
    assert forall|id: Seq<char>| id != e.0@ implies (has_id(t, id) == has_id(s, id)) && (has_id(s, id)
        ==> bindings(t)[id] == bindings(s)[id]) by {
        if has_id(s, id) {
            let k = choose|k: int| 0 <= k < s.len() && s[k].0@ == id;
            assert(t[k] == s[k]);
            lemma_bindings_index(s, k);
            lemma_bindings_index(t, k);
        }
        if has_id(t, id) {
            let k = choose|k: int| 0 <= k < t.len() && t[k].0@ == id;
            assert(t[k] == s[k]);
        }
    }
    assert(bindings(t) =~= bindings(s).insert(e.0@, e.1));
}

proof fn lemma_bindings_push(s: Seq<(String, Variable)>, e: (String, Variable))
    requires
        unique_ids(s),
        !has_id(s, e.0@),
    ensures
        unique_ids(s.push(e)),
        bindings(s.push(e)) == bindings(s).insert(e.0@, e.1),
{
    let t = s.push(e);
    assert forall|i: int, j: int| 0 <= i < j < t.len() implies t[i].0@ != t[j].0@ by {
        if j == s.len() {
            assert(t[i] == s[i]);
        }
    }
    lemma_bindings_index(t, s.len() as int);
    assert forall|id: Seq<char>| id != e.0@ implies (has_id(t, id) == has_id(s, id)) && (has_id(s, id)
        ==> bindings(t)[id] == bindings(s)[id]) by {
        if has_id(s, id) {
            let k = choose|k: int| 0 <= k < s.len() && s[k].0@ == id;
            assert(t[k] == s[k]);
            lemma_bindings_index(s, k);
            lemma_bindings_index(t, k);
        }
        if has_id(t, id) {
            let k = choose|k: int| 0 <= k < t.len() && t[k].0@ == id;
            assert(t[k] == s[k]);
        }
    }
    assert(bindings(t) =~= bindings(s).insert(e.0@, e.1));
}

/// Identifiers of the rule language and the values bound to them.
#[derive(Debug)]
pub struct SymbolTable {
    pub entries: Vec<(String, Variable)>,
}

impl SymbolTable {
    /// No identifier is bound twice.
    pub open spec fn wf(&self) -> bool {
        unique_ids(self.entries@)
    }

    pub open spec fn view(&self) -> Map<Seq<char>, Variable> {
        bindings(self.entries@)
    }

    /// A table with no binding.
    pub fn new() -> (r: SymbolTable)
        ensures
            r.wf(),
            r@ == Map::<Seq<char>, Variable>::empty(),
    {
        let r = SymbolTable { entries: Vec::new() };
        assert(r@ =~= Map::<Seq<char>, Variable>::empty());
        r
    }

    /// Position of the entry for `id`.
    fn find(&self, id: &String) -> (r: Option<usize>)
        requires
            self.wf(),
        ensures
            r is Some ==> r->Some_0 < self.entries@.len() && self.entries@[r->Some_0 as int].0@ == id@,
            r is None ==> !self@.contains_key(id@),
    {
        let mut i: usize = 0;
        while i < self.entries.len()
            invariant
                i <= self.entries@.len(),
                forall|k: int| 0 <= k < i ==> self.entries@[k].0@ != id@,
            decreases self.entries@.len() - i,
        {
            if self.entries[i].0 == *id {
                return Some(i);
            }
            i = i + 1;
        }
        None
    }

    /// The value bound to `id`, if any.
    pub fn get(&self, id: &String) -> (r: Option<&Variable>)
        requires
            self.wf(),
        ensures
            r is Some <==> self@.contains_key(id@),
            r is Some ==> *r->Some_0 == self@[id@],
    {
        match self.find(id) {
            Some(i) => {
                proof {
                    lemma_bindings_index(self.entries@, i as int);
                }
                Some(&self.entries[i].1)
            },
            None => None,
        }
    }
}

/// A table in which `"f"` is bound to the facts of the current frame.
pub fn init_table(packet_table: PacketMap) -> (r: SymbolTable)
    ensures
        r.wf(),
        r@ == Map::<Seq<char>, Variable>::empty().insert(seq!['f'], Variable::Packet(packet_table)),
{
    let mut table = SymbolTable::new();
    let id = "f".to_owned();
    proof {
        reveal_strlit("f");
        assert(id@ =~= seq!['f']);
    }
    insert_symbol(&mut table, id, Variable::Packet(packet_table));
    table
}

/// Binds `id` to `content`, whatever it was bound to before.
pub fn insert_symbol(table: &mut SymbolTable, id: String, content: Variable)
    requires
        old(table).wf(),
    ensures
        final(table).wf(),
        final(table)@ == old(table)@.insert(id@, content),
{
    match table.find(&id) {
        Some(i) => rebind_at(table, i, id, content),
        None => {
            let ghost s0 = table.entries@;
            let ghost e = (id, content);
            table.entries.push((id, content));
            proof {
                lemma_bindings_push(s0, e);
            }
        },
    }
}

/// Rebinds a bound identifier to a value of the variant it already holds; on an
/// unbound identifier or another variant, leaves the table as it is and returns
/// `false`.
pub fn change_symbol(table: &mut SymbolTable, id: String, update_data: Variable) -> (r: bool)
    requires
        old(table).wf(),
    ensures
        final(table).wf(),
        r == (old(table)@.contains_key(id@) && kind(old(table)@[id@]) == kind(update_data)),
        r ==> final(table)@ == old(table)@.insert(id@, update_data),
        !r ==> *final(table) == *old(table),
{
    match table.find(&id) {
        Some(i) => {
            proof {
                lemma_bindings_index(table.entries@, i as int);
            }
            if same_kind(&table.entries[i].1, &update_data) {
                insert_symbol(table, id, update_data);
                true
            } else {
                false
            }
        },
        None => false,
    }
}

/// Binds `id` to a new map holding the one entry `key → value`.
pub fn launch_mapping(id: String, key: Variable, value: Variable, table: &mut SymbolTable)
    requires
        old(table).wf(),
    ensures
        final(table).wf(),
        final(table)@ == old(table)@.insert(id@, final(table)@[id@]),
        final(table)@[id@] is Mapping,
        final(table)@[id@]->Mapping_0@ == seq![(key, value)],
        well_formed(final(table)@[id@]),
{
    let mut mapping: Vec<(Variable, Variable)> = Vec::new();
    mapping.push((key, value));
    let ghost m = mapping;
    insert_symbol(table, id, Variable::Mapping(mapping));
    assert(table@ =~= old(table)@.insert(id@, table@[id@]));
}

/// Puts `(name, v)` in place of the entry at `i`, which carries `name`.
fn rebind_at(table: &mut SymbolTable, i: usize, name: String, v: Variable)
    requires
        old(table).wf(),
        i < old(table).entries@.len(),
        old(table).entries@[i as int].0@ == name@,
    ensures
        final(table).wf(),
        final(table)@ == old(table)@.insert(name@, v),
{
    let ghost s0 = table.entries@;
    let ghost e = (name, v);
    let _ = table.entries.remove(i);
    table.entries.insert(i, (name, v));
    proof {
        assert(table.entries@ =~= s0.update(i as int, e));
        lemma_bindings_update(s0, i as int, e);
    }
}

/// Puts `key → val` into the map bound to `id` (an entry with an equal key takes
/// the new value). `id` must be bound to a map.
pub fn insert_mapping(id: String, key: Variable, val: Variable, table: &mut SymbolTable)
    requires
        old(table).wf(),
        old(table)@.contains_key(id@),
        old(table)@[id@] is Mapping,
        well_formed(old(table)@[id@]),
    ensures
        final(table).wf(),
        final(table)@ == old(table)@.insert(id@, final(table)@[id@]),
        final(table)@[id@] is Mapping,
        map_put(old(table)@[id@]->Mapping_0@, final(table)@[id@]->Mapping_0@, key, val),
{
    let i = match table.find(&id) {
        Some(i) => i,
        None => return ,
    };
    let ghost s0 = table.entries@;
    proof {
        lemma_bindings_index(s0, i as int);
    }
    let (name, var) = table.entries.remove(i);
    match var {
        Variable::Mapping(mut m) => {
            map_insert(&mut m, key, val);
            table.entries.insert(i, (name, Variable::Mapping(m)));
        },
        other => {
            table.entries.insert(i, (name, other));
        },
    }
    proof {
        let e = table.entries@[i as int];
        assert(table.entries@ =~= s0.update(i as int, e));
        lemma_bindings_update(s0, i as int, e);
    }
}

/// Binds `id` to a new set holding the one element `var_type`.
pub fn create_set(id: String, var_type: Variable, table: &mut SymbolTable)
    requires
        old(table).wf(),
    ensures
        final(table).wf(),
        final(table)@ == old(table)@.insert(id@, final(table)@[id@]),
        final(table)@[id@] is Collection,
        final(table)@[id@]->Collection_0@ == seq![var_type],
        well_formed(final(table)@[id@]),
{
    let mut set: Vec<Variable> = Vec::new();
    set.push(var_type);
    insert_symbol(table, id, Variable::Collection(set));
    assert(table@ =~= old(table)@.insert(id@, table@[id@]));
}

/// Adds `val` to the set bound to `set_name`, unless an equal element is there.
/// `set_name` must be bound to a set.
pub fn insert_set(set_name: String, val: Variable, table: &mut SymbolTable)
    requires
        old(table).wf(),
        old(table)@.contains_key(set_name@),
        old(table)@[set_name@] is Collection,
        well_formed(old(table)@[set_name@]),
    ensures
        final(table).wf(),
        final(table)@ == old(table)@.insert(set_name@, final(table)@[set_name@]),
        final(table)@[set_name@] is Collection,
        set_put(old(table)@[set_name@]->Collection_0@, final(table)@[set_name@]->Collection_0@, val),
        well_formed(final(table)@[set_name@]),
{
    let i = match table.find(&set_name) {
        Some(i) => i,
        None => return ,
    };
    let ghost s0 = table.entries@;
    proof {
        lemma_bindings_index(s0, i as int);
    }
    let (name, var) = table.entries.remove(i);
    match var {
        Variable::Collection(mut set) => {
            set_insert(&mut set, val);
            table.entries.insert(i, (name, Variable::Collection(set)));
        },
        other => {
            table.entries.insert(i, (name, other));
        },
    }
    proof {
        let e = table.entries@[i as int];
        assert(table.entries@ =~= s0.update(i as int, e));
        lemma_bindings_update(s0, i as int, e);
    }
}

/// The union of two sets, in ascending order, each element once; of two equal
/// elements the one from `first` is listed. Both values must be sets.
pub fn set_union<'a>(first: &'a Variable, second: &'a Variable) -> (r: Vec<&'a Variable>)
    requires
        first is Collection,
        second is Collection,
        well_formed(*first),
        well_formed(*second),
    ensures
        ascending_refs(r@),
        forall|k: int|
            0 <= k < r@.len() ==> first->Collection_0@.contains(*r@[k]) || second->Collection_0@.contains(
                *r@[k],
            ),
        forall|j: int| 0 <= j < first->Collection_0@.len() ==> covers(r@, first->Collection_0@[j]),
        forall|j: int| 0 <= j < second->Collection_0@.len() ==> covers(r@, second->Collection_0@[j]),
{
    match (first, second) {
        (Variable::Collection(f), Variable::Collection(s)) => merge_union(f, s),
        _ => Vec::new(),
    }
}

} // verus!
