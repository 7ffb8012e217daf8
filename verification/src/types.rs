use std::collections::HashMap;
use vstd::prelude::*;
use crate::strmap::StrMap;

verus! {

/// The JSON value type of `serde_json`, carried through unchanged.
#[verifier::external_type_specification]
#[verifier::external_body]
pub struct ExJsonValue(serde_json::Value);

/// The UUID type of `uuid`, carried through unchanged.
#[verifier::external_type_specification]
#[verifier::external_body]
pub struct ExUuid(uuid::Uuid);

/// A property atom, e.g. "Role=Admin".
pub type PropertyAtom = String;

/// Object (row) identifier.
pub type ObjectId = u32;

/// The properties of one object: attribute name to value.
pub type PropMap = StrMap<String>;

/// The characters of each string of a sequence.
pub open spec fn strings_view(v: Seq<String>) -> Seq<Seq<char>> {
    v.map_values(|a: String| a@)
}

/// The properties of an object as a map of character sequences.
pub open spec fn props_view(p: PropMap) -> Map<Seq<char>, Seq<char>> {
    p@.map_values(|v: String| v@)
}

/// A logical factor: extent (set of object IDs) and intent (set of property atoms).
pub struct Factor {
    pub id: u64,
    pub extent: Vec<ObjectId>,
    pub intent: Vec<PropertyAtom>,
    /// true = from factorization; false = operational/materialized
    pub is_structural: bool,
    pub access_count: u64,
    pub created_at: String,
    pub last_accessed: String,
}

impl Factor {
    /// The intent as character sequences.
    pub open spec fn intent_view(&self) -> Seq<Seq<char>> {
        strings_view(self.intent@)
    }
}

/// Types of nodes in the dependency graph.
#[derive(Debug, Clone, PartialEq, Eq, Hash)]
pub enum NodeType {
    Object(ObjectId),
    Factor(u64),
    JoinFactor(u64),
    Codomain(i32),
    Contact(i32),
    PropertyAtom(String),
}

/// A node in the dependency graph.
pub struct GraphNode {
    pub node_type: NodeType,
    /// nodes this depends on (outgoing)
    pub edges_out: Vec<NodeType>,
    /// nodes that depend on this (incoming)
    pub edges_in: Vec<NodeType>,
}

/// The dependency graph.
pub struct DependencyGraph {
    pub nodes: HashMap<NodeType, GraphNode>,
}

impl DependencyGraph {
    pub fn new() -> (g: Self)
        ensures
            g.nodes@ == Map::<NodeType, GraphNode>::empty(),
    {
        DependencyGraph { nodes: HashMap::new() }
    }
}

/// Simple filter for factor-space queries.
pub enum QueryFilter {
    /// Attribute equals value, e.g. Role = "Admin"
    Eq { attribute: String, value: String },
    /// All sub-filters must match (AND)
    And(Vec<QueryFilter>),
    /// Any sub-filter must match (OR)
    Or(Vec<QueryFilter>),
}

/// Codomain definition.
pub struct Codomain {
    pub id: i32,
    pub name: String,
    /// e.g. {"Role":"Admin"}
    pub filter_condition: serde_json::Value,
    pub tables: Vec<String>,
}

/// Contact relation (named set membership).
pub struct ContactRelation {
    pub id: i32,
    pub department: String,
    pub doctor_name: String,
    pub object_ids: Vec<ObjectId>,
    pub location_ids: Vec<i32>,
}

/// A value inside the details of a delta: the shapes the delta logic tells apart.
pub enum DetailValue {
    /// A JSON string.
    Str(String),
    /// A JSON number that is a non-negative integer fitting in 64 bits.
    UInt(u64),
    /// Any other JSON value (null, bool, other numbers, arrays, objects).
    Other,
}

/// Delta record.  `operation_details` holds the fields of the delta's JSON
/// object, keyed by field name.
pub struct Delta {
    pub delta_id: i64,
    pub db_id: i32,
    pub base_version: String,
    pub sequence: i32,
    pub delta_type: DeltaType,
    pub table_name: String,
    pub codomain_ids: Vec<i32>,
    pub contact_ids: Vec<i32>,
    pub operation_details: StrMap<DetailValue>,
}

#[derive(Debug, Clone, Copy, PartialEq, Eq)]
pub enum DeltaType {
    Insert,
    Update,
    Delete,
}

/// A user session.
pub struct Session {
    pub session_id: uuid::Uuid,
    pub db_id: i32,
    pub user_id: i32,
    pub visible_base_version: String,
    pub visible_deltas: Vec<i64>,
}

/// Lifecycle record for a factor (used to compute half-life etc.)
#[derive(Debug, Clone, Copy, PartialEq, Eq)]
pub struct FactorLifecycle {
    pub factor_id: u64,
    pub is_structural: bool,
    pub created_at_tick: u64,
    pub last_accessed_tick: u64,
    pub evicted_at_tick: Option<u64>,
}

/// Aggregated metrics snapshot.  The utilization ratios and the update
/// amplification factor are quotients of the counters held here.
pub struct MetricsReport {
    pub total_queries: u64,
    /// Factor-space ops on the query path that stayed in factor space.
    pub query_factor_ops: u64,
    /// Factor-space ops on the write path (incremental maintenance).
    pub write_factor_ops: u64,
    pub row_ops: u64,
    /// Graph nodes touched during write/delta propagation.
    pub write_propagation_nodes: u64,
    pub objects_updated: u64,
    pub current_tick: u64,
    pub structural_factor_count: usize,
    pub operational_factor_count: usize,
    /// Resident set size (bytes) of the process at snapshot time.
    pub memory_bytes: u64,
    /// Estimated logical storage of all factors plus BOI/BPI overhead (bytes).
    pub storage_bytes: u64,
    pub active_factors: Vec<FactorLifecycle>,
    pub evicted_factors: Vec<FactorLifecycle>,
    /// The benchmark phase the snapshot belongs to (empty until a runner labels it).
    pub phase_name: String,
}

/// The object id a delta's details carry under "id" (0 when absent or not
/// a non-negative integer), truncated to 32 bits.
pub open spec fn spec_object_id(d: Map<Seq<char>, DetailValue>) -> ObjectId {
    if d.contains_key(seq!['i', 'd']) {
        match d[seq!['i', 'd']] {
            DetailValue::UInt(n) => n as u32,
            _ => 0,
        }
    } else {
        0
    }
}

/// The string-valued fields of a delta's details, except "id".
pub open spec fn spec_properties(d: Map<Seq<char>, DetailValue>) -> Map<Seq<char>, Seq<char>> {
    Map::new(
        |k: Seq<char>| d.contains_key(k) && k != seq!['i', 'd'] && d[k] is Str,
        |k: Seq<char>| d[k]->Str_0@,
    )
}

impl Delta {
    pub fn get_object_id(&self) -> (id: ObjectId)
        requires
            self.operation_details.wf(),
        ensures
            id == spec_object_id(self.operation_details@),
    {
        proof {
            reveal_strlit("id");
            assert("id"@ =~= seq!['i', 'd']);
        }
        match self.operation_details.get("id") {
            Some(DetailValue::UInt(n)) => #[verifier::truncate] (*n as u32),
            _ => 0,
        }
    }

    pub fn get_properties(&self) -> (props: PropMap)
        requires
            self.operation_details.wf(),
        ensures
            props.wf(),
            props_view(props) == spec_properties(self.operation_details@),
    {
        let d = &self.operation_details;
        let mut props: PropMap = StrMap::new();
        let keys = d.keys();
        let n = d.len();
        let ghost idv: Seq<char> = seq!['i', 'd'];
        let id_key = String::from_str("id");
        proof {
            reveal_strlit("id");
            assert(id_key@ =~= idv);
        }
        for i in 0..n
            invariant
                d.wf(),
                props.wf(),
                n == d.keys_seq().len(),
                keys@.len() == n,
                id_key@ == idv,
                idv == seq!['i', 'd'],
                forall|j: int| 0 <= j < n ==> #[trigger] keys@[j]@ == d.keys_seq()[j],
                forall|k: Seq<char>| #[trigger] props@.contains_key(k) <==>
                    (exists|j: int| 0 <= j < i && d.keys_seq()[j] == k) && spec_properties(d@).contains_key(k),
                forall|k: Seq<char>| props@.contains_key(k) ==> #[trigger] props@[k]@ == spec_properties(d@)[k],
        {
            let k = &keys[i];
            let ghost before = props@;
            proof {
                d.lemma_entry(i as int);
                assert(keys@[i as int]@ == d.keys_seq()[i as int]);
                assert(!before.contains_key(k@)) by {
                    if before.contains_key(k@) {
                        let j = choose|j: int| 0 <= j < i && d.keys_seq()[j] == k@;
                    }
                }
            }
            if !(*k == id_key) {
                match d.value_at(i) {
                    DetailValue::Str(s) => {
                        props.insert(k.clone(), s.clone());
                        assert(d@.contains_key(k@));
                        assert(k@ != idv);
                        assert(d@[k@] is Str);
                        assert(spec_properties(d@).contains_key(k@));
                    }
                    _ => {
                        assert(!spec_properties(d@).contains_key(k@));
                    }
                }
            } else {
                assert(k@ == idv);
                assert(!spec_properties(d@).contains_key(idv));
                assert(!spec_properties(d@).contains_key(k@));
            }
            assert(props@.contains_key(k@) == spec_properties(d@).contains_key(k@));
            assert(forall|q: Seq<char>| q != k@ ==> props@.contains_key(q) == before.contains_key(q));
            proof {
                assert forall|q: Seq<char>| #[trigger] props@.contains_key(q) <==>
                    (exists|j: int| 0 <= j < i + 1 && d.keys_seq()[j] == q) && spec_properties(d@).contains_key(q) by {
                    if q == k@ {
                        assert(d.keys_seq()[i as int] == q);
                    } else {
                        if exists|j: int| 0 <= j < i + 1 && d.keys_seq()[j] == q {
                            let j = choose|j: int| 0 <= j < i + 1 && d.keys_seq()[j] == q;
                            assert(j != i);
                            assert(exists|j2: int| 0 <= j2 < i && d.keys_seq()[j2] == q);
                        }
                    }
                }
            }
        }
        proof {
            assert forall|k: Seq<char>| spec_properties(d@).contains_key(k) implies props@.contains_key(k) by {
                let j = d.lemma_key_position(k);
            }
            assert(props_view(props) =~= spec_properties(d@));
        }
        props
    }
}

} // verus!

verus! {

/// A copy of a property map.
pub fn clone_props(p: &PropMap) -> (q: PropMap)
    requires
        p.wf(),
    ensures
        q.wf(),
        props_view(q) == props_view(*p),
{
    let mut q: PropMap = StrMap::new();
    let keys = p.keys();
    let n = p.len();
    for i in 0..n
        invariant
            p.wf(),
            q.wf(),
            n == p.keys_seq().len(),
            keys@.len() == n,
            forall|j: int| 0 <= j < n ==> #[trigger] keys@[j]@ == p.keys_seq()[j],
            forall|k: Seq<char>| #[trigger] q@.contains_key(k) <==>
                (exists|j: int| 0 <= j < i && p.keys_seq()[j] == k),
            forall|k: Seq<char>| #[trigger] q@.contains_key(k) ==> p@.contains_key(k) && q@[k]@ == p@[k]@,
    {
        proof {
            p.lemma_entry(i as int);
        }
        let v = p.value_at(i).clone();
        let ghost qk = keys@[i as int]@;
        let ghost before = q@;
        q.insert(keys[i].clone(), v);
        proof {
            assert(qk == p.keys_seq()[i as int]);
            assert(q@[qk]@ == p@[qk]@);
            assert forall|k: Seq<char>| #[trigger] q@.contains_key(k) implies p@.contains_key(k) && q@[k]@ == p@[k]@ by {
                if k != qk {
                    assert(before.contains_key(k));
                    assert(before[k]@ == p@[k]@);
                }
            }
            assert forall|k: Seq<char>| #[trigger] q@.contains_key(k) <==>
                (exists|j: int| 0 <= j < i + 1 && p.keys_seq()[j] == k) by {
                if k == p.keys_seq()[i as int] {
                } else if exists|j: int| 0 <= j < i + 1 && p.keys_seq()[j] == k {
                    let j = choose|j: int| 0 <= j < i + 1 && p.keys_seq()[j] == k;
                    assert(j != i);
                    assert(exists|j2: int| 0 <= j2 < i && p.keys_seq()[j2] == k);
                }
            }
        }
    }
    proof {
        assert forall|k: Seq<char>| p@.contains_key(k) implies q@.contains_key(k) by {
            let j = p.lemma_key_position(k);
        }
        assert forall|k: Seq<char>| #[trigger] props_view(q).contains_key(k) implies props_view(q)[k] == props_view(*p)[k] by {
            assert(q@.contains_key(k));
            assert(q@[k]@ == p@[k]@);
        }
        assert(props_view(q) =~= props_view(*p));
    }
    q
}

} // verus!
