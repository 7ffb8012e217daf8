use vstd::prelude::*;
use crate::types::{strings_view, Factor};

verus! {

/// The error type of `anyhow`, carried through unchanged.
#[verifier::external_type_specification]
#[verifier::external_body]
pub struct ExAnyhowError(anyhow::Error);

/// Block storage for factors under a base path.  A snapshot of factor
/// blocks is stored in the column layout of `BlockColumns`, which
/// `encode_blocks` writes and `decode_blocks` reads back.
pub struct VirtualDisk {
    pub base_path: String,
}

impl VirtualDisk {
    pub fn new(path: &str) -> (d: Self)
        ensures
            d.base_path@ == path@,
    {
        VirtualDisk { base_path: path.to_owned() }
    }
}

/// The stored layout of a snapshot of factor blocks: one column per field
/// of a factor, entry `i` of each column belonging to block `i`.
pub struct BlockColumns {
    pub ids: Vec<u64>,
    pub extents: Vec<Vec<u32>>,
    pub intents: Vec<Vec<String>>,
    pub structural: Vec<bool>,
    pub access_counts: Vec<u64>,
    pub created_at: Vec<String>,
    pub last_accessed: Vec<String>,
}

/// What a factor holds, as plain values.
pub open spec fn factor_fields(f: Factor) -> (u64, Seq<u32>, Seq<Seq<char>>, bool, u64, Seq<char>, Seq<char>) {
    (f.id, f.extent@, strings_view(f.intent@), f.is_structural, f.access_count, f.created_at@, f.last_accessed@)
}

/// What a list of factors holds, as plain values.
pub open spec fn blocks_fields(bs: Seq<Factor>) -> Seq<(u64, Seq<u32>, Seq<Seq<char>>, bool, u64, Seq<char>, Seq<char>)> {
    bs.map_values(|f: Factor| factor_fields(f))
}

/// The fields of block `i` read from the columns.
pub open spec fn column_fields(c: BlockColumns, i: int) -> (u64, Seq<u32>, Seq<Seq<char>>, bool, u64, Seq<char>, Seq<char>) {
    (c.ids@[i], c.extents@[i]@, strings_view(c.intents@[i]@), c.structural@[i], c.access_counts@[i], c.created_at@[i]@,
        c.last_accessed@[i]@)
}

/// Every column has `n` entries.
pub open spec fn columns_of_len(c: BlockColumns, n: nat) -> bool {
    &&& c.ids@.len() == n
    &&& c.extents@.len() == n
    &&& c.intents@.len() == n
    &&& c.structural@.len() == n
    &&& c.access_counts@.len() == n
    &&& c.created_at@.len() == n
    &&& c.last_accessed@.len() == n
}

/// The columns hold exactly the blocks `bs`, in order.
pub open spec fn columns_hold(c: BlockColumns, bs: Seq<(u64, Seq<u32>, Seq<Seq<char>>, bool, u64, Seq<char>, Seq<char>)>) -> bool {
    &&& columns_of_len(c, bs.len())
    &&& forall|i: int| 0 <= i < bs.len() ==> #[trigger] column_fields(c, i) == bs[i]
}

/// A copy of a list of strings.
fn copy_strings(v: &Vec<String>) -> (r: Vec<String>)
    ensures
        strings_view(r@) == strings_view(v@),
{
    let mut r: Vec<String> = Vec::new();
    for i in 0..v.len()
        invariant
            r@.len() == i,
            forall|k: int| 0 <= k < i ==> #[trigger] r@[k]@ == v@[k]@,
    {
        r.push(v[i].clone());
    }
    proof {
        assert forall|k: int| 0 <= k < v@.len() implies #[trigger] strings_view(r@)[k] == strings_view(v@)[k] by {
            assert(r@[k]@ == v@[k]@);
        }
        assert(strings_view(r@) =~= strings_view(v@));
    }
    r
}

/// A copy of a list of object ids.
fn copy_ids(v: &Vec<u32>) -> (r: Vec<u32>)
    ensures
        r@ == v@,
{
    let mut r: Vec<u32> = Vec::new();
    for i in 0..v.len()
        invariant
            r@ == v@.take(i as int),
    {
        r.push(v[i]);
        proof {
            assert(r@ =~= v@.take(i + 1));
        }
    }
    proof {
        assert(v@.take(v@.len() as int) =~= v@);
    }
    r
}

/// Lays the blocks out in columns (see `columns_hold`).
pub fn encode_blocks(blocks: &[Factor]) -> (c: BlockColumns)
    ensures
        columns_hold(c, blocks_fields(blocks@)),
{
    let mut c = BlockColumns {
        ids: Vec::new(),
        extents: Vec::new(),
        intents: Vec::new(),
        structural: Vec::new(),
        access_counts: Vec::new(),
        created_at: Vec::new(),
        last_accessed: Vec::new(),
    };
    for i in 0..blocks.len()
        invariant
            columns_hold(c, blocks_fields(blocks@).take(i as int)),
    {
        let f = &blocks[i];
        let ghost before = c;
        c.ids.push(f.id);
        c.extents.push(copy_ids(&f.extent));
        c.intents.push(copy_strings(&f.intent));
        c.structural.push(f.is_structural);
        c.access_counts.push(f.access_count);
        c.created_at.push(f.created_at.clone());
        c.last_accessed.push(f.last_accessed.clone());
        proof {
            let t = blocks_fields(blocks@).take(i + 1);
            assert forall|j: int| 0 <= j < t.len() implies #[trigger] column_fields(c, j) == t[j] by {
                if j < i {
                    assert(column_fields(before, j) == blocks_fields(blocks@).take(i as int)[j]);
                    assert(column_fields(c, j) == column_fields(before, j));
                }
            }
        }
    }
    proof {
        assert(blocks_fields(blocks@).take(blocks@.len() as int) =~= blocks_fields(blocks@));
    }
    c
}

/// Reads the blocks back from their columns: the blocks the columns hold,
/// or nothing when the columns differ in length.
pub fn decode_blocks(c: &BlockColumns) -> (r: Option<Vec<Factor>>)
    ensures
        match r {
            Some(v) => columns_hold(*c, blocks_fields(v@)),
            None => !columns_of_len(*c, c.ids@.len()),
        },
{
    let n = c.ids.len();
    if c.extents.len() != n || c.intents.len() != n || c.structural.len() != n || c.access_counts.len() != n
        || c.created_at.len() != n || c.last_accessed.len() != n {
        return None;
    }
    let mut v: Vec<Factor> = Vec::new();
    for i in 0..n
        invariant
            columns_of_len(*c, n as nat),
            v@.len() == i,
            forall|j: int| 0 <= j < i ==> #[trigger] factor_fields(v@[j]) == column_fields(*c, j),
    {
        v.push(Factor {
            id: c.ids[i],
            extent: copy_ids(&c.extents[i]),
            intent: copy_strings(&c.intents[i]),
            is_structural: c.structural[i],
            access_count: c.access_counts[i],
            created_at: c.created_at[i].clone(),
            last_accessed: c.last_accessed[i].clone(),
        });
    }
    proof {
        assert forall|j: int| 0 <= j < v@.len() implies #[trigger] column_fields(*c, j) == blocks_fields(v@)[j] by {
            assert(factor_fields(v@[j]) == column_fields(*c, j));
        }
    }
    Some(v)
}

/// What is saved is what is loaded: reading back the columns that
/// `encode_blocks` laid out gives blocks holding the same fields, in order.
pub proof fn law_blocks_round_trip(c: BlockColumns, saved: Seq<Factor>, loaded: Option<Vec<Factor>>)
    requires
        columns_hold(c, blocks_fields(saved)),
        match loaded {
            Some(v) => columns_hold(c, blocks_fields(v@)),
            None => !columns_of_len(c, c.ids@.len()),
        },
    ensures
        loaded matches Some(v) && blocks_fields(v@) == blocks_fields(saved),
{
    match loaded {
        Some(v) => {
            let a = blocks_fields(v@);
            let b = blocks_fields(saved);
            assert(a.len() == b.len());
            assert forall|i: int| 0 <= i < a.len() implies a[i] == b[i] by {
                assert(column_fields(c, i) == a[i]);
                assert(column_fields(c, i) == b[i]);
            }
            assert(a =~= b);
        },
        None => {},
    }
}

} // verus!
