use rand::rngs::{StdRng, ThreadRng};
use rand::RngExt;
use vstd::prelude::*;
use crate::text::{decimal, decimal_string};

verus! {

/// The thread-local random generator of `rand`, carried through unchanged.
#[verifier::external_type_specification]
#[verifier::external_body]
pub struct ExThreadRng(ThreadRng);

/// A generated user row.
pub struct User {
    pub id: u64,
    pub tenant: u32,
    pub department: u16,
    pub role: u16,
    pub region: u16,
    pub clearance: u16,
    pub manager: Option<u64>,
}

/// The name of a role code.
pub open spec fn role_text(r: u16) -> Seq<char> {
    if r == 1 {
        "Engineer"@
    } else if r == 2 {
        "Manager"@
    } else if r == 3 {
        "Admin"@
    } else {
        "Viewer"@
    }
}

/// The name of a region code.
pub open spec fn region_text(r: u16) -> Seq<char> {
    if r == 1 {
        "EU"@
    } else if r == 2 {
        "APAC"@
    } else {
        "US"@
    }
}

/// The name of a department code.
pub open spec fn dept_text(d: u16) -> Seq<char> {
    if d == 1 {
        "Sales"@
    } else if d == 2 {
        "HR"@
    } else if d == 3 {
        "Finance"@
    } else {
        "Engineering"@
    }
}

/// The name of a clearance code.
pub open spec fn clearance_text(c: u16) -> Seq<char> {
    if c == 1 {
        "Confidential"@
    } else if c == 2 {
        "Secret"@
    } else if c == 3 {
        "TopSecret"@
    } else {
        "Public"@
    }
}

/// The name of a compliance policy code.
pub open spec fn policy_text(p: u64) -> Seq<char> {
    if p == 0 {
        "GDPR"@
    } else if p == 1 {
        "CCPA"@
    } else if p == 2 {
        "HIPAA"@
    } else {
        "SOX"@
    }
}

/// The name of a tenant feature code.
pub open spec fn feature_text(f: u64) -> Seq<char> {
    if f == 0 {
        "Billing"@
    } else if f == 1 {
        "Analytics"@
    } else if f == 2 {
        "Auth"@
    } else {
        "Storage"@
    }
}

pub fn role_name(r: u16) -> (s: &'static str)
    ensures
        s@ == role_text(r),
{
    if r == 1 {
        "Engineer"
    } else if r == 2 {
        "Manager"
    } else if r == 3 {
        "Admin"
    } else {
        "Viewer"
    }
}

pub fn region_name(r: u16) -> (s: &'static str)
    ensures
        s@ == region_text(r),
{
    if r == 1 {
        "EU"
    } else if r == 2 {
        "APAC"
    } else {
        "US"
    }
}

pub fn dept_name(d: u16) -> (s: &'static str)
    ensures
        s@ == dept_text(d),
{
    if d == 1 {
        "Sales"
    } else if d == 2 {
        "HR"
    } else if d == 3 {
        "Finance"
    } else {
        "Engineering"
    }
}

pub fn clearance_name(c: u16) -> (s: &'static str)
    ensures
        s@ == clearance_text(c),
{
    if c == 1 {
        "Confidential"
    } else if c == 2 {
        "Secret"
    } else if c == 3 {
        "TopSecret"
    } else {
        "Public"
    }
}

fn policy_name(p: u64) -> (s: &'static str)
    ensures
        s@ == policy_text(p),
{
    if p == 0 {
        "GDPR"
    } else if p == 1 {
        "CCPA"
    } else if p == 2 {
        "HIPAA"
    } else {
        "SOX"
    }
}

fn feature_name(f: u64) -> (s: &'static str)
    ensures
        s@ == feature_text(f),
{
    if f == 0 {
        "Billing"
    } else if f == 1 {
        "Analytics"
    } else if f == 2 {
        "Auth"
    } else {
        "Storage"
    }
}

/// A filter of a generated query.
pub enum FilterPredicate {
    Eq { attribute: String, value: String },
    And(Vec<FilterPredicate>),
    Or(Vec<FilterPredicate>),
}

/// A generated operation.
pub enum Operation {
    PointLookup { id: u64 },
    EqualityFilter { attribute: String, value: String },
    MultiAttributeFilter { predicates: Vec<FilterPredicate> },
    Insert { user: User },
    Update { user_id: u64, attribute: String, new_value: String },
    Delete { user_id: u64 },
    Join { left_table: String, right_table: String, join_attribute: String },
}

/// A workload phase: which kind of read queries dominate.
pub enum Phase {
    IAM,
    Compliance,
    Tenant,
    Security,
    Custom(String),
}

/// The phases of the drift simulation.
pub fn drift_schedule() -> (v: Vec<Phase>)
    ensures
        v@.len() == 6,
        v@[0] is IAM,
        v@[1] is Compliance,
        v@[2] is Tenant,
        v@[3] is IAM,
        v@[4] is Security,
        v@[5] is IAM,
{
    vec![Phase::IAM, Phase::Compliance, Phase::Tenant, Phase::IAM, Phase::Security, Phase::IAM]
}

/// The phases of the main event.
pub fn main_event_schedule() -> (v: Vec<Phase>)
    ensures
        v@.len() == 6,
        v@[0] is IAM,
        v@[1] is Compliance,
        v@[2] is Tenant,
        v@[3] is IAM,
        v@[4] is Security,
        v@[5] is IAM,
{
    vec![Phase::IAM, Phase::Compliance, Phase::Tenant, Phase::IAM, Phase::Security, Phase::IAM]
}

/// `p` is the equality `attr = value`.
pub open spec fn is_eq_pred(p: FilterPredicate, attr: Seq<char>, value: Seq<char>) -> bool {
    match p {
        FilterPredicate::Eq { attribute, value: v } => attribute@ == attr && v@ == value,
        _ => false,
    }
}

/// The random choices behind one generated read: indexes into the phase's
/// value lists, and for the IAM phase whether the query leaves out the
/// clearance.
pub struct ReadDraw {
    pub first: u64,
    pub second: u64,
    pub narrow: bool,
    pub third: u64,
}

/// The choices are in range for the phase.
pub open spec fn read_fits(phase: Phase, dataset_size: usize, d: ReadDraw) -> bool {
    match phase {
        Phase::IAM => d.first < 4 && d.second < 3 && d.third < 4,
        Phase::Compliance => d.first < 3 && d.second < 4,
        Phase::Tenant => d.first < 100 && d.second < 4,
        Phase::Security => d.first < 2,
        Phase::Custom(_) => d.first < (if dataset_size == 0 { 1 } else { dataset_size as int }),
    }
}

/// `op` is the read that phase `phase` makes from the choices `d`:
/// role and region (and, unless narrow, clearance) for IAM; region and
/// policy for Compliance; tenant and feature for Tenant; a high clearance for
/// Security; a point lookup for a custom phase.
pub open spec fn reads_as(op: Operation, phase: Phase, d: ReadDraw) -> bool {
    match phase {
        Phase::IAM => op matches Operation::MultiAttributeFilter { predicates } && if d.narrow {
            &&& predicates@.len() == 2
            &&& is_eq_pred(predicates@[0], "role"@, role_text(d.first as u16))
            &&& is_eq_pred(predicates@[1], "region"@, region_text(d.second as u16))
        } else {
            &&& predicates@.len() == 3
            &&& is_eq_pred(predicates@[0], "role"@, role_text(d.first as u16))
            &&& is_eq_pred(predicates@[1], "region"@, region_text(d.second as u16))
            &&& is_eq_pred(predicates@[2], "clearance"@, clearance_text(d.third as u16))
        },
        Phase::Compliance => op matches Operation::MultiAttributeFilter { predicates } && {
            &&& predicates@.len() == 2
            &&& is_eq_pred(predicates@[0], "region"@, region_text(d.first as u16))
            &&& is_eq_pred(predicates@[1], "policy"@, policy_text(d.second))
        },
        Phase::Tenant => op matches Operation::MultiAttributeFilter { predicates } && {
            &&& predicates@.len() == 2
            &&& is_eq_pred(predicates@[0], "tenant"@, decimal(d.first as nat))
            &&& is_eq_pred(predicates@[1], "feature"@, feature_text(d.second))
        },
        Phase::Security => op matches Operation::EqualityFilter { attribute, value } && {
            &&& attribute@ == "clearance"@
            &&& value@ == clearance_text((d.first + 2) as u16)
        },
        Phase::Custom(_) => op matches Operation::PointLookup { id } && id == d.first,
    }
}

fn eq_pred(attr: &str, value: &str) -> (p: FilterPredicate)
    ensures
        is_eq_pred(p, attr@, value@),
{
    FilterPredicate::Eq { attribute: attr.to_owned(), value: value.to_owned() }
}

/// The read that `phase` makes from the choices `d` (see `reads_as`).
pub fn read_operation(phase: &Phase, dataset_size: usize, d: &ReadDraw) -> (op: Operation)
    requires
        read_fits(*phase, dataset_size, *d),
    ensures
        reads_as(op, *phase, *d),
{
    match phase {
        Phase::IAM => {
            let mut predicates: Vec<FilterPredicate> = Vec::new();
            predicates.push(eq_pred("role", role_name(d.first as u16)));
            predicates.push(eq_pred("region", region_name(d.second as u16)));
            if !d.narrow {
                predicates.push(eq_pred("clearance", clearance_name(d.third as u16)));
            }
            Operation::MultiAttributeFilter { predicates }
        },
        Phase::Compliance => {
            let mut predicates: Vec<FilterPredicate> = Vec::new();
            predicates.push(eq_pred("region", region_name(d.first as u16)));
            predicates.push(eq_pred("policy", policy_name(d.second)));
            Operation::MultiAttributeFilter { predicates }
        },
        Phase::Tenant => {
            let mut predicates: Vec<FilterPredicate> = Vec::new();
            let tenant = decimal_string(d.first);
            predicates.push(eq_pred("tenant", tenant.as_str()));
            predicates.push(eq_pred("feature", feature_name(d.second)));
            Operation::MultiAttributeFilter { predicates }
        },
        Phase::Security => {
            let cl = clearance_name((d.first + 2) as u16);
            Operation::EqualityFilter { attribute: "clearance".to_owned(), value: cl.to_owned() }
        },
        Phase::Custom(_) => Operation::PointLookup { id: d.first },
    }
}

/// `RngExt::random_range` over `0..n`: a value drawn uniformly below `n`.
/// The call panics on an empty range, which `n > 0` rules out; which value
/// comes back is chance and is not stated.
#[verifier::external_body]
fn draw_below(rng: &mut ThreadRng, n: u64) -> (r: u64)
    requires
        n > 0,
    ensures
        r < n,
{
    rng.random_range(0..n)
}

/// `RngExt::random_ratio`: true with probability `num / den`.  The call
/// panics when `den == 0` or `num > den`, which `requires` rules out; its
/// documentation guarantees `false` for `num == 0` and `true` for
/// `num == den`.  Otherwise which value comes back is chance and is not stated.
#[verifier::external_body]
fn draw_ratio(rng: &mut ThreadRng, num: u32, den: u32) -> (b: bool)
    requires
        den > 0,
        num <= den,
    ensures
        num == 0 ==> !b,
        num == den ==> b,
{
    rng.random_ratio(num, den)
}

/// Draws a read for `phase`: every value it can return is the read of some
/// choices in range (see `reads_as`).  Each coin of the IAM phase is fair.
pub fn gen_read(phase: &Phase, dataset_size: usize, rng: &mut ThreadRng) -> (op: Operation)
    ensures
        exists|d: ReadDraw| #[trigger] read_fits(*phase, dataset_size, d) && reads_as(op, *phase, d),
{
    let d = match phase {
        Phase::IAM => {
            let first = draw_below(rng, 4);
            let second = draw_below(rng, 3);
            let narrow = draw_ratio(rng, 1, 2);
            let third = if narrow { 0 } else { draw_below(rng, 4) };
            ReadDraw { first, second, narrow, third }
        },
        Phase::Compliance => {
            let first = draw_below(rng, 3);
            let second = draw_below(rng, 4);
            ReadDraw { first, second, narrow: false, third: 0 }
        },
        Phase::Tenant => {
            let first = draw_below(rng, 100);
            let second = draw_below(rng, 4);
            ReadDraw { first, second, narrow: false, third: 0 }
        },
        Phase::Security => {
            let first = draw_below(rng, 2);
            ReadDraw { first, second: 0, narrow: false, third: 0 }
        },
        Phase::Custom(_) => {
            let ds: u64 = if dataset_size == 0 { 1 } else { dataset_size as u64 };
            let first = draw_below(rng, ds);
            ReadDraw { first, second: 0, narrow: false, third: 0 }
        },
    };
    let op = read_operation(phase, dataset_size, &d);
    proof {
        assert(read_fits(*phase, dataset_size, d));
    }
    op
}

/// The random choices behind one generated write: the user, whether it is a
/// delete, whether an update changes the role (else the region), and the
/// index of the new value.
pub struct WriteDraw {
    pub user_id: u64,
    pub delete: bool,
    pub role: bool,
    pub pick: u64,
}

/// The choices are in range.
pub open spec fn write_fits(dataset_size: usize, d: WriteDraw) -> bool {
    &&& d.user_id < (if dataset_size == 0 { 1 } else { dataset_size as int })
    &&& d.pick < (if d.role { 4int } else { 3int })
}

/// `op` is the write made from the choices `d`: a delete of the user, or an
/// update of its role or region to the picked name.
pub open spec fn writes_as(op: Operation, d: WriteDraw) -> bool {
    if d.delete {
        op matches Operation::Delete { user_id } && user_id == d.user_id
    } else if d.role {
        op matches Operation::Update { user_id, attribute, new_value } && user_id == d.user_id && attribute@ == "role"@
            && new_value@ == role_text(d.pick as u16)
    } else {
        op matches Operation::Update { user_id, attribute, new_value } && user_id == d.user_id && attribute@ == "region"@
            && new_value@ == region_text(d.pick as u16)
    }
}

/// The write made from the choices `d` (see `writes_as`).
pub fn write_operation(d: &WriteDraw) -> (op: Operation)
    requires
        d.pick < 4,
    ensures
        writes_as(op, *d),
{
    if d.delete {
        Operation::Delete { user_id: d.user_id }
    } else if d.role {
        Operation::Update {
            user_id: d.user_id,
            attribute: "role".to_owned(),
            new_value: role_name(d.pick as u16).to_owned(),
        }
    } else {
        Operation::Update {
            user_id: d.user_id,
            attribute: "region".to_owned(),
            new_value: region_name(d.pick as u16).to_owned(),
        }
    }
}

/// Draws a write: a delete with probability one in ten, else an update of
/// the role or the region with even odds.  Every value it can return is the
/// write of some choices in range (see `writes_as`).
pub fn gen_write(dataset_size: usize, rng: &mut ThreadRng) -> (op: Operation)
    ensures
        exists|d: WriteDraw| #[trigger] write_fits(dataset_size, d) && writes_as(op, d),
{
    let ds: u64 = if dataset_size == 0 { 1 } else { dataset_size as u64 };
    let user_id = draw_below(rng, ds);
    let delete = draw_ratio(rng, 1, 10);
    let d = if delete {
        WriteDraw { user_id, delete, role: false, pick: 0 }
    } else {
        let role = draw_ratio(rng, 1, 2);
        let pick = if role { draw_below(rng, 4) } else { draw_below(rng, 3) };
        WriteDraw { user_id, delete, role, pick }
    };
    let op = write_operation(&d);
    proof {
        assert(write_fits(dataset_size, d));
    }
    op
}

/// The fixed join that the generated workload issues.
pub fn join_operation() -> (op: Operation)
    ensures
        op matches Operation::Join { left_table, right_table, join_attribute } && left_table@ == "users"@
            && right_table@ == "permissions"@ && join_attribute@ == "role"@,
{
    Operation::Join {
        left_table: "users".to_owned(),
        right_table: "permissions".to_owned(),
        join_attribute: "role".to_owned(),
    }
}


impl Phase {
    /// A copy of the phase.
    pub fn duplicate(&self) -> (p: Phase)
        ensures
            p == *self,
    {
        match self {
            Phase::IAM => Phase::IAM,
            Phase::Compliance => Phase::Compliance,
            Phase::Tenant => Phase::Tenant,
            Phase::Security => Phase::Security,
            Phase::Custom(name) => Phase::Custom(name.clone()),
        }
    }
}

/// The mix of a generated workload: the shares of reads, writes and joins
/// in millionths of the operations, how many operations to run, and the
/// seed of the run (0 for one from the system).
#[derive(Debug, Clone, Copy)]
pub struct WorkloadConfig {
    pub read_ratio: u64,
    pub write_ratio: u64,
    pub join_ratio: u64,
    pub total_operations: usize,
    pub rng_seed: u64,
}

/// `rand::rng`: the generator of the current thread.  Nothing is stated of
/// its stream.
#[verifier::external_body]
fn thread_generator() -> ThreadRng {
    rand::rng()
}

/// `op` is the fixed join of the generated workload.
pub open spec fn is_suite_join(op: Operation) -> bool {
    op matches Operation::Join { left_table, right_table, join_attribute } && left_table@ == "users"@
        && right_table@ == "permissions"@ && join_attribute@ == "role"@
}

/// `op` is an operation the generator can produce under `cfg` for the
/// phase and dataset size: a join when joins have a share; a write when
/// writes have a share that joins leave room for; a read when joins and
/// writes together leave room for one.
pub open spec fn generated(op: Operation, cfg: WorkloadConfig, phase: Phase, dataset_size: usize) -> bool {
    ||| cfg.join_ratio > 0 && is_suite_join(op)
    ||| cfg.join_ratio < 1_000_000 && cfg.write_ratio > 0
        && exists|d: WriteDraw| #[trigger] write_fits(dataset_size, d) && writes_as(op, d)
    ||| cfg.join_ratio + cfg.write_ratio < 1_000_000
        && exists|d: ReadDraw| #[trigger] read_fits(phase, dataset_size, d) && reads_as(op, phase, d)
}

/// Draws the operations of a workload phase.
pub struct WorkloadGenerator {
    pub config: WorkloadConfig,
    pub phase: Phase,
    pub dataset_size: usize,
    pub rng: ThreadRng,
}

impl WorkloadGenerator {
    pub fn new(config: WorkloadConfig, phase: Phase, dataset_size: usize) -> (g: Self)
        ensures
            g.config == config,
            g.phase == phase,
            g.dataset_size == dataset_size,
    {
        WorkloadGenerator { config, phase, dataset_size, rng: thread_generator() }
    }

    /// Draws the next operation: a uniform draw below one million selects a
    /// join below the join share, a write below the join and write shares
    /// together, and a read above (see `generated`).
    pub fn next_operation(&mut self) -> (op: Operation)
        ensures
            final(self).config == old(self).config,
            final(self).phase == old(self).phase,
            final(self).dataset_size == old(self).dataset_size,
            generated(op, old(self).config, old(self).phase, old(self).dataset_size),
    {
        let r = draw_below(&mut self.rng, 1_000_000);
        self.operation_at(r)
    }

    /// The operation for the drawn point `r` (below one million): the join
    /// below the join share, a write below the join and write shares
    /// together, a read above.
    pub fn operation_at(&mut self, r: u64) -> (op: Operation)
        requires
            r < 1_000_000,
        ensures
            final(self).config == old(self).config,
            final(self).phase == old(self).phase,
            final(self).dataset_size == old(self).dataset_size,
            r < old(self).config.join_ratio ==> is_suite_join(op),
            old(self).config.join_ratio <= r < old(self).config.join_ratio + old(self).config.write_ratio ==>
                exists|d: WriteDraw| #[trigger] write_fits(old(self).dataset_size, d) && writes_as(op, d),
            old(self).config.join_ratio + old(self).config.write_ratio <= r ==>
                exists|d: ReadDraw| #[trigger] read_fits(old(self).phase, old(self).dataset_size, d) && reads_as(op, old(self).phase, d),
            generated(op, old(self).config, old(self).phase, old(self).dataset_size),
    {
        if r < self.config.join_ratio {
            return join_operation();
        }
        let write_end: u128 = self.config.join_ratio as u128 + self.config.write_ratio as u128;
        if (r as u128) < write_end {
            gen_write(self.dataset_size, &mut self.rng)
        } else {
            gen_read(&self.phase, self.dataset_size, &mut self.rng)
        }
    }
}

/// How strongly generated attributes follow one another, in millionths: the
/// chance that a user's role follows its tenant, its department its role,
/// and its clearance its region.
pub struct CorrelationConfig {
    pub role_department_bias: u64,
    pub region_clearance_bias: u64,
    pub tenant_role_bias: u64,
}

impl Default for CorrelationConfig {
    fn default() -> (c: Self)
        ensures
            c.role_department_bias == 700_000,
            c.region_clearance_bias == 500_000,
            c.tenant_role_bias == 800_000,
    {
        CorrelationConfig { role_department_bias: 700_000, region_clearance_bias: 500_000, tenant_role_bias: 800_000 }
    }
}

/// Draws a code below `count`: the preferred one (modulo `count`) with
/// `bias` millionths of chance, else one drawn uniformly.
pub fn biased_choice(rng: &mut StdRng, count: u16, preferred: u64, bias: u64) -> (c: u16)
    requires
        count > 0,
    ensures
        c < count,
        bias >= 1_000_000 ==> c == preferred % (count as u64),
{
    let x = crate::benchmark::draw_between(rng, 0, 999_999);
    biased_code(rng, count, preferred, bias, x)
}

/// The code for the drawn point `x` (below one million): the preferred one
/// (modulo `count`) when `x` lies below the bias, else one drawn uniformly.
pub fn biased_code(rng: &mut StdRng, count: u16, preferred: u64, bias: u64, x: u64) -> (c: u16)
    requires
        count > 0,
    ensures
        c < count,
        x < bias ==> c == preferred % (count as u64),
{
    if x < bias {
        (preferred % (count as u64)) as u16
    } else {
        crate::benchmark::draw_between(rng, 0, (count - 1) as u64) as u16
    }
}

/// A generated user at position `i` is well formed: its id is `i`, its
/// codes are in range, the followed codes follow whenever the bias is
/// certain, and it has a manager (an earlier user) unless it is the first
/// user or its role is code 0.
pub open spec fn user_fits(u: User, i: int, cfg: CorrelationConfig) -> bool {
    &&& u.id == i
    &&& u.tenant < 100
    &&& u.role < 4
    &&& u.department < 4
    &&& u.region < 3
    &&& u.clearance < 4
    &&& cfg.tenant_role_bias >= 1_000_000 ==> u.role == (u.tenant * 3) % 4
    &&& cfg.role_department_bias >= 1_000_000 ==> u.department == u.role
    &&& cfg.region_clearance_bias >= 1_000_000 ==> u.clearance == u.region
    &&& match u.manager {
        None => u.role == 0 || i == 0,
        Some(m) => u.role != 0 && i != 0 && m < i,
    }
}

/// Generates `count` users with ids `0 .. count` from the generator
/// (see `user_fits`).
pub fn generate_users_with(count: usize, config: &CorrelationConfig, rng: &mut StdRng) -> (users: Vec<User>)
    ensures
        users@.len() == count,
        forall|i: int| 0 <= i < count ==> #[trigger] user_fits(users@[i], i, *config),
{
    let mut users: Vec<User> = Vec::new();
    for i in 0..count
        invariant
            users@.len() == i,
            forall|j: int| 0 <= j < i ==> #[trigger] user_fits(users@[j], j, *config),
    {
        let tenant = crate::benchmark::draw_between(rng, 0, 99) as u32;
        let role = biased_choice(rng, 4, (tenant as u64 * 3) % 4, config.tenant_role_bias);
        let department = biased_choice(rng, 4, role as u64, config.role_department_bias);
        let region = crate::benchmark::draw_between(rng, 0, 2) as u16;
        let clearance = biased_choice(rng, 4, region as u64, config.region_clearance_bias);
        let manager = if role == 0 || i == 0 {
            None
        } else {
            Some(crate::benchmark::draw_between(rng, 0, (i - 1) as u64))
        };
        users.push(User { id: i as u64, tenant, department, role, region, clearance, manager });
        proof {
            assert(user_fits(users@[i as int], i as int, *config));
        }
    }
    users
}

/// Generates `count` users from a generator fixed by `seed` (one seeded
/// from the system when `seed` is 0).
pub fn generate_users_seeded(count: usize, config: &CorrelationConfig, seed: u64) -> (users: Vec<User>)
    ensures
        users@.len() == count,
        forall|i: int| 0 <= i < count ==> #[trigger] user_fits(users@[i], i, *config),
{
    let mut rng = crate::benchmark::make_generator(seed);
    generate_users_with(count, config, &mut rng)
}

/// Generates `count` users from a generator seeded from the system.
pub fn generate_users(count: usize, config: &CorrelationConfig) -> (users: Vec<User>)
    ensures
        users@.len() == count,
        forall|i: int| 0 <= i < count ==> #[trigger] user_fits(users@[i], i, *config),
{
    let mut rng = crate::benchmark::make_generator(0);
    generate_users_with(count, config, &mut rng)
}

} // verus!
