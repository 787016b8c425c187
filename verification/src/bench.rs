use vstd::prelude::*;
use vstd::arithmetic::power::pow;
use vstd::wrapping::u64_specs;
use crate::text::{decimal, push_decimal};
use crate::ids::{be_bytes, uuid_bytes_from_u128};

verus! {

/// Row counts the point-lookup benchmarks run at.
pub const SIZES: [usize; 3] = [1_000, 100_000, 1_000_000];

/// Table sizes of the list (paging) benchmarks.
pub const LIST_SIZES: [usize; 3] = [1_000, 10_000, 100_000];

/// The table size at which the page-limit sweep runs.
pub const LIST_CORE_ROWS: usize = 10_000;

/// The page limit used for the table-size sweep.
pub const LIST_CORE_LIMIT: usize = 50;

/// Page limits of the page-limit sweep.
pub const LIST_LIMITS: [usize; 2] = [50, 1_000];

/// The view count probed by the indexed-filter list shape.
pub const LIST_PROBE_VIEWS: u64 = 512;

/// Number of tags the dataset creates (at most).
pub const N_TAGS: usize = 500;

/// Number of tag links per post.
pub const TAGS_PER_POST: usize = 3;

/// Seconds since the epoch of the first generated record.
pub const BASE_TS: i64 = 1_700_000_000;

/// The (rows, limit) grid of the list benchmarks: every table size at the core
/// limit, then every other limit at the core table size.
pub open spec fn list_grid_spec() -> Seq<(usize, usize)> {
    seq![(1_000usize, 50usize), (10_000usize, 50usize), (100_000usize, 50usize), (10_000usize, 1_000usize)]
}

pub fn list_grid() -> (out: Vec<(usize, usize)>)
    ensures
        out@ == list_grid_spec(),
{
    let mut out: Vec<(usize, usize)> = Vec::new();
    let mut i: usize = 0;
    while i < 3
        invariant
            i <= 3,
            out@ == Seq::new(i as nat, |j: int| (LIST_SIZES@[j], LIST_CORE_LIMIT)),
        decreases 3 - i,
    {
        out.push((LIST_SIZES[i], LIST_CORE_LIMIT));
        i = i + 1;
    }
    assert(out@ =~= list_grid_spec().take(3));
    let mut j: usize = 0;
    while j < 2
        invariant
            j <= 2,
            out@ == (if j == 2 { list_grid_spec() } else { list_grid_spec().take(3) }),
        decreases 2 - j,
    {
        let l = LIST_LIMITS[j];
        if l != LIST_CORE_LIMIT {
            out.push((LIST_CORE_ROWS, l));
        }
        j = j + 1;
        assert(out@ =~= (if j == 2 { list_grid_spec() } else { list_grid_spec().take(3) }));
    }
    out
}

/// The SQL text of the comparison engines' list query.
pub open spec fn list_sql_spec(where_order: Seq<char>, limit: nat, offset: nat) -> Seq<char> {
    "SELECT id, title, views, published, author, created_at FROM post"@ + where_order + " LIMIT "@
        + decimal(limit) + " OFFSET "@ + decimal(offset)
}

/// The shapes of the list benchmark: a name and the SQL clause it adds.
pub const LIST_SHAPES: [(&'static str, &'static str); 4] = [
    ("unfiltered", ""),
    ("filtered_unindexed", " WHERE published"),
    ("filtered_indexed", " WHERE views = 512"),
    ("sorted", " ORDER BY views DESC"),
];

pub fn list_sql(where_order: &str, limit: usize, offset: usize) -> (sql: String)
    ensures
        sql@ == list_sql_spec(where_order@, limit as nat, offset as nat),
{
    let mut sql = String::from_str("SELECT id, title, views, published, author, created_at FROM post");
    sql.append(where_order);
    sql.append(" LIMIT ");
    push_decimal(&mut sql, limit as u64);
    sql.append(" OFFSET ");
    push_decimal(&mut sql, offset as u64);
    sql
}

/// The splitmix64 increment.
pub const SPLITMIX_GAMMA: u64 = 0x9E37_79B9_7F4A_7C15;

/// The dataset generator's initial splitmix64 state.
pub const DATASET_SEED: u64 = 0x1234_5678_9ABC_DEF0;

/// The splitmix64 output function applied to an advanced state.
pub open spec fn splitmix_mix(z: u64) -> u64 {
    let z1 = u64_specs::wrapping_mul(z ^ (z >> 30u64), 0xBF58_476D_1CE4_E5B9u64);
    let z2 = u64_specs::wrapping_mul(z1 ^ (z1 >> 27u64), 0x94D0_49BB_1331_11EBu64);
    z2 ^ (z2 >> 31u64)
}

/// Advances a splitmix64 state and returns the next pseudo-random value.
fn splitmix64(state: &mut u64) -> (r: u64)
    ensures
        *final(state) == u64_specs::wrapping_add(*old(state), SPLITMIX_GAMMA),
        r == splitmix_mix(*final(state)),
{
    *state = state.wrapping_add(SPLITMIX_GAMMA);
    let mut z = *state;
    z = (z ^ (z >> 30)).wrapping_mul(0xBF58_476D_1CE4_E5B9);
    z = (z ^ (z >> 27)).wrapping_mul(0x94D0_49BB_1331_11EB);
    z ^ (z >> 31)
}

/// A generated user row.
#[derive(Clone)]
pub struct UserRow {
    pub id: [u8; 16],
    pub name: String,
    pub email: String,
    pub created_at: i64,
}

/// A generated post row.
#[derive(Clone)]
pub struct PostRow {
    pub id: [u8; 16],
    pub title: String,
    pub views: u64,
    pub published: bool,
    pub author: [u8; 16],
    pub created_at: i64,
}

/// A generated tag row.
#[derive(Clone)]
pub struct TagRow {
    pub id: [u8; 16],
    pub name: String,
}

/// A deterministic benchmark dataset: users, posts, tags and (post, tag) links
/// given by position.
pub struct Dataset {
    pub users: Vec<UserRow>,
    pub posts: Vec<PostRow>,
    pub tags: Vec<TagRow>,
    pub links: Vec<(usize, usize)>,
}

/// The 128-bit value of the generated id of the `index`-th record of `kind`.
pub open spec fn id_value(kind: u8, index: nat) -> int {
    kind as int * 0x1_0000_0000_0000_0000_0000_0000 + index
}

/// The id of the `index`-th generated record of `kind` (1 user, 2 post, 3 tag):
/// the UUID whose value is `kind` in the top 32 bits and `index` below.
pub fn id_for(kind: u8, index: usize) -> (id: [u8; 16])
    ensures
        id@ == be_bytes(id_value(kind, index as nat)),
{
    let ix: u64 = index as u64;
    let v: u128 = ((kind as u128) << 96u128) | (ix as u128);
    assert(((kind as u128) << 96u128) | (ix as u128) == (kind as u128) * 0x1_0000_0000_0000_0000_0000_0000u128 + (ix as u128)) by (bit_vector);
    uuid_bytes_from_u128(v)
}

/// The splitmix64 state after `k` advances from the dataset seed.
pub open spec fn splitmix_state(k: nat) -> u64 {
    ((DATASET_SEED + k * SPLITMIX_GAMMA) % 0x1_0000_0000_0000_0000) as u64
}

/// The view count of the `i`-th generated post.
pub open spec fn post_views(i: nat) -> u64 {
    (splitmix_mix(splitmix_state(i + 1)) % 100_000) as u64
}

/// The number of tags a dataset with `n_posts` posts has.
pub open spec fn n_tags_for(n_posts: nat) -> nat {
    if n_posts < 1 { 1 } else if n_posts < 500 { n_posts } else { 500 }
}

pub open spec fn user_name(i: nat) -> Seq<char> {
    "user"@ + decimal(i)
}

pub open spec fn user_email(i: nat) -> Seq<char> {
    "user"@ + decimal(i) + "@example.com"@
}

pub open spec fn post_title(i: nat) -> Seq<char> {
    "post title number "@ + decimal(i)
}

pub open spec fn tag_name(i: nat) -> Seq<char> {
    "tag"@ + decimal(i)
}

/// The `i`-th generated user.
pub open spec fn user_row_ok(r: UserRow, i: nat) -> bool {
    &&& r.id@ == be_bytes(id_value(1, i))
    &&& r.name@ == user_name(i)
    &&& r.email@ == user_email(i)
    &&& r.created_at == BASE_TS + i
}

/// The `i`-th generated post of a dataset with `n_users` users.
pub open spec fn post_row_ok(r: PostRow, i: nat, n_users: nat) -> bool {
    &&& r.id@ == be_bytes(id_value(2, i))
    &&& r.title@ == post_title(i)
    &&& r.views == post_views(i)
    &&& r.published == (i % 2 == 0)
    &&& r.author@ == be_bytes(id_value(1, i % (if n_users < 1 { 1 } else { n_users })))
    &&& r.created_at == BASE_TS + i
}

/// The `i`-th generated tag.
pub open spec fn tag_row_ok(r: TagRow, i: nat) -> bool {
    &&& r.id@ == be_bytes(id_value(3, i))
    &&& r.name@ == tag_name(i)
}

proof fn lemma_splitmix_step(k: nat)
    ensures
        u64_specs::wrapping_add(splitmix_state(k), SPLITMIX_GAMMA) == splitmix_state(k + 1),
{
    let m: int = 0x1_0000_0000_0000_0000;
    let x: int = DATASET_SEED + k * SPLITMIX_GAMMA;
    vstd::arithmetic::div_mod::lemma_add_mod_noop(x, SPLITMIX_GAMMA as int, m);
    assert(DATASET_SEED + (k + 1) * SPLITMIX_GAMMA == x + SPLITMIX_GAMMA) by (nonlinear_arith)
        requires x == DATASET_SEED + k * SPLITMIX_GAMMA;
    vstd::arithmetic::div_mod::lemma_small_mod(SPLITMIX_GAMMA as nat, m as nat);
    vstd::arithmetic::div_mod::lemma_mod_bound(x, m);
    let a = splitmix_state(k) as int;
    if a + SPLITMIX_GAMMA > u64::MAX {
        vstd::arithmetic::div_mod::lemma_mod_self_0(m);
        vstd::arithmetic::div_mod::lemma_sub_mod_noop(a + SPLITMIX_GAMMA, m, m);
        vstd::arithmetic::div_mod::lemma_small_mod((a + SPLITMIX_GAMMA - m) as nat, m as nat);
    } else {
        vstd::arithmetic::div_mod::lemma_small_mod((a + SPLITMIX_GAMMA) as nat, m as nat);
    }
}

fn user_row(i: usize) -> (r: UserRow)
    requires
        i <= i64::MAX - BASE_TS,
    ensures
        user_row_ok(r, i as nat),
{
    let mut name = String::from_str("user");
    push_decimal(&mut name, i as u64);
    let mut email = String::from_str("user");
    push_decimal(&mut email, i as u64);
    email.append("@example.com");
    UserRow { id: id_for(1, i), name, email, created_at: BASE_TS + i as i64 }
}

fn tag_row(i: usize) -> (r: TagRow)
    ensures
        tag_row_ok(r, i as nat),
{
    let mut name = String::from_str("tag");
    push_decimal(&mut name, i as u64);
    TagRow { id: id_for(3, i), name }
}

/// Generates the benchmark dataset: `n_users` users, `n_posts` posts with
/// pseudo-random view counts, `min(500, max(n_posts, 1))` tags and three tag
/// links per post.
pub fn dataset(n_users: usize, n_posts: usize) -> (d: Dataset)
    requires
        n_users <= i64::MAX - BASE_TS,
        n_posts <= i64::MAX - BASE_TS,
        n_posts * 7 + 2 * 101 <= usize::MAX,
    ensures
        d.users@.len() == n_users,
        forall|i: int| 0 <= i < n_users ==> user_row_ok(#[trigger] d.users@[i], i as nat),
        d.posts@.len() == n_posts,
        forall|i: int| 0 <= i < n_posts ==> post_row_ok(#[trigger] d.posts@[i], i as nat, n_users as nat),
        d.tags@.len() == n_tags_for(n_posts as nat),
        forall|i: int| 0 <= i < d.tags@.len() ==> tag_row_ok(#[trigger] d.tags@[i], i as nat),
        d.links@.len() == n_posts * TAGS_PER_POST,
        forall|p: int, k: int| 0 <= p < n_posts && 0 <= k < TAGS_PER_POST ==>
            #[trigger] d.links@[p * 3 + k] == (p as usize, ((p * 7 + k * 101) % n_tags_for(n_posts as nat) as int) as usize),
{
    let n_tags: usize = if n_posts < 1 { 1 } else if n_posts < N_TAGS { n_posts } else { N_TAGS };
    let mut rng: u64 = DATASET_SEED;
    let mut users: Vec<UserRow> = Vec::new();
    let mut i: usize = 0;
    while i < n_users
        invariant
            i <= n_users,
            n_users <= i64::MAX - BASE_TS,
            users@.len() == i,
            forall|j: int| 0 <= j < i ==> user_row_ok(#[trigger] users@[j], j as nat),
        decreases n_users - i,
    {
        let r = user_row(i);
        users.push(r);
        i = i + 1;
    }
    let author_mod: usize = if n_users < 1 { 1 } else { n_users };
    let mut posts: Vec<PostRow> = Vec::new();
    let mut i: usize = 0;
    assert(DATASET_SEED + 0 * SPLITMIX_GAMMA == DATASET_SEED);
    while i < n_posts
        invariant
            i <= n_posts,
            n_posts <= i64::MAX - BASE_TS,
            author_mod == (if n_users < 1 { 1 } else { n_users }),
            rng == splitmix_state(i as nat),
            posts@.len() == i,
            forall|j: int| 0 <= j < i ==> post_row_ok(#[trigger] posts@[j], j as nat, n_users as nat),
        decreases n_posts - i,
    {
        proof {
            lemma_splitmix_step(i as nat);
        }
        let v = splitmix64(&mut rng);
        let mut title = String::from_str("post title number ");
        push_decimal(&mut title, i as u64);
        let r = PostRow {
            id: id_for(2, i),
            title,
            views: v % 100_000,
            published: i % 2 == 0,
            author: id_for(1, i % author_mod),
            created_at: BASE_TS + i as i64,
        };
        posts.push(r);
        i = i + 1;
    }
    let mut tags: Vec<TagRow> = Vec::new();
    let mut i: usize = 0;
    while i < n_tags
        invariant
            i <= n_tags,
            tags@.len() == i,
            forall|j: int| 0 <= j < i ==> tag_row_ok(#[trigger] tags@[j], j as nat),
        decreases n_tags - i,
    {
        tags.push(tag_row(i));
        i = i + 1;
    }
    let mut links: Vec<(usize, usize)> = Vec::new();
    let mut p: usize = 0;
    while p < n_posts
        invariant
            p <= n_posts,
            n_posts * 7 + 2 * 101 <= usize::MAX,
            n_tags == n_tags_for(n_posts as nat),
            links@.len() == p * 3,
            forall|q: int, k: int| 0 <= q < p && 0 <= k < 3 ==>
                #[trigger] links@[q * 3 + k] == (q as usize, ((q * 7 + k * 101) % n_tags as int) as usize),
        decreases n_posts - p,
    {
        let mut k: usize = 0;
        let ghost before = links@;
        while k < TAGS_PER_POST
            invariant
                k <= 3,
                p < n_posts,
                n_posts * 7 + 2 * 101 <= usize::MAX,
                n_tags == n_tags_for(n_posts as nat),
                before.len() == p * 3,
                links@.len() == p * 3 + k,
                forall|j: int| 0 <= j < p * 3 ==> links@[j] == before[j],
                forall|kk: int| 0 <= kk < k ==>
                    #[trigger] links@[p * 3 + kk] == (p, ((p * 7 + kk * 101) % n_tags as int) as usize),
            decreases 3 - k,
        {
            let t = (p * 7 + k * 101) % n_tags;
            links.push((p, t));
            k = k + 1;
        }
        proof {
            assert forall|q: int, k: int| 0 <= q < p + 1 && 0 <= k < 3 implies
                #[trigger] links@[q * 3 + k] == (q as usize, ((q * 7 + k * 101) % n_tags as int) as usize) by {
                if q < p {
                    assert(q * 3 + k < p * 3) by (nonlinear_arith) requires q < p, 0 <= k < 3;
                    assert(before[q * 3 + k] == (q as usize, ((q * 7 + k * 101) % n_tags as int) as usize));
                } else {
                    assert(q == p);
                }
            }
            assert((p + 1) * 3 == p * 3 + 3) by (nonlinear_arith);
        }
        p = p + 1;
    }
    Dataset { users, posts, tags, links }
}

/// What `dataset(n_users, n_posts)` returns, as its contract states.
pub open spec fn dataset_ok(d: Dataset, n_users: nat, n_posts: nat) -> bool {
    &&& d.users@.len() == n_users
    &&& (forall|i: int| 0 <= i < n_users ==> user_row_ok(#[trigger] d.users@[i], i as nat))
    &&& d.posts@.len() == n_posts
    &&& (forall|i: int| 0 <= i < n_posts ==> post_row_ok(#[trigger] d.posts@[i], i as nat, n_users))
    &&& d.tags@.len() == n_tags_for(n_posts)
    &&& (forall|i: int| 0 <= i < d.tags@.len() ==> tag_row_ok(#[trigger] d.tags@[i], i as nat))
}

/// Distinct records get distinct generated ids.
proof fn lemma_generated_ids_distinct(k1: u8, i1: nat, k2: u8, i2: nat)
    requires
        1 <= k1 <= 3,
        1 <= k2 <= 3,
        i1 < 0x1_0000_0000_0000_0000,
        i2 < 0x1_0000_0000_0000_0000,
        k1 != k2 || i1 != i2,
    ensures
        be_bytes(id_value(k1, i1)) != be_bytes(id_value(k2, i2)),
{
    let a = id_value(k1, i1);
    let b = id_value(k2, i2);
    assert(0 <= a < 0x1_0000_0000_0000_0000_0000_0000_0000_0000);
    assert(0 <= b < 0x1_0000_0000_0000_0000_0000_0000_0000_0000);
    assert(a != b);
    if be_bytes(a) == be_bytes(b) {
        crate::ids::lemma_be_roundtrip(a as u128);
        crate::ids::lemma_be_roundtrip(b as u128);
        assert((a as u128) as int == a);
        assert((b as u128) as int == b);
    }
}

/// The dataset is deterministic and its ids are unique: a post's view count
/// depends on its position alone (one draw per post from the fixed seed),
/// whatever the sizes asked for; equal sizes give equal datasets, field by
/// field; and no two records of a dataset, users, posts and tags together,
/// share an id.
pub proof fn lemma_dataset_laws(d1: Dataset, nu1: nat, np1: nat, d2: Dataset, nu2: nat, np2: nat)
    requires
        dataset_ok(d1, nu1, np1),
        dataset_ok(d2, nu2, np2),
        np1 < 0x1_0000_0000_0000_0000,
        nu1 < 0x1_0000_0000_0000_0000,
    ensures
        forall|i: int| 0 <= i < np1 && i < np2 ==> #[trigger] d1.posts@[i].views == d2.posts@[i].views,
        nu1 == nu2 && np1 == np2 ==> {
            &&& forall|i: int| 0 <= i < nu1 ==> {
                let (a, b) = (#[trigger] d1.users@[i], d2.users@[i]);
                a.id@ == b.id@ && a.name@ == b.name@ && a.email@ == b.email@ && a.created_at == b.created_at
            }
            &&& forall|i: int| 0 <= i < np1 ==> {
                let (a, b) = (#[trigger] d1.posts@[i], d2.posts@[i]);
                &&& a.id@ == b.id@ && a.title@ == b.title@ && a.views == b.views
                &&& a.published == b.published && a.author@ == b.author@ && a.created_at == b.created_at
            }
            &&& d1.tags@.len() == d2.tags@.len()
            &&& forall|i: int| 0 <= i < d1.tags@.len() ==> {
                let (a, b) = (#[trigger] d1.tags@[i], d2.tags@[i]);
                a.id@ == b.id@ && a.name@ == b.name@
            }
        },
        forall|i: int, j: int| 0 <= i < nu1 && 0 <= j < nu1 && i != j ==> #[trigger] d1.users@[i].id@ != #[trigger] d1.users@[j].id@,
        forall|i: int, j: int| 0 <= i < np1 && 0 <= j < np1 && i != j ==> #[trigger] d1.posts@[i].id@ != #[trigger] d1.posts@[j].id@,
        forall|i: int, j: int| 0 <= i < d1.tags@.len() && 0 <= j < d1.tags@.len() && i != j ==>
            #[trigger] d1.tags@[i].id@ != #[trigger] d1.tags@[j].id@,
        forall|i: int, j: int| 0 <= i < nu1 && 0 <= j < np1 ==> #[trigger] d1.users@[i].id@ != #[trigger] d1.posts@[j].id@,
        forall|i: int, j: int| 0 <= i < nu1 && 0 <= j < d1.tags@.len() ==> #[trigger] d1.users@[i].id@ != #[trigger] d1.tags@[j].id@,
        forall|i: int, j: int| 0 <= i < np1 && 0 <= j < d1.tags@.len() ==> #[trigger] d1.posts@[i].id@ != #[trigger] d1.tags@[j].id@,
{
    assert(n_tags_for(np1) <= 500);
    assert forall|i: int, j: int| 0 <= i < nu1 && 0 <= j < nu1 && i != j implies #[trigger] d1.users@[i].id@ != #[trigger] d1.users@[j].id@ by {
        lemma_generated_ids_distinct(1, i as nat, 1, j as nat);
    }
    assert forall|i: int, j: int| 0 <= i < np1 && 0 <= j < np1 && i != j implies #[trigger] d1.posts@[i].id@ != #[trigger] d1.posts@[j].id@ by {
        lemma_generated_ids_distinct(2, i as nat, 2, j as nat);
    }
    assert forall|i: int, j: int| 0 <= i < d1.tags@.len() && 0 <= j < d1.tags@.len() && i != j implies
        #[trigger] d1.tags@[i].id@ != #[trigger] d1.tags@[j].id@ by {
        lemma_generated_ids_distinct(3, i as nat, 3, j as nat);
    }
    assert forall|i: int, j: int| 0 <= i < nu1 && 0 <= j < np1 implies #[trigger] d1.users@[i].id@ != #[trigger] d1.posts@[j].id@ by {
        lemma_generated_ids_distinct(1, i as nat, 2, j as nat);
    }
    assert forall|i: int, j: int| 0 <= i < nu1 && 0 <= j < d1.tags@.len() implies #[trigger] d1.users@[i].id@ != #[trigger] d1.tags@[j].id@ by {
        lemma_generated_ids_distinct(1, i as nat, 3, j as nat);
    }
    assert forall|i: int, j: int| 0 <= i < np1 && 0 <= j < d1.tags@.len() implies #[trigger] d1.posts@[i].id@ != #[trigger] d1.tags@[j].id@ by {
        lemma_generated_ids_distinct(2, i as nat, 3, j as nat);
    }
    assert forall|i: int| 0 <= i < np1 && i < np2 implies #[trigger] d1.posts@[i].views == d2.posts@[i].views by {
        assert(post_row_ok(d1.posts@[i], i as nat, nu1));
        assert(post_row_ok(d2.posts@[i], i as nat, nu2));
    }
}

} // verus!
