use vstd::prelude::*;

verus! {

/// A memory layout policy for a generated type.
#[derive(Clone, Copy, Debug, PartialEq, Eq, Structural)]
pub enum Representation {
    C,
    Transparent,
    Packed,
    U8,
    U64,
    CPacked8,
    CPacked16,
    CAlign8,
    CAlign16,
}

/// Zero-copy mode of a generated account type.
#[derive(Clone, Copy, Debug, PartialEq, Eq, Structural)]
pub enum ZeroCopy {
    Unsafe,
    Safe,
}

/// Resolved layout options of one named type.
#[derive(Clone, Copy, Debug, PartialEq, Eq, Structural)]
pub struct StructOpts {
    pub representation: Option<Representation>,
    pub zero_copy: Option<ZeroCopy>,
    pub can_borsh: bool,
}

impl StructOpts {
    /// The options of a type that no bucket mentions.
    pub open spec fn baseline() -> StructOpts {
        StructOpts { representation: None, zero_copy: None, can_borsh: false }
    }
}

impl Default for StructOpts {
    fn default() -> (r: StructOpts)
        ensures
            r == StructOpts::baseline(),
    {
        StructOpts { representation: None, zero_copy: None, can_borsh: false }
    }
}

/// The configuration category a bucket of type names belongs to.
#[derive(Clone, Copy, Debug, PartialEq, Eq, Structural)]
pub enum Category {
    Repr(Representation),
    ZeroCopyMode(ZeroCopy),
    CompactEncoding,
}

/// A set of type names that asked for one category.
#[derive(Clone, Debug)]
pub struct Bucket {
    pub category: Category,
    pub names: Vec<String>,
}

/// Options assigned to one type name.
#[derive(Clone, Debug)]
pub struct NamedOpts {
    pub name: String,
    pub opts: StructOpts,
}

/// A type name listed in mutually exclusive buckets, with every bucket of
/// each family it conflicts in.
#[derive(Clone, Debug, PartialEq, Eq)]
pub struct NameConflict {
    pub name: String,
    /// The name is in buckets of two different layouts.
    pub layout: bool,
    /// The name is in both zero-copy buckets.
    pub zero_copy: bool,
    /// The categories of the buckets of the conflicting families that hold
    /// the name.
    pub buckets: Vec<Category>,
}

/// Every conflicting type name of a configuration, each once.
#[derive(Clone, Debug, PartialEq, Eq)]
pub struct ConfigConflict {
    pub conflicts: Vec<NameConflict>,
}

pub open spec fn in_bucket(b: Bucket, n: Seq<char>) -> bool {
    exists|k: int| 0 <= k < b.names@.len() && #[trigger] b.names@[k]@ == n
}

/// `n` is in a bucket of category `c` among the first `upto` buckets.
pub open spec fn member_upto(cfg: Seq<Bucket>, c: Category, n: Seq<char>, upto: int) -> bool {
    exists|j: int| 0 <= j < upto && #[trigger] cfg[j].category == c && in_bucket(cfg[j], n)
}

pub open spec fn member(cfg: Seq<Bucket>, c: Category, n: Seq<char>) -> bool {
    member_upto(cfg, c, n, cfg.len() as int)
}

pub open spec fn layout_conflict(cfg: Seq<Bucket>, n: Seq<char>) -> bool {
    exists|r1: Representation, r2: Representation|
        r1 != r2 && #[trigger] member(cfg, Category::Repr(r1), n) && #[trigger] member(
            cfg,
            Category::Repr(r2),
            n,
        )
}

pub open spec fn zero_copy_conflict(cfg: Seq<Bucket>, n: Seq<char>) -> bool {
    member(cfg, Category::ZeroCopyMode(ZeroCopy::Safe), n) && member(
        cfg,
        Category::ZeroCopyMode(ZeroCopy::Unsafe),
        n,
    )
}

pub open spec fn conflicting(cfg: Seq<Bucket>, n: Seq<char>) -> bool {
    layout_conflict(cfg, n) || zero_copy_conflict(cfg, n)
}

/// `c` is a bucket category of a conflicting family that holds `n`.
pub open spec fn conflict_bucket(cfg: Seq<Bucket>, n: Seq<char>, c: Category) -> bool {
    member(cfg, c, n) && ((c is Repr && layout_conflict(cfg, n)) || (c is ZeroCopyMode
        && zero_copy_conflict(cfg, n)))
}

/// `c` reports the conflicting name `c.name` exactly.
pub open spec fn conflict_ok(cfg: Seq<Bucket>, c: NameConflict) -> bool {
    &&& conflicting(cfg, c.name@)
    &&& c.layout == layout_conflict(cfg, c.name@)
    &&& c.zero_copy == zero_copy_conflict(cfg, c.name@)
    &&& forall|x: Category| #[trigger] c.buckets@.contains(x) <==> conflict_bucket(cfg, c.name@, x)
}

/// The options that the buckets give to `n`, when `n` is not conflicting.
pub open spec fn opts_of(cfg: Seq<Bucket>, n: Seq<char>) -> StructOpts {
    StructOpts {
        representation: if exists|r: Representation| member(cfg, Category::Repr(r), n) {
            Some(choose|r: Representation| member(cfg, Category::Repr(r), n))
        } else {
            None
        },
        zero_copy: if member(cfg, Category::ZeroCopyMode(ZeroCopy::Safe), n) {
            Some(ZeroCopy::Safe)
        } else if member(cfg, Category::ZeroCopyMode(ZeroCopy::Unsafe), n) {
            Some(ZeroCopy::Unsafe)
        } else {
            None
        },
        can_borsh: member(cfg, Category::CompactEncoding, n),
    }
}

/// Membership of `n` in one bucket.
pub fn bucket_contains(b: &Bucket, n: &String) -> (r: bool)
    ensures
        r == in_bucket(*b, n@),
{
    let mut k: usize = 0;
    while k < b.names.len()
        invariant
            0 <= k <= b.names@.len(),
            forall|i: int| 0 <= i < k ==> b.names@[i]@ != n@,
        decreases b.names@.len() - k,
    {
        if b.names[k] == *n {
            return true;
        }
        k = k + 1;
    }
    false
}

/// `n` names two different layouts among the first `upto` buckets.
pub open spec fn layout_conflict_upto(cfg: Seq<Bucket>, n: Seq<char>, upto: int) -> bool {
    exists|r1: Representation, r2: Representation|
        r1 != r2 && #[trigger] member_upto(cfg, Category::Repr(r1), n, upto)
            && #[trigger] member_upto(cfg, Category::Repr(r2), n, upto)
}

proof fn lemma_push_contains<A>(s: Seq<A>, x: A, c: A)
    ensures
        s.push(x).contains(c) <==> (s.contains(c) || c == x),
{
    if s.contains(c) {
        let k = choose|k: int| 0 <= k < s.len() && s[k] == c;
        assert(s.push(x)[k] == c);
    }
    if c == x {
        assert(s.push(x)[s.len() as int] == c);
    }
    if s.push(x).contains(c) {
        let k = choose|k: int| 0 <= k < s.len() + 1 && s.push(x)[k] == c;
        if k < s.len() {
            assert(s[k] == c);
        }
    }
}

proof fn lemma_concat_contains<A>(a: Seq<A>, b: Seq<A>, c: A)
    ensures
        (a + b).contains(c) <==> (a.contains(c) || b.contains(c)),
{
    if a.contains(c) {
        let k = choose|k: int| 0 <= k < a.len() && a[k] == c;
        assert((a + b)[k] == c);
    }
    if b.contains(c) {
        let k = choose|k: int| 0 <= k < b.len() && b[k] == c;
        assert((a + b)[a.len() + k] == c);
    }
    if (a + b).contains(c) {
        let k = choose|k: int| 0 <= k < a.len() + b.len() && (a + b)[k] == c;
        if k < a.len() {
            assert(a[k] == c);
        } else {
            assert(b[k - a.len()] == c);
        }
    }
}

proof fn lemma_member_step(cfg: Seq<Bucket>, n: Seq<char>, j: int, has: bool)
    requires
        0 <= j < cfg.len(),
        has == in_bucket(cfg[j], n),
    ensures
        forall|c: Category|
            #[trigger] member_upto(cfg, c, n, j + 1) == (member_upto(cfg, c, n, j) || (cfg[j].category
                == c && has)),
{
    assert forall|c: Category|
        #[trigger] member_upto(cfg, c, n, j + 1) == (member_upto(cfg, c, n, j) || (cfg[j].category
            == c && has)) by {
        if member_upto(cfg, c, n, j + 1) && !(cfg[j].category == c && has) {
            let w = choose|w: int|
                0 <= w < j + 1 && #[trigger] cfg[w].category == c && in_bucket(cfg[w], n);
            assert(w != j);
        }
        if member_upto(cfg, c, n, j) {
            let w = choose|w: int| 0 <= w < j && #[trigger] cfg[w].category == c && in_bucket(cfg[w], n);
            assert(cfg[w].category == c);
        }
        if cfg[j].category == c && has {
            assert(cfg[j].category == c);
        }
    }
}

/// The options the configuration gives to one name, or the conflict it is in.
#[verifier::rlimit(40)]
pub fn resolve_name(cfg: &Vec<Bucket>, n: &String) -> (r: Result<StructOpts, NameConflict>)
    ensures
        match r {
            Ok(o) => !conflicting(cfg@, n@) && o == opts_of(cfg@, n@),
            Err(c) => c.name@ == n@ && conflict_ok(cfg@, c),
        },
{
    let mut repr: Option<Representation> = None;
    let mut layout = false;
    let mut repr_hits: Vec<Category> = Vec::new();
    let mut zc_hits: Vec<Category> = Vec::new();
    let mut safe = false;
    let mut unsafe_mode = false;
    let mut borsh = false;
    let mut j: usize = 0;
    while j < cfg.len()
        invariant
            0 <= j <= cfg@.len(),
            layout ==> layout_conflict_upto(cfg@, n@, j as int),
            !layout ==> (repr is None ==> forall|r: Representation|
                !#[trigger] member_upto(cfg@, Category::Repr(r), n@, j as int)),
            !layout ==> (repr matches Some(r0) ==> member_upto(cfg@, Category::Repr(r0), n@, j as int)
                && forall|r: Representation|
                #[trigger] member_upto(cfg@, Category::Repr(r), n@, j as int) ==> r == r0),
            forall|c: Category|
                #[trigger] repr_hits@.contains(c) <==> (c is Repr && member_upto(cfg@, c, n@, j as int)),
            forall|c: Category|
                #[trigger] zc_hits@.contains(c) <==> (c is ZeroCopyMode && member_upto(
                    cfg@,
                    c,
                    n@,
                    j as int,
                )),
            safe == member_upto(cfg@, Category::ZeroCopyMode(ZeroCopy::Safe), n@, j as int),
            unsafe_mode == member_upto(
                cfg@,
                Category::ZeroCopyMode(ZeroCopy::Unsafe),
                n@,
                j as int,
            ),
            borsh == member_upto(cfg@, Category::CompactEncoding, n@, j as int),
        decreases cfg@.len() - j,
    {
        let b = &cfg[j];
        let has = bucket_contains(b, n);
        proof {
            lemma_member_step(cfg@, n@, j as int, has);
        }
        let ghost old_layout = layout;
        let ghost old_repr = repr;
        let ghost old_rh = repr_hits@;
        let ghost old_zh = zc_hits@;
        if has {
            match b.category {
                Category::Repr(r) => {
                    repr_hits.push(b.category);
                    match repr {
                        Some(r0) => {
                            if r0 != r {
                                layout = true;
                            }
                        },
                        None => {
                            repr = Some(r);
                        },
                    }
                },
                Category::ZeroCopyMode(m) => {
                    zc_hits.push(b.category);
                    match m {
                        ZeroCopy::Safe => {
                            safe = true;
                        },
                        ZeroCopy::Unsafe => {
                            unsafe_mode = true;
                        },
                    }
                },
                Category::CompactEncoding => {
                    borsh = true;
                },
            }
        }
        proof {
            assert forall|c: Category| #[trigger] repr_hits@.contains(c) <==> (c is Repr && member_upto(cfg@, c, n@, j + 1)) by {
                if has && cfg@[j as int].category is Repr {
                    assert(repr_hits@ == old_rh.push(cfg@[j as int].category));
                    lemma_push_contains(old_rh, cfg@[j as int].category, c);
                }
            }
            assert forall|c: Category| #[trigger] zc_hits@.contains(c) <==> (c is ZeroCopyMode && member_upto(cfg@, c, n@, j + 1)) by {
                if has && cfg@[j as int].category is ZeroCopyMode {
                    assert(zc_hits@ == old_zh.push(cfg@[j as int].category));
                    lemma_push_contains(old_zh, cfg@[j as int].category, c);
                }
            }
            if layout {
                if old_layout {
                    let (r1, r2) = choose|r1: Representation, r2: Representation|
                        r1 != r2 && #[trigger] member_upto(cfg@, Category::Repr(r1), n@, j as int)
                            && #[trigger] member_upto(cfg@, Category::Repr(r2), n@, j as int);
                    assert(member_upto(cfg@, Category::Repr(r1), n@, j + 1));
                    assert(member_upto(cfg@, Category::Repr(r2), n@, j + 1));
                } else {
                    let r0 = old_repr->Some_0;
                    let r = cfg@[j as int].category->Repr_0;
                    assert(member_upto(cfg@, Category::Repr(r0), n@, j + 1));
                    assert(member_upto(cfg@, Category::Repr(r), n@, j + 1));
                }
            }
        }
        j = j + 1;
    }
    proof {
        assert(layout == layout_conflict(cfg@, n@)) by {
            if !layout && layout_conflict(cfg@, n@) {
                let (r1, r2) = choose|r1: Representation, r2: Representation|
                    r1 != r2 && #[trigger] member(cfg@, Category::Repr(r1), n@) && #[trigger] member(
                        cfg@,
                        Category::Repr(r2),
                        n@,
                    );
                assert(member_upto(cfg@, Category::Repr(r1), n@, j as int));
                assert(member_upto(cfg@, Category::Repr(r2), n@, j as int));
            }
            if layout {
                let (r1, r2) = choose|r1: Representation, r2: Representation|
                    r1 != r2 && #[trigger] member_upto(cfg@, Category::Repr(r1), n@, j as int)
                        && #[trigger] member_upto(cfg@, Category::Repr(r2), n@, j as int);
                assert(member(cfg@, Category::Repr(r1), n@));
                assert(member(cfg@, Category::Repr(r2), n@));
            }
        }
    }
    let zero_copy_clash = safe && unsafe_mode;
    if layout || zero_copy_clash {
        let mut buckets: Vec<Category> = Vec::new();
        if layout {
            buckets = repr_hits;
        }
        let ghost first = buckets@;
        let ghost zh = zc_hits@;
        if zero_copy_clash {
            buckets.append(&mut zc_hits);
        }
        proof {
            assert forall|x: Category| #[trigger] buckets@.contains(x) <==> conflict_bucket(cfg@, n@, x) by {
                if zero_copy_clash {
                    assert(buckets@ == first + zh);
                    lemma_concat_contains(first, zh, x);
                }
                if !layout {
                    assert(first.len() == 0);
                    assert(!first.contains(x));
                }
            }
        }
        return Err(NameConflict { name: n.clone(), layout, zero_copy: zero_copy_clash, buckets });
    }
    proof {
        assert forall|r: Representation| #[trigger] member(cfg@, Category::Repr(r), n@) implies repr == Some(r) by {
        }
        if let Some(r0) = repr {
            assert(member(cfg@, Category::Repr(r0), n@));
        }
    }
    let zero_copy = if safe {
        Some(ZeroCopy::Safe)
    } else if unsafe_mode {
        Some(ZeroCopy::Unsafe)
    } else {
        None
    };
    Ok(StructOpts { representation: repr, zero_copy, can_borsh: borsh })
}

/// Every type name the buckets mention, bucket by bucket, in order.
pub open spec fn mentioned(cfg: Seq<Bucket>) -> Seq<Seq<char>>
    decreases cfg.len(),
{
    if cfg.len() == 0 {
        seq![]
    } else {
        mentioned(cfg.drop_last()) + cfg.last().names@.map_values(|s: String| s@)
    }
}

/// The mapping from type name to options that an assignment describes.
pub open spec fn opts_map(v: Seq<NamedOpts>) -> Map<Seq<char>, StructOpts> {
    Map::new(
        |n: Seq<char>| exists|i: int| 0 <= i < v.len() && #[trigger] v[i].name@ == n,
        |n: Seq<char>| v[choose|i: int| 0 <= i < v.len() && #[trigger] v[i].name@ == n].opts,
    )
}

/// The assignment the configuration asks for: every mentioned name with its options.
pub open spec fn assignment(cfg: Seq<Bucket>) -> Map<Seq<char>, StructOpts> {
    Map::new(|n: Seq<char>| mentioned(cfg).contains(n), |n: Seq<char>| opts_of(cfg, n))
}

pub proof fn lemma_mentioned_member(cfg: Seq<Bucket>, n: Seq<char>)
    ensures
        mentioned(cfg).contains(n) <==> exists|j: int|
            0 <= j < cfg.len() && #[trigger] in_bucket(cfg[j], n),
    decreases cfg.len(),
{
    if cfg.len() > 0 {
        let pre = cfg.drop_last();
        lemma_mentioned_member(pre, n);
        let tail = cfg.last().names@.map_values(|s: String| s@);
        assert(mentioned(cfg) == mentioned(pre) + tail);
        if mentioned(cfg).contains(n) {
            let k = choose|k: int| 0 <= k < mentioned(cfg).len() && mentioned(cfg)[k] == n;
            if k >= mentioned(pre).len() {
                let kk = k - mentioned(pre).len();
                assert(tail[kk] == n);
                assert(in_bucket(cfg[cfg.len() - 1], n));
            } else {
                assert(mentioned(pre)[k] == n);
                let j = choose|j: int| 0 <= j < pre.len() && #[trigger] in_bucket(pre[j], n);
                assert(pre[j] == cfg[j]);
            }
        }
        if exists|j: int| 0 <= j < cfg.len() && #[trigger] in_bucket(cfg[j], n) {
            let j = choose|j: int| 0 <= j < cfg.len() && #[trigger] in_bucket(cfg[j], n);
            if j == cfg.len() - 1 {
                let k = choose|k: int|
                    0 <= k < cfg[j].names@.len() && #[trigger] cfg[j].names@[k]@ == n;
                assert(tail[k] == n);
                assert((mentioned(pre) + tail)[mentioned(pre).len() + k] == n);
            } else {
                assert(pre[j] == cfg[j]);
                assert(in_bucket(pre[j], n));
                let k = choose|k: int| 0 <= k < mentioned(pre).len() && mentioned(pre)[k] == n;
                assert((mentioned(pre) + tail)[k] == n);
            }
        }
    }
}

/// Flattens the buckets' names into one list, in bucket order.
fn mentioned_names(cfg: &Vec<Bucket>) -> (r: Vec<String>)
    ensures
        r@.map_values(|s: String| s@) == mentioned(cfg@),
{
    let mut out: Vec<String> = Vec::new();
    let mut j: usize = 0;
    while j < cfg.len()
        invariant
            0 <= j <= cfg@.len(),
            out@.map_values(|s: String| s@) == mentioned(cfg@.take(j as int)),
        decreases cfg@.len() - j,
    {
        let names = &cfg[j].names;
        let ghost before = out@;
        let mut k: usize = 0;
        while k < names.len()
            invariant
                0 <= k <= names@.len(),
                names == cfg@[j as int].names,
                out@ == before + names@.take(k as int),
            decreases names@.len() - k,
        {
            out.push(names[k].clone());
            proof {
                assert(names@.take(k + 1) == names@.take(k as int).push(names@[k as int]));
            }
            k = k + 1;
        }
        proof {
            assert(names@.take(k as int) == names@);
            assert(cfg@.take(j + 1).drop_last() == cfg@.take(j as int));
            assert(out@.map_values(|s: String| s@) == before.map_values(|s: String| s@)
                + names@.map_values(|s: String| s@));
        }
        j = j + 1;
    }
    proof {
        assert(cfg@.take(j as int) == cfg@);
    }
    out
}

/// What resolving a configuration gives: where no mentioned name is
/// conflicting, exactly the options every mentioned name asks for, one entry
/// per name; else every conflicting name, once each, with its conflicts.
/// The report is fixed as a set: which names it holds and what it says of
/// each do not depend on the order of buckets or of names.
pub open spec fn assign_result(cfg: Seq<Bucket>, r: Result<Vec<NamedOpts>, ConfigConflict>) -> bool {
    match r {
        Ok(v) => (forall|n: Seq<char>| #[trigger] mentioned(cfg).contains(n) ==> !conflicting(cfg, n))
            && opts_map(v@) == assignment(cfg)
            && forall|i: int, k: int| #![trigger v@[i], v@[k]] 0 <= i < k < v@.len() ==> v@[i].name@ != v@[k].name@,
        Err(e) => conflicts_ok(cfg, e.conflicts@),
    }
}

/// `cs` reports every conflicting mentioned name exactly, each once.
pub open spec fn conflicts_ok(cfg: Seq<Bucket>, cs: Seq<NameConflict>) -> bool {
    &&& cs.len() > 0
    &&& forall|i: int| 0 <= i < cs.len() ==> conflict_ok(cfg, #[trigger] cs[i]) && mentioned(cfg).contains(cs[i].name@)
    &&& forall|i: int, k: int| #![trigger cs[i], cs[k]] 0 <= i < k < cs.len() ==> cs[i].name@ != cs[k].name@
    &&& forall|n: Seq<char>| #[trigger] mentioned(cfg).contains(n) && conflicting(cfg, n) ==> exists|i: int|
        0 <= i < cs.len() && #[trigger] cs[i].name@ == n
}

fn opts_has(v: &Vec<NamedOpts>, n: &String) -> (r: bool)
    ensures
        r == exists|a: int| 0 <= a < v@.len() && #[trigger] v@[a].name@ == n@,
{
    let mut a: usize = 0;
    while a < v.len()
        invariant
            0 <= a <= v@.len(),
            forall|x: int| 0 <= x < a ==> #[trigger] v@[x].name@ != n@,
        decreases v@.len() - a,
    {
        if v[a].name == *n {
            return true;
        }
        a = a + 1;
    }
    false
}

fn conflicts_has(v: &Vec<NameConflict>, n: &String) -> (r: bool)
    ensures
        r == exists|a: int| 0 <= a < v@.len() && #[trigger] v@[a].name@ == n@,
{
    let mut a: usize = 0;
    while a < v.len()
        invariant
            0 <= a <= v@.len(),
            forall|x: int| 0 <= x < a ==> #[trigger] v@[x].name@ != n@,
        decreases v@.len() - a,
    {
        if v[a].name == *n {
            return true;
        }
        a = a + 1;
    }
    false
}

/// Resolves the options of every type name the configuration mentions.
///
/// Where some mentioned name stands in two buckets of different layouts,
/// or in both zero-copy buckets, fails with every such name; otherwise
/// every mentioned name gets exactly the options its buckets ask for.
#[verifier::rlimit(80)]
pub fn assign_struct_opts(cfg: &Vec<Bucket>) -> (r: Result<Vec<NamedOpts>, ConfigConflict>)
    ensures
        assign_result(cfg@, r),
{
    let names = mentioned_names(cfg);
    let ghost all = mentioned(cfg@);
    let mut out: Vec<NamedOpts> = Vec::new();
    let mut bad: Vec<NameConflict> = Vec::new();
    let mut i: usize = 0;
    while i < names.len()
        invariant
            0 <= i <= names@.len(),
            names@.map_values(|s: String| s@) == all,
            all == mentioned(cfg@),
            forall|a: int, b: int| #![trigger out@[a], out@[b]] 0 <= a < b < out@.len() ==> out@[a].name@ != out@[b].name@,
            forall|a: int, b: int| #![trigger bad@[a], bad@[b]] 0 <= a < b < bad@.len() ==> bad@[a].name@ != bad@[b].name@,
            forall|a: int, b: int| #![trigger out@[a], bad@[b]] 0 <= a < out@.len() && 0 <= b < bad@.len() ==> out@[a].name@ != bad@[b].name@,
            forall|a: int| #![trigger out@[a]] 0 <= a < out@.len() ==> all.contains(out@[a].name@)
                && out@[a].opts == opts_of(cfg@, out@[a].name@) && !conflicting(cfg@, out@[a].name@),
            forall|b: int| #![trigger bad@[b]] 0 <= b < bad@.len() ==> all.contains(bad@[b].name@)
                && conflict_ok(cfg@, bad@[b]),
            forall|k: int| #![trigger all[k]] 0 <= k < i ==> (exists|a: int| 0 <= a < out@.len() && #[trigger] out@[a].name@ == all[k])
                || (exists|b: int| 0 <= b < bad@.len() && #[trigger] bad@[b].name@ == all[k]),
        decreases names@.len() - i,
    {
        let n = &names[i];
        assert(all[i as int] == n@);
        let seen = opts_has(&out, n) || conflicts_has(&bad, n);
        if !seen {
            assert(all.contains(n@));
            match resolve_name(cfg, n) {
                Ok(o) => {
                    let ghost prev = out@;
                    out.push(NamedOpts { name: n.clone(), opts: o });
                    proof {
                        let last = out@.len() - 1;
                        assert(out@[last].name@ == n@);
                        assert forall|k: int| #![trigger all[k]] 0 <= k < i + 1 implies (exists|a: int| 0 <= a < out@.len() && #[trigger] out@[a].name@ == all[k])
                            || (exists|b: int| 0 <= b < bad@.len() && #[trigger] bad@[b].name@ == all[k]) by {
                            if k == i {
                                assert(out@[last].name@ == all[k]);
                            } else if exists|a: int| 0 <= a < prev.len() && #[trigger] prev[a].name@ == all[k] {
                                let a0 = choose|a: int| 0 <= a < prev.len() && #[trigger] prev[a].name@ == all[k];
                                assert(out@[a0] == prev[a0]);
                            }
                        }
                        assert forall|a: int| #![trigger out@[a]] 0 <= a < out@.len() implies all.contains(out@[a].name@)
                            && out@[a].opts == opts_of(cfg@, out@[a].name@) && !conflicting(cfg@, out@[a].name@) by {
                            if a < last {
                                assert(out@[a] == prev[a]);
                            }
                        }
                        assert forall|a: int, b: int| #![trigger out@[a], out@[b]] 0 <= a < b < out@.len() implies out@[a].name@ != out@[b].name@ by {
                            if b == last {
                                assert(out@[a] == prev[a]);
                            } else {
                                assert(out@[a] == prev[a]);
                                assert(out@[b] == prev[b]);
                            }
                        }
                        assert forall|a: int, b: int| #![trigger out@[a], bad@[b]] 0 <= a < out@.len() && 0 <= b < bad@.len() implies out@[a].name@ != bad@[b].name@ by {
                            if a < last {
                                assert(out@[a] == prev[a]);
                            }
                        }
                    }
                },
                Err(c) => {
                    let ghost prev = bad@;
                    bad.push(c);
                    proof {
                        let last = bad@.len() - 1;
                        assert(bad@[last].name@ == n@);
                        assert forall|k: int| #![trigger all[k]] 0 <= k < i + 1 implies (exists|a: int| 0 <= a < out@.len() && #[trigger] out@[a].name@ == all[k])
                            || (exists|b: int| 0 <= b < bad@.len() && #[trigger] bad@[b].name@ == all[k]) by {
                            if k == i {
                                assert(bad@[last].name@ == all[k]);
                            } else if exists|b: int| 0 <= b < prev.len() && #[trigger] prev[b].name@ == all[k] {
                                let b0 = choose|b: int| 0 <= b < prev.len() && #[trigger] prev[b].name@ == all[k];
                                assert(bad@[b0] == prev[b0]);
                            }
                        }
                        assert forall|b: int| #![trigger bad@[b]] 0 <= b < bad@.len() implies all.contains(bad@[b].name@)
                            && conflict_ok(cfg@, bad@[b]) by {
                            if b < last {
                                assert(bad@[b] == prev[b]);
                            }
                        }
                        assert forall|a: int, b: int| #![trigger bad@[a], bad@[b]] 0 <= a < b < bad@.len() implies bad@[a].name@ != bad@[b].name@ by {
                            if b == last {
                                assert(bad@[a] == prev[a]);
                            } else {
                                assert(bad@[a] == prev[a]);
                                assert(bad@[b] == prev[b]);
                            }
                        }
                        assert forall|a: int, b: int| #![trigger out@[a], bad@[b]] 0 <= a < out@.len() && 0 <= b < bad@.len() implies out@[a].name@ != bad@[b].name@ by {
                            if b < last {
                                assert(bad@[b] == prev[b]);
                            }
                        }
                    }
                },
            }
        }
        i = i + 1;
    }
    if bad.len() > 0 {
        proof {
            assert forall|n: Seq<char>| #[trigger] mentioned(cfg@).contains(n) && conflicting(cfg@, n) implies exists|b: int|
                0 <= b < bad@.len() && #[trigger] bad@[b].name@ == n by {
                let k = choose|k: int| 0 <= k < all.len() && all[k] == n;
                if exists|a: int| 0 <= a < out@.len() && #[trigger] out@[a].name@ == all[k] {
                    let a = choose|a: int| 0 <= a < out@.len() && #[trigger] out@[a].name@ == all[k];
                    assert(!conflicting(cfg@, out@[a].name@));
                }
            }
        }
        return Err(ConfigConflict { conflicts: bad });
    }
    proof {
        assert forall|n: Seq<char>| #[trigger] mentioned(cfg@).contains(n) implies !conflicting(cfg@, n) by {
            let k = choose|k: int| 0 <= k < all.len() && all[k] == n;
            let a = choose|a: int| 0 <= a < out@.len() && #[trigger] out@[a].name@ == all[k];
            assert(!conflicting(cfg@, out@[a].name@));
        }
        let m = opts_map(out@);
        let want = assignment(cfg@);
        assert forall|n: Seq<char>| m.dom().contains(n) <==> want.dom().contains(n) by {
            if m.dom().contains(n) {
                let a = choose|a: int| 0 <= a < out@.len() && #[trigger] out@[a].name@ == n;
                assert(all.contains(out@[a].name@));
            }
            if want.dom().contains(n) {
                let k = choose|k: int| 0 <= k < all.len() && all[k] == n;
                let a = choose|a: int| 0 <= a < out@.len() && #[trigger] out@[a].name@ == all[k];
                assert(out@[a].name@ == n);
            }
        }
        assert forall|n: Seq<char>| #[trigger] m.dom().contains(n) implies m[n] == want[n] by {
            let a = choose|a: int| 0 <= a < out@.len() && #[trigger] out@[a].name@ == n;
            assert(out@[a].opts == opts_of(cfg@, n));
        }
        assert(m =~= want);
    }
    Ok(out)
}

} // verus!
