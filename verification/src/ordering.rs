//! Sort keys, ordering requirements, and what it means for an ordering to
//! meet a requirement.
//!
//! An expression is identified by the index of the column it reads. Columns
//! are treated as nullable, so the placement of nulls always counts.

use vstd::prelude::*;

verus! {

/// Direction of a sort and placement of nulls.
#[derive(Clone, Copy, Debug, PartialEq, Eq, Structural)]
pub struct SortOptions {
    pub descending: bool,
    pub nulls_first: bool,
}

/// One key of a lexicographic ordering: a column and how it is sorted.
#[derive(Clone, Copy, Debug, PartialEq, Eq, Structural)]
pub struct SortKey {
    pub expr: usize,
    pub options: SortOptions,
}

/// One key of an ordering requirement. Without options, any direction of
/// the column is acceptable.
#[derive(Clone, Copy, Debug, PartialEq, Eq)]
pub struct SortRequirement {
    pub expr: usize,
    pub options: Option<SortOptions>,
}

/// The options used when a requirement leaves them open: ascending, nulls
/// last.
pub open spec fn default_options() -> SortOptions {
    SortOptions { descending: false, nulls_first: false }
}

/// The requirement that asks for exactly this key.
pub open spec fn exact_requirement(k: SortKey) -> SortRequirement {
    SortRequirement { expr: k.expr, options: Some(k.options) }
}

/// The key that a sort uses to establish this requirement.
pub open spec fn enforcing_key(r: SortRequirement) -> SortKey {
    SortKey {
        expr: r.expr,
        options: match r.options {
            Some(o) => o,
            None => default_options(),
        },
    }
}

/// The requirement that asks for exactly this ordering.
pub open spec fn exact_requirements(keys: Seq<SortKey>) -> Seq<SortRequirement> {
    Seq::new(keys.len(), |i: int| exact_requirement(keys[i]))
}

/// The ordering that a sort uses to establish this requirement.
pub open spec fn enforcing_keys(reqs: Seq<SortRequirement>) -> Seq<SortKey> {
    Seq::new(reqs.len(), |i: int| enforcing_key(reqs[i]))
}

/// The ordering with both the direction and the null placement of every
/// key flipped.
pub open spec fn reversed_keys(keys: Seq<SortKey>) -> Seq<SortKey> {
    Seq::new(
        keys.len(),
        |i: int|
            SortKey {
                expr: keys[i].expr,
                options: SortOptions {
                    descending: !keys[i].options.descending,
                    nulls_first: !keys[i].options.nulls_first,
                },
            },
    )
}

/// Whether a key sorts the column that the requirement names, in a way the
/// requirement accepts.
pub open spec fn key_meets(k: SortKey, r: SortRequirement) -> bool {
    k.expr == r.expr && match r.options {
        Some(o) => o == k.options,
        None => true,
    }
}

/// Whether column `e` occurs among the keys.
pub open spec fn keys_mention(s: Seq<SortKey>, e: usize) -> bool {
    exists|i: int| 0 <= i < s.len() && s[i].expr == e
}

/// Whether column `e` occurs among the requirements.
pub open spec fn requirements_mention(s: Seq<SortRequirement>, e: usize) -> bool {
    exists|i: int| 0 <= i < s.len() && s[i].expr == e
}

/// The keys with every repeated column dropped; the first occurrence stays.
pub open spec fn distinct_keys(s: Seq<SortKey>) -> Seq<SortKey>
    decreases s.len(),
{
    if s.len() == 0 {
        Seq::empty()
    } else {
        let front = distinct_keys(s.drop_last());
        if keys_mention(front, s.last().expr) {
            front
        } else {
            front.push(s.last())
        }
    }
}

/// The requirements with every repeated column dropped; the first
/// occurrence stays.
pub open spec fn distinct_requirements(s: Seq<SortRequirement>) -> Seq<SortRequirement>
    decreases s.len(),
{
    if s.len() == 0 {
        Seq::empty()
    } else {
        let front = distinct_requirements(s.drop_last());
        if requirements_mention(front, s.last().expr) {
            front
        } else {
            front.push(s.last())
        }
    }
}

/// Whether data sorted by `ordering` meets the requirement `reqs`: after
/// repeated columns are dropped from both, the requirement is no longer
/// than the ordering and each of its keys is met by the key at the same
/// position.
pub open spec fn requirement_met(ordering: Seq<SortKey>, reqs: Seq<SortRequirement>) -> bool {
    let o = distinct_keys(ordering);
    let r = distinct_requirements(reqs);
    r.len() <= o.len() && forall|i: int| 0 <= i < r.len() ==> key_meets(#[trigger] o[i], r[i])
}

/// Model of an optional ordering.
pub open spec fn ordering_view(o: Option<Vec<SortKey>>) -> Option<Seq<SortKey>> {
    match o {
        Some(keys) => Some(keys@),
        None => None,
    }
}

/// Model of an optional requirement.
pub open spec fn requirements_view(o: Option<Vec<SortRequirement>>) -> Option<Seq<SortRequirement>> {
    match o {
        Some(reqs) => Some(reqs@),
        None => None,
    }
}

/// Dropping repeated columns and choosing enforcing keys can be done in
/// either order.
pub proof fn lemma_distinct_enforcing_keys(reqs: Seq<SortRequirement>)
    ensures
        distinct_keys(enforcing_keys(reqs)) == enforcing_keys(distinct_requirements(reqs)),
    decreases reqs.len(),
{
    if reqs.len() > 0 {
        let front = reqs.drop_last();
        lemma_distinct_enforcing_keys(front);
        assert(enforcing_keys(reqs).drop_last() =~= enforcing_keys(front));
        let fk = distinct_keys(enforcing_keys(front));
        let fr = distinct_requirements(front);
        let e = reqs.last().expr;
        assert(enforcing_keys(reqs).last().expr == e);
        if keys_mention(fk, e) {
            let i = choose|i: int| 0 <= i < fk.len() && fk[i].expr == e;
            assert(fr[i].expr == e);
        }
        if requirements_mention(fr, e) {
            let i = choose|i: int| 0 <= i < fr.len() && fr[i].expr == e;
            assert(fk[i].expr == e);
        }
        assert(distinct_keys(enforcing_keys(reqs)) =~= enforcing_keys(distinct_requirements(reqs)));
    } else {
        assert(distinct_keys(enforcing_keys(reqs)) =~= enforcing_keys(distinct_requirements(reqs)));
    }
}

/// Dropping repeated columns and asking for exactly the keys can be done
/// in either order.
pub proof fn lemma_distinct_exact_requirements(keys: Seq<SortKey>)
    ensures
        distinct_requirements(exact_requirements(keys)) == exact_requirements(distinct_keys(keys)),
    decreases keys.len(),
{
    if keys.len() > 0 {
        let front = keys.drop_last();
        lemma_distinct_exact_requirements(front);
        assert(exact_requirements(keys).drop_last() =~= exact_requirements(front));
        let fr = distinct_requirements(exact_requirements(front));
        let fk = distinct_keys(front);
        let e = keys.last().expr;
        assert(exact_requirements(keys).last().expr == e);
        if keys_mention(fk, e) {
            let i = choose|i: int| 0 <= i < fk.len() && fk[i].expr == e;
            assert(fr[i].expr == e);
        }
        if requirements_mention(fr, e) {
            let i = choose|i: int| 0 <= i < fr.len() && fr[i].expr == e;
            assert(fk[i].expr == e);
        }
        assert(distinct_requirements(exact_requirements(keys)) =~= exact_requirements(
            distinct_keys(keys),
        ));
    } else {
        assert(distinct_requirements(exact_requirements(keys)) =~= exact_requirements(
            distinct_keys(keys),
        ));
    }
}

/// The ordering that a sort uses to establish a requirement meets the
/// requirement.
pub proof fn lemma_enforcing_keys_meet(reqs: Seq<SortRequirement>)
    ensures
        requirement_met(enforcing_keys(reqs), reqs),
{
    lemma_distinct_enforcing_keys(reqs);
}

/// Every ordering meets the requirement that asks for exactly it.
pub proof fn lemma_ordering_meets_itself(keys: Seq<SortKey>)
    ensures
        requirement_met(keys, exact_requirements(keys)),
{
    lemma_distinct_exact_requirements(keys);
}

/// A requirement that is met without any ordering is met by every
/// ordering.
pub proof fn lemma_requirement_met_unordered(reqs: Seq<SortRequirement>, ordering: Seq<SortKey>)
    requires
        requirement_met(Seq::empty(), reqs),
    ensures
        requirement_met(ordering, reqs),
{
    assert(distinct_keys(Seq::<SortKey>::empty()).len() == 0);
}

impl SortKey {
    /// The key with direction and null placement flipped.
    pub fn reversed(&self) -> (r: SortKey)
        ensures
            r.expr == self.expr,
            r.options.descending == !self.options.descending,
            r.options.nulls_first == !self.options.nulls_first,
    {
        SortKey {
            expr: self.expr,
            options: SortOptions {
                descending: !self.options.descending,
                nulls_first: !self.options.nulls_first,
            },
        }
    }
}

impl SortRequirement {
    /// The requirement that asks for exactly the given ordering.
    pub fn from_sort_exprs(ordering: &Vec<SortKey>) -> (r: Vec<SortRequirement>)
        ensures
            r@ == exact_requirements(ordering@),
    {
        let mut out: Vec<SortRequirement> = Vec::new();
        let mut i: usize = 0;
        while i < ordering.len()
            invariant
                i <= ordering.len(),
                out@ == exact_requirements(ordering@.take(i as int)),
            decreases ordering.len() - i,
        {
            let k = ordering[i];
            out.push(SortRequirement { expr: k.expr, options: Some(k.options) });
            i += 1;
            assert(out@ =~= exact_requirements(ordering@.take(i as int)));
        }
        assert(ordering@.take(i as int) =~= ordering@);
        out
    }

    /// The ordering that a sort uses to establish the given requirement;
    /// keys without options sort ascending with nulls last.
    pub fn to_sort_exprs(requirements: &Vec<SortRequirement>) -> (r: Vec<SortKey>)
        ensures
            r@ == enforcing_keys(requirements@),
    {
        let mut out: Vec<SortKey> = Vec::new();
        let mut i: usize = 0;
        while i < requirements.len()
            invariant
                i <= requirements.len(),
                out@ == enforcing_keys(requirements@.take(i as int)),
            decreases requirements.len() - i,
        {
            let q = requirements[i];
            let options = match q.options {
                Some(o) => o,
                None => SortOptions { descending: false, nulls_first: false },
            };
            out.push(SortKey { expr: q.expr, options });
            i += 1;
            assert(out@ =~= enforcing_keys(requirements@.take(i as int)));
        }
        assert(requirements@.take(i as int) =~= requirements@);
        out
    }
}

/// The ordering with every key flipped.
pub fn reverse_order_bys(keys: &Vec<SortKey>) -> (r: Vec<SortKey>)
    ensures
        r@ == reversed_keys(keys@),
{
    let mut out: Vec<SortKey> = Vec::new();
    let mut i: usize = 0;
    while i < keys.len()
        invariant
            i <= keys.len(),
            out@ == reversed_keys(keys@.take(i as int)),
        decreases keys.len() - i,
    {
        out.push(keys[i].reversed());
        i += 1;
        assert(out@ =~= reversed_keys(keys@.take(i as int)));
    }
    assert(keys@.take(i as int) =~= keys@);
    out
}

/// A copy of an ordering.
pub fn copy_keys(keys: &Vec<SortKey>) -> (r: Vec<SortKey>)
    ensures
        r@ == keys@,
{
    let mut out: Vec<SortKey> = Vec::new();
    let mut i: usize = 0;
    while i < keys.len()
        invariant
            i <= keys.len(),
            out@ == keys@.take(i as int),
        decreases keys.len() - i,
    {
        out.push(keys[i]);
        i += 1;
        assert(out@ =~= keys@.take(i as int));
    }
    assert(keys@.take(i as int) =~= keys@);
    out
}

} // verus!
