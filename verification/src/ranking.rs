//! Ranking support: the identifiers given to clusters in rank order and the
//! cap on how many clusters are reported.
use vstd::prelude::*;
use crate::text::{chars_of, decimal, digit_char, push_char, push_decimal};

verus! {

/// The identifier of the cluster in position `ordinal` (counting from one).
pub open spec fn cluster_id_text(ordinal: nat) -> Seq<char> {
    seq!['C'] + decimal(ordinal)
}

/// The identifier `C{ordinal}`.
pub fn cluster_id(ordinal: usize) -> (r: String)
    ensures
        r@ == cluster_id_text(ordinal as nat),
{
    let mut out = String::new();
    push_char(&mut out, 'C');
    push_decimal(&mut out, ordinal as u64);
    assert(out@ =~= cluster_id_text(ordinal as nat));
    out
}

proof fn lemma_decimal_shape(n: nat)
    ensures
        decimal(n).len() >= 1,
        n >= 10 ==> decimal(n).len() >= 2,
        decimal(n).last() == digit_char((n % 10) as int),
    decreases n,
{
    if n >= 10 {
        lemma_decimal_shape(n / 10);
    }
}

/// Different numbers are written differently.
pub proof fn lemma_decimal_injective(a: nat, b: nat)
    requires
        decimal(a) == decimal(b),
    ensures
        a == b,
    decreases a,
{
    lemma_decimal_shape(a);
    lemma_decimal_shape(b);
    assert(digit_char((a % 10) as int) == digit_char((b % 10) as int));
    assert(a % 10 == b % 10);
    if a >= 10 && b >= 10 {
        assert(decimal(a / 10) =~= decimal(a).drop_last());
        assert(decimal(b / 10) =~= decimal(b).drop_last());
        lemma_decimal_injective(a / 10, b / 10);
    } else if a >= 10 || b >= 10 {
        assert(decimal(a).len() != decimal(b).len());
    }
}

/// Clusters in different positions get different identifiers.
pub proof fn lemma_cluster_ids_distinct(a: nat, b: nat)
    requires
        a != b,
    ensures
        cluster_id_text(a) != cluster_id_text(b),
{
    if cluster_id_text(a) == cluster_id_text(b) {
        assert(decimal(a) =~= cluster_id_text(a).drop_first());
        assert(decimal(b) =~= cluster_id_text(b).drop_first());
        lemma_decimal_injective(a, b);
    }
}

/// Keeps at most `limit` items (all of them without a limit).
pub fn truncate_to_limit<T>(items: &mut Vec<T>, limit: Option<usize>)
    ensures
        match limit {
            Some(max) => final(items)@ == if max < old(items)@.len() { old(items)@.take(max as int) } else { old(items)@ },
            None => final(items)@ == old(items)@,
        },
{
    if let Some(max) = limit {
        items.truncate(max);
    }
}

// ─── Rank order ──────────────────────────────────────────────────────────

/// Text order of `str`: by character codes from the start, a proper prefix
/// first. (UTF-8 keeps code point order, so this is also the byte order.)
pub open spec fn text_before(a: Seq<char>, b: Seq<char>) -> bool
    decreases a.len(),
{
    if a.len() == 0 {
        b.len() > 0
    } else if b.len() == 0 {
        false
    } else if a[0] != b[0] {
        a[0] < b[0]
    } else {
        text_before(a.drop_first(), b.drop_first())
    }
}

/// What ranks a cluster: the order key of its refactoring value and its
/// identifier.
#[derive(Debug, Clone)]
pub struct RankKey {
    /// Orders as the refactoring value does.
    pub value_key: u64,
    pub id: String,
}

/// `a` ranks ahead of `b`: a higher value, or the same value and an
/// identifier that comes first.
pub open spec fn ranks_ahead(a: (u64, Seq<char>), b: (u64, Seq<char>)) -> bool {
    a.0 > b.0 || (a.0 == b.0 && text_before(a.1, b.1))
}

pub open spec fn key_view(k: RankKey) -> (u64, Seq<char>) {
    (k.value_key, k.id@)
}

proof fn lemma_text_before_irreflexive(a: Seq<char>)
    ensures
        !text_before(a, a),
    decreases a.len(),
{
    if a.len() > 0 {
        lemma_text_before_irreflexive(a.drop_first());
    }
}

proof fn lemma_text_before_asymmetric(a: Seq<char>, b: Seq<char>)
    ensures
        text_before(a, b) ==> !text_before(b, a),
    decreases a.len(),
{
    if a.len() > 0 && b.len() > 0 && a[0] == b[0] {
        lemma_text_before_asymmetric(a.drop_first(), b.drop_first());
    }
}

proof fn lemma_text_before_transitive(a: Seq<char>, b: Seq<char>, c: Seq<char>)
    ensures
        text_before(a, b) && text_before(b, c) ==> text_before(a, c),
    decreases a.len(),
{
    if a.len() > 0 && b.len() > 0 && c.len() > 0 {
        lemma_text_before_transitive(a.drop_first(), b.drop_first(), c.drop_first());
    }
}

proof fn lemma_text_before_total(a: Seq<char>, b: Seq<char>)
    ensures
        a != b ==> text_before(a, b) || text_before(b, a),
    decreases a.len(),
{
    if a.len() > 0 && b.len() > 0 {
        lemma_text_before_total(a.drop_first(), b.drop_first());
        if a[0] == b[0] && a.drop_first() == b.drop_first() {
            assert(a =~= seq![a[0]] + a.drop_first());
            assert(b =~= seq![b[0]] + b.drop_first());
        }
    } else if a.len() == 0 && b.len() == 0 {
        assert(a =~= b);
    }
}

/// Whether `a` comes before `b` in the order of `str`.
fn text_before_exec(a: &str, b: &str) -> (r: bool)
    ensures
        r == text_before(a@, b@),
{
    let x = chars_of(a);
    let y = chars_of(b);
    let mut i: usize = 0;
    assert(a@.skip(0) =~= a@ && b@.skip(0) =~= b@);
    while i < x.len() && i < y.len() && x[i] == y[i]
        invariant
            x@ == a@,
            y@ == b@,
            i <= x@.len(),
            i <= y@.len(),
            text_before(a@, b@) == text_before(a@.skip(i as int), b@.skip(i as int)),
        decreases x@.len() - i,
    {
        proof {
            let sa = a@.skip(i as int);
            let sb = b@.skip(i as int);
            assert(sa.drop_first() =~= a@.skip(i + 1));
            assert(sb.drop_first() =~= b@.skip(i + 1));
        }
        i += 1;
    }
    proof {
        let sa = a@.skip(i as int);
        let sb = b@.skip(i as int);
        if i < x@.len() && i < y@.len() {
            assert(sa[0] == x@[i as int] && sb[0] == y@[i as int]);
        }
    }
    if i == x.len() {
        i < y.len()
    } else if i == y.len() {
        false
    } else {
        x[i] < y[i]
    }
}

fn ranks_ahead_exec(a: &RankKey, b: &RankKey) -> (r: bool)
    ensures
        r == ranks_ahead(key_view(*a), key_view(*b)),
{
    a.value_key > b.value_key || (a.value_key == b.value_key && text_before_exec(a.id.as_str(), b.id.as_str()))
}

/// The positions of `keys` in rank order: highest value first, equal values
/// by identifier, and clusters with equal keys in their original order (a
/// stable sort).
pub fn rank_order(keys: &Vec<RankKey>) -> (order: Vec<usize>)
    ensures
        order@.len() == keys@.len(),
        order@.no_duplicates(),
        forall|i: int| 0 <= i < order@.len() ==> (#[trigger] order@[i]) < keys@.len(),
        // ranked: nothing ranks ahead of what precedes it
        forall|i: int, j: int| 0 <= i < j < order@.len() ==> !ranks_ahead(
            key_view(keys@[#[trigger] order@[j] as int]),
            key_view(keys@[#[trigger] order@[i] as int]),
        ),
        // stable: equal keys keep their order
        forall|i: int, j: int|
            0 <= i < j < order@.len() && key_view(keys@[#[trigger] order@[i] as int]) == key_view(keys@[#[trigger] order@[j] as int])
                ==> order@[i] < order@[j],
{
    let mut order: Vec<usize> = Vec::new();
    for n in 0..keys.len()
        invariant
            order@.len() == n,
            order@.no_duplicates(),
            forall|i: int| 0 <= i < order@.len() ==> (#[trigger] order@[i]) < n,
            forall|i: int, j: int| 0 <= i < j < order@.len() ==> !ranks_ahead(
                key_view(keys@[#[trigger] order@[j] as int]),
                key_view(keys@[#[trigger] order@[i] as int]),
            ),
            forall|i: int, j: int|
                0 <= i < j < order@.len() && key_view(keys@[#[trigger] order@[i] as int]) == key_view(keys@[#[trigger] order@[j] as int])
                    ==> order@[i] < order@[j],
    {
        let ghost kn = key_view(keys@[n as int]);
        let mut p: usize = 0;
        while p < order.len() && !ranks_ahead_exec(&keys[n], &keys[order[p]])
            invariant
                p <= order@.len(),
                forall|i: int| 0 <= i < order@.len() ==> (#[trigger] order@[i]) < n,
                n < keys@.len(),
                kn == key_view(keys@[n as int]),
                forall|a: int| 0 <= a < p ==> !ranks_ahead(kn, key_view(keys@[#[trigger] order@[a] as int])),
            decreases order@.len() - p,
        {
            p += 1;
        }
        let ghost old_order = order@;
        proof {
            if p < old_order.len() {
                assert(ranks_ahead(kn, key_view(keys@[old_order[p as int] as int])));
                assert forall|b: int| p <= b < old_order.len() implies ranks_ahead(kn, key_view(keys@[#[trigger] old_order[b] as int])) by {
                    if b > p {
                        lemma_ranks_ahead_chain(kn, key_view(keys@[old_order[p as int] as int]), key_view(keys@[old_order[b] as int]));
                    }
                }
            }
            assert forall|a: int| 0 <= a < p implies !ranks_ahead(kn, key_view(keys@[#[trigger] old_order[a] as int])) by {}
        }
        order.insert(p, n);
        proof {
            old_order.insert_ensures(p as int, n);
            lemma_insert_ranked(keys@, old_order, order@, p as int, n);
        }
    }
    order
}

/// `a` ahead of `b` and `c` not ahead of `b` put `a` ahead of `c`.
proof fn lemma_ranks_ahead_chain(a: (u64, Seq<char>), b: (u64, Seq<char>), c: (u64, Seq<char>))
    requires
        ranks_ahead(a, b),
        !ranks_ahead(c, b),
    ensures
        ranks_ahead(a, c),
{
    lemma_text_before_total(b.1, c.1);
    lemma_text_before_transitive(a.1, b.1, c.1);
    if b.1 == c.1 {
    }
}

proof fn lemma_insert_ranked(keys: Seq<RankKey>, old_order: Seq<usize>, order: Seq<usize>, p: int, n: usize)
    requires
        0 <= p <= old_order.len(),
        n < keys.len(),
        order == old_order.insert(p, n),
        order.len() == old_order.len() + 1,
        order[p] == n,
        forall|i: int| 0 <= i < p ==> order[i] == old_order[i],
        forall|i: int| p < i < order.len() ==> order[i] == old_order[i - 1],
        old_order.no_duplicates(),
        forall|i: int| 0 <= i < old_order.len() ==> (#[trigger] old_order[i]) < n,
        forall|i: int, j: int| 0 <= i < j < old_order.len() ==> !ranks_ahead(
            key_view(keys[#[trigger] old_order[j] as int]),
            key_view(keys[#[trigger] old_order[i] as int]),
        ),
        forall|i: int, j: int|
            0 <= i < j < old_order.len() && key_view(keys[#[trigger] old_order[i] as int]) == key_view(keys[#[trigger] old_order[j] as int])
                ==> old_order[i] < old_order[j],
        forall|a: int| 0 <= a < p ==> !ranks_ahead(key_view(keys[n as int]), key_view(keys[#[trigger] old_order[a] as int])),
        forall|b: int| p <= b < old_order.len() ==> ranks_ahead(key_view(keys[n as int]), key_view(keys[#[trigger] old_order[b] as int])),
    ensures
        order.no_duplicates(),
        forall|i: int| 0 <= i < order.len() ==> (#[trigger] order[i]) < n + 1,
        forall|i: int, j: int| 0 <= i < j < order.len() ==> !ranks_ahead(
            key_view(keys[#[trigger] order[j] as int]),
            key_view(keys[#[trigger] order[i] as int]),
        ),
        forall|i: int, j: int|
            0 <= i < j < order.len() && key_view(keys[#[trigger] order[i] as int]) == key_view(keys[#[trigger] order[j] as int])
                ==> order[i] < order[j],
{
    let kn = key_view(keys[n as int]);
    assert forall|i: int| 0 <= i < order.len() implies (#[trigger] order[i]) < n + 1 by {
        if i < p {
            assert(old_order[i] < n);
        } else if i > p {
            assert(old_order[i - 1] < n);
        }
    }
    assert forall|i: int, j: int| 0 <= i < order.len() && 0 <= j < order.len() && i != j implies order[i] != order[j] by {
        if i != p && j != p {
            let oi = if i < p { i } else { i - 1 };
            let oj = if j < p { j } else { j - 1 };
            assert(order[i] == old_order[oi]);
            assert(order[j] == old_order[oj]);
        } else if i == p {
            let oj = if j < p { j } else { j - 1 };
            assert(old_order[oj] < n);
        } else {
            let oi = if i < p { i } else { i - 1 };
            assert(old_order[oi] < n);
        }
    }
    assert forall|i: int, j: int| 0 <= i < j < order.len() implies !ranks_ahead(
        key_view(keys[#[trigger] order[j] as int]),
        key_view(keys[#[trigger] order[i] as int]),
    ) by {
        if j < p {
            assert(!ranks_ahead(key_view(keys[old_order[j] as int]), key_view(keys[old_order[i] as int])));
        } else if j == p {
            assert(!ranks_ahead(kn, key_view(keys[old_order[i] as int])));
        } else if i < p {
            assert(!ranks_ahead(key_view(keys[old_order[j - 1] as int]), key_view(keys[old_order[i] as int])));
        } else if i == p {
            let kj = key_view(keys[old_order[j - 1] as int]);
            assert(ranks_ahead(kn, kj));
            lemma_text_before_asymmetric(kn.1, kj.1);
        } else {
            assert(!ranks_ahead(key_view(keys[old_order[j - 1] as int]), key_view(keys[old_order[i - 1] as int])));
        }
    }
    assert forall|i: int, j: int|
        0 <= i < j < order.len() && key_view(keys[#[trigger] order[i] as int]) == key_view(keys[#[trigger] order[j] as int])
            implies order[i] < order[j] by {
        if j < p {
            assert(order[i] == old_order[i] && order[j] == old_order[j]);
        } else if j == p {
            assert(old_order[i] < n);
        } else if i < p {
            assert(order[i] == old_order[i] && order[j] == old_order[j - 1]);
        } else if i == p {
            let kj = key_view(keys[old_order[j - 1] as int]);
            assert(ranks_ahead(kn, kj));
            lemma_text_before_irreflexive(kn.1);
        } else {
            assert(order[i] == old_order[i - 1] && order[j] == old_order[j - 1]);
        }
    }
}

} // verus!
