//! Ranks the records of a list by their closeness to a token.

use crate::bytes::{lemma_lex_total, lemma_lex_transitive, lex_less, lex_lt};
use crate::db::{icon_views, unique_names, Icon, IconView};
use crate::distance::{distance, edit_distance};
use vstd::prelude::*;
use vstd::utf8::encode_utf8_decode_utf8;

verus! {

/// The number of edits within which a name still resembles a token of
/// `len` bytes: a quarter of the length, rounded up.
pub open spec fn threshold(len: nat) -> nat {
    if len % 4 == 0 {
        len / 4
    } else {
        len / 4 + 1
    }
}

/// Whether a record may be suggested for a token: its name is within the
/// threshold of the token, and it is not obsolete where only current
/// records are wanted.
pub open spec fn qualifies(token: Seq<u8>, current_only: bool, record: IconView) -> bool {
    &&& edit_distance(record.key(), token) <= threshold(token.len())
    &&& current_only ==> !record.obsolete
}

/// Whether `x` is a better suggestion for the token than `y`: it is
/// closer, or as close and its name comes first in the byte-wise lexical
/// order.
pub open spec fn ranks_before(token: Seq<u8>, x: IconView, y: IconView) -> bool {
    let dx = edit_distance(x.key(), token);
    let dy = edit_distance(y.key(), token);
    dx < dy || (dx == dy && lex_lt(x.key(), y.key()))
}

/// Whether `picked` is the ranking of `records` for a token: the `limit`
/// best of the records that qualify, or all of them where they are fewer,
/// best first.
pub open spec fn is_ranking(
    records: Seq<IconView>,
    token: Seq<u8>,
    current_only: bool,
    limit: nat,
    picked: Seq<IconView>,
) -> bool {
    &&& picked.len() <= limit
    &&& forall|k: int|
        0 <= k < picked.len() ==> records.contains(#[trigger] picked[k]) && qualifies(
            token,
            current_only,
            picked[k],
        )
    &&& forall|k: int, m: int|
        0 <= k < m < picked.len() ==> ranks_before(token, #[trigger] picked[k], #[trigger] picked[m])
    &&& forall|j: int|
        0 <= j < records.len() && qualifies(token, current_only, #[trigger] records[j])
            ==> picked.contains(records[j]) || (picked.len() == limit && limit > 0 && ranks_before(
            token,
            picked.last(),
            records[j],
        ))
}

/// The ranking of `records` for a token.
pub open spec fn ranking(
    records: Seq<IconView>,
    token: Seq<u8>,
    current_only: bool,
    limit: nat,
) -> Seq<IconView> {
    choose|picked: Seq<IconView>| is_ranking(records, token, current_only, limit, picked)
}

/// Whether the first record of a ranking is strictly closer to the token
/// than every other: the ranking has one record, or its first is closer
/// than its second.
pub open spec fn has_clear_best(token: Seq<u8>, picked: Seq<IconView>) -> bool {
    picked.len() == 1 || (picked.len() >= 2 && edit_distance(picked[0].key(), token)
        < edit_distance(picked[1].key(), token))
}

/// Records with different names have different keys.
pub proof fn lemma_keys_differ(x: IconView, y: IconView)
    requires
        x.name != y.name,
    ensures
        x.key() != y.key(),
{
    encode_utf8_decode_utf8(x.name);
    encode_utf8_decode_utf8(y.name);
}

/// Of two records with different keys exactly one ranks before the other.
pub proof fn lemma_rank_total(token: Seq<u8>, x: IconView, y: IconView)
    requires
        x.key() != y.key(),
    ensures
        ranks_before(token, x, y) <==> !ranks_before(token, y, x),
{
    lemma_lex_total(x.key(), y.key());
}

/// No record ranks before itself.
pub proof fn lemma_rank_irreflexive(token: Seq<u8>, x: IconView)
    ensures
        !ranks_before(token, x, x),
{
    lemma_lex_total(x.key(), x.key());
}

/// Ranking before is transitive.
pub proof fn lemma_rank_transitive(token: Seq<u8>, x: IconView, y: IconView, z: IconView)
    requires
        ranks_before(token, x, y),
        ranks_before(token, y, z),
    ensures
        ranks_before(token, x, z),
{
    let dx = edit_distance(x.key(), token);
    let dy = edit_distance(y.key(), token);
    let dz = edit_distance(z.key(), token);
    if dx == dy && dy == dz {
        lemma_lex_transitive(x.key(), y.key(), z.key());
    }
}

proof fn lemma_rankings_agree_at(
    records: Seq<IconView>,
    token: Seq<u8>,
    current_only: bool,
    limit: nat,
    a: Seq<IconView>,
    b: Seq<IconView>,
    i: int,
)
    requires
        unique_names(records),
        is_ranking(records, token, current_only, limit, a),
        is_ranking(records, token, current_only, limit, b),
        0 <= i < a.len(),
        i < b.len(),
        forall|k: int| 0 <= k < i ==> a[k] == b[k],
    ensures
        !ranks_before(token, a[i], b[i]),
{
    let x = a[i];
    let y = b[i];
    if !ranks_before(token, x, y) {
        return ;
    }
    assert(records.contains(x));
    let j = choose|j: int| 0 <= j < records.len() && records[j] == x;
    assert(qualifies(token, current_only, records[j]));
    lemma_rank_irreflexive(token, x);
    if b.contains(x) {
        let m = choose|m: int| 0 <= m < b.len() && b[m] == x;
        if m < i {
            assert(a[m] == b[m]);
            assert(ranks_before(token, a[m], a[i]));
        } else if m > i {
            assert(ranks_before(token, b[i], b[m]));
            lemma_rank_transitive(token, x, y, x);
        }
    } else {
        let last = b.last();
        if i < b.len() - 1 {
            assert(ranks_before(token, b[i], b[b.len() - 1]));
            lemma_rank_transitive(token, y, last, x);
        }
        lemma_rank_transitive(token, x, y, x);
    }
}

/// A list has one ranking at most: two calls for the same records and the
/// same token give the same candidates in the same order.
pub proof fn lemma_ranking_unique(
    records: Seq<IconView>,
    token: Seq<u8>,
    current_only: bool,
    limit: nat,
    a: Seq<IconView>,
    b: Seq<IconView>,
)
    requires
        unique_names(records),
        is_ranking(records, token, current_only, limit, a),
        is_ranking(records, token, current_only, limit, b),
    ensures
        a == b,
{
    lemma_rankings_agree_up_to(records, token, current_only, limit, a, b, a.len() as int);
    lemma_rankings_agree_up_to(records, token, current_only, limit, b, a, b.len() as int);
    lemma_ranking_no_longer(records, token, current_only, limit, a, b);
    lemma_ranking_no_longer(records, token, current_only, limit, b, a);
    assert(a =~= b);
}

proof fn lemma_ranking_no_longer(
    records: Seq<IconView>,
    token: Seq<u8>,
    current_only: bool,
    limit: nat,
    a: Seq<IconView>,
    b: Seq<IconView>,
)
    requires
        is_ranking(records, token, current_only, limit, a),
        is_ranking(records, token, current_only, limit, b),
        forall|k: int| 0 <= k < a.len() && k < b.len() ==> a[k] == b[k],
    ensures
        a.len() >= b.len(),
{
    if a.len() >= b.len() {
        return ;
    }
    let z = b[a.len() as int];
    assert(records.contains(z));
    let j = choose|j: int| 0 <= j < records.len() && records[j] == z;
    assert(qualifies(token, current_only, records[j]));
    assert(a.contains(z));
    let m = choose|m: int| 0 <= m < a.len() && a[m] == z;
    assert(ranks_before(token, b[m], b[a.len() as int]));
    lemma_rank_irreflexive(token, z);
}

proof fn lemma_rankings_agree_up_to(
    records: Seq<IconView>,
    token: Seq<u8>,
    current_only: bool,
    limit: nat,
    a: Seq<IconView>,
    b: Seq<IconView>,
    n: int,
)
    requires
        unique_names(records),
        is_ranking(records, token, current_only, limit, a),
        is_ranking(records, token, current_only, limit, b),
        0 <= n <= a.len(),
    ensures
        forall|k: int| 0 <= k < n && k < b.len() ==> a[k] == b[k],
    decreases n,
{
    if n > 0 {
        lemma_rankings_agree_up_to(records, token, current_only, limit, a, b, n - 1);
        let i = n - 1;
        if i < b.len() && a[i] != b[i] {
            assert(records.contains(a[i]));
            assert(records.contains(b[i]));
            let ja = choose|j: int| 0 <= j < records.len() && records[j] == a[i];
            let jb = choose|j: int| 0 <= j < records.len() && records[j] == b[i];
            if ja < jb {
                assert(records[ja].name != records[jb].name);
            } else if jb < ja {
                assert(records[jb].name != records[ja].name);
            }
            lemma_keys_differ(a[i], b[i]);
            lemma_rank_total(token, a[i], b[i]);
            lemma_rankings_agree_at(records, token, current_only, limit, a, b, i);
            lemma_rankings_agree_at(records, token, current_only, limit, b, a, i);
        }
    }
}

/// The record that place `k` of a list of places stands for.
pub open spec fn pick(records: Seq<IconView>, places: Seq<usize>, k: int) -> IconView {
    records[places[k] as int]
}

/// The records that a list of places stands for.
pub open spec fn picks(records: Seq<IconView>, places: Seq<usize>) -> Seq<IconView> {
    Seq::new(places.len(), |k: int| pick(records, places, k))
}

/// Whether record `j` is among the places.
spec fn holds(places: Seq<usize>, j: int) -> bool {
    exists|k: int| 0 <= k < places.len() && #[trigger] places[k] == j
}

/// Whether record `j` is among the places, or ranks after the last of a
/// full list.
spec fn covered(
    records: Seq<IconView>,
    token: Seq<u8>,
    limit: nat,
    places: Seq<usize>,
    j: int,
) -> bool {
    holds(places, j) || (places.len() == limit && limit > 0 && ranks_before(
        token,
        pick(records, places, places.len() - 1),
        records[j],
    ))
}

/// Whether `places` ranks the first `n` records.
spec fn ranked(
    records: Seq<IconView>,
    token: Seq<u8>,
    current_only: bool,
    limit: nat,
    n: int,
    places: Seq<usize>,
) -> bool {
    &&& places.len() <= limit
    &&& forall|k: int|
        0 <= k < places.len() ==> (#[trigger] places[k]) < n && qualifies(
            token,
            current_only,
            pick(records, places, k),
        )
    &&& forall|k: int, m: int|
        0 <= k < m < places.len() ==> ranks_before(
            token,
            #[trigger] pick(records, places, k),
            #[trigger] pick(records, places, m),
        )
    &&& forall|j: int|
        0 <= j < n && qualifies(token, current_only, #[trigger] records[j]) ==> covered(
            records,
            token,
            limit,
            places,
            j,
        )
}

/// Whether `dists` holds the distance of each place's record to the token.
spec fn measured(records: Seq<IconView>, token: Seq<u8>, places: Seq<usize>, dists: Seq<usize>) -> bool {
    &&& dists.len() == places.len()
    &&& forall|k: int|
        0 <= k < places.len() ==> (#[trigger] dists[k]) == edit_distance(
            pick(records, places, k).key(),
            token,
        )
}

proof fn lemma_ranked_is_ranking(
    records: Seq<IconView>,
    token: Seq<u8>,
    current_only: bool,
    limit: nat,
    places: Seq<usize>,
)
    requires
        ranked(records, token, current_only, limit, records.len() as int, places),
    ensures
        is_ranking(records, token, current_only, limit, picks(records, places)),
{
    let picked = picks(records, places);
    assert forall|k: int| 0 <= k < picked.len() implies records.contains(#[trigger] picked[k])
        && qualifies(token, current_only, picked[k]) by {
        assert(places[k] < records.len());
        assert(picked[k] == pick(records, places, k));
    }
    assert forall|k: int, m: int| 0 <= k < m < picked.len() implies ranks_before(
        token,
        #[trigger] picked[k],
        #[trigger] picked[m],
    ) by {
        assert(picked[k] == pick(records, places, k));
        assert(picked[m] == pick(records, places, m));
    }
    assert forall|j: int|
        0 <= j < records.len() && qualifies(
            token,
            current_only,
            #[trigger] records[j],
        ) implies picked.contains(records[j]) || (picked.len() == limit && limit > 0
        && ranks_before(token, picked.last(), records[j])) by {
        assert(covered(records, token, limit, places, j));
        if holds(places, j) {
            let k = choose|k: int| 0 <= k < places.len() && #[trigger] places[k] == j;
            assert(picked[k] == pick(records, places, k));
        } else {
            assert(picked.last() == pick(records, places, places.len() - 1));
        }
    }
}

/// A record that does not qualify leaves the ranking as it is.
proof fn lemma_pass(
    records: Seq<IconView>,
    token: Seq<u8>,
    current_only: bool,
    limit: nat,
    n: int,
    places: Seq<usize>,
)
    requires
        0 <= n < records.len(),
        ranked(records, token, current_only, limit, n, places),
        !qualifies(token, current_only, records[n]) || covered(records, token, limit, places, n),
    ensures
        ranked(records, token, current_only, limit, n + 1, places),
{
    assert forall|k: int| 0 <= k < places.len() implies (#[trigger] places[k]) < n + 1 by {
        assert(places[k] < n);
    }
}

/// A record that qualifies goes in at the place where it ranks.
proof fn lemma_insert(
    records: Seq<IconView>,
    token: Seq<u8>,
    current_only: bool,
    limit: nat,
    n: usize,
    places: Seq<usize>,
    p: int,
)
    requires
        0 <= n < records.len(),
        ranked(records, token, current_only, limit, n as int, places),
        qualifies(token, current_only, records[n as int]),
        0 <= p <= places.len(),
        places.len() == limit ==> p < places.len(),
        forall|k: int|
            0 <= k < p ==> ranks_before(token, #[trigger] pick(records, places, k), records[n as int]),
        p < places.len() ==> ranks_before(token, records[n as int], pick(records, places, p)),
    ensures
        ranked(records, token, current_only, limit + 1, n + 1, places.insert(p, n)),
{
    let rec = records[n as int];
    let mid = places.insert(p, n);
    assert forall|k: int| 0 <= k < mid.len() implies pick(records, mid, k) == (if k < p {
        pick(records, places, k)
    } else if k == p {
        rec
    } else {
        pick(records, places, k - 1)
    }) by {}
    assert forall|k: int| p <= k < places.len() implies ranks_before(
        token,
        rec,
        #[trigger] pick(records, places, k),
    ) by {
        if k > p {
            assert(ranks_before(token, pick(records, places, p), pick(records, places, k)));
            lemma_rank_transitive(token, rec, pick(records, places, p), pick(records, places, k));
        }
    }
    assert forall|k: int, m: int| 0 <= k < m < mid.len() implies ranks_before(
        token,
        #[trigger] pick(records, mid, k),
        #[trigger] pick(records, mid, m),
    ) by {
        if k < p && m > p {
            assert(ranks_before(token, pick(records, places, k), pick(records, places, m - 1)));
        } else if k < p && m < p {
            assert(ranks_before(token, pick(records, places, k), pick(records, places, m)));
        } else if k > p {
            assert(ranks_before(token, pick(records, places, k - 1), pick(records, places, m - 1)));
        }
    }
    assert forall|k: int| 0 <= k < mid.len() implies (#[trigger] mid[k]) < n + 1 && qualifies(
        token,
        current_only,
        pick(records, mid, k),
    ) by {
        if k < p {
            assert(places[k] < n);
        } else if k > p {
            assert(places[k - 1] < n);
        }
    }
    assert forall|j: int|
        0 <= j < n + 1 && qualifies(token, current_only, #[trigger] records[j]) implies covered(
        records,
        token,
        limit + 1,
        mid,
        j,
    ) by {
        if j == n {
            assert(mid[p] == j);
        } else {
            assert(covered(records, token, limit, places, j));
            if holds(places, j) {
                let k = choose|k: int| 0 <= k < places.len() && #[trigger] places[k] == j;
                if k < p {
                    assert(mid[k] == j);
                } else {
                    assert(mid[k + 1] == j);
                }
            } else {
                assert(pick(records, mid, mid.len() - 1) == pick(records, places, places.len() - 1));
            }
        }
    }
}

/// A ranking that may hold one record more than the limit is cut back to
/// the limit by leaving out its last record.
proof fn lemma_cut(
    records: Seq<IconView>,
    token: Seq<u8>,
    current_only: bool,
    limit: nat,
    n: int,
    places: Seq<usize>,
)
    requires
        limit > 0,
        ranked(records, token, current_only, limit + 1, n, places),
    ensures
        places.len() <= limit ==> ranked(records, token, current_only, limit, n, places),
        places.len() == limit + 1 ==> ranked(
            records,
            token,
            current_only,
            limit,
            n,
            places.drop_last(),
        ),
{
    if places.len() == limit + 1 {
        let cut = places.drop_last();
        assert forall|k: int| 0 <= k < cut.len() implies pick(records, cut, k) == pick(
            records,
            places,
            k,
        ) by {}
        assert forall|k: int, m: int| 0 <= k < m < cut.len() implies ranks_before(
            token,
            #[trigger] pick(records, cut, k),
            #[trigger] pick(records, cut, m),
        ) by {
            assert(ranks_before(token, pick(records, places, k), pick(records, places, m)));
        }
        assert forall|k: int| 0 <= k < cut.len() implies (#[trigger] cut[k]) < n && qualifies(
            token,
            current_only,
            pick(records, cut, k),
        ) by {
            assert(places[k] < n);
            assert(pick(records, cut, k) == pick(records, places, k));
        }
        let last = pick(records, places, limit as int);
        let new_last = pick(records, cut, limit - 1);
        assert(new_last == pick(records, places, limit - 1));
        assert(ranks_before(token, pick(records, places, limit - 1), pick(records, places, limit as int)));
        assert forall|j: int|
            0 <= j < n && qualifies(token, current_only, #[trigger] records[j]) implies covered(
            records,
            token,
            limit,
            cut,
            j,
        ) by {
            assert(covered(records, token, limit + 1, places, j));
            if holds(places, j) {
                let k = choose|k: int| 0 <= k < places.len() && #[trigger] places[k] == j;
                if k < limit {
                    assert(cut[k] == j);
                } else {
                    assert(records[j] == last);
                }
            } else {
                lemma_rank_transitive(token, new_last, last, records[j]);
            }
        }
    } else {
        assert forall|j: int|
            0 <= j < n && qualifies(token, current_only, #[trigger] records[j]) implies covered(
            records,
            token,
            limit,
            places,
            j,
        ) by {
            assert(covered(records, token, limit + 1, places, j));
        }
    }
}

/// The threshold for a token of `len` bytes.
pub fn threshold_of(len: usize) -> (t: usize)
    ensures
        t == threshold(len as nat),
{
    if len % 4 == 0 {
        len / 4
    } else {
        len / 4 + 1
    }
}

/// Whether the record at place `n`, at distance `d`, ranks before the one
/// at place `other`, at distance `e`.
fn before(pool: &[Icon], token: &[u8], n: usize, d: usize, other: usize, e: usize) -> (yes: bool)
    requires
        n < pool.len(),
        other < pool.len(),
        d == edit_distance(pool[n as int]@.key(), token@),
        e == edit_distance(pool[other as int]@.key(), token@),
    ensures
        yes == ranks_before(token@, pool[n as int]@, pool[other as int]@),
{
    d < e || (d == e && lex_less(pool[n].key(), pool[other].key()))
}

/// The place among `places` where record `n`, at distance `d`, ranks: the
/// first whose record ranks after it, or the end.
fn place_for(pool: &[Icon], token: &[u8], n: usize, d: usize, places: &Vec<usize>, dists: &Vec<usize>) -> (p: usize)
    requires
        n < pool.len(),
        unique_names(icon_views(pool@)),
        d == edit_distance(pool[n as int]@.key(), token@),
        measured(icon_views(pool@), token@, places@, dists@),
        forall|k: int| 0 <= k < places@.len() ==> (#[trigger] places@[k]) < n,
    ensures
        p <= places@.len(),
        forall|k: int|
            0 <= k < p ==> ranks_before(
                token@,
                #[trigger] pick(icon_views(pool@), places@, k),
                pool[n as int]@,
            ),
        p < places@.len() ==> ranks_before(
            token@,
            pool[n as int]@,
            pick(icon_views(pool@), places@, p as int),
        ),
{
    let ghost records = icon_views(pool@);
    let mut p: usize = 0;
    while p < places.len()
        invariant
            p <= places.len(),
            n < pool.len(),
            records == icon_views(pool@),
            unique_names(records),
            d == edit_distance(pool[n as int]@.key(), token@),
            measured(records, token@, places@, dists@),
            forall|k: int| 0 <= k < places@.len() ==> (#[trigger] places@[k]) < n,
            forall|k: int|
                0 <= k < p ==> ranks_before(
                    token@,
                    #[trigger] pick(records, places@, k),
                    pool[n as int]@,
                ),
        decreases places.len() - p,
    {
        let other = places[p];
        proof {
            assert(places@[p as int] < n);
            assert(pick(records, places@, p as int) == pool[other as int]@);
            assert(dists@[p as int] == edit_distance(pick(records, places@, p as int).key(), token@));
        }
        if before(pool, token, n, d, other, dists[p]) {
            return p;
        }
        proof {
            assert(records[other as int].name != records[n as int].name);
            lemma_keys_differ(records[other as int], records[n as int]);
            lemma_rank_total(token@, records[other as int], records[n as int]);
        }
        p += 1;
    }
    p
}

/// Takes record `n` into the places where it qualifies and ranks among
/// the `limit` best.
fn consider(
    pool: &[Icon],
    token: &[u8],
    current_only: bool,
    limit: usize,
    n: usize,
    places: &mut Vec<usize>,
    dists: &mut Vec<usize>,
)
    requires
        n < pool.len(),
        limit > 0,
        unique_names(icon_views(pool@)),
        ranked(icon_views(pool@), token@, current_only, limit as nat, n as int, old(places)@),
        measured(icon_views(pool@), token@, old(places)@, old(dists)@),
    ensures
        ranked(icon_views(pool@), token@, current_only, limit as nat, n + 1, final(places)@),
        measured(icon_views(pool@), token@, final(places)@, final(dists)@),
{
    let ghost records = icon_views(pool@);
    let ghost old_places = places@;
    let ghost old_dists = dists@;
    assert(records[n as int] == pool[n as int]@);
    let d = distance(pool[n].key(), token);
    if d > threshold_of(token.len()) || (current_only && pool[n].obsolete) {
        proof {
            lemma_pass(records, token@, current_only, limit as nat, n as int, old_places);
        }
        return ;
    }
    let p = place_for(pool, token, n, d, places, dists);
    if p == limit {
        proof {
            assert(ranks_before(token@, pick(records, old_places, limit - 1), records[n as int]));
            lemma_pass(records, token@, current_only, limit as nat, n as int, old_places);
        }
        return ;
    }
    proof {
        lemma_insert(records, token@, current_only, limit as nat, n, old_places, p as int);
    }
    places.insert(p, n);
    dists.insert(p, d);
    let ghost mid = places@;
    proof {
        assert forall|k: int| 0 <= k < mid.len() implies (#[trigger] dists@[k]) == edit_distance(
            pick(records, mid, k).key(),
            token@,
        ) by {
            if k < p {
                assert(dists@[k] == old_dists[k]);
                assert(pick(records, mid, k) == pick(records, old_places, k));
            } else if k > p {
                assert(dists@[k] == old_dists[k - 1]);
                assert(pick(records, mid, k) == pick(records, old_places, k - 1));
            }
        }
        lemma_cut(records, token@, current_only, limit as nat, n + 1, mid);
    }
    if places.len() > limit {
        places.pop();
        dists.pop();
        proof {
            assert(places@ =~= mid.drop_last());
            assert forall|k: int| 0 <= k < places@.len() implies (#[trigger] dists@[k])
                == edit_distance(pick(records, places@, k).key(), token@) by {
                assert(pick(records, places@, k) == pick(records, mid, k));
            }
        }
    }
}

/// Ranks the records of `pool` for a token. Returns the places of the
/// `limit` best among those that qualify, best first, and the distance of
/// each to the token.
pub(crate) fn rank(pool: &[Icon], token: &[u8], current_only: bool, limit: usize) -> (res: (
    Vec<usize>,
    Vec<usize>,
))
    requires
        unique_names(icon_views(pool@)),
        limit > 0,
    ensures
        forall|k: int| 0 <= k < res.0@.len() ==> (#[trigger] res.0@[k]) < pool.len(),
        is_ranking(
            icon_views(pool@),
            token@,
            current_only,
            limit as nat,
            picks(icon_views(pool@), res.0@),
        ),
        ranking(icon_views(pool@), token@, current_only, limit as nat) == picks(
            icon_views(pool@),
            res.0@,
        ),
        res.1@.len() == res.0@.len(),
        forall|k: int|
            0 <= k < res.0@.len() ==> (#[trigger] res.1@[k]) == edit_distance(
                picks(icon_views(pool@), res.0@)[k].key(),
                token@,
            ),
{
    let ghost records = icon_views(pool@);
    let mut places: Vec<usize> = Vec::new();
    let mut dists: Vec<usize> = Vec::new();
    let mut n: usize = 0;
    while n < pool.len()
        invariant
            n <= pool.len(),
            limit > 0,
            records == icon_views(pool@),
            unique_names(records),
            ranked(records, token@, current_only, limit as nat, n as int, places@),
            measured(records, token@, places@, dists@),
        decreases pool.len() - n,
    {
        consider(pool, token, current_only, limit, n, &mut places, &mut dists);
        n += 1;
    }
    proof {
        lemma_ranked_is_ranking(records, token@, current_only, limit as nat, places@);
        let found = picks(records, places@);
        let chosen = ranking(records, token@, current_only, limit as nat);
        lemma_ranking_unique(records, token@, current_only, limit as nat, found, chosen);
        assert forall|k: int| 0 <= k < places@.len() implies (#[trigger] dists@[k])
            == edit_distance(found[k].key(), token@) by {
            assert(found[k] == pick(records, places@, k));
        }
    }
    (places, dists)
}

} // verus!
