//! Resolves a token against the database: an exact name, an obsolete name
//! with or without a replacement, or the names that resemble it.

use crate::bytes::bytes_eq;
use crate::db::{icon_views, unique_names, Icon, IconDatabase, IconView};
use crate::ranking::{
    has_clear_best, is_ranking, lemma_keys_differ, lemma_ranking_unique, pick, picks, rank, ranking,
};
use vstd::prelude::*;

verus! {

/// The most candidates that a fuzzy match suggests.
pub const MAX_CANDIDATES: usize = 5;

/// What a token resolves to.
#[derive(Debug, PartialEq, Eq)]
pub enum MatchResult<'a> {
    /// The token is the name of this current icon.
    Exact(&'a Icon),
    /// The token is the name of the first, obsolete icon; the second is
    /// the current icon to use in its place.
    ObsoleteRedirect(&'a Icon, &'a Icon),
    /// The token is the name of this obsolete icon, and no one current
    /// icon can be named in its place.
    ObsoleteNoReplacement(&'a Icon),
    /// The token is no name, but resembles these, closest first.
    Fuzzy(Vec<&'a Icon>),
    /// The token is no name and resembles none.
    NoMatch,
}

/// The mathematical value of a [`MatchResult`].
pub enum MatchView {
    Exact(IconView),
    ObsoleteRedirect(IconView, IconView),
    ObsoleteNoReplacement(IconView),
    Fuzzy(Seq<IconView>),
    NoMatch,
}

/// The views of a list of borrowed icons.
pub open spec fn borrowed_views(icons: Seq<&Icon>) -> Seq<IconView> {
    icons.map_values(|icon: &Icon| icon@)
}

impl<'a> View for MatchResult<'a> {
    type V = MatchView;

    open spec fn view(&self) -> MatchView {
        match self {
            MatchResult::Exact(icon) => MatchView::Exact(icon@),
            MatchResult::ObsoleteRedirect(old, new) => MatchView::ObsoleteRedirect(old@, new@),
            MatchResult::ObsoleteNoReplacement(old) => MatchView::ObsoleteNoReplacement(old@),
            MatchResult::Fuzzy(icons) => MatchView::Fuzzy(borrowed_views(icons@)),
            MatchResult::NoMatch => MatchView::NoMatch,
        }
    }
}

/// Whether some record's name, in UTF-8, is the token.
pub open spec fn has_key(records: Seq<IconView>, token: Seq<u8>) -> bool {
    exists|i: int| 0 <= i < records.len() && (#[trigger] records[i]).key() == token
}

/// The place of the record whose name is the token, where there is one.
pub open spec fn key_place(records: Seq<IconView>, token: Seq<u8>) -> int {
    choose|i: int| 0 <= i < records.len() && (#[trigger] records[i]).key() == token
}

/// Whether record `i` is current and has the codepoint `codepoint`.
pub open spec fn is_current_at(records: Seq<IconView>, codepoint: u32, i: int) -> bool {
    0 <= i < records.len() && !records[i].obsolete && records[i].codepoint == codepoint
}

/// Whether record `i` is the first current record with the codepoint.
pub open spec fn is_first_current_at(records: Seq<IconView>, codepoint: u32, i: int) -> bool {
    &&& is_current_at(records, codepoint, i)
    &&& forall|j: int| 0 <= j < i ==> !is_current_at(records, codepoint, j)
}

/// The current icon to use in place of the obsolete icon `old`: the first
/// current record with the codepoint of `old`; where there is none, the
/// one current record whose name is closest to that of `old`, within the
/// threshold. `None` where no record or more than one is closest.
pub open spec fn replacement(records: Seq<IconView>, old: IconView) -> Option<IconView> {
    if exists|i: int| is_current_at(records, old.codepoint, i) {
        Some(records[choose|i: int| is_first_current_at(records, old.codepoint, i)])
    } else {
        let near = ranking(records, old.key(), true, 2);
        if has_clear_best(old.key(), near) {
            Some(near[0])
        } else {
            None
        }
    }
}

/// What a token resolves to in a list of records.
pub open spec fn resolution(records: Seq<IconView>, token: Seq<u8>) -> MatchView {
    if has_key(records, token) {
        let found = records[key_place(records, token)];
        if !found.obsolete {
            MatchView::Exact(found)
        } else {
            match replacement(records, found) {
                Some(new) => MatchView::ObsoleteRedirect(found, new),
                None => MatchView::ObsoleteNoReplacement(found),
            }
        }
    } else {
        let near = ranking(records, token, false, MAX_CANDIDATES as nat);
        if near.len() > 0 {
            MatchView::Fuzzy(near)
        } else {
            MatchView::NoMatch
        }
    }
}

/// Where names are apart, the record with a given key has one place.
pub proof fn lemma_key_place(records: Seq<IconView>, i: int)
    requires
        unique_names(records),
        0 <= i < records.len(),
    ensures
        has_key(records, records[i].key()),
        key_place(records, records[i].key()) == i,
{
    let p = key_place(records, records[i].key());
    if p < i {
        lemma_keys_differ(records[p], records[i]);
    } else if i < p {
        lemma_keys_differ(records[i], records[p]);
    }
}

/// The name of a current record resolves to that record, exactly.
pub proof fn lemma_current_name_is_exact(records: Seq<IconView>, i: int)
    requires
        unique_names(records),
        0 <= i < records.len(),
        !records[i].obsolete,
    ensures
        resolution(records, records[i].key()) == MatchView::Exact(records[i]),
{
    lemma_key_place(records, i);
}

/// The name of an obsolete record never resolves exactly: it resolves to
/// a redirect from that record, or to that record without a replacement.
pub proof fn lemma_obsolete_name_is_never_exact(records: Seq<IconView>, i: int)
    requires
        unique_names(records),
        0 <= i < records.len(),
        records[i].obsolete,
    ensures
        match resolution(records, records[i].key()) {
            MatchView::ObsoleteRedirect(old, new) => old == records[i],
            MatchView::ObsoleteNoReplacement(old) => old == records[i],
            _ => false,
        },
{
    lemma_key_place(records, i);
}

/// A token that is no name resolves to the one ranking of the records:
/// whatever list is a ranking of at most `MAX_CANDIDATES` records for the
/// token is the list of candidates, in that order, and the token has no
/// match where that list is empty.
pub proof fn lemma_unknown_token_resolves_to_ranking(
    records: Seq<IconView>,
    token: Seq<u8>,
    picked: Seq<IconView>,
)
    requires
        unique_names(records),
        !has_key(records, token),
        is_ranking(records, token, false, MAX_CANDIDATES as nat, picked),
    ensures
        picked.len() > 0 ==> resolution(records, token) == MatchView::Fuzzy(picked),
        picked.len() == 0 ==> resolution(records, token) == MatchView::NoMatch,
{
    let near = ranking(records, token, false, MAX_CANDIDATES as nat);
    lemma_ranking_unique(records, token, false, MAX_CANDIDATES as nat, picked, near);
}

/// The place of the record whose name is the token, if there is one.
fn find_key(pool: &[Icon], token: &[u8]) -> (place: Option<usize>)
    requires
        unique_names(icon_views(pool@)),
    ensures
        match place {
            Some(i) => i < pool.len() && has_key(icon_views(pool@), token@) && key_place(
                icon_views(pool@),
                token@,
            ) == i,
            None => !has_key(icon_views(pool@), token@),
        },
{
    let ghost records = icon_views(pool@);
    let mut i: usize = 0;
    while i < pool.len()
        invariant
            i <= pool.len(),
            records == icon_views(pool@),
            unique_names(records),
            forall|k: int| 0 <= k < i ==> (#[trigger] records[k]).key() != token@,
        decreases pool.len() - i,
    {
        assert(records[i as int] == pool[i as int]@);
        if bytes_eq(pool[i].key(), token) {
            proof {
                lemma_key_place(records, i as int);
            }
            return Some(i);
        }
        i += 1;
    }
    None
}

/// The place of the current record to use instead of the obsolete record
/// at place `old`, if there is one.
fn find_replacement(pool: &[Icon], old: usize) -> (place: Option<usize>)
    requires
        old < pool.len(),
        unique_names(icon_views(pool@)),
    ensures
        match place {
            Some(i) => i < pool.len() && replacement(
                icon_views(pool@),
                pool[old as int]@,
            ) == Some(pool[i as int]@),
            None => replacement(icon_views(pool@), pool[old as int]@) is None,
        },
{
    let ghost records = icon_views(pool@);
    let codepoint = pool[old].codepoint;
    let mut i: usize = 0;
    while i < pool.len()
        invariant
            i <= pool.len(),
            old < pool.len(),
            records == icon_views(pool@),
            codepoint == pool[old as int]@.codepoint,
            forall|k: int| 0 <= k < i ==> !is_current_at(records, codepoint, k),
        decreases pool.len() - i,
    {
        assert(records[i as int] == pool[i as int]@);
        if !pool[i].obsolete && pool[i].codepoint == codepoint {
            proof {
                assert(is_current_at(records, codepoint, i as int));
                assert(is_first_current_at(records, codepoint, i as int));
                let first = choose|k: int| is_first_current_at(records, codepoint, k);
                assert(first == i) by {
                    if first < i {
                        assert(!is_current_at(records, codepoint, first));
                    } else if i < first {
                        assert(!is_current_at(records, codepoint, i as int));
                    }
                }
            }
            return Some(i);
        }
        i += 1;
    }
    assert(records[old as int] == pool[old as int]@);
    let (places, dists) = rank(pool, pool[old].key(), true, 2);
    let ghost near = picks(records, places@);
    if places.len() == 1 || (places.len() >= 2 && dists[0] < dists[1]) {
        assert(near[0] == pool[places@[0] as int]@);
        Some(places[0])
    } else {
        None
    }
}

/// Resolves tokens against a database, which it only reads.
pub struct Matcher<'a> {
    db: &'a IconDatabase,
}

impl<'a> Matcher<'a> {
    /// The records that tokens are resolved against.
    pub closed spec fn records(self) -> Seq<IconView> {
        self.db.records()
    }

    /// A matcher over `db`.
    pub fn new(db: &'a IconDatabase) -> (matcher: Self)
        ensures
            matcher.records() == db.records(),
    {
        Matcher { db }
    }

    /// Resolves a token, the bytes of a candidate name.
    pub fn resolve(&self, token: &[u8]) -> (res: MatchResult<'a>)
        ensures
            res@ == resolution(self.records(), token@),
    {
        let db: &'a IconDatabase = self.db;
        let pool: &'a [Icon] = db.iter();
        let ghost records = self.records();
        match find_key(pool, token) {
            Some(i) => {
                let found = &pool[i];
                assert(records[i as int] == found@);
                if !found.obsolete {
                    MatchResult::Exact(found)
                } else {
                    match find_replacement(pool, i) {
                        Some(j) => MatchResult::ObsoleteRedirect(found, &pool[j]),
                        None => MatchResult::ObsoleteNoReplacement(found),
                    }
                }
            },
            None => {
                let (places, _) = rank(pool, token, false, MAX_CANDIDATES);
                let ghost near = picks(records, places@);
                let mut icons: Vec<&'a Icon> = Vec::new();
                let mut k: usize = 0;
                while k < places.len()
                    invariant
                        k <= places.len(),
                        records == icon_views(pool@),
                        near == picks(records, places@),
                        forall|m: int| 0 <= m < places@.len() ==> (#[trigger] places@[m]) < pool.len(),
                        icons@.len() == k,
                        borrowed_views(icons@) == near.take(k as int),
                    decreases places.len() - k,
                {
                    let place = places[k];
                    assert(places@[k as int] < pool.len());
                    let ghost before = icons@;
                    icons.push(&pool[place]);
                    proof {
                        assert(near[k as int] == pick(records, places@, k as int));
                        assert(records[place as int] == pool[place as int]@);
                        assert(icons@ == before.push(&pool[place as int]));
                        assert forall|m: int| 0 <= m < k + 1 implies borrowed_views(icons@)[m]
                            == near.take(k + 1)[m] by {
                            if m < k {
                                assert(borrowed_views(before)[m] == near.take(k as int)[m]);
                            }
                        }
                        assert(borrowed_views(icons@) =~= near.take(k + 1));
                    }
                    k += 1;
                }
                assert(near.take(k as int) =~= near);
                if icons.len() == 0 {
                    MatchResult::NoMatch
                } else {
                    MatchResult::Fuzzy(icons)
                }
            },
        }
    }
}

} // verus!
