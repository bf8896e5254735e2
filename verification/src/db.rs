//! Icon records and the database that holds them.

use crate::bytes::str_eq;
use crate::cache::{
    lemma_snapshot_reads_back, load_snapshot, read_snapshot, snapshot, storable, write_snapshot,
};
use crate::error::{Error, Result};
use crate::parser::{parse, parsed_icons};
use vstd::prelude::*;
use vstd::utf8::encode_utf8;

verus! {

/// One icon of the glyph set.
#[derive(Debug, PartialEq, Eq)]
pub struct Icon {
    pub name: String,
    pub codepoint: u32,
    pub obsolete: bool,
}

/// The mathematical value of an [`Icon`].
pub struct IconView {
    pub name: Seq<char>,
    pub codepoint: u32,
    pub obsolete: bool,
}

impl IconView {
    /// The name as the bytes that stand in source files: its UTF-8 form.
    pub open spec fn key(self) -> Seq<u8> {
        encode_utf8(self.name)
    }
}

impl View for Icon {
    type V = IconView;

    open spec fn view(&self) -> IconView {
        IconView { name: self.name@, codepoint: self.codepoint, obsolete: self.obsolete }
    }
}

impl Clone for Icon {
    fn clone(&self) -> (res: Self)
        ensures
            res == *self,
    {
        Icon { name: self.name.clone(), codepoint: self.codepoint, obsolete: self.obsolete }
    }
}

impl Icon {
    /// The name as UTF-8 bytes.
    pub fn key(&self) -> (bytes: &[u8])
        ensures
            bytes@ == self@.key(),
    {
        self.name.as_str().as_bytes()
    }
}

/// The views of a list of icons.
pub open spec fn icon_views(icons: Seq<Icon>) -> Seq<IconView> {
    icons.map_values(|icon: Icon| icon@)
}

/// Whether no two records of a list have the same name.
pub open spec fn unique_names(records: Seq<IconView>) -> bool {
    forall|i: int, j: int| 0 <= i < j < records.len() ==> records[i].name != records[j].name
}

/// Whether some record of a list has the name `name`.
pub open spec fn has_name(records: Seq<IconView>, name: Seq<char>) -> bool {
    exists|i: int| 0 <= i < records.len() && #[trigger] records[i].name == name
}

/// The place of a record with the name `name`, where the list has one.
pub open spec fn place_of(records: Seq<IconView>, name: Seq<char>) -> int {
    choose|i: int| 0 <= i < records.len() && #[trigger] records[i].name == name
}

/// The list after `icon` went in: it takes the place of the record that
/// had its name, or the end where there was none.
pub open spec fn inserted(records: Seq<IconView>, icon: IconView) -> Seq<IconView> {
    if has_name(records, icon.name) {
        records.update(place_of(records, icon.name), icon)
    } else {
        records.push(icon)
    }
}

/// The list after each record of `more` went in, first to last.
pub open spec fn merged(records: Seq<IconView>, more: Seq<IconView>) -> Seq<IconView>
    decreases more.len(),
{
    if more.len() == 0 {
        records
    } else {
        inserted(merged(records, more.drop_last()), more.last())
    }
}

/// The records of each cheat sheet in turn, merged into one list; `None`
/// where a sheet does not parse: it holds no usable entry or is too long.
pub open spec fn documents_records(documents: Seq<Seq<char>>) -> Option<Seq<IconView>>
    decreases documents.len(),
{
    if documents.len() == 0 {
        Some(Seq::empty())
    } else {
        match (documents_records(documents.drop_last()), parsed_icons(documents.last())) {
            (Some(records), Some(icons)) => Some(merged(records, icons)),
            _ => None,
        }
    }
}

/// The texts of a list of strings.
pub open spec fn texts(strings: Seq<String>) -> Seq<Seq<char>> {
    strings.map_values(|s: String| s@)
}

/// The record that a list holds under a name, if any.
pub open spec fn record_of(records: Seq<IconView>, name: Seq<char>) -> Option<IconView> {
    if has_name(records, name) {
        Some(records[place_of(records, name)])
    } else {
        None
    }
}

/// Going in keeps the names apart.
pub proof fn lemma_inserted_unique(records: Seq<IconView>, icon: IconView)
    requires
        unique_names(records),
    ensures
        unique_names(inserted(records, icon)),
{
    let after = inserted(records, icon);
    if has_name(records, icon.name) {
        let p = place_of(records, icon.name);
        assert forall|i: int, j: int| 0 <= i < j < after.len() implies after[i].name
            != after[j].name by {
            assert(after[i].name == records[i].name);
            assert(after[j].name == records[j].name);
        }
    } else {
        assert forall|i: int, j: int| 0 <= i < j < after.len() implies after[i].name
            != after[j].name by {
            if j == records.len() {
                assert(records[i].name != icon.name);
            }
        }
    }
}

/// Merging keeps the names apart.
pub proof fn lemma_merged_unique(records: Seq<IconView>, more: Seq<IconView>)
    requires
        unique_names(records),
    ensures
        unique_names(merged(records, more)),
    decreases more.len(),
{
    if more.len() > 0 {
        lemma_merged_unique(records, more.drop_last());
        lemma_inserted_unique(merged(records, more.drop_last()), more.last());
    }
}

/// The last record to go in under a name is the one the list holds: after
/// `icon` went in the list holds `icon` under its name, and under every
/// other name what it held before.
pub proof fn lemma_last_insert_wins(records: Seq<IconView>, icon: IconView, name: Seq<char>)
    requires
        unique_names(records),
    ensures
        record_of(inserted(records, icon), icon.name) == Some(icon),
        name != icon.name ==> record_of(inserted(records, icon), name) == record_of(records, name),
{
    let after = inserted(records, icon);
    lemma_inserted_unique(records, icon);
    if has_name(records, icon.name) {
        let p = place_of(records, icon.name);
        assert(after[p].name == icon.name);
        let q = place_of(after, icon.name);
        assert(q == p) by {
            if q < p {
                assert(after[q].name != after[p].name);
            } else if p < q {
                assert(after[p].name != after[q].name);
            }
        }
        if name != icon.name {
            if has_name(records, name) {
                let k = place_of(records, name);
                assert(after[k].name == name);
                let m = place_of(after, name);
                assert(records[m].name == name);
                assert(m == k) by {
                    if m < k {
                        assert(records[m].name != records[k].name);
                    } else if k < m {
                        assert(records[k].name != records[m].name);
                    }
                }
            } else {
                if has_name(after, name) {
                    let m = place_of(after, name);
                    assert(records[m].name == name);
                }
            }
        }
    } else {
        let p = records.len() as int;
        assert(after[p].name == icon.name);
        let q = place_of(after, icon.name);
        assert(q == p) by {
            if q < p {
                assert(records[q].name == icon.name);
            }
        }
        if name != icon.name {
            if has_name(records, name) {
                let k = place_of(records, name);
                assert(after[k].name == name);
                let m = place_of(after, name);
                assert(m == k) by {
                    if m < k {
                        assert(after[m].name != after[k].name);
                    } else if k < m {
                        assert(after[k].name != after[m].name);
                    }
                }
            } else {
                if has_name(after, name) {
                    let m = place_of(after, name);
                    assert(records[m].name == name);
                }
            }
        }
    }
}

/// Records whose names are already apart go into an empty list unchanged.
pub proof fn lemma_merged_into_empty(more: Seq<IconView>)
    requires
        unique_names(more),
    ensures
        merged(Seq::empty(), more) == more,
    decreases more.len(),
{
    if more.len() > 0 {
        let front = more.drop_last();
        lemma_merged_into_empty(front);
        if has_name(front, more.last().name) {
            let p = place_of(front, more.last().name);
            assert(more[p].name != more[more.len() - 1].name);
        }
        assert(front.push(more.last()) =~= more);
    } else {
        assert(more =~= Seq::empty());
    }
}

/// The records that reading a snapshot gives: those it holds, merged
/// into one list; `None` where the bytes are no snapshot.
pub open spec fn loaded(bytes: Seq<u8>) -> Option<Seq<IconView>> {
    match read_snapshot(bytes) {
        Some(records) => Some(merged(Seq::empty(), records)),
        None => None,
    }
}

/// Writing a database out and reading the bytes back gives the same
/// records, each with its name, codepoint and flag, in the same order.
pub proof fn lemma_save_then_load(records: Seq<IconView>)
    requires
        unique_names(records),
        storable(records),
    ensures
        loaded(snapshot(records)) == Some(records),
{
    lemma_snapshot_reads_back(records);
    lemma_merged_into_empty(records);
}

/// The icons that the tool knows, each under its own name, in a fixed
/// order.
#[derive(Debug)]
pub struct IconDatabase {
    icons: Vec<Icon>,
}

impl IconDatabase {
    #[verifier::type_invariant]
    spec fn names_apart(self) -> bool {
        unique_names(icon_views(self.icons@))
    }

    /// The records of the database, in iteration order.
    pub closed spec fn records(self) -> Seq<IconView> {
        icon_views(self.icons@)
    }

    /// A database without records.
    pub fn new() -> (db: Self)
        ensures
            db.records() == Seq::<IconView>::empty(),
    {
        let db = IconDatabase { icons: Vec::new() };
        assert(db.records() =~= Seq::<IconView>::empty());
        db
    }

    /// The records in iteration order: the order in which their names first
    /// went in. No two of them have the same name.
    pub fn iter(&self) -> (icons: &[Icon])
        ensures
            icon_views(icons@) == self.records(),
            unique_names(self.records()),
    {
        proof {
            use_type_invariant(self);
        }
        self.icons.as_slice()
    }

    /// The place of the record with the name `name`, if there is one.
    fn find(&self, name: &str) -> (place: Option<usize>)
        ensures
            match place {
                Some(i) => i < self.records().len() && self.records()[i as int].name == name@,
                None => !has_name(self.records(), name@),
            },
    {
        let mut i: usize = 0;
        while i < self.icons.len()
            invariant
                i <= self.icons.len(),
                forall|k: int| 0 <= k < i ==> #[trigger] self.records()[k].name != name@,
            decreases self.icons.len() - i,
        {
            if str_eq(self.icons[i].name.as_str(), name) {
                return Some(i);
            }
            i += 1;
        }
        None
    }

    /// The record with the name `name`, if there is one.
    pub fn lookup(&self, name: &str) -> (found: Option<&Icon>)
        ensures
            match found {
                Some(icon) => record_of(self.records(), name@) == Some(icon@),
                None => record_of(self.records(), name@) is None,
            },
    {
        proof {
            use_type_invariant(self);
        }
        match self.find(name) {
            Some(i) => {
                proof {
                    let p = place_of(self.records(), name@);
                    if p < i {
                        assert(self.records()[p].name != self.records()[i as int].name);
                    } else if i < p {
                        assert(self.records()[i as int].name != self.records()[p].name);
                    }
                }
                Some(&self.icons[i])
            },
            None => None,
        }
    }

    /// Puts `icon` into the database. Where a record has its name already,
    /// `icon` takes that record's place; else it goes to the end.
    pub fn insert(&mut self, icon: Icon)
        ensures
            final(self).records() == inserted(old(self).records(), icon@),
    {
        proof {
            use_type_invariant(&*self);
            lemma_inserted_unique(self.records(), icon@);
        }
        let place = self.find(icon.name.as_str());
        let ghost before = self.records();
        let mut taken = IconDatabase { icons: Vec::new() };
        core::mem::swap(self, &mut taken);
        let mut icons = taken.icons;
        match place {
            Some(i) => {
                proof {
                    let p = place_of(before, icon@.name);
                    if p < i {
                        assert(before[p].name != before[i as int].name);
                    } else if i < p {
                        assert(before[i as int].name != before[p].name);
                    }
                }
                icons.set(i, icon);
            },
            None => {
                icons.push(icon);
            },
        }
        assert(icon_views(icons@) =~= inserted(before, icon@));
        *self = IconDatabase { icons };
    }

    /// Puts each icon of `icons` into the database, first to last.
    pub fn merge(&mut self, icons: Vec<Icon>)
        ensures
            final(self).records() == merged(old(self).records(), icon_views(icons@)),
    {
        let ghost more = icon_views(icons@);
        let mut i: usize = 0;
        while i < icons.len()
            invariant
                i <= icons.len(),
                more == icon_views(icons@),
                self.records() == merged(old(self).records(), more.take(i as int)),
            decreases icons.len() - i,
        {
            proof {
                assert(more.take(i + 1).drop_last() =~= more.take(i as int));
            }
            self.insert(icons[i].clone());
            i += 1;
        }
        assert(more.take(i as int) =~= more);
    }

    /// Reads a database back from a snapshot.
    ///
    /// Fails with `CorruptCache` where the bytes are no snapshot.
    pub fn load_from_cache(bytes: &[u8]) -> (res: Result<Self>)
        ensures
            match res {
                Ok(db) => loaded(bytes@) == Some(db.records()),
                Err(e) => e == Error::CorruptCache && loaded(bytes@) is None,
            },
    {
        match load_snapshot(bytes) {
            Some(icons) => {
                let mut db = IconDatabase::new();
                db.merge(icons);
                Ok(db)
            },
            None => Err(Error::CorruptCache),
        }
    }

    /// Writes the database out as a snapshot: the same records in the same
    /// order always give the same bytes, and the bytes read back as the
    /// same records.
    pub fn save(&self) -> (bytes: Vec<u8>)
        ensures
            bytes@ == snapshot(self.records()),
            loaded(bytes@) == Some(self.records()),
    {
        proof {
            use_type_invariant(self);
        }
        let bytes = write_snapshot(self.icons.as_slice());
        proof {
            lemma_save_then_load(self.records());
        }
        bytes
    }

    /// Builds a database from cheat sheets, one after the other: a record
    /// of a later sheet takes the place of an earlier record of its name.
    ///
    /// Fails with `ParseFailure` where a sheet holds no usable entry or is
    /// too long for the parser.
    pub fn load_from_documents(documents: &Vec<String>) -> (res: Result<Self>)
        ensures
            match res {
                Ok(db) => documents_records(texts(documents@)) == Some(db.records()),
                Err(e) => e == Error::ParseFailure && documents_records(texts(documents@)) is None,
            },
    {
        let mut db = IconDatabase::new();
        let ghost all = texts(documents@);
        let mut i: usize = 0;
        while i < documents.len()
            invariant
                i <= documents.len(),
                all == texts(documents@),
                documents_records(all.take(i as int)) == Some(db.records()),
            decreases documents.len() - i,
        {
            proof {
                assert(all.take(i + 1).drop_last() =~= all.take(i as int));
            }
            match parse(documents[i].as_str()) {
                Ok(icons) => db.merge(icons),
                Err(e) => {
                    proof {
                        lemma_documents_records_fail(all, i + 1);
                    }
                    return Err(e);
                },
            }
            i += 1;
        }
        assert(all.take(i as int) =~= all);
        Ok(db)
    }
}

proof fn lemma_documents_records_fail(documents: Seq<Seq<char>>, n: int)
    requires
        0 <= n <= documents.len(),
        documents_records(documents.take(n)) is None,
    ensures
        documents_records(documents) is None,
    decreases documents.len() - n,
{
    if n < documents.len() {
        assert(documents.take(n + 1).drop_last() =~= documents.take(n));
        lemma_documents_records_fail(documents, n + 1);
    } else {
        assert(documents.take(n) =~= documents);
    }
}

} // verus!
