//! The extension table: one media type per extension, looked up by exact match.
use vstd::prelude::*;
use crate::chars::chars_of;
use crate::keys::{lemma_insert_sorted, search, sorted, views};
use crate::registry::{Record, parse_mimes, parse_registry, record_view, record_views};

verus! {

/// A media type as a table stores it: type and subtype, without parameters.
#[derive(Clone, Debug, PartialEq, Eq)]
pub struct RawMediaType {
    pub type_: String,
    pub subtype: String,
}

/// A media type as lookups return it; the parameter list is always empty.
#[derive(Clone, Debug, PartialEq, Eq)]
pub struct MediaType {
    pub type_: String,
    pub subtype: String,
    pub parameters: Vec<(String, String)>,
}

/// The table that a sequence of records yields: each non-empty extension maps to
/// the type and subtype of the first record that has it.
pub open spec fn table_of(rs: Seq<Record>) -> Map<Seq<char>, (Seq<char>, Seq<char>)>
    decreases rs.len(),
{
    if rs.len() == 0 {
        Map::empty()
    } else {
        let m = table_of(rs.drop_last());
        let r = rs.last();
        if r.0.len() == 0 || m.contains_key(r.0) {
            m
        } else {
            m.insert(r.0, (r.1, r.2))
        }
    }
}

/// An immutable map from extension to media type, kept as keys in sorted order
/// beside their values so that a lookup is a binary search.
pub struct ExtensionTable {
    keys: Vec<Vec<char>>,
    vals: Vec<RawMediaType>,
    entries: Ghost<Map<Seq<char>, (Seq<char>, Seq<char>)>>,
}

impl View for ExtensionTable {
    type V = Map<Seq<char>, (Seq<char>, Seq<char>)>;

    closed spec fn view(&self) -> Self::V {
        self.entries@
    }
}

impl ExtensionTable {
    /// The keys are sorted and, position by position, hold exactly the entries of the view.
    pub closed spec fn wf(&self) -> bool {
        &&& self.keys.len() == self.vals.len()
        &&& sorted(views(self.keys@))
        &&& forall|j: int|
            0 <= j < self.keys.len() ==> self.entries@.contains_key(#[trigger] self.keys@[j]@)
                && self.entries@[self.keys@[j]@] == (self.vals@[j].type_@, self.vals@[j].subtype@)
        &&& forall|k: Seq<char>|
            #[trigger] self.entries@.contains_key(k) ==> exists|j: int|
                0 <= j < self.keys.len() && #[trigger] self.keys@[j]@ == k
    }

    /// Builds the table of a sequence of `(extension, type, subtype)` records:
    /// the first record for each extension wins, and empty extensions are left out.
    pub fn from_records(records: &Vec<(String, String, String)>) -> (t: ExtensionTable)
        ensures
            t.wf(),
            t@ == table_of(record_views(records@)),
    {
        let mut t = ExtensionTable { keys: Vec::new(), vals: Vec::new(), entries: Ghost(Map::empty()) };
        let mut i: usize = 0;
        while i < records.len()
            invariant
                i <= records.len(),
                t.wf(),
                t@ == table_of(record_views(records@).take(i as int)),
            decreases records.len() - i,
        {
            let rec = &records[i];
            let ghost rs = record_views(records@).take(i as int + 1);
            assert(rs.drop_last() == record_views(records@).take(i as int));
            assert(rs.last() == record_view(*rec));
            let key = chars_of(rec.0.as_str());
            if key.len() > 0 {
                let (found, pos) = search(&t.keys, &key);
                if !found {
                    let ghost k0 = t.keys@;
                    let ghost v0 = t.vals@;
                    let ghost e0 = t.entries@;
                    let raw = RawMediaType { type_: rec.1.clone(), subtype: rec.2.clone() };
                    proof {
                        lemma_insert_sorted(t.keys@, pos as int, key);
                    }
                    t.keys.insert(pos, key);
                    t.vals.insert(pos, raw);
                    t.entries = Ghost(e0.insert(rec.0@, (rec.1@, rec.2@)));
                    assert forall|j: int| 0 <= j < t.keys.len() implies t.entries@.contains_key(
                        #[trigger] t.keys@[j]@,
                    ) && t.entries@[t.keys@[j]@] == (t.vals@[j].type_@, t.vals@[j].subtype@) by {
                        if j < pos {
                            assert(t.keys@[j] == k0[j] && t.vals@[j] == v0[j]);
                        } else if j > pos {
                            assert(t.keys@[j] == k0[j - 1] && t.vals@[j] == v0[j - 1]);
                        }
                    }
                    assert forall|k: Seq<char>| #[trigger] t.entries@.contains_key(k) implies exists|j: int|
                        0 <= j < t.keys.len() && #[trigger] t.keys@[j]@ == k by {
                        if k == rec.0@ {
                            assert(t.keys@[pos as int]@ == k);
                        } else {
                            let j = choose|j: int| 0 <= j < k0.len() && #[trigger] k0[j]@ == k;
                            if j < pos {
                                assert(t.keys@[j]@ == k);
                            } else {
                                assert(t.keys@[j + 1]@ == k);
                            }
                        }
                    }
                } else {
                    assert(t@.contains_key(rec.0@));
                }
            }
            i = i + 1;
        }
        assert(record_views(records@).take(records.len() as int) == record_views(records@));
        t
    }

    /// Parses a registry text and builds its table; fails as `parse_mimes` does.
    pub fn from_registry(mimes: &str) -> (r: Result<ExtensionTable, String>)
        ensures
            match r {
                Ok(t) => t.wf() && parse_registry(mimes@) is Ok && t@ == table_of(
                    parse_registry(mimes@)->Ok_0,
                ),
                Err(m) => parse_registry(mimes@) is Err && m@ == crate::registry::bad_line_message(
                    parse_registry(mimes@)->Err_0,
                ),
            },
    {
        match parse_mimes(mimes) {
            Ok(records) => Ok(ExtensionTable::from_records(&records)),
            Err(m) => Err(m),
        }
    }

    /// The number of extensions in the table.
    pub fn len(&self) -> (n: usize)
        requires
            self.wf(),
        ensures
            n == self@.len(),
    {
        proof {
            self.lemma_len();
        }
        self.keys.len()
    }

    proof fn lemma_len(&self)
        requires
            self.wf(),
        ensures
            self.keys.len() == self@.len(),
    {
        let ks = views(self.keys@);
        assert forall|i: int, j: int| 0 <= i < ks.len() && 0 <= j < ks.len() && i != j
            implies ks[i] != ks[j] by {
            crate::keys::lemma_key_lt_irrefl(ks[i]);
            if i < j {
                assert(crate::keys::key_lt(ks[i], ks[j]));
            } else {
                assert(crate::keys::key_lt(ks[j], ks[i]));
            }
        }
        ks.unique_seq_to_set();
        assert(ks.to_set() =~= self@.dom()) by {
            assert forall|k: Seq<char>| self@.dom().contains(k) implies ks.to_set().contains(k) by {
                let j = choose|j: int| 0 <= j < self.keys.len() && #[trigger] self.keys@[j]@ == k;
                assert(ks[j] == k);
            }
        }
    }

    /// The media type of an extension, by exact, case-sensitive match; `None`
    /// where the table has no such extension.
    pub fn lookup(&self, ext: &str) -> (r: Option<MediaType>)
        requires
            self.wf(),
        ensures
            r is Some <==> self@.contains_key(ext@),
            r matches Some(m) ==> m.type_@ == self@[ext@].0 && m.subtype@ == self@[ext@].1
                && m.parameters@.len() == 0,
    {
        let key = chars_of(ext);
        let (found, pos) = search(&self.keys, &key);
        if found {
            Some(to_media_type(&self.vals[pos]))
        } else {
            None
        }
    }
}

/// The media type of a stored entry, with no parameters.
pub fn to_media_type(raw: &RawMediaType) -> (m: MediaType)
    ensures
        m.type_@ == raw.type_@,
        m.subtype@ == raw.subtype@,
        m.parameters@.len() == 0,
{
    MediaType { type_: raw.type_.clone(), subtype: raw.subtype.clone(), parameters: Vec::new() }
}

/// The media type that `table` associates with the extension `ext`.
pub fn get_content_type(table: &ExtensionTable, ext: &str) -> (r: Option<MediaType>)
    requires
        table.wf(),
    ensures
        r is Some <==> table@.contains_key(ext@),
        r matches Some(m) ==> m.type_@ == table@[ext@].0 && m.subtype@ == table@[ext@].1
            && m.parameters@.len() == 0,
{
    table.lookup(ext)
}

} // verus!

verus! {

/// No table has the empty extension as a key.
pub proof fn lemma_no_empty_key(rs: Seq<Record>)
    ensures
        !table_of(rs).contains_key(Seq::<char>::empty()),
    decreases rs.len(),
{
    if rs.len() > 0 {
        lemma_no_empty_key(rs.drop_last());
    }
}

/// Extensions never leave a table as records are added, and keep their entry.
proof fn lemma_table_grows(rs: Seq<Record>, i: int, k: Seq<char>)
    requires
        0 <= i <= rs.len(),
        table_of(rs.take(i)).contains_key(k),
    ensures
        table_of(rs).contains_key(k),
        table_of(rs)[k] == table_of(rs.take(i))[k],
    decreases rs.len() - i,
{
    if i < rs.len() {
        assert(rs.take(i + 1).drop_last() == rs.take(i));
        lemma_table_grows(rs, i + 1, k);
    } else {
        assert(rs.take(i) == rs);
    }
}

/// The first record with a given non-empty extension decides that extension's
/// entry, whatever later records say.
pub proof fn lemma_first_record_wins(rs: Seq<Record>, j: int)
    requires
        0 <= j < rs.len(),
        rs[j].0.len() > 0,
        forall|i: int| 0 <= i < j ==> (#[trigger] rs[i]).0 != rs[j].0,
    ensures
        table_of(rs).contains_key(rs[j].0),
        table_of(rs)[rs[j].0] == (rs[j].1, rs[j].2),
{
    lemma_absent_before(rs.take(j), rs[j].0);
    assert(rs.take(j + 1).drop_last() == rs.take(j));
    lemma_table_grows(rs, j + 1, rs[j].0);
}

proof fn lemma_absent_before(rs: Seq<Record>, k: Seq<char>)
    requires
        forall|i: int| 0 <= i < rs.len() ==> (#[trigger] rs[i]).0 != k,
    ensures
        !table_of(rs).contains_key(k),
    decreases rs.len(),
{
    if rs.len() > 0 {
        assert(rs.last().0 != k);
        lemma_absent_before(rs.drop_last(), k);
    }
}

} // verus!
