//! The key table: a mapping from an external tag identifier to a canonical
//! name, loaded from CSV bytes whose columns are
//! `key, reddit, stackoverflow, wikipedia`. A row maps its `stackoverflow`
//! field to its `key` field.

use vstd::prelude::*;
use crate::assoc::{
    assoc_map, keys_unique, lemma_assoc_contains, lemma_assoc_index, lemma_assoc_push,
    lemma_assoc_update,
};
use crate::text::str_eq;

verus! {

/// Why loading a key table failed.
#[derive(Debug, Clone, Copy, PartialEq, Eq)]
pub enum LoadError {
    /// The bytes are not well-formed CSV.
    Csv,
    /// The header or a data row does not have the four expected columns.
    Structure,
}

/// A read-only mapping from tag identifier to canonical name.
pub struct KeyTable {
    entries: Vec<(String, String)>,
}

impl View for KeyTable {
    type V = Map<Seq<char>, Seq<char>>;

    closed spec fn view(&self) -> Map<Seq<char>, Seq<char>> {
        assoc_map(self.entries_view())
    }
}

impl KeyTable {
    pub closed spec fn entries_view(&self) -> Seq<(Seq<char>, Seq<char>)> {
        self.entries@.map_values(|p: (String, String)| (p.0@, p.1@))
    }

    /// Each tag identifier occurs at most once.
    pub closed spec fn wf(&self) -> bool {
        keys_unique(self.entries_view())
    }

    pub fn new() -> (r: KeyTable)
        ensures
            r.wf(),
            r@ == Map::<Seq<char>, Seq<char>>::empty(),
    {
        let r = KeyTable { entries: Vec::new() };
        proof {
            assert(r.entries_view() =~= Seq::<(Seq<char>, Seq<char>)>::empty());
        }
        r
    }

    /// Binds `tag` to `name`, replacing any earlier binding of `tag`.
    pub fn insert(&mut self, tag: String, name: String)
        requires
            old(self).wf(),
        ensures
            final(self).wf(),
            final(self)@ == old(self)@.insert(tag@, name@),
    {
        let n: usize = self.entries.len();
        let mut i: usize = 0;
        while i < n
            invariant
                i <= n,
                n == self.entries@.len(),
                self == old(self),
                self.wf(),
                forall|k: int| 0 <= k < i ==> self.entries_view()[k].0 != tag@,
            decreases n - i,
        {
            if str_eq(self.entries[i].0.as_str(), tag.as_str()) {
                proof {
                    assert(self.entries_view()[i as int].0 == tag@);
                    lemma_assoc_update(self.entries_view(), i as int, name@);
                }
                self.entries[i] = (tag, name);
                proof {
                    assert(self.entries_view() =~= old(self).entries_view().update(
                        i as int,
                        (old(self).entries_view()[i as int].0, name@),
                    ));
                }
                return ;
            }
            i = i + 1;
        }
        proof {
            lemma_assoc_push(self.entries_view(), tag@, name@);
        }
        self.entries.push((tag, name));
        proof {
            assert(self.entries_view() =~= old(self).entries_view().push((tag@, name@)));
        }
    }

    /// Looks a tag identifier up, returning its canonical name where bound.
    pub fn lookup(&self, tag: &str) -> (r: Option<&String>)
        requires
            self.wf(),
        ensures
            match r {
                Some(name) => self@.contains_key(tag@) && name@ == self@[tag@],
                None => !self@.contains_key(tag@),
            },
    {
        let n: usize = self.entries.len();
        let mut i: usize = 0;
        while i < n
            invariant
                i <= n,
                n == self.entries@.len(),
                self.wf(),
                forall|k: int| 0 <= k < i ==> self.entries_view()[k].0 != tag@,
            decreases n - i,
        {
            if str_eq(self.entries[i].0.as_str(), tag) {
                proof {
                    assert(self.entries_view()[i as int].0 == tag@);
                    lemma_assoc_index(self.entries_view(), i as int);
                }
                return Some(&self.entries[i].1);
            }
            i = i + 1;
        }
        proof {
            lemma_assoc_contains(self.entries_view(), tag@);
        }
        None
    }
}

#[verifier::external_type_specification]
#[verifier::external_body]
pub struct ExCsvError(csv::Error);

/// What parsing CSV bytes yields: `None` where the bytes are rejected,
/// otherwise the header row and the data rows, each a row of fields.
pub uninterp spec fn csv_parse(data: Seq<u8>) -> Option<(Seq<Seq<char>>, Seq<Seq<Seq<char>>>)>;

/// Relies on csv::Reader::from_reader, Reader::headers and
/// Reader::into_records: parses comma-separated bytes into a header row
/// followed by data rows; the outcome depends on the bytes alone.
#[verifier::external_body]
fn read_csv(data: &[u8]) -> (r: Result<(Vec<String>, Vec<Vec<String>>), csv::Error>)
    ensures
        r is Ok <==> csv_parse(data@) is Some,
        r is Ok ==> r->Ok_0.0@.map_values(|f: String| f@) == csv_parse(data@)->Some_0.0,
        r is Ok ==> r->Ok_0.1@.map_values(|row: Vec<String>| row@.map_values(|f: String| f@))
            == csv_parse(data@)->Some_0.1,
{
    let mut rdr = csv::Reader::from_reader(data);
    let hdr: Vec<String> = rdr.headers()?.iter().map(|f| f.to_string()).collect();
    let mut rows: Vec<Vec<String>> = Vec::new();
    for rec in rdr.into_records() {
        rows.push(rec?.iter().map(|f| f.to_string()).collect());
    }
    Ok((hdr, rows))
}

/// The canonical header row of a key file.
pub open spec fn expected_header() -> Seq<Seq<char>> {
    seq!["key"@, "reddit"@, "stackoverflow"@, "wikipedia"@]
}

/// The mapping each data row contributes: its third field (the external
/// identifier) is bound to its first field (the canonical name), later rows
/// overwriting earlier ones.
pub open spec fn rows_map(rows: Seq<Seq<Seq<char>>>) -> Map<Seq<char>, Seq<char>>
    decreases rows.len(),
{
    if rows.len() == 0 {
        Map::empty()
    } else {
        rows_map(rows.drop_last()).insert(rows.last()[2], rows.last()[0])
    }
}

/// What loading a key table from `data` yields. The bytes must parse as CSV;
/// a file without data rows gives the empty table; otherwise the header must
/// be the canonical one and every data row must have exactly four fields.
pub open spec fn key_table_spec(data: Seq<u8>) -> Result<Map<Seq<char>, Seq<char>>, LoadError> {
    if csv_parse(data) is None {
        Err(LoadError::Csv)
    } else {
        let hdr = csv_parse(data)->Some_0.0;
        let rows = csv_parse(data)->Some_0.1;
        if rows.len() == 0 {
            Ok(Map::empty())
        } else if hdr != expected_header() {
            Err(LoadError::Structure)
        } else if exists|i: int| 0 <= i < rows.len() && rows[i].len() != 4 {
            Err(LoadError::Structure)
        } else {
            Ok(rows_map(rows))
        }
    }
}

/// Loads a key table from the bytes of a key file.
pub fn load_key_table(data: &[u8]) -> (r: Result<KeyTable, LoadError>)
    ensures
        match r {
            Ok(t) => t.wf() && key_table_spec(data@) == Ok::<Map<Seq<char>, Seq<char>>,
                LoadError,
            >(t@),
            Err(e) => key_table_spec(data@) == Err::<Map<Seq<char>, Seq<char>>, LoadError>(e),
        },
{
    let parsed = match read_csv(data) {
        Ok(p) => p,
        Err(_) => {
            return Err(LoadError::Csv);
        },
    };
    let hdr = parsed.0;
    let rows = parsed.1;
    let ghost rv = rows@.map_values(|row: Vec<String>| row@.map_values(|f: String| f@));
    let mut table = KeyTable::new();
    if rows.len() == 0 {
        return Ok(table);
    }
    let ghost hv = hdr@.map_values(|f: String| f@);
    if hdr.len() != 4 {
        proof {
            assert(hv.len() == hdr@.len());
        }
        return Err(LoadError::Structure);
    }
    if !str_eq(hdr[0].as_str(), "key") {
        proof {
            assert(hv[0] == hdr@[0]@ && expected_header()[0] == "key"@);
        }
        return Err(LoadError::Structure);
    }
    if !str_eq(hdr[1].as_str(), "reddit") {
        proof {
            assert(hv[1] == hdr@[1]@ && expected_header()[1] == "reddit"@);
        }
        return Err(LoadError::Structure);
    }
    if !str_eq(hdr[2].as_str(), "stackoverflow") {
        proof {
            assert(hv[2] == hdr@[2]@ && expected_header()[2] == "stackoverflow"@);
        }
        return Err(LoadError::Structure);
    }
    if !str_eq(hdr[3].as_str(), "wikipedia") {
        proof {
            assert(hv[3] == hdr@[3]@ && expected_header()[3] == "wikipedia"@);
        }
        return Err(LoadError::Structure);
    }
    proof {
        assert(hv =~= expected_header());
    }
    let n: usize = rows.len();
    let mut i: usize = 0;
    while i < n
        invariant
            i <= n,
            0 < n == rows@.len(),
            rv == rows@.map_values(|row: Vec<String>| row@.map_values(|f: String| f@)),
            rv.len() == n,
            csv_parse(data@) is Some,
            csv_parse(data@)->Some_0.1 == rv,
            hdr@.map_values(|f: String| f@) == expected_header(),
            table.wf(),
            table@ == rows_map(rv.take(i as int)),
            forall|k: int| 0 <= k < i ==> #[trigger] rv[k].len() == 4,
        decreases n - i,
    {
        let row = &rows[i];
        if row.len() != 4 {
            proof {
                assert(rv[i as int].len() != 4);
            }
            return Err(LoadError::Structure);
        }
        proof {
            assert(rv.take(i + 1).drop_last() =~= rv.take(i as int));
            assert(rv.take(i + 1).last() == rv[i as int]);
            assert(rv[i as int][2] == row@[2]@);
            assert(rv[i as int][0] == row@[0]@);
        }
        table.insert(row[2].clone(), row[0].clone());
        i = i + 1;
    }
    proof {
        assert(rv.take(n as int) =~= rv);
    }
    Ok(table)
}

} // verus!
