//! The log file's line format: one header row, then one data row per
//! recorded observation, each row `<timestamp>,<value>`.

use vstd::prelude::*;
use crate::records::{ObsView, Record};

verus! {

/// Holds when no character of `s` is a comma.
pub open spec fn comma_free(s: Seq<char>) -> bool {
    forall|i: int| 0 <= i < s.len() ==> s[i] != ','
}

/// Holds when a field may stand in a data row without escaping: it contains
/// neither the field separator nor a line break.
pub open spec fn clean_field(s: Seq<char>) -> bool {
    forall|i: int| 0 <= i < s.len() ==> (s[i] != ',' && s[i] != '\n')
}

/// Holds when `i` is the position of the only comma of `s`.
pub open spec fn splits_at(s: Seq<char>, i: int) -> bool {
    &&& 0 <= i < s.len()
    &&& s[i] == ','
    &&& comma_free(s.take(i))
    &&& comma_free(s.skip(i + 1))
}

/// A data row is well-formed when it consists of exactly two comma-separated
/// fields, that is, when it contains exactly one comma.
pub open spec fn well_formed_row(s: Seq<char>) -> bool {
    exists|i: int| splits_at(s, i)
}

/// The position of the only comma of a well-formed row.
pub open spec fn split_index(s: Seq<char>) -> int {
    choose|i: int| splits_at(s, i)
}

/// What a data row means: `Some` of its two fields when it is well-formed,
/// `None` otherwise.
pub open spec fn spec_split2(s: Seq<char>) -> Option<ObsView> {
    if well_formed_row(s) {
        Some(ObsView { timestamp: s.take(split_index(s)), value: s.skip(split_index(s) + 1) })
    } else {
        None
    }
}

/// The encoding of one observation as a data row (without the line break).
pub open spec fn enc_row(o: ObsView) -> Seq<char> {
    o.timestamp + seq![','] + o.value
}

/// The header row that precedes all data rows of a log file.
pub open spec fn spec_header() -> Seq<char> {
    "timestamp,value"@
}

/// Recovery over the data rows of a log file (everything after the header
/// row): `None` when some data row is malformed, otherwise `Some` of the
/// meaning of the last row (`Some(None)` when there are no data rows).
pub open spec fn spec_recover_rows(rows: Seq<Seq<char>>) -> Option<Option<ObsView>>
    decreases rows.len(),
{
    if rows.len() == 0 {
        Some(None)
    } else {
        match spec_recover_rows(rows.drop_last()) {
            None => None,
            Some(_) => match spec_split2(rows.last()) {
                None => None,
                Some(o) => Some(Some(o)),
            },
        }
    }
}

/// A well-formed row has exactly one comma, so the split position is unique.
pub proof fn lemma_splits_at_unique(s: Seq<char>, i: int, j: int)
    requires
        splits_at(s, i),
        splits_at(s, j),
    ensures
        i == j,
{
    if i < j {
        assert(s.skip(i + 1)[j - i - 1] == s[j]);
        assert(false);
    } else if j < i {
        assert(s.skip(j + 1)[i - j - 1] == s[i]);
        assert(false);
    }
}

/// Decoding inverts encoding: a row built from comma-free fields splits back
/// into exactly those fields.
pub proof fn lemma_split_round_trip(o: ObsView)
    requires
        comma_free(o.timestamp),
        comma_free(o.value),
    ensures
        spec_split2(enc_row(o)) == Some(o),
{
    let s = enc_row(o);
    let n = o.timestamp.len() as int;
    assert(s.take(n) =~= o.timestamp);
    assert(s.skip(n + 1) =~= o.value);
    assert(s[n] == ',');
    assert(splits_at(s, n));
    let k = split_index(s);
    assert(splits_at(s, k));
    lemma_splits_at_unique(s, k, n);
    assert(spec_split2(s) == Some(ObsView { timestamp: s.take(n), value: s.skip(n + 1) }));
}

/// One malformed data row spoils recovery of the whole file.
pub proof fn lemma_recover_rows_malformed(rows: Seq<Seq<char>>, k: int)
    requires
        0 <= k < rows.len(),
        spec_split2(rows[k]) is None,
    ensures
        spec_recover_rows(rows) == None::<Option<ObsView>>,
    decreases rows.len(),
{
    if k == rows.len() - 1 {
        assert(rows.last() == rows[k]);
    } else {
        assert(rows.drop_last()[k] == rows[k]);
        lemma_recover_rows_malformed(rows.drop_last(), k);
    }
}

/// The header row of every log file, as a value: `timestamp,value`.
pub fn header_line() -> (h: String)
    ensures
        h@ == spec_header(),
{
    String::from_str("timestamp,value")
}

/// Encodes one record as a data row (without the line break):
/// `<timestamp>,<value>`.
pub fn encode_row(r: &Record) -> (line: String)
    ensures
        line@ == enc_row(r@),
{
    let mut line = r.timestamp.clone();
    line.append(",");
    line.append(r.value.as_str());
    proof {
        reveal_strlit(",");
        assert(line@ =~= enc_row(r@));
    }
    line
}

/// Parses one data row into its two fields; `None` when the row does not
/// consist of exactly two comma-separated fields.
pub fn parse_line(line: &str) -> (r: Option<Record>)
    ensures
        match r {
            Some(rec) => spec_split2(line@) == Some(rec@),
            None => spec_split2(line@) is None,
        },
{
    let len = line.unicode_len();
    let mut i: usize = 0;
    while i < len && line.get_char(i) != ','
        invariant
            0 <= i <= len,
            len == line@.len(),
            forall|k: int| 0 <= k < i ==> line@[k] != ',',
        decreases len - i,
    {
        i += 1;
    }
    if i == len {
        proof {
            assert(!well_formed_row(line@)) by {
                if well_formed_row(line@) {
                    let k = choose|k: int| splits_at(line@, k);
                    assert(line@[k] == ',');
                }
            }
        }
        return None;
    }
    // line@[i] is the first comma; look for a second one
    let mut j: usize = i + 1;
    while j < len && line.get_char(j) != ','
        invariant
            i < j <= len,
            len == line@.len(),
            line@[i as int] == ',',
            forall|k: int| i < k < j ==> line@[k] != ',',
        decreases len - j,
    {
        j += 1;
    }
    if j < len {
        // a second comma: the row has more than two fields
        proof {
            assert(line@[j as int] == ',');
            assert(!well_formed_row(line@)) by {
                if well_formed_row(line@) {
                    let k = choose|k: int| splits_at(line@, k);
                    if k == i {
                        assert(line@.skip(i + 1)[j - i - 1] == line@[j as int]);
                    } else if k < i {
                        assert(line@[k] == ',');
                    } else {
                        assert(line@.take(k)[i as int] == line@[i as int]);
                    }
                }
            }
        }
        return None;
    }
    proof {
        assert(comma_free(line@.take(i as int))) by {
            assert(forall|k: int| 0 <= k < i ==> line@.take(i as int)[k] == line@[k]);
        }
        assert(comma_free(line@.skip(i + 1))) by {
            assert(forall|k: int| 0 <= k < line@.skip(i + 1).len() ==> #[trigger] line@.skip(
                i + 1,
            )[k] == line@[k + i + 1]);
        }
        assert(splits_at(line@, i as int));
        let k = split_index(line@);
        assert(splits_at(line@, k));
        lemma_splits_at_unique(line@, k, i as int);
    }
    let ts = line.substring_char(0, i);
    let val = line.substring_char(i + 1, len);
    let rec = Record { timestamp: ts.to_owned(), value: val.to_owned() };
    proof {
        assert(rec@.timestamp =~= line@.take(i as int));
        assert(rec@.value =~= line@.skip(i + 1));
    }
    Some(rec)
}

} // verus!
