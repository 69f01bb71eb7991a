//! The guarantees of the store, stated once for all inputs and proved from
//! the same spec functions that the store's contracts use.

use vstd::prelude::*;
use crate::codec::{
    comma_free, enc_row, lemma_split_round_trip, spec_recover_rows, spec_split2,
};
use crate::database::{spec_store_emits, spec_store_next};
use crate::records::{ObsView, TableView};

verus! {

/// Dedup idempotence: after one `store` of a record, a second `store` of a
/// field-wise-equal record appends nothing, whatever the cache held before.
/// Two equal calls in a row therefore append at most one data row — exactly
/// one when the record was new.
pub proof fn lemma_dedup_idempotent(last: Option<ObsView>, o: ObsView)
    ensures
        !spec_store_emits(spec_store_next(last, o), o),
{
}

/// Change detection: a record whose value differs from its predecessor is
/// appended even when only the value changed, and the two rows written by
/// the two calls are distinct lines of the file.
pub proof fn lemma_change_detection(last: Option<ObsView>, o1: ObsView, o2: ObsView)
    requires
        spec_store_emits(last, o1),
        o1.value != o2.value,
        comma_free(o1.timestamp),
        comma_free(o1.value),
        comma_free(o2.timestamp),
        comma_free(o2.value),
    ensures
        spec_store_emits(spec_store_next(last, o1), o2),
        enc_row(o1) != enc_row(o2),
{
    lemma_split_round_trip(o1);
    lemma_split_round_trip(o2);
    if enc_row(o1) == enc_row(o2) {
        assert(spec_split2(enc_row(o1)) == spec_split2(enc_row(o2)));
        assert(false);
    }
}

/// Restart recovery: a log file whose data rows are the encodings of the
/// observations `obs`, in order, recovers to exactly the last of them. A
/// store reopened on such a file therefore appends nothing when the last
/// observation is delivered again.
pub proof fn lemma_restart_recovery(obs: Seq<ObsView>)
    requires
        forall|i: int|
            0 <= i < obs.len() ==> comma_free(#[trigger] obs[i].timestamp) && comma_free(
                obs[i].value,
            ),
    ensures
        obs.len() == 0 ==> spec_recover_rows(obs.map_values(|o: ObsView| enc_row(o))) == Some(
            None::<ObsView>,
        ),
        obs.len() > 0 ==> spec_recover_rows(obs.map_values(|o: ObsView| enc_row(o))) == Some(
            Some(obs.last()),
        ),
        obs.len() > 0 ==> !spec_store_emits(Some(obs.last()), obs.last()),
    decreases obs.len(),
{
    let rows = obs.map_values(|o: ObsView| enc_row(o));
    if obs.len() > 0 {
        assert(forall|i: int| 0 <= i < obs.drop_last().len() ==> #[trigger] obs.drop_last()[i]
            == obs[i]);
        lemma_restart_recovery(obs.drop_last());
        assert(rows.drop_last() =~= obs.drop_last().map_values(|o: ObsView| enc_row(o)));
        assert(rows.last() == enc_row(obs.last()));
        lemma_split_round_trip(obs.last());
    }
}

/// The header line never influences recovery: two files that agree on
/// everything after their first line recover identically, even when a first
/// line happens to match the data format.
pub proof fn lemma_recovery_ignores_header(h1: Seq<char>, h2: Seq<char>, rows: Seq<Seq<char>>)
    ensures
        spec_recover_rows((seq![h1] + rows).skip(1)) == spec_recover_rows(
            (seq![h2] + rows).skip(1),
        ),
{
    assert((seq![h1] + rows).skip(1) =~= rows);
    assert((seq![h2] + rows).skip(1) =~= rows);
}

/// Isolation across tables: advancing or dropping the cached state of one
/// table leaves the cached state of every other table untouched.
pub proof fn lemma_isolation(
    m: Map<TableView, Option<ObsView>>,
    t: TableView,
    v: Option<ObsView>,
    u: TableView,
)
    requires
        u != t,
    ensures
        m.insert(t, v).contains_key(u) == m.contains_key(u),
        m.contains_key(u) ==> m.insert(t, v)[u] == m[u],
        m.remove(t).contains_key(u) == m.contains_key(u),
        m.contains_key(u) ==> m.remove(t)[u] == m[u],
{
}

/// Holds when no two consecutive data rows of a log are field-wise equal.
pub open spec fn no_consecutive_dups(obs: Seq<ObsView>) -> bool {
    forall|i: int| 0 <= i < obs.len() - 1 ==> #[trigger] obs[i] != obs[i + 1]
}

/// Holds when a cached last record mirrors a log's data rows.
pub open spec fn cache_matches(obs: Seq<ObsView>, last: Option<ObsView>) -> bool {
    last == (if obs.len() == 0 {
        None::<ObsView>
    } else {
        Some(obs.last())
    })
}

/// The append-only log invariant: while the cache mirrors the file, one
/// `store` call keeps that mirror, and never produces two consecutive
/// field-wise-equal data rows.
pub proof fn lemma_store_preserves_log_invariant(
    obs: Seq<ObsView>,
    last: Option<ObsView>,
    o: ObsView,
)
    requires
        cache_matches(obs, last),
        no_consecutive_dups(obs),
    ensures
        spec_store_emits(last, o) ==> no_consecutive_dups(obs.push(o)) && cache_matches(
            obs.push(o),
            spec_store_next(last, o),
        ),
        !spec_store_emits(last, o) ==> cache_matches(obs, spec_store_next(last, o)),
{
    if spec_store_emits(last, o) {
        let obs2 = obs.push(o);
        assert(forall|i: int| 0 <= i < obs.len() ==> obs2[i] == obs[i]);
        assert(obs2[obs.len() as int] == o);
        assert(no_consecutive_dups(obs2)) by {
            assert forall|i: int| 0 <= i < obs2.len() - 1 implies #[trigger] obs2[i] != obs2[i
                + 1] by {
                if i < obs.len() - 1 {
                    assert(obs2[i] == obs[i] && obs2[i + 1] == obs[i + 1]);
                } else {
                    assert(obs2[i] == obs.last() && obs2[i + 1] == o);
                }
            }
        }
        assert(obs2.last() == o);
    }
}

} // verus!
