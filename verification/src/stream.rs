//! The registry of stream values: one cell per server-assigned stream
//! id, holding the most recent result the server pushed. Newer pushes
//! overwrite older ones; there is no queue. The registry can be marked
//! broken — after the update connection is lost — and then fails every
//! read with a connection error.

use std::collections::HashMap;

use vstd::prelude::*;

use crate::codec::clone_bytes;
use crate::error::RpcError;
use crate::messages::ProcedureResult;

verus! {

broadcast use vstd::std_specs::hash::group_hash_axioms;

/// The registry: stream id to latest result, plus the broken mark.
pub struct StreamWrangler {
    streams: HashMap<u64, ProcedureResult>,
    broken: bool,
}

impl StreamWrangler {
    /// The map of latest results.
    pub closed spec fn entries(&self) -> Map<u64, ProcedureResult> {
        self.streams@
    }

    /// Whether the update connection has been lost.
    pub closed spec fn is_broken(&self) -> bool {
        self.broken
    }

    pub fn new() -> (r: StreamWrangler)
        ensures
            r.entries() == Map::<u64, ProcedureResult>::empty(),
            !r.is_broken(),
    {
        StreamWrangler { streams: HashMap::new(), broken: false }
    }

    /// Stores the newest result for a stream: the entry comes to exist
    /// if it did not, and the most recent value wins over any earlier one.
    pub fn insert(&mut self, id: u64, procedure_result: ProcedureResult) -> (r: Result<
        (),
        RpcError,
    >)
        ensures
            r is Ok,
            final(self).entries() == old(self).entries().insert(id, procedure_result),
            final(self).is_broken() == old(self).is_broken(),
    {
        self.streams.insert(id, procedure_result);
        Ok(())
    }

    /// Whether the registry holds a value for `id`.
    pub fn contains(&self, id: u64) -> (r: bool)
        ensures
            r == self.entries().contains_key(id),
    {
        self.streams.contains_key(&id)
    }

    /// Reads the untagged value bytes of the latest result for `id`.
    /// After the update connection is lost every read is a connection
    /// error; a stream that has no value yet is an encoding error; and
    /// otherwise the read returns the stored bytes.
    pub fn get(&self, id: u64) -> (r: Result<Vec<u8>, RpcError>)
        ensures
            self.is_broken() ==> (r matches Err(e) && e is Connection),
            !self.is_broken() && !self.entries().contains_key(id)
                ==> (r matches Err(e) && e is Encoding),
            !self.is_broken() && self.entries().contains_key(id)
                ==> (r matches Ok(b) && b@ == self.entries()[id].value@),
    {
        if self.broken {
            return Err(RpcError::Connection("stream connection lost".to_owned()));
        }
        match self.streams.get(&id) {
            Some(result) => Ok(clone_bytes(&result.value)),
            None => Err(RpcError::Encoding("no value received for stream".to_owned())),
        }
    }

    /// Drops the entry for `id`: later readers find no value under it.
    pub fn remove(&mut self, id: u64)
        ensures
            final(self).entries() == old(self).entries().remove(id),
            !final(self).entries().contains_key(id),
            final(self).is_broken() == old(self).is_broken(),
    {
        self.streams.remove(&id);
    }

    /// Marks the registry broken: every later read fails with a
    /// connection error.
    pub fn mark_broken(&mut self)
        ensures
            final(self).entries() == old(self).entries(),
            final(self).is_broken(),
    {
        self.broken = true;
    }
}

/// The registry's map after a run of pushes has been applied in order.
pub open spec fn apply_updates(
    m: Map<u64, ProcedureResult>,
    us: Seq<(u64, ProcedureResult)>,
) -> Map<u64, ProcedureResult>
    decreases us.len(),
{
    if us.len() == 0 {
        m
    } else {
        apply_updates(m.insert(us[0].0, us[0].1), us.drop_first())
    }
}

/// The index of the last push for `id` in a run of pushes, if any.
pub open spec fn last_update_for(us: Seq<(u64, ProcedureResult)>, id: u64) -> Option<int>
    decreases us.len(),
{
    if us.len() == 0 {
        None
    } else if us[us.len() - 1].0 == id {
        Some(us.len() - 1)
    } else {
        last_update_for(us.drop_last(), id)
    }
}

/// The most recent value wins. After any run of pushes is applied in
/// order, each stream id holds the value of the last push for that id —
/// pushes never reorder, and an id no push named keeps its old value.
/// A reader that takes the value after each push therefore observes the
/// pushed values in a never-decreasing position in the run.
pub proof fn lemma_updates_last_wins(
    m: Map<u64, ProcedureResult>,
    us: Seq<(u64, ProcedureResult)>,
    id: u64,
)
    ensures
        match last_update_for(us, id) {
            Some(j) => {
                &&& 0 <= j < us.len()
                &&& us[j].0 == id
                &&& apply_updates(m, us).contains_key(id)
                &&& apply_updates(m, us)[id] == us[j].1
                &&& forall|k: int| j < k < us.len() ==> (#[trigger] us[k]).0 != id
            },
            None => {
                &&& apply_updates(m, us).contains_key(id) == m.contains_key(id)
                &&& (m.contains_key(id) ==> apply_updates(m, us)[id] == m[id])
                &&& forall|k: int| 0 <= k < us.len() ==> (#[trigger] us[k]).0 != id
            },
        },
    decreases us.len(),
{
    if us.len() > 0 {
        let m2 = m.insert(us[0].0, us[0].1);
        let rest = us.drop_first();
        lemma_updates_last_wins(m2, rest, id);
        assert(forall|i: int| 0 <= i < rest.len() ==> rest[i] == us[i + 1]);
        lemma_last_update_shift(us, id);
        match last_update_for(rest, id) {
            Some(j2) => {
                assert(last_update_for(us, id) == Some(j2 + 1));
                assert forall|k: int| j2 + 1 < k < us.len()
                    implies (#[trigger] us[k]).0 != id by {
                    assert(us[k] == rest[k - 1]);
                };
            },
            None => {
                lemma_last_none_all_differ(rest, id);
                assert forall|k: int| 1 <= k < us.len()
                    implies (#[trigger] us[k]).0 != id by {
                    assert(us[k] == rest[k - 1]);
                };
                if us[0].0 == id {
                    assert(last_update_for(us, id) == Some(0int)) by {
                        lemma_last_first_match(us, id);
                    }
                    assert(apply_updates(m, us)[id] == us[0].1);
                } else {
                    assert(last_update_for(us, id) is None) by {
                        lemma_last_none_of_all_differ(us, id);
                    }
                }
            },
        }
    }
}

/// Relates the last-push index of a run to that of the run without its
/// first push.
proof fn lemma_last_update_shift(us: Seq<(u64, ProcedureResult)>, id: u64)
    requires
        us.len() > 0,
    ensures
        match last_update_for(us.drop_first(), id) {
            Some(j2) => last_update_for(us, id) == Some(j2 + 1),
            None => last_update_for(us, id) == (if us[0].0 == id {
                Some(0int)
            } else {
                None::<int>
            }),
        },
    decreases us.len(),
{
    let rest = us.drop_first();
    if rest.len() == 0 {
    } else {
        assert(us[us.len() - 1] == rest[rest.len() - 1]);
        if us[us.len() - 1].0 == id {
        } else {
            assert(us.drop_last().drop_first() =~= rest.drop_last());
            assert(us.drop_last().len() > 0);
            assert(us.drop_last()[0] == us[0]);
            lemma_last_update_shift(us.drop_last(), id);
        }
    }
}

/// A run with no last push for `id` has no push for `id` at all.
proof fn lemma_last_none_all_differ(us: Seq<(u64, ProcedureResult)>, id: u64)
    requires
        last_update_for(us, id) is None,
    ensures
        forall|k: int| 0 <= k < us.len() ==> (#[trigger] us[k]).0 != id,
    decreases us.len(),
{
    if us.len() > 0 {
        lemma_last_none_all_differ(us.drop_last(), id);
        assert(forall|k: int| 0 <= k < us.len() - 1 ==> us[k] == us.drop_last()[k]);
    }
}

/// A run whose first push names `id` and whose remainder never does has
/// its last push for `id` at the front.
proof fn lemma_last_first_match(us: Seq<(u64, ProcedureResult)>, id: u64)
    requires
        us.len() > 0,
        us[0].0 == id,
        forall|k: int| 0 <= k < us.drop_first().len() ==> (#[trigger] us.drop_first()[k]).0 != id,
    ensures
        last_update_for(us, id) == Some(0int),
    decreases us.len(),
{
    if us.len() == 1 {
    } else {
        assert(us[us.len() - 1] == us.drop_first()[us.len() - 2]);
        assert(us.drop_last()[0] == us[0]);
        assert(us.drop_last().drop_first() =~= us.drop_first().drop_last());
        assert(forall|k: int| 0 <= k < us.drop_last().drop_first().len()
            ==> us.drop_last().drop_first()[k] == us.drop_first()[k]);
        lemma_last_first_match(us.drop_last(), id);
    }
}

/// A run none of whose pushes names `id` has no last push for it.
proof fn lemma_last_none_of_all_differ(us: Seq<(u64, ProcedureResult)>, id: u64)
    requires
        forall|k: int| 0 <= k < us.len() ==> (#[trigger] us[k]).0 != id,
    ensures
        last_update_for(us, id) is None,
    decreases us.len(),
{
    if us.len() > 0 {
        assert(forall|k: int| 0 <= k < us.drop_last().len() ==> us.drop_last()[k] == us[k]);
        lemma_last_none_of_all_differ(us.drop_last(), id);
    }
}

} // verus!
