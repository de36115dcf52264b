//! The outstanding changeset: the desired order without what the ledger
//! already records.

use vstd::prelude::*;
use crate::change_block::string_views;
use crate::graph::{object_keys, ExecutionPlan};
use vstd::string::StringSliceAdditionalSpecFns;
use vstd::utf8::encode_utf8;

verus! {

/// What to do with a unit. Units already recorded are never re-applied.
#[derive(Debug, Clone, Copy, PartialEq, Eq, Structural)]
pub enum ChangeKind {
    Apply,
}

#[derive(Debug)]
pub struct Change {
    pub key: String,
    pub kind: ChangeKind,
}

pub open spec fn change_keys(cs: Seq<Change>) -> Seq<Seq<char>> {
    cs.map_values(|c: Change| c.key@)
}

/// The desired keys that the ledger does not hold, in desired order.
pub open spec fn outstanding(desired: Seq<Seq<char>>, applied: Seq<Seq<char>>) -> Seq<Seq<char>>
    decreases desired.len(),
{
    if desired.len() == 0 {
        seq![]
    } else {
        let rest = outstanding(desired.drop_last(), applied);
        let k = desired[desired.len() - 1];
        if applied.contains(k) {
            rest
        } else {
            rest.push(k)
        }
    }
}

fn contains_string(v: &Vec<String>, x: &String) -> (r: bool)
    ensures
        r == string_views(v@).contains(x@),
{
    let mut i: usize = 0;
    while i < v.len()
        invariant
            i <= v@.len(),
            forall|k: int| 0 <= k < i ==> v@[k]@ != x@,
        decreases v@.len() - i,
    {
        if v[i] == *x {
            proof {
                assert(string_views(v@)[i as int] == x@);
            }
            return true;
        }
        i = i + 1;
    }
    proof {
        if string_views(v@).contains(x@) {
            let k = choose|k: int| 0 <= k < v@.len() && string_views(v@)[k] == x@;
            assert(v@[k]@ == x@);
        }
    }
    false
}

/// The changeset for `desired` (in execution order) against the keys the
/// ledger records as applied: every desired key not yet applied, in the
/// same relative order, each to be applied.
pub fn compute_changeset(desired: &Vec<String>, applied: &Vec<String>) -> (r: Vec<Change>)
    ensures
        change_keys(r@) == outstanding(string_views(desired@), string_views(applied@)),
        forall|i: int| 0 <= i < r@.len() ==> r@[i].kind == ChangeKind::Apply,
{
    let mut out: Vec<Change> = Vec::new();
    for i in 0..desired.len()
        invariant
            change_keys(out@) == outstanding(string_views(desired@).take(i as int), string_views(applied@)),
            forall|j: int| 0 <= j < out@.len() ==> out@[j].kind == ChangeKind::Apply,
    {
        let ghost o0 = out@;
        proof {
            assert(string_views(desired@).take(i + 1).drop_last() =~= string_views(desired@).take(i as int));
        }
        if !contains_string(applied, &desired[i]) {
            out.push(Change { key: desired[i].clone(), kind: ChangeKind::Apply });
            proof {
                assert(change_keys(out@) =~= change_keys(o0).push(desired@[i as int]@));
            }
        }
    }
    proof {
        assert(string_views(desired@).take(desired@.len() as int) =~= string_views(desired@));
    }
    out
}

/// The keys of a plan's units in execution order.
pub fn desired_keys(plan: &ExecutionPlan) -> (r: Vec<String>)
    requires
        forall|i: int| 0 <= i < plan.order@.len() ==> plan.order@[i] < plan.objects@.len(),
    ensures
        string_views(r@) == plan.order@.map_values(|q: usize| object_keys(plan.objects@)[q as int]),
{
    let mut out: Vec<String> = Vec::new();
    for i in 0..plan.order.len()
        invariant
            forall|j: int| 0 <= j < plan.order@.len() ==> plan.order@[j] < plan.objects@.len(),
            string_views(out@) == plan.order@.take(i as int).map_values(
                |q: usize| object_keys(plan.objects@)[q as int],
            ),
    {
        let q = plan.order[i];
        let ghost o0 = out@;
        out.push(plan.objects[q].change_name.clone());
        proof {
            assert(object_keys(plan.objects@)[q as int] == plan.objects@[q as int].change_name@);
            assert(string_views(out@) =~= string_views(o0).push(plan.objects@[q as int].change_name@));
            assert(string_views(out@) =~= plan.order@.take(i + 1).map_values(
                |q: usize| object_keys(plan.objects@)[q as int],
            ));
        }
    }
    proof {
        assert(plan.order@.take(plan.order@.len() as int) =~= plan.order@);
    }
    out
}

/// One FNV-1a step: mix in a byte, multiply by the 64-bit FNV prime.
pub open spec fn fnv_step(h: u64, b: u8) -> u64 {
    (((h ^ (b as u64)) as nat * 0x100000001b3nat) % 0x1_0000_0000_0000_0000nat) as u64
}

/// The 64-bit FNV-1a hash of `bytes`.
pub open spec fn fnv1a(bytes: Seq<u8>) -> u64
    decreases bytes.len(),
{
    if bytes.len() == 0 {
        0xcbf29ce484222325u64
    } else {
        fnv_step(fnv1a(bytes.drop_last()), bytes[bytes.len() - 1])
    }
}

/// The hash the ledger records for a SQL text: FNV-1a over its UTF-8 bytes.
pub open spec fn text_hash(text: Seq<char>) -> u64 {
    fnv1a(encode_utf8(text))
}

/// The stable hash of the exact SQL text of a unit.
pub fn content_hash(sql: &str) -> (r: u64)
    ensures
        r == text_hash(sql@),
{
    let bytes = sql.as_bytes();
    let mut h: u64 = 0xcbf29ce484222325;
    let mut i: usize = 0;
    while i < bytes.len()
        invariant
            i <= bytes@.len(),
            bytes@ == encode_utf8(sql@),
            h == fnv1a(bytes@.take(i as int)),
        decreases bytes@.len() - i,
    {
        proof {
            assert(bytes@.take(i + 1).drop_last() =~= bytes@.take(i as int));
        }
        h = (h ^ (bytes[i] as u64)).wrapping_mul(0x100000001b3);
        i = i + 1;
    }
    proof {
        assert(bytes@.take(bytes@.len() as int) =~= bytes@);
    }
    h
}

/// What the ledger holds of one applied unit for drift detection.
pub struct AppliedChange {
    pub change_name: String,
    pub content_hash: u64,
}

/// The hash the ledger recorded first for `key`, if any.
pub open spec fn recorded_hash(ledger: Seq<AppliedChange>, key: Seq<char>) -> Option<u64>
    decreases ledger.len(),
{
    if ledger.len() == 0 {
        None
    } else if ledger[0].change_name@ == key {
        Some(ledger[0].content_hash)
    } else {
        recorded_hash(ledger.drop_first(), key)
    }
}

/// The keys, in source order, whose current text no longer hashes to what the
/// ledger recorded. Units the ledger does not hold are not drift.
pub open spec fn drifted(current: Seq<(Seq<char>, Seq<char>)>, ledger: Seq<AppliedChange>) -> Seq<Seq<char>>
    decreases current.len(),
{
    if current.len() == 0 {
        seq![]
    } else {
        let rest = drifted(current.drop_last(), ledger);
        let (k, text) = current[current.len() - 1];
        match recorded_hash(ledger, k) {
            Some(h) => if h != text_hash(text) {
                rest.push(k)
            } else {
                rest
            },
            None => rest,
        }
    }
}

fn find_recorded(ledger: &Vec<AppliedChange>, key: &String) -> (r: Option<u64>)
    ensures
        r == recorded_hash(ledger@, key@),
{
    let mut i: usize = 0;
    proof {
        assert(ledger@.skip(0) =~= ledger@);
    }
    while i < ledger.len()
        invariant
            i <= ledger@.len(),
            recorded_hash(ledger@, key@) == recorded_hash(ledger@.skip(i as int), key@),
        decreases ledger@.len() - i,
    {
        proof {
            assert(ledger@.skip(i as int).drop_first() =~= ledger@.skip(i + 1));
        }
        if ledger[i].change_name == *key {
            return Some(ledger[i].content_hash);
        }
        i = i + 1;
    }
    None
}

/// Reports content drift: the units, given as key and current SQL text, whose
/// text differs from what was applied. Nothing here re-applies them.
pub fn detect_drift(current: &Vec<(String, String)>, ledger: &Vec<AppliedChange>) -> (r: Vec<String>)
    ensures
        string_views(r@) == drifted(
            current@.map_values(|p: (String, String)| (p.0@, p.1@)),
            ledger@,
        ),
{
    let ghost cv = current@.map_values(|p: (String, String)| (p.0@, p.1@));
    let mut out: Vec<String> = Vec::new();
    for i in 0..current.len()
        invariant
            cv == current@.map_values(|p: (String, String)| (p.0@, p.1@)),
            string_views(out@) == drifted(cv.take(i as int), ledger@),
    {
        proof {
            assert(cv.take(i + 1).drop_last() =~= cv.take(i as int));
        }
        let ghost o0 = out@;
        match find_recorded(ledger, &current[i].0) {
            Some(h) => {
                if h != content_hash(current[i].1.as_str()) {
                    out.push(current[i].0.clone());
                    proof {
                        assert(string_views(out@) =~= string_views(o0).push(current@[i as int].0@));
                    }
                }
            },
            None => {},
        }
    }
    proof {
        assert(cv.take(current@.len() as int) =~= cv);
    }
    out
}

/// Against an empty ledger the changeset is the whole desired order.
pub proof fn lemma_empty_ledger(desired: Seq<Seq<char>>)
    ensures
        outstanding(desired, seq![]) == desired,
    decreases desired.len(),
{
    if desired.len() > 0 {
        lemma_empty_ledger(desired.drop_last());
        assert(desired.drop_last().push(desired[desired.len() - 1]) =~= desired);
    }
}

proof fn lemma_outstanding_member(desired: Seq<Seq<char>>, applied: Seq<Seq<char>>, k: Seq<char>)
    ensures
        outstanding(desired, applied).contains(k) <==> desired.contains(k) && !applied.contains(k),
    decreases desired.len(),
{
    if desired.len() > 0 {
        let init = desired.drop_last();
        let last = desired[desired.len() - 1];
        lemma_outstanding_member(init, applied, k);
        let rest = outstanding(init, applied);
        if desired.contains(k) && k != last {
            let i = choose|i: int| 0 <= i < desired.len() && desired[i] == k;
            assert(init[i] == k);
        }
        if init.contains(k) {
            let i = choose|i: int| 0 <= i < init.len() && init[i] == k;
            assert(desired[i] == k);
        }
        if !applied.contains(last) {
            assert(rest.push(last)[rest.len() as int] == last);
            if rest.push(last).contains(k) && k != last {
                let i = choose|i: int| 0 <= i < rest.len() + 1 && rest.push(last)[i] == k;
                assert(rest[i] == k);
            }
            if rest.contains(k) {
                let i = choose|i: int| 0 <= i < rest.len() && rest[i] == k;
                assert(rest.push(last)[i] == k);
            }
        }
        assert(desired[desired.len() - 1] == last);
    }
}

proof fn lemma_nothing_outstanding(desired: Seq<Seq<char>>, applied: Seq<Seq<char>>)
    requires
        forall|i: int| 0 <= i < desired.len() ==> applied.contains(desired[i]),
    ensures
        outstanding(desired, applied) == Seq::<Seq<char>>::empty(),
    decreases desired.len(),
{
    if desired.len() > 0 {
        lemma_nothing_outstanding(desired.drop_last(), applied);
    }
}

/// Once a changeset has been applied and recorded, reconciling the same
/// desired order again yields nothing.
pub proof fn lemma_reconcile_idempotent(desired: Seq<Seq<char>>, applied: Seq<Seq<char>>)
    ensures
        outstanding(desired, applied + outstanding(desired, applied)) == Seq::<Seq<char>>::empty(),
{
    let done = outstanding(desired, applied);
    let ledger = applied + done;
    assert forall|i: int| 0 <= i < desired.len() implies ledger.contains(desired[i]) by {
        let k = desired[i];
        assert(desired.contains(k));
        if applied.contains(k) {
            let j = choose|j: int| 0 <= j < applied.len() && applied[j] == k;
            assert(ledger[j] == k);
        } else {
            lemma_outstanding_member(desired, applied, k);
            let j = choose|j: int| 0 <= j < done.len() && done[j] == k;
            assert(ledger[applied.len() + j] == k);
        }
    }
    lemma_nothing_outstanding(desired, ledger);
}

/// `sub` sits in `full` at the strictly increasing positions `pos`.
pub open spec fn embeds_at(pos: Seq<int>, sub: Seq<Seq<char>>, full: Seq<Seq<char>>) -> bool {
    &&& pos.len() == sub.len()
    &&& forall|t: int| 0 <= t < pos.len() ==> 0 <= #[trigger] pos[t] < full.len() && full[pos[t]] == sub[t]
    &&& forall|s: int, t: int| 0 <= s < t < pos.len() ==> pos[s] < pos[t]
}

/// The changeset keeps the desired order: its keys sit at strictly increasing
/// positions of the desired order.
pub proof fn lemma_changeset_keeps_order(desired: Seq<Seq<char>>, applied: Seq<Seq<char>>)
    ensures
        exists|pos: Seq<int>| embeds_at(pos, outstanding(desired, applied), desired),
    decreases desired.len(),
{
    if desired.len() == 0 {
        assert(embeds_at(Seq::<int>::empty(), outstanding(desired, applied), desired));
    } else {
        let init = desired.drop_last();
        lemma_changeset_keeps_order(init, applied);
        let pos0 = choose|pos: Seq<int>| embeds_at(pos, outstanding(init, applied), init);
        if applied.contains(desired[desired.len() - 1]) {
            assert forall|t: int| 0 <= t < pos0.len() implies 0 <= #[trigger] pos0[t] < desired.len()
                && desired[pos0[t]] == outstanding(desired, applied)[t] by {
                assert(init[pos0[t]] == desired[pos0[t]]);
            }
            assert(embeds_at(pos0, outstanding(desired, applied), desired));
        } else {
            let pos = pos0.push(desired.len() - 1);
            assert forall|t: int| 0 <= t < pos.len() implies 0 <= #[trigger] pos[t] < desired.len()
                && desired[pos[t]] == outstanding(desired, applied)[t] by {
                if t < pos0.len() {
                    assert(pos[t] == pos0[t]);
                    assert(init[pos0[t]] == desired[pos0[t]]);
                }
            }
            assert forall|s: int, t: int| 0 <= s < t < pos.len() implies pos[s] < pos[t] by {
                if t == pos0.len() {
                    assert(pos0[s] < init.len());
                } else {
                    assert(pos[s] == pos0[s] && pos[t] == pos0[t]);
                }
            }
            assert(embeds_at(pos, outstanding(desired, applied), desired));
        }
    }
}

} // verus!
