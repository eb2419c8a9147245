//! The revocation-queue flush stub. It partitions a batch of identifiers
//! into flushed and failed by string rules alone: an identifier is trimmed,
//! an empty one fails under a marker, a duplicate of an already flushed one
//! fails, and one carrying the `fail-` prefix fails. Nothing is verified
//! against any external system; this is test scaffolding by design.

use vstd::prelude::*;

use crate::text::has_fail_prefix;
use crate::text::starts_with_fail;
use crate::text::trim_spec;
use crate::text::trim_str;

verus! {

/// The two halves of a flushed batch, in the order the identifiers came.
pub struct FlushRevocationResult {
    pub flushed_ids: Vec<String>,
    pub failed_ids: Vec<String>,
}

/// The marker recorded for an identifier that trimmed to nothing.
pub open spec fn empty_marker() -> Seq<char> {
    "<empty>"@
}

/// One pass over the remaining identifiers, extending the two accumulators
/// by the string rules.
pub open spec fn flush_step(
    flushed: Seq<Seq<char>>,
    failed: Seq<Seq<char>>,
    ids: Seq<Seq<char>>,
) -> (Seq<Seq<char>>, Seq<Seq<char>>)
    decreases ids.len(),
{
    if ids.len() == 0 {
        (flushed, failed)
    } else {
        let t = trim_spec(ids[0]);
        let rest = ids.drop_first();
        if t.len() == 0 {
            flush_step(flushed, failed.push(empty_marker()), rest)
        } else if flushed.contains(t) {
            flush_step(flushed, failed.push(t), rest)
        } else if has_fail_prefix(t) {
            flush_step(flushed, failed.push(t), rest)
        } else {
            flush_step(flushed.push(t), failed, rest)
        }
    }
}

/// The partition of a whole batch, starting from empty accumulators.
pub open spec fn flush_spec(ids: Seq<Seq<char>>) -> (Seq<Seq<char>>, Seq<Seq<char>>) {
    flush_step(Seq::empty(), Seq::empty(), ids)
}

/// Whether one of the strings in `v` has exactly the contents of `s`.
fn contains_string(v: &Vec<String>, s: &String) -> (r: bool)
    ensures
        r == v.deep_view().contains(s@),
{
    let n = v.len();
    let mut i: usize = 0;
    while i < n
        invariant
            i <= n,
            n == v@.len(),
            forall|k: int| 0 <= k < i ==> v.deep_view()[k] != s@,
        decreases n - i,
    {
        let e = &v[i];
        if *e == *s {
            proof {
                assert(v.deep_view()[i as int] == s@);
            }
            return true;
        }
        i = i + 1;
    }
    false
}

/// Partition a batch of revocation identifiers into flushed and failed.
pub fn flush_revocation_queue(revocation_ids: Vec<String>) -> (r: FlushRevocationResult)
    ensures
        r.flushed_ids.deep_view() == flush_spec(revocation_ids.deep_view()).0,
        r.failed_ids.deep_view() == flush_spec(revocation_ids.deep_view()).1,
{
    let ghost all: Seq<Seq<char>> = revocation_ids.deep_view();
    let mut flushed_ids: Vec<String> = Vec::new();
    let mut failed_ids: Vec<String> = Vec::new();
    let n = revocation_ids.len();
    let mut i: usize = 0;
    proof {
        assert(flushed_ids.deep_view() =~= Seq::<Seq<char>>::empty());
        assert(failed_ids.deep_view() =~= Seq::<Seq<char>>::empty());
        assert(all.skip(0) =~= all);
    }
    while i < n
        invariant
            i <= n,
            n == revocation_ids@.len(),
            all == revocation_ids.deep_view(),
            flush_step(flushed_ids.deep_view(), failed_ids.deep_view(), all.skip(i as int))
                == flush_spec(all),
        decreases n - i,
    {
        let ghost old_flushed = flushed_ids.deep_view();
        let ghost old_failed = failed_ids.deep_view();
        let rid = &revocation_ids[i];
        proof {
            assert(all[i as int] == rid@);
            assert(all.skip(i as int)[0] == all[i as int]);
            assert(all.skip(i as int).drop_first() =~= all.skip(i + 1));
        }
        let normalized = trim_str(rid.as_str());
        if normalized.as_str().is_empty() {
            failed_ids.push(String::from_str("<empty>"));
            proof {
                assert(failed_ids.deep_view() =~= old_failed.push(empty_marker()));
            }
        } else if contains_string(&flushed_ids, &normalized) {
            failed_ids.push(normalized);
            proof {
                assert(failed_ids.deep_view() =~= old_failed.push(trim_spec(rid@)));
            }
        } else if starts_with_fail(normalized.as_str()) {
            failed_ids.push(normalized);
            proof {
                assert(failed_ids.deep_view() =~= old_failed.push(trim_spec(rid@)));
            }
        } else {
            flushed_ids.push(normalized);
            proof {
                assert(flushed_ids.deep_view() =~= old_flushed.push(trim_spec(rid@)));
            }
        }
        i = i + 1;
    }
    proof {
        assert(all.skip(n as int) =~= Seq::<Seq<char>>::empty());
    }
    FlushRevocationResult { flushed_ids, failed_ids }
}

} // verus!
