//! Iteration records: each child of a multi-iteration run reports its five
//! fixed metrics over the wire; the parent drains the buffer after the child
//! has exited and appends one fresh record per iteration, strictly in order.

use vstd::prelude::*;

use crate::error::HarnessError;
use crate::metrics::Metrics;
use crate::statsd::{apply_telemetry, split_on, telemetry_fold, telemetry_ok};

verus! {

/// Parse one child's drained telemetry into a fresh record and append it:
/// after N successful calls on an empty vector there are exactly N records.
pub fn push_iteration(iterations: &mut Vec<Metrics>, telemetry: &[u8]) -> (r: Result<
    (),
    HarnessError,
>)
    ensures
        (r is Ok) == telemetry_ok(split_on(telemetry@, 10u8)),
        r is Ok ==> {
            &&& final(iterations)@.len() == old(iterations)@.len() + 1
            &&& forall|i: int|
                0 <= i < old(iterations)@.len() ==> final(iterations)@[i] == old(iterations)@[i]
            &&& final(iterations)@.last().wf()
            &&& final(iterations)@.last().as_map() == telemetry_fold(
                Map::<Seq<u8>, crate::metrics::MetricValue>::empty(),
                split_on(telemetry@, 10u8),
            )
        },
        r is Err ==> {
            &&& r == Err::<(), HarnessError>(HarnessError::MalformedTelemetry)
            &&& *final(iterations) == *old(iterations)
        },
{
    let mut record = Metrics::new();
    match apply_telemetry(&mut record, telemetry) {
        Ok(()) => {
            let ghost pre = iterations@;
            iterations.push(record);
            proof {
                assert(iterations@.drop_last() =~= pre);
            }
            Ok(())
        },
        Err(e) => Err(e),
    }
}

} // verus!
