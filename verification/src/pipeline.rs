//! The two halves of a run, on either side of the workers: what to hand to
//! them, and what to make of what they hand back.

use crate::accumulate::{accumulated, dataset_models, mismatches, Accumulated};
use crate::batch::{batch_plan, build_batches, Batch};
use crate::dataset::{group_models, Dataset, DatasetModel, FilterModel, GroupModel, Provenance};
use crate::error::{FailureModel, FilterError};
use crate::script::{placeholder, render, substituted};
use crate::split::flattened;
use crate::worker::{
    all_succeeded, check_runs, contents, failure_of, is_first_failure, outputs_of, WorkerRun,
};
use vstd::prelude::*;

verus! {

/// How a dataset crosses over to a worker and back: the transport format.
///
/// The library promises nothing of an implementation, and is verified for
/// every one.
pub trait Filterer {
    /// The records that the datasets hold.
    type Record;

    /// Writes a dataset out as the payload of a script.
    fn to_python(fragment: &Dataset<Self::Record>) -> String;

    /// Reads a dataset back from what a worker wrote to standard output, or
    /// says why it is none.
    fn from_python(output: &[u8]) -> Result<Dataset<Self::Record>, String>;
}

/// The dataset that stands for one batch on its way to a worker: the batch
/// as its only group, under the given history and tag.
pub open spec fn fragment_of<R>(
    batch: GroupModel<R>,
    provenance: Seq<FilterModel>,
    typ: Seq<char>,
) -> DatasetModel<R> {
    DatasetModel { groups: seq![batch], provenance, typ }
}

/// `C` was handed a dataset that holds `fragment` and wrote `payload`.
pub open spec fn wrote<C: Filterer>(fragment: DatasetModel<C::Record>, payload: Seq<char>) -> bool {
    exists|piece: Dataset<C::Record>, text: String|
        piece@ == fragment && text@ == payload && #[trigger] call_ensures(
            C::to_python,
            (&piece,),
            text,
        )
}

/// `script` is `template` filled in with a payload that `C` wrote for
/// `fragment`.
pub open spec fn is_script_for<C: Filterer>(
    template: Seq<char>,
    fragment: DatasetModel<C::Record>,
    script: Seq<char>,
) -> bool {
    exists|payload: Seq<char>| #[trigger]
        wrote::<C>(fragment, payload) && script == substituted(template, placeholder(), payload)
}

/// `C` was handed `output` and gave back `outcome`.
pub open spec fn read<C: Filterer>(
    output: Seq<u8>,
    outcome: Result<Dataset<C::Record>, String>,
) -> bool {
    exists|bytes: &[u8]| bytes@ == output && #[trigger] call_ensures(
        C::from_python,
        (bytes,),
        outcome,
    )
}

/// `partials` are what `C` read from `outputs`, one from each, in order.
pub open spec fn read_all<C: Filterer>(
    outputs: Seq<Seq<u8>>,
    partials: Seq<Dataset<C::Record>>,
) -> bool {
    &&& partials.len() == outputs.len()
    &&& forall|i: int|
        0 <= i < outputs.len() ==> read::<C>(
            outputs[i],
            Ok::<Dataset<C::Record>, String>(#[trigger] partials[i]),
        )
}

/// `C` was handed `output` and read a dataset from it.
pub open spec fn was_read<C: Filterer>(output: Seq<u8>) -> bool {
    exists|partial: Dataset<C::Record>| #[trigger]
        read::<C>(output, Ok::<Dataset<C::Record>, String>(partial))
}

/// `C` was handed `output` and could not read it, and `error` carries what
/// it said of it.
pub open spec fn is_unreadable<C: Filterer>(output: Seq<u8>, error: FilterError) -> bool {
    exists|message: String|
        {
            &&& #[trigger] read::<C>(output, Err::<Dataset<C::Record>, String>(message))
            &&& error == (FilterError::Deserialization { message })
        }
}

/// `C` read a dataset from each of `outputs` up to one that it could not
/// read, and `error` carries what it said of that one.
pub open spec fn unreadable<C: Filterer>(outputs: Seq<Seq<u8>>, error: FilterError) -> bool {
    exists|at: int|
        {
            &&& 0 <= at < outputs.len()
            &&& #[trigger] is_unreadable::<C>(outputs[at], error)
            &&& forall|i: int| 0 <= i < at ==> was_read::<C>(#[trigger] outputs[i])
        }
}

impl<R> Dataset<R> {
    /// The dataset that stands for one batch on its way to a worker: the
    /// batch as its only group, under the given history and tag.
    pub fn fragment(provenance: &Provenance, typ: &String, batch: Batch<R>) -> (piece: Self)
        ensures
            piece@ == fragment_of(batch@, provenance@, typ@),
    {
        let mut piece = Dataset::new(provenance.clone(), typ.clone());
        let Batch { key, records } = batch;
        piece.extend_group(key, records);
        piece
    }
}

/// The script for one batch: the template filled in with the payload that
/// `C` writes for the batch's fragment.
pub fn script_for<C: Filterer>(
    provenance: &Provenance,
    typ: &String,
    batch: Batch<C::Record>,
    template: &str,
) -> (script: String)
    ensures
        is_script_for::<C>(template@, fragment_of(batch@, provenance@, typ@), script@),
{
    let piece = Dataset::fragment(provenance, typ, batch);
    let payload = C::to_python(&piece);
    let script = render(template, payload.as_str());
    assert(wrote::<C>(fragment_of(batch@, provenance@, typ@), payload@));
    script
}

/// The first half of a run: the scripts to hand to the workers, one for each
/// batch of the dataset, in the order of the batches. Each is the template
/// filled in with the payload that `C` writes for the batch's fragment.
///
/// A batch size of zero is refused before anything else is done.
pub fn prepare<C: Filterer>(
    dataset: Dataset<C::Record>,
    template: &str,
    batch_size: usize,
) -> (result: Result<Vec<String>, FilterError>)
    ensures
        result is Err <==> batch_size == 0,
        result matches Err(e) ==> e@ == FailureModel::InvalidBatchSize,
        result matches Ok(scripts) ==> {
            let batches = batch_plan(flattened(dataset@.groups), batch_size as nat);
            &&& scripts.len() == batches.len()
            &&& forall|i: int|
                0 <= i < scripts.len() ==> is_script_for::<C>(
                    template@,
                    fragment_of(batches[i], dataset@.provenance, dataset@.typ),
                    (#[trigger] scripts[i])@,
                )
        },
        result matches Ok(scripts) ==> (dataset@.groups.len() == 0 ==> scripts.len() == 0),
{
    if batch_size == 0 {
        return Err(FilterError::InvalidBatchSize);
    }
    let provenance = dataset.provenance().clone();
    let typ = dataset.typ().clone();
    let tagged = dataset.split();
    let batches = match build_batches(tagged, batch_size) {
        Ok(batches) => batches,
        Err(e) => { return Err(e); },
    };
    let ghost planned = batches@;
    let ghost plan = group_models(planned);
    let mut scripts: Vec<String> = Vec::new();
    for batch in walk: batches
        invariant
            walk.seq() == planned,
            plan == group_models(planned),
            scripts.len() == walk.index(),
            forall|i: int|
                0 <= i < scripts.len() ==> is_script_for::<C>(
                    template@,
                    fragment_of(plan[i], provenance@, typ@),
                    (#[trigger] scripts[i])@,
                ),
    {
        let script = script_for::<C>(&provenance, &typ, batch, template);
        scripts.push(script);
    }
    Ok(scripts)
}

/// Reads the output of one worker back into a dataset. Where `C` cannot read
/// it, the error carries what `C` said of it.
pub fn parse_output<C: Filterer>(output: &[u8]) -> (result: Result<
    Dataset<C::Record>,
    FilterError,
>)
    ensures
        result matches Ok(partial) ==> read::<C>(
            output@,
            Ok::<Dataset<C::Record>, String>(partial),
        ),
        result matches Err(e) ==> is_unreadable::<C>(output@, e),
{
    match C::from_python(output) {
        Ok(partial) => Ok(partial),
        Err(message) => {
            assert(read::<C>(output@, Err::<Dataset<C::Record>, String>(message)));
            Err(FilterError::Deserialization { message })
        },
    }
}

/// Reads the output of each worker back into a dataset, in order. The first
/// output that `C` cannot read ends the run, with what `C` said of it.
pub fn parse_outputs<C: Filterer>(
    outputs: Vec<Vec<u8>>,
) -> (result: Result<Vec<Dataset<C::Record>>, FilterError>)
    ensures
        result matches Ok(partials) ==> read_all::<C>(contents(outputs@), partials@),
        result matches Err(e) ==> unreadable::<C>(contents(outputs@), e),
        outputs.len() == 0 ==> result is Ok,
{
    let ghost all = outputs@;
    let ghost texts = contents(all);
    let mut partials: Vec<Dataset<C::Record>> = Vec::new();
    for output in walk: outputs
        invariant
            walk.seq() == all,
            texts == contents(all),
            read_all::<C>(texts.take(walk.index()), partials@),
    {
        let ghost at = walk.index();
        match parse_output::<C>(output.as_slice()) {
            Ok(partial) => {
                partials.push(partial);
            },
            Err(e) => {
                assert(is_unreadable::<C>(texts[at], e));
                assert forall|i: int| 0 <= i < at implies was_read::<C>(#[trigger] texts[i]) by {
                    assert(read::<C>(
                        texts.take(at)[i],
                        Ok::<Dataset<C::Record>, String>(partials@[i]),
                    ));
                }
                return Err(e);
            },
        }
    }
    Ok(partials)
}

/// The second half of a run: what the workers handed back, made into the
/// filtered dataset. It takes the runs of all workers: a worker that fails
/// does not stop the others, and all have finished by now.
///
/// Where a worker failed, the run fails with the script and the standard
/// error of the first that did, whatever the others wrote. Where all ended
/// well, each output is read back with `C`, and the partial results are
/// merged as [`Dataset::accumulate`] says; an output that `C` cannot read
/// ends the run.
pub fn finish<C: Filterer>(
    input: Dataset<C::Record>,
    runs: Vec<WorkerRun>,
) -> (result: Result<Accumulated<C::Record>, FilterError>)
    ensures
        !all_succeeded(runs@) ==> (result matches Err(e) && exists|at: int|
            is_first_failure(runs@, at) && e@ == failure_of(#[trigger] runs@[at])),
        all_succeeded(runs@) ==> match result {
            Ok(merged) => exists|partials: Seq<Dataset<C::Record>>|
                {
                    &&& #[trigger] read_all::<C>(outputs_of(runs@), partials)
                    &&& merged.dataset@ == accumulated(input@, dataset_models(partials))
                    &&& merged.warnings@ == mismatches(dataset_models(partials))
                },
            Err(e) => unreadable::<C>(outputs_of(runs@), e),
        },
        runs.len() == 0 ==> (result matches Ok(merged) && merged.dataset@ == input@
            && merged.warnings@.len() == 0),
{
    let outputs = match check_runs(runs) {
        Ok(outputs) => outputs,
        Err(e) => { return Err(e); },
    };
    let partials = match parse_outputs::<C>(outputs) {
        Ok(partials) => partials,
        Err(e) => { return Err(e); },
    };
    Ok(input.accumulate(partials))
}

} // verus!
