//! Pieces of work that are asked for by message.
use crate::polyphony::{is_max_voices, max_polyphony};
use crate::score::Score;
use crate::scroll::SplitOptions;
use crate::workflow::{arrange, arrange_outcome, export_outcome, scrolls, scrolls_outcome, source_export, WorkError, WorkResult};
use vstd::prelude::*;

verus! {

/// What is answered: a score that was read, or a piece of work that was done.
#[derive(Debug)]
pub enum JobResponse {
    Loaded { name: String, score: Score, notes: usize, polyphony: usize },
    Worked(WorkResult),
}

/// Answers with a score that was read, how many notes it has, and how many of them sound at
/// once.
pub fn loaded(name: String, score: Score) -> (r: JobResponse)
    ensures
        match r {
            JobResponse::Loaded { name: n, score: s, notes, polyphony } => {
                &&& n == name
                &&& s == score
                &&& notes == score@.notes().len()
                &&& is_max_voices(score@.notes(), polyphony as int)
            },
            JobResponse::Worked(_) => false,
        },
{
    let all = score.all_notes();
    let polyphony = max_polyphony(&all);
    JobResponse::Loaded { name, notes: all.len(), polyphony, score }
}

/// What is asked for: the files of a score that has been arranged, scrolls, or a score as it is.
#[derive(Debug)]
pub enum JobRequest {
    Arrange { score: Score, report: String, stem: String, track_files: bool },
    Split { score: Score, options: SplitOptions, stem: String },
    Export { score: Score, stem: String },
}

/// Whether a piece of work comes to what its request asks for.
pub open spec fn answers(request: JobRequest, r: Result<WorkResult, WorkError>) -> bool {
    match request {
        JobRequest::Arrange { score, report, stem, track_files } => arrange_outcome(
            score@,
            report@,
            stem@,
            track_files,
            r,
        ),
        JobRequest::Split { score, options, stem } => scrolls_outcome(score@, options, stem@, r),
        JobRequest::Export { score, stem } => export_outcome(score@, stem@, r),
    }
}

/// Does a piece of work that is asked for.
pub fn execute(request: JobRequest) -> (r: Result<JobResponse, WorkError>)
    ensures
        match r {
            Ok(JobResponse::Worked(work)) => answers(request, Ok(work)),
            Ok(JobResponse::Loaded { .. }) => false,
            Err(e) => answers(request, Err(e)),
        },
{
    let ghost asked = request;
    let done: Result<WorkResult, WorkError> = match request {
        JobRequest::Arrange { score, report, stem, track_files } => arrange(
            score,
            report,
            stem.as_str(),
            track_files,
        ),
        JobRequest::Split { score, options, stem } => scrolls(&score, &options, stem.as_str()),
        JobRequest::Export { score, stem } => source_export(&score, stem.as_str()),
    };
    proof {
        assert(answers(asked, done));
    }
    match done {
        Ok(work) => Ok(JobResponse::Worked(work)),
        Err(e) => Err(e),
    }
}

/// What a worker sent back: whether it went well, a result, and what went wrong.
pub struct WorkerReply<T> {
    pub ok: bool,
    pub result: Option<T>,
    pub error: Option<String>,
}

/// Reads what a worker sent back: the result where it went well and there is one, and else
/// what went wrong.
pub fn reply_result<T>(reply: WorkerReply<T>) -> (r: Result<T, String>)
    ensures
        reply.ok && reply.result is Some ==> r == Ok::<T, String>(reply.result->Some_0),
        reply.ok && reply.result is None ==> (r matches Err(e) && e@ == "작업 결과가 비어 있습니다"@),
        !reply.ok && reply.error is Some ==> r == Err::<T, String>(reply.error->Some_0),
        !reply.ok && reply.error is None ==> (r matches Err(e) && e@ == "작업을 완료하지 못했습니다"@),
{
    if reply.ok {
        match reply.result {
            Some(value) => Ok(value),
            None => Err("작업 결과가 비어 있습니다".to_owned()),
        }
    } else {
        match reply.error {
            Some(error) => Err(error),
            None => Err("작업을 완료하지 못했습니다".to_owned()),
        }
    }
}

} // verus!
