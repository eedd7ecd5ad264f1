//! The whole run: resolve the timezone, process the records, rank the
//! survivors, render the rows. Configuration errors are fatal;
//! per-record defects are silent exclusions inside the processor.

use vstd::prelude::*;
use crate::process::{RawMessage, ProcessedMessage, process_seq, process_messages};
use crate::rank::{ranked_prefix, rank_messages};
use crate::render::{RankedEntry, entry_matches, render_entries};
use crate::timezone::{TimezoneError, spec_resolve_timezone, resolve_timezone};

verus! {

/// The export document, as handed to the core: the channel identifier
/// and the full message history.
pub struct ChatExport {
    pub id: i64,
    pub messages: Vec<RawMessage>,
}

/// The ranked rows the run owes for an export, a target year, a
/// resolved offset and a limit.
pub open spec fn spec_ranked(
    export: ChatExport,
    target_year: int,
    offset: int,
    limit: int,
) -> Seq<ProcessedMessage> {
    ranked_prefix(process_seq(export.messages@, target_year, offset), limit)
}

/// Runs the full pipeline. Fails exactly when the timezone
/// specification does, with that error; otherwise returns one display
/// row per ranked message, ranks starting at 1.
pub fn run_pipeline(
    export: &ChatExport,
    target_year: i32,
    timezone_text: &Vec<u8>,
    limit: usize,
) -> (r: Result<Vec<RankedEntry>, TimezoneError>)
    ensures
        ({
            match spec_resolve_timezone(timezone_text@) {
                Result::Err(e) => r == Result::<Vec<RankedEntry>, TimezoneError>::Err(e),
                Result::Ok(off) => {
                    &&& r matches Result::Ok(rows)
                    &&& ({
                        let ranked = spec_ranked(*export, target_year as int, off as int,
                            limit as int);
                        &&& rows@.len() == ranked.len()
                        &&& forall|k: int|
                            0 <= k < rows@.len() ==> entry_matches(
                                #[trigger] rows@[k],
                                ranked[k],
                                export.id as int,
                                k + 1,
                            )
                    })
                },
            }
        }),
{
    match resolve_timezone(timezone_text) {
        Result::Err(e) => Result::Err(e),
        Result::Ok(off) => {
            let processed: Vec<ProcessedMessage> = process_messages(
                &export.messages,
                target_year,
                off,
            );
            let ranked: Vec<ProcessedMessage> = rank_messages(&processed, limit);
            let rows: Vec<RankedEntry> = render_entries(export.id, &ranked);
            Result::Ok(rows)
        },
    }
}

/// Idempotence: the pipeline's output is a function of its inputs
/// alone, so two runs on the same input and configuration carry
/// byte-identical rows.
pub proof fn lemma_output_deterministic(
    rows1: Seq<RankedEntry>,
    rows2: Seq<RankedEntry>,
    ranked: Seq<ProcessedMessage>,
    chan: int,
)
    requires
        rows1.len() == ranked.len(),
        rows2.len() == ranked.len(),
        forall|k: int|
            0 <= k < ranked.len() ==> entry_matches(#[trigger] rows1[k], ranked[k], chan, k + 1),
        forall|k: int|
            0 <= k < ranked.len() ==> entry_matches(#[trigger] rows2[k], ranked[k], chan, k + 1),
    ensures
        forall|k: int|
            0 <= k < ranked.len() ==> {
                &&& (#[trigger] rows1[k]).rank == rows2[k].rank
                &&& rows1[k].message_id == rows2[k].message_id
                &&& rows1[k].total_reactions == rows2[k].total_reactions
                &&& rows1[k].date_display@ == rows2[k].date_display@
                &&& rows1[k].link@ == rows2[k].link@
            },
{
}

} // verus!
