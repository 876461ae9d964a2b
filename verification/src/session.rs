//! One run from the list of candidates to the stored table, as a machine
//! that is told what happened outside and answers what to do next.

use crate::failure::Failure;
use crate::rank::{map_to_sorted_list, merge, merged, ranking};
use crate::store::{load_map, loaded, save_map, saved};
use crate::table::{recorded, update_used, UsageTable};
use crate::text::{join_lines, joined, lines_of, split_lines, string_texts, trim, trimmed};
use vstd::prelude::*;

verus! {

/// Where a run stands: what it waits for, and what it holds meanwhile.
pub enum Session {
    /// Waiting for the enumerator's output.
    Enumerating,
    /// Waiting for what is stored, with the candidates that were reported.
    Loading { fresh: Vec<String> },
    /// Waiting for the picker's output, with the table that was loaded.
    Presenting { table: UsageTable },
    /// Waiting for the selection to be written out.
    Reporting { table: UsageTable, selection: String },
    /// Waiting for the document to be stored.
    Saving,
    /// The run is over.
    Done,
    /// The run was given up.
    Failed { failure: Failure },
}

/// What happened outside since the last answer.
pub enum Event {
    /// The enumerator ran; this is its output.
    Enumerated { output: String },
    /// The store was read; `None` where there is none yet.
    Loaded { stored: Option<String> },
    /// The picker ran; this is its output.
    Picked { output: String },
    /// The selection was written out.
    Reported,
    /// The document was stored.
    Saved,
    /// What was asked for could not be done.
    Failed,
}

/// What is to be done outside next.
pub enum Action {
    /// Run the enumerator.
    Enumerate,
    /// Read what is stored.
    Load,
    /// Run the picker on this input.
    Present { input: String },
    /// Write the selection out.
    Report { selection: String },
    /// Store this document in place of the old one.
    Save { document: String },
    /// Nothing is left to do.
    Finish,
    /// Give up and tell why.
    Abort { failure: Failure },
}

/// The text of an optional string.
pub open spec fn optional_text(stored: Option<String>) -> Option<Seq<char>> {
    match stored {
        None => None,
        Some(text) => Some(text@),
    }
}

/// What the picker is given: the known identifiers by rank, then the
/// reported ones that are new, one on each line.
pub open spec fn picker_input(table: Map<Seq<char>, int>, fresh: Seq<Seq<char>>) -> Seq<char> {
    joined(merged(table, ranking(table), fresh))
}

/// The table after a selection: an empty selection leaves it as it is, any
/// other is counted as one more use.
pub open spec fn committed(table: Map<Seq<char>, int>, selection: Seq<char>) -> Map<
    Seq<char>,
    int,
> {
    if selection.len() == 0 {
        table
    } else {
        recorded(table, selection)
    }
}

/// The failure with which a run ends when the step it waits for does not
/// come to its end; a run that has failed keeps its failure, and one that is
/// done has none.
pub open spec fn pending_failure(state: Session) -> Option<Failure> {
    match state {
        Session::Enumerating => Some(Failure::SubprocessFailure),
        Session::Loading { .. } => Some(Failure::Corruption),
        Session::Presenting { .. } => Some(Failure::SubprocessFailure),
        Session::Reporting { .. } => Some(Failure::WriteFailure),
        Session::Saving => Some(Failure::WriteFailure),
        Session::Done => None,
        Session::Failed { failure } => Some(failure),
    }
}

/// Whether the run has been given up with this failure.
pub open spec fn gives_up(next: Session, action: Action, failure: Failure) -> bool {
    next == (Session::Failed { failure }) && action == (Action::Abort { failure })
}

/// Whether `next` and `action` are the answer to `event` in `state`. Every
/// step waits for one event; any other, [`Event::Failed`] among them, ends
/// the run with the failure of that step. A run that is over stays over.
pub open spec fn follows(state: Session, event: Event, next: Session, action: Action) -> bool {
    match (state, event) {
        (Session::Enumerating, Event::Enumerated { output }) => {
            &&& next matches Session::Loading { fresh }
            &&& string_texts(fresh@) == lines_of(output@)
            &&& action is Load
        },
        (Session::Loading { fresh }, Event::Loaded { stored }) => match loaded(
            optional_text(stored),
        ) {
            Some(known) => {
                &&& next matches Session::Presenting { table }
                &&& table@ == known
                &&& action matches Action::Present { input }
                &&& input@ == picker_input(known, string_texts(fresh@))
            },
            None => gives_up(next, action, Failure::Corruption),
        },
        (Session::Presenting { table }, Event::Picked { output }) => {
            &&& next matches Session::Reporting { table: kept, selection: held }
            &&& kept@ == table@
            &&& held@ == trimmed(output@)
            &&& action matches Action::Report { selection }
            &&& selection@ == trimmed(output@)
        },
        (Session::Reporting { table, selection }, Event::Reported) => match saved(
            committed(table@, selection@),
        ) {
            Some(text) => {
                &&& next is Saving
                &&& action matches Action::Save { document }
                &&& document@ == text
            },
            None => gives_up(next, action, Failure::WriteFailure),
        },
        (Session::Saving, Event::Saved) => next is Done && action is Finish,
        (state, _) => match pending_failure(state) {
            Some(failure) => gives_up(next, action, failure),
            None => next is Done && action is Finish,
        },
    }
}

impl Session {
    /// A new run, with the first thing to do.
    pub fn start() -> (r: (Session, Action))
        ensures
            r.0 is Enumerating,
            r.1 is Enumerate,
    {
        (Session::Enumerating, Action::Enumerate)
    }

    /// Takes what happened outside and answers what to do next.
    pub fn step(self, event: Event) -> (r: (Session, Action))
        ensures
            follows(self, event, r.0, r.1),
    {
        match (self, event) {
            (Session::Enumerating, Event::Enumerated { output }) => {
                let fresh = split_lines(output.as_str());
                (Session::Loading { fresh }, Action::Load)
            },
            (Session::Loading { fresh }, Event::Loaded { stored }) => {
                let loaded_table = match &stored {
                    Some(text) => load_map(Some(text.as_str())),
                    None => load_map(None),
                };
                match loaded_table {
                    Ok(table) => {
                        let input = {
                            let ranked = map_to_sorted_list(&table);
                            let list = merge(&table, ranked, &fresh);
                            join_lines(&list)
                        };
                        (Session::Presenting { table }, Action::Present { input })
                    },
                    Err(_) => give_up(Failure::Corruption),
                }
            },
            (Session::Presenting { table }, Event::Picked { output }) => {
                let selection = trim(output.as_str());
                let held = selection.clone();
                (Session::Reporting { table, selection: held }, Action::Report { selection })
            },
            (Session::Reporting { table, selection }, Event::Reported) => {
                let mut table = table;
                if !selection.as_str().is_empty() {
                    update_used(&mut table, selection.as_str());
                }
                match save_map(&table) {
                    Ok(document) => (Session::Saving, Action::Save { document }),
                    Err(_) => give_up(Failure::WriteFailure),
                }
            },
            (Session::Saving, Event::Saved) => (Session::Done, Action::Finish),
            (Session::Done, _) => (Session::Done, Action::Finish),
            (Session::Enumerating, _) => give_up(Failure::SubprocessFailure),
            (Session::Loading { .. }, _) => give_up(Failure::Corruption),
            (Session::Presenting { .. }, _) => give_up(Failure::SubprocessFailure),
            (Session::Reporting { .. }, _) => give_up(Failure::WriteFailure),
            (Session::Saving, _) => give_up(Failure::WriteFailure),
            (Session::Failed { failure }, _) => give_up(failure),
        }
    }
}

/// The answer that ends a run with a failure.
fn give_up(failure: Failure) -> (r: (Session, Action))
    ensures
        gives_up(r.0, r.1, failure),
{
    (Session::Failed { failure }, Action::Abort { failure })
}

} // verus!
