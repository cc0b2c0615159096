//! One user command carried out against a store: the chosen operation, the
//! exact lines it prints, its exit status, and whether the store must be
//! saved afterwards.

use vstd::prelude::*;
use crate::store::MarkerStore;

verus! {

/// One parsed invocation of the tool.
pub enum Request {
    SetMarker { flag: String, directory: String },
    DeleteMarker { flag: Option<String>, recursive: bool },
    RetrieveMarker { flag: String },
    ListMarkers,
}

/// What carrying a command out produced. `out` goes to standard output,
/// `err` to standard error; a non-zero `exit_code` reports failure; the store
/// is written back exactly when `save_needed` holds.
pub struct Outcome {
    pub out: Vec<String>,
    pub err: Vec<String>,
    pub exit_code: u8,
    pub save_needed: bool,
}

/// The confirmation printed after a marker is set.
pub open spec fn msg_set(flag: Seq<char>, directory: Seq<char>) -> Seq<char> {
    "Set marker: "@ + flag + " -> "@ + directory
}

/// The confirmation printed after a marker is deleted.
pub open spec fn msg_deleted(flag: Seq<char>) -> Seq<char> {
    "Deleted marker '"@ + flag + "'"@
}

/// The notice printed when a named marker is not set.
pub open spec fn msg_not_exist(flag: Seq<char>) -> Seq<char> {
    "Marker '"@ + flag + "' does not exist"@
}

/// One line of the listing.
pub open spec fn msg_list_entry(flag: Seq<char>, directory: Seq<char>) -> Seq<char> {
    flag + " -> "@ + directory
}

/// The confirmation printed after a recursive delete.
pub open spec fn msg_deleted_all() -> Seq<char> {
    "Deleted all markers"@
}

/// The notice printed when the listing is empty.
pub open spec fn msg_no_markers() -> Seq<char> {
    "No markers set."@
}

/// The error printed when a delete names no flag and is not recursive.
pub open spec fn msg_delete_needs_arg() -> Seq<char> {
    "Either a flag or recursive must be specified"@
}

/// The error printed when a set names an empty flag.
pub open spec fn msg_empty_flag() -> Seq<char> {
    "Error: A non-empty flag is required to set a marker"@
}

/// An outcome of one standard-output line.
fn outcome_out(line: String, save_needed: bool) -> (o: Outcome)
    ensures
        o.out@.len() == 1,
        o.out@[0]@ == line@,
        o.err@.len() == 0,
        o.exit_code == 0,
        o.save_needed == save_needed,
{
    let mut out: Vec<String> = Vec::new();
    out.push(line);
    Outcome { out, err: Vec::new(), exit_code: 0, save_needed }
}

/// An outcome of one standard-error line and a failing exit status.
fn outcome_err(line: String) -> (o: Outcome)
    ensures
        o.out@.len() == 0,
        o.err@.len() == 1,
        o.err@[0]@ == line@,
        o.exit_code != 0,
        !o.save_needed,
{
    let mut err: Vec<String> = Vec::new();
    err.push(line);
    Outcome { out: Vec::new(), err, exit_code: 1, save_needed: false }
}

/// The rendered "does not exist" notice for a flag.
fn render_not_exist(flag: &str) -> (m: String)
    ensures
        m@ == msg_not_exist(flag@),
{
    let mut m = String::from_str("Marker '");
    m.append(flag);
    m.append("' does not exist");
    m
}

/// Sets a marker and confirms it, or rejects an empty flag without touching
/// the store.
pub fn run_set(store: &mut MarkerStore, flag: String, directory: String) -> (o: Outcome)
    requires
        old(store).wf(),
    ensures
        final(store).wf(),
        flag@.len() > 0 ==> final(store)@ == old(store)@.insert(flag@, directory@)
            && o.out@.len() == 1 && o.out@[0]@ == msg_set(flag@, directory@)
            && o.err@.len() == 0 && o.exit_code == 0 && o.save_needed,
        flag@.len() == 0 ==> *final(store) == *old(store)
            && o.out@.len() == 0 && o.err@.len() == 1 && o.err@[0]@ == msg_empty_flag()
            && o.exit_code != 0 && !o.save_needed,
{
    if flag.as_str().is_empty() {
        return outcome_err(String::from_str(
            "Error: A non-empty flag is required to set a marker",
        ));
    }
    let mut m = String::from_str("Set marker: ");
    m.append(flag.as_str());
    m.append(" -> ");
    m.append(directory.as_str());
    store.set(flag, directory);
    outcome_out(m, true)
}

/// Deletes one marker or all of them. Deleting an absent flag is reported,
/// not an error; naming neither a flag nor recursive is rejected before any
/// mutation.
pub fn run_delete(store: &mut MarkerStore, flag: Option<String>, recursive: bool) -> (o: Outcome)
    requires
        old(store).wf(),
    ensures
        final(store).wf(),
        recursive ==> final(store)@ == Map::<Seq<char>, Seq<char>>::empty()
            && o.out@.len() == 1 && o.out@[0]@ == msg_deleted_all()
            && o.err@.len() == 0 && o.exit_code == 0 && o.save_needed,
        !recursive ==> match flag {
            Some(f) => {
                &&& final(store)@ == old(store)@.remove(f@)
                &&& o.out@.len() == 1
                &&& old(store)@.dom().contains(f@) ==> o.out@[0]@ == msg_deleted(f@)
                &&& !old(store)@.dom().contains(f@) ==> (o.out@[0]@ == msg_not_exist(f@)
                    && *final(store) == *old(store))
                &&& o.err@.len() == 0
                &&& o.exit_code == 0
                &&& o.save_needed
            },
            None => *final(store) == *old(store) && o.out@.len() == 0
                && o.err@.len() == 1 && o.err@[0]@ == msg_delete_needs_arg()
                && o.exit_code != 0 && !o.save_needed,
        },
{
    if recursive {
        store.clear();
        return outcome_out(String::from_str("Deleted all markers"), true);
    }
    match flag {
        Some(f) => {
            if store.delete_one(f.as_str()) {
                let mut m = String::from_str("Deleted marker '");
                m.append(f.as_str());
                m.append("'");
                outcome_out(m, true)
            } else {
                outcome_out(render_not_exist(f.as_str()), true)
            }
        },
        None => outcome_err(String::from_str(
            "Either a flag or recursive must be specified",
        )),
    }
}

/// Prints the path stored under a flag, or fails when none is.
pub fn run_retrieve(store: &MarkerStore, flag: String) -> (o: Outcome)
    requires
        store.wf(),
    ensures
        store@.dom().contains(flag@) ==> o.out@.len() == 1 && o.out@[0]@ == store@[flag@]
            && o.err@.len() == 0 && o.exit_code == 0 && !o.save_needed,
        !store@.dom().contains(flag@) ==> o.out@.len() == 0
            && o.err@.len() == 1 && o.err@[0]@ == msg_not_exist(flag@)
            && o.exit_code != 0 && !o.save_needed,
{
    match store.retrieve(flag.as_str()) {
        Some(p) => outcome_out(p, false),
        None => outcome_err(render_not_exist(flag.as_str())),
    }
}

/// Lists every marker in insertion order, or says that none are set.
pub fn run_list(store: &MarkerStore) -> (o: Outcome)
    requires
        store.wf(),
    ensures
        o.err@.len() == 0,
        o.exit_code == 0,
        !o.save_needed,
        store@ == Map::<Seq<char>, Seq<char>>::empty() ==> o.out@.len() == 1
            && o.out@[0]@ == msg_no_markers(),
        store@ != Map::<Seq<char>, Seq<char>>::empty() ==> o.out@.len()
            == store.entries_seq().len()
            && forall|i: int| 0 <= i < o.out@.len() ==> o.out@[i]@
                == msg_list_entry(store.entries_seq()[i].0, store.entries_seq()[i].1),
{
    proof {
        crate::store::lemma_map_of_empty(store.entries_seq());
        store.lemma_view_is_map_of();
    }
    let n = store.len();
    if n == 0 {
        return outcome_out(String::from_str("No markers set."), false);
    }
    let mut out: Vec<String> = Vec::new();
    let mut i: usize = 0;
    while i < n
        invariant
            i <= n,
            n == store.entries_seq().len(),
            store.wf(),
            out@.len() == i,
            forall|j: int| 0 <= j < i ==> out@[j]@
                == msg_list_entry(store.entries_seq()[j].0, store.entries_seq()[j].1),
        decreases n - i,
    {
        let pair = store.pair_at(i);
        let mut m = String::from_str(pair.0.as_str());
        m.append(" -> ");
        m.append(pair.1.as_str());
        out.push(m);
        i += 1;
    }
    Outcome { out, err: Vec::new(), exit_code: 0, save_needed: false }
}

/// Carries out one request against the store, as the four operations above
/// say, touching the store only where their contracts allow it.
pub fn run(store: &mut MarkerStore, req: Request) -> (o: Outcome)
    requires
        old(store).wf(),
    ensures
        final(store).wf(),
        match req {
            Request::SetMarker { flag, directory } => {
                &&& flag@.len() > 0 ==> final(store)@ == old(store)@.insert(flag@, directory@)
                    && o.out@.len() == 1 && o.out@[0]@ == msg_set(flag@, directory@)
                    && o.err@.len() == 0 && o.exit_code == 0 && o.save_needed
                &&& flag@.len() == 0 ==> *final(store) == *old(store)
                    && o.out@.len() == 0 && o.err@.len() == 1 && o.err@[0]@ == msg_empty_flag()
                    && o.exit_code != 0 && !o.save_needed
            },
            Request::DeleteMarker { flag, recursive } => {
                &&& recursive ==> final(store)@ == Map::<Seq<char>, Seq<char>>::empty()
                    && o.out@.len() == 1 && o.out@[0]@ == msg_deleted_all()
                    && o.err@.len() == 0 && o.exit_code == 0 && o.save_needed
                &&& !recursive ==> match flag {
                    Some(f) => {
                        &&& final(store)@ == old(store)@.remove(f@)
                        &&& o.out@.len() == 1
                        &&& old(store)@.dom().contains(f@) ==> o.out@[0]@ == msg_deleted(f@)
                        &&& !old(store)@.dom().contains(f@) ==> (o.out@[0]@ == msg_not_exist(f@)
                            && *final(store) == *old(store))
                        &&& o.err@.len() == 0
                        &&& o.exit_code == 0
                        &&& o.save_needed
                    },
                    None => *final(store) == *old(store) && o.out@.len() == 0
                        && o.err@.len() == 1 && o.err@[0]@ == msg_delete_needs_arg()
                        && o.exit_code != 0 && !o.save_needed,
                }
            },
            Request::RetrieveMarker { flag } => {
                &&& *final(store) == *old(store)
                &&& !o.save_needed
                &&& old(store)@.dom().contains(flag@) ==> o.out@.len() == 1
                    && o.out@[0]@ == old(store)@[flag@] && o.err@.len() == 0
                    && o.exit_code == 0
                &&& !old(store)@.dom().contains(flag@) ==> o.out@.len() == 0
                    && o.err@.len() == 1 && o.err@[0]@ == msg_not_exist(flag@)
                    && o.exit_code != 0
            },
            Request::ListMarkers => {
                &&& *final(store) == *old(store)
                &&& o.err@.len() == 0
                &&& o.exit_code == 0
                &&& !o.save_needed
                &&& old(store)@ == Map::<Seq<char>, Seq<char>>::empty() ==> o.out@.len() == 1
                    && o.out@[0]@ == msg_no_markers()
                &&& old(store)@ != Map::<Seq<char>, Seq<char>>::empty() ==> o.out@.len()
                    == old(store).entries_seq().len()
                    && forall|i: int| 0 <= i < o.out@.len() ==> o.out@[i]@
                        == msg_list_entry(
                            old(store).entries_seq()[i].0,
                            old(store).entries_seq()[i].1,
                        )
            },
        },
{
    match req {
        Request::SetMarker { flag, directory } => run_set(store, flag, directory),
        Request::DeleteMarker { flag, recursive } => run_delete(store, flag, recursive),
        Request::RetrieveMarker { flag } => run_retrieve(store, flag),
        Request::ListMarkers => run_list(store),
    }
}

} // verus!
