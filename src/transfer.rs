use vstd::prelude::*;

use crate::collect::views;

verus! {

broadcast use vstd::std_specs::vec::group_vec_axioms, vstd::seq::group_seq_axioms;

/// The final component that `std::path::Path::file_name` finds in a path.
pub uninterp spec fn file_name_of(path: Seq<char>) -> Option<Seq<char>>;

/// The path that `std::path::Path::join` builds from a directory and a name.
pub uninterp spec fn joined(dir: Seq<char>, name: Seq<char>) -> Seq<char>;

/// Relies on `std::path::Path::file_name`: the final component of the path,
/// if there is one.
#[verifier::external_body]
fn path_file_name(path: &str) -> (r: Option<String>)
    ensures
        r is None <==> file_name_of(path@) is None,
        r matches Some(n) ==> file_name_of(path@) == Some(n@),
{
    std::path::Path::new(path).file_name().map(|n| n.to_string_lossy().into_owned())
}

/// Relies on `std::path::Path::join`: the name appended to the directory.
#[verifier::external_body]
fn path_join(dir: &str, name: &str) -> (r: String)
    ensures
        r@ == joined(dir@, name@),
{
    std::path::Path::new(dir).join(name).to_string_lossy().into_owned()
}

/// One copy to make: from `source` to `destination`, which is the output
/// directory joined with the base name `name`.
pub struct CopyJob {
    pub source: String,
    pub destination: String,
    pub name: String,
}

/// A copy job, as values.
pub struct JobView {
    pub source: Seq<char>,
    pub destination: Seq<char>,
    pub name: Seq<char>,
}

impl View for CopyJob {
    type V = JobView;

    open spec fn view(&self) -> JobView {
        JobView { source: self.source@, destination: self.destination@, name: self.name@ }
    }
}

/// The copies that a batch of collected files asks for, and the files that
/// have no base name and so cannot be copied.
pub struct TransferPlan {
    pub jobs: Vec<CopyJob>,
    pub unnamed: Vec<String>,
}

/// The copy jobs, as values.
pub open spec fn job_views(v: Seq<CopyJob>) -> Seq<JobView> {
    v.map_values(|j: CopyJob| j@)
}

/// The copy job for one file, when it has a base name.
pub open spec fn job_for(source: Seq<char>, output_loc: Seq<char>) -> Option<JobView> {
    match file_name_of(source) {
        Some(name) => Some(
            JobView { source, destination: joined(output_loc, name), name },
        ),
        None => None,
    }
}

/// The copy jobs for the files, in their order.
pub open spec fn planned_jobs(files: Seq<Seq<char>>, output_loc: Seq<char>) -> Seq<JobView>
    decreases files.len(),
{
    if files.len() == 0 {
        seq![]
    } else {
        let rest = planned_jobs(files.drop_last(), output_loc);
        match job_for(files.last(), output_loc) {
            Some(j) => rest.push(j),
            None => rest,
        }
    }
}

/// The files without a base name, in their order.
pub open spec fn unnamed_files(files: Seq<Seq<char>>) -> Seq<Seq<char>>
    decreases files.len(),
{
    if files.len() == 0 {
        seq![]
    } else {
        let rest = unnamed_files(files.drop_last());
        if file_name_of(files.last()) is None {
            rest.push(files.last())
        } else {
            rest
        }
    }
}

/// Plans one copy for each file into the output directory, under the file's
/// base name; a file without a base name is set aside.
pub fn plan_transfers(files: &Vec<String>, output_loc: &str) -> (r: TransferPlan)
    ensures
        job_views(r.jobs@) == planned_jobs(views(files@), output_loc@),
        views(r.unnamed@) == unnamed_files(views(files@)),
{
    let mut plan = TransferPlan { jobs: Vec::new(), unnamed: Vec::new() };
    let mut i: usize = 0;
    while i < files.len()
        invariant
            i <= files@.len(),
            job_views(plan.jobs@) == planned_jobs(views(files@.subrange(0, i as int)), output_loc@),
            views(plan.unnamed@) == unnamed_files(views(files@.subrange(0, i as int))),
        decreases files@.len() - i,
    {
        let ghost done = views(files@.subrange(0, i as int + 1));
        assert(done.drop_last() =~= views(files@.subrange(0, i as int)));
        assert(done.last() == files@[i as int]@);
        let source = &files[i];
        match path_file_name(source.as_str()) {
            Some(name) => {
                let destination = path_join(output_loc, name.as_str());
                let job = CopyJob { source: source.clone(), destination, name };
                plan.jobs.push(job);
                assert(job_views(plan.jobs@) =~= planned_jobs(done, output_loc@));
            },
            None => {
                plan.unnamed.push(source.clone());
                assert(views(plan.unnamed@) =~= unnamed_files(done));
            },
        }
        i = i + 1;
    }
    assert(files@.subrange(0, files@.len() as int) =~= files@);
    plan
}

/// The state of a session: where copies go, and the base names of the files
/// copied so far, oldest first.
pub struct AppState {
    pub output_loc: String,
    pub transferred_files: Vec<String>,
}

impl AppState {
    /// A fresh session: copies go to the current directory, nothing copied yet.
    pub fn new() -> (r: AppState)
        ensures
            r.output_loc@ == seq!['.', '/'],
            r.transferred_files@.len() == 0,
    {
        let output_loc = String::from_str("./");
        proof {
            reveal_strlit("./");
        }
        AppState { output_loc, transferred_files: Vec::new() }
    }

    /// Sends later copies to `path`; the log is kept.
    pub fn set_output_loc(&mut self, path: String)
        ensures
            final(self).output_loc@ == path@,
            final(self).transferred_files@ == old(self).transferred_files@,
    {
        self.output_loc = path;
    }

    /// Records the outcome of one copy: its base name joins the log when the
    /// copy succeeded, and only then.
    pub fn record_copy(&mut self, job: &CopyJob, copied: bool)
        ensures
            final(self).output_loc@ == old(self).output_loc@,
            views(final(self).transferred_files@) == if copied {
                views(old(self).transferred_files@).push(job.name@)
            } else {
                views(old(self).transferred_files@)
            },
    {
        if copied {
            self.transferred_files.push(job.name.clone());
            assert(views(self.transferred_files@) =~= views(old(self).transferred_files@).push(job.name@));
        }
    }
}

impl Default for AppState {
    fn default() -> (r: AppState)
        ensures
            r.output_loc@ == seq!['.', '/'],
            r.transferred_files@.len() == 0,
    {
        AppState::new()
    }
}

} // verus!
