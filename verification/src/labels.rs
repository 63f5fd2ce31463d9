//! The label set carried by every counter series.
use vstd::prelude::*;
use vstd::string::StringExecFns;

verus! {

/// Labels of one counter series: the worker it belongs to and the static
/// deployment labels.
#[derive(Debug)]
pub struct Labels {
    pub worker_id: String,
    pub application: String,
    pub circuit: String,
    pub env: String,
    pub project: String,
}

impl Labels {
    /// The process-wide base labels: the worker is not yet known, and a
    /// missing application name falls back to `sleipnir`.
    pub fn new(application: Option<String>, circuit: String, env: String, project: String) -> (r:
        Labels)
        ensures
            r.worker_id@ == "unknown"@,
            r.application@ == (match application {
                Some(a) => a@,
                None => "sleipnir"@,
            }),
            r.circuit@ == circuit@,
            r.env@ == env@,
            r.project@ == project@,
    {
        let app = match application {
            Some(a) => a,
            None => String::from_str("sleipnir"),
        };
        Labels {
            worker_id: String::from_str("unknown"),
            application: app,
            circuit,
            env,
            project,
        }
    }

    /// The same deployment labels, bound to one worker.
    pub fn worker_id(&self, worker_id: String) -> (r: Labels)
        ensures
            r.worker_id@ == worker_id@,
            r.application@ == self.application@,
            r.circuit@ == self.circuit@,
            r.env@ == self.env@,
            r.project@ == self.project@,
    {
        Labels {
            worker_id,
            application: self.application.clone(),
            circuit: self.circuit.clone(),
            env: self.env.clone(),
            project: self.project.clone(),
        }
    }
}

} // verus!
