//! `projects`: the columns of the project table.
use vstd::prelude::*;
use crate::api::Project;

verus! {

/// The names of the projects, in order.
pub fn project_names(projects: &[Project]) -> (r: Vec<String>)
    ensures
        r@.len() == projects@.len(),
        forall|i: int| 0 <= i < r@.len() ==> #[trigger] r@[i] == projects@[i].name,
{
    let mut out: Vec<String> = Vec::new();
    let n = projects.len();
    let mut i: usize = 0;
    while i < n
        invariant
            n == projects@.len(),
            i <= n,
            out@.len() == i,
            forall|j: int| 0 <= j < i ==> #[trigger] out@[j] == projects@[j].name,
        decreases n - i,
    {
        out.push(projects[i].name.clone());
        i = i + 1;
    }
    out
}

/// The slugs of the projects, in order.
pub fn project_slugs(projects: &[Project]) -> (r: Vec<String>)
    ensures
        r@.len() == projects@.len(),
        forall|i: int| 0 <= i < r@.len() ==> #[trigger] r@[i] == projects@[i].slug,
{
    let mut out: Vec<String> = Vec::new();
    let n = projects.len();
    let mut i: usize = 0;
    while i < n
        invariant
            n == projects@.len(),
            i <= n,
            out@.len() == i,
            forall|j: int| 0 <= j < i ==> #[trigger] out@[j] == projects@[j].slug,
        decreases n - i,
    {
        out.push(projects[i].slug.clone());
        i = i + 1;
    }
    out
}

} // verus!
