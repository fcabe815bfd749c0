//! Rendering the selected jobs as one markdown document.
use vstd::prelude::*;

use crate::job::{Job, JobView};
use crate::parse::views;

verus! {

/// The markdown of the jobs in order, separated by one blank line.
pub open spec fn markdown_of(s: Seq<JobView>) -> Seq<char>
    decreases s.len(),
{
    if s.len() == 0 {
        Seq::empty()
    } else if s.len() == 1 {
        s[0].markdown()
    } else {
        markdown_of(s.drop_last()) + seq!['\n', '\n'] + s.last().markdown()
    }
}

/// Renders the jobs, in the given order, as one markdown document.
pub fn generate_markdown(jobs: &Vec<Job>) -> (r: String)
    ensures
        r@ == markdown_of(views(jobs@)),
{
    let mut buf: Vec<char> = Vec::new();
    let mut i: usize = 0;
    while i < jobs.len()
        invariant
            i <= jobs.len(),
            buf@ == markdown_of(views(jobs@).take(i as int)),
        decreases jobs.len() - i,
    {
        let ghost s = views(jobs@);
        let ghost before = buf@;
        assert(s.take(i + 1).drop_last() =~= s.take(i as int));
        if i > 0 {
            buf.push('\n');
            buf.push('\n');
        }
        jobs[i].render_into(&mut buf);
        if i > 0 {
            assert(buf@ =~= before + seq!['\n', '\n'] + s[i as int].markdown());
        } else {
            assert(buf@ =~= s.take(1)[0].markdown());
        }
        i = i + 1;
    }
    assert(views(jobs@).take(jobs.len() as int) =~= views(jobs@));
    crate::text::string_of(&buf)
}

/// The document for the selected jobs, or `None` when nothing is selected and
/// there is nothing to generate.
pub fn render_selection(jobs: &Vec<Job>) -> (r: Option<String>)
    ensures
        jobs@.len() == 0 <==> r is None,
        r matches Some(md) ==> md@ == markdown_of(views(jobs@)),
{
    if jobs.len() == 0 {
        None
    } else {
        Some(generate_markdown(jobs))
    }
}

} // verus!
