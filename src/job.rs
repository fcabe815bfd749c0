//! The job record discovered in a configuration document.
use vstd::prelude::*;

use crate::text::{chars_of, string_of};

verus! {

/// One pipeline job definition: its name and the documentation block that
/// preceded it, if any.
#[derive(Clone, Debug)]
pub struct Job {
    pub name: String,
    pub doc: Option<String>,
}

/// The mathematical model of a `Job`.
pub struct JobView {
    pub name: Seq<char>,
    pub doc: Option<Seq<char>>,
}

impl View for Job {
    type V = JobView;

    open spec fn view(&self) -> JobView {
        JobView {
            name: self.name@,
            doc: match &self.doc {
                Some(d) => Some(d@),
                None => None,
            },
        }
    }
}

impl JobView {
    /// A hidden job (a template) is one whose name starts with a dot.
    pub open spec fn hidden(self) -> bool {
        self.name.len() > 0 && self.name[0] == '.'
    }

    pub open spec fn documented(self) -> bool {
        self.doc is Some
    }

    /// The markdown of one job: a level-one heading with the name as inline
    /// code, then a blank line and the documentation verbatim, if any.
    pub open spec fn markdown(self) -> Seq<char> {
        let heading = seq!['#', ' ', '`'] + self.name + seq!['`'];
        match self.doc {
            Some(d) => heading + seq!['\n', '\n'] + d,
            None => heading,
        }
    }
}

/// Appends the characters of `src` to `buf`.
pub(crate) fn push_all(buf: &mut Vec<char>, src: &Vec<char>)
    ensures
        final(buf)@ == old(buf)@ + src@,
{
    let ghost start = buf@;
    let mut i: usize = 0;
    while i < src.len()
        invariant
            i <= src.len(),
            buf@ == start + src@.take(i as int),
        decreases src.len() - i,
    {
        buf.push(src[i]);
        i = i + 1;
        assert(buf@ =~= start + src@.take(i as int));
    }
    assert(src@.take(src.len() as int) =~= src@);
}

impl Job {
    /// Whether the job is a hidden (template) job.
    pub fn is_hidden(&self) -> (r: bool)
        ensures
            r == self@.hidden(),
    {
        let cs = chars_of(self.name.as_str());
        cs.len() > 0 && cs[0] == '.'
    }

    /// Whether the job carries documentation.
    pub fn is_documented(&self) -> (r: bool)
        ensures
            r == self@.documented(),
    {
        self.doc.is_some()
    }

    /// Appends the markdown of the job to `buf`.
    pub(crate) fn render_into(&self, buf: &mut Vec<char>)
        ensures
            final(buf)@ == old(buf)@ + self@.markdown(),
    {
        let ghost start = buf@;
        buf.push('#');
        buf.push(' ');
        buf.push('`');
        push_all(buf, &chars_of(self.name.as_str()));
        buf.push('`');
        assert(buf@ =~= start + (seq!['#', ' ', '`'] + self@.name + seq!['`']));
        if let Some(d) = &self.doc {
            let ghost mid = buf@;
            buf.push('\n');
            buf.push('\n');
            push_all(buf, &chars_of(d.as_str()));
            assert(buf@ =~= mid + seq!['\n', '\n'] + d@);
        }
        assert(buf@ =~= start + self@.markdown());
    }

    /// The markdown of the job: a level-one heading with the name as inline
    /// code, then a blank line and the documentation, if any.
    pub fn render(&self) -> (r: String)
        ensures
            r@ == self@.markdown(),
    {
        let mut buf: Vec<char> = Vec::new();
        self.render_into(&mut buf);
        assert(buf@ =~= self@.markdown());
        string_of(&buf)
    }
}

} // verus!
