use vstd::prelude::*;
use crate::registry::Mark;

verus! {

/// The names bound directly in one lexical region, and the mark of that region.
/// A binding declared here carries the tag `[mark]`.
#[derive(Debug)]
pub struct Frame {
    pub mark: Mark,
    pub names: Vec<String>,
}

impl View for Frame {
    type V = (Mark, Seq<Seq<char>>);

    open spec fn view(&self) -> (Mark, Seq<Seq<char>>) {
        (self.mark, self.names@.map_values(|s: String| s@))
    }
}

/// The chain of frames active during resolution, innermost last. It lives only
/// while a tree is being resolved.
#[derive(Debug)]
pub struct ScopeStack {
    pub frames: Vec<Frame>,
}

impl View for ScopeStack {
    type V = Seq<(Mark, Seq<Seq<char>>)>;

    open spec fn view(&self) -> Seq<(Mark, Seq<Seq<char>>)> {
        self.frames@.map_values(|f: Frame| f@)
    }
}

/// Why resolution stopped.
#[derive(Clone, Copy, Debug, PartialEq, Eq, Structural)]
pub enum ResolutionError {
    /// A name was declared twice directly in one region.
    DuplicateBinding,
    /// The registry has no mark left to hand out.
    MarksExhausted,
}

/// The tag a reference named `name` receives: that of the innermost frame
/// binding the name, or the empty tag if no frame does.
pub open spec fn lookup_tag(frames: Seq<(Mark, Seq<Seq<char>>)>, name: Seq<char>) -> Seq<Mark>
    decreases frames.len(),
{
    if frames.len() == 0 {
        seq![]
    } else if frames.last().1.contains(name) {
        seq![frames.last().0]
    } else {
        lookup_tag(frames.drop_last(), name)
    }
}

/// The frames after `name` is bound in the innermost one.
pub open spec fn bind_top(frames: Seq<(Mark, Seq<Seq<char>>)>, name: Seq<char>) -> Seq<
    (Mark, Seq<Seq<char>>),
> {
    frames.drop_last().push((frames.last().0, frames.last().1.push(name)))
}

/// Whether a new binding of `name` may be added to the innermost frame.
pub open spec fn can_bind(frames: Seq<(Mark, Seq<Seq<char>>)>, name: Seq<char>) -> bool {
    frames.len() > 0 && !frames.last().1.contains(name)
}

fn frame_has(names: &Vec<String>, name: &String) -> (r: bool)
    ensures
        r == names@.map_values(|s: String| s@).contains(name@),
{
    let ghost view = names@.map_values(|s: String| s@);
    let mut i: usize = 0;
    while i < names.len()
        invariant
            i <= names.len(),
            view == names@.map_values(|s: String| s@),
            forall|j: int| 0 <= j < i ==> view[j] != name@,
        decreases names.len() - i,
    {
        if names[i] == *name {
            assert(view[i as int] == name@);
            return true;
        }
        i = i + 1;
    }
    proof {
        if view.contains(name@) {
            let k = choose|k: int| 0 <= k < view.len() && view[k] == name@;
            assert(view[k] != name@);
        }
    }
    false
}

impl ScopeStack {
    pub fn new() -> (r: ScopeStack)
        ensures
            r@ == Seq::<(Mark, Seq<Seq<char>>)>::empty(),
    {
        let r = ScopeStack { frames: Vec::new() };
        assert(r@ =~= Seq::<(Mark, Seq<Seq<char>>)>::empty());
        r
    }

    /// Opens a region whose bindings carry the tag `[mark]`.
    pub fn push_frame(&mut self, mark: Mark)
        ensures
            final(self)@ == old(self)@.push((mark, Seq::<Seq<char>>::empty())),
    {
        let f = Frame { mark, names: Vec::new() };
        assert(f@.1 =~= Seq::<Seq<char>>::empty());
        self.frames.push(f);
        assert(final(self)@ =~= old(self)@.push((mark, Seq::<Seq<char>>::empty())));
    }

    /// Closes the innermost region.
    pub fn pop_frame(&mut self)
        requires
            old(self)@.len() > 0,
        ensures
            final(self)@ == old(self)@.drop_last(),
    {
        let _ = self.frames.pop();
        assert(final(self)@ =~= old(self)@.drop_last());
    }

    /// The mark of the innermost region.
    pub fn top_mark(&self) -> (r: Mark)
        requires
            self@.len() > 0,
        ensures
            r == self@.last().0,
    {
        self.frames[self.frames.len() - 1].mark
    }

    /// The tag a reference to `name` receives here.
    pub fn lookup(&self, name: &String) -> (r: Vec<Mark>)
        ensures
            r@ == lookup_tag(self@, name@),
    {
        let mut i: usize = self.frames.len();
        assert(self@.subrange(0, i as int) =~= self@);
        while i > 0
            invariant
                i <= self.frames.len(),
                lookup_tag(self@, name@) == lookup_tag(self@.subrange(0, i as int), name@),
            decreases i,
        {
            let ghost prefix = self@.subrange(0, i as int);
            assert(prefix.drop_last() =~= self@.subrange(0, i - 1));
            assert(prefix.last() == self.frames@[i - 1]@);
            if frame_has(&self.frames[i - 1].names, name) {
                return vec![self.frames[i - 1].mark];
            }
            i = i - 1;
        }
        Vec::new()
    }

    /// Binds `name` in the innermost region and returns its tag, unless the
    /// region already binds that name.
    pub fn declare(&mut self, name: &String) -> (r: Result<Vec<Mark>, ResolutionError>)
        requires
            old(self)@.len() > 0,
        ensures
            can_bind(old(self)@, name@) ==> r is Ok && r->Ok_0@ == seq![old(self)@.last().0]
                && final(self)@ == bind_top(old(self)@, name@),
            !can_bind(old(self)@, name@) ==> r == Err::<Vec<Mark>, ResolutionError>(
                ResolutionError::DuplicateBinding,
            ) && final(self)@ == old(self)@,
    {
        let n = self.frames.len();
        if frame_has(&self.frames[n - 1].names, name) {
            return Err(ResolutionError::DuplicateBinding);
        }
        let mut top = self.frames.pop().unwrap();
        let mark = top.mark;
        top.names.push(name.clone());
        assert(top@.1 =~= old(self)@.last().1.push(name@));
        self.frames.push(top);
        assert(final(self)@ =~= bind_top(old(self)@, name@));
        Ok(vec![mark])
    }
}

} // verus!
