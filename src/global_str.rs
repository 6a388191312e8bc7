use vstd::prelude::*;

verus! {

/// A piece of diagnostic context, such as the file being read or the phase
/// of the work, handed to where errors are reported.
#[derive(Debug)]
pub struct GlobalStr {
    pub str: String,
}

impl GlobalStr {
    /// Empty context.
    pub fn new() -> (r: Self)
        ensures
            r.str@.len() == 0,
    {
        GlobalStr { str: String::new() }
    }

    /// The context's text.
    pub fn get(&self) -> (r: String)
        ensures
            r@ == self.str@,
    {
        self.str.clone()
    }

    /// Replaces the context's text.
    pub fn set(&mut self, s: &str)
        ensures
            final(self).str@ == s@,
    {
        self.str = s.to_owned();
    }
}

} // verus!
