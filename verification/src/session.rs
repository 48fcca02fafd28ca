//! The place where the last merged text is kept for export.

use vstd::prelude::*;

verus! {

/// Holds the last merged text: nothing at first, then what was set last.
#[derive(Debug)]
pub struct SessionStore {
    content: Option<String>,
}

impl SessionStore {
    /// The text that is held, if any.
    pub closed spec fn held(&self) -> Option<Seq<char>> {
        match self.content {
            Some(s) => Some(s@),
            None => None,
        }
    }

    /// A store that holds nothing.
    pub fn new() -> (r: Self)
        ensures
            r.held() is None,
    {
        SessionStore { content: None }
    }

    /// Puts `content` in the place of what was held.
    pub fn set(&mut self, content: String)
        ensures
            final(self).held() == Some(content@),
    {
        self.content = Some(content);
    }

    /// The text that is held, if any.
    pub fn get(&self) -> (r: Option<&String>)
        ensures
            match r {
                Some(s) => self.held() == Some(s@),
                None => self.held() is None,
            },
    {
        match &self.content {
            Some(s) => Some(s),
            None => None,
        }
    }
}

} // verus!
