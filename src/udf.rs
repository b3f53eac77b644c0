//! State a filter keeps for user-defined functions.
use vstd::prelude::*;

verus! {

/// A counter that a filter can run as a user-defined function.
#[derive(Clone, Copy, Debug)]
pub struct Count {
    pub counter: u32,
}

impl Count {
    pub fn new() -> (r: Count)
        ensures
            r.counter == 0,
    {
        Count { counter: 0 }
    }

    /// Counts once and returns the new count.
    pub fn execute(self) -> (r: u32)
        requires
            self.counter < u32::MAX,
        ensures
            r == self.counter + 1,
    {
        let mut c = self;
        c.counter = c.counter + 1;
        c.counter
    }
}

/// A piece of filter state: a user-defined function's object, or a string.
pub struct State {
    pub type_of_state: Option<String>,
    pub string_data: Option<String>,
    pub udf_count: Option<Count>,
}

impl State {
    pub fn new() -> (r: State)
        ensures
            r.type_of_state is None,
            r.string_data is None,
            r.udf_count is None,
    {
        State { type_of_state: None, string_data: None, udf_count: None }
    }

    /// State that holds the string `str_data`.
    pub fn new_with_str(str_data: String) -> (r: State)
        ensures
            r.type_of_state matches Some(t) && t@ == "String"@,
            r.string_data == Some(str_data),
            r.udf_count is None,
    {
        State { type_of_state: Some("String".to_owned()), string_data: Some(str_data), udf_count: None }
    }
}

} // verus!
