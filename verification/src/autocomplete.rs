//! Reduces candidate completion strings into one common-prefix result
//! plus a partial flag.

use vstd::prelude::*;

use crate::utils::common_prefix;
use crate::utils::common_prefix_len;
use crate::utils::leading_spaces;

verus! {

/// A request for autocompletion of the current input.
#[derive(Clone, Debug)]
#[non_exhaustive]
pub enum Request {
    /// Complete the given text to a command name.
    CommandName(Vec<u8>),
}

impl Request {
    /// Builds a request from the current input: the input without its
    /// leading spaces, provided something is left and it has no space
    /// (otherwise the command name is already finished).
    pub fn from_input(input: &[u8]) -> (r: Option<Request>)
        ensures
            ({
                let t = input@.skip(leading_spaces(input@));
                &&& t.len() == 0 ==> r is None
                &&& (exists|i: int| 0 <= i < t.len() && t[i] == 32u8) ==> r is None
                &&& (t.len() > 0 && forall|i: int| 0 <= i < t.len() ==> t[i] != 32u8) ==> (
                r matches Some(Request::CommandName(v)) && v@ == t)
            }),
    {
        let trimmed = crate::utils::trim_start(input);
        if trimmed.len() == 0 {
            return None;
        }
        let mut i: usize = 0;
        while i < trimmed.len()
            invariant
                0 <= i <= trimmed@.len(),
                trimmed@ == input@.skip(leading_spaces(input@)),
                forall|j: int| 0 <= j < i ==> trimmed@[j] != 32u8,
            decreases trimmed@.len() - i,
        {
            if trimmed[i] == 32u8 {
                proof {
                    let t = input@.skip(leading_spaces(input@));
                    assert(t[i as int] == 32u8);
                    assert(0 <= i < t.len() && t[i as int] == 32u8);
                }
                return None;
            }
            i += 1;
        }
        Some(Request::CommandName(vstd::slice::slice_to_vec(trimmed)))
    }
}

/// Merges candidate completions into their longest common prefix,
/// bounded by the free capacity it was created with.
#[derive(Debug)]
pub struct Autocompletion {
    capacity: usize,
    result: Option<Vec<u8>>,
    partial: bool,
}

impl Autocompletion {
    /// The free capacity this merger may fill.
    pub closed spec fn capacity_spec(&self) -> int {
        self.capacity as int
    }

    /// The merged bytes so far; nothing before the first merge.
    pub closed spec fn result_spec(&self) -> Option<Seq<u8>> {
        match self.result {
            Some(v) => Some(v@),
            None => None,
        }
    }

    /// Whether the completion is known to be incomplete, so that no
    /// trailing space should be appended.
    pub closed spec fn partial_spec(&self) -> bool {
        self.partial
    }

    pub open spec fn wf(&self) -> bool {
        self.result_spec() matches Some(v) ==> v.len() <= self.capacity_spec()
    }

    /// A merger over the given free capacity.
    pub fn new(capacity: usize) -> (r: Autocompletion)
        ensures
            r.wf(),
            r.capacity_spec() == capacity,
            r.result_spec() is None,
            !r.partial_spec(),
    {
        Autocompletion { capacity, result: None, partial: false }
    }

    /// The merged completion, if any candidate was merged.
    pub fn autocompleted(&self) -> (r: Option<Vec<u8>>)
        ensures
            r is Some <==> self.result_spec() is Some,
            r matches Some(v) ==> v@ == self.result_spec()->Some_0,
    {
        match &self.result {
            Some(v) => Some(vstd::slice::slice_to_vec(v.as_slice())),
            None => None,
        }
    }

    /// Whether the completion is partial and further input is required.
    pub fn is_partial(&self) -> (r: bool)
        ensures
            r == self.partial_spec(),
    {
        self.partial
    }

    /// Marks this completion as partial.
    pub fn mark_partial(&mut self)
        ensures
            final(self).partial_spec(),
            final(self).result_spec() == old(self).result_spec(),
            final(self).capacity_spec() == old(self).capacity_spec(),
            old(self).wf() ==> final(self).wf(),
    {
        self.partial = true;
    }

    /// Merges one candidate completion.
    ///
    /// An empty candidate, or a merger without capacity, empties the
    /// result; a candidate longer than the capacity is ignored; any
    /// other candidate is cut to its longest whole-character prefix in
    /// common with the result so far.  The completion becomes partial
    /// when any candidate contributed less than its own length, or when
    /// more than one candidate was merged.
    pub fn merge_autocompletion(&mut self, text: &[u8])
        ensures
            old(self).wf() ==> final(self).wf(),
            final(self).capacity_spec() == old(self).capacity_spec(),
            ({
                let cap = old(self).capacity_spec();
                let res = old(self).result_spec();
                let par = old(self).partial_spec();
                &&& (text@.len() == 0 || cap == 0) ==> final(self).result_spec() == Some(
                    Seq::<u8>::empty(),
                ) && final(self).partial_spec() == (par || res is Some || (cap == 0 && text@.len()
                    > 0))
                &&& (text@.len() > 0 && cap > 0) ==> {
                    let len = if res is Some {
                        common_prefix(text@, res->Some_0)
                    } else {
                        text@.len() as int
                    };
                    if len > cap {
                        final(self).result_spec() == res && final(self).partial_spec() == par
                    } else {
                        final(self).result_spec() == Some(text@.subrange(0, len))
                            && final(self).partial_spec() == (par || len < text@.len()
                            || res is Some)
                    }
                }
            }),
    {
        if text.len() == 0 || self.capacity == 0 {
            self.partial = self.partial || self.result.is_some() || (self.capacity == 0
                && text.len() > 0);
            self.result = Some(Vec::new());
            return;
        }
        let len = match &self.result {
            Some(cur) => common_prefix_len(text, cur.as_slice()),
            None => text.len(),
        };
        if len > self.capacity {
            // storing it would leave no room to type anything further
        } else {
            self.partial = self.partial || len < text.len() || self.result.is_some();
            let prefix = vstd::slice::slice_to_vec(vstd::slice::slice_subrange(text, 0, len));
            self.result = Some(prefix);
        }
    }
}

} // verus!
