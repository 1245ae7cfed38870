//! Where a world's user input comes from.
use vstd::prelude::*;

verus! {

/// The source of user input: the terminal, or responses queued in advance
/// and handed out first in, first out.
pub enum InputSource {
    /// Lines read from standard input.
    Stdin,
    /// Pre-loaded responses consumed in order.
    Mock(Vec<String>),
}

impl Default for InputSource {
    fn default() -> (r: Self)
        ensures
            r is Stdin,
    {
        InputSource::Stdin
    }
}

impl InputSource {
    /// The next queued response of a `Mock` source, removed from the queue;
    /// `None` when the queue is empty, and for `Stdin`, whose lines the
    /// caller reads.
    pub fn take_queued(&mut self) -> (r: Option<String>)
        ensures
            match *old(self) {
                InputSource::Stdin => r is None && *final(self) is Stdin,
                InputSource::Mock(q) => match *final(self) {
                    InputSource::Mock(rest) => if q@.len() == 0 {
                        r is None && rest@.len() == 0
                    } else {
                        r == Some(q@[0]) && rest@ == q@.drop_first()
                    },
                    InputSource::Stdin => false,
                },
            },
    {
        match self {
            InputSource::Stdin => None,
            InputSource::Mock(queue) => {
                if queue.len() == 0 {
                    None
                } else {
                    Some(queue.remove(0))
                }
            },
        }
    }
}

} // verus!
