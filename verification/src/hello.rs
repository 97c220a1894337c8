use vstd::prelude::*;

verus! {

/// The states of the greeting coroutine.
#[derive(PartialEq, Eq, Structural, Clone, Copy)]
pub enum StateHello {
    HELLO,
    WORLD,
    END,
}

/// What one poll of the greeting coroutine does.
#[derive(PartialEq, Eq, Structural, Clone, Copy)]
pub enum HelloPoll {
    /// Print "Hello, " and stay pending.
    PrintHello,
    /// Print "World!" and a line break, and stay pending.
    PrintWorld,
    /// The coroutine has finished.
    Ready,
}

/// A coroutine that greets the world in two steps.
pub struct Hello {
    state: StateHello,
}

/// The state after a poll, and what the poll does.
pub open spec fn hello_step(s: StateHello) -> (StateHello, HelloPoll) {
    match s {
        StateHello::HELLO => (StateHello::WORLD, HelloPoll::PrintHello),
        StateHello::WORLD => (StateHello::END, HelloPoll::PrintWorld),
        StateHello::END => (StateHello::END, HelloPoll::Ready),
    }
}

impl Hello {
    /// The current state.
    pub closed spec fn state_of(&self) -> StateHello {
        self.state
    }

    /// A coroutine in its initial state.
    pub fn new() -> (r: Self)
        ensures
            r.state_of() == StateHello::HELLO,
    {
        Hello { state: StateHello::HELLO }
    }

    /// Runs the coroutine up to its next suspension: the first poll prints
    /// the first half of the greeting, the second the rest, and every later
    /// poll reports that it has finished.
    pub fn poll(&mut self) -> (r: HelloPoll)
        ensures
            (final(self).state_of(), r) == hello_step(old(self).state_of()),
    {
        match self.state {
            StateHello::HELLO => {
                self.state = StateHello::WORLD;
                HelloPoll::PrintHello
            },
            StateHello::WORLD => {
                self.state = StateHello::END;
                HelloPoll::PrintWorld
            },
            StateHello::END => HelloPoll::Ready,
        }
    }
}

/// Law: from its initial state the coroutine greets in order and is
/// finished by its third poll, and stays finished.
pub proof fn law_three_polls()
    ensures
        hello_step(StateHello::HELLO).1 == HelloPoll::PrintHello,
        hello_step(hello_step(StateHello::HELLO).0).1 == HelloPoll::PrintWorld,
        hello_step(hello_step(hello_step(StateHello::HELLO).0).0).1 == HelloPoll::Ready,
        hello_step(StateHello::END) == (StateHello::END, HelloPoll::Ready),
{
}

} // verus!
