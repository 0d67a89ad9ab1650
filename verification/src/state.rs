//! The screens of the program, and what decides the move from one to the
//! next.

use vstd::prelude::*;

verus! {

/// A screen of the program.
#[derive(Debug, Hash, PartialEq, Eq, PartialOrd, Ord, Clone, Copy, Structural)]
pub enum ApplicationState {
    Menu,
    Selecting,
    MinMax,
    Close,
}

impl ApplicationState {
    /// What the menu shows for a screen.
    pub open spec fn label_of(self) -> Seq<char> {
        match self {
            ApplicationState::Menu => "Back to Menu"@,
            ApplicationState::Selecting => "Open a different File"@,
            ApplicationState::Close => "Exit the analyzer"@,
            ApplicationState::MinMax => "Analyze minimium and maximium values"@,
        }
    }

    /// The screen after this one, where the screen handed back `change`: the
    /// screen it names, or this one again where it names none.
    pub open spec fn followed_by(self, change: Option<ApplicationState>) -> ApplicationState {
        match change {
            Some(target) => target,
            None => self,
        }
    }

    /// The screens that the menu offers, in the order in which it shows them.
    pub fn menu_options() -> (r: Vec<ApplicationState>)
        ensures
            r@ == seq![ApplicationState::MinMax],
    {
        vec![ApplicationState::MinMax]
    }

    /// What the menu shows for this screen.
    pub fn label(&self) -> (r: &'static str)
        ensures
            r@ == self.label_of(),
    {
        match self {
            ApplicationState::Menu => "Back to Menu",
            ApplicationState::Selecting => "Open a different File",
            ApplicationState::Close => "Exit the analyzer",
            ApplicationState::MinMax => "Analyze minimium and maximium values",
        }
    }

    /// The screen after this one, where the screen handed back `change`.
    pub fn follow(self, change: Option<ApplicationState>) -> (r: ApplicationState)
        ensures
            r == self.followed_by(change),
    {
        match change {
            Some(target) => target,
            None => self,
        }
    }

    /// Tells whether the program ends at this screen.
    pub fn is_last(&self) -> (r: bool)
        ensures
            r == (*self == ApplicationState::Close),
    {
        match self {
            ApplicationState::Close => true,
            _ => false,
        }
    }
}

/// What a screen hands back: a value, and the screen to go to next, if any.
#[derive(Debug)]
pub struct StateChange<T: ?Sized> {
    pub change: Option<ApplicationState>,
    pub value: Box<T>,
}

impl<T> StateChange<T> {
    /// Hands back `value` and stays on the screen.
    pub fn new(value: T) -> (r: Self)
        ensures
            r.change is None,
            *r.value == value,
    {
        Self { change: None, value: Box::new(value) }
    }

    /// Hands back `value` and goes to the screen `state`.
    pub fn switch(value: T, state: ApplicationState) -> (r: Self)
        ensures
            r.change == Some(state),
            *r.value == value,
    {
        Self { change: Some(state), value: Box::new(value) }
    }
}

/// What the menu does with a line of input.
#[derive(Debug, Clone, Copy, PartialEq, Eq, Structural)]
pub enum MenuAnswer {
    /// Go back to the choice of a file.
    Back,
    /// Go on to the analysis.
    Accept,
    /// Ask again.
    Retry,
}

/// What the menu does with a line of input, as a function of what the line
/// holds: `back` where it is the key that goes back, `empty` where the line
/// has no byte at all, and `number` where it is a number.
pub open spec fn menu_answer_of(back: bool, empty: bool, number: Option<usize>, count: usize)
    -> MenuAnswer {
    if back {
        MenuAnswer::Back
    } else if !empty && !(number matches Some(n) && 1 <= n <= count) {
        MenuAnswer::Retry
    } else {
        MenuAnswer::Accept
    }
}

/// Decides what the menu does with a line of input. The key that goes back
/// comes first. Any other line must be one of the numbers from 1 to `count`,
/// or the menu asks again; a line without any byte, as at the end of the
/// input, is let through.
pub fn menu_answer(back: bool, empty: bool, number: Option<usize>, count: usize) -> (r:
    MenuAnswer)
    ensures
        r == menu_answer_of(back, empty, number, count),
{
    if back {
        return MenuAnswer::Back;
    }
    let valid = match number {
        Some(n) => 1 <= n && n <= count,
        None => false,
    };
    if !empty && !valid {
        MenuAnswer::Retry
    } else {
        MenuAnswer::Accept
    }
}

/// Where the menu goes on an answer: to the choice of a file on `Back`, to
/// the analysis on `Accept`, and nowhere while it asks again.
pub fn menu_change(answer: MenuAnswer) -> (r: Option<StateChange<()>>)
    ensures
        match answer {
            MenuAnswer::Back => r matches Some(change) && change.change == Some(
                ApplicationState::Selecting,
            ),
            MenuAnswer::Accept => r matches Some(change) && change.change == Some(
                ApplicationState::MinMax,
            ),
            MenuAnswer::Retry => r is None,
        },
{
    match answer {
        MenuAnswer::Back => Some(StateChange::switch((), ApplicationState::Selecting)),
        MenuAnswer::Accept => Some(StateChange::switch((), ApplicationState::MinMax)),
        MenuAnswer::Retry => None,
    }
}

/// Decides which of `count` files a line of input picks: the one at place
/// `number`, counted from 0, where the line is a number below `count`.
pub fn picked_file(number: Option<usize>, count: usize) -> (r: Option<usize>)
    ensures
        r == (if number matches Some(n) && n < count {
            number
        } else {
            None
        }),
{
    match number {
        Some(n) => if n < count {
            Some(n)
        } else {
            None
        },
        None => None,
    }
}

/// Tells whether a step of an output of `total` steps in all is one at which
/// progress is shown: every step whose number is a multiple of the `parts`th
/// part of the total.
pub fn progress_due(step: usize, total: usize, parts: usize) -> (r: bool)
    requires
        parts > 0,
        total / parts > 0,
    ensures
        r == (step % (total / parts) == 0),
{
    step % (total / parts) == 0
}

} // verus!
