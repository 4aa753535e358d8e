use vstd::prelude::*;

verus! {

/// A label identifies a set of systems that are scheduled and run
/// together.
#[derive(Clone, Copy, Hash, Eq, PartialEq, PartialOrd, Ord, Debug, Structural)]
pub struct Label(pub u64);

/// Anything that can be turned into a [`Label`].
pub trait IntoLabel: Sized {
    /// Turns self into a [`Label`].
    fn into_label(self) -> Label;
}

impl IntoLabel for Label {
    fn into_label(self) -> Label {
        self
    }
}

impl IntoLabel for u64 {
    fn into_label(self) -> Label {
        Label(self)
    }
}

impl IntoLabel for u32 {
    fn into_label(self) -> Label {
        Label(self as u64)
    }
}

impl IntoLabel for usize {
    fn into_label(self) -> Label {
        Label(self as u64)
    }
}

} // verus!
