use vstd::prelude::*;

verus! {

/// Due today or overdue: soft red.
pub const DUE_TODAY: &'static str = "\x1b[38;2;239;68;68m";

/// Due within a week: soft yellow.
pub const DUE_WEEK: &'static str = "\x1b[38;2;251;191;36m";

/// Due later: soft green.
pub const DUE_FUTURE: &'static str = "\x1b[38;2;34;197;94m";

} // verus!
