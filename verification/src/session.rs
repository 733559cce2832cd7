use vstd::prelude::*;

use crate::calendar::{local_today, Date};
use crate::calendar_view::{calendar_choice, parse_calendar_args_on};
use crate::cli::{command_name, list_range_of, parse_command, parse_list_range};
use crate::commands::{join_first, joined};
use crate::model::opt_chars;
use crate::text::{lowercase, same_text, str_views, words};

verus! {

/// The modes of the interactive session: whether completed todos are shown,
/// and whether sub-todos are listed under their parents.
#[derive(Clone, Copy, Debug, PartialEq, Eq, Structural)]
pub struct Session {
    pub show_done: bool,
    pub use_order: bool,
}

/// What the session does for a line of input.
#[derive(Debug)]
pub enum Action {
    /// Add a todo with these arguments.
    Add(Vec<String>),
    /// Edit todos with these arguments.
    Edit(Vec<String>),
    /// Remove todos with these arguments.
    Remove(Vec<String>),
    /// Set done levels with these arguments.
    Done(Vec<String>),
    /// Copy todos with these arguments.
    More(Vec<String>),
    /// List with `(limit, page, range_start, range_end)`.
    List(Option<usize>, Option<usize>, Option<usize>, Option<usize>),
    /// Search for this keyword.
    Search(String),
    /// Show the four weeks around today.
    CalendarWeeks,
    /// Show the calendar of this year and month.
    CalendarMonth(i32, u32),
    /// Show the help text.
    Help,
    /// Print this usage message.
    Usage(String),
    /// Report an unknown command (and show the help text).
    Unknown(String),
    /// Clear the screen and list again (a mode changed).
    Redraw,
    /// End the session.
    Quit,
    /// Nothing to do (blank input).
    Nothing,
}

/// An action as plain values.
pub enum ActionView {
    Add(Seq<Seq<char>>),
    Edit(Seq<Seq<char>>),
    Remove(Seq<Seq<char>>),
    Done(Seq<Seq<char>>),
    More(Seq<Seq<char>>),
    List(Option<usize>, Option<usize>, Option<usize>, Option<usize>),
    Search(Seq<char>),
    CalendarWeeks,
    CalendarMonth(i32, u32),
    Help,
    Usage(Seq<char>),
    Unknown(Seq<char>),
    Redraw,
    Quit,
    Nothing,
}

/// The character sequences of a list of strings.
pub open spec fn string_views(v: Seq<String>) -> Seq<Seq<char>> {
    v.map_values(|t: String| t@)
}

impl View for Action {
    type V = ActionView;

    open spec fn view(&self) -> ActionView {
        match self {
            Action::Add(a) => ActionView::Add(string_views(a@)),
            Action::Edit(a) => ActionView::Edit(string_views(a@)),
            Action::Remove(a) => ActionView::Remove(string_views(a@)),
            Action::Done(a) => ActionView::Done(string_views(a@)),
            Action::More(a) => ActionView::More(string_views(a@)),
            Action::List(l, p, s, e) => ActionView::List(*l, *p, *s, *e),
            Action::Search(k) => ActionView::Search(k@),
            Action::CalendarWeeks => ActionView::CalendarWeeks,
            Action::CalendarMonth(y, m) => ActionView::CalendarMonth(*y, *m),
            Action::Help => ActionView::Help,
            Action::Usage(u) => ActionView::Usage(u@),
            Action::Unknown(c) => ActionView::Unknown(c@),
            Action::Redraw => ActionView::Redraw,
            Action::Quit => ActionView::Quit,
            Action::Nothing => ActionView::Nothing,
        }
    }
}

/// The action for a command that takes arguments: its usage message when
/// there are none.
pub open spec fn with_args(rest: Seq<Seq<char>>, usage: Seq<char>, act: ActionView) -> ActionView {
    if rest.len() == 0 {
        ActionView::Usage(usage)
    } else {
        act
    }
}

/// What the session does for a line of input, and its modes afterwards.
///
/// The first word names the command (with its short and Korean forms); the
/// other words are its arguments. `add`, `edit`, `remove`, `done`, `more`
/// and `search` without arguments print their usage; `order` and `past` toggle a
/// mode and redraw; `calendar` without arguments shows four weeks, with a
/// month it shows that month (seen from `today`), else its usage; `help`,
/// `quit`; any other word is unknown. Blank input does nothing.
pub open spec fn session_step(st: Session, input: Seq<char>, today: Date) -> (Session, ActionView) {
    let ws = words(input);
    if ws.len() == 0 {
        (st, ActionView::Nothing)
    } else {
        let cmd = command_name(ws[0], lowercase(ws[0]));
        let rest = ws.skip(1);
        if cmd == "add"@ || cmd == "a"@ {
            (st, with_args(rest, "사용법: add <내용> [-d 날짜] [-p 우선순위] [-u 리스트번호]"@, ActionView::Add(rest)))
        } else if cmd == "edit"@ || cmd == "e"@ {
            (st, with_args(rest, "사용법: edit <리스트번호>[,...] [-d 날짜] [-p 우선순위]"@, ActionView::Edit(rest)))
        } else if cmd == "remove"@ || cmd == "r"@ {
            (st, with_args(rest, "사용법: remove <리스트번호>[,...]"@, ActionView::Remove(rest)))
        } else if cmd == "done"@ || cmd == "d"@ {
            (st, with_args(rest, "사용법: done <리스트번호>[,...] [0-5]"@, ActionView::Done(rest)))
        } else if cmd == "more"@ || cmd == "m"@ {
            (st, with_args(rest, "사용법: more <리스트번호>[,...] [-d 날짜] [-p 우선순위] [-u 리스트번호]"@, ActionView::More(rest)))
        } else if cmd == "list"@ || cmd == "l"@ {
            let (l, p, s, e) = list_range_of(rest);
            (st, ActionView::List(l, p, s, e))
        } else if cmd == "order"@ || cmd == "o"@ {
            (Session { use_order: !st.use_order, ..st }, ActionView::Redraw)
        } else if cmd == "past"@ || cmd == "p"@ {
            (Session { show_done: !st.show_done, ..st }, ActionView::Redraw)
        } else if cmd == "search"@ || cmd == "s"@ {
            (st, with_args(rest, "사용법: search <검색어>"@, ActionView::Search(joined(rest))))
        } else if cmd == "calendar"@ || cmd == "c"@ {
            if rest.len() == 0 {
                (st, ActionView::CalendarWeeks)
            } else {
                match calendar_choice(rest, today.year, today.month) {
                    Some((y, m)) => (st, ActionView::CalendarMonth(y, m)),
                    None => (st, ActionView::Usage("사용법: calendar [m] [y] 또는 calendar yy/mm"@)),
                }
            }
        } else if cmd == "help"@ || cmd == "h"@ || cmd == "?"@ {
            (st, ActionView::Help)
        } else if cmd == "quit"@ || cmd == "q"@ || cmd == "exit"@ {
            (st, ActionView::Quit)
        } else {
            (st, ActionView::Unknown(cmd))
        }
    }
}

/// Owned copies of string slices.
fn owned_words(ws: &Vec<&str>) -> (r: Vec<String>)
    ensures
        string_views(r@) == str_views(ws@),
{
    let mut out: Vec<String> = Vec::new();
    let mut i: usize = 0;
    while i < ws.len()
        invariant
            i <= ws.len(),
            string_views(out@) =~= str_views(ws@).take(i as int),
        decreases ws.len() - i,
    {
        let ghost prev = string_views(out@);
        out.push(String::from_str(ws[i]));
        assert(string_views(out@) =~= prev.push(ws@[i as int]@));
        assert(str_views(ws@).take(i + 1) =~= str_views(ws@).take(i as int).push(ws@[i as int]@));
        i = i + 1;
    }
    assert(str_views(ws@).take(ws.len() as int) =~= str_views(ws@));
    out
}

/// The action for a command with arguments, or its usage message.
fn args_or_usage(rest: &Vec<&str>, usage: &str, kind: u8) -> (r: Action)
    requires
        kind < 5,
    ensures
        rest.len() == 0 ==> r@ == ActionView::Usage(usage@),
        rest.len() > 0 ==> r@ == (if kind == 0 {
            ActionView::Add(str_views(rest@))
        } else if kind == 1 {
            ActionView::Edit(str_views(rest@))
        } else if kind == 2 {
            ActionView::Remove(str_views(rest@))
        } else if kind == 3 {
            ActionView::Done(str_views(rest@))
        } else {
            ActionView::More(str_views(rest@))
        }),
{
    if rest.len() == 0 {
        return Action::Usage(String::from_str(usage));
    }
    let args = owned_words(rest);
    if kind == 0 {
        Action::Add(args)
    } else if kind == 1 {
        Action::Edit(args)
    } else if kind == 2 {
        Action::Remove(args)
    } else if kind == 3 {
        Action::Done(args)
    } else {
        Action::More(args)
    }
}

/// What the session does for a line of input, seen from `today` (see
/// `session_step`).
pub fn command_step_on(state: Session, input: &str, today: Date) -> (r: (Session, Action))
    ensures
        (r.0, r.1@) == session_step(state, input@, today),
{
    let (cmd, rest) = match parse_command(input) {
        Some(p) => p,
        None => {
            return (state, Action::Nothing);
        },
    };
    let ghost ws = words(input@);
    assert(str_views(rest@) == ws.skip(1));
    let c = cmd.as_str();
    if same_text(c, "add") || same_text(c, "a") {
        (state, args_or_usage(&rest, "사용법: add <내용> [-d 날짜] [-p 우선순위] [-u 리스트번호]", 0))
    } else if same_text(c, "edit") || same_text(c, "e") {
        (state, args_or_usage(&rest, "사용법: edit <리스트번호>[,...] [-d 날짜] [-p 우선순위]", 1))
    } else if same_text(c, "remove") || same_text(c, "r") {
        (state, args_or_usage(&rest, "사용법: remove <리스트번호>[,...]", 2))
    } else if same_text(c, "done") || same_text(c, "d") {
        (state, args_or_usage(&rest, "사용법: done <리스트번호>[,...] [0-5]", 3))
    } else if same_text(c, "more") || same_text(c, "m") {
        (state, args_or_usage(&rest, "사용법: more <리스트번호>[,...] [-d 날짜] [-p 우선순위] [-u 리스트번호]", 4))
    } else if same_text(c, "list") || same_text(c, "l") {
        let (l, p, s, e) = parse_list_range(rest.as_slice());
        (state, Action::List(l, p, s, e))
    } else if same_text(c, "order") || same_text(c, "o") {
        (Session { use_order: !state.use_order, ..state }, Action::Redraw)
    } else if same_text(c, "past") || same_text(c, "p") {
        (Session { show_done: !state.show_done, ..state }, Action::Redraw)
    } else if same_text(c, "search") || same_text(c, "s") {
        if rest.len() == 0 {
            (state, Action::Usage(String::from_str("사용법: search <검색어>")))
        } else {
            let keyword = join_first(&rest, rest.len());
            assert(str_views(rest@).take(rest.len() as int) =~= str_views(rest@));
            (state, Action::Search(keyword))
        }
    } else if same_text(c, "calendar") || same_text(c, "c") {
        if rest.len() == 0 {
            (state, Action::CalendarWeeks)
        } else {
            match parse_calendar_args_on(rest.as_slice(), today) {
                Some((y, m)) => (state, Action::CalendarMonth(y, m)),
                None => (state, Action::Usage(String::from_str("사용법: calendar [m] [y] 또는 calendar yy/mm"))),
            }
        }
    } else if same_text(c, "help") || same_text(c, "h") || same_text(c, "?") {
        (state, Action::Help)
    } else if same_text(c, "quit") || same_text(c, "q") || same_text(c, "exit") {
        (state, Action::Quit)
    } else {
        (state, Action::Unknown(cmd))
    }
}

/// What the session does for a line of input, as of today's local date.
pub fn command_step(state: Session, input: &str) -> (r: (Session, Action))
    ensures
        exists|today: Date| today.valid() && (r.0, r.1@) == session_step(state, input@, today),
{
    let today = local_today();
    command_step_on(state, input, today)
}

/// The command that a line of input names, if it holds a word.
pub open spec fn command_of(input: Seq<char>) -> Option<Seq<char>> {
    let ws = words(input);
    if ws.len() == 0 {
        None
    } else {
        Some(command_name(ws[0], lowercase(ws[0])))
    }
}

/// Whether a command toggles one of the session's modes.
pub open spec fn toggles(cmd: Seq<char>) -> bool {
    cmd == "order"@ || cmd == "o"@ || cmd == "past"@ || cmd == "p"@
}

/// Only `order` and `past` change the session's modes; each flips one of
/// them and redraws, so typing it twice gives the modes back.
pub proof fn lemma_only_toggles_change_modes(st: Session, input: Seq<char>, today: Date)
    ensures
        !(command_of(input) matches Some(c) && toggles(c)) ==> session_step(st, input, today).0 == st,
        command_of(input) matches Some(c) && toggles(c) ==> {
            &&& session_step(st, input, today).0 != st
            &&& session_step(st, input, today).1 == ActionView::Redraw
            &&& session_step(session_step(st, input, today).0, input, today).0 == st
        },
{
    reveal_strlit("order");
    reveal_strlit("o");
    reveal_strlit("past");
    reveal_strlit("p");
    reveal_strlit("add");
    reveal_strlit("a");
    reveal_strlit("edit");
    reveal_strlit("e");
    reveal_strlit("remove");
    reveal_strlit("r");
    reveal_strlit("done");
    reveal_strlit("d");
    reveal_strlit("more");
    reveal_strlit("m");
    reveal_strlit("list");
    reveal_strlit("l");
    assert(("order"@)[0] == 'o' && ("o"@)[0] == 'o' && ("past"@)[0] == 'p' && ("p"@)[0] == 'p');
    assert(("add"@)[0] == 'a' && ("a"@)[0] == 'a' && ("edit"@)[0] == 'e' && ("e"@)[0] == 'e');
    assert(("remove"@)[0] == 'r' && ("r"@)[0] == 'r' && ("done"@)[0] == 'd' && ("d"@)[0] == 'd');
    assert(("more"@)[0] == 'm' && ("m"@)[0] == 'm' && ("list"@)[0] == 'l' && ("l"@)[0] == 'l');
    if let Some(c) = command_of(input) {
        let s1 = session_step(st, input, today).0;
        if c == "order"@ || c == "o"@ {
            assert(s1 == Session { use_order: !st.use_order, ..st });
            assert(session_step(s1, input, today).0 == Session { use_order: !s1.use_order, ..s1 });
        } else if c == "past"@ || c == "p"@ {
            assert(c != "order"@ && c != "o"@);
            assert(s1 == Session { show_done: !st.show_done, ..st });
            assert(session_step(s1, input, today).0 == Session { show_done: !s1.show_done, ..s1 });
        }
    }
}

/// What follows a command that changes todos: whether to redraw (it
/// succeeded and changed something), and the error message to print.
pub fn change_outcome(outcome: Result<bool, String>) -> (r: (bool, Option<String>))
    ensures
        match outcome {
            Ok(changed) => r.0 == changed && r.1 is None,
            Err(e) => !r.0 && opt_chars(r.1) == Some(e@),
        },
{
    match outcome {
        Ok(changed) => (changed, None),
        Err(e) => (false, Some(e)),
    }
}

} // verus!
