//! The command line: the registry of known directives, the editable
//! command input, and the interpreter that turns a typed command into an
//! intent — including the date parser for year, month/day/year and
//! day-of-month jumps.
use crate::date::{days_in_month, days_in_month_of, valid_date, Date};
use crate::month_view::nav_date_ok;
use crate::text::is_space;
use vstd::prelude::*;

verus! {

/// What a registry entry does when run.
#[derive(Debug, Clone, Copy, PartialEq, Eq, Structural)]
pub enum CommandAction {
    Quit,
    ShowKeybinds,
    HideKeybinds,
    EnableWrap,
    DisableWrap,
    DateJump,
    GoToToday,
}

/// One entry of the command registry.
#[derive(Debug, Clone, Copy)]
pub struct CommandInfo {
    pub name: &'static str,
    pub description: &'static str,
    pub action: CommandAction,
}

/// The registry of command names, in a fixed order: the quit forms, the
/// keybinding-bar toggles, the wrap toggles, the date-jump formats, and
/// the jump to today.
pub fn get_command_registry() -> (r: Vec<CommandInfo>)
    ensures
        r@.len() == 17,
        r@[0].name@ == "q"@ && r@[0].action == CommandAction::Quit,
        r@[1].name@ == "quit"@ && r@[1].action == CommandAction::Quit,
        r@[2].name@ == "wq"@ && r@[2].action == CommandAction::Quit,
        r@[3].name@ == "x"@ && r@[3].action == CommandAction::Quit,
        r@[4].name@ == "seekeys"@ && r@[4].action == CommandAction::ShowKeybinds,
        r@[5].name@ == "set seekeys"@ && r@[5].action == CommandAction::ShowKeybinds,
        r@[6].name@ == "nokeys"@ && r@[6].action == CommandAction::HideKeybinds,
        r@[7].name@ == "set nokeys"@ && r@[7].action == CommandAction::HideKeybinds,
        r@[8].name@ == "wrap"@ && r@[8].action == CommandAction::EnableWrap,
        r@[9].name@ == "set wrap"@ && r@[9].action == CommandAction::EnableWrap,
        r@[10].name@ == "nowrap"@ && r@[10].action == CommandAction::DisableWrap,
        r@[11].name@ == "set nowrap"@ && r@[11].action == CommandAction::DisableWrap,
        r@[12].name@ == "YYYY"@ && r@[12].action == CommandAction::DateJump,
        r@[13].name@ == "MM/DD/YYYY"@ && r@[13].action == CommandAction::DateJump,
        r@[14].name@ == "YYYY-MM-DD"@ && r@[14].action == CommandAction::DateJump,
        r@[15].name@ == "DD"@ && r@[15].action == CommandAction::DateJump,
        r@[16].name@ == "today"@ && r@[16].action == CommandAction::GoToToday,
        forall|i: int| 0 <= i < 4 ==> (#[trigger] r@[i]).description@ == "Quit the application."@,
        r@[4].description@ == "Show keybindings bar."@,
        r@[5].description@ == "Show keybindings bar."@,
        r@[6].description@ == "Hide keybindings bar."@,
        r@[7].description@ == "Hide keybindings bar."@,
        r@[8].description@ == "Enable UI text wrapping."@,
        r@[9].description@ == "Enable UI text wrapping."@,
        r@[10].description@ == "Disable UI text wrapping."@,
        r@[11].description@ == "Disable UI text wrapping."@,
        r@[12].description@ == "Jump to a specific year (e.g., :2025)."@,
        r@[13].description@ == "Jump to a specific date (e.g., :06/15/2025)."@,
        r@[14].description@ == "Jump to a specific date (e.g., :2025-06-15)."@,
        r@[15].description@ == "Jump to a specific day in the current month (e.g., :15)."@,
        r@[16].description@ == "Jump today"@,
        forall|i: int| 0 <= i < 17 ==> (#[trigger] r@[i]).description@.len() > 0,
{
    let mut r: Vec<CommandInfo> = Vec::new();
    r.push(CommandInfo {
        name: "q",
        description: "Quit the application.",
        action: CommandAction::Quit,
    });
    r.push(CommandInfo {
        name: "quit",
        description: "Quit the application.",
        action: CommandAction::Quit,
    });
    r.push(CommandInfo {
        name: "wq",
        description: "Quit the application.",
        action: CommandAction::Quit,
    });
    r.push(CommandInfo {
        name: "x",
        description: "Quit the application.",
        action: CommandAction::Quit,
    });
    r.push(CommandInfo {
        name: "seekeys",
        description: "Show keybindings bar.",
        action: CommandAction::ShowKeybinds,
    });
    r.push(CommandInfo {
        name: "set seekeys",
        description: "Show keybindings bar.",
        action: CommandAction::ShowKeybinds,
    });
    r.push(CommandInfo {
        name: "nokeys",
        description: "Hide keybindings bar.",
        action: CommandAction::HideKeybinds,
    });
    r.push(CommandInfo {
        name: "set nokeys",
        description: "Hide keybindings bar.",
        action: CommandAction::HideKeybinds,
    });
    r.push(CommandInfo {
        name: "wrap",
        description: "Enable UI text wrapping.",
        action: CommandAction::EnableWrap,
    });
    r.push(CommandInfo {
        name: "set wrap",
        description: "Enable UI text wrapping.",
        action: CommandAction::EnableWrap,
    });
    r.push(CommandInfo {
        name: "nowrap",
        description: "Disable UI text wrapping.",
        action: CommandAction::DisableWrap,
    });
    r.push(CommandInfo {
        name: "set nowrap",
        description: "Disable UI text wrapping.",
        action: CommandAction::DisableWrap,
    });
    r.push(CommandInfo {
        name: "YYYY",
        description: "Jump to a specific year (e.g., :2025).",
        action: CommandAction::DateJump,
    });
    r.push(CommandInfo {
        name: "MM/DD/YYYY",
        description: "Jump to a specific date (e.g., :06/15/2025).",
        action: CommandAction::DateJump,
    });
    r.push(CommandInfo {
        name: "YYYY-MM-DD",
        description: "Jump to a specific date (e.g., :2025-06-15).",
        action: CommandAction::DateJump,
    });
    r.push(CommandInfo {
        name: "DD",
        description: "Jump to a specific day in the current month (e.g., :15).",
        action: CommandAction::DateJump,
    });
    r.push(CommandInfo {
        name: "today",
        description: "Jump today",
        action: CommandAction::GoToToday,
    });
    proof {
        reveal_strlit("Quit the application.");
        reveal_strlit("Show keybindings bar.");
        reveal_strlit("Hide keybindings bar.");
        reveal_strlit("Enable UI text wrapping.");
        reveal_strlit("Disable UI text wrapping.");
        reveal_strlit("Jump to a specific year (e.g., :2025).");
        reveal_strlit("Jump to a specific date (e.g., :06/15/2025).");
        reveal_strlit("Jump to a specific date (e.g., :2025-06-15).");
        reveal_strlit("Jump to a specific day in the current month (e.g., :15).");
        reveal_strlit("Jump today");
    }
    r
}

/// The editable command-line input: its characters, a cursor, and the
/// help-display flag.
#[derive(Debug)]
pub struct CommandState {
    pub input: Vec<char>,
    pub cursor_position: usize,
    pub show_help: bool,
}

/// The cursor never leaves the input.
pub open spec fn command_state_wf(s: &CommandState) -> bool {
    s.cursor_position <= s.input@.len()
}

impl CommandState {
    pub fn new() -> (r: Self)
        ensures
            command_state_wf(&r),
            r.input@.len() == 0,
            r.cursor_position == 0,
            !r.show_help,
    {
        CommandState { input: Vec::new(), cursor_position: 0, show_help: false }
    }

    /// Inserts a character at the cursor; the cursor moves past it.
    pub fn add_char(&mut self, ch: char)
        requires
            command_state_wf(old(self)),
            old(self).input@.len() < usize::MAX,
        ensures
            command_state_wf(final(self)),
            final(self).input@ == old(self).input@.insert(old(self).cursor_position as int, ch),
            final(self).cursor_position == old(self).cursor_position + 1,
            final(self).show_help == old(self).show_help,
    {
        self.input.insert(self.cursor_position, ch);
        self.cursor_position = self.cursor_position + 1;
    }

    /// Removes the character before the cursor, if any; the cursor moves
    /// back onto its place.
    pub fn remove_char(&mut self)
        requires
            command_state_wf(old(self)),
        ensures
            command_state_wf(final(self)),
            old(self).cursor_position > 0 ==> final(self).input@ == old(self).input@.remove(
                old(self).cursor_position - 1,
            ) && final(self).cursor_position == old(self).cursor_position - 1,
            old(self).cursor_position == 0 ==> final(self).input == old(self).input
                && final(self).cursor_position == 0,
            final(self).show_help == old(self).show_help,
    {
        if self.cursor_position > 0 {
            self.cursor_position = self.cursor_position - 1;
            let _ = self.input.remove(self.cursor_position);
        }
    }

    /// Moves the cursor one place left, stopping at the front.
    pub fn move_cursor_left(&mut self)
        ensures
            final(self).cursor_position == (if old(self).cursor_position > 0 {
                (old(self).cursor_position - 1) as usize
            } else {
                0usize
            }),
            final(self).input == old(self).input,
            final(self).show_help == old(self).show_help,
    {
        if self.cursor_position > 0 {
            self.cursor_position = self.cursor_position - 1;
        }
    }

    /// Moves the cursor one place right, stopping at the end.
    pub fn move_cursor_right(&mut self)
        requires
            command_state_wf(old(self)),
        ensures
            command_state_wf(final(self)),
            final(self).cursor_position == (if old(self).cursor_position
                < old(self).input@.len() {
                (old(self).cursor_position + 1) as usize
            } else {
                old(self).cursor_position
            }),
            final(self).input == old(self).input,
            final(self).show_help == old(self).show_help,
    {
        if self.cursor_position < self.input.len() {
            self.cursor_position = self.cursor_position + 1;
        }
    }

    /// The input as a string.
    pub fn input_string(&self) -> (r: String)
        ensures
            r@ == self.input@,
    {
        crate::text::string_from_chars(&self.input)
    }
}

pub open spec fn is_digit(c: char) -> bool {
    '0' <= c && c <= '9'
}

pub open spec fn digit_val(c: char) -> int {
    (c as int) - ('0' as int)
}

pub open spec fn all_digits(s: Seq<char>) -> bool {
    forall|i: int| 0 <= i < s.len() ==> is_digit(#[trigger] s[i])
}

/// The number the digit string denotes, most significant digit first.
pub open spec fn digits_val(s: Seq<char>) -> int
    decreases s.len(),
{
    if s.len() == 0 {
        0
    } else {
        digits_val(s.drop_last()) * 10 + digit_val(s.last())
    }
}

/// An unsigned decimal number with an optional leading plus sign, as
/// str::parse reads one into an unsigned type: `Some` exactly when the
/// digits are non-empty, all decimal, and the value stays below `bound`.
pub open spec fn parse_uint(s: Seq<char>, bound: int) -> Option<int> {
    let body = if s.len() > 0 && s[0] == '+' {
        s.drop_first()
    } else {
        s
    };
    if body.len() > 0 && all_digits(body) && digits_val(body) < bound {
        Some(digits_val(body))
    } else {
        None
    }
}

proof fn lemma_digits_val_bounds(s: Seq<char>)
    requires
        all_digits(s),
    ensures
        digits_val(s) >= 0,
        forall|k: int| 0 <= k <= s.len() ==> digits_val(#[trigger] s.subrange(0, k)) <= digits_val(
            s,
        ),
    decreases s.len(),
{
    if s.len() > 0 {
        assert forall|i: int| 0 <= i < s.drop_last().len() implies is_digit(
            #[trigger] s.drop_last()[i],
        ) by {
            assert(s.drop_last()[i] == s[i]);
        }
        lemma_digits_val_bounds(s.drop_last());
        assert(is_digit(s.last()));
        assert forall|k: int| 0 <= k <= s.len() implies digits_val(#[trigger] s.subrange(0, k))
            <= digits_val(s) by {
            if k < s.len() {
                assert(s.subrange(0, k) =~= s.drop_last().subrange(0, k));
                assert(digits_val(s.drop_last().subrange(0, k)) <= digits_val(s.drop_last()));
            } else {
                assert(s.subrange(0, k) =~= s);
            }
        }
    }
}

/// Position of the first slash, -1 if there is none.
pub open spec fn find_slash(s: Seq<char>) -> int
    decreases s.len(),
{
    if s.len() == 0 {
        -1
    } else if s[0] == '/' {
        0
    } else {
        let r = find_slash(s.drop_first());
        if r == -1 {
            -1
        } else {
            r + 1
        }
    }
}

proof fn lemma_find_slash(s: Seq<char>)
    ensures
        -1 <= find_slash(s) < s.len(),
        find_slash(s) == -1 <==> forall|i: int| 0 <= i < s.len() ==> s[i] != '/',
        find_slash(s) >= 0 ==> {
            let p = find_slash(s);
            &&& s[p] == '/'
            &&& forall|i: int| 0 <= i < p ==> s[i] != '/'
        },
    decreases s.len(),
{
    if s.len() > 0 && s[0] != '/' {
        let d = s.drop_first();
        lemma_find_slash(d);
        let r = find_slash(d);
        if r == -1 {
            assert forall|i: int| 0 <= i < s.len() implies s[i] != '/' by {
                if i > 0 {
                    assert(d[i - 1] == s[i]);
                }
            }
        } else {
            assert(s[r + 1] == d[r]);
            assert forall|i: int| 0 <= i < r + 1 implies s[i] != '/' by {
                if i > 0 {
                    assert(d[i - 1] == s[i]);
                }
            }
        }
    }
}

/// What a typed date directive means. Tried in order: a bare year
/// (1900..=2050) keeps the month and clamps the selected day of month; a
/// month/day/year triple names the day itself, accepted when it exists in
/// the navigable years; a bare day of month stays within the current
/// month.
pub open spec fn spec_parse_date(s: Seq<char>, current: Date, selected: Date) -> Option<Date> {
    let year_p = parse_uint(s, 0x8000_0000);
    if year_p is Some && 1900 <= year_p->0 <= 2050 {
        let y = year_p->0;
        let dim = days_in_month_of(y, current.month as int);
        let day = if selected.day as int <= dim {
            selected.day as int
        } else {
            dim
        };
        Some(Date { year: y as i32, month: current.month, day: day as u32 })
    } else {
        let i = find_slash(s);
        let has3 = {
            &&& 0 <= i < s.len()
            &&& 0 <= find_slash(s.subrange(i + 1, s.len() as int))
            &&& {
                let rest = s.subrange(i + 1, s.len() as int);
                let j = find_slash(rest);
                find_slash(rest.subrange(j + 1, rest.len() as int)) == -1
            }
        };
        if has3 {
            let rest = s.subrange(i + 1, s.len() as int);
            let j = find_slash(rest);
            let m_p = parse_uint(s.subrange(0, i), 0x1_0000_0000);
            let d_p = parse_uint(rest.subrange(0, j), 0x1_0000_0000);
            let y_p = parse_uint(rest.subrange(j + 1, rest.len() as int), 0x8000_0000);
            if m_p is Some && d_p is Some && y_p is Some {
                let cand = Date { year: y_p->0 as i32, month: m_p->0 as u32, day: d_p->0 as u32 };
                if m_p->0 < 13 && d_p->0 < 32 && 1 <= y_p->0 <= 9999 && valid_date(cand) {
                    Some(cand)
                } else {
                    None
                }
            } else {
                spec_parse_day_only(s, current)
            }
        } else {
            spec_parse_day_only(s, current)
        }
    }
}

/// A bare day of month: accepted between 1 and 31 and within the current
/// month's length.
pub open spec fn spec_parse_day_only(s: Seq<char>, current: Date) -> Option<Date> {
    let d_p = parse_uint(s, 0x1_0000_0000);
    if d_p is Some && 1 <= d_p->0 <= 31 && d_p->0 <= days_in_month_of(
        current.year as int,
        current.month as int,
    ) {
        Some(Date { year: current.year, month: current.month, day: d_p->0 as u32 })
    } else {
        None
    }
}

/// Parses the digits of `cs[start..end]` as an unsigned number below
/// `bound`, with an optional leading plus sign.
fn parse_uint_chars(cs: &Vec<char>, start: usize, end: usize, bound: u64) -> (r: Option<u64>)
    requires
        start <= end <= cs@.len(),
        0 < bound <= 0x1_0000_0000,
    ensures
        ({
            let spec_r = parse_uint(cs@.subrange(start as int, end as int), bound as int);
            match r {
                Some(v) => spec_r == Some(v as int),
                None => spec_r is None,
            }
        }),
{
    let ghost whole = cs@.subrange(start as int, end as int);
    let mut i = start;
    if i < end && cs[i] == '+' {
        i = i + 1;
        proof {
            assert(whole[0] == '+');
        }
    } else {
        proof {
            if whole.len() > 0 {
                assert(whole[0] == cs@[start as int]);
            }
        }
    }
    let ghost body = cs@.subrange(i as int, end as int);
    proof {
        if whole.len() > 0 && whole[0] == '+' {
            assert(body =~= whole.drop_first());
        } else {
            assert(body =~= whole);
        }
    }
    if i == end {
        return None;
    }
    let mut acc: u64 = 0;
    let ghost base = i as int;
    let mut j = i;
    while j < end
        invariant
            base == i,
            start <= i <= j <= end <= cs@.len(),
            whole == cs@.subrange(start as int, end as int),
            body == cs@.subrange(base, end as int),
            (if whole.len() > 0 && whole[0] == '+' {
                base == start + 1 && body == whole.drop_first()
            } else {
                base == start && body == whole
            }),
            body.len() > 0,
            0 < bound <= 0x1_0000_0000,
            acc < bound,
            all_digits(body.subrange(0, j - base)),
            acc == digits_val(body.subrange(0, j - base)),
        decreases end - j,
    {
        let c = cs[j];
        proof {
            assert(body[j - base] == cs@[j as int]);
            crate::text::lemma_char_code(c);
        }
        let cu = c as u32;
        if cu < 48 || cu > 57 {
            proof {
                assert(!is_digit(body[j - base]));
                assert(!all_digits(body));
            }
            return None;
        }
        let d = cu - 48;
        let next = acc * 10 + (d as u64);
        proof {
            let prefix1 = body.subrange(0, j - base + 1);
            assert(prefix1.drop_last() =~= body.subrange(0, j - base));
            assert(prefix1.last() == body[j - base]);
            assert(digit_val(body[j - base]) == d);
            assert(next == digits_val(prefix1));
            assert forall|k: int| 0 <= k < prefix1.len() implies is_digit(#[trigger] prefix1[k]) by {
                if k < prefix1.len() - 1 {
                    assert(prefix1[k] == body.subrange(0, j - base)[k]);
                }
            }
        }
        if next >= bound {
            proof {
                if all_digits(body) {
                    lemma_digits_val_bounds(body);
                    assert(digits_val(body.subrange(0, j - base + 1)) <= digits_val(body));
                }
            }
            return None;
        }
        acc = next;
        j = j + 1;
    }
    proof {
        assert(body.subrange(0, end as int - base) =~= body);
    }
    Some(acc)
}


/// `s` with leading white space removed.
pub open spec fn trim_front(s: Seq<char>) -> Seq<char>
    decreases s.len(),
{
    if s.len() > 0 && is_space(s[0]) {
        trim_front(s.drop_first())
    } else {
        s
    }
}

/// `s` with trailing white space removed.
pub open spec fn trim_back(s: Seq<char>) -> Seq<char>
    decreases s.len(),
{
    if s.len() > 0 && is_space(s.last()) {
        trim_back(s.drop_last())
    } else {
        s
    }
}

/// `s` with white space removed from both ends, as str::trim leaves it.
pub open spec fn spec_trim(s: Seq<char>) -> Seq<char> {
    trim_back(trim_front(s))
}

/// The characters of `cs` with white space stripped from both ends.
fn trimmed_chars(cs: &Vec<char>) -> (r: Vec<char>)
    ensures
        r@ == spec_trim(cs@),
{
    let n = cs.len();
    proof {
        assert(cs@.subrange(0, n as int) == cs@);
    }
    let mut a: usize = 0;
    loop
        invariant_except_break
            n == cs@.len(),
            0 <= a <= n,
            trim_front(cs@) == trim_front(cs@.subrange(a as int, n as int)),
        ensures
            n == cs@.len(),
            0 <= a <= n,
            trim_front(cs@) == cs@.subrange(a as int, n as int),
        decreases n - a,
    {
        if a >= n {
            proof {
                assert(cs@.subrange(a as int, n as int) =~= Seq::<char>::empty());
            }
            break ;
        }
        if !crate::text::char_is_space(cs[a]) {
            proof {
                assert(cs@.subrange(a as int, n as int)[0] == cs@[a as int]);
            }
            break ;
        }
        proof {
            let cur = cs@.subrange(a as int, n as int);
            assert(cur[0] == cs@[a as int]);
            assert(cur.drop_first() =~= cs@.subrange(a as int + 1, n as int));
        }
        a = a + 1;
    }
    let mut b: usize = n;
    loop
        invariant_except_break
            n == cs@.len(),
            a <= b <= n,
            trim_front(cs@) == cs@.subrange(a as int, n as int),
            trim_back(cs@.subrange(a as int, n as int)) == trim_back(
                cs@.subrange(a as int, b as int),
            ),
        ensures
            n == cs@.len(),
            a <= b <= n,
            spec_trim(cs@) == cs@.subrange(a as int, b as int),
        decreases b - a,
    {
        if b <= a {
            proof {
                assert(cs@.subrange(a as int, b as int) =~= Seq::<char>::empty());
            }
            break ;
        }
        if !crate::text::char_is_space(cs[b - 1]) {
            proof {
                let cur = cs@.subrange(a as int, b as int);
                assert(cur.last() == cs@[b - 1]);
            }
            break ;
        }
        proof {
            let cur = cs@.subrange(a as int, b as int);
            assert(cur.last() == cs@[b - 1]);
            assert(cur.drop_last() =~= cs@.subrange(a as int, b as int - 1));
        }
        b = b - 1;
    }
    let mut r: Vec<char> = Vec::new();
    let mut k = a;
    while k < b
        invariant
            n == cs@.len(),
            a <= k <= b <= n,
            r@ == cs@.subrange(a as int, k as int),
        decreases b - k,
    {
        r.push(cs[k]);
        proof {
            assert(r@ =~= cs@.subrange(a as int, k as int + 1));
        }
        k = k + 1;
    }
    r
}

/// Whether the characters equal the literal.
fn chars_eq(v: &Vec<char>, lit: &str) -> (b: bool)
    ensures
        b == (v@ == lit@),
{
    let l = crate::text::chars_of(lit);
    let n = v.len();
    if n != l.len() {
        return false;
    }
    let mut i: usize = 0;
    while i < n
        invariant
            n == v@.len() && n == l@.len(),
            l@ == lit@,
            0 <= i <= n,
            forall|k: int| 0 <= k < i ==> v@[k] == l@[k],
        decreases n - i,
    {
        if v[i] != l[i] {
            return false;
        }
        i = i + 1;
    }
    proof {
        assert(v@ =~= lit@);
    }
    true
}

/// Position of the first slash at or after `from`.
fn find_slash_from(t: &Vec<char>, from: usize) -> (r: Option<usize>)
    requires
        from <= t@.len(),
    ensures
        ({
            let p = find_slash(t@.subrange(from as int, t@.len() as int));
            match r {
                None => p == -1,
                Some(k) => from <= k < t@.len() && p == k - from,
            }
        }),
{
    let n = t.len();
    let mut k = from;
    while k < n
        invariant
            n == t@.len(),
            from <= k <= n,
            forall|q: int| from <= q < k ==> t@[q] != '/',
        decreases n - k,
    {
        if t[k] == '/' {
            proof {
                let sub = t@.subrange(from as int, n as int);
                lemma_find_slash(sub);
                assert(sub[k - from] == t@[k as int]);
                assert forall|q: int| 0 <= q < k - from implies sub[q] != '/' by {
                    assert(sub[q] == t@[from + q]);
                }
                assert(find_slash(sub) == k - from);
            }
            return Some(k);
        }
        k = k + 1;
    }
    proof {
        let sub = t@.subrange(from as int, n as int);
        lemma_find_slash(sub);
        assert forall|q: int| 0 <= q < sub.len() implies sub[q] != '/' by {
            assert(sub[q] == t@[from + q]);
        }
    }
    None
}

/// Parses a date directive out of already-trimmed characters.
#[verifier::rlimit(100)]
fn parse_date_chars(t: &Vec<char>, current: Date, selected: Date) -> (r: Option<Date>)
    requires
        nav_date_ok(current),
        valid_date(selected),
    ensures
        r == spec_parse_date(t@, current, selected),
        r is Some ==> nav_date_ok(r->0),
{
    let n = t.len();
    proof {
        assert(t@.subrange(0, n as int) == t@);
    }
    match parse_uint_chars(t, 0, n, 0x8000_0000) {
        Some(y) => {
            if 1900 <= y && y <= 2050 {
                let dim = days_in_month(y as i32, current.month);
                let day = if selected.day <= dim {
                    selected.day
                } else {
                    dim
                };
                return Some(Date { year: y as i32, month: current.month, day });
            }
        },
        None => {},
    }
    match find_slash_from(t, 0) {
        Some(i0) => {
            match find_slash_from(t, i0 + 1) {
                Some(j0) => {
                    match find_slash_from(t, j0 + 1) {
                        Some(_) => {
                            proof {
                                let rest = t@.subrange(i0 as int + 1, n as int);
                                let j = j0 - i0 - 1;
                                assert(rest.subrange(j + 1, rest.len() as int) =~= t@.subrange(
                                    j0 as int + 1,
                                    n as int,
                                ));
                            }
                            parse_day_only_chars(t, current)
                        },
                        None => {
                            let mp = parse_uint_chars(t, 0, i0, 0x1_0000_0000);
                            let dp = parse_uint_chars(t, i0 + 1, j0, 0x1_0000_0000);
                            let yp = parse_uint_chars(t, j0 + 1, n, 0x8000_0000);
                            proof {
                                let rest = t@.subrange(i0 as int + 1, n as int);
                                let j = j0 - i0 - 1;
                                assert(rest.subrange(0, j as int) =~= t@.subrange(
                                    i0 as int + 1,
                                    j0 as int,
                                ));
                                assert(rest.subrange(j as int + 1, rest.len() as int)
                                    =~= t@.subrange(j0 as int + 1, n as int));
                                let rest2 = rest.subrange(j as int + 1, rest.len() as int);
                                lemma_find_slash(rest2);
                                assert forall|q: int| 0 <= q < rest2.len() implies rest2[q]
                                    != '/' by {
                                    assert(rest2[q] == t@[j0 + 1 + q]);
                                }
                                assert(find_slash(rest2) == -1);
                            }
                            match (mp, dp, yp) {
                                (Some(m), Some(d), Some(y)) => {
                                    if m >= 1 && m < 13 && d >= 1 && d < 32 && y >= 1 && y <= 9999 {
                                        let cand = Date {
                                            year: y as i32,
                                            month: m as u32,
                                            day: d as u32,
                                        };
                                        if d as u32 <= days_in_month(y as i32, m as u32) {
                                            Some(cand)
                                        } else {
                                            None
                                        }
                                    } else {
                                        None
                                    }
                                },
                                _ => parse_day_only_chars(t, current),
                            }
                        },
                    }
                },
                None => parse_day_only_chars(t, current),
            }
        },
        None => parse_day_only_chars(t, current),
    }
}

/// Parses a bare day-of-month directive.
fn parse_day_only_chars(t: &Vec<char>, current: Date) -> (r: Option<Date>)
    requires
        nav_date_ok(current),
    ensures
        r == spec_parse_day_only(t@, current),
        r is Some ==> nav_date_ok(r->0),
{
    let n = t.len();
    proof {
        assert(t@.subrange(0, n as int) == t@);
    }
    match parse_uint_chars(t, 0, n, 0x1_0000_0000) {
        Some(d) => {
            if 1 <= d && d <= 31 && d as u32 <= days_in_month(current.year, current.month) {
                Some(Date { year: current.year, month: current.month, day: d as u32 })
            } else {
                None
            }
        },
        None => None,
    }
}

/// Parses a date directive: a bare year keeps the month and clamps the
/// selected day; month/day/year names the day itself; a bare day stays in
/// the current month.
pub fn parse_date_command(input: &str, current: Date, selected: Date) -> (r: Option<Date>)
    requires
        nav_date_ok(current),
        valid_date(selected),
    ensures
        r == spec_parse_date(input@, current, selected),
        r is Some ==> nav_date_ok(r->0),
{
    let cs = crate::text::chars_of(input);
    parse_date_chars(&cs, current, selected)
}

/// The intent a typed command resolves to.
#[derive(Debug, Clone, Copy, PartialEq, Eq, Structural)]
pub enum CommandOutcome {
    SetKeybindsVisible(bool),
    Quit { save: bool },
    Help,
    SetWrap(bool),
    Navigate(Date),
    Nothing,
    Unknown,
}

/// What a typed command means, after trimming: the keybinding-bar
/// toggles, nothing for an empty line, the quit forms, help, the wrap
/// toggles, a date jump, and an unknown command otherwise.
pub open spec fn spec_interpret(s: Seq<char>, current: Date, selected: Date) -> CommandOutcome {
    let t = spec_trim(s);
    if t == ":set seekeys"@ || t == "set seekeys"@ || t == "seekeys"@ {
        CommandOutcome::SetKeybindsVisible(true)
    } else if t == ":set nokeys"@ || t == "set nokeys"@ || t == "nokeys"@ {
        CommandOutcome::SetKeybindsVisible(false)
    } else if t.len() == 0 {
        CommandOutcome::Nothing
    } else if t == "q"@ || t == "quit"@ || t == "q!"@ || t == "quit!"@ {
        CommandOutcome::Quit { save: false }
    } else if t == "wq"@ || t == "x"@ {
        CommandOutcome::Quit { save: true }
    } else if t == "help"@ {
        CommandOutcome::Help
    } else if t == "set wrap"@ || t == "wrap"@ {
        CommandOutcome::SetWrap(true)
    } else if t == "set nowrap"@ || t == "nowrap"@ {
        CommandOutcome::SetWrap(false)
    } else {
        match spec_parse_date(t, current, selected) {
            Some(d) => CommandOutcome::Navigate(d),
            None => CommandOutcome::Unknown,
        }
    }
}

/// Resolves a typed command to its intent.
pub fn interpret_command(input: &str, current: Date, selected: Date) -> (r: CommandOutcome)
    requires
        nav_date_ok(current),
        valid_date(selected),
    ensures
        r == spec_interpret(input@, current, selected),
        (match r {
            CommandOutcome::Navigate(d) => nav_date_ok(d),
            _ => true,
        }),
{
    let cs = crate::text::chars_of(input);
    let t = trimmed_chars(&cs);
    if chars_eq(&t, ":set seekeys") || chars_eq(&t, "set seekeys") || chars_eq(&t, "seekeys") {
        CommandOutcome::SetKeybindsVisible(true)
    } else if chars_eq(&t, ":set nokeys") || chars_eq(&t, "set nokeys") || chars_eq(&t, "nokeys") {
        CommandOutcome::SetKeybindsVisible(false)
    } else if t.len() == 0 {
        CommandOutcome::Nothing
    } else if chars_eq(&t, "q") || chars_eq(&t, "quit") || chars_eq(&t, "q!") || chars_eq(
        &t,
        "quit!",
    ) {
        CommandOutcome::Quit { save: false }
    } else if chars_eq(&t, "wq") || chars_eq(&t, "x") {
        CommandOutcome::Quit { save: true }
    } else if chars_eq(&t, "help") {
        CommandOutcome::Help
    } else if chars_eq(&t, "set wrap") || chars_eq(&t, "wrap") {
        CommandOutcome::SetWrap(true)
    } else if chars_eq(&t, "set nowrap") || chars_eq(&t, "nowrap") {
        CommandOutcome::SetWrap(false)
    } else {
        match parse_date_chars(&t, current, selected) {
            Some(d) => CommandOutcome::Navigate(d),
            None => CommandOutcome::Unknown,
        }
    }
}

} // verus!
