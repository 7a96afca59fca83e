//! Plain-value descriptions of the dashboard's controls: panes, modes,
//! actions, button rows, the two-line session list entries, and terminal
//! color helpers.

use vstd::prelude::*;
use crate::scan::SessionSummary;
use crate::text::{dec_spec, str_to_chars, usize_to_string};

verus! {

/// The pane holding the keyboard focus.
#[derive(Clone, Copy, PartialEq, Eq, Structural)]
pub enum Focus {
    Projects,
    Sessions,
    Preview,
}

/// A batch action on one or more sessions.
#[derive(Clone, Copy, PartialEq, Eq, Structural)]
pub enum Action {
    Move,
    Copy,
    Fork,
    Delete,
    ProjectRename,
    ProjectCopy,
}

/// Whether keys navigate or feed the input line.
#[derive(Clone, Copy, PartialEq, Eq, Structural)]
pub enum Mode {
    Normal,
    Input,
}

/// What the preview pane shows.
#[derive(Clone, Copy, PartialEq, Eq, Structural)]
pub enum PreviewMode {
    Chat,
    Events,
}

/// One clickable control in the status pane.
#[derive(Clone, Copy, PartialEq, Eq, Structural)]
pub enum StatusButton {
    Apply,
    Cancel,
    SelectAll,
    Invert,
    Move,
    Copy,
    Fork,
    Delete,
    ProjectRename,
    ProjectCopy,
    Refresh,
    Quit,
}

/// The label text of a button.
pub open spec fn button_label_spec(button: StatusButton) -> Seq<char> {
    match button {
        StatusButton::Apply => "[Apply]"@,
        StatusButton::Cancel => "[Cancel]"@,
        StatusButton::SelectAll => "[Select All]"@,
        StatusButton::Invert => "[Invert]"@,
        StatusButton::Move => "[Move]"@,
        StatusButton::Copy => "[Copy]"@,
        StatusButton::Fork => "[Fork]"@,
        StatusButton::Delete => "[Delete]"@,
        StatusButton::ProjectRename => "[Rename Folder]"@,
        StatusButton::ProjectCopy => "[Copy Folder]"@,
        StatusButton::Refresh => "[Refresh]"@,
        StatusButton::Quit => "[Quit]"@,
    }
}

/// The label shown for one status button.
pub fn status_button_label(button: StatusButton) -> (r: &'static str)
    ensures
        r@ == button_label_spec(button),
{
    match button {
        StatusButton::Apply => "[Apply]",
        StatusButton::Cancel => "[Cancel]",
        StatusButton::SelectAll => "[Select All]",
        StatusButton::Invert => "[Invert]",
        StatusButton::Move => "[Move]",
        StatusButton::Copy => "[Copy]",
        StatusButton::Fork => "[Fork]",
        StatusButton::Delete => "[Delete]",
        StatusButton::ProjectRename => "[Rename Folder]",
        StatusButton::ProjectCopy => "[Copy Folder]",
        StatusButton::Refresh => "[Refresh]",
        StatusButton::Quit => "[Quit]",
    }
}

/// The buttons offered for a mode and focus.
pub open spec fn status_buttons_spec(mode: Mode, focus: Focus) -> Seq<StatusButton> {
    if mode == Mode::Input {
        seq![StatusButton::Apply, StatusButton::Cancel]
    } else if focus == Focus::Projects {
        seq![
            StatusButton::ProjectRename,
            StatusButton::ProjectCopy,
            StatusButton::Refresh,
            StatusButton::Quit,
        ]
    } else if focus == Focus::Sessions {
        seq![
            StatusButton::SelectAll,
            StatusButton::Invert,
            StatusButton::Move,
            StatusButton::Copy,
            StatusButton::Fork,
            StatusButton::Delete,
            StatusButton::Refresh,
            StatusButton::Quit,
        ]
    } else {
        seq![
            StatusButton::Move,
            StatusButton::Copy,
            StatusButton::Fork,
            StatusButton::Delete,
            StatusButton::Refresh,
            StatusButton::Quit,
        ]
    }
}

/// The row of controls shown in the status pane.
pub fn status_buttons(mode: Mode, focus: Focus) -> (r: Vec<StatusButton>)
    ensures
        r@ == status_buttons_spec(mode, focus),
{
    let mut out: Vec<StatusButton> = Vec::new();
    if mode == Mode::Input {
        out.push(StatusButton::Apply);
        out.push(StatusButton::Cancel);
    } else if focus == Focus::Projects {
        out.push(StatusButton::ProjectRename);
        out.push(StatusButton::ProjectCopy);
        out.push(StatusButton::Refresh);
        out.push(StatusButton::Quit);
    } else if focus == Focus::Sessions {
        out.push(StatusButton::SelectAll);
        out.push(StatusButton::Invert);
        out.push(StatusButton::Move);
        out.push(StatusButton::Copy);
        out.push(StatusButton::Fork);
        out.push(StatusButton::Delete);
        out.push(StatusButton::Refresh);
        out.push(StatusButton::Quit);
    } else {
        out.push(StatusButton::Move);
        out.push(StatusButton::Copy);
        out.push(StatusButton::Fork);
        out.push(StatusButton::Delete);
        out.push(StatusButton::Refresh);
        out.push(StatusButton::Quit);
    }
    proof {
        assert(out@ =~= status_buttons_spec(mode, focus));
    }
    out
}

/// The two pretty lines of one session list entry.
pub open spec fn session_item_lines_spec(s: crate::scan::SessionSummaryV) -> (
    Seq<char>,
    Seq<char>,
) {
    (
        s.started_at + " | "@ + dec_spec(s.event_count) + " events"@,
        s.id.take(if s.id.len() < 8 {
            s.id.len() as int
        } else {
            8
        }) + " | "@ + s.file_name,
    )
}

/// Formats one session as its two list lines: when it started and how many
/// events it holds, then the first eight characters of its id and its file
/// name.
pub fn format_session_item_lines(session: &SessionSummary) -> (r: (String, String))
    ensures
        (r.0@, r.1@) == session_item_lines_spec(session@),
{
    let mut line1 = session.started_at.clone();
    line1.append(" | ");
    let count = usize_to_string(session.event_count);
    line1.append(count.as_str());
    line1.append(" events");
    let idc = str_to_chars(session.id.as_str());
    let upto = if idc.len() < 8 {
        idc.len()
    } else {
        8
    };
    let mut short: Vec<char> = Vec::new();
    let mut i: usize = 0;
    while i < upto
        invariant
            0 <= i <= upto <= idc@.len(),
            idc@ == session.id@,
            short@ == session.id@.take(i as int),
        decreases upto - i,
    {
        short.push(idc[i]);
        proof {
            assert(short@ =~= session.id@.take(i + 1));
        }
        i += 1;
    }
    let mut line2 = crate::text::chars_to_string(&short);
    line2.append(" | ");
    line2.append(session.file_name.as_str());
    (line1, line2)
}

// ---------------------------------------------------------------------------
// Terminal color helpers.
// ---------------------------------------------------------------------------

/// A decimal digit.
pub open spec fn is_digit(c: char) -> bool {
    '0' <= c && c <= '9'
}

/// The numeric value of the first `n` digit characters.
pub open spec fn digits_value(s: Seq<char>, n: int) -> int
    decreases n,
{
    if n <= 0 {
        0
    } else {
        digits_value(s, n - 1) * 10 + (s[n - 1] as int - '0' as int)
    }
}

/// The text with one leading plus sign removed.
pub open spec fn plus_stripped(s: Seq<char>) -> Seq<char> {
    if s.len() > 0 && s[0] == '+' {
        s.drop_first()
    } else {
        s
    }
}

/// What reading the text as a `u8` yields: an optional plus sign, then one
/// or more digits whose value fits.
pub open spec fn parse_u8_spec(s: Seq<char>) -> Option<u8> {
    let body = plus_stripped(s);
    if body.len() == 0 || !(forall|i: int|
        0 <= i < plus_stripped(s).len() ==> is_digit(#[trigger] plus_stripped(s)[i])) {
        None
    } else if digits_value(body, body.len() as int) > 255 {
        None
    } else {
        Some(digits_value(body, body.len() as int) as u8)
    }
}

/// The text after the last semicolon (the whole text when there is none).
pub open spec fn last_semi_field(s: Seq<char>) -> Seq<char>
    decreases s.len(),
{
    if s.len() == 0 {
        Seq::empty()
    } else if s.last() == ';' {
        Seq::empty()
    } else {
        last_semi_field(s.drop_last()).push(s.last())
    }
}

/// The text without leading whitespace.
pub open spec fn trim_start_spec(s: Seq<char>) -> Seq<char>
    decreases s.len(),
{
    if s.len() > 0 && crate::text::is_space_char(s[0]) {
        trim_start_spec(s.drop_first())
    } else {
        s
    }
}

/// The text without trailing whitespace.
pub open spec fn trim_end_spec(s: Seq<char>) -> Seq<char>
    decreases s.len(),
{
    if s.len() > 0 && crate::text::is_space_char(s.last()) {
        trim_end_spec(s.drop_last())
    } else {
        s
    }
}

/// The text without surrounding whitespace.
pub open spec fn trim_spec(s: Seq<char>) -> Seq<char> {
    trim_end_spec(trim_start_spec(s))
}

/// A prefix of digits is worth at most the whole digit string.
proof fn lemma_digits_monotone(s: Seq<char>, k: int, n: int)
    requires
        0 <= k <= n <= s.len(),
        forall|i: int| 0 <= i < n ==> is_digit(#[trigger] s[i]),
        digits_value(s, k) >= 0,
    ensures
        digits_value(s, n) >= digits_value(s, k),
        digits_value(s, n) >= 0,
    decreases n - k,
{
    if k < n {
        assert(digits_value(s, k + 1) == digits_value(s, k) * 10 + (s[k] as int - '0' as int));
        assert(s[k] as int - '0' as int >= 0);
        lemma_digits_monotone(s, k + 1, n);
    }
}

/// Collects the text after the last semicolon.
#[verifier::loop_isolation(false)]
fn last_semi_field_exec(raw: &str) -> (r: Vec<char>)
    ensures
        r@ == last_semi_field(raw@),
{
    let cs = str_to_chars(raw);
    let mut cur: Vec<char> = Vec::new();
    let mut i: usize = 0;
    while i < cs.len()
        invariant
            0 <= i <= cs@.len(),
            cs@ == raw@,
            cur@ == last_semi_field(raw@.take(i as int)),
        decreases cs@.len() - i,
    {
        proof {
            assert(raw@.take(i + 1).drop_last() =~= raw@.take(i as int));
        }
        if cs[i] == ';' {
            cur = Vec::new();
        } else {
            cur.push(cs[i]);
        }
        i += 1;
    }
    proof {
        assert(raw@.take(raw@.len() as int) =~= raw@);
    }
    cur
}

/// Trims surrounding whitespace off a character vector.
#[verifier::loop_isolation(false)]
fn trim_chars(cs: &Vec<char>) -> (r: Vec<char>)
    ensures
        r@ == trim_spec(cs@),
{
    let n = cs.len();
    proof {
        assert(cs@.skip(0) =~= cs@);
    }
    let mut lo: usize = 0;
    while lo < n && crate::text::is_space(cs[lo])
        invariant
            0 <= lo <= n,
            n == cs@.len(),
            trim_start_spec(cs@) == trim_start_spec(cs@.skip(lo as int)),
        decreases n - lo,
    {
        proof {
            assert(cs@.skip(lo as int).drop_first() =~= cs@.skip(lo + 1));
        }
        lo += 1;
    }
    proof {
        assert(trim_start_spec(cs@.skip(lo as int)) == cs@.skip(lo as int));
    }
    let mut hi: usize = n;
    while hi > lo && crate::text::is_space(cs[hi - 1])
        invariant
            lo <= hi <= n,
            n == cs@.len(),
            trim_start_spec(cs@) == cs@.skip(lo as int),
            trim_end_spec(cs@.skip(lo as int)) == trim_end_spec(
                cs@.subrange(lo as int, hi as int),
            ),
        decreases hi,
    {
        proof {
            assert(cs@.subrange(lo as int, hi as int).drop_last() =~= cs@.subrange(
                lo as int,
                hi - 1,
            ));
            assert(cs@.subrange(lo as int, hi as int).last() == cs@[hi - 1]);
        }
        hi -= 1;
    }
    proof {
        if hi == lo {
            assert(cs@.subrange(lo as int, hi as int) =~= Seq::<char>::empty());
        }
        assert(trim_end_spec(cs@.subrange(lo as int, hi as int)) == cs@.subrange(
            lo as int,
            hi as int,
        ));
    }
    let mut out: Vec<char> = Vec::new();
    let mut i = lo;
    while i < hi
        invariant
            lo <= i <= hi <= n,
            n == cs@.len(),
            out@ == cs@.subrange(lo as int, i as int),
        decreases hi - i,
    {
        out.push(cs[i]);
        proof {
            assert(out@ =~= cs@.subrange(lo as int, i + 1));
        }
        i += 1;
    }
    out
}

/// Parses the background color index out of a `COLORFGBG`-style value: the
/// text after the last semicolon, trimmed, read as a `u8`.
#[verifier::loop_isolation(false)]
pub fn parse_colorfgbg_bg_index(raw: &str) -> (r: Option<u8>)
    ensures
        r == parse_u8_spec(trim_spec(last_semi_field(raw@))),
{
    let field = last_semi_field_exec(raw);
    let t = trim_chars(&field);
    let ghost ts = trim_spec(last_semi_field(raw@));
    let mut j: usize = 0;
    if t.len() > 0 && t[0] == '+' {
        j = 1;
    }
    let ghost body = plus_stripped(ts);
    proof {
        assert(body =~= t@.skip(j as int));
    }
    if j >= t.len() {
        proof {
            assert(t@ == ts);
            assert(ts == trim_spec(last_semi_field(raw@)));
            assert(body.len() == 0);
            assert(parse_u8_spec(ts) is None);
        }
        return None;
    }
    let mut acc: u32 = 0;
    let mut i = j;
    while i < t.len()
        invariant
            j <= i <= t@.len(),
            t@ == ts,
            body == t@.skip(j as int),
            forall|k: int| 0 <= k < i - j ==> is_digit(#[trigger] body[k]),
            acc as int == digits_value(body, i - j),
            acc <= 255,
        decreases t@.len() - i,
    {
        let c = t[i];
        if !('0' <= c && c <= '9') {
            proof {
                assert(body[i - j] == c);
                assert(!is_digit(body[i - j]));
                assert(!(forall|k: int|
                    0 <= k < plus_stripped(ts).len() ==> is_digit(
                        #[trigger] plus_stripped(ts)[k],
                    ))) by {
                    if forall|k: int|
                        0 <= k < plus_stripped(ts).len() ==> is_digit(
                            #[trigger] plus_stripped(ts)[k],
                        ) {
                        assert(is_digit(plus_stripped(ts)[i - j]));
                    }
                }
                assert(parse_u8_spec(ts) is None);
            }
            return None;
        }
        let d: u32 = c as u32 - '0' as u32;
        let next: u32 = acc * 10 + d;
        proof {
            assert(body[i - j] == c);
            assert(digits_value(body, i - j + 1) == acc as int * 10 + d);
        }
        if next > 255 {
            proof {
                if forall|k: int|
                    0 <= k < plus_stripped(ts).len() ==> is_digit(#[trigger] plus_stripped(ts)[k]) {
                    lemma_digits_monotone(body, i - j + 1, body.len() as int);
                    assert(digits_value(body, body.len() as int) > 255);
                }
                assert(parse_u8_spec(ts) is None);
            }
            return None;
        }
        acc = next;
        i += 1;
    }
    proof {
        assert(i - j == body.len());
    }
    Some(acc as u8)
}

/// The red, green and blue parts of one ANSI palette index: the sixteen
/// basic colors, the six-by-six-by-six cube, then the grayscale ramp.
pub open spec fn ansi_rgb_spec(idx: u8) -> (u8, u8, u8) {
    let i = idx as int;
    if i == 0 {
        (0u8, 0u8, 0u8)
    } else if i == 1 {
        (205u8, 0u8, 0u8)
    } else if i == 2 {
        (0u8, 205u8, 0u8)
    } else if i == 3 {
        (205u8, 205u8, 0u8)
    } else if i == 4 {
        (0u8, 0u8, 238u8)
    } else if i == 5 {
        (205u8, 0u8, 205u8)
    } else if i == 6 {
        (0u8, 205u8, 205u8)
    } else if i == 7 {
        (229u8, 229u8, 229u8)
    } else if i == 8 {
        (127u8, 127u8, 127u8)
    } else if i == 9 {
        (255u8, 0u8, 0u8)
    } else if i == 10 {
        (0u8, 255u8, 0u8)
    } else if i == 11 {
        (255u8, 255u8, 0u8)
    } else if i == 12 {
        (92u8, 92u8, 255u8)
    } else if i == 13 {
        (255u8, 0u8, 255u8)
    } else if i == 14 {
        (0u8, 255u8, 255u8)
    } else if i == 15 {
        (255u8, 255u8, 255u8)
    } else if i <= 231 {
        let c = i - 16;
        (cube_step(c / 36), cube_step((c % 36) / 6), cube_step(c % 6))
    } else {
        let g = (8 + (i - 232) * 10) as u8;
        (g, g, g)
    }
}

/// One level of the color cube.
pub open spec fn cube_step(v: int) -> u8 {
    if v == 0 {
        0u8
    } else if v == 1 {
        95u8
    } else if v == 2 {
        135u8
    } else if v == 3 {
        175u8
    } else if v == 4 {
        215u8
    } else {
        255u8
    }
}

/// Maps one level of the color cube to its channel value.
fn cube_step_exec(v: u8) -> (r: u8)
    requires
        v <= 5,
    ensures
        r == cube_step(v as int),
{
    if v == 0 {
        0
    } else if v == 1 {
        95
    } else if v == 2 {
        135
    } else if v == 3 {
        175
    } else if v == 4 {
        215
    } else {
        255
    }
}

/// Maps an ANSI palette index to its red, green and blue parts.
pub fn ansi_index_to_rgb(idx: u8) -> (r: (u8, u8, u8))
    ensures
        r == ansi_rgb_spec(idx),
{
    if idx < 16 {
        if idx == 0 {
            (0, 0, 0)
        } else if idx == 1 {
            (205, 0, 0)
        } else if idx == 2 {
            (0, 205, 0)
        } else if idx == 3 {
            (205, 205, 0)
        } else if idx == 4 {
            (0, 0, 238)
        } else if idx == 5 {
            (205, 0, 205)
        } else if idx == 6 {
            (0, 205, 205)
        } else if idx == 7 {
            (229, 229, 229)
        } else if idx == 8 {
            (127, 127, 127)
        } else if idx == 9 {
            (255, 0, 0)
        } else if idx == 10 {
            (0, 255, 0)
        } else if idx == 11 {
            (255, 255, 0)
        } else if idx == 12 {
            (92, 92, 255)
        } else if idx == 13 {
            (255, 0, 255)
        } else if idx == 14 {
            (0, 255, 255)
        } else {
            (255, 255, 255)
        }
    } else if idx <= 231 {
        let c = idx - 16;
        (cube_step_exec(c / 36), cube_step_exec((c % 36) / 6), cube_step_exec(c % 6))
    } else {
        let g = 8 + (idx - 232) * 10;
        (g, g, g)
    }
}

} // verus!