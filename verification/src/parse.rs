//! Parsing of textual window manager commands, as they arrive from the
//! user configuration or over IPC: whitespace-split words to the typed
//! command. Bare command words, and the flag-bearing forms of the
//! resize, size, focus and move commands, are recognized exactly.

use vstd::prelude::*;
use vstd::string::{StrSliceExecFns, StringExecFns};

use crate::commands::{
    InvokeCommand, InvokeFocusCommand, InvokeMoveCommand, InvokeResizeCommand, LengthUnit,
    LengthValue,
};
use crate::geometry::Direction;

verus! {

/// Whether a character is a decimal digit.
pub open spec fn is_digit(c: char) -> bool {
    '0' <= c && c <= '9'
}

/// The number a digit string denotes, most significant digit first.
pub open spec fn digits_value(s: Seq<char>) -> int
    decreases s.len(),
{
    if s.len() == 0 {
        0
    } else {
        digits_value(s.drop_last()) * 10 + (s.last() as int - '0' as int)
    }
}

/// Digit strings are bounded by their length.
proof fn lemma_digits_bound(s: Seq<char>)
    requires
        all_digits(s),
    ensures
        0 <= digits_value(s),
        s.len() <= 6 ==> digits_value(s) < 1000000,
        s.len() <= 5 ==> digits_value(s) < 100000,
        s.len() <= 4 ==> digits_value(s) < 10000,
        s.len() <= 3 ==> digits_value(s) < 1000,
        s.len() <= 2 ==> digits_value(s) < 100,
        s.len() <= 1 ==> digits_value(s) < 10,
    decreases s.len(),
{
    if s.len() > 0 {
        assert(all_digits(s.drop_last())) by {
            assert(forall|i: int|
                0 <= i < s.drop_last().len() ==> #[trigger] s.drop_last()[i] == s[i]);
        }
        lemma_digits_bound(s.drop_last());
        assert('0' as int <= s.last() as int <= '9' as int);
    }
}

/// Whether every character of the word is a digit.
pub open spec fn all_digits(s: Seq<char>) -> bool {
    forall|i: int| 0 <= i < s.len() ==> is_digit(#[trigger] s[i])
}

/// The number a word denotes: one to six digits.
pub open spec fn spec_parse_number(w: Seq<char>) -> Option<u64> {
    if 1 <= w.len() <= 6 && all_digits(w) {
        Some(digits_value(w) as u64)
    } else {
        None
    }
}

/// The length a word denotes: digits with a trailing percent sign for a
/// percentage, bare digits for pixels.
pub open spec fn spec_parse_length(w: Seq<char>) -> Option<LengthValue> {
    if w.len() >= 1 && w.last() == '%' {
        match spec_parse_number(w.drop_last()) {
            Some(v) => Some(LengthValue { amount: v as i32, unit: LengthUnit::Percent }),
            None => None,
        }
    } else {
        match spec_parse_number(w) {
            Some(v) => Some(LengthValue { amount: v as i32, unit: LengthUnit::Pixels }),
            None => None,
        }
    }
}

/// The direction a word denotes.
pub open spec fn spec_parse_direction(w: Seq<char>) -> Option<Direction> {
    if w == "left"@ {
        Some(Direction::Left)
    } else if w == "right"@ {
        Some(Direction::Right)
    } else if w == "up"@ {
        Some(Direction::Up)
    } else if w == "down"@ {
        Some(Direction::Down)
    } else {
        None
    }
}

/// A focus command with no target chosen.
pub open spec fn empty_focus() -> InvokeFocusCommand {
    InvokeFocusCommand {
        direction: None,
        workspace: None,
        monitor: None,
        next_active_workspace: false,
        prev_active_workspace: false,
        next_workspace: false,
        prev_workspace: false,
        recent_workspace: false,
    }
}

/// A move command with no target chosen.
pub open spec fn empty_move() -> InvokeMoveCommand {
    InvokeMoveCommand {
        direction: None,
        workspace: None,
        next_active_workspace: false,
        prev_active_workspace: false,
        next_workspace: false,
        prev_workspace: false,
        recent_workspace: false,
    }
}

/// The resize arguments a word list denotes: one or two flag/value
/// pairs, `--width` and `--height` in either order.
pub open spec fn spec_parse_resize(words: Seq<Seq<char>>) -> Option<InvokeResizeCommand> {
    if words.len() == 2 && words[0] == "--width"@ {
        match spec_parse_length(words[1]) {
            Some(l) => Some(InvokeResizeCommand { width: Some(l), height: None }),
            None => None,
        }
    } else if words.len() == 2 && words[0] == "--height"@ {
        match spec_parse_length(words[1]) {
            Some(l) => Some(InvokeResizeCommand { width: None, height: Some(l) }),
            None => None,
        }
    } else if words.len() == 4 && words[0] == "--width"@ && words[2] == "--height"@ {
        match (spec_parse_length(words[1]), spec_parse_length(words[3])) {
            (Some(wl), Some(hl)) => Some(InvokeResizeCommand { width: Some(wl), height: Some(hl) }),
            _ => None,
        }
    } else if words.len() == 4 && words[0] == "--height"@ && words[2] == "--width"@ {
        match (spec_parse_length(words[1]), spec_parse_length(words[3])) {
            (Some(hl), Some(wl)) => Some(InvokeResizeCommand { width: Some(wl), height: Some(hl) }),
            _ => None,
        }
    } else {
        None
    }
}

/// The focus target a word list denotes: exactly one of the mutually
/// exclusive flags.
pub open spec fn spec_parse_focus(words: Seq<Seq<char>>) -> Option<InvokeFocusCommand> {
    if words.len() == 2 && words[0] == "--direction"@ {
        match spec_parse_direction(words[1]) {
            Some(d) => Some(InvokeFocusCommand { direction: Some(d), ..empty_focus() }),
            None => None,
        }
    } else if words.len() == 2 && words[0] == "--workspace"@ {
        match spec_parse_number(words[1]) {
            Some(w) => Some(InvokeFocusCommand { workspace: Some(w), ..empty_focus() }),
            None => None,
        }
    } else if words.len() == 2 && words[0] == "--monitor"@ {
        match spec_parse_number(words[1]) {
            Some(m) => Some(
                InvokeFocusCommand { monitor: Some(m as usize), ..empty_focus() },
            ),
            None => None,
        }
    } else if words.len() == 1 && words[0] == "--next-workspace"@ {
        Some(InvokeFocusCommand { next_workspace: true, ..empty_focus() })
    } else if words.len() == 1 && words[0] == "--prev-workspace"@ {
        Some(InvokeFocusCommand { prev_workspace: true, ..empty_focus() })
    } else if words.len() == 1 && words[0] == "--recent-workspace"@ {
        Some(InvokeFocusCommand { recent_workspace: true, ..empty_focus() })
    } else {
        None
    }
}

/// The move target a word list denotes.
pub open spec fn spec_parse_move(words: Seq<Seq<char>>) -> Option<InvokeMoveCommand> {
    if words.len() == 2 && words[0] == "--direction"@ {
        match spec_parse_direction(words[1]) {
            Some(d) => Some(InvokeMoveCommand { direction: Some(d), ..empty_move() }),
            None => None,
        }
    } else if words.len() == 2 && words[0] == "--workspace"@ {
        match spec_parse_number(words[1]) {
            Some(w) => Some(InvokeMoveCommand { workspace: Some(w), ..empty_move() }),
            None => None,
        }
    } else {
        None
    }
}

/// The typed command a word list denotes: the first word selects the
/// command, the rest are its flags.
pub open spec fn spec_parse_invoke(words: Seq<Seq<char>>) -> Option<InvokeCommand> {
    if words.len() == 0 {
        None
    } else if words[0] == "close"@ {
        Some(InvokeCommand::Close)
    } else if words[0] == "ignore"@ {
        Some(InvokeCommand::Ignore)
    } else if words[0] == "set-minimized"@ {
        Some(InvokeCommand::SetMinimized)
    } else if words[0] == "set-tiling"@ {
        Some(InvokeCommand::SetTiling)
    } else if words[0] == "toggle-minimized"@ {
        Some(InvokeCommand::ToggleMinimized)
    } else if words[0] == "toggle-tiling"@ {
        Some(InvokeCommand::ToggleTiling)
    } else if words[0] == "toggle-tiling-direction"@ {
        Some(InvokeCommand::ToggleTilingDirection)
    } else if words[0] == "wm-exit"@ {
        Some(InvokeCommand::WmExit)
    } else if words[0] == "wm-redraw"@ {
        Some(InvokeCommand::WmRedraw)
    } else if words[0] == "wm-reload-config"@ {
        Some(InvokeCommand::WmReloadConfig)
    } else if words[0] == "wm-toggle-pause"@ {
        Some(InvokeCommand::WmTogglePause)
    } else if words[0] == "resize"@ {
        match spec_parse_resize(words.drop_first()) {
            Some(a) => Some(InvokeCommand::Resize(a)),
            None => None,
        }
    } else if words[0] == "size"@ {
        match spec_parse_resize(words.drop_first()) {
            Some(a) => Some(InvokeCommand::Size(a)),
            None => None,
        }
    } else if words[0] == "focus"@ {
        match spec_parse_focus(words.drop_first()) {
            Some(a) => Some(InvokeCommand::Focus(a)),
            None => None,
        }
    } else if words[0] == "move"@ {
        match spec_parse_move(words.drop_first()) {
            Some(a) => Some(InvokeCommand::Move(a)),
            None => None,
        }
    } else {
        None
    }
}

/// Parses digits into a number, exactly as `spec_parse_number` says.
fn parse_number(w: &str) -> (r: Option<u64>)
    ensures
        r == spec_parse_number(w@),
{
    let n = w.unicode_len();
    if n < 1 || n > 6 {
        return None;
    }
    let mut i: usize = 0;
    let mut acc: u64 = 0;
    proof {
        assert(w@.take(0) =~= Seq::<char>::empty());
    }
    while i < n
        invariant
            0 <= i <= n,
            n == w@.len(),
            n <= 6,
            all_digits(w@.take(i as int)),
            acc == digits_value(w@.take(i as int)),
            acc < 1000000,
        decreases n - i,
    {
        let c = w.get_char(i);
        if c < '0' || c > '9' {
            proof {
                assert(!is_digit(w@[i as int]));
            }
            return None;
        }
        proof {
            lemma_digits_bound(w@.take(i as int));
            assert(w@.take(i as int).len() <= 5);
        }
        let d = (c as u32) - ('0' as u32);
        acc = acc * 10 + (d as u64);
        proof {
            assert(w@.take(i as int + 1).drop_last() =~= w@.take(i as int));
            assert(w@.take(i as int + 1).last() == w@[i as int]);
            assert(digits_value(w@.take(i as int + 1)) == digits_value(w@.take(i as int)) * 10 + (
            w@[i as int] as int - '0' as int));
            assert(all_digits(w@.take(i as int + 1))) by {
                assert(forall|j: int|
                    0 <= j < i + 1 ==> #[trigger] w@.take(i as int + 1)[j] == w@[j]);
                assert(forall|j: int|
                    0 <= j < i ==> #[trigger] w@.take(i as int)[j] == w@[j]);
            }
            lemma_digits_bound(w@.take(i as int + 1));
        }
        i += 1;
    }
    proof {
        assert(w@.take(n as int) =~= w@);
    }
    Some(acc)
}

/// Parses a length, exactly as `spec_parse_length` says.
fn parse_length(w: &str) -> (r: Option<LengthValue>)
    ensures
        r == spec_parse_length(w@),
{
    let n = w.unicode_len();
    if n >= 1 && w.get_char(n - 1) == '%' {
        let digits = w.substring_char(0, n - 1);
        proof {
            assert(digits@ =~= w@.drop_last());
        }
        match parse_number(digits) {
            Some(v) => Some(LengthValue { amount: v as i32, unit: LengthUnit::Percent }),
            None => None,
        }
    } else {
        match parse_number(w) {
            Some(v) => Some(LengthValue { amount: v as i32, unit: LengthUnit::Pixels }),
            None => None,
        }
    }
}

/// Parses a direction word, exactly as `spec_parse_direction` says.
fn parse_direction(w: &String) -> (r: Option<Direction>)
    ensures
        r == spec_parse_direction(w@),
{
    if *w == String::from_str("left") {
        Some(Direction::Left)
    } else if *w == String::from_str("right") {
        Some(Direction::Right)
    } else if *w == String::from_str("up") {
        Some(Direction::Up)
    } else if *w == String::from_str("down") {
        Some(Direction::Down)
    } else {
        None
    }
}

/// The views of the words after the command word.
pub open spec fn rest_views(tokens: Seq<String>) -> Seq<Seq<char>> {
    tokens.map_values(|t: String| t@).drop_first()
}

/// Parses the resize flags, exactly as `spec_parse_resize` says of the
/// words after the command word.
fn parse_resize_args(tokens: &Vec<String>) -> (r: Option<InvokeResizeCommand>)
    requires
        tokens@.len() >= 1,
    ensures
        r == spec_parse_resize(rest_views(tokens@)),
{
    proof {
        let views = tokens@.map_values(|t: String| t@);
        assert(views.len() == tokens@.len());
        assert(rest_views(tokens@).len() == views.len() - 1);
        assert(forall|j: int|
            0 <= j < rest_views(tokens@).len() ==> #[trigger] rest_views(tokens@)[j] == tokens@[j
                + 1]@);
    }
    let flag_width = String::from_str("--width");
    let flag_height = String::from_str("--height");
    if tokens.len() == 3 && tokens[1] == flag_width {
        match parse_length(tokens[2].as_str()) {
            Some(l) => Some(InvokeResizeCommand { width: Some(l), height: None }),
            None => None,
        }
    } else if tokens.len() == 3 && tokens[1] == flag_height {
        match parse_length(tokens[2].as_str()) {
            Some(l) => Some(InvokeResizeCommand { width: None, height: Some(l) }),
            None => None,
        }
    } else if tokens.len() == 5 && tokens[1] == flag_width && tokens[3] == flag_height {
        match (parse_length(tokens[2].as_str()), parse_length(tokens[4].as_str())) {
            (Some(wl), Some(hl)) => Some(
                InvokeResizeCommand { width: Some(wl), height: Some(hl) },
            ),
            _ => None,
        }
    } else if tokens.len() == 5 && tokens[1] == flag_height && tokens[3] == flag_width {
        match (parse_length(tokens[2].as_str()), parse_length(tokens[4].as_str())) {
            (Some(hl), Some(wl)) => Some(
                InvokeResizeCommand { width: Some(wl), height: Some(hl) },
            ),
            _ => None,
        }
    } else {
        None
    }
}

/// Parses the focus flags, exactly as `spec_parse_focus` says of the
/// words after the command word.
fn parse_focus_args(tokens: &Vec<String>) -> (r: Option<InvokeFocusCommand>)
    requires
        tokens@.len() >= 1,
    ensures
        r == spec_parse_focus(rest_views(tokens@)),
{
    proof {
        let views = tokens@.map_values(|t: String| t@);
        assert(views.len() == tokens@.len());
        assert(rest_views(tokens@).len() == views.len() - 1);
        assert(forall|j: int|
            0 <= j < rest_views(tokens@).len() ==> #[trigger] rest_views(tokens@)[j] == tokens@[j
                + 1]@);
    }
    let empty = InvokeFocusCommand {
        direction: None,
        workspace: None,
        monitor: None,
        next_active_workspace: false,
        prev_active_workspace: false,
        next_workspace: false,
        prev_workspace: false,
        recent_workspace: false,
    };
    proof {
        assert(empty == empty_focus());
    }
    if tokens.len() == 3 && tokens[1] == String::from_str("--direction") {
        match parse_direction(&tokens[2]) {
            Some(d) => Some(InvokeFocusCommand { direction: Some(d), ..empty }),
            None => None,
        }
    } else if tokens.len() == 3 && tokens[1] == String::from_str("--workspace") {
        match parse_number(tokens[2].as_str()) {
            Some(w) => Some(InvokeFocusCommand { workspace: Some(w), ..empty }),
            None => None,
        }
    } else if tokens.len() == 3 && tokens[1] == String::from_str("--monitor") {
        match parse_number(tokens[2].as_str()) {
            Some(m) => Some(InvokeFocusCommand { monitor: Some(m as usize), ..empty }),
            None => None,
        }
    } else if tokens.len() == 2 && tokens[1] == String::from_str("--next-workspace") {
        Some(InvokeFocusCommand { next_workspace: true, ..empty })
    } else if tokens.len() == 2 && tokens[1] == String::from_str("--prev-workspace") {
        Some(InvokeFocusCommand { prev_workspace: true, ..empty })
    } else if tokens.len() == 2 && tokens[1] == String::from_str("--recent-workspace") {
        Some(InvokeFocusCommand { recent_workspace: true, ..empty })
    } else {
        None
    }
}

/// Parses the move flags, exactly as `spec_parse_move` says of the
/// words after the command word.
fn parse_move_args(tokens: &Vec<String>) -> (r: Option<InvokeMoveCommand>)
    requires
        tokens@.len() >= 1,
    ensures
        r == spec_parse_move(rest_views(tokens@)),
{
    proof {
        let views = tokens@.map_values(|t: String| t@);
        assert(views.len() == tokens@.len());
        assert(rest_views(tokens@).len() == views.len() - 1);
        assert(forall|j: int|
            0 <= j < rest_views(tokens@).len() ==> #[trigger] rest_views(tokens@)[j] == tokens@[j
                + 1]@);
    }
    let empty = InvokeMoveCommand {
        direction: None,
        workspace: None,
        next_active_workspace: false,
        prev_active_workspace: false,
        next_workspace: false,
        prev_workspace: false,
        recent_workspace: false,
    };
    proof {
        assert(empty == empty_move());
    }
    if tokens.len() == 3 && tokens[1] == String::from_str("--direction") {
        match parse_direction(&tokens[2]) {
            Some(d) => Some(InvokeMoveCommand { direction: Some(d), ..empty }),
            None => None,
        }
    } else if tokens.len() == 3 && tokens[1] == String::from_str("--workspace") {
        match parse_number(tokens[2].as_str()) {
            Some(w) => Some(InvokeMoveCommand { workspace: Some(w), ..empty }),
            None => None,
        }
    } else {
        None
    }
}

/// Parses a whitespace-split command into the typed command, exactly as
/// `spec_parse_invoke` says.
pub fn parse_invoke_tokens(tokens: &Vec<String>) -> (r: Option<InvokeCommand>)
    ensures
        r == spec_parse_invoke(tokens@.map_values(|t: String| t@)),
{
    proof {
        assert(tokens@.map_values(|t: String| t@).len() == tokens@.len());
    }
    if tokens.len() == 0 {
        return None;
    }
    let w = &tokens[0];
    proof {
        assert(tokens@.map_values(|t: String| t@)[0] == tokens@[0]@);
        assert(rest_views(tokens@) =~= tokens@.map_values(|t: String| t@).drop_first());
    }
    let r = if *w == String::from_str("close") {
        Some(InvokeCommand::Close)
    } else if *w == String::from_str("ignore") {
        Some(InvokeCommand::Ignore)
    } else if *w == String::from_str("set-minimized") {
        Some(InvokeCommand::SetMinimized)
    } else if *w == String::from_str("set-tiling") {
        Some(InvokeCommand::SetTiling)
    } else if *w == String::from_str("toggle-minimized") {
        Some(InvokeCommand::ToggleMinimized)
    } else if *w == String::from_str("toggle-tiling") {
        Some(InvokeCommand::ToggleTiling)
    } else if *w == String::from_str("toggle-tiling-direction") {
        Some(InvokeCommand::ToggleTilingDirection)
    } else if *w == String::from_str("wm-exit") {
        Some(InvokeCommand::WmExit)
    } else if *w == String::from_str("wm-redraw") {
        Some(InvokeCommand::WmRedraw)
    } else if *w == String::from_str("wm-reload-config") {
        Some(InvokeCommand::WmReloadConfig)
    } else if *w == String::from_str("wm-toggle-pause") {
        Some(InvokeCommand::WmTogglePause)
    } else if *w == String::from_str("resize") {
        match parse_resize_args(tokens) {
            Some(a) => Some(InvokeCommand::Resize(a)),
            None => None,
        }
    } else if *w == String::from_str("size") {
        match parse_resize_args(tokens) {
            Some(a) => Some(InvokeCommand::Size(a)),
            None => None,
        }
    } else if *w == String::from_str("focus") {
        match parse_focus_args(tokens) {
            Some(a) => Some(InvokeCommand::Focus(a)),
            None => None,
        }
    } else if *w == String::from_str("move") {
        match parse_move_args(tokens) {
            Some(a) => Some(InvokeCommand::Move(a)),
            None => None,
        }
    } else {
        None
    };
    r
}

} // verus!
