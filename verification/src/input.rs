//! The calculator's input state machine: one function per group of keys,
//! each taking a keyboard snapshot and updating the edit buffer, the cursor
//! and the remembered key states.

use vstd::prelude::*;

use vstd::utf8::{decode_utf8, encode_utf8};

use crate::eadk::{Key, KeyboardState};
use crate::fixed::{text_new, text_push_str, text_to_std};
use crate::parsebeta::{simplify, simplify_checked, spec_simplify};
use crate::polynomial::render;
use crate::text::{all_digits, ascii, caret_at_or_before, char_at, digits_only, find_caret, string_insert, string_insert_str, string_clear, string_len, string_remove};

verus! {

/// The mathematical state of an [`InputHandler`].
pub struct InputState {
    pub buffer: Seq<char>,
    pub history: Seq<(Seq<char>, Seq<char>)>,
    pub last_keys: Seq<bool>,
    pub cursor: int,
    pub blink: int,
    pub xnt_cycle: int,
    pub last_cursor: int,
    pub xnt_inserted: bool,
    pub exponent_mode: bool,
    pub exponent_start: int,
}

/// What a key group does to the state once a key of it fires: its text goes
/// in at the cursor, which moves past it, and the x/n/t cycle restarts.
pub open spec fn insert_at_cursor(s: InputState, text: Seq<char>) -> InputState {
    InputState {
        buffer: s.buffer.subrange(0, s.cursor) + text + s.buffer.subrange(s.cursor, s.buffer.len() as int),
        cursor: s.cursor + text.len(),
        xnt_cycle: 0,
        xnt_inserted: false,
        ..s
    }
}

/// Whether `key` fires on this snapshot: held now and not held before.
pub open spec fn fires(s: InputState, kb: KeyboardState, key: Key) -> bool {
    kb.is_down(key) && !s.last_keys[key.spec_index() as int]
}

/// Remember whether `key` is held in this snapshot.
pub open spec fn remember(s: InputState, kb: KeyboardState, key: Key) -> InputState {
    InputState { last_keys: s.last_keys.update(key.spec_index() as int, kb.is_down(key)), ..s }
}

/// A key that inserts `text`; `power` marks the key that opens an exponent,
/// `digit` the keys that close one.
pub open spec fn insert_key(s: InputState, kb: KeyboardState, key: Key, text: Seq<char>, power: bool, digit: bool) -> InputState {
    let s1 = if fires(s, kb, key) && s.cursor <= s.buffer.len() {
        let t = insert_at_cursor(s, text);
        if power {
            InputState { exponent_mode: true, exponent_start: t.cursor, ..t }
        } else if digit {
            InputState { exponent_mode: false, ..t }
        } else {
            t
        }
    } else {
        s
    };
    remember(s1, kb, key)
}

/// The operator keys, in the order in which they are read.
pub open spec fn operator_keys_step(s: InputState, kb: KeyboardState) -> InputState {
    let s1 = insert_key(s, kb, Key::Minus, seq!['-'], false, false);
    let s2 = insert_key(s1, kb, Key::Plus, seq!['+'], false, false);
    let s3 = insert_key(s2, kb, Key::Multiplication, seq!['*'], false, false);
    let s4 = insert_key(s3, kb, Key::LeftParenthesis, seq!['('], false, false);
    let s5 = insert_key(s4, kb, Key::RightParenthesis, seq![')'], false, false);
    let s6 = insert_key(s5, kb, Key::Square, seq!['^', '2'], false, false);
    insert_key(s6, kb, Key::Power, seq!['^'], true, false)
}

/// The key of the digit `d`.
pub open spec fn digit_key(d: int) -> Key {
    if d == 0 { Key::Zero }
    else if d == 1 { Key::One }
    else if d == 2 { Key::Two }
    else if d == 3 { Key::Three }
    else if d == 4 { Key::Four }
    else if d == 5 { Key::Five }
    else if d == 6 { Key::Six }
    else if d == 7 { Key::Seven }
    else if d == 8 { Key::Eight }
    else { Key::Nine }
}

/// The character of the digit `d`.
pub open spec fn digit_char(d: int) -> char {
    (d + '0' as int) as char
}

/// The digit keys 0 to `n - 1`, read in increasing order.
pub open spec fn number_keys_upto(s: InputState, kb: KeyboardState, n: int) -> InputState
    decreases n,
{
    if n <= 0 {
        s
    } else {
        insert_key(number_keys_upto(s, kb, n - 1), kb, digit_key(n - 1), seq![digit_char(n - 1)], false, true)
    }
}

/// All ten digit keys.
pub open spec fn number_keys_step(s: InputState, kb: KeyboardState) -> InputState {
    number_keys_upto(s, kb, 10)
}

/// The backspace key: the character before the cursor goes.
pub open spec fn backspace_step(s: InputState, kb: KeyboardState) -> InputState {
    let s1 = if fires(s, kb, Key::Backspace) && s.cursor > 0 {
        InputState { buffer: s.buffer.remove(s.cursor - 1), cursor: s.cursor - 1, ..s }
    } else {
        s
    };
    remember(s1, kb, Key::Backspace)
}

/// Moving right from `cursor` leaves an exponent that runs to the end of the
/// text: a `'^'` at or before `cursor`, only digits after it up to `cursor`,
/// and nothing after the new cursor.
pub open spec fn closes_exponent(s: Seq<char>, cursor: int) -> bool {
    &&& cursor + 1 == s.len()
    &&& caret_at_or_before(s, cursor) matches Some(c) && all_digits(s, c + 1, cursor)
}

/// The arrow keys: left moves back, right moves forward and may close an
/// exponent with `')'`; a cursor that moved restarts the x/n/t cycle.
pub open spec fn arrow_keys_step(s: InputState, kb: KeyboardState) -> InputState {
    let s1 = if fires(s, kb, Key::Left) && s.cursor > 0 {
        InputState { cursor: s.cursor - 1, ..s }
    } else {
        s
    };
    let s2 = remember(s1, kb, Key::Left);
    let s3 = if fires(s2, kb, Key::Right) && s2.cursor < s2.buffer.len() {
        if closes_exponent(s2.buffer, s2.cursor) {
            InputState { buffer: s2.buffer.push(')'), cursor: s2.cursor + 2, exponent_mode: false, ..s2 }
        } else {
            InputState { cursor: s2.cursor + 1, exponent_mode: false, ..s2 }
        }
    } else {
        s2
    };
    let s4 = remember(s3, kb, Key::Right);
    if s4.cursor != s4.last_cursor {
        InputState { xnt_cycle: 0, xnt_inserted: false, last_cursor: s4.cursor, exponent_mode: false, ..s4 }
    } else {
        s4
    }
}

/// The letter that the x/n/t key inserts at a point of its cycle.
pub open spec fn xnt_char(cycle: int) -> char {
    if cycle == 1 { 'n' } else if cycle == 2 { 't' } else { 'x' }
}

/// The x/n/t key: a letter that it inserted just before is replaced by the
/// next letter of the cycle.
pub open spec fn xnt_step(s: InputState, kb: KeyboardState) -> InputState {
    let s1 = if fires(s, kb, Key::Xnt) {
        let s0 = if s.xnt_inserted && s.cursor > 0 && s.cursor <= s.buffer.len() {
            InputState { buffer: s.buffer.remove(s.cursor - 1), cursor: s.cursor - 1, ..s }
        } else {
            s
        };
        if s0.cursor <= s0.buffer.len() {
            InputState {
                buffer: s0.buffer.insert(s0.cursor, xnt_char(s.xnt_cycle)),
                cursor: s0.cursor + 1,
                xnt_cycle: (s.xnt_cycle + 1) % 3,
                xnt_inserted: true,
                last_cursor: s0.cursor + 1,
                ..s0
            }
        } else {
            s0
        }
    } else {
        s
    };
    remember(s1, kb, Key::Xnt)
}

/// The text that the simplifier gives for `buffer`.
pub open spec fn exe_result(buffer: Seq<char>) -> Seq<char> {
    decode_utf8(render(spec_simplify(encode_utf8(buffer)).unwrap()))
}

/// The execute key: a non-empty buffer goes into the history with its
/// simplified form, and the buffer is emptied.
pub open spec fn exe_step(s: InputState, kb: KeyboardState) -> InputState {
    if fires(s, kb, Key::Exe) {
        let s1 = if s.buffer.len() > 0 {
            InputState {
                history: s.history.push((s.buffer, exe_result(s.buffer))),
                buffer: Seq::empty(),
                cursor: 0,
                ..s
            }
        } else {
            s
        };
        InputState { last_keys: s1.last_keys.update(Key::Exe.spec_index() as int, true), ..s1 }
    } else {
        remember(s, kb, Key::Exe)
    }
}

/// The edit state of the calculator.
pub struct InputHandler {
    pub input_buffer: String,
    pub calculation_history: Vec<(String, String)>,
    pub last_key_states: [bool; 53],
    pub cursor_position: usize,
    pub cursor_blink_timer: u32,
    pub xnt_cycle: usize,
    pub last_cursor_position: usize,
    pub xnt_inserted: bool,
    pub exponent_mode: bool,
    pub exponent_start_position: usize,
}

impl View for InputHandler {
    type V = InputState;

    open spec fn view(&self) -> InputState {
        InputState {
            buffer: self.input_buffer@,
            history: self.calculation_history@.map_values(|p: (String, String)| (p.0@, p.1@)),
            last_keys: self.last_key_states@,
            cursor: self.cursor_position as int,
            blink: self.cursor_blink_timer as int,
            xnt_cycle: self.xnt_cycle as int,
            last_cursor: self.last_cursor_position as int,
            xnt_inserted: self.xnt_inserted,
            exponent_mode: self.exponent_mode,
            exponent_start: self.exponent_start_position as int,
        }
    }
}

impl InputHandler {
    /// The buffer is ASCII.
    pub open spec fn ascii_buffer(&self) -> bool {
        ascii(self.input_buffer@)
    }

    /// The buffer is ASCII and the cursor stands inside it.
    pub open spec fn wf(&self) -> bool {
        &&& ascii(self.input_buffer@)
        &&& self.cursor_position <= self.input_buffer@.len()
    }

    /// Room left for `n` more characters in the buffer.
    pub open spec fn has_room(&self, n: int) -> bool {
        self.input_buffer@.len() + n + 4 <= isize::MAX
    }

    /// An empty buffer, an empty history and no key held.
    pub fn new() -> (r: InputHandler)
        ensures
            r.wf(),
            r@.buffer.len() == 0,
            r@.history.len() == 0,
            r@.last_keys == Seq::new(53, |i: int| false),
            r@.cursor == 0,
            r@.blink == 0,
            r@.xnt_cycle == 0,
            r@.last_cursor == 0,
            !r@.xnt_inserted,
            !r@.exponent_mode,
            r@.exponent_start == 0,
    {
        let r = InputHandler {
            input_buffer: String::new(),
            calculation_history: Vec::new(),
            last_key_states: [false; 53],
            cursor_position: 0,
            cursor_blink_timer: 0,
            xnt_cycle: 0,
            last_cursor_position: 0,
            xnt_inserted: false,
            exponent_mode: false,
            exponent_start_position: 0,
        };
        assert(r@.last_keys =~= Seq::new(53, |i: int| false));
        r
    }

    /// Remember whether `key` is held in `keyboard`.
    fn remember_key(&mut self, keyboard: &KeyboardState, key: Key)
        ensures
            final(self)@ == remember(old(self)@, *keyboard, key),
            final(self).input_buffer == old(self).input_buffer,
    {
        let down = keyboard.key_down(key);
        self.last_key_states[key.index()] = down;
    }

    /// Whether `key` fires: held in `keyboard` and not held before.
    fn key_fires(&self, keyboard: &KeyboardState, key: Key) -> (r: bool)
        ensures
            r == fires(self@, *keyboard, key),
    {
        keyboard.key_down(key) && !self.last_key_states[key.index()]
    }

    /// Apply one inserting key.
    fn insert_key(&mut self, keyboard: &KeyboardState, key: Key, text: &str, power: bool, digit: bool)
        requires
            old(self).ascii_buffer(),
            old(self).has_room(text@.len() as int),
            ascii(text@),
        ensures
            final(self).ascii_buffer(),
            old(self).wf() ==> final(self).wf(),
            final(self)@ == insert_key(old(self)@, *keyboard, key, text@, power, digit),
            final(self).input_buffer@.len() <= old(self).input_buffer@.len() + text@.len(),
    {
        if self.key_fires(keyboard, key) {
            let len = string_len(&self.input_buffer);
            if self.cursor_position <= len {
                string_insert_str(&mut self.input_buffer, self.cursor_position, text);
                self.cursor_position = self.cursor_position + text.unicode_len();
                self.xnt_cycle = 0;
                self.xnt_inserted = false;
                if power {
                    self.exponent_mode = true;
                    self.exponent_start_position = self.cursor_position;
                } else if digit {
                    if self.exponent_mode {
                        self.exponent_mode = false;
                    }
                }
            }
        }
        self.remember_key(keyboard, key);
    }

    /// Apply one key that inserts a single character.
    fn insert_char_key(&mut self, keyboard: &KeyboardState, key: Key, ch: char, power: bool, digit: bool)
        requires
            old(self).ascii_buffer(),
            old(self).has_room(1),
            '\0' <= ch <= '\u{7f}',
        ensures
            final(self).ascii_buffer(),
            old(self).wf() ==> final(self).wf(),
            final(self)@ == insert_key(old(self)@, *keyboard, key, seq![ch], power, digit),
            final(self).input_buffer@.len() <= old(self).input_buffer@.len() + 1,
    {
        if self.key_fires(keyboard, key) {
            let len = string_len(&self.input_buffer);
            if self.cursor_position <= len {
                string_insert(&mut self.input_buffer, self.cursor_position, ch);
                self.cursor_position = self.cursor_position + 1;
                self.xnt_cycle = 0;
                self.xnt_inserted = false;
                if power {
                    self.exponent_mode = true;
                    self.exponent_start_position = self.cursor_position;
                } else if digit {
                    if self.exponent_mode {
                        self.exponent_mode = false;
                    }
                }
                proof {
                    let o = old(self).input_buffer@;
                    let c = old(self).cursor_position as int;
                    assert(o.insert(c, ch) =~= o.subrange(0, c) + seq![ch] + o.subrange(c, o.len() as int));
                }
            }
        }
        self.remember_key(keyboard, key);
    }
}


/// The key and the character of the digit `d`.
fn digit_key_char(d: usize) -> (r: (Key, char))
    requires
        d < 10,
    ensures
        r.0 == digit_key(d as int),
        r.1 == digit_char(d as int),
{
    if d == 0 { (Key::Zero, '0') }
    else if d == 1 { (Key::One, '1') }
    else if d == 2 { (Key::Two, '2') }
    else if d == 3 { (Key::Three, '3') }
    else if d == 4 { (Key::Four, '4') }
    else if d == 5 { (Key::Five, '5') }
    else if d == 6 { (Key::Six, '6') }
    else if d == 7 { (Key::Seven, '7') }
    else if d == 8 { (Key::Eight, '8') }
    else { (Key::Nine, '9') }
}

impl InputHandler {
    /// The operator keys `-`, `+`, `*`, `(`, `)`, square and power, read in
    /// that order: each one that fires inserts its text at the cursor.
    pub fn handle_operator_keys(&mut self, keyboard: &KeyboardState)
        requires
            old(self).ascii_buffer(),
            old(self).has_room(8),
        ensures
            final(self).ascii_buffer(),
            old(self).wf() ==> final(self).wf(),
            final(self)@ == operator_keys_step(old(self)@, *keyboard),
            final(self).input_buffer@.len() <= old(self).input_buffer@.len() + 8,
    {
        proof {
            reveal_strlit("^2");
            assert("^2"@ =~= seq!['^', '2']);
        }
        self.insert_char_key(keyboard, Key::Minus, '-', false, false);
        self.insert_char_key(keyboard, Key::Plus, '+', false, false);
        self.insert_char_key(keyboard, Key::Multiplication, '*', false, false);
        self.insert_char_key(keyboard, Key::LeftParenthesis, '(', false, false);
        self.insert_char_key(keyboard, Key::RightParenthesis, ')', false, false);
        self.insert_key(keyboard, Key::Square, "^2", false, false);
        self.insert_char_key(keyboard, Key::Power, '^', true, false);
    }
}


impl InputHandler {
    /// The digit keys 0 to 9, read in that order: each one that fires
    /// inserts its digit at the cursor and leaves exponent mode.
    pub fn handle_number_keys(&mut self, keyboard: &KeyboardState)
        requires
            old(self).ascii_buffer(),
            old(self).has_room(10),
        ensures
            final(self).ascii_buffer(),
            old(self).wf() ==> final(self).wf(),
            final(self)@ == number_keys_step(old(self)@, *keyboard),
            final(self).input_buffer@.len() <= old(self).input_buffer@.len() + 10,
    {
        let mut d: usize = 0;
        while d < 10
            invariant
                d <= 10,
                self.ascii_buffer(),
                old(self).wf() ==> self.wf(),
                self@ == number_keys_upto(old(self)@, *keyboard, d as int),
                self.input_buffer@.len() <= old(self).input_buffer@.len() + d,
                old(self).has_room(10),
            decreases 10 - d,
        {
            let (key, ch) = digit_key_char(d);
            self.insert_char_key(keyboard, key, ch, false, true);
            d = d + 1;
        }
    }
}


impl InputHandler {
    /// The execute key. When it fires on a non-empty buffer, the buffer and
    /// its simplified form go into the history and the buffer is emptied;
    /// the result tells whether it fired.
    pub fn handle_exe_key(&mut self, keyboard: &KeyboardState) -> (r: bool)
        requires
            fires(old(self)@, *keyboard, Key::Exe) && old(self).input_buffer@.len() > 0
                ==> spec_simplify(encode_utf8(old(self).input_buffer@)) is Some,
        ensures
            old(self).ascii_buffer() ==> final(self).ascii_buffer(),
            old(self).wf() ==> final(self).wf(),
            r == fires(old(self)@, *keyboard, Key::Exe),
            final(self)@ == exe_step(old(self)@, *keyboard),
    {
        if self.key_fires(keyboard, Key::Exe) {
            if !self.input_buffer.as_str().is_empty() {
                let result = match simplify(self.input_buffer.as_str()) {
                    Ok(s) => s,
                    Err(_) => {
                        let mut s = text_new();
                        let _ = text_push_str(&mut s, "Error");
                        s
                    },
                };
                let text = text_to_std(&result);
                proof {
                    vstd::utf8::encode_utf8_decode_utf8(text@);
                }
                let entry = (self.input_buffer.clone(), text);
                self.calculation_history.push(entry);
                string_clear(&mut self.input_buffer);
                self.cursor_position = 0;
                proof {
                    assert(self@.history =~= old(self)@.history.push((old(self)@.buffer, exe_result(old(self)@.buffer))));
                }
            }
            self.last_key_states[Key::Exe.index()] = true;
            return true;
        }
        self.remember_key(keyboard, Key::Exe);
        false
    }

    /// Whether [`InputHandler::handle_exe_key`] takes this snapshot: when the
    /// execute key fires on a non-empty buffer, simplifying the buffer must
    /// not overflow.
    pub fn exe_key_ready(&self, keyboard: &KeyboardState) -> (r: bool)
        ensures
            r == (fires(self@, *keyboard, Key::Exe) && self.input_buffer@.len() > 0
                ==> spec_simplify(encode_utf8(self.input_buffer@)) is Some),
    {
        if self.key_fires(keyboard, Key::Exe) && !self.input_buffer.as_str().is_empty() {
            simplify_checked(self.input_buffer.as_str()).is_some()
        } else {
            true
        }
    }

    /// The backspace key: when it fires, the character before the cursor
    /// is removed and the cursor moves back over it.
    pub fn handle_backspace(&mut self, keyboard: &KeyboardState)
        requires
            old(self).wf(),
        ensures
            final(self).wf(),
            final(self)@ == backspace_step(old(self)@, *keyboard),
    {
        if self.key_fires(keyboard, Key::Backspace) {
            if self.cursor_position > 0 {
                string_remove(&mut self.input_buffer, self.cursor_position - 1);
                self.cursor_position = self.cursor_position - 1;
            }
        }
        self.remember_key(keyboard, Key::Backspace);
    }

    /// The x/n/t key: when it fires, the letter that it inserted just before
    /// (if any) is replaced by the next of `x`, `n`, `t`, cyclically.
    pub fn handle_xnt_key(&mut self, keyboard: &KeyboardState)
        requires
            old(self).ascii_buffer(),
            old(self).has_room(1),
            fires(old(self)@, *keyboard, Key::Xnt) ==> old(self).xnt_cycle < usize::MAX,
        ensures
            final(self).ascii_buffer(),
            old(self).wf() ==> final(self).wf(),
            final(self)@ == xnt_step(old(self)@, *keyboard),
            final(self).input_buffer@.len() <= old(self).input_buffer@.len() + 1,
    {
        if self.key_fires(keyboard, Key::Xnt) {
            let char_to_insert = if self.xnt_cycle == 0 {
                'x'
            } else if self.xnt_cycle == 1 {
                'n'
            } else if self.xnt_cycle == 2 {
                't'
            } else {
                'x'
            };
            let len = string_len(&self.input_buffer);
            if self.xnt_inserted && self.cursor_position > 0 && self.cursor_position <= len {
                string_remove(&mut self.input_buffer, self.cursor_position - 1);
                self.cursor_position = self.cursor_position - 1;
            }
            let len = string_len(&self.input_buffer);
            if self.cursor_position <= len {
                string_insert(&mut self.input_buffer, self.cursor_position, char_to_insert);
                self.cursor_position = self.cursor_position + 1;
                self.xnt_cycle = (self.xnt_cycle + 1) % 3;
                self.xnt_inserted = true;
                self.last_cursor_position = self.cursor_position;
            }
        }
        self.remember_key(keyboard, Key::Xnt);
    }

    /// One more tick of the cursor's blink timer.
    pub fn update_timer(&mut self)
        requires
            old(self).cursor_blink_timer < u32::MAX,
        ensures
            final(self)@ == (InputState { blink: old(self)@.blink + 1, ..old(self)@ }),
            final(self).input_buffer == old(self).input_buffer,
            final(self).cursor_position == old(self).cursor_position,
    {
        self.cursor_blink_timer = self.cursor_blink_timer + 1;
    }
}


impl InputHandler {
    /// The arrow keys. Left moves the cursor back. Right moves it forward;
    /// when that leaves a `'^'` followed only by digits at the end of the
    /// text, a `')'` is appended and the cursor moves past it. Either way
    /// exponent mode ends. A cursor that moved restarts the x/n/t cycle.
    pub fn handle_arrow_keys(&mut self, keyboard: &KeyboardState)
        requires
            old(self).ascii_buffer(),
            old(self).has_room(1),
        ensures
            final(self).ascii_buffer(),
            old(self).wf() ==> final(self).wf(),
            final(self)@ == arrow_keys_step(old(self)@, *keyboard),
            final(self).input_buffer@.len() <= old(self).input_buffer@.len() + 1,
    {
        if self.key_fires(keyboard, Key::Left) {
            if self.cursor_position > 0 {
                self.cursor_position = self.cursor_position - 1;
            }
        }
        self.remember_key(keyboard, Key::Left);

        if self.key_fires(keyboard, Key::Right) {
            let len = string_len(&self.input_buffer);
            if self.cursor_position < len {
                self.cursor_position = self.cursor_position + 1;
                if self.exponent_mode {
                    self.exponent_mode = false;
                }
                if self.cursor_position > 0 {
                    let caret = find_caret(self.input_buffer.as_str(), self.cursor_position - 1);
                    match caret {
                        Some(caret_pos) => {
                            let was_in_exponent = digits_only(
                                self.input_buffer.as_str(),
                                caret_pos + 1,
                                self.cursor_position - 1,
                            );
                            if was_in_exponent {
                                let len = string_len(&self.input_buffer);
                                if self.cursor_position < len {
                                    let current_char = match char_at(self.input_buffer.as_str(), self.cursor_position) {
                                        Some(c) => c,
                                        None => ' ',
                                    };
                                    if current_char == '+' || current_char == '-' || current_char == '*'
                                        || current_char == '/' || current_char == '^' || current_char == ')' {
                                        self.exponent_mode = false;
                                    }
                                } else {
                                    string_insert(&mut self.input_buffer, self.cursor_position, ')');
                                    self.cursor_position = self.cursor_position + 1;
                                    self.exponent_mode = false;
                                    proof {
                                        let o = old(self).input_buffer@;
                                        assert(o.insert(o.len() as int, ')') =~= o.push(')'));
                                    }
                                }
                            }
                        },
                        None => {},
                    }
                }
            }
        }
        self.remember_key(keyboard, Key::Right);

        if self.cursor_position != self.last_cursor_position {
            self.xnt_cycle = 0;
            self.xnt_inserted = false;
            self.last_cursor_position = self.cursor_position;
            if self.exponent_mode {
                self.exponent_mode = false;
            }
        }
    }
}


/// A key that does not fire only records that it is held or not.
proof fn lemma_quiet_key(s: InputState, kb: KeyboardState, key: Key, text: Seq<char>, power: bool, digit: bool)
    requires
        !fires(s, kb, key),
    ensures
        insert_key(s, kb, key, text, power, digit) == remember(s, kb, key),
{
}

/// Recording a key state that is already recorded changes nothing.
proof fn lemma_remember_again(s: InputState, kb: KeyboardState, key: Key)
    requires
        key.spec_index() < s.last_keys.len(),
        s.last_keys[key.spec_index() as int] == kb.is_down(key),
    ensures
        remember(s, kb, key) == s,
{
    assert(s.last_keys.update(key.spec_index() as int, kb.is_down(key)) =~= s.last_keys);
}

/// After a key is read, it no longer fires on the same snapshot.
proof fn lemma_insert_key_records(s: InputState, kb: KeyboardState, key: Key, text: Seq<char>, power: bool, digit: bool)
    requires
        s.last_keys.len() == 53,
    ensures
        ({
            let t = insert_key(s, kb, key, text, power, digit);
            &&& t.last_keys.len() == 53
            &&& t.last_keys[key.spec_index() as int] == kb.is_down(key)
            &&& forall|i: int| 0 <= i < 53 && i != key.spec_index() ==> t.last_keys[i] == s.last_keys[i]
        }),
{
}

/// The digit keys have distinct indices.
proof fn lemma_digit_keys_distinct(a: int, b: int)
    requires
        0 <= a < 10,
        0 <= b < 10,
        a != b,
    ensures
        digit_key(a).spec_index() != digit_key(b).spec_index(),
        digit_key(a).spec_index() < 53,
{
}

/// What the first `n` digit keys leave in the key record.
proof fn lemma_number_keys_record(s: InputState, kb: KeyboardState, n: int)
    requires
        s.last_keys.len() == 53,
        0 <= n <= 10,
    ensures
        ({
            let t = number_keys_upto(s, kb, n);
            &&& t.last_keys.len() == 53
            &&& forall|d: int| 0 <= d < n ==> t.last_keys[#[trigger] digit_key(d).spec_index() as int] == kb.is_down(digit_key(d))
        }),
    decreases n,
{
    if n > 0 {
        lemma_number_keys_record(s, kb, n - 1);
        let p = number_keys_upto(s, kb, n - 1);
        lemma_insert_key_records(p, kb, digit_key(n - 1), seq![digit_char(n - 1)], false, true);
        let t = number_keys_upto(s, kb, n);
        assert forall|d: int| 0 <= d < n implies t.last_keys[#[trigger] digit_key(d).spec_index() as int] == kb.is_down(digit_key(d)) by {
            if d < n - 1 {
                lemma_digit_keys_distinct(d, n - 1);
            }
        }
    }
}

/// Digit keys that are all recorded as they are held change nothing.
proof fn lemma_number_keys_quiet(s: InputState, kb: KeyboardState, n: int)
    requires
        s.last_keys.len() == 53,
        0 <= n <= 10,
        forall|d: int| 0 <= d < n ==> s.last_keys[#[trigger] digit_key(d).spec_index() as int] == kb.is_down(digit_key(d)),
    ensures
        number_keys_upto(s, kb, n) == s,
    decreases n,
{
    if n > 0 {
        lemma_number_keys_quiet(s, kb, n - 1);
        assert(s.last_keys[digit_key(n - 1).spec_index() as int] == kb.is_down(digit_key(n - 1)));
        lemma_quiet_key(s, kb, digit_key(n - 1), seq![digit_char(n - 1)], false, true);
        lemma_remember_again(s, kb, digit_key(n - 1));
    }
}

/// A key held down acts once: reading the digit keys twice on the same
/// snapshot gives the state that reading them once gives.
pub proof fn law_number_keys_act_once(s: InputState, kb: KeyboardState)
    requires
        s.last_keys.len() == 53,
    ensures
        number_keys_step(number_keys_step(s, kb), kb) == number_keys_step(s, kb),
{
    lemma_number_keys_record(s, kb, 10);
    lemma_number_keys_quiet(number_keys_step(s, kb), kb, 10);
}

/// A key held down acts once: reading the operator keys twice on the same
/// snapshot gives the state that reading them once gives.
pub proof fn law_operator_keys_act_once(s: InputState, kb: KeyboardState)
    requires
        s.last_keys.len() == 53,
    ensures
        operator_keys_step(operator_keys_step(s, kb), kb) == operator_keys_step(s, kb),
{
    let t = operator_keys_step(s, kb);
    let s1 = insert_key(s, kb, Key::Minus, seq!['-'], false, false);
    lemma_insert_key_records(s, kb, Key::Minus, seq!['-'], false, false);
    let s2 = insert_key(s1, kb, Key::Plus, seq!['+'], false, false);
    lemma_insert_key_records(s1, kb, Key::Plus, seq!['+'], false, false);
    let s3 = insert_key(s2, kb, Key::Multiplication, seq!['*'], false, false);
    lemma_insert_key_records(s2, kb, Key::Multiplication, seq!['*'], false, false);
    let s4 = insert_key(s3, kb, Key::LeftParenthesis, seq!['('], false, false);
    lemma_insert_key_records(s3, kb, Key::LeftParenthesis, seq!['('], false, false);
    let s5 = insert_key(s4, kb, Key::RightParenthesis, seq![')'], false, false);
    lemma_insert_key_records(s4, kb, Key::RightParenthesis, seq![')'], false, false);
    let s6 = insert_key(s5, kb, Key::Square, seq!['^', '2'], false, false);
    lemma_insert_key_records(s5, kb, Key::Square, seq!['^', '2'], false, false);
    lemma_insert_key_records(s6, kb, Key::Power, seq!['^'], true, false);
    lemma_quiet_key(t, kb, Key::Minus, seq!['-'], false, false);
    lemma_remember_again(t, kb, Key::Minus);
    lemma_quiet_key(t, kb, Key::Plus, seq!['+'], false, false);
    lemma_remember_again(t, kb, Key::Plus);
    lemma_quiet_key(t, kb, Key::Multiplication, seq!['*'], false, false);
    lemma_remember_again(t, kb, Key::Multiplication);
    lemma_quiet_key(t, kb, Key::LeftParenthesis, seq!['('], false, false);
    lemma_remember_again(t, kb, Key::LeftParenthesis);
    lemma_quiet_key(t, kb, Key::RightParenthesis, seq![')'], false, false);
    lemma_remember_again(t, kb, Key::RightParenthesis);
    lemma_quiet_key(t, kb, Key::Square, seq!['^', '2'], false, false);
    lemma_remember_again(t, kb, Key::Square);
    lemma_quiet_key(t, kb, Key::Power, seq!['^'], true, false);
    lemma_remember_again(t, kb, Key::Power);
}

/// A key held down acts once: backspace on the same snapshot twice removes
/// one character.
pub proof fn law_backspace_acts_once(s: InputState, kb: KeyboardState)
    requires
        s.last_keys.len() == 53,
    ensures
        backspace_step(backspace_step(s, kb), kb) == backspace_step(s, kb),
{
    let t = backspace_step(s, kb);
    lemma_remember_again(t, kb, Key::Backspace);
}

/// A key held down acts once: the x/n/t key on the same snapshot twice
/// inserts one letter.
pub proof fn law_xnt_acts_once(s: InputState, kb: KeyboardState)
    requires
        s.last_keys.len() == 53,
    ensures
        xnt_step(xnt_step(s, kb), kb) == xnt_step(s, kb),
{
    let t = xnt_step(s, kb);
    lemma_remember_again(t, kb, Key::Xnt);
}

/// A key held down acts once: the arrow keys on the same snapshot twice
/// move the cursor once.
pub proof fn law_arrow_keys_act_once(s: InputState, kb: KeyboardState)
    requires
        s.last_keys.len() == 53,
    ensures
        arrow_keys_step(arrow_keys_step(s, kb), kb) == arrow_keys_step(s, kb),
{
    let t = arrow_keys_step(s, kb);
    lemma_remember_again(t, kb, Key::Left);
    lemma_remember_again(t, kb, Key::Right);
}

/// Backspace undoes the insertion of one character: the buffer and the
/// cursor come back to what they were.
pub proof fn law_backspace_undoes_insert(s: InputState, ch: char, kb: KeyboardState)
    requires
        0 <= s.cursor <= s.buffer.len(),
        fires(insert_at_cursor(s, seq![ch]), kb, Key::Backspace),
    ensures
        backspace_step(insert_at_cursor(s, seq![ch]), kb).buffer == s.buffer,
        backspace_step(insert_at_cursor(s, seq![ch]), kb).cursor == s.cursor,
{
    let t = insert_at_cursor(s, seq![ch]);
    assert(t.buffer.remove(s.cursor) =~= s.buffer);
}

/// The x/n/t key replaces the letter that it inserted just before with the
/// next one of its cycle: the text keeps its length.
pub proof fn law_xnt_replaces_its_letter(s: InputState, kb: KeyboardState)
    requires
        0 < s.cursor <= s.buffer.len(),
        s.xnt_inserted,
        fires(s, kb, Key::Xnt),
    ensures
        xnt_step(s, kb).buffer == s.buffer.update(s.cursor - 1, xnt_char(s.xnt_cycle)),
        xnt_step(s, kb).cursor == s.cursor,
{
    let r = s.buffer.remove(s.cursor - 1);
    assert(r.insert(s.cursor - 1, xnt_char(s.xnt_cycle)) =~= s.buffer.update(s.cursor - 1, xnt_char(s.xnt_cycle)));
}

/// The keys that the operator keys' handler reads.
pub open spec fn is_operator_key(i: int) -> bool {
    ||| i == Key::Minus.spec_index()
    ||| i == Key::Plus.spec_index()
    ||| i == Key::Multiplication.spec_index()
    ||| i == Key::LeftParenthesis.spec_index()
    ||| i == Key::RightParenthesis.spec_index()
    ||| i == Key::Square.spec_index()
    ||| i == Key::Power.spec_index()
}

/// The operator keys' handler records each operator key as held or not,
/// leaves every other key's record and the history as they were, and, when
/// no operator key is newly pressed (keys only held), changes nothing else.
pub proof fn law_operator_keys_record_and_rest(s: InputState, kb: KeyboardState)
    requires
        s.last_keys.len() == 53,
    ensures
        ({
            let t = operator_keys_step(s, kb);
            &&& t.last_keys.len() == 53
            &&& t.history == s.history
            &&& t.last_keys[Key::Minus.spec_index() as int] == kb.is_down(Key::Minus)
            &&& t.last_keys[Key::Plus.spec_index() as int] == kb.is_down(Key::Plus)
            &&& t.last_keys[Key::Multiplication.spec_index() as int] == kb.is_down(Key::Multiplication)
            &&& t.last_keys[Key::LeftParenthesis.spec_index() as int] == kb.is_down(Key::LeftParenthesis)
            &&& t.last_keys[Key::RightParenthesis.spec_index() as int] == kb.is_down(Key::RightParenthesis)
            &&& t.last_keys[Key::Square.spec_index() as int] == kb.is_down(Key::Square)
            &&& t.last_keys[Key::Power.spec_index() as int] == kb.is_down(Key::Power)
            &&& forall|i: int| 0 <= i < 53 && !is_operator_key(i) ==> t.last_keys[i] == s.last_keys[i]
            &&& (!fires(s, kb, Key::Minus) && !fires(s, kb, Key::Plus) && !fires(s, kb, Key::Multiplication)
                && !fires(s, kb, Key::LeftParenthesis) && !fires(s, kb, Key::RightParenthesis)
                && !fires(s, kb, Key::Square) && !fires(s, kb, Key::Power)) ==> {
                &&& t.buffer == s.buffer
                &&& t.cursor == s.cursor
                &&& t.xnt_cycle == s.xnt_cycle
                &&& t.xnt_inserted == s.xnt_inserted
                &&& t.exponent_mode == s.exponent_mode
                &&& t.exponent_start == s.exponent_start
            }
        }),
{
    let s1 = insert_key(s, kb, Key::Minus, seq!['-'], false, false);
    lemma_insert_key_records(s, kb, Key::Minus, seq!['-'], false, false);
    let s2 = insert_key(s1, kb, Key::Plus, seq!['+'], false, false);
    lemma_insert_key_records(s1, kb, Key::Plus, seq!['+'], false, false);
    let s3 = insert_key(s2, kb, Key::Multiplication, seq!['*'], false, false);
    lemma_insert_key_records(s2, kb, Key::Multiplication, seq!['*'], false, false);
    let s4 = insert_key(s3, kb, Key::LeftParenthesis, seq!['('], false, false);
    lemma_insert_key_records(s3, kb, Key::LeftParenthesis, seq!['('], false, false);
    let s5 = insert_key(s4, kb, Key::RightParenthesis, seq![')'], false, false);
    lemma_insert_key_records(s4, kb, Key::RightParenthesis, seq![')'], false, false);
    let s6 = insert_key(s5, kb, Key::Square, seq!['^', '2'], false, false);
    lemma_insert_key_records(s5, kb, Key::Square, seq!['^', '2'], false, false);
    lemma_insert_key_records(s6, kb, Key::Power, seq!['^'], true, false);
}

/// After the arrow keys, the remembered cursor is the cursor; and when the
/// cursor moved from where it was last remembered, the x/n/t cycle restarts
/// and exponent mode ends.
pub proof fn law_arrow_keys_sync_cursor(s: InputState, kb: KeyboardState)
    ensures
        arrow_keys_step(s, kb).last_cursor == arrow_keys_step(s, kb).cursor,
        arrow_keys_step(s, kb).cursor != s.last_cursor ==> {
            &&& arrow_keys_step(s, kb).xnt_cycle == 0
            &&& !arrow_keys_step(s, kb).xnt_inserted
            &&& !arrow_keys_step(s, kb).exponent_mode
        },
{
}

/// The arrow keys leave the text as it was or add one `')'` at its end,
/// record Left and Right as held or not, and keep the history; Left newly
/// pressed with Right not held moves the cursor back by one (not past the
/// start) and keeps the text.
pub proof fn law_arrow_keys_text(s: InputState, kb: KeyboardState)
    requires
        s.last_keys.len() == 53,
    ensures
        ({
            let t = arrow_keys_step(s, kb);
            &&& (t.buffer == s.buffer || t.buffer == s.buffer.push(')'))
            &&& t.history == s.history
            &&& t.last_keys[Key::Left.spec_index() as int] == kb.is_down(Key::Left)
            &&& t.last_keys[Key::Right.spec_index() as int] == kb.is_down(Key::Right)
            &&& (fires(s, kb, Key::Left) && !kb.is_down(Key::Right)) ==> {
                &&& t.buffer == s.buffer
                &&& t.cursor == (if s.cursor > 0 { s.cursor - 1 } else { s.cursor })
            }
        }),
{
}

/// No operator key but `key` fires.
pub open spec fn only_operator_firing(s: InputState, kb: KeyboardState, key: Key) -> bool {
    &&& fires(s, kb, key)
    &&& (key != Key::Minus ==> !fires(s, kb, Key::Minus))
    &&& (key != Key::Plus ==> !fires(s, kb, Key::Plus))
    &&& (key != Key::Multiplication ==> !fires(s, kb, Key::Multiplication))
    &&& (key != Key::LeftParenthesis ==> !fires(s, kb, Key::LeftParenthesis))
    &&& (key != Key::RightParenthesis ==> !fires(s, kb, Key::RightParenthesis))
    &&& (key != Key::Square ==> !fires(s, kb, Key::Square))
    &&& (key != Key::Power ==> !fires(s, kb, Key::Power))
}

/// Each operator key inserts its own symbol at the cursor, which moves past
/// it: `-`, `+`, `*`, `(`, `)`, `^2` for the square key, and `^` for the
/// power key, which also opens an exponent there.
pub proof fn law_operator_key_inserts_its_symbol(s: InputState, kb: KeyboardState, key: Key)
    requires
        s.last_keys.len() == 53,
        0 <= s.cursor <= s.buffer.len(),
        only_operator_firing(s, kb, key),
    ensures
        ({
            let t = operator_keys_step(s, kb);
            let before = s.buffer.subrange(0, s.cursor);
            let after = s.buffer.subrange(s.cursor, s.buffer.len() as int);
            &&& key == Key::Minus ==> t.buffer == before + seq!['-'] + after && t.cursor == s.cursor + 1
            &&& key == Key::Plus ==> t.buffer == before + seq!['+'] + after && t.cursor == s.cursor + 1
            &&& key == Key::Multiplication ==> t.buffer == before + seq!['*'] + after && t.cursor == s.cursor + 1
            &&& key == Key::LeftParenthesis ==> t.buffer == before + seq!['('] + after && t.cursor == s.cursor + 1
            &&& key == Key::RightParenthesis ==> t.buffer == before + seq![')'] + after && t.cursor == s.cursor + 1
            &&& key == Key::Square ==> t.buffer == before + seq!['^', '2'] + after && t.cursor == s.cursor + 2
            &&& key == Key::Power ==> {
                &&& t.buffer == before + seq!['^'] + after
                &&& t.cursor == s.cursor + 1
                &&& t.exponent_mode
                &&& t.exponent_start == s.cursor + 1
            }
        }),
{
    let s1 = insert_key(s, kb, Key::Minus, seq!['-'], false, false);
    lemma_insert_key_records(s, kb, Key::Minus, seq!['-'], false, false);
    let s2 = insert_key(s1, kb, Key::Plus, seq!['+'], false, false);
    lemma_insert_key_records(s1, kb, Key::Plus, seq!['+'], false, false);
    let s3 = insert_key(s2, kb, Key::Multiplication, seq!['*'], false, false);
    lemma_insert_key_records(s2, kb, Key::Multiplication, seq!['*'], false, false);
    let s4 = insert_key(s3, kb, Key::LeftParenthesis, seq!['('], false, false);
    lemma_insert_key_records(s3, kb, Key::LeftParenthesis, seq!['('], false, false);
    let s5 = insert_key(s4, kb, Key::RightParenthesis, seq![')'], false, false);
    lemma_insert_key_records(s4, kb, Key::RightParenthesis, seq![')'], false, false);
    let s6 = insert_key(s5, kb, Key::Square, seq!['^', '2'], false, false);
    lemma_insert_key_records(s5, kb, Key::Square, seq!['^', '2'], false, false);
    lemma_insert_key_records(s6, kb, Key::Power, seq!['^'], true, false);
}

/// Right moves the cursor one step: with Right newly pressed, Left not, and
/// the cursor before the end of the text, the cursor moves on by one and
/// the text stays, or, at the last character, a `)` closing an exponent is
/// appended and the cursor moves past it; exponent mode ends.
pub proof fn law_right_moves_one_step(s: InputState, kb: KeyboardState)
    requires
        s.last_keys.len() == 53,
        !fires(s, kb, Key::Left),
        fires(s, kb, Key::Right),
        0 <= s.cursor < s.buffer.len(),
    ensures
        ({
            let t = arrow_keys_step(s, kb);
            &&& ((t.cursor == s.cursor + 1 && t.buffer == s.buffer)
                || (t.cursor == s.cursor + 2 && t.buffer == s.buffer.push(')') && s.cursor + 1 == s.buffer.len()))
            &&& !t.exponent_mode
        }),
{
}

/// Backspace removes the character before the cursor, which moves back by
/// one; at the start of the text nothing changes but the key's record.
pub proof fn law_backspace_removes_one(s: InputState, kb: KeyboardState)
    requires
        fires(s, kb, Key::Backspace),
        0 <= s.cursor <= s.buffer.len(),
    ensures
        s.cursor > 0 ==> backspace_step(s, kb).buffer
            == s.buffer.subrange(0, s.cursor - 1) + s.buffer.subrange(s.cursor, s.buffer.len() as int),
        s.cursor > 0 ==> backspace_step(s, kb).cursor == s.cursor - 1,
        s.cursor == 0 ==> backspace_step(s, kb).buffer == s.buffer && backspace_step(s, kb).cursor == 0,
{
    if s.cursor > 0 {
        assert(s.buffer.remove(s.cursor - 1)
            =~= s.buffer.subrange(0, s.cursor - 1) + s.buffer.subrange(s.cursor, s.buffer.len() as int));
    }
}

/// The x/n/t key, when no letter of its own stands just before the cursor,
/// inserts `x`, `n` or `t` at the cursor as its cycle goes 0, 1, 2, and the
/// cycle moves on.
pub proof fn law_xnt_inserts_its_letters(s: InputState, kb: KeyboardState)
    requires
        fires(s, kb, Key::Xnt),
        !s.xnt_inserted,
        0 <= s.cursor <= s.buffer.len(),
        0 <= s.xnt_cycle < 3,
    ensures
        ({
            let t = xnt_step(s, kb);
            let before = s.buffer.subrange(0, s.cursor);
            let after = s.buffer.subrange(s.cursor, s.buffer.len() as int);
            &&& s.xnt_cycle == 0 ==> t.buffer == before + seq!['x'] + after
            &&& s.xnt_cycle == 1 ==> t.buffer == before + seq!['n'] + after
            &&& s.xnt_cycle == 2 ==> t.buffer == before + seq!['t'] + after
            &&& t.cursor == s.cursor + 1
            &&& t.xnt_cycle == (s.xnt_cycle + 1) % 3
            &&& t.xnt_inserted
        }),
{
    let c = xnt_char(s.xnt_cycle);
    assert(s.buffer.insert(s.cursor, c)
        =~= s.buffer.subrange(0, s.cursor) + seq![c] + s.buffer.subrange(s.cursor, s.buffer.len() as int));
}

/// Reading the first `n` digit keys when only the key of digit `d` fires:
/// nothing but key records changes before it, and its digit goes in at the
/// cursor when it is read.
proof fn lemma_number_keys_alone(s: InputState, kb: KeyboardState, d: int, n: int)
    requires
        s.last_keys.len() == 53,
        0 <= d < 10,
        0 <= n <= 10,
        0 <= s.cursor <= s.buffer.len(),
        fires(s, kb, digit_key(d)),
        forall|e: int| 0 <= e < 10 && e != d ==> !fires(s, kb, #[trigger] digit_key(e)),
    ensures
        ({
            let t = number_keys_upto(s, kb, n);
            &&& t.last_keys.len() == 53
            &&& forall|e: int| n <= e < 10 ==> t.last_keys[#[trigger] digit_key(e).spec_index() as int]
                == s.last_keys[digit_key(e).spec_index() as int]
            &&& n <= d ==> t.buffer == s.buffer && t.cursor == s.cursor
            &&& n > d ==> t.buffer == insert_at_cursor(s, seq![digit_char(d)]).buffer
                && t.cursor == s.cursor + 1 && !t.exponent_mode
        }),
    decreases n,
{
    if n > 0 {
        lemma_number_keys_alone(s, kb, d, n - 1);
        let p = number_keys_upto(s, kb, n - 1);
        let k = digit_key(n - 1);
        lemma_insert_key_records(p, kb, k, seq![digit_char(n - 1)], false, true);
        assert forall|e: int| n <= e < 10 implies number_keys_upto(s, kb, n).last_keys[#[trigger] digit_key(e).spec_index() as int]
            == s.last_keys[digit_key(e).spec_index() as int] by {
            lemma_digit_keys_distinct(e, n - 1);
        }
        if n - 1 != d {
            assert(!fires(p, kb, k));
            lemma_quiet_key(p, kb, k, seq![digit_char(n - 1)], false, true);
        } else {
            assert(fires(p, kb, k));
        }
    }
}

/// Each digit key inserts its own digit at the cursor, which moves past it,
/// when it is the only digit key newly pressed.
pub proof fn law_digit_key_inserts_its_digit(s: InputState, kb: KeyboardState, key: Key)
    requires
        s.last_keys.len() == 53,
        0 <= s.cursor <= s.buffer.len(),
        fires(s, kb, key),
        key == Key::Zero || key == Key::One || key == Key::Two || key == Key::Three || key == Key::Four
            || key == Key::Five || key == Key::Six || key == Key::Seven || key == Key::Eight || key == Key::Nine,
        forall|e: int| 0 <= e < 10 && digit_key(e) != key ==> !fires(s, kb, #[trigger] digit_key(e)),
    ensures
        ({
            let t = number_keys_step(s, kb);
            let before = s.buffer.subrange(0, s.cursor);
            let after = s.buffer.subrange(s.cursor, s.buffer.len() as int);
            &&& key == Key::Zero ==> t.buffer == before + seq!['0'] + after
            &&& key == Key::One ==> t.buffer == before + seq!['1'] + after
            &&& key == Key::Two ==> t.buffer == before + seq!['2'] + after
            &&& key == Key::Three ==> t.buffer == before + seq!['3'] + after
            &&& key == Key::Four ==> t.buffer == before + seq!['4'] + after
            &&& key == Key::Five ==> t.buffer == before + seq!['5'] + after
            &&& key == Key::Six ==> t.buffer == before + seq!['6'] + after
            &&& key == Key::Seven ==> t.buffer == before + seq!['7'] + after
            &&& key == Key::Eight ==> t.buffer == before + seq!['8'] + after
            &&& key == Key::Nine ==> t.buffer == before + seq!['9'] + after
            &&& t.cursor == s.cursor + 1
            &&& !t.exponent_mode
        }),
{
    let d: int = if key == Key::Zero { 0 } else if key == Key::One { 1 } else if key == Key::Two { 2 }
        else if key == Key::Three { 3 } else if key == Key::Four { 4 } else if key == Key::Five { 5 }
        else if key == Key::Six { 6 } else if key == Key::Seven { 7 } else if key == Key::Eight { 8 } else { 9 };
    assert(digit_key(d) == key);
    assert forall|e: int| 0 <= e < 10 && e != d implies !fires(s, kb, #[trigger] digit_key(e)) by {
        lemma_digit_keys_distinct(e, d);
    }
    lemma_number_keys_alone(s, kb, d, 10);
}

/// The execute key, newly pressed on a non-empty text, appends to the
/// history the text and the text of its simplified polynomial, empties the
/// text and puts the cursor at its start; on an empty text it changes
/// nothing but the key's record. When it does not fire, only its record
/// changes.
pub proof fn law_exe_moves_text_to_history(s: InputState, kb: KeyboardState)
    requires
        s.last_keys.len() == 53,
    ensures
        ({
            let t = exe_step(s, kb);
            &&& t.last_keys.len() == 53
            &&& t.last_keys[Key::Exe.spec_index() as int] == kb.is_down(Key::Exe)
            &&& (fires(s, kb, Key::Exe) && s.buffer.len() > 0) ==> {
                &&& t.history.len() == s.history.len() + 1
                &&& t.history.take(s.history.len() as int) == s.history
                &&& t.history.last().0 == s.buffer
                &&& t.history.last().1 == decode_utf8(render(spec_simplify(encode_utf8(s.buffer)).unwrap()))
                &&& t.buffer.len() == 0
                &&& t.cursor == 0
            }
            &&& !(fires(s, kb, Key::Exe) && s.buffer.len() > 0) ==> {
                &&& t.history == s.history
                &&& t.buffer == s.buffer
                &&& t.cursor == s.cursor
            }
        }),
{
    if fires(s, kb, Key::Exe) && s.buffer.len() > 0 {
        let t = exe_step(s, kb);
        assert(t.history.take(s.history.len() as int) =~= s.history);
    }
}

} // verus!
