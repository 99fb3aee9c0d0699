use vstd::prelude::*;
use crate::error::CalcError;
use crate::num::Num;
use crate::calculator::{
    Calculator, CalcModel, Key, key_of_label, edit_spec, equals_spec, commit_spec, display_spec,
    ends_with_op, numeral_open,
};
use crate::format::{format_spec, format_number, string_from_chars};

verus! {

/// How many entries the history keeps; the oldest leaves first.
pub const HISTORY_CAPACITY: usize = 50;

/// The history line of a successful `=`: `"<expression> = <result>"`.
pub open spec fn entry_spec(expr: Seq<char>, v: Num) -> Seq<char> {
    expr + seq![' ', '=', ' '] + format_spec(v)
}

/// The history with one more entry, the oldest dropped when it is full.
pub open spec fn push_capped(h: Seq<Seq<char>>, e: Seq<char>) -> Seq<Seq<char>> {
    if h.len() >= HISTORY_CAPACITY {
        h.push(e).drop_first()
    } else {
        h.push(e)
    }
}

/// What a calculator session holds: its buffer, the error of the last key
/// if that key was a failed `=`, and the history of successful evaluations.
pub struct AppModel {
    pub calc: CalcModel,
    pub error: Option<CalcError>,
    pub history: Seq<Seq<char>>,
}

impl AppModel {
    pub open spec fn wf(self) -> bool {
        self.calc.wf() && self.history.len() <= HISTORY_CAPACITY
    }
}

/// The session after a key (`None` for a label that names no key, which
/// changes nothing but the error). Every key clears the error. `=` on a text
/// that evaluates records `"<text> = <result>"` in the history; on one that
/// does not, it keeps the error, drops the cached result and leaves the rest
/// unchanged.
pub open spec fn press_spec(m: AppModel, key: Option<Key>) -> AppModel {
    match key {
        None => AppModel { calc: m.calc, error: None, history: m.history },
        Some(Key::Equals) => if m.calc.text.len() == 0 {
            AppModel { calc: m.calc, error: None, history: m.history }
        } else {
            match commit_spec(m.calc.text) {
                Ok(v) => AppModel {
                    calc: equals_spec(m.calc).0,
                    error: None,
                    history: push_capped(m.history, entry_spec(m.calc.text, v)),
                },
                Err(e) => AppModel { calc: equals_spec(m.calc).0, error: Some(e), history: m.history },
            }
        },
        Some(k) => AppModel { calc: edit_spec(m.calc, k), error: None, history: m.history },
    }
}

/// The text of each history entry.
pub open spec fn entry_texts(h: Seq<String>) -> Seq<Seq<char>> {
    h.map_values(|s: String| s@)
}

/// A calculator session: the expression buffer, the last error and the history.
#[derive(Debug)]
pub struct AppState {
    calculator: Calculator,
    error_message: Option<CalcError>,
    history: Vec<String>,
}

impl View for AppState {
    type V = AppModel;

    closed spec fn view(&self) -> AppModel {
        AppModel {
            calc: self.calculator@,
            error: self.error_message,
            history: entry_texts(self.history@),
        }
    }
}

impl AppState {
    /// A session with an empty buffer and no history.
    pub fn new() -> (r: AppState)
        ensures
            r@ == (AppModel {
                calc: CalcModel { text: seq![], result: None, just_evaluated: false },
                error: None,
                history: seq![],
            }),
            r@.wf(),
    {
        let r = AppState { calculator: Calculator::new(), error_message: None, history: Vec::new() };
        proof {
            assert(entry_texts(r.history@) =~= seq![]);
        }
        r
    }

    /// Handles the press of the key that `button` labels.
    pub fn handle_button_press(&mut self, button: &str)
        requires
            old(self)@.wf(),
        ensures
            final(self)@ == press_spec(old(self)@, key_of_label(button@)),
            final(self)@.wf(),
    {
        self.error_message = None;
        match Key::from_label(button) {
            None => {},
            Some(Key::Equals) => {
                let expr = self.calculator.expression_chars();
                if expr.len() > 0 {
                    match self.calculator.calculate() {
                        Ok(()) => {
                            let v = match self.calculator.get_result() {
                                Some(v) => v,
                                None => {
                                    proof {
                                        assert(false);
                                    }
                                    return;
                                },
                            };
                            let mut entry = expr;
                            entry.push(' ');
                            entry.push('=');
                            entry.push(' ');
                            let mut shown = format_number(v);
                            entry.append(&mut shown);
                            let line = string_from_chars(&entry);
                            let ghost h0 = self.history@;
                            self.history.push(line);
                            proof {
                                assert(entry@ =~= entry_spec(old(self)@.calc.text, v));
                                assert(entry_texts(self.history@) =~= entry_texts(h0).push(entry@));
                            }
                            if self.history.len() > HISTORY_CAPACITY {
                                let ghost h1 = self.history@;
                                self.history.remove(0);
                                proof {
                                    assert(entry_texts(self.history@) =~= entry_texts(h1).drop_first());
                                }
                            }
                        },
                        Err(e) => {
                            self.error_message = Some(e);
                        },
                    }
                }
            },
            Some(k) => {
                let _ = self.calculator.add_input(k);
            },
        }
    }

    /// What the display shows: `0` for an empty text, else the cached result,
    /// else the text.
    pub fn get_display_text(&self) -> (r: String)
        requires
            self@.wf(),
        ensures
            r@ == display_spec(self@.calc),
    {
        string_from_chars(&self.calculator.display())
    }

    /// The error of the last key, when it was a failed `=`.
    pub fn get_error_message(&self) -> (r: Option<CalcError>)
        ensures
            r == self@.error,
    {
        self.error_message
    }

    /// The history, oldest entry first.
    pub fn get_history(&self) -> (r: &[String])
        ensures
            entry_texts(r@) == self@.history,
    {
        self.history.as_slice()
    }

    /// Empties the history.
    pub fn clear_history(&mut self)
        requires
            old(self)@.wf(),
        ensures
            final(self)@ == (AppModel { calc: old(self)@.calc, error: old(self)@.error, history: seq![] }),
            final(self)@.wf(),
    {
        self.history.clear();
        proof {
            assert(entry_texts(self.history@) =~= seq![]);
        }
    }

    /// The expression buffer.
    pub fn calculator(&self) -> (r: &Calculator)
        ensures
            r@ == self@.calc,
    {
        &self.calculator
    }
}

impl Default for AppState {
    fn default() -> (r: AppState)
        ensures
            r@ == (AppModel {
                calc: CalcModel { text: seq![], result: None, just_evaluated: false },
                error: None,
                history: seq![],
            }),
    {
        AppState::new()
    }
}

/// The calculator as its window drives it: one session that button labels
/// are fed to.
#[derive(Debug)]
pub struct TinyCalc {
    state: AppState,
}

impl View for TinyCalc {
    type V = AppModel;

    closed spec fn view(&self) -> AppModel {
        self.state@
    }
}

impl TinyCalc {
    /// A calculator showing `0`.
    pub fn new() -> (r: TinyCalc)
        ensures
            r@ == (AppModel {
                calc: CalcModel { text: seq![], result: None, just_evaluated: false },
                error: None,
                history: seq![],
            }),
            r@.wf(),
    {
        TinyCalc { state: AppState::new() }
    }

    /// Handles a click on the button labelled `button`.
    pub fn handle_button(&mut self, button: &str)
        requires
            old(self)@.wf(),
        ensures
            final(self)@ == press_spec(old(self)@, key_of_label(button@)),
            final(self)@.wf(),
    {
        self.state.handle_button_press(button);
    }

    /// Whether the expression ends with an operator character.
    pub fn ends_with_operator(&self) -> (r: bool)
        ensures
            r == ends_with_op(self@.calc.text),
    {
        self.state.calculator.ends_with_operator()
    }

    /// Whether a point key adds a point: the numeral after the last operator
    /// has none. On an empty expression the key starts `0.`, so this is true.
    pub fn can_add_decimal(&self) -> (r: bool)
        ensures
            r == numeral_open(self@.calc.text),
    {
        let empty = self.state.calculator.expression_chars().len() == 0;
        empty || self.state.calculator.can_add_decimal()
    }

    /// What the display shows.
    pub fn display(&self) -> (r: String)
        requires
            self@.wf(),
        ensures
            r@ == display_spec(self@.calc),
    {
        self.state.get_display_text()
    }

    /// The session behind the display.
    pub fn state(&self) -> (r: &AppState)
        ensures
            r@ == self@,
    {
        &self.state
    }
}

} // verus!
