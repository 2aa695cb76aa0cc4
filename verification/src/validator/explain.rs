//! The text of a diagnostic.

use super::model::ValidatorView;
use super::report::{ConflictLine, CycleLine, ValidationError};
use super::{Mutability, Validator};
use crate::decoder::utf8::push_char;
use vstd::prelude::*;
use vstd::string::StringExecFns;

verus! {

/// `depth` levels of indentation, four spaces each.
pub open spec fn indent_text(depth: nat) -> Seq<char>
    decreases depth,
{
    if depth == 0 {
        Seq::empty()
    } else {
        indent_text((depth - 1) as nat) + "    "@
    }
}

/// The character of the decimal digit `d`.
pub open spec fn digit_char(d: nat) -> char {
    if d == 0 {
        '0'
    } else if d == 1 {
        '1'
    } else if d == 2 {
        '2'
    } else if d == 3 {
        '3'
    } else if d == 4 {
        '4'
    } else if d == 5 {
        '5'
    } else if d == 6 {
        '6'
    } else if d == 7 {
        '7'
    } else if d == 8 {
        '8'
    } else {
        '9'
    }
}

/// `n` in decimal digits, without leading zeros.
pub open spec fn decimal_text(n: nat) -> Seq<char>
    decreases n,
{
    if n < 10 {
        seq![digit_char(n)]
    } else {
        decimal_text(n / 10).push(digit_char(n % 10))
    }
}

impl<'a> ValidatorView<'a> {
    /// The name by which scope `v` is reported: that of its metadata, or its
    /// id where none was attached. A handle that names no scope reads
    /// `<unknown>`.
    pub open spec fn scope_name(self, v: int) -> Seq<char> {
        if 0 <= v < self.scopes.len() {
            match self.scopes[v].meta {
                Some(meta) => meta.name,
                None => self.scopes[v].id,
            }
        } else {
            "<unknown>"@
        }
    }

    /// Where scope `v` is reported to be defined: as its metadata says, or
    /// `<unknown>` where none was attached.
    pub open spec fn scope_place(self, v: int) -> Seq<char> {
        if 0 <= v < self.scopes.len() {
            match self.scopes[v].meta {
                Some(meta) => meta.defined_at@,
                None => "<unknown>"@,
            }
        } else {
            "<unknown>"@
        }
    }

    /// The name by which component `c` is reported: that of its metadata, or
    /// its id where none was attached.
    pub open spec fn component_name(self, c: int) -> Seq<char> {
        if 0 <= c < self.components.len() {
            match self.components[c].meta {
                Some(meta) => meta.name,
                None => self.components[c].id,
            }
        } else {
            "<unknown>"@
        }
    }

    /// The text of one line of a report on borrow conflicts.
    pub open spec fn conflict_line_text(self, line: ConflictLine<'a>) -> Seq<char> {
        match line {
            ConflictLine::Conflict { scope, component, requested, held } => "The scope "@ + self.scope_name(
                scope as int,
            ) + " defined at "@ + self.scope_place(scope as int) + " borrows the component "@
                + self.component_name(component as int) + " "@ + requested.adjective_text()
                + " even though it may have already been borrowed "@ + held.adjective_text() + ".\n"@,
            ConflictLine::Borrowed { depth, mutability, def_path } => indent_text(depth as nat)
                + "- This scope could have borrowed the component "@ + mutability.adjective_text()
                + " at location "@ + def_path@ + ".\n"@,
            ConflictLine::CalledBy { depth, scope, held } => indent_text(depth as nat) + "- The scope "@
                + self.scope_name(scope as int) + " defined at "@ + self.scope_place(scope as int)
                + " may have called it while the component was held "@ + held.adjective_text() + ".\n"@
                + indent_text(depth as nat)
                + "  Hint: the following scopes may have been responsible for the aforementioned call...\n"@,
            ConflictLine::CallSite { depth, def_path } => indent_text(depth as nat) + "- "@ + def_path@ + "\n"@,
            ConflictLine::TracedBack { depth } => indent_text(depth as nat)
                + "  Tracing back responsibility...\n"@,
            ConflictLine::End => "\n\n"@,
        }
    }

    /// The text of one line of a report on cycles.
    pub open spec fn cycle_line_text(self, line: CycleLine<'a>) -> Seq<char> {
        match line {
            CycleLine::Cycle { number } => "Cycle "@ + decimal_text(number as nat) + ":\n"@,
            CycleLine::Member { scope } => " - Scope "@ + self.scope_name(scope as int)
                + ", which could call into...\n"@,
            CycleLine::Calls { target, def_path } => "    - Scope "@ + self.scope_name(target as int)
                + " through the invocation declared at "@ + def_path@ + "\n"@,
            CycleLine::End => "\n"@,
        }
    }

    /// The text of the first `upto` lines of a report on borrow conflicts.
    pub open spec fn conflict_lines_text(self, lines: Seq<ConflictLine<'a>>, upto: int) -> Seq<char>
        decreases upto,
    {
        if upto <= 0 {
            Seq::empty()
        } else {
            self.conflict_lines_text(lines, upto - 1) + self.conflict_line_text(lines[upto - 1])
        }
    }

    /// The text of the first `upto` lines of a report on cycles.
    pub open spec fn cycle_lines_text(self, lines: Seq<CycleLine<'a>>, upto: int) -> Seq<char>
        decreases upto,
    {
        if upto <= 0 {
            Seq::empty()
        } else {
            self.cycle_lines_text(lines, upto - 1) + self.cycle_line_text(lines[upto - 1])
        }
    }

    /// The message for a report on borrow conflicts.
    pub open spec fn conflict_message(self, lines: Seq<ConflictLine<'a>>) -> Seq<char> {
        "Failed to validate the scope graph:\n\n"@ + self.conflict_lines_text(lines, lines.len() as int)
    }

    /// The message for a report on cycles.
    pub open spec fn cycle_message(self, lines: Seq<CycleLine<'a>>) -> Seq<char> {
        "Failed to validate saddle scope graph: scopes may be called in a cycle, which could cause borrow violations.\n\nThe following scopes form cycles:\n\n"@
            + self.cycle_lines_text(lines, lines.len() as int)
    }
}

/// Appends `depth` levels of indentation.
fn push_indent(text: &mut String, depth: usize)
    ensures
        final(text)@ == old(text)@ + indent_text(depth as nat),
{
    let mut level: usize = 0;
    proof {
        assert(text@ + indent_text(0) =~= text@);
    }
    while level < depth
        invariant
            level <= depth,
            text@ == old(text)@ + indent_text(level as nat),
        decreases depth - level,
    {
        text.append("    ");
        level += 1;
        proof {
            assert(text@ =~= old(text)@ + indent_text(level as nat));
        }
    }
}

/// The character of the decimal digit `d`.
fn digit(d: usize) -> (c: char)
    requires
        d < 10,
    ensures
        c == digit_char(d as nat),
{
    if d == 0 {
        '0'
    } else if d == 1 {
        '1'
    } else if d == 2 {
        '2'
    } else if d == 3 {
        '3'
    } else if d == 4 {
        '4'
    } else if d == 5 {
        '5'
    } else if d == 6 {
        '6'
    } else if d == 7 {
        '7'
    } else if d == 8 {
        '8'
    } else {
        '9'
    }
}

/// Appends `n` in decimal digits.
fn push_decimal(text: &mut String, n: usize)
    ensures
        final(text)@ == old(text)@ + decimal_text(n as nat),
    decreases n,
{
    if n >= 10 {
        push_decimal(text, n / 10);
    }
    push_char(text, digit(n % 10));
    proof {
        assert(text@ =~= old(text)@ + decimal_text(n as nat));
    }
}

impl<'a> Validator<'a> {
    /// Appends the name by which the scope is reported.
    fn push_scope_name(&self, text: &mut String, scope: usize)
        ensures
            final(text)@ == old(text)@ + self@.scope_name(scope as int),
    {
        if scope < self.scopes.len() {
            match &self.scopes[scope].meta {
                Some(meta) => text.append(meta.name.as_str()),
                None => text.append(self.scopes[scope].id.0.as_str()),
            }
        } else {
            text.append("<unknown>");
        }
    }

    /// Appends where the scope is reported to be defined.
    fn push_scope_place(&self, text: &mut String, scope: usize)
        ensures
            final(text)@ == old(text)@ + self@.scope_place(scope as int),
    {
        if scope < self.scopes.len() {
            match &self.scopes[scope].meta {
                Some(meta) => text.append(meta.defined_at),
                None => text.append("<unknown>"),
            }
        } else {
            text.append("<unknown>");
        }
    }

    /// Appends the name by which the component is reported.
    fn push_component_name(&self, text: &mut String, component: usize)
        ensures
            final(text)@ == old(text)@ + self@.component_name(component as int),
    {
        if component < self.components.len() {
            match &self.components[component].meta {
                Some(meta) => text.append(meta.name.as_str()),
                None => text.append(self.components[component].id.0.as_str()),
            }
        } else {
            text.append("<unknown>");
        }
    }

    /// Appends the line that opens the block of a conflict.
    fn push_conflict(&self, text: &mut String, scope: usize, component: usize, requested: Mutability, held: Mutability)
        ensures
            final(text)@ == old(text)@ + self@.conflict_line_text(
                ConflictLine::Conflict { scope, component, requested, held },
            ),
    {
        text.append("The scope ");
        self.push_scope_name(text, scope);
        text.append(" defined at ");
        self.push_scope_place(text, scope);
        text.append(" borrows the component ");
        self.push_component_name(text, component);
        text.append(" ");
        text.append(requested.adjective());
        text.append(" even though it may have already been borrowed ");
        text.append(held.adjective());
        text.append(".\n");
        proof {
            assert(text@ =~= old(text)@ + self@.conflict_line_text(
                ConflictLine::Conflict { scope, component, requested, held },
            ));
        }
    }

    /// Appends the line for a site at which the traced scope borrows the component.
    fn push_borrowed(&self, text: &mut String, depth: usize, mutability: Mutability, def_path: &'a str)
        ensures
            final(text)@ == old(text)@ + self@.conflict_line_text(
                ConflictLine::Borrowed { depth, mutability, def_path },
            ),
    {
        push_indent(text, depth);
        text.append("- This scope could have borrowed the component ");
        text.append(mutability.adjective());
        text.append(" at location ");
        text.append(def_path);
        text.append(".\n");
        proof {
            assert(text@ =~= old(text)@ + self@.conflict_line_text(
                ConflictLine::Borrowed { depth, mutability, def_path },
            ));
        }
    }

    /// Appends the lines for a caller that may hold the component.
    fn push_called_by(&self, text: &mut String, depth: usize, scope: usize, held: Mutability)
        ensures
            final(text)@ == old(text)@ + self@.conflict_line_text(ConflictLine::CalledBy { depth, scope, held }),
    {
        push_indent(text, depth);
        text.append("- The scope ");
        self.push_scope_name(text, scope);
        text.append(" defined at ");
        self.push_scope_place(text, scope);
        text.append(" may have called it while the component was held ");
        text.append(held.adjective());
        text.append(".\n");
        push_indent(text, depth);
        text.append("  Hint: the following scopes may have been responsible for the aforementioned call...\n");
        proof {
            assert(text@ =~= old(text)@ + self@.conflict_line_text(ConflictLine::CalledBy { depth, scope, held }));
        }
    }

    /// Appends the line for a call site.
    fn push_call_site(&self, text: &mut String, depth: usize, def_path: &'a str)
        ensures
            final(text)@ == old(text)@ + self@.conflict_line_text(ConflictLine::CallSite { depth, def_path }),
    {
        push_indent(text, depth);
        text.append("- ");
        text.append(def_path);
        text.append("\n");
        proof {
            assert(text@ =~= old(text)@ + self@.conflict_line_text(ConflictLine::CallSite { depth, def_path }));
        }
    }

    /// Appends the line that leads over to a caller's own trace.
    fn push_traced_back(&self, text: &mut String, depth: usize)
        ensures
            final(text)@ == old(text)@ + self@.conflict_line_text(ConflictLine::TracedBack { depth }),
    {
        push_indent(text, depth);
        text.append("  Tracing back responsibility...\n");
        proof {
            assert(text@ =~= old(text)@ + self@.conflict_line_text(ConflictLine::TracedBack { depth }));
        }
    }

    /// Appends the line that opens the block of a cycle.
    fn push_cycle_head(&self, text: &mut String, number: usize)
        ensures
            final(text)@ == old(text)@ + self@.cycle_line_text(CycleLine::Cycle { number }),
    {
        text.append("Cycle ");
        push_decimal(text, number);
        text.append(":\n");
        proof {
            assert(text@ =~= old(text)@ + self@.cycle_line_text(CycleLine::Cycle { number }));
        }
    }

    /// Appends the line for a scope of a cycle.
    fn push_member(&self, text: &mut String, scope: usize)
        ensures
            final(text)@ == old(text)@ + self@.cycle_line_text(CycleLine::Member { scope }),
    {
        text.append(" - Scope ");
        self.push_scope_name(text, scope);
        text.append(", which could call into...\n");
        proof {
            assert(text@ =~= old(text)@ + self@.cycle_line_text(CycleLine::Member { scope }));
        }
    }

    /// Appends the line for a call within a cycle.
    fn push_calls(&self, text: &mut String, target: usize, def_path: &'a str)
        ensures
            final(text)@ == old(text)@ + self@.cycle_line_text(CycleLine::Calls { target, def_path }),
    {
        text.append("    - Scope ");
        self.push_scope_name(text, target);
        text.append(" through the invocation declared at ");
        text.append(def_path);
        text.append("\n");
        proof {
            assert(text@ =~= old(text)@ + self@.cycle_line_text(CycleLine::Calls { target, def_path }));
        }
    }

    /// Appends the text of one line of a report on borrow conflicts.
    fn push_conflict_line(&self, text: &mut String, line: &ConflictLine<'a>)
        ensures
            final(text)@ == old(text)@ + self@.conflict_line_text(*line),
    {
        match *line {
            ConflictLine::Conflict { scope, component, requested, held } => {
                self.push_conflict(text, scope, component, requested, held);
            },
            ConflictLine::Borrowed { depth, mutability, def_path } => {
                self.push_borrowed(text, depth, mutability, def_path);
            },
            ConflictLine::CalledBy { depth, scope, held } => {
                self.push_called_by(text, depth, scope, held);
            },
            ConflictLine::CallSite { depth, def_path } => {
                self.push_call_site(text, depth, def_path);
            },
            ConflictLine::TracedBack { depth } => {
                self.push_traced_back(text, depth);
            },
            ConflictLine::End => {
                text.append("\n\n");
            },
        }
    }

    /// Appends the text of one line of a report on cycles.
    fn push_cycle_line(&self, text: &mut String, line: &CycleLine<'a>)
        ensures
            final(text)@ == old(text)@ + self@.cycle_line_text(*line),
    {
        match *line {
            CycleLine::Cycle { number } => {
                self.push_cycle_head(text, number);
            },
            CycleLine::Member { scope } => {
                self.push_member(text, scope);
            },
            CycleLine::Calls { target, def_path } => {
                self.push_calls(text, target, def_path);
            },
            CycleLine::End => {
                text.append("\n");
            },
        }
    }

    /// The message for an error of `validate`, with scopes and components
    /// named as this validator knows them.
    pub fn explain(&self, error: &ValidationError<'a>) -> (text: String)
        ensures
            text@ == (match *error {
                ValidationError::Cycle(lines) => self@.cycle_message(lines@),
                ValidationError::BorrowConflict(lines) => self@.conflict_message(lines@),
            }),
    {
        let ghost g = self@;
        let mut text = String::new();
        match error {
            ValidationError::Cycle(lines) => {
                text.append(
                    "Failed to validate saddle scope graph: scopes may be called in a cycle, which could cause borrow violations.\n\nThe following scopes form cycles:\n\n",
                );
                let ghost head = text@;
                let mut i: usize = 0;
                proof {
                    assert(text@ =~= head + g.cycle_lines_text(lines@, 0));
                }
                while i < lines.len()
                    invariant
                        i <= lines@.len(),
                        g == self@,
                        text@ == head + g.cycle_lines_text(lines@, i as int),
                    decreases lines@.len() - i,
                {
                    self.push_cycle_line(&mut text, &lines[i]);
                    i += 1;
                    proof {
                        assert(text@ =~= head + g.cycle_lines_text(lines@, i as int));
                    }
                }
            },
            ValidationError::BorrowConflict(lines) => {
                text.append("Failed to validate the scope graph:\n\n");
                let ghost head = text@;
                let mut i: usize = 0;
                proof {
                    assert(text@ =~= head + g.conflict_lines_text(lines@, 0));
                }
                while i < lines.len()
                    invariant
                        i <= lines@.len(),
                        g == self@,
                        text@ == head + g.conflict_lines_text(lines@, i as int),
                    decreases lines@.len() - i,
                {
                    self.push_conflict_line(&mut text, &lines[i]);
                    i += 1;
                    proof {
                        assert(text@ =~= head + g.conflict_lines_text(lines@, i as int));
                    }
                }
            },
        }
        text
    }
}


} // verus!
