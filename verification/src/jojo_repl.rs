//! The check a read-eval-print loop makes of the code typed so far: are
//! its brackets balanced, still open, or wrong?

use vstd::prelude::*;
use crate::text::{chars_of, push_char, push_str};

verus! {

/// What the code typed so far is: balanced, so it can be run, or with
/// brackets or a string still open.
#[derive(Debug, PartialEq, Eq, Structural)]
pub enum BalanceResult {
    Balanced,
    ToBeBalanced,
}

/// Whether the innermost open thing is a string.
pub open spec fn in_quote(stack: Seq<char>) -> bool {
    stack.len() > 0 && stack.last() == '"'
}

/// Whether the character opens a bracket.
pub open spec fn is_bar(c: char) -> bool {
    c == '(' || c == '[' || c == '{'
}

/// Whether the character closes a bracket.
pub open spec fn is_ket(c: char) -> bool {
    c == ')' || c == ']' || c == '}'
}

/// The closing bracket of an opening one.
pub open spec fn ket_of_bar(bar: char) -> char {
    if bar == '(' {
        ')'
    } else if bar == '[' {
        ']'
    } else {
        '}'
    }
}

/// The message for a closing bracket with nothing open.
pub open spec fn no_bar_text(ket: char) -> Seq<char> {
    "\n- bar_ket_check fail\n  no bar\n  ket : "@ + seq![ket] + "\n"@
}

/// The message for a closing bracket that does not close the open one.
pub open spec fn mis_bar_text(bar: char, ket: char) -> Seq<char> {
    "\n- bar_ket_check fail\n  bar : "@ + seq![bar] + "\n  ket : "@ + seq![ket] + "\n"@
}

/// The check of `cs` from index `i` on, with `stack` the things still open,
/// innermost last: a bracket or a double quote opens; inside a string only
/// another double quote counts, and closes it.
pub open spec fn bar_ket_from(cs: Seq<char>, i: int, stack: Seq<char>) -> Result<BalanceResult, Seq<char>>
    decreases cs.len() - i,
{
    if i < 0 || i >= cs.len() {
        Ok(if stack.len() == 0 { BalanceResult::Balanced } else { BalanceResult::ToBeBalanced })
    } else {
        let c = cs[i];
        if is_bar(c) {
            bar_ket_from(cs, i + 1, if in_quote(stack) { stack } else { stack.push(c) })
        } else if is_ket(c) {
            if in_quote(stack) {
                bar_ket_from(cs, i + 1, stack)
            } else if stack.len() == 0 {
                Err(no_bar_text(c))
            } else if c != ket_of_bar(stack.last()) {
                Err(mis_bar_text(stack.last(), c))
            } else {
                bar_ket_from(cs, i + 1, stack.drop_last())
            }
        } else if c == '"' {
            bar_ket_from(cs, i + 1, if in_quote(stack) { stack.drop_last() } else { stack.push(c) })
        } else {
            bar_ket_from(cs, i + 1, stack)
        }
    }
}

/// Whether every thing open is a bracket or a double quote.
pub open spec fn open_things(stack: Seq<char>) -> bool {
    forall|k: int| 0 <= k < stack.len() ==> is_bar(#[trigger] stack[k]) || stack[k] == '"'
}

fn in_doublequote_p(bar_stack: &Vec<char>) -> (r: bool)
    ensures
        r == in_quote(bar_stack@),
{
    let len = bar_stack.len();
    if len == 0 {
        false
    } else {
        bar_stack[len - 1] == '"'
    }
}

fn bar_to_ket(bar: char) -> (ket: char)
    requires
        is_bar(bar),
    ensures
        ket == ket_of_bar(bar),
{
    match bar {
        '(' => ')',
        '[' => ']',
        _ => '}',
    }
}

fn error_no_bar(ket: char) -> (s: String)
    ensures
        s@ == no_bar_text(ket),
{
    let mut s = String::new();
    push_str(&mut s, "\n- bar_ket_check fail\n  no bar\n  ket : ");
    push_char(&mut s, ket);
    push_str(&mut s, "\n");
    proof {
        assert(s@ =~= no_bar_text(ket));
    }
    s
}

fn error_mis_bar(bar: char, ket: char) -> (s: String)
    ensures
        s@ == mis_bar_text(bar, ket),
{
    let mut s = String::new();
    push_str(&mut s, "\n- bar_ket_check fail\n  bar : ");
    push_char(&mut s, bar);
    push_str(&mut s, "\n  ket : ");
    push_char(&mut s, ket);
    push_str(&mut s, "\n");
    proof {
        assert(s@ =~= mis_bar_text(bar, ket));
    }
    s
}

/// Checks the brackets and strings of `code`: balanced, still open, or the
/// message for the first closing bracket that closes nothing or the wrong
/// thing.
pub fn bar_ket_check(code: &str) -> (r: Result<BalanceResult, String>)
    ensures
        match bar_ket_from(code@, 0, Seq::empty()) {
            Ok(b) => r == Ok::<BalanceResult, String>(b),
            Err(msg) => r matches Err(s) && s@ == msg,
        },
{
    let cs = chars_of(code);
    let mut bar_stack: Vec<char> = Vec::new();
    let mut i: usize = 0;
    while i < cs.len()
        invariant
            cs@ == code@,
            i <= cs@.len(),
            open_things(bar_stack@),
            bar_ket_from(cs@, i as int, bar_stack@) == bar_ket_from(code@, 0, Seq::empty()),
        decreases cs@.len() - i,
    {
        let c = cs[i];
        let ghost before = bar_stack@;
        if c == '(' || c == '[' || c == '{' {
            if !in_doublequote_p(&bar_stack) {
                bar_stack.push(c);
            }
        } else if c == ')' || c == ']' || c == '}' {
            if !in_doublequote_p(&bar_stack) {
                match bar_stack.pop() {
                    Some(bar) => {
                        proof {
                            assert(before[before.len() - 1] == bar);
                            assert(is_bar(bar));
                        }
                        let ket = bar_to_ket(bar);
                        if c != ket {
                            return Err(error_mis_bar(bar, c));
                        }
                    },
                    None => {
                        return Err(error_no_bar(c));
                    },
                }
            }
        } else if c == '"' {
            if !in_doublequote_p(&bar_stack) {
                bar_stack.push(c);
            } else {
                bar_stack.pop();
            }
        }
        proof {
            assert forall|k: int| 0 <= k < bar_stack@.len() implies is_bar(#[trigger] bar_stack@[k]) || bar_stack@[k] == '"' by {
                if k < before.len() {
                    assert(bar_stack@[k] == before[k]);
                }
            }
        }
        i = i + 1;
    }
    if bar_stack.len() == 0 {
        Ok(BalanceResult::Balanced)
    } else {
        Ok(BalanceResult::ToBeBalanced)
    }
}

} // verus!
