//! The `hello-tier1` builtin: one line of output before and after each wrapped
//! call, with a greeting that comes from the configuration.

use vstd::prelude::*;

verus! {

/// Configuration key of the greeting.
pub const GREETING_KEY: &'static str = "greeting";

/// Greeting where the configuration has none.
pub const DEFAULT_GREETING: &'static str = "hello-tier1";

/// The wrapped call.
pub struct CallId {
    pub interface_name: String,
    pub function_name: String,
}

/// How to come by the greeting.
pub enum GreetingStep {
    /// It is known already.
    Ready(String),
    /// Look this key up, and hand what comes back to [`settle_greeting`].
    Ask(String),
}

/// The next step to the greeting: once it is known, the configuration is not
/// asked again.
pub fn greeting(cached: &Option<String>) -> (step: GreetingStep)
    ensures
        (match *cached {
            Some(known) => step matches GreetingStep::Ready(g) && g@ == known@,
            None => step matches GreetingStep::Ask(key) && key@ == GREETING_KEY@,
        }),
{
    match cached {
        Some(known) => GreetingStep::Ready(known.clone()),
        None => GreetingStep::Ask(GREETING_KEY.to_owned()),
    }
}

/// The greeting that an answer of the configuration stands for.
pub open spec fn greeting_for(fetched: Option<String>) -> Seq<char> {
    match fetched {
        Some(g) => g@,
        None => DEFAULT_GREETING@,
    }
}

/// What is cached once an answer has come in: an earlier one stays.
pub open spec fn settled(cached: Option<Seq<char>>, fetched: Option<String>) -> Seq<char> {
    match cached {
        Some(known) => known,
        None => greeting_for(fetched),
    }
}

/// The cached text, if any.
pub open spec fn cached_text(cached: Option<String>) -> Option<Seq<char>> {
    match cached {
        Some(known) => Some(known@),
        None => None,
    }
}

/// Caches the greeting that the configuration answered with, unless another
/// answer was first, and returns the cached one.
pub fn settle_greeting(cached: &mut Option<String>, fetched: Option<String>) -> (greeting: String)
    ensures
        greeting@ == settled(cached_text(*old(cached)), fetched),
        cached_text(*final(cached)) == Some(greeting@),
{
    match cached {
        Some(known) => known.clone(),
        None => {
            let val = match fetched {
                Some(g) => g,
                None => DEFAULT_GREETING.to_owned(),
            };
            let greeting = val.clone();
            *cached = Some(val);
            greeting
        },
    }
}

/// What is cached once all of `answers` have come in, one after the other.
pub open spec fn cached_after(answers: Seq<Option<String>>) -> Option<Seq<char>>
    decreases answers.len(),
{
    if answers.len() == 0 {
        None
    } else {
        Some(settled(cached_after(answers.drop_last()), answers.last()))
    }
}

/// Callers that find nothing cached and ask at the same time all get the same
/// greeting: that of the answer that came in first, whatever the others were.
pub proof fn lemma_racers_agree(answers: Seq<Option<String>>, k: int)
    requires
        0 <= k < answers.len(),
    ensures
        settled(cached_after(answers.take(k)), answers[k]) == greeting_for(answers[0]),
        cached_after(answers) == Some(greeting_for(answers[0])),
    decreases answers.len(),
{
    let init = answers.drop_last();
    if init.len() > 0 {
        lemma_racers_agree(init, if k < init.len() { k } else { 0 });
    }
    if k < init.len() {
        assert(init.take(k) =~= answers.take(k));
    } else {
        assert(answers.take(k) =~= init);
    }
}

/// An answer is taken as it is; without one, and with nothing cached, the
/// greeting is the builtin's own name.
pub proof fn lemma_greeting_choice(cached: Option<String>, fetched: Option<String>)
    ensures
        settled(cached_text(cached), fetched) == match (cached, fetched) {
            (Some(known), _) => known@,
            (None, Some(g)) => g@,
            (None, None) => "hello-tier1"@,
        },
        greeting_for(fetched) == settled(None, fetched),
{
}

/// The line that a call prints at its start or its return, marked by `mark`.
pub open spec fn call_line(greeting: Seq<char>, mark: Seq<char>, call: CallId) -> Seq<char> {
    "["@ + greeting + "] "@ + mark + " "@ + call.interface_name@ + "#"@ + call.function_name@
}

/// The lines of a call align: greeting, mark, interface and function take up
/// the same columns in both, and only the mark differs.
pub proof fn lemma_lines_align(greeting: Seq<char>, call: CallId)
    ensures
        ({
            let before = call_line(greeting, "before"@, call);
            let after = call_line(greeting, "after "@, call);
            let g = greeting.len() as int;
            let at = g + 10 + call.interface_name@.len();
            &&& before.len() == after.len()
            &&& before.len() == at + 1 + call.function_name@.len()
            &&& before.subrange(1, 1 + g) == greeting
            &&& before.subrange(g + 3, g + 9) == "before"@
            &&& after.subrange(g + 3, g + 9) == "after "@
            &&& before.subrange(g + 10, at) == call.interface_name@
            &&& before[at] == '#'
            &&& before.skip(at + 1) == call.function_name@
            &&& forall|k: int| #![trigger before[k]]
                0 <= k < before.len() && !(g + 3 <= k < g + 9) ==> before[k] == after[k]
        }),
{
    reveal_strlit("[");
    reveal_strlit("] ");
    reveal_strlit("before");
    reveal_strlit("after ");
    reveal_strlit(" ");
    reveal_strlit("#");
    let before = call_line(greeting, "before"@, call);
    let after = call_line(greeting, "after "@, call);
    let g = greeting.len() as int;
    let at = g + 10 + call.interface_name@.len();
    assert(before.subrange(1, 1 + g) =~= greeting);
    assert(before.subrange(g + 3, g + 9) =~= "before"@);
    assert(after.subrange(g + 3, g + 9) =~= "after "@);
    assert(before.subrange(g + 10, at) =~= call.interface_name@);
    assert(before.skip(at + 1) =~= call.function_name@);
}

/// The builtin.
pub struct HelloTier1;

impl HelloTier1 {
    /// The line for the start of a call.
    pub fn on_call(greeting: &str, call: &CallId) -> (line: String)
        ensures
            line@ == "["@ + greeting@ + "] before "@ + call.interface_name@ + "#"@
                + call.function_name@,
            line@ == call_line(greeting@, "before"@, *call),
    {
        let line = String::from_str("[").concat(greeting).concat("] before ").concat(
            call.interface_name.as_str(),
        ).concat("#").concat(call.function_name.as_str());
        proof {
            reveal_strlit("] before ");
            reveal_strlit("] ");
            reveal_strlit("before");
            reveal_strlit(" ");
            assert("] before "@ =~= "] "@ + "before"@ + " "@);
            assert(line@ =~= call_line(greeting@, "before"@, *call));
        }
        line
    }

    /// The line for the return of a call. It aligns with that for the start.
    pub fn on_return(greeting: &str, call: &CallId) -> (line: String)
        ensures
            line@ == "["@ + greeting@ + "] after  "@ + call.interface_name@ + "#"@
                + call.function_name@,
            line@ == call_line(greeting@, "after "@, *call),
    {
        let line = String::from_str("[").concat(greeting).concat("] after  ").concat(
            call.interface_name.as_str(),
        ).concat("#").concat(call.function_name.as_str());
        proof {
            reveal_strlit("] after  ");
            reveal_strlit("] ");
            reveal_strlit("after ");
            reveal_strlit(" ");
            assert("] after  "@ =~= "] "@ + "after "@ + " "@);
            assert(line@ =~= call_line(greeting@, "after "@, *call));
        }
        line
    }
}

} // verus!
