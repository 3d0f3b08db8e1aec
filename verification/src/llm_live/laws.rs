//! What settings, providers, conversations and calls of tools come to.
use vstd::prelude::*;

use crate::text::{ascii_lower, lemma_first_index_is, text_has, trimmed};
use crate::text_order::{lemma_texts_sorted, texts_sorted};

use super::chat::{blank, CallView, MessageView};
use super::dotenv::{dotenv_value, first_in, line_value, says_yes, setting};
use super::multi_turn::{answered, TurnView, TOKEN};
use super::providers::{active, is_runtime, CaseSettings, ProviderCase, ProviderRuntime};
use super::tools::{first_strange, required_call_fault, tool_answered, tool_messages, verdict,
    ToolView};

verus! {

/// Whether a text is not empty and has no white space at its ends.
pub open spec fn is_plain(t: Seq<char>) -> bool {
    t.len() > 0 && trimmed(t) == t
}

/// A line of a name, an equals sign and a value gives the name that value, without quotes around
/// it, and gives no other name one.
pub proof fn lemma_line_gives_its_value(name: Seq<char>, value: Seq<char>, key: Seq<char>)
    requires
        is_plain(name),
        is_plain(name + seq!['='] + value),
        trimmed(value) == value,
        forall|i: int| 0 <= i < name.len() ==> name[i] != '=',
        !(name.len() >= 7 && name.take(7) == "export "@),
        name[0] != '#',
    ensures
        ({
            let line = name + seq!['='] + value;
            &&& key != name ==> line_value(line, key) is None
            &&& key == name && value.len() > 0 && value[0] != '"' && value[0] != '\'' ==> line_value(
                line,
                key,
            ) == Some(value)
            &&& key == name && value.len() > 2 && (value[0] == '"' || value[0] == '\'')
                && value.last() == value[0] ==> line_value(line, key) == Some(
                value.subrange(1, value.len() - 1),
            )
            &&& key == name && value.len() == 0 ==> line_value(line, key) is None
        }),
{
    reveal_strlit("export ");
    let line = name + seq!['='] + value;
    assert(line[0] == name[0]);
    assert(!(line.len() >= 7 && line.take(7) == "export "@)) by {
        if line.len() >= 7 && line.take(7) == "export "@ {
            assert("export "@[6] == ' ');
            if name.len() >= 7 {
                assert(name.take(7) =~= line.take(7));
            } else {
                assert(line.take(7)[name.len() as int] == '=');
                assert(line[name.len() as int] == '=');
                assert("export "@[name.len() as int] == '=');
            }
        }
    }
    lemma_first_index_is(line, '=', name.len() as int);
    assert(line.take(name.len() as int) =~= name);
    assert(line.skip(name.len() as int + 1) =~= value);
}

/// A line that is blank or a comment gives nothing.
pub proof fn lemma_comment_gives_nothing(line: Seq<char>, key: Seq<char>)
    requires
        trimmed(line).len() == 0 || trimmed(line)[0] == '#',
    ensures
        line_value(line, key) is None,
{
}

/// The value of a name in a file is that of its first line, if that gives one, and else that of the
/// lines after it.
pub proof fn lemma_first_line_that_gives_a_value_counts(
    line: Seq<char>,
    rest: Seq<char>,
    key: Seq<char>,
)
    requires
        forall|i: int| 0 <= i < line.len() ==> line[i] != '\n',
    ensures
        line_value(line, key) is Some ==> dotenv_value(line + seq!['\n'] + rest, key) == line_value(
            line,
            key,
        ),
        line_value(line, key) is None ==> dotenv_value(line + seq!['\n'] + rest, key)
            == dotenv_value(rest, key),
        dotenv_value(line, key) == line_value(line, key),
{
    let all = line + seq!['\n'] + rest;
    lemma_first_index_is(all, '\n', line.len() as int);
    lemma_first_index_is(line, '\n', line.len() as int);
    assert(all.take(line.len() as int) =~= line);
    assert(all.skip(line.len() as int + 1) =~= rest);
}

/// The environment counts before all files, unless it has nothing but white space; of the files the
/// first counts that gives a value.
pub proof fn lemma_environment_counts_first(
    env: Option<Seq<char>>,
    files: Seq<Seq<char>>,
    key: Seq<char>,
)
    ensures
        env matches Some(v) ==> trimmed(v).len() > 0 ==> setting(env, files, key) == Some(trimmed(v)),
        !(env matches Some(v) && trimmed(v).len() > 0) ==> {
            &&& setting(env, files, key) is Some <==> exists|i: int|
                0 <= i < files.len() && dotenv_value(#[trigger] files[i], key) is Some
            &&& forall|i: int|
                0 <= i < files.len() && dotenv_value(#[trigger] files[i], key) is Some && (forall|
                    j: int,
                |
                    0 <= j < i ==> dotenv_value(#[trigger] files[j], key) is None) ==> setting(
                    env,
                    files,
                    key,
                ) == dotenv_value(files[i], key)
        },
{
    lemma_first_file(files, key, 0);
}

proof fn lemma_first_file(files: Seq<Seq<char>>, key: Seq<char>, from: int)
    requires
        0 <= from <= files.len(),
    ensures
        first_in(files, key, from) is Some <==> exists|i: int|
            from <= i < files.len() && dotenv_value(#[trigger] files[i], key) is Some,
        forall|i: int|
            from <= i < files.len() && dotenv_value(#[trigger] files[i], key) is Some && (forall|
                j: int,
            |
                from <= j < i ==> dotenv_value(#[trigger] files[j], key) is None) ==> first_in(
                files,
                key,
                from,
            ) == dotenv_value(files[i], key),
    decreases files.len() - from,
{
    if from < files.len() {
        lemma_first_file(files, key, from + 1);
        assert forall|i: int|
            from <= i < files.len() && dotenv_value(#[trigger] files[i], key) is Some && (forall|
                j: int,
            |
                from <= j < i ==> dotenv_value(#[trigger] files[j], key) is None) implies first_in(
            files,
            key,
            from,
        ) == dotenv_value(files[i], key) by {
            if i > from {
                assert(dotenv_value(files[from], key) is None);
            }
        }
    }
}

/// The checks are run if and only if the setting is one of three words, in letters of either case
/// and with white space around it.
pub proof fn lemma_checks_are_run_on_request(value: Option<Seq<char>>)
    ensures
        says_yes(value) <==> {
            &&& value matches Some(v)
            &&& (trimmed(v).map_values(|c: char| ascii_lower(c)) == "1"@ || trimmed(v).map_values(
                |c: char| ascii_lower(c),
            ) == "true"@ || trimmed(v).map_values(|c: char| ascii_lower(c)) == "yes"@)
        },
{
}

/// The providers that are asked are, in order, all those with a key and with a model, from the
/// settings or by default.
pub proof fn lemma_providers_with_key_and_model_are_asked(
    cases: Seq<ProviderCase>,
    settings: Seq<CaseSettings>,
    n: nat,
)
    requires
        n <= settings.len(),
        n <= cases.len(),
    ensures
        ({
            let at = active(cases, settings, n);
            &&& forall|i: int|
                0 <= i < n ==> (at.contains(i) <==> settings[i].api_key is Some && (
                settings[i].model is Some || cases[i].default_model is Some))
            &&& forall|k: int| 0 <= k < at.len() ==> 0 <= #[trigger] at[k] < n
            &&& forall|j: int, k: int| 0 <= j < k < at.len() ==> #[trigger] at[j] < #[trigger] at[k]
        }),
    decreases n,
{
    if n > 0 {
        lemma_providers_with_key_and_model_are_asked(cases, settings, (n - 1) as nat);
        let before = active(cases, settings, (n - 1) as nat);
        let at = active(cases, settings, n);
        if at.len() > before.len() {
            assert(at == before.push(n - 1));
            assert(at[before.len() as int] == n - 1);
            assert forall|i: int| 0 <= i < n implies (at.contains(i) <==> before.contains(i) || i == n
                - 1) by {
                if before.contains(i) {
                    let k = choose|k: int| 0 <= k < before.len() && before[k] == i;
                    assert(at[k] == i);
                }
                if at.contains(i) && i != n - 1 {
                    let k = choose|k: int| 0 <= k < at.len() && at[k] == i;
                    assert(before[k] == i);
                }
            }
            assert(!before.contains(n - 1));
        } else {
            assert(!before.contains(n - 1));
        }
    }
}

/// A provider is set up with the key in the settings, with the model and the address in them or
/// else by default, and otherwise as its case says.
pub proof fn lemma_provider_is_set_up(r: ProviderRuntime, c: ProviderCase, s: CaseSettings)
    requires
        is_runtime(r, c, s),
    ensures
        s.api_key is Some && r.api_key@ == (s.api_key->0)@,
        s.model matches Some(m) ==> r.model@ == m@,
        s.model is None ==> c.default_model is Some && r.model@ == (c.default_model->0)@,
        s.base_url matches Some(u) ==> r.base_url@ == u@,
        s.base_url is None ==> r.base_url@ == c.default_base_url@,
        r.provider_id@ == c.provider_id@,
        r.api_kind == c.api_kind,
        r.supports_response_format == c.supports_response_format,
        r.strict_multi_tool == c.strict_multi_tool,
{
}

/// A conversation goes on with an answer, which is put behind the question; it asks again after the
/// first blank answer and fails after the second; of the second turn it wants the token. It keeps
/// its provider, and what was said stays.
pub proof fn lemma_conversation_goes_on(v: TurnView, reply: Seq<char>)
    ensures
        ({
            let w = answered(v, reply);
            let first = v.phase is Turn1 || v.phase is Turn1Retry;
            let second = v.phase is Turn2 || v.phase is Turn2Retry;
            let third = v.phase is Turn3 || v.phase is Turn3Retry;
            let over = v.phase is Done || v.phase is Failed;
            &&& w.provider == v.provider
            &&& over ==> w == v
            &&& w.phase is Failed && !(v.phase is Failed) ==> w.history == v.history && (blank(reply)
                || (v.phase is Turn2Retry && !text_has(reply, TOKEN@)))
            &&& !(w.phase is Failed) ==> w.failure == v.failure
            &&& first && !blank(reply) ==> w.phase is Turn2 && w.history.len() == 3 && w.history[1]
                == MessageView::Assistant(reply)
            &&& v.phase is Turn1 && blank(reply) ==> w.phase is Turn1Retry && w.history == v.history
            &&& v.phase is Turn1Retry && blank(reply) ==> w.phase is Failed
            &&& second && !blank(reply) && text_has(reply, TOKEN@) ==> w.phase is Turn3
            &&& v.phase is Turn2 && !blank(reply) && !text_has(reply, TOKEN@) ==> w.phase
                is Turn2Retry
            &&& v.phase is Turn2 && blank(reply) ==> w.phase is Failed
            &&& second && !(w.phase is Failed) ==> w.history.len() == v.history.len() + 2
                && w.history.take(v.history.len() as int) == v.history && w.history[v.history.len() as int]
                == MessageView::Assistant(reply) && w.history.last() is User
            &&& third && !blank(reply) ==> w.phase is Done && w.history == v.history
            &&& v.phase is Turn3 && blank(reply) ==> w.phase is Turn3Retry && w.history == v.history
            &&& v.phase is Turn3Retry && blank(reply) ==> w.phase is Failed
        }),
{
    let w = answered(v, reply);
    if w.history.len() == v.history.len() + 2 && (v.phase is Turn2 || v.phase is Turn2Retry) {
        assert(w.history.take(v.history.len() as int) =~= v.history);
    }
}

proof fn lemma_strange_is_found(sorted: Seq<Seq<char>>, from: int)
    requires
        0 <= from <= sorted.len(),
    ensures
        first_strange(sorted, from) is None <==> forall|i: int|
            from <= i < sorted.len() ==> (#[trigger] sorted[i] == "echo_payload"@ || sorted[i]
                == "sum_pair"@),
    decreases sorted.len() - from,
{
    if from < sorted.len() {
        lemma_strange_is_found(sorted, from + 1);
    }
}

/// Calls of tools are accepted if and only if there are some, none is of a tool that is not
/// offered, and, where both tools are wanted, both are called. They are asked for again only for
/// want of one of the two, and three times at most.
pub proof fn lemma_calls_are_judged(
    provider: Seq<char>,
    model: Seq<char>,
    strict: bool,
    attempt: u64,
    names: Seq<Seq<char>>,
)
    ensures
        ({
            let known = names.len() > 0 && forall|i: int|
                0 <= i < names.len() ==> (#[trigger] names[i] == "echo_payload"@ || names[i]
                    == "sum_pair"@);
            let enough = !strict || names.contains("echo_payload"@) && names.contains("sum_pair"@);
            let v = verdict(provider, model, strict, attempt, names);
            &&& v is Accepted <==> known && enough
            &&& v is Again <==> known && !enough && attempt < 2
        }),
{
    let sorted = texts_sorted(names);
    lemma_strange_is_found(sorted, 0);
    lemma_texts_sorted(names);
    if forall|i: int|
        0 <= i < names.len() ==> (#[trigger] names[i] == "echo_payload"@ || names[i]
            == "sum_pair"@) {
        assert forall|i: int| 0 <= i < sorted.len() implies (#[trigger] sorted[i]
            == "echo_payload"@ || sorted[i] == "sum_pair"@) by {
            assert(sorted.to_multiset().count(sorted[i]) > 0) by {
                broadcast use vstd::seq_lib::group_to_multiset_ensures;

                assert(sorted.contains(sorted[i]));
            }
            assert(names.contains(sorted[i])) by {
                broadcast use vstd::seq_lib::group_to_multiset_ensures;

            }
        }
    }
    if forall|i: int|
        0 <= i < sorted.len() ==> (#[trigger] sorted[i] == "echo_payload"@ || sorted[i]
            == "sum_pair"@) {
        assert forall|i: int| 0 <= i < names.len() implies (#[trigger] names[i] == "echo_payload"@
            || names[i] == "sum_pair"@) by {
            assert(names.to_multiset().count(names[i]) > 0) by {
                broadcast use vstd::seq_lib::group_to_multiset_ensures;

                assert(names.contains(names[i]));
            }
            assert(sorted.contains(names[i])) by {
                broadcast use vstd::seq_lib::group_to_multiset_ensures;

            }
        }
    }
}

/// Calls of tools are told with the calls first, and then a result for each, in order, with the
/// number and the name of the call.
pub proof fn lemma_every_call_has_a_result(calls: Seq<CallView>, prefix: Seq<char>, n: nat)
    requires
        n <= calls.len(),
    ensures
        ({
            let m = tool_messages(calls, prefix, n);
            &&& m.len() == n + 1
            &&& m[0] == MessageView::ToolCalls(calls)
            &&& forall|i: int|
                0 <= i < n ==> m[i + 1] == (MessageView::ToolResult {
                    call_id: (#[trigger] calls[i]).0,
                    tool: calls[i].1,
                    result: prefix + calls[i].1,
                })
        }),
    decreases n,
{
    if n > 0 {
        lemma_every_call_has_a_result(calls, prefix, (n - 1) as nat);
    }
}

/// A conversation with tools is over after two answers that say something. It fails after a blank
/// answer to the last question, or after four blank answers to the results; before that it gives
/// the results of further calls, or asks for a text where there are none.
pub proof fn lemma_tools_are_answered(v: ToolView, text: Seq<char>, calls: Option<Seq<CallView>>)
    requires
        v.round < 4,
    ensures
        ({
            let w = tool_answered(v, text, calls);
            &&& w.provider == v.provider
            &&& v.phase is Done || v.phase is Failed ==> w == v
            &&& v.phase is Results && !blank(text) ==> w.phase is Followup && w.round == v.round
                && w.history.len() == v.history.len() + 2 && w.history[v.history.len() as int]
                == MessageView::Assistant(text) && w.history.last() is User
            &&& v.phase is Results && blank(text) ==> (w.phase is Failed <==> v.round == 3)
            &&& v.phase is Results && blank(text) && v.round < 3 ==> {
                &&& w.phase is Results
                &&& w.round == v.round + 1
                &&& calls is None ==> w.history.len() == v.history.len() + 1 && w.history.last()
                    is User
                &&& calls matches Some(c) ==> w.history.len() == v.history.len() + 1 + c.len()
                    && w.history[v.history.len() as int] == MessageView::ToolCalls(c)
            }
            &&& v.phase is Followup ==> (w.phase is Done <==> !blank(text)) && (w.phase is Failed
                <==> blank(text)) && w.history == v.history
            &&& v.history.len() <= w.history.len() && w.history.take(v.history.len() as int)
                == v.history
        }),
{
    if let Some(c) = calls {
        lemma_every_call_has_a_result(c, "live_result_followup_"@, c.len());
    }
    assert(tool_answered(v, text, calls).history.take(v.history.len() as int) =~= v.history);
}

/// A required call is right if and only if there is one, the first is of the tool that gives back
/// what it is given, and its argument is not empty.
pub proof fn lemma_required_call_is_checked(
    provider: Seq<char>,
    calls: Seq<CallView>,
    value: Seq<char>,
)
    ensures
        required_call_fault(provider, calls, value) is None <==> calls.len() > 0 && calls[0].1
            == "echo_payload"@ && value.len() > 0,
{
}

} // verus!
