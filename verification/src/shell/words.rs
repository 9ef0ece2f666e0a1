//! What the shell reads out of text, and what it says.

use vstd::prelude::*;

use crate::lists;
use crate::seed;
use crate::seed::{SeedActorModel, SeedThread, SeedThreadModel};
use crate::text;

verus! {

// ---------------------------------------------------------------- mentions --

/// The handle a token names, if it starts with an `@`: the rest of it, without
/// the punctuation it ends with.
pub open spec fn handle_in(token: Seq<char>) -> Option<Seq<char>> {
    if token.len() > 0 && token[0] == '@' {
        Some(text::trim_end_where(token.drop_first(), |c: char| !text::handle_char(c)))
    } else {
        None
    }
}

/// Strip trailing punctuation from a mention token.
pub fn mention_word(token: &str) -> (r: Option<&str>)
    ensures
        r.deep_view() == handle_in(token@),
{
    let chars = text::to_chars(token);
    if chars.len() == 0 || chars[0] != '@' {
        return None;
    }
    let ghost rest = token@.drop_first();
    let ghost p = |c: char| !text::handle_char(c);
    let mut end: usize = chars.len();
    while end > 1 && !text::is_handle_char(chars[end - 1])
        invariant
            chars@ == token@,
            rest == token@.drop_first(),
            p == (|c: char| !text::handle_char(c)),
            1 <= end <= chars.len(),
            forall|k: int| end - 1 <= k < rest.len() ==> p(#[trigger] rest[k]),
        decreases end,
    {
        assert(rest[end - 2] == chars@[end - 1]);
        end -= 1;
    }
    proof {
        if end > 1 {
            assert(rest[end - 2] == chars@[end - 1]);
        }
        text::lemma_trim_end_at(rest, p, end - 1);
        assert(token@.subrange(1, end as int) =~= rest.take(end - 1));
    }
    Some(token.substring_char(1, end))
}

/// Where the person with that handle stands. Agents are not people.
pub open spec fn person(handle: Seq<char>) -> Option<int> {
    lists::place(seed::everyone(), |a: SeedActorModel| !a.agent && a.handle == handle)
}

/// The people the tokens mention, each once, in the order they are first
/// mentioned.
pub open spec fn mentioned(tokens: Seq<Seq<char>>) -> Seq<usize>
    decreases tokens.len(),
{
    if tokens.len() == 0 {
        Seq::empty()
    } else {
        let before = mentioned(tokens.drop_last());
        match handle_in(tokens.last()) {
            Some(handle) => match person(handle) {
                Some(i) if !before.contains(i as usize) => before.push(i as usize),
                _ => before,
            },
            None => before,
        }
    }
}

/// Where the person with that handle stands.
fn find_person(handle: &str) -> (r: Option<usize>)
    ensures
        match r {
            Some(i) => i < seed::everyone().len() && person(handle@) == Some(i as int),
            None => person(handle@) is None,
        },
{
    let all = seed::actors();
    let ghost who = all.deep_view();
    let ghost p = |a: SeedActorModel| !a.agent && a.handle == handle@;
    let mut i: usize = 0;
    while i < all.len()
        invariant
            who == all.deep_view(),
            who == seed::everyone(),
            p == (|a: SeedActorModel| !a.agent && a.handle == handle@),
            i <= all.len(),
            lists::position(who, p) == lists::position_from(who, p, i as int),
        decreases all.len() - i,
    {
        assert(who[i as int] == all@[i as int].deep_view());
        if !all[i].agent && text::same_text(all[i].handle, handle) {
            return Some(i);
        }
        i += 1;
    }
    None
}

/// Whether a list of numbers holds `n`.
pub fn holds(list: &Vec<usize>, n: usize) -> (r: bool)
    ensures
        r == list@.contains(n),
{
    let mut i: usize = 0;
    while i < list.len()
        invariant
            i <= list.len(),
            forall|k: int| 0 <= k < i ==> list@[k] != n,
        decreases list.len() - i,
    {
        if list[i] == n {
            assert(list@.contains(n));
            return true;
        }
        i += 1;
    }
    false
}

/// The people a comment mentions.
pub fn parse_mentions(body: &str) -> (r: Vec<usize>)
    ensures
        r@ == mentioned(text::words(body@)),
{
    let tokens = text::split_words(body);
    let ghost all = tokens.deep_view();
    let mut out: Vec<usize> = Vec::new();
    let mut i: usize = 0;
    while i < tokens.len()
        invariant
            all == tokens.deep_view(),
            i <= tokens.len(),
            out@ == mentioned(all.take(i as int)),
        decreases tokens.len() - i,
    {
        assert(all.take(i + 1).drop_last() =~= all.take(i as int));
        assert(all.take(i + 1).last() == tokens@[i as int]@);
        if let Some(handle) = mention_word(tokens[i].as_str()) {
            // Agents are not mention targets. To reach the agent in another
            // thread you forward to the thread; `@` only ever addresses a
            // person.
            if let Some(who) = find_person(handle) {
                if !holds(&out, who) {
                    out.push(who);
                }
            }
        }
        i += 1;
    }
    assert(all.take(all.len() as int) =~= all);
    out
}

/// Only people are mentioned, each once; and whoever a token names by handle is
/// among them. Agents never are.
pub proof fn mentions_are_people_named_once(tokens: Seq<Seq<char>>)
    ensures
        mentioned(tokens).no_duplicates(),
        forall|i: usize| #[trigger]
            mentioned(tokens).contains(i) <==> exists|k: int|
                0 <= k < tokens.len() && handle_in(#[trigger] tokens[k]) is Some && person(
                    handle_in(tokens[k])->0,
                ) == Some(i as int),
        forall|i: usize| #[trigger]
            mentioned(tokens).contains(i) ==> i < seed::everyone().len()
                && !seed::everyone()[i as int].agent,
    decreases tokens.len(),
{
    if tokens.len() > 0 {
        let front = tokens.drop_last();
        mentions_are_people_named_once(front);
        let before = mentioned(front);
        let all = mentioned(tokens);
        let last = tokens.len() - 1;
        assert forall|i: usize| #[trigger] all.contains(i) <==> exists|k: int|
            0 <= k < tokens.len() && handle_in(#[trigger] tokens[k]) is Some && person(
                handle_in(tokens[k])->0,
            ) == Some(i as int) by {
            if all.contains(i) {
                let j = choose|j: int| 0 <= j < all.len() && all[j] == i;
                if j < before.len() {
                    assert(before[j] == i);
                    assert(before.contains(i));
                    let k = choose|k: int|
                        0 <= k < front.len() && handle_in(#[trigger] front[k]) is Some && person(
                            handle_in(front[k])->0,
                        ) == Some(i as int);
                    assert(tokens[k] == front[k]);
                } else {
                    lemma_person(handle_in(tokens[last])->0);
                    assert(handle_in(tokens[last]) is Some);
                }
            }
            if exists|k: int|
                0 <= k < tokens.len() && handle_in(#[trigger] tokens[k]) is Some && person(
                    handle_in(tokens[k])->0,
                ) == Some(i as int) {
                let k = choose|k: int|
                    0 <= k < tokens.len() && handle_in(#[trigger] tokens[k]) is Some && person(
                        handle_in(tokens[k])->0,
                    ) == Some(i as int);
                if k < last {
                    assert(front[k] == tokens[k]);
                    assert(before.contains(i));
                    let j = choose|j: int| 0 <= j < before.len() && before[j] == i;
                    assert(all[j] == i);
                } else if !before.contains(i) {
                    assert(all[before.len() as int] == i);
                } else {
                    let j = choose|j: int| 0 <= j < before.len() && before[j] == i;
                    assert(all[j] == i);
                }
            }
        }
        assert forall|i: usize| #[trigger] all.contains(i) implies i < seed::everyone().len()
            && !seed::everyone()[i as int].agent by {
            let k = choose|k: int|
                0 <= k < tokens.len() && handle_in(#[trigger] tokens[k]) is Some && person(
                    handle_in(tokens[k])->0,
                ) == Some(i as int);
            lemma_person(handle_in(tokens[k])->0);
        }
    }
}

proof fn lemma_person(handle: Seq<char>)
    ensures
        person(handle) matches Some(i) ==> 0 <= i < seed::everyone().len() && i <= usize::MAX
            && !seed::everyone()[i].agent && seed::everyone()[i].handle == handle,
{
    lists::lemma_position(
        seed::everyone(),
        |a: SeedActorModel| !a.agent && a.handle == handle,
    );
}

/// The `@token` at the end of what has been typed, if that is where the caret
/// is: what follows the last `@`, while it could still be a handle.
pub open spec fn query_in(typed: Seq<char>) -> Option<Seq<char>> {
    let rest = text::after_last(typed, '@');
    if typed.contains('@') && forall|i: int|
        0 <= i < rest.len() ==> text::handle_char(#[trigger] rest[i]) {
        Some(rest)
    } else {
        None
    }
}

/// The `@token` under the caret, if there is one.
pub fn mention_query(typed: &str) -> (r: Option<&str>)
    ensures
        r.deep_view() == query_in(typed@),
        asks(typed@, r.deep_view()),
{
    proof {
        a_query_is_the_token_at_the_end(typed@);
    }
    let at = match text::rfind_char(typed, '@') {
        Some(at) => at,
        None => {
            return None;
        },
    };
    let chars = text::to_chars(typed);
    let ghost rest = text::after_last(typed@, '@');
    let mut i: usize = at + 1;
    while i < chars.len()
        invariant
            chars@ == typed@,
            at < chars.len(),
            at + 1 <= i <= chars.len(),
            rest == text::after_last(typed@, '@'),
            rest == typed@.skip(at + 1),
            asks(typed@, query_in(typed@)),
            forall|k: int| 0 <= k < i - at - 1 ==> text::handle_char(#[trigger] rest[k]),
        decreases chars.len() - i,
    {
        assert(rest[i - at - 1] == chars@[i as int]);
        if !text::is_handle_char(chars[i]) {
            return None;
        }
        i += 1;
    }
    assert(typed@.subrange(at + 1, typed@.len() as int) =~= rest);
    Some(typed.substring_char(at + 1, chars.len()))
}

/// How far the characters of a handle reach in `s` from `k` on.
pub open spec fn handle_run(s: Seq<char>, k: int) -> int
    decreases s.len() - k,
{
    if k >= s.len() || !text::handle_char(s[k]) {
        k
    } else {
        handle_run(s, k + 1)
    }
}

/// The run ends at the first character that cannot stand in a handle.
pub proof fn lemma_handle_run(s: Seq<char>, k: int)
    requires
        0 <= k <= s.len(),
    ensures
        k <= handle_run(s, k) <= s.len(),
        forall|j: int| k <= j < handle_run(s, k) ==> text::handle_char(#[trigger] s[j]),
        handle_run(s, k) < s.len() ==> !text::handle_char(s[handle_run(s, k)]),
    decreases s.len() - k,
{
    if k < s.len() && text::handle_char(s[k]) {
        lemma_handle_run(s, k + 1);
    }
}

/// How many characters of a handle a text starts with.
pub fn handle_prefix(s: &str) -> (r: usize)
    ensures
        r == handle_run(s@, 0),
        r <= s@.len(),
{
    let chars = text::to_chars(s);
    let mut i: usize = 0;
    while i < chars.len() && text::is_handle_char(chars[i])
        invariant
            chars@ == s@,
            i <= chars.len(),
            handle_run(s@, 0) == handle_run(s@, i as int),
        decreases chars.len() - i,
    {
        i += 1;
    }
    i
}

/// What has been typed, with the `@token` at its end replaced by `handle`.
pub open spec fn completed(typed: Seq<char>, handle: Seq<char>) -> Seq<char> {
    let kept = if typed.contains('@') {
        typed.take(typed.len() - text::after_last(typed, '@').len() - 1)
    } else {
        typed
    };
    (kept.push('@') + handle).push(' ')
}

/// What has been typed, with the `@token` at its end replaced by `handle`.
pub fn complete_with(typed: &str, handle: &str) -> (r: String)
    ensures
        r@ == completed(typed@, handle@),
{
    let mut out = match text::rfind_char(typed, '@') {
        Some(at) => {
            assert(typed@.skip(at + 1).len() == typed@.len() - at - 1);
            assert(typed@.subrange(0, at as int) =~= typed@.take(at as int));
            typed.substring_char(0, at).to_owned()
        },
        None => typed.to_owned(),
    };
    out.push('@');
    out.append(handle);
    out.push(' ');
    out
}

/// Completing a mention ends the query -- the picker closes -- since a space is
/// no part of a handle.
pub proof fn completing_closes_the_picker(typed: Seq<char>, handle: Seq<char>)
    ensures
        query_in(completed(typed, handle)) is None,
{
    let all = completed(typed, handle);
    let rest = text::after_last(all, '@');
    assert(all.last() == ' ');
    assert(rest == text::after_last(all.drop_last(), '@').push(' '));
    assert(rest[rest.len() - 1] == ' ');
    if query_in(all) is Some {
        assert(text::handle_char(rest[rest.len() - 1]));
    }
}

// ------------------------------------------------------------------- slugs --

/// The letters and digits of a word.
pub open spec fn bare_word(word: Seq<char>) -> Seq<char> {
    lists::kept(word, |c: char| text::alphanumeric(c))
}

/// The bare forms of the first `n` words, without those that come out empty.
pub open spec fn bare_words(words: Seq<Seq<char>>, n: int) -> Seq<Seq<char>>
    decreases n,
{
    if n <= 0 {
        Seq::empty()
    } else if bare_word(words[n - 1]).len() > 0 {
        bare_words(words, n - 1).push(bare_word(words[n - 1]))
    } else {
        bare_words(words, n - 1)
    }
}

/// A slug made of the first two words of a title in lower case.
pub open spec fn slug_from(lower: Seq<char>) -> Seq<char> {
    let words = text::words(lower);
    let n = if words.len() < 2 {
        words.len() as int
    } else {
        2
    };
    text::joined(bare_words(words, n), seq!['-'])
}

/// A thread's short name.
pub open spec fn slug_of(thread: SeedThreadModel) -> Seq<char> {
    if thread.slug.len() > 0 {
        thread.slug
    } else {
        slug_from(text::lowercase_of(thread.title))
    }
}

fn letters_and_digits(word: &str) -> (r: String)
    ensures
        r@ == bare_word(word@),
{
    let ghost p = |c: char| text::alphanumeric(c);
    let mut out = String::new();
    for c in it: word.chars()
        invariant
            it.seq() == word@,
            p == (|c: char| text::alphanumeric(c)),
            out@ == lists::kept(word@.take(it.index() as int), p),
    {
        assert(word@.take(it.index() + 1).drop_last() =~= word@.take(it.index() as int));
        if c.is_alphanumeric() {
            out.push(c);
        }
    }
    assert(word@.take(word@.len() as int) =~= word@);
    out
}

/// A slug made of the first two words of a title in lower case.
pub fn derive_slug(lower: &str) -> (r: String)
    ensures
        r@ == slug_from(lower@),
{
    let words = text::split_words(lower);
    let ghost all = words.deep_view();
    let n: usize = if words.len() < 2 {
        words.len()
    } else {
        2
    };
    let mut parts: Vec<String> = Vec::new();
    let mut i: usize = 0;
    assert(parts.deep_view() =~= bare_words(all, 0));
    while i < n
        invariant
            all == words.deep_view(),
            i <= n <= words.len(),
            parts.deep_view() == bare_words(all, i as int),
        decreases n - i,
    {
        let bare = letters_and_digits(words[i].as_str());
        assert(all[i as int] == words@[i as int]@);
        if !text::is_empty(bare.as_str()) {
            let ghost before = parts.deep_view();
            parts.push(bare);
            assert(parts.deep_view() =~= before.push(bare@));
        }
        i += 1;
    }
    let mut dash = String::new();
    dash.push('-');
    assert(dash@ =~= seq!['-']);
    text::join(&parts, dash.as_str())
}

/// A thread's short name. Hand-written where it matters, derived elsewhere so
/// every thread has one.
pub fn thread_slug(thread: &SeedThread) -> (r: String)
    ensures
        r@ == slug_of(thread.deep_view()),
{
    if !text::is_empty(thread.slug) {
        return thread.slug.to_owned();
    }
    derive_slug(thread.title.to_lowercase().as_str())
}

// ------------------------------------------------------------------- paths --

/// `s` without the `suffix` it ends with, however often.
pub open spec fn without_suffix(s: Seq<char>, suffix: Seq<char>) -> Seq<char>
    decreases s.len(),
{
    if 0 < suffix.len() <= s.len() && s.skip(s.len() - suffix.len()) == suffix {
        without_suffix(s.take(s.len() - suffix.len()), suffix)
    } else {
        s
    }
}

/// A path as a person would say it.
pub open spec fn spoken_path(path: Seq<char>) -> Seq<char> {
    if text::starts_with(path, "thread://"@) {
        "\""@ + without_suffix(path.skip("thread://"@.len() as int), "/transcript"@)
            + "\" transcript"@
    } else {
        text::after_last(path, '/')
    }
}

/// How much of a text is left without the suffix it ends with.
fn length_without_suffix(s: &str, suffix: &str) -> (r: usize)
    requires
        suffix@.len() > 0,
    ensures
        r <= s@.len(),
        without_suffix(s@, suffix@) == s@.take(r as int),
{
    let n = suffix.unicode_len();
    let mut end: usize = s.unicode_len();
    assert(s@.take(end as int) =~= s@);
    while end >= n
        invariant
            n == suffix@.len(),
            n > 0,
            end <= s@.len(),
            without_suffix(s@, suffix@) == without_suffix(s@.take(end as int), suffix@),
        decreases end,
    {
        let ghost now = s@.take(end as int);
        assert(now.skip(end - n) =~= s@.subrange(end - n, end as int));
        assert(now.take(end - n) =~= s@.take(end - n));
        if !text::same_text(s.substring_char(end - n, end), suffix) {
            return end;
        }
        end -= n;
    }
    end
}

/// A path as a person would say it.
pub fn short_path(path: &str) -> (r: String)
    ensures
        r@ == spoken_path(path@),
{
    if text::has_prefix(path, "thread://") {
        let n = "thread://".unicode_len();
        let rest = path.substring_char(n, path.unicode_len());
        proof {
            reveal_strlit("/transcript");
            assert(rest@ =~= path@.skip(n as int));
        }
        let end = length_without_suffix(rest, "/transcript");
        let mut out = "\"".to_owned();
        assert(rest@.subrange(0, end as int) =~= rest@.take(end as int));
        out.append(rest.substring_char(0, end));
        out.append("\" transcript");
        return out;
    }
    text::rest_after_last(path, '/')
}

// ----------------------------------------------------------------- replies --

/// What the agent answers, by what the comment asks for in lower case.
pub open spec fn reply_for(lower: Seq<char>, place: Seq<char>) -> Seq<char> {
    if text::occurs_in("remove"@, lower) || text::occurs_in("delete"@, lower) || text::occurs_in(
        "drop"@,
        lower,
    ) {
        "Done — dropped that from "@ + place
            + ". The doc comment restated what the signature already says, so removing it costs nothing. `cargo check` and the existing catalog tests still pass."@
    } else if text::occurs_in("why"@, lower) || (lower.len() > 0 && lower.last() == '?') {
        "Because the segments are title-cased before the acronym match runs, so `gpt` would never reach the `\"gpt\"` arm otherwise. That ordering is what "@
            + place + " is guarding. Want me to add a test that pins it?"@
    } else if text::occurs_in("test"@, lower) {
        "Added a case covering "@ + place
            + ". It asserts `humanize_model_id(\"sonnet-4-5\")` renders as \"Sonnet 4.5\", which is the behaviour that regressed last time."@
    } else if text::occurs_in("rename"@, lower) || text::occurs_in("name"@, lower) {
        "Renamed it across "@ + place
            + " and the two call sites. Nothing outside this module referenced the old name, so the change is contained."@
    } else {
        "Understood — applying that to "@ + place
            + ". I'll leave the surrounding structure alone so the diff stays reviewable."@
    }
}

fn around(before: &str, place: &str, after: &str) -> (r: String)
    ensures
        r@ == before@ + place@ + after@,
{
    let mut out = before.to_owned();
    out.append(place);
    out.append(after);
    out
}

fn ends_with_question_mark(s: &str) -> (r: bool)
    ensures
        r == (s@.len() > 0 && s@.last() == '?'),
{
    let chars = text::to_chars(s);
    chars.len() > 0 && chars[chars.len() - 1] == '?'
}

/// What the agent answers, by what the comment asks for in lower case.
pub fn answer(lower: &str, place: &str) -> (r: String)
    ensures
        r@ == reply_for(lower@, place@),
{
    if text::contains_text(lower, "remove") || text::contains_text(lower, "delete")
        || text::contains_text(lower, "drop") {
        around(
            "Done — dropped that from ",
            place,
            ". The doc comment restated what the signature already says, so removing it costs nothing. `cargo check` and the existing catalog tests still pass.",
        )
    } else if text::contains_text(lower, "why") || ends_with_question_mark(lower) {
        around(
            "Because the segments are title-cased before the acronym match runs, so `gpt` would never reach the `\"gpt\"` arm otherwise. That ordering is what ",
            place,
            " is guarding. Want me to add a test that pins it?",
        )
    } else if text::contains_text(lower, "test") {
        around(
            "Added a case covering ",
            place,
            ". It asserts `humanize_model_id(\"sonnet-4-5\")` renders as \"Sonnet 4.5\", which is the behaviour that regressed last time.",
        )
    } else if text::contains_text(lower, "rename") || text::contains_text(lower, "name") {
        around(
            "Renamed it across ",
            place,
            " and the two call sites. Nothing outside this module referenced the old name, so the change is contained.",
        )
    } else {
        around(
            "Understood — applying that to ",
            place,
            ". I'll leave the surrounding structure alone so the diff stays reviewable.",
        )
    }
}

/// Stand-in for a model response. Theatre by design -- the point is to exercise
/// the *routing* of a reply to its parent comment, not to be convincing prose.
pub fn synth_reply(comment: &str, place: &str) -> (r: String)
    ensures
        r@ == reply_for(text::lowercase_of(comment@), place@),
{
    answer(comment.to_lowercase().as_str(), place)
}

// ------------------------------------------------------------------- laws --

/// Whether a character is a letter, a digit, a dash or an underscore.
pub open spec fn in_a_handle(c: char) -> bool {
    text::alphanumeric(c) || c == '-' || c == '_'
}

/// Whatever stands before it, an `@` with letters, digits, dashes and underscores
/// behind it and nothing else asks for just those.
pub proof fn a_token_at_the_caret_is_the_query(before: Seq<char>, token: Seq<char>)
    requires
        forall|i: int| 0 <= i < token.len() ==> in_a_handle(#[trigger] token[i]),
    ensures
        query_in(before.push('@') + token) == Some(token),
{
    let typed = before.push('@') + token;
    assert(typed[before.len() as int] == '@');
    assert(!token.contains('@')) by {
        if token.contains('@') {
            let i = choose|i: int| 0 <= i < token.len() && token[i] == '@';
            assert(in_a_handle(token[i]));
        }
    }
    text::the_rest_follows_the_last_mark(before, '@', token);
}

/// Nothing is asked for where no `@` was typed, or where something behind the last
/// one cannot stand in a handle.
pub proof fn no_token_no_query(before: Seq<char>, rest: Seq<char>, i: int)
    requires
        !rest.contains('@'),
    ensures
        query_in(rest) is None,
        0 <= i < rest.len() && !in_a_handle(rest[i]) ==> query_in(before.push('@') + rest) is None,
{
    text::the_rest_follows_the_last_mark(before, '@', rest);
}

/// Completing keeps what was typed before the token, and puts the handle and a
/// space in the token's place.
pub proof fn completing_replaces_the_token(before: Seq<char>, token: Seq<char>, handle: Seq<char>)
    requires
        !token.contains('@'),
    ensures
        completed(before.push('@') + token, handle) == before + seq!['@'] + handle + seq![' '],
        completed(token, handle) == token + seq!['@'] + handle + seq![' '],
{
    text::the_rest_follows_the_last_mark(before, '@', token);
    let typed = before.push('@') + token;
    assert(typed[before.len() as int] == '@');
    assert(typed.take(before.len() as int) =~= before);
    assert((before.push('@') + handle).push(' ') =~= before + seq!['@'] + handle + seq![' ']);
    assert((token.push('@') + handle).push(' ') =~= token + seq!['@'] + handle + seq![' ']);
}

/// A token names what stands between its `@` and the punctuation behind it, and a
/// token without an `@` in front names nobody.
pub proof fn a_mention_sheds_its_punctuation(name: Seq<char>, tail: Seq<char>, token: Seq<char>)
    requires
        name.len() > 0 ==> in_a_handle(name.last()),
        forall|i: int| 0 <= i < tail.len() ==> !in_a_handle(#[trigger] tail[i]),
        token.len() == 0 || token[0] != '@',
    ensures
        handle_in(seq!['@'] + name + tail) == Some(name),
        handle_in(token) is None,
{
    let p = |c: char| !text::handle_char(c);
    let whole = seq!['@'] + name + tail;
    let rest = whole.drop_first();
    assert(rest =~= name + tail);
    assert forall|k: int| name.len() <= k < rest.len() implies p(#[trigger] rest[k]) by {
        assert(rest[k] == tail[k - name.len()]);
    }
    if name.len() > 0 {
        assert(rest[name.len() - 1] == name.last());
    }
    text::lemma_trim_end_at(rest, p, name.len() as int);
    assert(rest.take(name.len() as int) =~= name);
}

/// Whether a token names person `i`: the first person with the handle in it.
pub open spec fn names(token: Seq<char>, i: int) -> bool {
    &&& 0 <= i < seed::everyone().len()
    &&& !seed::everyone()[i].agent
    &&& handle_in(token) == Some(seed::everyone()[i].handle)
    &&& forall|j: int|
        0 <= j < i ==> (#[trigger] seed::everyone()[j]).agent || seed::everyone()[j].handle
            != seed::everyone()[i].handle
}

/// Whether person `i` is named first in token `k`.
pub open spec fn first_named(tokens: Seq<Seq<char>>, k: int, i: int) -> bool {
    &&& 0 <= k < tokens.len()
    &&& names(tokens[k], i)
    &&& forall|j: int| 0 <= j < k ==> !names(#[trigger] tokens[j], i)
}

proof fn lemma_names(token: Seq<char>, i: int)
    ensures
        names(token, i) <==> handle_in(token) is Some && person(handle_in(token)->0) == Some(i),
{
    if handle_in(token) is Some {
        let handle = handle_in(token)->0;
        let p = |a: SeedActorModel| !a.agent && a.handle == handle;
        lists::a_place_is_the_first(seed::everyone(), p, i);
        if names(token, i) {
            assert(person(handle) == Some(i));
        }
        if person(handle) == Some(i) {
            assert forall|j: int| 0 <= j < i implies (#[trigger] seed::everyone()[j]).agent
                || seed::everyone()[j].handle != seed::everyone()[i].handle by {
                assert(!p(seed::everyone()[j]));
            }
        }
    }
}

/// Everyone whom a token names by handle is mentioned, once, in the order in which
/// they are first named; nobody else is.
pub proof fn people_are_mentioned_as_first_named(tokens: Seq<Seq<char>>) -> (at: Seq<int>)
    ensures
        at.len() == mentioned(tokens).len(),
        forall|n: int|
            0 <= n < at.len() ==> first_named(tokens, #[trigger] at[n], mentioned(tokens)[n] as int),
        forall|n: int, l: int| 0 <= n < l < at.len() ==> #[trigger] at[n] < #[trigger] at[l],
        forall|k: int, i: int| #[trigger]
            first_named(tokens, k, i) ==> mentioned(tokens).contains(i as usize),
    decreases tokens.len(),
{
    if tokens.len() == 0 {
        Seq::empty()
    } else {
        let front = tokens.drop_last();
        let last = tokens.len() - 1;
        let at = people_are_mentioned_as_first_named(front);
        let before = mentioned(front);
        let all = mentioned(tokens);
        mentions_are_people_named_once(front);
        mentions_are_people_named_once(tokens);
        assert forall|k: int, i: int| k < last && first_named(front, k, i) implies first_named(
            tokens,
            k,
            i,
        ) by {
            assert(tokens[k] == front[k]);
            assert forall|j: int| 0 <= j < k implies !names(#[trigger] tokens[j], i) by {
                assert(tokens[j] == front[j]);
            }
        }
        let grown = if all.len() > before.len() {
            at.push(last)
        } else {
            at
        };
        if all.len() > before.len() {
            let i = all[before.len() as int];
            lemma_person(handle_in(tokens[last])->0);
            lemma_names(tokens[last], i as int);
            assert forall|j: int| 0 <= j < last implies !names(#[trigger] tokens[j], i as int) by {
                lemma_names(tokens[j], i as int);
                assert(tokens[j] == front[j]);
                if names(tokens[j], i as int) {
                    assert(handle_in(front[j]) is Some);
                    assert(before.contains(i));
                }
            }
            assert(first_named(tokens, last, i as int));
        }
        assert forall|n: int| 0 <= n < grown.len() implies first_named(
            tokens,
            #[trigger] grown[n],
            all[n] as int,
        ) by {
            if n < at.len() {
                assert(grown[n] == at[n]);
                assert(first_named(front, at[n], before[n] as int));
                assert(all[n] == before[n]);
            }
        }
        assert forall|n: int, l: int| 0 <= n < l < grown.len() implies #[trigger] grown[n]
            < #[trigger] grown[l] by {
            assert(grown[n] == at[n]);
            assert(first_named(front, at[n], before[n] as int));
            if l < at.len() {
                assert(grown[l] == at[l]);
            }
        }
        assert forall|k: int, i: int| #[trigger] first_named(tokens, k, i) implies all.contains(
            i as usize,
        ) by {
            lemma_names(tokens[k], i);
            lemma_person(handle_in(tokens[k])->0);
            assert(handle_in(tokens[k]) is Some);
        }
        grown
    }
}

/// A slug is the letters and digits of the first two words with a dash between
/// them; a word without any leaves neither itself nor a dash.
pub proof fn a_slug_is_two_bare_words(lower: Seq<char>)
    ensures
        ({
            let w = text::words(lower);
            let first = lists::kept(w[0], |c: char| text::alphanumeric(c));
            let second = lists::kept(w[1], |c: char| text::alphanumeric(c));
            slug_from(lower) == if w.len() == 0 {
                Seq::<char>::empty()
            } else if w.len() == 1 || second.len() == 0 {
                first
            } else if first.len() == 0 {
                second
            } else {
                first + seq!['-'] + second
            }
        }),
{
    let w = text::words(lower);
    let first = bare_word(w[0]);
    let second = bare_word(w[1]);
    let none = Seq::<Seq<char>>::empty();
    let dash = seq!['-'];
    assert(bare_words(w, 0) == none);
    if w.len() > 0 {
        let one = bare_words(w, 1);
        assert(one == if first.len() > 0 {
            none.push(first)
        } else {
            none
        });
        assert(first.len() == 0 ==> first =~= Seq::<char>::empty());
        assert(none.push(first) =~= seq![first]);
        text::joining_puts_the_separator_between(seq![first], seq![second], dash, first);
        text::joining_puts_the_separator_between(none, none, dash, second);
        assert(none.push(second) =~= seq![second]);
        assert(seq![first].push(second) =~= seq![first] + seq![second]);
        if w.len() > 1 {
            assert(bare_words(w, 2) == if second.len() > 0 {
                one.push(second)
            } else {
                one
            });
        }
    }
}

/// A thread that was given a short name goes by it; any other goes by its title.
pub proof fn a_given_slug_stands(thread: SeedThreadModel)
    ensures
        thread.slug.len() > 0 ==> slug_of(thread) == thread.slug,
        thread.slug.len() == 0 ==> slug_of(thread) == slug_from(text::lowercase_of(thread.title)),
{
}

/// The path of a thread's transcript is spoken of by the thread's name in quotes,
/// and that of a file by what follows its last slash.
pub proof fn paths_are_spoken_by_their_names(
    thread: Seq<char>,
    name: Seq<char>,
    directory: Seq<char>,
    file: Seq<char>,
)
    requires
        !file.contains('/'),
        forall|front: Seq<char>| name != #[trigger] (front + "/transcript"@),
        forall|rest: Seq<char>|
            directory.push('/') + file != #[trigger] ("thread://"@ + rest),
    ensures
        spoken_path("thread://"@ + thread) == seq!['"'] + without_suffix(thread, "/transcript"@)
            + "\" transcript"@,
        spoken_path("thread://"@ + name + "/transcript"@) == seq!['"'] + name + "\" transcript"@,
        spoken_path("thread://"@ + name) == seq!['"'] + name + "\" transcript"@,
        spoken_path(directory.push('/') + file) == file,
        spoken_path(file) == file,
{
    reveal_strlit("/transcript");
    reveal_strlit("thread://");
    reveal_strlit("\"");
    let head = "thread://"@;
    let tail = "/transcript"@;
    let path = head + name + tail;
    assert(path.take(head.len() as int) =~= head);
    assert(path.skip(head.len() as int) =~= name + tail);
    assert((head + thread).take(head.len() as int) =~= head);
    assert((head + thread).skip(head.len() as int) =~= thread);
    assert((head + name).take(head.len() as int) =~= head);
    assert((head + name).skip(head.len() as int) =~= name);
    assert((name + tail).skip(name.len() as int) =~= tail);
    assert((name + tail).take(name.len() as int) =~= name);
    assert(without_suffix(name, tail) == name) by {
        if tail.len() <= name.len() && name.skip(name.len() - tail.len()) == tail {
            assert(name =~= name.take(name.len() - tail.len()) + tail);
        }
    }
    assert("\""@ =~= seq!['"']);
    let plain = directory.push('/') + file;
    if text::starts_with(plain, head) {
        text::prefixes_and_parts(plain, head, plain, plain);
        assert(plain == head + plain.skip(head.len() as int));
    }
    text::the_rest_follows_the_last_mark(directory, '/', file);
    if text::starts_with(file, head) {
        assert(file.take(head.len() as int)[7] == '/');
        assert(file.contains(file[7]));
    }
}

/// Whatever a comment says around the word, it is the word that decides how the
/// agent answers: being told to take something away comes before being asked, that
/// before tests, and those before names. And the agent says what it is speaking of.
pub proof fn a_reply_goes_by_the_word(
    before: Seq<char>,
    after: Seq<char>,
    place: Seq<char>,
)
    ensures
        ({
            let done = "Done — dropped that from "@ + place
                + ". The doc comment restated what the signature already says, so removing it costs nothing. `cargo check` and the existing catalog tests still pass."@;
            let because = "Because the segments are title-cased before the acronym match runs, so `gpt` would never reach the `\"gpt\"` arm otherwise. That ordering is what "@
                + place + " is guarding. Want me to add a test that pins it?"@;
            let taken_away = |s: Seq<char>|
                text::occurs_in("remove"@, s) || text::occurs_in("delete"@, s)
                    || text::occurs_in("drop"@, s);
            let asked = |s: Seq<char>|
                text::occurs_in("why"@, s) || (s.len() > 0 && s[s.len() - 1] == '?');
            let why = before + "why"@ + after;
            let question = before.push('?');
            let test = before + "test"@ + after;
            let name = before + "name"@ + after;
            &&& reply_for(before + "remove"@ + after, place) == done
            &&& reply_for(before + "delete"@ + after, place) == done
            &&& reply_for(before + "drop"@ + after, place) == done
            &&& !taken_away(why) ==> reply_for(why, place) == because
            &&& !taken_away(question) ==> reply_for(question, place) == because
            &&& !taken_away(test) && !asked(test) ==> reply_for(test, place)
                == "Added a case covering "@ + place
                + ". It asserts `humanize_model_id(\"sonnet-4-5\")` renders as \"Sonnet 4.5\", which is the behaviour that regressed last time."@
            &&& !taken_away(name) && !asked(name) && !text::occurs_in("test"@, name) ==> reply_for(
                name,
                place,
            ) == "Renamed it across "@ + place
                + " and the two call sites. Nothing outside this module referenced the old name, so the change is contained."@
            &&& !taken_away(before) && !asked(before) && !text::occurs_in("test"@, before)
                && !text::occurs_in("name"@, before) ==> reply_for(before, place)
                == "Understood — applying that to "@ + place
                + ". I'll leave the surrounding structure alone so the diff stays reviewable."@
        }),
{
    text::prefixes_and_parts(before, "remove"@, before, after);
    text::prefixes_and_parts(before, "delete"@, before, after);
    text::prefixes_and_parts(before, "drop"@, before, after);
    text::prefixes_and_parts(before, "why"@, before, after);
    text::prefixes_and_parts(before, "test"@, before, after);
    text::prefixes_and_parts(before, "name"@, before, after);
    let question = before.push('?');
    assert(question.last() == '?');
    reveal_strlit("rename");
    reveal_strlit("name");
    assert("rename"@ =~= seq!['r', 'e'] + "name"@);
    assert forall|s: Seq<char>| text::occurs_in("rename"@, s) implies text::occurs_in(
        "name"@,
        s,
    ) by {
        let i = choose|i: int|
            0 <= i && i + "rename"@.len() <= s.len() && #[trigger] s.subrange(
                i,
                i + "rename"@.len(),
            ) == "rename"@;
        assert(s.subrange(i + 2, i + 6) =~= s.subrange(i, i + 6).skip(2));
        assert("rename"@.skip(2) =~= "name"@);
        assert(s.subrange(i + 2, i + 2 + "name"@.len()) == "name"@);
    }
}

/// Whether `query` is what `typed` asks for: what stands behind an `@` at its end and is
/// made of letters, digits, dashes and underscores only; nothing, where no such thing
/// stands there.
pub open spec fn asks(typed: Seq<char>, query: Option<Seq<char>>) -> bool {
    match query {
        Some(token) => {
            &&& exists|before: Seq<char>| typed == #[trigger] (before.push('@') + token)
            &&& forall|i: int| 0 <= i < token.len() ==> in_a_handle(#[trigger] token[i])
        },
        None => forall|before: Seq<char>, token: Seq<char>|
            typed == #[trigger] (before.push('@') + token) ==> exists|i: int|
                0 <= i < token.len() && !in_a_handle(#[trigger] token[i]),
    }
}

/// Whatever was typed, what it asks for is the token at its end.
pub proof fn a_query_is_the_token_at_the_end(typed: Seq<char>)
    ensures
        asks(typed, query_in(typed)),
{
    match query_in(typed) {
        Some(token) => {
            let at = typed.len() - token.len() - 1;
            lemma_last_mark(typed, '@');
            assert(typed =~= typed.take(at).push('@') + token);
        },
        None => {
            assert forall|before: Seq<char>, token: Seq<char>|
                typed == #[trigger] (before.push('@') + token) implies exists|i: int|
                0 <= i < token.len() && !in_a_handle(#[trigger] token[i]) by {
                if forall|i: int| 0 <= i < token.len() ==> in_a_handle(#[trigger] token[i]) {
                    a_token_at_the_caret_is_the_query(before, token);
                }
            }
        },
    }
}

proof fn lemma_last_mark(s: Seq<char>, c: char)
    ensures
        text::after_last(s, c).len() <= s.len(),
        s.skip(s.len() - text::after_last(s, c).len()) == text::after_last(s, c),
        s.contains(c) ==> text::after_last(s, c).len() < s.len() && s[s.len() - text::after_last(
            s,
            c,
        ).len() - 1] == c,
    decreases s.len(),
{
    if s.len() > 0 {
        lemma_last_mark(s.drop_last(), c);
        let rest = text::after_last(s, c);
        if s.last() == c {
            assert(rest =~= Seq::<char>::empty());
        } else {
            let front = s.drop_last();
            let before = text::after_last(front, c);
            assert(rest =~= before.push(s.last()));
            if s.contains(c) {
                let i = choose|i: int| 0 <= i < s.len() && s[i] == c;
                assert(front[i] == c);
                assert(front.contains(c));
            }
            assert(s.skip(s.len() - rest.len()) =~= front.skip(front.len() - before.len()).push(
                s.last(),
            ));
        }
    }
    assert(s.skip(s.len() - text::after_last(s, c).len()) =~= text::after_last(s, c));
}

/// A suffix is taken off as often as the text ends with it.
pub proof fn a_suffix_is_taken_off_every_time(s: Seq<char>, suffix: Seq<char>)
    requires
        suffix.len() > 0,
    ensures
        without_suffix(s + suffix, suffix) == without_suffix(s, suffix),
        (forall|front: Seq<char>| s != #[trigger] (front + suffix)) ==> without_suffix(s, suffix)
            == s,
{
    let all = s + suffix;
    assert(all.skip(s.len() as int) =~= suffix);
    assert(all.take(s.len() as int) =~= s);
    if suffix.len() <= s.len() && s.skip(s.len() - suffix.len()) == suffix {
        assert(s =~= s.take(s.len() - suffix.len()) + suffix);
    }
}

} // verus!
