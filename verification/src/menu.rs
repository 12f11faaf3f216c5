//! The choices of a menu, each with the key that picks it.

use vstd::prelude::*;
use vstd::string::StringExecFns;

verus! {

/// [`String::push`] puts the character at the end of the text.
pub assume_specification[ String::push ](text: &mut String, c: char)
    ensures
        final(text)@ == old(text)@.push(c),
;

/// The choice of the first of `options` from position `from` on that has
/// the key `key`.
pub open spec fn option_from<T>(options: Seq<(char, T)>, key: char, from: int) -> Option<T>
    decreases options.len() - from,
{
    if from < 0 || from >= options.len() {
        None
    } else if options[from].0 == key {
        Some(options[from].1)
    } else {
        option_from(options, key, from + 1)
    }
}

/// The choice of the first of `options` that has the key `key`.
pub open spec fn option_for<T>(options: Seq<(char, T)>, key: char) -> Option<T> {
    option_from(options, key, 0)
}

/// What the answer `answer` picks from `options`: the choice of that key,
/// or, where the answer is a blank and there is a default, the choice of
/// the default.
pub open spec fn choice_for<T>(options: Seq<(char, T)>, answer: char, default: Option<char>)
    -> Option<T> {
    if option_for(options, answer) is Some {
        option_for(options, answer)
    } else if answer == ' ' && default is Some {
        option_for(options, default->0)
    } else {
        None
    }
}

/// The choice of the first of `options` that has the key `key`.
pub fn find_option<T: Copy>(options: &Vec<(char, T)>, key: char) -> (r: Option<T>)
    ensures
        r == option_for(options@, key),
{
    let mut i: usize = options.len();
    let mut found: Option<T> = None;
    while i > 0
        invariant
            i <= options.len(),
            found == option_from(options@, key, i as int),
        decreases i,
    {
        i -= 1;
        if options[i].0 == key {
            found = Some(options[i].1);
        }
    }
    found
}

/// What the answer `answer` picks from `options`; `None` where it picks
/// nothing and the player is asked again.
pub fn menu_choice<T: Copy>(options: &Vec<(char, T)>, answer: char, default: Option<char>) -> (r:
    Option<T>)
    ensures
        r == choice_for(options@, answer, default),
{
    match find_option(options, answer) {
        Some(choice) => Some(choice),
        None => match default {
            Some(key) => if answer == ' ' {
                find_option(options, key)
            } else {
                None
            },
            None => None,
        },
    }
}

/// The first `n` keys of `options` as the start of a list: an opening
/// bracket, the keys with a comma and a blank between them, and the closing
/// bracket after the last key.
pub open spec fn keys_text<T>(options: Seq<(char, T)>, n: nat) -> Seq<char>
    decreases n,
{
    if n == 0 {
        "["@
    } else {
        keys_text(options, (n - 1) as nat).push(options[n - 1].0) + if n == options.len() {
            "]"@
        } else {
            ", "@
        }
    }
}

/// The keys of `options` as a list, as in "[a, b, c]".
pub fn format_chars<T: Copy>(options: &Vec<(char, T)>) -> (text: String)
    ensures
        text@ == keys_text(options@, options.len() as nat),
{
    let mut text = String::from_str("[");
    let mut i: usize = 0;
    while i < options.len()
        invariant
            i <= options.len(),
            text@ == keys_text(options@, i as nat),
        decreases options.len() - i,
    {
        text.push(options[i].0);
        if i == options.len() - 1 {
            text.append("]");
        } else {
            text.append(", ");
        }
        i += 1;
    }
    text
}

} // verus!
