//! What a command takes, as it is told on request.

use vstd::prelude::*;

use crate::cli::grammar::{
    arg_views, list_options, options_at, path_reached, reached, words_in,
};
use crate::cli::lines::push_line;
use crate::cli::verbs::{
    places_for, places_of, words_after, words_of, Group, Opt, Path, Place, Taking, Word,
};
use crate::text::{chars_of, concat, push_text, text_of, text_views};

verus! {

/// The relay's own commands are told only to who asks for them.
pub open spec fn is_told(word: Word) -> bool {
    word.leads != Path::Group(Group::Host)
}

/// What is told of the words that may come next.
pub open spec fn words_told(words: Seq<Word>) -> Seq<Seq<char>>
    decreases words.len(),
{
    if words.len() == 0 {
        Seq::empty()
    } else {
        let before = words_told(words.drop_last());
        if is_told(words.last()) {
            before.push("  "@ + words.last().word@)
        } else {
            before
        }
    }
}

/// What is told of an argument that is known by its place.
pub open spec fn place_told(place: Place) -> Seq<char> {
    "  <"@ + place.name@ + ">"@
}

/// What is told of an option, with the values that it takes.
pub open spec fn option_told(option: Opt) -> Seq<char> {
    "  --"@ + option.name@ + match option.taking {
        Taking::Nothing => ""@,
        Taking::One => " <value>"@,
        Taking::Each => " <value> (may be repeated)"@,
        Taking::Several => " <value> <value>..."@,
    }
}

/// The arguments that a command knows by their places.
pub open spec fn places_at(path: Path) -> Seq<Place> {
    match path {
        Path::Verb(verb) => places_of(verb),
        _ => Seq::empty(),
    }
}

/// Lines under a title, where there are any.
pub open spec fn titled(title: Seq<char>, lines: Seq<Seq<char>>) -> Seq<Seq<char>> {
    if lines.len() == 0 {
        lines
    } else {
        seq![title] + lines
    }
}

/// What is told of a command: the words that may follow, its arguments and its
/// options.
pub open spec fn help_told(path: Path) -> Seq<Seq<char>> {
    titled("Commands:"@, words_told(words_of(path))) + titled(
        "Arguments:"@,
        places_at(path).map_values(|place: Place| place_told(place)),
    ) + titled("Options:"@, options_at(path).map_values(|option: Opt| option_told(option)))
}

fn list_words(path: Path) -> (r: Vec<String>)
    ensures
        text_views(r@) == words_told(words_of(path)),
{
    let words = words_after(path);
    let mut lines: Vec<String> = Vec::new();
    let mut i: usize = 0;
    assert(text_views(lines@) =~= words_told(words@.take(0)));
    while i < words.len()
        invariant
            i <= words.len(),
            text_views(lines@) == words_told(words@.take(i as int)),
        decreases words.len() - i,
    {
        assert(words@.take(i + 1).drop_last() =~= words@.take(i as int));
        match words[i].leads {
            Path::Group(Group::Host) => {},
            _ => { push_line(&mut lines, concat("  ", words[i].word)); },
        }
        i += 1;
    }
    assert(words@.take(i as int) =~= words@);
    lines
}

fn place_line(place: Place) -> (r: String)
    ensures
        r@ == place_told(place),
{
    let mut out = chars_of("  <");
    push_text(&mut out, place.name);
    push_text(&mut out, ">");
    text_of(out.as_slice())
}

fn option_line(option: Opt) -> (r: String)
    ensures
        r@ == option_told(option),
{
    let mut out = chars_of("  --");
    push_text(&mut out, option.name);
    match option.taking {
        Taking::Nothing => push_text(&mut out, ""),
        Taking::One => push_text(&mut out, " <value>"),
        Taking::Each => push_text(&mut out, " <value> (may be repeated)"),
        Taking::Several => push_text(&mut out, " <value> <value>..."),
    }
    text_of(out.as_slice())
}

fn list_places(path: Path) -> (r: Vec<String>)
    ensures
        text_views(r@) == places_at(path).map_values(|place: Place| place_told(place)),
{
    let places: Vec<Place> = match path {
        Path::Verb(verb) => places_for(verb),
        _ => Vec::new(),
    };
    assert(places@ =~= places_at(path));
    let ghost told = places@.map_values(|place: Place| place_told(place));
    let mut lines: Vec<String> = Vec::new();
    let mut i: usize = 0;
    assert(text_views(lines@) =~= told.take(0));
    while i < places.len()
        invariant
            i <= places.len(),
            told == places@.map_values(|place: Place| place_told(place)),
            text_views(lines@) == told.take(i as int),
        decreases places.len() - i,
    {
        push_line(&mut lines, place_line(places[i]));
        assert(told.take(i as int).push(told[i as int]) =~= told.take(i + 1));
        i += 1;
    }
    assert(told.take(i as int) =~= told);
    lines
}

fn list_option_lines(path: Path) -> (r: Vec<String>)
    ensures
        text_views(r@) == options_at(path).map_values(|option: Opt| option_told(option)),
{
    let options = list_options(path);
    let ghost told = options@.map_values(|option: Opt| option_told(option));
    let mut lines: Vec<String> = Vec::new();
    let mut i: usize = 0;
    assert(text_views(lines@) =~= told.take(0));
    while i < options.len()
        invariant
            i <= options.len(),
            told == options@.map_values(|option: Opt| option_told(option)),
            text_views(lines@) == told.take(i as int),
        decreases options.len() - i,
    {
        push_line(&mut lines, option_line(options[i]));
        assert(told.take(i as int).push(told[i as int]) =~= told.take(i + 1));
        i += 1;
    }
    assert(told.take(i as int) =~= told);
    lines
}

fn push_titled(out: &mut Vec<String>, title: &str, lines: &Vec<String>)
    ensures
        text_views(final(out)@) == text_views(old(out)@) + titled(title@, text_views(lines@)),
{
    let ghost before = text_views(out@);
    let ghost more = text_views(lines@);
    if lines.len() == 0 {
        assert(before =~= before + titled(title@, more));
        return;
    }
    push_line(out, title.to_owned());
    let ghost head = text_views(out@);
    let mut i: usize = 0;
    assert(head =~= head + more.take(0));
    while i < lines.len()
        invariant
            i <= lines.len(),
            more == text_views(lines@),
            text_views(out@) == head + more.take(i as int),
        decreases lines.len() - i,
    {
        assert(more[i as int] == lines@[i as int]@);
        push_line(out, lines[i].as_str().to_owned());
        assert((head + more.take(i as int)).push(more[i as int]) =~= head + more.take(i + 1));
        i += 1;
    }
    assert(more.take(i as int) =~= more);
    assert(head + more =~= before + titled(title@, more));
}

/// What is told to who asks for help: what the command takes that the command
/// line had come to.
pub fn help_lines(args: &[&str]) -> (r: Vec<String>)
    ensures
        text_views(r@) == help_told(reached(words_in(arg_views(args@)))),
{
    let path = path_reached(args);
    let mut out: Vec<String> = Vec::new();
    let ghost none = text_views(out@);
    push_titled(&mut out, "Commands:", &list_words(path));
    push_titled(&mut out, "Arguments:", &list_places(path));
    push_titled(&mut out, "Options:", &list_option_lines(path));
    assert(none =~= Seq::<Seq<char>>::empty());
    assert(text_views(out@) =~= help_told(path));
    out
}

} // verus!
