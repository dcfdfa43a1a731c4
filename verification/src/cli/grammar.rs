//! Reading a command line, word by word.

use vstd::prelude::*;

use crate::cli::verbs::{
    options_for, options_of, places_for, places_of, rules_for, rules_of, words_after, words_of,
    Kind, Opt, Path, Place, Rule, Taking, Verb, Word,
};
use crate::numbers::{integer_of, natural_of, parse_integer, parse_natural};
use crate::text::{
    begins_with, chars_are, chars_of, has_prefix, part, text_equal, text_of, text_views,
};

verus! {

/// The file that holds the tables, where the command line names none.
pub const DEFAULT_DB: &'static str = "keyquorum.sqlite";

/// Why a command line is refused. Asking for help, or for the version, is no
/// command either.
#[derive(Clone, Copy, PartialEq, Eq, Debug, Structural)]
pub enum UsageFault {
    Help,
    Version,
    MissingCommand,
    UnknownCommand,
    UnknownOption,
    UnexpectedArgument,
    MissingValue,
    UnneededValue,
    Repeated,
    InvalidValue,
    Conflict,
    MissingArgument,
}

impl UsageFault {
    pub open spec fn text(self) -> Seq<char> {
        match self {
            UsageFault::Help => "help was asked for"@,
            UsageFault::Version => "the version was asked for"@,
            UsageFault::MissingCommand => "a command is missing"@,
            UsageFault::UnknownCommand => "there is no such command"@,
            UsageFault::UnknownOption => "there is no such option"@,
            UsageFault::UnexpectedArgument => "there is one argument too many"@,
            UsageFault::MissingValue => "an option is missing a value"@,
            UsageFault::UnneededValue => "a flag takes no value"@,
            UsageFault::Repeated => "an option is given more than once"@,
            UsageFault::InvalidValue => "a value is not what the argument takes"@,
            UsageFault::Conflict => "two arguments cannot be given together"@,
            UsageFault::MissingArgument => "a required argument is missing"@,
        }
    }

    /// The message shown to a user.
    pub fn message(&self) -> (r: &'static str)
        ensures
            r@ == self.text(),
    {
        match self {
            UsageFault::Help => "help was asked for",
            UsageFault::Version => "the version was asked for",
            UsageFault::MissingCommand => "a command is missing",
            UsageFault::UnknownCommand => "there is no such command",
            UsageFault::UnknownOption => "there is no such option",
            UsageFault::UnexpectedArgument => "there is one argument too many",
            UsageFault::MissingValue => "an option is missing a value",
            UsageFault::UnneededValue => "a flag takes no value",
            UsageFault::Repeated => "an option is given more than once",
            UsageFault::InvalidValue => "a value is not what the argument takes",
            UsageFault::Conflict => "two arguments cannot be given together",
            UsageFault::MissingArgument => "a required argument is missing",
        }
    }
}

/// An option that is given, with its values, and behind how many words.
#[derive(Debug)]
pub struct Given {
    pub option: Opt,
    pub depth: usize,
    pub values: Vec<String>,
}

#[verifier::ext_equal]
pub struct GivenView {
    pub option: Opt,
    pub depth: int,
    pub values: Seq<Seq<char>>,
}

impl View for Given {
    type V = GivenView;

    open spec fn view(&self) -> GivenView {
        GivenView { option: self.option, depth: self.depth as int, values: text_views(self.values@) }
    }
}

pub open spec fn given_views(given: Seq<Given>) -> Seq<GivenView> {
    Seq::new(given.len(), |i: int| given[i]@)
}

/// How far a command line has been read.
#[derive(Debug)]
pub struct Reading {
    pub path: Path,
    pub depth: usize,
    pub places: Vec<String>,
    pub given: Vec<Given>,
    /// The next word may be a value of the option given last.
    pub open: bool,
    /// Options have ended.
    pub trailing: bool,
}

#[verifier::ext_equal]
pub struct ReadingView {
    pub path: Path,
    pub depth: int,
    pub places: Seq<Seq<char>>,
    pub given: Seq<GivenView>,
    pub open: bool,
    pub trailing: bool,
}

impl View for Reading {
    type V = ReadingView;

    open spec fn view(&self) -> ReadingView {
        ReadingView {
            path: self.path,
            depth: self.depth as int,
            places: text_views(self.places@),
            given: given_views(self.given@),
            open: self.open,
            trailing: self.trailing,
        }
    }
}

/// Nothing has been read.
pub open spec fn unread() -> ReadingView {
    ReadingView {
        path: Path::Top,
        depth: 0,
        places: Seq::empty(),
        given: Seq::empty(),
        open: false,
        trailing: false,
    }
}

/// The option that every command takes.
pub open spec fn db_option() -> Opt {
    Opt { name: "db", taking: Taking::One, kind: Kind::Path }
}

/// The options that may be given at a place.
pub open spec fn options_at(path: Path) -> Seq<Opt> {
    match path {
        Path::Verb(verb) => options_of(verb).push(db_option()),
        _ => seq![db_option()],
    }
}

/// The options that may be given at a place.
pub fn list_options(path: Path) -> (r: Vec<Opt>)
    ensures
        r@ == options_at(path),
{
    match path {
        Path::Verb(verb) => {
            let mut out = options_for(verb);
            out.push(Opt { name: "db", taking: Taking::One, kind: Kind::Path });
            out
        },
        _ => {
            let mut out: Vec<Opt> = Vec::new();
            out.push(Opt { name: "db", taking: Taking::One, kind: Kind::Path });
            assert(out@ =~= options_at(path));
            out
        },
    }
}

/// The first option with a name.
pub open spec fn option_named(options: Seq<Opt>, name: Seq<char>) -> Option<Opt>
    decreases options.len(),
{
    if options.len() == 0 {
        None
    } else {
        match option_named(options.drop_last(), name) {
            Some(option) => Some(option),
            None => if options.last().name@ == name {
                Some(options.last())
            } else {
                None
            },
        }
    }
}

proof fn lemma_option_stays(options: Seq<Opt>, name: Seq<char>, n: int)
    requires
        0 <= n <= options.len(),
        option_named(options.take(n), name) is Some,
    ensures
        option_named(options, name) == option_named(options.take(n), name),
    decreases options.len() - n,
{
    if n == options.len() {
        assert(options.take(n) =~= options);
    } else {
        assert(options.take(n + 1).drop_last() =~= options.take(n));
        lemma_option_stays(options, name, n + 1);
    }
}

fn find_option(options: &Vec<Opt>, name: &str) -> (r: Option<Opt>)
    ensures
        r == option_named(options@, name@),
{
    let mut i: usize = 0;
    assert(options@.take(0) =~= Seq::<Opt>::empty());
    while i < options.len()
        invariant
            i <= options.len(),
            option_named(options@.take(i as int), name@) is None,
        decreases options.len() - i,
    {
        proof {
            assert(options@.take(i + 1).drop_last() =~= options@.take(i as int));
            assert(options@.take(i + 1).last() == options@[i as int]);
        }
        if text_equal(options[i].name, name) {
            proof {
                lemma_option_stays(options@, name@, i + 1);
            }
            return Some(options[i]);
        }
        i += 1;
    }
    assert(options@.take(i as int) =~= options@);
    None
}

/// Where the first of the words leads that is the given one.
pub open spec fn word_leads(words: Seq<Word>, word: Seq<char>) -> Option<Path>
    decreases words.len(),
{
    if words.len() == 0 {
        None
    } else {
        match word_leads(words.drop_last(), word) {
            Some(path) => Some(path),
            None => if words.last().word@ == word {
                Some(words.last().leads)
            } else {
                None
            },
        }
    }
}

proof fn lemma_word_stays(words: Seq<Word>, word: Seq<char>, n: int)
    requires
        0 <= n <= words.len(),
        word_leads(words.take(n), word) is Some,
    ensures
        word_leads(words, word) == word_leads(words.take(n), word),
    decreases words.len() - n,
{
    if n == words.len() {
        assert(words.take(n) =~= words);
    } else {
        assert(words.take(n + 1).drop_last() =~= words.take(n));
        lemma_word_stays(words, word, n + 1);
    }
}

fn follow_word(words: &Vec<Word>, word: &str) -> (r: Option<Path>)
    ensures
        r == word_leads(words@, word@),
{
    let mut i: usize = 0;
    assert(words@.take(0) =~= Seq::<Word>::empty());
    while i < words.len()
        invariant
            i <= words.len(),
            word_leads(words@.take(i as int), word@) is None,
        decreases words.len() - i,
    {
        proof {
            assert(words@.take(i + 1).drop_last() =~= words@.take(i as int));
            assert(words@.take(i + 1).last() == words@[i as int]);
        }
        if text_equal(words[i].word, word) {
            proof {
                lemma_word_stays(words@, word@, i + 1);
            }
            return Some(words[i].leads);
        }
        i += 1;
    }
    assert(words@.take(i as int) =~= words@);
    None
}

/// How many values an option has to have.
pub open spec fn least(taking: Taking) -> int {
    match taking {
        Taking::Nothing => 0,
        Taking::One => 1,
        Taking::Each => 1,
        Taking::Several => 2,
    }
}

/// The option given last still lacks a value.
pub open spec fn lacks_value(given: Seq<GivenView>) -> bool {
    given.len() > 0 && given.last().values.len() < least(given.last().option.taking)
}

fn check_lacking(given: &Vec<Given>) -> (r: bool)
    ensures
        r == lacks_value(given_views(given@)),
{
    if given.len() == 0 {
        return false;
    }
    let i: usize = given.len() - 1;
    assert(given_views(given@).last() == given@[i as int]@);
    let count: usize = given[i].values.len();
    match given[i].option.taking {
        Taking::Nothing => false,
        Taking::One => count < 1,
        Taking::Each => count < 1,
        Taking::Several => count < 2,
    }
}

/// An option is given at a depth.
pub open spec fn given_at(given: Seq<GivenView>, name: Seq<char>, depth: int) -> bool {
    exists|i: int|
        0 <= i < given.len() && (#[trigger] given[i]).option.name@ == name && given[i].depth
            == depth
}

fn check_given_at(given: &Vec<Given>, name: &str, depth: usize) -> (r: bool)
    ensures
        r == given_at(given_views(given@), name@, depth as int),
{
    let ghost views = given_views(given@);
    let mut i: usize = 0;
    while i < given.len()
        invariant
            i <= given.len(),
            views == given_views(given@),
            forall|k: int|
                0 <= k < i ==> !((#[trigger] views[k]).option.name@ == name@ && views[k].depth
                    == depth),
        decreases given.len() - i,
    {
        assert(views[i as int] == given@[i as int]@);
        if given[i].depth == depth && text_equal(given[i].option.name, name) {
            return true;
        }
        i += 1;
    }
    false
}

/// Some argument of the words read so far is given: from there on no word leads
/// further.
pub open spec fn begun(s: ReadingView) -> bool {
    s.places.len() > 0 || exists|i: int|
        0 <= i < s.given.len() && (#[trigger] s.given[i]).depth == s.depth
            && s.given[i].option.name@ != "db"@
}

fn check_begun(s: &Reading) -> (r: bool)
    ensures
        r == begun(s@),
{
    if s.places.len() > 0 {
        return true;
    }
    let ghost views = s@.given;
    let mut i: usize = 0;
    while i < s.given.len()
        invariant
            i <= s.given.len(),
            views == s@.given,
            s@.places.len() == 0,
            forall|k: int|
                0 <= k < i ==> !((#[trigger] views[k]).depth == s@.depth
                    && views[k].option.name@ != "db"@),
        decreases s.given.len() - i,
    {
        assert(views[i as int] == s.given@[i as int]@);
        if s.given[i].depth == s.depth && !text_equal(s.given[i].option.name, "db") {
            return true;
        }
        i += 1;
    }
    false
}

/// Where the first equals sign stands.
pub open spec fn equals_place(s: Seq<char>) -> Option<int>
    decreases s.len(),
{
    if s.len() == 0 {
        None
    } else {
        match equals_place(s.drop_last()) {
            Some(i) => Some(i),
            None => if s.last() == '=' {
                Some(s.len() - 1)
            } else {
                None
            },
        }
    }
}

proof fn lemma_equals_stays(s: Seq<char>, n: int)
    requires
        0 <= n <= s.len(),
        equals_place(s.take(n)) is Some,
    ensures
        equals_place(s) == equals_place(s.take(n)),
    decreases s.len() - n,
{
    if n == s.len() {
        assert(s.take(n) =~= s);
    } else {
        assert(s.take(n + 1).drop_last() =~= s.take(n));
        lemma_equals_stays(s, n + 1);
    }
}

/// Finds the first equals sign.
pub fn find_equals(chars: &Vec<char>) -> (r: Option<usize>)
    ensures
        equals_place(chars@) == (match r {
            Some(i) => Some(i as int),
            None => None,
        }),
        r matches Some(i) ==> i < chars@.len(),
{
    let mut i: usize = 0;
    assert(chars@.take(0) =~= Seq::<char>::empty());
    while i < chars.len()
        invariant
            i <= chars.len(),
            equals_place(chars@.take(i as int)) is None,
        decreases chars.len() - i,
    {
        proof {
            assert(chars@.take(i + 1).drop_last() =~= chars@.take(i as int));
            assert(chars@.take(i + 1).last() == chars@[i as int]);
        }
        if chars[i] == '=' {
            proof {
                lemma_equals_stays(chars@, i + 1);
            }
            return Some(i);
        }
        i += 1;
    }
    assert(chars@.take(i as int) =~= chars@);
    None
}

/// The name and the value of a word that gives an option.
pub open spec fn name_and_value(body: Seq<char>) -> (Seq<char>, Option<Seq<char>>) {
    match equals_place(body) {
        None => (body, None),
        Some(at) => (body.take(at), Some(body.skip(at + 1))),
    }
}

/// What reading an option with a name comes to.
pub open spec fn with_option(
    s: ReadingView,
    option: Opt,
    value: Option<Seq<char>>,
) -> Result<ReadingView, UsageFault> {
    let once = option.taking == Taking::Nothing || option.taking == Taking::One;
    if option.taking == Taking::Nothing && value is Some {
        Err(UsageFault::UnneededValue)
    } else if once && given_at(s.given, option.name@, s.depth) {
        Err(UsageFault::Repeated)
    } else {
        let values = match value {
            Some(value) => seq![value],
            None => Seq::empty(),
        };
        Ok(
            ReadingView {
                given: s.given.push(GivenView { option, depth: s.depth, values }),
                open: option.taking != Taking::Nothing && value is None,
                ..s
            },
        )
    }
}

/// What reading a word comes to that gives an option by its name.
pub open spec fn after_option(s: ReadingView, body: Seq<char>) -> Result<
    ReadingView,
    UsageFault,
> {
    let (name, value) = name_and_value(body);
    if lacks_value(s.given) {
        Err(UsageFault::MissingValue)
    } else if name == "help"@ {
        Err(UsageFault::Help)
    } else if name == "version"@ && s.path == Path::Top {
        Err(UsageFault::Version)
    } else {
        match option_named(options_at(s.path), name) {
            None => Err(UsageFault::UnknownOption),
            Some(option) => with_option(s, option, value),
        }
    }
}

/// What reading a word comes to that is known by its place.
pub open spec fn after_place(s: ReadingView, word: Seq<char>) -> Result<ReadingView, UsageFault> {
    match s.path {
        Path::Verb(verb) => if s.places.len() < places_of(verb).len() {
            Ok(ReadingView { places: s.places.push(word), ..s })
        } else {
            Err(UsageFault::UnexpectedArgument)
        },
        _ => Err(UsageFault::UnknownCommand),
    }
}

/// What reading a plain word comes to: a value, a word of the command, or an
/// argument that is known by its place.
pub open spec fn after_word(s: ReadingView, word: Seq<char>) -> Result<ReadingView, UsageFault> {
    if s.open && s.given.len() > 0 {
        let last = s.given.last();
        Ok(
            ReadingView {
                given: s.given.drop_last().push(
                    GivenView { values: last.values.push(word), ..last },
                ),
                open: last.option.taking == Taking::Several,
                ..s
            },
        )
    } else {
        match word_leads(words_of(s.path), word) {
            Some(path) => if begun(s) {
                after_place(s, word)
            } else {
                Ok(ReadingView { path, depth: s.depth + 1, ..s })
            },
            None => after_place(s, word),
        }
    }
}

/// What reading one more word comes to.
pub open spec fn after(s: ReadingView, word: Seq<char>) -> Result<ReadingView, UsageFault> {
    if s.trailing {
        after_place(s, word)
    } else if word == "--"@ {
        if lacks_value(s.given) {
            Err(UsageFault::MissingValue)
        } else {
            Ok(ReadingView { open: false, trailing: true, ..s })
        }
    } else if begins_with(word, "--"@) {
        after_option(s, word.skip(2))
    } else if word.len() > 1 && word[0] == '-' {
        if lacks_value(s.given) {
            Err(UsageFault::MissingValue)
        } else if word[1] == 'h' {
            Err(UsageFault::Help)
        } else if word[1] == 'V' && s.path == Path::Top {
            Err(UsageFault::Version)
        } else {
            Err(UsageFault::UnknownOption)
        }
    } else {
        after_word(s, word)
    }
}

/// What reading words one after the other comes to.
pub open spec fn read(words: Seq<Seq<char>>) -> Result<ReadingView, UsageFault>
    decreases words.len(),
{
    if words.len() == 0 {
        Ok(unread())
    } else {
        match read(words.drop_last()) {
            Ok(s) => after(s, words.last()),
            Err(fault) => Err(fault),
        }
    }
}

/// A value is what its argument takes.
pub open spec fn value_fits(kind: Kind, value: Seq<char>) -> bool {
    match kind {
        Kind::Text => true,
        Kind::Path => value.len() > 0,
        Kind::Integer => integer_of(value) matches Some(n) && i64::MIN <= n <= i64::MAX,
        Kind::Positive => integer_of(value) matches Some(n) && 0 < n <= i64::MAX,
        Kind::Interval => natural_of(value) matches Some(n) && 0 < n <= u64::MAX,
        Kind::Byte => integer_of(value) matches Some(n) && 0 <= n <= 255,
        Kind::State => integer_of(value) matches Some(n) && 0 <= n <= 1,
        Kind::KeyKind => value == "encryption"@ || value == "signing"@,
        Kind::Resource => value == "credential"@ || value == "locked-file"@ || value
            == "quorum-file"@ || value == "credential-share"@ || value == "file-share"@,
    }
}

fn check_value(kind: Kind, value: &str) -> (r: bool)
    ensures
        r == value_fits(kind, value@),
{
    match kind {
        Kind::Text => true,
        Kind::Path => !value.is_empty(),
        Kind::Integer => parse_integer(value).is_some(),
        Kind::Positive => match parse_integer(value) {
            Some(n) => n > 0,
            None => false,
        },
        Kind::Interval => match parse_natural(value, 0xffff_ffff_ffff_ffff) {
            Some(n) => n > 0,
            None => false,
        },
        Kind::Byte => match parse_integer(value) {
            Some(n) => 0 <= n && n <= 255,
            None => false,
        },
        Kind::State => match parse_integer(value) {
            Some(n) => 0 <= n && n <= 1,
            None => false,
        },
        Kind::KeyKind => text_equal(value, "encryption") || text_equal(value, "signing"),
        Kind::Resource => text_equal(value, "credential") || text_equal(value, "locked-file")
            || text_equal(value, "quorum-file") || text_equal(value, "credential-share")
            || text_equal(value, "file-share"),
    }
}

/// Every value is what its argument takes.
pub open spec fn values_fit(verb: Verb, places: Seq<Seq<char>>, given: Seq<GivenView>) -> bool {
    &&& forall|i: int|
        0 <= i < places.len() && i < places_of(verb).len() ==> value_fits(
            places_of(verb)[i].kind,
            #[trigger] places[i],
        )
    &&& forall|i: int, k: int|
        0 <= i < given.len() && 0 <= k < given[i].values.len() ==> value_fits(
            given[i].option.kind,
            #[trigger] given[i].values[k],
        )
}

fn check_places(places: &Vec<String>, known: &Vec<Place>) -> (r: bool)
    ensures
        r == (forall|i: int|
            0 <= i < text_views(places@).len() && i < known@.len() ==> value_fits(
                known@[i].kind,
                #[trigger] text_views(places@)[i],
            )),
{
    let ghost views = text_views(places@);
    let mut i: usize = 0;
    while i < places.len() && i < known.len()
        invariant
            i <= places.len(),
            i <= known.len(),
            views == text_views(places@),
            forall|k: int|
                0 <= k < i && k < known@.len() ==> value_fits(known@[k].kind, #[trigger] views[k]),
        decreases places.len() - i,
    {
        assert(views[i as int] == places@[i as int]@);
        if !check_value(known[i].kind, places[i].as_str()) {
            return false;
        }
        i += 1;
    }
    true
}

fn check_each_value(kind: Kind, values: &Vec<String>) -> (r: bool)
    ensures
        r == (forall|k: int|
            0 <= k < text_views(values@).len() ==> value_fits(
                kind,
                #[trigger] text_views(values@)[k],
            )),
{
    let ghost views = text_views(values@);
    let mut k: usize = 0;
    while k < values.len()
        invariant
            k <= values.len(),
            views == text_views(values@),
            forall|m: int| 0 <= m < k ==> value_fits(kind, #[trigger] views[m]),
        decreases values.len() - k,
    {
        assert(views[k as int] == values@[k as int]@);
        if !check_value(kind, values[k].as_str()) {
            return false;
        }
        k += 1;
    }
    true
}

fn check_given(given: &Vec<Given>) -> (r: bool)
    ensures
        r == (forall|i: int, k: int|
            0 <= i < given_views(given@).len() && 0 <= k < given_views(given@)[i].values.len()
                ==> value_fits(
                given_views(given@)[i].option.kind,
                #[trigger] given_views(given@)[i].values[k],
            )),
{
    let ghost views = given_views(given@);
    let mut i: usize = 0;
    while i < given.len()
        invariant
            i <= given.len(),
            views == given_views(given@),
            forall|m: int, k: int|
                0 <= m < i && 0 <= k < views[m].values.len() ==> value_fits(
                    views[m].option.kind,
                    #[trigger] views[m].values[k],
                ),
        decreases given.len() - i,
    {
        assert(views[i as int] == given@[i as int]@);
        let fits = check_each_value(given[i].option.kind, &given[i].values);
        if !fits {
            proof {
                let bad = choose|k: int|
                    0 <= k < text_views(given@[i as int].values@).len() && !value_fits(
                        given@[i as int].option.kind,
                        #[trigger] text_views(given@[i as int].values@)[k],
                    );
                assert(!value_fits(views[i as int].option.kind, views[i as int].values[bad]));
            }
            return false;
        }
        i += 1;
    }
    true
}

/// What a command line says.
#[derive(Debug)]
pub struct Cli {
    pub verb: Verb,
    pub places: Vec<String>,
    pub given: Vec<Given>,
}

#[verifier::ext_equal]
pub struct CliView {
    pub verb: Verb,
    pub places: Seq<Seq<char>>,
    pub given: Seq<GivenView>,
}

impl View for Cli {
    type V = CliView;

    open spec fn view(&self) -> CliView {
        CliView {
            verb: self.verb,
            places: text_views(self.places@),
            given: given_views(self.given@),
        }
    }
}

/// The values of an option, in the order in which they are given.
pub open spec fn values_named(given: Seq<GivenView>, name: Seq<char>) -> Seq<Seq<char>>
    decreases given.len(),
{
    if given.len() == 0 {
        Seq::empty()
    } else {
        let before = values_named(given.drop_last(), name);
        if given.last().option.name@ == name {
            before + given.last().values
        } else {
            before
        }
    }
}

/// Where an argument that is known by its place has it.
pub open spec fn place_named(places: Seq<Place>, name: Seq<char>) -> Option<int>
    decreases places.len(),
{
    if places.len() == 0 {
        None
    } else {
        match place_named(places.drop_last(), name) {
            Some(i) => Some(i),
            None => if places.last().name@ == name {
                Some(places.len() - 1)
            } else {
                None
            },
        }
    }
}

proof fn lemma_place_stays(places: Seq<Place>, name: Seq<char>, n: int)
    requires
        0 <= n <= places.len(),
        place_named(places.take(n), name) is Some,
    ensures
        place_named(places, name) == place_named(places.take(n), name),
    decreases places.len() - n,
{
    if n == places.len() {
        assert(places.take(n) =~= places);
    } else {
        assert(places.take(n + 1).drop_last() =~= places.take(n));
        lemma_place_stays(places, name, n + 1);
    }
}

fn find_place(places: &Vec<Place>, name: &str) -> (r: Option<usize>)
    ensures
        place_named(places@, name@) == (match r {
            Some(i) => Some(i as int),
            None => None,
        }),
{
    let mut i: usize = 0;
    assert(places@.take(0) =~= Seq::<Place>::empty());
    while i < places.len()
        invariant
            i <= places.len(),
            place_named(places@.take(i as int), name@) is None,
        decreases places.len() - i,
    {
        proof {
            assert(places@.take(i + 1).drop_last() =~= places@.take(i as int));
            assert(places@.take(i + 1).last() == places@[i as int]);
        }
        if text_equal(places[i].name, name) {
            proof {
                lemma_place_stays(places@, name@, i + 1);
            }
            return Some(i);
        }
        i += 1;
    }
    assert(places@.take(i as int) =~= places@);
    None
}

/// Some option with the name is given.
pub open spec fn names(given: Seq<GivenView>, name: Seq<char>) -> bool {
    exists|i: int| 0 <= i < given.len() && (#[trigger] given[i]).option.name@ == name
}

impl CliView {
    /// The values of an argument, in the order in which they are given.
    pub open spec fn values(self, name: Seq<char>) -> Seq<Seq<char>> {
        match place_named(places_of(self.verb), name) {
            Some(i) => if i < self.places.len() {
                seq![self.places[i]]
            } else {
                Seq::empty()
            },
            None => values_named(self.given, name),
        }
    }

    /// An argument is given.
    pub open spec fn has(self, name: Seq<char>) -> bool {
        match place_named(places_of(self.verb), name) {
            Some(i) => i < self.places.len(),
            None => names(self.given, name),
        }
    }

    /// An argument has a value.
    pub open spec fn says(self, name: Seq<char>, value: Seq<char>) -> bool {
        self.values(name).contains(value)
    }

    /// The text of an argument.
    pub open spec fn text(self, name: Seq<char>) -> Option<Seq<char>> {
        if self.values(name).len() > 0 {
            Some(self.values(name)[0])
        } else {
            None
        }
    }

    /// The number that an argument is.
    pub open spec fn number(self, name: Seq<char>) -> Option<int> {
        match self.text(name) {
            Some(text) => match integer_of(text) {
                Some(n) => if i64::MIN <= n <= i64::MAX {
                    Some(n)
                } else {
                    None
                },
                None => None,
            },
            None => None,
        }
    }

    /// The file that holds the tables.
    pub open spec fn db(self) -> Seq<char> {
        let named = values_named(self.given, "db"@);
        if named.len() > 0 {
            named.last()
        } else {
            DEFAULT_DB@
        }
    }
}

impl Cli {
    /// The values of an argument, in the order in which they are given.
    pub fn values(&self, name: &str) -> (r: Vec<String>)
        ensures
            text_views(r@) == self@.values(name@),
    {
        let places = places_for(self.verb);
        match find_place(&places, name) {
            Some(i) => {
                let mut out: Vec<String> = Vec::new();
                if i < self.places.len() {
                    out.push(self.places[i].as_str().to_owned());
                    assert(self@.places[i as int] == self.places@[i as int]@);
                    assert(text_views(out@) =~= seq![self@.places[i as int]]);
                } else {
                    assert(text_views(out@) =~= Seq::<Seq<char>>::empty());
                }
                out
            },
            None => collect_values(&self.given, name),
        }
    }

    /// Whether an argument is given.
    pub fn has(&self, name: &str) -> (r: bool)
        ensures
            r == self@.has(name@),
    {
        let places = places_for(self.verb);
        match find_place(&places, name) {
            Some(i) => i < self.places.len(),
            None => check_names(&self.given, name),
        }
    }

    fn says(&self, name: &str, value: &str) -> (r: bool)
        ensures
            r == self@.says(name@, value@),
    {
        let values = self.values(name);
        crate::text::contains_text(&values, value)
    }

    /// The text of an argument.
    pub fn text(&self, name: &str) -> (r: Option<String>)
        ensures
            crate::text::optional_text(r) == self@.text(name@),
    {
        let values = self.values(name);
        if values.len() > 0 {
            assert(text_views(values@)[0] == values@[0]@);
            Some(values[0].as_str().to_owned())
        } else {
            None
        }
    }

    /// The number that an argument is.
    pub fn number(&self, name: &str) -> (r: Option<i64>)
        ensures
            self@.number(name@) == (match r {
                Some(n) => Some(n as int),
                None => None,
            }),
    {
        match self.text(name) {
            Some(text) => parse_integer(text.as_str()),
            None => None,
        }
    }

    /// The file that holds the tables.
    pub fn db(&self) -> (r: String)
        ensures
            r@ == self@.db(),
    {
        let named = collect_values(&self.given, "db");
        if named.len() > 0 {
            let i: usize = named.len() - 1;
            assert(text_views(named@).last() == named@[i as int]@);
            named[i].as_str().to_owned()
        } else {
            DEFAULT_DB.to_owned()
        }
    }
}

fn collect_values(given: &Vec<Given>, name: &str) -> (r: Vec<String>)
    ensures
        text_views(r@) == values_named(given_views(given@), name@),
{
    let ghost views = given_views(given@);
    let mut out: Vec<String> = Vec::new();
    let mut i: usize = 0;
    assert(views.take(0) =~= Seq::<GivenView>::empty());
    assert(text_views(out@) =~= Seq::<Seq<char>>::empty());
    while i < given.len()
        invariant
            i <= given.len(),
            views == given_views(given@),
            text_views(out@) == values_named(views.take(i as int), name@),
        decreases given.len() - i,
    {
        proof {
            assert(views[i as int] == given@[i as int]@);
            assert(views.take(i + 1).drop_last() =~= views.take(i as int));
            assert(views.take(i + 1).last() == views[i as int]);
        }
        if text_equal(given[i].option.name, name) {
            append_texts(&mut out, &given[i].values);
        }
        i += 1;
    }
    assert(views.take(i as int) =~= views);
    out
}

fn append_texts(out: &mut Vec<String>, more: &Vec<String>)
    ensures
        text_views(final(out)@) == text_views(old(out)@) + text_views(more@),
{
    let ghost before = text_views(out@);
    let ghost views = text_views(more@);
    let mut i: usize = 0;
    assert(text_views(out@) =~= before + views.take(0));
    while i < more.len()
        invariant
            i <= more.len(),
            views == text_views(more@),
            text_views(out@) == before + views.take(i as int),
        decreases more.len() - i,
    {
        let ghost shorter = text_views(out@);
        out.push(more[i].as_str().to_owned());
        proof {
            assert(views[i as int] == more@[i as int]@);
            assert(text_views(out@) =~= shorter.push(views[i as int]));
            assert(text_views(out@) =~= before + views.take(i + 1));
        }
        i += 1;
    }
    assert(views.take(i as int) =~= views);
}

fn check_names(given: &Vec<Given>, name: &str) -> (r: bool)
    ensures
        r == names(given_views(given@), name@),
{
    let ghost views = given_views(given@);
    let mut i: usize = 0;
    while i < given.len()
        invariant
            i <= given.len(),
            views == given_views(given@),
            forall|k: int| 0 <= k < i ==> (#[trigger] views[k]).option.name@ != name@,
        decreases given.len() - i,
    {
        assert(views[i as int] == given@[i as int]@);
        if text_equal(given[i].option.name, name) {
            return true;
        }
        i += 1;
    }
    false
}

/// Which fault a rule finds in the arguments, if it finds one.
pub open spec fn rule_fault(cli: CliView, rule: Rule) -> Option<UsageFault> {
    let missing = Some(UsageFault::MissingArgument);
    match rule {
        Rule::Needs(a) => if cli.has(a@) {
            None
        } else {
            missing
        },
        Rule::Implies(a, b) => if cli.has(a@) && !cli.has(b@) {
            missing
        } else {
            None
        },
        Rule::Excludes(a, b) => if cli.has(a@) && cli.has(b@) {
            Some(UsageFault::Conflict)
        } else {
            None
        },
        Rule::NeedsWhen(a, value, b) => if cli.says(a@, value@) && !cli.has(b@) {
            missing
        } else {
            None
        },
        Rule::OneOf(a, b) => if cli.has(a@) || cli.has(b@) {
            None
        } else {
            missing
        },
        Rule::OneOfWhen(a, value, b, c) => if cli.says(a@, value@) && !cli.has(b@) && !cli.has(c@) {
            missing
        } else {
            None
        },
    }
}

fn apply_rule(cli: &Cli, rule: Rule) -> (r: Option<UsageFault>)
    ensures
        r == rule_fault(cli@, rule),
{
    let (holds, fault) = match rule {
        Rule::Needs(a) => (cli.has(a), UsageFault::MissingArgument),
        Rule::Implies(a, b) => (!cli.has(a) || cli.has(b), UsageFault::MissingArgument),
        Rule::Excludes(a, b) => (!cli.has(a) || !cli.has(b), UsageFault::Conflict),
        Rule::NeedsWhen(a, value, b) => (
            !cli.says(a, value) || cli.has(b),
            UsageFault::MissingArgument,
        ),
        Rule::OneOf(a, b) => (cli.has(a) || cli.has(b), UsageFault::MissingArgument),
        Rule::OneOfWhen(a, value, b, c) => (
            !cli.says(a, value) || cli.has(b) || cli.has(c),
            UsageFault::MissingArgument,
        ),
    };
    if holds {
        None
    } else {
        Some(fault)
    }
}

/// The first fault that rules find in the arguments.
pub open spec fn rules_fault(cli: CliView, rules: Seq<Rule>) -> Option<UsageFault>
    decreases rules.len(),
{
    if rules.len() == 0 {
        None
    } else {
        match rules_fault(cli, rules.drop_last()) {
            Some(fault) => Some(fault),
            None => rule_fault(cli, rules.last()),
        }
    }
}

proof fn lemma_fault_stays(cli: CliView, rules: Seq<Rule>, n: int)
    requires
        0 <= n <= rules.len(),
        rules_fault(cli, rules.take(n)) is Some,
    ensures
        rules_fault(cli, rules) == rules_fault(cli, rules.take(n)),
    decreases rules.len() - n,
{
    if n == rules.len() {
        assert(rules.take(n) =~= rules);
    } else {
        assert(rules.take(n + 1).drop_last() =~= rules.take(n));
        lemma_fault_stays(cli, rules, n + 1);
    }
}

fn apply_rules(cli: &Cli, rules: &Vec<Rule>) -> (r: Option<UsageFault>)
    ensures
        r == rules_fault(cli@, rules@),
{
    let mut i: usize = 0;
    assert(rules@.take(0) =~= Seq::<Rule>::empty());
    while i < rules.len()
        invariant
            i <= rules.len(),
            rules_fault(cli@, rules@.take(i as int)) is None,
        decreases rules.len() - i,
    {
        proof {
            assert(rules@.take(i + 1).drop_last() =~= rules@.take(i as int));
            assert(rules@.take(i + 1).last() == rules@[i as int]);
        }
        if let Some(fault) = apply_rule(cli, rules[i]) {
            proof {
                lemma_fault_stays(cli@, rules@, i + 1);
            }
            return Some(fault);
        }
        i += 1;
    }
    assert(rules@.take(i as int) =~= rules@);
    None
}

/// What the words that were read say, or why they are refused.
pub open spec fn said(s: ReadingView) -> Result<CliView, UsageFault> {
    if lacks_value(s.given) {
        Err(UsageFault::MissingValue)
    } else {
        match s.path {
            Path::Verb(verb) => {
                let cli = CliView { verb, places: s.places, given: s.given };
                if !values_fit(verb, s.places, s.given) {
                    Err(UsageFault::InvalidValue)
                } else {
                    match rules_fault(cli, rules_of(verb)) {
                        Some(fault) => Err(fault),
                        None => Ok(cli),
                    }
                }
            },
            _ => Err(UsageFault::MissingCommand),
        }
    }
}

/// The words of a command line behind the name of the program.
pub open spec fn words_in(args: Seq<Seq<char>>) -> Seq<Seq<char>> {
    if args.len() > 0 {
        args.skip(1)
    } else {
        args
    }
}

/// What a command line says, or why it is refused. Its first word is the name of
/// the program.
pub open spec fn parsed(args: Seq<Seq<char>>) -> Result<CliView, UsageFault> {
    match read(words_in(args)) {
        Ok(s) => said(s),
        Err(fault) => Err(fault),
    }
}

pub open spec fn arg_views(args: Seq<&str>) -> Seq<Seq<char>> {
    Seq::new(args.len(), |i: int| args[i]@)
}

fn take_option(s: Reading, option: Opt, value: Option<String>) -> (r: Result<Reading, UsageFault>)
    ensures
        match r {
            Ok(next) => with_option(s@, option, crate::text::optional_text(value)) == Ok::<
                ReadingView,
                UsageFault,
            >(next@),
            Err(fault) => with_option(s@, option, crate::text::optional_text(value)) == Err::<
                ReadingView,
                UsageFault,
            >(fault),
        },
{
    let once = match option.taking {
        Taking::Nothing => {
            if value.is_some() {
                return Err(UsageFault::UnneededValue);
            }
            true
        },
        Taking::One => true,
        _ => false,
    };
    if once && check_given_at(&s.given, option.name, s.depth) {
        return Err(UsageFault::Repeated);
    }
    let ghost start = s@;
    let ghost attached = crate::text::optional_text(value);
    let mut s = s;
    let takes = match option.taking {
        Taking::Nothing => false,
        _ => true,
    };
    s.open = takes && value.is_none();
    let mut values: Vec<String> = Vec::new();
    if let Some(value) = value {
        values.push(value);
    }
    let ghost wanted = match attached {
        Some(value) => seq![value],
        None => Seq::empty(),
    };
    assert(text_views(values@) =~= wanted);
    let depth: usize = s.depth;
    let entry = Given { option, depth, values };
    let ghost added = entry@;
    s.given.push(entry);
    assert(s@.given =~= start.given.push(added));
    Ok(s)
}

fn read_option(s: Reading, body: &Vec<char>) -> (r: Result<Reading, UsageFault>)
    ensures
        match r {
            Ok(next) => after_option(s@, body@) == Ok::<ReadingView, UsageFault>(next@),
            Err(fault) => after_option(s@, body@) == Err::<ReadingView, UsageFault>(fault),
        },
{
    let (name, value) = match find_equals(body) {
        None => {
            let name = text_of(body.as_slice());
            (name, None)
        },
        Some(at) => {
            let total: usize = body.len();
            let head = part(body.as_slice(), 0, at);
            let tail = part(body.as_slice(), at + 1, total);
            assert(head@ =~= body@.take(at as int));
            assert(tail@ =~= body@.skip(at + 1));
            (text_of(head.as_slice()), Some(text_of(tail.as_slice())))
        },
    };
    if check_lacking(&s.given) {
        return Err(UsageFault::MissingValue);
    }
    if text_equal(name.as_str(), "help") {
        return Err(UsageFault::Help);
    }
    if text_equal(name.as_str(), "version") {
        if let Path::Top = s.path {
            return Err(UsageFault::Version);
        }
    }
    let options = list_options(s.path);
    match find_option(&options, name.as_str()) {
        None => Err(UsageFault::UnknownOption),
        Some(option) => take_option(s, option, value),
    }
}

fn read_place(s: Reading, word: &str) -> (r: Result<Reading, UsageFault>)
    ensures
        match r {
            Ok(next) => after_place(s@, word@) == Ok::<ReadingView, UsageFault>(next@),
            Err(fault) => after_place(s@, word@) == Err::<ReadingView, UsageFault>(fault),
        },
{
    match s.path {
        Path::Verb(verb) => {
            let places = places_for(verb);
            if s.places.len() < places.len() {
                let ghost start = s@;
                let mut s = s;
                s.places.push(word.to_owned());
                assert(s@.places =~= start.places.push(word@));
                Ok(s)
            } else {
                Err(UsageFault::UnexpectedArgument)
            }
        },
        _ => Err(UsageFault::UnknownCommand),
    }
}

fn read_value(s: Reading, word: &str) -> (r: Reading)
    requires
        s@.open,
        s@.given.len() > 0,
    ensures
        after_word(s@, word@) == Ok::<ReadingView, UsageFault>(r@),
{
    let ghost start = s@;
    let mut s = s;
    let i: usize = s.given.len() - 1;
    let ghost last = s.given@[i as int];
    assert(start.given.last() == last@);
    let option = s.given[i].option;
    s.given[i].values.push(word.to_owned());
    s.open = match option.taking {
        Taking::Several => true,
        _ => false,
    };
    proof {
        assert(text_views(s.given@[i as int].values@) =~= text_views(last.values@).push(word@));
        assert(s@.given =~= start.given.drop_last().push(
            GivenView { values: last@.values.push(word@), ..last@ },
        ));
    }
    s
}

fn read_word(s: Reading, word: &str) -> (r: Result<Reading, UsageFault>)
    requires
        s.depth < usize::MAX,
    ensures
        match r {
            Ok(next) => after_word(s@, word@) == Ok::<ReadingView, UsageFault>(next@),
            Err(fault) => after_word(s@, word@) == Err::<ReadingView, UsageFault>(fault),
        },
{
    if s.open && s.given.len() > 0 {
        return Ok(read_value(s, word));
    }
    let words = words_after(s.path);
    match follow_word(&words, word) {
        Some(path) => {
            if check_begun(&s) {
                read_place(s, word)
            } else {
                let mut s = s;
                s.path = path;
                s.depth = s.depth + 1;
                Ok(s)
            }
        },
        None => read_place(s, word),
    }
}

fn read_next(s: Reading, word: &str) -> (r: Result<Reading, UsageFault>)
    requires
        s.depth < usize::MAX,
    ensures
        match r {
            Ok(next) => after(s@, word@) == Ok::<ReadingView, UsageFault>(next@),
            Err(fault) => after(s@, word@) == Err::<ReadingView, UsageFault>(fault),
        },
{
    let chars = chars_of(word);
    if s.trailing {
        read_place(s, word)
    } else if chars_are(chars.as_slice(), "--") {
        if check_lacking(&s.given) {
            Err(UsageFault::MissingValue)
        } else {
            let mut s = s;
            s.open = false;
            s.trailing = true;
            Ok(s)
        }
    } else if has_prefix(chars.as_slice(), "--") {
        proof {
            reveal_strlit("--");
        }
        let body = part(chars.as_slice(), 2, chars.len());
        assert(body@ =~= word@.skip(2));
        read_option(s, &body)
    } else if chars.len() > 1 && chars[0] == '-' {
        if check_lacking(&s.given) {
            return Err(UsageFault::MissingValue);
        }
        if chars[1] == 'h' {
            return Err(UsageFault::Help);
        }
        if chars[1] == 'V' {
            if let Path::Top = s.path {
                return Err(UsageFault::Version);
            }
        }
        Err(UsageFault::UnknownOption)
    } else {
        read_word(s, word)
    }
}

proof fn lemma_fault_is_final(words: Seq<Seq<char>>, n: int)
    requires
        0 <= n <= words.len(),
        read(words.take(n)) is Err,
    ensures
        read(words) == read(words.take(n)),
    decreases words.len() - n,
{
    if n == words.len() {
        assert(words.take(n) =~= words);
    } else {
        assert(words.take(n + 1).drop_last() =~= words.take(n));
        lemma_fault_is_final(words, n + 1);
    }
}

proof fn lemma_depth_grows_by_one(s: ReadingView, word: Seq<char>)
    ensures
        after(s, word) matches Ok(next) ==> next.depth <= s.depth + 1,
{
}

/// The command that the words had come to when they could be read no further.
pub open spec fn reached(words: Seq<Seq<char>>) -> Path
    decreases words.len(),
{
    match read(words) {
        Ok(s) => s.path,
        Err(_) => if words.len() == 0 {
            Path::Top
        } else {
            reached(words.drop_last())
        },
    }
}

proof fn lemma_reached_before_fault(words: Seq<Seq<char>>, n: int)
    requires
        0 <= n <= words.len(),
        read(words.take(n)) is Err,
    ensures
        reached(words) == reached(words.take(n)),
    decreases words.len(),
{
    if n == words.len() {
        assert(words.take(n) =~= words);
    } else {
        lemma_fault_is_final(words, n);
        assert(words.drop_last().take(n) =~= words.take(n));
        lemma_reached_before_fault(words.drop_last(), n);
    }
}

/// Reads a command line as far as it can be: the command that it came to, and
/// what was read or why it could not be.
fn read_line(args: &[&str]) -> (r: (Path, Result<Reading, UsageFault>))
    ensures
        r.0 == reached(words_in(arg_views(args@))),
        match r.1 {
            Ok(s) => read(words_in(arg_views(args@))) == Ok::<ReadingView, UsageFault>(s@),
            Err(fault) => read(words_in(arg_views(args@))) == Err::<ReadingView, UsageFault>(fault),
        },
{
    let ghost all = arg_views(args@);
    let ghost words = words_in(all);
    let mut s = Reading {
        path: Path::Top,
        depth: 0,
        places: Vec::new(),
        given: Vec::new(),
        open: false,
        trailing: false,
    };
    proof {
        assert(s@.places =~= Seq::<Seq<char>>::empty());
        assert(s@.given =~= Seq::<GivenView>::empty());
        assert(words.take(0) =~= Seq::<Seq<char>>::empty());
    }
    if args.len() == 0 {
        assert(words.take(0) =~= words);
        return (Path::Top, Ok(s));
    }
    let mut i: usize = 1;
    while i < args.len()
        invariant
            1 <= i <= args@.len(),
            all == arg_views(args@),
            words == all.skip(1),
            words == words_in(all),
            read(words.take(i - 1)) == Ok::<ReadingView, UsageFault>(s@),
            s.depth < i,
        decreases args.len() - i,
    {
        let ghost before = s@;
        let path = s.path;
        proof {
            assert(words[i - 1] == args@[i as int]@);
            assert(words.take(i as int).drop_last() =~= words.take(i - 1));
            assert(words.take(i as int).last() == words[i - 1]);
        }
        match read_next(s, args[i]) {
            Ok(next) => {
                proof {
                    lemma_depth_grows_by_one(before, args@[i as int]@);
                }
                s = next;
            },
            Err(fault) => {
                proof {
                    lemma_fault_is_final(words, i as int);
                    lemma_reached_before_fault(words, i as int);
                    assert(reached(words.take(i - 1)) == before.path);
                    assert(reached(words.take(i as int)) == before.path);
                }
                return (path, Err(fault));
            },
        }
        i += 1;
    }
    assert(words.take(i - 1) =~= words);
    (s.path, Ok(s))
}

/// The command that a command line had come to when it could be read no further.
pub fn path_reached(args: &[&str]) -> (r: Path)
    ensures
        r == reached(words_in(arg_views(args@))),
{
    read_line(args).0
}

fn conclude(s: Reading) -> (r: Result<Cli, UsageFault>)
    ensures
        match r {
            Ok(cli) => said(s@) == Ok::<CliView, UsageFault>(cli@),
            Err(fault) => said(s@) == Err::<CliView, UsageFault>(fault),
        },
{
    if check_lacking(&s.given) {
        return Err(UsageFault::MissingValue);
    }
    match s.path {
        Path::Verb(verb) => {
            let known = places_for(verb);
            if !check_places(&s.places, &known) || !check_given(&s.given) {
                return Err(UsageFault::InvalidValue);
            }
            let rules = rules_for(verb);
            let cli = Cli { verb, places: s.places, given: s.given };
            match apply_rules(&cli, &rules) {
                Some(fault) => Err(fault),
                None => Ok(cli),
            }
        },
        _ => Err(UsageFault::MissingCommand),
    }
}

impl Cli {
    /// Reads a command line. Its first word is the name of the program.
    pub fn try_parse_from(args: &[&str]) -> (r: Result<Cli, UsageFault>)
        ensures
            match r {
                Ok(cli) => parsed(arg_views(args@)) == Ok::<CliView, UsageFault>(cli@),
                Err(fault) => parsed(arg_views(args@)) == Err::<CliView, UsageFault>(fault),
            },
    {
        match read_line(args).1 {
            Ok(s) => conclude(s),
            Err(fault) => Err(fault),
        }
    }
}

proof fn lemma_no_fault_means_every_rule(cli: CliView, rules: Seq<Rule>)
    requires
        rules_fault(cli, rules) is None,
    ensures
        forall|i: int| 0 <= i < rules.len() ==> rule_fault(cli, #[trigger] rules[i]) is None,
    decreases rules.len(),
{
    if rules.len() > 0 {
        lemma_no_fault_means_every_rule(cli, rules.drop_last());
        assert forall|i: int| 0 <= i < rules.len() implies rule_fault(
            cli,
            #[trigger] rules[i],
        ) is None by {
            if i < rules.len() - 1 {
                assert(rules.drop_last()[i] == rules[i]);
            }
        }
    }
}

/// A command line that is accepted keeps every rule of its verb, and every value
/// is what its argument takes.
pub proof fn accepted_lines_keep_the_rules(args: Seq<Seq<char>>)
    ensures
        parsed(args) matches Ok(cli) ==> {
            &&& values_fit(cli.verb, cli.places, cli.given)
            &&& forall|i: int|
                0 <= i < rules_of(cli.verb).len() ==> rule_fault(
                    cli,
                    #[trigger] rules_of(cli.verb)[i],
                ) is None
        },
{
    if let Ok(cli) = parsed(args) {
        lemma_no_fault_means_every_rule(cli, rules_of(cli.verb));
    }
}

/// Every option that was given is one of the verb's own, but for the one that
/// every command takes.
spec fn own_options(s: ReadingView) -> bool {
    forall|i: int|
        0 <= i < s.given.len() ==> (#[trigger] s.given[i]).option.name@ == "db"@ || (s.given[i].depth
            == s.depth && (s.path matches Path::Verb(verb) && options_of(verb).contains(
            s.given[i].option,
        )))
}

proof fn lemma_named_is_contained(options: Seq<Opt>, name: Seq<char>)
    requires
        option_named(options, name) is Some,
    ensures
        options.contains(option_named(options, name)->0),
    decreases options.len(),
{
    if option_named(options.drop_last(), name) is Some {
        lemma_named_is_contained(options.drop_last(), name);
        let i = choose|i: int|
            0 <= i < options.drop_last().len() && options.drop_last()[i] == option_named(
                options.drop_last(),
                name,
            )->0;
        assert(options[i] == options.drop_last()[i]);
    } else {
        assert(options[options.len() - 1] == options.last());
    }
}

proof fn lemma_options_stay_own(s: ReadingView, word: Seq<char>)
    requires
        own_options(s),
        after(s, word) is Ok,
    ensures
        own_options(after(s, word)->Ok_0),
{
    let next = after(s, word)->Ok_0;
    if !s.trailing && word != "--"@ && begins_with(word, "--"@) {
        let (name, value) = name_and_value(word.skip(2));
        let options = options_at(s.path);
        lemma_named_is_contained(options, name);
        let option = option_named(options, name)->0;
        let k = choose|k: int| 0 <= k < options.len() && options[k] == option;
        if let Path::Verb(verb) = s.path {
            if k < options_of(verb).len() {
                assert(options_of(verb)[k] == option);
            }
        }
        assert forall|i: int| 0 <= i < next.given.len() implies (
        #[trigger] next.given[i]).option.name@ == "db"@ || (next.given[i].depth == next.depth && (
        next.path matches Path::Verb(verb) && options_of(verb).contains(
            next.given[i].option,
        ))) by {
            if i < s.given.len() {
                assert(next.given[i] == s.given[i]);
            }
        }
    } else if !s.trailing && s.open && s.given.len() > 0 {
        assert forall|i: int| 0 <= i < next.given.len() implies (
        #[trigger] next.given[i]).option.name@ == "db"@ || (next.given[i].depth == next.depth && (
        next.path matches Path::Verb(verb) && options_of(verb).contains(
            next.given[i].option,
        ))) by {
            assert(next.given[i].option == s.given[i].option && next.given[i].depth
                == s.given[i].depth);
        }
    } else if next.path != s.path || next.depth != s.depth {
        assert forall|i: int| 0 <= i < next.given.len() implies (
        #[trigger] next.given[i]).option.name@ == "db"@ by {
            assert(next.given[i] == s.given[i]);
            if s.given[i].option.name@ != "db"@ {
                assert(begun(s));
            }
        }
    }
}

proof fn lemma_read_options_own(words: Seq<Seq<char>>)
    ensures
        read(words) matches Ok(s) ==> own_options(s),
    decreases words.len(),
{
    if words.len() > 0 {
        lemma_read_options_own(words.drop_last());
        if let Ok(s) = read(words.drop_last()) {
            if after(s, words.last()) is Ok {
                lemma_options_stay_own(s, words.last());
            }
        }
    }
}

/// The first value of a name is one that an option of the name was given.
proof fn lemma_first_value(given: Seq<GivenView>, name: Seq<char>) -> (at: (int, int))
    requires
        values_named(given, name).len() > 0,
    ensures
        0 <= at.0 < given.len(),
        given[at.0].option.name@ == name,
        0 <= at.1 < given[at.0].values.len(),
        given[at.0].values[at.1] == values_named(given, name)[0],
    decreases given.len(),
{
    let before = values_named(given.drop_last(), name);
    if before.len() > 0 {
        let at = lemma_first_value(given.drop_last(), name);
        assert(given.drop_last()[at.0] == given[at.0]);
        at
    } else {
        (given.len() - 1, 0)
    }
}

proof fn lemma_limit_is_positive(cli: CliView, name: Seq<char>)
    requires
        values_fit(cli.verb, cli.places, cli.given),
        place_named(places_of(cli.verb), name) is None,
        forall|i: int|
            0 <= i < cli.given.len() && (#[trigger] cli.given[i]).option.name@ == name
                ==> cli.given[i].option.kind == Kind::Positive,
        cli.text(name) is Some,
    ensures
        cli.number(name) matches Some(n) && n > 0,
{
    let at = lemma_first_value(cli.given, name);
    assert(value_fits(cli.given[at.0].option.kind, cli.given[at.0].values[at.1]));
}

/// The limits of a share that a command line asks for are above zero.
pub proof fn share_limits_are_positive(args: Seq<Seq<char>>)
    ensures
        parsed(args) matches Ok(cli) ==> (cli.verb == Verb::ShareCreateCredential || cli.verb
            == Verb::ShareCreateFile) ==> {
            &&& cli.text("ttl-seconds"@) is Some ==> (cli.number("ttl-seconds"@) matches Some(n)
                && n > 0)
            &&& cli.text("max-uses"@) is Some ==> (cli.number("max-uses"@) matches Some(n) && n
                > 0)
        },
{
    let words = if args.len() > 0 {
        args.skip(1)
    } else {
        args
    };
    if let Ok(cli) = parsed(args) {
        if cli.verb == Verb::ShareCreateCredential || cli.verb == Verb::ShareCreateFile {
            lemma_read_options_own(words);
            reveal_strlit("db");
            reveal_strlit("ttl-seconds");
            reveal_strlit("max-uses");
            reveal_strlit("pin");
            reveal_strlit("pin-required-every-use");
            reveal_strlit("credential-id");
            reveal_strlit("file-id");
            reveal_with_fuel(place_named, 3);
            let s = read(words)->Ok_0;
            let options = options_of(cli.verb);
            assert forall|i: int|
                0 <= i < cli.given.len() && ((#[trigger] cli.given[i]).option.name@
                    == "ttl-seconds"@ || cli.given[i].option.name@
                    == "max-uses"@) implies cli.given[i].option.kind == Kind::Positive by {
                assert(s.given[i] == cli.given[i]);
                assert("db"@.len() == 2);
                let k = choose|k: int| 0 <= k < options.len() && options[k] == s.given[i].option;
                assert(options[k].name@ == cli.given[i].option.name@);
            }
            let places = places_of(cli.verb);
            assert(places.len() == 1 && places.last() == places[0]);
            assert(places[0].name@.len() != "ttl-seconds"@.len());
            assert(places[0].name@[0] != "max-uses"@[0]);
            assert(place_named(places.drop_last(), "ttl-seconds"@) is None);
            assert(place_named(places.drop_last(), "max-uses"@) is None);
            if cli.text("ttl-seconds"@) is Some {
                lemma_limit_is_positive(cli, "ttl-seconds"@);
            }
            if cli.text("max-uses"@) is Some {
                lemma_limit_is_positive(cli, "max-uses"@);
            }
        }
    }
}

/// A name leads to the first option that has it, and to none where no option has it.
pub proof fn name_leads_to_its_option(options: Seq<Opt>, name: Seq<char>)
    ensures
        option_named(options, name) is Some <==> exists|i: int|
            0 <= i < options.len() && (#[trigger] options[i]).name@ == name,
        option_named(options, name) matches Some(option) ==> exists|i: int|
            0 <= i < options.len() && #[trigger] options[i] == option && option.name@ == name
                && forall|k: int| 0 <= k < i ==> (#[trigger] options[k]).name@ != name,
    decreases options.len(),
{
    if options.len() > 0 {
        let front = options.drop_last();
        name_leads_to_its_option(front, name);
        assert forall|i: int| 0 <= i < front.len() implies #[trigger] options[i] == front[i] by {}
        if option_named(front, name) is Some {
            let option = option_named(front, name)->0;
            let i = choose|i: int|
                0 <= i < front.len() && #[trigger] front[i] == option && option.name@ == name
                    && forall|k: int| 0 <= k < i ==> (#[trigger] front[k]).name@ != name;
            assert(options[i] == option);
            assert forall|k: int| 0 <= k < i implies (#[trigger] options[k]).name@ != name by {
                assert(front[k].name@ != name);
            }
        } else {
            assert forall|k: int| 0 <= k < front.len() implies (#[trigger] options[k]).name@
                != name by {
                assert(front[k].name@ != name);
            }
            if options.last().name@ == name {
                assert(options[options.len() - 1].name@ == name);
            }
        }
    }
}

/// A word leads where the first word of the command that it is leads, and nowhere where it
/// is none of them.
pub proof fn word_leads_where_it_should(words: Seq<Word>, word: Seq<char>)
    ensures
        word_leads(words, word) is Some <==> exists|i: int|
            0 <= i < words.len() && (#[trigger] words[i]).word@ == word,
        word_leads(words, word) matches Some(path) ==> exists|i: int|
            0 <= i < words.len() && (#[trigger] words[i]).word@ == word && words[i].leads == path
                && forall|k: int| 0 <= k < i ==> (#[trigger] words[k]).word@ != word,
    decreases words.len(),
{
    if words.len() > 0 {
        let front = words.drop_last();
        word_leads_where_it_should(front, word);
        assert forall|i: int| 0 <= i < front.len() implies #[trigger] words[i] == front[i] by {}
        if word_leads(front, word) is Some {
            let path = word_leads(front, word)->0;
            let i = choose|i: int|
                0 <= i < front.len() && (#[trigger] front[i]).word@ == word && front[i].leads
                    == path && forall|k: int| 0 <= k < i ==> (#[trigger] front[k]).word@ != word;
            assert(words[i].word@ == word);
            assert forall|k: int| 0 <= k < i implies (#[trigger] words[k]).word@ != word by {
                assert(front[k].word@ != word);
            }
        } else {
            assert forall|k: int| 0 <= k < front.len() implies (#[trigger] words[k]).word@
                != word by {
                assert(front[k].word@ != word);
            }
            if words.last().word@ == word {
                assert(words[words.len() - 1].word@ == word);
            }
        }
    }
}

/// An option has exactly the values that are given with its name.
pub proof fn values_are_those_given(given: Seq<GivenView>, name: Seq<char>, value: Seq<char>)
    ensures
        values_named(given, name).contains(value) <==> exists|i: int|
            0 <= i < given.len() && (#[trigger] given[i]).option.name@ == name
                && given[i].values.contains(value),
    decreases given.len(),
{
    let all = values_named(given, name);
    if given.len() > 0 {
        let front = given.drop_last();
        let last = given.last();
        let before = values_named(front, name);
        values_are_those_given(front, name, value);
        assert forall|i: int| 0 <= i < front.len() implies #[trigger] given[i] == front[i] by {}
        if before.contains(value) {
            let i = choose|i: int|
                0 <= i < front.len() && (#[trigger] front[i]).option.name@ == name
                    && front[i].values.contains(value);
            assert(given[i].option.name@ == name);
            let k = choose|k: int| 0 <= k < before.len() && before[k] == value;
            assert(all[k] == value);
        }
        if last.option.name@ == name && last.values.contains(value) {
            let k = choose|k: int| 0 <= k < last.values.len() && last.values[k] == value;
            assert(all[before.len() + k] == value);
            assert(given[given.len() - 1].option.name@ == name);
        }
        if all.contains(value) {
            let k = choose|k: int| 0 <= k < all.len() && all[k] == value;
            if k < before.len() {
                assert(before[k] == value);
            } else {
                assert(last.values[k - before.len()] == value);
                assert(given[given.len() - 1].values.contains(value));
            }
        }
        if exists|i: int|
            0 <= i < given.len() && (#[trigger] given[i]).option.name@ == name
                && given[i].values.contains(value) {
            let i = choose|i: int|
                0 <= i < given.len() && (#[trigger] given[i]).option.name@ == name
                    && given[i].values.contains(value);
            if i < front.len() {
                assert(front[i].option.name@ == name);
            }
        }
    } else {
        assert(!all.contains(value));
    }
}

/// What each kind of argument takes.
pub proof fn kinds_take_these_values(value: Seq<char>)
    ensures
        value_fits(Kind::Text, value),
        value_fits(Kind::Path, value) <==> value.len() > 0,
        value_fits(Kind::Integer, value) <==> (integer_of(value) matches Some(n)
            && -9223372036854775808 <= n <= 9223372036854775807),
        value_fits(Kind::Positive, value) <==> (integer_of(value) matches Some(n) && 1 <= n
            <= 9223372036854775807),
        value_fits(Kind::Interval, value) <==> (natural_of(value) matches Some(n) && 1 <= n
            <= 18446744073709551615),
        value_fits(Kind::Byte, value) <==> (integer_of(value) matches Some(n) && 0 <= n <= 255),
        value_fits(Kind::State, value) <==> (integer_of(value) matches Some(n) && (n == 0 || n
            == 1)),
        value_fits(Kind::KeyKind, "encryption"@),
        value_fits(Kind::KeyKind, "signing"@),
        value_fits(Kind::KeyKind, value) ==> value == "encryption"@ || value == "signing"@,
        value_fits(Kind::Resource, "credential"@) && value_fits(Kind::Resource, "locked-file"@)
            && value_fits(Kind::Resource, "quorum-file"@) && value_fits(
            Kind::Resource,
            "credential-share"@,
        ) && value_fits(Kind::Resource, "file-share"@),
        value_fits(Kind::Resource, value) ==> value == "credential"@ || value == "locked-file"@
            || value == "quorum-file"@ || value == "credential-share"@ || value == "file-share"@,
{
}

/// What each rule asks of the arguments.
pub proof fn rules_ask_these(
    cli: CliView,
    a: &'static str,
    b: &'static str,
    c: &'static str,
    value: &'static str,
)
    ensures
        rule_fault(cli, Rule::Needs(a)) is None <==> cli.has(a@),
        rule_fault(cli, Rule::Implies(a, b)) is None <==> (cli.has(a@) ==> cli.has(b@)),
        rule_fault(cli, Rule::Excludes(a, b)) is None <==> !(cli.has(a@) && cli.has(b@)),
        rule_fault(cli, Rule::NeedsWhen(a, value, b)) is None <==> (cli.values(a@).contains(value@)
            ==> cli.has(b@)),
        rule_fault(cli, Rule::OneOf(a, b)) is None <==> cli.has(a@) || cli.has(b@),
        rule_fault(cli, Rule::OneOfWhen(a, value, b, c)) is None <==> (cli.values(a@).contains(
            value@,
        ) ==> cli.has(b@) || cli.has(c@)),
        rule_fault(cli, Rule::Excludes(a, b)) matches Some(fault) ==> fault == UsageFault::Conflict,
        rule_fault(cli, Rule::Needs(a)) matches Some(fault) ==> fault
            == UsageFault::MissingArgument,
{
}

/// Arguments keep the rules exactly if they keep each of them.
pub proof fn every_rule_counts(cli: CliView, rules: Seq<Rule>)
    ensures
        rules_fault(cli, rules) is None <==> forall|i: int|
            0 <= i < rules.len() ==> rule_fault(cli, #[trigger] rules[i]) is None,
    decreases rules.len(),
{
    if rules.len() > 0 {
        let front = rules.drop_last();
        every_rule_counts(cli, front);
        assert forall|i: int| 0 <= i < front.len() implies #[trigger] front[i] == rules[i] by {}
        if rules_fault(cli, rules) is None {
            assert forall|i: int| 0 <= i < rules.len() implies rule_fault(cli, #[trigger] rules[i])
                is None by {
                if i < front.len() {
                    assert(rule_fault(cli, front[i]) is None);
                }
            }
        }
        if forall|i: int| 0 <= i < rules.len() ==> rule_fault(cli, #[trigger] rules[i]) is None {
            assert forall|i: int| 0 <= i < front.len() implies rule_fault(cli, #[trigger] front[i])
                is None by {
                assert(rule_fault(cli, rules[i]) is None);
            }
            assert(rule_fault(cli, rules[rules.len() - 1]) is None);
        }
    }
}

/// A word that is no option.
pub open spec fn is_plain(word: Seq<char>) -> bool {
    word.len() < 2 || word[0] != '-'
}

/// The value of an option may stand behind an equals sign or as the next word: the reading
/// comes to the same.
pub proof fn value_stands_behind_equals_or_next(
    s: ReadingView,
    name: Seq<char>,
    value: Seq<char>,
    option: Opt,
)
    requires
        !s.trailing,
        !lacks_value(s.given),
        !name.contains('='),
        name.len() > 0,
        name != "help"@,
        name != "version"@,
        option_named(options_at(s.path), name) == Some(option),
        option.taking == Taking::One,
        !given_at(s.given, option.name@, s.depth),
        is_plain(value),
    ensures
        ({
            let joined = after(s, "--"@ + name.push('=') + value);
            let flag = after(s, "--"@ + name);
            &&& flag is Ok
            &&& joined is Ok
            &&& after(flag->Ok_0, value) == joined
            &&& joined->Ok_0.given == s.given.push(
                GivenView { option, depth: s.depth, values: seq![value] },
            )
            &&& joined->Ok_0.places == s.places
            &&& joined->Ok_0.path == s.path
            &&& joined->Ok_0.depth == s.depth
            &&& !joined->Ok_0.open
            &&& !joined->Ok_0.trailing
        }),
{
    reveal_strlit("--");
    let one = "--"@ + name.push('=') + value;
    let two = "--"@ + name;
    assert(one.take(2) =~= "--"@);
    assert(two.take(2) =~= "--"@);
    assert(one.skip(2) =~= name.push('=') + value);
    assert(two.skip(2) =~= name);
    lemma_first_equals_sign(name, value);
    lemma_without_equals_sign(name);
    let body = name.push('=') + value;
    assert(body.take(name.len() as int) =~= name);
    assert(body.skip(name.len() as int + 1) =~= value);
    let flag = after(s, two)->Ok_0;
    assert(value != "--"@) by {
        if value == "--"@ {
            assert(value[0] == '-');
        }
    }
    assert(!begins_with(value, "--"@)) by {
        if begins_with(value, "--"@) {
            assert(value[0] == value.take(2)[0]);
        }
    }
    assert(flag.given.drop_last() =~= s.given);
    assert(Seq::<Seq<char>>::empty().push(value) =~= seq![value]);
}

proof fn lemma_without_equals_sign(s: Seq<char>)
    requires
        !s.contains('='),
    ensures
        equals_place(s) is None,
    decreases s.len(),
{
    if s.len() > 0 {
        assert forall|i: int| 0 <= i < s.len() - 1 implies s.drop_last()[i] != '=' by {
            assert(s.contains(s[i]));
        }
        lemma_without_equals_sign(s.drop_last());
        assert(s.contains(s.last()));
    }
}

proof fn lemma_first_equals_sign(a: Seq<char>, b: Seq<char>)
    requires
        !a.contains('='),
    ensures
        equals_place(a.push('=') + b) == Some(a.len() as int),
    decreases b.len(),
{
    let all = a.push('=') + b;
    if b.len() > 0 {
        assert(all.drop_last() =~= a.push('=') + b.drop_last());
        lemma_first_equals_sign(a, b.drop_last());
    } else {
        assert(all.drop_last() =~= a);
        lemma_without_equals_sign(a);
    }
}

/// An option with a value that takes none is refused, and so is one of which only one can
/// be given where it is given twice behind the same words. Any other is read.
pub proof fn options_that_are_read(s: ReadingView, option: Opt, value: Option<Seq<char>>)
    ensures
        ({
            let r = with_option(s, option, value);
            let again = exists|i: int|
                0 <= i < s.given.len() && (#[trigger] s.given[i]).option.name@ == option.name@
                    && s.given[i].depth == s.depth;
            &&& option.taking == Taking::Nothing && value is Some ==> r == Err::<
                ReadingView,
                UsageFault,
            >(UsageFault::UnneededValue)
            &&& (option.taking == Taking::One || option.taking == Taking::Nothing && value is None)
                && again ==> r == Err::<ReadingView, UsageFault>(UsageFault::Repeated)
            &&& (option.taking == Taking::Each || option.taking == Taking::Several) ==> r is Ok
            &&& !again && (option.taking != Taking::Nothing || value is None) ==> r is Ok
            &&& r matches Ok(next) ==> {
                &&& next.given.len() == s.given.len() + 1
                &&& next.given.drop_last() == s.given
                &&& next.given.last().option == option
                &&& next.given.last().depth == s.depth
                &&& value is None ==> next.given.last().values.len() == 0
                &&& value matches Some(text) ==> next.given.last().values == seq![text]
                &&& next.places == s.places
                &&& next.path == s.path
            }
        }),
{
    if let Ok(next) = with_option(s, option, value) {
        assert(next.given.drop_last() =~= s.given);
    }
}

/// Behind two hyphens every word is an argument that is known by its place.
pub proof fn two_hyphens_end_the_options(s: ReadingView, word: Seq<char>)
    requires
        !s.trailing,
        !lacks_value(s.given),
    ensures
        after(s, "--"@) matches Ok(next) && next.trailing && next.given == s.given && next.places
            == s.places && next.path == s.path && after(next, word) == after_place(next, word),
{
}

/// An argument that is known by its place is taken where the command has a place left for
/// it, and nowhere before a command.
pub proof fn places_are_filled_in_turn(s: ReadingView, word: Seq<char>)
    ensures
        s.path matches Path::Verb(verb) ==> {
            &&& s.places.len() < places_of(verb).len() ==> (after_place(s, word) matches Ok(next)
                && next.places == s.places.push(word) && next.given == s.given && next.path
                == s.path)
            &&& s.places.len() >= places_of(verb).len() ==> after_place(s, word) == Err::<
                ReadingView,
                UsageFault,
            >(UsageFault::UnexpectedArgument)
        },
        !(s.path is Verb) ==> after_place(s, word) == Err::<ReadingView, UsageFault>(
            UsageFault::UnknownCommand,
        ),
{
}

/// The tables stand in the file that is named last, or in the usual one.
pub proof fn last_file_that_is_named_counts(cli: CliView, given: GivenView)
    requires
        given.option.name@ == "db"@,
        given.values.len() > 0,
    ensures
        (CliView { given: cli.given.push(given), ..cli }).db() == given.values.last(),
        (forall|i: int| 0 <= i < cli.given.len() ==> (#[trigger] cli.given[i]).option.name@ != "db"@)
            ==> cli.db() == DEFAULT_DB@,
{
    assert(cli.given.push(given).drop_last() =~= cli.given);
    if forall|i: int| 0 <= i < cli.given.len() ==> (#[trigger] cli.given[i]).option.name@ != "db"@ {
        if values_named(cli.given, "db"@).len() > 0 {
            let value = values_named(cli.given, "db"@)[0];
            values_are_those_given(cli.given, "db"@, value);
            assert(values_named(cli.given, "db"@).contains(value));
        }
    }
}

/// An option that takes a value lacks one until it is given, one that takes several lacks
/// two, and a flag lacks none. Only the option given last can lack one.
pub proof fn options_lack_these_values(given: Seq<GivenView>, last: GivenView)
    ensures
        !lacks_value(Seq::empty()),
        last.option.taking == Taking::Nothing ==> !lacks_value(given.push(last)),
        last.option.taking == Taking::One || last.option.taking == Taking::Each ==> (lacks_value(
            given.push(last),
        ) <==> last.values.len() == 0),
        last.option.taking == Taking::Several ==> (lacks_value(given.push(last))
            <==> last.values.len() <= 1),
{
}

/// A command line is accepted exactly if its words can be read, come to a command, leave no
/// option without a value, and give values and arguments that the command takes.
pub proof fn lines_that_are_accepted(args: Seq<Seq<char>>)
    ensures
        parsed(args) is Ok <==> (read(words_in(args)) matches Ok(s) && !lacks_value(s.given) && (
        s.path matches Path::Verb(verb) && values_fit(verb, s.places, s.given) && forall|i: int|
            0 <= i < rules_of(verb).len() ==> rule_fault(
                CliView { verb, places: s.places, given: s.given },
                #[trigger] rules_of(verb)[i],
            ) is None)),
        parsed(args) matches Ok(cli) ==> (read(words_in(args)) matches Ok(s) && s.path
            == Path::Verb(cli.verb) && cli.places == s.places && cli.given == s.given),
        args.len() > 0 ==> words_in(args) == args.skip(1),
{
    if let Ok(s) = read(words_in(args)) {
        if let Path::Verb(verb) = s.path {
            let cli = CliView { verb, places: s.places, given: s.given };
            every_rule_counts(cli, rules_of(verb));
        }
    }
}

} // verus!
