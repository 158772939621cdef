//! Parsing of interactive commands: the line a user types, split on
//! whitespace, becomes one of the command variants or an error message.
//! Running the commands does I/O and belongs to the surrounding program;
//! only the parsing lives here.

use vstd::prelude::*;
use crate::component::str_eq;

verus! {

/// Which cache a command addresses: the merged data or the template
/// registry.
#[derive(Debug, PartialEq, Eq, Structural)]
pub enum Type {
    Data,
    TemplateRegistry,
}

/// A parsed interactive command.
#[derive(Debug)]
pub enum ReplCommand {
    Add(Type, Vec<String>),
    Reset(Type),
    View(Type, String),
    Render(String),
    ChangeDirectory(String),
    Pwd,
    Help,
    Exit,
}

/// The mathematical form of a parsed command.
pub enum ReplCommandView {
    Add(Type, Seq<Seq<char>>),
    Reset(Type),
    View(Type, Seq<char>),
    Render(Seq<char>),
    ChangeDirectory(Seq<char>),
    Pwd,
    Help,
    Exit,
}

/// A failure while reading or evaluating a command.
pub enum ReplError<'s> {
    ReadError(&'s str),
    EvalError(&'s str),
}

/// The character-sequence views of a vector of strings.
pub open spec fn string_views(ws: Seq<String>) -> Seq<Seq<char>> {
    Seq::new(ws.len(), |i: int| ws[i]@)
}

pub proof fn lemma_string_views_push(ws: Seq<String>, w: String)
    ensures
        string_views(ws.push(w)) == string_views(ws).push(w@),
{
    assert(string_views(ws.push(w)) =~= string_views(ws).push(w@));
}

impl View for ReplCommand {
    type V = ReplCommandView;

    open spec fn view(&self) -> ReplCommandView {
        match self {
            ReplCommand::Add(t, paths) => ReplCommandView::Add(*t, string_views(paths@)),
            ReplCommand::Reset(t) => ReplCommandView::Reset(*t),
            ReplCommand::View(t, key) => ReplCommandView::View(*t, key@),
            ReplCommand::Render(key) => ReplCommandView::Render(key@),
            ReplCommand::ChangeDirectory(p) => ReplCommandView::ChangeDirectory(p@),
            ReplCommand::Pwd => ReplCommandView::Pwd,
            ReplCommand::Help => ReplCommandView::Help,
            ReplCommand::Exit => ReplCommandView::Exit,
        }
    }
}

/// The Unicode `White_Space` characters: what splitting a line into words
/// treats as a separator.
pub open spec fn is_space(c: char) -> bool {
    ||| c == '\t'
    ||| c == '\n'
    ||| c == '\u{0B}'
    ||| c == '\u{0C}'
    ||| c == '\r'
    ||| c == ' '
    ||| c == '\u{85}'
    ||| c == '\u{A0}'
    ||| c == '\u{1680}'
    ||| c == '\u{2000}'
    ||| c == '\u{2001}'
    ||| c == '\u{2002}'
    ||| c == '\u{2003}'
    ||| c == '\u{2004}'
    ||| c == '\u{2005}'
    ||| c == '\u{2006}'
    ||| c == '\u{2007}'
    ||| c == '\u{2008}'
    ||| c == '\u{2009}'
    ||| c == '\u{200A}'
    ||| c == '\u{2028}'
    ||| c == '\u{2029}'
    ||| c == '\u{202F}'
    ||| c == '\u{205F}'
    ||| c == '\u{3000}'
}

fn is_space_char(c: char) -> (r: bool)
    ensures
        r == is_space(c),
{
    c == '\t' || c == '\n' || c == '\u{0B}' || c == '\u{0C}' || c == '\r' || c == ' '
        || c == '\u{85}' || c == '\u{A0}' || c == '\u{1680}' || c == '\u{2000}'
        || c == '\u{2001}' || c == '\u{2002}' || c == '\u{2003}' || c == '\u{2004}'
        || c == '\u{2005}' || c == '\u{2006}' || c == '\u{2007}' || c == '\u{2008}'
        || c == '\u{2009}' || c == '\u{200A}' || c == '\u{2028}' || c == '\u{2029}'
        || c == '\u{202F}' || c == '\u{205F}' || c == '\u{3000}'
}

/// Index of the first whitespace character in `s`, or `s.len()` if none.
pub open spec fn first_space(s: Seq<char>) -> nat
    decreases s.len(),
{
    if s.len() == 0 {
        0
    } else if is_space(s[0]) {
        0
    } else {
        1 + first_space(s.skip(1))
    }
}

pub proof fn lemma_first_space_bounds(s: Seq<char>)
    ensures
        first_space(s) <= s.len(),
    decreases s.len(),
{
    if s.len() == 0 {
    } else if is_space(s[0]) {
    } else {
        lemma_first_space_bounds(s.skip(1));
    }
}

pub proof fn lemma_first_space_is(s: Seq<char>, m: int)
    requires
        0 <= m <= s.len(),
        forall|k: int| 0 <= k < m ==> !is_space(s[k]),
        m < s.len() ==> is_space(s[m]),
    ensures
        first_space(s) == m,
    decreases s.len(),
{
    if m == 0 {
    } else {
        assert forall|k: int| 0 <= k < m - 1 implies !is_space(s.skip(1)[k]) by {
            assert(s.skip(1)[k] == s[k + 1]);
        }
        if m - 1 < s.len() - 1 {
            assert(s.skip(1)[m - 1] == s[m]);
        }
        lemma_first_space_is(s.skip(1), m - 1);
    }
}

/// The whitespace-separated words of a line, in order, empty words dropped.
pub open spec fn spec_words(s: Seq<char>) -> Seq<Seq<char>>
    decreases s.len(),
    via spec_words_decreases
{
    if s.len() == 0 {
        Seq::empty()
    } else if is_space(s[0]) {
        spec_words(s.skip(1))
    } else {
        let k = first_space(s);
        seq![s.take(k as int)] + spec_words(s.skip(k as int))
    }
}

#[via_fn]
proof fn spec_words_decreases(s: Seq<char>) {
    if s.len() > 0 && !is_space(s[0]) {
        lemma_first_space_bounds(s);
    }
}

/// Split a line into its whitespace-separated words.
pub fn split_words(s: &str) -> (words: Vec<String>)
    ensures
        string_views(words@) == spec_words(s@),
{
    let n = s.unicode_len();
    let mut words: Vec<String> = Vec::new();
    let mut i: usize = 0;
    proof {
        assert(s@.skip(0) =~= s@);
        assert(string_views(words@) =~= Seq::<Seq<char>>::empty());
    }
    while i < n
        invariant
            n == s@.len(),
            i <= n,
            spec_words(s@) == string_views(words@) + spec_words(s@.skip(i as int)),
        decreases n - i,
    {
        if is_space_char(s.get_char(i)) {
            proof {
                assert(s@.skip(i as int)[0] == s@[i as int]);
                assert(s@.skip(i as int).skip(1) =~= s@.skip(i + 1));
            }
            i += 1;
        } else {
            let start = i;
            i += 1;
            while i < n && !is_space_char(s.get_char(i))
                invariant
                    n == s@.len(),
                    start < i <= n,
                    forall|k: int| start <= k < i ==> !is_space(s@[k]),
                decreases n - i,
            {
                i += 1;
            }
            let w = s.substring_char(start, i);
            let ghost prev = words@;
            words.push(String::from_str(w));
            proof {
                let tail = s@.skip(start as int);
                assert forall|k: int| 0 <= k < i - start implies !is_space(tail[k]) by {
                    assert(tail[k] == s@[start + k]);
                }
                if i < n {
                    assert(tail[i - start] == s@[i as int]);
                }
                lemma_first_space_is(tail, i - start);
                assert(tail.take(i - start) =~= s@.subrange(start as int, i as int));
                assert(tail.skip(i - start) =~= s@.skip(i as int));
                lemma_string_views_push(prev, words@.last());
                assert(string_views(prev) + (seq![w@] + spec_words(s@.skip(i as int)))
                    =~= string_views(prev).push(w@) + spec_words(s@.skip(i as int)));
            }
        }
    }
    proof {
        assert(s@.skip(n as int) =~= Seq::<char>::empty());
        assert(string_views(words@) + Seq::<Seq<char>>::empty() =~= string_views(words@));
    }
    words
}

/// Which cache a keyword names.
pub open spec fn spec_parse_type(w: Seq<char>) -> Result<Type, Seq<char>> {
    if w == "data"@ {
        Ok(Type::Data)
    } else if w == "templates"@ || w == "template"@ {
        Ok(Type::TemplateRegistry)
    } else {
        Err("No such keyword as "@ + w)
    }
}

/// The command denoted by a line: its first word picks the variant, the
/// following words supply the arguments, and a missing or unknown word is
/// an error message.
pub open spec fn spec_parse_command(line: Seq<char>) -> Result<ReplCommandView, Seq<char>> {
    let ws = spec_words(line);
    if ws.len() == 0 {
        Err("No command given."@)
    } else if ws[0] == "add"@ {
        if ws.len() < 2 {
            Err("No subcommand given."@)
        } else {
            match spec_parse_type(ws[1]) {
                Ok(t) => Ok(ReplCommandView::Add(t, ws.skip(2))),
                Err(e) => Err(e),
            }
        }
    } else if ws[0] == "reset"@ {
        if ws.len() < 2 {
            Err("No subcommand given."@)
        } else {
            match spec_parse_type(ws[1]) {
                Ok(t) => Ok(ReplCommandView::Reset(t)),
                Err(e) => Err(e),
            }
        }
    } else if ws[0] == "view"@ {
        if ws.len() < 2 {
            Err("No subcommand given"@)
        } else {
            match spec_parse_type(ws[1]) {
                Ok(t) => if ws.len() < 3 {
                    Err("No key given."@)
                } else {
                    Ok(ReplCommandView::View(t, ws[2]))
                },
                Err(e) => Err(e),
            }
        }
    } else if ws[0] == "render"@ {
        if ws.len() < 2 {
            Err("No key given."@)
        } else {
            Ok(ReplCommandView::Render(ws[1]))
        }
    } else if ws[0] == "cd"@ {
        if ws.len() < 2 {
            Err("No path given."@)
        } else {
            Ok(ReplCommandView::ChangeDirectory(ws[1]))
        }
    } else if ws[0] == "pwd"@ {
        Ok(ReplCommandView::Pwd)
    } else if ws[0] == "help"@ || ws[0] == "?"@ {
        Ok(ReplCommandView::Help)
    } else if ws[0] == "exit"@ {
        Ok(ReplCommandView::Exit)
    } else {
        Err("No such keyword as \""@ + line + "\""@)
    }
}

impl Type {
    /// Parse a cache keyword.
    pub fn try_from(string: &str) -> (r: Result<Type, String>)
        ensures
            match r {
                Ok(t) => spec_parse_type(string@) == Ok::<Type, Seq<char>>(t),
                Err(e) => spec_parse_type(string@) == Err::<Type, Seq<char>>(e@),
            },
    {
        if str_eq(string, "data") {
            Ok(Type::Data)
        } else if str_eq(string, "templates")
            || str_eq(string, "template") {
            Ok(Type::TemplateRegistry)
        } else {
            let mut msg = String::from_str("No such keyword as ");
            msg.append(string);
            Err(msg)
        }
    }
}

impl ReplCommand {
    /// Parse one input line into a command.
    pub fn try_from(line: &str) -> (r: Result<ReplCommand, String>)
        ensures
            match r {
                Ok(c) => spec_parse_command(line@) == Ok::<ReplCommandView, Seq<char>>(c@),
                Err(e) => spec_parse_command(line@) == Err::<ReplCommandView, Seq<char>>(e@),
            },
    {
        let words = split_words(line);
        let ghost ws = spec_words(line@);
        if words.len() == 0 {
            return Err(String::from_str("No command given."));
        }
        proof {
            assert(ws[0] == words@[0]@);
        }
        let command = words[0].as_str();
        if str_eq(command, "add") {
            if words.len() < 2 {
                return Err(String::from_str("No subcommand given."));
            }
            proof {
                assert(ws[1] == words@[1]@);
            }
            match Type::try_from(words[1].as_str()) {
                Ok(t) => {
                    let mut paths: Vec<String> = Vec::new();
                    let n = words.len();
                    let mut k: usize = 2;
                    proof {
                        assert(string_views(paths@) =~= ws.subrange(2, 2));
                    }
                    while k < n
                        invariant
                            n == words@.len(),
                            ws == string_views(words@),
                            2 <= k <= n,
                            string_views(paths@) == ws.subrange(2, k as int),
                        decreases n - k,
                    {
                        let ghost prev = paths@;
                        paths.push(String::from_str(words[k].as_str()));
                        proof {
                            lemma_string_views_push(prev, paths@.last());
                            assert(ws.subrange(2, k as int).push(words@[k as int]@)
                                =~= ws.subrange(2, k + 1));
                        }
                        k += 1;
                    }
                    proof {
                        assert(ws.subrange(2, n as int) =~= ws.skip(2));
                    }
                    Ok(ReplCommand::Add(t, paths))
                },
                Err(e) => Err(e),
            }
        } else if str_eq(command, "reset") {
            if words.len() < 2 {
                return Err(String::from_str("No subcommand given."));
            }
            proof {
                assert(ws[1] == words@[1]@);
            }
            match Type::try_from(words[1].as_str()) {
                Ok(t) => Ok(ReplCommand::Reset(t)),
                Err(e) => Err(e),
            }
        } else if str_eq(command, "view") {
            if words.len() < 2 {
                return Err(String::from_str("No subcommand given"));
            }
            proof {
                assert(ws[1] == words@[1]@);
            }
            match Type::try_from(words[1].as_str()) {
                Ok(t) => {
                    if words.len() < 3 {
                        return Err(String::from_str("No key given."));
                    }
                    proof {
                        assert(ws[2] == words@[2]@);
                    }
                    Ok(ReplCommand::View(t, String::from_str(words[2].as_str())))
                },
                Err(e) => Err(e),
            }
        } else if str_eq(command, "render") {
            if words.len() < 2 {
                return Err(String::from_str("No key given."));
            }
            proof {
                assert(ws[1] == words@[1]@);
            }
            Ok(ReplCommand::Render(String::from_str(words[1].as_str())))
        } else if str_eq(command, "cd") {
            if words.len() < 2 {
                return Err(String::from_str("No path given."));
            }
            proof {
                assert(ws[1] == words@[1]@);
            }
            Ok(ReplCommand::ChangeDirectory(String::from_str(words[1].as_str())))
        } else if str_eq(command, "pwd") {
            Ok(ReplCommand::Pwd)
        } else if str_eq(command, "help") || str_eq(command, "?") {
            Ok(ReplCommand::Help)
        } else if str_eq(command, "exit") {
            Ok(ReplCommand::Exit)
        } else {
            let mut msg = String::from_str("No such keyword as \"");
            msg.append(line);
            msg.append("\"");
            Err(msg)
        }
    }
}

} // verus!
