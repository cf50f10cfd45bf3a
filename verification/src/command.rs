//! The commands that chat messages give the bot.
use vstd::prelude::*;

use crate::numbers::{parse_usize, spec_parse_usize};
use crate::text::{
    lemma_split_concat, lemma_split_no_sep, same_text, split_char, split_spec, views_of,
};

verus! {

/// A chat message read as a command.
#[derive(Debug, Clone)]
pub enum Command {
    /// `$expr expr ...`: evaluate the space-separated expressions.
    Evaluate(String),
    /// `!help` or `!h`.
    Help,
    /// `!watch expression threshold` (or `!w`).
    Watch { expression: String, threshold: String },
    /// `!ls`, `!l` or `!list`.
    List,
    /// `!rm index`, `!remove index` or `!r index`.
    Remove(usize),
    /// `!graph range expression...` (or `!g`).
    Graph { range: String, expressions: Vec<String> },
    /// A known command whose arguments are missing or unreadable.
    Invalid,
    /// Anything else: the bot does not answer.
    Ignore,
}

/// The mathematical view of a command.
pub enum CommandView {
    Evaluate(Seq<char>),
    Help,
    Watch { expression: Seq<char>, threshold: Seq<char> },
    List,
    Remove(usize),
    Graph { range: Seq<char>, expressions: Seq<Seq<char>> },
    Invalid,
    Ignore,
}

impl View for Command {
    type V = CommandView;

    open spec fn view(&self) -> CommandView {
        match self {
            Command::Evaluate(s) => CommandView::Evaluate(s@),
            Command::Help => CommandView::Help,
            Command::Watch { expression, threshold } => CommandView::Watch {
                expression: expression@,
                threshold: threshold@,
            },
            Command::List => CommandView::List,
            Command::Remove(n) => CommandView::Remove(*n),
            Command::Graph { range, expressions } => CommandView::Graph {
                range: range@,
                expressions: views_of(expressions@),
            },
            Command::Invalid => CommandView::Invalid,
            Command::Ignore => CommandView::Ignore,
        }
    }
}

pub open spec fn is_help_word(w: Seq<char>) -> bool {
    w == seq!['h', 'e', 'l', 'p'] || w == seq!['h']
}

pub open spec fn is_watch_word(w: Seq<char>) -> bool {
    w == seq!['w', 'a', 't', 'c', 'h'] || w == seq!['w']
}

pub open spec fn is_list_word(w: Seq<char>) -> bool {
    w == seq!['l', 's'] || w == seq!['l'] || w == seq!['l', 'i', 's', 't']
}

pub open spec fn is_remove_word(w: Seq<char>) -> bool {
    w == seq!['r', 'm'] || w == seq!['r', 'e', 'm', 'o', 'v', 'e'] || w == seq!['r']
}

pub open spec fn is_graph_word(w: Seq<char>) -> bool {
    w == seq!['g', 'r', 'a', 'p', 'h'] || w == seq!['g']
}

/// The command that the space-separated words after `!` give.
pub open spec fn bang_command(w: Seq<Seq<char>>) -> CommandView {
    let k = w[0];
    if is_help_word(k) {
        CommandView::Help
    } else if is_watch_word(k) {
        if w.len() >= 3 {
            CommandView::Watch { expression: w[1], threshold: w[2] }
        } else {
            CommandView::Invalid
        }
    } else if is_list_word(k) {
        CommandView::List
    } else if is_remove_word(k) {
        if w.len() >= 2 {
            match spec_parse_usize(w[1]) {
                Some(n) => CommandView::Remove(n),
                None => CommandView::Invalid,
            }
        } else {
            CommandView::Invalid
        }
    } else if is_graph_word(k) {
        if w.len() >= 2 {
            CommandView::Graph { range: w[1], expressions: w.skip(2) }
        } else {
            CommandView::Invalid
        }
    } else {
        CommandView::Ignore
    }
}

/// The command that a message gives: after `$`, the rest is evaluated;
/// after `!`, the rest is split at spaces and its first word names the
/// command.
pub open spec fn command_of(content: Seq<char>) -> CommandView {
    if content.len() > 0 && content[0] == '$' {
        CommandView::Evaluate(content.drop_first())
    } else if content.len() > 0 && content[0] == '!' {
        bang_command(split_spec(content.drop_first(), ' '))
    } else {
        CommandView::Ignore
    }
}

/// Whether `w` is one of the (at most three) given words.
fn is_one_of(w: &str, a: &str, b: &str, c: &str) -> (r: bool)
    ensures
        r == (w@ == a@ || w@ == b@ || w@ == c@),
{
    same_text(w, a) || same_text(w, b) || same_text(w, c)
}

/// The words after `!`, read as a command.
fn parse_bang(words: Vec<String>) -> (r: Command)
    requires
        words@.len() >= 1,
    ensures
        r@ == bang_command(views_of(words@)),
{
    let ghost w = views_of(words@);
    assert(w[0] == words@[0]@);
    let k = words[0].as_str();
    proof {
        reveal_strlit("help");
        reveal_strlit("h");
        reveal_strlit("watch");
        reveal_strlit("w");
        reveal_strlit("ls");
        reveal_strlit("l");
        reveal_strlit("list");
        reveal_strlit("rm");
        reveal_strlit("remove");
        reveal_strlit("r");
        reveal_strlit("graph");
        reveal_strlit("g");
        assert("help"@ =~= seq!['h', 'e', 'l', 'p']);
        assert("h"@ =~= seq!['h']);
        assert("watch"@ =~= seq!['w', 'a', 't', 'c', 'h']);
        assert("w"@ =~= seq!['w']);
        assert("ls"@ =~= seq!['l', 's']);
        assert("l"@ =~= seq!['l']);
        assert("list"@ =~= seq!['l', 'i', 's', 't']);
        assert("rm"@ =~= seq!['r', 'm']);
        assert("remove"@ =~= seq!['r', 'e', 'm', 'o', 'v', 'e']);
        assert("r"@ =~= seq!['r']);
        assert("graph"@ =~= seq!['g', 'r', 'a', 'p', 'h']);
        assert("g"@ =~= seq!['g']);
    }
    if is_one_of(k, "help", "h", "h") {
        Command::Help
    } else if is_one_of(k, "watch", "w", "w") {
        if words.len() >= 3 {
            assert(w[1] == words@[1]@ && w[2] == words@[2]@);
            Command::Watch { expression: words[1].clone(), threshold: words[2].clone() }
        } else {
            Command::Invalid
        }
    } else if is_one_of(k, "ls", "l", "list") {
        Command::List
    } else if is_one_of(k, "rm", "remove", "r") {
        if words.len() >= 2 {
            assert(w[1] == words@[1]@);
            match parse_usize(words[1].as_str()) {
                Some(n) => Command::Remove(n),
                None => Command::Invalid,
            }
        } else {
            Command::Invalid
        }
    } else if is_one_of(k, "graph", "g", "g") {
        if words.len() >= 2 {
            assert(w[1] == words@[1]@);
            let range = words[1].clone();
            let mut expressions: Vec<String> = Vec::new();
            let n = words.len();
            let mut i: usize = 2;
            assert(views_of(expressions@) =~= w.subrange(2, 2));
            while i < n
                invariant
                    n == words@.len(),
                    2 <= i <= n,
                    w == views_of(words@),
                    views_of(expressions@) == w.subrange(2, i as int),
                decreases n - i,
            {
                let ghost before = expressions@;
                expressions.push(words[i].clone());
                assert(views_of(expressions@) =~= views_of(before).push(words@[i as int]@));
                assert(w.subrange(2, i + 1) =~= w.subrange(2, i as int).push(w[i as int]));
                i = i + 1;
            }
            assert(w.subrange(2, n as int) =~= w.skip(2));
            Command::Graph { range, expressions }
        } else {
            Command::Invalid
        }
    } else {
        Command::Ignore
    }
}

/// Reads a chat message as a command.
pub fn parse_command(content: &str) -> (r: Command)
    ensures
        r@ == command_of(content@),
{
    let n = content.unicode_len();
    if n == 0 {
        return Command::Ignore;
    }
    let first = content.get_char(0);
    let rest = content.substring_char(1, n);
    assert(rest@ =~= content@.drop_first());
    if first == '$' {
        Command::Evaluate(String::from_str(rest))
    } else if first == '!' {
        let words = split_char(rest, ' ');
        proof {
            crate::text::lemma_split_nonempty(rest@, ' ');
        }
        parse_bang(words)
    } else {
        Command::Ignore
    }
}


/// The message `!WORD ARGS`: a command word, a space, then its arguments.
pub open spec fn bang_message(word: Seq<char>, args: Seq<char>) -> Seq<char> {
    seq!['!'] + word + seq![' '] + args
}

/// The words of `!WORD ARGS` after the `!`: the command word, then the
/// words of the arguments.
proof fn lemma_bang_words(word: Seq<char>, args: Seq<char>)
    requires
        forall|i: int| 0 <= i < word.len() ==> #[trigger] word[i] != ' ',
    ensures
        split_spec(bang_message(word, args).drop_first(), ' ') == seq![word] + split_spec(
            args,
            ' ',
        ),
        split_spec(args, ' ').len() >= 1,
{
    assert(bang_message(word, args).drop_first() =~= word + seq![' '] + args);
    lemma_split_concat(word, args, ' ');
    lemma_split_no_sep(word, ' ');
    crate::text::lemma_split_nonempty(args, ' ');
}

/// A message `!WORD ARGS` gives the command that its word and the words
/// of its arguments give.
proof fn lemma_bang_command(word: Seq<char>, args: Seq<char>)
    requires
        forall|i: int| 0 <= i < word.len() ==> #[trigger] word[i] != ' ',
    ensures
        command_of(bang_message(word, args)) == bang_command(seq![word] + split_spec(args, ' ')),
        (seq![word] + split_spec(args, ' '))[0] == word,
        (seq![word] + split_spec(args, ' ')).len() == split_spec(args, ' ').len() + 1,
        (seq![word] + split_spec(args, ' ')).skip(2) == split_spec(args, ' ').skip(1),
        forall|k: int|
            0 <= k < split_spec(args, ' ').len() ==> (seq![word] + split_spec(args, ' '))[k + 1]
                == #[trigger] split_spec(args, ' ')[k],
{
    lemma_bang_words(word, args);
    assert(bang_message(word, args)[0] == '!');
    assert((seq![word] + split_spec(args, ' ')).skip(2) =~= split_spec(args, ' ').skip(1));
}

/// `!help` and `!h` ask for help, whatever follows.
pub proof fn law_help_words(args: Seq<char>)
    ensures
        command_of(bang_message(seq!['h', 'e', 'l', 'p'], args)) == CommandView::Help,
        command_of(bang_message(seq!['h'], args)) == CommandView::Help,
{
    lemma_bang_command(seq!['h', 'e', 'l', 'p'], args);
    lemma_bang_command(seq!['h'], args);
}

/// `!watch` and `!w` watch the first argument with the second as the
/// threshold; with fewer than two arguments the command is invalid.
pub proof fn law_watch_words(args: Seq<char>)
    ensures
        ({
            let a = split_spec(args, ' ');
            let expected = if a.len() >= 2 {
                CommandView::Watch { expression: a[0], threshold: a[1] }
            } else {
                CommandView::Invalid
            };
            &&& command_of(bang_message(seq!['w', 'a', 't', 'c', 'h'], args)) == expected
            &&& command_of(bang_message(seq!['w'], args)) == expected
        }),
{
    let watch = seq!['w', 'a', 't', 'c', 'h'];
    lemma_bang_command(watch, args);
    lemma_bang_command(seq!['w'], args);
    assert(watch != seq!['h', 'e', 'l', 'p'] && watch != seq!['h']) by {
        assert(watch[0] != 'h');
    }
    assert(seq!['w'] != seq!['h', 'e', 'l', 'p'] && seq!['w'] != seq!['h']) by {
        assert(seq!['w'][0] != 'h');
    }
}

/// `!list`, `!ls` and `!l` list the watches, whatever follows.
pub proof fn law_list_words(args: Seq<char>)
    ensures
        command_of(bang_message(seq!['l', 'i', 's', 't'], args)) == CommandView::List,
        command_of(bang_message(seq!['l', 's'], args)) == CommandView::List,
        command_of(bang_message(seq!['l'], args)) == CommandView::List,
{
    let list = seq!['l', 'i', 's', 't'];
    let ls = seq!['l', 's'];
    let l = seq!['l'];
    lemma_bang_command(list, args);
    lemma_bang_command(ls, args);
    lemma_bang_command(l, args);
    assert(list[0] == 'l' && ls[0] == 'l' && l[0] == 'l');
    assert(seq!['h', 'e', 'l', 'p'][0] == 'h' && seq!['h'][0] == 'h');
    assert(seq!['w', 'a', 't', 'c', 'h'][0] == 'w' && seq!['w'][0] == 'w');
}

/// `!remove`, `!rm` and `!r` remove the watch that the first argument
/// numbers; the command is invalid when that is not a number.
pub proof fn law_remove_words(args: Seq<char>)
    ensures
        ({
            let a = split_spec(args, ' ');
            let expected = match spec_parse_usize(a[0]) {
                Some(n) => CommandView::Remove(n),
                None => CommandView::Invalid,
            };
            &&& command_of(bang_message(seq!['r', 'e', 'm', 'o', 'v', 'e'], args)) == expected
            &&& command_of(bang_message(seq!['r', 'm'], args)) == expected
            &&& command_of(bang_message(seq!['r'], args)) == expected
        }),
{
    let remove = seq!['r', 'e', 'm', 'o', 'v', 'e'];
    let rm = seq!['r', 'm'];
    let r = seq!['r'];
    lemma_bang_command(remove, args);
    lemma_bang_command(rm, args);
    lemma_bang_command(r, args);
    crate::text::lemma_split_nonempty(args, ' ');
    assert(remove[0] == 'r' && rm[0] == 'r' && r[0] == 'r');
    assert(seq!['h', 'e', 'l', 'p'][0] == 'h' && seq!['h'][0] == 'h');
    assert(seq!['w', 'a', 't', 'c', 'h'][0] == 'w' && seq!['w'][0] == 'w');
    assert(seq!['l', 'i', 's', 't'][0] == 'l' && seq!['l', 's'][0] == 'l' && seq!['l'][0] == 'l');
}

/// `!graph` and `!g` graph the arguments after the first over the range
/// that the first gives.
pub proof fn law_graph_words(args: Seq<char>)
    ensures
        ({
            let a = split_spec(args, ' ');
            let expected = CommandView::Graph { range: a[0], expressions: a.skip(1) };
            &&& command_of(bang_message(seq!['g', 'r', 'a', 'p', 'h'], args)) == expected
            &&& command_of(bang_message(seq!['g'], args)) == expected
        }),
{
    let graph = seq!['g', 'r', 'a', 'p', 'h'];
    let g = seq!['g'];
    lemma_bang_command(graph, args);
    lemma_bang_command(g, args);
    crate::text::lemma_split_nonempty(args, ' ');
    assert(graph[0] == 'g' && g[0] == 'g');
    assert(seq!['h', 'e', 'l', 'p'][0] == 'h' && seq!['h'][0] == 'h');
    assert(seq!['w', 'a', 't', 'c', 'h'][0] == 'w' && seq!['w'][0] == 'w');
    assert(seq!['l', 'i', 's', 't'][0] == 'l' && seq!['l', 's'][0] == 'l' && seq!['l'][0] == 'l');
    assert(seq!['r', 'e', 'm', 'o', 'v', 'e'][0] == 'r' && seq!['r', 'm'][0] == 'r' && seq!['r'][0]
        == 'r');
}

} // verus!
