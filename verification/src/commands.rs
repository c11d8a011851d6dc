//! The commands of the client: what a line of input asks for and what is answered.

use vstd::prelude::*;

use crate::utils::text;
use crate::utils::text::{chars_of, lossy, owned, push_text, same_text, space};

verus! {

/// A list of words with one more, unless it is empty.
pub open spec fn with_word(list: Seq<Seq<char>>, word: Seq<char>) -> Seq<Seq<char>> {
    if word.len() == 0 {
        list
    } else {
        list.push(word)
    }
}

/// The words of a line that are complete, and the one that may go on.
pub open spec fn split(line: Seq<char>) -> (Seq<Seq<char>>, Seq<char>)
    decreases line.len(),
{
    if line.len() == 0 {
        (Seq::empty(), Seq::empty())
    } else {
        let (done, open) = split(line.drop_last());
        if text::is_space(line.last()) {
            (with_word(done, open), Seq::empty())
        } else {
            (done, open.push(line.last()))
        }
    }
}

/// The words of a line: the longest runs without white space.
pub open spec fn words(line: Seq<char>) -> Seq<Seq<char>> {
    let (done, open) = split(line);
    with_word(done, open)
}

/// What a line asks for, seen as plain values.
#[verifier::ext_equal]
pub enum Request {
    /// Nothing.
    Blank,
    /// To store a value under a key.
    Put {
        /// The key.
        key: Seq<char>,
        /// The value.
        value: Seq<char>,
    },
    /// To look a key up.
    Get {
        /// The key.
        key: Seq<char>,
    },
    /// To end.
    Exit,
    /// Nothing that can be done; this is the answer.
    Refused {
        /// The answer.
        answer: Seq<char>,
    },
}

/// What a line asks for.
pub open spec fn request(line: Seq<char>) -> Request {
    let list = words(line);
    if list.len() == 0 {
        Request::Blank
    } else if list[0] == "put"@ {
        if list.len() < 3 {
            Request::Refused { answer: "Usage: put <key> <value>"@ }
        } else {
            Request::Put { key: list[1], value: list[2] }
        }
    } else if list[0] == "get"@ {
        if list.len() < 2 {
            Request::Refused { answer: "Usage: get <key>"@ }
        } else {
            Request::Get { key: list[1] }
        }
    } else if list[0] == "exit"@ || list[0] == "quit"@ {
        Request::Exit
    } else {
        Request::Refused { answer: "Unknown command: "@ + list[0] }
    }
}

/// What a line asks for.
#[derive(Debug, PartialEq, Eq)]
pub enum Command {
    /// Nothing.
    Blank,
    /// To store a value under a key.
    Put {
        /// The key.
        key: String,
        /// The value.
        value: String,
    },
    /// To look a key up.
    Get {
        /// The key.
        key: String,
    },
    /// To end.
    Exit,
    /// Nothing that can be done; this is the answer.
    Refused {
        /// The answer.
        answer: String,
    },
}

impl View for Command {
    type V = Request;

    open spec fn view(&self) -> Request {
        match self {
            Command::Blank => Request::Blank,
            Command::Put { key, value } => Request::Put { key: key@, value: value@ },
            Command::Get { key } => Request::Get { key: key@ },
            Command::Exit => Request::Exit,
            Command::Refused { answer } => Request::Refused { answer: answer@ },
        }
    }
}

/// The texts of a list.
pub open spec fn texts(list: Seq<String>) -> Seq<Seq<char>> {
    Seq::new(list.len(), |i: int| list[i]@)
}

/// The words of a line.
pub fn split_words(line: &str) -> (r: Vec<String>)
    ensures
        texts(r@) == words(line@),
{
    let chars = chars_of(line);
    let mut done: Vec<String> = Vec::new();
    let mut open = String::new();
    let mut open_len: usize = 0;
    let mut i: usize = 0;
    proof {
        assert(chars@.subrange(0, 0) =~= Seq::empty());
        assert(texts(done@) =~= Seq::empty());
    }
    while i < chars.len()
        invariant
            i <= chars@.len(),
            open_len == open@.len(),
            open_len <= i,
            split(chars@.subrange(0, i as int)) == (texts(done@), open@),
        decreases chars.len() - i,
    {
        let c: char = chars[i];
        let ghost longer = chars@.subrange(0, i + 1);
        assert(longer.drop_last() =~= chars@.subrange(0, i as int));
        if space(c) {
            if open_len > 0 {
                let ghost before = texts(done@);
                let ghost word = open@;
                done.push(open);
                assert(texts(done@) =~= before.push(word));
                open = String::new();
                open_len = 0;
            }
            assert(open@ =~= Seq::empty());
        } else {
            open.push(c);
            open_len = open_len + 1;
        }
        i = i + 1;
    }
    assert(chars@.subrange(0, chars@.len() as int) =~= line@);
    if open_len > 0 {
        let ghost before = texts(done@);
        let ghost word = open@;
        done.push(open);
        assert(texts(done@) =~= before.push(word));
    }
    done
}

/// What a line asks for: `put <key> <value>`, `get <key>`, `exit` or `quit`. Words after
/// those that a command needs are ignored.
pub fn parse_command(line: &str) -> (r: Command)
    ensures
        r@ == request(line@),
{
    let parts = split_words(line);
    let n: usize = parts.len();
    let ghost list = words(line@);
    assert(forall|i: int| 0 <= i < list.len() ==> list[i] == #[trigger] parts@[i]@);
    if n == 0 {
        return Command::Blank;
    }
    let name = parts[0].as_str();
    if same_text(name, "put") {
        if n < 3 {
            return Command::Refused { answer: owned("Usage: put <key> <value>") };
        }
        return Command::Put { key: owned(parts[1].as_str()), value: owned(parts[2].as_str()) };
    }
    if same_text(name, "get") {
        if n < 2 {
            return Command::Refused { answer: owned("Usage: get <key>") };
        }
        return Command::Get { key: owned(parts[1].as_str()) };
    }
    if same_text(name, "exit") || same_text(name, "quit") {
        return Command::Exit;
    }
    let mut answer = owned("Unknown command: ");
    push_text(&mut answer, name);
    Command::Refused { answer }
}

/// The answer to a lookup.
pub fn get_answer(value: Option<&[u8]>) -> (r: String)
    ensures
        r@ == match value {
            Some(bytes) => "Value: "@ + text::lossy_text(bytes@),
            None => "Key not found"@,
        },
{
    match value {
        Some(bytes) => {
            let mut out = owned("Value: ");
            push_text(&mut out, lossy(bytes).as_str());
            out
        },
        None => owned("Key not found"),
    }
}

/// The words one after the other, each with a space behind it.
pub open spec fn spaced(list: Seq<Seq<char>>) -> Seq<char>
    decreases list.len(),
{
    if list.len() == 0 {
        Seq::empty()
    } else {
        spaced(list.drop_last()) + list.last().push(' ')
    }
}

/// A run of characters without white space.
pub open spec fn is_word(word: Seq<char>) -> bool {
    word.len() > 0 && forall|i: int| 0 <= i < word.len() ==> !text::is_space(#[trigger] word[i])
}

/// The complete words of a line do not change when a run without white space follows.
proof fn lemma_run(line: Seq<char>, run: Seq<char>)
    requires
        forall|i: int| 0 <= i < run.len() ==> !text::is_space(#[trigger] run[i]),
    ensures
        split(line + run) == (split(line).0, split(line).1 + run),
    decreases run.len(),
{
    if run.len() == 0 {
        assert(line + run =~= line);
        assert(split(line).1 + run =~= split(line).1);
    } else {
        let shorter = run.drop_last();
        assert forall|i: int| 0 <= i < shorter.len() implies !text::is_space(#[trigger] shorter[i]) by {
            assert(shorter[i] == run[i]);
        }
        lemma_run(line, shorter);
        assert((line + run).drop_last() =~= line + shorter);
        assert(!text::is_space(run[run.len() - 1]));
        assert((split(line).1 + shorter).push(run.last()) =~= split(line).1 + run);
    }
}

/// Words written one after the other with white space between them are read back, however
/// much white space follows.
pub proof fn words_round_trip(list: Seq<Seq<char>>)
    requires
        forall|i: int| 0 <= i < list.len() ==> is_word(#[trigger] list[i]),
    ensures
        split(spaced(list)) == (list, Seq::<char>::empty()),
        words(spaced(list)) == list,
    decreases list.len(),
{
    if list.len() == 0 {
        assert(list =~= Seq::empty());
    } else {
        let shorter = list.drop_last();
        let word = list.last();
        assert forall|i: int| 0 <= i < shorter.len() implies is_word(#[trigger] shorter[i]) by {
            assert(shorter[i] == list[i]);
        }
        words_round_trip(shorter);
        assert(is_word(list[list.len() - 1]));
        let line = spaced(shorter);
        lemma_run(line, word);
        assert(Seq::<char>::empty() + word =~= word);
        let whole = spaced(list);
        assert(whole.drop_last() =~= line + word);
        assert(whole.last() == ' ');
        assert(shorter.push(word) =~= list);
    }
}

/// The words of two lines with white space between them are the words of the first, then those
/// of the second.
pub proof fn words_of_joined_lines(a: Seq<char>, space: char, b: Seq<char>)
    requires
        text::is_space(space),
    ensures
        words(a.push(space) + b) == words(a) + words(b),
{
    lemma_after_space(a, space, b);
    let (done, open) = split(b);
    assert(with_word(words(a) + done, open) =~= words(a) + with_word(done, open));
}

proof fn lemma_after_space(a: Seq<char>, space: char, b: Seq<char>)
    requires
        text::is_space(space),
    ensures
        split(a.push(space) + b) == (words(a) + split(b).0, split(b).1),
    decreases b.len(),
{
    let line = a.push(space);
    if b.len() == 0 {
        assert(line + b =~= line);
        assert(line.drop_last() =~= a);
        assert(words(a) + split(b).0 =~= words(a));
    } else {
        let shorter = b.drop_last();
        lemma_after_space(a, space, shorter);
        assert((line + b).drop_last() =~= line + shorter);
        let (done, open) = split(shorter);
        assert(with_word(words(a) + done, open) =~= words(a) + with_word(done, open));
    }
}

/// A line without white space is one word, and an empty line has none.
pub proof fn run_is_one_word(line: Seq<char>)
    requires
        forall|i: int| 0 <= i < line.len() ==> !text::is_space(#[trigger] line[i]),
    ensures
        line.len() == 0 ==> words(line) == Seq::<Seq<char>>::empty(),
        line.len() > 0 ==> words(line) == seq![line],
{
    let none = Seq::<char>::empty();
    lemma_run(none, line);
    assert(none + line =~= line);
}

/// What a line asks for, by its words. The first says what: `put` with a key and a value stores
/// it, `get` with a key looks it up, `exit` and `quit` end; words that follow change nothing. A
/// line without words asks for nothing, and any other line is refused.
pub proof fn first_word_says_what_is_asked_for(line: Seq<char>)
    ensures
        ({
            let list = words(line);
            let first = list[0];
            let asked = request(line);
            &&& list.len() == 0 <==> asked == Request::Blank
            &&& list.len() >= 3 && first == "put"@ ==> asked == Request::Put {
                key: list[1],
                value: list[2],
            }
            &&& list.len() >= 2 && first == "get"@ ==> asked == Request::Get { key: list[1] }
            &&& list.len() >= 1 && (first == "exit"@ || first == "quit"@) ==> asked
                == Request::Exit
            &&& 1 <= list.len() < 3 && first == "put"@ ==> asked is Refused
            &&& list.len() == 1 && first == "get"@ ==> asked is Refused
            &&& list.len() >= 1 && first != "put"@ && first != "get"@ && first != "exit"@ && first
                != "quit"@ ==> asked is Refused
        }),
{
    lemma_command_names();
}

/// The names of commands differ.
proof fn lemma_command_names()
    ensures
        "put"@ != "get"@,
        "put"@ != "exit"@,
        "put"@ != "quit"@,
        "get"@ != "exit"@,
        "get"@ != "quit"@,
{
    reveal_strlit("put");
    reveal_strlit("get");
    reveal_strlit("exit");
    reveal_strlit("quit");
    assert("put"@[0] == 'p');
    assert("get"@[0] == 'g');
    assert("exit"@[0] == 'e');
    assert("quit"@[0] == 'q');
}

/// Every word of a line is a run without white space.
pub proof fn words_are_runs(line: Seq<char>, i: int)
    requires
        0 <= i < words(line).len(),
    ensures
        is_word(words(line)[i]),
{
    lemma_runs(line);
    let (done, open) = split(line);
    if i < done.len() {
        assert(words(line)[i] == done[i]);
    }
}

proof fn lemma_runs(line: Seq<char>)
    ensures
        forall|i: int| 0 <= i < split(line).0.len() ==> is_word(#[trigger] split(line).0[i]),
        forall|i: int| 0 <= i < split(line).1.len() ==> !text::is_space(#[trigger] split(line).1[i]),
    decreases line.len(),
{
    if line.len() > 0 {
        lemma_runs(line.drop_last());
        let (done, open) = split(line.drop_last());
        let (now, rest) = split(line);
        assert forall|i: int| 0 <= i < now.len() implies is_word(#[trigger] now[i]) by {
            if i < done.len() {
                assert(now[i] == done[i]);
            }
        }
        assert forall|i: int| 0 <= i < rest.len() implies !text::is_space(#[trigger] rest[i]) by {
            if i < open.len() {
                assert(rest[i] == open[i]);
            }
        }
    }
}

} // verus!
