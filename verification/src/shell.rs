//! The bridge to the command executor, as far as the broker sees it: the
//! task that a worker submits, how a command line is cut into program and
//! arguments, and how the output of the process becomes the lines of the
//! reply. Running the process is left to the caller.

use crate::Message;
use vstd::prelude::*;
use vstd::slice::slice_subrange;
use vstd::string::StrSliceExecFns;
use vstd::string::StringExecFns;
use vstd::string::StringSliceAdditionalSpecFns;
use vstd::utf8::{decode_utf8, encode_utf8, valid_utf8};

verus! {

/// A command to run for `user`. The result goes back to the worker
/// `reply_to` as a `TaskFinished` message.
#[derive(Debug, Clone, PartialEq, Eq)]
pub struct Task {
    pub user: String,
    pub cmd: String,
    pub reply_to: usize,
}

/// Whether a character is white space: one of the code points with the
/// Unicode property `White_Space`.
pub open spec fn is_space(c: char) -> bool {
    let u = c as u32;
    ||| 0x09 <= u <= 0x0d
    ||| u == 0x20
    ||| u == 0x85
    ||| u == 0xa0
    ||| u == 0x1680
    ||| 0x2000 <= u <= 0x200a
    ||| u == 0x2028
    ||| u == 0x2029
    ||| u == 0x202f
    ||| u == 0x205f
    ||| u == 0x3000
}

/// The text that `String::from_utf8_lossy` makes of bytes.
pub uninterp spec fn lossy_text(bytes: Seq<u8>) -> Seq<char>;

/// Calls `char::is_whitespace`: trusted to tell the characters that have the
/// property `White_Space`, which `is_space` lists.
#[verifier::external_body]
fn is_whitespace(c: char) -> (b: bool)
    ensures
        b == is_space(c),
{
    c.is_whitespace()
}

/// Calls `String::from_utf8_lossy`; its result is what `lossy_text` names.
/// Bytes that are valid UTF-8 are trusted to come back as the text they
/// encode, as the function's documentation says.
#[verifier::external_body]
fn from_utf8_lossy(bytes: &[u8]) -> (s: String)
    ensures
        s@ == lossy_text(bytes@),
        valid_utf8(bytes@) ==> s@ == decode_utf8(bytes@),
{
    String::from_utf8_lossy(bytes).into_owned()
}

/// The length of the run of characters at the start of `s` that are not
/// white space.
pub open spec fn word_len(s: Seq<char>) -> nat
    decreases s.len(),
{
    if s.len() == 0 || is_space(s[0]) {
        0
    } else {
        1 + word_len(s.skip(1))
    }
}

/// The words of `s`: its longest runs of characters that are not white
/// space, in order.
pub open spec fn tokens(s: Seq<char>) -> Seq<Seq<char>>
    decreases s.len(),
{
    if s.len() == 0 {
        Seq::empty()
    } else if is_space(s[0]) {
        tokens(s.skip(1))
    } else {
        let n = word_len(s);
        proof {
            lemma_word_len_bounds(s);
        }
        seq![s.take(n as int)] + tokens(s.skip(n as int))
    }
}

/// The number of bytes at the start of `s` before the first line feed.
pub open spec fn line_len(s: Seq<u8>) -> nat
    decreases s.len(),
{
    if s.len() == 0 || s[0] == 10 {
        0
    } else {
        1 + line_len(s.skip(1))
    }
}

/// A line without the carriage return at its end, if it has one.
pub open spec fn strip_cr(line: Seq<u8>) -> Seq<u8> {
    if line.len() > 0 && line.last() == 13 {
        line.drop_last()
    } else {
        line
    }
}

/// The lines of `s`. A line ends at a line feed; a carriage return directly
/// before that line feed goes with it. What follows the last line feed is a
/// line too, unless it is empty.
pub open spec fn byte_lines(s: Seq<u8>) -> Seq<Seq<u8>>
    decreases s.len(),
{
    if s.len() == 0 {
        Seq::empty()
    } else {
        let n = line_len(s);
        if n >= s.len() {
            seq![s]
        } else {
            seq![strip_cr(s.take(n as int))] + byte_lines(s.skip(n as int + 1))
        }
    }
}

/// The message that tells that `cmd` could not be run for `reason`.
pub open spec fn failure_text(cmd: Seq<char>, reason: Seq<char>) -> Seq<char> {
    "Command "@ + cmd + " failed: "@ + reason
}

/// The text of bytes: what they encode where they are valid UTF-8, and
/// else what `String::from_utf8_lossy` makes of them.
pub open spec fn text_of(bytes: Seq<u8>) -> Seq<char> {
    if valid_utf8(bytes) {
        decode_utf8(bytes)
    } else {
        lossy_text(bytes)
    }
}

/// Lines of bytes as lines of text.
pub open spec fn text_lines(lines: Seq<Seq<u8>>) -> Seq<Seq<char>> {
    lines.map_values(|line: Seq<u8>| text_of(line))
}

/// The views of a vector of strings.
pub open spec fn texts(v: Seq<String>) -> Seq<Seq<char>> {
    v.map_values(|s: String| s@)
}

/// The words of a command line.
pub fn split_command(cmd: &str) -> (words: Vec<String>)
    ensures
        texts(words@) == tokens(cmd@),
{
    let n = cmd.unicode_len();
    let mut words: Vec<String> = Vec::new();
    let mut i: usize = 0;
    proof {
        assert(cmd@.skip(0) =~= cmd@);
        assert(texts(words@) + tokens(cmd@) =~= tokens(cmd@));
    }
    while i < n
        invariant
            n == cmd@.len(),
            i <= n,
            tokens(cmd@) == texts(words@) + tokens(cmd@.skip(i as int)),
        decreases n - i,
    {
        let ghost rest = cmd@.skip(i as int);
        let ghost found = texts(words@);
        if is_whitespace(cmd.get_char(i)) {
            assert(rest.skip(1) =~= cmd@.skip(i + 1));
            i += 1;
        } else {
            let start = i;
            let mut j: usize = i + 1;
            while j < n && !is_whitespace(cmd.get_char(j))
                invariant
                    n == cmd@.len(),
                    start < j <= n,
                    forall|k: int| start <= k < j ==> !is_space(#[trigger] cmd@[k]),
                decreases n - j,
            {
                j += 1;
            }
            let word = cmd.substring_char(start, j).to_owned();
            proof {
                lemma_word_len_run(rest, (j - start) as nat);
                assert(rest.take(j - start) =~= word@);
                assert(rest.skip(j - start) =~= cmd@.skip(j as int));
            }
            words.push(word);
            proof {
                assert(texts(words@) =~= found + seq![word@]);
                assert(found + (seq![word@] + tokens(cmd@.skip(j as int))) =~= texts(words@)
                    + tokens(cmd@.skip(j as int)));
            }
            i = j;
        }
    }
    proof {
        assert(texts(words@) + Seq::<Seq<char>>::empty() =~= texts(words@));
    }
    words
}

/// Program and arguments of a command line: its first word, and the words
/// after it. `None` when the line holds no word.
pub fn command_line(cmd: &str) -> (r: Option<(String, Vec<String>)>)
    ensures
        tokens(cmd@).len() == 0 ==> r is None,
        tokens(cmd@).len() > 0 ==> (r matches Some(run) && run.0@ == tokens(cmd@)[0] && texts(
            run.1@,
        ) == tokens(cmd@).skip(1)),
{
    let mut words = split_command(cmd);
    if words.len() == 0 {
        return None;
    }
    let ghost all = texts(words@);
    let program = words.remove(0);
    assert(texts(words@) =~= all.skip(1));
    Some((program, words))
}

/// The reply to a command line that holds no word.
pub fn bad_command() -> (lines: Vec<String>)
    ensures
        texts(lines@) == seq!["Bad command"@],
{
    let mut lines: Vec<String> = Vec::new();
    lines.push("Bad command".to_owned());
    assert(texts(lines@) =~= seq!["Bad command"@]);
    lines
}

/// The lines of a process's output, each as text. A line that is valid
/// UTF-8 comes out as the text it encodes.
pub fn output_lines(output: &[u8]) -> (lines: Vec<String>)
    ensures
        texts(lines@) == text_lines(byte_lines(output@)),
        forall|i: int|
            0 <= i < byte_lines(output@).len() && valid_utf8(#[trigger] byte_lines(output@)[i])
                ==> texts(lines@)[i] == decode_utf8(byte_lines(output@)[i]),
{
    let mut lines: Vec<String> = Vec::new();
    let n = output.len();
    let mut start: usize = 0;
    let mut i: usize = 0;
    proof {
        assert(output@.skip(0) =~= output@);
        assert(texts(lines@) + text_lines(byte_lines(output@)) =~= text_lines(byte_lines(
            output@,
        )));
    }
    while i < n
        invariant
            n == output@.len(),
            start <= i <= n,
            forall|k: int| start <= k < i ==> #[trigger] output@[k] != 10,
            text_lines(byte_lines(output@)) == texts(lines@) + text_lines(byte_lines(
                output@.skip(start as int),
            )),
        decreases n - i,
    {
        if output[i] == 10 {
            let ghost rest = output@.skip(start as int);
            let ghost found = texts(lines@);
            let end = if i > start && output[i - 1] == 13 {
                i - 1
            } else {
                i
            };
            let line = from_utf8_lossy(slice_subrange(output, start, end));
            proof {
                lemma_line_len_run(rest, (i - start) as nat);
                assert(rest.take(i - start) =~= output@.subrange(start as int, i as int));
                assert(strip_cr(rest.take(i - start)) =~= output@.subrange(
                    start as int,
                    end as int,
                ));
                assert(rest.skip(i - start + 1) =~= output@.skip(i + 1));
                let after = byte_lines(output@.skip(i + 1));
                assert(text_lines((seq![strip_cr(rest.take(i - start))] + after)) =~= seq![
                    line@,
                ] + text_lines(after));
            }
            lines.push(line);
            proof {
                let after = text_lines(byte_lines(output@.skip(i + 1)));
                assert(texts(lines@) =~= found + seq![line@]);
                assert(found + (seq![line@] + after) =~= texts(lines@) + after);
            }
            start = i + 1;
        }
        i += 1;
    }
    if start < n {
        let ghost rest = output@.skip(start as int);
        let ghost found = texts(lines@);
        let line = from_utf8_lossy(slice_subrange(output, start, n));
        proof {
            lemma_line_len_run(rest, (n - start) as nat);
            assert(rest =~= output@.subrange(start as int, n as int));
            assert(text_lines(seq![rest]) =~= seq![line@]);
        }
        lines.push(line);
        assert(texts(lines@) =~= found + seq![line@]);
    } else {
        proof {
            let none = text_lines(byte_lines(output@.skip(start as int)));
            assert(none =~= Seq::<Seq<char>>::empty());
            assert(texts(lines@) + none =~= texts(lines@));
        }
    }
    lines
}

/// The lines of the reply to a command that was tried: those of the
/// process's output, or, where it could not be run, those of the message
/// that says so with the `reason`.
pub fn report(cmd: &str, outcome: Result<&[u8], &str>) -> (lines: Vec<String>)
    ensures
        match outcome {
            Ok(output) => {
                &&& texts(lines@) == text_lines(byte_lines(output@))
                &&& forall|i: int|
                    0 <= i < byte_lines(output@).len() && valid_utf8(
                        #[trigger] byte_lines(output@)[i],
                    ) ==> texts(lines@)[i] == decode_utf8(byte_lines(output@)[i])
            },
            Err(reason) => {
                let message = encode_utf8(failure_text(cmd@, reason@));
                &&& texts(lines@) == text_lines(byte_lines(message))
                &&& forall|i: int|
                    0 <= i < byte_lines(message).len() && valid_utf8(
                        #[trigger] byte_lines(message)[i],
                    ) ==> texts(lines@)[i] == decode_utf8(byte_lines(message)[i])
            },
        },
{
    match outcome {
        Ok(output) => output_lines(output),
        Err(reason) => {
            let mut message = String::from_str("Command ");
            message.append(cmd);
            message.append(" failed: ");
            message.append(reason);
            output_lines(message.as_str().as_bytes())
        },
    }
}

/// The notification that ends a task: the task's user and the lines of the
/// result, for the worker that submitted the task.
pub fn finished(task: Task, lines: Vec<String>) -> (r: (usize, Message))
    ensures
        r.0 == task.reply_to,
        r.1 matches Message::TaskFinished { user, result } && user == task.user && result
            == lines,
{
    (task.reply_to, Message::TaskFinished { user: task.user, result: lines })
}

/// A word lies within the text it starts, and is not empty unless the text
/// starts with white space or is empty.
pub proof fn lemma_word_len_bounds(s: Seq<char>)
    ensures
        word_len(s) <= s.len(),
        s.len() > 0 && !is_space(s[0]) ==> word_len(s) >= 1,
    decreases s.len(),
{
    if s.len() > 0 && !is_space(s[0]) {
        lemma_word_len_bounds(s.skip(1));
    }
}

/// A run of `m` characters that are not white space, ended by white space or
/// the end of `s`, is the first word of `s`.
pub proof fn lemma_word_len_run(s: Seq<char>, m: nat)
    requires
        m <= s.len(),
        forall|k: int| 0 <= k < m ==> !is_space(#[trigger] s[k]),
        m == s.len() || is_space(s[m as int]),
    ensures
        word_len(s) == m,
    decreases m,
{
    if m > 0 {
        assert(!is_space(s[0]));
        assert forall|k: int| 0 <= k < m - 1 implies !is_space(#[trigger] s.skip(1)[k]) by {
            assert(s.skip(1)[k] == s[k + 1]);
        }
        lemma_word_len_run(s.skip(1), (m - 1) as nat);
    }
}

/// A run of `m` bytes that are no line feed, ended by a line feed or the end
/// of `s`, is the first line of `s`.
pub proof fn lemma_line_len_run(s: Seq<u8>, m: nat)
    requires
        m <= s.len(),
        forall|k: int| 0 <= k < m ==> #[trigger] s[k] != 10,
        m == s.len() || s[m as int] == 10,
    ensures
        line_len(s) == m,
    decreases m,
{
    if m > 0 {
        assert(s[0] != 10);
        assert forall|k: int| 0 <= k < m - 1 implies #[trigger] s.skip(1)[k] != 10 by {
            assert(s.skip(1)[k] == s[k + 1]);
        }
        lemma_line_len_run(s.skip(1), (m - 1) as nat);
    }
}

} // verus!
