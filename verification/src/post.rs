//! The payload: an author and lines of text, and its encoding as a record of
//! string fields (`author` is field 1, each line of `text` a field 2).

use crate::frame::{frame, to_buf, DecodeError, EncodeError, MAX_FRAME};
use crate::wire::{
    lemma_string_field_round, lemma_varint_at_len, read_string, read_tag, skip_at, skip_field,
    string_at, string_field, tag_at, write_string, WIRE_LENGTH_DELIMITED,
};
use vstd::prelude::*;
use vstd::slice::slice_subrange;
use vstd::string::StrSliceExecFns;
use vstd::string::StringSliceAdditionalSpecFns;
use vstd::utf8::encode_utf8;

verus! {

/// Field number of the author.
pub const AUTHOR: u32 = 1;

/// Field number of a line of text.
pub const TEXT: u32 = 2;

/// A message as clients exchange it.
#[derive(Debug, Clone, PartialEq, Eq)]
pub struct Post {
    pub author: String,
    pub text: Vec<String>,
}

/// The views of a vector of strings.
pub open spec fn lines_of(text: Seq<String>) -> Seq<Seq<char>> {
    text.map_values(|s: String| s@)
}

/// The fields of `lines`, one `text` field per line, in order.
pub open spec fn text_fields(lines: Seq<Seq<char>>) -> Seq<u8>
    decreases lines.len(),
{
    if lines.len() == 0 {
        Seq::empty()
    } else {
        text_fields(lines.drop_last()) + string_field(TEXT, lines.last())
    }
}

/// The encoding of a payload: the author first, then the lines in order.
pub open spec fn post_body(author: Seq<char>, lines: Seq<Seq<char>>) -> Seq<u8> {
    string_field(AUTHOR, author) + text_fields(lines)
}

/// What reading the fields in `s` makes of an author and lines read before:
/// a later author replaces an earlier one, lines add up in the order of the
/// bytes, and fields of other numbers are passed over. `None` when the bytes
/// are no sequence of fields or field 1 or 2 is no string.
pub open spec fn merge(s: Seq<u8>, author: Option<Seq<char>>, lines: Seq<Seq<char>>) -> Option<
    (Option<Seq<char>>, Seq<Seq<char>>),
>
    decreases s.len(),
{
    if s.len() == 0 {
        Some((author, lines))
    } else {
        match tag_at(s) {
            None => None,
            Some((number, wire, n)) => {
                let value = s.skip(n as int);
                proof {
                    lemma_varint_at_len(s, 0);
                    lemma_varint_at_len(value, 0);
                }
                if number == AUTHOR || number == TEXT {
                    if wire != WIRE_LENGTH_DELIMITED {
                        None
                    } else {
                        match string_at(value) {
                            None => None,
                            Some((chars, m)) => if number == AUTHOR {
                                merge(value.skip(m as int), Some(chars), lines)
                            } else {
                                merge(value.skip(m as int), author, lines.push(chars))
                            },
                        }
                    }
                } else {
                    match skip_at(value, wire) {
                        None => None,
                        Some(m) => merge(value.skip(m as int), author, lines),
                    }
                }
            },
        }
    }
}

/// The payload that `s` encodes: its fields read in any order, the author
/// being required.
pub open spec fn parse_post(s: Seq<u8>) -> Option<(Seq<char>, Seq<Seq<char>>)> {
    match merge(s, None, Seq::empty()) {
        Some((Some(author), lines)) => Some((author, lines)),
        _ => None,
    }
}

/// The command that a payload carries: the first line without its leading
/// `/`, where there is a first line and it begins with `/`.
pub open spec fn command_of(lines: Seq<Seq<char>>) -> Option<Seq<char>> {
    if lines.len() > 0 && lines[0].len() > 0 && lines[0][0] == '/' {
        Some(lines[0].skip(1))
    } else {
        None
    }
}

/// Whether every string of a payload is short enough for its length to be
/// written (below 2^32 bytes of UTF-8).
pub open spec fn encodable(author: Seq<char>, lines: Seq<Seq<char>>) -> bool {
    &&& encode_utf8(author).len() < 0x1_0000_0000
    &&& forall|i: int|
        0 <= i < lines.len() ==> encode_utf8(#[trigger] lines[i]).len() < 0x1_0000_0000
}

impl Post {
    /// The lines of text as sequences of characters.
    pub open spec fn lines(&self) -> Seq<Seq<char>> {
        lines_of(self.text@)
    }

    /// The schema encoding of this payload.
    pub open spec fn body(&self) -> Seq<u8> {
        post_body(self.author@, self.lines())
    }

    pub fn new(author: String, text: Vec<String>) -> (p: Post)
        ensures
            p.author == author,
            p.text == text,
    {
        Post { author, text }
    }

    /// The payload that `author` posts with `text`.
    pub fn from_text(author: String, text: Vec<String>) -> (p: Post)
        ensures
            p.author == author,
            p.text == text,
    {
        Post { author, text }
    }

    /// The reply that carries the lines of a command's output, posted by
    /// `nobody`.
    pub fn reply(lines: Vec<String>) -> (p: Post)
        ensures
            p.author@ == "nobody"@,
            p.text == lines,
    {
        Post { author: "nobody".to_owned(), text: lines }
    }

    /// The reply that carries one line of output, posted by `nobody`.
    pub fn from_result(result: String) -> (p: Post)
        ensures
            p.author@ == "nobody"@,
            p.text@ == seq![result],
    {
        let mut text: Vec<String> = Vec::new();
        text.push(result);
        Post::reply(text)
    }

    /// The command line that this payload asks to run, if it is a command:
    /// the first line without the leading `/`.
    pub fn command(&self) -> (r: Option<String>)
        ensures
            match command_of(self.lines()) {
                Some(cmd) => r matches Some(s) && s@ == cmd,
                None => r is None,
            },
    {
        if self.text.len() == 0 {
            return None;
        }
        let first = self.text[0].as_str();
        assert(first@ == self.lines()[0]);
        let n = first.unicode_len();
        if n == 0 {
            return None;
        }
        if first.get_char(0) != '/' {
            return None;
        }
        let cmd = first.substring_char(1, n).to_owned();
        assert(cmd@ =~= self.lines()[0].skip(1));
        Some(cmd)
    }

    /// Author and lines, by value.
    pub fn take(self) -> (r: (String, Vec<String>))
        ensures
            r.0 == self.author,
            r.1 == self.text,
    {
        (self.author, self.text)
    }

    pub fn get_author(&self) -> (a: &str)
        ensures
            a@ == self.author@,
    {
        self.author.as_str()
    }

    pub fn get_text(&self) -> (t: &Vec<String>)
        ensures
            *t == self.text,
    {
        &self.text
    }

    pub fn set_author(&mut self, v: String)
        ensures
            final(self).author == v,
            final(self).text == old(self).text,
    {
        self.author = v;
    }

    pub fn set_text(&mut self, v: Vec<String>)
        ensures
            final(self).text == v,
            final(self).author == old(self).author,
    {
        self.text = v;
    }

    /// Takes the author out and leaves an empty one.
    pub fn take_author(&mut self) -> (a: String)
        ensures
            a == old(self).author,
            final(self).author@ == Seq::<char>::empty(),
            final(self).text == old(self).text,
    {
        let mut a = String::new();
        std::mem::swap(&mut a, &mut self.author);
        a
    }

    /// Takes the lines out and leaves none.
    pub fn take_text(&mut self) -> (t: Vec<String>)
        ensures
            t == old(self).text,
            final(self).text@ == Seq::<String>::empty(),
            final(self).author == old(self).author,
    {
        let mut t: Vec<String> = Vec::new();
        std::mem::swap(&mut t, &mut self.text);
        t
    }

    /// Drops the lines.
    pub fn clear_text(&mut self)
        ensures
            final(self).text@ == Seq::<String>::empty(),
            final(self).author == old(self).author,
    {
        self.text = Vec::new();
    }

    /// Writes the fields of this payload: the author, then each line. Gives
    /// up as soon as the bytes cannot fit a frame any more.
    pub fn write_to_bytes(&self) -> (r: Result<Vec<u8>, EncodeError>)
        ensures
            match r {
                Ok(bytes) => bytes@ == self.body() && self.body().len() <= MAX_FRAME,
                Err(e) => e == EncodeError::TooLarge && self.body().len() > MAX_FRAME,
            },
    {
        let mut out: Vec<u8> = Vec::new();
        let author = self.author.as_str();
        proof {
            lemma_text_fields_grow(self.lines(), 0);
        }
        if author.as_bytes().len() > MAX_FRAME as usize {
            return Err(EncodeError::TooLarge);
        }
        match write_string(&mut out, AUTHOR, author) {
            Ok(()) => {},
            Err(_) => {
                return Err(EncodeError::Schema);
            },
        }
        let mut i: usize = 0;
        assert(self.lines().take(0) =~= Seq::<Seq<char>>::empty());
        while i < self.text.len()
            invariant
                i <= self.text@.len(),
                out@ == post_body(self.author@, self.lines().take(i as int)),
            decreases self.text@.len() - i,
        {
            let line = self.text[i].as_str();
            proof {
                assert(line@ == self.lines()[i as int]);
                lemma_text_fields_grow(self.lines(), i as int);
                assert(self.lines().take(i + 1).drop_last() =~= self.lines().take(i as int));
                lemma_text_fields_grow(self.lines(), i + 1);
            }
            if out.len() > MAX_FRAME as usize || line.as_bytes().len() > MAX_FRAME as usize {
                return Err(EncodeError::TooLarge);
            }
            match write_string(&mut out, TEXT, line) {
                Ok(()) => {},
                Err(_) => {
                    return Err(EncodeError::Schema);
                },
            }
            i += 1;
        }
        assert(self.lines().take(i as int) =~= self.lines());
        if out.len() > MAX_FRAME as usize {
            return Err(EncodeError::TooLarge);
        }
        Ok(out)
    }

    /// The frame that carries this payload. Fails exactly when the encoded
    /// payload is longer than `MAX_FRAME`.
    pub fn to_bytes(&self) -> (r: Result<Vec<u8>, EncodeError>)
        ensures
            match r {
                Ok(bytes) => bytes@ == frame(self.body()) && self.body().len() <= MAX_FRAME,
                Err(e) => e == EncodeError::TooLarge && self.body().len() > MAX_FRAME,
            },
    {
        match self.write_to_bytes() {
            Ok(body) => to_buf(body.as_slice()),
            Err(e) => Err(e),
        }
    }

    /// The frame that carries this payload, which is given up.
    pub fn into_bytes(self) -> (r: Result<Vec<u8>, EncodeError>)
        ensures
            match r {
                Ok(bytes) => bytes@ == frame(self.body()) && self.body().len() <= MAX_FRAME,
                Err(e) => e == EncodeError::TooLarge && self.body().len() > MAX_FRAME,
            },
    {
        self.to_bytes()
    }

    /// Reads fields from `bytes` until they end: the last author seen, if
    /// any, and the lines in the order of the bytes.
    pub fn merge_from(bytes: &[u8]) -> (r: Result<(Option<String>, Vec<String>), DecodeError>)
        ensures
            match merge(bytes@, None, Seq::empty()) {
                Some((author, lines)) => r matches Ok(read) && lines_of(read.1@) == lines && (
                match author {
                    Some(a) => read.0 matches Some(s) && s@ == a,
                    None => read.0 is None,
                }),
                None => r == Err::<(Option<String>, Vec<String>), DecodeError>(
                    DecodeError::Schema,
                ),
            },
    {
        let mut author: Option<String> = None;
        let mut text: Vec<String> = Vec::new();
        let mut pos: usize = 0;
        let ghost whole = merge(bytes@, None, Seq::empty());
        assert(bytes@.skip(0) =~= bytes@);
        assert(lines_of(text@) =~= Seq::<Seq<char>>::empty());
        while pos < bytes.len()
            invariant
                pos <= bytes@.len(),
                whole == merge(bytes@, None, Seq::empty()),
                whole == merge(
                    bytes@.skip(pos as int),
                    match author {
                        Some(s) => Some(s@),
                        None => None,
                    },
                    lines_of(text@),
                ),
            decreases bytes@.len() - pos,
        {
            let ghost here = bytes@.skip(pos as int);
            let rest = slice_subrange(bytes, pos, bytes.len());
            assert(rest@ =~= here);
            proof {
                lemma_varint_at_len(here, 0);
            }
            let (number, wire, n) = match read_tag(rest) {
                Ok(t) => t,
                Err(_) => {
                    return Err(DecodeError::Schema);
                },
            };
            pos = pos + n;
            let ghost value = here.skip(n as int);
            let rest = slice_subrange(bytes, pos, bytes.len());
            assert(rest@ =~= value);
            proof {
                lemma_varint_at_len(value, 0);
            }
            if number == AUTHOR || number == TEXT {
                if wire != WIRE_LENGTH_DELIMITED {
                    return Err(DecodeError::Schema);
                }
                let (s, m) = match read_string(rest) {
                    Ok(t) => t,
                    Err(_) => {
                        return Err(DecodeError::Schema);
                    },
                };
                assert(value.skip(m as int) =~= bytes@.skip(pos + m));
                if number == AUTHOR {
                    author = Some(s);
                } else {
                    let ghost before = lines_of(text@);
                    text.push(s);
                    assert(lines_of(text@) =~= before.push(s@));
                }
                pos = pos + m;
            } else {
                let m = match skip_field(rest, wire) {
                    Ok(m) => m,
                    Err(_) => {
                        return Err(DecodeError::Schema);
                    },
                };
                assert(value.skip(m as int) =~= bytes@.skip(pos + m));
                pos = pos + m;
            }
        }
        Ok((author, text))
    }

    /// Whether the required field was read.
    pub fn is_initialized(author: &Option<String>) -> (b: bool)
        ensures
            b == author is Some,
    {
        author.is_some()
    }

    /// The payload that `bytes` encode. Fields may come in any order; a
    /// payload without author is refused.
    pub fn from_bytes(bytes: &[u8]) -> (r: Result<Post, DecodeError>)
        ensures
            match parse_post(bytes@) {
                Some((author, lines)) => r matches Ok(p) && p.author@ == author && p.lines()
                    == lines,
                None => r == Err::<Post, DecodeError>(DecodeError::Schema),
            },
    {
        match Post::merge_from(bytes) {
            Ok((author, text)) => match author {
                Some(author) => Ok(Post { author, text }),
                None => Err(DecodeError::Schema),
            },
            Err(e) => Err(e),
        }
    }
}

/// The fields of the first `i` lines are the beginning of the fields of all
/// lines, and every line's bytes count toward the whole.
pub proof fn lemma_text_fields_grow(lines: Seq<Seq<char>>, i: int)
    requires
        0 <= i <= lines.len(),
    ensures
        text_fields(lines.take(i)).len() <= text_fields(lines).len(),
        i < lines.len() ==> text_fields(lines.take(i + 1)) == text_fields(lines.take(i))
            + string_field(TEXT, lines[i]),
        i < lines.len() ==> encode_utf8(lines[i]).len() <= text_fields(lines).len(),
    decreases lines.len() - i,
{
    if i < lines.len() {
        assert(lines.take(i + 1).drop_last() =~= lines.take(i));
        assert(lines.take(i + 1).last() == lines[i]);
        lemma_text_fields_grow(lines, i + 1);
    } else {
        assert(lines.take(i) =~= lines);
    }
}

/// The fields of lines begin with the field of the first line.
pub proof fn lemma_text_fields_first(lines: Seq<Seq<char>>)
    requires
        lines.len() > 0,
    ensures
        text_fields(lines) == string_field(TEXT, lines[0]) + text_fields(lines.skip(1)),
    decreases lines.len(),
{
    if lines.len() == 1 {
        assert(lines.drop_last() =~= Seq::<Seq<char>>::empty());
        assert(lines.skip(1) =~= Seq::<Seq<char>>::empty());
        assert(text_fields(Seq::<Seq<char>>::empty()) =~= Seq::<u8>::empty());
        assert(text_fields(lines) =~= string_field(TEXT, lines[0]) + text_fields(lines.skip(1)));
    } else {
        lemma_text_fields_first(lines.drop_last());
        assert(lines.drop_last().skip(1) =~= lines.skip(1).drop_last());
        assert(lines.skip(1).last() == lines.last());
        assert(text_fields(lines) =~= string_field(TEXT, lines[0]) + text_fields(lines.skip(1)));
    }
}

/// Reading the fields of lines adds exactly those lines, in order.
pub proof fn lemma_merge_text_fields(
    lines: Seq<Seq<char>>,
    author: Option<Seq<char>>,
    before: Seq<Seq<char>>,
)
    requires
        forall|i: int|
            0 <= i < lines.len() ==> encode_utf8(#[trigger] lines[i]).len() < 0x1_0000_0000,
    ensures
        merge(text_fields(lines), author, before) == Some((author, before + lines)),
    decreases lines.len(),
{
    if lines.len() == 0 {
        assert(before + lines =~= before);
    } else {
        let first = lines[0];
        let others = lines.skip(1);
        let tail = text_fields(others);
        lemma_text_fields_first(lines);
        lemma_string_field_round(TEXT, first, tail);
        let s = string_field(TEXT, first) + tail;
        let value = s.skip(1);
        let m = (string_field(TEXT, first).len() - 1) as nat;
        assert(value.skip(m as int) =~= s.skip(string_field(TEXT, first).len() as int));
        assert forall|i: int| 0 <= i < others.len() implies encode_utf8(
            #[trigger] others[i],
        ).len() < 0x1_0000_0000 by {
            assert(others[i] == lines[i + 1]);
        }
        lemma_merge_text_fields(others, author, before.push(first));
        assert(before.push(first) + others =~= before + lines);
    }
}

/// Round trip of the schema: the encoding of a payload parses back to that
/// payload.
pub proof fn lemma_parse_post_body(author: Seq<char>, lines: Seq<Seq<char>>)
    requires
        encodable(author, lines),
    ensures
        parse_post(post_body(author, lines)) == Some((author, lines)),
{
    let tail = text_fields(lines);
    lemma_string_field_round(AUTHOR, author, tail);
    let s = string_field(AUTHOR, author) + tail;
    let value = s.skip(1);
    let m = (string_field(AUTHOR, author).len() - 1) as nat;
    assert(value.skip(m as int) =~= s.skip(string_field(AUTHOR, author).len() as int));
    lemma_merge_text_fields(lines, Some(author), Seq::empty());
    assert(Seq::<Seq<char>>::empty() + lines =~= lines);
}

/// A payload whose encoding fits a frame has strings short enough to encode.
pub proof fn lemma_fitting_is_encodable(author: Seq<char>, lines: Seq<Seq<char>>)
    requires
        post_body(author, lines).len() <= MAX_FRAME,
    ensures
        encodable(author, lines),
{
    assert forall|i: int| 0 <= i < lines.len() implies encode_utf8(#[trigger] lines[i]).len()
        < 0x1_0000_0000 by {
        lemma_text_fields_grow(lines, i);
    }
}

/// Decoding undoes encoding: the frame of a payload holds exactly one body,
/// and that body parses back to the payload.
pub proof fn lemma_decode_encode(author: Seq<char>, lines: Seq<Seq<char>>)
    requires
        post_body(author, lines).len() <= MAX_FRAME,
    ensures
        crate::frame::split_frames(frame(post_body(author, lines))) == Some(
            (seq![post_body(author, lines)], Seq::<u8>::empty()),
        ),
        parse_post(post_body(author, lines)) == Some((author, lines)),
{
    let body = post_body(author, lines);
    lemma_fitting_is_encodable(author, lines);
    lemma_parse_post_body(author, lines);
    crate::frame::lemma_split_frames_of(seq![body]);
    assert(crate::frame::frames(seq![body].skip(1)) =~= Seq::<u8>::empty());
    assert(crate::frame::frames(seq![body]) =~= frame(body));
}

/// A payload sent `k` times and received in any pieces is decoded `k`
/// times: the decoder hands out its body `k` times, and the body parses back
/// to the payload.
pub proof fn lemma_decode_encode_repeated(
    author: Seq<char>,
    lines: Seq<Seq<char>>,
    k: nat,
    chunks: Seq<Seq<u8>>,
)
    requires
        post_body(author, lines).len() <= MAX_FRAME,
        crate::chunker::concat(chunks) == crate::frame::frames(
            crate::chunker::repeated(post_body(author, lines), k),
        ),
    ensures
        crate::chunker::feed_all(Seq::<u8>::empty(), chunks) == Some(
            (crate::chunker::repeated(post_body(author, lines), k), Seq::<u8>::empty()),
        ),
        parse_post(post_body(author, lines)) == Some((author, lines)),
{
    lemma_decode_encode(author, lines);
    crate::chunker::lemma_round_trip_repeated(post_body(author, lines), k, chunks);
}

} // verus!
